use cube_core::cube::{Collection, CubeSeed};
use cube_core::kind::Kind;
use cube_core::motion::Motion;
use cube_core::movement::{Constraint, Movement};
use cube_core::point::Point;

fn seed_moving(kind: Kind, body: Vec<Point>, movement: Option<Movement>) -> CubeSeed {
    CubeSeed { kind, body, movement, motion: Motion::idle() }
}

fn build(
    width: usize,
    height: usize,
    obstacles: Vec<Vec<Point>>,
    seeds: Vec<CubeSeed>,
) -> Collection {
    match Collection::new(width, height, &obstacles, &seeds) {
        Ok(c) => c,
        Err(_) => panic!("level data was rejected"),
    }
}

#[test]
fn wall_stops_a_mover() {
    let mut c = build(
        4,
        1,
        vec![vec![Point::new(0, 0)]],
        vec![seed_moving(Kind::Green, vec![Point::new(1, 0)], None)],
    );
    c.input(Some(Movement::Left), Kind::Green);
    assert_eq!(c.cubes[0].movement, Some(Movement::Left));
    assert_eq!(c.cubes[0].constraint, Constraint::Stop);
}

#[test]
fn open_ground_frees_a_mover() {
    let mut c = build(
        4,
        1,
        Vec::new(),
        vec![seed_moving(Kind::Green, vec![Point::new(1, 0)], None)],
    );
    c.input(Some(Movement::Right), Kind::Green);
    assert_eq!(c.cubes[0].movement, Some(Movement::Right));
    assert_eq!(c.cubes[0].constraint, Constraint::Free);
}

#[test]
fn blockage_chains_through_same_direction_movers() {
    let mut c = build(
        3,
        1,
        vec![vec![Point::new(2, 0)]],
        vec![
            seed_moving(Kind::Green, vec![Point::new(0, 0)], None),
            seed_moving(Kind::Green, vec![Point::new(1, 0)], None),
        ],
    );
    c.input(Some(Movement::Right), Kind::Green);
    assert_eq!(c.cubes[0].constraint, Constraint::Stop);
    assert_eq!(c.cubes[1].constraint, Constraint::Stop);
}

#[test]
fn stationary_occupant_stops_a_mover() {
    let mut c = build(
        3,
        1,
        Vec::new(),
        vec![
            seed_moving(Kind::Green, vec![Point::new(0, 0)], None),
            seed_moving(Kind::Blue, vec![Point::new(1, 0)], None),
        ],
    );
    c.input(Some(Movement::Right), Kind::Green);
    assert_eq!(c.cubes[0].constraint, Constraint::Stop);
    assert_eq!(c.cubes[1].constraint, Constraint::Free);
    assert_eq!(c.cubes[1].movement, None);
}

#[test]
fn same_direction_column_moves_freely() {
    let mut c = build(
        4,
        1,
        Vec::new(),
        vec![
            seed_moving(Kind::Green, vec![Point::new(0, 0)], None),
            seed_moving(Kind::Green, vec![Point::new(1, 0)], None),
        ],
    );
    c.input(Some(Movement::Right), Kind::Green);
    assert_eq!(c.cubes[0].constraint, Constraint::Free);
    assert_eq!(c.cubes[1].constraint, Constraint::Free);
}

#[test]
fn crossing_mover_of_another_kind_stops_it() {
    let mut c = build(
        3,
        3,
        Vec::new(),
        vec![
            seed_moving(Kind::Green, vec![Point::new(0, 1)], None),
            seed_moving(Kind::Blue, vec![Point::new(1, 1)], Some(Movement::Up)),
        ],
    );
    c.input(Some(Movement::Right), Kind::Green);
    assert_eq!(c.cubes[0].constraint, Constraint::Stop);
    assert_eq!(c.cubes[1].constraint, Constraint::Free);
    assert_eq!(c.cubes[1].movement, Some(Movement::Up));
}

#[test]
fn input_reaches_only_the_controlled_kind() {
    let mut c = build(
        4,
        2,
        Vec::new(),
        vec![
            seed_moving(Kind::Green, vec![Point::new(0, 0)], None),
            seed_moving(Kind::Red, vec![Point::new(0, 1)], None),
        ],
    );
    c.input(Some(Movement::Right), Kind::Green);
    assert_eq!(c.cubes[0].movement, Some(Movement::Right));
    assert_eq!(c.cubes[1].movement, None);
}
