use cube_core::cube::{Collection, CubeSeed, LevelError};
use cube_core::arena::{Arena, ArenaResult};
use cube_core::kind::Kind;
use cube_core::motion::Motion;
use cube_core::outlines::Outlines;
use cube_core::point::Point;

fn seed(kind: Kind, body: Vec<Point>) -> CubeSeed {
    CubeSeed { kind, body, movement: None, motion: Motion::idle() }
}

fn build(width: usize, height: usize, seeds: Vec<CubeSeed>) -> Collection {
    match Collection::new(width, height, &Vec::new(), &seeds) {
        Ok(c) => c,
        Err(_) => panic!("level data was rejected"),
    }
}

fn positions(c: &Collection, i: usize) -> Vec<Point> {
    c.cubes[i].units.iter().map(|u| u.position).collect()
}

#[test]
fn kind_dominance_cycle() {
    assert!(Kind::Blue.beats(Kind::Red));
    assert!(Kind::Green.beats(Kind::Blue));
    assert!(Kind::Red.beats(Kind::Green));
    assert!(!Kind::Red.beats(Kind::Blue));
    assert!(!Kind::Blue.beats(Kind::Green));
    assert!(!Kind::Green.beats(Kind::Red));
    for k in [Kind::White, Kind::Red, Kind::Blue, Kind::Green] {
        assert!(!k.beats(k));
        assert!(!k.beats(Kind::White));
        assert!(!Kind::White.beats(k));
    }
}

#[test]
fn kind_absorbable_pairs() {
    assert!(Kind::Red.absorbable(Kind::Green));
    assert!(Kind::Green.absorbable(Kind::Red));
    assert!(!Kind::Red.absorbable(Kind::Red));
    assert!(!Kind::Red.absorbable(Kind::White));
    assert!(Kind::Red.linkable(Kind::Red));
    assert!(!Kind::Red.linkable(Kind::Blue));
}

#[test]
fn arena_decides_from_the_kinds_present() {
    let mut arena = Arena::new();
    arena.input(Kind::Red);
    arena.input(Kind::Green);
    assert_eq!(arena.output(), ArenaResult::Have(Kind::Red));

    let mut arena = Arena::new();
    arena.input(Kind::Red);
    arena.input(Kind::Blue);
    assert_eq!(arena.output(), ArenaResult::Have(Kind::Blue));

    let mut arena = Arena::new();
    arena.input(Kind::Blue);
    arena.input(Kind::Green);
    assert_eq!(arena.output(), ArenaResult::Have(Kind::Green));

    let mut arena = Arena::new();
    arena.input(Kind::Red);
    assert_eq!(arena.output(), ArenaResult::Nothing);

    let mut arena = Arena::new();
    arena.input(Kind::White);
    arena.input(Kind::White);
    assert_eq!(arena.output(), ArenaResult::Nothing);

    let mut arena = Arena::new();
    arena.input(Kind::Red);
    arena.input(Kind::Blue);
    let more = arena.input(Kind::Green);
    assert!(!more);
    assert_eq!(arena.output(), ArenaResult::Draw);
}

#[test]
fn arena_ignores_input_order() {
    let orders = [
        [Kind::Red, Kind::Green, Kind::Red],
        [Kind::Green, Kind::Red, Kind::Red],
        [Kind::Red, Kind::Red, Kind::Green],
    ];
    for order in orders {
        let mut arena = Arena::new();
        for k in order {
            arena.input(k);
        }
        assert_eq!(arena.output(), ArenaResult::Have(Kind::Red));
    }
}

#[test]
fn red_absorbs_touching_green() {
    let mut c = build(
        4,
        4,
        vec![
            seed(Kind::Red, vec![Point::new(0, 0)]),
            seed(Kind::Green, vec![Point::new(1, 0)]),
        ],
    );
    c.absorb();
    assert_eq!(c.cubes.len(), 1);
    assert_eq!(c.cubes[0].kind, Kind::Red);
    assert_eq!(c.cubes[0].units.len(), 2);
    assert!(!c.cubes[0].balanced);
}

#[test]
fn three_kinds_draw() {
    let mut c = build(
        4,
        4,
        vec![
            seed(Kind::Red, vec![Point::new(0, 0)]),
            seed(Kind::Blue, vec![Point::new(1, 0)]),
            seed(Kind::Green, vec![Point::new(2, 0)]),
        ],
    );
    c.absorb();
    assert_eq!(c.cubes.len(), 3);
    for i in 0..3 {
        assert!(c.cubes[i].balanced);
        assert_eq!(c.cubes[i].units.len(), 1);
    }
    assert_eq!(c.cubes[0].kind, Kind::Red);
    assert_eq!(c.cubes[1].kind, Kind::Blue);
    assert_eq!(c.cubes[2].kind, Kind::Green);
}

#[test]
fn same_kind_does_not_merge() {
    let mut c = build(
        4,
        4,
        vec![
            seed(Kind::Red, vec![Point::new(0, 0)]),
            seed(Kind::Red, vec![Point::new(1, 0)]),
        ],
    );
    c.absorb();
    assert_eq!(c.cubes.len(), 2);
    assert_eq!(c.cubes[0].units.len(), 1);
    assert_eq!(c.cubes[1].units.len(), 1);
    assert!(!c.cubes[0].balanced);
    assert!(!c.cubes[1].balanced);
}

#[test]
fn second_absorb_changes_nothing() {
    let mut c = build(
        4,
        4,
        vec![
            seed(Kind::Red, vec![Point::new(0, 0)]),
            seed(Kind::Green, vec![Point::new(1, 0)]),
            seed(Kind::Blue, vec![Point::new(3, 3)]),
        ],
    );
    c.absorb();
    let kinds: Vec<Kind> = c.cubes.iter().map(|q| q.kind).collect();
    let balanced: Vec<bool> = c.cubes.iter().map(|q| q.balanced).collect();
    let bodies: Vec<Vec<Point>> = (0..c.cubes.len()).map(|i| positions(&c, i)).collect();
    c.absorb();
    assert_eq!(c.cubes.len(), kinds.len());
    for i in 0..kinds.len() {
        assert_eq!(c.cubes[i].kind, kinds[i]);
        assert_eq!(c.cubes[i].balanced, balanced[i]);
        assert_eq!(positions(&c, i), bodies[i]);
    }
}

#[test]
fn no_empty_cube_survives_absorb() {
    let mut c = build(
        6,
        2,
        vec![
            seed(Kind::Green, vec![Point::new(0, 0)]),
            seed(Kind::Blue, vec![Point::new(1, 0)]),
            seed(Kind::Green, vec![Point::new(4, 0)]),
            seed(Kind::Blue, vec![Point::new(5, 0)]),
        ],
    );
    c.absorb();
    assert_eq!(c.cubes.len(), 2);
    for cube in c.cubes.iter() {
        assert!(cube.units.len() > 0);
        assert_eq!(cube.kind, Kind::Green);
    }
}

#[test]
fn merged_outline_drops_interior_points() {
    let mut c = build(
        4,
        4,
        vec![
            seed(Kind::Red, vec![Point::new(1, 1)]),
            seed(Kind::Green, vec![Point::new(2, 1)]),
        ],
    );
    c.absorb();
    assert_eq!(c.cubes.len(), 1);
    let anchor = Outlines::anchor(&c.cubes[0].units);
    let mut boundary = c.cubes[0].outlines.all(anchor);
    boundary.sort_by_key(|p| (p.x, p.y));
    boundary.dedup();
    let mut expected = vec![
        Point::new(0, 1),
        Point::new(1, 0),
        Point::new(1, 2),
        Point::new(2, 0),
        Point::new(2, 2),
        Point::new(3, 1),
    ];
    expected.sort_by_key(|p| (p.x, p.y));
    assert_eq!(boundary, expected);
}

#[test]
fn white_cubes_never_win() {
    let mut c = build(
        4,
        4,
        vec![
            seed(Kind::White, vec![Point::new(0, 0)]),
            seed(Kind::Red, vec![Point::new(1, 0)]),
        ],
    );
    c.absorb();
    assert_eq!(c.cubes.len(), 2);
    assert_eq!(c.cubes[0].kind, Kind::White);
    assert_eq!(c.cubes[1].kind, Kind::Red);
}

#[test]
fn white_neighbor_joins_a_won_merge() {
    let mut c = build(
        4,
        4,
        vec![
            seed(Kind::Red, vec![Point::new(0, 0)]),
            seed(Kind::Green, vec![Point::new(1, 0)]),
            seed(Kind::White, vec![Point::new(2, 0)]),
        ],
    );
    c.absorb();
    assert_eq!(c.cubes.len(), 1);
    assert_eq!(c.cubes[0].kind, Kind::Red);
    assert_eq!(c.cubes[0].units.len(), 3);
}

#[test]
fn bystander_cube_is_untouched() {
    let mut c = build(
        6,
        2,
        vec![
            seed(Kind::Red, vec![Point::new(0, 0)]),
            seed(Kind::Green, vec![Point::new(1, 0)]),
            seed(Kind::Blue, vec![Point::new(5, 1)]),
        ],
    );
    c.absorb();
    assert_eq!(c.cubes.len(), 2);
    assert_eq!(c.cubes[0].kind, Kind::Red);
    assert_eq!(c.cubes[0].units.len(), 2);
    assert_eq!(c.cubes[1].kind, Kind::Blue);
    assert_eq!(positions(&c, 1), vec![Point::new(5, 1)]);
    assert!(!c.cubes[1].balanced);
}

#[test]
fn construction_rejects_bad_levels() {
    let r = Collection::new(0, 4, &Vec::new(), &Vec::new());
    assert!(matches!(r, Err(LevelError::InvalidSize)));

    let r = Collection::new(4, 4, &Vec::new(), &vec![seed(Kind::Red, vec![Point::new(7, 0)])]);
    assert!(matches!(r, Err(LevelError::OutOfBounds)));

    let r = Collection::new(4, 4, &Vec::new(), &vec![seed(Kind::Red, Vec::new())]);
    assert!(matches!(r, Err(LevelError::EmptyCube)));

    let r = Collection::new(
        4,
        4,
        &Vec::new(),
        &vec![
            seed(Kind::Red, vec![Point::new(0, 0)]),
            seed(Kind::Blue, vec![Point::new(0, 0)]),
        ],
    );
    assert!(matches!(r, Err(LevelError::Overlapping)));

    let r = Collection::new(
        4,
        4,
        &vec![vec![Point::new(1, 1)]],
        &vec![seed(Kind::Red, vec![Point::new(1, 1)])],
    );
    assert!(matches!(r, Err(LevelError::Overlapping)));
}

