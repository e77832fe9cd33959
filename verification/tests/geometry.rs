use cube_core::movement::{Constraint, Movement};
use cube_core::neighborhood::{Adjacence, Neighborhood, near};
use cube_core::outlines::{Outlines, Unit};
use cube_core::point::Point;

#[test]
fn outlines() {
    let outlines = Outlines::new(&Vec::new());
    let actual = outlines.all(Point::new(0, 0));
    assert_eq!(actual, Vec::new());
    for movement in [Movement::Left, Movement::Down, Movement::Up, Movement::Right] {
        let actual = outlines.one(Point::new(0, 0), movement);
        assert_eq!(actual, Vec::new());
    }

    let units = vec![
        Unit {
            index: 0,
            position: Point::new(0, 0),
            neighborhood: Neighborhood::from(&[Adjacence::Bottom]),
        },
        Unit {
            index: 0,
            position: Point::new(0, 1),
            neighborhood: Neighborhood::from(&[Adjacence::Top]),
        },
    ];
    let outlines = Outlines::new(&units);

    let expected = vec![Point::new(0, 1), Point::new(0, 2)];
    let actual = outlines.one(Point::new(1, 1), Movement::Left);
    assert_eq!(actual, expected);

    let expected = vec![Point::new(2, 1), Point::new(2, 2)];
    let actual = outlines.one(Point::new(1, 1), Movement::Right);
    assert_eq!(actual, expected);

    let expected = vec![Point::new(1, 0)];
    let actual = outlines.one(Point::new(1, 1), Movement::Up);
    assert_eq!(actual, expected);

    let expected = vec![Point::new(1, 3)];
    let actual = outlines.one(Point::new(1, 1), Movement::Down);
    assert_eq!(actual, expected);
}

#[test]
fn outlines_of_isolated_unit() {
    let units = vec![Unit {
        index: 0,
        position: Point::new(4, 7),
        neighborhood: Neighborhood::new(),
    }];
    let outlines = Outlines::new(&units);
    assert_eq!(outlines.one(Point::new(4, 7), Movement::Left), vec![Point::new(3, 7)]);
    assert_eq!(outlines.one(Point::new(4, 7), Movement::Down), vec![Point::new(4, 8)]);
    assert_eq!(outlines.one(Point::new(4, 7), Movement::Up), vec![Point::new(4, 6)]);
    assert_eq!(outlines.one(Point::new(4, 7), Movement::Right), vec![Point::new(5, 7)]);
    assert_eq!(outlines.all(Point::new(4, 7)).len(), 4);
}

#[test]
fn neighborhood_flags() {
    let mut n = Neighborhood::new();
    for a in [
        Adjacence::Left,
        Adjacence::LeftTop,
        Adjacence::Top,
        Adjacence::RightTop,
        Adjacence::Right,
        Adjacence::RightBottom,
        Adjacence::Bottom,
        Adjacence::LeftBottom,
    ] {
        assert!(!n.has(a));
    }
    n.set(Adjacence::Left);
    n.set(Adjacence::Bottom);
    assert!(n.has(Adjacence::Left));
    assert!(n.has(Adjacence::Bottom));
    assert!(!n.has(Adjacence::Top));
    n.unset(Adjacence::Left);
    assert!(!n.has(Adjacence::Left));
    assert!(n.has(Adjacence::Bottom));
}

#[test]
fn neighborhood_states_match_has() {
    let around = [
        Adjacence::Left,
        Adjacence::LeftTop,
        Adjacence::Top,
        Adjacence::RightTop,
        Adjacence::Right,
        Adjacence::RightBottom,
        Adjacence::Bottom,
        Adjacence::LeftBottom,
    ];
    let n = Neighborhood::from(&[Adjacence::Left, Adjacence::RightBottom]);
    let states = n.states();
    for (k, a) in around.into_iter().enumerate() {
        assert_eq!(states[k], n.has(a));
    }
    assert_eq!(
        states,
        [true, false, false, false, false, true, false, false]
    );
}

#[test]
fn movement_relations() {
    assert_eq!(Movement::Left.opposite(), Movement::Right);
    assert_eq!(Movement::Down.opposite(), Movement::Up);
    assert_eq!(Movement::Up.opposite(), Movement::Down);
    assert_eq!(Movement::Right.opposite(), Movement::Left);
    assert!(Movement::Left.opposite_to(Movement::Right));
    assert!(!Movement::Left.opposite_to(Movement::Up));
    assert!(Movement::Left.orthogonal_to(Movement::Up));
    assert!(Movement::Left.orthogonal_to(Movement::Down));
    assert!(!Movement::Left.orthogonal_to(Movement::Right));
    assert!(Movement::Up.orthogonal_to(Movement::Left));
}

#[test]
fn movement_offsets() {
    assert_eq!(Movement::Left.offset(), Point::new(-1, 0));
    assert_eq!(Movement::Down.offset(), Point::new(0, 1));
    assert_eq!(Movement::Up.offset(), Point::new(0, -1));
    assert_eq!(Movement::Right.offset(), Point::new(1, 0));
}

#[test]
fn constraint_ordering() {
    assert_eq!(Constraint::Free.max(Constraint::Slap), Constraint::Slap);
    assert_eq!(Constraint::Lock.max(Constraint::Slap), Constraint::Lock);
    assert_eq!(Constraint::Stop.max(Constraint::Free), Constraint::Stop);
    assert_eq!(Constraint::Lock.max(Constraint::Lock), Constraint::Lock);
}

#[test]
fn point_arithmetic() {
    let p = Point::new(3, -2);
    let q = Point::new(-1, 5);
    assert_eq!(p.plus(q), Point::new(2, 3));
    assert_eq!(p.minus(q), Point::new(4, -7));
    assert_eq!(near(p, Adjacence::LeftTop), Point::new(2, -3));
    assert_eq!(near(p, Adjacence::RightBottom), Point::new(4, -1));
}
