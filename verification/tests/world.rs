use cube_core::area::Area;
use cube_core::handle::{HeadID, UnitID};
use cube_core::kind::Kind;
use cube_core::point::Point;

#[test]
fn area_blocks_only_listed_cells() {
    let groups = vec![vec![Point::new(1, 1), Point::new(2, 1)]];
    let area = Area::new(4, 4, &groups);
    assert!(area.blocked(Point::new(1, 1)));
    assert!(area.blocked(Point::new(2, 1)));
    assert!(!area.blocked(Point::new(0, 0)));
    assert!(!area.blocked(Point::new(-1, 1)));
    assert!(!area.blocked(Point::new(1, 9)));
}

#[test]
fn area_iteration_yields_white_items() {
    let groups = vec![vec![Point::new(0, 0), Point::new(1, 0)]];
    let area = Area::new(4, 4, &groups);
    let mut iter = area.iter(5);
    let first = iter.next().unwrap();
    assert_eq!(first.id, HeadID(5));
    assert_eq!(first.kind, Kind::White);
    assert_eq!(first.position, Point::new(0, 0));
    assert_eq!(first.movement, None);
    let second = iter.next().unwrap();
    assert_eq!(second.id, HeadID(6));
    assert_eq!(second.position, Point::new(1, 0));
    assert!(iter.next().is_none());
}

#[test]
fn handles_convert_to_indices() {
    let h = HeadID::from(3usize);
    assert_eq!(usize::from(h), 3usize);
    let u = UnitID::from(9usize);
    assert_eq!(usize::from(u), 9usize);
}
