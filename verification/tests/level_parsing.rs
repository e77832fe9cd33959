use cube_core::level::{CubeType, Info, Location, Movement};
use cube_core::source::{Error, FieldName, RawCommand, RawMap, Source};

fn source(title: &str, author: &str, raw: &str, commands: Vec<RawCommand>) -> Source {
    Source {
        info: Info { title: title.to_string(), author: author.to_string() },
        map: RawMap { raw: raw.to_string(), commands },
    }
}

fn body_of(seed: &cube_core::level::Seed, i: usize) -> Vec<(i32, i32)> {
    seed.cubes[i].body.iter().map(|l| (l.x, l.y)).collect()
}

#[test]
fn parses_a_small_map() {
    let seed = source("t", "a", "RG\nxW", Vec::new()).into_seed().unwrap();
    assert_eq!(seed.size.width, 2);
    assert_eq!(seed.size.height, 2);
    assert_eq!(seed.cubes.len(), 3);
    assert_eq!(seed.cubes[0].kind, CubeType::Red);
    assert_eq!(body_of(&seed, 0), vec![(0, 0)]);
    assert_eq!(seed.cubes[1].kind, CubeType::Green);
    assert_eq!(body_of(&seed, 1), vec![(1, 0)]);
    assert_eq!(seed.cubes[2].kind, CubeType::White);
    assert_eq!(body_of(&seed, 2), vec![(1, 1)]);
    assert_eq!(seed.destnations.len(), 1);
    assert_eq!(seed.destnations[0], Location { x: 0, y: 1 });
    assert_eq!(seed.info.title, "t");
    assert_eq!(seed.info.author, "a");
}

#[test]
fn copy_markers_extend_one_cube() {
    let seed = source("t", "a", "R~\n|/", Vec::new()).into_seed().unwrap();
    assert_eq!(seed.cubes.len(), 1);
    assert_eq!(body_of(&seed, 0), vec![(0, 0), (1, 0), (0, 1), (1, 1)]);
    assert_eq!(seed.size.width, 2);
    assert_eq!(seed.size.height, 2);
}

#[test]
fn merge_marker_joins_same_kind_cubes() {
    let seed = source("t", "a", "RR\n|/", Vec::new()).into_seed().unwrap();
    assert_eq!(seed.cubes.len(), 1);
    assert_eq!(seed.cubes[0].kind, CubeType::Red);
    assert_eq!(body_of(&seed, 0), vec![(0, 0), (0, 1), (1, 0), (1, 1)]);
}

#[test]
fn missing_fields_are_reported() {
    let r = source("", "a", "R", Vec::new()).into_seed();
    assert!(matches!(r, Err(Error::MissingField { field: FieldName::Title })));
    let r = source("t", "", "R", Vec::new()).into_seed();
    assert!(matches!(r, Err(Error::MissingField { field: FieldName::Author })));
    let r = source("t", "a", "", Vec::new()).into_seed();
    assert!(matches!(r, Err(Error::MissingField { field: FieldName::MapRaw })));
}

#[test]
fn unknown_marker_is_reported() {
    let r = source("t", "a", "RZ", Vec::new()).into_seed();
    match r {
        Err(Error::InvalidMarker { character }) => assert_eq!(character, 'Z'),
        _ => panic!("expected an invalid-marker error"),
    }
}

#[test]
fn copy_from_nowhere_is_reported() {
    let r = source("t", "a", "~", Vec::new()).into_seed();
    match r {
        Err(Error::Uncopiable { position }) => {
            assert_eq!((position.x, position.y), (-1, 0));
        },
        _ => panic!("expected an uncopiable error"),
    }
}

#[test]
fn merging_different_kinds_is_reported() {
    let r = source("t", "a", "RB\n|/", Vec::new()).into_seed();
    match r {
        Err(Error::Unmergeable { this, that }) => {
            assert_eq!((this.x, this.y), (1, 0));
            assert_eq!((that.x, that.y), (0, 1));
        },
        _ => panic!("expected an unmergeable error"),
    }
}

#[test]
fn carriage_return_needs_a_line_feed() {
    let seed = source("t", "a", "RG\r\nxW", Vec::new()).into_seed().unwrap();
    assert_eq!(seed.size.width, 2);
    assert_eq!(seed.size.height, 2);
    assert_eq!(seed.cubes.len(), 3);

    let r = source("t", "a", "R\rG", Vec::new()).into_seed();
    match r {
        Err(Error::InvalidMarker { character }) => assert_eq!(character, '\r'),
        _ => panic!("expected an invalid-marker error"),
    }
}

#[test]
fn commands_bind_to_cubes() {
    let commands = vec![RawCommand {
        content: "R2L".to_string(),
        is_loop: true,
        binding: vec![(0, 0)],
    }];
    let seed = source("t", "a", "G", commands).into_seed().unwrap();
    assert_eq!(seed.cubes.len(), 1);
    let command = seed.cubes[0].command.as_ref().unwrap();
    assert!(command.is_loop);
    assert_eq!(command.movements, vec![(Movement::Right, 2), (Movement::Left, 1)]);
}

#[test]
fn leading_digit_is_reported() {
    let commands = vec![RawCommand {
        content: "2R".to_string(),
        is_loop: false,
        binding: vec![(0, 0)],
    }];
    let r = source("t", "a", "G", commands).into_seed();
    match r {
        Err(Error::InvalidMovement { character }) => assert_eq!(character, '2'),
        _ => panic!("expected an invalid-movement error"),
    }
}

#[test]
fn binding_to_an_empty_cell_is_reported() {
    let commands = vec![RawCommand {
        content: "L".to_string(),
        is_loop: false,
        binding: vec![(5, 5)],
    }];
    let r = source("t", "a", "G", commands).into_seed();
    match r {
        Err(Error::InvalidLocation { position }) => {
            assert_eq!((position.x, position.y), (5, 5));
        },
        _ => panic!("expected an invalid-location error"),
    }
}

#[test]
fn zero_count_runs_are_dropped() {
    let commands = vec![RawCommand {
        content: "L0R".to_string(),
        is_loop: false,
        binding: vec![(0, 0)],
    }];
    let seed = source("t", "a", "G", commands).into_seed().unwrap();
    let command = seed.cubes[0].command.as_ref().unwrap();
    assert_eq!(command.movements, vec![(Movement::Right, 1)]);
}
