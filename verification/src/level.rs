//! The level data handed over by the loading collaborator: one seed per
//! cube, the grid size, and the goal cells.

use vstd::prelude::*;

verus! {

/// Level metadata.
pub struct Info {
    pub title: String,
    pub author: String,
}

/// The declared grid dimensions.
#[derive(Clone, Copy, Debug, PartialEq, Eq, Structural)]
pub struct Size {
    pub width: i32,
    pub height: i32,
}

/// The painted kind of a level cube.
#[derive(Clone, Copy, Debug, PartialEq, Eq, Structural)]
pub enum CubeType {
    White,
    Red,
    Blue,
    Green,
}

/// One grid cell named by the level data.
#[derive(Clone, Copy, Debug, PartialEq, Eq, Structural)]
pub struct Location {
    pub x: i32,
    pub y: i32,
}

/// One scripted movement step.
#[derive(Clone, Copy, Debug, PartialEq, Eq, Structural)]
pub enum Movement {
    Idle,
    Left,
    Down,
    Up,
    Right,
}

/// A scripted movement command: a run-length list of steps, optionally
/// looping.
pub struct Command {
    pub is_loop: bool,
    pub movements: Vec<(Movement, usize)>,
}

/// The abstract value of a command.
#[verifier::ext_equal]
pub struct CommandModel {
    pub is_loop: bool,
    pub movements: Seq<(Movement, usize)>,
}

impl Command {
    pub open spec fn model(self) -> CommandModel {
        CommandModel { is_loop: self.is_loop, movements: self.movements@ }
    }
}

/// One cube of the level: its kind, the cells it paints, and its optional
/// command.
pub struct Cube {
    pub kind: CubeType,
    pub body: Vec<Location>,
    pub command: Option<Command>,
}

/// The abstract value of a level cube.
#[verifier::ext_equal]
pub struct CubeModel {
    pub kind: CubeType,
    pub body: Seq<Location>,
    pub command: Option<CommandModel>,
}

impl Cube {
    pub open spec fn model(self) -> CubeModel {
        CubeModel {
            kind: self.kind,
            body: self.body@,
            command: match self.command {
                Some(c) => Some(c.model()),
                None => None,
            },
        }
    }
}

/// A parsed level, ready to seed a collection.
pub struct Seed {
    pub info: Info,
    pub size: Size,
    pub cubes: Vec<Cube>,
    pub destnations: Vec<Location>,
}

/// The abstract value of a parsed level.
#[verifier::ext_equal]
pub struct SeedModel {
    pub title: Seq<char>,
    pub author: Seq<char>,
    pub width: int,
    pub height: int,
    pub cubes: Seq<CubeModel>,
    pub destnations: Seq<Location>,
}

impl Seed {
    pub open spec fn model(self) -> SeedModel {
        SeedModel {
            title: self.info.title@,
            author: self.info.author@,
            width: self.size.width as int,
            height: self.size.height as int,
            cubes: self.cubes@.map_values(|c: Cube| c.model()),
            destnations: self.destnations@,
        }
    }
}

} // verus!
