//! Parsing textual level sources: a grid of cell markers plus scripted
//! movement commands, folded into a `Seed`.
//!
//! The grammar reads the map byte by byte: `W`, `R`, `B`, `G` paint a new
//! cube cell, `x` marks a destination, a space leaves the cell empty, `~`
//! extends the cube on the left, `|` the cube above, and `/` joins the
//! cubes above and to the left (merging them if they differ in index but
//! share a kind). A newline ends the
//! row; a carriage return is accepted only as part of a `\\r\\n` break.
//! Command scripts use `I`, `L`, `D`, `U`, `R` for steps and digits for
//! repeat counts, with counts capped at `COUNT_CAP`.

use vstd::prelude::*;
use vstd::utf8::encode_utf8;
use crate::level::{Command, CommandModel, Cube, CubeModel, Info, Location, Movement, Seed,
    SeedModel, Size};

verus! {

/// Which required field was missing.
#[derive(Clone, Copy, Debug, PartialEq, Eq, Structural)]
pub enum FieldName {
    Title,
    Author,
    MapRaw,
}

/// Why a level source was rejected.
#[derive(Clone, Copy, Debug, PartialEq, Eq, Structural)]
pub enum Error {
    MissingField { field: FieldName },
    InvalidMarker { character: char },
    Uncopiable { position: Location },
    Unmergeable { this: Location, that: Location },
    InvalidMovement { character: char },
    InvalidLocation { position: Location },
}

/// One raw command: its step text, loop flag, and the cells it binds to.
pub struct RawCommand {
    pub content: String,
    pub is_loop: bool,
    pub binding: Vec<(i32, i32)>,
}

/// The abstract value of a raw command.
#[verifier::ext_equal]
pub struct RawCommandModel {
    pub content: Seq<u8>,
    pub is_loop: bool,
    pub binding: Seq<(i32, i32)>,
}

impl RawCommand {
    pub open spec fn model(self) -> RawCommandModel {
        RawCommandModel {
            content: encode_utf8(self.content@),
            is_loop: self.is_loop,
            binding: self.binding@,
        }
    }
}

/// The raw map: its marker text and its commands.
pub struct RawMap {
    pub raw: String,
    pub commands: Vec<RawCommand>,
}

/// A whole textual level source.
pub struct Source {
    pub info: Info,
    pub map: RawMap,
}

/// The design bound on one run's repeat count: longer runs are clamped
/// here, keeping scripts finite and the count arithmetic bounded on every
/// platform.
pub const COUNT_CAP: usize = 1000000;

/// The parser state while walking the map text: current row `h`, widest
/// row `w`, column `x`, the cubes and destinations built so far, and the
/// grid of cell owners.
#[verifier::ext_equal]
pub struct BuilderModel {
    pub h: int,
    pub w: int,
    pub x: int,
    pub cs: Seq<CubeModel>,
    pub ds: Seq<Location>,
    pub grid: Seq<Seq<Option<usize>>>,
}

pub open spec fn empty_builder() -> BuilderModel {
    BuilderModel {
        h: 0,
        w: 0,
        x: 0,
        cs: Seq::empty(),
        ds: Seq::empty(),
        grid: Seq::empty(),
    }
}

/// Record the owner of the current cell in the grid's last row.
pub open spec fn spec_grid_put(grid: Seq<Seq<Option<usize>>>, v: Option<usize>) -> Seq<
    Seq<Option<usize>>,
> {
    if grid.len() == 0 {
        grid.push(seq![v])
    } else {
        grid.update(grid.len() - 1, grid.last().push(v))
    }
}

/// The owner recorded at a cell, if the cell exists.
pub open spec fn spec_grid_get(grid: Seq<Seq<Option<usize>>>, x: int, y: int) -> Option<usize> {
    if 0 <= y < grid.len() && 0 <= x < grid[y].len() {
        grid[y][x]
    } else {
        None
    }
}

/// Overwrite the owner recorded at a cell, if the cell exists.
pub open spec fn spec_grid_set(
    grid: Seq<Seq<Option<usize>>>,
    x: int,
    y: int,
    v: Option<usize>,
) -> Seq<Seq<Option<usize>>> {
    if 0 <= y < grid.len() && 0 <= x < grid[y].len() {
        grid.update(y, grid[y].update(x, v))
    } else {
        grid
    }
}

/// Redirect the cells at the listed locations to owner `lo`.
pub open spec fn spec_grid_remap(
    grid: Seq<Seq<Option<usize>>>,
    locs: Seq<Location>,
    lo: usize,
) -> Seq<Seq<Option<usize>>>
    decreases locs.len(),
{
    if locs.len() == 0 {
        grid
    } else {
        spec_grid_remap(
            spec_grid_set(grid, locs[0].x as int, locs[0].y as int, Some(lo)),
            locs.drop_first(),
            lo,
        )
    }
}

/// Advance one cell, recording its owner.
pub open spec fn spec_make(m: BuilderModel, v: Option<usize>) -> BuilderModel {
    BuilderModel {
        h: m.h,
        w: m.w,
        x: m.x + 1,
        cs: m.cs,
        ds: m.ds,
        grid: spec_grid_put(m.grid, v),
    }
}

/// End the current row.
pub open spec fn spec_line_end(m: BuilderModel) -> BuilderModel {
    BuilderModel {
        h: m.h + 1,
        w: if m.w >= m.x {
            m.w
        } else {
            m.x
        },
        x: 0,
        cs: m.cs,
        ds: m.ds,
        grid: m.grid.push(Seq::empty()),
    }
}

/// The cell the parser is standing on.
pub open spec fn spec_here(m: BuilderModel) -> Location {
    Location { x: m.x as i32, y: m.h as i32 }
}

/// Start a new cube at the current cell.
pub open spec fn spec_make_cube(m: BuilderModel, kind: crate::level::CubeType) -> BuilderModel {
    let i = m.cs.len();
    let m2 = BuilderModel {
        h: m.h,
        w: m.w,
        x: m.x,
        cs: m.cs.push(
            CubeModel { kind, body: seq![spec_here(m)], command: None },
        ),
        ds: m.ds,
        grid: m.grid,
    };
    spec_make(m2, Some(i as usize))
}

/// Mark the current cell as a destination.
pub open spec fn spec_make_destination(m: BuilderModel) -> BuilderModel {
    let m2 = BuilderModel {
        h: m.h,
        w: m.w,
        x: m.x,
        cs: m.cs,
        ds: m.ds.push(spec_here(m)),
        grid: m.grid,
    };
    spec_make(m2, None)
}

/// Extend a cube by the current cell.
pub open spec fn spec_grow_cube(m: BuilderModel, i: usize, cell: Location) -> BuilderModel {
    let cube = m.cs[i as int];
    let m2 = BuilderModel {
        h: m.h,
        w: m.w,
        x: m.x,
        cs: m.cs.update(
            i as int,
            CubeModel { kind: cube.kind, body: cube.body.push(cell), command: cube.command },
        ),
        ds: m.ds,
        grid: m.grid,
    };
    spec_make(m2, Some(i))
}

/// Extend the cube on the left over the current cell.
pub open spec fn spec_copy_left(m: BuilderModel) -> Result<BuilderModel, Error> {
    let cx = m.x - 1;
    let cy = m.h;
    match spec_grid_get(m.grid, cx, cy) {
        Some(i) => if i < m.cs.len() {
            Ok(spec_grow_cube(m, i, spec_here(m)))
        } else {
            Err(Error::Uncopiable { position: Location { x: cx as i32, y: cy as i32 } })
        },
        None => Err(Error::Uncopiable { position: Location { x: cx as i32, y: cy as i32 } }),
    }
}

/// Extend the cube above over the current cell.
pub open spec fn spec_copy_upper(m: BuilderModel) -> Result<BuilderModel, Error> {
    let cx = m.x;
    let cy = m.h - 1;
    match spec_grid_get(m.grid, cx, cy) {
        Some(i) => if i < m.cs.len() {
            Ok(spec_grow_cube(m, i, spec_here(m)))
        } else {
            Err(Error::Uncopiable { position: Location { x: cx as i32, y: cy as i32 } })
        },
        None => Err(Error::Uncopiable { position: Location { x: cx as i32, y: cy as i32 } }),
    }
}

/// Join the cubes above and to the left at the current cell. If they are
/// distinct cubes of one kind, the higher-indexed cube's cells move into
/// the lower-indexed one; a cell whose neighbors already share a cube
/// simply joins it. Cubes of different kinds cannot merge.
pub open spec fn spec_copy_upper_and_left(m: BuilderModel) -> Result<BuilderModel, Error> {
    let up = (m.x, m.h - 1);
    let le = (m.x - 1, m.h);
    let fail = Error::Unmergeable {
        this: Location { x: up.0 as i32, y: up.1 as i32 },
        that: Location { x: le.0 as i32, y: le.1 as i32 },
    };
    match (spec_grid_get(m.grid, up.0, up.1), spec_grid_get(m.grid, le.0, le.1)) {
        (Some(l), Some(r)) => if l >= m.cs.len() || r >= m.cs.len() {
            Err(fail)
        } else if l == r {
            Ok(spec_grow_cube(m, l, spec_here(m)))
        } else if m.cs[l as int].kind != m.cs[r as int].kind {
            Err(fail)
        } else {
            let lo = if l < r {
                l
            } else {
                r
            };
            let hi = if l < r {
                r
            } else {
                l
            };
            let moved = m.cs[hi as int].body;
            let low = m.cs[lo as int];
            let cs1 = m.cs.update(
                hi as int,
                CubeModel {
                    kind: m.cs[hi as int].kind,
                    body: Seq::empty(),
                    command: m.cs[hi as int].command,
                },
            );
            let cs2 = cs1.update(
                lo as int,
                CubeModel {
                    kind: low.kind,
                    body: low.body + moved + seq![spec_here(m)],
                    command: low.command,
                },
            );
            let m2 = BuilderModel {
                h: m.h,
                w: m.w,
                x: m.x,
                cs: cs2,
                ds: m.ds,
                grid: spec_grid_remap(m.grid, moved, lo),
            };
            Ok(spec_make(m2, Some(lo)))
        },
        _ => Err(fail),
    }
}

/// Attach a command to the cube owning cell (`x`, `y`).
pub open spec fn spec_bind(m: BuilderModel, x: i32, y: i32, c: CommandModel) -> Result<
    BuilderModel,
    Error,
> {
    match spec_grid_get(m.grid, x as int, y as int) {
        Some(i) => if i < m.cs.len() {
            let cube = m.cs[i as int];
            Ok(
                BuilderModel {
                    h: m.h,
                    w: m.w,
                    x: m.x,
                    cs: m.cs.update(
                        i as int,
                        CubeModel { kind: cube.kind, body: cube.body, command: Some(c) },
                    ),
                    ds: m.ds,
                    grid: m.grid,
                },
            )
        } else {
            Err(Error::InvalidLocation { position: Location { x, y } })
        },
        None => Err(Error::InvalidLocation { position: Location { x, y } }),
    }
}

/// One map byte: paint, extend, mark, end the row, or fail.
pub open spec fn spec_apply_marker(m: BuilderModel, b: u8) -> Result<BuilderModel, Error> {
    if b == 10 {
        Ok(spec_line_end(m))
    } else if b == 87 {
        Ok(spec_make_cube(m, crate::level::CubeType::White))
    } else if b == 82 {
        Ok(spec_make_cube(m, crate::level::CubeType::Red))
    } else if b == 66 {
        Ok(spec_make_cube(m, crate::level::CubeType::Blue))
    } else if b == 71 {
        Ok(spec_make_cube(m, crate::level::CubeType::Green))
    } else if b == 120 {
        Ok(spec_make_destination(m))
    } else if b == 32 {
        Ok(spec_make(m, None))
    } else if b == 126 {
        spec_copy_left(m)
    } else if b == 124 {
        spec_copy_upper(m)
    } else if b == 47 {
        spec_copy_upper_and_left(m)
    } else {
        Err(Error::InvalidMarker { character: b as char })
    }
}

/// Fold the map bytes over the builder. A carriage return is accepted
/// only directly before a line feed, as part of the line break.
pub open spec fn spec_parse_map(m: BuilderModel, bytes: Seq<u8>) -> Result<BuilderModel, Error>
    decreases bytes.len(),
{
    if bytes.len() == 0 {
        Ok(m)
    } else if bytes[0] == 13 {
        if bytes.len() > 1 && bytes[1] == 10 {
            spec_parse_map(m, bytes.drop_first())
        } else {
            Err(Error::InvalidMarker { character: 13u8 as char })
        }
    } else {
        match spec_apply_marker(m, bytes[0]) {
            Ok(m2) => spec_parse_map(m2, bytes.drop_first()),
            Err(e) => Err(e),
        }
    }
}

/// Parse the whole map text, closing the final row if the text does not
/// end in a newline.
pub open spec fn spec_parse_grid(bytes: Seq<u8>) -> Result<BuilderModel, Error> {
    match spec_parse_map(empty_builder(), bytes) {
        Ok(m) => if bytes.len() > 0 && bytes.last() != 10 {
            Ok(spec_line_end(m))
        } else {
            Ok(m)
        },
        Err(e) => Err(e),
    }
}

/// Append one digit to a pending repeat count, saturating at the cap.
pub open spec fn spec_push_digit(num: usize, d: usize) -> usize {
    if num >= COUNT_CAP {
        COUNT_CAP
    } else if num * 10 + d > COUNT_CAP {
        COUNT_CAP
    } else {
        (num * 10 + d) as usize
    }
}

/// Record one step: extend the last run if it is the same direction.
pub open spec fn spec_cb_put(cb: CommandModel, mv: Movement) -> CommandModel {
    if cb.movements.len() > 0 && cb.movements.last().0 == mv {
        let last = cb.movements.last();
        let bumped = if last.1 >= COUNT_CAP {
            COUNT_CAP
        } else {
            (last.1 + 1) as usize
        };
        CommandModel {
            is_loop: cb.is_loop,
            movements: cb.movements.update(cb.movements.len() - 1, (mv, bumped)),
        }
    } else {
        CommandModel { is_loop: cb.is_loop, movements: cb.movements.push((mv, 1)) }
    }
}

/// Apply a parsed repeat count to the last run.
pub open spec fn spec_cb_add(cb: CommandModel, n: usize) -> CommandModel {
    if cb.movements.len() > 0 {
        let last = cb.movements.last();
        let count = if n == 0 {
            if last.1 > 0 {
                (last.1 - 1) as usize
            } else {
                0
            }
        } else if last.1 + n - 1 > COUNT_CAP {
            COUNT_CAP
        } else {
            (last.1 + n - 1) as usize
        };
        CommandModel {
            is_loop: cb.is_loop,
            movements: cb.movements.update(cb.movements.len() - 1, (last.0, count)),
        }
    } else {
        CommandModel { is_loop: cb.is_loop, movements: cb.movements.push((Movement::Idle, n)) }
    }
}

/// Flush the pending count, if any, onto the last run.
pub open spec fn spec_cb_flush(cb: CommandModel, num: Option<usize>) -> CommandModel {
    match num {
        Some(n) => spec_cb_add(cb, n),
        None => cb,
    }
}

/// One command byte: a step letter or a count digit.
pub open spec fn spec_apply_content(cb: CommandModel, num: Option<usize>, b: u8) -> Result<
    (CommandModel, Option<usize>),
    Error,
> {
    if b == 73 {
        Ok((spec_cb_put(spec_cb_flush(cb, num), Movement::Idle), None))
    } else if b == 76 {
        Ok((spec_cb_put(spec_cb_flush(cb, num), Movement::Left), None))
    } else if b == 68 {
        Ok((spec_cb_put(spec_cb_flush(cb, num), Movement::Down), None))
    } else if b == 85 {
        Ok((spec_cb_put(spec_cb_flush(cb, num), Movement::Up), None))
    } else if b == 82 {
        Ok((spec_cb_put(spec_cb_flush(cb, num), Movement::Right), None))
    } else if 48 <= b <= 57 && cb.movements.len() > 0 {
        let d = (b - 48) as usize;
        let base = match num {
            Some(n) => n,
            None => 0,
        };
        Ok((cb, Some(spec_push_digit(base, d))))
    } else {
        Err(Error::InvalidMovement { character: b as char })
    }
}

/// Fold the command text.
pub open spec fn spec_parse_content(
    cb: CommandModel,
    num: Option<usize>,
    bytes: Seq<u8>,
) -> Result<(CommandModel, Option<usize>), Error>
    decreases bytes.len(),
{
    if bytes.len() == 0 {
        Ok((cb, num))
    } else {
        match spec_apply_content(cb, num, bytes[0]) {
            Ok((cb2, num2)) => spec_parse_content(cb2, num2, bytes.drop_first()),
            Err(e) => Err(e),
        }
    }
}

/// Drop runs whose count reached zero.
pub open spec fn spec_cb_retain(movements: Seq<(Movement, usize)>) -> Seq<(Movement, usize)>
    decreases movements.len(),
{
    if movements.len() == 0 {
        Seq::empty()
    } else {
        let rest = spec_cb_retain(movements.drop_last());
        if movements.last().1 > 0 {
            rest.push(movements.last())
        } else {
            rest
        }
    }
}

/// The finished command of a parsed script.
pub open spec fn spec_cb_finish(cb: CommandModel) -> CommandModel {
    CommandModel { is_loop: cb.is_loop, movements: spec_cb_retain(cb.movements) }
}

/// Attach a command to every cell it is bound to.
pub open spec fn spec_bind_all(
    m: BuilderModel,
    bindings: Seq<(i32, i32)>,
    c: CommandModel,
) -> Result<BuilderModel, Error>
    decreases bindings.len(),
{
    if bindings.len() == 0 {
        Ok(m)
    } else {
        match spec_bind(m, bindings[0].0, bindings[0].1, c) {
            Ok(m2) => spec_bind_all(m2, bindings.drop_first(), c),
            Err(e) => Err(e),
        }
    }
}

/// Parse and bind every raw command.
pub open spec fn spec_apply_commands(m: BuilderModel, cmds: Seq<RawCommandModel>) -> Result<
    BuilderModel,
    Error,
>
    decreases cmds.len(),
{
    if cmds.len() == 0 {
        Ok(m)
    } else {
        let start = CommandModel { is_loop: cmds[0].is_loop, movements: Seq::empty() };
        match spec_parse_content(start, None, cmds[0].content) {
            Ok((cb, _)) => match spec_bind_all(m, cmds[0].binding, spec_cb_finish(cb)) {
                Ok(m2) => spec_apply_commands(m2, cmds.drop_first()),
                Err(e) => Err(e),
            },
            Err(e) => Err(e),
        }
    }
}

/// Cubes that kept at least one cell.
pub open spec fn spec_retain_cubes(cs: Seq<CubeModel>) -> Seq<CubeModel>
    decreases cs.len(),
{
    if cs.len() == 0 {
        Seq::empty()
    } else {
        let rest = spec_retain_cubes(cs.drop_last());
        if cs.last().body.len() > 0 {
            rest.push(cs.last())
        } else {
            rest
        }
    }
}

/// The finished level of a fully parsed source.
pub open spec fn spec_finish_seed(
    title: Seq<char>,
    author: Seq<char>,
    m: BuilderModel,
) -> SeedModel {
    SeedModel {
        title,
        author,
        width: m.w,
        height: m.h,
        cubes: spec_retain_cubes(m.cs),
        destnations: m.ds,
    }
}

/// What parsing a whole source yields: the missing-field checks, then the
/// map fold, then the command folds.
pub open spec fn spec_into_seed(
    title: Seq<char>,
    author: Seq<char>,
    raw: Seq<u8>,
    cmds: Seq<RawCommandModel>,
) -> Result<SeedModel, Error> {
    if title.len() == 0 {
        Err(Error::MissingField { field: FieldName::Title })
    } else if author.len() == 0 {
        Err(Error::MissingField { field: FieldName::Author })
    } else if raw.len() == 0 {
        Err(Error::MissingField { field: FieldName::MapRaw })
    } else {
        match spec_parse_grid(raw) {
            Ok(m) => match spec_apply_commands(m, cmds) {
                Ok(m2) => Ok(spec_finish_seed(title, author, m2)),
                Err(e) => Err(e),
            },
            Err(e) => Err(e),
        }
    }
}

/// The grid of cell owners built while walking the map text.
pub struct Indexer(pub Vec<Vec<Option<usize>>>);

impl Indexer {
    pub open spec fn model(self) -> Seq<Seq<Option<usize>>> {
        self.0@.map_values(|row: Vec<Option<usize>>| row@)
    }

    pub fn new() -> (r: Indexer)
        ensures
            r.model() =~= Seq::<Seq<Option<usize>>>::empty(),
    {
        Indexer(Vec::new())
    }

    /// Start a fresh row.
    pub fn make_row(&mut self)
        ensures
            final(self).model() == old(self).model().push(Seq::empty()),
    {
        self.0.push(Vec::new());
        proof {
            assert(final(self).model() =~= old(self).model().push(Seq::empty()));
        }
    }

    /// Start a fresh row already holding one cell.
    pub fn make_row_with(&mut self, value: Option<usize>)
        ensures
            final(self).model() == old(self).model().push(seq![value]),
    {
        let mut row: Vec<Option<usize>> = Vec::new();
        row.push(value);
        let ghost rv = row@;
        self.0.push(row);
        proof {
            assert(rv =~= seq![value]);
            assert(final(self).model() =~= old(self).model().push(seq![value]));
        }
    }

    /// Record the owner of the next cell in the last row.
    pub fn put(&mut self, value: Option<usize>)
        ensures
            final(self).model() == spec_grid_put(old(self).model(), value),
    {
        let n = self.0.len();
        if n == 0 {
            self.make_row_with(value);
        } else {
            self.0[n - 1].push(value);
            proof {
                assert(final(self).model() =~= spec_grid_put(old(self).model(), value));
            }
        }
    }

    /// The owner recorded at a cell.
    pub fn get(&self, x: i32, y: i32) -> (r: Option<usize>)
        ensures
            r == spec_grid_get(self.model(), x as int, y as int),
    {
        if x < 0 || y < 0 {
            return None;
        }
        let yy = y as usize;
        if yy >= self.0.len() {
            return None;
        }
        let xx = x as usize;
        if xx >= self.0[yy].len() {
            return None;
        }
        self.0[yy][xx]
    }

    /// Redirect a recorded cell to a new owner, if the cell exists.
    pub fn reassign(&mut self, x: i32, y: i32, value: usize)
        ensures
            final(self).model() == spec_grid_set(
                old(self).model(),
                x as int,
                y as int,
                Some(value),
            ),
    {
        if x < 0 || y < 0 {
            return ;
        }
        let yy = y as usize;
        if yy >= self.0.len() {
            return ;
        }
        let xx = x as usize;
        if xx >= self.0[yy].len() {
            return ;
        }
        self.0[yy][xx] = Some(value);
        proof {
            assert(final(self).model() =~= spec_grid_set(
                old(self).model(),
                x as int,
                y as int,
                Some(value),
            ));
        }
    }
}

/// Accumulates one command script, run by run.
pub struct CommandBuilder {
    pub command: Command,
}

impl CommandBuilder {
    pub open spec fn model(self) -> CommandModel {
        self.command.model()
    }

    pub fn new(is_loop: bool) -> (r: CommandBuilder)
        ensures
            r.model().is_loop == is_loop,
            r.model().movements =~= Seq::<(Movement, usize)>::empty(),
    {
        CommandBuilder { command: Command { is_loop, movements: Vec::new() } }
    }

    /// Record one step.
    pub fn put(&mut self, movement: Movement)
        ensures
            final(self).model() == spec_cb_put(old(self).model(), movement),
    {
        let n = self.command.movements.len();
        if n > 0 && self.command.movements[n - 1].0 == movement {
            let count = self.command.movements[n - 1].1;
            let bumped = if count >= COUNT_CAP {
                COUNT_CAP
            } else {
                count + 1
            };
            self.command.movements[n - 1] = (movement, bumped);
            proof {
                assert(final(self).model().movements =~= spec_cb_put(
                    old(self).model(),
                    movement,
                ).movements);
            }
        } else {
            self.command.movements.push((movement, 1));
        }
    }

    /// Apply a parsed repeat count to the last run.
    pub fn add(&mut self, number: usize)
        requires
            number <= COUNT_CAP,
        ensures
            final(self).model() == spec_cb_add(old(self).model(), number),
    {
        let n = self.command.movements.len();
        if n > 0 {
            let (mv, count) = self.command.movements[n - 1];
            let fresh = if number == 0 {
                if count > 0 {
                    count - 1
                } else {
                    0
                }
            } else if count > COUNT_CAP || COUNT_CAP - count < number - 1 {
                COUNT_CAP
            } else {
                count + (number - 1)
            };
            proof {
                let last = old(self).model().movements.last();
                if number != 0 {
                    assert(fresh == if last.1 + number - 1 > COUNT_CAP {
                        COUNT_CAP as usize
                    } else {
                        (last.1 + number - 1) as usize
                    });
                }
            }
            self.command.movements[n - 1] = (mv, fresh);
            proof {
                assert(final(self).model().movements =~= spec_cb_add(
                    old(self).model(),
                    number,
                ).movements);
            }
        } else {
            self.command.movements.push((Movement::Idle, number));
        }
    }

    /// Whether no step has been recorded yet.
    pub fn is_empty(&self) -> (r: bool)
        ensures
            r == (self.model().movements.len() == 0),
    {
        self.command.movements.len() == 0
    }

    /// The finished command, with zero-count runs dropped.
    pub fn finish(self) -> (r: Command)
        ensures
            r.model() == spec_cb_finish(self.model()),
    {
        let CommandBuilder { command } = self;
        let Command { is_loop, movements } = command;
        let ghost all = movements@;
        let mut kept: Vec<(Movement, usize)> = Vec::new();
        let n = movements.len();
        for t in 0..n
            invariant
                n == all.len(),
                movements@ == all,
                kept@ == spec_cb_retain(all.subrange(0, t as int)),
        {
            let (mv, count) = movements[t];
            if count > 0 {
                kept.push((mv, count));
            }
            proof {
                let pre = all.subrange(0, t as int);
                let cur = all.subrange(0, t + 1 as int);
                assert(cur.drop_last() =~= pre);
                assert(cur.last() == all[t as int]);
            }
        }
        proof {
            assert(all.subrange(0, n as int) =~= all);
        }
        Command { is_loop, movements: kept }
    }
}

/// A fresh copy of a command.
pub fn duplicate_command(c: &Command) -> (r: Command)
    ensures
        r.model() == c.model(),
{
    let n = c.movements.len();
    let mut movements: Vec<(Movement, usize)> = Vec::new();
    for t in 0..n
        invariant
            n == c.movements@.len(),
            movements@ == c.movements@.subrange(0, t as int),
    {
        movements.push(c.movements[t]);
        proof {
            assert(movements@ =~= c.movements@.subrange(0, t + 1 as int));
        }
    }
    proof {
        assert(c.movements@.subrange(0, n as int) =~= c.movements@);
    }
    Command { is_loop: c.is_loop, movements }
}

/// Builds the level while walking the map text.
pub struct LevelBuilder {
    pub info: Info,
    pub h: i32,
    pub w: i32,
    pub x: i32,
    pub cs: Vec<Cube>,
    pub ds: Vec<Location>,
    pub m: Indexer,
}

impl LevelBuilder {
    pub open spec fn model(self) -> BuilderModel {
        BuilderModel {
            h: self.h as int,
            w: self.w as int,
            x: self.x as int,
            cs: self.cs@.map_values(|c: Cube| c.model()),
            ds: self.ds@,
            grid: self.m.model(),
        }
    }

    pub fn new(info: Info) -> (r: LevelBuilder)
        ensures
            r.model() =~= empty_builder(),
            r.info.title@ == info.title@,
            r.info.author@ == info.author@,
    {
        LevelBuilder {
            info,
            h: 0,
            w: 0,
            x: 0,
            cs: Vec::new(),
            ds: Vec::new(),
            m: Indexer::new(),
        }
    }

    /// Advance one cell, recording its owner.
    pub fn make(&mut self, value: Option<usize>)
        requires
            old(self).x < i32::MAX,
        ensures
            final(self).model() == spec_make(old(self).model(), value),
            final(self).info == old(self).info,
    {
        self.x = self.x + 1;
        self.m.put(value);
        proof {
            assert(final(self).model() =~= spec_make(old(self).model(), value));
        }
    }

    /// End the current row.
    pub fn mark_line_end(&mut self)
        requires
            old(self).h < i32::MAX,
        ensures
            final(self).model() == spec_line_end(old(self).model()),
            final(self).info == old(self).info,
    {
        self.h = self.h + 1;
        if self.x > self.w {
            self.w = self.x;
        }
        self.x = 0;
        self.m.make_row();
        proof {
            assert(final(self).model() =~= spec_line_end(old(self).model()));
        }
    }

    /// Leave the current cell empty.
    pub fn make_empty(&mut self)
        requires
            old(self).x < i32::MAX,
        ensures
            final(self).model() == spec_make(old(self).model(), None),
            final(self).info == old(self).info,
    {
        self.make(None);
    }

    /// Mark the current cell as a destination.
    pub fn make_destination(&mut self)
        requires
            old(self).x < i32::MAX,
        ensures
            final(self).model() == spec_make_destination(old(self).model()),
            final(self).info == old(self).info,
    {
        self.ds.push(Location { x: self.x, y: self.h });
        self.make(None);
        proof {
            assert(final(self).model() =~= spec_make_destination(old(self).model()));
        }
    }

    /// Start a new cube at the current cell.
    pub fn make_cube(&mut self, kind: crate::level::CubeType)
        requires
            old(self).x < i32::MAX,
        ensures
            final(self).model() == spec_make_cube(old(self).model(), kind),
            final(self).info == old(self).info,
    {
        let i = self.cs.len();
        let mut body: Vec<Location> = Vec::new();
        body.push(Location { x: self.x, y: self.h });
        let ghost bv = body@;
        self.cs.push(Cube { kind, body, command: None });
        proof {
            assert(bv =~= seq![spec_here(old(self).model())]);
            assert(self.cs@.map_values(|c: Cube| c.model()) =~= old(self).model().cs.push(
                CubeModel {
                    kind,
                    body: seq![spec_here(old(self).model())],
                    command: None,
                },
            ));
        }
        self.make(Some(i));
        proof {
            assert(final(self).model() =~= spec_make_cube(old(self).model(), kind));
        }
    }

    /// Extend the cube at grid cell (`cx`, `cy`) over the current cell.
    fn grow(&mut self, i: usize)
        requires
            old(self).x < i32::MAX,
            i < old(self).cs@.len(),
        ensures
            final(self).model() == spec_grow_cube(
                old(self).model(),
                i,
                spec_here(old(self).model()),
            ),
            final(self).info == old(self).info,
    {
        self.cs[i].body.push(Location { x: self.x, y: self.h });
        proof {
            let oldm = old(self).model();
            let cube = oldm.cs[i as int];
            assert(self.cs@.map_values(|c: Cube| c.model()) =~= oldm.cs.update(
                i as int,
                CubeModel {
                    kind: cube.kind,
                    body: cube.body.push(spec_here(oldm)),
                    command: cube.command,
                },
            ));
        }
        self.make(Some(i));
        proof {
            assert(final(self).model() =~= spec_grow_cube(
                old(self).model(),
                i,
                spec_here(old(self).model()),
            ));
        }
    }

    /// Extend the cube on the left over the current cell.
    pub fn copy_left(&mut self) -> (r: Result<(), Error>)
        requires
            i32::MIN < old(self).x < i32::MAX,
        ensures
            final(self).info == old(self).info,
            match r {
                Ok(u) => spec_copy_left(old(self).model()) == Ok::<BuilderModel, Error>(
                    final(self).model(),
                ),
                Err(e) => spec_copy_left(old(self).model()) == Err::<BuilderModel, Error>(e)
                    && final(self).model() == old(self).model(),
            },
    {
        let cx = self.x - 1;
        let cy = self.h;
        match self.m.get(cx, cy) {
            Some(i) => if i < self.cs.len() {
                self.grow(i);
                Ok(())
            } else {
                Err(Error::Uncopiable { position: Location { x: cx, y: cy } })
            },
            None => Err(Error::Uncopiable { position: Location { x: cx, y: cy } }),
        }
    }

    /// Extend the cube above over the current cell.
    pub fn copy_upper(&mut self) -> (r: Result<(), Error>)
        requires
            old(self).x < i32::MAX,
            i32::MIN < old(self).h,
        ensures
            final(self).info == old(self).info,
            match r {
                Ok(u) => spec_copy_upper(old(self).model()) == Ok::<BuilderModel, Error>(
                    final(self).model(),
                ),
                Err(e) => spec_copy_upper(old(self).model()) == Err::<BuilderModel, Error>(e)
                    && final(self).model() == old(self).model(),
            },
    {
        let cx = self.x;
        let cy = self.h - 1;
        match self.m.get(cx, cy) {
            Some(i) => if i < self.cs.len() {
                self.grow(i);
                Ok(())
            } else {
                Err(Error::Uncopiable { position: Location { x: cx, y: cy } })
            },
            None => Err(Error::Uncopiable { position: Location { x: cx, y: cy } }),
        }
    }

    /// Join the cubes above and to the left at the current cell.
    pub fn copy_upper_and_left(&mut self) -> (r: Result<(), Error>)
        requires
            i32::MIN < old(self).x < i32::MAX,
            i32::MIN < old(self).h,
        ensures
            final(self).info == old(self).info,
            match r {
                Ok(u) => spec_copy_upper_and_left(old(self).model()) == Ok::<
                    BuilderModel,
                    Error,
                >(final(self).model()),
                Err(e) => spec_copy_upper_and_left(old(self).model()) == Err::<
                    BuilderModel,
                    Error,
                >(e) && final(self).model() == old(self).model(),
            },
    {
        let ux = self.x;
        let uy = self.h - 1;
        let lx = self.x - 1;
        let ly = self.h;
        let fail = Error::Unmergeable {
            this: Location { x: ux, y: uy },
            that: Location { x: lx, y: ly },
        };
        let lhs = self.m.get(ux, uy);
        let rhs = self.m.get(lx, ly);
        match (lhs, rhs) {
            (Some(l), Some(r)) => {
                if l >= self.cs.len() || r >= self.cs.len() {
                    Err(fail)
                } else if l == r {
                    self.grow(l);
                    Ok(())
                } else if !matches_kind(&self.cs[l], &self.cs[r]) {
                    Err(fail)
                } else {
                    let lo = if l < r {
                        l
                    } else {
                        r
                    };
                    let hi = if l < r {
                        r
                    } else {
                        l
                    };
                    let ghost oldm = self.model();
                    let mut moved: Vec<Location> = Vec::new();
                    core::mem::swap(&mut self.cs[hi].body, &mut moved);
                    let ghost movedv = moved@;
                    proof {
                        assert(movedv == oldm.cs[hi as int].body);
                        assert(self.cs@.map_values(|c: Cube| c.model()) =~= oldm.cs.update(
                            hi as int,
                            CubeModel {
                                kind: oldm.cs[hi as int].kind,
                                body: Seq::empty(),
                                command: oldm.cs[hi as int].command,
                            },
                        ));
                    }
                    let ghost cs_after_swap = self.cs@;
                    proof {
                        assert(movedv.skip(0) =~= movedv);
                    }
                    let mn = moved.len();
                    for t in 0..mn
                        invariant
                            mn == movedv.len(),
                            moved@ == movedv,
                            self.h == old(self).h,
                            self.w == old(self).w,
                            self.x == old(self).x,
                            self.cs@ == cs_after_swap,
                            self.ds@ == old(self).ds@,
                            self.info == old(self).info,
                            spec_grid_remap(oldm.grid, movedv, lo) == spec_grid_remap(
                                self.m.model(),
                                movedv.skip(t as int),
                                lo,
                            ),
                    {
                        let cell = moved[t];
                        self.m.reassign(cell.x, cell.y, lo);
                        proof {
                            assert(movedv.skip(t as int)[0] == movedv[t as int]);
                            assert(movedv.skip(t as int).drop_first() =~= movedv.skip(
                                t + 1 as int,
                            ));
                        }
                    }
                    proof {
                        assert(movedv.skip(mn as int).len() == 0);
                    }
                    self.cs[lo].body.append(&mut moved);
                    self.cs[lo].body.push(Location { x: self.x, y: self.h });
                    proof {
                        let low = oldm.cs[lo as int];
                        let cs1 = oldm.cs.update(
                            hi as int,
                            CubeModel {
                                kind: oldm.cs[hi as int].kind,
                                body: Seq::empty(),
                                command: oldm.cs[hi as int].command,
                            },
                        );
                        assert(self.cs@[lo as int].body@ =~= low.body + movedv + seq![
                            spec_here(oldm),
                        ]);
                        assert(self.cs@.map_values(|c: Cube| c.model()) =~~= cs1.update(
                            lo as int,
                            CubeModel {
                                kind: low.kind,
                                body: low.body + movedv + seq![spec_here(oldm)],
                                command: low.command,
                            },
                        ));
                    }
                    self.make(Some(lo));
                    proof {
                        let low = oldm.cs[lo as int];
                        let cs1 = oldm.cs.update(
                            hi as int,
                            CubeModel {
                                kind: oldm.cs[hi as int].kind,
                                body: Seq::empty(),
                                command: oldm.cs[hi as int].command,
                            },
                        );
                        let cs2 = cs1.update(
                            lo as int,
                            CubeModel {
                                kind: low.kind,
                                body: low.body + movedv + seq![spec_here(oldm)],
                                command: low.command,
                            },
                        );
                        let m2 = BuilderModel {
                            h: oldm.h,
                            w: oldm.w,
                            x: oldm.x,
                            cs: cs2,
                            ds: oldm.ds,
                            grid: spec_grid_remap(oldm.grid, movedv, lo),
                        };
                        assert(final(self).model() =~~= spec_make(m2, Some(lo)));
                        assert(spec_copy_upper_and_left(oldm) == Ok::<BuilderModel, Error>(
                            spec_make(m2, Some(lo)),
                        ));
                    }
                    Ok(())
                }
            },
            _ => Err(fail),
        }
    }

    /// Attach a command to the cube owning cell (`x`, `y`).
    pub fn bind_command(&mut self, x: i32, y: i32, command: Command) -> (r: Result<(), Error>)
        ensures
            final(self).info == old(self).info,
            match r {
                Ok(u) => spec_bind(old(self).model(), x, y, command.model()) == Ok::<
                    BuilderModel,
                    Error,
                >(final(self).model()),
                Err(e) => spec_bind(old(self).model(), x, y, command.model()) == Err::<
                    BuilderModel,
                    Error,
                >(e) && final(self).model() == old(self).model(),
            },
    {
        match self.m.get(x, y) {
            Some(i) => if i < self.cs.len() {
                self.cs[i].command = Some(command);
                proof {
                    let oldm = old(self).model();
                    let cube = oldm.cs[i as int];
                    assert(final(self).model() =~= BuilderModel {
                        h: oldm.h,
                        w: oldm.w,
                        x: oldm.x,
                        cs: oldm.cs.update(
                            i as int,
                            CubeModel {
                                kind: cube.kind,
                                body: cube.body,
                                command: Some(command.model()),
                            },
                        ),
                        ds: oldm.ds,
                        grid: oldm.grid,
                    });
                }
                Ok(())
            } else {
                Err(Error::InvalidLocation { position: Location { x, y } })
            },
            None => Err(Error::InvalidLocation { position: Location { x, y } }),
        }
    }

    /// The finished level: cubes that kept cells, the measured size, and
    /// the destinations.
    pub fn finish(self) -> (r: Seed)
        ensures
            r.model() == spec_finish_seed(self.info.title@, self.info.author@, self.model()),
    {
        let LevelBuilder { info, h, w, x, cs, ds, m } = self;
        let ghost all = cs@.map_values(|c: Cube| c.model());
        let mut cs = cs;
        let mut kept: Vec<Cube> = Vec::new();
        let ghost mut done: Seq<CubeModel> = Seq::empty();
        while cs.len() > 0
            invariant
                done + cs@.map_values(|c: Cube| c.model()) =~= all,
                kept@.map_values(|c: Cube| c.model()) == spec_retain_cubes(done),
            decreases cs@.len(),
        {
            let ghost before = cs@;
            let c = cs.remove(0);
            let ghost cm = c.model();
            let keep = c.body.len() > 0;
            proof {
                assert(cs@.map_values(|cc: Cube| cc.model()) =~= before.map_values(
                    |cc: Cube| cc.model(),
                ).drop_first());
                assert(cm == before.map_values(|cc: Cube| cc.model())[0]);
            }
            if keep {
                kept.push(c);
            }
            proof {
                let done2 = done.push(cm);
                assert(done2.drop_last() =~= done);
                assert(spec_retain_cubes(done2) == if cm.body.len() > 0 {
                    spec_retain_cubes(done).push(cm)
                } else {
                    spec_retain_cubes(done)
                });
                assert(kept@.map_values(|cc: Cube| cc.model()) =~= spec_retain_cubes(done2));
                done = done2;
                assert(done + cs@.map_values(|cc: Cube| cc.model()) =~= all);
            }
        }
        proof {
            assert(done =~= all);
        }
        Seed {
            info,
            size: Size { width: w, height: h },
            cubes: kept,
            destnations: ds,
        }
    }
}

/// Whether two cubes share a kind.
fn matches_kind(a: &Cube, b: &Cube) -> (r: bool)
    ensures
        r == (a.kind == b.kind),
{
    a.kind == b.kind
}

/// A text is empty exactly when its byte encoding is.
proof fn lemma_encode_empty(chars: Seq<char>)
    ensures
        (encode_utf8(chars).len() == 0) <==> (chars.len() == 0),
{
    if chars.len() > 0 {
        assert(encode_utf8(chars) == vstd::utf8::encode_scalar(chars[0] as u32) + encode_utf8(
            chars.drop_first(),
        ));
        assert(vstd::utf8::encode_scalar(chars[0] as u32).len() >= 1);
    }
}

impl Source {
    /// Parse the whole source into a level, checking the required fields
    /// first, then folding the map text and the command scripts.
    pub fn into_seed(&self) -> (r: Result<Seed, Error>)
        requires
            encode_utf8(self.map.raw@).len() < 0x0FFF0000,
            forall|ci: int|
                0 <= ci < self.map.commands@.len() ==> encode_utf8(
                    (#[trigger] self.map.commands@[ci]).content@,
                ).len() < 0x0FFF0000,
        ensures
            match r {
                Ok(seed) => spec_into_seed(
                    self.info.title@,
                    self.info.author@,
                    encode_utf8(self.map.raw@),
                    self.map.commands@.map_values(|c: RawCommand| c.model()),
                ) == Ok::<SeedModel, Error>(seed.model()),
                Err(e) => spec_into_seed(
                    self.info.title@,
                    self.info.author@,
                    encode_utf8(self.map.raw@),
                    self.map.commands@.map_values(|c: RawCommand| c.model()),
                ) == Err::<SeedModel, Error>(e),
            },
    {
        let raw = &self.map.raw;
        let commands = &self.map.commands;
        let ghost title_v = self.info.title@;
        let ghost author_v = self.info.author@;
        let ghost raw_v = encode_utf8(raw@);
        let ghost cmds_v = commands@.map_values(|c: RawCommand| c.model());
        proof {
            lemma_encode_empty(self.info.title@);
            lemma_encode_empty(self.info.author@);
            lemma_encode_empty(raw@);
        }
        if self.info.title.as_str().as_bytes().len() == 0 {
            return Err(Error::MissingField { field: FieldName::Title });
        }
        if self.info.author.as_str().as_bytes().len() == 0 {
            return Err(Error::MissingField { field: FieldName::Author });
        }
        let info = Info {
            title: self.info.title.clone(),
            author: self.info.author.clone(),
        };
        let bytes = raw.as_str().as_bytes();
        let bn = bytes.len();
        if bn == 0 {
            return Err(Error::MissingField { field: FieldName::MapRaw });
        }
        proof {
            assert(bytes@ == raw_v);
        }

        // fold the map text
        let mut builder = LevelBuilder::new(info);
        proof {
            assert(raw_v.skip(0) =~= raw_v);
        }
        for t in 0..bn
            invariant
                bn == raw_v.len(),
                bn < 0x0FFF0000,
                bytes@ == raw_v,
                title_v.len() > 0,
                author_v.len() > 0,
                raw_v.len() > 0,
                title_v == self.info.title@,
                author_v == self.info.author@,
                raw_v == encode_utf8(self.map.raw@),
                cmds_v == self.map.commands@.map_values(|c: RawCommand| c.model()),
                builder.info.title@ == title_v,
                builder.info.author@ == author_v,
                spec_parse_map(empty_builder(), raw_v) == spec_parse_map(
                    builder.model(),
                    raw_v.skip(t as int),
                ),
                0 <= builder.x <= t,
                0 <= builder.h <= t,
                0 <= builder.w <= t,
        {
            let b = bytes[t];
            proof {
                assert(raw_v.skip(t as int)[0] == raw_v[t as int]);
                assert(raw_v.skip(t as int).drop_first() =~= raw_v.skip(t + 1 as int));
            }
            if b == 10 {
                builder.mark_line_end();
            } else if b == 13 {
                if !(t + 1 < bn && bytes[t + 1] == 10) {
                    let e = Error::InvalidMarker { character: 13u8 as char };
                    proof {
                        assert(spec_parse_map(builder.model(), raw_v.skip(t as int)) == Err::<
                            BuilderModel,
                            Error,
                        >(e)) by {
                            if t + 1 < bn {
                                assert(raw_v.skip(t as int)[1] == raw_v[t + 1]);
                            }
                        }
                        assert(spec_parse_grid(raw_v) == Err::<BuilderModel, Error>(e));
                        assert(spec_into_seed(title_v, author_v, raw_v, cmds_v) == Err::<
                            SeedModel,
                            Error,
                        >(e));
                    }
                    return Err(e);
                }
                proof {
                    assert(raw_v.skip(t as int)[1] == raw_v[t + 1]);
                }
            } else if b == 87 {
                builder.make_cube(crate::level::CubeType::White);
            } else if b == 82 {
                builder.make_cube(crate::level::CubeType::Red);
            } else if b == 66 {
                builder.make_cube(crate::level::CubeType::Blue);
            } else if b == 71 {
                builder.make_cube(crate::level::CubeType::Green);
            } else if b == 120 {
                builder.make_destination();
            } else if b == 32 {
                builder.make_empty();
            } else if b == 126 {
                match builder.copy_left() {
                    Ok(u) => {},
                    Err(e) => {
                        proof {
                            assert(spec_apply_marker(builder.model(), b) == Err::<
                                BuilderModel,
                                Error,
                            >(e));
                            assert(spec_parse_map(builder.model(), raw_v.skip(t as int))
                                == Err::<BuilderModel, Error>(e));
                            assert(spec_parse_grid(raw_v) == Err::<BuilderModel, Error>(e));
                            assert(spec_into_seed(title_v, author_v, raw_v, cmds_v) == Err::<
                                SeedModel,
                                Error,
                            >(e));
                        }
                        return Err(e);
                    },
                }
            } else if b == 124 {
                match builder.copy_upper() {
                    Ok(u) => {},
                    Err(e) => {
                        proof {
                            assert(spec_apply_marker(builder.model(), b) == Err::<
                                BuilderModel,
                                Error,
                            >(e));
                            assert(spec_parse_map(builder.model(), raw_v.skip(t as int))
                                == Err::<BuilderModel, Error>(e));
                            assert(spec_parse_grid(raw_v) == Err::<BuilderModel, Error>(e));
                            assert(spec_into_seed(title_v, author_v, raw_v, cmds_v) == Err::<
                                SeedModel,
                                Error,
                            >(e));
                        }
                        return Err(e);
                    },
                }
            } else if b == 47 {
                match builder.copy_upper_and_left() {
                    Ok(u) => {},
                    Err(e) => {
                        proof {
                            assert(spec_apply_marker(builder.model(), b) == Err::<
                                BuilderModel,
                                Error,
                            >(e));
                            assert(spec_parse_map(builder.model(), raw_v.skip(t as int))
                                == Err::<BuilderModel, Error>(e));
                            assert(spec_parse_grid(raw_v) == Err::<BuilderModel, Error>(e));
                            assert(spec_into_seed(title_v, author_v, raw_v, cmds_v) == Err::<
                                SeedModel,
                                Error,
                            >(e));
                        }
                        return Err(e);
                    },
                }
            } else {
                let e = Error::InvalidMarker { character: b as char };
                proof {
                    assert(spec_apply_marker(builder.model(), b) == Err::<BuilderModel, Error>(
                        e,
                    ));
                    assert(spec_parse_map(builder.model(), raw_v.skip(t as int)) == Err::<
                        BuilderModel,
                        Error,
                    >(e));
                    assert(spec_parse_grid(raw_v) == Err::<BuilderModel, Error>(e));
                    assert(spec_into_seed(title_v, author_v, raw_v, cmds_v) == Err::<
                        SeedModel,
                        Error,
                    >(e));
                }
                return Err(e);
            }
        }
        proof {
            assert(raw_v.skip(bn as int).len() == 0);
            assert(spec_parse_map(empty_builder(), raw_v) == Ok::<BuilderModel, Error>(
                builder.model(),
            ));
        }
        if bytes[bn - 1] != 10 {
            builder.mark_line_end();
        }
        proof {
            assert(spec_parse_grid(raw_v) == Ok::<BuilderModel, Error>(builder.model()));
        }

        // fold the command scripts
        let cn = commands.len();
        proof {
            assert(cmds_v.skip(0) =~= cmds_v);
        }
        for ci in 0..cn
            invariant
                cn == cmds_v.len(),
                cmds_v == commands@.map_values(|c: RawCommand| c.model()),
                title_v.len() > 0,
                author_v.len() > 0,
                raw_v.len() > 0,
                title_v == self.info.title@,
                author_v == self.info.author@,
                raw_v == encode_utf8(self.map.raw@),
                cmds_v == self.map.commands@.map_values(|c: RawCommand| c.model()),

                forall|ci0: int|
                    0 <= ci0 < cmds_v.len() ==> (#[trigger] cmds_v[ci0]).content.len()
                        < 0x0FFF0000,
                builder.info.title@ == title_v,
                builder.info.author@ == author_v,
                spec_parse_grid(raw_v) matches Ok(m0) ==> spec_apply_commands(m0, cmds_v)
                    == spec_apply_commands(builder.model(), cmds_v.skip(ci as int)),
                spec_parse_grid(raw_v) is Ok,
        {
            proof {
                assert(cmds_v.skip(ci as int)[0] == cmds_v[ci as int]);
                assert(cmds_v.skip(ci as int).drop_first() =~= cmds_v.skip(ci + 1 as int));
                assert(cmds_v[ci as int] == commands@[ci as int].model());
            }
            let mut cb = CommandBuilder::new(commands[ci].is_loop);
            let mut num: Option<usize> = None;
            let cbytes = commands[ci].content.as_str().as_bytes();
            let sn = cbytes.len();
            let ghost content_v = cmds_v[ci as int].content;
            proof {
                assert(cbytes@ == content_v);
                assert(content_v.skip(0) =~= content_v);
            }
            let ghost start = CommandModel {
                is_loop: cmds_v[ci as int].is_loop,
                movements: Seq::empty(),
            };
            proof {
                assert(cb.model() =~= start);
            }
            for t in 0..sn
                invariant
                    sn == content_v.len(),
                    cbytes@ == content_v,
                    title_v.len() > 0,
                    author_v.len() > 0,
                    raw_v.len() > 0,
                    title_v == self.info.title@,
                    author_v == self.info.author@,
                    raw_v == encode_utf8(self.map.raw@),
                    cmds_v == self.map.commands@.map_values(|c: RawCommand| c.model()),
                    ci < cn,
                    cn == cmds_v.len(),
                    content_v == cmds_v[ci as int].content,
                    start == (CommandModel {
                        is_loop: cmds_v[ci as int].is_loop,
                        movements: Seq::<(Movement, usize)>::empty(),
                    }),
                    spec_parse_grid(raw_v) is Ok,
                    spec_parse_grid(raw_v) matches Ok(m0) ==> spec_apply_commands(m0, cmds_v)
                        == spec_apply_commands(builder.model(), cmds_v.skip(ci as int)),
                    spec_parse_content(start, None, content_v) == spec_parse_content(
                        cb.model(),
                        num,
                        content_v.skip(t as int),
                    ),
                    num matches Some(v) ==> v <= COUNT_CAP,
            {
                let b = cbytes[t];
                proof {
                    assert(content_v.skip(t as int)[0] == content_v[t as int]);
                    assert(content_v.skip(t as int).drop_first() =~= content_v.skip(
                        t + 1 as int,
                    ));
                }
                if b == 73 || b == 76 || b == 68 || b == 85 || b == 82 {
                    let mv = if b == 73 {
                        Movement::Idle
                    } else if b == 76 {
                        Movement::Left
                    } else if b == 68 {
                        Movement::Down
                    } else if b == 85 {
                        Movement::Up
                    } else {
                        Movement::Right
                    };
                    match num {
                        Some(v) => cb.add(v),
                        None => {},
                    }
                    cb.put(mv);
                    num = None;
                } else if b >= 48 && b <= 57 {
                    if cb.is_empty() {
                        proof {
                            let e = Error::InvalidMovement { character: b as char };
                            assert(spec_apply_content(cb.model(), num, b) == Err::<
                                (CommandModel, Option<usize>),
                                Error,
                            >(e));
                            assert(spec_parse_content(
                                cb.model(),
                                num,
                                content_v.skip(t as int),
                            ) == Err::<(CommandModel, Option<usize>), Error>(e));
                            assert(cmds_v.skip(ci as int)[0] == cmds_v[ci as int]);
                            assert(spec_apply_commands(
                                builder.model(),
                                cmds_v.skip(ci as int),
                            ) == Err::<BuilderModel, Error>(e));
                            assert(spec_into_seed(title_v, author_v, raw_v, cmds_v) == Err::<
                                SeedModel,
                                Error,
                            >(e));
                        }
                        return Err(Error::InvalidMovement { character: b as char });
                    }
                    let d = (b - 48) as usize;
                    let base = match num {
                        Some(v) => v,
                        None => 0,
                    };
                    let fresh = if base >= COUNT_CAP {
                        COUNT_CAP
                    } else {
                        let grown = base * 10 + d;
                        if grown > COUNT_CAP {
                            COUNT_CAP
                        } else {
                            grown
                        }
                    };
                    proof {
                        assert(fresh == spec_push_digit(
                            match num {
                                Some(v) => v,
                                None => 0,
                            },
                            d as usize,
                        ));
                    }
                    num = Some(fresh);
                } else {
                        proof {
                            let e = Error::InvalidMovement { character: b as char };
                            assert(spec_apply_content(cb.model(), num, b) == Err::<
                                (CommandModel, Option<usize>),
                                Error,
                            >(e));
                            assert(spec_parse_content(
                                cb.model(),
                                num,
                                content_v.skip(t as int),
                            ) == Err::<(CommandModel, Option<usize>), Error>(e));
                            assert(cmds_v.skip(ci as int)[0] == cmds_v[ci as int]);
                            assert(spec_apply_commands(
                                builder.model(),
                                cmds_v.skip(ci as int),
                            ) == Err::<BuilderModel, Error>(e));
                            assert(spec_into_seed(title_v, author_v, raw_v, cmds_v) == Err::<
                                SeedModel,
                                Error,
                            >(e));
                        }
                    return Err(Error::InvalidMovement { character: b as char });
                }
            }
            proof {
                assert(content_v.skip(sn as int).len() == 0);
                assert(spec_parse_content(start, None, content_v) == Ok::<
                    (CommandModel, Option<usize>),
                    Error,
                >((cb.model(), num)));
            }
            let command = cb.finish();
            let ghost cfinal = command.model();

            // bind it to every listed cell
            let kn = commands[ci].binding.len();
            let ghost binding_v = cmds_v[ci as int].binding;
            proof {
                assert(binding_v == commands@[ci as int].binding@);
                assert(binding_v.skip(0) =~= binding_v);
            }
            for k in 0..kn
                invariant
                    kn == binding_v.len(),
                    binding_v == commands@[ci as int].binding@,
                    title_v.len() > 0,
                    author_v.len() > 0,
                    raw_v.len() > 0,
                    title_v == self.info.title@,
                    author_v == self.info.author@,
                    raw_v == encode_utf8(self.map.raw@),
                    cmds_v == self.map.commands@.map_values(|c: RawCommand| c.model()),
                    ci < cn,
                    cn == commands@.len(),
                    builder.info.title@ == title_v,
                    builder.info.author@ == author_v,
                    cfinal == command.model(),
                    spec_parse_grid(raw_v) matches Ok(m0) ==> (spec_apply_commands(
                        m0,
                        cmds_v,
                    ) == match spec_bind_all(builder.model(), binding_v.skip(k as int), cfinal) {
                        Ok(m2) => spec_apply_commands(m2, cmds_v.skip(ci + 1 as int)),
                        Err(e) => Err(e),
                    }),
                    spec_parse_grid(raw_v) is Ok,
            {
                let (bx, by) = commands[ci].binding[k];
                proof {
                    assert(binding_v.skip(k as int)[0] == binding_v[k as int]);
                    assert(binding_v.skip(k as int).drop_first() =~= binding_v.skip(
                        k + 1 as int,
                    ));
                }
                let bound = duplicate_command(&command);
                proof {
                    assert(bound.model() =~= cfinal);
                }
                let ghost pre_bind = builder.model();
                match builder.bind_command(bx, by, bound) {
                    Ok(u) => {},
                    Err(e) => {
                        proof {
                            assert(spec_bind(pre_bind, bx, by, cfinal) == Err::<
                                BuilderModel,
                                Error,
                            >(e));
                            assert(spec_bind_all(pre_bind, binding_v.skip(k as int), cfinal)
                                == Err::<BuilderModel, Error>(e));
                            assert(spec_into_seed(title_v, author_v, raw_v, cmds_v) == Err::<
                                SeedModel,
                                Error,
                            >(e));
                        }
                        return Err(e);
                    },
                }
            }
            proof {
                assert(binding_v.skip(kn as int).len() == 0);
            }
        }
        proof {
            assert(cmds_v.skip(cn as int).len() == 0);
        }
        let seed = builder.finish();
        Ok(seed)
    }
}

} // verus!
