//! The simulator: one tick moves every operator of the tape at once, and a
//! time warp takes the tape back to an earlier tick.

use crate::bigint::truncated_div;
use crate::bigint::truncated_rem;
use crate::bigint::BigInt;
use crate::geometry::Vector2D;
use crate::three_d::board::ThreeDBoard;
use crate::three_d::cell::Cell;
use crate::three_d::cell::Tile;
use crate::three_d::cells::lookup;
use crate::three_d::cells::put;
use crate::three_d::cells::take_away;
use crate::three_d::cells::CellMap;
use crate::three_d::cells::Layout;
use vstd::prelude::*;

verus! {

/// The most ticks that a simulation may take.
pub const TICK_LIMIT: u32 = 1000000;

/// Why a tick failed.
#[derive(Debug, Clone, Copy, PartialEq, Eq, Structural)]
pub enum SimError {
    /// Two writes to one position in one tick, or two time warps that carry
    /// different cells to one position.
    Conflict(Vector2D),
    /// The operator at the position cannot work on its operands: a division
    /// by zero, a submitted cell that is no number, or a target off the tape.
    BadOperand(Vector2D),
    /// The time warp at the position does not go back in time, goes back
    /// before the first tick, or aims off the tape; at the origin: the time
    /// warps of one tick aim at different times.
    BadTimeWarp(Vector2D),
    /// A second submission in one tick.
    MultipleSubmit(Vector2D),
    /// The simulation has taken more ticks than the limit allows.
    TickLimit,
}

impl SimError {
    /// The position of the failure; the origin for a failure of the tape as a
    /// whole.
    pub fn position(&self) -> (r: Vector2D)
        ensures
            r == error_position(*self),
    {
        match self {
            SimError::Conflict(p) => *p,
            SimError::BadOperand(p) => *p,
            SimError::BadTimeWarp(p) => *p,
            SimError::MultipleSubmit(p) => *p,
            _ => Vector2D::new(0, 0),
        }
    }
}

/// The position of a failure.
pub open spec fn error_position(e: SimError) -> Vector2D {
    match e {
        SimError::Conflict(p) => p,
        SimError::BadOperand(p) => p,
        SimError::BadTimeWarp(p) => p,
        SimError::MultipleSubmit(p) => p,
        _ => Vector2D { x: 0, y: 0 },
    }
}

/// What a [`SimulationStepResult`] stands for.
pub enum Outcome {
    Advanced,
    Finished(int),
    AlreadyFinished,
    Error(SimError),
}

/// How a tick ended.
#[derive(Debug, PartialEq, Eq)]
pub enum SimulationStepResult {
    /// The tape has moved on.
    Advanced,
    /// A number was submitted: the result of the program.
    Finished(BigInt),
    /// The simulation had ended before.
    AlreadyFinished,
    /// The tick failed.
    Error(SimError),
}

impl View for SimulationStepResult {
    type V = Outcome;

    open spec fn view(&self) -> Outcome {
        match self {
            SimulationStepResult::Advanced => Outcome::Advanced,
            SimulationStepResult::Finished(v) => Outcome::Finished(v@),
            SimulationStepResult::AlreadyFinished => Outcome::AlreadyFinished,
            SimulationStepResult::Error(e) => Outcome::Error(*e),
        }
    }
}

impl Clone for SimulationStepResult {
    fn clone(&self) -> (r: Self)
        ensures
            r@ == self@,
    {
        match self {
            SimulationStepResult::Advanced => SimulationStepResult::Advanced,
            SimulationStepResult::Finished(v) => SimulationStepResult::Finished(v.clone()),
            SimulationStepResult::AlreadyFinished => SimulationStepResult::AlreadyFinished,
            SimulationStepResult::Error(e) => SimulationStepResult::Error(*e),
        }
    }
}

/// What an operator wants done in a tick.
pub enum Intent {
    Erase(Vector2D),
    Write(Vector2D, Tile),
    TimeTravel(u32, Vector2D, Tile),
}

/// The position at an offset, where it is on the tape.
pub open spec fn shifted(pos: Vector2D, dx: int, dy: int) -> Option<Vector2D> {
    if i32::MIN <= pos.x + dx <= i32::MAX && i32::MIN <= pos.y + dy <= i32::MAX {
        Some(Vector2D { x: (pos.x + dx) as i32, y: (pos.y + dy) as i32 })
    } else {
        None
    }
}

/// The tile at a place, where there is a place and a tile.
pub open spec fn tile_at(layout: Layout, place: Option<Vector2D>) -> Option<Tile> {
    match place {
        Some(p) => lookup(layout, p),
        None => None,
    }
}

/// What a move arrow wants: the cell at its source goes to its target.
pub open spec fn moved(
    layout: Layout,
    pos: Vector2D,
    source: Option<Vector2D>,
    target: Option<Vector2D>,
) -> Result<Seq<Intent>, SimError> {
    match tile_at(layout, source) {
        None => Ok(Seq::empty()),
        Some(t) => match target {
            None => Err(SimError::BadOperand(pos)),
            Some(to) => Ok(seq![Intent::Erase(source.unwrap()), Intent::Write(to, t)]),
        },
    }
}

/// The number that an arithmetic operator makes of two numbers; `None` for a
/// division or a remainder by zero.
pub open spec fn computed(op: Tile, x: int, y: int) -> Option<int> {
    match op {
        Tile::Add => Some(x + y),
        Tile::Subtract => Some(x - y),
        Tile::Multiply => Some(x * y),
        Tile::Divide => if y == 0 {
            None
        } else {
            Some(truncated_div(x, y))
        },
        Tile::Modulo => if y == 0 {
            None
        } else {
            Some(truncated_rem(x, y))
        },
        _ => None,
    }
}

/// What an operator with two operands wants: the operands, to its left and
/// above it, are erased, and the two results are written to its right and
/// below it.
pub open spec fn consumed(pos: Vector2D, to_right: Tile, to_down: Tile) -> Result<
    Seq<Intent>,
    SimError,
> {
    match (shifted(pos, 1, 0), shifted(pos, 0, 1)) {
        (Some(r), Some(d)) => Ok(
            seq![
                Intent::Erase(shifted(pos, -1, 0).unwrap()),
                Intent::Erase(shifted(pos, 0, -1).unwrap()),
                Intent::Write(r, to_right),
                Intent::Write(d, to_down),
            ],
        ),
        _ => Err(SimError::BadOperand(pos)),
    }
}

/// What an arithmetic operator wants. It acts when both operands are numbers.
pub open spec fn arithmetic(layout: Layout, pos: Vector2D, op: Tile) -> Result<
    Seq<Intent>,
    SimError,
> {
    match (tile_at(layout, shifted(pos, -1, 0)), tile_at(layout, shifted(pos, 0, -1))) {
        (Some(Tile::Data(x)), Some(Tile::Data(y))) => match computed(op, x, y) {
            None => Err(SimError::BadOperand(pos)),
            Some(v) => consumed(pos, Tile::Data(v), Tile::Data(v)),
        },
        _ => Ok(Seq::empty()),
    }
}

/// What a comparator wants. `=` acts when its operands are the same cell, and
/// passes it on; `#` acts when they differ, and passes them on crosswise.
pub open spec fn compared(layout: Layout, pos: Vector2D, equal: bool) -> Result<
    Seq<Intent>,
    SimError,
> {
    match (tile_at(layout, shifted(pos, -1, 0)), tile_at(layout, shifted(pos, 0, -1))) {
        (Some(x), Some(y)) => if (x == y) == equal {
            consumed(
                pos,
                if equal {
                    x
                } else {
                    y
                },
                x,
            )
        } else {
            Ok(Seq::empty())
        },
        _ => Ok(Seq::empty()),
    }
}

/// What a time warp wants. With the numbers `dx` to its left, `dy` to its
/// right and `dt` below it, and any cell `v` above it, it carries `v` back by
/// `dt` ticks to the position `dx` to the left and `dy` up of its own.
pub open spec fn warped(layout: Layout, pos: Vector2D, time: u32) -> Result<Seq<Intent>, SimError> {
    match (
        tile_at(layout, shifted(pos, -1, 0)),
        tile_at(layout, shifted(pos, 1, 0)),
        tile_at(layout, shifted(pos, 0, 1)),
        tile_at(layout, shifted(pos, 0, -1)),
    ) {
        (Some(Tile::Data(dx)), Some(Tile::Data(dy)), Some(Tile::Data(dt)), Some(v)) => if dt <= 0
            || dt > time || dx < i32::MIN || dx > i32::MAX || dy < i32::MIN || dy > i32::MAX {
            Err(SimError::BadTimeWarp(pos))
        } else {
            match shifted(pos, -dx, -dy) {
                None => Err(SimError::BadTimeWarp(pos)),
                Some(target) => Ok(seq![Intent::TimeTravel((time - dt) as u32, target, v)]),
            }
        },
        _ => Ok(Seq::empty()),
    }
}

/// What the tile at a position wants done in this tick.
pub open spec fn tile_intents(layout: Layout, pos: Vector2D, tile: Tile, time: u32) -> Result<
    Seq<Intent>,
    SimError,
> {
    match tile {
        Tile::MoveLeft => moved(layout, pos, shifted(pos, 1, 0), shifted(pos, -1, 0)),
        Tile::MoveRight => moved(layout, pos, shifted(pos, -1, 0), shifted(pos, 1, 0)),
        Tile::MoveUp => moved(layout, pos, shifted(pos, 0, 1), shifted(pos, 0, -1)),
        Tile::MoveDown => moved(layout, pos, shifted(pos, 0, -1), shifted(pos, 0, 1)),
        Tile::Add | Tile::Subtract | Tile::Multiply | Tile::Divide | Tile::Modulo => arithmetic(
            layout,
            pos,
            tile,
        ),
        Tile::Equal => compared(layout, pos, true),
        Tile::NotEqual => compared(layout, pos, false),
        Tile::TimeWarp => warped(layout, pos, time),
        _ => Ok(Seq::empty()),
    }
}

/// What the first `n` tiles of the layout want, in the layout's order; the
/// first failure ends the gathering.
pub open spec fn gather(layout: Layout, time: u32, n: int) -> Result<Seq<Intent>, SimError>
    decreases n,
{
    if n <= 0 {
        Ok(Seq::empty())
    } else {
        match gather(layout, time, n - 1) {
            Err(e) => Err(e),
            Ok(intents) => match tile_intents(layout, layout[n - 1].0, layout[n - 1].1, time) {
                Err(e) => Err(e),
                Ok(more) => Ok(intents + more),
            },
        }
    }
}

/// The layout after the erasures among the first `n` intents.
pub open spec fn erased(layout: Layout, intents: Seq<Intent>, n: int) -> Layout
    decreases n,
{
    if n <= 0 {
        layout
    } else {
        let before = erased(layout, intents, n - 1);
        match intents[n - 1] {
            Intent::Erase(p) => take_away(before, p),
            _ => before,
        }
    }
}

/// The tape while the writes of a tick are made: the layout, the positions
/// written so far, and the number submitted.
pub struct Written {
    pub layout: Layout,
    pub targets: Seq<Vector2D>,
    pub submitted: Option<int>,
}

/// One write. A position is written once in a tick. A write onto a submit
/// cell submits the number written; there is one submission in a tick.
pub open spec fn write_one(w: Written, pos: Vector2D, tile: Tile) -> Result<Written, SimError> {
    if w.targets.contains(pos) {
        Err(SimError::Conflict(pos))
    } else if lookup(w.layout, pos) == Some(Tile::Submit) {
        if w.submitted.is_some() {
            Err(SimError::MultipleSubmit(pos))
        } else {
            match tile {
                Tile::Data(v) => Ok(
                    Written {
                        layout: put(w.layout, pos, tile),
                        targets: w.targets.push(pos),
                        submitted: Some(v),
                    },
                ),
                _ => Err(SimError::BadOperand(pos)),
            }
        }
    } else {
        Ok(
            Written {
                layout: put(w.layout, pos, tile),
                targets: w.targets.push(pos),
                submitted: w.submitted,
            },
        )
    }
}

/// The tape after the writes among the first `n` intents, in their order.
pub open spec fn written(layout: Layout, intents: Seq<Intent>, n: int) -> Result<Written, SimError>
    decreases n,
{
    if n <= 0 {
        Ok(Written { layout, targets: Seq::empty(), submitted: None })
    } else {
        match written(layout, intents, n - 1) {
            Err(e) => Err(e),
            Ok(w) => match intents[n - 1] {
                Intent::Write(pos, tile) => write_one(w, pos, tile),
                _ => Ok(w),
            },
        }
    }
}

/// The time that the time warps among the first `n` intents aim at; `None`
/// where there is no time warp. They all aim at one time.
pub open spec fn travel_time(intents: Seq<Intent>, n: int) -> Result<Option<u32>, SimError>
    decreases n,
{
    if n <= 0 {
        Ok(None)
    } else {
        match travel_time(intents, n - 1) {
            Err(e) => Err(e),
            Ok(found) => match intents[n - 1] {
                Intent::TimeTravel(t, _, _) => match found {
                    None => Ok(Some(t)),
                    Some(t0) => if t0 == t {
                        Ok(found)
                    } else {
                        Err(SimError::BadTimeWarp(Vector2D { x: 0, y: 0 }))
                    },
                },
                _ => Ok(found),
            },
        }
    }
}

/// The cells that the time warps among the first `n` intents carry, by
/// target position. Two warps to one position carry the same cell.
pub open spec fn travel_writes(intents: Seq<Intent>, n: int) -> Result<Layout, SimError>
    decreases n,
{
    if n <= 0 {
        Ok(Seq::empty())
    } else {
        match travel_writes(intents, n - 1) {
            Err(e) => Err(e),
            Ok(writes) => match intents[n - 1] {
                Intent::TimeTravel(_, pos, v) => match lookup(writes, pos) {
                    Some(w) => if w == v {
                        Ok(put(writes, pos, v))
                    } else {
                        Err(SimError::Conflict(pos))
                    },
                    None => Ok(put(writes, pos, v)),
                },
                _ => Ok(writes),
            },
        }
    }
}

/// The layout with the first `n` of the writes put on it.
pub open spec fn put_all(layout: Layout, writes: Layout, n: int) -> Layout
    decreases n,
{
    if n <= 0 {
        layout
    } else {
        put(put_all(layout, writes, n - 1), writes[n - 1].0, writes[n - 1].1)
    }
}

/// The layout with every input cell replaced by its number.
pub open spec fn with_inputs(layout: Layout, a: int, b: int) -> Layout {
    Seq::new(
        layout.len(),
        |i: int|
            (
                layout[i].0,
                match layout[i].1 {
                    Tile::InputA => Tile::Data(a),
                    Tile::InputB => Tile::Data(b),
                    t => t,
                },
            ),
    )
}

/// A bounding box. The box that bounds nothing has its least coordinates
/// above its greatest.
#[derive(Debug, Clone, Copy, PartialEq, Eq, Structural)]
pub struct Bounds {
    pub min_x: i32,
    pub max_x: i32,
    pub min_y: i32,
    pub max_y: i32,
}

/// The box that bounds nothing.
pub open spec fn no_bounds() -> Bounds {
    Bounds { min_x: i32::MAX, max_x: i32::MIN, min_y: i32::MAX, max_y: i32::MIN }
}

/// The box widened to hold a position.
pub open spec fn widened(b: Bounds, pos: Vector2D) -> Bounds {
    Bounds {
        min_x: if pos.x < b.min_x {
            pos.x
        } else {
            b.min_x
        },
        max_x: if pos.x > b.max_x {
            pos.x
        } else {
            b.max_x
        },
        min_y: if pos.y < b.min_y {
            pos.y
        } else {
            b.min_y
        },
        max_y: if pos.y > b.max_y {
            pos.y
        } else {
            b.max_y
        },
    }
}

/// The box widened to hold the first `n` positions of the layout.
pub open spec fn bounds_of(b: Bounds, layout: Layout, n: int) -> Bounds
    decreases n,
{
    if n <= 0 {
        b
    } else {
        widened(bounds_of(b, layout, n - 1), layout[n - 1].0)
    }
}

/// The score of a box and a time: the box's area times the time, and zero
/// for the box that bounds nothing.
pub open spec fn score_of(b: Bounds, max_time: u32) -> int {
    if max_time == 0 || b.max_x < b.min_x || b.max_y < b.min_y {
        0
    } else {
        (b.max_x - b.min_x + 1) * (b.max_y - b.min_y + 1) * max_time
    }
}

/// What a [`ThreeDSimulator`] stands for.
pub struct Snapshot {
    /// The occupied cells.
    pub cells: Layout,
    /// The cells at each earlier tick; first the board as it was loaded.
    pub history: Seq<Layout>,
    /// The number of the current tick.
    pub time: u32,
    /// The box around every position that was ever occupied.
    pub bounds: Bounds,
    /// The greatest tick number that an ordinary tick has reached.
    pub max_time: u32,
    pub a: int,
    pub b: int,
    /// The number of ticks taken, forwards and backwards.
    pub steps: u32,
    pub result: Outcome,
}

/// The state after a failed tick.
pub open spec fn failed(s: Snapshot, e: SimError) -> (Snapshot, Outcome) {
    (Snapshot { result: Outcome::Error(e), ..s }, Outcome::Error(e))
}

/// The end of an ordinary tick, after the operators' intents are gathered:
/// erasures, then writes, then a submission, a time warp or the next tick.
/// The box grows to hold every position that the writes leave occupied, and
/// every position that is occupied after a time warp.
pub open spec fn settle(s: Snapshot, intents: Seq<Intent>) -> (Snapshot, Outcome) {
    let n = intents.len() as int;
    match written(erased(s.cells, intents, n), intents, n) {
        Err(e) => failed(s, e),
        Ok(w) => {
            let s2 = Snapshot { bounds: bounds_of(s.bounds, w.layout, w.layout.len() as int), ..s };
            match w.submitted {
                Some(v) => (Snapshot { result: Outcome::Finished(v), ..s2 }, Outcome::Finished(v)),
                None => match travel_time(intents, n) {
                    Err(e) => failed(s2, e),
                    Ok(Some(t)) => match travel_writes(intents, n) {
                        Err(e) => failed(s2, e),
                        Ok(writes) => {
                            let cells = put_all(s.history[t as int], writes, writes.len() as int);
                            (
                                Snapshot {
                                    cells,
                                    history: s.history.subrange(0, t as int),
                                    time: t,
                                    bounds: bounds_of(s2.bounds, cells, cells.len() as int),
                                    ..s2
                                },
                                Outcome::Advanced,
                            )
                        },
                    },
                    Ok(None) => (
                        Snapshot {
                            history: s.history.push(s.cells),
                            cells: w.layout,
                            time: (s.time + 1) as u32,
                            max_time: if s.max_time > s.time {
                                s.max_time
                            } else {
                                (s.time + 1) as u32
                            },
                            ..s2
                        },
                        Outcome::Advanced,
                    ),
                },
            }
        },
    }
}

/// One tick.
///
/// A simulation that has finished or failed stays as it is. The count of
/// steps goes up; beyond the limit the tick fails. The first tick keeps the
/// board as it was loaded and puts the two inputs in the place of the input
/// cells. Every later tick gathers what the operators want and settles; where
/// none wants anything, the tape stays as it is and the time goes on.
pub open spec fn tick(s: Snapshot) -> (Snapshot, Outcome) {
    if s.result is Finished || s.result is Error {
        (s, Outcome::AlreadyFinished)
    } else {
        let steps = if s.steps < u32::MAX {
            (s.steps + 1) as u32
        } else {
            s.steps
        };
        let s1 = Snapshot { steps, ..s };
        if steps > TICK_LIMIT {
            failed(s1, SimError::TickLimit)
        } else if s.history.len() == 0 {
            (
                Snapshot {
                    history: seq![s.cells],
                    cells: with_inputs(s.cells, s.a, s.b),
                    time: (s.time + 1) as u32,
                    bounds: bounds_of(s.bounds, s.cells, s.cells.len() as int),
                    max_time: if s.max_time > s.time {
                        s.max_time
                    } else {
                        (s.time + 1) as u32
                    },
                    ..s1
                },
                Outcome::Advanced,
            )
        } else {
            match gather(s.cells, s.time, s.cells.len() as int) {
                Err(e) => failed(s1, e),
                Ok(intents) => settle(s1, intents),
            }
        }
    }
}

/// One tick backwards: the tape of the tick before comes back, and a
/// simulation that had ended goes on. At the first tick nothing is done.
pub open spec fn tick_back(s: Snapshot) -> (Snapshot, Outcome) {
    if s.time > 0 && s.history.len() > 0 {
        (
            Snapshot {
                result: Outcome::Advanced,
                steps: if s.steps < u32::MAX {
                    (s.steps + 1) as u32
                } else {
                    s.steps
                },
                time: (s.time - 1) as u32,
                cells: s.history.last(),
                history: s.history.drop_last(),
                ..s
            },
            Outcome::Advanced,
        )
    } else {
        (s, Outcome::AlreadyFinished)
    }
}


/// What an operator wants done in a tick, with the cells to write.
enum Action {
    Erase(Vector2D),
    Write(Vector2D, Cell),
    TimeTravel(u32, Vector2D, Cell),
}

impl View for Action {
    type V = Intent;

    closed spec fn view(&self) -> Intent {
        match self {
            Action::Erase(p) => Intent::Erase(*p),
            Action::Write(p, c) => Intent::Write(*p, c@),
            Action::TimeTravel(t, p, c) => Intent::TimeTravel(*t, *p, c@),
        }
    }
}

/// What the actions stand for.
closed spec fn intents_of(actions: Seq<Action>) -> Seq<Intent> {
    Seq::new(actions.len(), |i: int| actions[i]@)
}

/// The exec result stands for the spec result: the intents are appended.
closed spec fn appended(
    r: Result<(), SimError>,
    before: Seq<Action>,
    after: Seq<Action>,
    s: Result<Seq<Intent>, SimError>,
) -> bool {
    match s {
        Ok(more) => r.is_ok() && intents_of(after) == intents_of(before) + more,
        Err(e) => r == Err::<(), SimError>(e),
    }
}

fn push_action(out: &mut Vec<Action>, action: Action)
    ensures
        intents_of(final(out)@) == intents_of(old(out)@).push(action@),
{
    out.push(action);
    assert(intents_of(out@) =~= intents_of(old(out)@).push(action@));
}

/// The position at an offset, where it is on the tape.
fn shift(pos: Vector2D, dx: i32, dy: i32) -> (r: Option<Vector2D>)
    ensures
        r == shifted(pos, dx as int, dy as int),
{
    let x: i64 = pos.x as i64 + dx as i64;
    let y: i64 = pos.y as i64 + dy as i64;
    if x < i32::MIN as i64 || x > i32::MAX as i64 || y < i32::MIN as i64 || y > i32::MAX as i64 {
        None
    } else {
        Some(Vector2D { x: x as i32, y: y as i32 })
    }
}

/// The position at the opposite of an offset, where it is on the tape.
fn shift_back(pos: Vector2D, dx: i32, dy: i32) -> (r: Option<Vector2D>)
    ensures
        r == shifted(pos, -(dx as int), -(dy as int)),
{
    let x: i64 = pos.x as i64 - dx as i64;
    let y: i64 = pos.y as i64 - dy as i64;
    if x < i32::MIN as i64 || x > i32::MAX as i64 || y < i32::MIN as i64 || y > i32::MAX as i64 {
        None
    } else {
        Some(Vector2D { x: x as i32, y: y as i32 })
    }
}

/// The cell at a place, where there is a place and a cell.
fn cell_at(cells: &CellMap, place: Option<Vector2D>) -> (r: Option<&Cell>)
    ensures
        match tile_at(cells@, place) {
            Some(tile) => r.is_some() && r.unwrap()@ == tile,
            None => r.is_none(),
        },
{
    match place {
        Some(p) => cells.get(p),
        None => None,
    }
}

/// The number at a place, where there is a place and a number.
fn data_at(cells: &CellMap, place: Option<Vector2D>) -> (r: Option<&BigInt>)
    ensures
        match tile_at(cells@, place) {
            Some(Tile::Data(v)) => r.is_some() && r.unwrap()@ == v,
            _ => r.is_none(),
        },
{
    match cell_at(cells, place) {
        Some(Cell::Data(v)) => Some(v),
        _ => None,
    }
}

fn moved_actions(
    cells: &CellMap,
    pos: Vector2D,
    source: Option<Vector2D>,
    target: Option<Vector2D>,
    out: &mut Vec<Action>,
) -> (r: Result<(), SimError>)
    ensures
        appended(r, old(out)@, final(out)@, moved(cells@, pos, source, target)),
{
    match cell_at(cells, source) {
        None => {
            assert(intents_of(out@) =~= intents_of(out@) + Seq::<Intent>::empty());
            Ok(())
        },
        Some(cell) => match (source, target) {
            (Some(from), Some(to)) => {
                let ghost before = intents_of(out@);
                push_action(out, Action::Erase(from));
                push_action(out, Action::Write(to, cell.clone()));
                assert(intents_of(out@) =~= before + seq![
                    Intent::Erase(from),
                    Intent::Write(to, cell@),
                ]);
                Ok(())
            },
            _ => Err(SimError::BadOperand(pos)),
        },
    }
}

fn consumed_actions(pos: Vector2D, to_right: Cell, to_down: Cell, out: &mut Vec<Action>) -> (r:
    Result<(), SimError>)
    requires
        shifted(pos, -1, 0).is_some(),
        shifted(pos, 0, -1).is_some(),
    ensures
        appended(r, old(out)@, final(out)@, consumed(pos, to_right@, to_down@)),
{
    match (shift(pos, -1, 0), shift(pos, 0, -1), shift(pos, 1, 0), shift(pos, 0, 1)) {
        (Some(l), Some(u), Some(r), Some(d)) => {
            let ghost before = intents_of(out@);
            let ghost right_tile = to_right@;
            let ghost down_tile = to_down@;
            push_action(out, Action::Erase(l));
            push_action(out, Action::Erase(u));
            push_action(out, Action::Write(r, to_right));
            push_action(out, Action::Write(d, to_down));
            assert(intents_of(out@) =~= before + seq![
                Intent::Erase(l),
                Intent::Erase(u),
                Intent::Write(r, right_tile),
                Intent::Write(d, down_tile),
            ]);
            Ok(())
        },
        _ => Err(SimError::BadOperand(pos)),
    }
}

/// The number that an arithmetic operator makes of two numbers.
fn compute(op: &Cell, x: &BigInt, y: &BigInt) -> (r: Option<BigInt>)
    ensures
        match computed(op@, x@, y@) {
            Some(v) => r.is_some() && r.unwrap()@ == v,
            None => r.is_none(),
        },
{
    match op {
        Cell::Add => Some(x.add(y)),
        Cell::Subtract => Some(x.sub(y)),
        Cell::Multiply => Some(x.mul(y)),
        Cell::Divide => x.checked_div(y),
        Cell::Modulo => x.checked_rem(y),
        _ => None,
    }
}

fn arithmetic_actions(cells: &CellMap, pos: Vector2D, op: &Cell, out: &mut Vec<Action>) -> (r:
    Result<(), SimError>)
    ensures
        appended(r, old(out)@, final(out)@, arithmetic(cells@, pos, op@)),
{
    match (data_at(cells, shift(pos, -1, 0)), data_at(cells, shift(pos, 0, -1))) {
        (Some(x), Some(y)) => match compute(op, x, y) {
            None => Err(SimError::BadOperand(pos)),
            Some(v) => {
                let copy = v.clone();
                consumed_actions(pos, Cell::Data(v), Cell::Data(copy), out)
            },
        },
        _ => {
            assert(intents_of(out@) =~= intents_of(out@) + Seq::<Intent>::empty());
            Ok(())
        },
    }
}

fn compared_actions(cells: &CellMap, pos: Vector2D, equal: bool, out: &mut Vec<Action>) -> (r:
    Result<(), SimError>)
    ensures
        appended(r, old(out)@, final(out)@, compared(cells@, pos, equal)),
{
    match (cell_at(cells, shift(pos, -1, 0)), cell_at(cells, shift(pos, 0, -1))) {
        (Some(x), Some(y)) => {
            if x.same(y) == equal {
                let to_right = if equal {
                    x.clone()
                } else {
                    y.clone()
                };
                consumed_actions(pos, to_right, x.clone(), out)
            } else {
                assert(intents_of(out@) =~= intents_of(out@) + Seq::<Intent>::empty());
                Ok(())
            }
        },
        _ => {
            assert(intents_of(out@) =~= intents_of(out@) + Seq::<Intent>::empty());
            Ok(())
        },
    }
}

/// The target time of a warp back by `dt` from `time`, where the warp goes
/// back, and not before the first tick.
fn warp_time(dt: &BigInt, time: u32) -> (r: Option<u32>)
    ensures
        match r {
            Some(t) => 0 < dt@ <= time && t == time - dt@,
            None => dt@ <= 0 || dt@ > time,
        },
{
    let now = BigInt::from_u64(time as u64);
    if dt.is_negative() || dt.is_zero() || now.less_than(dt) {
        None
    } else {
        let back: u64 = dt.low_u64();
        assert(back == dt@) by {
            assert(vstd::math::abs(dt@) == dt@);
            assert(dt@ % 18446744073709551616 == dt@) by (nonlinear_arith)
                requires
                    0 <= dt@ < 18446744073709551616,
            ;
        }
        Some(time - back as u32)
    }
}

fn warped_actions(cells: &CellMap, pos: Vector2D, time: u32, out: &mut Vec<Action>) -> (r: Result<
    (),
    SimError,
>)
    ensures
        appended(r, old(out)@, final(out)@, warped(cells@, pos, time)),
{
    match (
        data_at(cells, shift(pos, -1, 0)),
        data_at(cells, shift(pos, 1, 0)),
        data_at(cells, shift(pos, 0, 1)),
        cell_at(cells, shift(pos, 0, -1)),
    ) {
        (Some(dx), Some(dy), Some(dt), Some(v)) => {
            let t = match warp_time(dt, time) {
                Some(t) => t,
                None => {
                    return Err(SimError::BadTimeWarp(pos));
                },
            };
            let (x, y) = match (dx.to_i32(), dy.to_i32()) {
                (Some(x), Some(y)) => (x, y),
                _ => {
                    return Err(SimError::BadTimeWarp(pos));
                },
            };
            match shift_back(pos, x, y) {
                None => Err(SimError::BadTimeWarp(pos)),
                Some(target) => {
                    let ghost before = intents_of(out@);
                    push_action(out, Action::TimeTravel(t, target, v.clone()));
                    assert(intents_of(out@) =~= before + seq![Intent::TimeTravel(t, target, v@)]);
                    Ok(())
                },
            }
        },
        _ => {
            assert(intents_of(out@) =~= intents_of(out@) + Seq::<Intent>::empty());
            Ok(())
        },
    }
}

/// Appends what the cell at a position wants done in this tick.
fn tile_actions(cells: &CellMap, pos: Vector2D, cell: &Cell, time: u32, out: &mut Vec<Action>) -> (r:
    Result<(), SimError>)
    ensures
        appended(r, old(out)@, final(out)@, tile_intents(cells@, pos, cell@, time)),
{
    match cell {
        Cell::MoveLeft => moved_actions(cells, pos, shift(pos, 1, 0), shift(pos, -1, 0), out),
        Cell::MoveRight => moved_actions(cells, pos, shift(pos, -1, 0), shift(pos, 1, 0), out),
        Cell::MoveUp => moved_actions(cells, pos, shift(pos, 0, 1), shift(pos, 0, -1), out),
        Cell::MoveDown => moved_actions(cells, pos, shift(pos, 0, -1), shift(pos, 0, 1), out),
        Cell::Add | Cell::Subtract | Cell::Multiply | Cell::Divide | Cell::Modulo => {
            arithmetic_actions(cells, pos, cell, out)
        },
        Cell::Equal => compared_actions(cells, pos, true, out),
        Cell::NotEqual => compared_actions(cells, pos, false, out),
        Cell::TimeWarp => warped_actions(cells, pos, time, out),
        _ => {
            assert(intents_of(out@) =~= intents_of(out@) + Seq::<Intent>::empty());
            Ok(())
        },
    }
}

/// What the cells want done in this tick, in the cells' order.
fn gather_actions(cells: &CellMap, time: u32) -> (r: Result<Vec<Action>, SimError>)
    ensures
        match gather(cells@, time, cells@.len() as int) {
            Ok(intents) => r.is_ok() && intents_of(r.unwrap()@) == intents,
            Err(e) => r == Err::<Vec<Action>, SimError>(e),
        },
{
    let mut out: Vec<Action> = Vec::new();
    let n = cells.len();
    let mut i: usize = 0;
    assert(intents_of(out@) =~= Seq::<Intent>::empty());
    while i < n
        invariant
            i <= n,
            n == cells@.len(),
            gather(cells@, time, i as int) == Ok::<Seq<Intent>, SimError>(intents_of(out@)),
        decreases n - i,
    {
        let pos = cells.position(i);
        match tile_actions(cells, pos, cells.cell(i), time, &mut out) {
            Ok(()) => {},
            Err(e) => {
                proof {
                    lemma_gather_fails(cells@, time, i + 1, n as int);
                }
                return Err(e);
            },
        }
        i += 1;
    }
    Ok(out)
}

/// A gathering that has failed on some tiles fails in the same way on more.
pub proof fn lemma_gather_fails(layout: Layout, time: u32, i: int, n: int)
    requires
        0 <= i <= n,
        gather(layout, time, i).is_err(),
    ensures
        gather(layout, time, n) == gather(layout, time, i),
    decreases n - i,
{
    if i < n {
        lemma_gather_fails(layout, time, i, n - 1);
    }
}


/// Makes the erasures among the actions.
fn erase_all(cells: &mut CellMap, actions: &Vec<Action>)
    ensures
        final(cells)@ == erased(old(cells)@, intents_of(actions@), actions@.len() as int),
{
    let mut i: usize = 0;
    while i < actions.len()
        invariant
            i <= actions@.len(),
            cells@ == erased(old(cells)@, intents_of(actions@), i as int),
        decreases actions@.len() - i,
    {
        assert(intents_of(actions@)[i as int] == actions@[i as int]@);
        match &actions[i] {
            Action::Erase(p) => {
                cells.remove(*p);
            },
            _ => {},
        }
        i += 1;
    }
}

/// Whether the position is among the positions.
fn is_among(positions: &Vec<Vector2D>, pos: Vector2D) -> (r: bool)
    ensures
        r == positions@.contains(pos),
{
    let mut i: usize = 0;
    while i < positions.len()
        invariant
            i <= positions@.len(),
            forall|k: int| 0 <= k < i ==> positions@[k] != pos,
        decreases positions@.len() - i,
    {
        let p = positions[i];
        if p.x == pos.x && p.y == pos.y {
            assert(positions@[i as int] == pos);
            return true;
        }
        i += 1;
    }
    false
}

/// What the submitted number stands for.
closed spec fn number_of(v: Option<BigInt>) -> Option<int> {
    match v {
        Some(n) => Some(n@),
        None => None,
    }
}

/// Makes the writes among the actions, and returns the number submitted.
fn write_all(cells: &mut CellMap, actions: &Vec<Action>) -> (r: Result<Option<BigInt>, SimError>)
    ensures
        match written(old(cells)@, intents_of(actions@), actions@.len() as int) {
            Ok(w) => r.is_ok() && final(cells)@ == w.layout && number_of(r.unwrap())
                == w.submitted,
            Err(e) => r == Err::<Option<BigInt>, SimError>(e),
        },
{
    let mut targets: Vec<Vector2D> = Vec::new();
    let mut submitted: Option<BigInt> = None;
    let ghost intents = intents_of(actions@);
    let n = actions.len();
    let mut i: usize = 0;
    while i < n
        invariant
            i <= n,
            n == actions@.len(),
            intents == intents_of(actions@),
            written(old(cells)@, intents, i as int) == Ok::<Written, SimError>(
                Written { layout: cells@, targets: targets@, submitted: number_of(submitted) },
            ),
        decreases n - i,
    {
        assert(intents[i as int] == actions@[i as int]@);
        match &actions[i] {
            Action::Write(pos, cell) => {
                let failure = if is_among(&targets, *pos) {
                    Some(SimError::Conflict(*pos))
                } else {
                    match cells.get(*pos) {
                        Some(Cell::Submit) => {
                            if submitted.is_some() {
                                Some(SimError::MultipleSubmit(*pos))
                            } else {
                                match cell {
                                    Cell::Data(v) => {
                                        submitted = Some(v.clone());
                                        None
                                    },
                                    _ => Some(SimError::BadOperand(*pos)),
                                }
                            }
                        },
                        _ => None,
                    }
                };
                match failure {
                    Some(e) => {
                        proof {
                            lemma_written_fails(old(cells)@, intents, i + 1, n as int);
                        }
                        return Err(e);
                    },
                    None => {},
                }
                cells.insert(*pos, cell.clone());
                targets.push(*pos);
            },
            _ => {},
        }
        i += 1;
    }
    Ok(submitted)
}

/// Writes that have failed on some intents fail in the same way on more.
pub proof fn lemma_written_fails(layout: Layout, intents: Seq<Intent>, i: int, n: int)
    requires
        0 <= i <= n,
        written(layout, intents, i).is_err(),
    ensures
        written(layout, intents, n) == written(layout, intents, i),
    decreases n - i,
{
    if i < n {
        lemma_written_fails(layout, intents, i, n - 1);
    }
}

/// The time that the time warps among the actions aim at.
fn find_travel_time(actions: &Vec<Action>) -> (r: Result<Option<u32>, SimError>)
    ensures
        r == travel_time(intents_of(actions@), actions@.len() as int),
{
    let mut found: Option<u32> = None;
    let ghost intents = intents_of(actions@);
    let n = actions.len();
    let mut i: usize = 0;
    while i < n
        invariant
            i <= n,
            n == actions@.len(),
            intents == intents_of(actions@),
            travel_time(intents, i as int) == Ok::<Option<u32>, SimError>(found),
        decreases n - i,
    {
        assert(intents[i as int] == actions@[i as int]@);
        match &actions[i] {
            Action::TimeTravel(t, _, _) => {
                match found {
                    None => {
                        found = Some(*t);
                    },
                    Some(t0) => {
                        if t0 != *t {
                            proof {
                                lemma_travel_time_fails(intents, i + 1, n as int);
                            }
                            return Err(SimError::BadTimeWarp(Vector2D::new(0, 0)));
                        }
                    },
                }
            },
            _ => {},
        }
        i += 1;
    }
    Ok(found)
}

proof fn lemma_travel_time_fails(intents: Seq<Intent>, i: int, n: int)
    requires
        0 <= i <= n,
        travel_time(intents, i).is_err(),
    ensures
        travel_time(intents, n) == travel_time(intents, i),
    decreases n - i,
{
    if i < n {
        lemma_travel_time_fails(intents, i, n - 1);
    }
}

/// The cells that the time warps among the actions carry, by target
/// position.
fn collect_travel_writes(actions: &Vec<Action>) -> (r: Result<CellMap, SimError>)
    ensures
        match travel_writes(intents_of(actions@), actions@.len() as int) {
            Ok(writes) => r.is_ok() && r.unwrap()@ == writes,
            Err(e) => r.is_err() && r.unwrap_err() == e,
        },
{
    let mut writes = CellMap::new();
    let ghost intents = intents_of(actions@);
    let n = actions.len();
    let mut i: usize = 0;
    while i < n
        invariant
            i <= n,
            n == actions@.len(),
            intents == intents_of(actions@),
            travel_writes(intents, i as int) == Ok::<Layout, SimError>(writes@),
        decreases n - i,
    {
        assert(intents[i as int] == actions@[i as int]@);
        match &actions[i] {
            Action::TimeTravel(_, pos, v) => {
                let clash = match writes.get(*pos) {
                    Some(w) => !w.same(v),
                    None => false,
                };
                if clash {
                    proof {
                        lemma_travel_writes_fails(intents, i + 1, n as int);
                    }
                    return Err(SimError::Conflict(*pos));
                }
                writes.insert(*pos, v.clone());
            },
            _ => {},
        }
        i += 1;
    }
    Ok(writes)
}

proof fn lemma_travel_writes_fails(intents: Seq<Intent>, i: int, n: int)
    requires
        0 <= i <= n,
        travel_writes(intents, i).is_err(),
    ensures
        travel_writes(intents, n) == travel_writes(intents, i),
    decreases n - i,
{
    if i < n {
        lemma_travel_writes_fails(intents, i, n - 1);
    }
}

/// Puts every cell of `writes` on `cells`.
fn put_all_cells(cells: &mut CellMap, writes: &CellMap)
    ensures
        final(cells)@ == put_all(old(cells)@, writes@, writes@.len() as int),
{
    let n = writes.len();
    let mut i: usize = 0;
    while i < n
        invariant
            i <= n,
            n == writes@.len(),
            cells@ == put_all(old(cells)@, writes@, i as int),
        decreases n - i,
    {
        cells.insert(writes.position(i), writes.cell(i).clone());
        i += 1;
    }
}

/// The box widened to hold every position of the cells.
fn widen_bounds(bounds: Bounds, cells: &CellMap) -> (r: Bounds)
    ensures
        r == bounds_of(bounds, cells@, cells@.len() as int),
{
    let mut b = bounds;
    let n = cells.len();
    let mut i: usize = 0;
    while i < n
        invariant
            i <= n,
            n == cells@.len(),
            b == bounds_of(bounds, cells@, i as int),
        decreases n - i,
    {
        let pos = cells.position(i);
        if pos.x < b.min_x {
            b.min_x = pos.x;
        }
        if pos.x > b.max_x {
            b.max_x = pos.x;
        }
        if pos.y < b.min_y {
            b.min_y = pos.y;
        }
        if pos.y > b.max_y {
            b.max_y = pos.y;
        }
        i += 1;
    }
    b
}

/// The cells with every input cell replaced by its number.
fn substitute_inputs(cells: &CellMap, a: &BigInt, b: &BigInt) -> (r: CellMap)
    ensures
        r@ == with_inputs(cells@, a@, b@),
{
    let mut r = cells.clone();
    let n = r.len();
    let mut i: usize = 0;
    while i < n
        invariant
            i <= n,
            n == cells@.len(),
            r@.len() == n,
            forall|k: int| 0 <= k < i ==> r@[k] == with_inputs(cells@, a@, b@)[k],
            forall|k: int| i <= k < n ==> r@[k] == cells@[k],
        decreases n - i,
    {
        let replacement = match r.cell(i) {
            Cell::InputA => Some(Cell::Data(a.clone())),
            Cell::InputB => Some(Cell::Data(b.clone())),
            _ => None,
        };
        match replacement {
            Some(cell) => {
                r.replace(i, cell);
            },
            None => {},
        }
        i += 1;
    }
    assert(r@ =~= with_inputs(cells@, a@, b@));
    r
}


/// Every time warp among the intents aims below the bound.
pub open spec fn warps_below(intents: Seq<Intent>, bound: u32) -> bool {
    forall|i: int|
        0 <= i < intents.len() ==> (#[trigger] intents[i] matches Intent::TimeTravel(t, _, _)
            ==> t < bound)
}

/// The time warps that are gathered at a tick aim at earlier ticks.
pub proof fn lemma_gather_times(layout: Layout, time: u32, n: int)
    ensures
        gather(layout, time, n) matches Ok(intents) ==> warps_below(intents, time),
    decreases n,
{
    if n > 0 {
        lemma_gather_times(layout, time, n - 1);
        if let Ok(before) = gather(layout, time, n - 1) {
            if let Ok(more) = tile_intents(layout, layout[n - 1].0, layout[n - 1].1, time) {
                let all = before + more;
                assert forall|i: int| 0 <= i < all.len() implies (#[trigger] all[i] matches Intent::TimeTravel(
                    t,
                    _,
                    _,
                ) ==> t < time) by {
                    if i < before.len() {
                        assert(all[i] == before[i]);
                    } else {
                        assert(all[i] == more[i - before.len()]);
                    }
                }
            }
        }
    }
}

/// The time that time warps agree on is the aim of one of them.
pub proof fn lemma_travel_time_below(intents: Seq<Intent>, n: int, bound: u32)
    requires
        warps_below(intents, bound),
        0 <= n <= intents.len(),
    ensures
        travel_time(intents, n) matches Ok(Some(t)) ==> t < bound,
    decreases n,
{
    if n > 0 {
        lemma_travel_time_below(intents, n - 1, bound);
        assert(intents[n - 1] matches Intent::TimeTravel(t, _, _) ==> t < bound);
    }
}

/// The layout with the first `n` places of a row put on it, at row `y`.
pub open spec fn row_layout(layout: Layout, row: Seq<Option<Tile>>, y: int, n: int) -> Layout
    decreases n,
{
    if n <= 0 {
        layout
    } else {
        let before = row_layout(layout, row, y, n - 1);
        match row[n - 1] {
            Some(t) => put(before, Vector2D { x: (n - 1) as i32, y: y as i32 }, t),
            None => before,
        }
    }
}

/// The layout of the first `n` rows of a grid: the place at column `x` of row
/// `y` is at the position `(x, y)`.
pub open spec fn grid_layout(grid: Seq<Seq<Option<Tile>>>, n: int) -> Layout
    decreases n,
{
    if n <= 0 {
        Seq::empty()
    } else {
        row_layout(grid_layout(grid, n - 1), grid[n - 1], n - 1, grid[n - 1].len() as int)
    }
}

/// The grid of a layout: the rows and columns of the box around its
/// positions. The empty layout has the grid without rows.
pub open spec fn layout_grid(layout: Layout) -> Seq<Seq<Option<Tile>>> {
    let b = bounds_of(no_bounds(), layout, layout.len() as int);
    let height = if b.max_y >= b.min_y {
        b.max_y - b.min_y + 1
    } else {
        0
    };
    let width = if b.max_x >= b.min_x {
        b.max_x - b.min_x + 1
    } else {
        0
    };
    Seq::new(
        height as nat,
        |y: int|
            Seq::new(
                width as nat,
                |x: int| lookup(layout, Vector2D { x: (b.min_x + x) as i32, y: (b.min_y + y) as i32 }),
            ),
    )
}

/// Where the time warp at a position aims; `None` where there is no time
/// warp, or where its offsets are no numbers or lead off the tape.
pub open spec fn warp_target(layout: Layout, pos: Vector2D) -> Option<Vector2D> {
    if lookup(layout, pos) == Some(Tile::TimeWarp) {
        match (tile_at(layout, shifted(pos, -1, 0)), tile_at(layout, shifted(pos, 1, 0))) {
            (Some(Tile::Data(dx)), Some(Tile::Data(dy))) => if dx < i32::MIN || dx > i32::MAX
                || dy < i32::MIN || dy > i32::MAX {
                None
            } else {
                shifted(pos, -dx, -dy)
            },
            _ => None,
        }
    } else {
        None
    }
}

/// The state of a simulation that starts from a grid.
pub open spec fn start(grid: Seq<Seq<Option<Tile>>>, a: int, b: int) -> Snapshot {
    let cells = grid_layout(grid, grid.len() as int);
    Snapshot {
        cells,
        history: Seq::empty(),
        time: 0,
        bounds: bounds_of(no_bounds(), cells, cells.len() as int),
        max_time: 0,
        a,
        b,
        steps: 0,
        result: Outcome::Advanced,
    }
}

/// A state that ticks lead to: there is one earlier tape for each tick made,
/// and no more ticks made than steps taken.
pub open spec fn valid(s: Snapshot) -> bool {
    s.history.len() == s.time && s.time <= s.steps
}

/// What the earlier tapes stand for.
pub open spec fn history_view(history: Seq<CellMap>) -> Seq<Layout> {
    Seq::new(history.len(), |i: int| history[i]@)
}

/// A simulation of a tape.
#[derive(Debug)]
pub struct ThreeDSimulator {
    current_cells: CellMap,
    history: Vec<CellMap>,
    current_time: u32,
    bounds: Bounds,
    all_time_max_t: u32,
    a: BigInt,
    b: BigInt,
    steps_taken: u32,
    result: SimulationStepResult,
}

impl View for ThreeDSimulator {
    type V = Snapshot;

    closed spec fn view(&self) -> Snapshot {
        Snapshot {
            cells: self.current_cells@,
            history: history_view(self.history@),
            time: self.current_time,
            bounds: self.bounds,
            max_time: self.all_time_max_t,
            a: self.a@,
            b: self.b@,
            steps: self.steps_taken,
            result: self.result@,
        }
    }
}

impl ThreeDSimulator {
    /// The simulator is in a state that ticks lead to.
    pub open spec fn wf(&self) -> bool {
        valid(self@)
    }

    /// A simulation at its start: the cells of the board, the place at column
    /// `x` of row `y` at the position `(x, y)`, and the two inputs.
    pub fn new(board: ThreeDBoard, a: BigInt, b: BigInt) -> (r: Self)
        requires
            board@.len() <= i32::MAX,
            forall|y: int| 0 <= y < board@.len() ==> (#[trigger] board@[y]).len() <= i32::MAX,
        ensures
            r.wf(),
            r@ == start(board@, a@, b@),
    {
        let mut cells = CellMap::new();
        let mut y: usize = 0;
        while y < board.board.len()
            invariant
                y <= board.board@.len(),
                board@.len() <= i32::MAX,
                forall|k: int| 0 <= k < board@.len() ==> (#[trigger] board@[k]).len() <= i32::MAX,
                cells@ == grid_layout(board@, y as int),
            decreases board.board@.len() - y,
        {
            let row = &board.board[y];
            let ghost before = cells@;
            let mut x: usize = 0;
            assert(board@[y as int] == crate::three_d::board::row_view(row@));
            while x < row.len()
                invariant
                    x <= row@.len(),
                    row@.len() <= i32::MAX,
                    y < i32::MAX,
                    cells@ == row_layout(
                        before,
                        crate::three_d::board::row_view(row@),
                        y as int,
                        x as int,
                    ),
                decreases row@.len() - x,
            {
                assert(crate::three_d::board::row_view(row@)[x as int]
                    == crate::three_d::board::place_view(row@[x as int]));
                match &row[x] {
                    Some(cell) => {
                        cells.insert(Vector2D { x: x as i32, y: y as i32 }, cell.clone());
                    },
                    None => {},
                }
                x += 1;
            }
            y += 1;
        }
        let bounds = widen_bounds(
            Bounds { min_x: i32::MAX, max_x: i32::MIN, min_y: i32::MAX, max_y: i32::MIN },
            &cells,
        );
        let r = Self {
            current_cells: cells,
            history: Vec::new(),
            current_time: 0,
            bounds,
            all_time_max_t: 0,
            a,
            b,
            steps_taken: 0,
            result: SimulationStepResult::Advanced,
        };
        assert(r@.history =~= Seq::<Layout>::empty());
        r
    }

    /// The number of the current tick.
    pub fn time(&self) -> (r: u32)
        ensures
            r == self@.time,
    {
        self.current_time
    }

    /// The score: the area of the box around every position that was ever
    /// occupied, times the greatest tick number reached; zero before the
    /// first tick.
    pub fn score(&self) -> (r: u128)
        ensures
            r == score_of(self@.bounds, self@.max_time),
    {
        let b = self.bounds;
        if self.all_time_max_t == 0 || b.max_x < b.min_x || b.max_y < b.min_y {
            return 0;
        }
        let width: u128 = (b.max_x as i64 - b.min_x as i64 + 1) as u128;
        let height: u128 = (b.max_y as i64 - b.min_y as i64 + 1) as u128;
        let ticks: u128 = self.all_time_max_t as u128;
        assert(width * height * ticks <= 0x1_0000_0000 * 0x1_0000_0000 * 0x1_0000_0000)
            by (nonlinear_arith)
            requires
                0 <= width <= 0x1_0000_0000,
                0 <= height <= 0x1_0000_0000,
                0 <= ticks <= 0x1_0000_0000,
        ;
        assert(width * height <= 0x1_0000_0000 * 0x1_0000_0000) by (nonlinear_arith)
            requires
                0 <= width <= 0x1_0000_0000,
                0 <= height <= 0x1_0000_0000,
        ;
        width * height * ticks
    }

    /// The first input.
    pub fn a(&self) -> (r: &BigInt)
        ensures
            r@ == self@.a,
    {
        &self.a
    }

    /// Sets the first input.
    pub fn set_a(&mut self, a: BigInt)
        ensures
            final(self)@ == (Snapshot { a: a@, ..old(self)@ }),
    {
        self.a = a;
    }

    /// The second input.
    pub fn b(&self) -> (r: &BigInt)
        ensures
            r@ == self@.b,
    {
        &self.b
    }

    /// Sets the second input.
    pub fn set_b(&mut self, b: BigInt)
        ensures
            final(self)@ == (Snapshot { b: b@, ..old(self)@ }),
    {
        self.b = b;
    }

    /// The number of ticks taken, forwards and backwards.
    pub fn steps_taken(&self) -> (r: u32)
        ensures
            r == self@.steps,
    {
        self.steps_taken
    }

    /// The occupied cells.
    pub fn cells(&self) -> (r: &CellMap)
        ensures
            r@ == self@.cells,
    {
        &self.current_cells
    }

    /// Takes the cell at a position away, and returns it.
    pub fn remove_cell(&mut self, pos: Vector2D) -> (r: Option<Cell>)
        ensures
            final(self)@ == (Snapshot { cells: take_away(old(self)@.cells, pos), ..old(self)@ }),
            match lookup(old(self)@.cells, pos) {
                Some(tile) => r.is_some() && r.unwrap()@ == tile,
                None => r.is_none(),
            },
    {
        self.current_cells.remove(pos)
    }

    /// Puts a cell at a position.
    pub fn set_cell(&mut self, pos: Vector2D, cell: Cell)
        ensures
            final(self)@ == (Snapshot { cells: put(old(self)@.cells, pos, cell@), ..old(self)@ }),
    {
        self.current_cells.insert(pos, cell);
    }

    /// Where the time warp at a position aims.
    pub fn time_warp_target(&self, pos: Vector2D) -> (r: Option<Vector2D>)
        ensures
            r == warp_target(self@.cells, pos),
    {
        match self.current_cells.get(pos) {
            Some(Cell::TimeWarp) => {},
            _ => {
                return None;
            },
        }
        match (
            data_at(&self.current_cells, shift(pos, -1, 0)),
            data_at(&self.current_cells, shift(pos, 1, 0)),
        ) {
            (Some(dx), Some(dy)) => match (dx.to_i32(), dy.to_i32()) {
                (Some(x), Some(y)) => shift_back(pos, x, y),
                _ => None,
            },
            _ => None,
        }
    }

    /// Ends the simulation with a failure.
    fn error(&mut self, e: SimError) -> (r: SimulationStepResult)
        ensures
            (final(self)@, r@) == failed(old(self)@, e),
    {
        self.result = SimulationStepResult::Error(e);
        SimulationStepResult::Error(e)
    }

    /// One tick backwards.
    pub fn step_back(&mut self) -> (r: SimulationStepResult)
        requires
            old(self).wf(),
        ensures
            final(self).wf(),
            (final(self)@, r@) == tick_back(old(self)@),
    {
        if self.current_time > 0 && self.history.len() > 0 {
            let ghost before = self.history@;
            match self.history.pop() {
                Some(cells) => {
                    self.current_cells = cells;
                },
                None => {},
            }
            self.result = SimulationStepResult::Advanced;
            if self.steps_taken < u32::MAX {
                self.steps_taken += 1;
            }
            self.current_time -= 1;
            assert(history_view(self.history@) =~= history_view(before).drop_last());
            SimulationStepResult::Advanced
        } else {
            SimulationStepResult::AlreadyFinished
        }
    }
}


/// The board of the cells: the rows and columns of the box around them.
fn board_of(cells: &CellMap) -> (r: ThreeDBoard)
    ensures
        r@ == layout_grid(cells@),
{
    let b = widen_bounds(
        Bounds { min_x: i32::MAX, max_x: i32::MIN, min_y: i32::MAX, max_y: i32::MIN },
        cells,
    );
    let ghost grid = layout_grid(cells@);
    let mut board: Vec<Vec<Option<Cell>>> = Vec::new();
    if b.max_y < b.min_y || b.max_x < b.min_x {
        assert(crate::three_d::board::grid_view(board@) =~= grid) by {
            if b.max_y >= b.min_y {
                assert forall|y: int| 0 <= y < grid.len() implies #[trigger] grid[y]
                    =~= Seq::<Option<Tile>>::empty() by {}
                lemma_bounds_both(no_bounds(), cells@, cells@.len() as int);
            }
        }
        return ThreeDBoard { board };
    }
    let mut y: i64 = b.min_y as i64;
    while y <= b.max_y as i64
        invariant
            b == bounds_of(no_bounds(), cells@, cells@.len() as int),
            b.min_y <= b.max_y,
            b.min_x <= b.max_x,
            b.min_y <= y <= b.max_y + 1,
            grid == layout_grid(cells@),
            crate::three_d::board::grid_view(board@) == grid.subrange(0, y - b.min_y),
        decreases b.max_y + 1 - y,
    {
        let mut row: Vec<Option<Cell>> = Vec::new();
        let ghost want = grid[y - b.min_y];
        let mut x: i64 = b.min_x as i64;
        while x <= b.max_x as i64
            invariant
                b.min_x <= b.max_x,
                b.min_x <= x <= b.max_x + 1,
                b.min_y <= y <= b.max_y,
                want.len() == b.max_x - b.min_x + 1,
                forall|k: int|
                    0 <= k <= b.max_x - b.min_x ==> #[trigger] want[k] == lookup(
                        cells@,
                        Vector2D { x: (b.min_x + k) as i32, y: y as i32 },
                    ),
                crate::three_d::board::row_view(row@) == want.subrange(0, x - b.min_x),
            decreases b.max_x + 1 - x,
        {
            let place = match cells.get(Vector2D { x: x as i32, y: y as i32 }) {
                Some(cell) => Some(cell.clone()),
                None => None,
            };
            let ghost before = crate::three_d::board::row_view(row@);
            let ghost tile = crate::three_d::board::place_view(place);
            assert(want[x - b.min_x] == tile);
            row.push(place);
            assert(crate::three_d::board::row_view(row@) =~= before.push(tile));
            assert(before.push(tile) =~= want.subrange(0, x + 1 - b.min_x));
            x += 1;
        }
        let ghost before = crate::three_d::board::grid_view(board@);
        assert(want.subrange(0, want.len() as int) =~= want);
        let ghost cells_of_row = crate::three_d::board::row_view(row@);
        board.push(row);
        assert(crate::three_d::board::grid_view(board@) =~= before.push(cells_of_row));
        assert(before.push(cells_of_row) =~= grid.subrange(0, y + 1 - b.min_y));
        y += 1;
    }
    assert(grid.subrange(0, grid.len() as int) =~= grid);
    ThreeDBoard { board }
}

/// A box that holds a position in one direction holds one in the other.
proof fn lemma_bounds_both(start: Bounds, layout: Layout, n: int)
    requires
        start == no_bounds(),
        0 <= n <= layout.len(),
    ensures
        bounds_of(start, layout, n).max_y >= bounds_of(start, layout, n).min_y <==> n > 0,
        bounds_of(start, layout, n).max_x >= bounds_of(start, layout, n).min_x <==> n > 0,
    decreases n,
{
    if n > 0 {
        lemma_bounds_both(start, layout, n - 1);
    }
}

impl ThreeDSimulator {
    /// The current cells as a board.
    pub fn as_board(&self) -> (r: ThreeDBoard)
        ensures
            r@ == layout_grid(self@.cells),
    {
        board_of(&self.current_cells)
    }

    /// The board as it was loaded: the cells before the first tick.
    pub fn initial_board(&self) -> (r: ThreeDBoard)
        ensures
            r@ == layout_grid(
                if self@.history.len() > 0 {
                    self@.history[0]
                } else {
                    self@.cells
                },
            ),
    {
        if self.history.len() > 0 {
            board_of(&self.history[0])
        } else {
            board_of(&self.current_cells)
        }
    }

    /// The end of an ordinary tick.
    fn settle_actions(&mut self, actions: Vec<Action>) -> (r: SimulationStepResult)
        requires
            old(self)@.history.len() == old(self)@.time,
            old(self)@.time < old(self)@.steps <= TICK_LIMIT,
            warps_below(intents_of(actions@), old(self)@.time),
        ensures
            final(self).wf(),
            (final(self)@, r@) == settle(old(self)@, intents_of(actions@)),
    {
        let ghost intents = intents_of(actions@);
        let ghost n = actions@.len() as int;
        let mut new_cells = self.current_cells.clone();
        erase_all(&mut new_cells, &actions);
        let submitted = match write_all(&mut new_cells, &actions) {
            Ok(v) => v,
            Err(e) => {
                return self.error(e);
            },
        };
        self.bounds = widen_bounds(self.bounds, &new_cells);
        match submitted {
            Some(v) => {
                let answer = v.clone();
                self.result = SimulationStepResult::Finished(v);
                return SimulationStepResult::Finished(answer);
            },
            None => {},
        }
        let target = match find_travel_time(&actions) {
            Ok(t) => t,
            Err(e) => {
                return self.error(e);
            },
        };
        proof {
            lemma_travel_time_below(intents, n, self.current_time);
        }
        match target {
            Some(t) => {
                let writes = match collect_travel_writes(&actions) {
                    Ok(w) => w,
                    Err(e) => {
                        return self.error(e);
                    },
                };
                let ghost before = self.history@;
                self.history.truncate(t as usize + 1);
                match self.history.pop() {
                    Some(mut restored) => {
                        put_all_cells(&mut restored, &writes);
                        self.bounds = widen_bounds(self.bounds, &restored);
                        self.current_cells = restored;
                    },
                    None => {},
                }
                self.current_time = t;
                assert(history_view(self.history@) =~= history_view(before).subrange(0, t as int));
            },
            None => {
                let ghost before = self.history@;
                let mut previous = new_cells;
                std::mem::swap(&mut previous, &mut self.current_cells);
                let ghost pushed = previous@;
                self.history.push(previous);
                self.current_time += 1;
                if self.all_time_max_t < self.current_time {
                    self.all_time_max_t = self.current_time;
                }
                assert(history_view(self.history@) =~= history_view(before).push(pushed));
            },
        }
        SimulationStepResult::Advanced
    }

    /// One tick.
    pub fn step(&mut self) -> (r: SimulationStepResult)
        requires
            old(self).wf(),
        ensures
            final(self).wf(),
            (final(self)@, r@) == tick(old(self)@),
    {
        match &self.result {
            SimulationStepResult::Finished(_) => {
                return SimulationStepResult::AlreadyFinished;
            },
            SimulationStepResult::Error(_) => {
                return SimulationStepResult::AlreadyFinished;
            },
            _ => {},
        }
        if self.steps_taken < u32::MAX {
            self.steps_taken += 1;
        }
        if self.steps_taken > TICK_LIMIT {
            return self.error(SimError::TickLimit);
        }
        if self.history.len() == 0 {
            let ghost before = self.history@;
            self.bounds = widen_bounds(self.bounds, &self.current_cells);
            let mut previous = substitute_inputs(&self.current_cells, &self.a, &self.b);
            std::mem::swap(&mut previous, &mut self.current_cells);
            let ghost pushed = previous@;
            self.history.push(previous);
            self.current_time += 1;
            if self.all_time_max_t < self.current_time {
                self.all_time_max_t = self.current_time;
            }
            assert(history_view(self.history@) =~= seq![pushed]);
            return SimulationStepResult::Advanced;
        }
        let actions = match gather_actions(&self.current_cells, self.current_time) {
            Ok(actions) => actions,
            Err(e) => {
                return self.error(e);
            },
        };
        proof {
            lemma_gather_times(self@.cells, self@.time, self@.cells.len() as int);
        }
        self.settle_actions(actions)
    }
}

} // verus!
