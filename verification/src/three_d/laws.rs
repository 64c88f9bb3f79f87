//! What holds of every tick.

use crate::geometry::Vector2D;
use crate::three_d::cell::Tile;
use crate::three_d::cells::lookup;
use crate::three_d::cells::Layout;
use crate::three_d::sim::failed;
use crate::three_d::sim::gather;
use crate::three_d::sim::lemma_gather_fails;
use crate::three_d::sim::lemma_written_fails;
use crate::three_d::sim::score_of;
use crate::three_d::sim::settle;
use crate::three_d::sim::shifted;
use crate::three_d::sim::tick;
use crate::three_d::sim::tile_at;
use crate::three_d::sim::tile_intents;
use crate::three_d::sim::valid;
use crate::three_d::sim::warped;
use crate::three_d::sim::with_inputs;
use crate::three_d::sim::write_one;
use crate::three_d::sim::written;
use crate::three_d::sim::Bounds;
use crate::three_d::sim::Intent;
use crate::three_d::sim::Outcome;
use crate::three_d::sim::SimError;
use crate::three_d::sim::Snapshot;
use crate::three_d::sim::Written;
use crate::three_d::sim::TICK_LIMIT;
use vstd::prelude::*;

verus! {

/// The first tick puts the first input in the place of every `A` cell, and
/// the second input in the place of every `B` cell; every other cell stays,
/// and the greatest tick number reached is 1 at least.
pub proof fn lemma_first_tick(s: Snapshot)
    requires
        valid(s),
        s.time == 0,
        s.result is Advanced || s.result is AlreadyFinished,
        s.steps < TICK_LIMIT,
    ensures
        tick(s).1 == Outcome::Advanced,
        tick(s).0.time == 1,
        tick(s).0.max_time >= 1,
        s.max_time == 0 ==> tick(s).0.max_time == 1,
        tick(s).0.cells.len() == s.cells.len(),
        forall|i: int|
            0 <= i < s.cells.len() ==> (#[trigger] tick(s).0.cells[i]).0 == s.cells[i].0 && tick(
                s,
            ).0.cells[i].1 == match s.cells[i].1 {
                Tile::InputA => Tile::Data(s.a),
                Tile::InputB => Tile::Data(s.b),
                other => other,
            },
{
    assert(tick(s).0.cells == with_inputs(s.cells, s.a, s.b));
}

/// Once a position is written, it stays among the positions written in the
/// tick.
pub proof fn lemma_written_targets(layout: Layout, intents: Seq<Intent>, i: int, n: int)
    requires
        0 <= i < n <= intents.len(),
        intents[i] is Write,
    ensures
        written(layout, intents, n) matches Ok(w) ==> w.targets.contains(intents[i]->Write_0),
    decreases n,
{
    let pos = intents[i]->Write_0;
    if n - 1 > i {
        lemma_written_targets(layout, intents, i, n - 1);
        if let Ok(before) = written(layout, intents, n - 1) {
            if let Ok(w) = written(layout, intents, n) {
                let k = choose|k: int| 0 <= k < before.targets.len() && before.targets[k] == pos;
                if intents[n - 1] is Write {
                    assert(w.targets == before.targets.push(intents[n - 1]->Write_0));
                    assert(w.targets[k] == pos);
                }
            }
        }
    } else {
        if let Ok(before) = written(layout, intents, n - 1) {
            if let Ok(w) = written(layout, intents, n) {
                assert(w.targets == before.targets.push(pos));
                assert(w.targets[before.targets.len() as int] == pos);
            }
        }
    }
}

/// Two writes to one position in one tick are a conflict at that position:
/// the second write fails with it, unless an earlier write has failed, and
/// the tick fails.
pub proof fn lemma_double_write(s: Snapshot, intents: Seq<Intent>, i: int, j: int)
    requires
        0 <= i < j < intents.len(),
        intents[i] is Write,
        intents[j] is Write,
        intents[i]->Write_0 == intents[j]->Write_0,
    ensures
        forall|layout: Layout|
            (#[trigger] written(layout, intents, j)).is_ok() ==> written(layout, intents, j + 1)
                == Err::<Written, SimError>(SimError::Conflict(intents[j]->Write_0)),
        forall|layout: Layout| (#[trigger] written(layout, intents, intents.len() as int)).is_err(),
        settle(s, intents).1 is Error,
{
    assert forall|layout: Layout|
        (#[trigger] written(layout, intents, j)).is_ok() implies written(layout, intents, j + 1)
        == Err::<Written, SimError>(SimError::Conflict(intents[j]->Write_0)) by {
        lemma_written_targets(layout, intents, i, j);
    }
    assert forall|layout: Layout| (#[trigger] written(
        layout,
        intents,
        intents.len() as int,
    )).is_err() by {
        lemma_written_targets(layout, intents, i, j);
        lemma_written_fails(layout, intents, j + 1, intents.len() as int);
        if written(layout, intents, j).is_err() {
            lemma_written_fails(layout, intents, j, j + 1);
        }
    }
}

/// A time warp whose delay is not above zero is a bad time warp at its
/// position, and the tick fails.
pub proof fn lemma_time_warp_must_go_back(s: Snapshot, i: int, dx: int, dy: int, dt: int, v: Tile)
    requires
        valid(s),
        s.result is Advanced || s.result is AlreadyFinished,
        s.time > 0,
        s.steps < TICK_LIMIT,
        0 <= i < s.cells.len(),
        s.cells[i].1 == Tile::TimeWarp,
        tile_at(s.cells, shifted(s.cells[i].0, -1, 0)) == Some(Tile::Data(dx)),
        tile_at(s.cells, shifted(s.cells[i].0, 1, 0)) == Some(Tile::Data(dy)),
        tile_at(s.cells, shifted(s.cells[i].0, 0, 1)) == Some(Tile::Data(dt)),
        tile_at(s.cells, shifted(s.cells[i].0, 0, -1)) == Some(v),
        dt <= 0,
    ensures
        warped(s.cells, s.cells[i].0, s.time) == Err::<Seq<Intent>, SimError>(
            SimError::BadTimeWarp(s.cells[i].0),
        ),
        gather(s.cells, s.time, i).is_ok() ==> tick(s).1 == Outcome::Error(
            SimError::BadTimeWarp(s.cells[i].0),
        ),
        tick(s).1 is Error,
{
    let n = s.cells.len() as int;
    assert(tile_intents(s.cells, s.cells[i].0, s.cells[i].1, s.time) == Err::<
        Seq<Intent>,
        SimError,
    >(SimError::BadTimeWarp(s.cells[i].0)));
    assert(gather(s.cells, s.time, i + 1).is_err());
    lemma_gather_fails(s.cells, s.time, i + 1, n);
    if gather(s.cells, s.time, i).is_err() {
        lemma_gather_fails(s.cells, s.time, i, i + 1);
    }
}

/// A second submission in one tick is a multiple submission at its position.
pub proof fn lemma_second_submission(w: Written, pos: Vector2D, tile: Tile)
    requires
        w.submitted.is_some(),
        lookup(w.layout, pos) == Some(Tile::Submit),
        !w.targets.contains(pos),
    ensures
        write_one(w, pos, tile) == Err::<Written, SimError>(SimError::MultipleSubmit(pos)),
{
}

/// The score is zero as long as no ordinary tick has been made, and the area
/// of the box times the greatest tick number after that.
pub proof fn lemma_score(b: Bounds, max_time: u32)
    ensures
        max_time == 0 ==> score_of(b, max_time) == 0,
        max_time > 0 && b.min_x <= b.max_x && b.min_y <= b.max_y ==> score_of(b, max_time) == (
        b.max_x - b.min_x + 1) * (b.max_y - b.min_y + 1) * max_time,
{
}

/// A tick in which no operator wants anything keeps the tape and advances
/// the time.
pub proof fn lemma_idle_tick(s: Snapshot)
    requires
        valid(s),
        s.time > 0,
        s.result is Advanced || s.result is AlreadyFinished,
        s.steps < TICK_LIMIT,
        gather(s.cells, s.time, s.cells.len() as int) == Ok::<Seq<Intent>, SimError>(Seq::empty()),
    ensures
        tick(s).1 == Outcome::Advanced,
        tick(s).0.cells == s.cells,
        tick(s).0.time == s.time + 1,
        tick(s).0.history == s.history.push(s.cells),
{
    let none = Seq::<Intent>::empty();
    assert(crate::three_d::sim::erased(s.cells, none, 0) == s.cells);
    assert(written(s.cells, none, 0) is Ok);
    assert(crate::three_d::sim::travel_time(none, 0) == Ok::<Option<u32>, SimError>(None));
}

} // verus!
