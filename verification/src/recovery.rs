//! What a cycle that was cut short leaves behind.
//!
//! Nothing that a cycle does is undone when a later step fails or the
//! process ends: files stay recorded read-only, files stay written out, the
//! state may be stored and not yet pushed. This module proves that none of
//! this does harm. From wherever a cycle was cut off, a fresh cycle brings
//! the replica and its working directory to where the first was heading.

use crate::library::{lemma_names_are_keys, lemma_put_is_insert_if_absent, merged, names, put,
    to_map, Mapping};
use crate::sync::{materialize_turn, next, start, CycleView, Stage, StepView, TurnView};
use crate::world::{arriving, captured, cycle_length, lemma_all_names_are_keys,
    lemma_cycle_completes, lemma_cycle_meaning, lemma_listing_yields_names,
    lemma_unrecorded_are_files, outcome, react, run, settled, take_in, World};
use vstd::prelude::*;

verus! {

/// The machine and the surroundings after `steps` steps from `turn`, or at
/// the end of the cycle where it comes earlier.
pub open spec fn run_for(turn: TurnView, world: World, steps: nat) -> (TurnView, World)
    decreases steps,
{
    match turn {
        TurnView::Request(cycle, step) => if steps == 0 {
            (turn, world)
        } else {
            let (reply, after) = react(cycle, world, step);
            run_for(next(cycle, reply), after, (steps - 1) as nat)
        },
        _ => (turn, world),
    }
}

/// The working directory, the stores and the remote are as they were at
/// the start of the cycle.
pub open spec fn untouched(origin: World, world: World) -> bool {
    &&& world.dir == origin.dir
    &&& world.durable == origin.durable
    &&& world.staged == origin.staged
    &&& world.remote == origin.remote
}

/// Every pair of `part` is a pair of `whole`.
pub open spec fn within(part: Mapping, whole: Mapping) -> bool {
    forall|name: Seq<char>| #[trigger]
        part.contains_key(name) ==> whole.contains_key(name) && whole[name] == part[name]
}

/// The names are files of the directory.
pub open spec fn readable(pending: Seq<Seq<char>>, files: Mapping) -> bool {
    forall|i: int| 0 <= i < pending.len() ==> files.contains_key(#[trigger] pending[i])
}

/// The cycle is writing out the state that it was heading for, and nothing
/// but the working directory has changed.
pub open spec fn writing_out(origin: World, cycle: CycleView, world: World) -> bool {
    &&& cycle.local == settled(origin)
    &&& cycle.pending.len() > 0
    &&& readable(cycle.pending, to_map(settled(origin)))
    &&& world.durable == origin.durable
    &&& world.remote == origin.remote
    &&& arriving(world) == arriving(origin)
}

/// A cycle that began in the surroundings `origin` is on its course: the
/// machine asks for the step that its stage calls for, the replica's
/// entries are those that the stage calls for, and the surroundings differ
/// from `origin` only by what the cycle has done so far.
pub open spec fn on_course(origin: World, turn: TurnView, world: World) -> bool {
    let files = to_map(origin.dir);
    let target = to_map(settled(origin));
    &&& within(files, to_map(world.dir))
    &&& within(to_map(world.dir), merged(files, target))
    &&& {
        ||| world.durable == origin.durable && arriving(world) == arriving(origin)
        ||| world.durable == settled(origin) && forall|name: Seq<char>| #[trigger]
            to_map(arriving(world)).contains_key(name) ==> target.contains_key(name)
    }
    &&& match turn {
        TurnView::Request(cycle, step) => match cycle.stage {
            Stage::Loading => step == StepView::LoadLocal && untouched(origin, world),
            Stage::Listing => {
                &&& step == StepView::ListFiles
                &&& untouched(origin, world)
                &&& cycle.local == origin.durable
            },
            Stage::Reading => {
                &&& cycle.pending.len() > 0
                &&& step == StepView::ReadFile(cycle.pending[0])
                &&& untouched(origin, world)
                &&& readable(cycle.pending, files)
                &&& take_in(cycle.local, cycle.pending, files) == captured(origin)
            },
            Stage::Sealing => {
                &&& cycle.pending.len() > 0
                &&& step == StepView::Protect(cycle.pending[0])
                &&& untouched(origin, world)
                &&& readable(cycle.pending, files)
                &&& take_in(cycle.local, cycle.pending.skip(1), files) == captured(origin)
            },
            Stage::Pulling => {
                &&& step == StepView::Pull
                &&& untouched(origin, world)
                &&& cycle.local == captured(origin)
            },
            Stage::Fetching => {
                &&& step == StepView::LoadRemote
                &&& cycle.local == captured(origin)
                &&& world.durable == origin.durable
                &&& world.remote == origin.remote
                &&& world.staged == Some(arriving(origin))
            },
            Stage::Probing => {
                &&& writing_out(origin, cycle, world)
                &&& step == StepView::Probe(cycle.pending[0])
            },
            Stage::Writing => {
                &&& writing_out(origin, cycle, world)
                &&& step == StepView::WriteFile(cycle.pending[0], target[cycle.pending[0]])
                &&& !to_map(world.dir).contains_key(cycle.pending[0])
            },
            Stage::Locking => {
                &&& writing_out(origin, cycle, world)
                &&& step == StepView::Protect(cycle.pending[0])
                &&& to_map(world.dir).contains_key(cycle.pending[0])
            },
            Stage::Persisting => {
                &&& step == StepView::Persist
                &&& cycle.local == settled(origin)
                &&& world.durable == origin.durable
                &&& world.remote == origin.remote
                &&& arriving(world) == arriving(origin)
            },
            Stage::Staging => {
                &&& step == StepView::Stage
                &&& cycle.local == settled(origin)
                &&& world.durable == settled(origin)
                &&& world.remote == origin.remote
            },
            Stage::Pushing => {
                &&& step == StepView::Push
                &&& cycle.local == settled(origin)
                &&& world.durable == settled(origin)
                &&& world.staged == Some(settled(origin))
            },
        },
        TurnView::Finished(entries) => {
            &&& entries == settled(origin)
            &&& world.durable == entries
            &&& world.staged == Some(entries)
            &&& world.remote == Some(entries)
        },
        TurnView::Aborted(_) => false,
    }
}

/// A cycle is on its course when it begins.
pub proof fn lemma_begins_on_course(origin: World)
    ensures
        on_course(origin, start(), origin),
{
    lemma_cycle_meaning(origin);
}

/// From surroundings that a cycle on its course has reached, a fresh cycle
/// is heading for the same state of the replica and the same files.
pub proof fn lemma_course_has_one_end(origin: World, turn: TurnView, world: World)
    requires
        on_course(origin, turn, world),
    ensures
        to_map(settled(world)) == to_map(settled(origin)),
        to_map(outcome(world).dir) == to_map(outcome(origin).dir),
{
    lemma_cycle_meaning(origin);
    lemma_cycle_meaning(world);
    let files = to_map(origin.dir);
    let target = to_map(settled(origin));
    let there = to_map(world.dir);
    let reached = to_map(settled(world));
    assert forall|name: Seq<char>| #[trigger]
        reached.contains_key(name) <==> target.contains_key(name) by {
        if there.contains_key(name) {
            assert(merged(files, target).contains_key(name));
        }
    }
    assert forall|name: Seq<char>| #[trigger] reached.contains_key(name) implies reached[name]
        == target[name] by {
        if there.contains_key(name) {
            assert(merged(files, target)[name] == there[name]);
        }
    }
    assert(reached =~= target);
    assert(to_map(outcome(world).dir) =~= to_map(outcome(origin).dir));
}

/// The turn that goes on writing out keeps the cycle on its course.
proof fn lemma_writing_out_stays_on_course(origin: World, pending: Seq<Seq<char>>, world: World)
    requires
        within(to_map(origin.dir), to_map(world.dir)),
        within(to_map(world.dir), merged(to_map(origin.dir), to_map(settled(origin)))),
        readable(pending, to_map(settled(origin))),
        world.durable == origin.durable,
        world.remote == origin.remote,
        arriving(world) == arriving(origin),
    ensures
        on_course(origin, materialize_turn(settled(origin), pending), world),
{
}

/// One step keeps a cycle on its course: where the driver does what it is
/// asked and nothing fails, the machine goes on as its stage calls for.
pub proof fn lemma_step_stays_on_course(
    origin: World,
    cycle: CycleView,
    step: StepView,
    world: World,
)
    requires
        on_course(origin, TurnView::Request(cycle, step), world),
    ensures
        ({
            let (reply, after) = react(cycle, world, step);
            on_course(origin, next(cycle, reply), after)
        }),
{
    let files = to_map(origin.dir);
    let state = settled(origin);
    let target = to_map(state);
    let (reply, after) = react(cycle, world, step);
    let pending = cycle.pending;
    let rest = pending.skip(1);
    lemma_cycle_meaning(origin);
    lemma_all_names_are_keys(state);
    if pending.len() > 0 {
        assert forall|i: int| 0 <= i < rest.len() implies rest[i] == pending[i + 1] by {}
    }
    match cycle.stage {
        Stage::Loading => {},
        Stage::Listing => {
            lemma_listing_yields_names(origin.dir);
            lemma_unrecorded_are_files(origin);
        },
        Stage::Reading => {
            assert(files.contains_key(pending[0]));
        },
        Stage::Sealing => {
            assert(files.contains_key(pending[0]));
            assert(readable(rest, files));
        },
        Stage::Pulling => {
            if origin.remote is None && origin.staged is None {
                assert(state == captured(origin));
            }
            if !(reply is Transfer && reply->Transfer_0 is Transferred) {
                lemma_writing_out_stays_on_course(origin, names(state), after);
            }
        },
        Stage::Fetching => {
            lemma_writing_out_stays_on_course(origin, names(state), after);
        },
        Stage::Probing => {
            if to_map(world.dir).contains_key(pending[0]) {
                assert(readable(rest, target));
                lemma_writing_out_stays_on_course(origin, rest, after);
            }
        },
        Stage::Writing => {
            let name = pending[0];
            let content = target[name];
            lemma_names_are_keys(world.dir, name);
            lemma_put_is_insert_if_absent(world.dir, name, content);
            assert(after.dir == put(world.dir, name, content));
            assert(target.contains_key(name));
            assert(!files.contains_key(name));
        },
        Stage::Locking => {
            assert(readable(rest, target));
            lemma_writing_out_stays_on_course(origin, rest, after);
        },
        Stage::Persisting => {},
        Stage::Staging => {},
        Stage::Pushing => {},
    }
}

/// A cycle stays on its course for as many steps as it is given.
pub proof fn lemma_run_stays_on_course(origin: World, turn: TurnView, world: World, steps: nat)
    requires
        on_course(origin, turn, world),
    ensures
        on_course(origin, run_for(turn, world, steps).0, run_for(turn, world, steps).1),
    decreases steps,
{
    if steps > 0 {
        if let TurnView::Request(cycle, step) = turn {
            lemma_step_stays_on_course(origin, cycle, step, world);
            let (reply, after) = react(cycle, world, step);
            lemma_run_stays_on_course(origin, next(cycle, reply), after, (steps - 1) as nat);
        }
    }
}

/// A cycle that is cut off after any number of steps does no harm. What it
/// has done stays done, what it has not done is left undone, and a fresh
/// cycle from there runs to its end and brings the replica to the state,
/// and the working directory to the files, that the first was heading for.
pub proof fn lemma_cut_off_cycle_recovers(origin: World, steps: nat)
    ensures
        ({
            let left = run_for(start(), origin, steps).1;
            &&& run(start(), left, cycle_length(left)) == Some(
                (settled(left), outcome(left)),
            )
            &&& to_map(settled(left)) == to_map(settled(origin))
            &&& to_map(outcome(left).dir) == to_map(outcome(origin).dir)
        }),
{
    let cut = run_for(start(), origin, steps);
    lemma_begins_on_course(origin);
    lemma_run_stays_on_course(origin, start(), origin, steps);
    lemma_course_has_one_end(origin, cut.0, cut.1);
    lemma_cycle_completes(cut.1);
}

} // verus!
