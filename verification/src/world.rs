//! A replica's surroundings, and what a whole cycle does to them.
//!
//! The machine of a cycle only decides. What a cycle achieves depends on
//! the driver doing what it is asked. This module states that assumption as
//! a model of the surroundings and of a driver that never fails, runs the
//! machine against it, and proves what state the replica and its
//! surroundings are in when the cycle is over.

use crate::capture::{candidates, fresh_keys, lemma_fresh_keys_are_difference, ListedView};
use crate::error::SyncError;
use crate::library::{absorb, lemma_absorb_is_merge, lemma_names_are_keys,
    lemma_put_is_insert_if_absent, merged, names, put, to_map, Entries, Entry, Mapping};
use crate::sync::{capture_turn, materialize_turn, next, start, CycleView, ReplyView, Stage,
    StepView, TransferOutcome, TurnView};
use vstd::prelude::*;

verus! {

/// The surroundings of a replica.
#[verifier::ext_equal]
pub struct World {
    /// The plain files of the working directory with their contents, in the
    /// order in which the directory lists them.
    pub dir: Entries,
    /// The names of the files of the working directory that are read-only.
    pub sealed: Set<Seq<char>>,
    /// The entries of the durable state.
    pub durable: Entries,
    /// The entries of the blob at the staging place, if there is one.
    pub staged: Option<Entries>,
    /// The entries of the blob at the remote address, if there is one.
    pub remote: Option<Entries>,
}

/// The listing of a directory of plain files.
pub open spec fn listing_of(dir: Entries) -> Seq<ListedView> {
    dir.map_values(|file: Entry| ListedView::File(file.0))
}

/// A directory after a file was created in it with the given contents: a
/// file of that name that was there is replaced.
pub open spec fn written(dir: Entries, name: Seq<char>, content: Seq<u8>) -> Entries {
    if names(dir).contains(name) {
        dir.map_values(
            |file: Entry|
                if file.0 == name {
                    (name, content)
                } else {
                    file
                },
        )
    } else {
        dir.push((name, content))
    }
}

/// What a driver that never fails observes when it performs a step, and
/// what the surroundings are afterwards.
///
/// A pull copies the remote blob to the staging place; where the remote has
/// none, the staging place is left as it is, so that a blob staged by an
/// earlier cycle counts as what arrived. A push copies the staged blob to
/// the remote. Reading or protecting a file that is not there fails.
pub open spec fn react(cycle: CycleView, world: World, step: StepView) -> (ReplyView, World) {
    match step {
        StepView::LoadLocal => (ReplyView::Loaded(world.durable), world),
        StepView::ListFiles => (ReplyView::Listing(listing_of(world.dir)), world),
        StepView::ReadFile(name) => if to_map(world.dir).contains_key(name) {
            (ReplyView::Content(to_map(world.dir)[name]), world)
        } else {
            (ReplyView::Error(SyncError::NotFound), world)
        },
        StepView::Protect(name) => if to_map(world.dir).contains_key(name) {
            (ReplyView::Done, World { sealed: world.sealed.insert(name), ..world })
        } else {
            (ReplyView::Error(SyncError::NotFound), world)
        },
        StepView::Pull => match world.remote {
            Some(blob) => (
                ReplyView::Transfer(TransferOutcome::Transferred),
                World { staged: Some(blob), ..world },
            ),
            None => if world.staged is Some {
                (ReplyView::Transfer(TransferOutcome::Transferred), world)
            } else {
                (ReplyView::Transfer(TransferOutcome::SourceAbsent), world)
            },
        },
        StepView::LoadRemote => match world.staged {
            Some(blob) => (ReplyView::Loaded(blob), world),
            None => (ReplyView::Error(SyncError::NotFound), world),
        },
        StepView::Probe(name) => (ReplyView::Present(to_map(world.dir).contains_key(name)), world),
        StepView::WriteFile(name, content) => (
            ReplyView::Done,
            World { dir: written(world.dir, name, content), ..world },
        ),
        StepView::Persist => (ReplyView::Done, World { durable: cycle.local, ..world }),
        StepView::Stage => (ReplyView::Done, World { staged: Some(world.durable), ..world }),
        StepView::Push => match world.staged {
            Some(blob) => (
                ReplyView::Transfer(TransferOutcome::Transferred),
                World { remote: Some(blob), ..world },
            ),
            None => (ReplyView::Transfer(TransferOutcome::SourceAbsent), world),
        },
    }
}

/// Runs the machine from `turn` against the surroundings for at most `fuel`
/// steps: the replica's entries and the surroundings at the end of the
/// cycle, or nothing where the cycle fails or the steps do not suffice.
pub open spec fn run(turn: TurnView, world: World, fuel: nat) -> Option<
    (Entries, World),
>
    decreases fuel,
{
    match turn {
        TurnView::Finished(entries) => Some((entries, world)),
        TurnView::Aborted(_) => None,
        TurnView::Request(cycle, step) => if fuel == 0 {
            None
        } else {
            let (reply, after) = react(cycle, world, step);
            run(next(cycle, reply), after, (fuel - 1) as nat)
        },
    }
}

/// The entry list after the wanted names have been recorded, one after the
/// other, each with the content that `source` has for it.
pub open spec fn take_in(target: Entries, wanted: Seq<Seq<char>>, source: Mapping) -> Entries
    decreases wanted.len(),
{
    if wanted.len() == 0 {
        target
    } else {
        take_in(put(target, wanted[0], source[wanted[0]]), wanted.skip(1), source)
    }
}

/// A name is among the wanted ones when it is the first of them or among
/// the rest.
pub proof fn lemma_first_or_rest(wanted: Seq<Seq<char>>, name: Seq<char>)
    requires
        wanted.len() > 0,
    ensures
        wanted.contains(name) <==> name == wanted[0] || wanted.skip(1).contains(name),
{
    let rest = wanted.skip(1);
    if wanted.contains(name) {
        let i = choose|i: int| 0 <= i < wanted.len() && wanted[i] == name;
        if i > 0 {
            assert(rest[i - 1] == name);
        }
    }
    if rest.contains(name) {
        let i = choose|i: int| 0 <= i < rest.len() && rest[i] == name;
        assert(wanted[i + 1] == name);
    }
    if name == wanted[0] {
        assert(wanted[0] == name);
    }
}

/// Recording the wanted names from a source is merging in the source's
/// pairs under those names.
pub proof fn lemma_take_in_is_merge(target: Entries, wanted: Seq<Seq<char>>, source: Mapping)
    requires
        forall|i: int| 0 <= i < wanted.len() ==> source.contains_key(#[trigger] wanted[i]),
    ensures
        to_map(take_in(target, wanted, source)) == merged(
            to_map(target),
            source.restrict(wanted.to_set()),
        ),
    decreases wanted.len(),
{
    let goal = merged(to_map(target), source.restrict(wanted.to_set()));
    if wanted.len() == 0 {
        assert(to_map(target) =~= goal);
    } else {
        let first = wanted[0];
        let rest = wanted.skip(1);
        let grown = put(target, first, source[first]);
        lemma_put_is_insert_if_absent(target, first, source[first]);
        assert forall|i: int| 0 <= i < rest.len() implies source.contains_key(
            #[trigger] rest[i],
        ) by {
            assert(rest[i] == wanted[i + 1]);
        }
        lemma_take_in_is_merge(grown, rest, source);
        assert forall|name: Seq<char>|
            wanted.to_set().contains(name) <==> name == first || rest.to_set().contains(
                name,
            ) by {
            lemma_first_or_rest(wanted, name);
        }
        assert(source.contains_key(first));
        assert(merged(to_map(grown), source.restrict(rest.to_set())) =~= goal);
    }
}

/// The surroundings with some more files read-only.
pub open spec fn sealing(world: World, more: Set<Seq<char>>) -> World {
    World { sealed: world.sealed.union(more), ..world }
}

/// The recording loop, run against the surroundings: each pending file is
/// read, recorded with its contents and made read-only, two steps a file,
/// and then the pull begins.
pub proof fn lemma_recording_runs(local: Entries, pending: Seq<Seq<char>>, world: World, fuel: nat)
    requires
        forall|i: int| 0 <= i < pending.len() ==> to_map(world.dir).contains_key(#[trigger] pending[i]),
    ensures
        run(capture_turn(local, pending), world, fuel + 2 * pending.len()) == run(
            capture_turn(take_in(local, pending, to_map(world.dir)), Seq::empty()),
            sealing(world, pending.to_set()),
            fuel,
        ),
    decreases pending.len(),
{
    if pending.len() == 0 {
        assert(sealing(world, pending.to_set()) =~= world);
    } else {
        let first = pending[0];
        let rest = pending.skip(1);
        let content = to_map(world.dir)[first];
        let recorded = put(local, first, content);
        let reading = CycleView { stage: Stage::Reading, local, pending };
        let closing = CycleView { stage: Stage::Sealing, local: recorded, pending };
        let protect = TurnView::Request(closing, StepView::Protect(first));
        let world1 = World { sealed: world.sealed.insert(first), ..world };
        let total = fuel + 2 * pending.len();
        assert(to_map(world.dir).contains_key(first));
        assert(react(reading, world, StepView::ReadFile(first)) == (
            ReplyView::Content(content),
            world,
        ));
        assert(next(reading, ReplyView::Content(content)) == protect);
        assert(run(capture_turn(local, pending), world, total) == run(
            protect,
            world,
            (total - 1) as nat,
        ));
        assert(react(closing, world, StepView::Protect(first)) == (ReplyView::Done, world1));
        assert(next(closing, ReplyView::Done) == capture_turn(recorded, rest));
        assert(run(protect, world, (total - 1) as nat) == run(
            capture_turn(recorded, rest),
            world1,
            (total - 2) as nat,
        ));
        assert forall|i: int| 0 <= i < rest.len() implies to_map(world1.dir).contains_key(
            #[trigger] rest[i],
        ) by {
            assert(rest[i] == pending[i + 1]);
        }
        lemma_recording_runs(recorded, rest, world1, fuel);
        assert forall|name: Seq<char>|
            pending.to_set().contains(name) <==> name == first || rest.to_set().contains(
                name,
            ) by {
            lemma_first_or_rest(pending, name);
        }
        assert(sealing(world1, rest.to_set()) =~= sealing(world, pending.to_set()));
    }
}

/// The number of steps that the writing-out loop takes: one for a file that
/// is there, three for one that is written out.
pub open spec fn materialize_cost(dir: Entries, pending: Seq<Seq<char>>, source: Mapping) -> nat
    decreases pending.len(),
{
    if pending.len() == 0 {
        0
    } else if to_map(dir).contains_key(pending[0]) {
        1 + materialize_cost(dir, pending.skip(1), source)
    } else {
        3 + materialize_cost(put(dir, pending[0], source[pending[0]]), pending.skip(1), source)
    }
}

/// The pending names that the directory has no file for.
pub open spec fn missing(dir: Entries, pending: Seq<Seq<char>>) -> Set<
    Seq<char>,
> {
    Set::new(|name: Seq<char>| pending.contains(name) && !to_map(dir).contains_key(name))
}

/// The writing-out loop, run against the surroundings: each pending name is
/// probed for; a file that is there is left as it is, and one that is
/// missing is written out with the tracked contents and made read-only.
/// Then the state is stored.
pub proof fn lemma_writing_out_runs(
    local: Entries,
    pending: Seq<Seq<char>>,
    world: World,
    fuel: nat,
)
    ensures
        run(
            materialize_turn(local, pending),
            world,
            fuel + materialize_cost(world.dir, pending, to_map(local)),
        ) == run(
            materialize_turn(local, Seq::empty()),
            World {
                dir: take_in(world.dir, pending, to_map(local)),
                ..sealing(world, missing(world.dir, pending))
            },
            fuel,
        ),
    decreases pending.len(),
{
    let source = to_map(local);
    let total = fuel + materialize_cost(world.dir, pending, source);
    let goal = World {
        dir: take_in(world.dir, pending, source),
        ..sealing(world, missing(world.dir, pending))
    };
    if pending.len() == 0 {
        assert(goal =~= world);
    } else {
        let first = pending[0];
        let rest = pending.skip(1);
        let probing = CycleView { stage: Stage::Probing, local, pending };
        let there = to_map(world.dir).contains_key(first);
        lemma_names_are_keys(world.dir, first);
        assert(react(probing, world, StepView::Probe(first)) == (ReplyView::Present(there), world));
        assert forall|name: Seq<char>|
            pending.contains(name) <==> name == first || rest.contains(name) by {
            lemma_first_or_rest(pending, name);
        }
        if there {
            assert(next(probing, ReplyView::Present(true)) == materialize_turn(local, rest));
            assert(run(materialize_turn(local, pending), world, total) == run(
                materialize_turn(local, rest),
                world,
                (total - 1) as nat,
            ));
            lemma_writing_out_runs(local, rest, world, fuel);
            assert(put(world.dir, first, source[first]) == world.dir);
            assert(missing(world.dir, rest) =~= missing(world.dir, pending));
        } else {
            let content = source[first];
            let grown = put(world.dir, first, content);
            let writing = CycleView { stage: Stage::Writing, local, pending };
            let locking = CycleView { stage: Stage::Locking, local, pending };
            let write = TurnView::Request(writing, StepView::WriteFile(first, content));
            let protect = TurnView::Request(locking, StepView::Protect(first));
            let world1 = World { dir: grown, ..world };
            let world2 = World { sealed: world1.sealed.insert(first), ..world1 };
            lemma_put_is_insert_if_absent(world.dir, first, content);
            assert(next(probing, ReplyView::Present(false)) == write);
            assert(run(materialize_turn(local, pending), world, total) == run(
                write,
                world,
                (total - 1) as nat,
            ));
            assert(written(world.dir, first, content) == grown);
            assert(react(writing, world, StepView::WriteFile(first, content)) == (
                ReplyView::Done,
                world1,
            ));
            assert(next(writing, ReplyView::Done) == protect);
            assert(run(write, world, (total - 1) as nat) == run(
                protect,
                world1,
                (total - 2) as nat,
            ));
            assert(to_map(world1.dir).contains_key(first));
            assert(react(locking, world1, StepView::Protect(first)) == (ReplyView::Done, world2));
            assert(next(locking, ReplyView::Done) == materialize_turn(local, rest));
            assert(run(protect, world1, (total - 2) as nat) == run(
                materialize_turn(local, rest),
                world2,
                (total - 3) as nat,
            ));
            lemma_writing_out_runs(local, rest, world2, fuel);
            assert(world.sealed.insert(first).union(missing(grown, rest)) =~= world.sealed.union(
                missing(world.dir, pending),
            ));
        }
    }
}

/// What the pull brings: the remote blob where there is one, else a blob
/// that an earlier cycle left at the staging place, else nothing.
pub open spec fn arriving(world: World) -> Entries {
    match world.remote {
        Some(blob) => blob,
        None => match world.staged {
            Some(blob) => blob,
            None => Seq::empty(),
        },
    }
}

/// The files of the working directory that the durable state does not
/// track, in the directory's order.
pub open spec fn unrecorded(world: World) -> Seq<Seq<char>> {
    fresh_keys(names(world.dir), to_map(world.durable).dom())
}

/// The replica's entries once the working directory has been recorded.
pub open spec fn captured(world: World) -> Entries {
    take_in(world.durable, unrecorded(world), to_map(world.dir))
}

/// The replica's entries at the end of a cycle.
pub open spec fn settled(world: World) -> Entries {
    absorb(captured(world), arriving(world))
}

/// The surroundings at the end of a cycle.
pub open spec fn outcome(world: World) -> World {
    let state = settled(world);
    World {
        dir: take_in(world.dir, names(state), to_map(state)),
        sealed: world.sealed.union(unrecorded(world).to_set()).union(
            missing(world.dir, names(state)),
        ),
        durable: state,
        staged: Some(state),
        remote: Some(state),
    }
}

/// The number of steps that a cycle takes in the given surroundings.
pub open spec fn cycle_length(world: World) -> nat {
    let state = settled(world);
    let fetch: nat = if world.remote is Some || world.staged is Some {
        1
    } else {
        0
    };
    6 + 2 * unrecorded(world).len() + fetch + materialize_cost(
        world.dir,
        names(state),
        to_map(state),
    )
}

/// The listing of a directory of plain files yields the files' names.
pub proof fn lemma_listing_yields_names(dir: Entries)
    ensures
        candidates(listing_of(dir)) == Ok::<Seq<Seq<char>>, SyncError>(names(dir)),
    decreases dir.len(),
{
    if dir.len() == 0 {
        assert(names(dir) =~= Seq::<Seq<char>>::empty());
    } else {
        lemma_listing_yields_names(dir.drop_last());
        assert(listing_of(dir).drop_last() =~= listing_of(dir.drop_last()));
        assert(names(dir) =~= names(dir.drop_last()).push(dir.last().0));
    }
}

/// Every name of an entry list is a key of its mapping.
pub proof fn lemma_all_names_are_keys(entries: Entries)
    ensures
        forall|i: int|
            0 <= i < names(entries).len() ==> to_map(entries).contains_key(
                #[trigger] names(entries)[i],
            ),
        names(entries).to_set() == to_map(entries).dom(),
{
    assert forall|i: int| 0 <= i < names(entries).len() implies to_map(entries).contains_key(
        #[trigger] names(entries)[i],
    ) by {
        lemma_names_are_keys(entries, names(entries)[i]);
    }
    assert forall|name: Seq<char>|
        names(entries).to_set().contains(name) <==> to_map(entries).dom().contains(name) by {
        lemma_names_are_keys(entries, name);
    }
    assert(names(entries).to_set() =~= to_map(entries).dom());
}

/// The unrecorded files are files of the working directory.
pub proof fn lemma_unrecorded_are_files(world: World)
    ensures
        forall|i: int|
            0 <= i < unrecorded(world).len() ==> to_map(world.dir).contains_key(
                #[trigger] unrecorded(world)[i],
            ),
        forall|name: Seq<char>|
            unrecorded(world).contains(name) <==> to_map(world.dir).contains_key(name) && !to_map(
                world.durable,
            ).contains_key(name),
{
    let fresh = unrecorded(world);
    lemma_fresh_keys_are_difference(names(world.dir), to_map(world.durable).dom());
    assert forall|name: Seq<char>|
        fresh.contains(name) <==> to_map(world.dir).contains_key(name) && !to_map(
            world.durable,
        ).contains_key(name) by {
        lemma_names_are_keys(world.dir, name);
    }
    assert forall|i: int| 0 <= i < fresh.len() implies to_map(world.dir).contains_key(
        #[trigger] fresh[i],
    ) by {
        assert(fresh.contains(fresh[i]));
    }
}

/// The turn in which the pull is asked for, with the working directory
/// recorded.
pub open spec fn pull_turn(world: World) -> TurnView {
    TurnView::Request(
        CycleView { stage: Stage::Pulling, local: captured(world), pending: Seq::empty() },
        StepView::Pull,
    )
}

/// The first part of a cycle, run against the surroundings: the durable
/// state is loaded, the working directory is listed, and each of its files
/// that is not tracked yet is recorded with its contents and made
/// read-only. Then the pull is asked for, with the replica's entries as
/// [`captured`] says.
pub proof fn lemma_recording_completes(world: World, fuel: nat)
    ensures
        run(start(), world, fuel + 2 + 2 * unrecorded(world).len()) == run(
            pull_turn(world),
            sealing(world, unrecorded(world).to_set()),
            fuel,
        ),
{
    let fresh = unrecorded(world);
    let total = fuel + 2 + 2 * fresh.len();

    // Loading the durable state.
    let loading = CycleView { stage: Stage::Loading, local: Seq::empty(), pending: Seq::empty() };
    let listing = CycleView { stage: Stage::Listing, local: world.durable, pending: Seq::empty() };
    let list = TurnView::Request(listing, StepView::ListFiles);
    assert(react(loading, world, StepView::LoadLocal) == (ReplyView::Loaded(world.durable), world));
    assert(next(loading, ReplyView::Loaded(world.durable)) == list);
    assert(run(start(), world, total) == run(list, world, (total - 1) as nat));

    // Listing the working directory.
    lemma_listing_yields_names(world.dir);
    let record = capture_turn(world.durable, fresh);
    assert(react(listing, world, StepView::ListFiles) == (
        ReplyView::Listing(listing_of(world.dir)),
        world,
    ));
    assert(next(listing, ReplyView::Listing(listing_of(world.dir))) == record);
    assert(run(list, world, (total - 1) as nat) == run(record, world, (total - 2) as nat));

    // Recording the files that are not tracked yet.
    lemma_unrecorded_are_files(world);
    lemma_recording_runs(world.durable, fresh, world, fuel);
    assert(capture_turn(captured(world), Seq::empty()) == pull_turn(world));
}

/// A whole cycle, run against surroundings in which no step fails, comes
/// to its end, with the replica's entries and the surroundings as
/// [`settled`] and [`outcome`] say.
pub proof fn lemma_cycle_completes(world: World)
    ensures
        run(start(), world, cycle_length(world)) == Some((settled(world), outcome(world))),
{
    let total = cycle_length(world);
    let fresh = unrecorded(world);
    let state = settled(world);
    let cost = materialize_cost(world.dir, names(state), to_map(state));

    // Recording the working directory.
    let after_recording = (total - 2 - 2 * fresh.len()) as nat;
    lemma_recording_completes(world, after_recording);
    let recorded = sealing(world, fresh.to_set());
    let pulling = CycleView { stage: Stage::Pulling, local: captured(world), pending: Seq::empty() };
    let pull = pull_turn(world);
    assert(run(start(), world, total) == run(pull, recorded, after_recording));

    // Pulling, and merging what arrived.
    let write_out = materialize_turn(state, names(state));
    let pulled = if world.remote is Some {
        World { staged: world.remote, ..recorded }
    } else {
        recorded
    };
    let after_merge = (3 + cost) as nat;
    if world.remote is Some || world.staged is Some {
        let blob = arriving(world);
        let fetching = CycleView {
            stage: Stage::Fetching,
            local: captured(world),
            pending: Seq::empty(),
        };
        let fetch = TurnView::Request(fetching, StepView::LoadRemote);
        assert(react(pulling, recorded, StepView::Pull) == (
            ReplyView::Transfer(TransferOutcome::Transferred),
            pulled,
        ));
        assert(next(pulling, ReplyView::Transfer(TransferOutcome::Transferred)) == fetch);
        assert(run(pull, recorded, after_recording) == run(
            fetch,
            pulled,
            (after_recording - 1) as nat,
        ));
        assert(pulled.staged == Some(blob));
        assert(react(fetching, pulled, StepView::LoadRemote) == (ReplyView::Loaded(blob), pulled));
        assert(next(fetching, ReplyView::Loaded(blob)) == write_out);
        assert(run(fetch, pulled, (after_recording - 1) as nat) == run(
            write_out,
            pulled,
            after_merge,
        ));
    } else {
        assert(state == captured(world));
        assert(react(pulling, recorded, StepView::Pull) == (
            ReplyView::Transfer(TransferOutcome::SourceAbsent),
            pulled,
        ));
        assert(next(pulling, ReplyView::Transfer(TransferOutcome::SourceAbsent)) == write_out);
        assert(run(pull, recorded, after_recording) == run(write_out, pulled, after_merge));
    }
    assert(run(start(), world, total) == run(write_out, pulled, after_merge));

    // Writing out what is tracked and missing.
    lemma_writing_out_runs(state, names(state), pulled, 3);
    let written_out = World {
        dir: take_in(world.dir, names(state), to_map(state)),
        ..sealing(pulled, missing(world.dir, names(state)))
    };
    let persisting = CycleView { stage: Stage::Persisting, local: state, pending: Seq::empty() };
    let persist = TurnView::Request(persisting, StepView::Persist);
    assert(materialize_turn(state, Seq::empty()) == persist);
    assert(run(write_out, pulled, after_merge) == run(persist, written_out, 3));

    // Storing, staging and pushing.
    let staging = CycleView { stage: Stage::Staging, local: state, pending: Seq::empty() };
    let pushing = CycleView { stage: Stage::Pushing, local: state, pending: Seq::empty() };
    let stage = TurnView::Request(staging, StepView::Stage);
    let push = TurnView::Request(pushing, StepView::Push);
    let stored = World { durable: state, ..written_out };
    let staged = World { staged: Some(state), ..stored };
    let pushed = World { remote: Some(state), ..staged };
    assert(react(persisting, written_out, StepView::Persist) == (ReplyView::Done, stored));
    assert(next(persisting, ReplyView::Done) == stage);
    assert(run(persist, written_out, 3) == run(stage, stored, 2));
    assert(react(staging, stored, StepView::Stage) == (ReplyView::Done, staged));
    assert(next(staging, ReplyView::Done) == push);
    assert(run(stage, stored, 2) == run(push, staged, 1));
    assert(react(pushing, staged, StepView::Push) == (
        ReplyView::Transfer(TransferOutcome::Transferred),
        pushed,
    ));
    assert(next(pushing, ReplyView::Transfer(TransferOutcome::Transferred)) == TurnView::Finished(
        state,
    ));
    assert(run(push, staged, 1) == run(TurnView::Finished(state), pushed, 0));
    assert(pushed =~= outcome(world));
}

/// What a cycle amounts to. The replica ends up tracking what it tracked
/// before, merged with the files of its working directory, merged with
/// what the pull brought. The working directory ends up with the files it
/// had, untouched, and with a file for every other tracked name.
pub proof fn lemma_cycle_meaning(world: World)
    ensures
        to_map(captured(world)) == merged(to_map(world.durable), to_map(world.dir)),
        to_map(settled(world)) == merged(
            merged(to_map(world.durable), to_map(world.dir)),
            to_map(arriving(world)),
        ),
        to_map(outcome(world).dir) == merged(to_map(world.dir), to_map(settled(world))),
{
    let fresh = unrecorded(world);
    let state = settled(world);
    lemma_unrecorded_are_files(world);
    lemma_take_in_is_merge(world.durable, fresh, to_map(world.dir));
    assert(merged(to_map(world.durable), to_map(world.dir).restrict(fresh.to_set())) =~= merged(
        to_map(world.durable),
        to_map(world.dir),
    ));
    lemma_absorb_is_merge(captured(world), arriving(world));
    lemma_all_names_are_keys(state);
    lemma_take_in_is_merge(world.dir, names(state), to_map(state));
    assert(to_map(state).restrict(names(state).to_set()) =~= to_map(state));
}

/// Once a name is tracked, no cycle changes what is tracked under it,
/// whatever the working directory holds and whatever arrives.
pub proof fn lemma_cycle_keeps_what_is_tracked(world: World)
    ensures
        to_map(world.durable).submap_of(to_map(captured(world))),
        to_map(captured(world)).submap_of(to_map(settled(world))),
        to_map(world.durable).submap_of(to_map(settled(world))),
{
    lemma_cycle_meaning(world);
}

/// Recording only adds: a replica that tracks nothing ends up tracking
/// exactly the files of its working directory, and recording again, with
/// the working directory as it was, changes nothing.
pub proof fn lemma_recording_is_additive(world: World)
    ensures
        world.durable.len() == 0 ==> to_map(captured(world)) == to_map(world.dir),
        captured(World { durable: captured(world), ..world }) == captured(world),
{
    lemma_cycle_meaning(world);
    assert(merged(Map::empty(), to_map(world.dir)) =~= to_map(world.dir));
    let again = World { durable: captured(world), ..world };
    lemma_unrecorded_are_files(again);
    if unrecorded(again).len() > 0 {
        assert(unrecorded(again).contains(unrecorded(again)[0]));
    }
}

/// A file that is there is never overwritten: whatever the replica tracks
/// under its name, the file holds after the cycle what it held before. A
/// tracked name without a file gets one, with the tracked contents. No
/// other file appears.
pub proof fn lemma_files_are_never_overwritten(world: World, name: Seq<char>)
    ensures
        to_map(world.dir).contains_key(name) ==> to_map(outcome(world).dir).contains_key(name)
            && to_map(outcome(world).dir)[name] == to_map(world.dir)[name],
        !to_map(world.dir).contains_key(name) && to_map(settled(world)).contains_key(name)
            ==> to_map(outcome(world).dir).contains_key(name) && to_map(outcome(world).dir)[name]
            == to_map(settled(world))[name],
        to_map(outcome(world).dir).contains_key(name) ==> to_map(world.dir).contains_key(name)
            || to_map(settled(world)).contains_key(name),
{
    lemma_cycle_meaning(world);
}

/// Every file that the replica has come to track in this cycle is
/// read-only at its end, and no file has lost that protection.
pub proof fn lemma_new_files_are_sealed(world: World, name: Seq<char>)
    ensures
        to_map(settled(world)).contains_key(name) && !to_map(world.durable).contains_key(name)
            ==> outcome(world).sealed.contains(name),
        world.sealed.contains(name) ==> outcome(world).sealed.contains(name),
{
    lemma_cycle_meaning(world);
    lemma_unrecorded_are_files(world);
    lemma_names_are_keys(settled(world), name);
}

/// A pull that finds nothing at the remote is no failure. The cycle comes
/// to its end, and the replica tracks what it tracked before and the files
/// of its working directory, nothing else. The same holds where the pull
/// leaves in place the blob that the replica's last cycle staged.
pub proof fn lemma_cycle_without_remote(world: World)
    requires
        world.remote is None,
        world.staged is None || world.staged == Some(world.durable),
    ensures
        run(start(), world, cycle_length(world)) == Some((settled(world), outcome(world))),
        to_map(settled(world)) == merged(to_map(world.durable), to_map(world.dir)),
{
    lemma_cycle_completes(world);
    lemma_cycle_meaning(world);
    let recorded = merged(to_map(world.durable), to_map(world.dir));
    assert(merged(recorded, to_map(arriving(world))) =~= recorded);
}

/// Taking in entries whose names are all tracked changes nothing.
pub proof fn lemma_absorb_of_known(local: Entries, remote: Entries)
    requires
        forall|i: int| 0 <= i < remote.len() ==> names(local).contains(#[trigger] remote[i].0),
    ensures
        absorb(local, remote) == local,
    decreases remote.len(),
{
    if remote.len() > 0 {
        let earlier = remote.drop_last();
        assert forall|i: int| 0 <= i < earlier.len() implies names(local).contains(
            #[trigger] earlier[i].0,
        ) by {
            assert(earlier[i] == remote[i]);
        }
        lemma_absorb_of_known(local, earlier);
        assert(names(local).contains(remote[remote.len() - 1].0));
    }
}

/// Recording names that are all there changes nothing.
pub proof fn lemma_take_in_of_known(target: Entries, wanted: Seq<Seq<char>>, source: Mapping)
    requires
        forall|i: int| 0 <= i < wanted.len() ==> names(target).contains(#[trigger] wanted[i]),
    ensures
        take_in(target, wanted, source) == target,
        materialize_cost(target, wanted, source) == wanted.len(),
    decreases wanted.len(),
{
    if wanted.len() > 0 {
        let rest = wanted.skip(1);
        assert forall|i: int| 0 <= i < rest.len() implies names(target).contains(
            #[trigger] rest[i],
        ) by {
            assert(rest[i] == wanted[i + 1]);
        }
        assert(names(target).contains(wanted[0]));
        lemma_names_are_keys(target, wanted[0]);
        lemma_take_in_of_known(target, rest, source);
    }
}

/// A cycle that follows a completed cycle, with nothing changed in
/// between, changes nothing: not the replica's entries, not the working
/// directory, not what is stored, staged and published.
pub proof fn lemma_second_cycle_changes_nothing(world: World)
    ensures
        settled(outcome(world)) == settled(world),
        outcome(outcome(world)) == outcome(world),
{
    let state = settled(world);
    let after = outcome(world);
    lemma_cycle_meaning(world);
    lemma_all_names_are_keys(state);
    lemma_all_names_are_keys(after.dir);

    // Every file of the directory is tracked, so there is nothing to record.
    lemma_unrecorded_are_files(after);
    if unrecorded(after).len() > 0 {
        assert(unrecorded(after).contains(unrecorded(after)[0]));
    }
    assert(unrecorded(after) =~= Seq::<Seq<char>>::empty());
    assert(captured(after) == state);

    // What arrives is the replica's own state.
    assert forall|i: int| 0 <= i < state.len() implies names(state).contains(
        #[trigger] state[i].0,
    ) by {
        assert(names(state)[i] == state[i].0);
    }
    lemma_absorb_of_known(state, state);
    assert(settled(after) == state);

    // Every tracked name has its file, so there is nothing to write out.
    assert forall|i: int| 0 <= i < names(state).len() implies names(after.dir).contains(
        #[trigger] names(state)[i],
    ) by {
        lemma_names_are_keys(after.dir, names(state)[i]);
    }
    lemma_take_in_of_known(after.dir, names(state), to_map(state));
    assert(missing(after.dir, names(state)) =~= Set::<Seq<char>>::empty()) by {
        assert forall|name: Seq<char>| !missing(after.dir, names(state)).contains(name) by {
            lemma_names_are_keys(state, name);
        }
    }
    assert(outcome(after) =~= after);
}

/// Two replicas converge once each has taken in what the other published.
/// Nothing has been published at the start. The first
/// runs a cycle; the second runs one and takes in what the first
/// published; the first runs another and takes in what the second
/// published. If the two agreed wherever both held a name, as they do when
/// they held disjoint names, both now track the same names with the same
/// contents: those of the two together.
pub proof fn lemma_replicas_converge(first: World, second: World)
    requires
        first.remote is None,
        first.staged is None,
        merged(to_map(first.durable), to_map(first.dir)).agrees(
            merged(to_map(second.durable), to_map(second.dir)),
        ),
    ensures
        ({
            let first_after = outcome(first);
            let second_after = outcome(World { remote: first_after.remote, ..second });
            let first_again = outcome(World { remote: second_after.remote, ..first_after });
            let both = merged(
                merged(to_map(first.durable), to_map(first.dir)),
                merged(to_map(second.durable), to_map(second.dir)),
            );
            &&& to_map(first_again.durable) == both
            &&& to_map(second_after.durable) == both
            &&& to_map(first_again.dir) == merged(to_map(first.dir), both)
            &&& to_map(second_after.dir) == merged(to_map(second.dir), both)
        }),
{
    let a = merged(to_map(first.durable), to_map(first.dir));
    let b = merged(to_map(second.durable), to_map(second.dir));
    let both = merged(a, b);
    let first_after = outcome(first);
    let second_before = World { remote: first_after.remote, ..second };
    let second_after = outcome(second_before);
    let first_before = World { remote: second_after.remote, ..first_after };
    let first_again = outcome(first_before);

    lemma_cycle_meaning(first);
    assert(to_map(settled(first)) =~= a);

    lemma_cycle_meaning(second_before);
    assert(to_map(settled(second_before)) =~= merged(b, a));
    assert(merged(b, a) =~= both);

    lemma_cycle_meaning(first_before);
    assert(to_map(first_after.dir) =~= merged(to_map(first.dir), a));
    assert(to_map(settled(first_before)) =~= both);
    assert(to_map(first_again.dir) =~= merged(to_map(first.dir), both));
    assert(to_map(second_after.dir) =~= merged(to_map(second.dir), both));
}

/// How a name stands with a replica, as observed from its state and its
/// working directory.
pub enum Residency {
    /// Not tracked, and no file.
    Absent,
    /// A file that is not tracked yet.
    LocalOnly,
    /// Tracked, and the file is there.
    Kept,
    /// Tracked, and the file is yet to be written out.
    PendingMaterialize,
}

/// How a name stands with a replica that tracks `state` and has the
/// working directory `dir`.
pub open spec fn residency(state: Entries, dir: Entries, name: Seq<char>) -> Residency {
    if to_map(state).contains_key(name) {
        if to_map(dir).contains_key(name) {
            Residency::Kept
        } else {
            Residency::PendingMaterialize
        }
    } else {
        if to_map(dir).contains_key(name) {
            Residency::LocalOnly
        } else {
            Residency::Absent
        }
    }
}

/// A completed cycle leaves nothing half done: every name is then either
/// tracked, with its file there, or unknown to the replica altogether, and
/// no name that was tracked or had a file has become unknown.
pub proof fn lemma_cycle_leaves_nothing_pending(world: World, name: Seq<char>)
    ensures
        residency(settled(world), outcome(world).dir, name) is Kept || residency(
            settled(world),
            outcome(world).dir,
            name,
        ) is Absent,
        !(residency(world.durable, world.dir, name) is Absent) ==> residency(
            settled(world),
            outcome(world).dir,
            name,
        ) is Kept,
{
    lemma_cycle_meaning(world);
}

} // verus!
