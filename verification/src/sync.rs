//! One synchronisation cycle, as a machine that is driven from outside.
//!
//! The machine decides; the driver acts. The driver performs the step that
//! the machine asks for (reading a file, running a transfer) and hands back
//! what it observed. The machine answers with the next step until the cycle
//! has finished or failed. Nothing is retried, and the first failure ends
//! the cycle.

use crate::capture::{candidate_keys, candidates, fresh_keys, listing_view, name_views, Listed,
    ListedView};
use crate::crdt::CrdtPack;
use crate::error::{Direction, SyncError};
use crate::library::{absorb, lemma_absorb_is_merge, lemma_names_are_keys,
    lemma_put_is_insert_if_absent, names, put, to_map, Entries, Library};
use vstd::prelude::*;

verus! {

/// How a transfer ended.
#[derive(Debug, PartialEq, Eq)]
pub enum TransferOutcome {
    /// The blob was copied.
    Transferred,
    /// The transfer ran, and there was nothing at the source to copy.
    SourceAbsent,
    /// The transfer failed; the text says how it ended.
    Failed(String),
}

impl TransferOutcome {
    /// Classifies a transfer by what was observed of it: whether the agent
    /// reported success, and whether a blob is there at the receiving end of
    /// a pull (at the sending end of a push). `status` is kept as the text
    /// of a failure.
    pub fn observed(succeeded: bool, blob_present: bool, status: String) -> (outcome:
        TransferOutcome)
        ensures
            outcome == if !succeeded {
                TransferOutcome::Failed(status)
            } else if blob_present {
                TransferOutcome::Transferred
            } else {
                TransferOutcome::SourceAbsent
            },
    {
        if !succeeded {
            TransferOutcome::Failed(status)
        } else if blob_present {
            TransferOutcome::Transferred
        } else {
            TransferOutcome::SourceAbsent
        }
    }
}

/// What the machine is waiting for.
#[derive(Debug, Clone, Copy, PartialEq, Eq, Structural)]
pub enum Stage {
    /// For the replica's durable state.
    Loading,
    /// For the listing of the working directory.
    Listing,
    /// For the contents of a file that is being recorded.
    Reading,
    /// For a recorded file to be made read-only.
    Sealing,
    /// For the pull to end.
    Pulling,
    /// For the snapshot that the pull brought.
    Fetching,
    /// For word on whether a tracked file is there in the working directory.
    Probing,
    /// For a missing file to be written out.
    Writing,
    /// For a written file to be made read-only.
    Locking,
    /// For the state to be stored durably.
    Persisting,
    /// For the stored state to be copied to the staging place.
    Staging,
    /// For the push to end.
    Pushing,
}

/// The milestones of a cycle, in the order in which they are reached.
#[derive(Debug, Clone, Copy, PartialEq, Eq, Structural)]
pub enum Phase {
    /// The cycle has begun.
    Init,
    /// The durable state has been loaded.
    Loaded,
    /// The files of the working directory have been recorded.
    Captured,
    /// The pull has ended.
    Pulled,
    /// What the pull brought has been merged in.
    Merged,
    /// Every tracked name has its file.
    Materialized,
    /// The state has been stored and staged.
    Persisted,
    /// The push has ended. The cycle is done in the same turn.
    Pushed,
    /// The cycle is complete.
    Done,
}

impl Phase {
    /// The place of a milestone in the order of a cycle.
    pub open spec fn rank(self) -> nat {
        match self {
            Phase::Init => 0,
            Phase::Loaded => 1,
            Phase::Captured => 2,
            Phase::Pulled => 3,
            Phase::Merged => 4,
            Phase::Materialized => 5,
            Phase::Persisted => 6,
            Phase::Pushed => 7,
            Phase::Done => 8,
        }
    }
}

impl Stage {
    /// The last milestone that a cycle waiting in this stage has reached.
    pub open spec fn reached(self) -> Phase {
        match self {
            Stage::Loading => Phase::Init,
            Stage::Listing | Stage::Reading | Stage::Sealing => Phase::Loaded,
            Stage::Pulling => Phase::Captured,
            Stage::Fetching => Phase::Pulled,
            Stage::Probing | Stage::Writing | Stage::Locking => Phase::Merged,
            Stage::Persisting | Stage::Staging => Phase::Materialized,
            Stage::Pushing => Phase::Persisted,
        }
    }

    /// The last milestone that a cycle waiting in this stage has reached.
    pub fn phase(self) -> (phase: Phase)
        ensures
            phase == self.reached(),
    {
        match self {
            Stage::Loading => Phase::Init,
            Stage::Listing | Stage::Reading | Stage::Sealing => Phase::Loaded,
            Stage::Pulling => Phase::Captured,
            Stage::Fetching => Phase::Pulled,
            Stage::Probing | Stage::Writing | Stage::Locking => Phase::Merged,
            Stage::Persisting | Stage::Staging => Phase::Materialized,
            Stage::Pushing => Phase::Persisted,
        }
    }
}

/// What the driver is asked to do next.
#[derive(Debug, PartialEq, Eq)]
pub enum Step {
    /// Read and decode the replica's durable state.
    LoadLocal,
    /// List the entries of the working directory.
    ListFiles,
    /// Read the contents of the named file of the working directory.
    ReadFile(String),
    /// Make the named file of the working directory read-only.
    Protect(String),
    /// Copy the remote blob to the staging place.
    Pull,
    /// Read and decode the blob at the staging place.
    LoadRemote,
    /// See whether the working directory has a file of this name.
    Probe(String),
    /// Create the named file in the working directory with these contents.
    WriteFile(String, Vec<u8>),
    /// Encode the replica's state and store it durably.
    Persist,
    /// Copy the durable state, byte for byte, to the staging place.
    Stage,
    /// Copy the blob at the staging place to the remote address.
    Push,
}

/// A step, with names and contents as sequences.
pub enum StepView {
    LoadLocal,
    ListFiles,
    ReadFile(Seq<char>),
    Protect(Seq<char>),
    Pull,
    LoadRemote,
    Probe(Seq<char>),
    WriteFile(Seq<char>, Seq<u8>),
    Persist,
    Stage,
    Push,
}

impl View for Step {
    type V = StepView;

    open spec fn view(&self) -> StepView {
        match *self {
            Step::LoadLocal => StepView::LoadLocal,
            Step::ListFiles => StepView::ListFiles,
            Step::ReadFile(name) => StepView::ReadFile(name@),
            Step::Protect(name) => StepView::Protect(name@),
            Step::Pull => StepView::Pull,
            Step::LoadRemote => StepView::LoadRemote,
            Step::Probe(name) => StepView::Probe(name@),
            Step::WriteFile(name, content) => StepView::WriteFile(name@, content@),
            Step::Persist => StepView::Persist,
            Step::Stage => StepView::Stage,
            Step::Push => StepView::Push,
        }
    }
}

/// What the driver observed when it performed a step.
#[derive(Debug)]
pub enum Reply {
    /// The state that was read and decoded.
    Loaded(Library),
    /// The entries of the working directory, in the order in which they
    /// were listed.
    Listing(Vec<Listed>),
    /// The contents of the file that was read.
    Content(Vec<u8>),
    /// Whether the file that was probed for is there.
    Present(bool),
    /// How the transfer ended.
    Transfer(TransferOutcome),
    /// The step was performed; there is nothing more to say.
    Done,
    /// The step failed.
    Error(SyncError),
}

/// A reply, with names and contents as sequences.
pub enum ReplyView {
    Loaded(Entries),
    Listing(Seq<ListedView>),
    Content(Seq<u8>),
    Present(bool),
    Transfer(TransferOutcome),
    Done,
    Error(SyncError),
}

impl View for Reply {
    type V = ReplyView;

    open spec fn view(&self) -> ReplyView {
        match *self {
            Reply::Loaded(library) => ReplyView::Loaded(library.entries()),
            Reply::Listing(listing) => ReplyView::Listing(listing_view(listing@)),
            Reply::Content(content) => ReplyView::Content(content@),
            Reply::Present(there) => ReplyView::Present(there),
            Reply::Transfer(outcome) => ReplyView::Transfer(outcome),
            Reply::Done => ReplyView::Done,
            Reply::Error(error) => ReplyView::Error(error),
        }
    }
}

/// A cycle in progress, as the laws see it.
pub struct CycleView {
    /// What the machine is waiting for.
    pub stage: Stage,
    /// The replica's entries, in recording order.
    pub local: Entries,
    /// The names that the running loop has yet to deal with, the current
    /// one first: files to record while recording, tracked names to look
    /// for while writing out. Empty in every other stage.
    pub pending: Seq<Seq<char>>,
}

/// How a turn of the machine ends, as the laws see it.
pub enum TurnView {
    Request(CycleView, StepView),
    Finished(Entries),
    Aborted(SyncError),
}

/// The first turn: the cycle starts by asking for the durable state.
pub open spec fn start() -> TurnView {
    TurnView::Request(
        CycleView { stage: Stage::Loading, local: Seq::empty(), pending: Seq::empty() },
        StepView::LoadLocal,
    )
}

/// The turn that goes on recording: with names pending, the first is read;
/// with none left, the pull begins.
pub open spec fn capture_turn(local: Entries, pending: Seq<Seq<char>>) -> TurnView {
    if pending.len() == 0 {
        TurnView::Request(
            CycleView { stage: Stage::Pulling, local, pending: Seq::empty() },
            StepView::Pull,
        )
    } else {
        TurnView::Request(
            CycleView { stage: Stage::Reading, local, pending },
            StepView::ReadFile(pending[0]),
        )
    }
}

/// The turn that goes on writing out: with names pending, the first is
/// probed for; with none left, the state is stored.
pub open spec fn materialize_turn(local: Entries, pending: Seq<Seq<char>>) -> TurnView {
    if pending.len() == 0 {
        TurnView::Request(
            CycleView { stage: Stage::Persisting, local, pending: Seq::empty() },
            StepView::Persist,
        )
    } else {
        TurnView::Request(
            CycleView { stage: Stage::Probing, local, pending },
            StepView::Probe(pending[0]),
        )
    }
}

/// The whole of the machine: what follows from a cycle in progress and the
/// reply to its last request.
///
/// A failed step ends the cycle with the step's error, whatever the stage.
/// A reply that does not answer the request ends it as unexpected.
/// Otherwise:
/// - the loaded state becomes the replica's state, and the working
///   directory is listed;
/// - of the listing, the plain files that are not tracked yet are read one
///   by one, each recorded with its contents and then made read-only;
/// - then the remote blob is pulled: a failed pull ends the cycle, a pull
///   that found nothing at the remote leaves the state as it is, and a blob
///   that arrived is decoded and merged in;
/// - then every tracked name is probed for: a file that is there is left
///   alone, whatever it holds, a file that is missing is written out with
///   the tracked contents and made read-only;
/// - then the state is stored, staged and pushed, and a push that did not
///   fail finishes the cycle.
pub open spec fn next(cycle: CycleView, reply: ReplyView) -> TurnView {
    let unexpected = TurnView::Aborted(SyncError::Unexpected);
    match reply {
        ReplyView::Error(error) => TurnView::Aborted(error),
        ReplyView::Loaded(entries) => match cycle.stage {
            Stage::Loading => TurnView::Request(
                CycleView { stage: Stage::Listing, local: entries, pending: Seq::empty() },
                StepView::ListFiles,
            ),
            Stage::Fetching => {
                let local = absorb(cycle.local, entries);
                materialize_turn(local, names(local))
            },
            _ => unexpected,
        },
        ReplyView::Listing(listing) => match cycle.stage {
            Stage::Listing => match candidates(listing) {
                Ok(found) => capture_turn(
                    cycle.local,
                    fresh_keys(found, to_map(cycle.local).dom()),
                ),
                Err(error) => TurnView::Aborted(error),
            },
            _ => unexpected,
        },
        ReplyView::Content(content) => match cycle.stage {
            Stage::Reading => TurnView::Request(
                CycleView {
                    stage: Stage::Sealing,
                    local: put(cycle.local, cycle.pending[0], content),
                    pending: cycle.pending,
                },
                StepView::Protect(cycle.pending[0]),
            ),
            _ => unexpected,
        },
        ReplyView::Present(there) => match cycle.stage {
            Stage::Probing => if there {
                materialize_turn(cycle.local, cycle.pending.skip(1))
            } else {
                TurnView::Request(
                    CycleView { stage: Stage::Writing, local: cycle.local, pending: cycle.pending },
                    StepView::WriteFile(cycle.pending[0], to_map(cycle.local)[cycle.pending[0]]),
                )
            },
            _ => unexpected,
        },
        ReplyView::Transfer(outcome) => match cycle.stage {
            Stage::Pulling => match outcome {
                TransferOutcome::Transferred => TurnView::Request(
                    CycleView { stage: Stage::Fetching, local: cycle.local, pending: Seq::empty() },
                    StepView::LoadRemote,
                ),
                TransferOutcome::SourceAbsent => materialize_turn(cycle.local, names(cycle.local)),
                TransferOutcome::Failed(status) => TurnView::Aborted(
                    SyncError::Transfer(Direction::Pull, status),
                ),
            },
            Stage::Pushing => match outcome {
                TransferOutcome::Failed(status) => TurnView::Aborted(
                    SyncError::Transfer(Direction::Push, status),
                ),
                _ => TurnView::Finished(cycle.local),
            },
            _ => unexpected,
        },
        ReplyView::Done => match cycle.stage {
            Stage::Sealing => capture_turn(cycle.local, cycle.pending.skip(1)),
            Stage::Writing => TurnView::Request(
                CycleView { stage: Stage::Locking, local: cycle.local, pending: cycle.pending },
                StepView::Protect(cycle.pending[0]),
            ),
            Stage::Locking => materialize_turn(cycle.local, cycle.pending.skip(1)),
            Stage::Persisting => TurnView::Request(
                CycleView { stage: Stage::Staging, local: cycle.local, pending: Seq::empty() },
                StepView::Stage,
            ),
            Stage::Staging => TurnView::Request(
                CycleView { stage: Stage::Pushing, local: cycle.local, pending: Seq::empty() },
                StepView::Push,
            ),
            _ => unexpected,
        },
    }
}

/// What holds of every cycle that the machine brings about: before the
/// durable state has arrived the replica holds nothing, and names are
/// pending exactly while one of the two loops runs.
pub open spec fn coherent(cycle: CycleView) -> bool {
    match cycle.stage {
        Stage::Loading => cycle.local.len() == 0 && cycle.pending.len() == 0,
        Stage::Reading | Stage::Sealing => cycle.pending.len() > 0,
        Stage::Probing | Stage::Writing | Stage::Locking => {
            &&& cycle.pending.len() > 0
            &&& forall|i: int|
                0 <= i < cycle.pending.len() ==> to_map(cycle.local).contains_key(
                    #[trigger] cycle.pending[i],
                )
        },
        _ => cycle.pending.len() == 0,
    }
}

/// The machine keeps its cycles coherent, from the first turn on.
pub proof fn lemma_turns_stay_coherent(cycle: CycleView, reply: ReplyView)
    requires
        coherent(cycle),
    ensures
        start() matches TurnView::Request(first, _) && coherent(first),
        next(cycle, reply) matches TurnView::Request(after, _) ==> coherent(after),
{
    assert forall|local: Entries, i: int| 0 <= i < names(local).len() implies to_map(
        local,
    ).contains_key(#[trigger] names(local)[i]) by {
        lemma_names_are_keys(local, names(local)[i]);
    }
}

/// A failed step ends the cycle with the step's own error, whatever the
/// machine was waiting for, and nothing further is asked of the driver.
pub proof fn lemma_failure_ends_the_cycle(cycle: CycleView, error: SyncError)
    ensures
        next(cycle, ReplyView::Error(error)) == TurnView::Aborted(error),
{
}

/// A cycle never loses or alters what the replica tracks: each pair that is
/// tracked before a turn is tracked after it.
pub proof fn lemma_turn_only_adds(cycle: CycleView, reply: ReplyView)
    requires
        coherent(cycle),
    ensures
        next(cycle, reply) matches TurnView::Request(after, _) ==> to_map(cycle.local).submap_of(
            to_map(after.local),
        ),
        next(cycle, reply) matches TurnView::Finished(entries) ==> to_map(cycle.local).submap_of(
            to_map(entries),
        ),
{
    match reply {
        ReplyView::Loaded(entries) => {
            lemma_absorb_is_merge(cycle.local, entries);
        },
        ReplyView::Content(content) => {
            lemma_put_is_insert_if_absent(cycle.local, cycle.pending[0], content);
        },
        _ => {},
    }
}

/// The last milestone that a turn has reached: that of its stage while
/// the cycle goes on, the last of all once the cycle has finished, and none
/// where the cycle was given up.
pub open spec fn milestone(turn: TurnView) -> Option<Phase> {
    match turn {
        TurnView::Request(cycle, _) => Some(cycle.stage.reached()),
        TurnView::Finished(_) => Some(Phase::Done),
        TurnView::Aborted(_) => None,
    }
}

/// The milestones of a cycle are reached in order: no turn takes the cycle
/// back behind one that it has reached, and only the end of the push
/// finishes the cycle.
pub proof fn lemma_milestones_in_order(cycle: CycleView, reply: ReplyView)
    ensures
        milestone(next(cycle, reply)) matches Some(phase) ==> cycle.stage.reached().rank()
            <= phase.rank(),
        next(cycle, reply) is Finished ==> cycle.stage == Stage::Pushing,
{
}

/// A file is written out only right after the probe for it found no file
/// of that name, and then with the contents that the replica tracks under
/// the name. A file that is there is never written to, whatever it holds.
pub proof fn lemma_writes_only_what_is_missing(cycle: CycleView, reply: ReplyView)
    ensures
        next(cycle, reply) matches TurnView::Request(_, StepView::WriteFile(name, content)) ==> {
            &&& cycle.stage == Stage::Probing
            &&& reply == ReplyView::Present(false)
            &&& name == cycle.pending[0]
            &&& content == to_map(cycle.local)[name]
        },
        cycle.stage == Stage::Probing ==> !(next(cycle, ReplyView::Present(true))
            matches TurnView::Request(_, StepView::WriteFile(_, _))),
{
}

/// A pull that finds nothing at the remote is no failure: the cycle goes on
/// with the replica's state as it is.
pub proof fn lemma_absent_remote_is_tolerated(cycle: CycleView)
    requires
        cycle.stage == Stage::Pulling,
    ensures
        next(cycle, ReplyView::Transfer(TransferOutcome::SourceAbsent)) matches TurnView::Request(
            after,
            _,
        ) && after.local == cycle.local,
{
}

/// Once the pulled snapshot has been merged in, nothing changes the
/// replica's state any more: writing out, storing and pushing leave it alone.
pub proof fn lemma_state_settled_after_merge(cycle: CycleView, reply: ReplyView)
    requires
        cycle.stage.reached().rank() >= Phase::Merged.rank(),
    ensures
        next(cycle, reply) matches TurnView::Request(after, _) ==> after.local == cycle.local,
        next(cycle, reply) matches TurnView::Finished(entries) ==> entries == cycle.local,
{
}

/// A cycle in progress.
#[derive(Debug)]
pub struct Cycle {
    stage: Stage,
    local: Library,
    queue: Vec<String>,
    cursor: usize,
}

/// How a turn of the machine ends.
#[derive(Debug)]
pub enum Turn {
    /// The cycle goes on: the driver performs the step and hands the reply
    /// to the cycle.
    Request(Cycle, Step),
    /// The cycle is complete; this is the replica's state at its end.
    Finished(Library),
    /// The cycle was given up.
    Aborted(SyncError),
}

impl View for Cycle {
    type V = CycleView;

    closed spec fn view(&self) -> CycleView {
        CycleView {
            stage: self.stage,
            local: self.local.entries(),
            pending: match self.stage {
                Stage::Reading | Stage::Sealing => name_views(self.queue@).skip(
                    self.cursor as int,
                ),
                Stage::Probing | Stage::Writing | Stage::Locking => names(
                    self.local.entries(),
                ).skip(self.cursor as int),
                _ => Seq::empty(),
            },
        }
    }
}

impl View for Turn {
    type V = TurnView;

    open spec fn view(&self) -> TurnView {
        match *self {
            Turn::Request(cycle, step) => TurnView::Request(cycle@, step@),
            Turn::Finished(library) => TurnView::Finished(library.entries()),
            Turn::Aborted(error) => TurnView::Aborted(error),
        }
    }
}

impl Turn {
    /// The last milestone that the cycle has reached with this turn, or
    /// none where the cycle was given up.
    pub fn phase(&self) -> (phase: Option<Phase>)
        ensures
            phase == milestone(self@),
    {
        match self {
            Turn::Request(cycle, _) => Some(cycle.stage().phase()),
            Turn::Finished(_) => Some(Phase::Done),
            Turn::Aborted(_) => None,
        }
    }
}

impl Cycle {
    #[verifier::type_invariant]
    spec fn sound(&self) -> bool {
        &&& coherent(self@)
        &&& match self.stage {
            Stage::Reading | Stage::Sealing => self.cursor < self.queue@.len(),
            Stage::Probing | Stage::Writing | Stage::Locking => self.cursor
                < self.local.entries().len(),
            _ => true,
        }
    }

    /// Begins a cycle.
    pub fn begin() -> (turn: Turn)
        ensures
            turn@ == start(),
            turn@ matches TurnView::Request(first, _) && coherent(first),
    {
        let cycle = Cycle {
            stage: Stage::Loading,
            local: Library::new(),
            queue: Vec::new(),
            cursor: 0,
        };
        Turn::Request(cycle, Step::LoadLocal)
    }

    /// What the machine is waiting for.
    pub fn stage(&self) -> (stage: Stage)
        ensures
            stage == self@.stage,
            coherent(self@),
    {
        proof {
            use_type_invariant(self);
        }
        self.stage
    }

    /// The replica's state as it stands.
    pub fn local(&self) -> (library: &Library)
        ensures
            library.entries() == self@.local,
    {
        &self.local
    }

    /// Goes on recording from position `cursor` of `queue`.
    fn capture_from(local: Library, queue: Vec<String>, cursor: usize) -> (turn: Turn)
        requires
            cursor <= queue@.len(),
        ensures
            turn@ == capture_turn(local.entries(), name_views(queue@).skip(cursor as int)),
    {
        if cursor < queue.len() {
            let name = queue[cursor].clone();
            assert(name_views(queue@).skip(cursor as int)[0] == name@);
            Turn::Request(Cycle { stage: Stage::Reading, local, queue, cursor }, Step::ReadFile(name))
        } else {
            Turn::Request(
                Cycle { stage: Stage::Pulling, local, queue: Vec::new(), cursor: 0 },
                Step::Pull,
            )
        }
    }

    /// Goes on writing out from position `cursor` of the entries.
    fn materialize_from(local: Library, cursor: usize) -> (turn: Turn)
        requires
            cursor <= local.entries().len(),
        ensures
            turn@ == materialize_turn(
                local.entries(),
                names(local.entries()).skip(cursor as int),
            ),
    {
        if cursor < local.len() {
            let name = local.name_at(cursor).clone();
            proof {
                let pending = names(local.entries()).skip(cursor as int);
                assert(pending[0] == name@);
                assert forall|i: int| 0 <= i < pending.len() implies to_map(
                    local.entries(),
                ).contains_key(#[trigger] pending[i]) by {
                    lemma_names_are_keys(local.entries(), pending[i]);
                }
            }
            Turn::Request(
                Cycle { stage: Stage::Probing, local, queue: Vec::new(), cursor },
                Step::Probe(name),
            )
        } else {
            Turn::Request(
                Cycle { stage: Stage::Persisting, local, queue: Vec::new(), cursor: 0 },
                Step::Persist,
            )
        }
    }

    /// Takes the reply to the step that was last asked for and says what
    /// follows.
    pub fn advance(self, reply: Reply) -> (turn: Turn)
        ensures
            turn@ == next(self@, reply@),
            turn@ matches TurnView::Request(after, _) ==> coherent(after),
    {
        proof {
            use_type_invariant(&self);
            lemma_turns_stay_coherent(self@, reply@);
        }
        let ghost before = self@;
        let Cycle { stage, local, queue, cursor } = self;
        match reply {
            Reply::Error(error) => Turn::Aborted(error),
            Reply::Loaded(library) => match stage {
                Stage::Loading => Turn::Request(
                    Cycle { stage: Stage::Listing, local: library, queue: Vec::new(), cursor: 0 },
                    Step::ListFiles,
                ),
                Stage::Fetching => {
                    let mut local = local;
                    local.merge(library);
                    assert(names(local.entries()).skip(0) =~= names(local.entries()));
                    Self::materialize_from(local, 0)
                },
                _ => Turn::Aborted(SyncError::Unexpected),
            },
            Reply::Listing(listing) => match stage {
                Stage::Listing => match candidate_keys(listing) {
                    Ok(found) => {
                        let fresh = local.unseen(found);
                        assert(name_views(fresh@).skip(0) =~= name_views(fresh@));
                        Self::capture_from(local, fresh, 0)
                    },
                    Err(error) => Turn::Aborted(error),
                },
                _ => Turn::Aborted(SyncError::Unexpected),
            },
            Reply::Content(content) => match stage {
                Stage::Reading => {
                    let name = queue[cursor].clone();
                    let label = queue[cursor].clone();
                    let mut local = local;
                    local.insert(name, content);
                    assert(before.pending[0] == label@);
                    Turn::Request(
                        Cycle { stage: Stage::Sealing, local, queue, cursor },
                        Step::Protect(label),
                    )
                },
                _ => Turn::Aborted(SyncError::Unexpected),
            },
            Reply::Present(there) => match stage {
                Stage::Probing => if there {
                    let count = local.len();
                    assert(cursor < count);
                    assert(before.pending.skip(1) =~= names(local.entries()).skip(cursor + 1));
                    Self::materialize_from(local, cursor + 1)
                } else {
                    let name = local.name_at(cursor).clone();
                    let content = local.content_at(cursor).clone();
                    assert(before.pending[0] == name@);
                    assert(content@ =~= local.entries()[cursor as int].1);
                    Turn::Request(
                        Cycle { stage: Stage::Writing, local, queue, cursor },
                        Step::WriteFile(name, content),
                    )
                },
                _ => Turn::Aborted(SyncError::Unexpected),
            },
            Reply::Transfer(outcome) => match stage {
                Stage::Pulling => match outcome {
                    TransferOutcome::Transferred => Turn::Request(
                        Cycle { stage: Stage::Fetching, local, queue: Vec::new(), cursor: 0 },
                        Step::LoadRemote,
                    ),
                    TransferOutcome::SourceAbsent => {
                        assert(names(local.entries()).skip(0) =~= names(local.entries()));
                        Self::materialize_from(local, 0)
                    },
                    TransferOutcome::Failed(status) => Turn::Aborted(
                        SyncError::Transfer(Direction::Pull, status),
                    ),
                },
                Stage::Pushing => match outcome {
                    TransferOutcome::Failed(status) => Turn::Aborted(
                        SyncError::Transfer(Direction::Push, status),
                    ),
                    _ => Turn::Finished(local),
                },
                _ => Turn::Aborted(SyncError::Unexpected),
            },
            Reply::Done => match stage {
                Stage::Sealing => {
                    let count = queue.len();
                    assert(cursor < count);
                    assert(before.pending.skip(1) =~= name_views(queue@).skip(cursor + 1));
                    Self::capture_from(local, queue, cursor + 1)
                },
                Stage::Writing => {
                    let name = local.name_at(cursor).clone();
                    assert(before.pending[0] == name@);
                    Turn::Request(
                        Cycle { stage: Stage::Locking, local, queue, cursor },
                        Step::Protect(name),
                    )
                },
                Stage::Locking => {
                    let count = local.len();
                    assert(cursor < count);
                    assert(before.pending.skip(1) =~= names(local.entries()).skip(cursor + 1));
                    Self::materialize_from(local, cursor + 1)
                },
                Stage::Persisting => Turn::Request(
                    Cycle { stage: Stage::Staging, local, queue: Vec::new(), cursor: 0 },
                    Step::Stage,
                ),
                Stage::Staging => Turn::Request(
                    Cycle { stage: Stage::Pushing, local, queue: Vec::new(), cursor: 0 },
                    Step::Push,
                ),
                _ => Turn::Aborted(SyncError::Unexpected),
            },
        }
    }
}

} // verus!
