use magpie::capture::Listed;
use magpie::sync::{Cycle, Phase, Reply, Stage, Step, TransferOutcome, Turn};
use magpie::{CrdtPack, Direction, Library, SyncError};

type Blob = Vec<(String, Vec<u8>)>;

fn text(s: &str) -> String {
    s.to_string()
}

fn blob_of(pairs: &[(&str, &[u8])]) -> Blob {
    pairs.iter().map(|(name, content)| (text(name), content.to_vec())).collect()
}

fn library_of(blob: &Blob) -> Library {
    let mut library = Library::new();
    for (name, content) in blob {
        library.insert(name.clone(), content.clone());
    }
    library
}

fn blob_from(library: &Library) -> Blob {
    let mut blob = Vec::new();
    for i in 0..library.len() {
        blob.push((library.name_at(i).clone(), library.content_at(i).clone()));
    }
    blob
}

fn sorted(mut blob: Blob) -> Blob {
    blob.sort();
    blob
}

/// A replica's surroundings, held in memory.
struct Replica {
    files: Blob,
    directories: Vec<String>,
    readonly: Vec<String>,
    durable: Option<Blob>,
    staged: Option<Blob>,
    steps: Vec<Step>,
}

impl Replica {
    fn with_files(pairs: &[(&str, &[u8])]) -> Replica {
        Replica {
            files: blob_of(pairs),
            directories: Vec::new(),
            readonly: Vec::new(),
            durable: Some(Vec::new()),
            staged: None,
            steps: Vec::new(),
        }
    }

    fn file(&self, name: &str) -> Option<&Vec<u8>> {
        self.files.iter().find(|(held, _)| held == name).map(|(_, content)| content)
    }

    fn is_readonly(&self, name: &str) -> bool {
        self.readonly.iter().any(|held| held == name)
    }
}

/// The remote, held in memory.
struct Remote {
    blob: Option<Blob>,
    reachable: bool,
}

impl Remote {
    fn new() -> Remote {
        Remote { blob: None, reachable: true }
    }
}

fn copy_of(step: &Step) -> Step {
    match step {
        Step::LoadLocal => Step::LoadLocal,
        Step::ListFiles => Step::ListFiles,
        Step::ReadFile(name) => Step::ReadFile(name.clone()),
        Step::Protect(name) => Step::Protect(name.clone()),
        Step::Pull => Step::Pull,
        Step::LoadRemote => Step::LoadRemote,
        Step::Probe(name) => Step::Probe(name.clone()),
        Step::WriteFile(name, content) => Step::WriteFile(name.clone(), content.clone()),
        Step::Persist => Step::Persist,
        Step::Stage => Step::Stage,
        Step::Push => Step::Push,
    }
}

fn perform(cycle: &Cycle, step: Step, replica: &mut Replica, remote: &mut Remote) -> Reply {
    replica.steps.push(copy_of(&step));
    match step {
        Step::LoadLocal => match &replica.durable {
            Some(blob) => Reply::Loaded(library_of(blob)),
            None => Reply::Error(SyncError::NotFound),
        },
        Step::ListFiles => {
            let mut listing = Vec::new();
            for name in &replica.directories {
                let _ = name;
                listing.push(Listed::Other);
            }
            for (name, _) in &replica.files {
                listing.push(Listed::File(name.clone()));
            }
            Reply::Listing(listing)
        }
        Step::ReadFile(name) => match replica.file(&name) {
            Some(content) => Reply::Content(content.clone()),
            None => Reply::Error(SyncError::Io(format!("{}: no such file", name))),
        },
        Step::Protect(name) => {
            if replica.file(&name).is_none() {
                return Reply::Error(SyncError::Io(format!("{}: no such file", name)));
            }
            replica.readonly.push(name);
            Reply::Done
        }
        Step::Pull => {
            if !remote.reachable {
                let present = replica.staged.is_some();
                return Reply::Transfer(TransferOutcome::observed(false, present, text("exit 12")));
            }
            if let Some(blob) = &remote.blob {
                replica.staged = Some(blob.clone());
            }
            let present = replica.staged.is_some();
            Reply::Transfer(TransferOutcome::observed(true, present, text("exit 0")))
        }
        Step::LoadRemote => match &replica.staged {
            Some(blob) => Reply::Loaded(library_of(blob)),
            None => Reply::Error(SyncError::NotFound),
        },
        Step::Probe(name) => Reply::Present(replica.file(&name).is_some()),
        Step::WriteFile(name, content) => {
            if replica.is_readonly(&name) {
                return Reply::Error(SyncError::Io(format!("{}: read-only", name)));
            }
            replica.files.retain(|(held, _)| *held != name);
            replica.files.push((name, content));
            Reply::Done
        }
        Step::Persist => {
            replica.durable = Some(blob_from(cycle.local()));
            Reply::Done
        }
        Step::Stage => {
            replica.staged = replica.durable.clone();
            Reply::Done
        }
        Step::Push => {
            if !remote.reachable {
                return Reply::Transfer(TransferOutcome::observed(false, true, text("exit 12")));
            }
            remote.blob = replica.staged.clone();
            Reply::Transfer(TransferOutcome::observed(true, true, text("exit 0")))
        }
    }
}

fn sync(replica: &mut Replica, remote: &mut Remote) -> Result<Library, SyncError> {
    replica.steps.clear();
    let mut turn = Cycle::begin();
    loop {
        match turn {
            Turn::Request(cycle, step) => {
                let reply = perform(&cycle, step, replica, remote);
                turn = cycle.advance(reply);
            }
            Turn::Finished(library) => return Ok(library),
            Turn::Aborted(error) => return Err(error),
        }
    }
}

/// Drives a fresh cycle with the given replies and hands back the last turn.
fn drive(replies: Vec<Reply>) -> Turn {
    let mut turn = Cycle::begin();
    for reply in replies {
        turn = match turn {
            Turn::Request(cycle, _) => cycle.advance(reply),
            _ => panic!("the cycle ended before the replies did"),
        };
    }
    turn
}

fn step_of(turn: &Turn) -> &Step {
    match turn {
        Turn::Request(_, step) => step,
        _ => panic!("the cycle has ended"),
    }
}

fn stage_of(turn: &Turn) -> Stage {
    match turn {
        Turn::Request(cycle, _) => cycle.stage(),
        _ => panic!("the cycle has ended"),
    }
}

fn error_of(turn: Turn) -> SyncError {
    match turn {
        Turn::Aborted(error) => error,
        _ => panic!("the cycle was not given up"),
    }
}

fn transferred() -> Reply {
    Reply::Transfer(TransferOutcome::Transferred)
}

fn absent() -> Reply {
    Reply::Transfer(TransferOutcome::SourceAbsent)
}

#[test]
fn a_cycle_begins_by_loading_the_durable_state() {
    let turn = Cycle::begin();
    assert_eq!(step_of(&turn), &Step::LoadLocal);
    assert_eq!(stage_of(&turn), Stage::Loading);
    match turn {
        Turn::Request(cycle, _) => assert!(cycle.local().is_empty()),
        _ => unreachable!(),
    }
}

#[test]
fn the_steps_of_a_cycle_come_in_order() {
    let mut replica = Replica::with_files(&[("a", b"A"), ("b", b"B")]);
    replica.durable = Some(blob_of(&[("b", b"B"), ("c", b"C")]));
    let mut remote = Remote::new();
    remote.blob = Some(blob_of(&[("d", b"D"), ("a", b"other")]));

    let state = sync(&mut replica, &mut remote).unwrap();

    assert_eq!(
        replica.steps,
        vec![
            Step::LoadLocal,
            Step::ListFiles,
            Step::ReadFile(text("a")),
            Step::Protect(text("a")),
            Step::Pull,
            Step::LoadRemote,
            Step::Probe(text("b")),
            Step::Probe(text("c")),
            Step::WriteFile(text("c"), b"C".to_vec()),
            Step::Protect(text("c")),
            Step::Probe(text("a")),
            Step::Probe(text("d")),
            Step::WriteFile(text("d"), b"D".to_vec()),
            Step::Protect(text("d")),
            Step::Persist,
            Step::Stage,
            Step::Push,
        ]
    );
    assert_eq!(
        blob_from(&state),
        blob_of(&[("b", b"B"), ("c", b"C"), ("a", b"A"), ("d", b"D")])
    );
}

#[test]
fn the_stages_and_milestones_of_a_cycle() {
    let mut turn = Cycle::begin();
    let mut seen = vec![stage_of(&turn)];
    let replies = vec![
        Reply::Loaded(Library::new()),
        Reply::Listing(vec![Listed::File(text("a"))]),
        Reply::Content(b"A".to_vec()),
        Reply::Done,
        transferred(),
        Reply::Loaded(library_of(&blob_of(&[("b", b"B")]))),
        Reply::Present(true),
        Reply::Present(false),
        Reply::Done,
        Reply::Done,
        Reply::Done,
        Reply::Done,
    ];
    for reply in replies {
        turn = match turn {
            Turn::Request(cycle, _) => cycle.advance(reply),
            _ => unreachable!(),
        };
        seen.push(stage_of(&turn));
    }
    assert_eq!(
        seen,
        vec![
            Stage::Loading,
            Stage::Listing,
            Stage::Reading,
            Stage::Sealing,
            Stage::Pulling,
            Stage::Fetching,
            Stage::Probing,
            Stage::Probing,
            Stage::Writing,
            Stage::Locking,
            Stage::Persisting,
            Stage::Staging,
            Stage::Pushing,
        ]
    );
    let phases: Vec<Phase> = seen.iter().map(|stage| stage.phase()).collect();
    assert_eq!(
        phases,
        vec![
            Phase::Init,
            Phase::Loaded,
            Phase::Loaded,
            Phase::Loaded,
            Phase::Captured,
            Phase::Pulled,
            Phase::Merged,
            Phase::Merged,
            Phase::Merged,
            Phase::Merged,
            Phase::Materialized,
            Phase::Materialized,
            Phase::Persisted,
        ]
    );
    match turn {
        Turn::Request(cycle, step) => {
            assert_eq!(step, Step::Push);
            match cycle.advance(transferred()) {
                Turn::Finished(state) => {
                    assert_eq!(blob_from(&state), blob_of(&[("a", b"A"), ("b", b"B")]))
                }
                _ => panic!("the cycle did not finish"),
            }
        }
        _ => unreachable!(),
    }
}

#[test]
fn capture_is_additive_only() {
    let mut replica = Replica::with_files(&[("a", b"content a"), ("b", b"content b")]);
    let mut remote = Remote::new();

    let state = sync(&mut replica, &mut remote).unwrap();
    assert_eq!(blob_from(&state), blob_of(&[("a", b"content a"), ("b", b"content b")]));
    assert!(replica.is_readonly("a"));
    assert!(replica.is_readonly("b"));

    // Again, with the files as they were: the state stays as it is, and
    // nothing is read or written.
    let again = sync(&mut replica, &mut remote).unwrap();
    assert_eq!(blob_from(&again), blob_of(&[("a", b"content a"), ("b", b"content b")]));
    assert_eq!(
        replica.steps,
        vec![
            Step::LoadLocal,
            Step::ListFiles,
            Step::Pull,
            Step::LoadRemote,
            Step::Probe(text("a")),
            Step::Probe(text("b")),
            Step::Persist,
            Step::Stage,
            Step::Push,
        ]
    );
    assert_eq!(replica.files, blob_of(&[("a", b"content a"), ("b", b"content b")]));
}

#[test]
fn capture_passes_over_what_is_not_a_plain_file() {
    let mut replica = Replica::with_files(&[("a", b"A")]);
    replica.directories = vec![text("sub"), text("link")];
    let mut remote = Remote::new();
    let state = sync(&mut replica, &mut remote).unwrap();
    assert_eq!(blob_from(&state), blob_of(&[("a", b"A")]));
}

#[test]
fn capture_leaves_tracked_names_alone() {
    let mut replica = Replica::with_files(&[("a", b"changed on disk"), ("b", b"B")]);
    replica.durable = Some(blob_of(&[("a", b"as recorded")]));
    let mut remote = Remote::new();
    let state = sync(&mut replica, &mut remote).unwrap();
    assert_eq!(blob_from(&state), blob_of(&[("a", b"as recorded"), ("b", b"B")]));
    assert!(!replica.steps.contains(&Step::ReadFile(text("a"))));
    assert!(replica.steps.contains(&Step::ReadFile(text("b"))));
}

#[test]
fn materialize_never_overwrites() {
    let mut replica = Replica::with_files(&[("a", b"X")]);
    replica.durable = Some(blob_of(&[("a", b"Y")]));
    let mut remote = Remote::new();

    let state = sync(&mut replica, &mut remote).unwrap();

    assert_eq!(replica.file("a"), Some(&b"X".to_vec()));
    assert_eq!(state.get(&text("a")), Some(&b"Y".to_vec()));
    assert!(replica.steps.iter().all(|step| !matches!(step, Step::WriteFile(_, _))));
}

#[test]
fn materialize_never_overwrites_with_what_arrives() {
    let mut replica = Replica::with_files(&[("a", b"X")]);
    replica.durable = Some(blob_of(&[("a", b"X")]));
    let mut remote = Remote::new();
    remote.blob = Some(blob_of(&[("a", b"Y"), ("b", b"B")]));

    let state = sync(&mut replica, &mut remote).unwrap();

    assert_eq!(replica.file("a"), Some(&b"X".to_vec()));
    assert_eq!(replica.file("b"), Some(&b"B".to_vec()));
    assert_eq!(state.get(&text("a")), Some(&b"X".to_vec()));
    assert!(replica.is_readonly("b"));
}

#[test]
fn materialize_writes_the_tracked_contents_verbatim() {
    let mut replica = Replica::with_files(&[]);
    replica.durable = Some(blob_of(&[("bin", &[0, 255, 10, 13, 0]), ("empty", b"")]));
    let mut remote = Remote::new();

    sync(&mut replica, &mut remote).unwrap();

    assert_eq!(replica.file("bin"), Some(&vec![0u8, 255, 10, 13, 0]));
    assert_eq!(replica.file("empty"), Some(&Vec::new()));
    assert!(replica.is_readonly("bin"));
    assert!(replica.is_readonly("empty"));
}

#[test]
fn tolerant_pull() {
    let mut replica = Replica::with_files(&[("new", b"N")]);
    replica.durable = Some(blob_of(&[("old", b"O")]));
    let mut remote = Remote::new();

    let state = sync(&mut replica, &mut remote).unwrap();

    assert_eq!(blob_from(&state), blob_of(&[("old", b"O"), ("new", b"N")]));
    assert!(!replica.steps.contains(&Step::LoadRemote));
    assert_eq!(remote.blob, Some(blob_of(&[("old", b"O"), ("new", b"N")])));
}

#[test]
fn an_absent_remote_skips_the_merge() {
    let turn = drive(vec![Reply::Loaded(Library::new()), Reply::Listing(Vec::new()), absent()]);
    assert_eq!(step_of(&turn), &Step::Persist);

    let turn = drive(vec![
        Reply::Loaded(library_of(&blob_of(&[("a", b"A")]))),
        Reply::Listing(Vec::new()),
        absent(),
    ]);
    assert_eq!(step_of(&turn), &Step::Probe(text("a")));
}

#[test]
fn end_to_end_scenario() {
    let mut a = Replica::with_files(&[("notes.txt", b"hello")]);
    let mut b = Replica::with_files(&[("diary.txt", b"world")]);
    let mut remote = Remote::new();

    sync(&mut a, &mut remote).unwrap();
    let state = sync(&mut b, &mut remote).unwrap();

    assert_eq!(b.file("notes.txt"), Some(&b"hello".to_vec()));
    assert!(b.is_readonly("notes.txt"));
    assert_eq!(b.file("diary.txt"), Some(&b"world".to_vec()));
    assert_eq!(b.files.len(), 2);
    assert_eq!(
        sorted(b.durable.clone().unwrap()),
        blob_of(&[("diary.txt", b"world"), ("notes.txt", b"hello")])
    );
    assert_eq!(sorted(blob_from(&state)), sorted(b.durable.clone().unwrap()));
    assert_eq!(b.staged, b.durable);
    assert_eq!(remote.blob, b.durable);

    // Once A has synced again, both replicas hold the same.
    let state = sync(&mut a, &mut remote).unwrap();
    assert_eq!(state, library_of(&b.durable.clone().unwrap()));
    assert_eq!(a.file("diary.txt"), Some(&b"world".to_vec()));
    assert_eq!(a.file("notes.txt"), Some(&b"hello".to_vec()));
    assert!(a.is_readonly("diary.txt"));
}

#[test]
fn conflicting_key_scenario() {
    let mut a = Replica::with_files(&[("same.txt", b"from a")]);
    let mut b = Replica::with_files(&[("same.txt", b"from b")]);
    let mut remote = Remote::new();

    for _ in 0..3 {
        let state = sync(&mut a, &mut remote).unwrap();
        assert_eq!(state.get(&text("same.txt")), Some(&b"from a".to_vec()));
        let state = sync(&mut b, &mut remote).unwrap();
        assert_eq!(state.get(&text("same.txt")), Some(&b"from b".to_vec()));
    }
    assert_eq!(a.file("same.txt"), Some(&b"from a".to_vec()));
    assert_eq!(b.file("same.txt"), Some(&b"from b".to_vec()));

    // A third replica that has no such file takes what it merges first.
    let mut c = Replica::with_files(&[]);
    let state = sync(&mut c, &mut remote).unwrap();
    assert_eq!(state.get(&text("same.txt")), Some(&b"from b".to_vec()));
    assert_eq!(c.file("same.txt"), Some(&b"from b".to_vec()));
    sync(&mut a, &mut remote).unwrap();
    let state = sync(&mut c, &mut remote).unwrap();
    assert_eq!(state.get(&text("same.txt")), Some(&b"from b".to_vec()));
}

#[test]
fn a_missing_durable_state_ends_the_cycle() {
    let mut replica = Replica::with_files(&[("a", b"A")]);
    replica.durable = None;
    let mut remote = Remote::new();
    assert_eq!(sync(&mut replica, &mut remote), Err(SyncError::NotFound));
    assert_eq!(replica.steps, vec![Step::LoadLocal]);
    assert_eq!(remote.blob, None);
}

#[test]
fn a_failed_pull_ends_the_cycle() {
    let mut replica = Replica::with_files(&[("a", b"A")]);
    let mut remote = Remote::new();
    remote.reachable = false;
    assert_eq!(
        sync(&mut replica, &mut remote),
        Err(SyncError::Transfer(Direction::Pull, text("exit 12")))
    );
    assert_eq!(replica.steps.last(), Some(&Step::Pull));
    // What was done before the failure stays done.
    assert!(replica.is_readonly("a"));
    assert_eq!(replica.durable, Some(Vec::new()));
}

#[test]
fn a_failed_push_ends_the_cycle() {
    let turn = drive(vec![
        Reply::Loaded(Library::new()),
        Reply::Listing(Vec::new()),
        absent(),
        Reply::Done,
        Reply::Done,
        Reply::Transfer(TransferOutcome::Failed(text("exit 23"))),
    ]);
    assert_eq!(error_of(turn), SyncError::Transfer(Direction::Push, text("exit 23")));
}

#[test]
fn a_push_that_did_not_fail_finishes_the_cycle() {
    for outcome in [TransferOutcome::Transferred, TransferOutcome::SourceAbsent] {
        let turn = drive(vec![
            Reply::Loaded(library_of(&blob_of(&[("a", b"A")]))),
            Reply::Listing(Vec::new()),
            absent(),
            Reply::Present(true),
            Reply::Done,
            Reply::Done,
            Reply::Transfer(outcome),
        ]);
        match turn {
            Turn::Finished(state) => assert_eq!(blob_from(&state), blob_of(&[("a", b"A")])),
            _ => panic!("the cycle did not finish"),
        }
    }
}

#[test]
fn a_name_that_is_not_text_ends_the_cycle() {
    let turn = drive(vec![
        Reply::Loaded(Library::new()),
        Reply::Listing(vec![Listed::File(text("a")), Listed::Garbled(text("b?"))]),
    ]);
    assert_eq!(error_of(turn), SyncError::Encoding(text("b?")));
}

#[test]
fn an_unreadable_entry_ends_the_cycle() {
    let turn = drive(vec![
        Reply::Loaded(Library::new()),
        Reply::Listing(vec![Listed::Unreadable(SyncError::Io(text("denied")))]),
    ]);
    assert_eq!(error_of(turn), SyncError::Io(text("denied")));
}

#[test]
fn a_failed_step_ends_the_cycle_at_every_stage() {
    let replies = || {
        vec![
            Reply::Loaded(library_of(&blob_of(&[("t", b"T")]))),
            Reply::Listing(vec![Listed::File(text("a"))]),
            Reply::Content(b"A".to_vec()),
            Reply::Done,
            transferred(),
            Reply::Loaded(Library::new()),
            Reply::Present(false),
            Reply::Done,
            Reply::Done,
            Reply::Present(true),
            Reply::Done,
            Reply::Done,
        ]
    };
    for failing in 0..=replies().len() {
        let mut given: Vec<Reply> = replies().into_iter().take(failing).collect();
        given.push(Reply::Error(SyncError::Io(format!("step {}", failing))));
        let turn = drive(given);
        assert_eq!(error_of(turn), SyncError::Io(format!("step {}", failing)));
    }
}

#[test]
fn a_reply_that_answers_another_request_ends_the_cycle() {
    assert_eq!(error_of(drive(vec![Reply::Done])), SyncError::Unexpected);
    assert_eq!(error_of(drive(vec![Reply::Listing(Vec::new())])), SyncError::Unexpected);
    assert_eq!(error_of(drive(vec![Reply::Content(Vec::new())])), SyncError::Unexpected);
    assert_eq!(error_of(drive(vec![Reply::Present(true)])), SyncError::Unexpected);
    assert_eq!(error_of(drive(vec![transferred()])), SyncError::Unexpected);
    assert_eq!(
        error_of(drive(vec![Reply::Loaded(Library::new()), Reply::Loaded(Library::new())])),
        SyncError::Unexpected
    );
    assert_eq!(
        error_of(drive(vec![Reply::Loaded(Library::new()), Reply::Listing(Vec::new()), Reply::Done])),
        SyncError::Unexpected
    );
    assert_eq!(
        error_of(drive(vec![
            Reply::Loaded(Library::new()),
            Reply::Listing(Vec::new()),
            absent(),
            Reply::Present(true),
        ])),
        SyncError::Unexpected
    );
}

#[test]
fn the_recorded_contents_are_those_that_were_read() {
    let turn = drive(vec![
        Reply::Loaded(Library::new()),
        Reply::Listing(vec![Listed::File(text("a")), Listed::File(text("b"))]),
        Reply::Content(vec![1, 2, 3]),
    ]);
    assert_eq!(step_of(&turn), &Step::Protect(text("a")));
    match &turn {
        Turn::Request(cycle, _) => {
            assert_eq!(cycle.local().get(&text("a")), Some(&vec![1u8, 2, 3]));
            assert!(!cycle.local().contains(&text("b")));
        }
        _ => unreachable!(),
    }
}

#[test]
fn a_listing_that_names_a_file_twice_records_it_once() {
    let turn = drive(vec![
        Reply::Loaded(Library::new()),
        Reply::Listing(vec![Listed::File(text("a")), Listed::File(text("a"))]),
        Reply::Content(b"A".to_vec()),
        Reply::Done,
    ]);
    assert_eq!(step_of(&turn), &Step::Pull);
}

#[test]
fn observed_transfers() {
    assert_eq!(
        TransferOutcome::observed(true, true, text("exit 0")),
        TransferOutcome::Transferred
    );
    assert_eq!(
        TransferOutcome::observed(true, false, text("exit 0")),
        TransferOutcome::SourceAbsent
    );
    assert_eq!(
        TransferOutcome::observed(false, true, text("exit 23")),
        TransferOutcome::Failed(text("exit 23"))
    );
    assert_eq!(
        TransferOutcome::observed(false, false, text("exit 23")),
        TransferOutcome::Failed(text("exit 23"))
    );
}

#[test]
fn a_blob_left_at_the_staging_place_is_merged_again_and_changes_nothing() {
    let mut replica = Replica::with_files(&[("a", b"A")]);
    let mut remote = Remote::new();
    sync(&mut replica, &mut remote).unwrap();

    // The remote loses its blob; the staged copy is still there.
    remote.blob = None;
    replica.files.push((text("b"), b"B".to_vec()));
    let state = sync(&mut replica, &mut remote).unwrap();

    assert!(replica.steps.contains(&Step::LoadRemote));
    assert_eq!(blob_from(&state), blob_of(&[("a", b"A"), ("b", b"B")]));
    assert_eq!(remote.blob, Some(blob_of(&[("a", b"A"), ("b", b"B")])));
}

#[test]
fn a_state_that_cannot_be_decoded_ends_the_cycle() {
    let turn = drive(vec![Reply::Error(SyncError::Decode(text("unexpected end of input")))]);
    assert_eq!(turn.phase(), None);
    assert_eq!(error_of(turn), SyncError::Decode(text("unexpected end of input")));

    let turn = drive(vec![
        Reply::Loaded(Library::new()),
        Reply::Listing(Vec::new()),
        transferred(),
        Reply::Error(SyncError::Decode(text("bad blob"))),
    ]);
    assert_eq!(error_of(turn), SyncError::Decode(text("bad blob")));
}

#[test]
fn a_state_that_cannot_be_encoded_ends_the_cycle() {
    let turn = drive(vec![
        Reply::Loaded(Library::new()),
        Reply::Listing(Vec::new()),
        absent(),
        Reply::Error(SyncError::Encode(text("disk full"))),
    ]);
    assert_eq!(error_of(turn), SyncError::Encode(text("disk full")));
}

#[test]
fn the_milestone_of_a_turn() {
    assert_eq!(Cycle::begin().phase(), Some(Phase::Init));
    let turn = drive(vec![Reply::Loaded(Library::new()), Reply::Listing(Vec::new())]);
    assert_eq!(turn.phase(), Some(Phase::Captured));
    let turn = drive(vec![
        Reply::Loaded(Library::new()),
        Reply::Listing(Vec::new()),
        absent(),
        Reply::Done,
        Reply::Done,
        transferred(),
    ]);
    assert_eq!(turn.phase(), Some(Phase::Done));
    assert_eq!(drive(vec![Reply::Done]).phase(), None);
}

fn replica_like(replica: &Replica) -> Replica {
    Replica {
        files: replica.files.clone(),
        directories: replica.directories.clone(),
        readonly: replica.readonly.clone(),
        durable: replica.durable.clone(),
        staged: replica.staged.clone(),
        steps: Vec::new(),
    }
}

/// Runs a cycle for at most `steps` steps and drops it.
fn sync_cut_off(replica: &mut Replica, remote: &mut Remote, steps: usize) {
    let mut turn = Cycle::begin();
    for _ in 0..steps {
        turn = match turn {
            Turn::Request(cycle, step) => {
                let reply = perform(&cycle, step, replica, remote);
                cycle.advance(reply)
            }
            ended => ended,
        };
    }
}

#[test]
fn a_cut_off_cycle_is_made_good_by_the_next() {
    let mut start = Replica::with_files(&[("a", b"A"), ("b", b"B")]);
    start.durable = Some(blob_of(&[("b", b"old B"), ("c", b"C")]));
    let published = blob_of(&[("d", b"D"), ("a", b"other A"), ("e", b"E")]);

    let mut whole = replica_like(&start);
    let mut remote = Remote::new();
    remote.blob = Some(published.clone());
    let expected = sync(&mut whole, &mut remote).unwrap();
    let length = whole.steps.len();
    assert_eq!(length, 20);

    for steps in 0..=length {
        let mut replica = replica_like(&start);
        let mut remote = Remote::new();
        remote.blob = Some(published.clone());
        sync_cut_off(&mut replica, &mut remote, steps);
        let state = sync(&mut replica, &mut remote).unwrap();
        assert_eq!(state, expected);
        assert_eq!(sorted(replica.files.clone()), sorted(whole.files.clone()));
        assert_eq!(replica.file("a"), Some(&b"A".to_vec()));
        assert_eq!(replica.file("b"), Some(&b"B".to_vec()));
        assert_eq!(state.get(&text("b")), Some(&b"old B".to_vec()));
    }
}
