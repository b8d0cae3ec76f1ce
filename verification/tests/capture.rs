use magpie::capture::{candidate_keys, Listed};
use magpie::{CrdtPack, Library, SyncError};

fn text(s: &str) -> String {
    s.to_string()
}

fn file(name: &str) -> Listed {
    Listed::File(text(name))
}

fn names(list: &[&str]) -> Vec<String> {
    list.iter().map(|name| text(name)).collect()
}

#[test]
fn an_empty_directory_has_no_candidates() {
    assert_eq!(candidate_keys(Vec::new()), Ok(Vec::new()));
}

#[test]
fn plain_files_are_candidates_in_listing_order() {
    let listing = vec![file("b"), file("a"), file("c")];
    assert_eq!(candidate_keys(listing), Ok(names(&["b", "a", "c"])));
}

#[test]
fn entries_that_are_not_plain_files_are_passed_over() {
    let listing = vec![Listed::Other, file("a"), Listed::Other, Listed::Other, file("b")];
    assert_eq!(candidate_keys(listing), Ok(names(&["a", "b"])));
    assert_eq!(candidate_keys(vec![Listed::Other]), Ok(Vec::new()));
}

#[test]
fn a_name_that_is_not_text_fails_the_whole_listing() {
    let listing = vec![file("a"), Listed::Garbled(text("bad\u{fffd}name")), file("b")];
    assert_eq!(candidate_keys(listing), Err(SyncError::Encoding(text("bad\u{fffd}name"))));
}

#[test]
fn an_entry_that_cannot_be_read_fails_with_its_own_error() {
    let listing =
        vec![file("a"), Listed::Unreadable(SyncError::Io(text("permission denied"))), file("b")];
    assert_eq!(candidate_keys(listing), Err(SyncError::Io(text("permission denied"))));
}

#[test]
fn the_first_failure_in_listing_order_wins() {
    let garbled_first = vec![
        Listed::Other,
        Listed::Garbled(text("x")),
        Listed::Unreadable(SyncError::Io(text("late"))),
    ];
    assert_eq!(candidate_keys(garbled_first), Err(SyncError::Encoding(text("x"))));

    let unreadable_first = vec![
        Listed::Unreadable(SyncError::Io(text("early"))),
        Listed::Garbled(text("x")),
        Listed::Unreadable(SyncError::Io(text("late"))),
    ];
    assert_eq!(candidate_keys(unreadable_first), Err(SyncError::Io(text("early"))));
}

#[test]
fn unseen_is_the_difference_of_candidates_and_tracked_names() {
    let mut library = Library::new();
    library.insert(text("a"), vec![1]);
    library.insert(text("c"), vec![3]);
    assert_eq!(library.unseen(names(&["a", "b", "c", "d"])), names(&["b", "d"]));
    assert_eq!(library.unseen(names(&["a", "c"])), Vec::<String>::new());
    assert_eq!(library.unseen(Vec::new()), Vec::<String>::new());
}

#[test]
fn unseen_of_an_empty_state_is_every_candidate() {
    let library = Library::new();
    assert_eq!(library.unseen(names(&["b", "a"])), names(&["b", "a"]));
}

#[test]
fn unseen_names_each_candidate_once_in_order_of_first_occurrence() {
    let mut library = Library::new();
    library.insert(text("k"), vec![0]);
    assert_eq!(library.unseen(names(&["b", "a", "b", "k", "a", "c", "b"])), names(&["b", "a", "c"]));
}
