//! Which files of the working directory a replica has yet to record.

use crate::error::SyncError;
use crate::library::Library;
use vstd::prelude::*;

verus! {

/// What was observed of one entry of the working directory.
#[derive(Debug, PartialEq, Eq)]
pub enum Listed {
    /// A plain file, with its name.
    File(String),
    /// A plain file whose name is not valid text; the text shows the name as
    /// far as it can be shown.
    Garbled(String),
    /// Anything that is not a plain file: a directory, a link, a device.
    Other,
    /// The entry, or its kind, could not be read.
    Unreadable(SyncError),
}

/// What a listing entry is, with the name of a plain file as a sequence of
/// characters.
pub enum ListedView {
    File(Seq<char>),
    Garbled(String),
    Other,
    Unreadable(SyncError),
}

impl View for Listed {
    type V = ListedView;

    open spec fn view(&self) -> ListedView {
        match *self {
            Listed::File(name) => ListedView::File(name@),
            Listed::Garbled(shown) => ListedView::Garbled(shown),
            Listed::Other => ListedView::Other,
            Listed::Unreadable(error) => ListedView::Unreadable(error),
        }
    }
}

/// The views of a listing's entries, in order.
pub open spec fn listing_view(listing: Seq<Listed>) -> Seq<ListedView> {
    listing.map_values(|entry: Listed| entry@)
}

/// The views of a list of names, in order.
pub open spec fn name_views(list: Seq<String>) -> Seq<Seq<char>> {
    list.map_values(|name: String| name@)
}

/// The names of the plain files of a listing, in the listing's order, or
/// the failure of the first entry that has one: an entry that could not be
/// read fails with its own error, a plain file whose name is not valid text
/// with an encoding error. Entries that are not plain files are passed over.
pub open spec fn candidates(listing: Seq<ListedView>) -> Result<Seq<Seq<char>>, SyncError>
    decreases listing.len(),
{
    if listing.len() == 0 {
        Ok(Seq::empty())
    } else {
        match candidates(listing.drop_last()) {
            Err(error) => Err(error),
            Ok(found) => match listing.last() {
                ListedView::File(name) => Ok(found.push(name)),
                ListedView::Garbled(shown) => Err(SyncError::Encoding(shown)),
                ListedView::Other => Ok(found),
                ListedView::Unreadable(error) => Err(error),
            },
        }
    }
}

/// A listing without its entries that are not plain files.
pub open spec fn without_others(listing: Seq<ListedView>) -> Seq<ListedView>
    decreases listing.len(),
{
    if listing.len() == 0 {
        Seq::empty()
    } else {
        let earlier = without_others(listing.drop_last());
        if listing.last() is Other {
            earlier
        } else {
            earlier.push(listing.last())
        }
    }
}

/// Entries that are not plain files make no difference: the listing yields
/// what it would yield without them.
pub proof fn lemma_others_are_passed_over(listing: Seq<ListedView>)
    ensures
        candidates(without_others(listing)) == candidates(listing),
    decreases listing.len(),
{
    if listing.len() > 0 {
        let earlier = without_others(listing.drop_last());
        lemma_others_are_passed_over(listing.drop_last());
        if !(listing.last() is Other) {
            assert(earlier.push(listing.last()).drop_last() =~= earlier);
        }
    }
}

/// The candidates that are not known yet, each once, in the order of their
/// first occurrence.
pub open spec fn fresh_keys(candidates: Seq<Seq<char>>, known: Set<Seq<char>>) -> Seq<Seq<char>>
    decreases candidates.len(),
{
    if candidates.len() == 0 {
        Seq::empty()
    } else {
        let earlier = fresh_keys(candidates.drop_last(), known);
        let name = candidates.last();
        if known.contains(name) || earlier.contains(name) {
            earlier
        } else {
            earlier.push(name)
        }
    }
}

/// The fresh keys are the set difference of the candidates and the known
/// names, and none of them occurs twice.
pub proof fn lemma_fresh_keys_are_difference(candidates: Seq<Seq<char>>, known: Set<Seq<char>>)
    ensures
        fresh_keys(candidates, known).no_duplicates(),
        forall|name: Seq<char>| #[trigger]
            fresh_keys(candidates, known).contains(name) <==> candidates.contains(name)
                && !known.contains(name),
    decreases candidates.len(),
{
    let fresh = fresh_keys(candidates, known);
    if candidates.len() > 0 {
        let shorter = candidates.drop_last();
        let earlier = fresh_keys(shorter, known);
        let last = candidates.last();
        lemma_fresh_keys_are_difference(shorter, known);
        assert forall|name: Seq<char>| #[trigger]
            fresh.contains(name) <==> candidates.contains(name) && !known.contains(name) by {
            if candidates.contains(name) {
                let i = choose|i: int| 0 <= i < candidates.len() && candidates[i] == name;
                if i < shorter.len() {
                    assert(shorter[i] == name);
                }
            }
            if shorter.contains(name) {
                let i = choose|i: int| 0 <= i < shorter.len() && shorter[i] == name;
                assert(candidates[i] == name);
            }
            if name == last {
                assert(candidates[candidates.len() - 1] == name);
            }
            if earlier.contains(name) {
                let i = choose|i: int| 0 <= i < earlier.len() && earlier[i] == name;
                if fresh != earlier {
                    assert(fresh[i] == name);
                }
            }
            if fresh.contains(name) && fresh != earlier {
                let i = choose|i: int| 0 <= i < fresh.len() && fresh[i] == name;
                if i < earlier.len() {
                    assert(earlier[i] == name);
                }
            }
            if fresh != earlier {
                assert(fresh[fresh.len() - 1] == last);
            }
        }
    }
}

/// Whether `name` occurs in `list`.
fn occurs(list: &Vec<String>, name: &String) -> (found: bool)
    ensures
        found == name_views(list@).contains(name@),
{
    let mut i: usize = 0;
    while i < list.len()
        invariant
            i <= list.len(),
            forall|j: int| 0 <= j < i ==> name_views(list@)[j] != name@,
        decreases list.len() - i,
    {
        if list[i] == *name {
            assert(name_views(list@)[i as int] == name@);
            return true;
        }
        i += 1;
    }
    false
}

/// Sifts a listing of the working directory for the names of its plain
/// files. Fails with the error of the first entry, in the listing's order,
/// that could not be read or whose name is not valid text.
pub fn candidate_keys(listing: Vec<Listed>) -> (found: Result<Vec<String>, SyncError>)
    ensures
        match found {
            Ok(list) => candidates(listing_view(listing@)) == Ok::<Seq<Seq<char>>, SyncError>(
                name_views(list@),
            ),
            Err(error) => candidates(listing_view(listing@)) == Err::<Seq<Seq<char>>, SyncError>(
                error,
            ),
        },
{
    let ghost whole = listing_view(listing@);
    let mut list: Vec<String> = Vec::new();
    proof {
        assert(name_views(list@) =~= Seq::<Seq<char>>::empty());
        assert(whole.take(0) =~= Seq::<ListedView>::empty());
    }
    for entry in it: listing.into_iter()
        invariant
            it.seq() == listing@,
            whole == listing_view(listing@),
            candidates(whole.take(it.index() as int)) == Ok::<Seq<Seq<char>>, SyncError>(
                name_views(list@),
            ),
    {
        proof {
            let taken = whole.take(it.index() + 1);
            assert(taken.drop_last() =~= whole.take(it.index() as int));
            assert(taken.last() == entry@);
            lemma_candidates_stay_failed(taken, whole);
        }
        let ghost before = name_views(list@);
        match entry {
            Listed::File(name) => {
                list.push(name);
                assert(name_views(list@) =~= before.push(name@));
            },
            Listed::Garbled(shown) => {
                return Err(SyncError::Encoding(shown));
            },
            Listed::Other => {},
            Listed::Unreadable(error) => {
                return Err(error);
            },
        }
    }
    proof {
        assert(whole.take(whole.len() as int) =~= whole);
    }
    Ok(list)
}

/// Once a prefix of a listing has failed, the whole listing fails in the
/// same way.
pub proof fn lemma_candidates_stay_failed(prefix: Seq<ListedView>, listing: Seq<ListedView>)
    requires
        prefix.len() <= listing.len(),
        prefix =~= listing.take(prefix.len() as int),
    ensures
        candidates(prefix) is Err ==> candidates(listing) == candidates(prefix),
    decreases listing.len(),
{
    if prefix.len() < listing.len() {
        let shorter = listing.drop_last();
        assert(prefix =~= shorter.take(prefix.len() as int));
        lemma_candidates_stay_failed(prefix, shorter);
    } else {
        assert(prefix =~= listing);
    }
}

impl Library {
    /// The candidates that this replica does not track yet, each once, in
    /// the order of their first occurrence.
    pub fn unseen(&self, candidates: Vec<String>) -> (fresh: Vec<String>)
        ensures
            name_views(fresh@) == fresh_keys(name_views(candidates@), self@.dom()),
    {
        let ghost whole = name_views(candidates@);
        let mut fresh: Vec<String> = Vec::new();
        proof {
            assert(name_views(fresh@) =~= Seq::<Seq<char>>::empty());
            assert(whole.take(0) =~= Seq::<Seq<char>>::empty());
        }
        for name in it: candidates.into_iter()
            invariant
                it.seq() == candidates@,
                whole == name_views(candidates@),
                name_views(fresh@) == fresh_keys(whole.take(it.index() as int), self@.dom()),
        {
            proof {
                let taken = whole.take(it.index() + 1);
                assert(taken.drop_last() =~= whole.take(it.index() as int));
                assert(taken.last() == name@);
            }
            let ghost before = name_views(fresh@);
            if !self.contains(&name) && !occurs(&fresh, &name) {
                fresh.push(name);
                assert(name_views(fresh@) =~= before.push(name@));
            }
        }
        proof {
            assert(whole.take(whole.len() as int) =~= whole);
        }
        fresh
    }
}

} // verus!
