//! The replicated state: a grow-only mapping from file names to contents.

use crate::crdt::CrdtPack;
use crate::laws::{lemma_merge_associative, lemma_merge_empty, lemma_merge_idempotent,
    lemma_merge_self};
use vstd::prelude::*;

verus! {

/// A file's name and contents.
pub type Entry = (Seq<char>, Seq<u8>);

/// A list of entries, in the order in which they were recorded.
pub type Entries = Seq<Entry>;

/// A mapping from names to contents.
pub type Mapping = Map<Seq<char>, Seq<u8>>;

/// What an entry list means as a mapping: each name maps to the content of
/// its first occurrence in the list.
pub open spec fn to_map(entries: Entries) -> Mapping
    decreases entries.len(),
{
    if entries.len() == 0 {
        Map::empty()
    } else {
        let earlier = to_map(entries.drop_last());
        let entry = entries.last();
        if earlier.contains_key(entry.0) {
            earlier
        } else {
            earlier.insert(entry.0, entry.1)
        }
    }
}

/// The names of an entry list, in order.
pub open spec fn names(entries: Entries) -> Seq<Seq<char>> {
    entries.map_values(|e: Entry| e.0)
}

/// The entry list after recording `content` under `name`: the pair is
/// appended when the name is new, and the list is left alone otherwise.
pub open spec fn put(entries: Entries, name: Seq<char>, content: Seq<u8>) -> Entries {
    if names(entries).contains(name) {
        entries
    } else {
        entries.push((name, content))
    }
}

/// A name occurs in an entry list exactly when the list's mapping has it as a key.
pub proof fn lemma_names_are_keys(entries: Entries, name: Seq<char>)
    ensures
        names(entries).contains(name) <==> to_map(entries).contains_key(name),
    decreases entries.len(),
{
    if entries.len() > 0 {
        let earlier = entries.drop_last();
        lemma_names_are_keys(earlier, name);
        if names(entries).contains(name) {
            let i = choose|i: int| 0 <= i < names(entries).len() && names(entries)[i] == name;
            if i < earlier.len() {
                assert(names(earlier)[i] == name);
            }
        }
        if names(earlier).contains(name) {
            let i = choose|i: int| 0 <= i < names(earlier).len() && names(earlier)[i] == name;
            assert(names(entries)[i] == name);
        }
        if entries.last().0 == name {
            assert(names(entries)[entries.len() - 1] == name);
        }
    }
}

/// The first entry under a name is the one the mapping reports.
pub proof fn lemma_first_entry_is_value(entries: Entries, i: int)
    requires
        0 <= i < entries.len(),
        forall|j: int| 0 <= j < i ==> entries[j].0 != entries[i].0,
    ensures
        to_map(entries).contains_key(entries[i].0),
        to_map(entries)[entries[i].0] == entries[i].1,
    decreases entries.len(),
{
    let earlier = entries.drop_last();
    if i < entries.len() - 1 {
        lemma_first_entry_is_value(earlier, i);
    } else {
        lemma_names_are_keys(earlier, entries[i].0);
        if names(earlier).contains(entries[i].0) {
            let j = choose|j: int| 0 <= j < names(earlier).len() && names(earlier)[j] == entries[i].0;
            assert(entries[j].0 == entries[i].0);
        }
    }
}

/// A list of distinct names has as many entries as its mapping has keys.
pub proof fn lemma_distinct_names_count(entries: Entries)
    requires
        names(entries).no_duplicates(),
    ensures
        to_map(entries).dom().finite(),
        to_map(entries).dom().len() == entries.len(),
    decreases entries.len(),
{
    if entries.len() > 0 {
        let earlier = entries.drop_last();
        let last = entries.last();
        assert(names(earlier) =~= names(entries).drop_last());
        lemma_distinct_names_count(earlier);
        lemma_names_are_keys(earlier, last.0);
        if names(earlier).contains(last.0) {
            let j = choose|j: int| 0 <= j < names(earlier).len() && names(earlier)[j] == last.0;
            assert(names(entries)[j] == names(entries)[entries.len() - 1]);
        }
    }
}

/// Recording a pair inserts it into the mapping when the name is new and
/// changes nothing otherwise.
pub proof fn lemma_put_is_insert_if_absent(entries: Entries, name: Seq<char>, content: Seq<u8>)
    ensures
        to_map(put(entries, name, content)) == if to_map(entries).contains_key(name) {
            to_map(entries)
        } else {
            to_map(entries).insert(name, content)
        },
        names(entries).no_duplicates() ==> names(put(entries, name, content)).no_duplicates(),
{
    lemma_names_are_keys(entries, name);
    if !names(entries).contains(name) {
        let longer = entries.push((name, content));
        assert(longer.drop_last() =~= entries);
        assert(names(longer) =~= names(entries).push(name));
    }
}

/// The mapping that results when a replica holding `local` takes in the
/// snapshot `remote`: every name of either, with the local content wherever
/// the local replica already has the name.
pub open spec fn merged(local: Mapping, remote: Mapping) -> Mapping {
    remote.union_prefer_right(local)
}

/// The entry list after taking in `remote` entry by entry, in order.
pub open spec fn absorb(local: Entries, remote: Entries) -> Entries
    decreases remote.len(),
{
    if remote.len() == 0 {
        local
    } else {
        put(absorb(local, remote.drop_last()), remote.last().0, remote.last().1)
    }
}

/// Taking in a snapshot entry by entry yields the merged mapping, and keeps
/// names distinct.
pub proof fn lemma_absorb_is_merge(local: Entries, remote: Entries)
    ensures
        to_map(absorb(local, remote)) == merged(to_map(local), to_map(remote)),
        names(local).no_duplicates() ==> names(absorb(local, remote)).no_duplicates(),
    decreases remote.len(),
{
    if remote.len() == 0 {
        assert(to_map(local) =~= merged(to_map(local), to_map(remote)));
    } else {
        let earlier = remote.drop_last();
        let last = remote.last();
        lemma_absorb_is_merge(local, earlier);
        lemma_put_is_insert_if_absent(absorb(local, earlier), last.0, last.1);
        assert(to_map(absorb(local, remote)) =~= merged(to_map(local), to_map(remote)));
    }
}

/// The replicated state of one replica: file names, each with the content
/// it was first recorded with. Entries are only ever added.
#[derive(Debug)]
pub struct Library {
    set: Vec<(String, Vec<u8>)>,
}

impl View for Library {
    type V = Mapping;

    /// The mapping from names to contents.
    open spec fn view(&self) -> Mapping {
        to_map(self.entries())
    }
}

impl Library {
    /// The entries in the order in which they were recorded.
    pub closed spec fn entries(&self) -> Entries {
        self.set@.map_values(|e: (String, Vec<u8>)| (e.0@, e.1@))
    }

    #[verifier::type_invariant]
    spec fn names_distinct(&self) -> bool {
        names(self.entries()).no_duplicates()
    }

    /// The position of `name` among the entries, if it is tracked.
    pub fn position(&self, name: &String) -> (found: Option<usize>)
        ensures
            found is Some <==> self@.contains_key(name@),
            found matches Some(i) ==> {
                &&& i < self.entries().len()
                &&& self.entries()[i as int].0 == name@
                &&& self.entries()[i as int].1 == self@[name@]
            },
    {
        let mut i: usize = 0;
        while i < self.set.len()
            invariant
                i <= self.set.len(),
                forall|j: int| 0 <= j < i ==> self.entries()[j].0 != name@,
            decreases self.set.len() - i,
        {
            if self.set[i].0 == *name {
                proof {
                    lemma_first_entry_is_value(self.entries(), i as int);
                }
                return Some(i);
            }
            i += 1;
        }
        proof {
            lemma_names_are_keys(self.entries(), name@);
        }
        None
    }

    /// Whether `name` is tracked.
    pub fn contains(&self, name: &String) -> (present: bool)
        ensures
            present == self@.contains_key(name@),
    {
        self.position(name).is_some()
    }

    /// The content recorded under `name`, if it is tracked.
    pub fn get(&self, name: &String) -> (content: Option<&Vec<u8>>)
        ensures
            content is Some <==> self@.contains_key(name@),
            content matches Some(bytes) ==> bytes@ == self@[name@],
    {
        match self.position(name) {
            Some(i) => Some(&self.set[i].1),
            None => None,
        }
    }

    /// The number of tracked names.
    pub fn len(&self) -> (count: usize)
        ensures
            count == self.entries().len(),
            self@.dom().finite(),
            count == self@.dom().len(),
            names(self.entries()).no_duplicates(),
    {
        proof {
            use_type_invariant(self);
            lemma_distinct_names_count(self.entries());
        }
        self.set.len()
    }

    /// Whether nothing is tracked.
    pub fn is_empty(&self) -> (empty: bool)
        ensures
            empty == (self.entries().len() == 0),
            empty == (self@ == Mapping::empty()),
    {
        proof {
            if self.entries().len() > 0 {
                lemma_first_entry_is_value(self.entries(), 0);
            } else {
                assert(self@ =~= Mapping::empty());
            }
        }
        self.set.len() == 0
    }

    /// The name of the entry at `index`, in recording order.
    pub fn name_at(&self, index: usize) -> (name: &String)
        requires
            index < self.entries().len(),
        ensures
            name@ == self.entries()[index as int].0,
            self@.contains_key(name@),
    {
        proof {
            lemma_names_are_keys(self.entries(), self.entries()[index as int].0);
            assert(names(self.entries())[index as int] == self.entries()[index as int].0);
        }
        &self.set[index].0
    }

    /// The content of the entry at `index`, in recording order.
    pub fn content_at(&self, index: usize) -> (content: &Vec<u8>)
        requires
            index < self.entries().len(),
        ensures
            content@ == self.entries()[index as int].1,
            content@ == self@[self.entries()[index as int].0],
    {
        proof {
            use_type_invariant(self);
            let entries = self.entries();
            assert forall|j: int| 0 <= j < index implies entries[j].0 != entries[index as int].0 by {
                assert(names(entries)[j] == entries[j].0);
                assert(names(entries)[index as int] == entries[index as int].0);
            }
            lemma_first_entry_is_value(entries, index as int);
        }
        &self.set[index].1
    }

    /// Records `content` under `name` unless the name is already tracked, in
    /// which case the existing entry stays as it is. Says whether the entry
    /// was added.
    pub fn insert(&mut self, name: String, content: Vec<u8>) -> (added: bool)
        ensures
            added == !old(self)@.contains_key(name@),
            final(self).entries() == put(old(self).entries(), name@, content@),
            final(self)@ == if added {
                old(self)@.insert(name@, content@)
            } else {
                old(self)@
            },
    {
        proof {
            use_type_invariant(&*self);
            lemma_put_is_insert_if_absent(self.entries(), name@, content@);
            lemma_names_are_keys(self.entries(), name@);
        }
        if self.contains(&name) {
            false
        } else {
            let ghost before = self.entries();
            let mut set: Vec<(String, Vec<u8>)> = Vec::new();
            std::mem::swap(&mut set, &mut self.set);
            set.push((name, content));
            proof {
                assert(set@.map_values(|e: (String, Vec<u8>)| (e.0@, e.1@)) =~= before.push(
                    (name@, content@),
                ));
            }
            self.set = set;
            true
        }
    }
}

impl CrdtPack for Library {
    type Contents = Mapping;

    open spec fn contents(&self) -> Mapping {
        self@
    }

    open spec fn empty() -> Mapping {
        Map::empty()
    }

    open spec fn join(local: Mapping, remote: Mapping) -> Mapping {
        merged(local, remote)
    }

    /// An empty state, for a replica that has no durable copy yet.
    fn new() -> (fresh: Library)
        ensures
            fresh.entries() == Entries::empty(),
    {
        let fresh = Library { set: Vec::new() };
        assert(fresh.entries() =~= Entries::empty());
        fresh
    }

    /// Takes in a snapshot of another replica: every name that is not
    /// tracked yet is added with the snapshot's content, in the snapshot's
    /// order, and every entry that is already tracked stays as it is.
    fn merge(&mut self, other: Library)
        ensures
            final(self).entries() == absorb(old(self).entries(), other.entries()),
    {
        let ghost local = self.entries();
        let ghost remote = other.entries();
        let incoming = other.set;
        for entry in it: incoming.into_iter()
            invariant
                it.seq() == incoming@,
                remote == incoming@.map_values(|e: (String, Vec<u8>)| (e.0@, e.1@)),
                self.entries() == absorb(local, remote.take(it.index() as int)),
        {
            proof {
                let taken = remote.take(it.index() + 1);
                assert(taken.drop_last() =~= remote.take(it.index() as int));
                assert(taken.last() == (entry.0@, entry.1@));
            }
            self.insert(entry.0, entry.1);
        }
        proof {
            assert(remote.take(remote.len() as int) =~= remote);
            lemma_absorb_is_merge(local, remote);
        }
    }

    proof fn join_is_idempotent(local: Mapping, remote: Mapping) {
        lemma_merge_idempotent(local, remote);
        lemma_merge_self(local);
    }

    proof fn join_is_associative(
        a: Mapping,
        b: Mapping,
        c: Mapping,
    ) {
        lemma_merge_associative(a, b, c);
    }

    proof fn join_with_empty(a: Mapping) {
        lemma_merge_empty(a);
    }
}

} // verus!
