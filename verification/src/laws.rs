//! What holds of merging, stated over the mappings that replicas hold.

use crate::library::{absorb, lemma_absorb_is_merge, lemma_first_entry_is_value,
    lemma_names_are_keys, merged, names, to_map, Entries, Mapping};
use vstd::prelude::*;

verus! {

/// Taking in a snapshot a second time changes nothing.
pub proof fn lemma_merge_idempotent(local: Mapping, remote: Mapping)
    ensures
        merged(merged(local, remote), remote) == merged(local, remote),
{
    assert(merged(merged(local, remote), remote) =~= merged(local, remote));
}

/// Taking in one's own state changes nothing.
pub proof fn lemma_merge_self(state: Mapping)
    ensures
        merged(state, state) == state,
{
    assert(merged(state, state) =~= state);
}

/// Taking in a snapshot that holds nothing new changes nothing. This is the
/// case of a staged blob left over from an earlier cycle of the same replica.
pub proof fn lemma_merge_of_known(local: Mapping, remote: Mapping)
    requires
        remote.dom().subset_of(local.dom()),
    ensures
        merged(local, remote) == local,
{
    assert(merged(local, remote) =~= local);
}

/// Taking in two snapshots one after the other is taking in the first
/// merged with the second.
pub proof fn lemma_merge_associative(a: Mapping, b: Mapping, c: Mapping)
    ensures
        merged(merged(a, b), c) == merged(a, merged(b, c)),
{
    assert(merged(merged(a, b), c) =~= merged(a, merged(b, c)));
}

/// The empty mapping is neutral on both sides.
pub proof fn lemma_merge_empty(state: Mapping)
    ensures
        merged(state, Map::empty()) == state,
        merged(Map::empty(), state) == state,
{
    assert(merged(state, Map::empty()) =~= state);
    assert(merged(Map::empty(), state) =~= state);
}

/// A merge only adds: every pair that the replica held before is still
/// there, unaltered, and every name of the snapshot is tracked afterwards.
pub proof fn lemma_merge_grows(local: Mapping, remote: Mapping)
    ensures
        local.submap_of(merged(local, remote)),
        merged(local, remote).dom() == local.dom().union(remote.dom()),
{
    assert(merged(local, remote).dom() =~= local.dom().union(remote.dom()));
}

/// Under a name that both sides hold, the replica's own content wins; under
/// a name that only the snapshot holds, the snapshot's content is taken.
/// Once a name is tracked, no later merge changes its content.
pub proof fn lemma_merge_first_writer_wins(
    local: Mapping,
    remote: Mapping,
    later: Mapping,
    name: Seq<char>,
)
    ensures
        local.contains_key(name) ==> merged(local, remote)[name] == local[name],
        !local.contains_key(name) && remote.contains_key(name) ==> merged(local, remote)[name]
            == remote[name],
        merged(local, remote).contains_key(name) ==> merged(merged(local, remote), later)[name]
            == merged(local, remote)[name],
{
}

/// Two replicas that agree wherever both hold a name reach the same state
/// whichever of them takes in the other.
pub proof fn lemma_merge_commutes(a: Mapping, b: Mapping)
    requires
        a.agrees(b),
    ensures
        merged(a, b) == merged(b, a),
{
    assert(merged(a, b) =~= merged(b, a));
}

/// Two replicas that recorded disjoint sets of names and then take in each
/// other's state end up with the same names and contents, in whichever
/// order they do so and however often they repeat it.
pub proof fn lemma_disjoint_replicas_converge(a: Mapping, b: Mapping)
    requires
        a.dom().disjoint(b.dom()),
    ensures
        merged(a, b) == merged(b, a),
        merged(b, merged(a, b)) == merged(a, b),
        merged(a, merged(b, a)) == merged(a, b),
        merged(merged(a, b), merged(b, a)) == merged(a, b),
        merged(merged(a, b), b) == merged(a, b),
        merged(merged(b, a), a) == merged(a, b),
{
    assert(a.agrees(b));
    let both = merged(a, b);
    assert(merged(b, a) =~= both);
    assert(merged(b, both) =~= both);
    assert(merged(a, both) =~= both);
    assert(merged(both, both) =~= both);
    assert(merged(both, b) =~= both);
    assert(merged(both, a) =~= both);
}

/// The order of the entries is not significant. Two lists of distinct
/// names that hold the same pairs stand for the same mapping, and a state
/// that is rebuilt from the pairs of another, taken in any order, tracks
/// what the other tracks: storing a state and reading it back loses nothing.
pub proof fn lemma_order_is_not_significant(one: Entries, other: Entries)
    requires
        names(one).no_duplicates(),
        names(other).no_duplicates(),
        one.to_set() == other.to_set(),
    ensures
        to_map(one) == to_map(other),
        to_map(absorb(Seq::empty(), other)) == to_map(one),
{
    lemma_half_of_order(one, other);
    lemma_half_of_order(other, one);
    assert(to_map(one) =~= to_map(other));
    lemma_absorb_is_merge(Seq::empty(), other);
    lemma_merge_empty(to_map(other));
}

/// Every pair of one list of distinct names is a pair of the mapping of
/// another such list that holds the same pairs.
proof fn lemma_half_of_order(one: Entries, other: Entries)
    requires
        names(one).no_duplicates(),
        names(other).no_duplicates(),
        one.to_set() == other.to_set(),
    ensures
        forall|name: Seq<char>| #[trigger]
            to_map(one).contains_key(name) ==> to_map(other).contains_key(name) && to_map(
                other,
            )[name] == to_map(one)[name],
{
    assert forall|name: Seq<char>| #[trigger] to_map(one).contains_key(name) implies to_map(
        other,
    ).contains_key(name) && to_map(other)[name] == to_map(one)[name] by {
        lemma_names_are_keys(one, name);
        let i = choose|i: int| 0 <= i < names(one).len() && names(one)[i] == name;
        assert forall|k: int| 0 <= k < i implies one[k].0 != one[i].0 by {
            assert(names(one)[k] == one[k].0 && names(one)[i] == one[i].0);
        }
        lemma_first_entry_is_value(one, i);
        assert(one.to_set().contains(one[i]));
        assert(other.contains(one[i]));
        let j = choose|j: int| 0 <= j < other.len() && other[j] == one[i];
        assert forall|k: int| 0 <= k < j implies other[k].0 != other[j].0 by {
            assert(names(other)[k] == other[k].0 && names(other)[j] == other[j].0);
        }
        lemma_first_entry_is_value(other, j);
    }
}

} // verus!
