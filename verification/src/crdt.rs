//! The interface of a replicated data type whose replicas converge by merging.

use vstd::prelude::*;

verus! {

/// A replicated data type: replicas start out empty and take in each
/// other's snapshots with [`CrdtPack::merge`].
///
/// An implementation says what a replica holds (`contents`), what a merge
/// yields (`join`), and proves that merging is idempotent and associative
/// and that the empty value is neutral. Those are the laws that make
/// replicas converge however often and in whatever grouping snapshots arrive.
pub trait CrdtPack: Sized {
    /// The mathematical value that a replica holds.
    type Contents;

    /// What this replica holds.
    spec fn contents(&self) -> Self::Contents;

    /// What a replica holds before anything was recorded.
    spec fn empty() -> Self::Contents;

    /// What a replica holding `local` holds after taking in `remote`.
    spec fn join(local: Self::Contents, remote: Self::Contents) -> Self::Contents;

    /// A replica that holds nothing yet.
    fn new() -> (fresh: Self)
        ensures
            fresh.contents() == Self::empty(),
    ;

    /// Takes in the snapshot `other`.
    fn merge(&mut self, other: Self)
        ensures
            final(self).contents() == Self::join(old(self).contents(), other.contents()),
    ;

    /// Decides what setting up a replica takes, given whether a durable
    /// state is there already: nothing where one is there, and else a fresh,
    /// empty state, which is to be stored once the directories that lead to
    /// its place exist.
    fn init(stored: bool) -> (fresh: Option<Self>)
        ensures
            stored ==> fresh is None,
            !stored ==> (fresh matches Some(state) && state.contents() == Self::empty()),
    {
        if stored {
            None
        } else {
            Some(Self::new())
        }
    }

    /// Taking in the same snapshot again changes nothing, and neither does
    /// taking in one's own value.
    proof fn join_is_idempotent(local: Self::Contents, remote: Self::Contents)
        ensures
            Self::join(Self::join(local, remote), remote) == Self::join(local, remote),
            Self::join(local, local) == local,
    ;

    /// Snapshots may be combined before they are taken in.
    proof fn join_is_associative(a: Self::Contents, b: Self::Contents, c: Self::Contents)
        ensures
            Self::join(Self::join(a, b), c) == Self::join(a, Self::join(b, c)),
    ;

    /// The empty value is neutral on both sides.
    proof fn join_with_empty(a: Self::Contents)
        ensures
            Self::join(a, Self::empty()) == a,
            Self::join(Self::empty(), a) == a,
    ;
}

} // verus!
