use vstd::prelude::*;
use priority_queue::PriorityQueue;
use std::cmp::Reverse;
use std::hash::Hash;

verus! {

#[verifier::external_type_specification]
#[verifier::external_body]
#[verifier::reject_recursive_types(T)]
pub struct ExReverse<T>(Reverse<T>);

#[verifier::external_type_specification]
#[verifier::external_body]
#[verifier::reject_recursive_types(I)]
#[verifier::reject_recursive_types(P)]
#[verifier::reject_recursive_types(H)]
pub struct ExPriorityQueue<I, P, H>(PriorityQueue<I, P, H>) where I: Hash + Eq, P: Ord;

/// What a distance queue holds: each queued index with the distance it was queued at.
pub uninterp spec fn queued(q: PriorityQueue<usize, Reverse<usize>>) -> Map<usize, usize>;

/// `PriorityQueue::new`: claimed to give a queue that holds nothing.
#[verifier::external_body]
pub(crate) fn queue_new() -> (fresh: PriorityQueue<usize, Reverse<usize>>)
    ensures
        queued(fresh) =~= Map::empty(),
{
    PriorityQueue::new()
}

/// `PriorityQueue::push` with priority `Reverse(distance)`: claimed to queue `item` at
/// `distance`, replacing the distance it was queued at before, if any.
#[verifier::external_body]
pub(crate) fn queue_push(q: &mut PriorityQueue<usize, Reverse<usize>>, item: usize, distance: usize)
    ensures
        queued(*final(q)) == queued(*old(q)).insert(item, distance),
{
    q.push(item, Reverse(distance));
}

/// `PriorityQueue::into_sorted_vec`: claimed to list every queued item once, from the
/// highest priority to the lowest, that is by ascending distance.  The order of items
/// queued at equal distances is left unsaid.
#[verifier::external_body]
pub(crate) fn queue_into_sorted_vec(q: PriorityQueue<usize, Reverse<usize>>) -> (v: Vec<usize>)
    ensures
        v@.no_duplicates(),
        forall|k: int| 0 <= k < v@.len() ==> queued(q).dom().contains(#[trigger] v@[k]),
        forall|x: usize| #[trigger] queued(q).dom().contains(x) ==> v@.contains(x),
        forall|i: int, j: int| 0 <= i < j < v@.len() ==> queued(q)[v@[i]] <= queued(q)[v@[j]],
{
    q.into_sorted_vec()
}

} // verus!
