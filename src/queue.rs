//! The priority queues of the searches, kept in `priority_queue`'s indexed
//! queue. Each queue is seen through the map from its items to their costs;
//! the item of least cost leaves first (the queue is max-first, so costs are
//! stored as `Reverse(cost)`).

use priority_queue::PriorityQueue;
use std::cmp::Reverse;
use vstd::prelude::*;

verus! {

/// `priority_queue::PriorityQueue`, opaque: its contents are seen only
/// through the entry maps below.
#[verifier::external_type_specification]
#[verifier::external_body]
#[verifier::reject_recursive_types(I)]
#[verifier::reject_recursive_types(P)]
#[verifier::reject_recursive_types(H)]
pub struct ExPriorityQueue<I, P, H>(PriorityQueue<I, P, H>);

/// `std::cmp::Reverse`, opaque: it is built and taken apart only inside the
/// queue wrappers.
#[verifier::external_type_specification]
#[verifier::external_body]
#[verifier::reject_recursive_types(T)]
pub struct ExReverse<T>(Reverse<T>);

/// A cell as a pair of coordinates.
pub type CellKey = (i32, i32);

/// A queue of cells, each at most once, keyed by the cost of reaching it.
pub type CellQueue = PriorityQueue<CellKey, Reverse<i64>>;

/// The cells in a `CellQueue`, each with its cost.
pub uninterp spec fn cell_queue_entries(q: CellQueue) -> Map<CellKey, int>;

/// Relies on `PriorityQueue::new`: the new queue holds nothing.
#[verifier::external_body]
pub(crate) fn cell_queue_new() -> (r: CellQueue)
    ensures
        cell_queue_entries(r).dom() == Set::<CellKey>::empty(),
{
    PriorityQueue::new()
}

/// Relies on `PriorityQueue::push_increase`: an item that is absent is
/// inserted; one that is present has its priority raised when the new one is
/// greater (here: its cost lowered when the new cost is less), and is kept
/// unchanged otherwise.
#[verifier::external_body]
pub(crate) fn cell_queue_push_increase(q: &mut CellQueue, item: CellKey, cost: i64)
    ensures
        cell_queue_entries(*old(q)).contains_key(item) && cell_queue_entries(*old(q))[item]
            <= cost ==> cell_queue_entries(*final(q)) == cell_queue_entries(*old(q)),
        !(cell_queue_entries(*old(q)).contains_key(item) && cell_queue_entries(*old(q))[item]
            <= cost) ==> cell_queue_entries(*final(q)) == cell_queue_entries(*old(q)).insert(
            item,
            cost as int,
        ),
{
    q.push_increase(item, Reverse(cost));
}

/// Relies on `PriorityQueue::pop`: it removes and returns an item of greatest
/// priority (here: of least cost) with its priority, or `None` when the queue
/// is empty.
#[verifier::external_body]
pub(crate) fn cell_queue_pop(q: &mut CellQueue) -> (r: Option<(CellKey, i64)>)
    ensures
        r is None <==> cell_queue_entries(*old(q)).dom().len() == 0,
        r is None ==> cell_queue_entries(*final(q)) == cell_queue_entries(*old(q)),
        r matches Some((item, cost)) ==> {
            &&& cell_queue_entries(*old(q)).contains_key(item)
            &&& cell_queue_entries(*old(q))[item] == cost
            &&& forall|other: CellKey| #[trigger]
                cell_queue_entries(*old(q)).contains_key(other) ==> cost <= cell_queue_entries(
                    *old(q),
                )[other]
            &&& cell_queue_entries(*final(q)) == cell_queue_entries(*old(q)).remove(item)
        },
{
    match q.pop() {
        Some((item, cost)) => Some((item, cost.0)),
        None => None,
    }
}

/// A pivot cell and a target cell, as pairs of coordinates.
pub type PairKey = (CellKey, CellKey);

/// A queue of (pivot, target) pairs, each at most once, keyed by a distance.
pub type PairQueue = PriorityQueue<PairKey, Reverse<i64>>;

/// The pairs in a `PairQueue`, each with its distance.
pub uninterp spec fn pair_queue_entries(q: PairQueue) -> Map<PairKey, int>;

/// Relies on `PriorityQueue::new`: the new queue holds nothing.
#[verifier::external_body]
pub(crate) fn pair_queue_new() -> (r: PairQueue)
    ensures
        pair_queue_entries(r).dom() == Set::<PairKey>::empty(),
{
    PriorityQueue::new()
}

/// Relies on `PriorityQueue::push`: the item is inserted, or, when an equal
/// item is present, its priority is replaced by the new one.
#[verifier::external_body]
pub(crate) fn pair_queue_push(q: &mut PairQueue, item: PairKey, dist: i64)
    ensures
        pair_queue_entries(*final(q)) == pair_queue_entries(*old(q)).insert(item, dist as int),
{
    q.push(item, Reverse(dist));
}

/// Relies on `PriorityQueue::pop`: it removes and returns an item of greatest
/// priority (here: of least distance) with its priority, or `None` when the
/// queue is empty.
#[verifier::external_body]
pub(crate) fn pair_queue_pop(q: &mut PairQueue) -> (r: Option<(PairKey, i64)>)
    ensures
        r is None <==> pair_queue_entries(*old(q)).dom().len() == 0,
        r is None ==> pair_queue_entries(*final(q)) == pair_queue_entries(*old(q)),
        r matches Some((item, dist)) ==> {
            &&& pair_queue_entries(*old(q)).contains_key(item)
            &&& pair_queue_entries(*old(q))[item] == dist
            &&& forall|other: PairKey| #[trigger]
                pair_queue_entries(*old(q)).contains_key(other) ==> dist <= pair_queue_entries(
                    *old(q),
                )[other]
            &&& pair_queue_entries(*final(q)) == pair_queue_entries(*old(q)).remove(item)
        },
{
    match q.pop() {
        Some((item, dist)) => Some((item, dist.0)),
        None => None,
    }
}

/// A queue of paths, each a sequence of cells, keyed by the path's cost.
pub type PathQueue = PriorityQueue<Vec<CellKey>, Reverse<i64>>;

/// The paths in a `PathQueue`, each with its cost.
pub uninterp spec fn path_queue_entries(q: PathQueue) -> Map<Seq<CellKey>, int>;

/// Relies on `PriorityQueue::new`: the new queue holds nothing.
#[verifier::external_body]
pub(crate) fn path_queue_new() -> (r: PathQueue)
    ensures
        path_queue_entries(r).dom() == Set::<Seq<CellKey>>::empty(),
{
    PriorityQueue::new()
}

/// Relies on `PriorityQueue::push`: the item is inserted, or, when an equal
/// item is present, its priority is replaced by the new one. Two vectors are
/// equal when they hold equal elements in the same order.
#[verifier::external_body]
pub(crate) fn path_queue_push(q: &mut PathQueue, item: Vec<CellKey>, cost: i64)
    ensures
        path_queue_entries(*final(q)) == path_queue_entries(*old(q)).insert(item@, cost as int),
{
    q.push(item, Reverse(cost));
}

/// Relies on `PriorityQueue::pop`: it removes and returns an item of greatest
/// priority (here: of least cost) with its priority, or `None` when the queue
/// is empty.
#[verifier::external_body]
pub(crate) fn path_queue_pop(q: &mut PathQueue) -> (r: Option<(Vec<CellKey>, i64)>)
    ensures
        r is None <==> path_queue_entries(*old(q)).dom().len() == 0,
        r is None ==> path_queue_entries(*final(q)) == path_queue_entries(*old(q)),
        r matches Some((item, cost)) ==> {
            &&& path_queue_entries(*old(q)).contains_key(item@)
            &&& path_queue_entries(*old(q))[item@] == cost
            &&& forall|other: Seq<CellKey>| #[trigger]
                path_queue_entries(*old(q)).contains_key(other) ==> cost <= path_queue_entries(
                    *old(q),
                )[other]
            &&& path_queue_entries(*final(q)) == path_queue_entries(*old(q)).remove(item@)
        },
{
    match q.pop() {
        Some((item, cost)) => Some((item, cost.0)),
        None => None,
    }
}

} // verus!
