//! The action range: the cells at a Manhattan distance within `[min, max]`
//! of some pivot cell, found by walking the grid outwards from every pivot at
//! once, nearest first.

use crate::geometry::{
    cells_in, contains_cell, get_neighbours, lemma_adjacent_is_neighbour, lemma_cells_in_finite,
    lemma_neighbours_in_bounds, manhattan, neighbours, Bounds, Cell,
};
use crate::queue::{pair_queue_entries, pair_queue_new, pair_queue_pop, pair_queue_push, CellKey, PairKey};
use crate::route::{cell_of, key};
use vstd::prelude::*;
use vstd::seq_lib::*;
use vstd::set_lib::*;

verus! {

/// `c` is in the ring of pivot `p`: at a distance within `[min, max]`, and
/// either both lie in the rectangle or `c` is the pivot itself (a pivot
/// outside the rectangle has no neighbours to walk to).
pub open spec fn ring_member(p: Cell, min: int, max: int, bounds: Bounds, c: Cell) -> bool {
    &&& min <= manhattan(p, c) <= max
    &&& (bounds.holds(p) && bounds.holds(c)) || c == p
}

/// `c` is in the ring of one of the pivots.
pub open spec fn in_action_range(pivots: Seq<Cell>, min: int, max: int, bounds: Bounds, c: Cell) -> bool {
    exists|i: int| 0 <= i < pivots.len() && #[trigger] ring_member(pivots[i], min, max, bounds, c)
}

/// The distance from the pivot of a pair to its target.
pub open spec fn pair_dist(pr: PairKey) -> int {
    manhattan(cell_of(pr.0), cell_of(pr.1))
}

pub open spec fn seed(c: Cell) -> PairKey {
    (key(c), key(c))
}

/// A pair is its pivot twice, or both its members lie in the rectangle.
pub open spec fn pair_shape(pr: PairKey, bounds: Bounds) -> bool {
    pr.1 == pr.0 || (bounds.holds(cell_of(pr.0)) && bounds.holds(cell_of(pr.1)))
}

/// The pairs whose two members lie in `a` and `b`.
pub open spec fn pairs(a: Set<CellKey>, b: Set<CellKey>) -> Set<PairKey> {
    Set::new(|pr: PairKey| a.contains(pr.0) && b.contains(pr.1))
}

/// The cells that the search can meet: those of the rectangle and the pivots.
pub open spec fn search_region(pivots: Seq<Cell>, bounds: Bounds) -> Set<CellKey> {
    cells_in(bounds).map(|c: Cell| key(c)).union(pivots.to_set().map(|c: Cell| key(c)))
}

/// What the search knows of its queue, of the pairs it has queued at some
/// time (`queued`), of those it has processed and of the cells accepted.
pub open spec fn action_ok(
    pivots: Seq<Cell>,
    min: int,
    max: int,
    bounds: Bounds,
    entries: Map<PairKey, int>,
    processed: Set<PairKey>,
    queued: Seq<PairKey>,
    accepted: Seq<Cell>,
) -> bool {
    let universe = pairs(search_region(pivots, bounds), search_region(pivots, bounds));
    &&& entries.dom().finite()
    &&& processed.finite()
    &&& processed.subset_of(universe)
    &&& accepted.no_duplicates()
    &&& forall|c: Cell| #[trigger]
        accepted.contains(c) ==> exists|pr: PairKey| #[trigger]
            processed.contains(pr) && cell_of(pr.1) == c && min <= pair_dist(pr) <= max
    &&& forall|pr: PairKey| #[trigger]
        entries.contains_key(pr) ==> {
            &&& pivots.contains(cell_of(pr.0))
            &&& entries[pr] == pair_dist(pr)
            &&& universe.contains(pr)
            &&& !processed.contains(pr)
            &&& queued.contains(pr)
            &&& pair_shape(pr, bounds)
        }
    &&& forall|pr: PairKey| #[trigger]
        processed.contains(pr) ==> {
            &&& pivots.contains(cell_of(pr.0))
            &&& pair_dist(pr) <= max
            &&& (pair_dist(pr) >= min ==> accepted.contains(cell_of(pr.1)))
            &&& queued.contains(pr)
            &&& pair_shape(pr, bounds)
        }
    &&& forall|pr: PairKey| #[trigger]
        queued.contains(pr) ==> entries.contains_key(pr) || processed.contains(pr) || pair_dist(pr) > max
    &&& forall|i: int| 0 <= i < pivots.len() ==> queued.contains(seed(#[trigger] pivots[i]))
}

/// The neighbours of the target of every processed pair outside `open` have
/// been queued for the same pivot.
pub open spec fn action_closed(
    bounds: Bounds,
    processed: Set<PairKey>,
    queued: Seq<PairKey>,
    open: Set<PairKey>,
) -> bool {
    forall|pr: PairKey, n: Cell|
        #![trigger processed.contains(pr), neighbours(cell_of(pr.1), bounds).contains(n)]
        processed.contains(pr) && !open.contains(pr) && neighbours(cell_of(pr.1), bounds).contains(n)
            ==> queued.contains((pr.0, key(n)))
}

/// Once the queue is empty, for a pivot inside the rectangle every cell of
/// the rectangle within `max` of it has been processed with it.
proof fn lemma_pivot_processed(
    pivots: Seq<Cell>,
    min: int,
    max: int,
    bounds: Bounds,
    entries: Map<PairKey, int>,
    processed: Set<PairKey>,
    queued: Seq<PairKey>,
    accepted: Seq<Cell>,
    i: int,
    c: Cell,
)
    requires
        bounds.wf(),
        0 <= i < pivots.len(),
        bounds.holds(pivots[i]),
        action_ok(pivots, min, max, bounds, entries, processed, queued, accepted),
        action_closed(bounds, processed, queued, Set::empty()),
        entries.dom() == Set::<PairKey>::empty(),
        bounds.holds(c),
        manhattan(pivots[i], c) <= max,
    ensures
        processed.contains((key(pivots[i]), key(c))),
    decreases manhattan(pivots[i], c),
{
    let p = pivots[i];
    let d = manhattan(p, c);
    if d == 0 {
        assert(c == p);
        assert(queued.contains(seed(pivots[i])));
        assert(!entries.contains_key(seed(pivots[i])));
    } else {
        let c2 = if c.x > p.x {
            Cell { x: (c.x - 1) as i32, y: c.y }
        } else if c.x < p.x {
            Cell { x: (c.x + 1) as i32, y: c.y }
        } else if c.y > p.y {
            Cell { x: c.x, y: (c.y - 1) as i32 }
        } else {
            Cell { x: c.x, y: (c.y + 1) as i32 }
        };
        assert(manhattan(p, c2) == d - 1);
        assert(bounds.holds(c2));
        assert(manhattan(c2, c) == 1);
        lemma_pivot_processed(pivots, min, max, bounds, entries, processed, queued, accepted, i, c2);
        lemma_adjacent_is_neighbour(c2, bounds, c);
        let pr = (key(p), key(c2));
        assert(cell_of(pr.1) == c2);
        assert(processed.contains(pr) && neighbours(cell_of(pr.1), bounds).contains(c));
        let target = (key(p), key(c));
        assert(queued.contains(target));
        assert(pair_dist(target) == d);
        assert(!entries.contains_key(target));
    }
}

/// The action range of a list of pivots is the union of the action ranges
/// of its parts.
pub proof fn lemma_action_range_union(
    first: Seq<Cell>,
    second: Seq<Cell>,
    min: int,
    max: int,
    bounds: Bounds,
    c: Cell,
)
    ensures
        in_action_range(first + second, min, max, bounds, c) <==> in_action_range(first, min, max, bounds, c)
            || in_action_range(second, min, max, bounds, c),
{
    let all = first + second;
    if in_action_range(all, min, max, bounds, c) {
        let i = choose|i: int| 0 <= i < all.len() && #[trigger] ring_member(all[i], min, max, bounds, c);
        if i < first.len() {
            assert(first[i] == all[i]);
        } else {
            assert(second[i - first.len()] == all[i]);
        }
    }
    if in_action_range(first, min, max, bounds, c) {
        let i = choose|i: int| 0 <= i < first.len() && #[trigger] ring_member(first[i], min, max, bounds, c);
        assert(all[i] == first[i]);
    }
    if in_action_range(second, min, max, bounds, c) {
        let i = choose|i: int| 0 <= i < second.len() && #[trigger] ring_member(second[i], min, max, bounds, c);
        assert(all[first.len() + i] == second[i]);
    }
}

/// The action range depends only on which cells are pivots, not on their
/// order or repetition.
pub proof fn lemma_action_range_same_pivots(
    first: Seq<Cell>,
    second: Seq<Cell>,
    min: int,
    max: int,
    bounds: Bounds,
    c: Cell,
)
    requires
        first.to_set() == second.to_set(),
    ensures
        in_action_range(first, min, max, bounds, c) <==> in_action_range(second, min, max, bounds, c),
{
    if in_action_range(first, min, max, bounds, c) {
        let i = choose|i: int| 0 <= i < first.len() && #[trigger] ring_member(first[i], min, max, bounds, c);
        assert(first.to_set().contains(first[i]));
        assert(second.to_set().contains(first[i]));
        let j = choose|j: int| 0 <= j < second.len() && second[j] == first[i];
        assert(ring_member(second[j], min, max, bounds, c));
    }
    if in_action_range(second, min, max, bounds, c) {
        let i = choose|i: int| 0 <= i < second.len() && #[trigger] ring_member(second[i], min, max, bounds, c);
        assert(second.to_set().contains(second[i]));
        assert(first.to_set().contains(second[i]));
        let j = choose|j: int| 0 <= j < first.len() && first[j] == second[i];
        assert(ring_member(first[j], min, max, bounds, c));
    }
}

/// Widening the interval keeps every cell of the action range.
pub proof fn lemma_action_range_widen(
    pivots: Seq<Cell>,
    min: int,
    max: int,
    wider_min: int,
    wider_max: int,
    bounds: Bounds,
    c: Cell,
)
    requires
        wider_min <= min,
        max <= wider_max,
        in_action_range(pivots, min, max, bounds, c),
    ensures
        in_action_range(pivots, wider_min, wider_max, bounds, c),
{
    let i = choose|i: int| 0 <= i < pivots.len() && #[trigger] ring_member(pivots[i], min, max, bounds, c);
    assert(ring_member(pivots[i], wider_min, wider_max, bounds, c));
}

proof fn lemma_pairs_finite(a: Set<CellKey>, b: Set<CellKey>)
    requires
        a.finite(),
        b.finite(),
    ensures
        pairs(a, b).finite(),
    decreases a.len(),
{
    if a.len() == 0 {
        a.lemma_len0_is_empty();
        assert(pairs(a, b) =~= Set::<PairKey>::empty());
    } else {
        let x = a.choose();
        lemma_pairs_finite(a.remove(x), b);
        let row = b.map(|y: CellKey| (x, y));
        b.lemma_map_finite(|y: CellKey| (x, y));
        assert forall|pr: PairKey| #[trigger] pairs(a, b).contains(pr) implies pairs(a.remove(x), b).union(
            row,
        ).contains(pr) by {
            if pr.0 == x {
                assert(b.contains(pr.1));
                assert(pr == (|y: CellKey| (x, y))(pr.1));
            }
        }
        assert(pairs(a, b) =~= pairs(a.remove(x), b).union(row));
    }
}

proof fn lemma_universe_finite(pivots: Seq<Cell>, bounds: Bounds)
    requires
        bounds.wf(),
    ensures
        search_region(pivots, bounds).finite(),
        pairs(search_region(pivots, bounds), search_region(pivots, bounds)).finite(),
{
    lemma_cells_in_finite(bounds);
    cells_in(bounds).lemma_map_finite(|c: Cell| key(c));
    seq_to_set_is_finite(pivots);
    pivots.to_set().lemma_map_finite(|c: Cell| key(c));
    lemma_pairs_finite(search_region(pivots, bounds), search_region(pivots, bounds));
}

proof fn lemma_in_region(pivots: Seq<Cell>, bounds: Bounds, c: Cell)
    requires
        bounds.holds(c) || pivots.contains(c),
    ensures
        search_region(pivots, bounds).contains(key(c)),
{
    if bounds.holds(c) {
        assert(cells_in(bounds).contains(c));
        assert(cells_in(bounds).map(|c: Cell| key(c)).contains(key(c)));
    } else {
        assert(pivots.to_set().contains(c));
        assert(pivots.to_set().map(|c: Cell| key(c)).contains(key(c)));
    }
}

/// The Manhattan distance, in a type wide enough for any two cells.
fn distance_wide(a: Cell, b: Cell) -> (r: i64)
    ensures
        r == manhattan(a, b),
{
    let dx: i64 = a.x as i64 - b.x as i64;
    let dy: i64 = a.y as i64 - b.y as i64;
    let ax: i64 = if dx < 0 {
        -dx
    } else {
        dx
    };
    let ay: i64 = if dy < 0 {
        -dy
    } else {
        dy
    };
    ax + ay
}


/// Whether `pr` occurs in `v`.
fn contains_pair(v: &Vec<PairKey>, pr: PairKey) -> (r: bool)
    ensures
        r == v@.contains(pr),
{
    let mut i: usize = 0;
    while i < v.len()
        invariant
            0 <= i <= v@.len(),
            forall|j: int| 0 <= j < i ==> v@[j] != pr,
        decreases v@.len() - i,
    {
        let q = v[i];
        if q.0.0 == pr.0.0 && q.0.1 == pr.0.1 && q.1.0 == pr.1.0 && q.1.1 == pr.1.1 {
            assert(v@[i as int] == pr);
            return true;
        }
        i = i + 1;
    }
    false
}

/// The cells at a Manhattan distance within `[min_range, max_range]` of some
/// pivot, found by walking the grid through `bounds` outwards from every pivot
/// at once, nearest first. Each (pivot, cell) pair is queued at most once; a
/// pair beyond `max_range` is not walked on; a cell at a distance within the
/// interval is accepted once. A pivot outside `bounds` contributes only
/// itself. The cells come each once, in no particular order.
pub fn compute_action_range(pivots: &Vec<Cell>, min_range: i32, max_range: i32, bounds: Bounds) -> (r:
    Vec<Cell>)
    requires
        bounds.wf(),
    ensures
        r@.no_duplicates(),
        forall|c: Cell| #[trigger]
            r@.contains(c) <==> in_action_range(pivots@, min_range as int, max_range as int, bounds, c),
{
    let ghost min = min_range as int;
    let ghost max = max_range as int;
    let ghost universe = pairs(search_region(pivots@, bounds), search_region(pivots@, bounds));
    proof {
        lemma_universe_finite(pivots@, bounds);
    }
    let mut queue = pair_queue_new();
    let mut queued: Vec<PairKey> = Vec::new();
    let mut i: usize = 0;
    while i < pivots.len()
        invariant
            0 <= i <= pivots@.len(),
            pair_queue_entries(queue).dom().finite(),
            forall|pr: PairKey| #[trigger]
                pair_queue_entries(queue).contains_key(pr) ==> pr.0 == pr.1 && pivots@.contains(
                    cell_of(pr.0),
                ) && pair_queue_entries(queue)[pr] == 0 && queued@.contains(pr),
            forall|pr: PairKey| #[trigger] queued@.contains(pr) ==> pair_queue_entries(queue).contains_key(pr),
            forall|j: int| 0 <= j < i ==> queued@.contains(seed(#[trigger] pivots@[j])),
        decreases pivots@.len() - i,
    {
        let p = pivots[i];
        let s: PairKey = ((p.x, p.y), (p.x, p.y));
        let ghost q0 = queued@;
        proof {
            assert(cell_of((p.x, p.y)) == p);
            assert(pivots@.contains(p));
            assert(s == seed(p));
        }
        if !contains_pair(&queued, s) {
            queued.push(s);
            pair_queue_push(&mut queue, s, 0);
            proof {
                assert(queued@[queued@.len() - 1] == s);
                assert forall|pr: PairKey| q0.contains(pr) implies #[trigger] queued@.contains(pr) by {
                    let w = choose|w: int| 0 <= w < q0.len() && q0[w] == pr;
                    assert(queued@[w] == pr);
                }
                assert forall|pr: PairKey| #[trigger] queued@.contains(pr) implies q0.contains(pr) || pr == s by {
                    let w = choose|w: int| 0 <= w < queued@.len() && queued@[w] == pr;
                    if w < q0.len() {
                        assert(q0[w] == pr);
                    }
                }
            }
        }
        i = i + 1;
    }
    let mut accepted: Vec<Cell> = Vec::new();
    let ghost mut processed: Set<PairKey> = Set::empty();
    proof {
        let e = pair_queue_entries(queue);
        assert forall|pr: PairKey| #[trigger] e.contains_key(pr) implies {
            &&& pivots@.contains(cell_of(pr.0))
            &&& e[pr] == pair_dist(pr)
            &&& universe.contains(pr)
            &&& !processed.contains(pr)
            &&& queued@.contains(pr)
            &&& pair_shape(pr, bounds)
        } by {
            lemma_in_region(pivots@, bounds, cell_of(pr.0));
        }
    }
    loop
        invariant
            bounds.wf(),
            min == min_range,
            max == max_range,
            universe == pairs(search_region(pivots@, bounds), search_region(pivots@, bounds)),
            universe.finite(),
            processed.len() <= universe.len(),
            action_ok(pivots@, min, max, bounds, pair_queue_entries(queue), processed, queued@, accepted@),
            action_closed(bounds, processed, queued@, Set::empty()),
        ensures
            action_ok(pivots@, min, max, bounds, pair_queue_entries(queue), processed, queued@, accepted@),
            action_closed(bounds, processed, queued@, Set::empty()),
            pair_queue_entries(queue).dom().len() == 0,
        decreases universe.len() - processed.len(), pair_queue_entries(queue).dom().len(),
    {
        let ghost prev = pair_queue_entries(queue);
        match pair_queue_pop(&mut queue) {
            None => {
                break ;
            },
            Some((item, dist)) => {
                let pivot = Cell { x: item.0.0, y: item.0.1 };
                let target = Cell { x: item.1.0, y: item.1.1 };
                proof {
                    assert(cell_of(item.0) == pivot);
                    assert(cell_of(item.1) == target);
                    assert(prev.contains_key(item));
                }
                if dist <= max_range as i64 {
                    let ghost accepted_before = accepted@;
                    let ghost old_processed = processed;
                    proof {
                        processed = processed.insert(item);
                        lemma_len_subset(processed, universe);
                    }
                    if !contains_cell(&accepted, target) && dist >= min_range as i64 {
                        accepted.push(target);
                    }
                    proof {
                        let e = pair_queue_entries(queue);
                        assert forall|c: Cell| accepted_before.contains(c) implies #[trigger] accepted@.contains(c) by {
                            let w = choose|w: int| 0 <= w < accepted_before.len() && accepted_before[w] == c;
                            assert(accepted@[w] == c);
                        }
                        assert(accepted@.contains(target) || dist < min_range) by {
                            if accepted@.len() > accepted_before.len() {
                                assert(accepted@[accepted@.len() - 1] == target);
                            } else if dist >= min_range {
                                assert(accepted_before.contains(target));
                            }
                        }
                        assert forall|c: Cell| #[trigger] accepted@.contains(c) implies exists|pr: PairKey| #[trigger]
                            processed.contains(pr) && cell_of(pr.1) == c && min <= pair_dist(pr) <= max by {
                            if accepted_before.contains(c) {
                                let pr = choose|pr: PairKey| #[trigger]
                                    old_processed.contains(pr) && cell_of(pr.1) == c && min <= pair_dist(pr) <= max;
                                assert(processed.contains(pr));
                            } else {
                                let w = choose|w: int| 0 <= w < accepted@.len() && accepted@[w] == c;
                                if w < accepted_before.len() {
                                    assert(accepted_before[w] == c);
                                }
                                assert(c == target);
                                assert(processed.contains(item));
                            }
                        }
                        assert forall|pr: PairKey| #[trigger] e.contains_key(pr) implies {
                            &&& pivots@.contains(cell_of(pr.0))
                            &&& e[pr] == pair_dist(pr)
                            &&& universe.contains(pr)
                            &&& !processed.contains(pr)
                            &&& queued@.contains(pr)
                            &&& pair_shape(pr, bounds)
                        } by {
                            assert(prev.contains_key(pr));
                        }
                        assert forall|pr: PairKey| #[trigger] processed.contains(pr) implies {
                            &&& pivots@.contains(cell_of(pr.0))
                            &&& pair_dist(pr) <= max
                            &&& (pair_dist(pr) >= min ==> accepted@.contains(cell_of(pr.1)))
                            &&& queued@.contains(pr)
                            &&& pair_shape(pr, bounds)
                        } by {
                            if pr != item {
                                assert(old_processed.contains(pr));
                            }
                        }
                        assert forall|pr: PairKey| #[trigger] queued@.contains(pr) implies e.contains_key(pr)
                            || processed.contains(pr) || pair_dist(pr) > max by {
                            if pr != item && prev.contains_key(pr) {
                                assert(e.contains_key(pr));
                            } else if pr != item && old_processed.contains(pr) {
                            }
                        }
                        assert forall|pr: PairKey, n: Cell|
                            #![trigger processed.contains(pr), neighbours(cell_of(pr.1), bounds).contains(n)]
                            processed.contains(pr) && !set![item].contains(pr) && neighbours(cell_of(pr.1), bounds).contains(n)
                                implies queued@.contains((pr.0, key(n))) by {
                            assert(old_processed.contains(pr));
                        }
                    }
                    let ns = get_neighbours(target, bounds);
                    let mut j: usize = 0;
                    while j < ns.len()
                        invariant
                            bounds.wf(),
                            min == min_range,
                            max == max_range,
                            universe == pairs(search_region(pivots@, bounds), search_region(pivots@, bounds)),
                            universe.finite(),
                            processed.len() <= universe.len(),
                            0 <= j <= ns@.len(),
                            ns@ == neighbours(target, bounds),
                            pivots@.contains(pivot),
                            item.0 == key(pivot),
                            item.1 == key(target),
                            processed.contains(item),
                            action_ok(pivots@, min, max, bounds, pair_queue_entries(queue), processed, queued@, accepted@),
                            action_closed(bounds, processed, queued@, set![item]),
                            forall|m: Cell| #[trigger]
                                ns@.subrange(0, j as int).contains(m) ==> queued@.contains((item.0, key(m))),
                        decreases ns@.len() - j,
                    {
                        let n = ns[j];
                        let next: PairKey = (item.0, (n.x, n.y));
                        let ghost before = pair_queue_entries(queue);
                        let ghost q0 = queued@;
                        proof {
                            assert(ns@.contains(n));
                            lemma_neighbours_in_bounds(target, bounds, n);
                            lemma_in_region(pivots@, bounds, n);
                            lemma_in_region(pivots@, bounds, pivot);
                            assert(cell_of((n.x, n.y)) == n);
                            assert(next == (item.0, key(n)));
                        }
                        if !contains_pair(&queued, next) {
                            let d = distance_wide(pivot, n);
                            queued.push(next);
                            pair_queue_push(&mut queue, next, d);
                            proof {
                                let e = pair_queue_entries(queue);
                                assert(queued@[queued@.len() - 1] == next);
                                assert forall|pr: PairKey| q0.contains(pr) implies #[trigger] queued@.contains(pr) by {
                                    let w = choose|w: int| 0 <= w < q0.len() && q0[w] == pr;
                                    assert(queued@[w] == pr);
                                }
                                assert forall|pr: PairKey| #[trigger] queued@.contains(pr) implies q0.contains(pr) || pr == next by {
                                    let w = choose|w: int| 0 <= w < queued@.len() && queued@[w] == pr;
                                    if w < q0.len() {
                                        assert(q0[w] == pr);
                                    }
                                }
                                assert(!processed.contains(next));
                                assert(!before.contains_key(next));
                                assert(universe.contains(next));
                                assert(pair_shape(item, bounds));
                                assert(pair_shape(next, bounds));
                                assert(pair_dist(next) == d);
                                assert forall|pr: PairKey| #[trigger] e.contains_key(pr) implies {
                                    &&& pivots@.contains(cell_of(pr.0))
                                    &&& e[pr] == pair_dist(pr)
                                    &&& universe.contains(pr)
                                    &&& !processed.contains(pr)
                                    &&& queued@.contains(pr)
                                    &&& pair_shape(pr, bounds)
                                } by {
                                    if pr != next {
                                        assert(before.contains_key(pr));
                                    }
                                }
                                assert forall|pr: PairKey| #[trigger] processed.contains(pr) implies queued@.contains(pr) by {
                                    assert(q0.contains(pr));
                                }
                                assert forall|pr: PairKey| #[trigger] queued@.contains(pr) implies e.contains_key(pr)
                                    || processed.contains(pr) || pair_dist(pr) > max by {
                                    if pr != next {
                                        assert(q0.contains(pr));
                                        if before.contains_key(pr) {
                                            assert(e.contains_key(pr));
                                        }
                                    }
                                }
                                assert forall|k: int| 0 <= k < pivots@.len() implies queued@.contains(seed(#[trigger] pivots@[k])) by {
                                    assert(q0.contains(seed(pivots@[k])));
                                }
                                assert forall|pr: PairKey, m: Cell|
                                    #![trigger processed.contains(pr), neighbours(cell_of(pr.1), bounds).contains(m)]
                                    processed.contains(pr) && !set![item].contains(pr) && neighbours(cell_of(pr.1), bounds).contains(m)
                                        implies queued@.contains((pr.0, key(m))) by {
                                    assert(q0.contains((pr.0, key(m))));
                                }
                            }
                        }
                        proof {
                            assert(queued@.contains(next));
                            assert forall|m: Cell| #[trigger] ns@.subrange(0, j + 1).contains(m) implies queued@.contains(
                                (item.0, key(m)),
                            ) by {
                                if m != n {
                                    let sub = ns@.subrange(0, j + 1);
                                    let w = choose|w: int| 0 <= w < sub.len() && sub[w] == m;
                                    assert(ns@.subrange(0, j as int)[w] == m);
                                    assert(ns@.subrange(0, j as int).contains(m));
                                    assert(q0.contains((item.0, key(m))));
                                }
                            }
                        }
                        j = j + 1;
                    }
                    proof {
                        assert(ns@.subrange(0, ns@.len() as int) =~= ns@);
                        assert forall|pr: PairKey, m: Cell|
                            #![trigger processed.contains(pr), neighbours(cell_of(pr.1), bounds).contains(m)]
                            processed.contains(pr) && !Set::<PairKey>::empty().contains(pr) && neighbours(cell_of(pr.1), bounds).contains(m)
                                implies queued@.contains((pr.0, key(m))) by {
                            if pr == item {
                                assert(ns@.subrange(0, ns@.len() as int).contains(m));
                            }
                        }
                    }
                } else {
                    proof {
                        let e = pair_queue_entries(queue);
                        assert forall|pr: PairKey| #[trigger] queued@.contains(pr) implies e.contains_key(pr)
                            || processed.contains(pr) || pair_dist(pr) > max by {
                            if pr != item && prev.contains_key(pr) {
                                assert(e.contains_key(pr));
                            }
                        }
                    }
                }
            },
        }
    }
    proof {
        let e = pair_queue_entries(queue);
        e.dom().lemma_len0_is_empty();
        assert forall|c: Cell| #[trigger]
            accepted@.contains(c) <==> in_action_range(pivots@, min, max, bounds, c) by {
            if accepted@.contains(c) {
                let pr = choose|pr: PairKey| #[trigger]
                    processed.contains(pr) && cell_of(pr.1) == c && min <= pair_dist(pr) <= max;
                let q = cell_of(pr.0);
                let w = choose|w: int| 0 <= w < pivots@.len() && pivots@[w] == q;
                assert(ring_member(pivots@[w], min, max, bounds, c));
            }
            if in_action_range(pivots@, min, max, bounds, c) {
                let w = choose|w: int| 0 <= w < pivots@.len() && #[trigger] ring_member(pivots@[w], min, max, bounds, c);
                let p = pivots@[w];
                if c == p {
                    assert(queued@.contains(seed(pivots@[w])));
                    assert(!e.contains_key(seed(p)));
                    assert(pair_dist(seed(p)) == 0);
                    assert(processed.contains(seed(p)));
                    assert(cell_of(seed(p).1) == c);
                } else {
                    lemma_pivot_processed(pivots@, min, max, bounds, e, processed, queued@, accepted@, w, c);
                    assert(pair_dist((key(p), key(c))) == manhattan(p, c));
                    assert(cell_of(key(c)) == c);
                }
            }
        }
    }
    accepted
}

} // verus!
