//! The cheapest path between two cells, through a given set of cells, by a
//! search in the manner of Dijkstra that carries whole paths in its queue.

use crate::geometry::{
    contains_cell, get_neighbours, lemma_neighbours_distinct, lemma_neighbours_in_bounds, neighbours,
    Bounds, Cell,
};
use crate::queue::{path_queue_entries, path_queue_new, path_queue_pop, path_queue_push, CellKey};
use crate::route::{cell_of, is_cost_oracle, is_route, is_step, key, lemma_route_extend, lemma_total_prefix, total};
use vstd::prelude::*;
use vstd::seq_lib::*;
use vstd::set_lib::*;

verus! {

/// The sequences without repeats whose elements lie in `region`.
pub open spec fn simple_seqs(region: Set<CellKey>) -> Set<Seq<CellKey>> {
    Set::new(|s: Seq<CellKey>| s.no_duplicates() && forall|i: int| 0 <= i < s.len() ==> region.contains(#[trigger] s[i]))
}

/// The sequences of length at most `n` whose elements lie in `region`.
pub open spec fn short_seqs(region: Set<CellKey>, n: nat) -> Set<Seq<CellKey>> {
    Set::new(|s: Seq<CellKey>| s.len() <= n && forall|i: int| 0 <= i < s.len() ==> region.contains(#[trigger] s[i]))
}

pub open spec fn product<A, B>(a: Set<A>, b: Set<B>) -> Set<(A, B)> {
    Set::new(|pr: (A, B)| a.contains(pr.0) && b.contains(pr.1))
}

proof fn lemma_product_finite<A, B>(a: Set<A>, b: Set<B>)
    requires
        a.finite(),
        b.finite(),
    ensures
        product(a, b).finite(),
    decreases a.len(),
{
    if a.len() == 0 {
        a.lemma_len0_is_empty();
        assert(product(a, b) =~= Set::<(A, B)>::empty());
    } else {
        let x = a.choose();
        lemma_product_finite(a.remove(x), b);
        let row = b.map(|y: B| (x, y));
        b.lemma_map_finite(|y: B| (x, y));
        assert forall|pr: (A, B)| #[trigger] product(a, b).contains(pr) implies product(a.remove(x), b).union(
            row,
        ).contains(pr) by {
            if pr.0 == x {
                assert(b.contains(pr.1));
                assert(pr == (|y: B| (x, y))(pr.1));
            }
        }
        assert(product(a, b) =~= product(a.remove(x), b).union(row));
    }
}

proof fn lemma_short_seqs_finite(region: Set<CellKey>, n: nat)
    requires
        region.finite(),
    ensures
        short_seqs(region, n).finite(),
    decreases n,
{
    if n == 0 {
        assert forall|s: Seq<CellKey>| #[trigger] short_seqs(region, n).contains(s) implies s
            == Seq::<CellKey>::empty() by {
            assert(s =~= Seq::<CellKey>::empty());
        }
        assert(short_seqs(region, n) =~= set![Seq::<CellKey>::empty()]);
    } else {
        let shorter = short_seqs(region, (n - 1) as nat);
        lemma_short_seqs_finite(region, (n - 1) as nat);
        lemma_product_finite(shorter, region);
        let f = |pr: (Seq<CellKey>, CellKey)| pr.0.push(pr.1);
        let longer = product(shorter, region).map(f);
        product(shorter, region).lemma_map_finite(f);
        assert forall|s: Seq<CellKey>| #[trigger] short_seqs(region, n).contains(s) implies shorter.union(
            longer,
        ).contains(s) by {
            if s.len() == n {
                let pr = (s.drop_last(), s.last());
                assert(shorter.contains(s.drop_last()));
                assert(region.contains(s[s.len() - 1]));
                assert(product(shorter, region).contains(pr));
                assert(s.drop_last().push(s.last()) =~= s);
                assert(f(pr) == s);
            }
        }
        assert(short_seqs(region, n).subset_of(shorter.union(longer)));
        lemma_len_subset(short_seqs(region, n), shorter.union(longer));
    }
}

/// A sequence without repeats over `region` is no longer than `region` has
/// elements.
proof fn lemma_simple_len(region: Set<CellKey>, s: Seq<CellKey>)
    requires
        region.finite(),
        simple_seqs(region).contains(s),
    ensures
        s.len() <= region.len(),
{
    s.unique_seq_to_set();
    assert(s.to_set().subset_of(region));
    lemma_len_subset(s.to_set(), region);
}

proof fn lemma_simple_seqs_finite(region: Set<CellKey>)
    requires
        region.finite(),
    ensures
        simple_seqs(region).finite(),
{
    lemma_short_seqs_finite(region, region.len());
    assert forall|s: Seq<CellKey>| #[trigger] simple_seqs(region).contains(s) implies short_seqs(
        region,
        region.len(),
    ).contains(s) by {
        lemma_simple_len(region, s);
    }
    lemma_len_subset(simple_seqs(region), short_seqs(region, region.len()));
}

/// The cells of a path of coordinate pairs.
pub open spec fn cells_of(p: Seq<CellKey>) -> Seq<Cell> {
    p.map_values(|k: CellKey| cell_of(k))
}

/// A route whose cells after the first all lie in `valid`.
pub open spec fn is_valid_route<F: Fn(Cell, Cell) -> i32>(
    cost_fn: F,
    bounds: Bounds,
    blocked: Seq<Cell>,
    valid: Seq<Cell>,
    cells: Seq<Cell>,
    costs: Seq<i32>,
) -> bool {
    &&& is_route(cost_fn, bounds, blocked, cells, costs)
    &&& forall|i: int| 1 <= i < cells.len() ==> valid.contains(#[trigger] cells[i])
}

/// Some route through `valid` leads from `from` to `to`.
pub open spec fn route_exists<F: Fn(Cell, Cell) -> i32>(
    cost_fn: F,
    bounds: Bounds,
    blocked: Seq<Cell>,
    valid: Seq<Cell>,
    from: Cell,
    to: Cell,
) -> bool {
    exists|cells: Seq<Cell>, costs: Seq<i32>|
        #[trigger] is_valid_route(cost_fn, bounds, blocked, valid, cells, costs) && cells[0] == from
            && cells.last() == to
}

/// `path` is a route through `valid` from `from` to `to` without repeated
/// cells, and no route through `valid` between them costs less.
pub open spec fn is_cheapest_path<F: Fn(Cell, Cell) -> i32>(
    cost_fn: F,
    bounds: Bounds,
    blocked: Seq<Cell>,
    valid: Seq<Cell>,
    from: Cell,
    to: Cell,
    path: Seq<Cell>,
) -> bool {
    &&& path[0] == from
    &&& path.last() == to
    &&& path.no_duplicates()
    &&& exists|costs: Seq<i32>|
        #[trigger] is_valid_route(cost_fn, bounds, blocked, valid, path, costs) && forall|
            cells2: Seq<Cell>,
            costs2: Seq<i32>,
        |
            #[trigger] is_valid_route(cost_fn, bounds, blocked, valid, cells2, costs2) && cells2[0]
                == from && cells2.last() == to ==> total(costs) <= total(costs2)
}

/// The path of coordinate pairs is a route through `valid` from `from` that
/// costs `c`.
pub open spec fn path_ok<F: Fn(Cell, Cell) -> i32>(
    cost_fn: F,
    bounds: Bounds,
    blocked: Seq<Cell>,
    valid: Seq<Cell>,
    from: Cell,
    p: Seq<CellKey>,
    c: int,
) -> bool {
    &&& p.len() >= 1
    &&& cell_of(p[0]) == from
    &&& exists|costs: Seq<i32>|
        #[trigger] is_valid_route(cost_fn, bounds, blocked, valid, cells_of(p), costs) && total(costs) == c
}

/// The cells that a path may visit, as coordinate pairs.
pub open spec fn path_region(valid: Seq<Cell>, from: Cell) -> Set<CellKey> {
    region_keys(valid, from).to_set()
}

pub open spec fn region_keys(valid: Seq<Cell>, from: Cell) -> Seq<CellKey> {
    valid.map_values(|c: Cell| key(c)).push(key(from))
}

pub open spec fn no_cost() -> int {
    i64::MAX as int
}

/// What the search knows of its queue of paths, of the paths pushed and
/// popped so far, of the cells settled (each with the cost at which it was
/// first settled) and of the best path to `to` found so far.
pub open spec fn path_search_ok<F: Fn(Cell, Cell) -> i32>(
    cost_fn: F,
    bounds: Bounds,
    blocked: Seq<Cell>,
    valid: Seq<Cell>,
    from: Cell,
    to: Cell,
    last: int,
    min_cost: int,
    best: Seq<CellKey>,
    visited: Seq<Cell>,
    vcost: Seq<int>,
    entries: Map<Seq<CellKey>, int>,
    pushed: Set<Seq<CellKey>>,
    popped: Set<Seq<CellKey>>,
) -> bool {
    let region = path_region(valid, from);
    &&& entries.dom().finite()
    &&& pushed.subset_of(simple_seqs(region))
    &&& popped.subset_of(pushed)
    &&& entries.dom().subset_of(pushed)
    &&& forall|q: Seq<CellKey>| #[trigger]
        pushed.contains(q) ==> q.len() >= 1 && q[0] == key(from) && (q.len() >= 2 ==> popped.contains(
            q.drop_last(),
        ))
    &&& 0 <= last < 0x4000_0000_0000_0000
    &&& visited.len() == vcost.len()
    &&& visited.no_duplicates()
    &&& forall|i: int| 0 <= i < visited.len() ==> 0 <= #[trigger] vcost[i] <= last
    &&& forall|p: Seq<CellKey>| #[trigger]
        entries.contains_key(p) ==> {
            &&& !popped.contains(p)
            &&& last <= entries[p] <= (p.len() - 1) * 0x7fff_ffff
            &&& path_ok(cost_fn, bounds, blocked, valid, from, p, entries[p])
            &&& forall|i: int| 0 <= i < p.len() - 1 ==> visited.contains(cell_of(#[trigger] p[i]))
        }
    &&& (min_cost == no_cost() && best == seq![key(from)]) || (0 <= min_cost < no_cost() && path_ok(
        cost_fn,
        bounds,
        blocked,
        valid,
        from,
        best,
        min_cost,
    ) && cell_of(best.last()) == to && simple_seqs(region).contains(best))
    &&& forall|i: int| 0 <= i < visited.len() && #[trigger] visited[i] == to ==> min_cost <= vcost[i]
    &&& visited.len() == 0 ==> entries.dom() == set![seq![key(from)]] && entries[seq![key(from)]] == 0
        && min_cost == no_cost()
    &&& visited.len() > 0 ==> visited[0] == from && vcost[0] == 0
}

/// A move to `n` that would cost `bound` in all is accounted for: `n` is
/// settled at no more, or a path to it waits in the queue at no more, or a
/// path to `to` that costs no more has been found.
pub open spec fn path_settled(
    visited: Seq<Cell>,
    vcost: Seq<int>,
    entries: Map<Seq<CellKey>, int>,
    min_cost: int,
    n: Cell,
    bound: int,
) -> bool {
    ||| exists|j: int| 0 <= j < visited.len() && #[trigger] visited[j] == n && vcost[j] <= bound
    ||| exists|p: Seq<CellKey>| #[trigger]
        entries.contains_key(p) && cell_of(p.last()) == n && entries[p] <= bound
    ||| min_cost < no_cost() && min_cost <= bound
}

/// Every move through `valid` out of a settled cell other than `to` and
/// `skip` is accounted for.
pub open spec fn path_closed<F: Fn(Cell, Cell) -> i32>(
    cost_fn: F,
    bounds: Bounds,
    blocked: Seq<Cell>,
    valid: Seq<Cell>,
    to: Cell,
    skip: Cell,
    visited: Seq<Cell>,
    vcost: Seq<int>,
    entries: Map<Seq<CellKey>, int>,
    min_cost: int,
) -> bool {
    forall|i: int, n: Cell, k: i32|
        0 <= i < visited.len() && visited[i] != to && visited[i] != skip && valid.contains(n)
            && #[trigger] is_step(cost_fn, bounds, blocked, visited[i], n, k) ==> path_settled(
            visited,
            vcost,
            entries,
            min_cost,
            n,
            vcost[i] + k,
        )
}

proof fn lemma_valid_route_prefix<F: Fn(Cell, Cell) -> i32>(
    cost_fn: F,
    bounds: Bounds,
    blocked: Seq<Cell>,
    valid: Seq<Cell>,
    cells: Seq<Cell>,
    costs: Seq<i32>,
)
    requires
        is_cost_oracle(cost_fn),
        is_valid_route(cost_fn, bounds, blocked, valid, cells, costs),
        costs.len() > 0,
    ensures
        is_valid_route(cost_fn, bounds, blocked, valid, cells.drop_last(), costs.drop_last()),
        total(costs.drop_last()) <= total(costs),
        total(costs) == total(costs.drop_last()) + costs.last(),
{
    lemma_total_prefix(cost_fn, bounds, blocked, cells, costs);
    assert forall|i: int| 1 <= i < cells.drop_last().len() implies valid.contains(
        #[trigger] cells.drop_last()[i],
    ) by {
        assert(valid.contains(cells[i]));
    }
}

/// Once the queue is empty, each cell on a route through `valid` from `from`
/// is settled at no more than the route's cost so far, or a path to `to` that
/// costs no more has been found.
proof fn lemma_path_complete<F: Fn(Cell, Cell) -> i32>(
    cost_fn: F,
    bounds: Bounds,
    blocked: Seq<Cell>,
    valid: Seq<Cell>,
    from: Cell,
    to: Cell,
    last: int,
    min_cost: int,
    best: Seq<CellKey>,
    visited: Seq<Cell>,
    vcost: Seq<int>,
    entries: Map<Seq<CellKey>, int>,
    pushed: Set<Seq<CellKey>>,
    popped: Set<Seq<CellKey>>,
    cells: Seq<Cell>,
    costs: Seq<i32>,
)
    requires
        is_cost_oracle(cost_fn),
        path_search_ok(cost_fn, bounds, blocked, valid, from, to, last, min_cost, best, visited, vcost, entries, pushed, popped),
        path_closed(cost_fn, bounds, blocked, valid, to, to, visited, vcost, entries, min_cost),
        entries.dom() == Set::<Seq<CellKey>>::empty(),
        visited.len() > 0,
        is_valid_route(cost_fn, bounds, blocked, valid, cells, costs),
        cells[0] == from,
    ensures
        (exists|j: int| 0 <= j < visited.len() && #[trigger] visited[j] == cells.last() && vcost[j] <= total(costs))
            || (min_cost < no_cost() && min_cost <= total(costs)),
    decreases costs.len(),
{
    if costs.len() == 0 {
        assert(visited[0] == cells.last());
    } else {
        let m = costs.len() - 1;
        lemma_valid_route_prefix(cost_fn, bounds, blocked, valid, cells, costs);
        lemma_path_complete(
            cost_fn,
            bounds,
            blocked,
            valid,
            from,
            to,
            last,
            min_cost,
            best,
            visited,
            vcost,
            entries,
            pushed,
            popped,
            cells.drop_last(),
            costs.drop_last(),
        );
        assert(is_step(cost_fn, bounds, blocked, cells[m], cells[m + 1], costs[m]));
        assert(valid.contains(cells[m + 1]));
        if exists|j: int| 0 <= j < visited.len() && #[trigger] visited[j] == cells.drop_last().last() && vcost[j] <= total(costs.drop_last()) {
            let i = choose|j: int| 0 <= j < visited.len() && #[trigger] visited[j] == cells.drop_last().last() && vcost[j] <= total(costs.drop_last());
            if visited[i] != to {
                assert(is_step(cost_fn, bounds, blocked, visited[i], cells.last(), costs[m]));
                assert(path_settled(visited, vcost, entries, min_cost, cells.last(), vcost[i] + costs[m]));
                if exists|p: Seq<CellKey>| #[trigger] entries.contains_key(p) && cell_of(p.last()) == cells.last() && entries[p] <= vcost[i] + costs[m] {
                    let p = choose|p: Seq<CellKey>| #[trigger] entries.contains_key(p) && cell_of(p.last()) == cells.last() && entries[p] <= vcost[i] + costs[m];
                    assert(entries.dom().contains(p));
                }
            } else {
                assert(min_cost <= vcost[i]);
                assert(vcost[i] <= last);
            }
        }
    }
}

fn copy_path(p: &Vec<CellKey>) -> (r: Vec<CellKey>)
    ensures
        r@ == p@,
{
    let mut r: Vec<CellKey> = Vec::new();
    let mut i: usize = 0;
    while i < p.len()
        invariant
            0 <= i <= p@.len(),
            r@ == p@.subrange(0, i as int),
        decreases p@.len() - i,
    {
        r.push(p[i]);
        i = i + 1;
    }
    assert(p@.subrange(0, p@.len() as int) =~= p@);
    r
}

fn cells_from_keys(p: &Vec<CellKey>) -> (r: Vec<Cell>)
    ensures
        r@ == cells_of(p@),
{
    let mut r: Vec<Cell> = Vec::new();
    let mut i: usize = 0;
    while i < p.len()
        invariant
            0 <= i <= p@.len(),
            r@ == cells_of(p@.subrange(0, i as int)),
        decreases p@.len() - i,
    {
        let k = p[i];
        r.push(Cell { x: k.0, y: k.1 });
        proof {
            assert(cells_of(p@.subrange(0, i + 1)) =~= cells_of(p@.subrange(0, i as int)).push(cell_of(k)));
        }
        i = i + 1;
    }
    assert(p@.subrange(0, p@.len() as int) =~= p@);
    r
}

/// The cheapest path from `from` to `to`, as the list of its cells, both
/// ends included. A move goes to an orthogonal neighbour inside `bounds` that
/// lies in `valid_cells` and not in `blocked`, and `cost_fn(from, to)` is what
/// it costs. A path from a cell to itself is that cell alone. When no path
/// leads to `to`, the result is `[from]`, so that a caller can tell by its
/// last cell whether `to` was reached.
pub fn compute_movement_path<F: Fn(Cell, Cell) -> i32>(
    from: Cell,
    to: Cell,
    bounds: Bounds,
    blocked: &Vec<Cell>,
    valid_cells: &Vec<Cell>,
    cost_fn: F,
) -> (r: Vec<Cell>)
    requires
        from != to ==> bounds.wf(),
        is_cost_oracle(cost_fn),
        from != to ==> valid_cells@.len() < 0x8000_0000,
    ensures
        r@.len() >= 1,
        r@[0] == from,
        from == to ==> r@ == seq![from],
        from != to ==> (r@.last() == to <==> route_exists(
            cost_fn,
            bounds,
            blocked@,
            valid_cells@,
            from,
            to,
        )),
        from != to && r@.last() == to ==> is_cheapest_path(
            cost_fn,
            bounds,
            blocked@,
            valid_cells@,
            from,
            to,
            r@,
        ),
        r@.last() != to ==> r@ == seq![from],
{
    if from == to {
        let r = vec![from];
        assert(r@ =~= seq![from]);
        return r;
    }
    let ghost region = path_region(valid_cells@, from);
    let ghost all_paths = simple_seqs(region);
    let ghost valid_keys = region_keys(valid_cells@, from);
    proof {
        seq_to_set_is_finite(valid_keys);
        valid_keys.lemma_cardinality_of_set();
        lemma_simple_seqs_finite(region);
    }
    let start: Vec<CellKey> = vec![(from.x, from.y)];
    let mut best: Vec<CellKey> = vec![(from.x, from.y)];
    let mut queue = path_queue_new();
    path_queue_push(&mut queue, start, 0);
    let mut min_cost: i64 = i64::MAX;
    let mut visited: Vec<Cell> = Vec::new();
    let ghost mut vcost: Seq<int> = seq![];
    let ghost mut pushed: Set<Seq<CellKey>> = set![seq![key(from)]];
    let ghost mut popped: Set<Seq<CellKey>> = Set::empty();
    let ghost mut last: int = 0;
    proof {
        let e = path_queue_entries(queue);
        assert(start@ =~= seq![key(from)]);
        assert(best@ =~= seq![key(from)]);
        assert(e.dom() =~= set![seq![key(from)]]);
        assert(valid_keys[valid_keys.len() - 1] == key(from));
        assert(region.contains(key(from)));
        assert(all_paths.contains(seq![key(from)]));
        let cells = cells_of(seq![key(from)]);
        assert(cells =~= seq![from]);
        assert(is_valid_route(cost_fn, bounds, blocked@, valid_cells@, cells, Seq::<i32>::empty()));
        lemma_len_subset(pushed, all_paths);
    }
    loop
        invariant
            bounds.wf(),
            is_cost_oracle(cost_fn),
            from != to,
            valid_cells@.len() < 0x8000_0000,
            region == path_region(valid_cells@, from),
            valid_keys == region_keys(valid_cells@, from),
            region.finite(),
            region.len() <= valid_cells@.len() + 1,
            all_paths == simple_seqs(region),
            all_paths.finite(),
            pushed.len() <= all_paths.len(),
            path_search_ok(
                cost_fn,
                bounds,
                blocked@,
                valid_cells@,
                from,
                to,
                last,
                min_cost as int,
                best@,
                visited@,
                vcost,
                path_queue_entries(queue),
                pushed,
                popped,
            ),
            path_closed(
                cost_fn,
                bounds,
                blocked@,
                valid_cells@,
                to,
                to,
                visited@,
                vcost,
                path_queue_entries(queue),
                min_cost as int,
            ),
        ensures
            path_search_ok(
                cost_fn,
                bounds,
                blocked@,
                valid_cells@,
                from,
                to,
                last,
                min_cost as int,
                best@,
                visited@,
                vcost,
                path_queue_entries(queue),
                pushed,
                popped,
            ),
            path_closed(
                cost_fn,
                bounds,
                blocked@,
                valid_cells@,
                to,
                to,
                visited@,
                vcost,
                path_queue_entries(queue),
                min_cost as int,
            ),
            path_queue_entries(queue).dom().len() == 0,
        decreases all_paths.len() - pushed.len(), path_queue_entries(queue).dom().len(),
    {
        let ghost prev = path_queue_entries(queue);
        let ghost prev_visited = visited@;
        let ghost prev_vcost = vcost;
        let ghost prev_min = min_cost as int;
        let ghost prev_last = last;
        let ghost prev_popped = popped;
        match path_queue_pop(&mut queue) {
            None => {
                break ;
            },
            Some((node_path, path_cost)) => {
                let ghost p = node_path@;
                proof {
                    assert(prev.contains_key(p));
                    assert(pushed.contains(p));
                    popped = popped.insert(p);
                    last = path_cost as int;
                    if prev_visited.len() == 0 {
                        assert(prev.dom().contains(p));
                        assert(p == seq![key(from)]);
                    }
                    assert(path_ok(cost_fn, bounds, blocked@, valid_cells@, from, p, path_cost as int));
                    lemma_simple_len(region, p);
                    assert((p.len() - 1) * 0x7fff_ffff <= 0x7fff_ffff * 0x7fff_ffff) by (nonlinear_arith)
                        requires
                            1 <= p.len() <= 0x8000_0000,
                    ;
                }
                if path_cost < min_cost {
                    let node_key = node_path[node_path.len() - 1];
                    let node = Cell { x: node_key.0, y: node_key.1 };
                    let ghost skip = to;
                    proof {
                        assert(cell_of(p.last()) == node);
                    }
                    if !contains_cell(&visited, node) {
                        visited.push(node);
                        proof {
                            vcost = vcost.push(path_cost as int);
                            skip = node;
                        }
                    }
                    proof {
                        assert(visited@.contains(node)) by {
                            if skip == node {
                                assert(visited@[visited@.len() - 1] == node);
                            }
                        }
                        assert(visited@.no_duplicates()) by {
                            assert forall|a: int, b: int|
                                0 <= a < b < visited@.len() implies visited@[a] != visited@[b] by {
                                if b == prev_visited.len() {
                                    assert(prev_visited[a] == visited@[a]);
                                    assert(prev_visited.contains(visited@[a]));
                                }
                            }
                        }
                        assert forall|w: int| 0 <= w < prev_visited.len() implies #[trigger] visited@[w] == prev_visited[w] && vcost[w] == prev_vcost[w] by {}
                    }
                    if node == to {
                        min_cost = path_cost;
                        best = node_path;
                        proof {
                            let e = path_queue_entries(queue);
                            assert forall|other: Seq<CellKey>| #[trigger] e.contains_key(other) implies forall|i: int| 0 <= i < other.len() - 1 ==> visited@.contains(cell_of(#[trigger] other[i])) by {
                                assert(prev.contains_key(other));
                                assert forall|i: int| 0 <= i < other.len() - 1 implies visited@.contains(cell_of(#[trigger] other[i])) by {
                                    assert(prev_visited.contains(cell_of(other[i])));
                                    let w = choose|w: int| 0 <= w < prev_visited.len() && prev_visited[w] == cell_of(other[i]);
                                    assert(visited@[w] == cell_of(other[i]));
                                }
                            }
                            assert forall|i: int| 0 <= i < visited@.len() && #[trigger] visited@[i] == to implies min_cost <= vcost[i] by {
                                if i < prev_visited.len() {
                                    assert(prev_visited[i] == to);
                                }
                            }
                            assert forall|i: int, n: Cell, k: i32|
                                0 <= i < visited@.len() && visited@[i] != to && visited@[i] != to && valid_cells@.contains(n)
                                    && #[trigger] is_step(cost_fn, bounds, blocked@, visited@[i], n, k) implies path_settled(
                                    visited@,
                                    vcost,
                                    e,
                                    min_cost as int,
                                    n,
                                    vcost[i] + k,
                                ) by {
                                assert(i < prev_visited.len());
                                assert(is_step(cost_fn, bounds, blocked@, prev_visited[i], n, k));
                                assert(path_settled(prev_visited, prev_vcost, prev, prev_min, n, prev_vcost[i] + k));
                                if exists|j: int| 0 <= j < prev_visited.len() && #[trigger] prev_visited[j] == n && prev_vcost[j] <= prev_vcost[i] + k {
                                    let j = choose|j: int| 0 <= j < prev_visited.len() && #[trigger] prev_visited[j] == n && prev_vcost[j] <= prev_vcost[i] + k;
                                    assert(visited@[j] == n);
                                } else if exists|other: Seq<CellKey>| #[trigger] prev.contains_key(other) && cell_of(other.last()) == n && prev[other] <= prev_vcost[i] + k {
                                    let other = choose|other: Seq<CellKey>| #[trigger] prev.contains_key(other) && cell_of(other.last()) == n && prev[other] <= prev_vcost[i] + k;
                                    if other != p {
                                        assert(e.contains_key(other));
                                    }
                                }
                            }
                        }
                    } else {
                        let ghost pushed_start = pushed;
                        let ghost entries_start = path_queue_entries(queue);
                        proof {
                            let e = path_queue_entries(queue);
                            assert forall|other: Seq<CellKey>| #[trigger] e.contains_key(other) implies forall|i: int| 0 <= i < other.len() - 1 ==> visited@.contains(cell_of(#[trigger] other[i])) by {
                                assert(prev.contains_key(other));
                                assert forall|i: int| 0 <= i < other.len() - 1 implies visited@.contains(cell_of(#[trigger] other[i])) by {
                                    assert(prev_visited.contains(cell_of(other[i])));
                                    let w = choose|w: int| 0 <= w < prev_visited.len() && prev_visited[w] == cell_of(other[i]);
                                    assert(visited@[w] == cell_of(other[i]));
                                }
                            }
                            assert forall|i: int| 0 <= i < visited@.len() && #[trigger] visited@[i] == to implies min_cost <= vcost[i] by {
                                if i < prev_visited.len() {
                                    assert(prev_visited[i] == to);
                                }
                            }
                            assert forall|i: int, n: Cell, k: i32|
                                0 <= i < visited@.len() && visited@[i] != to && visited@[i] != skip && valid_cells@.contains(n)
                                    && #[trigger] is_step(cost_fn, bounds, blocked@, visited@[i], n, k) implies path_settled(
                                    visited@,
                                    vcost,
                                    e,
                                    min_cost as int,
                                    n,
                                    vcost[i] + k,
                                ) by {
                                assert(i < prev_visited.len());
                                assert(is_step(cost_fn, bounds, blocked@, prev_visited[i], n, k));
                                assert(path_settled(prev_visited, prev_vcost, prev, prev_min, n, prev_vcost[i] + k));
                                if exists|j: int| 0 <= j < prev_visited.len() && #[trigger] prev_visited[j] == n && prev_vcost[j] <= prev_vcost[i] + k {
                                    let j = choose|j: int| 0 <= j < prev_visited.len() && #[trigger] prev_visited[j] == n && prev_vcost[j] <= prev_vcost[i] + k;
                                    assert(visited@[j] == n);
                                } else if exists|other: Seq<CellKey>| #[trigger] prev.contains_key(other) && cell_of(other.last()) == n && prev[other] <= prev_vcost[i] + k {
                                    let other = choose|other: Seq<CellKey>| #[trigger] prev.contains_key(other) && cell_of(other.last()) == n && prev[other] <= prev_vcost[i] + k;
                                    if other != p {
                                        assert(e.contains_key(other));
                                    } else {
                                        let w = choose|w: int| 0 <= w < visited@.len() && visited@[w] == node;
                                        assert(vcost[w] <= path_cost);
                                    }
                                }
                            }
                            assert(simple_seqs(region).contains(p));
                            assert forall|i: int| 0 <= i < p.len() implies visited@.contains(cell_of(#[trigger] p[i])) by {
                                if i == p.len() - 1 {
                                } else {
                                    assert(prev_visited.contains(cell_of(p[i])));
                                    let w = choose|w: int| 0 <= w < prev_visited.len() && prev_visited[w] == cell_of(p[i]);
                                    assert(visited@[w] == cell_of(p[i]));
                                }
                            }
                            lemma_neighbours_distinct(node, bounds);
                        }
                        let ns = get_neighbours(node, bounds);
                        let mut j: usize = 0;
                        while j < ns.len()
                            invariant
                                bounds.wf(),
                                is_cost_oracle(cost_fn),
                                from != to,
                                node != to,
                                valid_cells@.len() < 0x8000_0000,
                                region == path_region(valid_cells@, from),
                                valid_keys == region_keys(valid_cells@, from),
                                region.finite(),
                                region.len() <= valid_cells@.len() + 1,
                                all_paths == simple_seqs(region),
                                all_paths.finite(),
                                0 <= j <= ns@.len(),
                                ns@ == neighbours(node, bounds),
                                ns@.no_duplicates(),
                                p == node_path@,
                                cell_of(p.last()) == node,
                                last == path_cost,
                                0 <= path_cost < 0x4000_0000_0000_0000,
                                path_cost <= (p.len() - 1) * 0x7fff_ffff,
                                p.len() <= region.len(),
                                path_ok(cost_fn, bounds, blocked@, valid_cells@, from, p, path_cost as int),
                                simple_seqs(region).contains(p),
                                forall|i: int| 0 <= i < p.len() ==> visited@.contains(cell_of(#[trigger] p[i])),
                                popped.contains(p),
                                forall|q: Seq<CellKey>| #[trigger] pushed_start.contains(q) && q.len() >= 2 ==> q.drop_last() != p,
                                pushed_start.subset_of(pushed),
                                forall|q: Seq<CellKey>| #[trigger] pushed.contains(q) ==> pushed_start.contains(q) || (q.len() == p.len() + 1 && q.drop_last() == p && exists|w: int| 0 <= w < j && cell_of(q.last()) == #[trigger] ns@[w]),
                                pushed.len() >= pushed_start.len(),
                                pushed.len() == pushed_start.len() ==> path_queue_entries(queue) == entries_start,
                                pushed.len() <= all_paths.len(),
                                visited@.contains(node),
                                skip == node ==> visited@.last() == node && vcost.last() == path_cost,
                                skip != node ==> skip == to,
                                path_search_ok(
                                    cost_fn,
                                    bounds,
                                    blocked@,
                                    valid_cells@,
                                    from,
                                    to,
                                    last,
                                    min_cost as int,
                                    best@,
                                    visited@,
                                    vcost,
                                    path_queue_entries(queue),
                                    pushed,
                                    popped,
                                ),
                                path_closed(
                                    cost_fn,
                                    bounds,
                                    blocked@,
                                    valid_cells@,
                                    to,
                                    skip,
                                    visited@,
                                    vcost,
                                    path_queue_entries(queue),
                                    min_cost as int,
                                ),
                                skip == node ==> forall|n: Cell, k: i32|
                                    ns@.subrange(0, j as int).contains(n) && valid_cells@.contains(n) && #[trigger] is_step(
                                        cost_fn,
                                        bounds,
                                        blocked@,
                                        node,
                                        n,
                                        k,
                                    ) ==> path_settled(
                                        visited@,
                                        vcost,
                                        path_queue_entries(queue),
                                        min_cost as int,
                                        n,
                                        path_cost + k,
                                    ),
                            decreases ns@.len() - j,
                        {
                            let n = ns[j];
                            let ghost before = path_queue_entries(queue);
                            let ghost pushed_before = pushed;
                            proof {
                                assert(ns@.contains(n));
                                lemma_neighbours_in_bounds(node, bounds, n);
                            }
                            let ghost mut did_push = false;
                            let ghost mut pushed_path: Seq<CellKey> = seq![];
                            let ghost mut pushed_step: i32 = 0;
                            if contains_cell(valid_cells, n) && !contains_cell(&visited, n) && !contains_cell(blocked, n) {
                                let step = cost_fn(node, n);
                                let mut new_path = copy_path(&node_path);
                                new_path.push((n.x, n.y));
                                let ghost np = new_path@;
                                proof {
                                    assert(np.drop_last() =~= p);
                                    assert(np.last() == key(n));
                                    assert(cell_of(key(n)) == n);
                                    // the new path is fresh
                                    assert(!pushed.contains(np)) by {
                                        if pushed.contains(np) {
                                            if pushed_start.contains(np) {
                                            } else {
                                                let w = choose|w: int| 0 <= w < j && cell_of(np.last()) == #[trigger] ns@[w];
                                                assert(ns@[w] == ns@[j as int]);
                                            }
                                        }
                                    }
                                    // it has no repeated cell and stays in the region
                                    assert(!p.contains(key(n))) by {
                                        if p.contains(key(n)) {
                                            let w = choose|w: int| 0 <= w < p.len() && p[w] == key(n);
                                            assert(visited@.contains(cell_of(p[w])));
                                        }
                                    }
                                    assert(simple_seqs(region).contains(np)) by {
                                        let vi = choose|vi: int| 0 <= vi < valid_cells@.len() && valid_cells@[vi] == n;
                                        assert(valid_keys[vi] == key(n));
                                        assert(region.contains(key(n)));
                                        assert forall|a: int, b: int| 0 <= a < b < np.len() implies np[a] != np[b] by {
                                            if b == np.len() - 1 {
                                                assert(p[a] == np[a]);
                                            } else {
                                                assert(p[a] == np[a] && p[b] == np[b]);
                                            }
                                        }
                                        assert forall|i: int| 0 <= i < np.len() implies region.contains(#[trigger] np[i]) by {
                                            if i < p.len() {
                                                assert(p[i] == np[i]);
                                            }
                                        }
                                    }
                                    // it is a route through the valid cells
                                    let costs = choose|costs: Seq<i32>|
                                        #[trigger] is_valid_route(cost_fn, bounds, blocked@, valid_cells@, cells_of(p), costs) && total(costs) == path_cost;
                                    assert(cells_of(p).last() == node);
                                    assert(is_step(cost_fn, bounds, blocked@, node, n, step));
                                    lemma_route_extend(cost_fn, bounds, blocked@, cells_of(p), costs, n, step);
                                    assert(cells_of(np) =~= cells_of(p).push(n));
                                    assert(is_valid_route(cost_fn, bounds, blocked@, valid_cells@, cells_of(np), costs.push(step))) by {
                                        assert forall|i: int| 1 <= i < cells_of(np).len() implies valid_cells@.contains(#[trigger] cells_of(np)[i]) by {
                                            if i < cells_of(p).len() {
                                                assert(cells_of(p)[i] == cells_of(np)[i]);
                                            }
                                        }
                                    }
                                    assert(path_ok(cost_fn, bounds, blocked@, valid_cells@, from, np, path_cost + step));
                                    assert(np.len() - 1 == p.len());
                                    assert(cell_of(np[0]) == from);
                                }
                                path_queue_push(&mut queue, new_path, path_cost + step as i64);
                                proof {
                                    let e = path_queue_entries(queue);
                                    pushed = pushed.insert(np);
                                    lemma_len_subset(pushed, all_paths);
                                    assert(!before.contains_key(np));
                                    assert forall|q: Seq<CellKey>| #[trigger] pushed.contains(q) implies pushed_start.contains(q) || (q.len() == p.len() + 1 && q.drop_last() == p && exists|w: int| 0 <= w < j + 1 && cell_of(q.last()) == #[trigger] ns@[w]) by {
                                        if q == np {
                                            assert(cell_of(q.last()) == ns@[j as int]);
                                        } else {
                                            assert(pushed_before.contains(q));
                                        }
                                    }
                                    assert forall|q: Seq<CellKey>| #[trigger] pushed.contains(q) implies q.len() >= 1 && q[0] == key(from) && (q.len() >= 2 ==> popped.contains(q.drop_last())) by {
                                        if q == np {
                                            assert(np[0] == p[0]);
                                        } else {
                                            assert(pushed_before.contains(q));
                                        }
                                    }
                                    assert forall|other: Seq<CellKey>| #[trigger] e.contains_key(other) implies {
                                        &&& !popped.contains(other)
                                        &&& last <= e[other] <= (other.len() - 1) * 0x7fff_ffff
                                        &&& path_ok(cost_fn, bounds, blocked@, valid_cells@, from, other, e[other])
                                        &&& forall|i: int| 0 <= i < other.len() - 1 ==> visited@.contains(cell_of(#[trigger] other[i]))
                                    } by {
                                        if other == np {
                                            assert(!pushed_start.contains(np));
                                            assert forall|i: int| 0 <= i < other.len() - 1 implies visited@.contains(cell_of(#[trigger] other[i])) by {
                                                assert(p[i] == np[i]);
                                            }
                                        } else {
                                            assert(before.contains_key(other));
                                        }
                                    }
                                    assert(e.dom().subset_of(pushed));
                                    assert forall|m: Cell, bound: int|
                                        path_settled(visited@, vcost, before, min_cost as int, m, bound) implies
                                        #[trigger] path_settled(visited@, vcost, e, min_cost as int, m, bound) by {
                                        if exists|other: Seq<CellKey>| #[trigger] before.contains_key(other) && cell_of(other.last()) == m && before[other] <= bound {
                                            let other = choose|other: Seq<CellKey>| #[trigger] before.contains_key(other) && cell_of(other.last()) == m && before[other] <= bound;
                                            assert(e.contains_key(other));
                                        }
                                    }
                                    assert(e.contains_key(np) && cell_of(np.last()) == n && e[np] <= path_cost + step);
                                    did_push = true;
                                    pushed_path = np;
                                    pushed_step = step;
                                }
                            }
                            proof {
                                let e = path_queue_entries(queue);
                                assert forall|q: Seq<CellKey>| #[trigger] pushed.contains(q) implies pushed_start.contains(q) || (q.len() == p.len() + 1 && q.drop_last() == p && exists|w: int| 0 <= w < j + 1 && cell_of(q.last()) == #[trigger] ns@[w]) by {
                                    if !pushed_start.contains(q) {
                                        let w = choose|w: int| 0 <= w < j + 1 && cell_of(q.last()) == #[trigger] ns@[w];
                                    }
                                }
                                if skip == node {
                                    assert forall|m: Cell, k: i32|
                                        ns@.subrange(0, j + 1).contains(m) && valid_cells@.contains(m) && #[trigger] is_step(
                                            cost_fn,
                                            bounds,
                                            blocked@,
                                            node,
                                            m,
                                            k,
                                        ) implies path_settled(visited@, vcost, e, min_cost as int, m, path_cost + k) by {
                                        if m == n {
                                            if visited@.contains(n) {
                                                let w = choose|w: int| 0 <= w < visited@.len() && visited@[w] == n;
                                                assert(vcost[w] <= path_cost);
                                            } else {
                                                assert(did_push);
                                                assert(cost_fn.ensures((node, n), pushed_step));
                                                assert(k == pushed_step);
                                                assert(e.contains_key(pushed_path) && cell_of(pushed_path.last()) == n);
                                            }
                                        } else {
                                            let sub = ns@.subrange(0, j + 1);
                                            let w = choose|w: int| 0 <= w < sub.len() && sub[w] == m;
                                            assert(ns@.subrange(0, j as int)[w] == m);
                                        }
                                    }
                                }
                            }
                            j = j + 1;
                        }
                        proof {
                            if skip == node {
                                assert(ns@.subrange(0, ns@.len() as int) =~= ns@);
                                assert forall|i: int, n: Cell, k: i32|
                                    0 <= i < visited@.len() && visited@[i] != to && visited@[i] != to && valid_cells@.contains(n)
                                        && #[trigger] is_step(cost_fn, bounds, blocked@, visited@[i], n, k) implies path_settled(
                                        visited@,
                                        vcost,
                                        path_queue_entries(queue),
                                        min_cost as int,
                                        n,
                                        vcost[i] + k,
                                    ) by {
                                    if visited@[i] == node {
                                        assert(i == visited@.len() - 1);
                                        lemma_neighbours_in_bounds(node, bounds, n);
                                    }
                                }
                            }
                        }
                    }
                } else {
                    proof {
                        let e = path_queue_entries(queue);
                        assert forall|i: int, n: Cell, k: i32|
                            0 <= i < visited@.len() && visited@[i] != to && visited@[i] != to && valid_cells@.contains(n)
                                && #[trigger] is_step(cost_fn, bounds, blocked@, visited@[i], n, k) implies path_settled(
                                visited@,
                                vcost,
                                e,
                                min_cost as int,
                                n,
                                vcost[i] + k,
                            ) by {
                            assert(path_settled(prev_visited, prev_vcost, prev, prev_min, n, prev_vcost[i] + k));
                            if exists|other: Seq<CellKey>| #[trigger] prev.contains_key(other) && cell_of(other.last()) == n && prev[other] <= prev_vcost[i] + k {
                                let other = choose|other: Seq<CellKey>| #[trigger] prev.contains_key(other) && cell_of(other.last()) == n && prev[other] <= prev_vcost[i] + k;
                                if other != p {
                                    assert(e.contains_key(other));
                                }
                            }
                        }
                    }
                }
            },
        }
    }
    proof {
        let e = path_queue_entries(queue);
        e.dom().lemma_len0_is_empty();
        if visited@.len() == 0 {
            assert(e.dom().contains(seq![key(from)]));
        }
    }
    let r = cells_from_keys(&best);
    proof {
        let e = path_queue_entries(queue);
        if min_cost as int == no_cost() {
            assert(r@ =~= seq![from]);
            if route_exists(cost_fn, bounds, blocked@, valid_cells@, from, to) {
                let (cells, costs) = choose|cells: Seq<Cell>, costs: Seq<i32>|
                    #[trigger] is_valid_route(cost_fn, bounds, blocked@, valid_cells@, cells, costs) && cells[0] == from
                        && cells.last() == to;
                lemma_path_complete(cost_fn, bounds, blocked@, valid_cells@, from, to, last, min_cost as int, best@, visited@, vcost, e, pushed, popped, cells, costs);
            }
        } else {
            let costs = choose|costs: Seq<i32>|
                #[trigger] is_valid_route(cost_fn, bounds, blocked@, valid_cells@, cells_of(best@), costs) && total(costs) == min_cost;
            assert(r@.last() == to);
            assert(is_valid_route(cost_fn, bounds, blocked@, valid_cells@, r@, costs));
            assert(r@.no_duplicates()) by {
                assert forall|a: int, b: int| 0 <= a < b < r@.len() implies r@[a] != r@[b] by {
                    assert(best@[a] != best@[b]);
                }
            }
            assert forall|cells2: Seq<Cell>, costs2: Seq<i32>|
                #[trigger] is_valid_route(cost_fn, bounds, blocked@, valid_cells@, cells2, costs2) && cells2[0]
                    == from && cells2.last() == to implies total(costs) <= total(costs2) by {
                lemma_path_complete(cost_fn, bounds, blocked@, valid_cells@, from, to, last, min_cost as int, best@, visited@, vcost, e, pushed, popped, cells2, costs2);
            }
        }
    }
    r
}

} // verus!
