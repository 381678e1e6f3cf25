//! The movement range: every cell a unit can reach from where it stands
//! within its movement budget, by a cost-weighted flood fill in the manner of
//! Dijkstra.

use crate::geometry::{
    cells_in, contains_cell, get_neighbours, lemma_cells_in_finite, lemma_neighbours_in_bounds,
    neighbours, position_of, Bounds, Cell,
};
use crate::queue::{cell_queue_entries, cell_queue_new, cell_queue_pop, cell_queue_push_increase, CellKey};
use crate::route::{
    cell_of, is_cost_oracle, is_route, is_step, key, lemma_reaches_extend, lemma_route_start,
    lemma_total_prefix, reachable_within, reaches_at, total,
};
use vstd::prelude::*;
use vstd::set_lib::*;

verus! {

/// What the search knows of the cells it has settled (`visited`, each with
/// the cost it was settled at) and of those waiting in its queue.
pub open spec fn search_ok<F: Fn(Cell, Cell) -> i32>(
    cost_fn: F,
    bounds: Bounds,
    blocked: Seq<Cell>,
    origin: Cell,
    budget: int,
    last: int,
    visited: Seq<Cell>,
    costs: Seq<i64>,
    entries: Map<CellKey, int>,
) -> bool {
    &&& visited.len() == costs.len()
    &&& visited.no_duplicates()
    &&& 0 <= last
    &&& entries.dom().finite()
    &&& forall|i: int| 0 <= i < visited.len() ==> 0 <= #[trigger] costs[i] <= last && costs[i] <= budget
    &&& forall|i: int|
        0 <= i < visited.len() ==> reaches_at(
            cost_fn,
            bounds,
            blocked,
            origin,
            #[trigger] visited[i],
            costs[i] as int,
        )
    &&& forall|i: int|
        0 <= i < visited.len() ==> cells_in(bounds).insert(origin).contains(#[trigger] visited[i])
    &&& forall|k: CellKey| #[trigger]
        entries.contains_key(k) ==> {
            &&& entries[k] >= last
            &&& !visited.contains(cell_of(k))
            &&& reaches_at(cost_fn, bounds, blocked, origin, cell_of(k), entries[k])
            &&& cells_in(bounds).insert(origin).contains(cell_of(k))
        }
    &&& visited.len() == 0 ==> entries.dom() == set![key(origin)] && entries[key(origin)] == 0
    &&& visited.len() > 0 ==> visited[0] == origin && costs[0] == 0
}

/// A move to `n` that would cost `bound` in all is accounted for: `n` is
/// settled at no more, or waits in the queue at no more, or the move is over
/// the budget.
pub open spec fn settled(
    budget: int,
    visited: Seq<Cell>,
    costs: Seq<i64>,
    entries: Map<CellKey, int>,
    n: Cell,
    bound: int,
) -> bool {
    ||| exists|j: int| 0 <= j < visited.len() && #[trigger] visited[j] == n && costs[j] <= bound
    ||| entries.contains_key(key(n)) && entries[key(n)] <= bound
    ||| bound > budget
}

/// Every move out of the first `count` settled cells is accounted for.
pub open spec fn closed_upto<F: Fn(Cell, Cell) -> i32>(
    cost_fn: F,
    bounds: Bounds,
    blocked: Seq<Cell>,
    budget: int,
    visited: Seq<Cell>,
    costs: Seq<i64>,
    entries: Map<CellKey, int>,
    count: int,
) -> bool {
    forall|i: int, n: Cell, k: i32|
        0 <= i < count && #[trigger] is_step(cost_fn, bounds, blocked, visited[i], n, k) ==> settled(
            budget,
            visited,
            costs,
            entries,
            n,
            costs[i] + k,
        )
}

/// Once the queue is empty, every cell reached by a route within the budget
/// is settled at no more than the route's cost.
proof fn lemma_settled_complete<F: Fn(Cell, Cell) -> i32>(
    cost_fn: F,
    bounds: Bounds,
    blocked: Seq<Cell>,
    origin: Cell,
    budget: int,
    last: int,
    visited: Seq<Cell>,
    costs: Seq<i64>,
    entries: Map<CellKey, int>,
    cells: Seq<Cell>,
    route_costs: Seq<i32>,
)
    requires
        is_cost_oracle(cost_fn),
        search_ok(cost_fn, bounds, blocked, origin, budget, last, visited, costs, entries),
        closed_upto(cost_fn, bounds, blocked, budget, visited, costs, entries, visited.len() as int),
        entries.dom() == Set::<CellKey>::empty(),
        visited.len() > 0,
        is_route(cost_fn, bounds, blocked, cells, route_costs),
        cells[0] == origin,
        total(route_costs) <= budget,
    ensures
        exists|j: int|
            0 <= j < visited.len() && #[trigger] visited[j] == cells.last() && costs[j] <= total(
                route_costs,
            ),
    decreases route_costs.len(),
{
    if route_costs.len() == 0 {
        assert(visited[0] == cells.last());
    } else {
        let m = route_costs.len() - 1;
        lemma_total_prefix(cost_fn, bounds, blocked, cells, route_costs);
        lemma_settled_complete(
            cost_fn,
            bounds,
            blocked,
            origin,
            budget,
            last,
            visited,
            costs,
            entries,
            cells.drop_last(),
            route_costs.drop_last(),
        );
        let i = choose|i: int|
            0 <= i < visited.len() && #[trigger] visited[i] == cells.drop_last().last() && costs[i]
                <= total(route_costs.drop_last());
        assert(is_step(cost_fn, bounds, blocked, cells[m], cells[m + 1], route_costs[m]));
        assert(is_step(cost_fn, bounds, blocked, visited[i], cells.last(), route_costs[m]));
        assert(!entries.contains_key(key(cells.last())));
    }
}

/// The cells that a unit at `origin` can reach: `move_range` tiles, each
/// tile worth `move_multiplier` cost units, so that the budget is
/// `move_range * move_multiplier`. A move goes to an orthogonal neighbour
/// inside `bounds` that is not in `blocked`, and `cost_fn(from, to)` is what
/// it costs. With no budget (either factor zero or negative) the unit can
/// only stay where it is. The cells come each once, in no particular order.
pub fn compute_movement_range<F: Fn(Cell, Cell) -> i32>(
    origin: Cell,
    move_range: i32,
    move_multiplier: i32,
    bounds: Bounds,
    blocked: &Vec<Cell>,
    cost_fn: F,
) -> (r: Vec<Cell>)
    requires
        move_range > 0 && move_multiplier > 0 ==> bounds.wf(),
        is_cost_oracle(cost_fn),
    ensures
        move_range <= 0 || move_multiplier <= 0 ==> r@ == seq![origin],
        r@.contains(origin),
        r@.no_duplicates(),
        move_range > 0 && move_multiplier > 0 ==> forall|c: Cell| #[trigger]
            r@.contains(c) <==> reachable_within(
                cost_fn,
                bounds,
                blocked@,
                origin,
                c,
                move_range * move_multiplier,
            ),
{
    if move_range <= 0 || move_multiplier <= 0 {
        let r = vec![origin];
        assert(r@[0] == origin);
        return r;
    }
    assert(0 < move_range * move_multiplier <= 0x4000_0000_0000_0000) by (nonlinear_arith)
        requires
            0 < move_range <= 0x7fff_ffff,
            0 < move_multiplier <= 0x7fff_ffff,
    ;
    let budget: i64 = move_range as i64 * move_multiplier as i64;
    let ghost region = cells_in(bounds).insert(origin);
    proof {
        lemma_cells_in_finite(bounds);
        lemma_route_start(cost_fn, bounds, blocked@, origin);
    }
    let mut queue = cell_queue_new();
    cell_queue_push_increase(&mut queue, (origin.x, origin.y), 0);
    let mut visited: Vec<Cell> = Vec::new();
    let mut visited_cost: Vec<i64> = Vec::new();
    let ghost mut last: int = 0;
    proof {
        assert(cell_queue_entries(queue).dom() =~= set![key(origin)]);
    }
    loop
        invariant
            bounds.wf(),
            is_cost_oracle(cost_fn),
            budget == move_range * move_multiplier,
            0 < budget <= 0x4000_0000_0000_0000,
            region == cells_in(bounds).insert(origin),
            region.finite(),
            visited@.len() <= region.len(),
            search_ok(
                cost_fn,
                bounds,
                blocked@,
                origin,
                budget as int,
                last,
                visited@,
                visited_cost@,
                cell_queue_entries(queue),
            ),
            closed_upto(
                cost_fn,
                bounds,
                blocked@,
                budget as int,
                visited@,
                visited_cost@,
                cell_queue_entries(queue),
                visited@.len() as int,
            ),
        ensures
            search_ok(
                cost_fn,
                bounds,
                blocked@,
                origin,
                budget as int,
                last,
                visited@,
                visited_cost@,
                cell_queue_entries(queue),
            ),
            closed_upto(
                cost_fn,
                bounds,
                blocked@,
                budget as int,
                visited@,
                visited_cost@,
                cell_queue_entries(queue),
                visited@.len() as int,
            ),
            cell_queue_entries(queue).dom().len() == 0,
        decreases region.len() - visited@.len(), cell_queue_entries(queue).dom().len(),
    {
        let ghost prev = cell_queue_entries(queue);
        let ghost prev_visited = visited@;
        let ghost prev_cost = visited_cost@;
        let ghost prev_last = last;
        match cell_queue_pop(&mut queue) {
            None => {
                break ;
            },
            Some((item, cost)) => {
                let node = Cell { x: item.0, y: item.1 };
                proof {
                    last = cost as int;
                    assert(cell_of(item) == node);
                    if prev_visited.len() == 0 {
                        assert(prev.dom().contains(item));
                    }
                }
                if cost <= budget {
                    visited.push(node);
                    visited_cost.push(cost);
                    proof {
                        let e = cell_queue_entries(queue);
                        assert(visited@.no_duplicates()) by {
                            assert forall|a: int, b: int|
                                0 <= a < b < visited@.len() implies visited@[a] != visited@[b] by {
                                if b == visited@.len() - 1 {
                                    assert(prev_visited[a] == visited@[a]);
                                }
                            }
                        }
                        assert forall|i: int|
                            0 <= i < visited@.len() implies reaches_at(
                            cost_fn,
                            bounds,
                            blocked@,
                            origin,
                            #[trigger] visited@[i],
                            visited_cost@[i] as int,
                        ) by {
                            if i < prev_visited.len() {
                                assert(prev_visited[i] == visited@[i]);
                            }
                        }
                        assert forall|i: int|
                            0 <= i < visited@.len() implies region.contains(#[trigger] visited@[i]) by {
                            if i < prev_visited.len() {
                                assert(prev_visited[i] == visited@[i]);
                            }
                        }
                        assert forall|k: CellKey| #[trigger]
                            e.contains_key(k) implies !visited@.contains(cell_of(k)) by {
                            assert(prev.contains_key(k));
                            if visited@.contains(cell_of(k)) {
                                let w = choose|w: int| 0 <= w < visited@.len() && visited@[w] == cell_of(k);
                                if w < prev_visited.len() {
                                    assert(prev_visited[w] == cell_of(k));
                                }
                            }
                        }
                        assert forall|i: int, n: Cell, k: i32|
                            0 <= i < prev_visited.len() && #[trigger] is_step(
                                cost_fn,
                                bounds,
                                blocked@,
                                visited@[i],
                                n,
                                k,
                            ) implies settled(budget as int, visited@, visited_cost@, e, n, visited_cost@[i] + k) by {
                            assert(prev_visited[i] == visited@[i]);
                            assert(is_step(cost_fn, bounds, blocked@, prev_visited[i], n, k));
                            assert(settled(budget as int, prev_visited, prev_cost, prev, n, prev_cost[i] + k));
                            if exists|j: int|
                                0 <= j < prev_visited.len() && #[trigger] prev_visited[j] == n
                                    && prev_cost[j] <= prev_cost[i] + k {
                                let j = choose|j: int|
                                    0 <= j < prev_visited.len() && #[trigger] prev_visited[j] == n
                                        && prev_cost[j] <= prev_cost[i] + k;
                                assert(visited@[j] == n);
                            } else if key(n) == item && prev.contains_key(key(n)) && prev[key(n)]
                                <= prev_cost[i] + k {
                                assert(visited@[visited@.len() - 1] == n);
                            }
                        }
                    }
                    let ns = get_neighbours(node, bounds);
                    let mut j: usize = 0;
                    while j < ns.len()
                        invariant
                            bounds.wf(),
                            is_cost_oracle(cost_fn),
                            budget == move_range * move_multiplier,
                            0 < budget <= 0x4000_0000_0000_0000,
                            region == cells_in(bounds).insert(origin),
                            region.finite(),
                            0 <= j <= ns@.len(),
                            ns@ == neighbours(node, bounds),
                            0 <= cost <= budget,
                            last == cost,
                            visited@.len() > 0,
                            visited@.last() == node,
                            visited_cost@.last() == cost,
                            search_ok(
                                cost_fn,
                                bounds,
                                blocked@,
                                origin,
                                budget as int,
                                last,
                                visited@,
                                visited_cost@,
                                cell_queue_entries(queue),
                            ),
                            closed_upto(
                                cost_fn,
                                bounds,
                                blocked@,
                                budget as int,
                                visited@,
                                visited_cost@,
                                cell_queue_entries(queue),
                                visited@.len() - 1,
                            ),
                            forall|n: Cell, k: i32|
                                ns@.subrange(0, j as int).contains(n) && #[trigger] is_step(
                                    cost_fn,
                                    bounds,
                                    blocked@,
                                    node,
                                    n,
                                    k,
                                ) ==> settled(
                                    budget as int,
                                    visited@,
                                    visited_cost@,
                                    cell_queue_entries(queue),
                                    n,
                                    cost + k,
                                ),
                        decreases ns@.len() - j,
                    {
                        let n = ns[j];
                        let step = cost_fn(node, n);
                        let next_cost: i64 = cost + step as i64;
                        let improves = match position_of(&visited, n) {
                            Some(i) => next_cost < visited_cost[i],
                            None => true,
                        };
                        let ghost before = cell_queue_entries(queue);
                        let is_blocked = contains_cell(blocked, n);
                        proof {
                            assert(ns@.contains(n));
                            lemma_neighbours_in_bounds(node, bounds, n);
                        }
                        if improves && !is_blocked {
                            cell_queue_push_increase(&mut queue, (n.x, n.y), next_cost);
                            proof {
                                let e = cell_queue_entries(queue);
                                assert(is_step(cost_fn, bounds, blocked@, node, n, step));
                                let vi = visited@.len() - 1;
                                assert(reaches_at(cost_fn, bounds, blocked@, origin, visited@[vi], visited_cost@[vi] as int));
                                lemma_reaches_extend(cost_fn, bounds, blocked@, origin, node, cost as int, n, step);
                                assert(!visited@.contains(n)) by {
                                    if visited@.contains(n) {
                                        let w = choose|w: int| 0 <= w < visited@.len() && visited@[w] == n;
                                        assert(visited_cost@[w] <= last);
                                    }
                                }
                                assert(cell_of((n.x, n.y)) == n);
                                assert forall|k: CellKey| #[trigger] e.contains_key(k) implies {
                                    &&& e[k] >= last
                                    &&& !visited@.contains(cell_of(k))
                                    &&& reaches_at(cost_fn, bounds, blocked@, origin, cell_of(k), e[k])
                                    &&& cells_in(bounds).insert(origin).contains(cell_of(k))
                                } by {
                                    if k != (n.x, n.y) {
                                        assert(before.contains_key(k));
                                    } else if before.contains_key(k) && before[k] <= next_cost {
                                    }
                                }
                                assert forall|m: Cell, bound: int|
                                    settled(budget as int, visited@, visited_cost@, before, m, bound) implies
                                    #[trigger] settled(budget as int, visited@, visited_cost@, e, m, bound) by {
                                    if before.contains_key(key(m)) && before[key(m)] <= bound {
                                        assert(e.contains_key(key(m)));
                                    }
                                }
                            }
                        }
                        proof {
                            let e = cell_queue_entries(queue);
                            assert forall|m: Cell, k: i32|
                                ns@.subrange(0, j + 1).contains(m) && #[trigger] is_step(
                                    cost_fn,
                                    bounds,
                                    blocked@,
                                    node,
                                    m,
                                    k,
                                ) implies settled(budget as int, visited@, visited_cost@, e, m, cost + k) by {
                                if m == n {
                                    assert(k == step);
                                    if !improves {
                                        let w = choose|w: int| 0 <= w < visited@.len() && visited@[w] == n && visited_cost@[w] <= next_cost;
                                        assert(visited@[w] == m);
                                    } else {
                                        assert(e.contains_key(key(n)));
                                    }
                                } else {
                                    let s = ns@.subrange(0, j + 1);
                                    let w = choose|w: int| 0 <= w < s.len() && s[w] == m;
                                    assert(ns@.subrange(0, j as int)[w] == m);
                                }
                            }
                        }
                        j = j + 1;
                    }
                    proof {
                        assert forall|i: int, n: Cell, k: i32|
                            0 <= i < visited@.len() && #[trigger] is_step(
                                cost_fn,
                                bounds,
                                blocked@,
                                visited@[i],
                                n,
                                k,
                            ) implies settled(
                            budget as int,
                            visited@,
                            visited_cost@,
                            cell_queue_entries(queue),
                            n,
                            visited_cost@[i] + k,
                        ) by {
                            if i == visited@.len() - 1 {
                                assert(ns@.subrange(0, ns@.len() as int) =~= ns@);
                                lemma_neighbours_in_bounds(node, bounds, n);
                            }
                        }
                    }
                } else {
                    proof {
                        let e = cell_queue_entries(queue);
                        assert forall|i: int, n: Cell, k: i32|
                            0 <= i < visited@.len() && #[trigger] is_step(
                                cost_fn,
                                bounds,
                                blocked@,
                                visited@[i],
                                n,
                                k,
                            ) implies settled(budget as int, visited@, visited_cost@, e, n, visited_cost@[i] + k) by {
                            assert(settled(budget as int, visited@, visited_cost@, prev, n, visited_cost@[i] + k));
                        }
                    }
                }
                proof {
                    visited@.unique_seq_to_set();
                    assert(visited@.to_set().subset_of(region)) by {
                        assert forall|c: Cell| visited@.to_set().contains(c) implies region.contains(c) by {
                            let w = choose|w: int| 0 <= w < visited@.len() && visited@[w] == c;
                        }
                    }
                    lemma_len_subset(visited@.to_set(), region);
                }
            },
        }
    }
    let ghost entries = cell_queue_entries(queue);
    proof {
        entries.dom().lemma_len0_is_empty();
        if visited@.len() == 0 {
            assert(entries.dom().contains(key(origin)));
        }
        assert(visited@[0] == origin);
        assert forall|c: Cell| #[trigger]
            visited@.contains(c) <==> reachable_within(
                cost_fn,
                bounds,
                blocked@,
                origin,
                c,
                move_range * move_multiplier,
            ) by {
            if visited@.contains(c) {
                let w = choose|w: int| 0 <= w < visited@.len() && visited@[w] == c;
                assert(reaches_at(cost_fn, bounds, blocked@, origin, visited@[w], visited_cost@[w] as int));
                let (cells, costs) = choose|cells: Seq<Cell>, costs: Seq<i32>|
                    #[trigger] is_route(cost_fn, bounds, blocked@, cells, costs) && cells[0] == origin
                        && cells.last() == c && total(costs) == visited_cost@[w] as int;
                assert(is_route(cost_fn, bounds, blocked@, cells, costs));
            }
            if reachable_within(cost_fn, bounds, blocked@, origin, c, move_range * move_multiplier) {
                let (cells, costs) = choose|cells: Seq<Cell>, costs: Seq<i32>|
                    #[trigger] is_route(cost_fn, bounds, blocked@, cells, costs) && cells[0] == origin
                        && cells.last() == c && total(costs) <= move_range * move_multiplier;
                lemma_settled_complete(
                    cost_fn,
                    bounds,
                    blocked@,
                    origin,
                    budget as int,
                    last,
                    visited@,
                    visited_cost@,
                    entries,
                    cells,
                    costs,
                );
                let w = choose|w: int|
                    0 <= w < visited@.len() && #[trigger] visited@[w] == cells.last() && visited_cost@[w]
                        <= total(costs);
                assert(visited@[w] == c);
            }
        }
    }
    visited
}

} // verus!
