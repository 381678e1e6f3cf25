//! Routes over the grid under a caller-supplied edge cost.
//!
//! The cost of crossing from one cell to a neighbour comes from a function
//! `cost_fn(from, to)` that the caller passes in; the searches consult it and
//! never compute costs themselves.

use crate::geometry::{neighbours, Bounds, Cell};
use crate::queue::CellKey;
use vstd::prelude::*;

verus! {

/// The edge-cost function may be called on any pair of cells, charges a
/// non-negative cost, and gives the same cost each time for the same pair.
pub open spec fn is_cost_oracle<F: Fn(Cell, Cell) -> i32>(cost_fn: F) -> bool {
    &&& forall|a: Cell, b: Cell| #[trigger] cost_fn.requires((a, b))
    &&& forall|a: Cell, b: Cell, k: i32| #[trigger] cost_fn.ensures((a, b), k) ==> k >= 0
    &&& forall|a: Cell, b: Cell, k1: i32, k2: i32|
        #![trigger cost_fn.ensures((a, b), k1), cost_fn.ensures((a, b), k2)]
        cost_fn.ensures((a, b), k1) && cost_fn.ensures((a, b), k2) ==> k1 == k2
}

pub open spec fn key(c: Cell) -> CellKey {
    (c.x, c.y)
}

pub open spec fn cell_of(k: CellKey) -> Cell {
    Cell { x: k.0, y: k.1 }
}

/// One move from `from` to `to`: an orthogonal neighbour within the
/// rectangle that is not blocked, charged `k`.
pub open spec fn is_step<F: Fn(Cell, Cell) -> i32>(
    cost_fn: F,
    bounds: Bounds,
    blocked: Seq<Cell>,
    from: Cell,
    to: Cell,
    k: i32,
) -> bool {
    &&& neighbours(from, bounds).contains(to)
    &&& !blocked.contains(to)
    &&& cost_fn.ensures((from, to), k)
}

/// `cells` is a sequence of moves and `costs[i]` is the charge of the move
/// from `cells[i]` to `cells[i + 1]`.
pub open spec fn is_route<F: Fn(Cell, Cell) -> i32>(
    cost_fn: F,
    bounds: Bounds,
    blocked: Seq<Cell>,
    cells: Seq<Cell>,
    costs: Seq<i32>,
) -> bool {
    &&& cells.len() == costs.len() + 1
    &&& forall|i: int|
        0 <= i < costs.len() ==> #[trigger] is_step(
            cost_fn,
            bounds,
            blocked,
            cells[i],
            cells[i + 1],
            costs[i],
        )
}

/// The sum of the charges.
pub open spec fn total(costs: Seq<i32>) -> int
    decreases costs.len(),
{
    if costs.len() == 0 {
        0
    } else {
        total(costs.drop_last()) + costs.last()
    }
}

/// Some route leads from `origin` to `target` at total cost exactly `d`.
pub open spec fn reaches_at<F: Fn(Cell, Cell) -> i32>(
    cost_fn: F,
    bounds: Bounds,
    blocked: Seq<Cell>,
    origin: Cell,
    target: Cell,
    d: int,
) -> bool {
    exists|cells: Seq<Cell>, costs: Seq<i32>|
        #[trigger] is_route(cost_fn, bounds, blocked, cells, costs) && cells[0] == origin
            && cells.last() == target && total(costs) == d
}

/// Some route leads from `origin` to `target` at total cost at most `budget`.
pub open spec fn reachable_within<F: Fn(Cell, Cell) -> i32>(
    cost_fn: F,
    bounds: Bounds,
    blocked: Seq<Cell>,
    origin: Cell,
    target: Cell,
    budget: int,
) -> bool {
    exists|cells: Seq<Cell>, costs: Seq<i32>|
        #[trigger] is_route(cost_fn, bounds, blocked, cells, costs) && cells[0] == origin
            && cells.last() == target && total(costs) <= budget
}

pub proof fn lemma_route_start<F: Fn(Cell, Cell) -> i32>(
    cost_fn: F,
    bounds: Bounds,
    blocked: Seq<Cell>,
    origin: Cell,
)
    ensures
        reaches_at(cost_fn, bounds, blocked, origin, origin, 0),
{
    let cells = seq![origin];
    let costs = Seq::<i32>::empty();
    assert(is_route(cost_fn, bounds, blocked, cells, costs));
}

pub proof fn lemma_route_extend<F: Fn(Cell, Cell) -> i32>(
    cost_fn: F,
    bounds: Bounds,
    blocked: Seq<Cell>,
    cells: Seq<Cell>,
    costs: Seq<i32>,
    to: Cell,
    k: i32,
)
    requires
        is_route(cost_fn, bounds, blocked, cells, costs),
        is_step(cost_fn, bounds, blocked, cells.last(), to, k),
    ensures
        is_route(cost_fn, bounds, blocked, cells.push(to), costs.push(k)),
        total(costs.push(k)) == total(costs) + k,
        cells.push(to)[0] == cells[0],
{
    let c2 = cells.push(to);
    let k2 = costs.push(k);
    assert(k2.drop_last() =~= costs);
    assert forall|i: int| 0 <= i < k2.len() implies #[trigger] is_step(
        cost_fn,
        bounds,
        blocked,
        c2[i],
        c2[i + 1],
        k2[i],
    ) by {
        if i < costs.len() {
            assert(is_step(cost_fn, bounds, blocked, cells[i], cells[i + 1], costs[i]));
        }
    }
}

pub proof fn lemma_reaches_extend<F: Fn(Cell, Cell) -> i32>(
    cost_fn: F,
    bounds: Bounds,
    blocked: Seq<Cell>,
    origin: Cell,
    from: Cell,
    d: int,
    to: Cell,
    k: i32,
)
    requires
        reaches_at(cost_fn, bounds, blocked, origin, from, d),
        is_step(cost_fn, bounds, blocked, from, to, k),
    ensures
        reaches_at(cost_fn, bounds, blocked, origin, to, d + k),
{
    let (cells, costs) = choose|cells: Seq<Cell>, costs: Seq<i32>|
        #[trigger] is_route(cost_fn, bounds, blocked, cells, costs) && cells[0] == origin
            && cells.last() == from && total(costs) == d;
    lemma_route_extend(cost_fn, bounds, blocked, cells, costs, to, k);
    assert(is_route(cost_fn, bounds, blocked, cells.push(to), costs.push(k)));
}

/// The charges of a route under an oracle are non-negative, so a route's
/// total is at least that of any prefix.
pub proof fn lemma_total_prefix<F: Fn(Cell, Cell) -> i32>(
    cost_fn: F,
    bounds: Bounds,
    blocked: Seq<Cell>,
    cells: Seq<Cell>,
    costs: Seq<i32>,
)
    requires
        is_cost_oracle(cost_fn),
        is_route(cost_fn, bounds, blocked, cells, costs),
        costs.len() > 0,
    ensures
        is_route(cost_fn, bounds, blocked, cells.drop_last(), costs.drop_last()),
        total(costs.drop_last()) <= total(costs),
        total(costs) == total(costs.drop_last()) + costs.last(),
        costs.last() >= 0,
{
    let n = costs.len() - 1;
    assert(is_step(cost_fn, bounds, blocked, cells[n], cells[n + 1], costs[n]));
    let c2 = cells.drop_last();
    let k2 = costs.drop_last();
    assert forall|i: int| 0 <= i < k2.len() implies #[trigger] is_step(
        cost_fn,
        bounds,
        blocked,
        c2[i],
        c2[i + 1],
        k2[i],
    ) by {
        assert(is_step(cost_fn, bounds, blocked, cells[i], cells[i + 1], costs[i]));
    }
}

} // verus!
