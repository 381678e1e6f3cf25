use tactics_grid::action::compute_action_range;
use tactics_grid::geometry::{get_neighbours, manhattan_distance, Bounds, Cell};
use tactics_grid::movement::compute_movement_range;
use tactics_grid::path::compute_movement_path;

fn grid(w: i32, h: i32) -> Bounds {
    Bounds::new(Cell::new(0, 0), Cell::new(w, h))
}

fn sorted(mut v: Vec<Cell>) -> Vec<(i32, i32)> {
    let mut r: Vec<(i32, i32)> = v.drain(..).map(|c| (c.x, c.y)).collect();
    r.sort();
    r
}

fn all_cells(w: i32, h: i32) -> Vec<Cell> {
    let mut v = Vec::new();
    for x in 0..w {
        for y in 0..h {
            v.push(Cell::new(x, y));
        }
    }
    v
}

#[test]
fn get_neighbours_works() {
    let grid_start = Cell::new(0, 0);
    let grid_end = Cell::new(5, 10);
    let grid_bounds = Bounds::new(grid_start, grid_end);

    // Neighbours come in the order up, down, left, right.
    let point_1 = Cell::new(1, 1);
    let neighbours_1 = get_neighbours(point_1, grid_bounds);
    assert_eq!(
        neighbours_1,
        vec![
            Cell::new(1, 0),
            Cell::new(1, 2),
            Cell::new(0, 1),
            Cell::new(2, 1)
        ]
    );
}

#[test]
fn get_neighbours_returns_empty_iter_when_outside_grid() {
    let grid_start = Cell::new(0, 0);
    let grid_end = Cell::new(5, 10);
    let grid_bounds = Bounds::new(grid_start, grid_end);

    // A cell outside the grid has no neighbours.
    let point_2 = Cell::new(-2, -2);
    let neighbours_2 = get_neighbours(point_2, grid_bounds);
    assert_eq!(neighbours_2, vec![]);
}

#[test]
fn get_neighbours_returns_only_neighbours_inside_grid() {
    let grid_start = Cell::new(0, 0);
    let grid_end = Cell::new(5, 10);
    let grid_bounds = Bounds::new(grid_start, grid_end);

    // On the border of the grid only the neighbours inside are returned.
    let point_3 = Cell::new(0, 0);
    let neighbours_3 = get_neighbours(point_3, grid_bounds);
    assert_eq!(neighbours_3, vec![Cell::new(0, 1), Cell::new(1, 0)]);
    let point_4 = Cell::new(3, 0);
    let neighbours_4 = get_neighbours(point_4, grid_bounds);
    assert_eq!(
        neighbours_4,
        vec![Cell::new(3, 1), Cell::new(2, 0), Cell::new(4, 0)]
    );
}

#[test]
fn manhattan_distance_works() {
    let point_1 = Cell::new(1, 2);
    let point_2 = Cell::new(4, 9);
    let distance = manhattan_distance(point_1, point_2);
    assert_eq!(distance, 10);

    let point_1 = Cell::new(-3, -2);
    let point_2 = Cell::new(-5, -2);
    let distance = manhattan_distance(point_1, point_2);
    assert_eq!(distance, 2);

    let point_1 = Cell::new(0, 0);
    let point_2 = Cell::new(0, 0);
    let distance = manhattan_distance(point_1, point_2);
    assert_eq!(distance, 0);

    let point_1 = Cell::new(-3, 0);
    let point_2 = Cell::new(4, 1);
    let distance = manhattan_distance(point_1, point_2);
    assert_eq!(distance, 8);
}

#[test]
fn manhattan_distance_is_symmetric() {
    let a = Cell::new(1, 2);
    let b = Cell::new(4, 9);
    assert_eq!(manhattan_distance(a, b), manhattan_distance(b, a));
    let c = Cell::new(-7, 3);
    assert_eq!(manhattan_distance(a, c), 9);
    assert_eq!(manhattan_distance(c, a), 9);
}

#[test]
fn manhattan_distance_far_apart_cells() {
    let a = Cell::new(-1_000_000_000, 0);
    let b = Cell::new(1_000_000_000, 5);
    assert_eq!(manhattan_distance(a, b), 2_000_000_005);
}

#[test]
fn contains_point_is_half_open() {
    let b = grid(5, 10);
    assert!(b.contains_point(Cell::new(0, 0)));
    assert!(b.contains_point(Cell::new(4, 9)));
    assert!(!b.contains_point(Cell::new(5, 0)));
    assert!(!b.contains_point(Cell::new(0, 10)));
    assert!(!b.contains_point(Cell::new(-1, 3)));
}

#[test]
fn get_neighbours_in_single_cell_grid() {
    let b = Bounds::new(Cell::new(3, 3), Cell::new(1, 1));
    assert_eq!(get_neighbours(Cell::new(3, 3), b), vec![]);
}

#[test]
fn get_neighbours_at_far_corner() {
    let b = grid(5, 10);
    assert_eq!(
        get_neighbours(Cell::new(4, 9), b),
        vec![Cell::new(4, 8), Cell::new(3, 9)]
    );
}

#[test]
fn movement_range_without_budget_is_origin() {
    let b = grid(5, 5);
    let origin = Cell::new(2, 2);
    let blocked: Vec<Cell> = Vec::new();
    assert_eq!(
        compute_movement_range(origin, 0, 3, b, &blocked, |_a: Cell, _b: Cell| 1),
        vec![origin]
    );
    assert_eq!(
        compute_movement_range(origin, 3, 0, b, &blocked, |_a: Cell, _b: Cell| 1),
        vec![origin]
    );
    assert_eq!(
        compute_movement_range(origin, -2, 3, b, &blocked, |_a: Cell, _b: Cell| 1),
        vec![origin]
    );
    assert_eq!(
        compute_movement_range(origin, 2, -1, b, &blocked, |_a: Cell, _b: Cell| 1),
        vec![origin]
    );
}

#[test]
fn movement_range_one_step() {
    let b = grid(5, 5);
    let blocked: Vec<Cell> = Vec::new();
    let r = compute_movement_range(Cell::new(2, 2), 1, 1, b, &blocked, |_a: Cell, _b: Cell| 1);
    assert_eq!(sorted(r), vec![(1, 2), (2, 1), (2, 2), (2, 3), (3, 2)]);
}

#[test]
fn movement_range_two_steps_clipped_at_corner() {
    let b = grid(5, 5);
    let blocked: Vec<Cell> = Vec::new();
    let r = compute_movement_range(Cell::new(0, 0), 2, 1, b, &blocked, |_a: Cell, _b: Cell| 1);
    assert_eq!(
        sorted(r),
        vec![(0, 0), (0, 1), (0, 2), (1, 0), (1, 1), (2, 0)]
    );
}

#[test]
fn movement_range_multiplier_scales_budget() {
    let b = grid(5, 5);
    let blocked: Vec<Cell> = Vec::new();
    let r = compute_movement_range(Cell::new(2, 2), 1, 2, b, &blocked, |_a: Cell, _b: Cell| 2);
    assert_eq!(sorted(r), vec![(1, 2), (2, 1), (2, 2), (2, 3), (3, 2)]);
}

#[test]
fn movement_range_costs_over_budget_leave_origin() {
    let b = grid(5, 5);
    let blocked: Vec<Cell> = Vec::new();
    let r = compute_movement_range(Cell::new(2, 2), 2, 2, b, &blocked, |_a: Cell, _b: Cell| 5);
    assert_eq!(r, vec![Cell::new(2, 2)]);
}

#[test]
fn movement_range_skips_blocked_cells() {
    // A corridor one cell high: the block cuts off everything beyond it.
    let b = grid(6, 1);
    let blocked = vec![Cell::new(2, 0)];
    let r = compute_movement_range(Cell::new(0, 0), 5, 1, b, &blocked, |_a: Cell, _b: Cell| 1);
    assert_eq!(sorted(r), vec![(0, 0), (1, 0)]);
}

#[test]
fn movement_range_goes_around_blocked_cells() {
    let b = grid(3, 3);
    let blocked = vec![Cell::new(1, 0), Cell::new(1, 1)];
    let r = compute_movement_range(Cell::new(0, 0), 6, 1, b, &blocked, |_a: Cell, _b: Cell| 1);
    assert_eq!(
        sorted(r),
        vec![(0, 0), (0, 1), (0, 2), (1, 2), (2, 0), (2, 1), (2, 2)]
    );
}

#[test]
fn movement_range_uses_cheapest_costs() {
    // Entering row 0 to the right of the origin is expensive; going round
    // through row 1 is cheaper.
    let b = grid(3, 2);
    let blocked: Vec<Cell> = Vec::new();
    let cost = |_from: Cell, to: Cell| if to.y == 0 { 4 } else { 1 };
    let r = compute_movement_range(Cell::new(0, 0), 3, 1, b, &blocked, cost);
    assert_eq!(sorted(r), vec![(0, 0), (0, 1), (1, 1), (2, 1)]);
}

#[test]
fn movement_range_origin_outside_bounds() {
    let b = grid(3, 3);
    let blocked: Vec<Cell> = Vec::new();
    let r = compute_movement_range(Cell::new(-4, -4), 3, 1, b, &blocked, |_a: Cell, _b: Cell| 1);
    assert_eq!(r, vec![Cell::new(-4, -4)]);
}

#[test]
fn movement_range_free_moves() {
    let b = grid(3, 3);
    let blocked: Vec<Cell> = Vec::new();
    let r = compute_movement_range(Cell::new(1, 1), 1, 1, b, &blocked, |_a: Cell, _b: Cell| 0);
    assert_eq!(r.len(), 9);
}

#[test]
fn action_range_single_ring() {
    let b = grid(5, 5);
    let r = compute_action_range(&vec![Cell::new(2, 2)], 1, 1, b);
    assert_eq!(sorted(r), vec![(1, 2), (2, 1), (2, 3), (3, 2)]);
}

#[test]
fn action_range_ring_of_two() {
    let b = grid(5, 5);
    let r = compute_action_range(&vec![Cell::new(2, 2)], 2, 2, b);
    assert_eq!(
        sorted(r),
        vec![(0, 2), (1, 1), (1, 3), (2, 0), (2, 4), (3, 1), (3, 3), (4, 2)]
    );
}

#[test]
fn action_range_band_clipped_by_bounds() {
    let b = grid(3, 3);
    let r = compute_action_range(&vec![Cell::new(0, 0)], 1, 2, b);
    assert_eq!(sorted(r), vec![(0, 1), (0, 2), (1, 0), (1, 1), (2, 0)]);
}

#[test]
fn action_range_zero_minimum_holds_pivots() {
    let b = grid(5, 5);
    let pivots = vec![Cell::new(0, 0), Cell::new(4, 4)];
    let r = compute_action_range(&pivots, 0, 0, b);
    assert_eq!(sorted(r), vec![(0, 0), (4, 4)]);
}

#[test]
fn action_range_negative_maximum_is_empty() {
    let b = grid(5, 5);
    let r = compute_action_range(&vec![Cell::new(2, 2)], 0, -1, b);
    assert!(r.is_empty());
}

#[test]
fn action_range_no_pivots_is_empty() {
    let b = grid(5, 5);
    let r = compute_action_range(&Vec::new(), 1, 3, b);
    assert!(r.is_empty());
}

#[test]
fn action_range_cells_lie_in_some_ring() {
    let b = grid(6, 6);
    let pivots = vec![Cell::new(1, 1), Cell::new(1, 2), Cell::new(4, 4)];
    let r = compute_action_range(&pivots, 1, 2, b);
    assert!(!r.is_empty());
    for c in &r {
        assert!(b.contains_point(*c));
        assert!(pivots.iter().any(|p| {
            let d = manhattan_distance(*p, *c);
            (1..=2).contains(&d)
        }));
    }
    let mut keys = sorted(r.clone());
    keys.dedup();
    assert_eq!(keys.len(), r.len());
}

#[test]
fn movement_path_to_itself() {
    let b = grid(3, 3);
    let blocked: Vec<Cell> = Vec::new();
    let p = Cell::new(1, 1);
    let r = compute_movement_path(p, p, b, &blocked, &Vec::new(), |_a: Cell, _b: Cell| 1);
    assert_eq!(r, vec![p]);
}

#[test]
fn movement_path_across_open_grid() {
    let b = grid(3, 3);
    let blocked: Vec<Cell> = Vec::new();
    let valid = all_cells(3, 3);
    let from = Cell::new(0, 0);
    let to = Cell::new(2, 2);
    let r = compute_movement_path(from, to, b, &blocked, &valid, |_a: Cell, _b: Cell| 1);
    assert_eq!(r.len() as i32, manhattan_distance(from, to) + 1);
    assert_eq!(r[0], from);
    assert_eq!(r[r.len() - 1], to);
    let mut cumulative = 0;
    for w in r.windows(2) {
        assert_eq!(manhattan_distance(w[0], w[1]), 1);
        let next = cumulative + 1;
        assert!(next >= cumulative);
        cumulative = next;
    }
    assert_eq!(cumulative, 4);
}

#[test]
fn movement_path_unreachable_gives_start() {
    let b = grid(3, 3);
    let blocked: Vec<Cell> = Vec::new();
    // The destination is not among the valid cells.
    let valid = vec![Cell::new(1, 0), Cell::new(0, 1)];
    let r = compute_movement_path(
        Cell::new(0, 0),
        Cell::new(2, 2),
        b,
        &blocked,
        &valid,
        |_a: Cell, _b: Cell| 1,
    );
    assert_eq!(r, vec![Cell::new(0, 0)]);
}

#[test]
fn movement_path_walled_off_gives_start() {
    let b = grid(3, 3);
    let blocked = vec![Cell::new(1, 0), Cell::new(1, 1), Cell::new(1, 2)];
    let valid = all_cells(3, 3);
    let r = compute_movement_path(
        Cell::new(0, 0),
        Cell::new(2, 0),
        b,
        &blocked,
        &valid,
        |_a: Cell, _b: Cell| 1,
    );
    assert_eq!(r, vec![Cell::new(0, 0)]);
}

#[test]
fn movement_path_takes_cheaper_detour() {
    // Entering (1, 0) costs 10; the detour through row 1 costs 3.
    let b = grid(3, 2);
    let blocked: Vec<Cell> = Vec::new();
    let valid = all_cells(3, 2);
    let cost = |_from: Cell, to: Cell| if to == Cell::new(1, 0) { 10 } else { 1 };
    let r = compute_movement_path(Cell::new(0, 0), Cell::new(2, 0), b, &blocked, &valid, cost);
    assert_eq!(
        r,
        vec![Cell::new(0, 0), Cell::new(0, 1), Cell::new(1, 1), Cell::new(2, 1), Cell::new(2, 0)]
    );
}

#[test]
fn movement_path_avoids_blocked_cells() {
    let b = grid(3, 2);
    let blocked = vec![Cell::new(1, 0)];
    let valid = all_cells(3, 2);
    let r = compute_movement_path(
        Cell::new(0, 0),
        Cell::new(2, 0),
        b,
        &blocked,
        &valid,
        |_a: Cell, _b: Cell| 1,
    );
    assert_eq!(r.len(), 5);
    assert!(!r.contains(&Cell::new(1, 0)));
    assert_eq!(r[4], Cell::new(2, 0));
}

#[test]
fn movement_path_straight_line() {
    let b = grid(5, 1);
    let blocked: Vec<Cell> = Vec::new();
    let valid = all_cells(5, 1);
    let r = compute_movement_path(
        Cell::new(4, 0),
        Cell::new(0, 0),
        b,
        &blocked,
        &valid,
        |_a: Cell, _b: Cell| 2,
    );
    assert_eq!(
        r,
        vec![Cell::new(4, 0), Cell::new(3, 0), Cell::new(2, 0), Cell::new(1, 0), Cell::new(0, 0)]
    );
}

#[test]
fn action_range_two_pivots_union_of_rings() {
    // One row of cells from x = -5 to x = 9.
    let b = Bounds::new(Cell::new(-5, 0), Cell::new(15, 1));
    let pivots = vec![Cell::new(0, 0), Cell::new(3, 0)];
    let r = compute_action_range(&pivots, 1, 3, b);
    let expected: Vec<(i32, i32)> = (-3..=6).map(|x| (x, 0)).collect();
    assert_eq!(sorted(r), expected);
}

#[test]
fn action_range_two_pivots_two_apart() {
    let b = grid(5, 5);
    let pivots = vec![Cell::new(0, 0), Cell::new(2, 0)];
    let r = compute_action_range(&pivots, 2, 2, b);
    assert_eq!(
        sorted(r),
        vec![(0, 0), (0, 2), (1, 1), (2, 0), (2, 2), (3, 1), (4, 0)]
    );
}

#[test]
fn action_range_ignores_pivot_order_and_repeats() {
    let b = grid(6, 6);
    let a = compute_action_range(&vec![Cell::new(1, 1), Cell::new(4, 3)], 1, 2, b);
    let c = compute_action_range(
        &vec![Cell::new(4, 3), Cell::new(1, 1), Cell::new(4, 3)],
        1,
        2,
        b,
    );
    assert_eq!(sorted(a), sorted(c));
}

#[test]
fn action_range_pivot_outside_bounds_gives_only_itself() {
    let b = grid(3, 3);
    let outside = Cell::new(-2, 1);
    assert_eq!(compute_action_range(&vec![outside], 0, 3, b), vec![outside]);
    assert!(compute_action_range(&vec![outside], 1, 3, b).is_empty());
}

#[test]
fn action_range_matches_ring_union_everywhere() {
    let b = grid(7, 5);
    let pivots = vec![Cell::new(1, 1), Cell::new(2, 1), Cell::new(5, 3)];
    let r = sorted(compute_action_range(&pivots, 1, 2, b));
    let mut expected = Vec::new();
    for x in 0..7 {
        for y in 0..5 {
            let c = Cell::new(x, y);
            if pivots.iter().any(|p| (1..=2).contains(&manhattan_distance(*p, c))) {
                expected.push((x, y));
            }
        }
    }
    assert_eq!(r, expected);
}

#[test]
fn movement_path_to_itself_ignores_grid() {
    // With equal ends nothing else is looked at, not even a malformed grid.
    let b = Bounds::new(Cell::new(0, 0), Cell::new(-1, -1));
    let blocked: Vec<Cell> = Vec::new();
    let p = Cell::new(7, 7);
    let r = compute_movement_path(p, p, b, &blocked, &Vec::new(), |_a: Cell, _b: Cell| 1);
    assert_eq!(r, vec![p]);
}

#[test]
fn movement_range_without_budget_ignores_grid() {
    let b = Bounds::new(Cell::new(0, 0), Cell::new(-3, -3));
    let blocked: Vec<Cell> = Vec::new();
    let origin = Cell::new(1, 1);
    let r = compute_movement_range(origin, 0, 1, b, &blocked, |_a: Cell, _b: Cell| 1);
    assert_eq!(r, vec![origin]);
}
