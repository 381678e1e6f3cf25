//! Cells, rectangles and the orthogonal neighbourhood of a cell.

use vstd::prelude::*;
use vstd::set_lib::*;

verus! {

/// An integer grid coordinate.
#[derive(Clone, Copy, Debug, PartialEq, Eq, Structural, Hash)]
pub struct Cell {
    pub x: i32,
    pub y: i32,
}

impl Cell {
    pub fn new(x: i32, y: i32) -> (r: Cell)
        ensures
            r.x == x,
            r.y == y,
    {
        Cell { x, y }
    }
}

/// An axis-aligned rectangle given by its corner and its size; it holds the
/// cells `position.x <= x < position.x + size.x` (and the same for `y`).
#[derive(Clone, Copy, Debug, PartialEq, Eq, Structural)]
pub struct Bounds {
    pub position: Cell,
    pub size: Cell,
}

impl Bounds {
    pub fn new(position: Cell, size: Cell) -> (r: Bounds)
        ensures
            r.position == position,
            r.size == size,
    {
        Bounds { position, size }
    }

    /// A rectangle is well formed when its size is non-negative and its far
    /// corner is a representable coordinate.
    pub open spec fn wf(self) -> bool {
        &&& self.size.x >= 0
        &&& self.size.y >= 0
        &&& self.position.x + self.size.x <= i32::MAX
        &&& self.position.y + self.size.y <= i32::MAX
    }

    pub open spec fn holds(self, c: Cell) -> bool {
        &&& self.position.x <= c.x < self.position.x + self.size.x
        &&& self.position.y <= c.y < self.position.y + self.size.y
    }

    /// Whether the rectangle holds the cell.
    pub fn contains_point(&self, c: Cell) -> (r: bool)
        requires
            self.wf(),
        ensures
            r == self.holds(c),
    {
        let end_x = self.position.x + self.size.x;
        let end_y = self.position.y + self.size.y;
        self.position.x <= c.x && c.x < end_x && self.position.y <= c.y && c.y < end_y
    }

    /// Whether the rectangle holds the point `(x, y)`, which need not be a
    /// representable cell.
    fn holds_wide(&self, x: i64, y: i64) -> (r: bool)
        requires
            self.wf(),
        ensures
            r == (self.position.x <= x < self.position.x + self.size.x && self.position.y <= y
                < self.position.y + self.size.y),
    {
        let end_x = self.position.x as i64 + self.size.x as i64;
        let end_y = self.position.y as i64 + self.size.y as i64;
        self.position.x as i64 <= x && x < end_x && self.position.y as i64 <= y && y < end_y
    }
}

pub open spec fn abs(v: int) -> int {
    if v < 0 {
        -v
    } else {
        v
    }
}

/// `|a.x - b.x| + |a.y - b.y|`.
pub open spec fn manhattan(a: Cell, b: Cell) -> int {
    abs(a.x - b.x) + abs(a.y - b.y)
}

/// The Manhattan distance between two cells.
pub fn manhattan_distance(from: Cell, to: Cell) -> (r: i32)
    requires
        manhattan(from, to) <= i32::MAX,
    ensures
        r == manhattan(from, to),
{
    let dx: i64 = from.x as i64 - to.x as i64;
    let dy: i64 = from.y as i64 - to.y as i64;
    let ax: i64 = if dx < 0 {
        -dx
    } else {
        dx
    };
    let ay: i64 = if dy < 0 {
        -dy
    } else {
        dy
    };
    (ax + ay) as i32
}

/// The Manhattan distance is symmetric.
pub proof fn lemma_manhattan_symmetric(a: Cell, b: Cell)
    ensures
        manhattan(a, b) == manhattan(b, a),
        manhattan(a, b) == abs(a.x - b.x) + abs(a.y - b.y),
{
}

/// The Manhattan distance is zero exactly between equal cells.
pub proof fn lemma_manhattan_zero(a: Cell, b: Cell)
    ensures
        manhattan(a, b) >= 0,
        manhattan(a, b) == 0 <==> a == b,
{
}

/// The Manhattan distance satisfies the triangle inequality.
pub proof fn lemma_manhattan_triangle(a: Cell, b: Cell, c: Cell)
    ensures
        manhattan(a, c) <= manhattan(a, b) + manhattan(b, c),
{
}

/// The four orthogonal offsets in the order up, down, left, right.
pub open spec fn direction(i: int) -> (int, int) {
    if i == 0 {
        (0, -1)
    } else if i == 1 {
        (0, 1)
    } else if i == 2 {
        (-1, 0)
    } else {
        (1, 0)
    }
}

pub open spec fn shifted(c: Cell, i: int) -> Cell {
    Cell { x: (c.x + direction(i).0) as i32, y: (c.y + direction(i).1) as i32 }
}

/// Whether the neighbour of `c` in direction `i` lies in the rectangle.
pub open spec fn shifted_holds(b: Bounds, c: Cell, i: int) -> bool {
    &&& b.position.x <= c.x + direction(i).0 < b.position.x + b.size.x
    &&& b.position.y <= c.y + direction(i).1 < b.position.y + b.size.y
}

/// The neighbours of `c` among the directions `0 .. n`, in that order, that
/// lie in the rectangle.
pub open spec fn neighbours_upto(c: Cell, b: Bounds, n: int) -> Seq<Cell>
    decreases n,
{
    if n <= 0 {
        seq![]
    } else if shifted_holds(b, c, n - 1) {
        neighbours_upto(c, b, n - 1).push(shifted(c, n - 1))
    } else {
        neighbours_upto(c, b, n - 1)
    }
}

/// The orthogonal neighbours of a cell of the rectangle, up, down, left and
/// right, keeping those in the rectangle; none for a cell outside it.
pub open spec fn neighbours(c: Cell, b: Bounds) -> Seq<Cell> {
    if b.holds(c) {
        neighbours_upto(c, b, 4)
    } else {
        seq![]
    }
}

fn step_offset(i: usize) -> (r: (i64, i64))
    requires
        i < 4,
    ensures
        r.0 == direction(i as int).0,
        r.1 == direction(i as int).1,
{
    if i == 0 {
        (0, -1)
    } else if i == 1 {
        (0, 1)
    } else if i == 2 {
        (-1, 0)
    } else {
        (1, 0)
    }
}

/// The neighbours of `cell` in the order up, down, left, right, clipped to
/// `bounds`; none when `cell` lies outside `bounds`.
pub fn get_neighbours(cell: Cell, bounds: Bounds) -> (r: Vec<Cell>)
    requires
        bounds.wf(),
    ensures
        r@ == neighbours(cell, bounds),
{
    let mut r: Vec<Cell> = Vec::new();
    if !bounds.contains_point(cell) {
        return r;
    }
    let mut i: usize = 0;
    while i < 4
        invariant
            0 <= i <= 4,
            bounds.wf(),
            bounds.holds(cell),
            r@ == neighbours_upto(cell, bounds, i as int),
        decreases 4 - i,
    {
        let (dx, dy) = step_offset(i);
        let nx: i64 = cell.x as i64 + dx;
        let ny: i64 = cell.y as i64 + dy;
        if bounds.holds_wide(nx, ny) {
            r.push(Cell { x: nx as i32, y: ny as i32 });
        }
        i = i + 1;
    }
    r
}

/// The cells of the rectangle.
pub open spec fn cells_in(b: Bounds) -> Set<Cell> {
    Set::new(|c: Cell| b.holds(c))
}

pub proof fn lemma_cells_in_finite(b: Bounds)
    requires
        b.wf(),
    ensures
        cells_in(b).finite(),
    decreases b.size.x,
{
    if b.size.x == 0 {
        assert(cells_in(b) =~= Set::<Cell>::empty());
    } else {
        let narrower = Bounds { position: b.position, size: Cell { x: (b.size.x - 1) as i32, y: b.size.y } };
        lemma_cells_in_finite(narrower);
        let col_x: int = b.position.x + b.size.x - 1;
        let ys = set_int_range(b.position.y as int, b.position.y + b.size.y);
        let column = ys.map(|y: int| Cell { x: col_x as i32, y: y as i32 });
        lemma_int_range(b.position.y as int, b.position.y + b.size.y);
        ys.lemma_map_finite(|y: int| Cell { x: col_x as i32, y: y as i32 });
        assert forall|c: Cell| #[trigger] cells_in(b).contains(c) implies cells_in(narrower).union(
            column,
        ).contains(c) by {
            if c.x == col_x {
                assert(ys.contains(c.y as int));
                assert(column.contains(Cell { x: col_x as i32, y: c.y }));
            }
        }
        assert(cells_in(b) =~= cells_in(narrower).union(column));
    }
}

/// Every neighbour lies in the rectangle and differs from the cell by one
/// step.
pub proof fn lemma_neighbours_in_bounds(c: Cell, b: Bounds, n: Cell)
    requires
        b.wf(),
        neighbours(c, b).contains(n),
    ensures
        b.holds(c),
        b.holds(n),
        manhattan(c, n) == 1,
{
    neighbours_upto_facts(c, b, 4, n);
}

proof fn neighbours_upto_has(c: Cell, b: Bounds, k: int, i: int)
    requires
        0 <= i < k,
        shifted_holds(b, c, i),
    ensures
        neighbours_upto(c, b, k).contains(shifted(c, i)),
    decreases k,
{
    let s = neighbours_upto(c, b, k - 1);
    if i == k - 1 {
        assert(s.push(shifted(c, i))[s.len() as int] == shifted(c, i));
    } else {
        neighbours_upto_has(c, b, k - 1, i);
        if shifted_holds(b, c, k - 1) {
            let w = choose|w: int| 0 <= w < s.len() && s[w] == shifted(c, i);
            assert(s.push(shifted(c, k - 1))[w] == shifted(c, i));
        }
    }
}

/// A cell of the rectangle one step away from a cell of the rectangle is
/// one of its neighbours.
pub proof fn lemma_adjacent_is_neighbour(c: Cell, b: Bounds, n: Cell)
    requires
        b.wf(),
        b.holds(c),
        b.holds(n),
        manhattan(c, n) == 1,
    ensures
        neighbours(c, b).contains(n),
{
    let i: int = if n.y == c.y - 1 {
        0
    } else if n.y == c.y + 1 {
        1
    } else if n.x == c.x - 1 {
        2
    } else {
        3
    };
    assert(shifted(c, i) == n);
    neighbours_upto_has(c, b, 4, i);
}

proof fn neighbours_upto_facts(c: Cell, b: Bounds, k: int, n: Cell)
    requires
        b.wf(),
        neighbours_upto(c, b, k).contains(n),
    ensures
        b.holds(n),
        manhattan(c, n) == 1,
    decreases k,
{
    if k > 0 {
        if shifted_holds(b, c, k - 1) && n == shifted(c, k - 1) {
            assert(n.x == c.x + direction(k - 1).0);
            assert(n.y == c.y + direction(k - 1).1);
        } else if shifted_holds(b, c, k - 1) {
            assert(neighbours_upto(c, b, k - 1).contains(n)) by {
                let s = neighbours_upto(c, b, k - 1);
                let t = s.push(shifted(c, k - 1));
                let i = choose|i: int| 0 <= i < t.len() && #[trigger] t[i] == n;
                assert(s[i] == n);
            }
            neighbours_upto_facts(c, b, k - 1, n);
        } else {
            neighbours_upto_facts(c, b, k - 1, n);
        }
    }
}

proof fn neighbours_upto_shape(c: Cell, b: Bounds, k: int, n: Cell) -> (i: int)
    requires
        b.wf(),
        neighbours_upto(c, b, k).contains(n),
    ensures
        0 <= i < k,
        n.x == c.x + direction(i).0,
        n.y == c.y + direction(i).1,
    decreases k,
{
    let s = neighbours_upto(c, b, k - 1);
    if shifted_holds(b, c, k - 1) && n == shifted(c, k - 1) {
        k - 1
    } else {
        if shifted_holds(b, c, k - 1) {
            let t = s.push(shifted(c, k - 1));
            let w = choose|w: int| 0 <= w < t.len() && #[trigger] t[w] == n;
            assert(s[w] == n);
        }
        neighbours_upto_shape(c, b, k - 1, n)
    }
}

proof fn neighbours_upto_distinct(c: Cell, b: Bounds, k: int)
    requires
        b.wf(),
        k <= 4,
    ensures
        neighbours_upto(c, b, k).no_duplicates(),
    decreases k,
{
    if k > 0 {
        neighbours_upto_distinct(c, b, k - 1);
        let s = neighbours_upto(c, b, k - 1);
        if shifted_holds(b, c, k - 1) {
            let m = shifted(c, k - 1);
            assert(m.x == c.x + direction(k - 1).0);
            assert(m.y == c.y + direction(k - 1).1);
            if s.contains(m) {
                let i = neighbours_upto_shape(c, b, k - 1, m);
            }
            assert forall|a: int, d: int| 0 <= a < d < s.push(m).len() implies s.push(m)[a] != s.push(m)[d] by {
                if d == s.len() {
                    assert(s.contains(s[a]));
                }
            }
        }
    }
}

/// The neighbours of a cell are distinct.
pub proof fn lemma_neighbours_distinct(c: Cell, b: Bounds)
    requires
        b.wf(),
    ensures
        neighbours(c, b).no_duplicates(),
{
    neighbours_upto_distinct(c, b, 4);
}

/// The index of `c` in `v`, if it occurs there.
pub fn position_of(v: &Vec<Cell>, c: Cell) -> (r: Option<usize>)
    ensures
        r matches Some(i) ==> i < v@.len() && v@[i as int] == c,
        r is None ==> !v@.contains(c),
{
    let mut i: usize = 0;
    while i < v.len()
        invariant
            0 <= i <= v@.len(),
            forall|j: int| 0 <= j < i ==> v@[j] != c,
        decreases v@.len() - i,
    {
        if v[i] == c {
            return Some(i);
        }
        i = i + 1;
    }
    None
}

/// Whether `c` occurs in `v`.
pub fn contains_cell(v: &Vec<Cell>, c: Cell) -> (r: bool)
    ensures
        r == v@.contains(c),
{
    match position_of(v, c) {
        Some(_) => true,
        None => false,
    }
}

} // verus!
