//! The maze grid: cell states, positions, bounds and openness lookups, and
//! the neighbor generator used by the search.

use vstd::prelude::*;

verus! {

/// One grid cell: blocked or traversable.
#[derive(Clone, Copy, Debug, PartialEq, Eq, Structural)]
pub enum Spot {
    Wall,
    Empty,
}

/// An integer `(x, y)` grid coordinate, compared by value.
#[derive(Clone, Copy, Debug, PartialEq, Eq, Structural)]
pub struct Pos {
    pub x: i32,
    pub y: i32,
}

/// The largest accepted side length: the linear cell index `y * size + x`
/// stays below `size * size <= MAX_SIZE * MAX_SIZE`, which fits in `i32` and
/// in a 32-bit `usize`.
pub const MAX_SIZE: i32 = 46340;

/// Two positions are orthogonally adjacent: they differ by one step in
/// exactly one axis.
pub open spec fn spec_adjacent(a: Pos, b: Pos) -> bool {
    ||| (a.y == b.y && (b.x == a.x - 1 || b.x == a.x + 1))
    ||| (a.x == b.x && (b.y == a.y - 1 || b.y == a.y + 1))
}

/// The neighbor one step to the left.
pub open spec fn left_of(p: Pos) -> Pos {
    Pos { x: (p.x - 1) as i32, y: p.y }
}

/// The neighbor one step to the right.
pub open spec fn right_of(p: Pos) -> Pos {
    Pos { x: (p.x + 1) as i32, y: p.y }
}

/// The neighbor one step up.
pub open spec fn up_of(p: Pos) -> Pos {
    Pos { x: p.x, y: (p.y - 1) as i32 }
}

/// The neighbor one step down.
pub open spec fn down_of(p: Pos) -> Pos {
    Pos { x: p.x, y: (p.y + 1) as i32 }
}

/// Appends `q` when it is an open cell of `m`, else leaves `s` unchanged.
pub open spec fn push_if_open(s: Seq<Pos>, m: Maze, q: Pos) -> Seq<Pos> {
    if m.is_open(q) {
        s.push(q)
    } else {
        s
    }
}

/// The in-bounds open neighbors of `p`, in the fixed generation order
/// left, right, up, down.
pub open spec fn neighbor_seq(m: Maze, p: Pos) -> Seq<Pos> {
    push_if_open(
        push_if_open(
            push_if_open(push_if_open(Seq::empty(), m, left_of(p)), m, right_of(p)),
            m,
            up_of(p),
        ),
        m,
        down_of(p),
    )
}

/// A square grid of cells with a fixed target in the bottom-right corner.
///
/// The cells are stored row-major: the cell at `(x, y)` sits at linear
/// index `y * size + x`.
#[derive(Clone, Debug, PartialEq, Eq)]
pub struct Maze {
    pub size: i32,
    pub target: Pos,
    pub cells: Vec<Spot>,
}

impl Maze {
    /// The structural invariant: a positive side length within the machine
    /// limit, exactly `size * size` cells, and the target in the
    /// bottom-right corner.
    pub open spec fn well_formed(self) -> bool {
        &&& 1 <= self.size <= MAX_SIZE
        &&& self.cells@.len() == self.size * self.size
        &&& self.target == (Pos { x: (self.size - 1) as i32, y: (self.size - 1) as i32 })
    }

    /// `p` lies inside the grid.
    pub open spec fn in_bounds(self, p: Pos) -> bool {
        0 <= p.x < self.size && 0 <= p.y < self.size
    }

    /// The cell stored at coordinate `(x, y)`.
    pub open spec fn spot_at(self, x: int, y: int) -> Spot {
        self.cells@[y * self.size + x]
    }

    /// `p` is inside the grid and its cell is traversable.
    pub open spec fn is_open(self, p: Pos) -> bool {
        self.in_bounds(p) && self.spot_at(p.x as int, p.y as int) == Spot::Empty
    }

    /// Builds a grid of `size * size` open cells with the target in the
    /// bottom-right corner.
    pub fn new(size: i32) -> (m: Maze)
        requires
            1 <= size <= MAX_SIZE,
        ensures
            m.well_formed(),
            m.size == size,
            m.target == (Pos { x: (size - 1) as i32, y: (size - 1) as i32 }),
            forall|i: int| 0 <= i < m.cells@.len() ==> m.cells@[i] == Spot::Empty,
    {
        proof {
            assert(size * size <= MAX_SIZE * MAX_SIZE) by (nonlinear_arith)
                requires
                    1 <= size <= MAX_SIZE,
            ;
        }
        let n: usize = (size as usize) * (size as usize);
        let mut cells: Vec<Spot> = Vec::new();
        let mut i: usize = 0;
        while i < n
            invariant
                i <= n,
                cells@.len() == i,
                forall|j: int| 0 <= j < i ==> cells@[j] == Spot::Empty,
            decreases n - i,
        {
            cells.push(Spot::Empty);
            i = i + 1;
        }
        Maze { size, target: Pos { x: size - 1, y: size - 1 }, cells }
    }

    /// The cell at `(x, y)`; the coordinate must be inside the grid.
    pub fn get(&self, x: i32, y: i32) -> (s: Spot)
        requires
            self.well_formed(),
            0 <= x < self.size,
            0 <= y < self.size,
        ensures
            s == self.spot_at(x as int, y as int),
    {
        proof {
            assert(y * self.size + x < self.size * self.size) by (nonlinear_arith)
                requires
                    0 <= x < self.size,
                    0 <= y < self.size,
            ;
            assert(self.size * self.size <= MAX_SIZE * MAX_SIZE) by (nonlinear_arith)
                requires
                    1 <= self.size <= MAX_SIZE,
            ;
        }
        let idx: usize = (y as usize) * (self.size as usize) + (x as usize);
        self.cells[idx]
    }

    /// True iff the cell at `p` is traversable; `p` must be inside the grid.
    pub fn open(&self, p: &Pos) -> (b: bool)
        requires
            self.well_formed(),
            self.in_bounds(*p),
        ensures
            b == self.is_open(*p),
    {
        self.get(p.x, p.y) == Spot::Empty
    }
}

impl Pos {
    /// Builds the position `(x, y)`.
    pub fn new(x: i32, y: i32) -> (p: Pos)
        ensures
            p == (Pos { x, y }),
    {
        Pos { x, y }
    }

    /// The in-bounds open neighbors of `self`, generated in the fixed order
    /// left, right, up, down; `self` must be inside the grid.
    pub fn next(&self, m: &Maze) -> (r: Vec<Pos>)
        requires
            m.well_formed(),
            m.in_bounds(*self),
        ensures
            r@ == neighbor_seq(*m, *self),
            forall|q: Pos| r@.contains(q) <==> (spec_adjacent(*self, q) && m.is_open(q)),
            r@.no_duplicates(),
            r@.len() <= 4,
    {
        let mut r: Vec<Pos> = Vec::new();
        let left = Pos { x: self.x - 1, y: self.y };
        if left.x >= 0 && m.open(&left) {
            r.push(left);
        }
        let right = Pos { x: self.x + 1, y: self.y };
        if right.x < m.size && m.open(&right) {
            r.push(right);
        }
        let up = Pos { x: self.x, y: self.y - 1 };
        if up.y >= 0 && m.open(&up) {
            r.push(up);
        }
        let down = Pos { x: self.x, y: self.y + 1 };
        if down.y < m.size && m.open(&down) {
            r.push(down);
        }
        proof {
            lemma_neighbor_seq_contains(*m, *self);
            assert(r@ =~= neighbor_seq(*m, *self));
        }
        r
    }
}

/// True iff the path already holds the position.
pub fn path_contains(v: &Vec<Pos>, p: &Pos) -> (b: bool)
    ensures
        b == v@.contains(*p),
{
    let mut i: usize = 0;
    while i < v.len()
        invariant
            i <= v@.len(),
            forall|j: int| 0 <= j < i ==> v@[j] != *p,
        decreases v@.len() - i,
    {
        if v[i] == *p {
            return true;
        }
        i = i + 1;
    }
    proof {
        if v@.contains(*p) {
            let j = choose|j: int| 0 <= j < v@.len() && v@[j] == *p;
            assert(false);
        }
    }
    false
}

/// Characterizes the neighbor sequence: it holds exactly the open
/// orthogonal neighbors of `p`, without duplicates, and at most four.
proof fn lemma_neighbor_seq_contains(m: Maze, p: Pos)
    requires
        m.in_bounds(p),
    ensures
        forall|q: Pos| neighbor_seq(m, p).contains(q) <==> (spec_adjacent(p, q) && m.is_open(q)),
        neighbor_seq(m, p).no_duplicates(),
        neighbor_seq(m, p).len() <= 4,
{
    broadcast use vstd::seq_lib::group_seq_properties;

    let ns = neighbor_seq(m, p);
    assert forall|q: Pos| ns.contains(q) implies spec_adjacent(p, q) && m.is_open(q) by {
        let i = choose|i: int| 0 <= i < ns.len() && ns[i] == q;
        assert(q == left_of(p) || q == right_of(p) || q == up_of(p) || q == down_of(p));
    }
    assert forall|q: Pos| spec_adjacent(p, q) && m.is_open(q) implies ns.contains(q) by {
        assert(q == left_of(p) || q == right_of(p) || q == up_of(p) || q == down_of(p));
    }
}

} // verus!
