//! Shortest routes over an elevation map: a grid of letters where a step may
//! climb at most one letter and descend any amount.
use vstd::prelude::*;
use vstd::set_lib::{lemma_int_range, lemma_len_subset, set_int_range};
use vstd::arithmetic::div_mod::{lemma_fundamental_div_mod, lemma_fundamental_div_mod_converse, lemma_mod_pos_bound};

verus! {

/// Elevation of a grid letter: the start marker `S` stands at `a`, the target
/// marker `E` at `z`, every other letter at its own code.
pub open spec fn height_of(c: char) -> int {
    if c == 'S' {
        'a' as int
    } else if c == 'E' {
        'z' as int
    } else {
        c as int
    }
}

/// Cells `u` and `w` of a grid with `n` cells laid out row by row in rows of
/// `cols` share a side.
pub open spec fn side_by_side(cols: int, n: int, u: int, w: int) -> bool {
    &&& 0 <= u < n
    &&& 0 <= w < n
    &&& {
        ||| u / cols == w / cols && (u % cols - w % cols == 1 || w % cols - u % cols == 1)
        ||| u % cols == w % cols && (u / cols - w / cols == 1 || w / cols - u / cols == 1)
    }
}

/// A single step from cell `u` to cell `w` is allowed: they share a side and
/// `w` is at most one unit higher than `u`.
pub open spec fn can_step(cells: Seq<char>, cols: int, u: int, w: int) -> bool {
    side_by_side(cols, cells.len() as int, u, w) && height_of(cells[w]) - height_of(cells[u]) <= 1
}

/// `p` is a route: a sequence of grid cells in which each is one allowed step
/// from the one before.
pub open spec fn is_route(cells: Seq<char>, cols: int, p: Seq<int>) -> bool {
    &&& p.len() >= 1
    &&& 0 <= p[0] < cells.len()
    &&& forall|j: int| 0 <= j < p.len() - 1 ==> can_step(cells, cols, #[trigger] p[j], p[j + 1])
}

/// Cell `v` can be reached from cell `from` in at most `k` allowed steps.
pub open spec fn within(cells: Seq<char>, cols: int, from: int, v: int, k: nat) -> bool {
    exists|p: Seq<int>|
        #[trigger] is_route(cells, cols, p) && p[0] == from && p.last() == v && p.len() <= k + 1
}

/// A route followed by one more allowed step is a route.
proof fn lemma_route_extend(cells: Seq<char>, cols: int, p: Seq<int>, w: int)
    requires
        is_route(cells, cols, p),
        can_step(cells, cols, p.last(), w),
    ensures
        is_route(cells, cols, p.push(w)),
        p.push(w)[0] == p[0],
        p.push(w).last() == w,
{
    let q = p.push(w);
    assert forall|j: int| 0 <= j < q.len() - 1 implies can_step(cells, cols, #[trigger] q[j], q[j + 1]) by {
        if j < p.len() - 1 {
            assert(q[j] == p[j] && q[j + 1] == p[j + 1]);
        }
    }
}

/// A route of several cells, without its last cell, is a route.
proof fn lemma_route_shorten(cells: Seq<char>, cols: int, p: Seq<int>)
    requires
        is_route(cells, cols, p),
        p.len() >= 2,
    ensures
        is_route(cells, cols, p.drop_last()),
        p.drop_last()[0] == p[0],
        can_step(cells, cols, p.drop_last().last(), p.last()),
{
    let q = p.drop_last();
    assert forall|j: int| 0 <= j < q.len() - 1 implies can_step(cells, cols, #[trigger] q[j], q[j + 1]) by {
        assert(q[j] == p[j] && q[j + 1] == p[j + 1]);
    }
    assert(can_step(cells, cols, p[p.len() - 2], p[p.len() - 1]));
}

/// `d` is the length of a shortest route from `from` to `to`.
pub open spec fn is_shortest(cells: Seq<char>, cols: int, from: int, to: int, d: nat) -> bool {
    &&& within(cells, cols, from, to, d)
    &&& forall|k: nat| k < d ==> !#[trigger] within(cells, cols, from, to, k)
}

/// What a route search from `from` to `to` must answer: the length of a
/// shortest route, or `None` exactly when no route exists.
pub open spec fn answers(cells: Seq<char>, cols: int, from: int, to: int, r: Option<usize>) -> bool {
    match r {
        Some(d) => is_shortest(cells, cols, from, to, d as nat),
        None => forall|k: nat| !#[trigger] within(cells, cols, from, to, k),
    }
}

/// The cells of a grid text: its characters without the line breaks.
pub open spec fn grid_cells(s: Seq<char>) -> Seq<char> {
    s.filter(|c: char| c != '\n')
}

/// `s` is a grid text whose first line break is at `cols`: every row holds
/// `cols` cells, rows are separated by a line break, and a final line break is
/// optional.
pub open spec fn grid_text(s: Seq<char>, cols: int) -> bool {
    &&& 0 < cols < s.len()
    &&& forall|p: int| 0 <= p < s.len() ==> (s[p] == '\n' <==> p % (cols + 1) == cols)
    &&& s.len() as int % (cols + 1) == 0 || s.len() as int % (cols + 1) == cols
}

/// `k` is the first index of `ch` in `cells`.
pub open spec fn first_at(cells: Seq<char>, ch: char, k: int) -> bool {
    &&& 0 <= k < cells.len()
    &&& cells[k] == ch
    &&& forall|j: int| 0 <= j < k ==> cells[j] != ch
}

/// Why a text is not an elevation map.
#[derive(Clone, Copy, Debug, PartialEq, Eq)]
pub enum ParseError {
    NotRectangular,
    MissingStart,
    MissingTarget,
}

/// One cell of the grid: its index in row-major order, its column `x`, its
/// row `y`, its letter, and the width of the grid it belongs to.
#[derive(Clone, Copy, Debug, PartialEq, Eq)]
pub struct Vertex {
    pub i: usize,
    pub x: usize,
    pub y: usize,
    pub letter: char,
    pub cols: usize,
}

impl Vertex {
    /// Column and row agree with the index.
    pub open spec fn wf(self) -> bool {
        &&& self.cols > 0
        &&& self.x == self.i % self.cols
        &&& self.y == self.i / self.cols
    }

    pub fn new(i: usize, letter: char, cols: usize) -> (r: Vertex)
        requires
            cols > 0,
        ensures
            r.wf(),
            r.i == i,
            r.letter == letter,
            r.cols == cols,
    {
        let x = i % cols;
        let y = i / cols;
        Vertex { i, x, y, letter, cols }
    }

    pub fn height(&self) -> (r: usize)
        ensures
            r == height_of(self.letter),
    {
        match self.letter {
            'S' => 'a' as usize,
            'E' => 'z' as usize,
            _ => self.letter as usize,
        }
    }

    /// Both coordinates differ by at most one: the cells touch, at a side or a
    /// corner, or are the same cell.
    pub open spec fn touches(self, other: Vertex) -> bool {
        &&& self.x - other.x <= 1 && other.x - self.x <= 1
        &&& self.y - other.y <= 1 && other.y - self.y <= 1
    }

    /// The cells share a side: one coordinate is equal, the other differs by
    /// one.
    pub open spec fn shares_side(self, other: Vertex) -> bool {
        ||| self.x == other.x && (self.y - other.y == 1 || other.y - self.y == 1)
        ||| self.y == other.y && (self.x - other.x == 1 || other.x - self.x == 1)
    }

    /// How far apart the two cells' elevations are, in either direction.
    pub fn distance(&self, other: &Vertex) -> (r: usize)
        ensures
            r == (if height_of(self.letter) >= height_of(other.letter) {
                height_of(self.letter) - height_of(other.letter)
            } else {
                height_of(other.letter) - height_of(self.letter)
            }),
    {
        let a = self.height();
        let b = other.height();
        if a >= b {
            a - b
        } else {
            b - a
        }
    }

    pub fn is_neighbour(&self, other: &Vertex) -> (r: bool)
        ensures
            r == self.touches(*other),
    {
        let close_x = if self.x >= other.x { self.x - other.x <= 1 } else { other.x - self.x <= 1 };
        let close_y = if self.y >= other.y { self.y - other.y <= 1 } else { other.y - self.y <= 1 };
        close_x && close_y
    }

    /// The indices of the cells that share a side with this one, in a grid of
    /// `full_length` cells: left, above, below, right, as far as they exist.
    pub fn neighbours(&self, full_length: usize) -> (r: Vec<usize>)
        requires
            self.wf(),
            self.i < full_length,
        ensures
            r@ == neighbour_list(*self, full_length as int),
            r@.no_duplicates(),
            r.len() <= 4,
            forall|k: int|
                0 <= k < r.len() ==> side_by_side(
                    self.cols as int,
                    full_length as int,
                    self.i as int,
                    #[trigger] r[k] as int,
                ),
            forall|w: usize|
                side_by_side(self.cols as int, full_length as int, self.i as int, w as int)
                    ==> #[trigger] r@.contains(w),
    {
        let i = self.i;
        let cols = self.cols;
        let ghost c = cols as int;
        let ghost n = full_length as int;
        let ghost x = self.x as int;
        let ghost y = self.y as int;
        proof {
            lemma_fundamental_div_mod(i as int, c);
            lemma_mod_pos_bound(i as int, c);
        }
        let ghost (left, up, down, right) = side_parts(*self, n);
        let mut r: Vec<usize> = Vec::new();
        if self.x > 0 {
            proof {
                lemma_fundamental_div_mod_converse(i - 1, c, y, x - 1);
            }
            r.push(i - 1);
        }
        assert(r@ =~= left);
        if i >= cols {
            proof {
                assert(c * y == c * (y - 1) + c) by (nonlinear_arith);
                lemma_fundamental_div_mod_converse(i - c, c, y - 1, x);
            }
            r.push(i - cols);
        }
        assert(r@ =~= left + up);
        if cols < full_length - i {
            proof {
                assert(c * (y + 1) == c * y + c) by (nonlinear_arith);
                lemma_fundamental_div_mod_converse(i + c, c, y + 1, x);
            }
            r.push(i + cols);
        }
        assert(r@ =~= left + up + down);
        if self.x + 1 < cols && i + 1 < full_length {
            proof {
                lemma_fundamental_div_mod_converse(i + 1, c, y, x + 1);
            }
            r.push(i + 1);
        }
        assert(r@ =~= left + up + down + right);
        assert forall|w: usize| side_by_side(c, n, i as int, w as int) implies r@.contains(w) by {
            let wi = w as int;
            lemma_fundamental_div_mod(wi, c);
            lemma_mod_pos_bound(wi, c);
            if wi / c == y && wi % c == x - 1 {
                assert(wi == i - 1);
                assert(r@[0] == w);
            } else if wi / c == y && wi % c == x + 1 {
                assert(wi == i + 1);
                assert(r@[r.len() - 1] == w);
            } else if wi % c == x && wi / c == y - 1 {
                assert(c * y == c * (y - 1) + c) by (nonlinear_arith);
                assert(wi == i - c);
                assert(r@[left.len() as int] == w);
            } else {
                assert(c * (y + 1) == c * y + c) by (nonlinear_arith);
                assert(wi == i + c);
                assert(r@[(left.len() + up.len()) as int] == w);
            }
        }
        r
    }
}

/// The four parts of `neighbour_list`: the cell to the left, above, below
/// and to the right, each a one-element list where that cell exists.
pub open spec fn side_parts(v: Vertex, n: int) -> (Seq<usize>, Seq<usize>, Seq<usize>, Seq<usize>) {
    (
        if v.x > 0 { seq![(v.i - 1) as usize] } else { Seq::empty() },
        if v.i >= v.cols { seq![(v.i - v.cols) as usize] } else { Seq::empty() },
        if v.cols < n - v.i { seq![(v.i + v.cols) as usize] } else { Seq::empty() },
        if v.x + 1 < v.cols && v.i + 1 < n { seq![(v.i + 1) as usize] } else { Seq::empty() },
    )
}

/// The cells beside `v` in a grid of `n` cells, in the order left, above,
/// below, right, each where it exists.
pub open spec fn neighbour_list(v: Vertex, n: int) -> Seq<usize> {
    let (left, up, down, right) = side_parts(v, n);
    left + up + down + right
}

/// An elevation map ready for route searches: its cells in row-major order,
/// the row width, and the start and target cells.
pub struct Graph {
    vertices: Vec<Vertex>,
    cols: usize,
    start_index: usize,
    target_index: usize,
}

impl Graph {
    /// The letters of the cells, in row-major order.
    pub closed spec fn cells(&self) -> Seq<char> {
        self.vertices@.map_values(|v: Vertex| v.letter)
    }

    /// The number of cells in a row.
    pub closed spec fn width(&self) -> int {
        self.cols as int
    }

    pub closed spec fn start_cell(&self) -> int {
        self.start_index as int
    }

    pub closed spec fn target_cell(&self) -> int {
        self.target_index as int
    }

    /// Every stored vertex carries its own index and the coordinates derived
    /// from it, and start and target are cells of the grid.
    pub closed spec fn wf(&self) -> bool {
        &&& self.cols > 0
        &&& self.start_index < self.vertices.len()
        &&& self.target_index < self.vertices.len()
        &&& forall|k: int|
            0 <= k < self.vertices.len() ==> {
                let v = #[trigger] self.vertices@[k];
                v.wf() && v.i == k && v.cols == self.cols
            }
    }

    pub fn start(&self) -> (r: usize)
        ensures
            r == self.start_cell(),
            self.wf() ==> r < self.cells().len(),
    {
        self.start_index
    }

    pub fn target(&self) -> (r: usize)
        ensures
            r == self.target_cell(),
            self.wf() ==> r < self.cells().len(),
    {
        self.target_index
    }

    pub fn len(&self) -> (r: usize)
        ensures
            r == self.cells().len(),
    {
        self.vertices.len()
    }

    /// The cost of a single step from `a` to `b`: one, when the cells share a
    /// side and `b` is at most one unit higher than `a`; no step otherwise.
    pub fn distance(a: &Vertex, b: &Vertex) -> (r: Option<usize>)
        ensures
            r == (if a.shares_side(*b) && height_of(b.letter) - height_of(a.letter) <= 1 {
                Some(1usize)
            } else {
                None
            }),
    {
        if !a.is_neighbour(b) || (a.x == b.x) == (a.y == b.y) {
            None
        } else {
            let ha = a.height();
            let hb = b.height();
            if hb > ha && hb - ha > 1 {
                None
            } else {
                Some(1)
            }
        }
    }

    /// The steps that leave cell `v_idx`, each with its cost.
    pub fn adjacent_nodes(&self, v_idx: usize) -> (r: Vec<(usize, usize)>)
        requires
            self.wf(),
            v_idx < self.cells().len(),
        ensures
            r.len() <= 4,
            forall|k: int|
                0 <= k < r.len() ==> (#[trigger] r[k]).1 == 1 && can_step(
                    self.cells(),
                    self.width(),
                    v_idx as int,
                    r[k].0 as int,
                ),
            forall|w: usize|
                can_step(self.cells(), self.width(), v_idx as int, w as int) ==> exists|k: int|
                    0 <= k < r.len() && (#[trigger] r[k]).0 == w,
            forall|a: int, b: int| 0 <= a < b < r.len() ==> (#[trigger] r[a]).0 != (#[trigger] r[b]).0,
    {
        let n = self.vertices.len();
        let v = &self.vertices[v_idx];
        let ns = v.neighbours(n);
        let ghost cells = self.cells();
        let ghost c = self.cols as int;
        let mut r: Vec<(usize, usize)> = Vec::new();
        let mut j: usize = 0;
        while j < ns.len()
            invariant
                self.wf(),
                v_idx < n == self.vertices.len(),
                cells == self.cells(),
                c == self.width(),
                *v == self.vertices@[v_idx as int],
                ns.len() <= 4,
                j <= ns.len(),
                r.len() <= j,
                forall|k: int| 0 <= k < ns.len() ==> side_by_side(c, n as int, v_idx as int, #[trigger] ns[k] as int),
                forall|w: usize| side_by_side(c, n as int, v_idx as int, w as int) ==> #[trigger] ns@.contains(w),
                forall|k: int|
                    0 <= k < r.len() ==> (#[trigger] r[k]).1 == 1 && can_step(cells, c, v_idx as int, r[k].0 as int),
                forall|jj: int|
                    0 <= jj < j && can_step(cells, c, v_idx as int, #[trigger] ns[jj] as int) ==> exists|k: int|
                        0 <= k < r.len() && (#[trigger] r[k]).0 == ns[jj],
                ns@.no_duplicates(),
                forall|k: int| 0 <= k < r.len() ==> exists|jj: int| 0 <= jj < j && ns[jj] == (#[trigger] r[k]).0,
                forall|a: int, b: int| 0 <= a < b < r.len() ==> (#[trigger] r[a]).0 != (#[trigger] r[b]).0,
            decreases ns.len() - j,
        {
            let w = ns[j];
            let nv = &self.vertices[w];
            proof {
                let wi = w as int;
                lemma_mod_pos_bound(v_idx as int, c);
                lemma_mod_pos_bound(wi, c);
                assert(v.shares_side(*nv));
            }
            let ghost before = r@;
            match Graph::distance(v, nv) {
                Some(cost) => {
                    r.push((w, cost));
                    proof {
                        assert forall|k: int| 0 <= k < r.len() implies exists|jj: int|
                            0 <= jj < j + 1 && ns[jj] == (#[trigger] r[k]).0 by {
                            if k < before.len() {
                                assert(r[k] == before[k]);
                                let jj = choose|jj: int| 0 <= jj < j && ns[jj] == before[k].0;
                            } else {
                                assert(ns[j as int] == r[k].0);
                            }
                        }
                        assert forall|a: int, b: int| 0 <= a < b < r.len() implies (#[trigger] r[a]).0 != (
                        #[trigger] r[b]).0 by {
                            assert(r[a] == before[a]);
                            if b < before.len() {
                                assert(r[b] == before[b]);
                            } else {
                                let jj = choose|jj: int| 0 <= jj < j && ns[jj] == before[a].0;
                                assert(ns[jj] != ns[j as int]);
                            }
                        }
                    }
                },
                None => {},
            }
            assert forall|jj: int|
                0 <= jj < j + 1 && can_step(cells, c, v_idx as int, #[trigger] ns[jj] as int) implies exists|k: int|
                    0 <= k < r.len() && (#[trigger] r[k]).0 == ns[jj] by {
                if jj < j {
                    let k = choose|k: int| 0 <= k < before.len() && (#[trigger] before[k]).0 == ns[jj];
                    assert(r[k] == before[k]);
                } else {
                    assert(cells[w as int] == nv.letter);
                    assert(cells[v_idx as int] == v.letter);
                    assert(r[r.len() - 1].0 == w);
                }
            }
            j += 1;
        }
        assert forall|w: usize| can_step(cells, c, v_idx as int, w as int) implies exists|k: int|
            0 <= k < r.len() && (#[trigger] r[k]).0 == w by {
            assert(ns@.contains(w));
            let jj = choose|jj: int| 0 <= jj < ns.len() && ns[jj] == w;
            assert(can_step(cells, c, v_idx as int, ns[jj] as int));
        }
        r
    }
}

/// Every recorded distance is the length of some route, and at most `bound`.
spec fn recorded_ok(cells: Seq<char>, cols: int, from: int, dist: Seq<Option<usize>>, bound: int) -> bool {
    forall|w: int|
        0 <= w < dist.len() && (#[trigger] dist[w]) is Some ==> within(cells, cols, from, w, dist[w]->0 as nat)
            && dist[w]->0 <= bound
}

/// Every step out of `u` leads to a cell recorded at most one further than `u`.
spec fn relaxed(cells: Seq<char>, cols: int, dist: Seq<Option<usize>>, u: int) -> bool {
    forall|w: int| #[trigger] can_step(cells, cols, u, w) ==> dist[w] is Some && dist[w]->0 <= dist[u]->0 + 1
}

/// Each frontier entry names a recorded cell, no nearer than its record and
/// no nearer than `level`.
spec fn frontier_ok(dist: Seq<Option<usize>>, fr: Seq<(usize, usize)>, level: int) -> bool {
    forall|e: (usize, usize)|
        #[trigger] fr.contains(e) ==> e.0 < dist.len() && dist[e.0 as int] is Some && dist[e.0 as int]->0 <= e.1
            && level <= e.1
}

/// Each recorded cell that is not settled, other than `skip`, has a frontier
/// entry at its recorded distance.
spec fn frontier_covers(dist: Seq<Option<usize>>, done: Seq<bool>, fr: Seq<(usize, usize)>, skip: int) -> bool {
    forall|w: int|
        0 <= w < dist.len() && w != skip && (#[trigger] dist[w]) is Some && !done[w] ==> fr.contains(
            (w as usize, dist[w]->0),
        )
}

/// A route from `from` ends at a settled cell recorded no further than the
/// route's length, or meets a recorded cell that is not yet settled, recorded
/// no further than the route's length.
proof fn lemma_route_meets_frontier(
    cells: Seq<char>,
    cols: int,
    from: int,
    dist: Seq<Option<usize>>,
    done: Seq<bool>,
    p: Seq<int>,
)
    requires
        dist.len() == cells.len(),
        done.len() == cells.len(),
        dist[from] == Some(0usize),
        forall|u: int|
            0 <= u < cells.len() && #[trigger] done[u] ==> dist[u] is Some && relaxed(cells, cols, dist, u),
        is_route(cells, cols, p),
        p[0] == from,
    ensures
        (done[p.last()] && dist[p.last()]->0 <= p.len() - 1) || exists|w: int|
            0 <= w < cells.len() && !done[w] && (#[trigger] dist[w]) is Some && dist[w]->0 <= p.len() - 1,
    decreases p.len(),
{
    if p.len() == 1 {
        if !done[from] {
            assert(dist[from] is Some);
        }
    } else {
        let q = p.drop_last();
        lemma_route_shorten(cells, cols, p);
        lemma_route_meets_frontier(cells, cols, from, dist, done, q);
        let u = q.last();
        let v = p.last();
        if done[u] && dist[u]->0 <= q.len() - 1 {
            assert(relaxed(cells, cols, dist, u));
            assert(dist[v] is Some);
        }
    }
}

/// Takes out an entry of smallest distance.
fn pop_min(fr: &mut Vec<(usize, usize)>) -> (r: (usize, usize))
    requires
        old(fr).len() > 0,
    ensures
        final(fr).len() + 1 == old(fr).len(),
        old(fr)@.contains(r),
        forall|e: (usize, usize)| #[trigger] final(fr)@.contains(e) ==> old(fr)@.contains(e),
        forall|e: (usize, usize)| old(fr)@.contains(e) && e != r ==> #[trigger] final(fr)@.contains(e),
        forall|e: (usize, usize)| #[trigger] old(fr)@.contains(e) ==> r.1 <= e.1,
{
    let mut best: usize = 0;
    let mut j: usize = 1;
    while j < fr.len()
        invariant
            best < j <= fr.len(),
            forall|k: int| 0 <= k < j ==> fr[best as int].1 <= (#[trigger] fr[k]).1,
        decreases fr.len() - j,
    {
        if fr[j].1 < fr[best].1 {
            best = j;
        }
        j += 1;
    }
    let ghost before = fr@;
    let r = fr.remove(best);
    proof {
        assert(before[best as int] == r);
        assert forall|e: (usize, usize)| #[trigger] fr@.contains(e) implies before.contains(e) by {
            let k = choose|k: int| 0 <= k < fr.len() && fr@[k] == e;
            if k < best {
                assert(before[k] == e);
            } else {
                assert(before[k + 1] == e);
            }
        }
        assert forall|e: (usize, usize)| before.contains(e) && e != r implies #[trigger] fr@.contains(e) by {
            let k = choose|k: int| 0 <= k < before.len() && before[k] == e;
            if k < best {
                assert(fr@[k] == e);
            } else {
                assert(fr@[k - 1] == e);
            }
        }
        assert forall|e: (usize, usize)| #[trigger] before.contains(e) implies r.1 <= e.1 by {
            let k = choose|k: int| 0 <= k < before.len() && before[k] == e;
            assert(r.1 <= before[k].1);
        }
    }
    r
}

/// What one search found: the length of a shortest route to the target, if
/// there is a route, and every cell settled on the way with its distance, in
/// the order the cells were settled.
pub struct Search {
    pub distance: Option<usize>,
    pub settled: Vec<(usize, usize)>,
}

/// Searches for a shortest route from cell `from` to cell `to`, settling cells
/// in order of distance: a frontier of (cell, distance) entries is drained
/// smallest first, stale entries for cells already settled are skipped, and
/// each cell settled offers each of its steps to its neighbours.
#[verifier::rlimit(50)]
pub fn dijkstra(g: &Graph, from: usize, to: usize) -> (r: Search)
    requires
        g.wf(),
        from < g.cells().len(),
        to < g.cells().len(),
    ensures
        answers(g.cells(), g.width(), from as int, to as int, r.distance),
        r.distance matches Some(d) ==> d < g.cells().len(),
        forall|a: int, b: int|
            0 <= a < b < r.settled.len() ==> (#[trigger] r.settled[a]).1 <= (#[trigger] r.settled[b]).1
                && r.settled[a].0 != r.settled[b].0,
        forall|k: int|
            0 <= k < r.settled.len() ==> is_shortest(
                g.cells(),
                g.width(),
                from as int,
                (#[trigger] r.settled[k]).0 as int,
                r.settled[k].1 as nat,
            ),
{
    let n = g.len();
    let ghost cells = g.cells();
    let ghost cols = g.width();
    let mut dist: Vec<Option<usize>> = Vec::new();
    let mut done: Vec<bool> = Vec::new();
    let mut i: usize = 0;
    while i < n
        invariant
            i <= n,
            dist.len() == i,
            done.len() == i,
            forall|w: int| 0 <= w < i ==> #[trigger] dist[w] == None::<usize>,
            forall|w: int| 0 <= w < i ==> #[trigger] done[w] == false,
        decreases n - i,
    {
        let ghost d0 = dist@;
        let ghost f0 = done@;
        dist.push(None);
        done.push(false);
        i += 1;
        assert forall|w: int| 0 <= w < i implies #[trigger] dist[w] == None::<usize> by {
            if w < i - 1 {
                assert(dist[w] == d0[w]);
            }
        }
        assert forall|w: int| 0 <= w < i implies #[trigger] done[w] == false by {
            if w < i - 1 {
                assert(done[w] == f0[w]);
            }
        }
    }
    let ghost d0 = dist@;
    dist.set(from, Some(0));
    let mut frontier: Vec<(usize, usize)> = Vec::new();
    frontier.push((from, 0));
    let mut settled: Vec<(usize, usize)> = Vec::new();
    let ghost mut fin: Set<int> = Set::empty();
    let ghost mut level: int = 0;
    proof {
        let p = seq![from as int];
        assert(is_route(cells, cols, p));
        assert(within(cells, cols, from as int, from as int, 0));
        assert forall|w: int| 0 <= w < n && (#[trigger] dist[w]) is Some implies within(cells, cols, from as int, w, dist[w]->0 as nat)
            && dist[w]->0 <= 0 by {
            if w != from {
                assert(dist[w] == d0[w]);
            }
        }
        assert(frontier@[0] == (from, 0usize));
        assert forall|e: (usize, usize)| #[trigger] frontier@.contains(e) implies e == (from, 0usize) by {}
        lemma_int_range(0, n as int);
    }
    while frontier.len() > 0
        invariant
            g.wf(),
            n == cells.len(),
            cells == g.cells(),
            cols == g.width(),
            from < n,
            to < n,
            dist.len() == n,
            done.len() == n,
            dist[from as int] == Some(0usize),
            fin.finite(),
            fin.len() <= n,
            fin.subset_of(set_int_range(0, n as int)),
            forall|w: int| 0 <= w < n ==> (#[trigger] done[w] <==> fin.contains(w)),
            recorded_ok(cells, cols, from as int, dist@, fin.len() as int),
            forall|u: int|
                0 <= u < n && #[trigger] done[u] ==> dist[u] is Some && dist[u]->0 <= level && relaxed(
                    cells,
                    cols,
                    dist@,
                    u,
                ),
            frontier_ok(dist@, frontier@, level),
            frontier_covers(dist@, done@, frontier@, -1),
            !done[to as int],
            0 <= level,
            forall|a: int, b: int|
                0 <= a < b < settled.len() ==> (#[trigger] settled[a]).1 <= (#[trigger] settled[b]).1
                    && settled[a].0 != settled[b].0,
            forall|k: int|
                0 <= k < settled.len() ==> (#[trigger] settled[k]).1 <= level && settled[k].0 < n
                    && done[settled[k].0 as int] && is_shortest(
                    cells,
                    cols,
                    from as int,
                    settled[k].0 as int,
                    settled[k].1 as nat,
                ),
        decreases 5 * (n - fin.len()) + frontier.len(),
    {
        let ghost fr_before = frontier@;
        let (v, x) = pop_min(&mut frontier);
        if !done[v] {
            proof {
                assert(frontier_ok(dist@, fr_before, level));
                assert(fr_before.contains((v, x)));
                assert(dist[v as int] is Some);
                assert(fr_before.contains((v, dist[v as int]->0)));
                assert(x == dist[v as int]->0);
                assert forall|k: nat| k < x implies !#[trigger] within(cells, cols, from as int, v as int, k) by {
                    if within(cells, cols, from as int, v as int, k) {
                        let p = choose|p: Seq<int>|
                            #[trigger] is_route(cells, cols, p) && p[0] == from && p.last() == v && p.len()
                                <= k + 1;
                        lemma_route_meets_frontier(cells, cols, from as int, dist@, done@, p);
                        let w = choose|w: int|
                            0 <= w < n && !done[w] && (#[trigger] dist[w]) is Some && dist[w]->0 <= p.len() - 1;
                        assert(fr_before.contains((w as usize, dist[w]->0)));
                    }
                }
                lemma_int_range(0, n as int);
                assert(fin.subset_of(set_int_range(0, n as int).remove(v as int)));
                lemma_len_subset(fin, set_int_range(0, n as int).remove(v as int));
            }
            settled.push((v, x));
            if v == to {
                return Search { distance: Some(x), settled };
            }
            let steps = g.adjacent_nodes(v);
            let ghost dist_before = dist@;
            let ghost fr_popped = frontier@;
            let mut j: usize = 0;
            while j < steps.len()
                invariant
                    g.wf(),
                    n == cells.len(),
                    cells == g.cells(),
                    cols == g.width(),
                    v < n,
                    !done[v as int],
                    x == dist[v as int]->0,
                    dist[v as int] is Some,
                    within(cells, cols, from as int, v as int, x as nat),
                    x < n,
                    x <= fin.len(),
                    level <= x,
                    steps.len() <= 4,
                    j <= steps.len(),
                    forall|k: int|
                        0 <= k < steps.len() ==> (#[trigger] steps[k]).1 == 1 && can_step(
                            cells,
                            cols,
                            v as int,
                            steps[k].0 as int,
                        ),
                    dist.len() == n,
                    done.len() == n,
                    dist[from as int] == Some(0usize),
                    recorded_ok(cells, cols, from as int, dist@, fin.len() as int + 1),
                    dist_before.len() == n,
                    forall|w: int|
                        0 <= w < n && dist_before[w] is Some ==> (#[trigger] dist[w]) is Some && dist[w]->0
                            <= dist_before[w]->0,
                    fin.finite(),
                    fin.len() < n,
                    fin.subset_of(set_int_range(0, n as int)),
                    forall|w: int| 0 <= w < n ==> (#[trigger] done[w] <==> fin.contains(w)),
                    forall|u: int|
                        0 <= u < n && #[trigger] done[u] ==> dist[u] is Some && dist[u]->0 <= level && relaxed(
                            cells,
                            cols,
                            dist@,
                            u,
                        ),
                    !done[to as int],
                    from < n,
                    to < n,
                    forall|w: int|
                        0 <= w < n && #[trigger] done[w] ==> dist[w] == dist_before[w],
                    forall|jj: int|
                        0 <= jj < j ==> (done[(#[trigger] steps[jj]).0 as int] || (dist[steps[jj].0 as int] is Some
                            && dist[steps[jj].0 as int]->0 <= x + 1)),
                    frontier_ok(dist@, frontier@, x as int),
                    frontier_covers(dist@, done@, frontier@, v as int),
                    frontier.len() <= fr_popped.len() + j,
                decreases steps.len() - j,
            {
                let (w, cost) = steps[j];
                if !done[w] {
                    let candidate = x + cost;
                    let better = match dist[w] {
                        None => true,
                        Some(dw) => candidate < dw,
                    };
                    if better {
                        proof {
                            let p = choose|p: Seq<int>|
                                #[trigger] is_route(cells, cols, p) && p[0] == from && p.last() == v && p.len()
                                    <= x + 1;
                            lemma_route_extend(cells, cols, p, w as int);
                            assert(is_route(cells, cols, p.push(w as int)));
                        }
                        let ghost fr_prev = frontier@;
                        dist.set(w, Some(candidate));
                        frontier.push((w, candidate));
                        proof {
                            assert forall|e: (usize, usize)| #[trigger] frontier@.contains(e) implies fr_prev.contains(e)
                                || e == (w, candidate) by {
                                let k = choose|k: int| 0 <= k < frontier.len() && frontier@[k] == e;
                                if k < fr_prev.len() {
                                    assert(fr_prev[k] == e);
                                }
                            }
                            assert forall|e: (usize, usize)| fr_prev.contains(e) implies #[trigger] frontier@.contains(e) by {
                                let k = choose|k: int| 0 <= k < fr_prev.len() && fr_prev[k] == e;
                                assert(frontier@[k] == e);
                            }
                            assert(frontier@[frontier.len() - 1] == (w, candidate));
                        }
                    }
                }
                j += 1;
            }
            proof {
                assert forall|w: int| #[trigger] can_step(cells, cols, v as int, w) implies dist[w] is Some
                    && dist[w]->0 <= dist[v as int]->0 + 1 by {
                    let k = choose|k: int| 0 <= k < steps.len() && (#[trigger] steps[k]).0 == w as usize;
                    assert(steps[k].0 == w);
                }
                assert(relaxed(cells, cols, dist@, v as int));
            }
            done.set(v, true);
            proof {
                fin = fin.insert(v as int);
                level = x as int;
                lemma_int_range(0, n as int);
                lemma_len_subset(fin, set_int_range(0, n as int));
            }
        }
    }
    proof {
        assert forall|k: nat| !#[trigger] within(cells, cols, from as int, to as int, k) by {
            if within(cells, cols, from as int, to as int, k) {
                let p = choose|p: Seq<int>|
                    #[trigger] is_route(cells, cols, p) && p[0] == from && p.last() == to && p.len() <= k + 1;
                lemma_route_meets_frontier(cells, cols, from as int, dist@, done@, p);
                let w = choose|w: int| 0 <= w < n && !done[w] && (#[trigger] dist[w]) is Some && dist[w]->0 <= p.len() - 1;
                assert(frontier@.contains((w as usize, dist[w]->0)));
            }
        }
    }
    Search { distance: None, settled }
}

/// The first index of `ch` among the vertices' letters, if it occurs.
fn find_letter(vs: &Vec<Vertex>, ch: char) -> (r: Option<usize>)
    ensures
        match r {
            Some(k) => first_at(vs@.map_values(|v: Vertex| v.letter), ch, k as int),
            None => !vs@.map_values(|v: Vertex| v.letter).contains(ch),
        },
{
    let ghost letters = vs@.map_values(|v: Vertex| v.letter);
    let mut k: usize = 0;
    while k < vs.len()
        invariant
            k <= vs.len(),
            letters == vs@.map_values(|v: Vertex| v.letter),
            forall|j: int| 0 <= j < k ==> letters[j] != ch,
        decreases vs.len() - k,
    {
        if vs[k].letter == ch {
            return Some(k);
        }
        k += 1;
    }
    assert forall|j: int| 0 <= j < letters.len() implies letters[j] != ch by {}
    None
}

/// In a grid text the first line break sits at the row width.
proof fn lemma_grid_width(t: Seq<char>, cols: int, c: int)
    requires
        0 < cols < t.len(),
        t[cols] == '\n',
        forall|q: int| 0 <= q < cols ==> t[q] != '\n',
        grid_text(t, c),
    ensures
        c == cols,
{
    if c < cols {
        lemma_fundamental_div_mod_converse(c, c + 1, 0, c);
        assert(t[c] == '\n');
    } else if c > cols {
        lemma_fundamental_div_mod_converse(cols, c + 1, 0, cols);
    }
}

/// A text without a line break, or starting with one, is no grid text.
proof fn lemma_no_width(t: Seq<char>, cols: int)
    requires
        0 <= cols <= t.len(),
        forall|q: int| 0 <= q < cols ==> t[q] != '\n',
        cols == t.len() || cols == 0,
        cols < t.len() ==> t[cols] == '\n',
    ensures
        forall|c: int| !grid_text(t, c),
{
    assert forall|c: int| !grid_text(t, c) by {
        if grid_text(t, c) {
            if cols == t.len() {
                lemma_fundamental_div_mod_converse(c, c + 1, 0, c);
                assert(t[c] == '\n');
            } else {
                lemma_fundamental_div_mod_converse(0, c + 1, 0, 0);
                assert(t[0] == '\n');
            }
        }
    }
}

/// Reads the rows of a text whose first line break is at `cols`, one vertex
/// per letter, checking that every line break sits where a row ends.
fn read_cells(text: &str, len: usize, cols: usize) -> (r: Option<Vec<Vertex>>)
    requires
        len == text@.len(),
        0 < cols < len,
        text@[cols as int] == '\n',
        forall|q: int| 0 <= q < cols ==> text@[q] != '\n',
    ensures
        match r {
            Some(vs) => {
                &&& grid_text(text@, cols as int)
                &&& vs@.map_values(|v: Vertex| v.letter) == grid_cells(text@)
                &&& forall|k: int|
                    0 <= k < vs.len() ==> {
                        let v = #[trigger] vs@[k];
                        v.wf() && v.i == k && v.cols == cols
                    }
            },
            None => forall|c: int| !grid_text(text@, c),
        },
{
    let ghost t = text@;
    let ghost w = cols as int + 1;
    let mut vertices: Vec<Vertex> = Vec::new();
    let mut run: usize = 0;
    let mut p: usize = 0;
    proof {
        lemma_fundamental_div_mod_converse(0, w, 0, 0);
        reveal(Seq::filter);
        assert(t.subrange(0, 0) =~= Seq::<char>::empty());
    }
    while p < len
        invariant
            t == text@,
            len == t.len(),
            0 < cols < len,
            t[cols as int] == '\n',
            forall|q: int| 0 <= q < cols ==> t[q] != '\n',
            w == cols + 1,
            p <= len,
            run < w,
            run == p as int % w,
            forall|q: int| 0 <= q < p ==> (t[q] == '\n' <==> q % w == cols),
            vertices@.map_values(|v: Vertex| v.letter) == grid_cells(t.subrange(0, p as int)),
            forall|k: int|
                0 <= k < vertices.len() ==> {
                    let v = #[trigger] vertices@[k];
                    v.wf() && v.i == k && v.cols == cols
                },
        decreases len - p,
    {
        let ch = text.get_char(p);
        proof {
            lemma_fundamental_div_mod(p as int, w);
            let a = p as int / w;
            assert(a * w == w * a && (a + 1) * w == w * a + w) by (nonlinear_arith);
            assert(p as int == a * w + run);
            if run + 1 < w {
                lemma_fundamental_div_mod_converse(p as int + 1, w, a, run as int + 1);
            } else {
                lemma_fundamental_div_mod_converse(p as int + 1, w, a + 1, 0);
            }
            reveal(Seq::filter);
            assert(t.subrange(0, p as int + 1).drop_last() =~= t.subrange(0, p as int));
            assert(t.subrange(0, p as int + 1).last() == ch);
        }
        if (run == cols) != (ch == '\n') {
            proof {
                assert forall|c: int| !grid_text(t, c) by {
                    if grid_text(t, c) {
                        lemma_grid_width(t, cols as int, c);
                        assert(t[p as int] == '\n' <==> p as int % w == cols);
                    }
                }
            }
            return None;
        }
        if run == cols {
            run = 0;
        } else {
            let k = vertices.len();
            let ghost before = vertices@;
            vertices.push(Vertex::new(k, ch, cols));
            proof {
                assert(vertices@.map_values(|v: Vertex| v.letter) =~= before.map_values(|v: Vertex| v.letter).push(ch));
            }
            run += 1;
        }
        p += 1;
    }
    proof {
        assert(t.subrange(0, len as int) =~= t);
    }
    if run != 0 && run != cols {
        proof {
            assert forall|c: int| !grid_text(t, c) by {
                if grid_text(t, c) {
                    lemma_grid_width(t, cols as int, c);
                }
            }
        }
        return None;
    }
    Some(vertices)
}

/// Reads an elevation map: rows of letters separated by line breaks, all as
/// wide as the first, with one start marker `S` and one target marker `E`
/// (the first of each counts).
pub fn new(ls: String) -> (r: Result<Graph, ParseError>)
    ensures
        match r {
            Ok(g) => {
                &&& g.wf()
                &&& grid_text(ls@, g.width())
                &&& g.cells() == grid_cells(ls@)
                &&& first_at(g.cells(), 'S', g.start_cell())
                &&& first_at(g.cells(), 'E', g.target_cell())
            },
            Err(ParseError::NotRectangular) => forall|c: int| !grid_text(ls@, c),
            Err(ParseError::MissingTarget) => {
                &&& exists|c: int| grid_text(ls@, c)
                &&& !grid_cells(ls@).contains('E')
            },
            Err(ParseError::MissingStart) => {
                &&& exists|c: int| grid_text(ls@, c)
                &&& grid_cells(ls@).contains('E')
                &&& !grid_cells(ls@).contains('S')
            },
        },
{
    let text = ls.as_str();
    let len = text.unicode_len();
    let ghost t = ls@;
    // the row width is the position of the first line break
    let mut cols: usize = 0;
    while cols < len && text.get_char(cols) != '\n'
        invariant
            t == text@,
            len == t.len(),
            cols <= len,
            forall|p: int| 0 <= p < cols ==> t[p] != '\n',
        decreases len - cols,
    {
        cols += 1;
    }
    if cols == len || cols == 0 {
        proof {
            lemma_no_width(t, cols as int);
        }
        return Err(ParseError::NotRectangular);
    }
    let vertices = match read_cells(text, len, cols) {
        Some(vs) => vs,
        None => {
            return Err(ParseError::NotRectangular);
        },
    };
    let target_index = match find_letter(&vertices, 'E') {
        Some(k) => k,
        None => {
            return Err(ParseError::MissingTarget);
        },
    };
    let start_index = match find_letter(&vertices, 'S') {
        Some(k) => k,
        None => {
            return Err(ParseError::MissingStart);
        },
    };
    Ok(Graph { vertices, cols, start_index, target_index })
}

/// The length of a shortest route from the start to the target, or `None`
/// when no route leads there.
pub fn shortest_distance(g: &Graph) -> (r: Option<usize>)
    requires
        g.wf(),
    ensures
        answers(g.cells(), g.width(), g.start_cell(), g.target_cell(), r),
        r matches Some(d) ==> d < g.cells().len(),
{
    let search = dijkstra(g, g.start(), g.target());
    search.distance
}

/// A route search has a single right answer, so searching the same map twice
/// gives the same result.
pub proof fn lemma_answer_unique(
    cells: Seq<char>,
    cols: int,
    from: int,
    to: int,
    r1: Option<usize>,
    r2: Option<usize>,
)
    requires
        answers(cells, cols, from, to, r1),
        answers(cells, cols, from, to, r2),
    ensures
        r1 == r2,
{
    match (r1, r2) {
        (Some(d1), Some(d2)) => {
            if d1 < d2 {
                assert(!within(cells, cols, from, to, d1 as nat));
            } else if d2 < d1 {
                assert(!within(cells, cols, from, to, d2 as nat));
            }
        },
        (Some(d1), None) => {
            assert(!within(cells, cols, from, to, d1 as nat));
        },
        (None, Some(d2)) => {
            assert(!within(cells, cols, from, to, d2 as nat));
        },
        (None, None) => {},
    }
}

/// From a cell to itself the distance is zero.
pub proof fn lemma_same_cell(cells: Seq<char>, cols: int, c: int, r: Option<usize>)
    requires
        0 <= c < cells.len(),
        answers(cells, cols, c, c, r),
    ensures
        r == Some(0usize),
{
    let p = seq![c];
    assert(is_route(cells, cols, p));
    assert(within(cells, cols, c, c, 0));
    match r {
        Some(d) => {
            if d > 0 {
                assert(!within(cells, cols, c, c, 0));
            }
        },
        None => {
            assert(!within(cells, cols, c, c, 0));
        },
    }
}

/// A target more than one unit above each cell beside it cannot be entered by
/// a step, so no route from any other cell reaches it.
pub proof fn lemma_walled_target(cells: Seq<char>, cols: int, from: int, to: int)
    requires
        from != to,
        forall|u: int|
            #[trigger] side_by_side(cols, cells.len() as int, u, to) ==> height_of(cells[to]) - height_of(cells[u])
                > 1,
    ensures
        forall|k: nat| !#[trigger] within(cells, cols, from, to, k),
{
    assert forall|k: nat| !#[trigger] within(cells, cols, from, to, k) by {
        if within(cells, cols, from, to, k) {
            let p = choose|p: Seq<int>|
                #[trigger] is_route(cells, cols, p) && p[0] == from && p.last() == to && p.len() <= k + 1;
            lemma_route_shorten(cells, cols, p);
            assert(side_by_side(cols, cells.len() as int, p.drop_last().last(), to));
        }
    }
}

} // verus!
