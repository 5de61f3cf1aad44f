//! A grid of tree heights, and which trees can be seen from outside it.
use vstd::prelude::*;
use crate::hill_climb::grid_cells;

verus! {

/// A two-dimensional grid stored row by row in one vector.
#[derive(Debug)]
pub struct Vec2d<T> {
    vec: Vec<T>,
    row: usize,
    col: usize,
}

impl<T> Vec2d<T> {
    /// The cells, row by row.
    pub closed spec fn cells(&self) -> Seq<T> {
        self.vec@
    }

    pub closed spec fn rows(&self) -> int {
        self.row as int
    }

    pub closed spec fn cols(&self) -> int {
        self.col as int
    }

    /// The cells fill the rows exactly.
    pub closed spec fn wf(&self) -> bool {
        self.vec.len() == self.row * self.col
    }

    pub fn new(vec: Vec<T>, row: usize, col: usize) -> (r: Self)
        requires
            vec.len() == row * col,
        ensures
            r.wf(),
            r.cells() == vec@,
            r.rows() == row,
            r.cols() == col,
    {
        Self { vec, row, col }
    }

    pub fn row_count(&self) -> (r: usize)
        ensures
            r == self.rows(),
    {
        self.row
    }

    pub fn col_count(&self) -> (r: usize)
        ensures
            r == self.cols(),
    {
        self.col
    }

    /// The cells of row `row`.
    pub fn row(&self, row: usize) -> (r: &[T])
        requires
            self.wf(),
            row < self.rows(),
        ensures
            r@ == self.cells().subrange(self.cols() * row, self.cols() * row + self.cols()),
    {
        let n = self.vec.len();
        proof {
            assert(self.col * row + self.col <= self.row * self.col) by (nonlinear_arith)
                requires
                    row < self.row,
            ;
        }
        let i = self.col * row;
        &self.vec.as_slice()[i..(i + self.col)]
    }

    /// The cell in row `row` and column `col`.
    pub fn index(&self, row: usize, col: usize) -> (r: &T)
        requires
            self.cols() * row + col < self.cells().len(),
        ensures
            *r == self.cells()[self.cols() * row + col],
    {
        let n = self.vec.len();
        let i = self.col * row;
        &self.vec[i + col]
    }

    /// The cell in row `row` and column `col`, to be changed in place.
    pub fn index_mut(&mut self, row: usize, col: usize) -> (r: &mut T)
        requires
            old(self).cols() * row + col < old(self).cells().len(),
        ensures
            *r == old(self).cells()[old(self).cols() * row + col],
            final(self).cells() == old(self).cells().update(old(self).cols() * row + col, *final(r)),
            final(self).rows() == old(self).rows(),
            final(self).cols() == old(self).cols(),
    {
        let n = self.vec.len();
        let i = self.col * row;
        &mut self.vec[i + col]
    }
}

/// `cols * r + c` is a cell of a `rows` by `cols` grid.
proof fn lemma_in_grid(rows: int, cols: int, r: int, c: int)
    requires
        0 <= r < rows,
        0 <= c < cols,
    ensures
        0 <= cols * r + c < rows * cols,
{
    assert(cols * r + c < rows * cols) by (nonlinear_arith)
        requires
            0 <= r < rows,
            0 <= c < cols,
    ;
    assert(0 <= cols * r) by (nonlinear_arith)
        requires
            0 <= r,
            0 <= c < cols,
    ;
}

/// `c` is the position of the first line break of `s`.
pub open spec fn first_break(s: Seq<char>, c: int) -> bool {
    &&& 0 <= c < s.len()
    &&& s[c] == '\n'
    &&& forall|p: int| 0 <= p < c ==> s[p] != '\n'
}

/// The number of line breaks in `s`.
pub open spec fn break_count(s: Seq<char>) -> nat {
    s.filter(|c: char| c == '\n').len()
}

/// The value of each decimal digit of `s`.
pub open spec fn digit_values(s: Seq<char>) -> Seq<u32> {
    s.map_values(|c: char| (c as u32 - '0' as u32) as u32)
}

/// The heights of a forest, one digit per tree.
pub struct TreeGrid {
    pub tree_heights: Vec2d<u32>,
}

/// A tree's row `x` and column `y`.
#[derive(Clone, Copy, Debug, PartialEq, Eq, Structural)]
pub struct TreeCoord {
    pub x: usize,
    pub y: usize,
}

impl TreeGrid {
    pub open spec fn rows(&self) -> int {
        self.tree_heights.rows()
    }

    pub open spec fn cols(&self) -> int {
        self.tree_heights.cols()
    }

    /// The height of the tree in row `r` and column `c`.
    pub open spec fn height_at(&self, r: int, c: int) -> u32 {
        self.tree_heights.cells()[self.cols() * r + c]
    }

    pub open spec fn holds(&self, t: TreeCoord) -> bool {
        t.x < self.rows() && t.y < self.cols()
    }

    /// Reads rows of digits separated by line breaks: as many columns as
    /// the first row has, one more row than there are line breaks.
    pub fn new(ls: String) -> (r: Result<TreeGrid, String>)
        requires
            ls@.len() < usize::MAX,
        ensures
            match r {
                Ok(tg) => {
                    &&& tg.tree_heights.wf()
                    &&& first_break(ls@, tg.cols())
                    &&& tg.rows() == break_count(ls@) + 1
                    &&& forall|i: int| 0 <= i < grid_cells(ls@).len() ==> '0' <= #[trigger] grid_cells(ls@)[i] <= '9'
                    &&& tg.tree_heights.cells() == digit_values(grid_cells(ls@))
                },
                Err(_) => {
                    ||| forall|c: int| !first_break(ls@, c)
                    ||| exists|i: int| 0 <= i < grid_cells(ls@).len() && !('0' <= #[trigger] grid_cells(ls@)[i] <= '9')
                    ||| forall|c: int| first_break(ls@, c) ==> grid_cells(ls@).len() != (break_count(ls@) + 1) * c
                },
            },
    {
        let text = ls.as_str();
        let len = text.unicode_len();
        let ghost t = ls@;
        let mut first: Option<usize> = None;
        let mut breaks: usize = 0;
        let mut data: Vec<u32> = Vec::new();
        let mut p: usize = 0;
        proof {
            reveal(Seq::filter);
            assert(t.subrange(0, 0) =~= Seq::<char>::empty());
        }
        while p < len
            invariant
                t == text@,
                t == ls@,
                len == t.len(),
                p <= len,
                breaks == break_count(t.subrange(0, p as int)),
                breaks <= p,
                match first {
                    Some(c) => first_break(t, c as int) && c < p,
                    None => forall|q: int| 0 <= q < p ==> t[q] != '\n',
                },
                forall|i: int|
                    0 <= i < grid_cells(t.subrange(0, p as int)).len() ==> '0' <= #[trigger] grid_cells(
                        t.subrange(0, p as int),
                    )[i] <= '9',
                data@ == digit_values(grid_cells(t.subrange(0, p as int))),
            decreases len - p,
        {
            let c = text.get_char(p);
            let ghost pre = t.subrange(0, p as int);
            let ghost next = t.subrange(0, p as int + 1);
            proof {
                reveal(Seq::filter);
                assert(next.drop_last() =~= pre);
                assert(next.last() == c);
            }
            if c == '\n' {
                if first.is_none() {
                    first = Some(p);
                }
                breaks += 1;
            } else {
                if c < '0' || c > '9' {
                    proof {
                        let rest = t.subrange(p as int + 1, len as int);
                        assert(t =~= next + rest);
                        reveal(Seq::filter);
                        Seq::<char>::filter_distributes_over_add(next, rest, |c: char| c != '\n');
                        assert(grid_cells(next) == grid_cells(pre).push(c));
                        let k = grid_cells(next).len() - 1;
                        assert(grid_cells(t) =~= grid_cells(next) + grid_cells(rest));
                        assert(grid_cells(t)[k] == c);
                        assert(0 <= k < grid_cells(ls@).len() && !('0' <= grid_cells(ls@)[k] <= '9'));
                        assert(exists|i: int| 0 <= i < grid_cells(ls@).len() && !('0' <= #[trigger] grid_cells(ls@)[i] <= '9'));
                    }
                    return Err("failed to parse a tree height".to_owned());
                }
                data.push(c as u32 - '0' as u32);
                proof {
                    assert(data@ =~= digit_values(grid_cells(next)));
                }
            }
            p += 1;
        }
        proof {
            assert(t.subrange(0, len as int) =~= t);
        }
        let cols = match first {
            Some(c) => c,
            None => {
                return Err("a single line is not a grid".to_owned());
            },
        };
        let rows = breaks + 1;
        proof {
            assert forall|c: int| first_break(t, c) implies c == cols by {
                if c < cols {
                    assert(t[c] == '\n');
                } else if c > cols {
                    assert(t[cols as int] == '\n');
                }
            }
        }
        if cols == 0 {
            if data.len() != 0 {
                return Err("rows of unequal length".to_owned());
            }
            return Ok(TreeGrid { tree_heights: Vec2d::new(data, rows, cols) });
        }
        if data.len() / cols != rows || data.len() % cols != 0 {
            proof {
                assert(data.len() != rows * cols) by (nonlinear_arith)
                    requires
                        cols > 0,
                        data.len() / cols != rows || data.len() % cols != 0,
                ;
            }
            return Err("rows of unequal length".to_owned());
        }
        proof {
            assert(data.len() == rows * cols) by (nonlinear_arith)
                requires
                    cols > 0,
                    data.len() / cols == rows,
                    data.len() % cols == 0,
            ;
        }
        Ok(TreeGrid { tree_heights: Vec2d::new(data, rows, cols) })
    }

    /// The trees that are not on the edge, column by column.
    pub fn inner_trees(&self) -> (r: Vec<TreeCoord>)
        requires
            self.rows() >= 1,
            self.cols() >= 1,
        ensures
            forall|t: TreeCoord| #[trigger] r@.contains(t) <==> 1 <= t.x < self.rows() - 1 && 1 <= t.y < self.cols() - 1,
    {
        let rows = self.tree_heights.row_count();
        let cols = self.tree_heights.col_count();
        let mut out: Vec<TreeCoord> = Vec::new();
        let mut col: usize = 1;
        while col < cols - 1
            invariant
                rows == self.rows(),
                cols == self.cols(),
                rows >= 1,
                cols >= 1,
                cols >= 2 ==> col <= cols - 1,
                cols < 2 ==> col == 1,
                col >= 1,
                forall|t: TreeCoord| #[trigger] out@.contains(t) <==> 1 <= t.x < rows - 1 && 1 <= t.y < col,
            decreases cols - col,
        {
            let mut r: usize = 1;
            while r < rows - 1
                invariant
                    rows == self.rows(),
                    rows >= 1,
                    rows >= 2 ==> 1 <= r <= rows - 1,
                    rows < 2 ==> r == 1,
                    1 <= col < cols - 1,
                    forall|t: TreeCoord|
                        #[trigger] out@.contains(t) <==> (1 <= t.x < rows - 1 && 1 <= t.y < col) || (t.y == col && 1
                            <= t.x < r),
                decreases rows - r,
            {
                let ghost before = out@;
                let item = TreeCoord { x: r, y: col };
                out.push(item);
                proof {
                    assert forall|t: TreeCoord| #[trigger] out@.contains(t) <==> before.contains(t) || t == item by {
                        if out@.contains(t) && t != item {
                            let k = choose|k: int| 0 <= k < out.len() && out@[k] == t;
                            assert(before[k] == t);
                        }
                        if before.contains(t) {
                            let k = choose|k: int| 0 <= k < before.len() && before[k] == t;
                            assert(out@[k] == t);
                        }
                        if t == item {
                            assert(out@[out.len() - 1] == t);
                        }
                    }
                }
                r += 1;
            }
            col += 1;
        }
        out
    }

    /// The height of tree `c`.
    pub fn height(&self, c: &TreeCoord) -> (r: &u32)
        requires
            self.tree_heights.wf(),
            self.holds(*c),
        ensures
            *r == self.height_at(c.x as int, c.y as int),
    {
        proof {
            lemma_in_grid(self.rows(), self.cols(), c.x as int, c.y as int);
        }
        self.tree_heights.index(c.x, c.y)
    }

    /// How many trees stand on the edge: two full columns and two rows
    /// without their corners.
    pub fn edge_tree_count(&self) -> (r: usize)
        requires
            self.rows() >= 2,
            2 * self.cols() + 2 * (self.rows() - 2) <= usize::MAX,
        ensures
            r == 2 * self.cols() + 2 * (self.rows() - 2),
    {
        2 * self.tree_heights.col_count() + 2 * (self.tree_heights.row_count() - 2)
    }
}

/// The trees from `t` to the left edge, nearest first.
pub open spec fn line_left(t: TreeCoord) -> Seq<TreeCoord> {
    Seq::new(t.y as nat, |k: int| TreeCoord { x: t.x, y: (t.y - 1 - k) as usize })
}

/// The trees from `t` to the top edge, nearest first.
pub open spec fn line_up(t: TreeCoord) -> Seq<TreeCoord> {
    Seq::new(t.x as nat, |k: int| TreeCoord { x: (t.x - 1 - k) as usize, y: t.y })
}

/// The trees from `t` to the right edge of a grid of `cols` columns, nearest
/// first.
pub open spec fn line_right(t: TreeCoord, cols: int) -> Seq<TreeCoord> {
    Seq::new((cols - t.y - 1) as nat, |k: int| TreeCoord { x: t.x, y: (t.y + 1 + k) as usize })
}

/// The trees from `t` to the bottom edge of a grid of `rows` rows, nearest
/// first.
pub open spec fn line_down(t: TreeCoord, rows: int) -> Seq<TreeCoord> {
    Seq::new((rows - t.x - 1) as nat, |k: int| TreeCoord { x: (t.x + 1 + k) as usize, y: t.y })
}

/// Some tree of `line` is at least `h` high.
pub open spec fn blocked(tg: &TreeGrid, h: u32, line: Seq<TreeCoord>) -> bool {
    exists|k: int| 0 <= k < line.len() && tg.height_at(line[k].x as int, line[k].y as int) >= h
}

/// How many trees of `line`, from position `i` on, can be seen from a tree of
/// height `h`: up to and including the first that is at least as high.
pub open spec fn view_from(tg: &TreeGrid, h: u32, line: Seq<TreeCoord>, i: int) -> int
    decreases line.len() - i,
{
    if i >= line.len() || i < 0 {
        0
    } else if tg.height_at(line[i].x as int, line[i].y as int) >= h {
        1
    } else {
        1 + view_from(tg, h, line, i + 1)
    }
}

/// The trees between a tree and one edge, and the direction they lie in.
pub struct VizPath {
    pub path: Vec<TreeCoord>,
    pub dir: String,
}

impl VizPath {
    pub fn down(c: &TreeCoord, grid_rows: usize) -> (r: VizPath)
        requires
            c.x < grid_rows,
        ensures
            r.path@ == line_down(*c, grid_rows as int),
            r.dir@ == "DOWN"@,
    {
        let mut path: Vec<TreeCoord> = Vec::new();
        let mut r: usize = c.x + 1;
        while r < grid_rows
            invariant
                c.x < r <= grid_rows,
                path@ == line_down(*c, r as int),
            decreases grid_rows - r,
        {
            path.push(TreeCoord { x: r, y: c.y });
            assert(path@ =~= line_down(*c, r as int + 1));
            r += 1;
        }
        VizPath { dir: "DOWN".to_owned(), path }
    }

    pub fn up(c: &TreeCoord) -> (r: VizPath)
        ensures
            r.path@ == line_up(*c),
            r.dir@ == "UP"@,
    {
        let mut path: Vec<TreeCoord> = Vec::new();
        let mut k: usize = 0;
        while k < c.x
            invariant
                k <= c.x,
                path@ == line_up(*c).subrange(0, k as int),
            decreases c.x - k,
        {
            path.push(TreeCoord { x: c.x - 1 - k, y: c.y });
            assert(path@ =~= line_up(*c).subrange(0, k as int + 1));
            k += 1;
        }
        assert(line_up(*c).subrange(0, k as int) =~= line_up(*c));
        VizPath { dir: "UP".to_owned(), path }
    }

    pub fn right(c: &TreeCoord, grid_cols: usize) -> (r: VizPath)
        requires
            c.y < grid_cols,
        ensures
            r.path@ == line_right(*c, grid_cols as int),
            r.dir@ == "RIGHT"@,
    {
        let mut path: Vec<TreeCoord> = Vec::new();
        let mut col: usize = c.y + 1;
        while col < grid_cols
            invariant
                c.y < col <= grid_cols,
                path@ == line_right(*c, col as int),
            decreases grid_cols - col,
        {
            path.push(TreeCoord { x: c.x, y: col });
            assert(path@ =~= line_right(*c, col as int + 1));
            col += 1;
        }
        VizPath { dir: "RIGHT".to_owned(), path }
    }

    pub fn left(c: &TreeCoord) -> (r: VizPath)
        ensures
            r.path@ == line_left(*c),
            r.dir@ == "LEFT"@,
    {
        let mut path: Vec<TreeCoord> = Vec::new();
        let mut k: usize = 0;
        while k < c.y
            invariant
                k <= c.y,
                path@ == line_left(*c).subrange(0, k as int),
            decreases c.y - k,
        {
            path.push(TreeCoord { x: c.x, y: c.y - 1 - k });
            assert(path@ =~= line_left(*c).subrange(0, k as int + 1));
            k += 1;
        }
        assert(line_left(*c).subrange(0, k as int) =~= line_left(*c));
        VizPath { dir: "LEFT".to_owned(), path }
    }
}

/// Every tree of the path lies in the grid.
pub open spec fn inside(tg: &TreeGrid, line: Seq<TreeCoord>) -> bool {
    forall|k: int| 0 <= k < line.len() ==> tg.holds(#[trigger] line[k])
}

/// Some tree of the path is at least `h` high.
fn covered(tg: &TreeGrid, p: &VizPath, h: u32) -> (r: bool)
    requires
        tg.tree_heights.wf(),
        inside(tg, p.path@),
    ensures
        r == blocked(tg, h, p.path@),
{
    let mut k: usize = 0;
    while k < p.path.len()
        invariant
            tg.tree_heights.wf(),
            inside(tg, p.path@),
            k <= p.path.len(),
            forall|j: int| 0 <= j < k ==> tg.height_at(p.path@[j].x as int, p.path@[j].y as int) < h,
        decreases p.path.len() - k,
    {
        assert(tg.holds(p.path@[k as int]));
        if *tg.height(&p.path[k]) >= h {
            return true;
        }
        k += 1;
    }
    false
}

/// How many trees of the path a tree of height `h` sees.
fn viewing_distance(tg: &TreeGrid, p: &VizPath, h: u32) -> (r: usize)
    requires
        tg.tree_heights.wf(),
        inside(tg, p.path@),
    ensures
        r == view_from(tg, h, p.path@, 0),
{
    let ghost line = p.path@;
    let mut k: usize = 0;
    while k < p.path.len() && *tg.height(&p.path[k]) < h
        invariant
            tg.tree_heights.wf(),
            inside(tg, p.path@),
            line == p.path@,
            k <= p.path.len(),
            view_from(tg, h, line, 0) == k + view_from(tg, h, line, k as int),
        decreases p.path.len() - k,
    {
        assert(view_from(tg, h, line, k as int) == 1 + view_from(tg, h, line, k as int + 1));
        k += 1;
    }
    if k == p.path.len() {
        k
    } else {
        k + 1
    }
}

impl TreeCoord {
    /// The tree can be seen from some edge: in some direction every tree up
    /// to the edge is lower.
    pub fn is_visible(&self, tg: &TreeGrid) -> (r: bool)
        requires
            tg.tree_heights.wf(),
            tg.holds(*self),
        ensures
            ({
                let h = tg.height_at(self.x as int, self.y as int);
                r == !(blocked(tg, h, line_left(*self)) && blocked(tg, h, line_up(*self)) && blocked(
                    tg,
                    h,
                    line_right(*self, tg.cols()),
                ) && blocked(tg, h, line_down(*self, tg.rows())))
            }),
    {
        let this_height = *tg.height(self);
        let right = VizPath::right(self, tg.tree_heights.col_count());
        let left = VizPath::left(self);
        let up = VizPath::up(self);
        let down = VizPath::down(self, tg.tree_heights.row_count());
        !(covered(tg, &left, this_height) && covered(tg, &up, this_height) && covered(tg, &right, this_height)
            && covered(tg, &down, this_height))
    }

    /// The product of how far the tree sees to the left, up, to the right
    /// and down.
    pub fn scenic_score(&self, tg: &TreeGrid) -> (r: usize)
        requires
            tg.tree_heights.wf(),
            tg.holds(*self),
            ({
                let h = tg.height_at(self.x as int, self.y as int);
                let l = view_from(tg, h, line_left(*self), 0);
                let u = view_from(tg, h, line_up(*self), 0);
                let rt = view_from(tg, h, line_right(*self, tg.cols()), 0);
                let d = view_from(tg, h, line_down(*self, tg.rows()), 0);
                l * u <= usize::MAX && l * u * rt <= usize::MAX && l * u * rt * d <= usize::MAX
            }),
        ensures
            ({
                let h = tg.height_at(self.x as int, self.y as int);
                r == view_from(tg, h, line_left(*self), 0) * view_from(tg, h, line_up(*self), 0) * view_from(
                    tg,
                    h,
                    line_right(*self, tg.cols()),
                    0,
                ) * view_from(tg, h, line_down(*self, tg.rows()), 0)
            }),
    {
        let this_height = *tg.height(self);
        let right = VizPath::right(self, tg.tree_heights.col_count());
        let left = VizPath::left(self);
        let up = VizPath::up(self);
        let down = VizPath::down(self, tg.tree_heights.row_count());
        let l = viewing_distance(tg, &left, this_height);
        let u = viewing_distance(tg, &up, this_height);
        let rt = viewing_distance(tg, &right, this_height);
        let d = viewing_distance(tg, &down, this_height);
        l * u * rt * d
    }
}

/// How many of the trees listed are visible from outside the grid.
pub open spec fn visible_count(tg: &TreeGrid, ts: Seq<TreeCoord>) -> int
    decreases ts.len(),
{
    if ts.len() == 0 {
        0
    } else {
        let t = ts.last();
        let h = tg.height_at(t.x as int, t.y as int);
        visible_count(tg, ts.drop_last()) + if !(blocked(tg, h, line_left(t)) && blocked(tg, h, line_up(t))
            && blocked(tg, h, line_right(t, tg.cols())) && blocked(tg, h, line_down(t, tg.rows()))) {
            1int
        } else {
            0
        }
    }
}

impl TreeGrid {
    /// How many of the trees `ts` can be seen from some edge.
    pub fn count_visible(&self, ts: &Vec<TreeCoord>) -> (r: usize)
        requires
            self.tree_heights.wf(),
            forall|k: int| 0 <= k < ts.len() ==> self.holds(#[trigger] ts[k]),
        ensures
            r == visible_count(self, ts@),
    {
        let mut count: usize = 0;
        let mut k: usize = 0;
        while k < ts.len()
            invariant
                self.tree_heights.wf(),
                forall|j: int| 0 <= j < ts.len() ==> self.holds(#[trigger] ts[j]),
                k <= ts.len(),
                count <= k,
                count == visible_count(self, ts@.subrange(0, k as int)),
            decreases ts.len() - k,
        {
            assert(ts@.subrange(0, k as int + 1).drop_last() =~= ts@.subrange(0, k as int));
            if ts[k].is_visible(self) {
                count += 1;
            }
            k += 1;
        }
        assert(ts@.subrange(0, k as int) =~= ts@);
        count
    }
}

} // verus!
