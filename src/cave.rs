//! Sand falling into a cave of rock paths, one unit at a time, with a floor
//! two levels below the lowest rock.
use vstd::prelude::*;
use std::collections::HashSet;
use vstd::std_specs::hash::group_hash_axioms;
use vstd::arithmetic::div_mod::lemma_fundamental_div_mod_converse;
use crate::cleanup::halves;
use crate::numbers::{find_only, i32_of, only_at, parse_i32};

verus! {

broadcast use group_hash_axioms;

pub type Point = (i32, i32);

/// `v` lies between `a` and `b`, in either order, both included.
pub open spec fn between(v: int, a: int, b: int) -> bool {
    (a <= v && v <= b) || (b <= v && v <= a)
}

/// `p` lies in the box spanned by the segment from `a` to `b` (on the
/// segment itself, for the straight segments of a rock path).
pub open spec fn on_segment(p: Point, seg: (Point, Point)) -> bool {
    between(p.0 as int, seg.0.0 as int, seg.1.0 as int) && between(p.1 as int, seg.0.1 as int, seg.1.1 as int)
}

/// A line of rock through the corner points, drawn segment by segment.
pub struct RockPath {
    pub path_lines: Vec<(Point, Point)>,
    pub lowest_level: i32,
    pub left_most: i32,
    pub right_most: i32,
}

pub open spec fn rock_at(path: &RockPath, p: Point) -> bool {
    exists|k: int| 0 <= k < path.path_lines.len() && on_segment(p, #[trigger] path.path_lines[k])
}

impl RockPath {
    pub fn is_blocked(&self, p: Point) -> (r: bool)
        ensures
            r == rock_at(self, p),
    {
        let mut k: usize = 0;
        while k < self.path_lines.len()
            invariant
                k <= self.path_lines.len(),
                forall|j: int| 0 <= j < k ==> !on_segment(p, #[trigger] self.path_lines[j]),
            decreases self.path_lines.len() - k,
        {
            let ((e_x, e_y), (s_x, s_y)) = self.path_lines[k];
            let (p_x, p_y) = p;
            let hit = (s_x <= p_x && p_x <= e_x || e_x <= p_x && p_x <= s_x) && (e_y <= p_y && p_y <= s_y || s_y <= p_y
                && p_y <= e_y);
            if hit {
                return true;
            }
            k += 1;
        }
        false
    }

    /// The path through the corner points `p`, in order: each two neighbours
    /// make a segment. Also its lowest level (largest `y`), and its leftmost
    /// and rightmost `x` other than the extremes of `i32`.
    pub fn new(p: Vec<Point>) -> (r: RockPath)
        requires
            p.len() > 0,
            exists|k: int| 0 <= k < p.len() && p[k].0 > i32::MIN,
            exists|k: int| 0 <= k < p.len() && p[k].0 < i32::MAX,
        ensures
            r.path_lines.len() == p.len() - 1,
            forall|k: int| 0 <= k < r.path_lines.len() ==> #[trigger] r.path_lines[k] == (p[k], p[k + 1]),
            exists|k: int| 0 <= k < p.len() && p[k].1 == r.lowest_level,
            forall|k: int| 0 <= k < p.len() ==> p[k].1 <= r.lowest_level,
            exists|k: int| 0 <= k < p.len() && p[k].0 == r.left_most && p[k].0 > i32::MIN,
            forall|k: int| 0 <= k < p.len() && p[k].0 > i32::MIN ==> r.left_most <= p[k].0,
            exists|k: int| 0 <= k < p.len() && p[k].0 == r.right_most && p[k].0 < i32::MAX,
            forall|k: int| 0 <= k < p.len() && p[k].0 < i32::MAX ==> p[k].0 <= r.right_most,
    {
        let mut lowest_level = p[0].1;
        let mut left_most = i32::MAX;
        let mut right_most = i32::MIN;
        let mut have_left = false;
        let mut have_right = false;
        let mut path_lines: Vec<(Point, Point)> = Vec::new();
        let mut k: usize = 0;
        while k < p.len()
            invariant
                p.len() > 0,
                k <= p.len(),
                exists|j: int| 0 <= j < p.len() && p[j].1 == lowest_level,
                forall|j: int| 0 <= j < k ==> p[j].1 <= lowest_level,
                have_left == exists|j: int| 0 <= j < k && p[j].0 > i32::MIN,
                have_left ==> exists|j: int| 0 <= j < k && p[j].0 == left_most && p[j].0 > i32::MIN,
                forall|j: int| 0 <= j < k && p[j].0 > i32::MIN ==> left_most <= p[j].0,
                have_right == exists|j: int| 0 <= j < k && p[j].0 < i32::MAX,
                have_right ==> exists|j: int| 0 <= j < k && p[j].0 == right_most && p[j].0 < i32::MAX,
                forall|j: int| 0 <= j < k && p[j].0 < i32::MAX ==> p[j].0 <= right_most,
                path_lines.len() == if k == 0 { 0 } else { k - 1 },
                forall|j: int| 0 <= j < path_lines.len() ==> #[trigger] path_lines[j] == (p[j], p[j + 1]),
            decreases p.len() - k,
        {
            let (x, y) = p[k];
            if y > lowest_level {
                lowest_level = y;
            }
            if x > i32::MIN && (!have_left || x < left_most) {
                left_most = x;
                have_left = true;
            }
            if x < i32::MAX && (!have_right || x > right_most) {
                right_most = x;
                have_right = true;
            }
            if k > 0 {
                path_lines.push((p[k - 1], p[k]));
            }
            k += 1;
        }
        RockPath { path_lines, lowest_level, left_most, right_most }
    }
}

/// The key under which a point is kept in a set of `u64`.
pub open spec fn key_of(p: Point) -> int {
    (p.0 as int + 0x8000_0000) * 0x1_0000_0000 + (p.1 as int + 0x8000_0000)
}

proof fn lemma_key_injective(p: Point, q: Point)
    requires
        key_of(p) == key_of(q),
    ensures
        p == q,
{
    let (a, b) = (p.0 as int + 0x8000_0000, p.1 as int + 0x8000_0000);
    let (c, d) = (q.0 as int + 0x8000_0000, q.1 as int + 0x8000_0000);
    lemma_fundamental_div_mod_converse(key_of(p), 0x1_0000_0000, a, b);
    lemma_fundamental_div_mod_converse(key_of(q), 0x1_0000_0000, c, d);
}

fn key(p: Point) -> (r: u64)
    ensures
        r == key_of(p),
{
    let hi = (p.0 as i64 + 0x8000_0000) as u64;
    let lo = (p.1 as i64 + 0x8000_0000) as u64;
    assert(hi * 0x1_0000_0000 + lo <= u64::MAX) by (nonlinear_arith)
        requires
            hi < 0x1_0000_0000,
            lo < 0x1_0000_0000,
    ;
    hi * 0x1_0000_0000 + lo
}

/// The cave: the sand at rest, the rock paths (the floor last), how many
/// units have come to rest, and the lowest rock level and the horizontal
/// extent of the rock.
pub struct Cave {
    pub sand_units: HashSet<u64>,
    pub rock_paths: Vec<RockPath>,
    pub sand_unit_total: usize,
    pub bottom_level: i32,
    pub left_most: i32,
    pub right_most: i32,
}

pub open spec fn has_sand(c: &Cave, p: Point) -> bool {
    c.sand_units@.contains(key_of(p) as u64)
}

/// Neither sand (kept by key in `sand`) nor rock is at `p`.
pub open spec fn free_in(rocks: Seq<RockPath>, sand: Set<u64>, p: Point) -> bool {
    !sand.contains(key_of(p) as u64) && forall|k: int| 0 <= k < rocks.len() ==> !rock_at(#[trigger] &rocks[k], p)
}

pub open spec fn free(c: &Cave, p: Point) -> bool {
    free_in(c.rock_paths@, c.sand_units@, p)
}

/// Where a unit of sand at `p` goes next: down, down to the left, down to
/// the right, whichever is free first; it stays when none is.
pub open spec fn next_in(rocks: Seq<RockPath>, sand: Set<u64>, p: Point) -> Point {
    let (x, y) = p;
    if free_in(rocks, sand, (x, (y + 1) as i32)) {
        (x, (y + 1) as i32)
    } else if free_in(rocks, sand, ((x - 1) as i32, (y + 1) as i32)) {
        ((x - 1) as i32, (y + 1) as i32)
    } else if free_in(rocks, sand, ((x + 1) as i32, (y + 1) as i32)) {
        ((x + 1) as i32, (y + 1) as i32)
    } else {
        p
    }
}

pub open spec fn next_pos(c: &Cave, p: Point) -> Point {
    next_in(c.rock_paths@, c.sand_units@, p)
}

/// Where a unit at `p` ends up: it comes to rest, or it is stopped where it
/// first passes below the lowest rock, `bottom`.
pub open spec fn settle_in(rocks: Seq<RockPath>, bottom: i32, sand: Set<u64>, p: Point) -> Point
    decreases (if p.1 <= bottom { bottom + 1 - p.1 } else { 0 }) as nat,
{
    let q = next_in(rocks, sand, p);
    if q == p || q.1 > bottom || p.1 >= bottom {
        q
    } else {
        settle_in(rocks, bottom, sand, q)
    }
}

pub open spec fn settle(c: &Cave, p: Point) -> Point {
    settle_in(c.rock_paths@, c.bottom_level, c.sand_units@, p)
}

/// Letting at most `n` units fall onto `sand`: the sand then, how many units
/// fell, and whether the last came to rest at the entry point, which stops
/// the filling.
pub open spec fn fill_state(rocks: Seq<RockPath>, bottom: i32, sand: Set<u64>, n: nat) -> (Set<u64>, nat, bool)
    decreases n,
{
    if n == 0 {
        (sand, 0, false)
    } else {
        let p = settle_in(rocks, bottom, sand, (500i32, 0i32));
        let next = sand.insert(key_of(p) as u64);
        if p == (500i32, 0i32) {
            (next, 1, true)
        } else {
            let (s, k, hit) = fill_state(rocks, bottom, next, (n - 1) as nat);
            (s, k + 1, hit)
        }
    }
}

/// The cave is small enough that falling sand stays within `i32`.
pub open spec fn sized(c: &Cave) -> bool {
    0 <= c.bottom_level <= 1_000_000_000
}

impl Cave {
    /// Where each unit of sand enters.
    pub fn new_sand() -> (r: Point)
        ensures
            r == (500i32, 0i32),
    {
        (500, 0)
    }

    /// Lets one unit of sand fall from the entry point, records where it
    /// ends, and returns that point.
    pub fn move_sand(&mut self) -> (r: Point)
        requires
            sized(old(self)),
            old(self).sand_unit_total < usize::MAX,
        ensures
            r == settle(old(self), (500i32, 0i32)),
            final(self).sand_units@ == old(self).sand_units@.insert(key_of(r) as u64),
            final(self).sand_unit_total == old(self).sand_unit_total + 1,
            final(self).bottom_level == old(self).bottom_level,
            final(self).rock_paths@ == old(self).rock_paths@,
    {
        let mut s = Cave::new_sand();
        let mut n_s = self.next_sand_pos(s);
        while (s.0 != n_s.0 || s.1 != n_s.1) && self.above_bottom_rock(n_s)
            invariant
                sized(self),
                self.sand_units@ == old(self).sand_units@,
                self.rock_paths@ == old(self).rock_paths@,
                self.bottom_level == old(self).bottom_level,
                self.sand_unit_total == old(self).sand_unit_total,
                *self == *old(self),
                0 <= s.1 <= self.bottom_level + 1,
                500 - s.1 <= s.0 <= 500 + s.1,
                n_s == next_pos(self, s),
                settle(self, (500i32, 0i32)) == (if n_s == s || n_s.1 > self.bottom_level || s.1 >= self.bottom_level {
                    n_s
                } else {
                    settle(self, n_s)
                }),
            decreases self.bottom_level + 1 - s.1,
        {
            let tmp = n_s;
            n_s = self.next_sand_pos(n_s);
            s = tmp;
        }
        self.sand_units.insert(key(n_s));
        self.sand_unit_total = self.sand_unit_total + 1;
        n_s
    }

    pub fn next_sand_pos(&self, p: Point) -> (r: Point)
        requires
            sized(self),
            0 <= p.1 <= self.bottom_level + 1,
            -2_000_000_000 <= p.0 <= 2_000_000_000,
        ensures
            r == next_pos(self, p),
    {
        let (x, y) = p;
        if self.is_free((x, y + 1)) {
            (x, y + 1)
        } else if self.is_free((x - 1, y + 1)) {
            (x - 1, y + 1)
        } else if self.is_free((x + 1, y + 1)) {
            (x + 1, y + 1)
        } else {
            (x, y)
        }
    }

    pub fn is_free(&self, y: Point) -> (r: bool)
        ensures
            r == free(self, y),
    {
        if self.sand_units.contains(&key(y)) {
            return false;
        }
        let mut k: usize = 0;
        while k < self.rock_paths.len()
            invariant
                k <= self.rock_paths.len(),
                !has_sand(self, y),
                forall|j: int| 0 <= j < k ==> !rock_at(#[trigger] &self.rock_paths[j], y),
            decreases self.rock_paths.len() - k,
        {
            if self.rock_paths[k].is_blocked(y) {
                return false;
            }
            k += 1;
        }
        true
    }

    pub fn above_bottom_rock(&self, p: Point) -> (r: bool)
        ensures
            r == (p.1 <= self.bottom_level),
    {
        p.1 <= self.bottom_level
    }
}

fn copy_points(v: &Vec<Point>) -> (r: Vec<Point>)
    ensures
        r@ == v@,
{
    let mut r: Vec<Point> = Vec::new();
    let mut k: usize = 0;
    while k < v.len()
        invariant
            k <= v.len(),
            r@ == v@.subrange(0, k as int),
        decreases v.len() - k,
    {
        r.push(v[k]);
        assert(r@ =~= v@.subrange(0, k as int + 1));
        k += 1;
    }
    assert(v@.subrange(0, k as int) =~= v@);
    r
}

/// The point that a text such as `498,4` names.
pub open spec fn point_text(s: Seq<char>) -> Option<Point> {
    match halves(s, ',') {
        Some((a, b)) => match (i32_of(a), i32_of(b)) {
            (Some(x), Some(y)) => Some((x, y)),
            _ => None,
        },
        None => None,
    }
}

/// Reads a point written as two numbers joined by `,`.
pub fn parse_point(p: &str) -> (r: Result<Point, String>)
    ensures
        match point_text(p@) {
            Some(pt) => r == Ok::<Point, String>(pt),
            None => r is Err,
        },
{
    let m = match find_only(p, ',') {
        Some(m) => m,
        None => {
            return Err("expected two numbers separated by ','".to_owned());
        },
    };
    proof {
        let c = choose|c: int| only_at(p@, ',', c);
        assert(c == m);
    }
    let len = p.unicode_len();
    match (parse_i32(p.substring_char(0, m)), parse_i32(p.substring_char(m + 1, len))) {
        (Some(x), Some(y)) => Ok((x, y)),
        _ => Err("failed to parse a point".to_owned()),
    }
}

impl Cave {
    /// The cave with the given rock paths and a floor, two levels below the
    /// lowest rock, across the whole width of `i32`.
    pub fn new(paths: Vec<Vec<Point>>) -> (r: Cave)
        requires
            paths.len() > 0,
            forall|k: int|
                0 <= k < paths.len() ==> {
                    let p = #[trigger] paths[k];
                    &&& p.len() > 0
                    &&& exists|j: int| 0 <= j < p.len() && p[j].0 > i32::MIN
                    &&& exists|j: int| 0 <= j < p.len() && p[j].0 < i32::MAX
                    &&& forall|j: int| 0 <= j < p.len() ==> p[j].1 <= i32::MAX - 2
                },
        ensures
            r.sand_units@.len() == 0,
            r.sand_unit_total == 0,
            r.rock_paths.len() == paths.len() + 1,
            exists|k: int| 0 <= k < paths.len() && r.bottom_level == (#[trigger] r.rock_paths[k]).lowest_level,
            forall|k: int| 0 <= k < paths.len() ==> (#[trigger] r.rock_paths[k]).lowest_level <= r.bottom_level,
            forall|k: int|
                0 <= k < paths.len() ==> (#[trigger] r.rock_paths[k]).path_lines.len() == paths[k].len() - 1
                    && forall|j: int|
                    0 <= j < r.rock_paths[k].path_lines.len() ==> #[trigger] r.rock_paths[k].path_lines[j] == (
                        paths[k][j],
                        paths[k][j + 1],
                    ),
            r.rock_paths[paths.len() as int].path_lines@ == seq![
                ((i32::MIN, (r.bottom_level + 2) as i32), (i32::MAX, (r.bottom_level + 2) as i32)),
            ],
            forall|k: int| 0 <= k < paths.len() ==> r.left_most <= (#[trigger] r.rock_paths[k]).left_most,
            forall|k: int| 0 <= k < paths.len() ==> (#[trigger] r.rock_paths[k]).right_most <= r.right_most,
    {
        let mut rock_paths: Vec<RockPath> = Vec::new();
        let mut bottom_level: i32 = i32::MIN;
        let mut left_most: i32 = i32::MAX;
        let mut right_most: i32 = i32::MIN;
        let mut k: usize = 0;
        while k < paths.len()
            invariant
                k <= paths.len(),
                paths.len() > 0,
                forall|i: int|
                    0 <= i < paths.len() ==> {
                        let p = #[trigger] paths[i];
                        &&& p.len() > 0
                        &&& exists|j: int| 0 <= j < p.len() && p[j].0 > i32::MIN
                        &&& exists|j: int| 0 <= j < p.len() && p[j].0 < i32::MAX
                        &&& forall|j: int| 0 <= j < p.len() ==> p[j].1 <= i32::MAX - 2
                    },
                rock_paths.len() == k,
                k > 0 ==> exists|i: int| 0 <= i < k && bottom_level == (#[trigger] rock_paths[i]).lowest_level,
                bottom_level <= i32::MAX - 2,
                forall|i: int| 0 <= i < k ==> (#[trigger] rock_paths[i]).lowest_level <= bottom_level,
                forall|i: int|
                    0 <= i < k ==> (#[trigger] rock_paths[i]).path_lines.len() == paths[i].len() - 1 && forall|j: int|
                        0 <= j < rock_paths[i].path_lines.len() ==> #[trigger] rock_paths[i].path_lines[j] == (
                            paths[i][j],
                            paths[i][j + 1],
                        ),
                forall|i: int| 0 <= i < k ==> left_most <= (#[trigger] rock_paths[i]).left_most,
                forall|i: int| 0 <= i < k ==> (#[trigger] rock_paths[i]).right_most <= right_most,
            decreases paths.len() - k,
        {
            let p = copy_points(&paths[k]);
            let rp = RockPath::new(p);
            let ghost before = rock_paths@;
            let ghost old_bottom = bottom_level;
            if k == 0 || rp.lowest_level > bottom_level {
                bottom_level = rp.lowest_level;
            }
            if rp.left_most < left_most {
                left_most = rp.left_most;
            }
            if rp.right_most > right_most {
                right_most = rp.right_most;
            }
            rock_paths.push(rp);
            proof {
                if bottom_level == rp.lowest_level {
                    assert(rock_paths[k as int].lowest_level == bottom_level);
                } else {
                    let i = choose|i: int| 0 <= i < k && old_bottom == (#[trigger] before[i]).lowest_level;
                    assert(rock_paths[i] == before[i]);
                }
            }
            k += 1;
        }
        let mut floor: Vec<Point> = Vec::new();
        floor.push((i32::MIN, bottom_level + 2));
        floor.push((i32::MAX, bottom_level + 2));
        assert(floor[1].0 > i32::MIN && floor[0].0 < i32::MAX);
        let floor_path = RockPath::new(floor);
        assert(floor_path.path_lines@ =~= seq![((i32::MIN, (bottom_level + 2) as i32), (i32::MAX, (bottom_level + 2) as i32))]);
        let ghost before = rock_paths@;
        rock_paths.push(floor_path);
        proof {
            let i = choose|i: int| 0 <= i < k && bottom_level == (#[trigger] before[i]).lowest_level;
            assert(rock_paths[i] == before[i]);
        }
        Cave { sand_units: HashSet::new(), rock_paths, sand_unit_total: 0, bottom_level, left_most, right_most }
    }
}

impl Cave {
    /// Lets units of sand fall one by one until one comes to rest at the
    /// entry point, or `max_units` have fallen; true when the entry point was
    /// reached.
    pub fn fill(&mut self, max_units: usize) -> (r: bool)
        requires
            sized(old(self)),
            old(self).sand_unit_total + max_units <= usize::MAX,
        ensures
            ({
                let (sand, fell, hit) = fill_state(
                    old(self).rock_paths@,
                    old(self).bottom_level,
                    old(self).sand_units@,
                    max_units as nat,
                );
                &&& final(self).sand_units@ == sand
                &&& final(self).sand_unit_total == old(self).sand_unit_total + fell
                &&& r == hit
                &&& final(self).rock_paths@ == old(self).rock_paths@
                &&& final(self).bottom_level == old(self).bottom_level
            }),
    {
        let ghost rocks = self.rock_paths@;
        let ghost bottom = self.bottom_level;
        let ghost goal = fill_state(rocks, bottom, self.sand_units@, max_units as nat);
        let mut n: usize = 0;
        while n < max_units
            invariant
                sized(self),
                rocks == self.rock_paths@,
                rocks == old(self).rock_paths@,
                bottom == self.bottom_level,
                self.bottom_level == old(self).bottom_level,
                n <= max_units,
                old(self).sand_unit_total + max_units <= usize::MAX,
                self.sand_unit_total == old(self).sand_unit_total + n,
                goal == fill_state(rocks, bottom, old(self).sand_units@, max_units as nat),
                ({
                    let (s, k, hit) = fill_state(rocks, bottom, self.sand_units@, (max_units - n) as nat);
                    goal == (s, (k + n) as nat, hit)
                }),
            decreases max_units - n,
        {
            let p = self.move_sand();
            n += 1;
            if p.0 == 500 && p.1 == 0 {
                return true;
            }
        }
        false
    }
}

} // verus!
