//! A rope of knots dragged about a grid: each knot follows the one before it
//! whenever they stop touching.
use vstd::prelude::*;
use crate::numbers::{parse_u16, u16_of};
use crate::words::{word_bounds, words};

verus! {

#[derive(Clone, Copy, Debug, PartialEq, Eq, Structural)]
pub enum Dir {
    NoOp,
    Up,
    Down,
    Left,
    Right,
    LeftUp,
    RightUp,
    LeftDown,
    RightDown,
}

/// How far one step in a direction moves a knot, across and up.
pub open spec fn delta(d: Dir) -> (int, int) {
    match d {
        Dir::NoOp => (0, 0),
        Dir::Up => (0, 1),
        Dir::Down => (0, -1),
        Dir::Left => (-1, 0),
        Dir::Right => (1, 0),
        Dir::LeftUp => (-1, 1),
        Dir::RightUp => (1, 1),
        Dir::LeftDown => (-1, -1),
        Dir::RightDown => (1, -1),
    }
}

pub open spec fn sign(v: int) -> int {
    if v > 0 {
        1
    } else if v < 0 {
        -1
    } else {
        0
    }
}

/// The direction a one-letter code names: `U`, `D`, `L` or `R`.
pub open spec fn dir_code(s: Seq<char>) -> Option<Dir> {
    if s == seq!['U'] {
        Some(Dir::Up)
    } else if s == seq!['D'] {
        Some(Dir::Down)
    } else if s == seq!['L'] {
        Some(Dir::Left)
    } else if s == seq!['R'] {
        Some(Dir::Right)
    } else {
        None
    }
}

/// `c` is exactly the one character `code`.
fn is_code(c: &str, code: char) -> (r: bool)
    ensures
        r == (c@ == seq![code]),
{
    if c.unicode_len() == 1 {
        let first = c.get_char(0);
        assert(first == code ==> c@ =~= seq![code]);
        first == code
    } else {
        false
    }
}

impl Dir {
    pub fn new(d: &str) -> (r: Result<Dir, String>)
        ensures
            match dir_code(d@) {
                Some(v) => r == Ok::<Dir, String>(v),
                None => r is Err,
            },
    {
        if is_code(d, 'U') {
            Ok(Dir::Up)
        } else if is_code(d, 'D') {
            Ok(Dir::Down)
        } else if is_code(d, 'L') {
            Ok(Dir::Left)
        } else if is_code(d, 'R') {
            Ok(Dir::Right)
        } else {
            Err("Invalid input, expected one of U | D | L | R".to_owned())
        }
    }
}

/// A direction and how many steps to take in it.
pub struct Move {
    pub dir: Dir,
    pub steps: u16,
}

impl Move {
    /// Reads a line of two words: a direction code and a number of steps.
    pub fn new(line: String) -> (r: Result<Move, String>)
        ensures
            match r {
                Ok(m) => {
                    &&& words(line@).len() == 2
                    &&& dir_code(words(line@)[0]) == Some(m.dir)
                    &&& u16_of(words(line@)[1]) == Some(m.steps)
                },
                Err(_) => {
                    ||| words(line@).len() != 2
                    ||| dir_code(words(line@)[0]) is None
                    ||| u16_of(words(line@)[1]) is None
                },
            },
    {
        let text = line.as_str();
        let bounds = word_bounds(text);
        if bounds.len() != 2 {
            return Err("Invalid input, expected a direction and a number of steps".to_owned());
        }
        let dir = match Dir::new(text.substring_char(bounds[0].0, bounds[0].1)) {
            Ok(d) => d,
            Err(e) => {
                return Err(e);
            },
        };
        match parse_u16(text.substring_char(bounds[1].0, bounds[1].1)) {
            Some(steps) => Ok(Move { dir, steps }),
            None => Err("Invalid input, cannot read the number of steps".to_owned()),
        }
    }
}

#[derive(Clone, Copy, Debug, PartialEq, Eq, Structural)]
pub struct Knot {
    pub x: i32,
    pub y: i32,
}

/// The knot is far enough from the edges of `i32` to take `n` more steps.
pub open spec fn roomy(k: Knot, n: int) -> bool {
    i32::MIN + n <= k.x <= i32::MAX - n && i32::MIN + n <= k.y <= i32::MAX - n
}

/// Where a knot ends up after one step in direction `d`.
pub open spec fn moved(k: Knot, d: Dir) -> Knot {
    Knot { x: (k.x + delta(d).0) as i32, y: (k.y + delta(d).1) as i32 }
}

/// The knots touch: they are on the same or neighbouring cells, corners
/// included.
pub open spec fn touching(a: Knot, b: Knot) -> bool {
    a.x - b.x <= 1 && b.x - a.x <= 1 && a.y - b.y <= 1 && b.y - a.y <= 1
}

/// Where `tail` goes when the knot ahead of it moves to `head`: nowhere
/// while they touch, else one step straight or diagonally towards it.
pub open spec fn follow(head: Knot, tail: Knot) -> Knot {
    if touching(head, tail) {
        tail
    } else {
        Knot { x: (tail.x + sign(head.x - tail.x)) as i32, y: (tail.y + sign(head.y - tail.y)) as i32 }
    }
}

impl Knot {
    pub fn new(x: i32, y: i32) -> (r: Knot)
        ensures
            r == (Knot { x, y }),
    {
        Knot { x: x, y: y }
    }

    pub fn move_to(&self, d: &Dir) -> (r: Knot)
        requires
            roomy(*self, 1),
        ensures
            r == moved(*self, *d),
    {
        match d {
            Dir::Up => Knot::new(self.x, self.y + 1),
            Dir::Down => Knot::new(self.x, self.y - 1),
            Dir::Left => Knot::new(self.x - 1, self.y),
            Dir::Right => Knot::new(self.x + 1, self.y),
            Dir::NoOp => *self,
            Dir::LeftUp => Knot::new(self.x - 1, self.y + 1),
            Dir::RightUp => Knot::new(self.x + 1, self.y + 1),
            Dir::LeftDown => Knot::new(self.x - 1, self.y - 1),
            Dir::RightDown => Knot::new(self.x + 1, self.y - 1),
        }
    }

    pub fn is_adjacent(&self, other: &Knot) -> (r: bool)
        ensures
            r == touching(*self, *other),
    {
        let dx: i64 = self.x as i64 - other.x as i64;
        let dy: i64 = self.y as i64 - other.y as i64;
        -1 <= dx && dx <= 1 && -1 <= dy && dy <= 1
    }

    pub fn eq_row(&self, other: &Knot) -> (r: bool)
        ensures
            r == (self.x == other.x),
    {
        self.x == other.x
    }

    pub fn eq_col(&self, other: &Knot) -> (r: bool)
        ensures
            r == (self.y == other.y),
    {
        self.y == other.y
    }

    pub fn is_above(&self, other: &Knot) -> (r: bool)
        ensures
            r == (other.y > self.y),
    {
        other.y > self.y
    }

    pub fn is_below(&self, other: &Knot) -> (r: bool)
        ensures
            r == (other.y < self.y),
    {
        other.y < self.y
    }

    pub fn is_left(&self, other: &Knot) -> (r: bool)
        ensures
            r == (other.x < self.x),
    {
        other.x < self.x
    }

    pub fn is_right(&self, other: &Knot) -> (r: bool)
        ensures
            r == (other.x > self.x),
    {
        other.x > self.x
    }

    /// The step from this knot straight or diagonally towards `other`.
    pub fn dir_towards(&self, other: &Knot) -> (r: Dir)
        ensures
            delta(r) == (sign(other.x - self.x), sign(other.y - self.y)),
    {
        let (a, b) = (self, other);
        if a.eq_col(b) && a.eq_row(b) {
            Dir::NoOp
        } else if a.is_left(b) && a.is_above(b) {
            Dir::LeftUp
        } else if a.is_right(b) && a.is_above(b) {
            Dir::RightUp
        } else if a.is_left(b) && a.is_below(b) {
            Dir::LeftDown
        } else if a.is_right(b) && a.is_below(b) {
            Dir::RightDown
        } else if a.is_above(b) {
            Dir::Up
        } else if a.is_below(b) {
            Dir::Down
        } else if a.is_left(b) {
            Dir::Left
        } else {
            Dir::Right
        }
    }
}

/// The knots after the first moves to `head`, each following the new
/// position of the knot before it; the first `n` of them.
pub open spec fn pulled(old: Seq<Knot>, head: Knot, n: int) -> Seq<Knot>
    decreases n,
{
    if n <= 0 {
        Seq::empty()
    } else if n == 1 {
        seq![head]
    } else {
        let p = pulled(old, head, n - 1);
        p.push(follow(p.last(), old[n - 1]))
    }
}

/// The knots after one step of the first in direction `d`.
pub open spec fn stepped(knots: Seq<Knot>, d: Dir) -> Seq<Knot> {
    pulled(knots, moved(knots[0], d), knots.len() as int)
}

/// Every knot can take `n` more steps.
pub open spec fn all_roomy(knots: Seq<Knot>, n: int) -> bool {
    forall|i: int| 0 <= i < knots.len() ==> roomy(#[trigger] knots[i], n)
}

/// A knot that follows moves at most one unit on each axis.
proof fn lemma_pulled_close(old: Seq<Knot>, head: Knot, n: int, m: int)
    requires
        1 <= n <= old.len(),
        all_roomy(old, m),
        m >= 1,
        old[0].x - head.x <= 1 && head.x - old[0].x <= 1 && old[0].y - head.y <= 1 && head.y - old[0].y <= 1,
    ensures
        pulled(old, head, n).len() == n,
        pulled(old, head, n)[0] == head,
        forall|i: int|
            0 <= i < n ==> {
                let k = #[trigger] pulled(old, head, n)[i];
                old[i].x - k.x <= 1 && k.x - old[i].x <= 1 && old[i].y - k.y <= 1 && k.y - old[i].y <= 1
            },
    decreases n,
{
    if n > 1 {
        lemma_pulled_close(old, head, n - 1, m);
        let p = pulled(old, head, n - 1);
        assert(pulled(old, head, n) == p.push(follow(p.last(), old[n - 1])));
        assert forall|i: int| 0 <= i < n implies {
            let k = #[trigger] pulled(old, head, n)[i];
            old[i].x - k.x <= 1 && k.x - old[i].x <= 1 && old[i].y - k.y <= 1 && k.y - old[i].y <= 1
        } by {
            if i < n - 1 {
                assert(pulled(old, head, n)[i] == p[i]);
            } else {
                assert(roomy(old[n - 1], m));
            }
        }
    }
}

/// A rope of one or more knots; the head is the first, the tail the last.
pub struct Rope {
    pub knots: Vec<Knot>,
    pub end_knot_history: Vec<Knot>,
    pub end_knot_index: usize,
}

impl Rope {
    pub open spec fn wf(&self) -> bool {
        self.knots.len() == self.end_knot_index + 1
    }

    /// A rope of `knots_count` knots, all at the origin.
    pub fn new(knots_count: usize) -> (r: Rope)
        requires
            knots_count >= 1,
        ensures
            r.wf(),
            r.knots.len() == knots_count,
            forall|i: int| 0 <= i < knots_count ==> r.knots[i] == (Knot { x: 0, y: 0 }),
            r.end_knot_history@.len() == 0,
    {
        let mut knots: Vec<Knot> = Vec::new();
        let mut i: usize = 0;
        while i < knots_count
            invariant
                i <= knots_count,
                knots.len() == i,
                forall|j: int| 0 <= j < i ==> knots[j] == (Knot { x: 0, y: 0 }),
            decreases knots_count - i,
        {
            knots.push(Knot::new(0, 0));
            i += 1;
        }
        Rope { knots, end_knot_index: knots_count - 1, end_knot_history: Vec::new() }
    }

    pub fn head(&self) -> (r: &Knot)
        requires
            self.wf(),
        ensures
            *r == self.knots[0],
    {
        &self.knots[0]
    }

    pub fn tail(&self) -> (r: &Knot)
        requires
            self.wf(),
        ensures
            *r == self.knots[self.end_knot_index as int],
    {
        &self.knots[self.end_knot_index]
    }

    /// Takes the steps of the move one at a time.
    pub fn apply_move(&mut self, m: &Move)
        requires
            old(self).wf(),
            all_roomy(old(self).knots@, m.steps as int),
        ensures
            final(self).wf(),
            final(self).end_knot_index == old(self).end_knot_index,
            final(self).knots@ == steps_of(old(self).knots@, m.dir, m.steps as nat),
            final(self).end_knot_history@ == old(self).end_knot_history@ + tails_of(
                old(self).knots@,
                m.dir,
                m.steps as nat,
            ),
    {
        let ghost start = self.knots@;
        let ghost hist = self.end_knot_history@;
        let mut i: u16 = 0;
        while i < m.steps
            invariant
                self.wf(),
                self.end_knot_index == old(self).end_knot_index,
                start == old(self).knots@,
                hist == old(self).end_knot_history@,
                i <= m.steps,
                all_roomy(self.knots@, m.steps - i),
                self.knots@ == steps_of(start, m.dir, i as nat),
                self.end_knot_history@ == hist + tails_of(start, m.dir, i as nat),
            decreases m.steps - i,
        {
            let ghost before = self.knots@;
            proof {
                lemma_steps_unfold(start, m.dir, i as nat);
            }
            self.apply_dir(&m.dir);
            proof {
                lemma_pulled_close(before, moved(before[0], m.dir), before.len() as int, (m.steps - i) as int);
                assert(self.end_knot_history@ =~= hist + tails_of(start, m.dir, i as nat + 1));
            }
            i += 1;
        }
    }

    /// Moves the head one step and lets each knot after it follow, noting
    /// where the tail stood before.
    pub fn apply_dir(&mut self, dir: &Dir)
        requires
            old(self).wf(),
            all_roomy(old(self).knots@, 1),
        ensures
            final(self).wf(),
            final(self).end_knot_index == old(self).end_knot_index,
            final(self).knots@ == stepped(old(self).knots@, *dir),
            final(self).end_knot_history@ == old(self).end_knot_history@.push(
                old(self).knots[old(self).end_knot_index as int],
            ),
    {
        let ghost old_knots = self.knots@;
        let new_head = self.knots[0].move_to(dir);
        proof {
            lemma_pulled_close(old_knots, new_head, old_knots.len() as int, 1);
        }
        let mut knots: Vec<Knot> = Vec::new();
        knots.push(new_head);
        let mut i: usize = 1;
        while i < self.knots.len()
            invariant
                self.wf(),
                self.knots@ == old_knots,
                all_roomy(old_knots, 1),
                new_head == moved(old_knots[0], *dir),
                1 <= i <= old_knots.len(),
                knots@ == pulled(old_knots, new_head, i as int),
                pulled(old_knots, new_head, old_knots.len() as int).len() == old_knots.len(),
                forall|j: int|
                    0 <= j < old_knots.len() ==> {
                        let k = #[trigger] pulled(old_knots, new_head, old_knots.len() as int)[j];
                        old_knots[j].x - k.x <= 1 && k.x - old_knots[j].x <= 1 && old_knots[j].y - k.y <= 1
                            && k.y - old_knots[j].y <= 1
                    },
            decreases self.knots.len() - i,
        {
            proof {
                lemma_pulled_prefix(old_knots, new_head, i as int, old_knots.len() as int);
            }
            let head = knots[i - 1];
            let tail = self.knots[i];
            proof {
                assert(head == pulled(old_knots, new_head, old_knots.len() as int)[i - 1]);
                assert(roomy(old_knots[i - 1], 1));
                assert(roomy(tail, 1));
            }
            if !head.is_adjacent(&tail) {
                let tail_move = tail.dir_towards(&head);
                let new_tail = tail.move_to(&tail_move);
                knots.push(new_tail);
            } else {
                knots.push(tail);
            }
            i += 1;
        }
        let t = *self.tail();
        self.end_knot_history.push(t);
        self.knots = knots;
    }
}

/// A prefix of the pulled knots is pulled the same way.
proof fn lemma_pulled_prefix(old: Seq<Knot>, head: Knot, i: int, n: int)
    requires
        1 <= i <= n,
    ensures
        forall|j: int| 0 <= j < i ==> pulled(old, head, i)[j] == pulled(old, head, n)[j],
        pulled(old, head, i).len() == i,
    decreases n - i,
{
    lemma_pulled_len(old, head, i);
    if i < n {
        lemma_pulled_prefix(old, head, i + 1, n);
        lemma_pulled_len(old, head, i + 1);
    }
}

proof fn lemma_pulled_len(old: Seq<Knot>, head: Knot, n: int)
    requires
        n >= 0,
    ensures
        pulled(old, head, n).len() == n,
    decreases n,
{
    if n > 1 {
        lemma_pulled_len(old, head, n - 1);
    }
}

/// The knots after `n` steps in direction `d`.
pub open spec fn steps_of(knots: Seq<Knot>, d: Dir, n: nat) -> Seq<Knot>
    decreases n,
{
    if n == 0 {
        knots
    } else {
        stepped(steps_of(knots, d, (n - 1) as nat), d)
    }
}

/// Where the tail stood before each of `n` steps in direction `d`.
pub open spec fn tails_of(knots: Seq<Knot>, d: Dir, n: nat) -> Seq<Knot>
    decreases n,
{
    if n == 0 {
        Seq::empty()
    } else {
        let before = steps_of(knots, d, (n - 1) as nat);
        tails_of(knots, d, (n - 1) as nat).push(before[before.len() - 1])
    }
}

proof fn lemma_steps_unfold(knots: Seq<Knot>, d: Dir, n: nat)
    ensures
        steps_of(knots, d, n + 1) == stepped(steps_of(knots, d, n), d),
        tails_of(knots, d, n + 1) == tails_of(knots, d, n).push(
            steps_of(knots, d, n)[steps_of(knots, d, n).len() - 1],
        ),
{
}

impl Rope {
    /// How many different positions the tail has held: those noted before
    /// each step, and the one it holds now.
    pub fn visited_count(&self) -> (r: usize)
        requires
            self.wf(),
            self.end_knot_history.len() < usize::MAX,
        ensures
            r == self.end_knot_history@.push(self.knots[self.end_knot_index as int]).to_set().len(),
    {
        let t = *self.tail();
        let ghost all = self.end_knot_history@.push(t);
        let n = self.end_knot_history.len() + 1;
        let mut count: usize = 0;
        let ghost mut seen: Set<Knot> = Set::empty();
        let mut k: usize = 0;
        while k < n
            invariant
                n == all.len(),
                all == self.end_knot_history@.push(t),
                k <= n,
                seen.finite(),
                seen =~= all.subrange(0, k as int).to_set(),
                count == seen.len(),
                count <= k,
            decreases n - k,
        {
            let item = if k + 1 == n { t } else { self.end_knot_history[k] };
            assert(item == all[k as int]);
            let mut earlier = false;
            let mut j: usize = 0;
            while j < k
                invariant
                    n == all.len(),
                    all == self.end_knot_history@.push(t),
                    j <= k < n,
                    item == all[k as int],
                    earlier == exists|x: int| 0 <= x < j && all[x] == item,
                decreases k - j,
            {
                let other = if j + 1 == n { t } else { self.end_knot_history[j] };
                assert(other == all[j as int]);
                if other.x == item.x && other.y == item.y {
                    earlier = true;
                }
                j += 1;
            }
            proof {
                let pre = all.subrange(0, k as int);
                let nxt = all.subrange(0, k as int + 1);
                assert(nxt =~= pre.push(item));
                assert forall|e: Knot| #[trigger] nxt.contains(e) <==> pre.contains(e) || e == item by {
                    if nxt.contains(e) && e != item {
                        let x = choose|x: int| 0 <= x < nxt.len() && nxt[x] == e;
                        assert(pre[x] == e);
                    }
                    if pre.contains(e) {
                        let x = choose|x: int| 0 <= x < pre.len() && pre[x] == e;
                        assert(nxt[x] == e);
                    }
                    if e == item {
                        assert(nxt[k as int] == e);
                    }
                }
                assert(nxt.to_set() =~= pre.to_set().insert(item));
                if earlier {
                    let x = choose|x: int| 0 <= x < k && all[x] == item;
                    assert(pre[x] == item);
                    assert(seen.contains(item));
                } else {
                    assert(!seen.contains(item)) by {
                        if seen.contains(item) {
                            let x = choose|x: int| 0 <= x < pre.len() && pre[x] == item;
                            assert(all[x] == item);
                        }
                    }
                }
            }
            if !earlier {
                count = count + 1;
            }
            proof {
                seen = seen.insert(item);
            }
            k += 1;
        }
        assert(all.subrange(0, n as int) =~= all);
        count
    }
}

} // verus!
