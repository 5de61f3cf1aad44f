//! Stacks of crates and a crane that moves several crates at once, keeping
//! their order.
use vstd::prelude::*;
use crate::numbers::{i32_of, parse_i32, parse_usize, usize_of};
use crate::words::{word_bounds, words};

verus! {

#[derive(Debug)]
pub struct Stack {
    pub id: usize,
    pub crates: Vec<char>,
}

impl Stack {
    pub fn new(id: usize) -> (r: Stack)
        ensures
            r.id == id,
            r.crates@.len() == 0,
    {
        return Stack { id: id, crates: Vec::new() };
    }

    pub fn push(&mut self, c: char)
        ensures
            final(self).crates@ == old(self).crates@.push(c),
            final(self).id == old(self).id,
    {
        self.crates.push(c)
    }

    pub fn pop(&mut self) -> (r: Option<char>)
        ensures
            final(self).id == old(self).id,
            old(self).crates@.len() == 0 ==> r is None && final(self).crates@ == old(self).crates@,
            old(self).crates@.len() > 0 ==> r == Some(old(self).crates@.last()) && final(self).crates@
                == old(self).crates@.drop_last(),
    {
        self.crates.pop()
    }

    /// Takes `n` crates off the top, topmost first; `None` when there are
    /// fewer, after taking all there were.
    pub fn pop_n(&mut self, n: i32) -> (r: Option<Vec<char>>)
        ensures
            final(self).id == old(self).id,
            n <= old(self).crates@.len() ==> {
                let keep = if n <= 0 { old(self).crates@.len() as int } else { old(self).crates@.len() - n };
                &&& final(self).crates@ == old(self).crates@.subrange(0, keep)
                &&& r matches Some(v) && v@ == old(self).crates@.subrange(keep, old(self).crates@.len() as int).reverse()
            },
            n > old(self).crates@.len() ==> r is None && final(self).crates@.len() == 0,
    {
        let ghost start = self.crates@;
        let mut res: Vec<char> = Vec::new();
        let mut i: i32 = 0;
        while i < n
            invariant
                self.id == old(self).id,
                start == old(self).crates@,
                0 <= i,
                n > 0 ==> i <= n,
                n <= 0 ==> i == 0,
                i <= start.len(),
                self.crates@ == start.subrange(0, start.len() - i),
                res@ == start.subrange(start.len() - i, start.len() as int).reverse(),
            decreases n - i,
        {
            let r = match self.pop() {
                Some(r) => r,
                None => {
                    return None;
                },
            };
            res.push(r);
            proof {
                assert(self.crates@ =~= start.subrange(0, start.len() - i - 1));
                assert(res@ =~= start.subrange(start.len() - i - 1, start.len() as int).reverse());
            }
            i += 1;
        }
        proof {
            if n <= 0 {
                assert(self.crates@ =~= start);
                assert(res@ =~= start.subrange(start.len() as int, start.len() as int).reverse());
            }
        }
        Some(res)
    }

    /// Puts the crates on top, last first, so that a pile taken off with
    /// `pop_n` lands in its old order.
    pub fn push_n(&mut self, cs: Vec<char>)
        ensures
            final(self).crates@ == old(self).crates@ + cs@.reverse(),
            final(self).id == old(self).id,
    {
        let mut k: usize = cs.len();
        while k > 0
            invariant
                k <= cs.len(),
                self.crates@ == old(self).crates@ + cs@.subrange(k as int, cs.len() as int).reverse(),
                self.id == old(self).id,
            decreases k,
        {
            k -= 1;
            self.push(cs[k]);
            assert(self.crates@ =~= old(self).crates@ + cs@.subrange(k as int, cs.len() as int).reverse());
        }
        assert(cs@.subrange(0, cs.len() as int) =~= cs@);
    }
}

/// A crane instruction: how many crates to move, from which stack to which.
#[derive(Debug)]
pub struct MoveCmd {
    pub count: i32,
    pub source: usize,
    pub destination: usize,
}

impl MoveCmd {
    /// Reads a line of six words such as `move 3 from 1 to 2`: the second,
    /// fourth and sixth are the numbers.
    pub fn from_input(ls: &String) -> (r: Result<MoveCmd, String>)
        ensures
            ({
                let w = words(ls@);
                match r {
                    Ok(cmd) => {
                        &&& w.len() == 6
                        &&& i32_of(w[1]) == Some(cmd.count)
                        &&& usize_of(w[3]) == Some(cmd.source)
                        &&& usize_of(w[5]) == Some(cmd.destination)
                    },
                    Err(_) => w.len() != 6 || i32_of(w[1]) is None || usize_of(w[3]) is None || usize_of(w[5]) is None,
                }
            }),
    {
        let text = ls.as_str();
        let b = word_bounds(text);
        if b.len() != 6 {
            return Err("Invalid MoveCmd input line".to_owned());
        }
        let count = match parse_i32(text.substring_char(b[1].0, b[1].1)) {
            Some(v) => v,
            None => {
                return Err("invalid crate count".to_owned());
            },
        };
        let source = match parse_usize(text.substring_char(b[3].0, b[3].1)) {
            Some(v) => v,
            None => {
                return Err("invalid source stack".to_owned());
            },
        };
        let destination = match parse_usize(text.substring_char(b[5].0, b[5].1)) {
            Some(v) => v,
            None => {
                return Err("invalid destination stack".to_owned());
            },
        };
        Ok(MoveCmd { count, source, destination })
    }
}

/// The crate, if any, that a drawing line shows for stack number `k` (counting
/// from zero): the character in column `1 + 4 * k`, unless it is a space.
pub open spec fn column_pushes(l: Seq<char>, k: int) -> Seq<char> {
    let col = 1 + 4 * k;
    if col < l.len() && l[col] != ' ' {
        seq![l[col]]
    } else {
        Seq::empty()
    }
}

/// The crates of stack number `k` in a drawing, bottom first.
pub open spec fn stacked(lines: Seq<Seq<char>>, k: int) -> Seq<char>
    decreases lines.len(),
{
    if lines.len() == 0 {
        Seq::empty()
    } else {
        column_pushes(lines.last(), k) + stacked(lines.drop_last(), k)
    }
}

/// The position of the stack with number `id`, if there is one.
pub open spec fn index_of_id(stacks: Seq<Stack>, id: usize) -> int {
    if exists|k: int| 0 <= k < stacks.len() && stacks[k].id == id {
        choose|k: int| 0 <= k < stacks.len() && stacks[k].id == id
    } else {
        -1
    }
}

pub open spec fn ids_increasing(stacks: Seq<Stack>) -> bool {
    forall|a: int, b: int| 0 <= a < b < stacks.len() ==> stacks[a].id < stacks[b].id
}

/// Every word is a number.
pub open spec fn all_numbers(nums: Seq<Seq<char>>) -> bool {
    forall|k: int| 0 <= k < nums.len() ==> usize_of(#[trigger] nums[k]) is Some
}

/// The numbers increase from word to word.
pub open spec fn numbers_increasing(nums: Seq<Seq<char>>) -> bool {
    forall|a: int, b: int| 0 <= a < b < nums.len() ==> usize_of(#[trigger] nums[a])->0 < usize_of(#[trigger] nums[b])->0
}

/// Relies on `String`'s `FromIterator<char>`: the string holds the
/// characters collected, in order.
#[verifier::external_body]
fn string_of(cs: &Vec<char>) -> (r: String)
    ensures
        r@ == cs@,
{
    cs.iter().collect()
}

/// The stacks, in increasing order of their numbers.
#[derive(Debug)]
pub struct SupplyStacks {
    pub stacks: Vec<Stack>,
}

impl SupplyStacks {
    /// Reads a drawing of stacks: the last line numbers the stacks, each line
    /// above it shows one layer of crates.
    pub fn from_input(ls: &Vec<String>) -> (r: Result<SupplyStacks, String>)
        requires
            ls.len() >= 1,
        ensures
            ({
                let nums = words(ls[ls.len() - 1]@);
                let drawing = ls@.subrange(0, ls.len() - 1).map_values(|l: String| l@);
                match r {
                    Ok(ss) => {
                        &&& ss.stacks.len() == nums.len()
                        &&& ids_increasing(ss.stacks@)
                        &&& forall|k: int|
                            0 <= k < ss.stacks.len() ==> {
                                &&& usize_of(nums[k]) == Some((#[trigger] ss.stacks[k]).id)
                                &&& ss.stacks[k].crates@ == stacked(drawing, k)
                            }
                    },
                    Err(_) => !all_numbers(nums) || !numbers_increasing(nums),
                }
            }),
    {
        let last = ls.len() - 1;
        let bottom = ls[last].as_str();
        let b = word_bounds(bottom);
        let ghost nums = words(ls[last as int]@);
        let mut stacks: Vec<Stack> = Vec::new();
        let mut ordered = true;
        let mut k: usize = 0;
        while k < b.len()
            invariant
                bottom@ == ls[ls.len() - 1]@,
                last + 1 == ls.len(),
                ordered == ids_increasing(stacks@),
                nums == words(bottom@),
                b.len() == nums.len(),
                forall|j: int|
                    0 <= j < b.len() ==> (#[trigger] b[j]).0 < b[j].1 <= bottom@.len() && bottom@.subrange(
                        b[j].0 as int,
                        b[j].1 as int,
                    ) == nums[j],
                k <= b.len(),
                stacks.len() == k,
                forall|j: int|
                    0 <= j < k ==> usize_of(nums[j]) == Some((#[trigger] stacks[j]).id) && stacks[j].crates@.len()
                        == 0,
            decreases b.len() - k,
        {
            let id = match parse_usize(bottom.substring_char(b[k].0, b[k].1)) {
                Some(v) => v,
                None => {
                    proof {
                        assert(usize_of(nums[k as int]) is None);
                        assert(!all_numbers(nums));
                    }
                    return Err("invalid stack number".to_owned());
                },
            };
            let ghost before = stacks@;
            if k > 0 && stacks[k - 1].id >= id {
                ordered = false;
            }
            stacks.push(Stack::new(id));
            proof {
                if ordered {
                    assert forall|x: int, y: int| 0 <= x < y < stacks.len() implies stacks[x].id < stacks[y].id by {
                        if y == k && x < k - 1 {
                            assert(before[x].id < before[k - 1].id);
                        }
                    }
                } else if ids_increasing(stacks@) {
                    assert(stacks[k - 1].id < stacks[k as int].id);
                    assert(ids_increasing(before)) by {
                        assert forall|x: int, y: int| 0 <= x < y < before.len() implies before[x].id < before[y].id by {
                            assert(stacks[x].id < stacks[y].id);
                        }
                    }
                }
            }
            k += 1;
        }
        if !ordered {
            proof {
                let (x, y) = choose|x: int, y: int| !(0 <= x < y < stacks.len() ==> stacks[x].id < stacks[y].id);
                assert(usize_of(nums[x]) == Some(stacks[x].id));
                assert(usize_of(nums[y]) == Some(stacks[y].id));
                assert(!numbers_increasing(nums));
            }
            return Err("stack numbers must increase".to_owned());
        }
        let mut ss = SupplyStacks { stacks };
        let ghost drawing = ls@.subrange(0, ls.len() - 1).map_values(|l: String| l@);
        let mut row: usize = last;
        proof {
            assert(drawing.subrange(row as int, drawing.len() as int) =~= Seq::<Seq<char>>::empty());
        }
        while row > 0
            invariant
                last + 1 == ls.len(),
                drawing == ls@.subrange(0, ls.len() - 1).map_values(|l: String| l@),
                drawing.len() == last,
                row <= last,
                ss.stacks.len() == nums.len(),
                ids_increasing(ss.stacks@),
                forall|k: int|
                    0 <= k < ss.stacks.len() ==> usize_of(nums[k]) == Some((#[trigger] ss.stacks[k]).id)
                        && ss.stacks[k].crates@ == stacked(drawing.subrange(row as int, drawing.len() as int), k),
            decreases row,
        {
            row -= 1;
            ss.push_line(ls[row].as_str());
            proof {
                let upper = drawing.subrange(row as int, drawing.len() as int);
                let lower = drawing.subrange(row as int + 1, drawing.len() as int);
                assert forall|k: int|
                    0 <= k < ss.stacks.len() implies usize_of(nums[k]) == Some((#[trigger] ss.stacks[k]).id)
                        && ss.stacks[k].crates@ == stacked(upper, k) by {
                    lemma_stacked_front(upper, k);
                    assert(upper.drop_first() =~= lower);
                    assert(upper[0] == ls[row as int]@);
                }
            }
        }
        assert(drawing.subrange(0, drawing.len() as int) =~= drawing);
        Ok(ss)
    }

    /// Adds the crates that one drawing line shows, one layer higher.
    pub fn push_line(&mut self, l: &str)
        ensures
            final(self).stacks.len() == old(self).stacks.len(),
            forall|k: int|
                0 <= k < final(self).stacks.len() ==> (#[trigger] final(self).stacks[k]).id == old(self).stacks[k].id
                    && final(self).stacks[k].crates@ == old(self).stacks[k].crates@ + column_pushes(l@, k),
    {
        let len = l.unicode_len();
        let mut k: usize = 0;
        while k < self.stacks.len()
            invariant
                len == l@.len(),
                k <= self.stacks.len(),
                self.stacks.len() == old(self).stacks.len(),
                forall|j: int|
                    0 <= j < self.stacks.len() ==> (#[trigger] self.stacks[j]).id == old(self).stacks[j].id
                        && self.stacks[j].crates@ == old(self).stacks[j].crates@ + (if j < k {
                        column_pushes(l@, j)
                    } else {
                        Seq::empty()
                    }),
            decreases self.stacks.len() - k,
        {
            if k <= (usize::MAX - 1) / 4 {
                let col = 4 * k + 1;
                if col < len {
                    let c = l.get_char(col);
                    if c != ' ' {
                        self.stacks[k].push(c);
                    }
                }
            }
            proof {
                assert(self.stacks[k as int].crates@ =~= old(self).stacks[k as int].crates@ + column_pushes(l@, k as int));
            }
            k += 1;
        }
    }

    /// Moves `count` crates from the top of the source stack to the top of
    /// the destination, keeping their order. `None` when a stack is missing
    /// or the source holds too few crates; what was taken by then is lost.
    pub fn apply(&mut self, cmd: &MoveCmd) -> (r: Option<()>)
        requires
            ids_increasing(old(self).stacks@),
        ensures
            ids_increasing(final(self).stacks@),
            final(self).stacks.len() == old(self).stacks.len(),
            ({
                let s = index_of_id(old(self).stacks@, cmd.source);
                let d = index_of_id(old(self).stacks@, cmd.destination);
                let src = old(self).stacks[s].crates@;
                let n = if cmd.count <= 0 { 0 } else { cmd.count as int };
                let keep = src.len() - n;
                if s < 0 {
                    r is None && final(self).stacks@ == old(self).stacks@
                } else if n > src.len() {
                    &&& r is None
                    &&& final(self).stacks[s].crates@.len() == 0
                    &&& forall|k: int| 0 <= k < final(self).stacks.len() && k != s ==> #[trigger] final(self).stacks[k] == old(self).stacks[k]
                } else if d < 0 {
                    &&& r is None
                    &&& final(self).stacks[s].crates@ == src.subrange(0, keep)
                    &&& forall|k: int| 0 <= k < final(self).stacks.len() && k != s ==> #[trigger] final(self).stacks[k] == old(self).stacks[k]
                } else {
                    let after = old(self).stacks@.update(s, Stack { id: cmd.source, crates: final(self).stacks[s].crates });
                    &&& r is Some
                    &&& d != s ==> final(self).stacks[s].crates@ == src.subrange(0, keep)
                    &&& final(self).stacks[d].crates@ == (if d == s { src.subrange(0, keep) } else {
                        old(self).stacks[d].crates@ }) + src.subrange(keep, src.len() as int)
                    &&& forall|k: int|
                        0 <= k < final(self).stacks.len() && k != s && k != d ==> #[trigger] final(self).stacks[k] == old(self).stacks[k]
                }
            }),
    {
        let s = match self.find(cmd.source) {
            Some(s) => s,
            None => {
                return None;
            },
        };
        let ghost src = self.stacks[s as int].crates@;
        let cs = match self.stacks[s].pop_n(cmd.count) {
            Some(cs) => cs,
            None => {
                return None;
            },
        };
        assert(forall|k: int| 0 <= k < self.stacks.len() ==> #[trigger] self.stacks[k].id == old(self).stacks[k].id);
        let d = match self.find(cmd.destination) {
            Some(d) => d,
            None => {
                proof {
                    assert forall|k: int| 0 <= k < old(self).stacks.len() implies old(self).stacks[k].id != cmd.destination by {
                        assert(self.stacks[k].id == old(self).stacks[k].id);
                        if self.stacks[k].id == cmd.destination {
                            assert(exists|j: int| 0 <= j < self.stacks.len() && self.stacks[j].id == cmd.destination);
                        }
                    }
                }
                return None;
            },
        };
        proof {
            lemma_index_unique(old(self).stacks@, cmd.destination, d as int);
        }
        self.stacks[d].push_n(cs);
        proof {
            let n = if cmd.count <= 0 { 0 } else { cmd.count as int };
            assert(src.subrange(src.len() - n, src.len() as int).reverse().reverse() =~= src.subrange(
                src.len() - n,
                src.len() as int,
            ));
        }
        Some(())
    }

    /// The position of the stack numbered `id`.
    fn find(&self, id: usize) -> (r: Option<usize>)
        requires
            ids_increasing(self.stacks@),
        ensures
            match r {
                Some(k) => k == index_of_id(self.stacks@, id) && k < self.stacks.len(),
                None => index_of_id(self.stacks@, id) == -1,
            },
    {
        let mut k: usize = 0;
        while k < self.stacks.len()
            invariant
                ids_increasing(self.stacks@),
                k <= self.stacks.len(),
                forall|j: int| 0 <= j < k ==> self.stacks[j].id != id,
            decreases self.stacks.len() - k,
        {
            if self.stacks[k].id == id {
                proof {
                    let c = choose|c: int| 0 <= c < self.stacks.len() && self.stacks[c].id == id;
                    if c < k {
                        assert(self.stacks[c].id < self.stacks[k as int].id);
                    } else if c > k {
                        assert(self.stacks[k as int].id < self.stacks[c].id);
                    }
                }
                return Some(k);
            }
            k += 1;
        }
        None
    }

    /// The top crate of each stack, in stack order.
    pub fn top_of_stacks(&self) -> (r: String)
        requires
            forall|k: int| 0 <= k < self.stacks.len() ==> (#[trigger] self.stacks[k]).crates@.len() > 0,
        ensures
            r@ == Seq::new(self.stacks.len() as nat, |k: int| self.stacks[k].crates@.last()),
    {
        let mut tops: Vec<char> = Vec::new();
        let mut k: usize = 0;
        while k < self.stacks.len()
            invariant
                k <= self.stacks.len(),
                forall|j: int| 0 <= j < self.stacks.len() ==> (#[trigger] self.stacks[j]).crates@.len() > 0,
                tops@ == Seq::new(k as nat, |j: int| self.stacks[j].crates@.last()),
            decreases self.stacks.len() - k,
        {
            let n = self.stacks[k].crates.len();
            tops.push(self.stacks[k].crates[n - 1]);
            assert(tops@ =~= Seq::new(k as nat + 1, |j: int| self.stacks[j].crates@.last()));
            k += 1;
        }
        string_of(&tops)
    }
}

/// With increasing numbers, the stack that carries a number is the only one.
proof fn lemma_index_unique(stacks: Seq<Stack>, id: usize, k: int)
    requires
        ids_increasing(stacks),
        0 <= k < stacks.len(),
        stacks[k].id == id,
    ensures
        index_of_id(stacks, id) == k,
{
    let c = choose|c: int| 0 <= c < stacks.len() && stacks[c].id == id;
    if c < k {
        assert(stacks[c].id < stacks[k].id);
    } else if c > k {
        assert(stacks[k].id < stacks[c].id);
    }
}

/// Taking the top line of a drawing first: its layer lies above the rest.
proof fn lemma_stacked_front(lines: Seq<Seq<char>>, k: int)
    requires
        lines.len() > 0,
    ensures
        stacked(lines, k) == stacked(lines.drop_first(), k) + column_pushes(lines[0], k),
    decreases lines.len(),
{
    if lines.len() == 1 {
        assert(lines.drop_last() =~= Seq::<Seq<char>>::empty());
        assert(lines.drop_first() =~= Seq::<Seq<char>>::empty());
        assert(stacked(lines.drop_last(), k) =~= Seq::<char>::empty());
        assert(stacked(lines.drop_first(), k) =~= Seq::<char>::empty());
        assert(stacked(lines, k) =~= column_pushes(lines[0], k));
    } else {
        lemma_stacked_front(lines.drop_last(), k);
        assert(lines.drop_last().drop_first() =~= lines.drop_first().drop_last());
        assert(lines.drop_first().last() == lines.last());
        assert(stacked(lines, k) =~= stacked(lines.drop_first(), k) + column_pushes(lines[0], k));
    }
}

} // verus!
