//! Counting the calories that elves carry, and the three best-stocked elves.
use vstd::prelude::*;
use crate::numbers::{i32_of, parse_i32};

verus! {

/// The sum of a list of numbers.
pub open spec fn seq_sum(s: Seq<i32>) -> int
    decreases s.len(),
{
    if s.len() == 0 {
        0
    } else {
        seq_sum(s.drop_last()) + s.last()
    }
}

/// The largest sum of exactly `k` of the values of `s` (`k` at most its
/// length): the last value is either left out or taken with `k - 1` others.
pub open spec fn best_sum(s: Seq<int>, k: nat) -> int
    decreases s.len(),
{
    if k == 0 || s.len() == 0 {
        0
    } else if k >= s.len() {
        best_sum(s.drop_last(), (k - 1) as nat) + s.last()
    } else {
        let without = best_sum(s.drop_last(), k);
        let with = best_sum(s.drop_last(), (k - 1) as nat) + s.last();
        if without >= with {
            without
        } else {
            with
        }
    }
}

/// The sum of the three largest values, or of all when there are fewer.
pub open spec fn top_three(s: Seq<int>) -> int {
    best_sum(s, if s.len() < 3 { s.len() } else { 3 })
}

pub struct Elf {
    pub calories: i32,
}

/// The elves counted so far, and the snacks of the elf being counted.
pub struct ElfExpedition {
    pub elves: Vec<Elf>,
    pub elf_candidate: Vec<i32>,
}

pub open spec fn calories_of(elves: Seq<Elf>) -> Seq<int> {
    elves.map_values(|e: Elf| e.calories as int)
}

impl ElfExpedition {
    pub fn new() -> (r: ElfExpedition)
        ensures
            r.elves@.len() == 0,
            r.elf_candidate@.len() == 0,
    {
        return ElfExpedition { elves: Vec::new(), elf_candidate: Vec::new() };
    }

    pub fn pack_snack(&mut self, s: i32)
        ensures
            final(self).elf_candidate@ == old(self).elf_candidate@.push(s),
            final(self).elves@ == old(self).elves@,
    {
        self.elf_candidate.push(s);
    }

    /// Closes the elf being counted, if it has any snacks: its total joins the
    /// elves.
    pub fn pack_elf(&mut self)
        requires
            forall|k: int|
                0 <= k <= old(self).elf_candidate.len() ==> i32::MIN <= #[trigger] seq_sum(
                    old(self).elf_candidate@.subrange(0, k),
                ) <= i32::MAX,
        ensures
            final(self).elf_candidate@.len() == 0,
            old(self).elf_candidate@.len() == 0 ==> final(self).elves@ == old(self).elves@,
            old(self).elf_candidate@.len() > 0 ==> calories_of(final(self).elves@) == calories_of(
                old(self).elves@,
            ).push(seq_sum(old(self).elf_candidate@)),
    {
        if self.elf_candidate.len() == 0 {
            return;
        }
        let mut calorie_total: i32 = 0;
        let mut k: usize = 0;
        proof {
            assert(self.elf_candidate@.subrange(0, 0) =~= Seq::<i32>::empty());
        }
        while k < self.elf_candidate.len()
            invariant
                k <= self.elf_candidate.len(),
                forall|j: int|
                    0 <= j <= self.elf_candidate.len() ==> i32::MIN <= #[trigger] seq_sum(
                        self.elf_candidate@.subrange(0, j),
                    ) <= i32::MAX,
                calorie_total == seq_sum(self.elf_candidate@.subrange(0, k as int)),
            decreases self.elf_candidate.len() - k,
        {
            assert(self.elf_candidate@.subrange(0, k as int + 1).drop_last() =~= self.elf_candidate@.subrange(
                0,
                k as int,
            ));
            assert(seq_sum(self.elf_candidate@.subrange(0, k as int + 1)) <= i32::MAX);
            calorie_total = calorie_total + self.elf_candidate[k];
            k += 1;
        }
        assert(self.elf_candidate@.subrange(0, k as int) =~= self.elf_candidate@);
        let ghost before = self.elves@;
        self.elves.push(Elf { calories: calorie_total });
        assert(calories_of(self.elves@) =~= calories_of(before).push(calorie_total as int));
        self.elf_candidate.clear();
    }

    /// The calories of the three best-stocked elves together.
    pub fn top_three_total(&self) -> (r: i32)
        requires
            i32::MIN <= top_three(calories_of(self.elves@)) <= i32::MAX,
        ensures
            r == top_three(calories_of(self.elves@)),
    {
        let ghost cal = calories_of(self.elves@);
        // best sums of exactly one, two and three of the elves seen so far
        let mut one: i64 = 0;
        let mut two: i64 = 0;
        let mut three: i64 = 0;
        let mut k: usize = 0;
        while k < self.elves.len()
            invariant
                cal == calories_of(self.elves@),
                k <= self.elves.len(),
                one == best_sum(cal.subrange(0, k as int), if k < 1 { k as nat } else { 1 }),
                two == best_sum(cal.subrange(0, k as int), if k < 2 { k as nat } else { 2 }),
                three == best_sum(cal.subrange(0, k as int), if k < 3 { k as nat } else { 3 }),
                i32::MIN <= one <= i32::MAX,
                2 * i32::MIN <= two <= 2 * i32::MAX,
                3 * i32::MIN <= three <= 3 * i32::MAX,
            decreases self.elves.len() - k,
        {
            let x = self.elves[k].calories as i64;
            let ghost pre = cal.subrange(0, k as int);
            let ghost next = cal.subrange(0, k as int + 1);
            assert(next.drop_last() =~= pre);
            assert(next.last() == x);
            assert(best_sum(pre, 0) == 0);
            let new_three = if k == 0 {
                x
            } else if k == 1 {
                one + x
            } else if k == 2 {
                two + x
            } else if three >= two + x {
                three
            } else {
                two + x
            };
            let new_two = if k == 0 {
                x
            } else if k == 1 {
                one + x
            } else if two >= one + x {
                two
            } else {
                one + x
            };
            let new_one = if k == 0 {
                x
            } else if one >= x {
                one
            } else {
                x
            };
            one = new_one;
            two = new_two;
            three = new_three;
            k += 1;
        }
        assert(cal.subrange(0, k as int) =~= cal);
        if k < 3 {
            if k == 0 {
                0
            } else if k == 1 {
                one as i32
            } else {
                two as i32
            }
        } else {
            three as i32
        }
    }
}

/// Reading lines one by one: the totals of the elves closed so far, and the
/// snacks of the elf being counted. An empty line closes an elf.
pub open spec fn scan_lines(lines: Seq<Seq<char>>) -> (Seq<int>, Seq<i32>)
    decreases lines.len(),
{
    if lines.len() == 0 {
        (Seq::empty(), Seq::empty())
    } else {
        let (totals, cur) = scan_lines(lines.drop_last());
        let l = lines.last();
        if l.len() == 0 {
            if cur.len() == 0 {
                (totals, cur)
            } else {
                (totals.push(seq_sum(cur)), Seq::empty())
            }
        } else {
            (totals, cur.push(i32_of(l)->0))
        }
    }
}

/// Each elf's total: one per group of lines between empty lines.
pub open spec fn elf_totals(lines: Seq<Seq<char>>) -> Seq<int> {
    let (totals, cur) = scan_lines(lines);
    if cur.len() == 0 {
        totals
    } else {
        totals.push(seq_sum(cur))
    }
}

/// Each running total of the snacks fits in `i32`.
pub open spec fn sums_fit(cur: Seq<i32>) -> bool {
    forall|j: int| 0 <= j <= cur.len() ==> i32::MIN <= #[trigger] seq_sum(cur.subrange(0, j)) <= i32::MAX
}

pub open spec fn lines_view(lines: Seq<String>) -> Seq<Seq<char>> {
    lines.map_values(|l: String| l@)
}

/// Reads the calorie list: one number per line, an empty line between elves.
pub fn parse_elves(lines: Vec<String>) -> (r: Result<ElfExpedition, String>)
    requires
        forall|k: int| 0 <= k < lines.len() ==> (#[trigger] lines[k])@.len() == 0 || i32_of(lines[k]@) is Some,
        forall|k: int|
            0 <= k <= lines.len() ==> sums_fit(#[trigger] scan_lines(lines_view(lines@).subrange(0, k)).1),
    ensures
        r matches Ok(e) && calories_of(e.elves@) == elf_totals(lines_view(lines@)) && e.elf_candidate@.len()
            == 0,
{
    let ghost ls = lines_view(lines@);
    let mut elves = ElfExpedition::new();
    let mut k: usize = 0;
    proof {
        assert(ls.subrange(0, 0) =~= Seq::<Seq<char>>::empty());
    }
    while k < lines.len()
        invariant
            ls == lines_view(lines@),
            k <= lines.len(),
            forall|j: int| 0 <= j < lines.len() ==> (#[trigger] lines[j])@.len() == 0 || i32_of(lines[j]@) is Some,
            forall|j: int| 0 <= j <= lines.len() ==> sums_fit(#[trigger] scan_lines(ls.subrange(0, j)).1),
            calories_of(elves.elves@) == scan_lines(ls.subrange(0, k as int)).0,
            elves.elf_candidate@ == scan_lines(ls.subrange(0, k as int)).1,
        decreases lines.len() - k,
    {
        let ghost pre = ls.subrange(0, k as int);
        let ghost next = ls.subrange(0, k as int + 1);
        assert(next.drop_last() =~= pre);
        assert(next.last() == lines[k as int]@);
        assert(sums_fit(scan_lines(pre).1));
        let l = lines[k].as_str();
        if l.unicode_len() == 0 {
            elves.pack_elf();
            proof {
                if scan_lines(pre).1.len() > 0 {
                    assert(scan_lines(next).1 =~= Seq::<i32>::empty());
                }
            }
        } else {
            let cals = match parse_i32(l) {
                Some(v) => v,
                None => {
                    return Err("invalid calorie count".to_owned());
                },
            };
            elves.pack_snack(cals);
        }
        k += 1;
    }
    assert(ls.subrange(0, k as int) =~= ls);
    assert(sums_fit(scan_lines(ls).1));
    elves.pack_elf();
    Ok(elves)
}

} // verus!
