//! Rucksacks of two equal compartments, and the priorities of their items.
use vstd::prelude::*;

verus! {

/// The priority of an item letter: `a` to `z` are 1 to 26, `A` to `Z` are 27
/// to 52.
pub open spec fn priority_of(c: char) -> int {
    if 'A' <= c <= 'Z' {
        c as int - 38
    } else {
        c as int - 96
    }
}

#[derive(Debug)]
pub struct Rucksack {
    pub compartment_a: Vec<char>,
    pub compartment_b: Vec<char>,
}

impl Rucksack {
    /// Splits a line of an even number of items into its two halves.
    pub fn from_input(l: &String) -> (r: Result<Rucksack, &str>)
        ensures
            match r {
                Ok(sack) => {
                    &&& l@.len() % 2 == 0
                    &&& sack.compartment_a@ == l@.subrange(0, l@.len() as int / 2)
                    &&& sack.compartment_b@ == l@.subrange(l@.len() as int / 2, l@.len() as int)
                },
                Err(_) => l@.len() % 2 != 0,
            },
    {
        let text = l.as_str();
        let len = text.unicode_len();
        if len % 2 != 0 {
            return Err("Invalid input, only even character counts are supported");
        }
        let half = len / 2;
        let mut a: Vec<char> = Vec::new();
        let mut b: Vec<char> = Vec::new();
        let mut p: usize = 0;
        while p < len
            invariant
                len == l@.len(),
                text@ == l@,
                half == len / 2,
                p <= len,
                p <= half ==> a@ == l@.subrange(0, p as int) && b@.len() == 0,
                p > half ==> a@ == l@.subrange(0, half as int) && b@ == l@.subrange(half as int, p as int),
            decreases len - p,
        {
            let c = text.get_char(p);
            if p < half {
                a.push(c);
                assert(a@ =~= l@.subrange(0, p as int + 1));
            } else {
                b.push(c);
                assert(b@ =~= l@.subrange(half as int, p as int + 1));
            }
            p += 1;
        }
        Ok(Rucksack { compartment_a: a, compartment_b: b })
    }

    /// All items: the first compartment's, then the second's.
    pub fn contents(&self) -> (r: Vec<char>)
        ensures
            r@ == self.compartment_a@ + self.compartment_b@,
    {
        let mut r: Vec<char> = Vec::new();
        let mut k: usize = 0;
        while k < self.compartment_a.len()
            invariant
                k <= self.compartment_a.len(),
                r@ == self.compartment_a@.subrange(0, k as int),
            decreases self.compartment_a.len() - k,
        {
            r.push(self.compartment_a[k]);
            assert(r@ =~= self.compartment_a@.subrange(0, k as int + 1));
            k += 1;
        }
        let mut k: usize = 0;
        while k < self.compartment_b.len()
            invariant
                k <= self.compartment_b.len(),
                r@ == self.compartment_a@ + self.compartment_b@.subrange(0, k as int),
            decreases self.compartment_b.len() - k,
        {
            r.push(self.compartment_b[k]);
            assert(r@ =~= self.compartment_a@ + self.compartment_b@.subrange(0, k as int + 1));
            k += 1;
        }
        assert(self.compartment_b@.subrange(0, self.compartment_b.len() as int) =~= self.compartment_b@);
        r
    }

    /// The priority of an item, which must be an ASCII letter.
    pub fn item_priority(i: &char) -> (r: u32)
        requires
            'a' <= *i <= 'z' || 'A' <= *i <= 'Z',
        ensures
            r == priority_of(*i),
    {
        let ascii = *i as u32;
        if 'A' <= *i && *i <= 'Z' {
            ascii - 38
        } else {
            ascii - 96
        }
    }
}

/// The items of `a` that also occur in `b`, each once, in the order of their
/// first occurrence in `a`.
pub open spec fn common_items(a: Seq<char>, b: Seq<char>) -> Seq<char>
    decreases a.len(),
{
    if a.len() == 0 {
        Seq::empty()
    } else {
        let r = common_items(a.drop_last(), b);
        if b.contains(a.last()) && !r.contains(a.last()) {
            r.push(a.last())
        } else {
            r
        }
    }
}

/// The items that occur in both lists, each once, in the order of their first
/// occurrence in `contents_a`.
pub fn intersection(contents_a: Vec<char>, contents_b: Vec<char>) -> (r: Vec<char>)
    ensures
        r@ == common_items(contents_a@, contents_b@),
        forall|c: char| r@.contains(c) <==> contents_a@.contains(c) && contents_b@.contains(c),
        forall|j: int, k: int| 0 <= j < k < r.len() ==> r[j] != r[k],
{
    let mut r: Vec<char> = Vec::new();
    let mut k: usize = 0;
    while k < contents_a.len()
        invariant
            k <= contents_a.len(),
            forall|c: char|
                r@.contains(c) <==> contents_a@.subrange(0, k as int).contains(c) && contents_b@.contains(c),
            forall|i: int, j: int| 0 <= i < j < r.len() ==> r[i] != r[j],
            r@ == common_items(contents_a@.subrange(0, k as int), contents_b@),
        decreases contents_a.len() - k,
    {
        let c = contents_a[k];
        let ghost pre = contents_a@.subrange(0, k as int);
        let ghost next = contents_a@.subrange(0, k as int + 1);
        assert(next =~= pre.push(c));
        assert(next.drop_last() =~= pre);
        assert forall|d: char| next.contains(d) <==> pre.contains(d) || d == c by {
            if next.contains(d) && d != c {
                let i = choose|i: int| 0 <= i < next.len() && next[i] == d;
                assert(pre[i] == d);
            }
            if pre.contains(d) {
                let i = choose|i: int| 0 <= i < pre.len() && pre[i] == d;
                assert(next[i] == d);
            }
            if d == c {
                assert(next[k as int] == d);
            }
        }
        let ghost r_before = r@;
        let in_b = contains_char(&contents_b, c);
        if in_b && !contains_char(&r, c) {
            let ghost before = r@;
            r.push(c);
            assert forall|d: char| r@.contains(d) <==> before.contains(d) || d == c by {
                if r@.contains(d) && d != c {
                    let i = choose|i: int| 0 <= i < r.len() && r@[i] == d;
                    assert(before[i] == d);
                }
                if before.contains(d) {
                    let i = choose|i: int| 0 <= i < before.len() && before[i] == d;
                    assert(r@[i] == d);
                }
                if d == c {
                    assert(r@[r.len() - 1] == d);
                }
            }
        }
        assert forall|d: char| r@.contains(d) <==> next.contains(d) && contents_b@.contains(d) by {
            assert(r_before.contains(d) <==> pre.contains(d) && contents_b@.contains(d));
        }
        k += 1;
    }
    assert(contents_a@.subrange(0, k as int) =~= contents_a@);
    r
}

fn contains_char(v: &Vec<char>, c: char) -> (r: bool)
    ensures
        r == v@.contains(c),
{
    let mut k: usize = 0;
    while k < v.len()
        invariant
            k <= v.len(),
            forall|j: int| 0 <= j < k ==> v[j] != c,
        decreases v.len() - k,
    {
        if v[k] == c {
            return true;
        }
        k += 1;
    }
    false
}

/// The items common to every rucksack of a group, as folding `intersection`
/// over the group gives them: the first rucksack's items when it is alone.
pub open spec fn group_common(g: Seq<Seq<char>>) -> Seq<char>
    decreases g.len(),
{
    if g.len() <= 1 {
        if g.len() == 1 { g[0] } else { Seq::empty() }
    } else {
        common_items(group_common(g.drop_last()), g.last())
    }
}

pub open spec fn contents_of(sacks: Seq<Rucksack>) -> Seq<Seq<char>> {
    sacks.map_values(|r: Rucksack| r.compartment_a@ + r.compartment_b@)
}

/// The group of up to three rucksacks that starts at position `3 * j`.
pub open spec fn group(cs: Seq<Seq<char>>, j: int) -> Seq<Seq<char>> {
    cs.subrange(3 * j, if 3 * j + 3 <= cs.len() { 3 * j + 3 } else { cs.len() as int })
}

/// A badge: the single item common to a group, an ASCII letter.
pub open spec fn badge(common: Seq<char>) -> bool {
    common.len() == 1 && ('a' <= common[0] <= 'z' || 'A' <= common[0] <= 'Z')
}

/// The badge priorities of the first `n` groups added up, if each of them has
/// a badge.
pub open spec fn badge_sum(cs: Seq<Seq<char>>, n: int) -> Option<int>
    decreases n,
{
    if n <= 0 {
        Some(0)
    } else {
        let c = group_common(group(cs, n - 1));
        match badge_sum(cs, n - 1) {
            Some(t) => if badge(c) { Some(t + priority_of(c[0])) } else { None },
            None => None,
        }
    }
}

/// The sum of the badge priorities over the groups of three rucksacks (the
/// last group may be smaller); an error when a group has no single badge.
pub fn badge_total(sacks: &Vec<Rucksack>) -> (r: Result<u32, String>)
    requires
        sacks.len() <= 100_000_000,
    ensures
        ({
            let cs = contents_of(sacks@);
            let n = (cs.len() + 2) / 3;
            match r {
                Ok(t) => badge_sum(cs, n as int) == Some(t as int),
                Err(_) => badge_sum(cs, n as int) is None,
            }
        }),
{
    let ghost cs = contents_of(sacks@);
    let n = sacks.len();
    let mut total: u32 = 0;
    let mut j: usize = 0;
    while j < (n + 2) / 3
        invariant
            cs == contents_of(sacks@),
            n == sacks.len(),
            n <= 100_000_000,
            j <= (n + 2) / 3,
            badge_sum(cs, j as int) == Some(total as int),
            total <= 52 * j,
        decreases (n + 2) / 3 - j,
    {
        let start = 3 * j;
        let end = if start + 3 <= n { start + 3 } else { n };
        let mut common = sacks[start].contents();
        let mut k: usize = start + 1;
        proof {
            let g = group(cs, j as int);
            assert(g.subrange(0, 1).len() == 1);
            assert(g.subrange(0, 1)[0] == cs[start as int]);
            assert(group_common(g.subrange(0, 1)) == cs[start as int]);
        }
        while k < end
            invariant
                cs == contents_of(sacks@),
                cs.len() == n,
                start + 1 <= k <= end <= n,
                end == (if start + 3 <= n { start + 3 } else { n as int }),
                start == 3 * j,
                common@ == group_common(group(cs, j as int).subrange(0, k - start)),
            decreases end - k,
        {
            let ghost g = group(cs, j as int);
            assert(g.len() == end - start);
            assert(g.subrange(0, k - start + 1).drop_last() =~= g.subrange(0, k - start));
            assert(g.subrange(0, k - start + 1).last() == cs[k as int]);
            common = intersection(common, sacks[k].contents());
            k += 1;
        }
        proof {
            let g = group(cs, j as int);
            assert(g.subrange(0, end - start) =~= g);
        }
        if common.len() != 1 {
            proof {
                lemma_badge_none(cs, j as int + 1, (n as int + 2) / 3);
            }
            return Err("expected a single badge per group".to_owned());
        }
        let b = common[0];
        if !(('a' <= b && b <= 'z') || ('A' <= b && b <= 'Z')) {
            proof {
                lemma_badge_none(cs, j as int + 1, (n as int + 2) / 3);
            }
            return Err("a badge must be a letter".to_owned());
        }
        total = total + Rucksack::item_priority(&b);
        j += 1;
    }
    Ok(total)
}

/// Once a group has no badge, no longer run of groups has a sum.
proof fn lemma_badge_none(cs: Seq<Seq<char>>, j: int, n: int)
    requires
        0 < j <= n,
        badge_sum(cs, j) is None,
    ensures
        badge_sum(cs, n) is None,
    decreases n - j,
{
    if j < n {
        lemma_badge_none(cs, j + 1, n);
    }
}

} // verus!
