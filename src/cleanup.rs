//! Pairs of section ranges, and whether the ranges of a pair overlap.
use vstd::prelude::*;
use crate::numbers::{find_only, only_at, parse_u32, u32_of};

verus! {

/// The two parts of `s` on either side of its one `sep`, if it has exactly one.
pub open spec fn halves(s: Seq<char>, sep: char) -> Option<(Seq<char>, Seq<char>)> {
    if exists|m: int| only_at(s, sep, m) {
        let m = choose|m: int| only_at(s, sep, m);
        Some((s.subrange(0, m), s.subrange(m + 1, s.len() as int)))
    } else {
        None
    }
}

/// The range that a text such as `2-4` names.
pub open spec fn section_of(s: Seq<char>) -> Option<(u32, u32)> {
    match halves(s, '-') {
        Some((a, b)) => match (u32_of(a), u32_of(b)) {
            (Some(x), Some(y)) => Some((x, y)),
            _ => None,
        },
        None => None,
    }
}

/// A range of section numbers, both ends included.
#[derive(Debug)]
pub struct Section {
    pub start: u32,
    pub end: u32,
}

/// Splits `s` at its one `sep`.
fn split_pair<'a>(s: &'a str, sep: char) -> (r: Option<(&'a str, &'a str)>)
    ensures
        match r {
            Some((a, b)) => halves(s@, sep) == Some((a@, b@)),
            None => halves(s@, sep) is None,
        },
{
    match find_only(s, sep) {
        Some(m) => {
            proof {
                let c = choose|c: int| only_at(s@, sep, c);
                assert(c == m);
            }
            let len = s.unicode_len();
            Some((s.substring_char(0, m), s.substring_char(m + 1, len)))
        },
        None => None,
    }
}

impl Section {
    /// Reads a range written as two numbers joined by `-`.
    pub fn from_input(i: &str) -> (r: Result<Section, String>)
        ensures
            match r {
                Ok(sec) => section_of(i@) == Some((sec.start, sec.end)),
                Err(_) => section_of(i@) is None,
            },
    {
        match split_pair(i, '-') {
            Some((a, b)) => match (parse_u32(a), parse_u32(b)) {
                (Some(start), Some(end)) => Ok(Section { start, end }),
                _ => Err("invalid section number".to_owned()),
            },
            None => Err("expected 2 numbers separated by '-'".to_owned()),
        }
    }

    /// `another` ends no earlier than this starts and starts no later than
    /// this ends.
    pub fn left_overlap(&self, another: &Section) -> (r: bool)
        ensures
            r == (another.end >= self.start && another.start <= self.end),
    {
        another.end >= self.start && another.start <= self.end
    }

    /// The two ranges share a section, read from either side.
    pub fn overlap(&self, another: &Section) -> (r: bool)
        ensures
            r == ((another.end >= self.start && another.start <= self.end) || (self.end >= another.start
                && self.start <= another.end)),
    {
        self.left_overlap(another) || another.left_overlap(self)
    }
}

/// The two ranges that a text such as `2-4,6-8` names.
pub open spec fn assignment_of(s: Seq<char>) -> Option<((u32, u32), (u32, u32))> {
    match halves(s, ',') {
        Some((a, b)) => match (section_of(a), section_of(b)) {
            (Some(x), Some(y)) => Some((x, y)),
            _ => None,
        },
        None => None,
    }
}

/// The ranges of a pair of workers.
#[derive(Debug)]
pub struct CleaningAssignment {
    pub left: Section,
    pub right: Section,
}

impl CleaningAssignment {
    /// Reads two ranges separated by `,`.
    pub fn from_input(l: &String) -> (r: Result<CleaningAssignment, String>)
        ensures
            match r {
                Ok(a) => assignment_of(l@) == Some(((a.left.start, a.left.end), (a.right.start, a.right.end))),
                Err(_) => assignment_of(l@) is None,
            },
    {
        match split_pair(l.as_str(), ',') {
            Some((a, b)) => {
                let left = Section::from_input(a);
                let right = Section::from_input(b);
                match (left, right) {
                    (Ok(left), Ok(right)) => Ok(CleaningAssignment { left, right }),
                    (Err(e), _) => Err(e),
                    (_, Err(e)) => Err(e),
                }
            },
            None => Err("expected 2 ranges separated by ','".to_owned()),
        }
    }

    /// The two ranges share a section.
    pub fn pair_overlap(&self) -> (r: bool)
        ensures
            r == (self.left.start <= self.right.end && self.right.start <= self.left.end),
    {
        self.left.overlap(&self.right)
    }
}

/// The pair named by a line shares a section.
pub open spec fn line_overlaps(s: Seq<char>) -> bool {
    let ((a, b), (c, d)) = assignment_of(s)->0;
    a <= d && c <= b
}

/// How many of the first `n` lines name overlapping pairs.
pub open spec fn overlap_count(ls: Seq<Seq<char>>, n: int) -> int
    decreases n,
{
    if n <= 0 {
        0
    } else {
        overlap_count(ls, n - 1) + if line_overlaps(ls[n - 1]) { 1int } else { 0 }
    }
}

/// How many pairs in the list overlap; an error when a line names no pair.
pub fn count_overlapping(lines: &Vec<String>) -> (r: Result<usize, String>)
    ensures
        ({
            let ls = lines@.map_values(|l: String| l@);
            match r {
                Ok(n) => (forall|k: int| 0 <= k < ls.len() ==> #[trigger] assignment_of(ls[k]) is Some) && n
                    == overlap_count(ls, ls.len() as int),
                Err(_) => exists|k: int| 0 <= k < ls.len() && #[trigger] assignment_of(ls[k]) is None,
            }
        }),
{
    let ghost ls = lines@.map_values(|l: String| l@);
    let mut count: usize = 0;
    let mut k: usize = 0;
    while k < lines.len()
        invariant
            ls == lines@.map_values(|l: String| l@),
            k <= lines.len(),
            count <= k,
            count == overlap_count(ls, k as int),
            forall|j: int| 0 <= j < k ==> #[trigger] assignment_of(ls[j]) is Some,
        decreases lines.len() - k,
    {
        assert(ls[k as int] == lines[k as int]@);
        match CleaningAssignment::from_input(&lines[k]) {
            Ok(a) => {
                if a.pair_overlap() {
                    count += 1;
                }
            },
            Err(e) => {
                return Err(e);
            },
        }
        k += 1;
    }
    Ok(count)
}

} // verus!
