//! Spotting a marker in a stream: the first point where the last few
//! characters are all different.
use vstd::prelude::*;
use std::collections::VecDeque;

verus! {

/// The last characters seen, at most `marker_length` of them (one when the
/// length is zero), and how many characters have gone by.
pub struct MarkerDetector {
    pub ring_buffer: VecDeque<char>,
    pub chars_processed: usize,
    pub marker_length: usize,
}

impl MarkerDetector {
    /// The window holds no more characters than the marker length allows.
    pub open spec fn wf(&self) -> bool {
        self.ring_buffer@.len() <= if self.marker_length == 0 { 1 } else { self.marker_length as int }
    }

    pub fn new(l: usize) -> (r: MarkerDetector)
        ensures
            r.wf(),
            r.marker_length == l,
            r.chars_processed == 0,
            r.ring_buffer@.len() == 0,
    {
        return MarkerDetector { marker_length: l, ring_buffer: VecDeque::with_capacity(l), chars_processed: 0 };
    }

    /// Takes in one character; true when the window then holds a full marker
    /// of distinct characters.
    pub fn process(&mut self, c: char) -> (r: bool)
        requires
            old(self).wf(),
            old(self).chars_processed < usize::MAX,
        ensures
            final(self).wf(),
            final(self).marker_length == old(self).marker_length,
            final(self).chars_processed == old(self).chars_processed + 1,
            final(self).ring_buffer@ == (if old(self).ring_buffer@.len() >= old(self).marker_length
                && old(self).ring_buffer@.len() > 0 {
                old(self).ring_buffer@.drop_first()
            } else {
                old(self).ring_buffer@
            }).push(c),
            r == (final(self).ring_buffer@.len() == final(self).marker_length
                && final(self).ring_buffer@.no_duplicates()),
    {
        if self.ring_buffer.len() >= self.marker_length {
            let ghost before = self.ring_buffer@;
            self.ring_buffer.pop_front();
            assert(before.len() > 0 ==> self.ring_buffer@ =~= before.drop_first());
        }
        self.ring_buffer.push_back(c);
        self.chars_processed += 1;
        self.ring_buffer.len() == self.marker_length && all_distinct(&self.ring_buffer)
    }
}

/// No character occurs twice.
fn all_distinct(v: &VecDeque<char>) -> (r: bool)
    ensures
        r == v@.no_duplicates(),
{
    let n = v.len();
    let mut i: usize = 0;
    while i < n
        invariant
            n == v@.len(),
            i <= n,
            forall|a: int, b: int| 0 <= a < b < n && a < i ==> v@[a] != v@[b],
        decreases n - i,
    {
        let mut j: usize = i + 1;
        while j < n
            invariant
                n == v@.len(),
                i < n,
                i < j <= n,
                forall|a: int, b: int| 0 <= a < b < n && a < i ==> v@[a] != v@[b],
                forall|b: int| i < b < j ==> v@[i as int] != v@[b],
            decreases n - j,
        {
            if v[i] == v[j] {
                return false;
            }
            j += 1;
        }
        i += 1;
    }
    true
}

/// The window of at most `len` characters that ends at position `p` of `s`
/// (one character when `len` is zero).
pub open spec fn window(s: Seq<char>, len: int, p: int) -> Seq<char> {
    let w = if len == 0 { 1 } else { len };
    let start = if p + 1 >= w { p + 1 - w } else { 0 };
    s.subrange(start, p + 1)
}

/// Position `p` completes a marker: the `len` characters up to it are all
/// different.
pub open spec fn marker_at(s: Seq<char>, len: int, p: int) -> bool {
    window(s, len, p).len() == len && window(s, len, p).no_duplicates()
}

/// How many characters are read until the first marker is complete, or all
/// of them when there is none.
pub fn marker_position(line: &str, marker_len: usize) -> (r: usize)
    requires
        line@.len() < usize::MAX,
    ensures
        r <= line@.len(),
        forall|p: int| 0 <= p < r - 1 ==> !marker_at(line@, marker_len as int, p),
        r < line@.len() ==> r > 0 && marker_at(line@, marker_len as int, r - 1),
{
    let len = line.unicode_len();
    let mut sop = MarkerDetector::new(marker_len);
    let mut k: usize = 0;
    while k < len
        invariant
            len == line@.len(),
            len < usize::MAX,
            k <= len,
            sop.wf(),
            sop.marker_length == marker_len,
            sop.chars_processed == k,
            sop.ring_buffer@ == (if k == 0 { Seq::empty() } else { window(line@, marker_len as int, k - 1) }),
            forall|p: int| 0 <= p < k ==> !marker_at(line@, marker_len as int, p),
        decreases len - k,
    {
        let c = line.get_char(k);
        let found = sop.process(c);
        proof {
            let s = line@;
            let ml = marker_len as int;
            assert(sop.ring_buffer@ =~= window(s, ml, k as int));
        }
        if found {
            return k + 1;
        }
        k += 1;
    }
    k
}

} // verus!
