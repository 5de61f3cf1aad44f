//! Splitting a line into the words between runs of ASCII whitespace.
use vstd::prelude::*;

verus! {

/// The ASCII whitespace characters: space, tab, line feed, form feed and
/// carriage return.
pub open spec fn is_blank(c: char) -> bool {
    c == ' ' || c == '\t' || c == '\n' || c == '\x0C' || c == '\r'
}

/// The words of `s`: its maximal runs of characters that are not ASCII
/// whitespace, in order.
pub open spec fn words(s: Seq<char>) -> Seq<Seq<char>>
    decreases s.len(),
{
    if s.len() == 0 {
        Seq::empty()
    } else if is_blank(s.last()) {
        words(s.drop_last())
    } else if s.len() == 1 || is_blank(s[s.len() - 2]) {
        words(s.drop_last()).push(seq![s.last()])
    } else {
        let w = words(s.drop_last());
        w.update(w.len() - 1, w.last().push(s.last()))
    }
}

pub fn is_blank_char(c: char) -> (r: bool)
    ensures
        r == is_blank(c),
{
    c == ' ' || c == '\t' || c == '\n' || c == '\x0C' || c == '\r'
}

/// The bounds of each word of `text`: word `k` is the characters from
/// `r[k].0` up to but not including `r[k].1`.
pub fn word_bounds(text: &str) -> (r: Vec<(usize, usize)>)
    ensures
        r.len() == words(text@).len(),
        forall|k: int|
            0 <= k < r.len() ==> (#[trigger] r[k]).0 < r[k].1 <= text@.len() && text@.subrange(
                r[k].0 as int,
                r[k].1 as int,
            ) == words(text@)[k],
{
    let ghost t = text@;
    let len = text.unicode_len();
    let mut r: Vec<(usize, usize)> = Vec::new();
    let mut p: usize = 0;
    let mut prev_blank = true;
    while p < len
        invariant
            len == t.len(),
            t == text@,
            p <= len,
            prev_blank == (p == 0 || is_blank(t[p - 1])),
            r.len() == words(t.subrange(0, p as int)).len(),
            !prev_blank ==> r.len() > 0 && r[r.len() - 1].1 == p,
            forall|k: int|
                0 <= k < r.len() ==> (#[trigger] r[k]).0 < r[k].1 <= p && t.subrange(r[k].0 as int, r[k].1 as int)
                    == words(t.subrange(0, p as int))[k],
        decreases len - p,
    {
        let c = text.get_char(p);
        let ghost pre = t.subrange(0, p as int);
        let ghost next = t.subrange(0, p as int + 1);
        assert(next.drop_last() =~= pre);
        assert(next.last() == c);
        if is_blank_char(c) {
            prev_blank = true;
        } else if prev_blank {
            let ghost before = r@;
            r.push((p, p + 1));
            proof {
                assert(t.subrange(p as int, p as int + 1) =~= seq![c]);
                assert forall|k: int| 0 <= k < r.len() implies (#[trigger] r[k]).0 < r[k].1 <= p + 1 && t.subrange(
                    r[k].0 as int,
                    r[k].1 as int,
                ) == words(next)[k] by {
                    if k < before.len() {
                        assert(r[k] == before[k]);
                    }
                }
            }
            prev_blank = false;
        } else {
            let last = r.len() - 1;
            let (start, _) = r[last];
            let ghost before = r@;
            r.set(last, (start, p + 1));
            proof {
                assert(t.subrange(start as int, p as int + 1) =~= t.subrange(start as int, p as int).push(c));
                assert forall|k: int| 0 <= k < r.len() implies (#[trigger] r[k]).0 < r[k].1 <= p + 1 && t.subrange(
                    r[k].0 as int,
                    r[k].1 as int,
                ) == words(next)[k] by {
                    if k < last {
                        assert(r[k] == before[k]);
                    }
                }
            }
        }
        p += 1;
    }
    assert(t.subrange(0, len as int) =~= t);
    r
}

/// `s` holds exactly the characters of `word`.
pub fn is_word(s: &str, word: &str) -> (r: bool)
    ensures
        r == (s@ == word@),
{
    let n = s.unicode_len();
    if n != word.unicode_len() {
        return false;
    }
    let mut k: usize = 0;
    while k < n
        invariant
            n == s@.len(),
            n == word@.len(),
            k <= n,
            forall|j: int| 0 <= j < k ==> s@[j] == word@[j],
        decreases n - k,
    {
        if s.get_char(k) != word.get_char(k) {
            return false;
        }
        k += 1;
    }
    assert(s@ =~= word@);
    true
}

} // verus!
