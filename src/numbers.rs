//! Reading decimal integers from text: an optional sign, then one or more
//! ASCII digits, and a value that fits the target type.
use vstd::prelude::*;

verus! {

pub open spec fn is_digit(c: char) -> bool {
    '0' <= c <= '9'
}

/// `s` is one or more ASCII digits.
pub open spec fn all_digits(s: Seq<char>) -> bool {
    s.len() > 0 && forall|i: int| 0 <= i < s.len() ==> is_digit(#[trigger] s[i])
}

/// The value of a run of decimal digits.
pub open spec fn digits_value(s: Seq<char>) -> int
    decreases s.len(),
{
    if s.len() == 0 {
        0
    } else {
        digits_value(s.drop_last()) * 10 + (s.last() as int - '0' as int)
    }
}

/// The integer that `s` spells, if it is digits with at most a leading sign
/// (`-` only where `signed`).
pub open spec fn int_text(s: Seq<char>, signed: bool) -> Option<int> {
    if s.len() > 0 && s[0] == '+' && all_digits(s.drop_first()) {
        Some(digits_value(s.drop_first()))
    } else if signed && s.len() > 0 && s[0] == '-' && all_digits(s.drop_first()) {
        Some(-digits_value(s.drop_first()))
    } else if all_digits(s) {
        Some(digits_value(s))
    } else {
        None
    }
}

/// What `str::parse::<u32>` gives for `s`.
pub open spec fn u32_of(s: Seq<char>) -> Option<u32> {
    match int_text(s, false) {
        Some(v) => if v <= u32::MAX { Some(v as u32) } else { None },
        None => None,
    }
}

/// What `str::parse::<u16>` gives for `s`.
pub open spec fn u16_of(s: Seq<char>) -> Option<u16> {
    match int_text(s, false) {
        Some(v) => if v <= u16::MAX { Some(v as u16) } else { None },
        None => None,
    }
}

/// What `str::parse::<usize>` gives for `s`.
pub open spec fn usize_of(s: Seq<char>) -> Option<usize> {
    match int_text(s, false) {
        Some(v) => if v <= usize::MAX { Some(v as usize) } else { None },
        None => None,
    }
}

/// What `str::parse::<u64>` gives for `s`.
pub open spec fn u64_of(s: Seq<char>) -> Option<u64> {
    match int_text(s, false) {
        Some(v) => if v <= u64::MAX { Some(v as u64) } else { None },
        None => None,
    }
}

/// What `str::parse::<i32>` gives for `s`.
pub open spec fn i32_of(s: Seq<char>) -> Option<i32> {
    match int_text(s, true) {
        Some(v) => if i32::MIN <= v <= i32::MAX { Some(v as i32) } else { None },
        None => None,
    }
}

proof fn lemma_digits_nonneg(s: Seq<char>)
    requires
        forall|i: int| 0 <= i < s.len() ==> is_digit(#[trigger] s[i]),
    ensures
        digits_value(s) >= 0,
    decreases s.len(),
{
    if s.len() > 0 {
        lemma_digits_nonneg(s.drop_last());
    }
}

/// Reads the digits of `s` from `from` on; `None` when one is no digit, there
/// are none, or the value exceeds `limit`.
fn read_digits(s: &str, from: usize, limit: u64) -> (r: Option<u64>)
    requires
        from <= s@.len(),
    ensures
        ({
            let d = s@.subrange(from as int, s@.len() as int);
            match r {
                Some(v) => all_digits(d) && v == digits_value(d) && v <= limit,
                None => !all_digits(d) || digits_value(d) > limit,
            }
        }),
{
    let ghost t = s@;
    let len = s.unicode_len();
    if from == len {
        return None;
    }
    let mut acc: u64 = 0;
    let mut p: usize = from;
    proof {
        assert(t.subrange(from as int, from as int) =~= Seq::<char>::empty());
    }
    while p < len
        invariant
            t == s@,
            len == t.len(),
            from <= p <= len,
            from < len,
            forall|i: int| from <= i < p ==> is_digit(#[trigger] t[i]),
            acc == digits_value(t.subrange(from as int, p as int)),
            acc <= limit,
        decreases len - p,
    {
        let c = s.get_char(p);
        let ghost pre = t.subrange(from as int, p as int);
        let ghost next = t.subrange(from as int, p as int + 1);
        assert(next.drop_last() =~= pre);
        if c < '0' || c > '9' {
            assert(!is_digit(next.last()));
            assert(!is_digit(t.subrange(from as int, len as int)[p - from]));
            return None;
        }
        let digit = (c as u32 - '0' as u32) as u64;
        if digit > limit || acc > (limit - digit) / 10 {
            proof {
                assert(digits_value(next) == acc * 10 + digit);
                assert(acc * 10 + digit > limit) by (nonlinear_arith)
                    requires
                        digit > limit || acc > (limit - digit) / 10,
                        acc >= 0,
                        digit >= 0,
                        limit >= 0,
                ;
            }
            p += 1;
            proof {
                let rest = t.subrange(from as int, len as int);
                if all_digits(rest) {
                    assert forall|i: int| from <= i < len implies is_digit(#[trigger] t[i]) by {
                        assert(rest[i - from] == t[i]);
                    }
                    lemma_digits_grow(t, from as int, p as int, len as int);
                }
            }
            return None;
        }
        assert(acc * 10 + digit <= limit) by (nonlinear_arith)
            requires
                digit <= limit,
                acc <= (limit - digit) / 10,
                acc >= 0,
        ;
        acc = acc * 10 + digit;
        p += 1;
    }
    assert(t.subrange(from as int, len as int) =~= t.subrange(from as int, p as int));
    Some(acc)
}

/// Appending digits never makes a value smaller.
pub proof fn lemma_digits_grow(t: Seq<char>, from: int, p: int, q: int)
    requires
        0 <= from <= p <= q <= t.len(),
        forall|i: int| from <= i < q ==> is_digit(#[trigger] t[i]),
    ensures
        digits_value(t.subrange(from, p)) <= digits_value(t.subrange(from, q)),
    decreases q - p,
{
    if p < q {
        lemma_digits_grow(t, from, p, q - 1);
        assert(t.subrange(from, q).drop_last() =~= t.subrange(from, q - 1));
        assert forall|i: int| 0 <= i < t.subrange(from, q - 1).len() implies is_digit(
            #[trigger] t.subrange(from, q - 1)[i],
        ) by {
            assert(t.subrange(from, q - 1)[i] == t[from + i]);
        }
        lemma_digits_nonneg(t.subrange(from, q - 1));
    }
}

/// Reads an unsigned 32-bit integer, as `str::parse::<u32>` does.
pub fn parse_u32(s: &str) -> (r: Option<u32>)
    ensures
        r == u32_of(s@),
{
    let len = s.unicode_len();
    let from: usize = if len > 0 && s.get_char(0) == '+' { 1 } else { 0 };
    proof {
        assert(s@.subrange(1, s@.len() as int) =~= s@.drop_first());
        assert(s@.subrange(0, s@.len() as int) =~= s@);
        if from == 1 {
            assert(!all_digits(s@));
        }
    }
    match read_digits(s, from, u32::MAX as u64) {
        Some(v) => Some(v as u32),
        None => None,
    }
}

/// Reads an unsigned 16-bit integer, as `str::parse::<u16>` does.
pub fn parse_u16(s: &str) -> (r: Option<u16>)
    ensures
        r == u16_of(s@),
{
    let len = s.unicode_len();
    let from: usize = if len > 0 && s.get_char(0) == '+' { 1 } else { 0 };
    proof {
        assert(s@.subrange(1, s@.len() as int) =~= s@.drop_first());
        assert(s@.subrange(0, s@.len() as int) =~= s@);
        if from == 1 {
            assert(!all_digits(s@));
        }
    }
    match read_digits(s, from, u16::MAX as u64) {
        Some(v) => Some(v as u16),
        None => None,
    }
}

/// Reads an unsigned integer of `usize`, as `str::parse::<usize>` does.
pub fn parse_usize(s: &str) -> (r: Option<usize>)
    ensures
        r == usize_of(s@),
{
    let len = s.unicode_len();
    let from: usize = if len > 0 && s.get_char(0) == '+' { 1 } else { 0 };
    proof {
        assert(s@.subrange(1, s@.len() as int) =~= s@.drop_first());
        assert(s@.subrange(0, s@.len() as int) =~= s@);
        if from == 1 {
            assert(!all_digits(s@));
        }
    }
    match read_digits(s, from, usize::MAX as u64) {
        Some(v) => Some(v as usize),
        None => None,
    }
}

/// Reads an unsigned 64-bit integer, as `str::parse::<u64>` does.
pub fn parse_u64(s: &str) -> (r: Option<u64>)
    ensures
        r == u64_of(s@),
{
    let len = s.unicode_len();
    let from: usize = if len > 0 && s.get_char(0) == '+' { 1 } else { 0 };
    proof {
        assert(s@.subrange(1, s@.len() as int) =~= s@.drop_first());
        assert(s@.subrange(0, s@.len() as int) =~= s@);
        if from == 1 {
            assert(!all_digits(s@));
        }
    }
    read_digits(s, from, u64::MAX)
}

/// Reads a signed 32-bit integer, as `str::parse::<i32>` does.
pub fn parse_i32(s: &str) -> (r: Option<i32>)
    ensures
        r == i32_of(s@),
{
    let len = s.unicode_len();
    let first = if len > 0 { s.get_char(0) } else { ' ' };
    let negative = len > 0 && first == '-';
    let from: usize = if len > 0 && (first == '+' || first == '-') { 1 } else { 0 };
    proof {
        assert(s@.subrange(1, s@.len() as int) =~= s@.drop_first());
        assert(s@.subrange(0, s@.len() as int) =~= s@);
        if from == 1 {
            assert(!all_digits(s@));
        }
    }
    let limit: u64 = if negative { 2147483648 } else { 2147483647 };
    match read_digits(s, from, limit) {
        Some(v) => {
            if negative {
                Some((0 - v as i64) as i32)
            } else {
                Some(v as i32)
            }
        },
        None => None,
    }
}

/// `m` is the one position of `sep` in `s`.
pub open spec fn only_at(s: Seq<char>, sep: char, m: int) -> bool {
    &&& 0 <= m < s.len()
    &&& s[m] == sep
    &&& forall|j: int| 0 <= j < s.len() && j != m ==> s[j] != sep
}

/// The position of `sep` in `s`, if it occurs exactly once.
pub fn find_only(s: &str, sep: char) -> (r: Option<usize>)
    ensures
        match r {
            Some(m) => only_at(s@, sep, m as int),
            None => forall|m: int| !only_at(s@, sep, m),
        },
{
    let len = s.unicode_len();
    let mut found: Option<usize> = None;
    let mut p: usize = 0;
    while p < len
        invariant
            len == s@.len(),
            p <= len,
            match found {
                Some(m) => m < p && s@[m as int] == sep && forall|j: int| 0 <= j < p && j != m ==> s@[j] != sep,
                None => forall|j: int| 0 <= j < p ==> s@[j] != sep,
            },
        decreases len - p,
    {
        if s.get_char(p) == sep {
            if found.is_some() {
                proof {
                    assert forall|m: int| !only_at(s@, sep, m) by {
                        let first = found->0 as int;
                        if only_at(s@, sep, m) {
                            assert(m == first || m == p);
                        }
                    }
                }
                return None;
            }
            found = Some(p);
        }
        p += 1;
    }
    proof {
        if found is None {
            assert forall|m: int| !only_at(s@, sep, m) by {
                if 0 <= m < len {
                    assert(s@[m] != sep);
                }
            }
        }
    }
    found
}

} // verus!
