//! Reading the notes on the monkeys: for each one its number, the worry
//! levels of its items, its operation and its test, in words separated by
//! any whitespace.
use vstd::prelude::*;
use crate::monkeys::{Monkey, MonkeyOp, MonkeyOpArg, MonkeyTest};
use crate::numbers::{parse_u64, parse_usize, u64_of, usize_of};
use crate::words::{is_word, word_bounds, words};

verus! {

/// A monkey as the notes describe it: number, items, operator, operand,
/// test divisor, and the monkeys thrown to when the test holds or fails.
pub type MonkeyModel = (usize, Seq<u64>, Seq<char>, MonkeyOpArg, u64, usize, usize);

pub open spec fn model_of(m: Monkey) -> MonkeyModel {
    (
        m.id,
        m.items@,
        m.operation.operator@,
        m.operation.arg,
        m.test.param,
        m.test.truthy_target,
        m.test.falsy_target,
    )
}

pub open spec fn models_of(ms: Seq<Monkey>) -> Seq<MonkeyModel> {
    ms.map_values(|m: Monkey| model_of(m))
}

/// The number a word such as `3:` or `79,` spells before its final `end`.
pub open spec fn number_before(w: Seq<char>, end: char) -> Option<u64> {
    if w.len() > 0 && w.last() == end {
        u64_of(w.drop_last())
    } else {
        None
    }
}

/// An item word: a number, with or without a trailing comma.
pub open spec fn item_value(w: Seq<char>) -> Option<u64> {
    if w.len() > 0 && w.last() == ',' {
        u64_of(w.drop_last())
    } else {
        u64_of(w)
    }
}

/// The items listed from word `i` on, up to the word `Operation:`, and the
/// position of that word.
pub open spec fn items_from(w: Seq<Seq<char>>, i: int) -> Option<(Seq<u64>, int)>
    decreases w.len() - i,
{
    if i < 0 || i >= w.len() {
        None
    } else if w[i] == "Operation:"@ {
        Some((Seq::empty(), i))
    } else {
        match (item_value(w[i]), items_from(w, i + 1)) {
            (Some(v), Some((rest, end))) => Some((seq![v] + rest, end)),
            _ => None,
        }
    }
}

/// The operand word: `old`, or a number.
pub open spec fn operand_of(w: Seq<char>) -> Option<MonkeyOpArg> {
    if w == "old"@ {
        Some(MonkeyOpArg::Old)
    } else {
        match u64_of(w) {
            Some(v) => Some(MonkeyOpArg::IntArg(v)),
            None => None,
        }
    }
}

/// The words from `b` on spell the operation, the test and the two targets.
pub open spec fn tail_words_ok(w: Seq<Seq<char>>, b: int) -> bool {
    &&& 0 <= b && b + 21 < w.len()
    &&& w[b] == "Operation:"@ && w[b + 1] == "new"@ && w[b + 2] == "="@ && w[b + 3] == "old"@
    &&& (w[b + 4] == "+"@ || w[b + 4] == "*"@)
    &&& operand_of(w[b + 5]) is Some
    &&& w[b + 6] == "Test:"@ && w[b + 7] == "divisible"@ && w[b + 8] == "by"@ && u64_of(w[b + 9]) is Some
    &&& w[b + 10] == "If"@ && w[b + 11] == "true:"@ && w[b + 12] == "throw"@ && w[b + 13] == "to"@
    &&& w[b + 14] == "monkey"@ && usize_of(w[b + 15]) is Some
    &&& w[b + 16] == "If"@ && w[b + 17] == "false:"@ && w[b + 18] == "throw"@ && w[b + 19] == "to"@
    &&& w[b + 20] == "monkey"@ && usize_of(w[b + 21]) is Some
}

/// The monkey whose notes start at word `at`, and where the next notes start.
pub open spec fn block_at(w: Seq<Seq<char>>, at: int) -> Option<(MonkeyModel, int)> {
    if 0 <= at && at + 3 < w.len() && w[at] == "Monkey"@ && number_before(w[at + 1], ':') is Some
        && number_before(w[at + 1], ':')->0 <= usize::MAX && w[at + 2] == "Starting"@ && w[at + 3] == "items:"@ {
        match items_from(w, at + 4) {
            Some((items, b)) => if tail_words_ok(w, b) {
                Some(
                    (
                        (
                            number_before(w[at + 1], ':')->0 as usize,
                            items,
                            w[b + 4],
                            operand_of(w[b + 5])->0,
                            u64_of(w[b + 9])->0,
                            usize_of(w[b + 15])->0,
                            usize_of(w[b + 21])->0,
                        ),
                        b + 22,
                    ),
                )
            } else {
                None
            },
            None => None,
        }
    } else {
        None
    }
}

/// The monkeys described from word `at` to the end.
pub open spec fn monkeys_from(w: Seq<Seq<char>>, at: int) -> Option<Seq<MonkeyModel>>
    decreases w.len() - at,
{
    if at >= w.len() || at < 0 {
        if at == w.len() {
            Some(Seq::empty())
        } else {
            None
        }
    } else {
        match block_at(w, at) {
            Some((m, next)) => if next > at {
                match monkeys_from(w, next) {
                    Some(rest) => Some(seq![m] + rest),
                    None => None,
                }
            } else {
                None
            },
            None => None,
        }
    }
}

/// The bounds of each word of `text`, as `word_bounds` gives them.
pub open spec fn bounds_ok(text: Seq<char>, b: Seq<(usize, usize)>) -> bool {
    &&& b.len() == words(text).len()
    &&& forall|k: int|
        0 <= k < b.len() ==> (#[trigger] b[k]).0 < b[k].1 <= text.len() && text.subrange(b[k].0 as int, b[k].1 as int)
            == words(text)[k]
}

fn word_at<'a>(text: &'a str, b: &Vec<(usize, usize)>, k: usize) -> (r: &'a str)
    requires
        bounds_ok(text@, b@),
        k < b.len(),
    ensures
        r@ == words(text@)[k as int],
{
    assert(b@[k as int] == b[k as int]);
    text.substring_char(b[k].0, b[k].1)
}

fn read_number_before(w: &str, end: char) -> (r: Option<u64>)
    ensures
        r == number_before(w@, end),
{
    let n = w.unicode_len();
    if n > 0 && w.get_char(n - 1) == end {
        let head = w.substring_char(0, n - 1);
        assert(head@ =~= w@.drop_last());
        parse_u64(head)
    } else {
        None
    }
}

fn read_item(w: &str) -> (r: Option<u64>)
    ensures
        r == item_value(w@),
{
    let n = w.unicode_len();
    if n > 0 && w.get_char(n - 1) == ',' {
        let head = w.substring_char(0, n - 1);
        assert(head@ =~= w@.drop_last());
        parse_u64(head)
    } else {
        parse_u64(w)
    }
}

fn read_operand(w: &str) -> (r: Option<MonkeyOpArg>)
    ensures
        r == operand_of(w@),
{
    if is_word(w, "old") {
        Some(MonkeyOpArg::Old)
    } else {
        match parse_u64(w) {
            Some(v) => Some(MonkeyOpArg::IntArg(v)),
            None => None,
        }
    }
}

fn read_items(text: &str, b: &Vec<(usize, usize)>, i: usize) -> (r: Option<(Vec<u64>, usize)>)
    requires
        bounds_ok(text@, b@),
    ensures
        match r {
            Some((v, e)) => items_from(words(text@), i as int) == Some((v@, e as int)),
            None => items_from(words(text@), i as int) is None,
        },
{
    let ghost w = words(text@);
    let mut acc: Vec<u64> = Vec::new();
    let mut j: usize = i;
    while j < b.len()
        invariant
            w == words(text@),
            bounds_ok(text@, b@),
            i <= j,
            items_from(w, i as int) == (match items_from(w, j as int) {
                Some((rest, e)) => Some((acc@ + rest, e)),
                None => None,
            }),
        decreases b.len() - j,
    {
        let word = word_at(text, b, j);
        if is_word(word, "Operation:") {
            assert(acc@ + Seq::<u64>::empty() =~= acc@);
            return Some((acc, j));
        }
        let v = match read_item(word) {
            Some(v) => v,
            None => {
                return None;
            },
        };
        let ghost before = acc@;
        acc.push(v);
        proof {
            match items_from(w, j as int + 1) {
                Some((rest, e)) => {
                    assert(before + (seq![v] + rest) =~= acc@ + rest);
                },
                None => {},
            }
        }
        j += 1;
    }
    None
}

/// The word at `k` is exactly `s`.
fn word_is(text: &str, b: &Vec<(usize, usize)>, k: usize, s: &str) -> (r: bool)
    requires
        bounds_ok(text@, b@),
        k < b.len(),
    ensures
        r == (words(text@)[k as int] == s@),
{
    is_word(word_at(text, b, k), s)
}

fn read_block(text: &str, b: &Vec<(usize, usize)>, at: usize) -> (r: Option<(Monkey, usize)>)
    requires
        bounds_ok(text@, b@),
    ensures
        match r {
            Some((m, next)) => block_at(words(text@), at as int) == Some((model_of(m), next as int))
                && m.inspected_items == 0,
            None => block_at(words(text@), at as int) is None,
        },
{
    let ghost w = words(text@);
    let n = b.len();
    if at >= n || n - at <= 3 {
        return None;
    }
    if !word_is(text, b, at, "Monkey") || !word_is(text, b, at + 2, "Starting") || !word_is(text, b, at + 3, "items:") {
        return None;
    }
    let id = match read_number_before(word_at(text, b, at + 1), ':') {
        Some(v) => v,
        None => {
            return None;
        },
    };
    if id > usize::MAX as u64 {
        return None;
    }
    let (items, k) = match read_items(text, b, at + 4) {
        Some(p) => p,
        None => {
            return None;
        },
    };
    if k >= n || n - k <= 21 {
        return None;
    }
    if !word_is(text, b, k, "Operation:") || !word_is(text, b, k + 1, "new") || !word_is(text, b, k + 2, "=")
        || !word_is(text, b, k + 3, "old") {
        return None;
    }
    let op_word = word_at(text, b, k + 4);
    if !is_word(op_word, "+") && !is_word(op_word, "*") {
        return None;
    }
    let arg = match read_operand(word_at(text, b, k + 5)) {
        Some(a) => a,
        None => {
            return None;
        },
    };
    if !word_is(text, b, k + 6, "Test:") || !word_is(text, b, k + 7, "divisible") || !word_is(text, b, k + 8, "by") {
        return None;
    }
    let param = match parse_u64(word_at(text, b, k + 9)) {
        Some(v) => v,
        None => {
            return None;
        },
    };
    if !word_is(text, b, k + 10, "If") || !word_is(text, b, k + 11, "true:") || !word_is(text, b, k + 12, "throw")
        || !word_is(text, b, k + 13, "to") || !word_is(text, b, k + 14, "monkey") {
        return None;
    }
    let truthy = match parse_usize(word_at(text, b, k + 15)) {
        Some(v) => v,
        None => {
            return None;
        },
    };
    if !word_is(text, b, k + 16, "If") || !word_is(text, b, k + 17, "false:") || !word_is(text, b, k + 18, "throw")
        || !word_is(text, b, k + 19, "to") || !word_is(text, b, k + 20, "monkey") {
        return None;
    }
    let falsy = match parse_usize(word_at(text, b, k + 21)) {
        Some(v) => v,
        None => {
            return None;
        },
    };
    let operation = MonkeyOp::new(op_word.to_owned(), arg);
    let m = Monkey::new(id as usize, items, operation, MonkeyTest::new(param, truthy, falsy));
    Some((m, k + 22))
}

/// Reads the notes on all monkeys.
pub fn parse_input(input: &str) -> (r: Result<Vec<Monkey>, String>)
    ensures
        match r {
            Ok(ms) => monkeys_from(words(input@), 0) == Some(models_of(ms@)) && forall|k: int|
                0 <= k < ms.len() ==> (#[trigger] ms[k]).inspected_items == 0,
            Err(_) => monkeys_from(words(input@), 0) is None,
        },
{
    let ghost w = words(input@);
    let b = word_bounds(input);
    let mut ms: Vec<Monkey> = Vec::new();
    let mut at: usize = 0;
    while at < b.len()
        invariant
            w == words(input@),
            bounds_ok(input@, b@),
            at <= b.len(),
            forall|k: int| 0 <= k < ms.len() ==> (#[trigger] ms[k]).inspected_items == 0,
            monkeys_from(w, 0) == (match monkeys_from(w, at as int) {
                Some(rest) => Some(models_of(ms@) + rest),
                None => None,
            }),
        decreases b.len() - at,
    {
        let (m, next) = match read_block(input, &b, at) {
            Some(p) => p,
            None => {
                return Err("invalid monkey notes".to_owned());
            },
        };
        if next <= at {
            return Err("invalid monkey notes".to_owned());
        }
        let ghost before = ms@;
        ms.push(m);
        proof {
            assert(models_of(ms@) =~= models_of(before).push(model_of(m)));
            match monkeys_from(w, next as int) {
                Some(rest) => {
                    assert(models_of(before) + (seq![model_of(m)] + rest) =~= models_of(ms@) + rest);
                },
                None => {},
            }
        }
        at = next;
    }
    assert(models_of(ms@) + Seq::<MonkeyModel>::empty() =~= models_of(ms@));
    Ok(ms)
}

} // verus!
