//! Distress signal packets: nested lists of integers, and the order in which
//! two packets must arrive.
use vstd::prelude::*;
use crate::numbers::{digits_value, is_digit, lemma_digits_grow};

verus! {

#[derive(Debug)]
pub enum DataGram {
    Int(u32),
    List(Vec<DataGram>),
}

/// How many integers and lists a packet is made of.
pub open spec fn size(d: DataGram) -> nat
    decreases d,
{
    match d {
        DataGram::Int(_) => 1,
        DataGram::List(v) => 1 + items_size(v@),
    }
}

pub open spec fn items_size(s: Seq<DataGram>) -> nat
    decreases s,
{
    if s.len() == 0 {
        0
    } else {
        size(s[0]) + items_size(s.drop_first())
    }
}

/// Whether `l` comes before `r`: `Some(true)` when it does, `Some(false)`
/// when it does not, `None` when the two cannot be told apart. Integers
/// compare by value; lists item by item, the shorter list first when one
/// runs out; an integer against a list as the list of that integer.
pub open spec fn ordered(l: DataGram, r: DataGram) -> Option<bool>
    decreases size(l) + size(r), 0nat
    via ordered_decreases
{
    match (l, r) {
        (DataGram::Int(a), DataGram::Int(b)) => if a < b {
            Some(true)
        } else if a > b {
            Some(false)
        } else {
            None
        },
        (DataGram::List(ls), DataGram::List(rs)) => items_ordered(ls@, rs@),
        (DataGram::Int(a), DataGram::List(rs)) => items_ordered(seq![DataGram::Int(a)], rs@),
        (DataGram::List(ls), DataGram::Int(b)) => items_ordered(ls@, seq![DataGram::Int(b)]),
    }
}

/// A list of one integer has size one.
proof fn lemma_single_size(a: u32)
    ensures
        items_size(seq![DataGram::Int(a)]) == 1,
{
    let s1 = seq![DataGram::Int(a)];
    assert(s1.drop_first() =~= Seq::<DataGram>::empty());
    assert(items_size(s1.drop_first()) == 0);
    assert(s1[0] == DataGram::Int(a));
    assert(size(DataGram::Int(a)) == 1);
}

#[via_fn]
proof fn ordered_decreases(l: DataGram, r: DataGram) {
    match (l, r) {
        (DataGram::Int(a), DataGram::List(_)) => lemma_single_size(a),
        (DataGram::List(_), DataGram::Int(b)) => lemma_single_size(b),
        _ => {},
    }
}

/// Whether the list of items `ls` comes before the list `rs`.
pub open spec fn items_ordered(ls: Seq<DataGram>, rs: Seq<DataGram>) -> Option<bool>
    decreases items_size(ls) + items_size(rs), 1nat,
{
    if ls.len() == 0 && rs.len() == 0 {
        None
    } else if ls.len() == 0 {
        Some(true)
    } else if rs.len() == 0 {
        Some(false)
    } else {
        match ordered(ls[0], rs[0]) {
            Some(b) => Some(b),
            None => items_ordered(ls.drop_first(), rs.drop_first()),
        }
    }
}

proof fn lemma_item_size(s: Seq<DataGram>, k: int)
    requires
        0 <= k < s.len(),
    ensures
        size(s[k]) <= items_size(s),
    decreases k,
{
    if k > 0 {
        lemma_item_size(s.drop_first(), k - 1);
        assert(s.drop_first()[k - 1] == s[k]);
    }
}

proof fn lemma_suffix_step(s: Seq<DataGram>, k: int)
    requires
        0 <= k < s.len(),
    ensures
        s.subrange(k, s.len() as int).drop_first() == s.subrange(k + 1, s.len() as int),
        s.subrange(k, s.len() as int)[0] == s[k],
        items_size(s.subrange(k, s.len() as int)) == size(s[k]) + items_size(s.subrange(k + 1, s.len() as int)),
{
    assert(s.subrange(k, s.len() as int).drop_first() =~= s.subrange(k + 1, s.len() as int));
}

/// Compares two lists of items, item by item.
fn cmp_lists(ls: &Vec<DataGram>, rs: &Vec<DataGram>) -> (r: Option<bool>)
    ensures
        r == items_ordered(ls@, rs@),
    decreases items_size(ls@) + items_size(rs@), 1nat,
{
    let mut k: usize = 0;
    proof {
        assert(ls@.subrange(0, ls.len() as int) =~= ls@);
        assert(rs@.subrange(0, rs.len() as int) =~= rs@);
    }
    while k < ls.len() || k < rs.len()
        invariant
            items_ordered(ls@, rs@) == items_ordered(
                ls@.subrange(k as int, ls.len() as int),
                rs@.subrange(k as int, rs.len() as int),
            ),
            k <= ls.len(),
            k <= rs.len(),
        decreases ls.len() + rs.len() - 2 * k,
    {
        if k == ls.len() {
            return Some(true);
        }
        if k == rs.len() {
            return Some(false);
        }
        proof {
            lemma_suffix_step(ls@, k as int);
            lemma_suffix_step(rs@, k as int);
            lemma_item_size(ls@, k as int);
            lemma_item_size(rs@, k as int);
        }
        match are_ordered(&ls[k], &rs[k]) {
            Some(b) => {
                return Some(b);
            },
            None => {},
        }
        k += 1;
    }
    None
}

/// Whether `left` comes before `right`, as `ordered` says.
pub fn are_ordered(left: &DataGram, right: &DataGram) -> (r: Option<bool>)
    ensures
        r == ordered(*left, *right),
    decreases size(*left) + size(*right), 0nat,
{
    match (left, right) {
        (DataGram::Int(l), DataGram::Int(r)) => if *l < *r {
            Some(true)
        } else if *l > *r {
            Some(false)
        } else {
            None
        },
        (DataGram::List(ls), DataGram::List(rs)) => cmp_lists(ls, rs),
        (DataGram::Int(i), DataGram::List(rs)) => {
            let mut one: Vec<DataGram> = Vec::new();
            one.push(DataGram::Int(*i));
            proof {
                assert(one@ =~= seq![DataGram::Int(*i)]);
                lemma_single_size(*i);
            }
            cmp_lists(&one, rs)
        },
        (DataGram::List(ls), DataGram::Int(i)) => {
            let mut one: Vec<DataGram> = Vec::new();
            one.push(DataGram::Int(*i));
            proof {
                assert(one@ =~= seq![DataGram::Int(*i)]);
                lemma_single_size(*i);
            }
            cmp_lists(ls, &one)
        },
    }
}

/// A pair of packets and its position in the list, counting from one.
#[derive(Debug)]
pub struct PacketPair {
    pub index: usize,
    pub left: DataGram,
    pub right: DataGram,
}

impl PacketPair {
    pub fn new(index: usize, left: DataGram, right: DataGram) -> (r: PacketPair)
        ensures
            r.index == index,
            r.left == left,
            r.right == right,
    {
        PacketPair { index, left, right }
    }

    /// The left packet comes first; packets that cannot be told apart are
    /// not in the right order.
    pub fn is_right_order(&self) -> (r: bool)
        ensures
            r == (ordered(self.left, self.right) == Some(true)),
    {
        match are_ordered(&self.left, &self.right) {
            Some(b) => b,
            None => false,
        }
    }
}

/// The first position from `i` on that holds no digit.
pub open spec fn digits_end(s: Seq<char>, i: int) -> int
    decreases s.len() - i,
{
    if 0 <= i < s.len() && is_digit(s[i]) {
        digits_end(s, i + 1)
    } else {
        i
    }
}

/// Where the packet value that starts at `i` ends, if one does: a run of
/// digits whose number fits `u32`, or `[`, items separated by `,`, and `]`.
pub open spec fn value_end(s: Seq<char>, i: int) -> Option<int>
    decreases s.len() - i, 0nat,
{
    if i < 0 || i >= s.len() {
        None
    } else if s[i] == '[' {
        list_end(s, i + 1)
    } else {
        let e = digits_end(s, i);
        if e > i && digits_value(s.subrange(i, e)) <= u32::MAX {
            Some(e)
        } else {
            None
        }
    }
}

/// Where a list ends whose contents start at `i`, just after its `[`.
pub open spec fn list_end(s: Seq<char>, i: int) -> Option<int>
    decreases s.len() - i, 2nat,
{
    if i < 0 || i >= s.len() {
        None
    } else if s[i] == ']' {
        Some(i + 1)
    } else {
        items_end(s, i)
    }
}

/// Where a list ends whose next item starts at `i`.
pub open spec fn items_end(s: Seq<char>, i: int) -> Option<int>
    decreases s.len() - i, 1nat,
{
    match value_end(s, i) {
        Some(j) => if i < j < s.len() {
            if s[j] == ',' {
                items_end(s, j + 1)
            } else if s[j] == ']' {
                Some(j + 1)
            } else {
                None
            }
        } else {
            None
        },
        None => None,
    }
}

/// The packet value that starts at `i` is `d`: the number its digits spell,
/// or the list of the values of its items.
pub open spec fn spells_at(s: Seq<char>, i: int, d: DataGram) -> bool
    decreases d,
{
    match d {
        DataGram::Int(v) => 0 <= i < s.len() && s[i] != '[' && value_end(s, i) is Some && digits_value(
            s.subrange(i, value_end(s, i)->0),
        ) == v,
        DataGram::List(items) => 0 <= i < s.len() && s[i] == '[' && list_end(s, i + 1) is Some && items_upto(
            s,
            i + 1,
            items@,
            list_end(s, i + 1)->0 - 1,
        ),
    }
}

/// The items spell, one after another and separated by `,`, from `i` to
/// `j`.
pub open spec fn items_upto(s: Seq<char>, i: int, items: Seq<DataGram>, j: int) -> bool
    decreases items,
{
    if items.len() == 0 {
        j == i
    } else {
        &&& spells_at(s, i, items[0])
        &&& value_end(s, i) is Some
        &&& if items.len() == 1 {
            value_end(s, i)->0 == j
        } else {
            let e = value_end(s, i)->0;
            0 <= e < s.len() && s[e] == ',' && items_upto(s, e + 1, items.drop_first(), j)
        }
    }
}

/// One more item after a `,` extends the items.
proof fn lemma_upto_push(s: Seq<char>, i: int, items: Seq<DataGram>, c: int, d: DataGram, j: int)
    requires
        items.len() > 0,
        items_upto(s, i, items, c),
        0 <= c < s.len(),
        s[c] == ',',
        spells_at(s, c + 1, d),
        value_end(s, c + 1) == Some(j),
    ensures
        items_upto(s, i, items.push(d), j),
    decreases items.len(),
{
    let e = value_end(s, i)->0;
    let pushed = items.push(d);
    assert(pushed[0] == items[0]);
    assert(pushed.len() >= 2);
    if items.len() == 1 {
        assert(e == c);
        assert(pushed.drop_first() =~= seq![d]);
        assert(seq![d][0] == d);
        assert(seq![d].drop_first().len() == 0);
        assert(items_upto(s, c + 1, seq![d], j));
    } else {
        lemma_upto_push(s, e + 1, items.drop_first(), c, d, j);
        assert(items.push(d).drop_first() =~= items.drop_first().push(d));
        assert(items.push(d)[0] == items[0]);
    }
}

/// The characters of a text.
fn chars_of(text: &str) -> (r: Vec<char>)
    ensures
        r@ == text@,
{
    let n = text.unicode_len();
    let mut r: Vec<char> = Vec::new();
    let mut k: usize = 0;
    while k < n
        invariant
            n == text@.len(),
            k <= n,
            r@ == text@.subrange(0, k as int),
        decreases n - k,
    {
        r.push(text.get_char(k));
        assert(r@ =~= text@.subrange(0, k as int + 1));
        k += 1;
    }
    assert(text@.subrange(0, n as int) =~= text@);
    r
}

/// Reads the packet value that starts at `i`.
fn parse_value(s: &Vec<char>, i: usize) -> (r: Option<(DataGram, usize)>)
    ensures
        match r {
            Some((d, e)) => value_end(s@, i as int) == Some(e as int) && spells_at(s@, i as int, d),
            None => value_end(s@, i as int) is None,
        },
    decreases s.len() - i, 0nat,
{
    if i >= s.len() {
        return None;
    }
    if s[i] == '[' {
        return match parse_list(s, i + 1) {
            Some((items, e)) => Some((DataGram::List(items), e)),
            None => None,
        };
    }
    let mut k: usize = i;
    let mut acc: u64 = 0;
    proof {
        assert(s@.subrange(i as int, i as int) =~= Seq::<char>::empty());
    }
    while k < s.len() && '0' <= s[k] && s[k] <= '9'
        invariant
            i <= k <= s.len(),
            digits_end(s@, i as int) == digits_end(s@, k as int),
            forall|p: int| i <= p < k ==> is_digit(#[trigger] s@[p]),
            acc == digits_value(s@.subrange(i as int, k as int)),
            acc <= u32::MAX,
        decreases s.len() - k,
    {
        let digit = (s[k] as u32 - '0' as u32) as u64;
        proof {
            assert(s@.subrange(i as int, k as int + 1).drop_last() =~= s@.subrange(i as int, k as int));
        }
        let next = acc * 10 + digit;
        if next > u32::MAX as u64 {
            proof {
                let e = digits_end(s@, i as int);
                lemma_digits_end(s@, k as int + 1);
                lemma_digits_grow(s@, i as int, k as int + 1, e);
            }
            return None;
        }
        acc = next;
        k += 1;
    }
    if k == i {
        return None;
    }
    Some((DataGram::Int(acc as u32), k))
}

/// From `i` on, the run of digits reaches `digits_end`, all digits.
proof fn lemma_digits_end(s: Seq<char>, i: int)
    requires
        0 <= i <= s.len(),
    ensures
        i <= digits_end(s, i) <= s.len(),
        forall|p: int| i <= p < digits_end(s, i) ==> is_digit(#[trigger] s[p]),
    decreases s.len() - i,
{
    if i < s.len() && is_digit(s[i]) {
        lemma_digits_end(s, i + 1);
    }
}

/// Reads the items of a list whose contents start at `i`, and its `]`.
fn parse_list(s: &Vec<char>, i: usize) -> (r: Option<(Vec<DataGram>, usize)>)
    ensures
        match r {
            Some((items, e)) => list_end(s@, i as int) == Some(e as int) && items_upto(
                s@,
                i as int,
                items@,
                e - 1,
            ),
            None => list_end(s@, i as int) is None,
        },
    decreases s.len() - i, 2nat,
{
    if i >= s.len() {
        return None;
    }
    if s[i] == ']' {
        let items: Vec<DataGram> = Vec::new();
        assert(items@ =~= Seq::<DataGram>::empty());
        return Some((items, i + 1));
    }
    let mut items: Vec<DataGram> = Vec::new();
    let mut k: usize = i;
    while k < s.len()
        invariant
            i <= k,
            i < s.len(),
            s@[i as int] != ']',
            list_end(s@, i as int) == items_end(s@, k as int),
            items.len() == 0 ==> k == i,
            items.len() > 0 ==> k >= 1 && s@[k - 1] == ',' && items_upto(s@, i as int, items@, k - 1),
        decreases s.len() - k,
    {
        let (d, j) = match parse_value(s, k) {
            Some(p) => p,
            None => {
                return None;
            },
        };
        if j <= k || j >= s.len() {
            return None;
        }
        let ghost before = items@;
        items.push(d);
        proof {
            if before.len() == 0 {
                assert(items@ =~= seq![d]);
            } else {
                lemma_upto_push(s@, i as int, before, k - 1, d, j as int);
            }
        }
        if s[j] == ',' {
            k = j + 1;
        } else if s[j] == ']' {
            return Some((items, j + 1));
        } else {
            return None;
        }
    }
    None
}

impl DataGram {
    /// Reads a packet: a number, or a list in brackets of packets separated
    /// by commas, taking up the whole line.
    pub fn new(l: &str) -> (r: Result<DataGram, String>)
        ensures
            match r {
                Ok(d) => value_end(l@, 0) == Some(l@.len() as int) && spells_at(l@, 0, d),
                Err(_) => value_end(l@, 0) != Some(l@.len() as int),
            },
    {
        let s = chars_of(l);
        match parse_value(&s, 0) {
            Some((d, e)) => {
                if e == s.len() {
                    Ok(d)
                } else {
                    Err("unexpected text after the packet".to_owned())
                }
            },
            None => Err("invalid packet".to_owned()),
        }
    }
}

/// The indices of the first `n` pairs that are in the right order, added up.
pub open spec fn right_index_sum(ps: Seq<PacketPair>, n: int) -> int
    decreases n,
{
    if n <= 0 {
        0
    } else {
        right_index_sum(ps, n - 1) + if ordered(ps[n - 1].left, ps[n - 1].right) == Some(true) {
            ps[n - 1].index as int
        } else {
            0
        }
    }
}

/// The sum of the indices of the pairs that are in the right order.
pub fn ordered_index_sum(pairs: &Vec<PacketPair>) -> (r: u64)
    requires
        pairs.len() <= u32::MAX,
        forall|k: int| 0 <= k < pairs.len() ==> (#[trigger] pairs[k]).index <= u32::MAX,
    ensures
        r == right_index_sum(pairs@, pairs.len() as int),
{
    let mut total: u64 = 0;
    let mut k: usize = 0;
    while k < pairs.len()
        invariant
            pairs.len() <= u32::MAX,
            forall|j: int| 0 <= j < pairs.len() ==> (#[trigger] pairs[j]).index <= u32::MAX,
            k <= pairs.len(),
            total == right_index_sum(pairs@, k as int),
            total <= k * 0xFFFF_FFFF,
        decreases pairs.len() - k,
    {
        if pairs[k].is_right_order() {
            assert(total + pairs[k as int].index <= (k + 1) * 0xFFFF_FFFF);
            total = total + pairs[k].index as u64;
        }
        k += 1;
    }
    total
}

/// How many of the first `n` packets come before `d`.
pub open spec fn count_before(ps: Seq<DataGram>, n: int, d: DataGram) -> int
    decreases n,
{
    if n <= 0 {
        0
    } else {
        count_before(ps, n - 1, d) + if ordered(ps[n - 1], d) == Some(true) { 1int } else { 0 }
    }
}

/// How many of the packets come before `divider`: the divider's position in
/// the sorted list, counting from zero, when it is not among them.
pub fn packets_before(packets: &Vec<DataGram>, divider: &DataGram) -> (r: usize)
    ensures
        r == count_before(packets@, packets.len() as int, *divider),
{
    let mut count: usize = 0;
    let mut k: usize = 0;
    while k < packets.len()
        invariant
            k <= packets.len(),
            count <= k,
            count == count_before(packets@, k as int, *divider),
        decreases packets.len() - k,
    {
        if are_ordered(&packets[k], divider) == Some(true) {
            count += 1;
        }
        k += 1;
    }
    count
}

/// The divider packet `[[v]]`.
fn divider(v: u32) -> (r: DataGram)
    ensures
        r matches DataGram::List(outer) && outer@.len() == 1 && (outer@[0] matches DataGram::List(inner) && inner@
            == seq![DataGram::Int(v)]),
{
    let mut inner: Vec<DataGram> = Vec::new();
    inner.push(DataGram::Int(v));
    let mut outer: Vec<DataGram> = Vec::new();
    outer.push(DataGram::List(inner));
    assert(outer@.len() == 1);
    DataGram::List(outer)
}

/// The decoder key: with the divider packets `[[2]]` and `[[6]]` added and
/// all sorted, the product of the dividers' positions, counting from one.
pub fn decoder_key(packets: &Vec<DataGram>) -> (r: u64)
    requires
        packets.len() < u32::MAX,
    ensures
        exists|two: DataGram, six: DataGram|
            (two matches DataGram::List(o) && o@.len() == 1 && (o@[0] matches DataGram::List(i) && i@ == seq![
                DataGram::Int(2),
            ])) && (six matches DataGram::List(o) && o@.len() == 1 && (o@[0] matches DataGram::List(i) && i@
                == seq![DataGram::Int(6)])) && r == (count_before(packets@, packets.len() as int, two) + 1) * (
            count_before(packets@, packets.len() as int, six) + 2),
{
    let two = divider(2);
    let six = divider(6);
    let a = packets_before(packets, &two) as u64;
    let b = packets_before(packets, &six) as u64;
    proof {
        lemma_count_bound(packets@, packets.len() as int, two);
        lemma_count_bound(packets@, packets.len() as int, six);
        assert((a + 1) * (b + 2) <= 0xFFFF_FFFF * 0x1_0000_0000) by (nonlinear_arith)
            requires
                a <= 0xFFFF_FFFE,
                b <= 0xFFFF_FFFE,
        ;
    }
    (a + 1) * (b + 2)
}

proof fn lemma_count_bound(ps: Seq<DataGram>, n: int, d: DataGram)
    requires
        0 <= n,
    ensures
        0 <= count_before(ps, n, d) <= n,
    decreases n,
{
    if n > 0 {
        lemma_count_bound(ps, n - 1, d);
    }
}

} // verus!
