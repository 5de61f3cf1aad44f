//! Monkeys passing items about: each inspects its items in turn, changes
//! their worry level, and throws each to the monkey its test names.
use vstd::prelude::*;
use crate::words::is_word;

verus! {

/// Where a monkey throws an item: to one monkey when the worry level is
/// divisible by `param`, to another when it is not.
#[derive(Debug, Clone, Copy, PartialEq, Eq)]
pub struct MonkeyTest {
    pub param: u64,
    pub truthy_target: usize,
    pub falsy_target: usize,
}

impl MonkeyTest {
    pub open spec fn target(&self, w: u64) -> usize {
        if w % self.param == 0 {
            self.truthy_target
        } else {
            self.falsy_target
        }
    }

    pub fn new(p: u64, truthy_t: usize, falsy_t: usize) -> (r: MonkeyTest)
        ensures
            r.param == p,
            r.truthy_target == truthy_t,
            r.falsy_target == falsy_t,
    {
        MonkeyTest { param: p, truthy_target: truthy_t, falsy_target: falsy_t }
    }

    pub fn apply(&self, new_worry_level: u64) -> (r: usize)
        requires
            self.param > 0,
        ensures
            r == self.target(new_worry_level),
    {
        if new_worry_level % self.param == 0 {
            self.truthy_target
        } else {
            self.falsy_target
        }
    }
}

#[derive(Debug, Clone, Copy, PartialEq, Eq)]
pub enum MonkeyOpArg {
    Old,
    IntArg(u64),
}

/// How a monkey changes a worry level: adds or multiplies by a number, or
/// by the level itself.
#[derive(Debug)]
pub struct MonkeyOp {
    pub arg: MonkeyOpArg,
    pub operator: String,
}

impl MonkeyOp {
    /// The operator is `+` or `*`.
    pub open spec fn valid(&self) -> bool {
        self.operator@ == "+"@ || self.operator@ == "*"@
    }

    pub open spec fn operand(&self, w: u64) -> int {
        match self.arg {
            MonkeyOpArg::Old => w as int,
            MonkeyOpArg::IntArg(a) => a as int,
        }
    }

    /// The new worry level for an item of level `w`.
    pub open spec fn value(&self, w: u64) -> int {
        if self.operator@ == "+"@ {
            self.operand(w) + w
        } else {
            self.operand(w) * w
        }
    }

    pub fn new(op: String, arg: MonkeyOpArg) -> (r: MonkeyOp)
        ensures
            r.operator@ == op@,
            r.arg == arg,
    {
        MonkeyOp { arg, operator: op }
    }

    pub fn apply(&self, worry_level: u64) -> (r: u64)
        requires
            self.valid(),
            self.value(worry_level) <= u64::MAX,
        ensures
            r == self.value(worry_level),
    {
        if is_word(self.operator.as_str(), "+") {
            self.arg0(worry_level) + worry_level
        } else {
            self.arg0(worry_level) * worry_level
        }
    }

    pub fn arg0(&self, arg1: u64) -> (r: u64)
        ensures
            r == self.operand(arg1),
    {
        match self.arg {
            MonkeyOpArg::Old => arg1,
            MonkeyOpArg::IntArg(arg0) => arg0,
        }
    }
}

/// A level no larger than `b` stays within `u64` under the operation.
proof fn lemma_value_monotone(op: &MonkeyOp, w: u64, b: u64)
    requires
        w <= b,
    ensures
        0 <= op.value(w) <= op.value(b),
{
    let a = op.operand(w);
    let ab = op.operand(b);
    assert(0 <= a <= ab);
    assert(0 <= a * w <= ab * b) by (nonlinear_arith)
        requires
            0 <= a <= ab,
            0 <= w <= b,
    ;
}

#[derive(Debug)]
pub struct Monkey {
    pub id: usize,
    pub items: Vec<u64>,
    pub operation: MonkeyOp,
    pub test: MonkeyTest,
    pub inspected_items: usize,
}

/// Where monkey `m` throws an item of level `w`, and at what level, when
/// levels are kept modulo `div`.
pub open spec fn throw_of(m: Monkey, w: u64, div: u64) -> (usize, u64) {
    let nw = (m.operation.value(w) % (div as int)) as u64;
    (m.test.target(nw), nw)
}

impl Monkey {
    pub fn new(id: usize, items: Vec<u64>, op: MonkeyOp, test: MonkeyTest) -> (r: Monkey)
        ensures
            r.id == id,
            r.items == items,
            r.operation == op,
            r.test == test,
            r.inspected_items == 0,
    {
        Monkey { id: id, items: items, operation: op, test: test, inspected_items: 0 }
    }

    /// Inspects every item: how many there were, and where each goes at
    /// which worry level, in order.
    pub fn round(&self, div: &u64) -> (r: (usize, Vec<(usize, u64)>))
        requires
            *div > 0,
            self.test.param > 0,
            self.operation.valid(),
            forall|k: int| 0 <= k < self.items.len() ==> self.operation.value(#[trigger] self.items[k]) <= u64::MAX,
        ensures
            r.0 == self.items.len(),
            r.1@ == self.items@.map_values(|w: u64| throw_of(*self, w, *div)),
    {
        let mut thrown_items: Vec<(usize, u64)> = Vec::new();
        let mut k: usize = 0;
        while k < self.items.len()
            invariant
                *div > 0,
                self.test.param > 0,
                self.operation.valid(),
                forall|j: int| 0 <= j < self.items.len() ==> self.operation.value(#[trigger] self.items[j]) <= u64::MAX,
                k <= self.items.len(),
                thrown_items@ == self.items@.subrange(0, k as int).map_values(|w: u64| throw_of(*self, w, *div)),
            decreases self.items.len() - k,
        {
            let i = self.items[k];
            let new_worry_level = self.operation.apply(i);
            let new_worry_level = new_worry_level % *div;
            let target_monkey = self.test.apply(new_worry_level);
            thrown_items.push((target_monkey, new_worry_level));
            assert(thrown_items@ =~= self.items@.subrange(0, k as int + 1).map_values(
                |w: u64| throw_of(*self, w, *div),
            ));
            k += 1;
        }
        assert(self.items@.subrange(0, k as int) =~= self.items@);
        (thrown_items.len(), thrown_items)
    }

    pub fn catch_item(&mut self, item: u64)
        ensures
            final(self).items@ == old(self).items@.push(item),
            final(self).id == old(self).id,
            final(self).operation == old(self).operation,
            final(self).test == old(self).test,
            final(self).inspected_items == old(self).inspected_items,
    {
        self.items.push(item);
    }
}

/// The product of the monkeys' test divisors.
pub open spec fn params_product(ms: Seq<Monkey>) -> int
    decreases ms.len(),
{
    if ms.len() == 0 {
        1
    } else {
        params_product(ms.drop_last()) * ms.last().test.param
    }
}

/// The items each monkey holds.
pub open spec fn items_of(ms: Seq<Monkey>) -> Seq<Seq<u64>> {
    ms.map_values(|m: Monkey| m.items@)
}

/// The holdings after each thrown item has landed at the end of its target's
/// items, in order.
pub open spec fn deliver(items: Seq<Seq<u64>>, thrown: Seq<(usize, u64)>) -> Seq<Seq<u64>>
    decreases thrown.len(),
{
    if thrown.len() == 0 {
        items
    } else {
        let d = deliver(items, thrown.drop_last());
        let (t, w) = thrown.last();
        d.update(t as int, d[t as int].push(w))
    }
}

/// The holdings after monkey `i` takes its turn: it throws all it holds.
pub open spec fn turn(ms: Seq<Monkey>, items: Seq<Seq<u64>>, i: int, div: u64) -> Seq<Seq<u64>> {
    let thrown = items[i].map_values(|w: u64| throw_of(ms[i], w, div));
    let d = deliver(items, thrown);
    d.update(i, Seq::empty())
}

/// The holdings after the first `n` monkeys have taken their turns.
pub open spec fn turns(ms: Seq<Monkey>, items: Seq<Seq<u64>>, n: int, div: u64) -> Seq<Seq<u64>>
    decreases n,
{
    if n <= 0 {
        items
    } else {
        turn(ms, turns(ms, items, n - 1, div), n - 1, div)
    }
}

/// All items held.
pub open spec fn total(items: Seq<Seq<u64>>) -> int
    decreases items.len(),
{
    if items.len() == 0 {
        0
    } else {
        total(items.drop_last()) + items.last().len()
    }
}

/// No item is above `b`.
pub open spec fn all_at_most(items: Seq<Seq<u64>>, b: u64) -> bool {
    forall|i: int, k: int| 0 <= i < items.len() && 0 <= k < items[i].len() ==> #[trigger] items[i][k] <= b
}

proof fn lemma_total_update(items: Seq<Seq<u64>>, i: int, s: Seq<u64>)
    requires
        0 <= i < items.len(),
    ensures
        total(items.update(i, s)) == total(items) - items[i].len() + s.len(),
    decreases items.len(),
{
    if i < items.len() - 1 {
        lemma_total_update(items.drop_last(), i, s);
        assert(items.update(i, s).drop_last() =~= items.drop_last().update(i, s));
    } else {
        assert(items.update(i, s).drop_last() =~= items.drop_last());
    }
}

proof fn lemma_total_bound(items: Seq<Seq<u64>>, i: int)
    requires
        0 <= i < items.len(),
    ensures
        items[i].len() <= total(items),
        total(items) >= 0,
    decreases items.len(),
{
    lemma_total_nonneg(items.drop_last());
    if i < items.len() - 1 {
        lemma_total_bound(items.drop_last(), i);
    }
}

proof fn lemma_total_nonneg(items: Seq<Seq<u64>>)
    ensures
        total(items) >= 0,
    decreases items.len(),
{
    if items.len() > 0 {
        lemma_total_nonneg(items.drop_last());
    }
}

/// All monkeys, and the modulus that keeps worry levels small.
pub struct MonkeyGame {
    pub monkeys: Vec<Monkey>,
    pub gcd: u64,
}

/// Every test throws to a monkey of the game, with a non-zero divisor, and
/// every operation is `+` or `*`.
pub open spec fn rules_ok(ms: Seq<Monkey>) -> bool {
    forall|j: int|
        0 <= j < ms.len() ==> {
            let m = #[trigger] ms[j];
            &&& m.test.param > 0
            &&& m.test.truthy_target < ms.len()
            &&& m.test.falsy_target < ms.len()
            &&& m.operation.valid()
        }
}

/// The two lists hold the same monkeys but for their items and counts.
pub open spec fn same_rules(a: Seq<Monkey>, b: Seq<Monkey>) -> bool {
    &&& a.len() == b.len()
    &&& forall|j: int|
        0 <= j < a.len() ==> {
            &&& (#[trigger] a[j]).id == b[j].id
            &&& a[j].operation == b[j].operation
            &&& a[j].test == b[j].test
        }
}

impl MonkeyGame {
    pub fn new(monkeys: Vec<Monkey>) -> (r: MonkeyGame)
        requires
            params_product(monkeys@) <= u64::MAX,
            forall|j: int| 0 <= j < monkeys.len() ==> (#[trigger] monkeys[j]).test.param > 0,
        ensures
            r.monkeys == monkeys,
            r.gcd == params_product(monkeys@),
    {
        let mut gcd: u64 = 1;
        let mut k: usize = 0;
        while k < monkeys.len()
            invariant
                k <= monkeys.len(),
                params_product(monkeys@) <= u64::MAX,
                forall|j: int| 0 <= j < monkeys.len() ==> (#[trigger] monkeys[j]).test.param > 0,
                gcd == params_product(monkeys@.subrange(0, k as int)),
            decreases monkeys.len() - k,
        {
            proof {
                assert(monkeys@.subrange(0, k as int + 1).drop_last() =~= monkeys@.subrange(0, k as int));
                lemma_product_prefix(monkeys@, k as int + 1);
            }
            gcd = gcd * monkeys[k].test.param;
            k += 1;
        }
        assert(monkeys@.subrange(0, k as int) =~= monkeys@);
        MonkeyGame { monkeys, gcd }
    }

    /// Each monkey in turn throws all it holds, counting what it inspected.
    pub fn round(&mut self)
        requires
            old(self).gcd > 0,
            rules_ok(old(self).monkeys@),
            exists|b: u64|
                #![trigger all_at_most(items_of(old(self).monkeys@), b)]
                all_at_most(items_of(old(self).monkeys@), b) && old(self).gcd <= b as int + 1 && forall|j: int|
                    0 <= j < old(self).monkeys.len() ==> (#[trigger] old(self).monkeys[j]).operation.value(b)
                        <= u64::MAX,
            forall|j: int|
                0 <= j < old(self).monkeys.len() ==> (#[trigger] old(self).monkeys[j]).inspected_items + total(
                    items_of(old(self).monkeys@),
                ) <= usize::MAX,
        ensures
            final(self).gcd == old(self).gcd,
            same_rules(final(self).monkeys@, old(self).monkeys@),
            items_of(final(self).monkeys@) == turns(
                old(self).monkeys@,
                items_of(old(self).monkeys@),
                old(self).monkeys.len() as int,
                old(self).gcd,
            ),
            forall|j: int|
                0 <= j < final(self).monkeys.len() ==> (#[trigger] final(self).monkeys[j]).inspected_items
                    == old(self).monkeys[j].inspected_items + turns(
                    old(self).monkeys@,
                    items_of(old(self).monkeys@),
                    j,
                    old(self).gcd,
                )[j].len(),
    {
        let ghost ms0 = self.monkeys@;
        let ghost items0 = items_of(ms0);
        let ghost b = choose|b: u64|
            #![trigger all_at_most(items_of(old(self).monkeys@), b)]
            all_at_most(items_of(old(self).monkeys@), b) && old(self).gcd <= b as int + 1 && forall|j: int|
                0 <= j < old(self).monkeys.len() ==> (#[trigger] old(self).monkeys[j]).operation.value(b)
                    <= u64::MAX;
        let n = self.monkeys.len();
        let mut i: usize = 0;
        while i < n
            invariant
                n == self.monkeys.len(),
                n == ms0.len(),
                self.gcd == old(self).gcd,
                self.gcd > 0,
                ms0 == old(self).monkeys@,
                items0 == items_of(ms0),
                rules_ok(ms0),
                same_rules(self.monkeys@, ms0),
                i <= n,
                items_of(self.monkeys@) == turns(ms0, items0, i as int, self.gcd),
                all_at_most(items_of(self.monkeys@), b),
                self.gcd <= b as int + 1,
                forall|j: int| 0 <= j < n ==> (#[trigger] ms0[j]).operation.value(b) <= u64::MAX,
                total(items_of(self.monkeys@)) <= total(items0),
                turns(ms0, items0, i as int, self.gcd).len() == n,
                forall|j: int|
                    0 <= j < n ==> (#[trigger] ms0[j]).inspected_items + total(items0) <= usize::MAX,
                forall|j: int|
                    0 <= j < i ==> (#[trigger] self.monkeys[j]).inspected_items == ms0[j].inspected_items + turns(
                        ms0,
                        items0,
                        j,
                        self.gcd,
                    )[j].len(),
                forall|j: int| i <= j < n ==> (#[trigger] self.monkeys[j]).inspected_items == ms0[j].inspected_items,
            decreases n - i,
        {
            let ghost start = items_of(self.monkeys@);
            proof {
                lemma_turns_len(ms0, items0, n as int, self.gcd);
                assert forall|k: int| 0 <= k < self.monkeys[i as int].items.len() implies self.monkeys[i as int].operation.value(
                    #[trigger] self.monkeys[i as int].items[k],
                ) <= u64::MAX by {
                    assert(start[i as int][k] == self.monkeys[i as int].items[k]);
                    lemma_value_monotone(&self.monkeys[i as int].operation, self.monkeys[i as int].items[k], b);
                    assert(ms0[i as int].operation == self.monkeys[i as int].operation);
                }
                assert(self.monkeys[i as int].test == ms0[i as int].test);
                assert(self.monkeys[i as int].operation == ms0[i as int].operation);
            }
            let (inspected_items, thrown_items) = self.monkeys[i].round(&self.gcd);
            proof {
                assert(thrown_items@ =~= start[i as int].map_values(|w: u64| throw_of(ms0[i as int], w, self.gcd)));
                lemma_total_bound(start, i as int);
                assert(thrown_items@.subrange(0, 0) =~= Seq::<(usize, u64)>::empty());
                assert forall|j: int| 0 <= j < n implies (#[trigger] self.monkeys[j]).inspected_items == old_inspected(
                    ms0,
                    items0,
                    j,
                    i as int,
                    self.gcd,
                ) by {}
            }
            let mut k: usize = 0;
            while k < thrown_items.len()
                invariant
                    n == self.monkeys.len(),
                    n == ms0.len(),
                    self.gcd == old(self).gcd,
                    self.gcd > 0,
                    self.gcd <= b as int + 1,
                    start == turns(ms0, items0, i as int, self.gcd),
                    start.len() == n,
                    total(start) <= total(items0),
                    inspected_items == start[i as int].len(),
                    inspected_items <= total(start),
                    forall|j: int|
                        0 <= j < n ==> (#[trigger] ms0[j]).inspected_items + total(items0) <= usize::MAX,
                    rules_ok(ms0),
                    same_rules(self.monkeys@, ms0),
                    i < n,
                    k <= thrown_items.len(),
                    thrown_items@ == start[i as int].map_values(|w: u64| throw_of(ms0[i as int], w, self.gcd)),
                    items_of(self.monkeys@) == deliver(start, thrown_items@.subrange(0, k as int)),
                    all_at_most(items_of(self.monkeys@), b),
                    total(items_of(self.monkeys@)) == total(start) + k,
                    forall|j: int|
                        0 <= j < n ==> (#[trigger] self.monkeys[j]).inspected_items == old_inspected(
                            ms0,
                            items0,
                            j,
                            i as int,
                            self.gcd,
                        ),
                decreases thrown_items.len() - k,
            {
                let (target_monkey_id, item) = thrown_items[k];
                proof {
                    let w = start[i as int][k as int];
                    assert(thrown_items@[k as int] == throw_of(ms0[i as int], w, self.gcd));
                    assert(target_monkey_id < n);
                }
                let ghost before = self.monkeys@;
                self.monkeys[target_monkey_id].catch_item(item);
                proof {
                    let t = target_monkey_id as int;
                    assert(items_of(self.monkeys@) =~= items_of(before).update(t, items_of(before)[t].push(item)));
                    assert(thrown_items@.subrange(0, k as int + 1).drop_last() =~= thrown_items@.subrange(0, k as int));
                    lemma_total_update(items_of(before), t, items_of(before)[t].push(item));
                    assert forall|x: int, y: int|
                        0 <= x < items_of(self.monkeys@).len() && 0 <= y < items_of(self.monkeys@)[x].len() implies #[trigger] items_of(
                        self.monkeys@,
                    )[x][y] <= b by {
                        if x == t && y == items_of(before)[t].len() {
                            assert(item < self.gcd);
                        } else {
                            assert(items_of(self.monkeys@)[x][y] == items_of(before)[x][y]);
                        }
                    }
                }
                k += 1;
            }
            let ghost before = self.monkeys@;
            proof {
                assert(thrown_items@.subrange(0, k as int) =~= thrown_items@);
                assert forall|x: int| 0 <= x < thrown_items@.len() implies (#[trigger] thrown_items@[x]).0 < n by {
                    let w = start[i as int][x];
                    assert(thrown_items@[x] == throw_of(ms0[i as int], w, self.gcd));
                }
                lemma_deliver(start, thrown_items@);
                assert(self.monkeys[i as int].inspected_items == ms0[i as int].inspected_items);
            }
            self.monkeys[i].inspected_items = self.monkeys[i].inspected_items + inspected_items;
            self.monkeys[i].items.clear();
            proof {
                assert(items_of(self.monkeys@) =~= items_of(before).update(i as int, Seq::empty()));
                lemma_total_update(items_of(before), i as int, Seq::empty());
            }
            i += 1;
        }
    }
}

proof fn lemma_turns_len(ms: Seq<Monkey>, items: Seq<Seq<u64>>, n: int, div: u64)
    requires
        rules_ok(ms),
        items.len() == ms.len(),
        0 <= n <= ms.len(),
    ensures
        forall|m: int| 0 <= m <= n ==> (#[trigger] turns(ms, items, m, div)).len() == items.len(),
    decreases n,
{
    if n > 0 {
        lemma_turns_len(ms, items, n - 1, div);
        let prev = turns(ms, items, n - 1, div);
        let thrown = prev[n - 1].map_values(|w: u64| throw_of(ms[n - 1], w, div));
        assert forall|x: int| 0 <= x < thrown.len() implies (#[trigger] thrown[x]).0 < prev.len() by {
            assert(ms[n - 1].test.truthy_target < ms.len());
        }
        lemma_deliver(prev, thrown);
        assert forall|m: int| 0 <= m <= n implies (#[trigger] turns(ms, items, m, div)).len() == items.len() by {
            if m < n {
                assert(turns(ms, items, m, div).len() == items.len());
            }
        }
    }
}

/// Delivering items adds them to the total and takes nothing from anyone.
proof fn lemma_deliver(items: Seq<Seq<u64>>, thrown: Seq<(usize, u64)>)
    requires
        forall|x: int| 0 <= x < thrown.len() ==> (#[trigger] thrown[x]).0 < items.len(),
    ensures
        deliver(items, thrown).len() == items.len(),
        total(deliver(items, thrown)) == total(items) + thrown.len(),
        forall|x: int| 0 <= x < items.len() ==> (#[trigger] deliver(items, thrown)[x]).len() >= items[x].len(),
    decreases thrown.len(),
{
    if thrown.len() > 0 {
        let rest = thrown.drop_last();
        assert forall|x: int| 0 <= x < rest.len() implies (#[trigger] rest[x]).0 < items.len() by {
            assert(rest[x] == thrown[x]);
        }
        lemma_deliver(items, rest);
        let d = deliver(items, rest);
        let (t, w) = thrown.last();
        assert(thrown[thrown.len() - 1].0 < items.len());
        lemma_total_update(d, t as int, d[t as int].push(w));
    }
}

/// A monkey's count before turn `i` of the round.
pub open spec fn old_inspected(ms0: Seq<Monkey>, items0: Seq<Seq<u64>>, j: int, i: int, div: u64) -> int {
    if j < i {
        ms0[j].inspected_items + turns(ms0, items0, j, div)[j].len()
    } else {
        ms0[j].inspected_items as int
    }
}

proof fn lemma_product_prefix(ms: Seq<Monkey>, k: int)
    requires
        0 <= k <= ms.len(),
        forall|j: int| 0 <= j < ms.len() ==> (#[trigger] ms[j]).test.param > 0,
    ensures
        1 <= params_product(ms.subrange(0, k)) <= params_product(ms),
    decreases ms.len() - k,
{
    lemma_product_pos(ms.subrange(0, k));
    if k < ms.len() {
        lemma_product_prefix(ms, k + 1);
        assert(ms.subrange(0, k + 1).drop_last() =~= ms.subrange(0, k));
        let p = params_product(ms.subrange(0, k));
        let q = ms[k].test.param as int;
        assert(p <= p * q) by (nonlinear_arith)
            requires
                p >= 1,
                q >= 1,
        ;
    } else {
        assert(ms.subrange(0, k) =~= ms);
    }
}

proof fn lemma_product_pos(ms: Seq<Monkey>)
    requires
        forall|j: int| 0 <= j < ms.len() ==> (#[trigger] ms[j]).test.param > 0,
    ensures
        params_product(ms) >= 1,
    decreases ms.len(),
{
    if ms.len() > 0 {
        lemma_product_pos(ms.drop_last());
        let p = params_product(ms.drop_last());
        let q = ms.last().test.param as int;
        assert(p * q >= 1) by (nonlinear_arith)
            requires
                p >= 1,
                q >= 1,
        ;
    }
}

/// The two largest counts of inspected items, the largest first; as many as
/// there are monkeys, up to two.
pub open spec fn top_two(counts: Seq<int>) -> (int, int)
    decreases counts.len(),
{
    if counts.len() == 0 {
        (0, 0)
    } else {
        let (a, b) = top_two(counts.drop_last());
        let c = counts.last();
        if c > a {
            (c, a)
        } else if c > b {
            (a, c)
        } else {
            (a, b)
        }
    }
}

/// The level of monkey business: the product of the two largest counts of
/// inspected items (the one count when there is one monkey, 1 when none).
pub open spec fn business(counts: Seq<int>) -> int {
    let (a, b) = top_two(counts);
    if counts.len() == 0 {
        1
    } else if counts.len() == 1 {
        a
    } else {
        a * b
    }
}

pub open spec fn counts_of(ms: Seq<Monkey>) -> Seq<int> {
    ms.map_values(|m: Monkey| m.inspected_items as int)
}

impl MonkeyGame {
    /// The product of the two largest numbers of items that any monkey
    /// inspected.
    pub fn monkey_business(&self) -> (r: usize)
        requires
            business(counts_of(self.monkeys@)) <= usize::MAX,
        ensures
            r == business(counts_of(self.monkeys@)),
    {
        let ghost cs = counts_of(self.monkeys@);
        let mut a: usize = 0;
        let mut b: usize = 0;
        let mut k: usize = 0;
        proof {
            assert(cs.subrange(0, 0) =~= Seq::<int>::empty());
        }
        while k < self.monkeys.len()
            invariant
                cs == counts_of(self.monkeys@),
                k <= self.monkeys.len(),
                top_two(cs.subrange(0, k as int)) == (a as int, b as int),
            decreases self.monkeys.len() - k,
        {
            let c = self.monkeys[k].inspected_items;
            proof {
                assert(cs.subrange(0, k as int + 1).drop_last() =~= cs.subrange(0, k as int));
                assert(cs.subrange(0, k as int + 1).last() == c);
            }
            if c > a {
                b = a;
                a = c;
            } else if c > b {
                b = c;
            }
            k += 1;
        }
        assert(cs.subrange(0, k as int) =~= cs);
        if k == 0 {
            1
        } else if k == 1 {
            a
        } else {
            a * b
        }
    }
}

} // verus!
