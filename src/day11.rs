use vstd::prelude::*;
use crate::text::{
    decimal, non_empty, runs, trimmed_lines, trimmed_lines_of, unsigned_numbers, unsigned_values,
    views,
};
use crate::text::u64_to_string;
use crate::ChallengeSolver;

verus! {

/// How one monkey handles an item: the new worry level is the old one plus
/// or times the parameter (the old level itself where the parameter is 0);
/// it then throws to one of two monkeys, as the level divides by the test
/// value or not.
#[derive(Clone, Copy)]
pub struct Rule {
    pub add: bool,
    pub parameter: u64,
    pub test_val: u64,
    pub success_target: usize,
    pub failure_target: usize,
}

/// The monkeys' rules and the items each holds at the start.
pub struct Solver {
    rules: Vec<Rule>,
    items: Vec<Vec<u64>>,
}

/// The items each monkey holds and how many items each has inspected.
pub type State = (Seq<Seq<u64>>, Seq<nat>);

pub open spec fn operate(r: Rule, x: int) -> int {
    let p = if r.parameter > 0 {
        r.parameter as int
    } else {
        x
    };
    if r.add {
        x + p
    } else {
        x * p
    }
}

/// Monkey `i` inspects item `x` and throws it: `None` where the level or
/// the count overflows, a test value is 0, or the target is no other
/// monkey.
pub open spec fn throw(s: State, rules: Seq<Rule>, i: int, x: u64, reduce: bool, lcm: int) -> Option<
    State,
> {
    let r = rules[i];
    let y = operate(r, x as int);
    if y > u64::MAX || r.test_val == 0 || (!reduce && lcm <= 0) {
        None
    } else {
        let z = if reduce {
            y / 3
        } else {
            y % lcm
        };
        let t = if z % (r.test_val as int) == 0 {
            r.success_target as int
        } else {
            r.failure_target as int
        };
        if t == i || t < 0 || t >= s.0.len() || s.1[i] + 1 > u64::MAX {
            None
        } else {
            Some((s.0.update(t, s.0[t].push(z as u64)), s.1.update(i, s.1[i] + 1)))
        }
    }
}

/// Monkey `i` throws the items `xs` from index `j` on, in order.
pub open spec fn throw_from(
    s: State,
    rules: Seq<Rule>,
    i: int,
    xs: Seq<u64>,
    j: int,
    reduce: bool,
    lcm: int,
) -> Option<State>
    decreases xs.len() - j,
{
    if j < 0 || j >= xs.len() {
        Some(s)
    } else {
        match throw(s, rules, i, xs[j], reduce, lcm) {
            Some(s1) => throw_from(s1, rules, i, xs, j + 1, reduce, lcm),
            None => None,
        }
    }
}

/// Monkey `i` takes its turn: it throws all of its items, first to last.
pub open spec fn turn(s: State, rules: Seq<Rule>, i: int, reduce: bool, lcm: int) -> Option<State> {
    throw_from((s.0.update(i, Seq::empty()), s.1), rules, i, s.0[i], 0, reduce, lcm)
}

/// The turns of monkeys `i` and on.
pub open spec fn round_from(s: State, rules: Seq<Rule>, i: int, reduce: bool, lcm: int) -> Option<
    State,
>
    decreases rules.len() - i,
{
    if i < 0 || i >= rules.len() {
        Some(s)
    } else {
        match turn(s, rules, i, reduce, lcm) {
            Some(s1) => round_from(s1, rules, i + 1, reduce, lcm),
            None => None,
        }
    }
}

pub open spec fn rounds(s: State, rules: Seq<Rule>, n: nat, reduce: bool, lcm: int) -> Option<State>
    decreases n,
{
    if n == 0 {
        Some(s)
    } else {
        match round_from(s, rules, 0, reduce, lcm) {
            Some(s1) => rounds(s1, rules, (n - 1) as nat, reduce, lcm),
            None => None,
        }
    }
}

/// The product of the test values.
pub open spec fn test_product(rules: Seq<Rule>) -> int
    decreases rules.len(),
{
    if rules.len() == 0 {
        1
    } else {
        test_product(rules.drop_last()) * rules.last().test_val
    }
}

/// `r` is the product of the two largest counts.
pub open spec fn is_business(r: nat, c: Seq<nat>) -> bool {
    exists|a: int, b: int|
        #![trigger c[a], c[b]]
        0 <= a < c.len() && 0 <= b < c.len() && a != b && r == c[a] * c[b] && (forall|k: int|
            0 <= k < c.len() ==> c[k] <= c[a]) && (forall|k: int|
            0 <= k < c.len() && k != a ==> c[k] <= c[b])
}

pub open spec fn business(c: Seq<nat>) -> nat {
    choose|r: nat| is_business(r, c)
}

/// The monkey business after `n` rounds, where `reduce` divides the worry
/// levels by three and else they are kept modulo the product of the test
/// values.
pub open spec fn outcome(rules: Seq<Rule>, items: Seq<Seq<u64>>, n: nat, reduce: bool) -> Option<
    nat,
> {
    match rounds(
        (items, Seq::new(rules.len(), |k: int| 0nat)),
        rules,
        n,
        reduce,
        test_product(rules),
    ) {
        Some(s) => if rules.len() >= 2 {
            Some(business(s.1))
        } else {
            None
        },
        None => None,
    }
}

/// Six lines per monkey: its number, its items, its operation, its test
/// and its two targets. The numbers are the runs of digits of each line.
pub open spec fn rule_of(ls: Seq<Seq<char>>) -> Rule {
    let op = unsigned_values(runs(ls[2], false));
    Rule {
        add: ls[2].contains('+'),
        parameter: if op.len() > 0 {
            op.last() as u64
        } else {
            0
        },
        test_val: unsigned_values(runs(ls[3], false)).last() as u64,
        success_target: unsigned_values(runs(ls[4], false)).last(),
        failure_target: unsigned_values(runs(ls[5], false)).last(),
    }
}

pub open spec fn block_ok(ls: Seq<Seq<char>>) -> bool {
    unsigned_values(runs(ls[3], false)).len() > 0 && unsigned_values(runs(ls[4], false)).len() > 0
        && unsigned_values(runs(ls[5], false)).len() > 0
}

pub open spec fn items_view(v: Seq<Vec<u64>>) -> Seq<Seq<u64>> {
    v.map_values(|x: Vec<u64>| x@)
}

pub open spec fn block(ls: Seq<Seq<char>>, k: int) -> Seq<Seq<char>> {
    ls.subrange(6 * k, 6 * k + 6)
}

pub open spec fn monkeys_ok(ls: Seq<Seq<char>>) -> bool {
    ls.len() % 6 == 0 && forall|k: int| 0 <= k < ls.len() / 6 ==> block_ok(#[trigger] block(ls, k))
}

pub open spec fn rules_of(ls: Seq<Seq<char>>) -> Seq<Rule> {
    Seq::new(ls.len() / 6, |k: int| rule_of(block(ls, k)))
}

pub open spec fn items_of(ls: Seq<Seq<char>>) -> Seq<Seq<u64>> {
    Seq::new(
        ls.len() / 6,
        |k: int| unsigned_values(runs(ls[6 * k + 1], false)).map_values(|v: usize| v as u64),
    )
}

pub open spec fn counts_view(c: Seq<u64>) -> Seq<nat> {
    c.map_values(|x: u64| x as nat)
}

fn has_char(l: &Vec<char>, c: char) -> (r: bool)
    ensures
        r == l@.contains(c),
{
    let mut i: usize = 0;
    while i < l.len()
        invariant
            i <= l@.len(),
            forall|k: int| 0 <= k < i ==> l@[k] != c,
        decreases l@.len() - i,
    {
        if l[i] == c {
            assert(l@[i as int] == c);
            return true;
        }
        i += 1;
    }
    false
}

fn last_number(l: &Vec<char>) -> (r: usize)
    requires
        unsigned_values(runs(l@, false)).len() > 0,
    ensures
        r == unsigned_values(runs(l@, false)).last(),
{
    let v = unsigned_numbers(l);
    v[v.len() - 1]
}

fn read_rule(b: &Vec<Vec<char>>, j: usize) -> (r: Rule)
    requires
        j + 6 <= b@.len(),
        block_ok(views(b@).subrange(j as int, j + 6)),
    ensures
        r == rule_of(views(b@).subrange(j as int, j + 6)),
{
    let ghost bl = views(b@).subrange(j as int, j + 6);
    let n = b.len();
    assert(bl[2] == b@[j + 2]@);
    assert(bl[3] == b@[j + 3]@);
    assert(bl[4] == b@[j + 4]@);
    assert(bl[5] == b@[j + 5]@);
    let op = unsigned_numbers(&b[j + 2]);
    let parameter = if op.len() > 0 {
        op[op.len() - 1] as u64
    } else {
        0
    };
    Rule {
        add: has_char(&b[j + 2], '+'),
        parameter,
        test_val: last_number(&b[j + 3]) as u64,
        success_target: last_number(&b[j + 4]),
        failure_target: last_number(&b[j + 5]),
    }
}

fn to_u64s(v: &Vec<usize>) -> (r: Vec<u64>)
    ensures
        r@ == v@.map_values(|x: usize| x as u64),
{
    let mut r: Vec<u64> = Vec::new();
    let mut i: usize = 0;
    while i < v.len()
        invariant
            i <= v@.len(),
            r@ == v@.subrange(0, i as int).map_values(|x: usize| x as u64),
        decreases v@.len() - i,
    {
        r.push(v[i] as u64);
        i += 1;
        assert(r@ =~= v@.subrange(0, i as int).map_values(|x: usize| x as u64));
    }
    assert(v@.subrange(0, i as int) =~= v@);
    r
}

/// Monkey `i` inspects item `x` and throws it.
fn throw_item(
    items: &mut Vec<Vec<u64>>,
    counts: &mut Vec<u64>,
    rules: &Vec<Rule>,
    i: usize,
    x: u64,
    reduce: bool,
    lcm: u64,
)
    requires
        i < rules@.len(),
        old(items)@.len() == old(counts)@.len(),
        old(items)@.len() == rules@.len(),
        throw(
            (items_view(old(items)@), counts_view(old(counts)@)),
            rules@,
            i as int,
            x,
            reduce,
            lcm as int,
        ) is Some,
    ensures
        final(items)@.len() == final(counts)@.len(),
        final(items)@.len() == rules@.len(),
        throw(
            (items_view(old(items)@), counts_view(old(counts)@)),
            rules@,
            i as int,
            x,
            reduce,
            lcm as int,
        ) == Some((items_view(final(items)@), counts_view(final(counts)@))),
{
    let r = rules[i];
    let y: u64 = if r.add {
        if r.parameter > 0 {
            x + r.parameter
        } else {
            x + x
        }
    } else {
        if r.parameter > 0 {
            x * r.parameter
        } else {
            x * x
        }
    };
    let z = if reduce {
        y / 3
    } else {
        y % lcm
    };
    let t = if z % r.test_val == 0 {
        r.success_target
    } else {
        r.failure_target
    };
    let ghost iv = items_view(items@);
    let ghost cv = counts_view(counts@);
    assert(iv[t as int] == items@[t as int]@);
    let mut dst = items[t].clone();
    dst.push(z);
    items.set(t, dst);
    assert(items_view(items@) =~= iv.update(t as int, iv[t as int].push(z)));
    let c = counts[i] + 1;
    counts.set(i, c);
    assert(counts_view(counts@) =~= cv.update(i as int, cv[i as int] + 1));
}

impl Solver {
    pub closed spec fn view(&self) -> (Seq<Rule>, Seq<Seq<u64>>) {
        (self.rules@, items_view(self.items@))
    }

    /// Reads six lines per monkey; empty lines are passed over.
    pub fn new(input: String) -> (r: Solver)
        requires
            forall|ts: Seq<Seq<char>>|
                trimmed_lines_of(ts, input@) ==> monkeys_ok(non_empty(ts)),
        ensures
            exists|ts: Seq<Seq<char>>|
                trimmed_lines_of(ts, input@) && r@ == (
                    rules_of(non_empty(ts)),
                    items_of(non_empty(ts)),
                ),
    {
        let lines = trimmed_lines(input.as_str());
        let ghost ts = views(lines@);
        let mut b: Vec<Vec<char>> = Vec::new();
        let mut i: usize = 0;
        assert(ts.subrange(0, 0) =~= Seq::<Seq<char>>::empty());
        while i < lines.len()
            invariant
                i <= lines@.len(),
                ts == views(lines@),
                views(b@) == non_empty(ts.subrange(0, i as int)),
            decreases lines@.len() - i,
        {
            assert(ts.subrange(0, i + 1).drop_last() =~= ts.subrange(0, i as int));
            if lines[i].len() > 0 {
                let ghost before = views(b@);
                assert(ts[i as int] == lines@[i as int]@);
                b.push(lines[i].clone());
                assert(views(b@) =~= before.push(ts[i as int]));
            }
            i += 1;
        }
        assert(ts.subrange(0, lines@.len() as int) =~= ts);
        let ghost ls = views(b@);
        assert(monkeys_ok(ls));
        let mut rules: Vec<Rule> = Vec::new();
        let mut items: Vec<Vec<u64>> = Vec::new();
        let n = b.len();
        let mut j: usize = 0;
        while n - j >= 6
            invariant
                ls == views(b@),
                n == ls.len(),
                monkeys_ok(ls),
                j % 6 == 0,
                j <= n,
                rules@.len() == j / 6,
                items@.len() == j / 6,
                forall|k: int| 0 <= k < j / 6 ==> rules@[k] == #[trigger] rules_of(ls)[k],
                forall|k: int| 0 <= k < j / 6 ==> items@[k]@ == #[trigger] items_of(ls)[k],
            decreases n - j,
        {
            assert(block(ls, j as int / 6) == ls.subrange(j as int, j + 6));
            assert(block_ok(block(ls, j as int / 6)));
            rules.push(read_rule(&b, j));
            assert(ls[j + 1] == b@[j + 1]@);
            let nums = unsigned_numbers(&b[j + 1]);
            items.push(to_u64s(&nums));
            j += 6;
        }
        let r = Solver { rules, items };
        assert(r@.0 =~= rules_of(ls));
        assert(r@.1 =~= items_of(ls));
        r
    }
}

proof fn lemma_product_prefix(rules: Seq<Rule>, k: int)
    requires
        0 <= k <= rules.len(),
        forall|j: int| 0 <= j < rules.len() ==> (#[trigger] rules[j]).test_val >= 1,
    ensures
        1 <= test_product(rules.subrange(0, k)) <= test_product(rules),
    decreases rules.len() - k,
{
    assert forall|j: int| 0 <= j < k implies (#[trigger] rules.subrange(0, k)[j]).test_val >= 1 by {
        assert(rules.subrange(0, k)[j] == rules[j]);
    }
    lemma_product_prefix_pos(rules.subrange(0, k));
    if k < rules.len() {
        lemma_product_prefix(rules, k + 1);
        let a = test_product(rules.subrange(0, k));
        assert(rules.subrange(0, k + 1).drop_last() =~= rules.subrange(0, k));
        let t = rules[k].test_val as int;
        assert(a <= a * t) by (nonlinear_arith)
            requires
                a >= 1,
                t >= 1,
        ;
    } else {
        assert(rules.subrange(0, k) =~= rules);
    }
}

proof fn lemma_product_prefix_pos(rules: Seq<Rule>)
    requires
        forall|j: int| 0 <= j < rules.len() ==> (#[trigger] rules[j]).test_val >= 1,
    ensures
        test_product(rules) >= 1,
    decreases rules.len(),
{
    if rules.len() > 0 {
        lemma_product_prefix_pos(rules.drop_last());
        let a = test_product(rules.drop_last());
        let t = rules.last().test_val as int;
        assert(a * t >= 1) by (nonlinear_arith)
            requires
                a >= 1,
                t >= 1,
        ;
    }
}

proof fn lemma_business_unique(c: Seq<nat>, a: int, b: int)
    requires
        0 <= a < c.len() && 0 <= b < c.len() && a != b,
        forall|k: int| 0 <= k < c.len() ==> c[k] <= c[a],
        forall|k: int| 0 <= k < c.len() && k != a ==> c[k] <= c[b],
    ensures
        business(c) == c[a] * c[b],
{
    assert(is_business(c[a] * c[b], c));
    let r = business(c);
    let (a2, b2) = choose|a2: int, b2: int|
        #![trigger c[a2], c[b2]]
        0 <= a2 < c.len() && 0 <= b2 < c.len() && a2 != b2 && r == c[a2] * c[b2] && (forall|k: int|
            0 <= k < c.len() ==> c[k] <= c[a2]) && (forall|k: int|
            0 <= k < c.len() && k != a2 ==> c[k] <= c[b2]);
    assert(c[a] == c[a2]);
    if a == a2 {
        assert(c[b] == c[b2]);
    } else {
        assert(c[a2] <= c[b]);
        assert(c[a] <= c[b2]);
        assert(c[b] <= c[a]);
        assert(c[b2] <= c[a2]);
    }
}

/// The index of a largest count other than `ex`.
fn largest(c: &Vec<u64>, ex: usize) -> (r: usize)
    requires
        c@.len() >= 2,
    ensures
        r < c@.len(),
        r != ex,
        forall|k: int| 0 <= k < c@.len() && k != ex ==> c@[k] <= c@[r as int],
{
    let mut best: usize = if ex == 0 { 1 } else { 0 };
    let mut i: usize = 0;
    while i < c.len()
        invariant
            c@.len() >= 2,
            best < c@.len(),
            best != ex,
            i <= c@.len(),
            forall|k: int| 0 <= k < i && k != ex ==> c@[k] <= c@[best as int],
        decreases c@.len() - i,
    {
        if i != ex && c[i] > c[best] {
            best = i;
        }
        i += 1;
    }
    best
}

impl Solver {
    /// The monkey business after `n` rounds: the product of the two
    /// largest numbers of inspections.
    fn simulate(&self, n: usize, reduce: bool) -> (r: u64)
        requires
            self@.0.len() == self@.1.len(),
            outcome(self@.0, self@.1, n as nat, reduce) is Some,
            outcome(self@.0, self@.1, n as nat, reduce)->0 <= u64::MAX,
            forall|j: int| 0 <= j < self@.0.len() ==> (#[trigger] self@.0[j]).test_val >= 1,
            test_product(self@.0) <= u64::MAX,
        ensures
            r == outcome(self@.0, self@.1, n as nat, reduce)->0,
    {
        let ghost rules = self@.0;
        let m = self.rules.len();
        assert(self.items@.len() == m) by {
            assert(self@.1.len() == self.items@.len());
        }
        let mut lcm: u64 = 1;
        let mut k: usize = 0;
        assert(rules.subrange(0, 0) =~= Seq::<Rule>::empty());
        while k < m
            invariant
                rules == self.rules@,
                m == rules.len(),
                k <= m,
                lcm == test_product(rules.subrange(0, k as int)),
                forall|j: int| 0 <= j < rules.len() ==> (#[trigger] rules[j]).test_val >= 1,
                test_product(rules) <= u64::MAX,
            decreases m - k,
        {
            proof {
                lemma_product_prefix(rules, k + 1);
                assert(rules.subrange(0, k + 1).drop_last() =~= rules.subrange(0, k as int));
            }
            lcm = lcm * self.rules[k].test_val;
            k += 1;
        }
        assert(rules.subrange(0, m as int) =~= rules);
        let mut items: Vec<Vec<u64>> = Vec::new();
        let mut counts: Vec<u64> = Vec::new();
        k = 0;
        while k < m
            invariant
                m == self.items@.len(),
                k <= m,
                items_view(items@) == self@.1.subrange(0, k as int),
                counts@.len() == k,
                forall|j: int| 0 <= j < k ==> counts@[j] == 0,
            decreases m - k,
        {
            let ghost before = items_view(items@);
            let cl = self.items[k].clone();
            assert(cl@ == self@.1[k as int]);
            items.push(cl);
            assert(items_view(items@) =~= before.push(cl@));
            assert(items_view(items@) =~= self@.1.subrange(0, k + 1));
            counts.push(0);
            k += 1;
        }
        assert(items_view(items@) =~= self@.1);
        assert(counts_view(counts@) =~= Seq::new(rules.len(), |k: int| 0nat));
        let ghost goal = rounds(
            (self@.1, Seq::new(rules.len(), |k: int| 0nat)),
            rules,
            n as nat,
            reduce,
            lcm as int,
        );
        let mut r: usize = 0;
        while r < n
            invariant
                rules == self.rules@,
                m == rules.len(),
                items@.len() == m,
                counts@.len() == m,
                r <= n,
                goal is Some,
                goal == rounds(
                    (items_view(items@), counts_view(counts@)),
                    rules,
                    (n - r) as nat,
                    reduce,
                    lcm as int,
                ),
            decreases n - r,
        {
            let ghost g = round_from((items_view(items@), counts_view(counts@)), rules, 0, reduce, lcm as int);
            let mut i: usize = 0;
            while i < m
                invariant
                    rules == self.rules@,
                    m == rules.len(),
                    items@.len() == m,
                    counts@.len() == m,
                    i <= m,
                    g is Some,
                    g == round_from((items_view(items@), counts_view(counts@)), rules, i as int, reduce, lcm as int),
                decreases m - i,
            {
                let ghost st = (items_view(items@), counts_view(counts@));
                let ghost tg = turn(st, rules, i as int, reduce, lcm as int);
                assert(tg is Some);
                let xs = items[i].clone();
                assert(xs@ == st.0[i as int]);
                items.set(i, Vec::new());
                assert(items_view(items@) =~= st.0.update(i as int, Seq::empty()));
                let mut j: usize = 0;
                while j < xs.len()
                    invariant
                        rules == self.rules@,
                        m == rules.len(),
                        i < m,
                        items@.len() == m,
                        counts@.len() == m,
                        j <= xs@.len(),
                        tg is Some,
                        tg == throw_from(
                            (items_view(items@), counts_view(counts@)),
                            rules,
                            i as int,
                            xs@,
                            j as int,
                            reduce,
                            lcm as int,
                        ),
                    decreases xs@.len() - j,
                {
                    throw_item(&mut items, &mut counts, &self.rules, i, xs[j], reduce, lcm);
                    j += 1;
                }
                i += 1;
            }
            r += 1;
        }
        let ghost c = counts_view(counts@);
        assert(rules.len() >= 2);
        let a = largest(&counts, m);
        let b = largest(&counts, a);
        proof {
            assert forall|k: int| 0 <= k < c.len() implies c[k] <= c[a as int] by {}
            lemma_business_unique(c, a as int, b as int);
        }
        counts[a] * counts[b]
    }
}

impl ChallengeSolver for Solver {
    open spec fn solvable_a(&self) -> bool {
        &&& self@.0.len() == self@.1.len()
        &&& forall|j: int| 0 <= j < self@.0.len() ==> (#[trigger] self@.0[j]).test_val >= 1
        &&& test_product(self@.0) <= u64::MAX
        &&& outcome(self@.0, self@.1, 20, true) is Some
        &&& outcome(self@.0, self@.1, 20, true)->0 <= u64::MAX
        &&& outcome(self@.0, self@.1, 10000, false) is Some
        &&& outcome(self@.0, self@.1, 10000, false)->0 <= u64::MAX
    }

    open spec fn solvable_b(&self) -> bool {
        &&& self@.0.len() == self@.1.len()
        &&& forall|j: int| 0 <= j < self@.0.len() ==> (#[trigger] self@.0[j]).test_val >= 1
        &&& test_product(self@.0) <= u64::MAX
        &&& outcome(self@.0, self@.1, 20, true) is Some
        &&& outcome(self@.0, self@.1, 20, true)->0 <= u64::MAX
        &&& outcome(self@.0, self@.1, 10000, false) is Some
        &&& outcome(self@.0, self@.1, 10000, false)->0 <= u64::MAX
    }

    open spec fn answer_a(&self) -> Seq<char> {
        decimal(outcome(self@.0, self@.1, 20, true)->0)
    }

    open spec fn answer_b(&self) -> Seq<char> {
        decimal(outcome(self@.0, self@.1, 10000, false)->0)
    }

    /// The monkey business after 20 rounds, with worry divided by three.
    fn get_part_a_result(&self) -> (r: String) {
        u64_to_string(self.simulate(20, true))
    }

    /// The monkey business after 10000 rounds, with worry kept modulo the
    /// product of the test values.
    fn get_part_b_result(&self) -> (r: String) {
        u64_to_string(self.simulate(10000, false))
    }
}

} // verus!
