use vstd::prelude::*;
use crate::text::{all_digits, decimal, decimal_value, non_empty, non_empty_lines, parse_u64, trimmed_lines_of, u64_to_string, views};
use crate::day7::{same_chars, words, words_of};
use crate::ChallengeSolver;

verus! {

/// What a monkey yells: a number, or the result of an operation on what
/// two other monkeys (by index) yell.
#[derive(Clone, Copy, PartialEq, Eq, Structural)]
pub enum Job {
    Number(u64),
    Op(usize, char, usize),
}

/// The monkeys: names and jobs, and the indices of `root` and `humn`.
pub struct Solver {
    names: Vec<Vec<char>>,
    jobs: Vec<Job>,
    root: usize,
    humn: usize,
}

/// The operation applied, where its result is a natural number that fits:
/// subtraction below zero, division by zero or a result over `u64::MAX`
/// give none.
pub open spec fn apply(op: char, x: int, y: int) -> Option<u64> {
    let r = if op == '+' {
        x + y
    } else if op == '-' {
        x - y
    } else if op == '*' {
        x * y
    } else if y != 0 {
        x / y
    } else {
        -1
    };
    if 0 <= r <= u64::MAX {
        Some(r as u64)
    } else {
        None
    }
}

/// What monkey `i` yells, worked out in at most `f` levels; with `skip`,
/// operations on what `h` yells are not worked out.
pub open spec fn ev(js: Seq<Job>, i: int, f: nat, skip: bool, h: int) -> Option<u64>
    decreases f,
{
    if f == 0 || i < 0 || i >= js.len() {
        None
    } else {
        match js[i] {
            Job::Number(v) => Some(v),
            Job::Op(a, op, b) => if skip && (a == h || b == h) {
                None
            } else {
                match (ev(js, a as int, (f - 1) as nat, skip, h), ev(js, b as int, (f - 1) as nat, skip, h)) {
                    (Some(x), Some(y)) => apply(op, x as int, y as int),
                    _ => None,
                }
            },
        }
    }
}

pub open spec fn known(js: Seq<Job>, i: int, skip: bool, h: int) -> bool {
    exists|f: nat| (#[trigger] ev(js, i, f, skip, h)) is Some
}

/// What monkey `i` yells, where it can be worked out.
pub open spec fn value(js: Seq<Job>, i: int, skip: bool, h: int) -> Option<u64> {
    if known(js, i, skip, h) {
        ev(js, i, choose|f: nat| (#[trigger] ev(js, i, f, skip, h)) is Some, skip, h)
    } else {
        None
    }
}

/// No operation whose operands are worked out fails.
pub open spec fn ops_ok(js: Seq<Job>, skip: bool, h: int) -> bool {
    forall|i: int, f: nat|
        0 <= i < js.len() && #[trigger] js[i] is Op && (ev(js, js[i]->Op_0 as int, f, skip, h) is Some
            && ev(js, js[i]->Op_2 as int, f, skip, h) is Some) && !(skip && (js[i]->Op_0 == h || js[i]->Op_2 == h))
            ==> #[trigger] ev(js, i, f + 1, skip, h) is Some
}

proof fn lemma_ev_mono(js: Seq<Job>, i: int, f: nat, skip: bool, h: int)
    requires
        ev(js, i, f, skip, h) is Some,
    ensures
        ev(js, i, f + 1, skip, h) == ev(js, i, f, skip, h),
    decreases f,
{
    match js[i] {
        Job::Number(v) => {},
        Job::Op(a, op, b) => {
            lemma_ev_mono(js, a as int, (f - 1) as nat, skip, h);
            lemma_ev_mono(js, b as int, (f - 1) as nat, skip, h);
        },
    }
}

proof fn lemma_ev_mono_by(js: Seq<Job>, i: int, f: nat, g: nat, skip: bool, h: int)
    requires
        ev(js, i, f, skip, h) is Some,
        f <= g,
    ensures
        ev(js, i, g, skip, h) == ev(js, i, f, skip, h),
    decreases g - f,
{
    if f < g {
        lemma_ev_mono(js, i, f, skip, h);
        lemma_ev_mono_by(js, i, f + 1, g, skip, h);
    }
}

proof fn lemma_value(js: Seq<Job>, i: int, f: nat, skip: bool, h: int)
    requires
        ev(js, i, f, skip, h) is Some,
    ensures
        value(js, i, skip, h) == ev(js, i, f, skip, h),
{
    assert(known(js, i, skip, h));
    let g = choose|g: nat| (#[trigger] ev(js, i, g, skip, h)) is Some;
    if f <= g {
        lemma_ev_mono_by(js, i, f, g, skip, h);
    } else {
        lemma_ev_mono_by(js, i, g, f, skip, h);
    }
}

pub open spec fn count_none(v: Seq<Option<u64>>) -> nat
    decreases v.len(),
{
    if v.len() == 0 {
        0
    } else {
        count_none(v.drop_last()) + if v.last() is None {
            1nat
        } else {
            0
        }
    }
}

proof fn lemma_count_update(v: Seq<Option<u64>>, i: int, x: u64)
    requires
        0 <= i < v.len(),
        v[i] is None,
    ensures
        count_none(v.update(i, Some(x))) + 1 == count_none(v),
    decreases v.len(),
{
    let w = v.update(i, Some(x));
    if i < v.len() - 1 {
        assert(w.drop_last() =~= v.drop_last().update(i, Some(x)));
        lemma_count_update(v.drop_last(), i, x);
    } else {
        assert(w.drop_last() =~= v.drop_last());
    }
}

pub open spec fn jobs_ok(js: Seq<Job>) -> bool {
    forall|i: int| 0 <= i < js.len() && #[trigger] js[i] is Op ==> js[i]->Op_0 < js.len() && js[i]->Op_2 < js.len()
}

proof fn lemma_compute(js: Seq<Job>, i: int, skip: bool, h: int, x: u64, y: u64)
    requires
        jobs_ok(js),
        ops_ok(js, skip, h),
        0 <= i < js.len(),
        js[i] is Op,
        !(skip && (js[i]->Op_0 == h || js[i]->Op_2 == h)),
        value(js, js[i]->Op_0 as int, skip, h) == Some(x),
        value(js, js[i]->Op_2 as int, skip, h) == Some(y),
    ensures
        apply(js[i]->Op_1, x as int, y as int) is Some,
        value(js, i, skip, h) == apply(js[i]->Op_1, x as int, y as int),
{
    let a = js[i]->Op_0 as int;
    let b = js[i]->Op_2 as int;
    let fa = choose|f: nat| (#[trigger] ev(js, a, f, skip, h)) is Some;
    let fb = choose|f: nat| (#[trigger] ev(js, b, f, skip, h)) is Some;
    let g = if fa <= fb { fb } else { fa };
    lemma_ev_mono_by(js, a, fa, g, skip, h);
    lemma_ev_mono_by(js, b, fb, g, skip, h);
    assert(ev(js, i, g + 1, skip, h) is Some);
    lemma_value(js, i, g + 1, skip, h);
}

proof fn lemma_stable_none(js: Seq<Job>, vals: Seq<Option<u64>>, skip: bool, h: int, f: nat)
    requires
        jobs_ok(js),
        vals.len() == js.len(),
        forall|i: int| 0 <= i < js.len() && #[trigger] js[i] is Number ==> vals[i] is Some,
        forall|i: int|
            0 <= i < js.len() && vals[i] is None && #[trigger] js[i] is Op && !(skip && (js[i]->Op_0 == h
                || js[i]->Op_2 == h)) ==> !(vals[js[i]->Op_0 as int] is Some && vals[js[i]->Op_2 as int] is Some),
        forall|i: int| 0 <= i < js.len() && (#[trigger] vals[i]) is Some ==> value(js, i, skip, h) == vals[i],
    ensures
        forall|i: int| 0 <= i < js.len() && (#[trigger] vals[i]) is None ==> ev(js, i, f, skip, h) is None,
    decreases f,
{
    if f > 0 {
        lemma_stable_none(js, vals, skip, h, (f - 1) as nat);
        assert forall|i: int| 0 <= i < js.len() && (#[trigger] vals[i]) is None implies ev(js, i, f, skip, h) is None by {
            if js[i] is Op {
                let a = js[i]->Op_0 as int;
                let b = js[i]->Op_2 as int;
                if ev(js, i, f, skip, h) is Some {
                    assert(ev(js, a, (f - 1) as nat, skip, h) is Some);
                    assert(ev(js, b, (f - 1) as nat, skip, h) is Some);
                    assert(vals[a] is Some);
                    assert(vals[b] is Some);
                }
            }
        }
    }
}

fn apply_op(op: char, x: u64, y: u64) -> (r: Option<u64>)
    ensures
        r == apply(op, x as int, y as int),
{
    if op == '+' {
        x.checked_add(y)
    } else if op == '-' {
        x.checked_sub(y)
    } else if op == '*' {
        x.checked_mul(y)
    } else if y != 0 {
        Some(x / y)
    } else {
        None
    }
}

impl Solver {
    pub closed spec fn view(&self) -> (Seq<Job>, int, int) {
        (self.jobs@, self.root as int, self.humn as int)
    }

    /// What every monkey yells, where it can be worked out; with `skip`,
    /// operations on what `humn` yells are left out.
    fn calculate_numbers(&self, skip: bool) -> (r: Vec<Option<u64>>)
        requires
            jobs_ok(self@.0),
            ops_ok(self@.0, skip, self@.2),
        ensures
            r@.len() == self@.0.len(),
            forall|i: int| 0 <= i < r@.len() ==> #[trigger] r@[i] == value(self@.0, i, skip, self@.2),
    {
        let ghost js = self@.0;
        let ghost h = self@.2;
        let n = self.jobs.len();
        let mut vals: Vec<Option<u64>> = Vec::new();
        let mut i: usize = 0;
        while i < n
            invariant
                js == self@.0,
                n == js.len(),
                i <= n,
                vals@.len() == i,
                forall|k: int| 0 <= k < i && #[trigger] js[k] is Number ==> vals@[k] == Some(js[k]->Number_0),
                forall|k: int| 0 <= k < i && #[trigger] js[k] is Op ==> vals@[k] is None,
            decreases n - i,
        {
            match self.jobs[i] {
                Job::Number(v) => vals.push(Some(v)),
                Job::Op(_, _, _) => vals.push(None),
            }
            i += 1;
        }
        assert forall|k: int| 0 <= k < n && (#[trigger] vals@[k]) is Some implies value(js, k, skip, h) == vals@[k] by {
            assert(ev(js, k, 1, skip, h) == vals@[k]);
            lemma_value(js, k, 1, skip, h);
        }
        loop
            invariant
                js == self@.0,
                h == self@.2,
                jobs_ok(js),
                ops_ok(js, skip, h),
                n == js.len(),
                vals@.len() == n,
                forall|k: int| 0 <= k < n && #[trigger] js[k] is Number ==> vals@[k] is Some,
                forall|k: int| 0 <= k < n && (#[trigger] vals@[k]) is Some ==> value(js, k, skip, h) == vals@[k],
            decreases count_none(vals@),
        {
            let ghost c0 = count_none(vals@);
            let mut changed = false;
            let mut i: usize = 0;
            while i < n
                invariant
                    js == self@.0,
                    h == self@.2,
                    jobs_ok(js),
                    ops_ok(js, skip, h),
                    n == js.len(),
                    vals@.len() == n,
                    i <= n,
                    forall|k: int| 0 <= k < n && #[trigger] js[k] is Number ==> vals@[k] is Some,
                    forall|k: int| 0 <= k < n && (#[trigger] vals@[k]) is Some ==> value(js, k, skip, h) == vals@[k],
                    changed ==> count_none(vals@) < c0,
                    !changed ==> count_none(vals@) == c0,
                    !changed ==> forall|k: int|
                        0 <= k < i && vals@[k] is None && #[trigger] js[k] is Op && !(skip && (js[k]->Op_0 == h
                            || js[k]->Op_2 == h)) ==> !(vals@[js[k]->Op_0 as int] is Some && vals@[js[k]->Op_2 as int] is Some),
                decreases n - i,
            {
                if vals[i].is_none() {
                    match self.jobs[i] {
                        Job::Op(a, op, b) => {
                            assert(js[i as int] is Op);
                            let ok = !(skip && (a == self.humn || b == self.humn));
                            if ok && vals[a].is_some() && vals[b].is_some() {
                                let x = vals[a].unwrap();
                                let y = vals[b].unwrap();
                                proof {
                                    lemma_compute(js, i as int, skip, h, x, y);
                                }
                                let r = apply_op(op, x, y).unwrap();
                                let ghost before = vals@;
                                vals.set(i, Some(r));
                                proof {
                                    lemma_count_update(before, i as int, r);
                                }
                                changed = true;
                            }
                        },
                        Job::Number(_) => {},
                    }
                }
                i += 1;
            }
            if !changed {
                proof {
                    assert forall|k: int| 0 <= k < n implies #[trigger] vals@[k] == value(js, k, skip, h) by {
                        if vals@[k] is None {
                            if known(js, k, skip, h) {
                                let f = choose|f: nat| (#[trigger] ev(js, k, f, skip, h)) is Some;
                                lemma_stable_none(js, vals@, skip, h, f);
                            }
                        }
                    }
                }
                return vals;
            }
        }
    }
}

pub open spec fn vs(js: Seq<Job>, i: int, h: int) -> Option<u64> {
    value(js, i, true, h)
}

/// Where the search for what `humn` must yell starts: the side of `root`
/// that does not depend on it gives the value the other side must reach.
pub open spec fn start(js: Seq<Job>, root: int, h: int) -> Option<(int, u64)> {
    match js[root] {
        Job::Op(a, _, b) => match vs(js, a as int, h) {
            Some(x) => Some((b as int, x)),
            None => match vs(js, b as int, h) {
                Some(y) => Some((a as int, y)),
                None => None,
            },
        },
        Job::Number(_) => None,
    }
}

/// One level down: monkey `key` must yell `t`; its known operand fixes what
/// the other one must yell.
pub open spec fn back_step(js: Seq<Job>, h: int, key: int, t: u64) -> Option<(int, u64)> {
    match js[key] {
        Job::Op(a, op, b) => {
            let left_known = vs(js, a as int, h) is Some && a != h;
            let other = if left_known { vs(js, a as int, h) } else { vs(js, b as int, h) };
            let next = if left_known { b as int } else { a as int };
            match other {
                Some(o) => {
                    let r: int = if op == '+' {
                        t - o
                    } else if op == '-' {
                        if left_known { o - t } else { t + o }
                    } else if op == '*' {
                        if o != 0 { t as int / o as int } else { -1 }
                    } else {
                        t * o
                    };
                    if 0 <= r <= u64::MAX {
                        Some((next, r as u64))
                    } else {
                        None
                    }
                },
                None => None,
            }
        },
        Job::Number(_) => None,
    }
}

/// The monkey and the value it must yell after `k` levels; it stays put
/// once `humn` is reached.
pub open spec fn chain(js: Seq<Job>, root: int, h: int, k: nat) -> Option<(int, u64)>
    decreases k,
{
    if k == 0 {
        start(js, root, h)
    } else {
        match chain(js, root, h, (k - 1) as nat) {
            Some(st) => if st.0 == h {
                Some(st)
            } else {
                back_step(js, h, st.0, st.1)
            },
            None => None,
        }
    }
}

pub open spec fn reaches(js: Seq<Job>, root: int, h: int, k: nat) -> bool {
    match chain(js, root, h, k) {
        Some(st) => st.0 == h,
        None => false,
    }
}

pub open spec fn humn_value(js: Seq<Job>, root: int, h: int) -> u64 {
    match chain(js, root, h, choose|k: nat| reaches(js, root, h, k)) {
        Some(st) => st.1,
        None => 0,
    }
}

proof fn lemma_reaches_later(js: Seq<Job>, root: int, h: int, k: nat, m: nat)
    requires
        reaches(js, root, h, k),
        k <= m,
    ensures
        chain(js, root, h, m) == chain(js, root, h, k),
    decreases m - k,
{
    if k < m {
        lemma_reaches_later(js, root, h, k, (m - 1) as nat);
    }
}

/// The number of a word, or `None`.
pub open spec fn number(w: Seq<char>) -> Option<u64> {
    if w.len() > 0 && all_digits(w) && decimal_value(w) <= u64::MAX {
        Some(decimal_value(w) as u64)
    } else {
        None
    }
}

pub open spec fn name_of(t: Seq<char>) -> Seq<char> {
    words(t)[0].drop_last()
}

/// The first line whose monkey is named `x`.
pub open spec fn is_named(ls: Seq<Seq<char>>, x: Seq<char>, k: int) -> bool {
    0 <= k < ls.len() && name_of(ls[k]) == x && forall|j: int| 0 <= j < k ==> name_of(ls[j]) != x
}

pub open spec fn index_of(ls: Seq<Seq<char>>, x: Seq<char>) -> int {
    choose|k: int| is_named(ls, x, k)
}

pub open spec fn has_name(ls: Seq<Seq<char>>, x: Seq<char>) -> bool {
    exists|k: int| 0 <= k < ls.len() && name_of(ls[k]) == x
}

/// `name: number`, or `name: a op b`.
pub open spec fn line_ok(ls: Seq<Seq<char>>, t: Seq<char>) -> bool {
    let w = words(t);
    w.len() >= 2 && w[0].len() >= 1 && (number(w[1]) is Some || (w.len() >= 4 && w[2].len() >= 1
        && has_name(ls, w[1]) && has_name(ls, w[3])))
}

pub open spec fn job_of(ls: Seq<Seq<char>>, t: Seq<char>) -> Job {
    let w = words(t);
    match number(w[1]) {
        Some(v) => Job::Number(v),
        None => Job::Op(index_of(ls, w[1]) as usize, w[2][0], index_of(ls, w[3]) as usize),
    }
}

pub open spec fn input_ok(ls: Seq<Seq<char>>) -> bool {
    (forall|k: int| 0 <= k < ls.len() ==> line_ok(ls, #[trigger] ls[k])) && has_name(ls, seq!['r', 'o', 'o', 't'])
        && has_name(ls, seq!['h', 'u', 'm', 'n'])
}

proof fn lemma_index(ls: Seq<Seq<char>>, x: Seq<char>, k: int)
    requires
        0 <= k < ls.len(),
        name_of(ls[k]) == x,
    ensures
        exists|j: int| is_named(ls, x, j),
    decreases k,
{
    if exists|j: int| 0 <= j < k && name_of(ls[j]) == x {
        let j = choose|j: int| 0 <= j < k && name_of(ls[j]) == x;
        lemma_index(ls, x, j);
    } else {
        assert(is_named(ls, x, k));
    }
}

proof fn lemma_named_unique(ls: Seq<Seq<char>>, x: Seq<char>, a: int, b: int)
    requires
        is_named(ls, x, a),
        is_named(ls, x, b),
    ensures
        a == b,
{
    if a < b {
        assert(name_of(ls[a]) != x);
    } else if b < a {
        assert(name_of(ls[b]) != x);
    }
}

/// The first line named `x`.
fn find_name(names: &Vec<Vec<char>>, x: &Vec<char>, ghost_ls: Ghost<Seq<Seq<char>>>) -> (r: usize)
    requires
        names@.len() == ghost_ls@.len(),
        forall|k: int| 0 <= k < names@.len() ==> (#[trigger] names@[k])@ == name_of(ghost_ls@[k]),
        has_name(ghost_ls@, x@),
    ensures
        r as int == index_of(ghost_ls@, x@),
        r < names@.len(),
{
    let ghost ls = ghost_ls@;
    let ghost w = choose|k: int| 0 <= k < ls.len() && name_of(ls[k]) == x@;
    let n = names.len();
    let mut i: usize = 0;
    while !same_chars(&names[i], x)
        invariant
            n == names@.len(),
            names@.len() == ls.len(),
            forall|k: int| 0 <= k < names@.len() ==> (#[trigger] names@[k])@ == name_of(ls[k]),
            0 <= w < ls.len(),
            name_of(ls[w]) == x@,
            i <= w,
            forall|j: int| 0 <= j < i ==> name_of(ls[j]) != x@,
        decreases w - i,
    {
        assert(names@[i as int]@ == name_of(ls[i as int]));
        i += 1;
    }
    proof {
        assert(is_named(ls, x@, i as int));
        lemma_named_unique(ls, x@, i as int, index_of(ls, x@));
    }
    i
}

pub open spec fn jobs_of(ls: Seq<Seq<char>>) -> Seq<Job> {
    Seq::new(ls.len(), |k: int| job_of(ls, ls[k]))
}

pub open spec fn root_name() -> Seq<char> {
    seq!['r', 'o', 'o', 't']
}

pub open spec fn humn_name() -> Seq<char> {
    seq!['h', 'u', 'm', 'n']
}

fn word4(a: char, b: char, c: char, d: char) -> (r: Vec<char>)
    ensures
        r@ == seq![a, b, c, d],
{
    let mut r: Vec<char> = Vec::new();
    r.push(a);
    r.push(b);
    r.push(c);
    r.push(d);
    assert(r@ =~= seq![a, b, c, d]);
    r
}

fn read_job(row: &Vec<char>, names: &Vec<Vec<char>>, ghost_ls: Ghost<Seq<Seq<char>>>) -> (r: Job)
    requires
        names@.len() == ghost_ls@.len(),
        forall|k: int| 0 <= k < names@.len() ==> (#[trigger] names@[k])@ == name_of(ghost_ls@[k]),
        line_ok(ghost_ls@, row@),
    ensures
        r == job_of(ghost_ls@, row@),
        r is Op ==> r->Op_0 < names@.len() && r->Op_2 < names@.len(),
{
    let ghost ls = ghost_ls@;
    let w = words_of(row);
    assert(views(w@)[1] == w@[1]@);
    match parse_u64(&w[1]) {
        Some(v) => Job::Number(v),
        None => {
            assert(views(w@)[2] == w@[2]@);
            assert(views(w@)[3] == w@[3]@);
            let a = find_name(names, &w[1], Ghost(ls));
            let b = find_name(names, &w[3], Ghost(ls));
            Job::Op(a, w[2][0], b)
        },
    }
}

impl Solver {
    /// Reads one monkey per line: `name: 5` or `name: a + b`.
    pub fn new(input: String) -> (r: Solver)
        requires
            forall|ts: Seq<Seq<char>>| trimmed_lines_of(ts, input@) ==> input_ok(non_empty(ts)),
        ensures
            jobs_ok(r@.0),
            exists|ts: Seq<Seq<char>>|
                trimmed_lines_of(ts, input@) && r@ == (
                    jobs_of(non_empty(ts)),
                    index_of(non_empty(ts), root_name()),
                    index_of(non_empty(ts), humn_name()),
                ),
    {
        let rows = non_empty_lines(input.as_str());
        let ghost ls = views(rows@);
        assert(input_ok(ls));
        let n = rows.len();
        let mut names: Vec<Vec<char>> = Vec::new();
        let mut i: usize = 0;
        while i < n
            invariant
                ls == views(rows@),
                input_ok(ls),
                n == ls.len(),
                i <= n,
                names@.len() == i,
                forall|k: int| 0 <= k < i ==> (#[trigger] names@[k])@ == name_of(ls[k]),
            decreases n - i,
        {
            assert(ls[i as int] == rows@[i as int]@);
            assert(line_ok(ls, ls[i as int]));
            let w = words_of(&rows[i]);
            assert(views(w@)[0] == w@[0]@);
            let first = &w[0];
            let mut name: Vec<char> = Vec::new();
            let mut k: usize = 0;
            let len = first.len();
            while k < len - 1
                invariant
                    len == first@.len(),
                    first@.len() >= 1,
                    k + 1 <= first@.len(),
                    name@ == first@.subrange(0, k as int),
                decreases first@.len() - k,
            {
                name.push(first[k]);
                k += 1;
            }
            assert(name@ =~= first@.drop_last());
            names.push(name);
            i += 1;
        }
        let mut jobs: Vec<Job> = Vec::new();
        i = 0;
        while i < n
            invariant
                ls == views(rows@),
                input_ok(ls),
                n == ls.len(),
                names@.len() == n,
                forall|k: int| 0 <= k < n ==> (#[trigger] names@[k])@ == name_of(ls[k]),
                i <= n,
                jobs@.len() == i,
                forall|k: int| 0 <= k < i ==> #[trigger] jobs@[k] == job_of(ls, ls[k]),
                forall|k: int| 0 <= k < i && #[trigger] jobs@[k] is Op ==> jobs@[k]->Op_0 < n && jobs@[k]->Op_2 < n,
            decreases n - i,
        {
            assert(ls[i as int] == rows@[i as int]@);
            let job = read_job(&rows[i], &names, Ghost(ls));
            jobs.push(job);
            i += 1;
        }
        let rn = word4('r', 'o', 'o', 't');
        let hn = word4('h', 'u', 'm', 'n');
        let root = find_name(&names, &rn, Ghost(ls));
        let humn = find_name(&names, &hn, Ghost(ls));
        let r = Solver { names, jobs, root, humn };
        assert(r@.0 =~= jobs_of(ls));
        r
    }
}

impl ChallengeSolver for Solver {
    open spec fn solvable_a(&self) -> bool {
        &&& jobs_ok(self@.0)
        &&& 0 <= self@.1 < self@.0.len()
        &&& 0 <= self@.2 < self@.0.len()
        &&& ops_ok(self@.0, false, self@.2)
        &&& ops_ok(self@.0, true, self@.2)
        &&& value(self@.0, self@.1, false, self@.2) is Some
        &&& exists|k: nat| reaches(self@.0, self@.1, self@.2, k)
    }

    open spec fn solvable_b(&self) -> bool {
        &&& jobs_ok(self@.0)
        &&& 0 <= self@.1 < self@.0.len()
        &&& 0 <= self@.2 < self@.0.len()
        &&& ops_ok(self@.0, false, self@.2)
        &&& ops_ok(self@.0, true, self@.2)
        &&& value(self@.0, self@.1, false, self@.2) is Some
        &&& exists|k: nat| reaches(self@.0, self@.1, self@.2, k)
    }

    open spec fn answer_a(&self) -> Seq<char> {
        decimal(value(self@.0, self@.1, false, self@.2)->0 as nat)
    }

    open spec fn answer_b(&self) -> Seq<char> {
        decimal(humn_value(self@.0, self@.1, self@.2) as nat)
    }

    /// What `root` yells.
    fn get_part_a_result(&self) -> (r: String) {
        let vals = self.calculate_numbers(false);
        u64_to_string(vals[self.root].unwrap())
    }

    /// What `humn` must yell for both sides of `root` to be equal.
    fn get_part_b_result(&self) -> (r: String) {
        let ghost js = self@.0;
        let ghost root = self@.1;
        let ghost h = self@.2;
        let vals = self.calculate_numbers(true);
        let ghost kf = choose|k: nat| reaches(js, root, h, k);
        let (mut key, mut t) = match self.jobs[self.root] {
            Job::Op(a, _, b) => {
                match vals[a] {
                    Some(x) => (b, x),
                    None => (a, vals[b].unwrap_or(0)),
                }
            },
            Job::Number(_) => (self.humn, 0),
        };
        proof {
            if chain(js, root, h, 0) is None {
                lemma_none_stays(js, root, h, 0, kf);
            }
        }
        assert(chain(js, root, h, 0) == Some((key as int, t)));
        let ghost mut k: nat = 0;
        while key != self.humn
            invariant
                js == self@.0,
                root == self@.1,
                h == self@.2,
                self.solvable_b(),
                reaches(js, root, h, kf),
                vals@.len() == js.len(),
                forall|i: int| 0 <= i < vals@.len() ==> #[trigger] vals@[i] == vs(js, i, h),
                chain(js, root, h, k) == Some((key as int, t)),
                k <= kf,
                key < js.len(),
            decreases kf - k,
        {
            proof {
                if k == kf {
                    assert(reaches(js, root, h, k));
                }
            }
            assert(chain(js, root, h, k + 1) == back_step(js, h, key as int, t));
            proof {
                if back_step(js, h, key as int, t) is None {
                    lemma_none_stays(js, root, h, k + 1, kf);
                }
            }
            match self.jobs[key] {
                Job::Op(a, op, b) => {
                    let left_known = vals[a].is_some() && a != self.humn;
                    let other = if left_known { vals[a].unwrap() } else { vals[b].unwrap() };
                    let next = if left_known { b } else { a };
                    let nt: u64 = if op == '+' {
                        t - other
                    } else if op == '-' {
                        if left_known { other - t } else { t + other }
                    } else if op == '*' {
                        t / other
                    } else {
                        t * other
                    };
                    key = next;
                    t = nt;
                },
                Job::Number(_) => {},
            }
            proof {
                k = k + 1;
            }
        }
        proof {
            let k2 = choose|k2: nat| reaches(js, root, h, k2);
            if k <= k2 {
                lemma_reaches_later(js, root, h, k, k2);
            } else {
                lemma_reaches_later(js, root, h, k2, k);
            }
        }
        u64_to_string(t)
    }
}

proof fn lemma_none_stays(js: Seq<Job>, root: int, h: int, k: nat, m: nat)
    requires
        chain(js, root, h, k) is None,
        k <= m,
    ensures
        chain(js, root, h, m) is None,
    decreases m - k,
{
    if k < m {
        lemma_none_stays(js, root, h, k, (m - 1) as nat);
    }
}

} // verus!
