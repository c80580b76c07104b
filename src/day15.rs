use vstd::prelude::*;
use crate::plane::Coordinates;
use crate::text::{
    extract_integers_from_string, is_lines_of, runs, signed_decimal, signed_values, i64_to_string,
};
use crate::ChallengeSolver;

verus! {

/// `x` lies in one of the half-open ranges `[a, b)`.
pub open spec fn covers(rs: Seq<(i64, i64)>, x: int) -> bool {
    exists|k: int| 0 <= k < rs.len() && in_range(#[trigger] rs[k], x)
}

pub open spec fn in_range(r: (i64, i64), x: int) -> bool {
    r.0 <= x < r.1
}

/// Ranges sorted, each non-empty, and apart: a gap of at least one place
/// between each two.
pub open spec fn separated(m: Seq<(i64, i64)>) -> bool {
    (forall|k: int| 0 <= k < m.len() ==> (#[trigger] m[k]).0 < m[k].1) && forall|k: int|
        0 <= k < m.len() - 1 ==> #[trigger] gap_after(m, k)
}

/// A gap of at least one place follows range `k`.
pub open spec fn gap_after(m: Seq<(i64, i64)>, k: int) -> bool {
    m[k].1 < m[k + 1].0
}

/// `m` is the merged form of `rs`: separated ranges that cover the same
/// places.
pub open spec fn is_merged(m: Seq<(i64, i64)>, rs: Seq<(i64, i64)>) -> bool {
    separated(m) && forall|x: int| covers(m, x) <==> covers(rs, x)
}

pub open spec fn nonempty(rs: Seq<(i64, i64)>) -> bool {
    forall|k: int| 0 <= k < rs.len() ==> (#[trigger] rs[k]).0 < rs[k].1
}

pub open spec fn sorted_starts(rs: Seq<(i64, i64)>) -> bool {
    forall|i: int, j: int| 0 <= i < j < rs.len() ==> rs[i].0 <= rs[j].0
}

proof fn lemma_separated_below(m: Seq<(i64, i64)>, i: int, j: int)
    requires
        separated(m),
        0 <= i < j < m.len(),
    ensures
        m[i].1 < m[j].0,
    decreases j - i,
{
    assert(gap_after(m, i));
    if j > i + 1 {
        lemma_separated_below(m, i + 1, j);
        assert(m[i + 1].0 < m[i + 1].1);
    }
}

proof fn lemma_least(m: Seq<(i64, i64)>, x: int)
    requires
        separated(m),
        m.len() > 0,
        covers(m, x),
    ensures
        m[0].0 <= x,
{
    let k = choose|k: int| 0 <= k < m.len() && in_range(#[trigger] m[k], x);
    if k > 0 {
        lemma_separated_below(m, 0, k);
    }
}

proof fn lemma_end_uncovered(m: Seq<(i64, i64)>)
    requires
        separated(m),
        m.len() > 0,
    ensures
        !covers(m, m[0].1 as int),
{
    if covers(m, m[0].1 as int) {
        let k = choose|k: int| 0 <= k < m.len() && in_range(#[trigger] m[k], m[0].1 as int);
        if k > 0 {
            lemma_separated_below(m, 0, k);
        }
    }
}

proof fn lemma_tail(m: Seq<(i64, i64)>, x: int)
    requires
        separated(m),
        m.len() > 0,
    ensures
        covers(m.drop_first(), x) <==> (covers(m, x) && x >= m[0].1),
        separated(m.drop_first()),
{
    let t = m.drop_first();
    if covers(t, x) {
        let k = choose|k: int| 0 <= k < t.len() && in_range(#[trigger] t[k], x);
        lemma_separated_below(m, 0, k + 1);
        assert(in_range(m[k + 1], x));
    }
    if covers(m, x) && x >= m[0].1 {
        let j = choose|j: int| 0 <= j < m.len() && in_range(#[trigger] m[j], x);
        assert(j != 0);
        assert(t[j - 1] == m[j]);
    }
    assert forall|k: int| 0 <= k < t.len() - 1 implies #[trigger] gap_after(t, k) by {
        assert(gap_after(m, k + 1));
    }
    assert forall|k: int| 0 <= k < t.len() implies (#[trigger] t[k]).0 < t[k].1 by {
        assert(m[k + 1].0 < m[k + 1].1);
    }
}

/// Two merged forms of the same places are the same.
#[verifier::rlimit(100)]
proof fn lemma_merged_unique(m1: Seq<(i64, i64)>, m2: Seq<(i64, i64)>)
    requires
        separated(m1),
        separated(m2),
        forall|x: int| covers(m1, x) <==> covers(m2, x),
    ensures
        m1 == m2,
    decreases m1.len() + m2.len(),
{
    if m1.len() == 0 || m2.len() == 0 {
        if m1.len() > 0 {
            assert(in_range(m1[0], m1[0].0 as int));
            assert(covers(m1, m1[0].0 as int));
        }
        if m2.len() > 0 {
            assert(in_range(m2[0], m2[0].0 as int));
            assert(covers(m2, m2[0].0 as int));
        }
        assert(m1 =~= m2);
    } else {
        assert(in_range(m1[0], m1[0].0 as int));
        assert(in_range(m2[0], m2[0].0 as int));
        assert(covers(m1, m1[0].0 as int));
        assert(covers(m2, m2[0].0 as int));
        assert(covers(m1, m2[0].0 as int));
        assert(covers(m2, m1[0].0 as int));
        lemma_least(m1, m2[0].0 as int);
        lemma_least(m2, m1[0].0 as int);
        lemma_end_uncovered(m1);
        lemma_end_uncovered(m2);
        let b1 = m1[0].1 as int;
        let b2 = m2[0].1 as int;
        if b1 < b2 {
            assert(in_range(m2[0], b1));
        } else if b2 < b1 {
            assert(in_range(m1[0], b2));
        }
        let t1 = m1.drop_first();
        let t2 = m2.drop_first();
        assert forall|x: int| covers(t1, x) <==> covers(t2, x) by {
            lemma_tail(m1, x);
            lemma_tail(m2, x);
        }
        lemma_tail(m1, 0);
        lemma_tail(m2, 0);
        lemma_merged_unique(t1, t2);
        assert(m1 =~= seq![m1[0]] + t1);
        assert(m2 =~= seq![m2[0]] + t2);
    }
}
/// `s` with `e` put in at `p`, covering what both covered.
proof fn lemma_insert_covers(s: Seq<(i64, i64)>, p: int, e: (i64, i64), x: int)
    requires
        0 <= p <= s.len(),
    ensures
        covers(s.insert(p, e), x) <==> (covers(s, x) || in_range(e, x)),
{
    let t = s.insert(p, e);
    if covers(t, x) {
        let k = choose|k: int| 0 <= k < t.len() && in_range(#[trigger] t[k], x);
        if k < p {
            assert(t[k] == s[k]);
        } else if k > p {
            assert(t[k] == s[k - 1]);
        }
    }
    if covers(s, x) {
        let k = choose|k: int| 0 <= k < s.len() && in_range(#[trigger] s[k], x);
        if k < p {
            assert(t[k] == s[k]);
        } else {
            assert(t[k + 1] == s[k]);
        }
    }
    if in_range(e, x) {
        assert(t[p] == e);
    }
}

proof fn lemma_push_covers(s: Seq<(i64, i64)>, e: (i64, i64), x: int)
    ensures
        covers(s.push(e), x) <==> (covers(s, x) || in_range(e, x)),
{
    lemma_insert_covers(s, s.len() as int, e, x);
    assert(s.insert(s.len() as int, e) =~= s.push(e));
}

/// The ranges sorted by where they start.
fn sort_by_start(v: &Vec<(i64, i64)>) -> (r: Vec<(i64, i64)>)
    requires
        nonempty(v@),
    ensures
        nonempty(r@),
        sorted_starts(r@),
        r@.len() == v@.len(),
        forall|x: int| covers(r@, x) <==> covers(v@, x),
{
    let mut r: Vec<(i64, i64)> = Vec::new();
    let mut i: usize = 0;
    while i < v.len()
        invariant
            nonempty(v@),
            i <= v@.len(),
            r@.len() == i,
            nonempty(r@),
            sorted_starts(r@),
            forall|x: int| covers(r@, x) <==> covers(v@.subrange(0, i as int), x),
        decreases v@.len() - i,
    {
        let e = v[i];
        let mut p: usize = 0;
        while p < r.len() && r[p].0 <= e.0
            invariant
                p <= r@.len(),
                forall|k: int| 0 <= k < p ==> r@[k].0 <= e.0,
            decreases r@.len() - p,
        {
            p += 1;
        }
        let ghost old_r = r@;
        r.insert(p, e);
        proof {
            assert(r@ == old_r.insert(p as int, e));
            assert forall|a: int, b: int| 0 <= a < b < r@.len() implies r@[a].0 <= r@[b].0 by {
                if b < p {
                } else if b == p {
                } else if a < p {
                    assert(r@[b] == old_r[b - 1]);
                    if p < old_r.len() {
                        assert(old_r[p as int].0 > e.0);
                        if b - 1 > p {
                            assert(old_r[p as int].0 <= old_r[b - 1].0);
                        }
                    }
                } else if a == p {
                    assert(r@[b] == old_r[b - 1]);
                    assert(old_r[p as int].0 > e.0);
                    if b - 1 > p {
                        assert(old_r[p as int].0 <= old_r[b - 1].0);
                    }
                } else {
                    assert(r@[a] == old_r[a - 1]);
                    assert(r@[b] == old_r[b - 1]);
                }
            }
            assert forall|k: int| 0 <= k < r@.len() implies (#[trigger] r@[k]).0 < r@[k].1 by {
                if k < p {
                    assert(r@[k] == old_r[k]);
                } else if k > p {
                    assert(r@[k] == old_r[k - 1]);
                } else {
                    assert(v@[i as int] == e);
                }
            }
            assert(v@.subrange(0, i + 1) =~= v@.subrange(0, i as int).push(e));
            assert forall|x: int| covers(r@, x) <==> covers(v@.subrange(0, i + 1), x) by {
                lemma_insert_covers(old_r, p as int, e, x);
                lemma_push_covers(v@.subrange(0, i as int), e, x);
            }
        }
        i += 1;
    }
    assert(v@.subrange(0, i as int) =~= v@);
    r
}


pub type Pair = ((int, int), (int, int));

pub open spec fn abs(x: int) -> int {
    if x < 0 {
        -x
    } else {
        x
    }
}

/// The Manhattan distance from a sensor to its beacon.
pub open spec fn reach(p: Pair) -> int {
    abs(p.0.0 - p.1.0) + abs(p.0.1 - p.1.1)
}

/// The ranges of row `y` that the sensors rule out, in the sensors' order:
/// `[sx - w, sx + w + 1)` with `w` the reach left at that row.
pub open spec fn cov(ss: Seq<Pair>, y: int) -> Seq<(i64, i64)>
    decreases ss.len(),
{
    if ss.len() == 0 {
        Seq::empty()
    } else {
        let p = ss.last();
        let w = reach(p) - abs(y - p.0.1);
        let prev = cov(ss.drop_last(), y);
        if w >= 0 {
            prev.push(((p.0.0 - w) as i64, (p.0.0 + w + 1) as i64))
        } else {
            prev
        }
    }
}

pub open spec fn merged(ss: Seq<Pair>, y: int) -> Seq<(i64, i64)> {
    choose|m: Seq<(i64, i64)>| is_merged(m, cov(ss, y))
}

pub open spec fn total_len(m: Seq<(i64, i64)>) -> int
    decreases m.len(),
{
    if m.len() == 0 {
        0
    } else {
        total_len(m.drop_last()) + m.last().1 - m.last().0
    }
}

/// How many of the points stand on row `y`.
pub open spec fn on_row(sp: Seq<(i64, i64)>, y: int) -> int
    decreases sp.len(),
{
    if sp.len() == 0 {
        0
    } else {
        on_row(sp.drop_last(), y) + if sp.last().1 == y {
            1int
        } else {
            0
        }
    }
}

pub open spec fn gap_at(m: Seq<(i64, i64)>, i: int) -> bool {
    0 <= i < m.len() - 1 && m[i + 1].0 - m[i].1 == 1
}

pub open spec fn has_gap(m: Seq<(i64, i64)>) -> bool {
    m.len() > 1 && exists|i: int| #[trigger] gap_at(m, i)
}

pub open spec fn first_gap(m: Seq<(i64, i64)>) -> int {
    choose|i: int| gap_at(m, i) && forall|j: int| 0 <= j < i ==> !#[trigger] gap_at(m, j)
}

/// Row `y` is the first in `0..4000000` with a gap of a single place.
pub open spec fn is_hole_row(ss: Seq<Pair>, y: int) -> bool {
    0 <= y < 4000000 && has_gap(merged(ss, y)) && forall|j: int| 0 <= j < y ==> !has_gap(#[trigger] merged(ss, j))
}

pub open spec fn hole_row(ss: Seq<Pair>) -> int {
    choose|y: int| is_hole_row(ss, y)
}

/// The tuning frequency of the only place no sensor rules out.
pub open spec fn tuning(ss: Seq<Pair>) -> int {
    let y = hole_row(ss);
    let m = merged(ss, y);
    m[first_gap(m)].1 * 4000000 + y
}

proof fn lemma_merged_is(ss: Seq<Pair>, y: int, m: Seq<(i64, i64)>)
    requires
        is_merged(m, cov(ss, y)),
    ensures
        merged(ss, y) == m,
{
    let c = merged(ss, y);
    assert(is_merged(c, cov(ss, y)));
    lemma_merged_unique(c, m);
}

/// What rows the sensors rule out places in, from row `low` on.
pub struct Ranges {
    pub low: i64,
    pub rows: Vec<Vec<(i64, i64)>>,
}

pub open spec fn rows_view(v: Seq<Vec<(i64, i64)>>) -> Seq<Seq<(i64, i64)>> {
    v.map_values(|r: Vec<(i64, i64)>| r@)
}

/// The sensors and beacons, each as (sensor, beacon).
pub struct Solver {
    input: Vec<(Coordinates, Coordinates)>,
}

pub open spec fn small(v: int) -> bool {
    -0x400_0000 <= v <= 0x400_0000
}

pub open spec fn all_small(ss: Seq<Pair>) -> bool {
    forall|k: int|
        0 <= k < ss.len() ==> small((#[trigger] ss[k]).0.0) && small(ss[k].0.1) && small(ss[k].1.0) && small(ss[k].1.1)
}

pub open spec fn pair_of(nums: Seq<i64>) -> Pair {
    ((nums[0] as int, nums[1] as int), (nums[2] as int, nums[3] as int))
}

/// Each line names at least four numbers, none far from the origin.
pub open spec fn lines_ok(ls: Seq<Seq<char>>) -> bool {
    forall|k: int|
        0 <= k < ls.len() ==> (#[trigger] signed_values(runs(ls[k], true))).len() >= 4 && forall|j: int|
            0 <= j < 4 ==> small(signed_values(runs(ls[k], true))[j] as int)
}

/// A line's numbers: at least four, the first four near the origin.
pub open spec fn row_ok(v: Seq<i64>) -> bool {
    v.len() >= 4 && forall|j: int| 0 <= j < 4 ==> small(v[j] as int)
}

fn row_fits(v: &Vec<i64>) -> (r: bool)
    ensures
        r == row_ok(v@),
{
    if v.len() < 4 {
        return false;
    }
    let mut j: usize = 0;
    while j < 4
        invariant
            j <= 4 <= v@.len(),
            forall|i: int| 0 <= i < j ==> small(#[trigger] v@[i] as int),
        decreases 4 - j,
    {
        if v[j] < -0x400_0000 || v[j] > 0x400_0000 {
            return false;
        }
        j += 1;
    }
    true
}

impl Solver {
    pub closed spec fn view(&self) -> Seq<Pair> {
        self.input@.map_values(|p: (Coordinates, Coordinates)| ((p.0.x() as int, p.0.y() as int), (p.1.x() as int, p.1.y() as int)))
    }

    pub closed spec fn wf(&self) -> bool {
        all_small(self@)
    }

    /// Reads one sensor per line: the numbers of the line are the sensor's
    /// `x` and `y`, then its beacon's.
    pub fn new(input: String) -> (r: Solver)
        requires
            forall|ls: Seq<Seq<char>>| is_lines_of(ls, input@) ==> lines_ok(ls),
        ensures
            r.wf(),
            exists|ls: Seq<Seq<char>>|
                is_lines_of(ls, input@) && r@ == Seq::new(ls.len(), |k: int| pair_of(signed_values(runs(ls[k], true)))),
    {
        let nums = extract_integers_from_string(&input);
        let ghost ls = choose|ls: Seq<Seq<char>>|
            is_lines_of(ls, input@) && nums@.len() == ls.len() && forall|k: int|
                0 <= k < ls.len() ==> (#[trigger] nums@[k])@ == signed_values(runs(ls[k], true));
        assert(lines_ok(ls));
        let r = Solver::from_numbers(&nums);
        assert(r@ =~= Seq::new(ls.len(), |k: int| pair_of(signed_values(runs(ls[k], true)))));
        r
    }

    /// Reads the input as `new` does, or gives `None` where some line holds
    /// fewer than four numbers or one too far from the origin.
    pub fn try_new(input: String) -> (r: Option<Solver>)
        ensures
            r is None ==> exists|ls: Seq<Seq<char>>| is_lines_of(ls, input@) && !lines_ok(ls),
            r matches Some(d) ==> d.wf() && exists|ls: Seq<Seq<char>>|
                is_lines_of(ls, input@) && lines_ok(ls) && d@ == Seq::new(
                    ls.len(),
                    |k: int| pair_of(signed_values(runs(ls[k], true))),
                ),
    {
        let nums = extract_integers_from_string(&input);
        let ghost ls = choose|ls: Seq<Seq<char>>|
            is_lines_of(ls, input@) && nums@.len() == ls.len() && forall|k: int|
                0 <= k < ls.len() ==> (#[trigger] nums@[k])@ == signed_values(runs(ls[k], true));
        let mut i: usize = 0;
        while i < nums.len()
            invariant
                nums@.len() == ls.len(),
                is_lines_of(ls, input@),
                forall|k: int| 0 <= k < ls.len() ==> (#[trigger] nums@[k])@ == signed_values(runs(ls[k], true)),
                i <= nums@.len(),
                forall|k: int| 0 <= k < i ==> row_ok(#[trigger] nums@[k]@),
            decreases nums@.len() - i,
        {
            if !row_fits(&nums[i]) {
                assert(nums@[i as int]@ == signed_values(runs(ls[i as int], true)));
                assert(!lines_ok(ls));
                return None;
            }
            i += 1;
        }
        assert(lines_ok(ls)) by {
            assert forall|k: int| 0 <= k < ls.len() implies (#[trigger] signed_values(runs(ls[k], true))).len() >= 4
                && forall|j: int| 0 <= j < 4 ==> small(signed_values(runs(ls[k], true))[j] as int) by {
                assert(row_ok(nums@[k]@));
            }
        }
        let r = Solver::from_numbers(&nums);
        assert(r@ =~= Seq::new(ls.len(), |k: int| pair_of(signed_values(runs(ls[k], true)))));
        Some(r)
    }

    fn from_numbers(nums: &Vec<Vec<i64>>) -> (r: Solver)
        requires
            forall|k: int| 0 <= k < nums@.len() ==> row_ok(#[trigger] nums@[k]@),
        ensures
            r.wf(),
            r@ == Seq::new(nums@.len(), |k: int| pair_of(nums@[k]@)),
    {
        let mut v: Vec<(Coordinates, Coordinates)> = Vec::new();
        let mut i: usize = 0;
        while i < nums.len()
            invariant
                forall|k: int| 0 <= k < nums@.len() ==> row_ok(#[trigger] nums@[k]@),
                i <= nums@.len(),
                v@.len() == i,
                forall|k: int|
                    0 <= k < i ==> ((#[trigger] v@[k]).0.x() as int, v@[k].0.y() as int, v@[k].1.x() as int, v@[k].1.y() as int)
                        == (nums@[k]@[0] as int, nums@[k]@[1] as int, nums@[k]@[2] as int, nums@[k]@[3] as int),
            decreases nums@.len() - i,
        {
            let row = &nums[i];
            assert(row_ok(row@));
            let s = Coordinates::new(row[0] as isize, row[1] as isize);
            let b = Coordinates::new(row[2] as isize, row[3] as isize);
            v.push((s, b));
            i += 1;
        }
        let r = Solver { input: v };
        assert(r@ =~= Seq::new(nums@.len(), |k: int| pair_of(nums@[k]@)));
        r
    }
}

/// Sensors and beacons, each place once, in the order first met.
pub open spec fn specials(ss: Seq<Pair>) -> Seq<(i64, i64)>
    decreases ss.len(),
{
    if ss.len() == 0 {
        Seq::empty()
    } else {
        let prev = specials(ss.drop_last());
        let p = ss.last();
        let s = (p.0.0 as i64, p.0.1 as i64);
        let b = (p.1.0 as i64, p.1.1 as i64);
        let a = if prev.contains(s) { prev } else { prev.push(s) };
        if a.contains(b) { a } else { a.push(b) }
    }
}

pub open spec fn lowest(ss: Seq<Pair>) -> int
    decreases ss.len(),
{
    if ss.len() == 0 {
        0
    } else if ss.len() == 1 {
        ss[0].0.1 - reach(ss[0])
    } else {
        let a = lowest(ss.drop_last());
        let b = ss.last().0.1 - reach(ss.last());
        if b < a { b } else { a }
    }
}

pub open spec fn highest(ss: Seq<Pair>) -> int
    decreases ss.len(),
{
    if ss.len() == 0 {
        0
    } else if ss.len() == 1 {
        ss[0].0.1 + reach(ss[0])
    } else {
        let a = highest(ss.drop_last());
        let b = ss.last().0.1 + reach(ss.last());
        if b > a { b } else { a }
    }
}

proof fn lemma_cov_nonempty(ss: Seq<Pair>, y: int)
    requires
        all_small(ss),
    ensures
        nonempty(cov(ss, y)),
    decreases ss.len(),
{
    if ss.len() > 0 {
        let p = ss.last();
        assert(small(p.0.0) && small(p.0.1) && small(p.1.0) && small(p.1.1));
        assert(all_small(ss.drop_last())) by {
            assert forall|k: int| 0 <= k < ss.len() - 1 implies small((#[trigger] ss.drop_last()[k]).0.0) && small(ss.drop_last()[k].0.1) && small(ss.drop_last()[k].1.0) && small(ss.drop_last()[k].1.1) by {
                assert(ss.drop_last()[k] == ss[k]);
            }
        }
        lemma_cov_nonempty(ss.drop_last(), y);
    }
}

proof fn lemma_cov_outside(ss: Seq<Pair>, y: int)
    requires
        ss.len() > 0,
        y < lowest(ss) || y > highest(ss),
    ensures
        cov(ss, y).len() == 0,
    decreases ss.len(),
{
    let p = ss.last();
    if ss.len() > 1 {
        lemma_cov_outside(ss.drop_last(), y);
    } else {
        assert(ss.drop_last().len() == 0);
        assert(p == ss[0]);
    }
    assert(cov(ss.drop_last(), y).len() == 0);
    assert(y < p.0.1 - reach(p) || y > p.0.1 + reach(p));
    assert(reach(p) - abs(y - p.0.1) < 0);
    assert(cov(ss, y) == cov(ss.drop_last(), y));
}

pub open spec fn bounded(m: Seq<(i64, i64)>) -> bool {
    forall|k: int| 0 <= k < m.len() ==> -0x4000_0000 <= (#[trigger] m[k]).0 <= 0x4000_0000 && -0x4000_0000 <= m[k].1 <= 0x4000_0000
}

/// The ranges of row `y`: none outside the rows held.
pub open spec fn row_of(low: int, rows: Seq<Seq<(i64, i64)>>, y: int) -> Seq<(i64, i64)> {
    if low <= y < low + rows.len() {
        rows[y - low]
    } else {
        Seq::empty()
    }
}

/// Row `y` is the first of `0..4000000` with a gap of one place.
pub open spec fn is_first_hole(low: int, rows: Seq<Seq<(i64, i64)>>, y: int) -> bool {
    0 <= y < 4000000 && has_gap(row_of(low, rows, y)) && forall|j: int|
        0 <= j < y ==> !has_gap(#[trigger] row_of(low, rows, j))
}

fn copy_row(v: &Vec<(i64, i64)>) -> (r: Vec<(i64, i64)>)
    ensures
        r@ == v@,
{
    let mut r: Vec<(i64, i64)> = Vec::new();
    let mut i: usize = 0;
    while i < v.len()
        invariant
            i <= v@.len(),
            r@ == v@.subrange(0, i as int),
        decreases v@.len() - i,
    {
        r.push(v[i]);
        i += 1;
    }
    assert(v@.subrange(0, i as int) =~= v@);
    r
}

fn holds_point(v: &Vec<(i64, i64)>, q: (i64, i64)) -> (r: bool)
    ensures
        r == v@.contains(q),
{
    let mut i: usize = 0;
    while i < v.len()
        invariant
            i <= v@.len(),
            forall|k: int| 0 <= k < i ==> v@[k] != q,
        decreases v@.len() - i,
    {
        if v[i].0 == q.0 && v[i].1 == q.1 {
            assert(v@[i as int] == q);
            return true;
        }
        i += 1;
    }
    false
}

fn sum_lengths(m: &Vec<(i64, i64)>) -> (r: i128)
    requires
        bounded(m@),
    ensures
        r == total_len(m@),
{
    let mut acc: i128 = 0;
    let mut i: usize = 0;
    while i < m.len()
        invariant
            bounded(m@),
            i <= m@.len(),
            i <= usize::MAX,
            acc == total_len(m@.subrange(0, i as int)),
            -0x1_0000_0000 * i <= acc <= 0x1_0000_0000 * i,
        decreases m@.len() - i,
    {
        assert(m@.subrange(0, i + 1).drop_last() =~= m@.subrange(0, i as int));
        let r = m[i];
        assert(-0x4000_0000 <= m@[i as int].0 <= 0x4000_0000 && -0x4000_0000 <= m@[i as int].1 <= 0x4000_0000);
        assert(0x1_0000_0000 * i <= 0x1_0000_0000 * 0x1_0000_0000_0000_0000) by (nonlinear_arith)
            requires
                i <= 0x1_0000_0000_0000_0000,
        ;
        acc = acc + (r.1 as i128 - r.0 as i128);
        i += 1;
    }
    assert(m@.subrange(0, i as int) =~= m@);
    acc
}

impl Solver {
    /// Sorts the ranges and merges those that overlap or touch.
    pub fn merge_ranges(ranges: &mut Vec<(i64, i64)>)
        requires
            nonempty(old(ranges)@),
        ensures
            is_merged(final(ranges)@, old(ranges)@),
    {
        let s = sort_by_start(ranges);
        let n = s.len();
        if n == 0 {
            proof {
                assert forall|x: int| covers(s@, x) <==> covers(Seq::<(i64, i64)>::empty(), x) by {}
            }
            *ranges = Vec::new();
            return;
        }
        let mut out: Vec<(i64, i64)> = Vec::new();
        let mut cur = s[0];
        let mut i: usize = 1;
        assert(s@.subrange(0, 1) =~= seq![s@[0]]);
        proof {
            assert forall|x: int| covers(seq![cur], x) <==> covers(s@.subrange(0, 1), x) by {}
        }
        while i < n
            invariant
                n == s@.len(),
                nonempty(s@),
                sorted_starts(s@),
                1 <= i <= n,
                cur.0 < cur.1,
                separated(out@),
                out@.len() > 0 ==> out@.last().1 < cur.0,
                forall|j: int| i <= j < n ==> cur.0 <= s@[j].0,
                forall|x: int| covers(out@.push(cur), x) <==> covers(s@.subrange(0, i as int), x),
            decreases n - i,
        {
            let nxt = s[i];
            let ghost before = out@.push(cur);
            assert(s@.subrange(0, i + 1) =~= s@.subrange(0, i as int).push(nxt));
            assert(nxt.0 < nxt.1);
            if nxt.1 < cur.1 {
                proof {
                    assert forall|x: int| covers(out@.push(cur), x) <==> covers(s@.subrange(0, i + 1), x) by {
                        lemma_push_covers(s@.subrange(0, i as int), nxt, x);
                        if in_range(nxt, x) {
                            assert(in_range(cur, x));
                            lemma_push_covers(out@, cur, x);
                        }
                    }
                }
            } else if nxt.0 <= cur.1 {
                let ghost oc = cur;
                cur = (cur.0, nxt.1);
                proof {
                    assert forall|x: int| covers(out@.push(cur), x) <==> covers(s@.subrange(0, i + 1), x) by {
                        lemma_push_covers(s@.subrange(0, i as int), nxt, x);
                        lemma_push_covers(out@, cur, x);
                        lemma_push_covers(out@, oc, x);
                    }
                }
            } else {
                let ghost oo = out@;
                out.push(cur);
                proof {
                    assert(separated(out@)) by {
                        assert forall|k: int| 0 <= k < out@.len() implies (#[trigger] out@[k]).0 < out@[k].1 by {
                            if k < oo.len() {
                                assert(out@[k] == oo[k]);
                            }
                        }
                        assert forall|k: int| 0 <= k < out@.len() - 1 implies #[trigger] gap_after(out@, k) by {
                            if k < oo.len() - 1 {
                                assert(gap_after(oo, k));
                            }
                        }
                    }
                }
                cur = nxt;
                proof {
                    assert forall|j: int| i + 1 <= j < n implies cur.0 <= s@[j].0 by {}
                    assert forall|x: int| covers(out@.push(cur), x) <==> covers(s@.subrange(0, i + 1), x) by {
                        lemma_push_covers(s@.subrange(0, i as int), nxt, x);
                        lemma_push_covers(out@, cur, x);
                        assert(out@ == before);
                    }
                }
            }
            i += 1;
        }
        let ghost oo = out@;
        out.push(cur);
        proof {
            assert(s@.subrange(0, n as int) =~= s@);
            assert forall|k: int| 0 <= k < out@.len() implies (#[trigger] out@[k]).0 < out@[k].1 by {
                if k < oo.len() {
                    assert(out@[k] == oo[k]);
                }
            }
            assert forall|k: int| 0 <= k < out@.len() - 1 implies #[trigger] gap_after(out@, k) by {
                if k < oo.len() - 1 {
                    assert(gap_after(oo, k));
                }
            }
        }
        *ranges = out;
    }

    /// The merged ranges that the sensors rule out, for every row from the
    /// lowest to the highest that any sensor reaches.
    pub fn get_ranges_for_each_y(&self) -> (r: Ranges)
        requires
            self.wf(),
            self@.len() > 0,
        ensures
            r.low == lowest(self@),
            -0x2000_0000 <= r.low <= 0x2000_0000,
            r.rows@.len() <= 0x4000_0001,
            r.rows@.len() == highest(self@) - lowest(self@) + 1,
            forall|k: int| 0 <= k < r.rows@.len() ==> is_merged((#[trigger] r.rows@[k])@, cov(self@, r.low + k)),
    {
        let ghost ss = self@;
        let n = self.input.len();
        let mut low: i64 = 0;
        let mut high: i64 = 0;
        let mut i: usize = 0;
        while i < n
            invariant
                ss == self@,
                self.wf(),
                n == ss.len(),
                i <= n,
                i > 0 ==> low == lowest(ss.subrange(0, i as int)) && high == highest(ss.subrange(0, i as int)),
                i > 0 ==> -0x2000_0000 <= low <= high <= 0x2000_0000,
            decreases n - i,
        {
            let (sc, bc) = (&self.input[i].0, &self.input[i].1);
            assert(ss[i as int] == ((sc.x() as int, sc.y() as int), (bc.x() as int, bc.y() as int)));
            let sx = sc.get_x() as i64;
            let sy = sc.get_y() as i64;
            let bx = bc.get_x() as i64;
            let by = bc.get_y() as i64;
            let d = (if sx >= bx { sx - bx } else { bx - sx }) + (if sy >= by { sy - by } else { by - sy });
            assert(small(ss[i as int].0.0) && small(ss[i as int].0.1) && small(ss[i as int].1.0) && small(ss[i as int].1.1));
            assert(d == reach(ss[i as int]));
            assert(ss.subrange(0, i + 1).drop_last() =~= ss.subrange(0, i as int));
            if i == 0 || sy - d < low {
                low = sy - d;
            }
            if i == 0 || sy + d > high {
                high = sy + d;
            }
            i += 1;
        }
        assert(ss.subrange(0, n as int) =~= ss);
        let count = (high - low + 1) as usize;
        let mut rows: Vec<Vec<(i64, i64)>> = Vec::new();
        let mut c: usize = 0;
        while c < count
            invariant
                c <= count,
                rows@.len() == c,
                forall|k: int| 0 <= k < c ==> (#[trigger] rows@[k])@.len() == 0,
            decreases count - c,
        {
            rows.push(Vec::new());
            c += 1;
        }
        let mut k: usize = 0;
        while k < n
            invariant
                ss == self@,
                self.wf(),
                n == ss.len(),
                k <= n,
                low == lowest(ss),
                high == highest(ss),
                -0x2000_0000 <= low <= high <= 0x2000_0000,
                count == high - low + 1,
                rows@.len() == count,
                forall|j: int| 0 <= j < count ==> (#[trigger] rows@[j])@ == cov(ss.subrange(0, k as int), low + j),
            decreases n - k,
        {
            let (sc, bc) = (&self.input[k].0, &self.input[k].1);
            assert(ss[k as int] == ((sc.x() as int, sc.y() as int), (bc.x() as int, bc.y() as int)));
            let sx = sc.get_x() as i64;
            let sy = sc.get_y() as i64;
            let bx = bc.get_x() as i64;
            let by = bc.get_y() as i64;
            let d = (if sx >= bx { sx - bx } else { bx - sx }) + (if sy >= by { sy - by } else { by - sy });
            assert(small(ss[k as int].0.0) && small(ss[k as int].0.1) && small(ss[k as int].1.0) && small(ss[k as int].1.1));
            let ghost pre = ss.subrange(0, k as int);
            let ghost nxt = ss.subrange(0, k + 1);
            assert(nxt.drop_last() =~= pre);
            assert(nxt.last() == ss[k as int]);
            proof {
                lemma_bounds(ss, k as int);
            }
            let mut y = sy - d;
            while y <= sy + d
                invariant
                    ss == self@,
                    n == ss.len(),
                    k < n,
                    nxt == ss.subrange(0, k + 1),
                    pre == ss.subrange(0, k as int),
                    nxt.drop_last() == pre,
                    nxt.last() == ss[k as int],
                    d == reach(ss[k as int]),
                    0 <= d <= 0x1000_0000,
                    small(sx as int),
                    sx == ss[k as int].0.0,
                    sy == ss[k as int].0.1,
                    low <= sy - d,
                    sy + d <= high,
                    -0x2000_0000 <= low <= high <= 0x2000_0000,
                    sy - d <= y <= sy + d + 1,
                    count == high - low + 1,
                    rows@.len() == count,
                    forall|j: int|
                        0 <= j < count ==> (#[trigger] rows@[j])@ == if sy - d <= low + j < y {
                            cov(nxt, low + j)
                        } else {
                            cov(pre, low + j)
                        },
                decreases sy + d + 1 - y,
            {
                let idx = (y - low) as usize;
                let w = d - (if y >= sy { y - sy } else { sy - y });
                assert(w == reach(ss[k as int]) - abs(y - ss[k as int].0.1));
                assert(0 <= w <= d);
                let mut row = copy_row(&rows[idx]);
                assert(row@ == cov(pre, y as int));
                row.push((sx - w, sx + w + 1));
                assert(cov(nxt, y as int) == cov(pre, y as int).push(((sx - w) as i64, (sx + w + 1) as i64)));
                assert(row@ == cov(nxt, y as int));
                let ghost before = rows@;
                rows.set(idx, row);
                proof {
                    assert forall|j: int| 0 <= j < count implies (#[trigger] rows@[j])@ == if sy - d <= low + j < y + 1 {
                        cov(nxt, low + j)
                    } else {
                        cov(pre, low + j)
                    } by {
                        if j != idx {
                            assert(rows@[j] == before[j]);
                        }
                    }
                }
                y += 1;
            }
            proof {
                assert forall|j: int| 0 <= j < count implies (#[trigger] rows@[j])@ == cov(nxt, low + j) by {
                    let yy = low + j;
                    if !(sy - d <= yy <= sy + d) {
                        assert(reach(ss[k as int]) - abs(yy - sy) < 0);
                    }
                }
            }
            k += 1;
        }
        assert(ss.subrange(0, n as int) =~= ss);
        let mut j: usize = 0;
        while j < count
            invariant
                ss == self@,
                self.wf(),
                count == rows@.len(),
                j <= count,
                forall|q: int| 0 <= q < j ==> is_merged((#[trigger] rows@[q])@, cov(ss, low + q)),
                forall|q: int| j <= q < count ==> (#[trigger] rows@[q])@ == cov(ss, low + q),
            decreases count - j,
        {
            let mut row = copy_row(&rows[j]);
            proof {
                lemma_cov_nonempty(ss, low + j);
            }
            Solver::merge_ranges(&mut row);
            let ghost before = rows@;
            rows.set(j, row);
            proof {
                assert forall|q: int| 0 <= q < count && q != j implies rows@[q] == before[q] by {}
            }
            j += 1;
        }
        Ranges { low, rows }
    }
}

proof fn lemma_bounds(ss: Seq<Pair>, k: int)
    requires
        0 <= k < ss.len(),
    ensures
        lowest(ss) <= ss[k].0.1 - reach(ss[k]),
        ss[k].0.1 + reach(ss[k]) <= highest(ss),
    decreases ss.len(),
{
    if k < ss.len() - 1 {
        lemma_bounds(ss.drop_last(), k);
    }
}

proof fn lemma_cov_bounded(ss: Seq<Pair>, y: int)
    requires
        all_small(ss),
    ensures
        forall|k: int| 0 <= k < cov(ss, y).len() ==> -0x2000_0000 <= (#[trigger] cov(ss, y)[k]).0 && cov(ss, y)[k].1 <= 0x2000_0000,
    decreases ss.len(),
{
    if ss.len() > 0 {
        let p = ss.last();
        assert(small(p.0.0) && small(p.0.1) && small(p.1.0) && small(p.1.1));
        assert(all_small(ss.drop_last())) by {
            assert forall|k: int| 0 <= k < ss.len() - 1 implies small((#[trigger] ss.drop_last()[k]).0.0) && small(ss.drop_last()[k].0.1) && small(ss.drop_last()[k].1.0) && small(ss.drop_last()[k].1.1) by {
                assert(ss.drop_last()[k] == ss[k]);
            }
        }
        lemma_cov_bounded(ss.drop_last(), y);
        let prev = cov(ss.drop_last(), y);
        let w = reach(p) - abs(y - p.0.1);
        assert(reach(p) <= 0x1000_0000);
        if w >= 0 {
            let e = ((p.0.0 - w) as i64, (p.0.0 + w + 1) as i64);
            assert(cov(ss, y) == prev.push(e));
            assert forall|k: int| 0 <= k < cov(ss, y).len() implies -0x2000_0000 <= (#[trigger] cov(ss, y)[k]).0 && cov(ss, y)[k].1 <= 0x2000_0000 by {
                if k < prev.len() {
                    assert(cov(ss, y)[k] == prev[k]);
                }
            }
        } else {
            assert(cov(ss, y) == prev);
        }
    }
}

/// A merged form of ranges within bounds stays within them.
proof fn lemma_merged_bounded(m: Seq<(i64, i64)>, rs: Seq<(i64, i64)>)
    requires
        is_merged(m, rs),
        forall|k: int| 0 <= k < rs.len() ==> -0x2000_0000 <= (#[trigger] rs[k]).0 && rs[k].1 <= 0x2000_0000,
    ensures
        bounded(m),
{
    assert forall|k: int| 0 <= k < m.len() implies -0x4000_0000 <= (#[trigger] m[k]).0 <= 0x4000_0000 && -0x4000_0000 <= m[k].1 <= 0x4000_0000 by {
        assert(m[k].0 < m[k].1);
        assert(in_range(m[k], m[k].0 as int));
        assert(covers(m, m[k].0 as int));
        let j = choose|j: int| 0 <= j < rs.len() && in_range(#[trigger] rs[j], m[k].0 as int);
        assert(in_range(m[k], m[k].1 - 1));
        assert(covers(m, m[k].1 - 1));
        let i = choose|i: int| 0 <= i < rs.len() && in_range(#[trigger] rs[i], m[k].1 - 1);
    }
}

impl Solver {
    /// The places of the sensors and beacons, each once.
    pub fn get_num_of_special_fields(&self) -> (r: Vec<(i64, i64)>)
        requires
            self.wf(),
        ensures
            r@ == specials(self@),
    {
        let ghost ss = self@;
        let mut out: Vec<(i64, i64)> = Vec::new();
        let mut i: usize = 0;
        assert(ss.subrange(0, 0) =~= Seq::<Pair>::empty());
        while i < self.input.len()
            invariant
                ss == self@,
                self.wf(),
                i <= ss.len(),
                out@ == specials(ss.subrange(0, i as int)),
            decreases ss.len() - i,
        {
            let (sc, bc) = (&self.input[i].0, &self.input[i].1);
            assert(ss[i as int] == ((sc.x() as int, sc.y() as int), (bc.x() as int, bc.y() as int)));
            assert(small(ss[i as int].0.0) && small(ss[i as int].0.1) && small(ss[i as int].1.0) && small(ss[i as int].1.1));
            assert(ss.subrange(0, i + 1).drop_last() =~= ss.subrange(0, i as int));
            let s = (sc.get_x() as i64, sc.get_y() as i64);
            let b = (bc.get_x() as i64, bc.get_y() as i64);
            if !holds_point(&out, s) {
                out.push(s);
            }
            if !holds_point(&out, b) {
                out.push(b);
            }
            i += 1;
        }
        assert(ss.subrange(0, i as int) =~= ss);
        out
    }

    /// How many places of row `y` cannot hold a beacon: those the sensors
    /// rule out, less the sensors and beacons on the row.
    pub fn get_num_of_covered_position(y: i64, ranges: &Ranges, special_field_num: &Vec<(i64, i64)>) -> (r: i64)
        requires
            -0x2000_0000 <= ranges.low <= 0x2000_0000,
            ranges.rows@.len() <= 0x4000_0001,
            ranges.low <= y < ranges.low + ranges.rows@.len(),
            bounded(ranges.rows@[y - ranges.low]@),
            i64::MIN <= total_len(ranges.rows@[y - ranges.low]@) - on_row(special_field_num@, y as int) <= i64::MAX,
        ensures
            r == total_len(ranges.rows@[y - ranges.low]@) - on_row(special_field_num@, y as int),
    {
        let idx = (y - ranges.low) as usize;
        assert(idx as int == y - ranges.low);
        let row = &ranges.rows[idx];
        let total = sum_lengths(row);
        let mut c: i128 = 0;
        let mut i: usize = 0;
        let sp = special_field_num;
        assert(sp@.subrange(0, 0) =~= Seq::<(i64, i64)>::empty());
        while i < sp.len()
            invariant
                i <= sp@.len(),
                i <= usize::MAX,
                c == on_row(sp@.subrange(0, i as int), y as int),
                0 <= c <= i,
            decreases sp@.len() - i,
        {
            assert(sp@.subrange(0, i + 1).drop_last() =~= sp@.subrange(0, i as int));
            if sp[i].1 == y {
                c = c + 1;
            }
            i += 1;
        }
        assert(sp@.subrange(0, i as int) =~= sp@);
        (total - c) as i64
    }

    /// The place of the first row in `0..4000000` with a gap of one place:
    /// the column right after the first range that leaves one.
    pub fn get_hole(ranges: &Ranges) -> (r: Coordinates)
        requires
            exists|y: int| is_first_hole(ranges.low as int, rows_view(ranges.rows@), y),
            -0x2000_0000 <= ranges.low <= 0x2000_0000,
            ranges.rows@.len() <= 0x4000_0001,
            forall|k: int| 0 <= k < ranges.rows@.len() ==> bounded((#[trigger] ranges.rows@[k])@),
        ensures
            -0x4000_0000 <= r.x() <= 0x4000_0000,
            0 <= r.y() < 4000000,
            ({
                let y = choose|y: int| is_first_hole(ranges.low as int, rows_view(ranges.rows@), y);
                let m = row_of(ranges.low as int, rows_view(ranges.rows@), y);
                r.x() == m[first_gap(m)].1 && r.y() == y
            }),
    {
        let ghost rv = rows_view(ranges.rows@);
        let ghost low = ranges.low as int;
        let ghost yw = choose|y: int| is_first_hole(low, rv, y);
        let n = ranges.rows.len() as i64;
        let start: i64 = if ranges.low > 0 { ranges.low } else { 0 };
        let end: i64 = if ranges.low + n < 4000000 { ranges.low + n } else { 4000000 };
        proof {
            assert forall|j: int| 0 <= j < start implies !has_gap(#[trigger] row_of(low, rv, j)) by {
                assert(row_of(low, rv, j).len() == 0);
            }
        }
        let mut y: i64 = start;
        while y < end
            invariant
                rv == rows_view(ranges.rows@),
                low == ranges.low,
                n == rv.len(),
                is_first_hole(low, rv, yw),
                -0x2000_0000 <= low <= 0x2000_0000,
                n <= 0x4000_0001,
                0 <= start <= y,
                start >= low,
                end <= low + n,
                end <= 4000000,
                forall|k: int| 0 <= k < ranges.rows@.len() ==> bounded((#[trigger] ranges.rows@[k])@),
                forall|j: int| 0 <= j < y ==> !has_gap(#[trigger] row_of(low, rv, j)),
            decreases end - y,
        {
            let idx = (y - ranges.low) as usize;
            assert(idx as int == y - low);
            let row = &ranges.rows[idx];
            assert(rv[idx as int] == ranges.rows@[idx as int]@);
            assert(row@ == row_of(low, rv, y as int));
            if row.len() > 1 {
                let mut i: usize = 0;
                let rl = row.len();
                while i < rl - 1
                    invariant
                        rl == row@.len(),
                        rv == rows_view(ranges.rows@),
                        low == ranges.low,
                        0 <= y < 4000000,
                        is_first_hole(low, rv, yw),
                        forall|j: int| 0 <= j < y ==> !has_gap(#[trigger] row_of(low, rv, j)),
                        row@ == row_of(low, rv, y as int),
                        bounded(row@),
                        row@.len() > 1,
                        i + 1 <= row@.len(),
                        forall|j: int| 0 <= j < i ==> !#[trigger] gap_at(row@, j),
                    decreases row@.len() - i,
                {
                    if row[i + 1].0 - row[i].1 == 1 {
                        proof {
                            assert(gap_at(row@, i as int));
                            assert(is_first_hole(low, rv, y as int));
                            if yw < y {
                                assert(!has_gap(row_of(low, rv, yw)));
                            } else if yw > y {
                                assert(!has_gap(row_of(low, rv, y as int)));
                            }
                            let fg = first_gap(row@);
                            if fg < i {
                                assert(!gap_at(row@, fg));
                            } else if fg > i {
                                assert(gap_at(row@, i as int));
                            }
                        }
                        assert(-0x4000_0000 <= row@[i as int].1 <= 0x4000_0000);
                        return Coordinates::new(row[i].1 as isize, y as isize);
                    }
                    i += 1;
                }
                proof {
                    assert forall|j: int| #[trigger] gap_at(row@, j) implies false by {}
                }
            }
            y += 1;
        }
        proof {
            if yw < end {
            } else {
                assert(row_of(low, rv, yw).len() == 0);
            }
        }
        Coordinates::new(0, 0)
    }
}

proof fn lemma_rows_bounded(ss: Seq<Pair>, low: int, rv: Seq<Seq<(i64, i64)>>)
    requires
        all_small(ss),
        forall|k: int| 0 <= k < rv.len() ==> is_merged(#[trigger] rv[k], cov(ss, low + k)),
    ensures
        forall|k: int| 0 <= k < rv.len() ==> bounded(#[trigger] rv[k]),
{
    assert forall|k: int| 0 <= k < rv.len() implies bounded(#[trigger] rv[k]) by {
        lemma_cov_bounded(ss, low + k);
        lemma_merged_bounded(rv[k], cov(ss, low + k));
    }
}

proof fn lemma_rows_agree(ss: Seq<Pair>, low: int, rv: Seq<Seq<(i64, i64)>>)
    requires
        ss.len() > 0,
        all_small(ss),
        low == lowest(ss),
        rv.len() == highest(ss) - lowest(ss) + 1,
        forall|k: int| 0 <= k < rv.len() ==> is_merged(#[trigger] rv[k], cov(ss, low + k)),
        exists|y: int| is_hole_row(ss, y),
    ensures
        forall|y: int| #[trigger] row_of(low, rv, y) == merged(ss, y),
        exists|y: int| is_first_hole(low, rv, y),
        (choose|y: int| is_first_hole(low, rv, y)) == hole_row(ss),
{
    assert forall|y: int| #[trigger] row_of(low, rv, y) == merged(ss, y) by {
        if low <= y < low + rv.len() {
            assert(is_merged(rv[y - low], cov(ss, low + (y - low))));
            lemma_merged_is(ss, y, rv[y - low]);
        } else {
            lemma_cov_outside(ss, y);
            assert(is_merged(Seq::<(i64, i64)>::empty(), cov(ss, y))) by {
                assert forall|x: int| covers(Seq::<(i64, i64)>::empty(), x) <==> covers(cov(ss, y), x) by {}
            }
            lemma_merged_is(ss, y, Seq::empty());
        }
    }
    let yh = choose|y: int| is_hole_row(ss, y);
    assert(is_first_hole(low, rv, yh)) by {
        assert(row_of(low, rv, yh) == merged(ss, yh));
        assert forall|j: int| 0 <= j < yh implies !has_gap(#[trigger] row_of(low, rv, j)) by {
            assert(row_of(low, rv, j) == merged(ss, j));
        }
    }
    let a = choose|y: int| is_first_hole(low, rv, y);
    let b = hole_row(ss);
    assert(is_hole_row(ss, a)) by {
        assert(row_of(low, rv, a) == merged(ss, a));
        assert forall|j: int| 0 <= j < a implies !has_gap(#[trigger] merged(ss, j)) by {
            assert(row_of(low, rv, j) == merged(ss, j));
        }
    }
    if a < b {
        assert(!has_gap(merged(ss, a)));
    } else if b < a {
        assert(row_of(low, rv, b) == merged(ss, b));
        assert(!has_gap(row_of(low, rv, b)));
    }
}

impl ChallengeSolver for Solver {
    open spec fn solvable_a(&self) -> bool {
        &&& self.wf()
        &&& self@.len() > 0
        &&& lowest(self@) <= 2000000 <= highest(self@)
        &&& i64::MIN <= total_len(merged(self@, 2000000)) - on_row(specials(self@), 2000000) <= i64::MAX
        &&& exists|y: int| is_hole_row(self@, y)
    }

    open spec fn solvable_b(&self) -> bool {
        &&& self.wf()
        &&& self@.len() > 0
        &&& lowest(self@) <= 2000000 <= highest(self@)
        &&& i64::MIN <= total_len(merged(self@, 2000000)) - on_row(specials(self@), 2000000) <= i64::MAX
        &&& exists|y: int| is_hole_row(self@, y)
    }

    open spec fn answer_a(&self) -> Seq<char> {
        signed_decimal(total_len(merged(self@, 2000000)) - on_row(specials(self@), 2000000))
    }

    open spec fn answer_b(&self) -> Seq<char> {
        signed_decimal(tuning(self@))
    }

    /// How many places of row 2000000 cannot hold a beacon.
    fn get_part_a_result(&self) -> (r: String) {
        let ranges = self.get_ranges_for_each_y();
        let special = self.get_num_of_special_fields();
        let ghost ss = self@;
        let ghost k = 2000000 - ranges.low;
        proof {
            lemma_merged_is(ss, 2000000, ranges.rows@[k]@);
            lemma_cov_bounded(ss, 2000000);
            lemma_merged_bounded(ranges.rows@[k]@, cov(ss, 2000000));
        }
        i64_to_string(Solver::get_num_of_covered_position(2000000, &ranges, &special))
    }

    /// The tuning frequency of the one place no sensor rules out.
    fn get_part_b_result(&self) -> (r: String) {
        let ranges = self.get_ranges_for_each_y();
        let ghost ss = self@;
        let ghost low = ranges.low as int;
        let ghost rv = rows_view(ranges.rows@);
        assert forall|k: int| 0 <= k < rv.len() implies is_merged(#[trigger] rv[k], cov(ss, low + k)) by {
            assert(rv[k] == ranges.rows@[k]@);
        }
        proof {
            lemma_rows_agree(ss, low, rv);
            lemma_rows_bounded(ss, low, rv);
            assert forall|k: int| 0 <= k < ranges.rows@.len() implies bounded((#[trigger] ranges.rows@[k])@) by {
                assert(rv[k] == ranges.rows@[k]@);
            }
        }
        let c = Solver::get_hole(&ranges);
        let x = c.get_x() as i64;
        let y = c.get_y() as i64;
        i64_to_string(x * 4000000 + y)
    }
}

} // verus!
