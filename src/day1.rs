use vstd::prelude::*;
use crate::text::{
    decimal, parse_unsigned, unsigned_value, trimmed_text_lines, trimmed_text_of, u64_to_string,
    views,
};
use crate::ChallengeSolver;

verus! {

/// The elves' inventories: one group of calorie counts per elf.
pub struct Day1 {
    input: Vec<Vec<u32>>,
}

pub open spec fn line_ok(t: Seq<char>) -> bool {
    t.len() == 0 || (unsigned_value(t) is Some && unsigned_value(t)->0 <= u32::MAX)
}

/// A blank line starts a new group; any other line adds its number to the
/// current group.
pub open spec fn groups_of(ts: Seq<Seq<char>>) -> Seq<Seq<u32>>
    decreases ts.len(),
{
    if ts.len() == 0 {
        seq![Seq::empty()]
    } else {
        let prev = groups_of(ts.drop_last());
        let t = ts.last();
        if t.len() == 0 {
            prev.push(Seq::empty())
        } else {
            prev.update(prev.len() - 1, prev.last().push(unsigned_value(t)->0 as u32))
        }
    }
}

pub open spec fn group_sum(g: Seq<u32>) -> nat
    decreases g.len(),
{
    if g.len() == 0 {
        0
    } else {
        group_sum(g.drop_last()) + g.last() as nat
    }
}

/// `r` is the largest group total.
pub open spec fn is_max_total(r: nat, gs: Seq<Seq<u32>>) -> bool {
    (exists|k: int| 0 <= k < gs.len() && r == group_sum(#[trigger] gs[k])) && forall|k: int|
        0 <= k < gs.len() ==> group_sum(#[trigger] gs[k]) <= r
}

/// `r` is the sum of the three largest group totals.
pub open spec fn is_top_three_total(r: nat, gs: Seq<Seq<u32>>) -> bool {
    (exists|a: int, b: int, c: int|
        #![trigger group_sum(gs[a]), group_sum(gs[b]), group_sum(gs[c])]
        0 <= a < gs.len() && 0 <= b < gs.len() && 0 <= c < gs.len() && a != b && b != c && a
            != c && r == group_sum(gs[a]) + group_sum(gs[b]) + group_sum(gs[c])) && forall|
        a: int,
        b: int,
        c: int,
    |
        #![trigger group_sum(gs[a]), group_sum(gs[b]), group_sum(gs[c])]
        0 <= a < gs.len() && 0 <= b < gs.len() && 0 <= c < gs.len() && a != b && b != c && a
            != c ==> group_sum(gs[a]) + group_sum(gs[b]) + group_sum(gs[c]) <= r
}

pub open spec fn max_total(gs: Seq<Seq<u32>>) -> nat {
    choose|r: nat| is_max_total(r, gs)
}

pub open spec fn top_three_total(gs: Seq<Seq<u32>>) -> nat {
    choose|r: nat| is_top_three_total(r, gs)
}

impl Day1 {
    pub closed spec fn view(&self) -> Seq<Seq<u32>> {
        self.input@.map_values(|g: Vec<u32>| g@)
    }

    /// Reads one calorie count per line, groups separated by blank lines.
    pub fn new(input: String) -> (r: Day1)
        requires
            forall|ts: Seq<Seq<char>>|
                trimmed_text_of(ts, input@) ==> forall|k: int|
                    0 <= k < ts.len() ==> line_ok(#[trigger] ts[k]),
        ensures
            exists|ts: Seq<Seq<char>>| trimmed_text_of(ts, input@) && r@ == groups_of(ts),
    {
        let lines = trimmed_text_lines(input.as_str());
        Day1::from_lines(&lines)
    }

    /// Reads the input as `new` does, or gives `None` where some line is
    /// neither blank nor a calorie count.
    pub fn try_new(input: String) -> (r: Option<Day1>)
        ensures
            r is None ==> exists|ts: Seq<Seq<char>>|
                trimmed_text_of(ts, input@) && exists|k: int| 0 <= k < ts.len() && !line_ok(#[trigger] ts[k]),
            r matches Some(d) ==> exists|ts: Seq<Seq<char>>|
                trimmed_text_of(ts, input@) && (forall|k: int| 0 <= k < ts.len() ==> line_ok(#[trigger] ts[k]))
                    && d@ == groups_of(ts),
    {
        let lines = trimmed_text_lines(input.as_str());
        let ghost ts = views(lines@);
        let mut i: usize = 0;
        while i < lines.len()
            invariant
                i <= lines@.len(),
                ts == views(lines@),
                trimmed_text_of(ts, input@),
                forall|k: int| 0 <= k < i ==> line_ok(#[trigger] ts[k]),
            decreases lines@.len() - i,
        {
            assert(ts[i as int] == lines@[i as int]@);
            if !line_fits(&lines[i]) {
                assert(!line_ok(ts[i as int]));
                assert(exists|k: int| 0 <= k < ts.len() && !line_ok(#[trigger] ts[k]));
                return None;
            }
            i += 1;
        }
        Some(Day1::from_lines(&lines))
    }

    fn from_lines(lines: &Vec<Vec<char>>) -> (r: Day1)
        requires
            forall|k: int| 0 <= k < lines@.len() ==> line_ok(#[trigger] views(lines@)[k]),
        ensures
            r@ == groups_of(views(lines@)),
    {
        let ghost ts = views(lines@);
        let mut acc: Vec<Vec<u32>> = Vec::new();
        acc.push(Vec::new());
        let mut i: usize = 0;
        assert(ts.subrange(0, 0) =~= Seq::<Seq<char>>::empty());
        assert(acc@.map_values(|g: Vec<u32>| g@) =~= groups_of(ts.subrange(0, 0)));
        while i < lines.len()
            invariant
                i <= lines@.len(),
                ts == views(lines@),
                acc@.len() >= 1,
                forall|k: int| 0 <= k < ts.len() ==> line_ok(#[trigger] ts[k]),
                acc@.map_values(|g: Vec<u32>| g@) == groups_of(ts.subrange(0, i as int)),
            decreases lines@.len() - i,
        {
            let line = &lines[i];
            assert(ts.subrange(0, i + 1).drop_last() =~= ts.subrange(0, i as int));
            assert(line_ok(ts[i as int]));
            let ghost prev = acc@.map_values(|g: Vec<u32>| g@);
            if line.len() == 0 {
                acc.push(Vec::new());
                assert(acc@.map_values(|g: Vec<u32>| g@) =~= prev.push(Seq::empty()));
            } else {
                let v = parse_unsigned(line);
                let n = match v {
                    Some(n) => n as u32,
                    None => 0,
                };
                let mut g = acc.pop().unwrap();
                g.push(n);
                acc.push(g);
                assert(acc@.map_values(|g: Vec<u32>| g@) =~= prev.update(
                    prev.len() - 1,
                    prev.last().push(unsigned_value(ts[i as int])->0 as u32),
                ));
            }
            i += 1;
        }
        assert(ts.subrange(0, lines@.len() as int) =~= ts);
        Day1 { input: acc }
    }
}

fn line_fits(t: &Vec<char>) -> (r: bool)
    ensures
        r == line_ok(t@),
{
    if t.len() == 0 {
        true
    } else {
        match parse_unsigned(t) {
            Some(v) => v <= u32::MAX as u64,
            None => false,
        }
    }
}

proof fn lemma_group_sum_prefix(g: Seq<u32>, i: int)
    requires
        0 <= i <= g.len(),
    ensures
        group_sum(g.subrange(0, i)) <= group_sum(g),
    decreases g.len() - i,
{
    if i < g.len() {
        assert(g.subrange(0, i + 1).drop_last() =~= g.subrange(0, i));
        lemma_group_sum_prefix(g, i + 1);
    } else {
        assert(g.subrange(0, i) =~= g);
    }
}

/// The total of one group.
fn total(g: &Vec<u32>) -> (r: u64)
    requires
        group_sum(g@) <= u32::MAX,
    ensures
        r == group_sum(g@),
{
    let mut s: u64 = 0;
    let mut i: usize = 0;
    while i < g.len()
        invariant
            i <= g@.len(),
            group_sum(g@) <= u32::MAX,
            s == group_sum(g@.subrange(0, i as int)),
        decreases g@.len() - i,
    {
        proof {
            assert(g@.subrange(0, i + 1).drop_last() =~= g@.subrange(0, i as int));
            lemma_group_sum_prefix(g@, i + 1);
        }
        s = s + g[i] as u64;
        i += 1;
    }
    assert(g@.subrange(0, i as int) =~= g@);
    s
}

/// The index of a largest value, leaving out the indices `ex1` and `ex2`.
fn best_index(s: &Vec<u64>, ex1: usize, ex2: usize) -> (r: usize)
    requires
        s@.len() >= 3 || (s@.len() >= 1 && ex1 >= s@.len() && ex2 >= s@.len()),
    ensures
        r < s@.len(),
        r != ex1,
        r != ex2,
        forall|j: int| 0 <= j < s@.len() && j != ex1 && j != ex2 ==> s@[j] <= s@[r as int],
{
    let mut best: usize = s.len();
    let mut i: usize = 0;
    while i < s.len()
        invariant
            i <= s@.len(),
            best == s@.len() || (best < i && best != ex1 && best != ex2),
            best == s@.len() ==> (i == 0 || (i == 1 && (0 == ex1 || 0 == ex2)) || (i == 2 && ((0
                == ex1 && 1 == ex2) || (0 == ex2 && 1 == ex1)))),
            s@.len() >= 3 || (s@.len() >= 1 && ex1 >= s@.len() && ex2 >= s@.len()),
            best < s@.len() ==> forall|j: int|
                0 <= j < i && j != ex1 && j != ex2 ==> s@[j] <= s@[best as int],
        decreases s@.len() - i,
    {
        if i != ex1 && i != ex2 && (best == s.len() || s[i] > s[best]) {
            best = i;
        }
        i += 1;
    }
    best
}

proof fn lemma_top_three(s: Seq<u64>, a: int, b: int, c: int, x: int, y: int, z: int)
    requires
        0 <= x < s.len() && 0 <= y < s.len() && 0 <= z < s.len(),
        x != y && y != z && x != z,
        forall|j: int| 0 <= j < s.len() ==> s[j] <= s[a],
        forall|j: int| 0 <= j < s.len() && j != a ==> s[j] <= s[b],
        forall|j: int| 0 <= j < s.len() && j != a && j != b ==> s[j] <= s[c],
    ensures
        s[x] + s[y] + s[z] <= s[a] + s[b] + s[c],
{
    assert(s[x] <= s[a] && s[y] <= s[a] && s[z] <= s[a]);
    assert(x != a ==> s[x] <= s[b]);
    assert(y != a ==> s[y] <= s[b]);
    assert(z != a ==> s[z] <= s[b]);
    assert(x != a && x != b ==> s[x] <= s[c]);
    assert(y != a && y != b ==> s[y] <= s[c]);
    assert(z != a && z != b ==> s[z] <= s[c]);
}

impl Day1 {
    /// The group totals, in order.
    fn totals(&self) -> (r: Vec<u64>)
        requires
            forall|k: int| 0 <= k < self@.len() ==> group_sum(#[trigger] self@[k]) <= u32::MAX,
        ensures
            r@.len() == self@.len(),
            forall|k: int| 0 <= k < r@.len() ==> r@[k] == group_sum(#[trigger] self@[k]),
    {
        let mut r: Vec<u64> = Vec::new();
        let mut i: usize = 0;
        while i < self.input.len()
            invariant
                i <= self@.len(),
                self@.len() == self.input@.len(),
                forall|k: int| 0 <= k < self@.len() ==> group_sum(#[trigger] self@[k]) <= u32::MAX,
                r@.len() == i,
                forall|k: int| 0 <= k < i ==> r@[k] == group_sum(#[trigger] self@[k]),
            decreases self.input@.len() - i,
        {
            assert(self@[i as int] == self.input@[i as int]@);
            r.push(total(&self.input[i]));
            i += 1;
        }
        r
    }
}

impl ChallengeSolver for Day1 {
    open spec fn solvable_a(&self) -> bool {
        self@.len() >= 1 && forall|k: int|
            0 <= k < self@.len() ==> group_sum(#[trigger] self@[k]) <= u32::MAX
    }

    open spec fn solvable_b(&self) -> bool {
        self@.len() >= 3 && forall|k: int|
            0 <= k < self@.len() ==> group_sum(#[trigger] self@[k]) <= u32::MAX
    }

    open spec fn answer_a(&self) -> Seq<char> {
        decimal(max_total(self@))
    }

    open spec fn answer_b(&self) -> Seq<char> {
        decimal(top_three_total(self@))
    }

    /// The largest total that one elf carries.
    fn get_part_a_result(&self) -> (r: String) {
        let sums = self.totals();
        let n = sums.len();
        let a = best_index(&sums, n, n);
        let ghost gs = self@;
        let ghost v = sums@[a as int] as nat;
        assert(v == group_sum(gs[a as int]));
        assert forall|k: int| 0 <= k < gs.len() implies group_sum(#[trigger] gs[k]) <= v by {
            assert(sums@[k] == group_sum(gs[k]));
        }
        assert(is_max_total(v, gs));
        assert(max_total(gs) == v) by {
            let m = max_total(gs);
            let k = choose|k: int| 0 <= k < gs.len() && m == group_sum(#[trigger] gs[k]);
        }
        u64_to_string(sums[a])
    }

    /// The total that the three best-provided elves carry.
    #[verifier::rlimit(40)]
    fn get_part_b_result(&self) -> (r: String) {
        let sums = self.totals();
        let n = sums.len();
        let a = best_index(&sums, n, n);
        let b = best_index(&sums, a, n);
        let c = best_index(&sums, a, b);
        let ghost gs = self@;
        assert(sums@[a as int] == group_sum(gs[a as int]));
        assert(sums@[b as int] == group_sum(gs[b as int]));
        assert(sums@[c as int] == group_sum(gs[c as int]));
        let t = sums[a] + sums[b] + sums[c];
        assert(is_top_three_total(t as nat, gs)) by {
            assert(t == group_sum(gs[a as int]) + group_sum(gs[b as int]) + group_sum(gs[c as int]));
            assert forall|x: int, y: int, z: int|
                #![trigger group_sum(gs[x]), group_sum(gs[y]), group_sum(gs[z])]
                0 <= x < gs.len() && 0 <= y < gs.len() && 0 <= z < gs.len() && x != y && y != z
                    && x != z implies group_sum(gs[x]) + group_sum(gs[y]) + group_sum(gs[z]) <= t by {
                assert(sums@[x] == group_sum(gs[x]));
                assert(sums@[y] == group_sum(gs[y]));
                assert(sums@[z] == group_sum(gs[z]));
                lemma_top_three(sums@, a as int, b as int, c as int, x, y, z);
            }
        }
        assert(top_three_total(gs) == t) by {
            let m = top_three_total(gs);
            let (x, y, z) = choose|x: int, y: int, z: int|
                #![trigger group_sum(gs[x]), group_sum(gs[y]), group_sum(gs[z])]
                0 <= x < gs.len() && 0 <= y < gs.len() && 0 <= z < gs.len() && x != y && y != z
                    && x != z && m == group_sum(gs[x]) + group_sum(gs[y]) + group_sum(gs[z]);
        }
        u64_to_string(t)
    }
}

} // verus!
