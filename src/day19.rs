use vstd::prelude::*;
use crate::text::{decimal, non_empty, non_empty_lines, runs, trimmed_lines_of, u64_to_string, unsigned_numbers, unsigned_values, views};
use crate::ChallengeSolver;

verus! {

/// The robot costs of a blueprint.
#[derive(Clone, Copy)]
pub struct Blueprint {
    pub orebot_ore_cost: u64,
    pub claybot_ore_cost: u64,
    pub obsibot_ore_cost: u64,
    pub obsibot_clay_cost: u64,
    pub geobot_ore_cost: u64,
    pub geobot_obsidian_cost: u64,
    pub max_ore_cost: u64,
}

/// The minute, the resources and the robots.
#[derive(Clone, Copy)]
pub struct Savepoint {
    pub time: u64,
    pub ore: u64,
    pub clay: u64,
    pub obsidian: u64,
    pub geode: u64,
    pub orebots: u64,
    pub claybots: u64,
    pub obsibots: u64,
    pub geobots: u64,
}

/// The blueprints, in order.
pub struct Solver {
    input: Vec<Blueprint>,
}

/// One minute of collecting.
pub open spec fn grown(s: Savepoint) -> Savepoint {
    Savepoint {
        time: (s.time + 1) as u64,
        ore: (s.ore + s.orebots) as u64,
        clay: (s.clay + s.claybots) as u64,
        obsidian: (s.obsidian + s.obsibots) as u64,
        geode: (s.geode + s.geobots) as u64,
        ..s
    }
}

pub open spec fn can_geo(b: Blueprint, s: Savepoint) -> bool {
    s.ore >= b.geobot_ore_cost && s.obsidian >= b.geobot_obsidian_cost
}

pub open spec fn can_obsi(b: Blueprint, s: Savepoint) -> bool {
    s.obsibots < b.geobot_obsidian_cost && s.ore >= b.obsibot_ore_cost && s.clay >= b.obsibot_clay_cost
}

pub open spec fn can_clay(b: Blueprint, s: Savepoint) -> bool {
    s.claybots < b.obsibot_clay_cost && s.ore >= b.claybot_ore_cost
}

pub open spec fn can_ore(b: Blueprint, s: Savepoint) -> bool {
    s.orebots < b.max_ore_cost && s.ore >= b.orebot_ore_cost
}

pub open spec fn with_geo(b: Blueprint, s: Savepoint) -> Savepoint {
    let g = grown(s);
    Savepoint { ore: (g.ore - b.geobot_ore_cost) as u64, obsidian: (g.obsidian - b.geobot_obsidian_cost) as u64, geobots: (g.geobots + 1) as u64, ..g }
}

pub open spec fn with_obsi(b: Blueprint, s: Savepoint) -> Savepoint {
    let g = grown(s);
    Savepoint { ore: (g.ore - b.obsibot_ore_cost) as u64, clay: (g.clay - b.obsibot_clay_cost) as u64, obsibots: (g.obsibots + 1) as u64, ..g }
}

pub open spec fn with_clay(b: Blueprint, s: Savepoint) -> Savepoint {
    let g = grown(s);
    Savepoint { ore: (g.ore - b.claybot_ore_cost) as u64, claybots: (g.claybots + 1) as u64, ..g }
}

pub open spec fn with_ore(b: Blueprint, s: Savepoint) -> Savepoint {
    let g = grown(s);
    Savepoint { ore: (g.ore - b.orebot_ore_cost) as u64, orebots: (g.orebots + 1) as u64, ..g }
}

pub open spec fn max(a: int, b: int) -> int {
    if a >= b {
        a
    } else {
        b
    }
}

/// The most geodes open at the time limit, over every way of spending the
/// minutes: a geode robot is built whenever it can be; otherwise an
/// obsidian, clay or ore robot (each only while more of them can be of use)
/// or none.
pub open spec fn max_geodes(b: Blueprint, limit: int, s: Savepoint) -> int
    decreases limit - s.time
        when limit <= 64
{
    if s.time >= limit {
        s.geode as int
    } else if can_geo(b, s) {
        max_geodes(b, limit, with_geo(b, s))
    } else {
        let o = if can_obsi(b, s) { max_geodes(b, limit, with_obsi(b, s)) } else { 0 };
        let c = if can_clay(b, s) { max_geodes(b, limit, with_clay(b, s)) } else { 0 };
        let r = if can_ore(b, s) { max_geodes(b, limit, with_ore(b, s)) } else { 0 };
        max(max(o, c), max(r, max_geodes(b, limit, grown(s))))
    }
}

pub open spec fn initial() -> Savepoint {
    Savepoint { time: 0, ore: 0, clay: 0, obsidian: 0, geode: 0, orebots: 1, claybots: 0, obsibots: 0, geobots: 0 }
}

/// The counts stay within what the minutes allow.
pub open spec fn sane(s: Savepoint) -> bool {
    &&& s.time <= 32
    &&& s.orebots <= s.time + 1 && s.claybots <= s.time && s.obsibots <= s.time && s.geobots <= s.time
    &&& s.ore <= 40 * s.time && s.clay <= 40 * s.time && s.obsidian <= 40 * s.time && s.geode <= 40 * s.time
}

fn grow(s: Savepoint) -> (r: Savepoint)
    requires
        sane(s),
        s.time < 32,
    ensures
        r == grown(s),
        sane(r),
{
    Savepoint {
        time: s.time + 1,
        ore: s.ore + s.orebots,
        clay: s.clay + s.claybots,
        obsidian: s.obsidian + s.obsibots,
        geode: s.geode + s.geobots,
        ..s
    }
}

/// The most geodes open at minute `time_limit`.
fn run_simulation(b: &Blueprint, time_limit: u64, s: Savepoint) -> (r: u64)
    requires
        time_limit <= 32,
        sane(s),
        s.time <= time_limit,
    ensures
        r == max_geodes(*b, time_limit as int, s),
        r <= 40 * 32,
    decreases time_limit - s.time,
{
    if s.time >= time_limit {
        return s.geode;
    }
    let g = grow(s);
    if s.ore >= b.geobot_ore_cost && s.obsidian >= b.geobot_obsidian_cost {
        let n = Savepoint { ore: g.ore - b.geobot_ore_cost, obsidian: g.obsidian - b.geobot_obsidian_cost, geobots: g.geobots + 1, ..g };
        return run_simulation(b, time_limit, n);
    }
    let mut best = run_simulation(b, time_limit, g);
    if s.obsibots < b.geobot_obsidian_cost && s.ore >= b.obsibot_ore_cost && s.clay >= b.obsibot_clay_cost {
        let n = Savepoint { ore: g.ore - b.obsibot_ore_cost, clay: g.clay - b.obsibot_clay_cost, obsibots: g.obsibots + 1, ..g };
        let v = run_simulation(b, time_limit, n);
        if v > best {
            best = v;
        }
    }
    if s.claybots < b.obsibot_clay_cost && s.ore >= b.claybot_ore_cost {
        let n = Savepoint { ore: g.ore - b.claybot_ore_cost, claybots: g.claybots + 1, ..g };
        let v = run_simulation(b, time_limit, n);
        if v > best {
            best = v;
        }
    }
    if s.orebots < b.max_ore_cost && s.ore >= b.orebot_ore_cost {
        let n = Savepoint { ore: g.ore - b.orebot_ore_cost, orebots: g.orebots + 1, ..g };
        let v = run_simulation(b, time_limit, n);
        if v > best {
            best = v;
        }
    }
    best
}

/// `Blueprint 1: Each ore robot costs 4 ore. ...`: the numbers after the
/// blueprint's own are the costs, in order.
pub open spec fn blueprint_of(t: Seq<char>) -> Blueprint {
    let v = unsigned_values(runs(t, false));
    let m1 = if v[1] >= v[2] { v[1] } else { v[2] };
    let m2 = if v[3] >= v[5] { v[3] } else { v[5] };
    Blueprint {
        orebot_ore_cost: v[1] as u64,
        claybot_ore_cost: v[2] as u64,
        obsibot_ore_cost: v[3] as u64,
        obsibot_clay_cost: v[4] as u64,
        geobot_ore_cost: v[5] as u64,
        geobot_obsidian_cost: v[6] as u64,
        max_ore_cost: (if m1 >= m2 { m1 } else { m2 }) as u64,
    }
}

pub open spec fn line_ok(t: Seq<char>) -> bool {
    let v = unsigned_values(runs(t, false));
    v.len() >= 7
}

pub open spec fn geodes(b: Blueprint, limit: int) -> int {
    max_geodes(b, limit, initial())
}

/// The quality levels of the first `k` blueprints: each one's number times
/// its geodes in 24 minutes.
pub open spec fn quality_sum(bs: Seq<Blueprint>, k: int) -> int
    decreases k,
{
    if k <= 0 {
        0
    } else {
        quality_sum(bs, k - 1) + k * geodes(bs[k - 1], 24)
    }
}

/// The geodes of the first `k` blueprints in 32 minutes, multiplied.
pub open spec fn geode_product(bs: Seq<Blueprint>, k: int) -> int
    decreases k,
{
    if k <= 0 {
        1
    } else {
        geode_product(bs, k - 1) * geodes(bs[k - 1], 32)
    }
}

proof fn lemma_geodes_nonneg(b: Blueprint, limit: int, s: Savepoint)
    requires
        limit <= 64,
    ensures
        max_geodes(b, limit, s) >= 0,
    decreases limit - s.time,
{
    if s.time < limit {
        if can_geo(b, s) {
            lemma_geodes_nonneg(b, limit, with_geo(b, s));
        } else {
            lemma_geodes_nonneg(b, limit, grown(s));
        }
    }
}

proof fn lemma_quality_nonneg(bs: Seq<Blueprint>, k: int)
    ensures
        0 <= quality_sum(bs, k),
    decreases k,
{
    if k > 0 {
        lemma_quality_nonneg(bs, k - 1);
        lemma_geodes_nonneg(bs[k - 1], 24, initial());
        assert(0 <= k * geodes(bs[k - 1], 24)) by (nonlinear_arith)
            requires
                geodes(bs[k - 1], 24) >= 0,
                k >= 0,
        ;
    }
}

proof fn lemma_quality_prefix(bs: Seq<Blueprint>, k: int, n: int)
    requires
        0 <= k <= n,
    ensures
        quality_sum(bs, k) <= quality_sum(bs, n),
        0 <= quality_sum(bs, k),
    decreases n - k,
{
    lemma_quality_nonneg(bs, k);
    if k < n {
        lemma_quality_prefix(bs, k + 1, n);
        lemma_geodes_nonneg(bs[k], 24, initial());
        assert(0 <= (k + 1) * geodes(bs[k], 24)) by (nonlinear_arith)
            requires
                geodes(bs[k], 24) >= 0,
                k >= 0,
        ;
    }
}

impl Solver {
    pub closed spec fn view(&self) -> Seq<Blueprint> {
        self.input@
    }

    /// Reads one blueprint per line.
    pub fn new(input: String) -> (r: Solver)
        requires
            forall|ts: Seq<Seq<char>>|
                trimmed_lines_of(ts, input@) ==> forall|k: int|
                    0 <= k < non_empty(ts).len() ==> line_ok(#[trigger] non_empty(ts)[k]),
        ensures
            exists|ts: Seq<Seq<char>>|
                trimmed_lines_of(ts, input@) && r@ == Seq::new(non_empty(ts).len(), |k: int| blueprint_of(non_empty(ts)[k])),
    {
        let rows = non_empty_lines(input.as_str());
        Solver::from_rows(&rows)
    }

    /// Reads the input as `new` does, or gives `None` where some line holds
    /// fewer numbers than it needs.
    pub fn try_new(input: String) -> (r: Option<Solver>)
        ensures
            r is None ==> exists|ts: Seq<Seq<char>>|
                trimmed_lines_of(ts, input@) && exists|k: int|
                    0 <= k < non_empty(ts).len() && !line_ok(#[trigger] non_empty(ts)[k]),
            r matches Some(d) ==> exists|ts: Seq<Seq<char>>|
                trimmed_lines_of(ts, input@) && (forall|k: int|
                    0 <= k < non_empty(ts).len() ==> line_ok(#[trigger] non_empty(ts)[k]))
                    && d@ == Seq::new(non_empty(ts).len(), |k: int| blueprint_of(non_empty(ts)[k])),
    {
        let rows = non_empty_lines(input.as_str());
        let ghost ts = choose|ts: Seq<Seq<char>>| trimmed_lines_of(ts, input@) && views(rows@) == non_empty(ts);
        let mut i: usize = 0;
        while i < rows.len()
            invariant
                i <= rows@.len(),
                trimmed_lines_of(ts, input@),
                views(rows@) == non_empty(ts),
                forall|k: int| 0 <= k < i ==> line_ok(#[trigger] views(rows@)[k]),
            decreases rows@.len() - i,
        {
            assert(views(rows@)[i as int] == rows@[i as int]@);
            if unsigned_numbers(&rows[i]).len() < 7 {
                assert(!line_ok(non_empty(ts)[i as int]));
                return None;
            }
            i += 1;
        }
        Some(Solver::from_rows(&rows))
    }

    fn from_rows(rows: &Vec<Vec<char>>) -> (r: Solver)
        requires
            forall|k: int| 0 <= k < rows@.len() ==> line_ok(#[trigger] views(rows@)[k]),
        ensures
            r@ == Seq::new(rows@.len(), |k: int| blueprint_of(views(rows@)[k])),
    {
        let ghost rv = views(rows@);
        let mut v: Vec<Blueprint> = Vec::new();
        let mut i: usize = 0;
        while i < rows.len()
            invariant
                rv == views(rows@),
                forall|k: int| 0 <= k < rv.len() ==> line_ok(#[trigger] rv[k]),
                i <= rv.len(),
                v@ == Seq::new(rv.len(), |k: int| blueprint_of(rv[k])).subrange(0, i as int),
            decreases rv.len() - i,
        {
            assert(rv[i as int] == rows@[i as int]@);
            assert(line_ok(rv[i as int]));
            let n = unsigned_numbers(&rows[i]);
            let m1 = if n[1] >= n[2] { n[1] } else { n[2] };
            let m2 = if n[3] >= n[5] { n[3] } else { n[5] };
            v.push(Blueprint {
                orebot_ore_cost: n[1] as u64,
                claybot_ore_cost: n[2] as u64,
                obsibot_ore_cost: n[3] as u64,
                obsibot_clay_cost: n[4] as u64,
                geobot_ore_cost: n[5] as u64,
                geobot_obsidian_cost: n[6] as u64,
                max_ore_cost: (if m1 >= m2 { m1 } else { m2 }) as u64,
            });
            i += 1;
            assert(v@ =~= Seq::new(rv.len(), |k: int| blueprint_of(rv[k])).subrange(0, i as int));
        }
        assert(Seq::new(rv.len(), |k: int| blueprint_of(rv[k])).subrange(0, i as int) =~= Seq::new(rv.len(), |k: int| blueprint_of(rv[k])));
        Solver { input: v }
    }
}

impl ChallengeSolver for Solver {
    open spec fn solvable_a(&self) -> bool {
        quality_sum(self@, self@.len() as int) <= u64::MAX
    }

    open spec fn solvable_b(&self) -> bool {
        true
    }

    open spec fn answer_a(&self) -> Seq<char> {
        decimal(quality_sum(self@, self@.len() as int) as nat)
    }

    open spec fn answer_b(&self) -> Seq<char> {
        let k = if self@.len() < 3 { self@.len() as int } else { 3 };
        decimal(geode_product(self@, k) as nat)
    }

    /// The sum of the quality levels of the blueprints.
    fn get_part_a_result(&self) -> (r: String) {
        let n = self.input.len();
        let mut acc: u64 = 0;
        let mut i: usize = 0;
        while i < n
            invariant
                n == self@.len(),
                quality_sum(self@, n as int) <= u64::MAX,
                i <= n,
                acc == quality_sum(self@, i as int),
            decreases n - i,
        {
            let g = run_simulation(&self.input[i], 24, Savepoint { time: 0, ore: 0, clay: 0, obsidian: 0, geode: 0, orebots: 1, claybots: 0, obsibots: 0, geobots: 0 });
            proof {
                lemma_quality_prefix(self@, i + 1, n as int);
            }
            assert(quality_sum(self@, i + 1) == quality_sum(self@, i as int) + (i + 1) * g);
            assert(0 <= (i + 1) * g) by (nonlinear_arith)
                requires
                    g >= 0,
                    i >= 0,
            ;
            acc = acc + (i as u64 + 1) * g;
            i += 1;
        }
        u64_to_string(acc)
    }

    /// The geodes of the first three blueprints in 32 minutes, multiplied.
    fn get_part_b_result(&self) -> (r: String) {
        let k = if self.input.len() < 3 { self.input.len() } else { 3 };
        let mut acc: u64 = 1;
        let mut i: usize = 0;
        while i < k
            invariant
                k <= self@.len(),
                k <= 3,
                i <= k,
                acc == geode_product(self@, i as int),
                acc <= if i == 0 { 1 } else if i == 1 { 1280 } else if i == 2 { 1280 * 1280 } else { 1280 * 1280 * 1280 },
            decreases k - i,
        {
            let g = run_simulation(&self.input[i], 32, Savepoint { time: 0, ore: 0, clay: 0, obsidian: 0, geode: 0, orebots: 1, claybots: 0, obsibots: 0, geobots: 0 });
            assert(acc * g <= (if i == 0 { 1 } else if i == 1 { 1280 } else { 1280 * 1280 }) * 1280) by (nonlinear_arith)
                requires
                    acc <= if i == 0 { 1 } else if i == 1 { 1280 } else { 1280 * 1280 },
                    g <= 1280,
            ;
            acc = acc * g;
            i += 1;
        }
        u64_to_string(acc)
    }
}

} // verus!
