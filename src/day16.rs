use vstd::prelude::*;
use crate::day7::{same_chars, words, words_of};
use crate::text::{decimal, non_empty, non_empty_lines, runs, trimmed_lines_of, u64_to_string, unsigned_numbers, unsigned_values, views};
use crate::ChallengeSolver;

verus! {

/// Stands for a valve that cannot be reached.
pub open spec fn far() -> u64 {
    0x7FFF_FFFF_FFFF_FFFF
}

/// The valves: the flow rate of each, and the tunnels, by index.
pub struct Solver {
    flows: Vec<u64>,
    tunnels: Vec<Vec<usize>>,
    distances: Vec<Vec<u64>>,
    first_node: usize,
}

/// One tunnel between `i` and `j` gives 1; anything else counts as far.
pub open spec fn direct(ts: Seq<Seq<usize>>, i: int, j: int) -> u64 {
    if ts[i].contains(j as usize) {
        1
    } else {
        far()
    }
}

/// The fewest tunnels from `i` to `j` passing only through valves below
/// `k` (the Floyd–Warshall recurrence), or far.
pub open spec fn shortest(ts: Seq<Seq<usize>>, k: nat, i: int, j: int) -> u64
    decreases k,
{
    if k == 0 {
        direct(ts, i, j)
    } else {
        let a = shortest(ts, (k - 1) as nat, i, j);
        let b = shortest(ts, (k - 1) as nat, i, k - 1) as int + shortest(ts, (k - 1) as nat, k - 1, j) as int;
        if b < a {
            b as u64
        } else {
            a
        }
    }
}

/// Where an explorer stands, how much pressure its open valves release
/// each minute, how much they released so far, and the minute.
pub type Explorer = (int, int, int, int);

/// Valve `n` is worth a move from `e`: it has a flow, is another valve,
/// not yet opened, and can be reached and opened before the time is up.
pub open spec fn can_open(fl: Seq<u64>, d: Seq<Seq<u64>>, limit: int, e: Explorer, n: int, vis: Seq<bool>) -> bool {
    0 <= n < fl.len() && fl[n] > 0 && n != e.0 && !vis[n] && e.3 + d[e.0][n] < limit
}

/// The explorer once it has walked to valve `n` and opened it.
pub open spec fn opened(fl: Seq<u64>, d: Seq<Seq<u64>>, e: Explorer, n: int) -> Explorer {
    let t = 1 + d[e.0][n] as int;
    (n, e.1 + fl[n], e.2 + t * e.1, e.3 + t)
}

/// What the explorer will have released when the time is up.
pub open spec fn at_end(limit: int, e: Explorer) -> int {
    e.2 + e.1 * (limit - e.3)
}

pub open spec fn max(a: int, b: int) -> int {
    if a >= b {
        a
    } else {
        b
    }
}

/// The most pressure released by any schedule of valve openings that goes
/// on from `e`, with the valves in `vis` open; 0 where no move is left.
pub open spec fn best(fl: Seq<u64>, d: Seq<Seq<u64>>, limit: int, e: Explorer, vis: Seq<bool>) -> int
    decreases limit - e.3, fl.len() + 1, 0int,
{
    if e.3 < limit {
        best_upto(fl, d, limit, e, vis, fl.len() as int)
    } else {
        0
    }
}

/// The same, over the first `c` valves as the next one opened.
pub open spec fn best_upto(fl: Seq<u64>, d: Seq<Seq<u64>>, limit: int, e: Explorer, vis: Seq<bool>, c: int) -> int
    decreases limit - e.3, c, 1int,
{
    if c <= 0 || c > fl.len() || e.3 >= limit {
        0
    } else {
        let prev = best_upto(fl, d, limit, e, vis, c - 1);
        let n = c - 1;
        if can_open(fl, d, limit, e, n, vis) && d[e.0][n] < limit {
            let e2 = opened(fl, d, e, n);
            max(prev, max(at_end(limit, e2), best(fl, d, limit, e2, vis.update(n, true))))
        } else {
            prev
        }
    }
}

/// With two explorers moving together, each to a valve the other does not
/// take: the most pressure released by any such schedule.
pub open spec fn best2(fl: Seq<u64>, d: Seq<Seq<u64>>, limit: int, a: Explorer, b: Explorer, vis: Seq<bool>) -> int
    decreases (limit - a.3) + (limit - b.3), fl.len() + 2, 0int,
{
    if a.3 < limit && b.3 < limit {
        best2_upto(fl, d, limit, a, b, vis, fl.len() as int)
    } else {
        0
    }
}

pub open spec fn best2_upto(fl: Seq<u64>, d: Seq<Seq<u64>>, limit: int, a: Explorer, b: Explorer, vis: Seq<bool>, i: int) -> int
    decreases (limit - a.3) + (limit - b.3), i + 1, 0int,
{
    if i <= 0 || i > fl.len() || a.3 >= limit || b.3 >= limit {
        0
    } else {
        max(best2_upto(fl, d, limit, a, b, vis, i - 1), pair_upto(fl, d, limit, a, b, vis, i - 1, fl.len() as int))
    }
}

pub open spec fn pair_upto(fl: Seq<u64>, d: Seq<Seq<u64>>, limit: int, a: Explorer, b: Explorer, vis: Seq<bool>, i: int, j: int) -> int
    decreases (limit - a.3) + (limit - b.3), i + 1, j + 1,
{
    if j <= 0 || j > fl.len() || i < 0 || a.3 >= limit || b.3 >= limit || !(can_open(fl, d, limit, a, i, vis) && d[a.0][i] < limit) {
        0
    } else {
        let prev = pair_upto(fl, d, limit, a, b, vis, i, j - 1);
        let v1 = vis.update(i, true);
        let n = j - 1;
        if can_open(fl, d, limit, b, n, v1) && d[b.0][n] < limit {
            let a2 = opened(fl, d, a, i);
            let b2 = opened(fl, d, b, n);
            max(prev, max(at_end(limit, a2) + at_end(limit, b2), best2(fl, d, limit, a2, b2, v1.update(n, true))))
        } else {
            prev
        }
    }
}

pub open spec fn strip_comma(w: Seq<char>) -> Seq<char> {
    if w.len() > 0 && w.last() == ',' {
        w.drop_last()
    } else {
        w
    }
}

/// `Valve AA has flow rate=0; tunnels lead to valves DD, II, BB`: the
/// second word names the valve, the first number is its flow rate, and the
/// words from the tenth on name the valves its tunnels lead to.
pub open spec fn valve_name(t: Seq<char>) -> Seq<char> {
    words(t)[1]
}

pub open spec fn flow_of(t: Seq<char>) -> u64 {
    unsigned_values(runs(t, false))[0] as u64
}

pub open spec fn tunnel_names(t: Seq<char>) -> Seq<Seq<char>> {
    Seq::new((words(t).len() - 9) as nat, |k: int| strip_comma(words(t)[9 + k]))
}

/// The first line whose valve is named `x`.
pub open spec fn is_named(ls: Seq<Seq<char>>, x: Seq<char>, k: int) -> bool {
    0 <= k < ls.len() && valve_name(ls[k]) == x && forall|j: int| 0 <= j < k ==> valve_name(ls[j]) != x
}

pub open spec fn index_of(ls: Seq<Seq<char>>, x: Seq<char>) -> int {
    choose|k: int| is_named(ls, x, k)
}

pub open spec fn named(ls: Seq<Seq<char>>, x: Seq<char>) -> bool {
    exists|k: int| 0 <= k < ls.len() && valve_name(ls[k]) == x
}

pub open spec fn aa() -> Seq<char> {
    seq!['A', 'A']
}

pub open spec fn line_ok(ls: Seq<Seq<char>>, t: Seq<char>) -> bool {
    &&& words(t).len() >= 9
    &&& unsigned_values(runs(t, false)).len() >= 1
    &&& forall|k: int| 0 <= k < tunnel_names(t).len() ==> named(ls, #[trigger] tunnel_names(t)[k])
}

pub open spec fn valves_ok(ls: Seq<Seq<char>>) -> bool {
    &&& 1 <= ls.len()
    &&& forall|k: int| 0 <= k < ls.len() ==> line_ok(ls, #[trigger] ls[k])
    &&& named(ls, aa())
}

pub open spec fn flows_of(ls: Seq<Seq<char>>) -> Seq<u64> {
    Seq::new(ls.len(), |k: int| flow_of(ls[k]))
}

pub open spec fn tunnels_of(ls: Seq<Seq<char>>) -> Seq<Seq<usize>> {
    Seq::new(ls.len(), |k: int| tunnel_names(ls[k]).map_values(|x: Seq<char>| index_of(ls, x) as usize))
}

proof fn lemma_named_unique(ls: Seq<Seq<char>>, x: Seq<char>, a: int, b: int)
    requires
        is_named(ls, x, a),
        is_named(ls, x, b),
    ensures
        a == b,
{
    if a < b {
        assert(valve_name(ls[a]) != x);
    } else if b < a {
        assert(valve_name(ls[b]) != x);
    }
}

/// The first line named `x`.
fn find_valve(names: &Vec<Vec<char>>, x: &Vec<char>, ghost_ls: Ghost<Seq<Seq<char>>>) -> (r: usize)
    requires
        names@.len() == ghost_ls@.len(),
        forall|k: int| 0 <= k < names@.len() ==> (#[trigger] names@[k])@ == valve_name(ghost_ls@[k]),
        named(ghost_ls@, x@),
    ensures
        r as int == index_of(ghost_ls@, x@),
        r < names@.len(),
{
    let ghost ls = ghost_ls@;
    let ghost w = choose|k: int| 0 <= k < ls.len() && valve_name(ls[k]) == x@;
    let n = names.len();
    let mut i: usize = 0;
    while !same_chars(&names[i], x)
        invariant
            n == names@.len(),
            names@.len() == ls.len(),
            forall|k: int| 0 <= k < names@.len() ==> (#[trigger] names@[k])@ == valve_name(ls[k]),
            0 <= w < ls.len(),
            valve_name(ls[w]) == x@,
            i <= w,
            forall|j: int| 0 <= j < i ==> valve_name(ls[j]) != x@,
        decreases w - i,
    {
        assert(names@[i as int]@ == valve_name(ls[i as int]));
        i += 1;
    }
    proof {
        assert(is_named(ls, x@, i as int));
        lemma_named_unique(ls, x@, i as int, index_of(ls, x@));
    }
    i
}

fn drop_comma(w: &Vec<char>) -> (r: Vec<char>)
    ensures
        r@ == strip_comma(w@),
{
    let n = if w.len() > 0 && w[w.len() - 1] == ',' { w.len() - 1 } else { w.len() };
    let mut r: Vec<char> = Vec::new();
    let mut i: usize = 0;
    while i < n
        invariant
            n <= w@.len(),
            i <= n,
            r@ == w@.subrange(0, i as int),
        decreases n - i,
    {
        r.push(w[i]);
        i += 1;
    }
    assert(r@ =~= strip_comma(w@));
    r
}

pub open spec fn tunnels_ok(ts: Seq<Seq<usize>>) -> bool {
    forall|i: int, k: int| 0 <= i < ts.len() && 0 <= k < ts[i].len() ==> (#[trigger] ts[i][k]) < ts.len()
}

pub open spec fn matrix_view(m: Seq<Vec<u64>>) -> Seq<Seq<u64>> {
    m.map_values(|r: Vec<u64>| r@)
}

proof fn lemma_shortest_le_far(ts: Seq<Seq<usize>>, k: nat, i: int, j: int)
    ensures
        shortest(ts, k, i, j) <= far(),
    decreases k,
{
    if k > 0 {
        lemma_shortest_le_far(ts, (k - 1) as nat, i, j);
    }
}

fn has_tunnel(t: &Vec<usize>, j: usize) -> (r: bool)
    ensures
        r == t@.contains(j),
{
    let mut i: usize = 0;
    while i < t.len()
        invariant
            i <= t@.len(),
            forall|k: int| 0 <= k < i ==> t@[k] != j,
        decreases t@.len() - i,
    {
        if t[i] == j {
            assert(t@[i as int] == j);
            return true;
        }
        i += 1;
    }
    false
}

/// The fewest tunnels between every two valves, or far.
fn calculate_distances(tunnels: &Vec<Vec<usize>>) -> (r: Vec<Vec<u64>>)
    ensures
        r@.len() == tunnels@.len(),
        forall|i: int| 0 <= i < r@.len() ==> (#[trigger] r@[i])@.len() == tunnels@.len(),
        forall|i: int, j: int|
            0 <= i < r@.len() && 0 <= j < r@.len() ==> (#[trigger] r@[i]@[j]) == shortest(
                tunnels@.map_values(|t: Vec<usize>| t@),
                tunnels@.len() as nat,
                i,
                j,
            ),
{
    let ghost ts = tunnels@.map_values(|t: Vec<usize>| t@);
    let n = tunnels.len();
    let mut d: Vec<Vec<u64>> = Vec::new();
    let mut i: usize = 0;
    while i < n
        invariant
            ts == tunnels@.map_values(|t: Vec<usize>| t@),
            n == ts.len(),
            i <= n,
            d@.len() == i,
            forall|a: int| 0 <= a < i ==> (#[trigger] d@[a])@.len() == n,
            forall|a: int, b: int| 0 <= a < i && 0 <= b < n ==> (#[trigger] d@[a]@[b]) == shortest(ts, 0, a, b),
        decreases n - i,
    {
        let mut row: Vec<u64> = Vec::new();
        let mut j: usize = 0;
        while j < n
            invariant
                ts == tunnels@.map_values(|t: Vec<usize>| t@),
                n == ts.len(),
                i < n,
                j <= n,
                row@.len() == j,
                forall|b: int| 0 <= b < j ==> row@[b] == shortest(ts, 0, i as int, b),
            decreases n - j,
        {
            assert(ts[i as int] == tunnels@[i as int]@);
            let v: u64 = if has_tunnel(&tunnels[i], j) { 1 } else { 0x7FFF_FFFF_FFFF_FFFF };
            row.push(v);
            j += 1;
        }
        d.push(row);
        i += 1;
    }
    let mut k: usize = 0;
    while k < n
        invariant
            ts == tunnels@.map_values(|t: Vec<usize>| t@),
            n == ts.len(),
            k <= n,
            d@.len() == n,
            forall|a: int| 0 <= a < n ==> (#[trigger] d@[a])@.len() == n,
            forall|a: int, b: int| 0 <= a < n && 0 <= b < n ==> (#[trigger] d@[a]@[b]) == shortest(ts, k as nat, a, b),
        decreases n - k,
    {
        let mut next: Vec<Vec<u64>> = Vec::new();
        let mut a: usize = 0;
        while a < n
            invariant
                ts == tunnels@.map_values(|t: Vec<usize>| t@),
                n == ts.len(),
                k < n,
                a <= n,
                d@.len() == n,
                forall|x: int| 0 <= x < n ==> (#[trigger] d@[x])@.len() == n,
                forall|x: int, y: int| 0 <= x < n && 0 <= y < n ==> (#[trigger] d@[x]@[y]) == shortest(ts, k as nat, x, y),
                next@.len() == a,
                forall|x: int| 0 <= x < a ==> (#[trigger] next@[x])@.len() == n,
                forall|x: int, y: int| 0 <= x < a && 0 <= y < n ==> (#[trigger] next@[x]@[y]) == shortest(ts, (k + 1) as nat, x, y),
            decreases n - a,
        {
            let mut row: Vec<u64> = Vec::new();
            let mut b: usize = 0;
            while b < n
                invariant
                    ts == tunnels@.map_values(|t: Vec<usize>| t@),
                    n == ts.len(),
                    k < n,
                    a < n,
                    b <= n,
                    d@.len() == n,
                    forall|x: int| 0 <= x < n ==> (#[trigger] d@[x])@.len() == n,
                    forall|x: int, y: int| 0 <= x < n && 0 <= y < n ==> (#[trigger] d@[x]@[y]) == shortest(ts, k as nat, x, y),
                    row@.len() == b,
                    forall|y: int| 0 <= y < b ==> row@[y] == shortest(ts, (k + 1) as nat, a as int, y),
                decreases n - b,
            {
                let cur = d[a][b];
                proof {
                    lemma_shortest_le_far(ts, k as nat, a as int, k as int);
                    lemma_shortest_le_far(ts, k as nat, k as int, b as int);
                }
                let via = d[a][k] + d[k][b];
                row.push(if via < cur { via } else { cur });
                b += 1;
            }
            next.push(row);
            a += 1;
        }
        d = next;
        k += 1;
    }
    d
}

impl Solver {
    pub closed spec fn view(&self) -> (Seq<u64>, Seq<Seq<usize>>, Seq<Seq<u64>>, int) {
        (self.flows@, self.tunnels@.map_values(|t: Vec<usize>| t@), matrix_view(self.distances@), self.first_node as int)
    }

    pub closed spec fn wf(&self) -> bool {
        let (fl, ts, d, first) = self@;
        &&& 1 <= fl.len()
        &&& ts.len() == fl.len()
        &&& tunnels_ok(ts)
        &&& 0 <= first < fl.len()
        &&& d.len() == fl.len()
        &&& forall|i: int| 0 <= i < d.len() ==> (#[trigger] d[i]).len() == fl.len()
        &&& forall|i: int, j: int| 0 <= i < d.len() && 0 <= j < d.len() ==> (#[trigger] d[i][j]) == shortest(ts, fl.len() as nat, i, j)
    }

    /// Reads one valve per line, as `Valve AA has flow rate=0; tunnels lead
    /// to valves DD, II, BB`, and works out the fewest tunnels between every
    /// two valves.
    pub fn new(input: String) -> (r: Solver)
        requires
            forall|ts: Seq<Seq<char>>| trimmed_lines_of(ts, input@) ==> valves_ok(non_empty(ts)),
        ensures
            r.wf(),
            exists|ts: Seq<Seq<char>>|
                trimmed_lines_of(ts, input@) && r@.0 == flows_of(non_empty(ts)) && r@.1 == tunnels_of(non_empty(ts))
                    && r@.3 == index_of(non_empty(ts), aa()),
    {
        let rows = non_empty_lines(input.as_str());
        let ghost ls = views(rows@);
        assert(valves_ok(ls));
        let n = rows.len();
        let mut names: Vec<Vec<char>> = Vec::new();
        let mut flows: Vec<u64> = Vec::new();
        let mut i: usize = 0;
        while i < n
            invariant
                ls == views(rows@),
                valves_ok(ls),
                n == ls.len(),
                i <= n,
                names@.len() == i,
                flows@ == flows_of(ls).subrange(0, i as int),
                forall|k: int| 0 <= k < i ==> (#[trigger] names@[k])@ == valve_name(ls[k]),
            decreases n - i,
        {
            assert(ls[i as int] == rows@[i as int]@);
            assert(line_ok(ls, ls[i as int]));
            let w = words_of(&rows[i]);
            assert(views(w@)[1] == w@[1]@);
            names.push(w[1].clone());
            let nums = unsigned_numbers(&rows[i]);
            flows.push(nums[0] as u64);
            i += 1;
            assert(flows@ =~= flows_of(ls).subrange(0, i as int));
        }
        assert(flows_of(ls).subrange(0, n as int) =~= flows_of(ls));
        let mut tunnels: Vec<Vec<usize>> = Vec::new();
        i = 0;
        while i < n
            invariant
                ls == views(rows@),
                valves_ok(ls),
                n == ls.len(),
                names@.len() == n,
                forall|k: int| 0 <= k < n ==> (#[trigger] names@[k])@ == valve_name(ls[k]),
                i <= n,
                tunnels@.len() == i,
                forall|k: int| 0 <= k < i ==> (#[trigger] tunnels@[k])@ == tunnels_of(ls)[k],
                forall|k: int, m: int| 0 <= k < i && 0 <= m < tunnels@[k]@.len() ==> (#[trigger] tunnels@[k]@[m]) < n,
            decreases n - i,
        {
            assert(ls[i as int] == rows@[i as int]@);
            assert(line_ok(ls, ls[i as int]));
            let w = words_of(&rows[i]);
            let ghost tn = tunnel_names(ls[i as int]);
            let mut t: Vec<usize> = Vec::new();
            let mut k: usize = 9;
            while k < w.len()
                invariant
                    ls == views(rows@),
                    n == ls.len(),
                    i < n,
                    names@.len() == n,
                    forall|q: int| 0 <= q < n ==> (#[trigger] names@[q])@ == valve_name(ls[q]),
                    views(w@) == words(ls[i as int]),
                    tn == tunnel_names(ls[i as int]),
                    line_ok(ls, ls[i as int]),
                    9 <= k <= w@.len(),
                    t@ == tn.subrange(0, k - 9).map_values(|x: Seq<char>| index_of(ls, x) as usize),
                    forall|m: int| 0 <= m < t@.len() ==> (#[trigger] t@[m]) < n,
                decreases w@.len() - k,
            {
                assert(views(w@)[k as int] == w@[k as int]@);
                let x = drop_comma(&w[k]);
                assert(x@ == tn[k - 9]);
                assert(named(ls, tn[k - 9]));
                let idx = find_valve(&names, &x, Ghost(ls));
                t.push(idx);
                k += 1;
                assert(t@ =~= tn.subrange(0, k - 9).map_values(|x: Seq<char>| index_of(ls, x) as usize));
            }
            assert(tn.subrange(0, k - 9) =~= tn);
            tunnels.push(t);
            i += 1;
        }
        let aa_name = {
            let mut v: Vec<char> = Vec::new();
            v.push('A');
            v.push('A');
            v
        };
        assert(aa_name@ =~= aa());
        let first_node = find_valve(&names, &aa_name, Ghost(ls));
        let distances = calculate_distances(&tunnels);
        let r = Solver { flows, tunnels, distances, first_node };
        assert(r@.1 =~= tunnels_of(ls));
        r
    }
}

pub open spec fn ex(e: (usize, u64, u64, u64)) -> Explorer {
    (e.0 as int, e.1 as int, e.2 as int, e.3 as int)
}

/// The explorer is within the time, and what it will have released fits.
pub open spec fn sane(e: (usize, u64, u64, u64), limit: int) -> bool {
    e.3 <= limit && at_end(limit, ex(e)) <= u64::MAX
}

/// The flow rates of the first `k` valves that are not open yet.
pub open spec fn closed_sum(fl: Seq<u64>, vis: Seq<bool>, k: int) -> int
    decreases k,
{
    if k <= 0 {
        0
    } else {
        closed_sum(fl, vis, k - 1) + if vis[k - 1] { 0 } else { fl[k - 1] as int }
    }
}

pub open spec fn unopened(fl: Seq<u64>, vis: Seq<bool>) -> int {
    closed_sum(fl, vis, fl.len() as int)
}

/// All flow rates together.
pub open spec fn flow_total(fl: Seq<u64>) -> int {
    closed_sum(fl, Seq::new(fl.len(), |k: int| false), fl.len() as int)
}

proof fn lemma_closed_open(fl: Seq<u64>, vis: Seq<bool>, n: int, k: int)
    requires
        0 <= n < fl.len(),
        vis.len() == fl.len(),
        !vis[n],
        0 <= k <= fl.len(),
    ensures
        closed_sum(fl, vis.update(n, true), k) + (if n < k { fl[n] as int } else { 0 }) == closed_sum(fl, vis, k),
        closed_sum(fl, vis, k) >= 0,
    decreases k,
{
    if k > 0 {
        lemma_closed_open(fl, vis, n, k - 1);
    }
}

proof fn lemma_closed_le_total(fl: Seq<u64>, vis: Seq<bool>, k: int)
    requires
        0 <= k <= fl.len(),
    ensures
        0 <= closed_sum(fl, vis, k) <= closed_sum(fl, Seq::new(fl.len(), |j: int| false), k),
    decreases k,
{
    if k > 0 {
        lemma_closed_le_total(fl, vis, k - 1);
    }
}

proof fn lemma_best_upto_mono(fl: Seq<u64>, d: Seq<Seq<u64>>, limit: int, e: Explorer, vis: Seq<bool>, c: int, c2: int)
    requires
        0 <= c <= c2 <= fl.len(),
        e.3 < limit,
    ensures
        best_upto(fl, d, limit, e, vis, c) <= best_upto(fl, d, limit, e, vis, c2),
        0 <= best_upto(fl, d, limit, e, vis, c),
    decreases c2,
{
    if c < c2 {
        lemma_best_upto_mono(fl, d, limit, e, vis, c, c2 - 1);
    } else if c > 0 {
        lemma_best_upto_mono(fl, d, limit, e, vis, c - 1, c - 1);
    }
}

proof fn lemma_best2_upto_mono(fl: Seq<u64>, d: Seq<Seq<u64>>, limit: int, a: Explorer, b: Explorer, vis: Seq<bool>, i: int, i2: int)
    requires
        0 <= i <= i2 <= fl.len(),
        a.3 < limit && b.3 < limit,
    ensures
        best2_upto(fl, d, limit, a, b, vis, i) <= best2_upto(fl, d, limit, a, b, vis, i2),
        0 <= best2_upto(fl, d, limit, a, b, vis, i),
    decreases i2,
{
    if i < i2 {
        lemma_best2_upto_mono(fl, d, limit, a, b, vis, i, i2 - 1);
    } else if i > 0 {
        lemma_best2_upto_mono(fl, d, limit, a, b, vis, i - 1, i - 1);
    }
}

proof fn lemma_pair_upto_mono(fl: Seq<u64>, d: Seq<Seq<u64>>, limit: int, a: Explorer, b: Explorer, vis: Seq<bool>, i: int, j: int, j2: int)
    requires
        0 <= j <= j2 <= fl.len(),
    ensures
        pair_upto(fl, d, limit, a, b, vis, i, j) <= pair_upto(fl, d, limit, a, b, vis, i, j2),
        0 <= pair_upto(fl, d, limit, a, b, vis, i, j),
    decreases j2,
{
    if j < j2 {
        lemma_pair_upto_mono(fl, d, limit, a, b, vis, i, j, j2 - 1);
    } else if j > 0 {
        lemma_pair_upto_mono(fl, d, limit, a, b, vis, i, j - 1, j - 1);
    }
}

pub open spec fn start_flags(n: int, first: int) -> Seq<bool> {
    Seq::new(n as nat, |k: int| k == first)
}

impl Solver {
    /// Where valve `c` can be the explorer's next: the explorer after it.
    fn try_open(&self, limit: u64, e: (usize, u64, u64, u64), c: usize, vis: &Vec<bool>) -> (r: Option<(usize, u64, u64, u64)>)
        requires
            self.wf(),
            limit <= 30,
            e.0 < self@.0.len(),
            c < self@.0.len(),
            vis@.len() == self@.0.len(),
            sane(e, limit as int),
            e.1 + unopened(self@.0, vis@) <= u64::MAX,
        ensures
            r is Some <==> (can_open(self@.0, self@.2, limit as int, ex(e), c as int, vis@) && self@.2[e.0 as int][c as int] < limit),
            r matches Some(e2) ==> ex(e2) == opened(self@.0, self@.2, ex(e), c as int) && e2.0 < self@.0.len() && e2.3 <= limit
                && e2.1 + unopened(self@.0, vis@.update(c as int, true)) == e.1 + unopened(self@.0, vis@),
    {
        assert(self@.2[e.0 as int] == self.distances@[e.0 as int]@);
        let dist = self.distances[e.0][c];
        assert(dist <= 0x7FFF_FFFF_FFFF_FFFF) by {
            lemma_shortest_le_far(self@.1, self@.0.len() as nat, e.0 as int, c as int);
        }
        if self.flows[c] > 0 && c != e.0 && !vis[c] && e.3 + dist < limit && dist < limit {
            let t = 1 + dist;
            let f = self.flows[c];
            proof {
                lemma_closed_open(self@.0, vis@, c as int, self@.0.len() as int);
                lemma_closed_le_total(self@.0, vis@.update(c as int, true), self@.0.len() as int);
            }
            assert(f as int == self@.0[c as int]);
            assert(t * e.1 <= (limit - e.3) * e.1) by (nonlinear_arith)
                requires
                    t <= limit - e.3,
            ;
            assert(e.1 * (limit - e.3) == (limit - e.3) * e.1) by (nonlinear_arith);
            assert(0 <= t * e.1) by (nonlinear_arith)
                requires
                    t >= 0,
            ;
            Some((c, e.1 + f, e.2 + t * e.1, e.3 + t))
        } else {
            None
        }
    }

    fn end_value(limit: u64, e: (usize, u64, u64, u64)) -> (r: u64)
        requires
            sane(e, limit as int),
        ensures
            r == at_end(limit as int, ex(e)),
    {
        assert(0 <= e.1 * (limit - e.3)) by (nonlinear_arith)
            requires
                e.3 <= limit,
        ;
        e.2 + e.1 * (limit - e.3)
    }

    /// The most pressure released by any schedule from `e`.
    fn search(&self, limit: u64, e: (usize, u64, u64, u64), vis: &Vec<bool>) -> (r: u64)
        requires
            self.wf(),
            limit <= 30,
            e.0 < self@.0.len(),
            vis@.len() == self@.0.len(),
            sane(e, limit as int),
            e.1 + unopened(self@.0, vis@) <= u64::MAX,
            best(self@.0, self@.2, limit as int, ex(e), vis@) <= u64::MAX,
        ensures
            r == best(self@.0, self@.2, limit as int, ex(e), vis@),
        decreases limit - e.3,
    {
        if e.3 >= limit {
            return 0;
        }
        let ghost fl = self@.0;
        let ghost d = self@.2;
        let n = self.flows.len();
        let mut acc: u64 = 0;
        let mut c: usize = 0;
        while c < n
            invariant
                self.wf(),
                fl == self@.0,
                d == self@.2,
                n == fl.len(),
                limit <= 30,
                e.0 < n,
                e.3 < limit,
                vis@.len() == n,
                sane(e, limit as int),
                e.1 + unopened(fl, vis@) <= u64::MAX,
                best(fl, d, limit as int, ex(e), vis@) == best_upto(fl, d, limit as int, ex(e), vis@, n as int),
                best(fl, d, limit as int, ex(e), vis@) <= u64::MAX,
                c <= n,
                acc == best_upto(fl, d, limit as int, ex(e), vis@, c as int),
            decreases n - c,
        {
            proof {
                lemma_best_upto_mono(fl, d, limit as int, ex(e), vis@, c + 1, n as int);
                lemma_best_upto_mono(fl, d, limit as int, ex(e), vis@, c as int, c as int);
            }
            match self.try_open(limit, e, c, vis) {
                Some(e2) => {
                    let mut v2 = vis.clone();
                    v2.set(c, true);
                    assert(v2@ =~= vis@.update(c as int, true));
                    let ghost child = best(fl, d, limit as int, ex(e2), v2@);
                    assert(best_upto(fl, d, limit as int, ex(e), vis@, c + 1) == max(acc as int, max(at_end(limit as int, ex(e2)), child)));
                    let a = Solver::end_value(limit, e2);
                    let b = self.search(limit, e2, &v2);
                    let m = if a >= b { a } else { b };
                    if m > acc {
                        acc = m;
                    }
                },
                None => {},
            }
            c += 1;
        }
        acc
    }

    /// The most pressure two explorers release together from `a` and `b`.
    fn search2(&self, limit: u64, a: (usize, u64, u64, u64), b: (usize, u64, u64, u64), vis: &Vec<bool>) -> (r: u64)
        requires
            self.wf(),
            limit <= 30,
            a.0 < self@.0.len(),
            b.0 < self@.0.len(),
            vis@.len() == self@.0.len(),
            sane(a, limit as int),
            sane(b, limit as int),
            a.1 + b.1 + unopened(self@.0, vis@) <= u64::MAX,
            best2(self@.0, self@.2, limit as int, ex(a), ex(b), vis@) <= u64::MAX,
        ensures
            r == best2(self@.0, self@.2, limit as int, ex(a), ex(b), vis@),
        decreases (limit - a.3) + (limit - b.3),
    {
        if a.3 >= limit || b.3 >= limit {
            return 0;
        }
        let ghost fl = self@.0;
        let ghost d = self@.2;
        let ghost total = best2(fl, d, limit as int, ex(a), ex(b), vis@);
        let n = self.flows.len();
        let mut acc: u64 = 0;
        let mut i: usize = 0;
        while i < n
            invariant
                self.wf(),
                fl == self@.0,
                d == self@.2,
                n == fl.len(),
                limit <= 30,
                a.0 < n && b.0 < n,
                a.3 < limit && b.3 < limit,
                vis@.len() == n,
                sane(a, limit as int),
                sane(b, limit as int),
                a.1 + b.1 + unopened(fl, vis@) <= u64::MAX,
                total == best2(fl, d, limit as int, ex(a), ex(b), vis@),
                total == best2_upto(fl, d, limit as int, ex(a), ex(b), vis@, n as int),
                total <= u64::MAX,
                i <= n,
                acc == best2_upto(fl, d, limit as int, ex(a), ex(b), vis@, i as int),
            decreases n - i,
        {
            let ghost prev = acc;
            proof {
                lemma_best2_upto_mono(fl, d, limit as int, ex(a), ex(b), vis@, i + 1, n as int);
                lemma_best2_upto_mono(fl, d, limit as int, ex(a), ex(b), vis@, i as int, i as int);
                lemma_closed_le_total(fl, vis@, n as int);
            }
            assert(best2_upto(fl, d, limit as int, ex(a), ex(b), vis@, i + 1) == max(
                prev as int,
                pair_upto(fl, d, limit as int, ex(a), ex(b), vis@, i as int, n as int),
            ));
            assert(a.1 + unopened(fl, vis@) <= u64::MAX);
            match self.try_open(limit, a, i, vis) {
                Some(a2) => {
                    let mut v1 = vis.clone();
                    v1.set(i, true);
                    assert(v1@ =~= vis@.update(i as int, true));
                    let mut p: u64 = 0;
                    let mut j: usize = 0;
                    while j < n
                        invariant
                            self.wf(),
                            fl == self@.0,
                            d == self@.2,
                            n == fl.len(),
                            limit <= 30,
                            a.0 < n && b.0 < n,
                            a.3 < limit && b.3 < limit,
                            i < n,
                            vis@.len() == n,
                            v1@ == vis@.update(i as int, true),
                            sane(a, limit as int),
                            sane(b, limit as int),
                            a2.0 < n,
                            a2.3 <= limit,
                            ex(a2) == opened(fl, d, ex(a), i as int),
                            a2.1 + unopened(fl, v1@) == a.1 + unopened(fl, vis@),
                            a.1 + b.1 + unopened(fl, vis@) <= u64::MAX,
                            can_open(fl, d, limit as int, ex(a), i as int, vis@),
                            d[a.0 as int][i as int] < limit,
                            total <= u64::MAX,
                            pair_upto(fl, d, limit as int, ex(a), ex(b), vis@, i as int, n as int) <= total,
                            j <= n,
                            p == pair_upto(fl, d, limit as int, ex(a), ex(b), vis@, i as int, j as int),
                        decreases n - j,
                    {
                        proof {
                            lemma_pair_upto_mono(fl, d, limit as int, ex(a), ex(b), vis@, i as int, j + 1, n as int);
                            lemma_pair_upto_mono(fl, d, limit as int, ex(a), ex(b), vis@, i as int, j as int, j as int);
                            lemma_closed_le_total(fl, v1@, n as int);
                        }
                        assert(b.1 + unopened(fl, v1@) <= u64::MAX);
                        match self.try_open(limit, b, j, &v1) {
                            Some(b2) => {
                                let mut v2 = v1.clone();
                                v2.set(j, true);
                                assert(v2@ =~= v1@.update(j as int, true));
                                let ghost child = best2(fl, d, limit as int, ex(a2), ex(b2), v2@);
                                assert(pair_upto(fl, d, limit as int, ex(a), ex(b), vis@, i as int, j + 1) == max(
                                    p as int,
                                    max(at_end(limit as int, ex(a2)) + at_end(limit as int, ex(b2)), child),
                                ));
                                assert(at_end(limit as int, ex(a2)) >= 0 && at_end(limit as int, ex(b2)) >= 0) by {
                                    assert(0 <= a2.1 * (limit - a2.3)) by (nonlinear_arith)
                                        requires
                                            a2.3 <= limit,
                                    ;
                                    assert(0 <= b2.1 * (limit - b2.3)) by (nonlinear_arith)
                                        requires
                                            b2.3 <= limit,
                                    ;
                                }
                                let x = Solver::end_value(limit, a2) + Solver::end_value(limit, b2);
                                let y = self.search2(limit, a2, b2, &v2);
                                let m = if x >= y { x } else { y };
                                if m > p {
                                    p = m;
                                }
                            },
                            None => {},
                        }
                        j += 1;
                    }
                    if p > acc {
                        acc = p;
                    }
                },
                None => {
                    assert(pair_upto(fl, d, limit as int, ex(a), ex(b), vis@, i as int, n as int) == 0);
                },
            }
            i += 1;
        }
        acc
    }
}

impl ChallengeSolver for Solver {
    open spec fn solvable_a(&self) -> bool {
        &&& self.wf()
        &&& flow_total(self@.0) <= u64::MAX
        &&& best(self@.0, self@.2, 30, (self@.3, 0, 0, 0), start_flags(self@.0.len() as int, self@.3)) <= u64::MAX
    }

    open spec fn solvable_b(&self) -> bool {
        &&& self.wf()
        &&& flow_total(self@.0) <= u64::MAX
        &&& best2(self@.0, self@.2, 26, (self@.3, 0, 0, 0), (self@.3, 0, 0, 0), start_flags(self@.0.len() as int, self@.3))
            <= u64::MAX
    }

    open spec fn answer_a(&self) -> Seq<char> {
        decimal(best(self@.0, self@.2, 30, (self@.3, 0, 0, 0), start_flags(self@.0.len() as int, self@.3)) as nat)
    }

    open spec fn answer_b(&self) -> Seq<char> {
        decimal(
            best2(
                self@.0,
                self@.2,
                26,
                (self@.3, 0, 0, 0),
                (self@.3, 0, 0, 0),
                start_flags(self@.0.len() as int, self@.3),
            ) as nat,
        )
    }

    /// The most pressure one explorer can release in 30 minutes.
    fn get_part_a_result(&self) -> (r: String) {
        let vis = self.start();
        proof {
            lemma_closed_le_total(self@.0, vis@, self@.0.len() as int);
        }
        u64_to_string(self.search(30, (self.first_node, 0, 0, 0), &vis))
    }

    /// The most pressure an explorer and an elephant release in 26 minutes.
    fn get_part_b_result(&self) -> (r: String) {
        let vis = self.start();
        proof {
            lemma_closed_le_total(self@.0, vis@, self@.0.len() as int);
        }
        let e = (self.first_node, 0, 0, 0);
        u64_to_string(self.search2(26, e, e, &vis))
    }
}

impl Solver {
    fn start(&self) -> (r: Vec<bool>)
        requires
            self.wf(),
        ensures
            r@ == start_flags(self@.0.len() as int, self@.3),
    {
        let n = self.flows.len();
        let mut r: Vec<bool> = Vec::new();
        let mut i: usize = 0;
        while i < n
            invariant
                n == self@.0.len(),
                i <= n,
                r@ == start_flags(n as int, self@.3).subrange(0, i as int),
            decreases n - i,
        {
            r.push(i == self.first_node);
            i += 1;
            assert(r@ =~= start_flags(n as int, self@.3).subrange(0, i as int));
        }
        assert(start_flags(n as int, self@.3).subrange(0, i as int) =~= start_flags(n as int, self@.3));
        r
    }
}

} // verus!
