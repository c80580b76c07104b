use vstd::prelude::*;
use crate::plane::{moved, Boundary, Direction};
use crate::text::{decimal, trimmed_text_lines, trimmed_text_of, u64_to_string, views};
use crate::ChallengeSolver;

verus! {

/// The height map, as its letters.
pub struct Solver {
    input: Vec<Vec<char>>,
}

/// The height a letter stands for: `a` to `z` are 0 to 25; other characters
/// keep their code.
pub open spec fn raw_height(c: char) -> int {
    if c >= 'a' {
        c as int - 'a' as int
    } else {
        c as int
    }
}

pub open spec fn in_grid(g: Seq<Seq<char>>, p: (int, int)) -> bool {
    0 <= p.0 < g.len() && 0 <= p.1 < g[p.0].len()
}

/// The height of a place when the climb starts at `s` and ends at `e`: the
/// start counts as 0 and the end as 25.
pub open spec fn height(g: Seq<Seq<char>>, s: (int, int), e: (int, int), p: (int, int)) -> int {
    if p == s {
        0
    } else if p == e {
        25
    } else {
        raw_height(g[p.0][p.1])
    }
}

pub open spec fn dirs() -> Seq<Direction> {
    seq![Direction::Up, Direction::Right, Direction::Down, Direction::Left]
}

pub open spec fn bounds(g: Seq<Seq<char>>) -> Boundary {
    Boundary {
        low_x_boundary: 0,
        low_y_boundary: 0,
        high_x_boundary: g[0].len() as isize,
        high_y_boundary: g.len() as isize,
    }
}

/// One step from `p` to `q`: a neighbour at most one higher.
pub open spec fn step(g: Seq<Seq<char>>, s: (int, int), e: (int, int), p: (int, int), q: (int, int)) -> bool {
    exists|d: int|
        #![trigger dirs()[d]]
        0 <= d < 4 && moved(bounds(g), p.0, p.1, dirs()[d]) == Some(q) && height(g, s, e, q)
            <= height(g, s, e, p) + 1
}

/// The places one step from the frontier `f` and not reached before (`r`).
pub open spec fn fresh(
    g: Seq<Seq<char>>,
    s: (int, int),
    e: (int, int),
    r: Set<(int, int)>,
    f: Set<(int, int)>,
) -> Set<(int, int)> {
    Set::new(|q: (int, int)| !r.contains(q) && exists|p: (int, int)| #[trigger] f.contains(p) && step(g, s, e, p, q))
}

/// The places reached within `k` steps from `s`, and those first reached
/// at step `k`.
pub open spec fn search(g: Seq<Seq<char>>, s: (int, int), e: (int, int), k: nat) -> (Set<(int, int)>, Set<(int, int)>)
    decreases k,
{
    if k == 0 {
        (set![s], set![s])
    } else {
        let (r, f) = search(g, s, e, (k - 1) as nat);
        let n = fresh(g, s, e, r, f);
        (r.union(n), n)
    }
}

pub open spec fn cell_count(g: Seq<Seq<char>>) -> nat {
    g.len() * g[0].len()
}

/// The fewest steps from `s` to `e`, counting paths of up to as many steps
/// as there are places; `usize::MAX` where there is none.
pub open spec fn distance(g: Seq<Seq<char>>, s: (int, int), e: (int, int)) -> int {
    if exists|k: nat| k <= cell_count(g) && (#[trigger] search(g, s, e, k)).0.contains(e) {
        (choose|k: nat|
            k <= cell_count(g) && (#[trigger] search(g, s, e, k)).0.contains(e) && forall|j: nat|
                j < k ==> !(#[trigger] search(g, s, e, j)).0.contains(e)) as int
    } else {
        usize::MAX as int
    }
}

/// The first place, row by row, that holds `c`.
pub open spec fn first_of(g: Seq<Seq<char>>, c: char, p: (int, int)) -> bool {
    in_grid(g, p) && g[p.0][p.1] == c && forall|i: int, j: int|
        #![trigger g[i][j]]
        in_grid(g, (i, j)) && (i < p.0 || (i == p.0 && j < p.1)) ==> g[i][j] != c
}

pub open spec fn position(g: Seq<Seq<char>>, c: char) -> (int, int) {
    choose|p: (int, int)| first_of(g, c, p)
}

pub open spec fn rectangular(g: Seq<Seq<char>>) -> bool {
    &&& 1 <= g.len() < 0x1_0000
    &&& 1 <= g[0].len() < 0x1_0000
    &&& forall|i: int| 0 <= i < g.len() ==> (#[trigger] g[i]).len() == g[0].len()
}

/// The fewest steps to the end from any place of the first column.
pub open spec fn best_from_left(g: Seq<Seq<char>>, e: (int, int), n: int) -> int
    decreases n,
{
    if n <= 1 {
        distance(g, (0, 0), e)
    } else {
        let a = best_from_left(g, e, n - 1);
        let b = distance(g, (n - 1, 0), e);
        if b < a {
            b
        } else {
            a
        }
    }
}

pub open spec fn upts(v: Seq<(usize, usize)>) -> Seq<(int, int)> {
    v.map_values(|p: (usize, usize)| (p.0 as int, p.1 as int))
}

/// `seen` marks exactly the places of `r`, all inside the grid.
pub open spec fn marks(seen: Seq<Vec<bool>>, g: Seq<Seq<char>>, r: Set<(int, int)>) -> bool {
    &&& seen.len() == g.len()
    &&& forall|i: int| 0 <= i < g.len() ==> (#[trigger] seen[i])@.len() == g[i].len()
    &&& forall|i: int, j: int|
        in_grid(g, (i, j)) ==> (seen[i]@[j] <==> #[trigger] r.contains((i, j)))
    &&& forall|q: (int, int)| #[trigger] r.contains(q) ==> in_grid(g, q)
}

/// Some place of the first `n` of `fl` (and of place `n` the first `m`
/// directions) leads to `q`.
pub open spec fn produced(
    g: Seq<Seq<char>>,
    s: (int, int),
    e: (int, int),
    fl: Seq<(int, int)>,
    n: int,
    m: int,
    q: (int, int),
) -> bool {
    (exists|i: int| #![trigger fl[i]] 0 <= i < n && step(g, s, e, fl[i], q)) || (exists|d: int|
        #![trigger dirs()[d]]
        0 <= d < m && 0 <= n < fl.len() && moved(bounds(g), fl[n].0, fl[n].1, dirs()[d]) == Some(q)
            && height(g, s, e, q) <= height(g, s, e, fl[n]) + 1)
}

fn height_of(c: char) -> (r: i64)
    ensures
        r == raw_height(c),
        0 <= r <= 0x11_0000,
{
    if 'a' <= c {
        (c as u32 - 'a' as u32) as i64
    } else {
        (c as u32) as i64
    }
}

proof fn lemma_step_update(
    g: Seq<Seq<char>>,
    si: (int, int),
    ei: (int, int),
    rr: Set<(int, int)>,
    fl: Seq<(int, int)>,
    i: int,
    d: int,
    before: Set<(int, int)>,
    after: Set<(int, int)>,
    mv: Option<(int, int)>,
    hp: int,
)
    requires
        0 <= i < fl.len(),
        0 <= d < 4,
        forall|x: (int, int)| before.contains(x) <==> (!rr.contains(x) && produced(g, si, ei, fl, i, d, x)),
        mv == moved(bounds(g), fl[i].0, fl[i].1, dirs()[d]),
        hp == height(g, si, ei, fl[i]),
        forall|x: (int, int)|
            after.contains(x) <==> (before.contains(x) || (mv == Some(x) && height(g, si, ei, x) <= hp + 1
                && !rr.union(before).contains(x))),
    ensures
        forall|x: (int, int)| after.contains(x) <==> (!rr.contains(x) && produced(g, si, ei, fl, i, d + 1, x)),
{
    assert forall|x: (int, int)| after.contains(x) <==> (!rr.contains(x) && produced(g, si, ei, fl, i, d + 1, x)) by {
        if mv == Some(x) && height(g, si, ei, x) <= hp + 1 {
            assert(dirs()[d] == dirs()[d]);
            assert(produced(g, si, ei, fl, i, d + 1, x));
        }
        if produced(g, si, ei, fl, i, d + 1, x) && !produced(g, si, ei, fl, i, d, x) {
            let dd = choose|dd: int|
                #![trigger dirs()[dd]]
                0 <= dd < d + 1 && 0 <= i < fl.len() && moved(bounds(g), fl[i].0, fl[i].1, dirs()[dd]) == Some(x)
                    && height(g, si, ei, x) <= height(g, si, ei, fl[i]) + 1;
            assert(dd == d);
        }
        if produced(g, si, ei, fl, i, d, x) {
            if exists|ii: int| #![trigger fl[ii]] 0 <= ii < i && step(g, si, ei, fl[ii], x) {
            } else {
                let dd = choose|dd: int|
                    #![trigger dirs()[dd]]
                    0 <= dd < d && 0 <= i < fl.len() && moved(bounds(g), fl[i].0, fl[i].1, dirs()[dd]) == Some(x)
                        && height(g, si, ei, x) <= height(g, si, ei, fl[i]) + 1;
                assert(dirs()[dd] == dirs()[dd]);
            }
        }
    }
}

proof fn lemma_next_point(g: Seq<Seq<char>>, si: (int, int), ei: (int, int), fl: Seq<(int, int)>, i: int)
    requires
        0 <= i < fl.len(),
    ensures
        forall|x: (int, int)| produced(g, si, ei, fl, i, 4, x) <==> produced(g, si, ei, fl, i + 1, 0, x),
{
    assert forall|x: (int, int)| produced(g, si, ei, fl, i, 4, x) <==> produced(g, si, ei, fl, i + 1, 0, x) by {
        if produced(g, si, ei, fl, i, 4, x) {
            if !(exists|ii: int| #![trigger fl[ii]] 0 <= ii < i && step(g, si, ei, fl[ii], x)) {
                let dd = choose|dd: int|
                    #![trigger dirs()[dd]]
                    0 <= dd < 4 && 0 <= i < fl.len() && moved(bounds(g), fl[i].0, fl[i].1, dirs()[dd]) == Some(x)
                        && height(g, si, ei, x) <= height(g, si, ei, fl[i]) + 1;
                assert(step(g, si, ei, fl[i], x));
            }
        }
        if produced(g, si, ei, fl, i + 1, 0, x) {
            let ii = choose|ii: int| #![trigger fl[ii]] 0 <= ii < i + 1 && step(g, si, ei, fl[ii], x);
            if ii == i {
                let dd = choose|dd: int|
                    #![trigger dirs()[dd]]
                    0 <= dd < 4 && moved(bounds(g), fl[ii].0, fl[ii].1, dirs()[dd]) == Some(x)
                        && height(g, si, ei, x) <= height(g, si, ei, fl[ii]) + 1;
            }
        }
    }
}

proof fn lemma_fresh_done(
    g: Seq<Seq<char>>,
    si: (int, int),
    ei: (int, int),
    rr: Set<(int, int)>,
    fl: Seq<(int, int)>,
    out: Set<(int, int)>,
)
    requires
        forall|x: (int, int)| out.contains(x) <==> (!rr.contains(x) && produced(g, si, ei, fl, fl.len() as int, 0, x)),
    ensures
        out == fresh(g, si, ei, rr, fl.to_set()),
{
    let ff = fresh(g, si, ei, rr, fl.to_set());
    assert forall|x: (int, int)| out.contains(x) <==> ff.contains(x) by {
        if ff.contains(x) {
            let p = choose|p: (int, int)| #[trigger] fl.to_set().contains(p) && step(g, si, ei, p, x);
            assert(fl.contains(p));
            let ii = choose|ii: int| 0 <= ii < fl.len() && fl[ii] == p;
            assert(step(g, si, ei, fl[ii], x));
        }
        if out.contains(x) {
            let ii = choose|ii: int| #![trigger fl[ii]] 0 <= ii < fl.len() && step(g, si, ei, fl[ii], x);
            assert(fl.to_set().contains(fl[ii]));
        }
    }
    assert(out =~= ff);
}

impl Solver {
    pub closed spec fn view(&self) -> Seq<Seq<char>> {
        views(self.input@)
    }

    /// Reads one row of letters per line.
    pub fn new(input: String) -> (r: Solver)
        ensures
            exists|ts: Seq<Seq<char>>| trimmed_text_of(ts, input@) && r@ == ts,
    {
        Solver { input: trimmed_text_lines(input.as_str()) }
    }

    fn height_at(&self, s: (usize, usize), e: (usize, usize), p: (usize, usize)) -> (r: i64)
        requires
            rectangular(self@),
            in_grid(self@, (p.0 as int, p.1 as int)),
        ensures
            r == height(self@, (s.0 as int, s.1 as int), (e.0 as int, e.1 as int), (p.0 as int, p.1 as int)),
            0 <= r <= 0x11_0000,
    {
        if p.0 == s.0 && p.1 == s.1 {
            0
        } else if p.0 == e.0 && p.1 == e.1 {
            25
        } else {
            assert(self@[p.0 as int] == self.input@[p.0 as int]@);
            let c = self.input[p.0][p.1];
            assert(c == self@[p.0 as int][p.1 as int]);
            height_of(c)
        }
    }

    /// One round of the search: the places first reached at the next step.
    fn expand(
        &self,
        seen: &mut Vec<Vec<bool>>,
        frontier: &Vec<(usize, usize)>,
        s: (usize, usize),
        e: (usize, usize),
    ) -> (r: Vec<(usize, usize)>)
        requires
            rectangular(self@),
            in_grid(self@, (s.0 as int, s.1 as int)),
            in_grid(self@, (e.0 as int, e.1 as int)),
            forall|k: int| 0 <= k < frontier@.len() ==> in_grid(self@, #[trigger] upts(frontier@)[k]),
            exists|rr: Set<(int, int)>| marks(old(seen)@, self@, rr),
        ensures
            forall|rr: Set<(int, int)>|
                marks(old(seen)@, self@, rr) ==> marks(
                    final(seen)@,
                    self@,
                    rr.union(fresh(self@, (s.0 as int, s.1 as int), (e.0 as int, e.1 as int), rr, upts(frontier@).to_set())),
                ) && upts(r@).to_set() == fresh(
                    self@,
                    (s.0 as int, s.1 as int),
                    (e.0 as int, e.1 as int),
                    rr,
                    upts(frontier@).to_set(),
                ),
            forall|k: int| 0 <= k < r@.len() ==> in_grid(self@, #[trigger] upts(r@)[k]),
    {
        let ghost g = self@;
        let ghost si = (s.0 as int, s.1 as int);
        let ghost ei = (e.0 as int, e.1 as int);
        let ghost fl = upts(frontier@);
        let ghost rr = choose|rr: Set<(int, int)>| marks(seen@, g, rr);
        assert(self.input@[0]@ == g[0]);
        let bd = Boundary::new_array_boundary(self.input[0].len(), self.input.len());
        assert(bd == bounds(g));
        let ds = [Direction::Up, Direction::Right, Direction::Down, Direction::Left];
        assert(ds@ =~= dirs());
        let mut out: Vec<(usize, usize)> = Vec::new();
        let mut i: usize = 0;
        while i < frontier.len()
            invariant
                rectangular(g),
                g == self@,
                si == (s.0 as int, s.1 as int),
                ei == (e.0 as int, e.1 as int),
                bd == bounds(g),
                ds@ == dirs(),
                fl == upts(frontier@),
                forall|k: int| 0 <= k < fl.len() ==> in_grid(g, #[trigger] fl[k]),
                i <= fl.len(),
                marks(seen@, g, rr.union(upts(out@).to_set())),
                forall|k: int| 0 <= k < out@.len() ==> in_grid(g, #[trigger] upts(out@)[k]),
                forall|q: (int, int)|
                    upts(out@).to_set().contains(q) <==> (!rr.contains(q) && produced(g, si, ei, fl, i as int, 0, q)),
            decreases fl.len() - i,
        {
            let p = frontier[i];
            assert(fl[i as int] == (p.0 as int, p.1 as int));
            let hp = self.height_at(s, e, p);
            let mut d: usize = 0;
            while d < 4
                invariant
                    rectangular(g),
                    g == self@,
                    si == (s.0 as int, s.1 as int),
                    ei == (e.0 as int, e.1 as int),
                    0 <= hp <= 0x11_0000,
                    bd == bounds(g),
                    ds@ == dirs(),
                    fl == upts(frontier@),
                    forall|k: int| 0 <= k < fl.len() ==> in_grid(g, #[trigger] fl[k]),
                    i < fl.len(),
                    p == frontier@[i as int],
                    hp == height(g, si, ei, fl[i as int]),
                    d <= 4,
                    marks(seen@, g, rr.union(upts(out@).to_set())),
                    forall|k: int| 0 <= k < out@.len() ==> in_grid(g, #[trigger] upts(out@)[k]),
                    forall|q: (int, int)|
                        upts(out@).to_set().contains(q) <==> (!rr.contains(q) && produced(g, si, ei, fl, i as int, d as int, q)),
                decreases 4 - d,
            {
                let ghost mv = moved(bd, p.0 as int, p.1 as int, dirs()[d as int]);
                let ghost before = upts(out@);
                let ghost cur = rr.union(before.to_set());
                let ghost old_seen = seen@;
                match bd.move_array_iterator(p, &ds[d]) {
                    Some(q) => {
                        let ghost qi = (q.0 as int, q.1 as int);
                        assert(mv == Some(qi));
                        assert(in_grid(g, qi));
                        let hq = self.height_at(s, e, q);
                        assert(seen@[q.0 as int] == seen[q.0 as int]);
                        let marked = seen[q.0][q.1];
                        assert(marked == cur.contains(qi));
                        if !marked && hq <= hp + 1 {
                            let mut row = seen[q.0].clone();
                            row.set(q.1, true);
                            seen.set(q.0, row);
                            out.push(q);
                            assert(upts(out@) =~= before.push(qi));
                            proof {
                                assert forall|x: (int, int)| upts(out@).to_set().contains(x) <==> (before.to_set().contains(x) || x == qi) by {
                                    if upts(out@).contains(x) && x != qi {
                                        let k = choose|k: int| 0 <= k < upts(out@).len() && upts(out@)[k] == x;
                                        assert(before[k] == x);
                                    }
                                    if before.contains(x) {
                                        let k = choose|k: int| 0 <= k < before.len() && before[k] == x;
                                        assert(upts(out@)[k] == x);
                                    }
                                    if x == qi {
                                        assert(upts(out@)[before.len() as int] == x);
                                    }
                                }
                                let nr = rr.union(upts(out@).to_set());
                                assert forall|a: int, b: int| in_grid(g, (a, b)) implies (seen@[a]@[b] <==> #[trigger] nr.contains((a, b))) by {
                                    assert(old_seen[a]@[b] <==> cur.contains((a, b)));
                                    if a == q.0 as int {
                                        if b != q.1 as int {
                                            assert(seen@[a]@[b] == old_seen[a]@[b]);
                                        }
                                    } else {
                                        assert(seen@[a] == old_seen[a]);
                                    }
                                }
                                assert forall|ii: int| 0 <= ii < g.len() implies (#[trigger] seen@[ii])@.len() == g[ii].len() by {
                                    if ii != q.0 as int {
                                        assert(seen@[ii] == old_seen[ii]);
                                    }
                                }
                                assert forall|x: (int, int)| #[trigger] nr.contains(x) implies in_grid(g, x) by {
                                    if x != qi {
                                        assert(cur.contains(x));
                                    }
                                }
                                assert(marks(seen@, g, nr));
                            }
                        }
                        assert(forall|x: (int, int)| upts(out@).to_set().contains(x) <==> (before.to_set().contains(x) || (mv == Some(x)
                            && height(g, si, ei, x) <= hp + 1 && !cur.contains(x))));
                    },
                    None => {
                        assert(mv is None);
                        assert(upts(out@) == before);
                        assert(forall|x: (int, int)| upts(out@).to_set().contains(x) <==> (before.to_set().contains(x) || (mv == Some(x)
                            && height(g, si, ei, x) <= hp + 1 && !cur.contains(x))));
                    },
                }
                proof {
                    lemma_step_update(g, si, ei, rr, fl, i as int, d as int, before.to_set(), upts(out@).to_set(), mv, hp as int);
                }
                d += 1;
            }
            assert(d == 4);
            let ghost pi = i as int;
            assert(forall|q: (int, int)|
                upts(out@).to_set().contains(q) <==> (!rr.contains(q) && produced(g, si, ei, fl, pi, 4, q)));
            i += 1;
            proof {
                lemma_next_point(g, si, ei, fl, pi);
                assert(i as int == pi + 1);
                assert forall|q: (int, int)|
                    upts(out@).to_set().contains(q) <==> (!rr.contains(q) && produced(g, si, ei, fl, i as int, 0, q)) by {
                    assert(upts(out@).to_set().contains(q) <==> (!rr.contains(q) && produced(g, si, ei, fl, pi, 4, q)));
                    assert(produced(g, si, ei, fl, pi, 4, q) <==> produced(g, si, ei, fl, pi + 1, 0, q));
                }
            }
        }
        proof {
            assert(i == fl.len());
            lemma_fresh_done(g, si, ei, rr, fl, upts(out@).to_set());
            assert forall|r2: Set<(int, int)>| marks(old(seen)@, g, r2) implies r2 == rr by {
                assert forall|x: (int, int)| r2.contains(x) <==> rr.contains(x) by {
                    if r2.contains(x) {
                        assert(in_grid(g, x));
                        assert(old(seen)@[x.0]@[x.1] <==> r2.contains((x.0, x.1)));
                    }
                    if rr.contains(x) {
                        assert(in_grid(g, x));
                        assert(old(seen)@[x.0]@[x.1] <==> rr.contains((x.0, x.1)));
                    }
                }
                assert(r2 =~= rr);
            }
        }
        out
    }
}

proof fn lemma_first_of_unique(g: Seq<Seq<char>>, c: char, a: (int, int), b: (int, int))
    requires
        first_of(g, c, a),
        first_of(g, c, b),
    ensures
        a == b,
{
    if a.0 < b.0 || (a.0 == b.0 && a.1 < b.1) {
        assert(g[a.0][a.1] != c);
    } else if b.0 < a.0 || (b.0 == a.0 && b.1 < a.1) {
        assert(g[b.0][b.1] != c);
    }
}

impl Solver {
    /// The first place, row by row, that holds `c`.
    fn get_pos(&self, c: char) -> (r: (usize, usize))
        requires
            rectangular(self@),
            exists|p: (int, int)| first_of(self@, c, p),
        ensures
            (r.0 as int, r.1 as int) == position(self@, c),
            in_grid(self@, (r.0 as int, r.1 as int)),
    {
        let ghost g = self@;
        let ghost w = choose|p: (int, int)| first_of(g, c, p);
        let mut i: usize = 0;
        while i < self.input.len()
            invariant
                g == self@,
                rectangular(g),
                first_of(g, c, w),
                i <= g.len(),
                i <= w.0,
                forall|a: int, b: int| #![trigger g[a][b]] in_grid(g, (a, b)) && a < i ==> g[a][b] != c,
            decreases g.len() - i,
        {
            assert(g[i as int] == self.input@[i as int]@);
            let row = &self.input[i];
            let mut j: usize = 0;
            while j < row.len()
                invariant
                    g == self@,
                    rectangular(g),
                    first_of(g, c, w),
                    i < g.len(),
                    i <= w.0,
                    row@ == g[i as int],
                    j <= row@.len(),
                    forall|a: int, b: int| #![trigger g[a][b]] in_grid(g, (a, b)) && a < i ==> g[a][b] != c,
                    forall|b: int| 0 <= b < j ==> g[i as int][b] != c,
                decreases row@.len() - j,
            {
                if row[j] == c {
                    proof {
                        assert(first_of(g, c, (i as int, j as int)));
                        lemma_first_of_unique(g, c, (i as int, j as int), w);
                        lemma_first_of_unique(g, c, position(g, c), w);
                    }
                    return (i, j);
                }
                j += 1;
            }
            proof {
                if w.0 == i {
                    assert(g[w.0][w.1] != c);
                }
            }
            i += 1;
        }
        proof {
            assert(g[w.0][w.1] != c);
        }
        (0, 0)
    }

    /// The fewest steps from `s` to `e`, or `usize::MAX`.
    fn climb(&self, s: (usize, usize), e: (usize, usize)) -> (r: usize)
        requires
            rectangular(self@),
            in_grid(self@, (s.0 as int, s.1 as int)),
            in_grid(self@, (e.0 as int, e.1 as int)),
        ensures
            r == distance(self@, (s.0 as int, s.1 as int), (e.0 as int, e.1 as int)),
    {
        let ghost g = self@;
        let ghost si = (s.0 as int, s.1 as int);
        let ghost ei = (e.0 as int, e.1 as int);
        let rows = self.input.len();
        assert(g[0] == self.input@[0]@);
        let cols = self.input[0].len();
        let mut seen: Vec<Vec<bool>> = Vec::new();
        let mut a: usize = 0;
        while a < rows
            invariant
                g == self@,
                rectangular(g),
                rows == g.len(),
                cols == g[0].len(),
                a <= rows,
                seen@.len() == a,
                forall|i: int| 0 <= i < a ==> (#[trigger] seen@[i])@.len() == cols,
                forall|i: int, j: int| 0 <= i < a && 0 <= j < cols ==> !seen@[i]@[j] || (i == si.0 && j == si.1),
                forall|i: int| 0 <= i < a ==> (seen@[i]@[si.1] <==> i == si.0),
                si == (s.0 as int, s.1 as int),
                in_grid(g, si),
            decreases rows - a,
        {
            let mut row: Vec<bool> = Vec::new();
            let mut b: usize = 0;
            while b < cols
                invariant
                    b <= cols,
                    row@.len() == b,
                    forall|j: int| 0 <= j < b ==> row@[j] == (a == s.0 && j == s.1),
                decreases cols - b,
            {
                row.push(a == s.0 && b == s.1);
                b += 1;
            }
            seen.push(row);
            a += 1;
        }
        assert(marks(seen@, g, set![si])) by {
            assert forall|i: int, j: int| in_grid(g, (i, j)) implies (seen@[i]@[j] <==> #[trigger] set![si].contains((i, j))) by {
                assert(g[i].len() == cols);
            }
            assert forall|i: int| 0 <= i < g.len() implies (#[trigger] seen@[i])@.len() == g[i].len() by {
                assert(g[i].len() == cols);
            }
        }
        let mut frontier: Vec<(usize, usize)> = Vec::new();
        frontier.push(s);
        assert(upts(frontier@).to_set() =~= set![si]) by {
            assert(upts(frontier@) =~= seq![si]);
            assert forall|x: (int, int)| upts(frontier@).to_set().contains(x) <==> x == si by {
                if x == si {
                    assert(upts(frontier@)[0] == x);
                }
            }
        }
        assert(rows * cols <= 0xFFFF * 0xFFFF) by (nonlinear_arith)
            requires
                rows < 0x1_0000,
                cols < 0x1_0000,
        ;
        let n = rows * cols;
        assert(n == cell_count(g));
        let mut k: usize = 0;
        loop
            invariant
                g == self@,
                rectangular(g),
                si == (s.0 as int, s.1 as int),
                ei == (e.0 as int, e.1 as int),
                in_grid(g, si),
                in_grid(g, ei),
                n == cell_count(g),
                k <= n,
                marks(seen@, g, search(g, si, ei, k as nat).0),
                upts(frontier@).to_set() == search(g, si, ei, k as nat).1,
                forall|q: int| 0 <= q < frontier@.len() ==> in_grid(g, #[trigger] upts(frontier@)[q]),
                forall|j: nat| j < k ==> !(#[trigger] search(g, si, ei, j)).0.contains(ei),
            decreases n - k,
        {
            let ghost rr = search(g, si, ei, k as nat).0;
            assert(seen@[e.0 as int] == seen[e.0 as int]);
            if seen[e.0][e.1] {
                proof {
                    assert(rr.contains(ei));
                    assert(exists|kk: nat| kk <= cell_count(g) && (#[trigger] search(g, si, ei, kk)).0.contains(ei));
                    let m = choose|kk: nat|
                        kk <= cell_count(g) && (#[trigger] search(g, si, ei, kk)).0.contains(ei) && forall|j: nat|
                            j < kk ==> !(#[trigger] search(g, si, ei, j)).0.contains(ei);
                    assert(search(g, si, ei, k as nat).0.contains(ei));
                    if m < k {
                        assert(!search(g, si, ei, m).0.contains(ei));
                    } else if m > k {
                        assert(!search(g, si, ei, k as nat).0.contains(ei));
                    }
                }
                return k;
            }
            if k == n {
                proof {
                    assert(!rr.contains(ei));
                    assert forall|kk: nat| kk <= cell_count(g) implies !(#[trigger] search(g, si, ei, kk)).0.contains(ei) by {
                        if kk < k {
                        }
                    }
                }
                return usize::MAX;
            }
            proof {
                assert(exists|r2: Set<(int, int)>| marks(seen@, g, r2));
            }
            let next = self.expand(&mut seen, &frontier, s, e);
            frontier = next;
            k += 1;
        }
    }
}

impl ChallengeSolver for Solver {
    open spec fn solvable_a(&self) -> bool {
        &&& rectangular(self@)
        &&& exists|p: (int, int)| first_of(self@, 'S', p)
        &&& exists|p: (int, int)| first_of(self@, 'E', p)
    }

    open spec fn solvable_b(&self) -> bool {
        &&& rectangular(self@)
        &&& exists|p: (int, int)| first_of(self@, 'S', p)
        &&& exists|p: (int, int)| first_of(self@, 'E', p)
    }

    open spec fn answer_a(&self) -> Seq<char> {
        decimal(distance(self@, position(self@, 'S'), position(self@, 'E')) as nat)
    }

    open spec fn answer_b(&self) -> Seq<char> {
        decimal(best_from_left(self@, position(self@, 'E'), self@.len() as int) as nat)
    }

    /// The fewest steps from `S` to `E`.
    fn get_part_a_result(&self) -> (r: String) {
        let start = self.get_pos('S');
        let finish = self.get_pos('E');
        u64_to_string(self.climb(start, finish) as u64)
    }

    /// The fewest steps to `E` from any place of the first column.
    fn get_part_b_result(&self) -> (r: String) {
        let finish = self.get_pos('E');
        let ghost g = self@;
        let ghost ei = (finish.0 as int, finish.1 as int);
        let n = self.input.len();
        let mut best = self.climb((0, 0), finish);
        let mut i: usize = 1;
        while i < n
            invariant
                g == self@,
                self.solvable_b(),
                n == g.len(),
                1 <= i <= n,
                ei == (finish.0 as int, finish.1 as int),
                ei == position(g, 'E'),
                in_grid(g, ei),
                best == best_from_left(g, ei, i as int),
            decreases n - i,
        {
            let d = self.climb((i, 0), finish);
            if d < best {
                best = d;
            }
            i += 1;
        }
        u64_to_string(best as u64)
    }
}

} // verus!
