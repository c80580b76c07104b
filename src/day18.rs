use vstd::prelude::*;
use crate::text::{
    decimal, u64_to_string, non_empty, non_empty_lines, runs, trimmed_lines_of, unsigned_numbers,
    unsigned_values, views,
};
use crate::ChallengeSolver;

verus! {

pub type Cube = (u64, u64, u64);

/// The lava droplet's cubes.
pub struct Solver {
    input: Vec<Cube>,
}

pub open spec fn adjacent(p: Cube, q: Cube) -> bool {
    ((p.0 - q.0 == 1 || q.0 - p.0 == 1) && p.1 == q.1 && p.2 == q.2) || ((p.1 - q.1 == 1 || q.1 - p.1 == 1)
        && p.0 == q.0 && p.2 == q.2) || ((p.2 - q.2 == 1 || q.2 - p.2 == 1) && p.0 == q.0 && p.1 == q.1)
}

/// How many of the first `n` cubes of `s` touch cube `p`.
pub open spec fn touching(s: Seq<Cube>, p: Cube, n: int) -> int
    decreases n,
{
    if n <= 0 {
        0
    } else {
        touching(s, p, n - 1) + if adjacent(s[n - 1], p) {
            1int
        } else {
            0
        }
    }
}

/// How many sides of the first `n` cubes touch another cube.
pub open spec fn covered(s: Seq<Cube>, n: int) -> int
    decreases n,
{
    if n <= 0 {
        0
    } else {
        covered(s, n - 1) + touching(s, s[n - 1], s.len() as int)
    }
}

/// The sides of the cubes that touch no other cube.
pub open spec fn surface_of(s: Seq<Cube>) -> int {
    6 * s.len() - covered(s, s.len() as int)
}

/// The counts stay within `u64`, and no cube touches more sides than the
/// cubes have.
pub open spec fn surface_fits(s: Seq<Cube>) -> bool {
    6 * s.len() <= u64::MAX && covered(s, s.len() as int) <= 6 * s.len()
}

/// Cube `c` lies strictly between two cubes of `s` along the axis `ax`
/// (0 for x, 1 for y, 2 for z), in line with both.
pub open spec fn between(s: Seq<Cube>, c: Cube, ax: int) -> bool {
    exists|i: int, j: int|
        #![trigger s[i], s[j]]
        0 <= i < s.len() && 0 <= j < s.len() && if ax == 0 {
            s[i].1 == c.1 && s[j].1 == c.1 && s[i].2 == c.2 && s[j].2 == c.2 && c.0 < s[i].0 && c.0 > s[j].0
        } else if ax == 1 {
            s[i].0 == c.0 && s[j].0 == c.0 && s[i].2 == c.2 && s[j].2 == c.2 && c.1 < s[i].1 && c.1 > s[j].1
        } else {
            s[i].0 == c.0 && s[j].0 == c.0 && s[i].1 == c.1 && s[j].1 == c.1 && c.2 < s[i].2 && c.2 > s[j].2
        }
}

/// A gap: an empty place enclosed along all three axes.
pub open spec fn enclosed(s: Seq<Cube>, c: Cube) -> bool {
    !s.contains(c) && between(s, c, 0) && between(s, c, 1) && between(s, c, 2)
}

/// The box that the search for gaps covers: `x` from `lo.0 + 1` below
/// `hi.1`, `y` from `lo.1 + 1` below `hi.1`, `z` from `lo.2 + 1` below
/// `hi.2`.
pub open spec fn box_len(lo: Cube, hi: Cube) -> (int, int, int) {
    (
        if hi.1 - lo.0 - 1 > 0 { hi.1 - lo.0 - 1 } else { 0 },
        if hi.1 - lo.1 - 1 > 0 { hi.1 - lo.1 - 1 } else { 0 },
        if hi.2 - lo.2 - 1 > 0 { hi.2 - lo.2 - 1 } else { 0 },
    )
}

/// The gaps found along the `z` line of `(x, y)`, the first `k` places.
pub open spec fn pass_z(s: Seq<Cube>, lo: Cube, x: int, y: int, k: int) -> Seq<Cube>
    decreases k,
{
    if k <= 0 {
        s
    } else {
        let t = pass_z(s, lo, x, y, k - 1);
        let c = (x as u64, y as u64, (lo.2 + k) as u64);
        if enclosed(t, c) {
            t.push(c)
        } else {
            t
        }
    }
}

/// The gaps found in the plane of `x`, the first `k` lines.
pub open spec fn pass_y(s: Seq<Cube>, lo: Cube, hi: Cube, x: int, k: int) -> Seq<Cube>
    decreases k,
{
    if k <= 0 {
        s
    } else {
        pass_z(pass_y(s, lo, hi, x, k - 1), lo, x, lo.1 + k, box_len(lo, hi).2)
    }
}

/// One pass over the first `k` planes of the box, each gap found added at
/// once.
pub open spec fn pass_x(s: Seq<Cube>, lo: Cube, hi: Cube, k: int) -> Seq<Cube>
    decreases k,
{
    if k <= 0 {
        s
    } else {
        pass_y(pass_x(s, lo, hi, k - 1), lo, hi, lo.0 + k, box_len(lo, hi).1)
    }
}

pub open spec fn full_pass(s: Seq<Cube>, lo: Cube, hi: Cube) -> Seq<Cube> {
    pass_x(s, lo, hi, box_len(lo, hi).0)
}

pub open spec fn passes(s: Seq<Cube>, lo: Cube, hi: Cube, r: nat) -> Seq<Cube>
    decreases r,
{
    if r == 0 {
        s
    } else {
        full_pass(passes(s, lo, hi, (r - 1) as nat), lo, hi)
    }
}

/// Pass `j` (from 1) adds a gap.
pub open spec fn grew(s: Seq<Cube>, lo: Cube, hi: Cube, j: nat) -> bool {
    passes(s, lo, hi, j).len() != passes(s, lo, hi, (j - 1) as nat).len()
}

/// Pass `r` (from 1) is the first that adds nothing.
pub open spec fn settles(s: Seq<Cube>, lo: Cube, hi: Cube, r: nat) -> bool {
    r >= 1 && !grew(s, lo, hi, r) && forall|j: nat| 1 <= j < r ==> #[trigger] grew(s, lo, hi, j)
}

pub open spec fn settle_count(s: Seq<Cube>) -> nat {
    choose|r: nat| settles(s, lowest(s), highest(s), r)
}

pub open spec fn filled(s: Seq<Cube>, lo: Cube, hi: Cube) -> Seq<Cube> {
    passes(s, lo, hi, choose|r: nat| settles(s, lo, hi, r))
}

pub open spec fn lowest(s: Seq<Cube>) -> Cube
    decreases s.len(),
{
    if s.len() == 0 {
        (u64::MAX, u64::MAX, u64::MAX)
    } else {
        let a = lowest(s.drop_last());
        let c = s.last();
        (if c.0 < a.0 { c.0 } else { a.0 }, if c.1 < a.1 { c.1 } else { a.1 }, if c.2 < a.2 { c.2 } else { a.2 })
    }
}

pub open spec fn highest(s: Seq<Cube>) -> Cube
    decreases s.len(),
{
    if s.len() == 0 {
        (0, 0, 0)
    } else {
        let a = highest(s.drop_last());
        let c = s.last();
        (if c.0 > a.0 { c.0 } else { a.0 }, if c.1 > a.1 { c.1 } else { a.1 }, if c.2 > a.2 { c.2 } else { a.2 })
    }
}

pub open spec fn in_line(a: Cube, b: Cube, c: Cube, ax: int) -> bool {
    if ax == 0 {
        a.1 == c.1 && b.1 == c.1 && a.2 == c.2 && b.2 == c.2 && c.0 < a.0 && c.0 > b.0
    } else if ax == 1 {
        a.0 == c.0 && b.0 == c.0 && a.2 == c.2 && b.2 == c.2 && c.1 < a.1 && c.1 > b.1
    } else {
        a.0 == c.0 && b.0 == c.0 && a.1 == c.1 && b.1 == c.1 && c.2 < a.2 && c.2 > b.2
    }
}

fn in_line_exec(a: Cube, b: Cube, c: Cube, ax: u8) -> (r: bool)
    ensures
        r == in_line(a, b, c, ax as int),
{
    if ax == 0 {
        a.1 == c.1 && b.1 == c.1 && a.2 == c.2 && b.2 == c.2 && c.0 < a.0 && c.0 > b.0
    } else if ax == 1 {
        a.0 == c.0 && b.0 == c.0 && a.2 == c.2 && b.2 == c.2 && c.1 < a.1 && c.1 > b.1
    } else {
        a.0 == c.0 && b.0 == c.0 && a.1 == c.1 && b.1 == c.1 && c.2 < a.2 && c.2 > b.2
    }
}

fn is_between(v: &Vec<Cube>, c: Cube, ax: u8) -> (r: bool)
    ensures
        r == between(v@, c, ax as int),
{
    let n = v.len();
    let mut i: usize = 0;
    while i < n
        invariant
            n == v@.len(),
            i <= n,
            forall|a: int, b: int| 0 <= a < i && 0 <= b < n ==> !in_line(v@[a], v@[b], c, ax as int),
        decreases n - i,
    {
        let mut j: usize = 0;
        while j < n
            invariant
                n == v@.len(),
                i < n,
                j <= n,
                forall|a: int, b: int| 0 <= a < i && 0 <= b < n ==> !in_line(v@[a], v@[b], c, ax as int),
                forall|b: int| 0 <= b < j ==> !in_line(v@[i as int], v@[b], c, ax as int),
            decreases n - j,
        {
            if in_line_exec(v[i], v[j], c, ax) {
                proof {
                    assert(in_line(v@[i as int], v@[j as int], c, ax as int));
                }
                return true;
            }
            j += 1;
        }
        i += 1;
    }
    proof {
        if between(v@, c, ax as int) {
            let (a, b) = choose|a: int, b: int|
                #![trigger v@[a], v@[b]]
                0 <= a < v@.len() && 0 <= b < v@.len() && if ax as int == 0 {
                    v@[a].1 == c.1 && v@[b].1 == c.1 && v@[a].2 == c.2 && v@[b].2 == c.2 && c.0 < v@[a].0 && c.0 > v@[b].0
                } else if ax as int == 1 {
                    v@[a].0 == c.0 && v@[b].0 == c.0 && v@[a].2 == c.2 && v@[b].2 == c.2 && c.1 < v@[a].1 && c.1 > v@[b].1
                } else {
                    v@[a].0 == c.0 && v@[b].0 == c.0 && v@[a].1 == c.1 && v@[b].1 == c.1 && c.2 < v@[a].2 && c.2 > v@[b].2
                };
            assert(in_line(v@[a], v@[b], c, ax as int));
        }
    }
    false
}

fn holds_cube(v: &Vec<Cube>, c: Cube) -> (r: bool)
    ensures
        r == v@.contains(c),
{
    let mut i: usize = 0;
    while i < v.len()
        invariant
            i <= v@.len(),
            forall|k: int| 0 <= k < i ==> v@[k] != c,
        decreases v@.len() - i,
    {
        if v[i].0 == c.0 && v[i].1 == c.1 && v[i].2 == c.2 {
            assert(v@[i as int] == c);
            return true;
        }
        i += 1;
    }
    false
}

fn is_enclosed(v: &Vec<Cube>, c: Cube) -> (r: bool)
    ensures
        r == enclosed(v@, c),
{
    !holds_cube(v, c) && is_between(v, c, 0) && is_between(v, c, 1) && is_between(v, c, 2)
}

pub open spec fn small(v: Seq<Cube>) -> bool {
    forall|k: int| 0 <= k < v.len() ==> 0 <= (#[trigger] v[k]).0 < 0x10_0000 && 0 <= v[k].1 < 0x10_0000 && 0 <= v[k].2 < 0x10_0000
}

/// One pass over the box, adding each gap as it is found.
fn gap_pass(v: &mut Vec<Cube>, lo: Cube, hi: Cube)
    requires
        0 <= lo.0 < 0x10_0000 && 0 <= lo.1 < 0x10_0000 && 0 <= lo.2 < 0x10_0000,
        0 <= hi.0 < 0x10_0000 && 0 <= hi.1 < 0x10_0000 && 0 <= hi.2 < 0x10_0000,
        small(old(v)@),
    ensures
        final(v)@ == full_pass(old(v)@, lo, hi),
        small(final(v)@),
{
    let ghost s0 = v@;
    let (nx, ny, nz) = (
        if hi.1 > lo.0 + 1 { hi.1 - lo.0 - 1 } else { 0 },
        if hi.1 > lo.1 + 1 { hi.1 - lo.1 - 1 } else { 0 },
        if hi.2 > lo.2 + 1 { hi.2 - lo.2 - 1 } else { 0 },
    );
    assert((nx as int, ny as int, nz as int) == box_len(lo, hi));
    let mut kx: u64 = 0;
    while kx < nx
        invariant
            0 <= lo.0 < 0x10_0000 && 0 <= lo.1 < 0x10_0000 && 0 <= lo.2 < 0x10_0000,
            (nx as int, ny as int, nz as int) == box_len(lo, hi),
            0 <= nx < 0x10_0000 && 0 <= ny < 0x10_0000 && 0 <= nz < 0x10_0000,
            0 <= kx <= nx,
            v@ == pass_x(s0, lo, hi, kx as int),
            small(v@),
        decreases nx - kx,
    {
        let x = lo.0 + kx + 1;
        let ghost sx = v@;
        let mut ky: u64 = 0;
        while ky < ny
            invariant
                0 <= lo.0 < 0x10_0000 && 0 <= lo.1 < 0x10_0000 && 0 <= lo.2 < 0x10_0000,
                (nx as int, ny as int, nz as int) == box_len(lo, hi),
                0 <= nx < 0x10_0000 && 0 <= ny < 0x10_0000 && 0 <= nz < 0x10_0000,
                0 <= kx < nx,
                x == lo.0 + kx + 1,
                0 <= ky <= ny,
                v@ == pass_y(sx, lo, hi, x as int, ky as int),
                small(v@),
            decreases ny - ky,
        {
            let y = lo.1 + ky + 1;
            let ghost sy = v@;
            let mut kz: u64 = 0;
            while kz < nz
                invariant
                    0 <= lo.0 < 0x10_0000 && 0 <= lo.1 < 0x10_0000 && 0 <= lo.2 < 0x10_0000,
                    0 <= nx < 0x10_0000 && 0 <= ny < 0x10_0000 && 0 <= nz < 0x10_0000,
                    0 <= kx < nx,
                    0 <= ky < ny,
                    x == lo.0 + kx + 1,
                    y == lo.1 + ky + 1,
                    0 <= kz <= nz,
                    v@ == pass_z(sy, lo, x as int, y as int, kz as int),
                    small(v@),
                decreases nz - kz,
            {
                let c = (x, y, lo.2 + kz + 1);
                if is_enclosed(v, c) {
                    v.push(c);
                }
                kz += 1;
            }
            ky += 1;
        }
        kx += 1;
    }
}

proof fn lemma_covered_prefix(s: Seq<Cube>, k: int, n: int)
    requires
        0 <= k <= n,
    ensures
        0 <= covered(s, k) <= covered(s, n),
    decreases n - k + n,
{
    lemma_covered_nonneg(s, k);
    if k < n {
        lemma_covered_prefix(s, k + 1, n);
        lemma_touching_nonneg(s, s[k], s.len() as int);
    }
}

proof fn lemma_covered_nonneg(s: Seq<Cube>, k: int)
    ensures
        0 <= covered(s, k),
    decreases k,
{
    if k > 0 {
        lemma_covered_nonneg(s, k - 1);
        lemma_touching_nonneg(s, s[k - 1], s.len() as int);
    }
}

proof fn lemma_touching_nonneg(s: Seq<Cube>, p: Cube, n: int)
    ensures
        0 <= touching(s, p, n),
        touching(s, p, n) <= if n > 0 { n } else { 0 },
    decreases n,
{
    if n > 0 {
        lemma_touching_nonneg(s, p, n - 1);
    }
}

/// The sides of the cubes that touch no other cube.
fn surface(v: &Vec<Cube>) -> (r: u64)
    requires
        surface_fits(v@),
    ensures
        r == surface_of(v@),
{
    let n = v.len();
    let mut acc: u64 = 0;
    let mut i: usize = 0;
    while i < n
        invariant
            n == v@.len(),
            surface_fits(v@),
            i <= n,
            acc == covered(v@, i as int),
        decreases n - i,
    {
        proof {
            lemma_covered_prefix(v@, i + 1, n as int);
        }
        let mut t: u64 = 0;
        let mut j: usize = 0;
        while j < n
            invariant
                n == v@.len(),
                i < n,
                j <= n,
                t == touching(v@, v@[i as int], j as int),
                t <= j,
            decreases n - j,
        {
            let a = v[j];
            let b = v[i];
            let next = |x: u64, y: u64| -> (r: bool)
                ensures
                    r == (x - y == 1 || y - x == 1),
                { (x < u64::MAX && x + 1 == y) || (y < u64::MAX && y + 1 == x) };
            let adj = (next(a.0, b.0) && a.1 == b.1 && a.2 == b.2) || (next(a.1, b.1) && a.0 == b.0 && a.2 == b.2)
                || (next(a.2, b.2) && a.0 == b.0 && a.1 == b.1);
            if adj {
                t += 1;
            }
            j += 1;
        }
        acc = acc + t;
        i += 1;
    }
    6 * (n as u64) - acc
}

pub open spec fn cube_of(l: Seq<char>) -> Cube {
    let v = unsigned_values(runs(l, false));
    (v[0] as u64, v[1] as u64, v[2] as u64)
}

pub open spec fn line_ok(l: Seq<char>) -> bool {
    let v = unsigned_values(runs(l, false));
    v.len() >= 3
}

proof fn lemma_extremes(s: Seq<Cube>)
    requires
        small(s),
        s.len() >= 1,
    ensures
        0 <= lowest(s).0 < 0x10_0000 && 0 <= lowest(s).1 < 0x10_0000 && 0 <= lowest(s).2 < 0x10_0000,
        0 <= highest(s).0 < 0x10_0000 && 0 <= highest(s).1 < 0x10_0000 && 0 <= highest(s).2 < 0x10_0000,
    decreases s.len(),
{
    assert(small(s.drop_last())) by {
        assert forall|k: int| 0 <= k < s.len() - 1 implies 0 <= (#[trigger] s.drop_last()[k]).0 < 0x10_0000 && 0 <= s.drop_last()[k].1 < 0x10_0000 && 0 <= s.drop_last()[k].2 < 0x10_0000 by {
            assert(s.drop_last()[k] == s[k]);
        }
    }
    assert(0 <= s.last().0 < 0x10_0000 && 0 <= s.last().1 < 0x10_0000 && 0 <= s.last().2 < 0x10_0000);
    if s.len() > 1 {
        lemma_extremes(s.drop_last());
    } else {
        assert(s.drop_last().len() == 0);
        assert(lowest(s.drop_last()) == (u64::MAX, u64::MAX, u64::MAX));
        assert(highest(s.drop_last()) == (0u64, 0u64, 0u64));
    }
}

fn extremes(v: &Vec<Cube>) -> (r: (Cube, Cube))
    ensures
        r.0 == lowest(v@),
        r.1 == highest(v@),
{
    let mut lo: Cube = (u64::MAX, u64::MAX, u64::MAX);
    let mut hi: Cube = (0, 0, 0);
    let mut i: usize = 0;
    assert(v@.subrange(0, 0) =~= Seq::<Cube>::empty());
    while i < v.len()
        invariant
            i <= v@.len(),
            lo == lowest(v@.subrange(0, i as int)),
            hi == highest(v@.subrange(0, i as int)),
        decreases v@.len() - i,
    {
        assert(v@.subrange(0, i + 1).drop_last() =~= v@.subrange(0, i as int));
        let c = v[i];
        lo = (if c.0 < lo.0 { c.0 } else { lo.0 }, if c.1 < lo.1 { c.1 } else { lo.1 }, if c.2 < lo.2 { c.2 } else { lo.2 });
        hi = (if c.0 > hi.0 { c.0 } else { hi.0 }, if c.1 > hi.1 { c.1 } else { hi.1 }, if c.2 > hi.2 { c.2 } else { hi.2 });
        i += 1;
    }
    assert(v@.subrange(0, i as int) =~= v@);
    (lo, hi)
}

proof fn lemma_settles_unique(s: Seq<Cube>, lo: Cube, hi: Cube, a: nat, b: nat)
    requires
        settles(s, lo, hi, a),
        settles(s, lo, hi, b),
    ensures
        a == b,
{
    if a < b {
        assert(grew(s, lo, hi, a));
    } else if b < a {
        assert(grew(s, lo, hi, b));
    }
}

impl Solver {
    pub closed spec fn view(&self) -> Seq<Cube> {
        self.input@
    }

    /// Reads one cube per line, as `x,y,z`.
    pub fn new(input: String) -> (r: Solver)
        requires
            forall|ts: Seq<Seq<char>>|
                trimmed_lines_of(ts, input@) ==> forall|k: int|
                    0 <= k < non_empty(ts).len() ==> line_ok(#[trigger] non_empty(ts)[k]),
        ensures
            exists|ts: Seq<Seq<char>>|
                trimmed_lines_of(ts, input@) && r@ == Seq::new(non_empty(ts).len(), |k: int| cube_of(non_empty(ts)[k])),
    {
        let rows = non_empty_lines(input.as_str());
        Solver::from_rows(&rows)
    }

    /// Reads the input as `new` does, or gives `None` where some line holds
    /// fewer numbers than it needs.
    pub fn try_new(input: String) -> (r: Option<Solver>)
        ensures
            r is None ==> exists|ts: Seq<Seq<char>>|
                trimmed_lines_of(ts, input@) && exists|k: int|
                    0 <= k < non_empty(ts).len() && !line_ok(#[trigger] non_empty(ts)[k]),
            r matches Some(d) ==> exists|ts: Seq<Seq<char>>|
                trimmed_lines_of(ts, input@) && (forall|k: int|
                    0 <= k < non_empty(ts).len() ==> line_ok(#[trigger] non_empty(ts)[k]))
                    && d@ == Seq::new(non_empty(ts).len(), |k: int| cube_of(non_empty(ts)[k])),
    {
        let rows = non_empty_lines(input.as_str());
        let ghost ts = choose|ts: Seq<Seq<char>>| trimmed_lines_of(ts, input@) && views(rows@) == non_empty(ts);
        let mut i: usize = 0;
        while i < rows.len()
            invariant
                i <= rows@.len(),
                trimmed_lines_of(ts, input@),
                views(rows@) == non_empty(ts),
                forall|k: int| 0 <= k < i ==> line_ok(#[trigger] views(rows@)[k]),
            decreases rows@.len() - i,
        {
            assert(views(rows@)[i as int] == rows@[i as int]@);
            if unsigned_numbers(&rows[i]).len() < 3 {
                assert(!line_ok(non_empty(ts)[i as int]));
                return None;
            }
            i += 1;
        }
        Some(Solver::from_rows(&rows))
    }

    fn from_rows(rows: &Vec<Vec<char>>) -> (r: Solver)
        requires
            forall|k: int| 0 <= k < rows@.len() ==> line_ok(#[trigger] views(rows@)[k]),
        ensures
            r@ == Seq::new(rows@.len(), |k: int| cube_of(views(rows@)[k])),
    {
        let ghost rv = views(rows@);
        let mut v: Vec<Cube> = Vec::new();
        let mut i: usize = 0;
        while i < rows.len()
            invariant
                rv == views(rows@),
                forall|k: int| 0 <= k < rv.len() ==> line_ok(#[trigger] rv[k]),
                i <= rv.len(),
                v@ == Seq::new(rv.len(), |k: int| cube_of(rv[k])).subrange(0, i as int),
            decreases rv.len() - i,
        {
            assert(rv[i as int] == rows@[i as int]@);
            assert(line_ok(rv[i as int]));
            let nums = unsigned_numbers(&rows[i]);
            v.push((nums[0] as u64, nums[1] as u64, nums[2] as u64));
            i += 1;
            assert(v@ =~= Seq::new(rv.len(), |k: int| cube_of(rv[k])).subrange(0, i as int));
        }
        assert(Seq::new(rv.len(), |k: int| cube_of(rv[k])).subrange(0, i as int) =~= Seq::new(rv.len(), |k: int| cube_of(rv[k])));
        Solver { input: v }
    }

    fn copy_cubes(&self) -> (r: Vec<Cube>)
        ensures
            r@ == self@,
    {
        let mut r: Vec<Cube> = Vec::new();
        let mut i: usize = 0;
        while i < self.input.len()
            invariant
                i <= self.input@.len(),
                r@ == self.input@.subrange(0, i as int),
            decreases self.input@.len() - i,
        {
            r.push(self.input[i]);
            i += 1;
        }
        assert(self.input@.subrange(0, i as int) =~= self.input@);
        r
    }
}

impl ChallengeSolver for Solver {
    open spec fn solvable_a(&self) -> bool {
        surface_fits(self@)
    }

    open spec fn solvable_b(&self) -> bool {
        &&& small(self@)
        &&& 1 <= self@.len()
        &&& exists|r: nat| settles(self@, lowest(self@), highest(self@), r)
        &&& surface_fits(filled(self@, lowest(self@), highest(self@)))
        &&& settle_count(self@) < 0x4000_0000
    }

    open spec fn answer_a(&self) -> Seq<char> {
        decimal(surface_of(self@) as nat)
    }

    open spec fn answer_b(&self) -> Seq<char> {
        decimal(surface_of(filled(self@, lowest(self@), highest(self@))) as nat)
    }

    /// The droplet's surface.
    fn get_part_a_result(&self) -> (r: String) {
        u64_to_string(surface(&self.input))
    }

    /// The droplet's surface once its enclosed gaps are filled.
    fn get_part_b_result(&self) -> (r: String) {
        let ghost s = self@;
        let (lo, hi) = extremes(&self.input);
        proof {
            lemma_extremes(s);
        }
        let ghost rf = settle_count(s);
        assert(rf < 0x4000_0000);
        let mut v = self.copy_cubes();
        let mut k: usize = 0;
        loop
            invariant_except_break
                (k as nat) < rf,
                forall|j: nat| 1 <= j <= k ==> #[trigger] grew(s, lo, hi, j),
            invariant
                s == self@,
                lo == lowest(s),
                hi == highest(s),
                0 <= lo.0 < 0x10_0000 && 0 <= lo.1 < 0x10_0000 && 0 <= lo.2 < 0x10_0000,
                0 <= hi.0 < 0x10_0000 && 0 <= hi.1 < 0x10_0000 && 0 <= hi.2 < 0x10_0000,
                settles(s, lo, hi, rf),
                rf < 0x4000_0000,
                (k as nat) <= rf,
                v@ == passes(s, lo, hi, k as nat),
                small(v@),
            ensures
                v@ == passes(s, lo, hi, rf),
                small(v@),
            decreases rf - k,
        {
            let before = v.len();
            gap_pass(&mut v, lo, hi);
            k = k + 1;
            assert(passes(s, lo, hi, k as nat) == full_pass(passes(s, lo, hi, (k - 1) as nat), lo, hi));
            if v.len() == before {
                proof {
                    assert(!grew(s, lo, hi, k as nat));
                    assert(settles(s, lo, hi, k as nat));
                    lemma_settles_unique(s, lo, hi, k as nat, rf);
                }
                break;
            }
            assert(grew(s, lo, hi, k as nat));
        }
        proof {
            let c = choose|r: nat| settles(s, lo, hi, r);
            lemma_settles_unique(s, lo, hi, c, rf);
        }
        assert(v@ == filled(s, lo, hi));
        u64_to_string(surface(&v))
    }
}

} // verus!
