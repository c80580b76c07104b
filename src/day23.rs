use vstd::prelude::*;
use crate::plane::Direction;
use crate::text::{decimal, signed_decimal, trimmed_lines, trimmed_lines_of, i64_to_string, u64_to_string, views};
use crate::ChallengeSolver;

verus! {

/// Where the elves stand, as (row, column).
pub struct Solver {
    elves: Vec<(i64, i64)>,
}

/// The order in which the elves try directions: north, south, west, east.
pub open spec fn next_dir(d: Direction) -> Direction {
    match d {
        Direction::Up => Direction::Down,
        Direction::Down => Direction::Left,
        Direction::Left => Direction::Right,
        _ => Direction::Up,
    }
}

pub open spec fn dir_after(d: Direction, k: nat) -> Direction
    decreases k,
{
    if k == 0 {
        d
    } else {
        next_dir(dir_after(d, (k - 1) as nat))
    }
}

/// The three places an elf looks at before stepping towards `d`.
pub open spec fn side(p: (int, int), d: Direction, q: (int, int)) -> bool {
    match d {
        Direction::Up => q.0 == p.0 - 1 && p.1 - 1 <= q.1 <= p.1 + 1,
        Direction::Down => q.0 == p.0 + 1 && p.1 - 1 <= q.1 <= p.1 + 1,
        Direction::Left => q.1 == p.1 - 1 && p.0 - 1 <= q.0 <= p.0 + 1,
        _ => q.1 == p.1 + 1 && p.0 - 1 <= q.0 <= p.0 + 1,
    }
}

pub open spec fn stepped(p: (int, int), d: Direction) -> (int, int) {
    match d {
        Direction::Up => (p.0 - 1, p.1),
        Direction::Down => (p.0 + 1, p.1),
        Direction::Left => (p.0, p.1 - 1),
        _ => (p.0, p.1 + 1),
    }
}

pub open spec fn side_free(s: Set<(int, int)>, p: (int, int), d: Direction) -> bool {
    forall|q: (int, int)| side(p, d, q) ==> !#[trigger] s.contains(q)
}

pub open spec fn near(p: (int, int), q: (int, int)) -> bool {
    q != p && p.0 - 1 <= q.0 <= p.0 + 1 && p.1 - 1 <= q.1 <= p.1 + 1
}

pub open spec fn crowded(s: Set<(int, int)>, p: (int, int)) -> bool {
    exists|q: (int, int)| #[trigger] s.contains(q) && near(p, q)
}

/// Where the elf at `p` proposes to go in a round that starts with `d`:
/// nowhere when no elf is around, else one step towards the first of four
/// directions with no elf on that side.
pub open spec fn proposal(s: Set<(int, int)>, p: (int, int), d: Direction) -> Option<(int, int)> {
    if !crowded(s, p) {
        None
    } else if side_free(s, p, d) {
        Some(stepped(p, d))
    } else if side_free(s, p, next_dir(d)) {
        Some(stepped(p, next_dir(d)))
    } else if side_free(s, p, dir_after(d, 2)) {
        Some(stepped(p, dir_after(d, 2)))
    } else if side_free(s, p, dir_after(d, 3)) {
        Some(stepped(p, dir_after(d, 3)))
    } else {
        None
    }
}

/// The elf at `p` moves: no other elf proposes the same place.
pub open spec fn mover(s: Set<(int, int)>, p: (int, int), d: Direction) -> bool {
    proposal(s, p, d) is Some && forall|q: (int, int)|
        #[trigger] s.contains(q) && q != p ==> proposal(s, q, d) != proposal(s, p, d)
}

/// The elves after one round that starts with `d`.
pub open spec fn round(s: Set<(int, int)>, d: Direction) -> Set<(int, int)> {
    Set::new(
        |x: (int, int)|
            (s.contains(x) && !mover(s, x, d)) || exists|p: (int, int)|
                #[trigger] s.contains(p) && mover(s, p, d) && proposal(s, p, d) == Some(x),
    )
}

/// Some elf proposes a move in the round.
pub open spec fn any_proposal(s: Set<(int, int)>, d: Direction) -> bool {
    exists|p: (int, int)| #[trigger] s.contains(p) && proposal(s, p, d) is Some
}

pub open spec fn after_rounds(s: Set<(int, int)>, r: nat) -> Set<(int, int)>
    decreases r,
{
    if r == 0 {
        s
    } else {
        round(after_rounds(s, (r - 1) as nat), dir_after(Direction::Up, (r - 1) as nat))
    }
}

/// Round `r` (from 1) is the first in which no elf proposes a move.
pub open spec fn first_still(s: Set<(int, int)>, r: nat) -> bool {
    r >= 1 && !any_proposal(after_rounds(s, (r - 1) as nat), dir_after(Direction::Up, (r - 1) as nat))
        && forall|j: nat|
        1 <= j < r ==> #[trigger] any_proposal(after_rounds(s, (j - 1) as nat), dir_after(Direction::Up, (j - 1) as nat))
}

pub open spec fn pts(v: Seq<(i64, i64)>) -> Seq<(int, int)> {
    v.map_values(|p: (i64, i64)| (p.0 as int, p.1 as int))
}

/// The elves of the map: `#` at row `y`, column `x` of the lines.
pub open spec fn map_elves(ts: Seq<Seq<char>>) -> Set<(int, int)> {
    Set::new(|p: (int, int)| 0 <= p.0 < ts.len() && 0 <= p.1 < ts[p.0].len() && ts[p.0][p.1] == '#')
}

pub open spec fn coord(p: (int, int), col: bool) -> int {
    if col {
        p.1
    } else {
        p.0
    }
}

/// `m` is the least row (or column) of the elves and the origin.
pub open spec fn is_low(s: Set<(int, int)>, m: int, col: bool) -> bool {
    m <= 0 && (m == 0 || exists|p: (int, int)| #[trigger] s.contains(p) && coord(p, col) == m)
        && forall|p: (int, int)| #[trigger] s.contains(p) ==> m <= coord(p, col)
}

/// `m` is the greatest row (or column) of the elves and the origin.
pub open spec fn is_high(s: Set<(int, int)>, m: int, col: bool) -> bool {
    m >= 0 && (m == 0 || exists|p: (int, int)| #[trigger] s.contains(p) && coord(p, col) == m)
        && forall|p: (int, int)| #[trigger] s.contains(p) ==> coord(p, col) <= m
}

pub open spec fn low(s: Set<(int, int)>, col: bool) -> int {
    choose|m: int| is_low(s, m, col)
}

pub open spec fn high(s: Set<(int, int)>, col: bool) -> int {
    choose|m: int| is_high(s, m, col)
}

/// The empty ground in the smallest rectangle that holds the elves and the
/// origin.
pub open spec fn empty_ground(s: Set<(int, int)>) -> int {
    (high(s, false) - low(s, false) + 1) * (high(s, true) - low(s, true) + 1) - s.len()
}
pub open spec fn within(v: Seq<(i64, i64)>, b: int) -> bool {
    forall|k: int| 0 <= k < v.len() ==> -b <= (#[trigger] v[k]).0 <= b && -b <= v[k].1 <= b
}

pub open spec fn elf_set(v: Seq<(i64, i64)>) -> Set<(int, int)> {
    pts(v).to_set()
}

proof fn lemma_in_set(v: Seq<(i64, i64)>, k: int)
    requires
        0 <= k < v.len(),
    ensures
        elf_set(v).contains((v[k].0 as int, v[k].1 as int)),
{
    assert(pts(v)[k] == (v[k].0 as int, v[k].1 as int));
}

proof fn lemma_set_member(v: Seq<(i64, i64)>, q: (int, int)) -> (k: int)
    requires
        elf_set(v).contains(q),
    ensures
        0 <= k < v.len(),
        q == (v[k].0 as int, v[k].1 as int),
{
    choose|k: int| 0 <= k < pts(v).len() && pts(v)[k] == q
}

/// Some other elf stands next to `p`.
fn is_crowded(v: &Vec<(i64, i64)>, p: (i64, i64)) -> (r: bool)
    requires
        within(v@, 0x100_0000_0000),
        -0x100_0000_0000 <= p.0 <= 0x100_0000_0000,
        -0x100_0000_0000 <= p.1 <= 0x100_0000_0000,
    ensures
        r == crowded(elf_set(v@), (p.0 as int, p.1 as int)),
{
    let ghost pp = (p.0 as int, p.1 as int);
    let mut k: usize = 0;
    while k < v.len()
        invariant
            within(v@, 0x100_0000_0000),
            -0x100_0000_0000 <= p.0 <= 0x100_0000_0000,
            -0x100_0000_0000 <= p.1 <= 0x100_0000_0000,
            pp == (p.0 as int, p.1 as int),
            k <= v@.len(),
            forall|j: int| 0 <= j < k ==> !near(pp, #[trigger] pts(v@)[j]),
        decreases v@.len() - k,
    {
        let q = v[k];
        assert(pts(v@)[k as int] == (q.0 as int, q.1 as int));
        if (q.0 != p.0 || q.1 != p.1) && p.0 - 1 <= q.0 && q.0 <= p.0 + 1 && p.1 - 1 <= q.1 && q.1 <= p.1 + 1 {
            proof {
                lemma_in_set(v@, k as int);
            }
            return true;
        }
        k += 1;
    }
    proof {
        if crowded(elf_set(v@), pp) {
            let q = choose|q: (int, int)| #[trigger] elf_set(v@).contains(q) && near(pp, q);
            let j = lemma_set_member(v@, q);
            assert(pts(v@)[j] == q);
        }
    }
    false
}

fn on_side(p: (i64, i64), d: Direction, q: (i64, i64)) -> (r: bool)
    requires
        -0x100_0000_0000 <= p.0 <= 0x100_0000_0000,
        -0x100_0000_0000 <= p.1 <= 0x100_0000_0000,
    ensures
        r == side((p.0 as int, p.1 as int), d, (q.0 as int, q.1 as int)),
{
    match d {
        Direction::Up => q.0 == p.0 - 1 && p.1 - 1 <= q.1 && q.1 <= p.1 + 1,
        Direction::Down => q.0 == p.0 + 1 && p.1 - 1 <= q.1 && q.1 <= p.1 + 1,
        Direction::Left => q.1 == p.1 - 1 && p.0 - 1 <= q.0 && q.0 <= p.0 + 1,
        _ => q.1 == p.1 + 1 && p.0 - 1 <= q.0 && q.0 <= p.0 + 1,
    }
}

/// No elf stands on the `d` side of `p`.
fn is_side_free(v: &Vec<(i64, i64)>, p: (i64, i64), d: Direction) -> (r: bool)
    requires
        -0x100_0000_0000 <= p.0 <= 0x100_0000_0000,
        -0x100_0000_0000 <= p.1 <= 0x100_0000_0000,
    ensures
        r == side_free(elf_set(v@), (p.0 as int, p.1 as int), d),
{
    let ghost pp = (p.0 as int, p.1 as int);
    let mut k: usize = 0;
    while k < v.len()
        invariant
            -0x100_0000_0000 <= p.0 <= 0x100_0000_0000,
            -0x100_0000_0000 <= p.1 <= 0x100_0000_0000,
            pp == (p.0 as int, p.1 as int),
            k <= v@.len(),
            forall|j: int| 0 <= j < k ==> !side(pp, d, #[trigger] pts(v@)[j]),
        decreases v@.len() - k,
    {
        assert(pts(v@)[k as int] == (v@[k as int].0 as int, v@[k as int].1 as int));
        if on_side(p, d, v[k]) {
            proof {
                lemma_in_set(v@, k as int);
            }
            return false;
        }
        k += 1;
    }
    proof {
        assert forall|q: (int, int)| side(pp, d, q) implies !#[trigger] elf_set(v@).contains(q) by {
            if elf_set(v@).contains(q) {
                let j = lemma_set_member(v@, q);
                assert(pts(v@)[j] == q);
            }
        }
    }
    true
}

fn cycle_direction(d: Direction) -> (r: Direction)
    ensures
        r == next_dir(d),
{
    match d {
        Direction::Up => Direction::Down,
        Direction::Down => Direction::Left,
        Direction::Left => Direction::Right,
        _ => Direction::Up,
    }
}

fn step_towards(p: (i64, i64), d: Direction) -> (r: (i64, i64))
    requires
        -0x100_0000_0000 <= p.0 <= 0x100_0000_0000,
        -0x100_0000_0000 <= p.1 <= 0x100_0000_0000,
    ensures
        (r.0 as int, r.1 as int) == stepped((p.0 as int, p.1 as int), d),
{
    match d {
        Direction::Up => (p.0 - 1, p.1),
        Direction::Down => (p.0 + 1, p.1),
        Direction::Left => (p.0, p.1 - 1),
        _ => (p.0, p.1 + 1),
    }
}

pub open spec fn pt_opt(o: Option<(i64, i64)>) -> Option<(int, int)> {
    match o {
        Some(q) => Some((q.0 as int, q.1 as int)),
        None => None,
    }
}

/// Where the elf at `p` proposes to go.
fn propose(v: &Vec<(i64, i64)>, p: (i64, i64), d: Direction) -> (r: Option<(i64, i64)>)
    requires
        within(v@, 0x100_0000_0000),
        -0x100_0000_0000 <= p.0 <= 0x100_0000_0000,
        -0x100_0000_0000 <= p.1 <= 0x100_0000_0000,
    ensures
        pt_opt(r) == proposal(elf_set(v@), (p.0 as int, p.1 as int), d),
{
    if !is_crowded(v, p) {
        return None;
    }
    let mut dd = d;
    let mut k: usize = 0;
    assert(dir_after(d, 0) == d);
    assert(dir_after(d, 1) == next_dir(d));
    assert(dir_after(d, 2) == next_dir(next_dir(d)));
    assert(dir_after(d, 3) == next_dir(next_dir(next_dir(d))));
    while k < 4
        invariant
            -0x100_0000_0000 <= p.0 <= 0x100_0000_0000,
            -0x100_0000_0000 <= p.1 <= 0x100_0000_0000,
            k <= 4,
            crowded(elf_set(v@), (p.0 as int, p.1 as int)),
            dd == dir_after(d, k as nat),
            forall|j: nat| j < k ==> !side_free(elf_set(v@), (p.0 as int, p.1 as int), #[trigger] dir_after(d, j)),
        decreases 4 - k,
    {
        if is_side_free(v, p, dd) {
            let ghost sp = elf_set(v@);
            let ghost pp = (p.0 as int, p.1 as int);
            proof {
                if k > 0 {
                    assert(!side_free(sp, pp, dir_after(d, 0)));
                }
                if k > 1 {
                    assert(!side_free(sp, pp, dir_after(d, 1)));
                }
                if k > 2 {
                    assert(!side_free(sp, pp, dir_after(d, 2)));
                }
                assert(k == 0 || k == 1 || k == 2 || k == 3);
            }
            return Some(step_towards(p, dd));
        }
        dd = cycle_direction(dd);
        k += 1;
    }
    assert(!side_free(elf_set(v@), (p.0 as int, p.1 as int), dir_after(d, 0)));
    assert(!side_free(elf_set(v@), (p.0 as int, p.1 as int), dir_after(d, 1)));
    None
}

proof fn lemma_dest_free(s: Set<(int, int)>, p: (int, int), d: Direction)
    requires
        proposal(s, p, d) is Some,
    ensures
        !s.contains(proposal(s, p, d)->0),
{
    let dd = if side_free(s, p, d) {
        d
    } else if side_free(s, p, next_dir(d)) {
        next_dir(d)
    } else if side_free(s, p, dir_after(d, 2)) {
        dir_after(d, 2)
    } else {
        dir_after(d, 3)
    };
    assert(side(p, dd, stepped(p, dd)));
}

/// One round that starts with direction `d`: the elves after it, and
/// whether any elf proposed a move.
fn play_round(v: &Vec<(i64, i64)>, d: Direction, b: i64) -> (r: (Vec<(i64, i64)>, bool))
    requires
        0 <= b < 0x100_0000_0000,
        within(v@, b as int),
        pts(v@).no_duplicates(),
    ensures
        pts(r.0@).no_duplicates(),
        within(r.0@, b + 1),
        elf_set(r.0@) == round(elf_set(v@), d),
        r.1 == any_proposal(elf_set(v@), d),
{
    let ghost s = elf_set(v@);
    let ghost pv = pts(v@);
    let n = v.len();
    let mut props: Vec<Option<(i64, i64)>> = Vec::new();
    let mut any = false;
    let mut i: usize = 0;
    while i < n
        invariant
            n == v@.len(),
            s == elf_set(v@),
            pv == pts(v@),
            0 <= b < 0x100_0000_0000,
            within(v@, b as int),
            i <= n,
            props@.len() == i,
            forall|k: int| 0 <= k < i ==> pt_opt(#[trigger] props@[k]) == proposal(s, pv[k], d),
            any == exists|k: int| 0 <= k < i && (#[trigger] props@[k]) is Some,
        decreases n - i,
    {
        assert(pv[i as int] == (v@[i as int].0 as int, v@[i as int].1 as int));
        let o = propose(v, v[i], d);
        let ghost old_props = props@;
        let ghost old_any = any;
        if o.is_some() {
            any = true;
        }
        props.push(o);
        assert(props@[i as int] == o);
        proof {
            assert forall|kk: int| 0 <= kk < i implies props@[kk] == old_props[kk] by {}
            if o is Some {
                assert(props@[i as int] is Some);
            } else {
                if exists|kk: int| 0 <= kk < i + 1 && (#[trigger] props@[kk]) is Some {
                    let kk = choose|kk: int| 0 <= kk < i + 1 && (#[trigger] props@[kk]) is Some;
                    assert(kk != i);
                    assert(old_props[kk] is Some);
                }
                if old_any {
                    let kk = choose|kk: int| 0 <= kk < i && (#[trigger] old_props[kk]) is Some;
                    assert(props@[kk] is Some);
                }
            }
        }
        i += 1;
    }
    assert(any == any_proposal(s, d)) by {
        if any {
            let k = choose|k: int| 0 <= k < n && (#[trigger] props@[k]) is Some;
            assert(pt_opt(props@[k]) == proposal(s, pv[k], d));
            assert(s.contains(pv[k])) by { lemma_in_set(v@, k); }
        }
        if any_proposal(s, d) {
            let p = choose|p: (int, int)| #[trigger] s.contains(p) && proposal(s, p, d) is Some;
            let k = lemma_set_member(v@, p);
            assert(pv[k] == p);
            assert(pt_opt(props@[k]) == proposal(s, pv[k], d));
        }
    }
    let mut out: Vec<(i64, i64)> = Vec::new();
    let mut k: usize = 0;
    while k < n
        invariant
            n == v@.len(),
            s == elf_set(v@),
            pv == pts(v@),
            pv.no_duplicates(),
            0 <= b < 0x100_0000_0000,
            within(v@, b as int),
            props@.len() == n,
            forall|j: int| 0 <= j < n ==> pt_opt(#[trigger] props@[j]) == proposal(s, pv[j], d),
            k <= n,
            out@.len() == k,
            forall|j: int|
                0 <= j < k ==> #[trigger] pts(out@)[j] == if mover(s, pv[j], d) {
                    proposal(s, pv[j], d)->0
                } else {
                    pv[j]
                },
            within(out@, b + 1),
        decreases n - k,
    {
        let pk = props[k];
        let mut unique = pk.is_some();
        let mut j: usize = 0;
        while j < n
            invariant
                n == v@.len(),
                props@.len() == n,
                k < n,
                pk == props@[k as int],
                j <= n,
                unique == (pk is Some && forall|jj: int| 0 <= jj < j && jj != k ==> props@[jj] != pk),
            decreases n - j,
        {
            if j != k && props[j] == pk {
                unique = false;
            }
            j += 1;
        }
        proof {
            let p = pv[k as int];
            assert(s.contains(p)) by { lemma_in_set(v@, k as int); }
            assert(unique == mover(s, p, d)) by {
                if unique {
                    assert forall|q: (int, int)| #[trigger] s.contains(q) && q != p implies proposal(s, q, d) != proposal(s, p, d) by {
                        let jj = lemma_set_member(v@, q);
                        assert(pv[jj] == q);
                        assert(jj != k);
                        assert(props@[jj] != pk);
                        assert(pt_opt(props@[jj]) == proposal(s, q, d));
                        assert(pt_opt(pk) == proposal(s, p, d));
                    }
                }
                if mover(s, p, d) {
                    assert forall|jj: int| 0 <= jj < n && jj != k implies props@[jj] != pk by {
                        assert(pv[jj] != pv[k as int]);
                        assert(s.contains(pv[jj])) by { lemma_in_set(v@, jj); }
                        assert(pt_opt(props@[jj]) == proposal(s, pv[jj], d));
                    }
                }
            }
        }
        let ghost before = pts(out@);
        if unique {
            let q = pk.unwrap();
            out.push(q);
        } else {
            out.push(v[k]);
        }
        assert(pts(out@) =~= before.push(pts(out@)[k as int]));
        k += 1;
    }
    proof {
        let po = pts(out@);
        let nr = round(s, d);
        assert forall|x: (int, int)| po.to_set().contains(x) <==> nr.contains(x) by {
            if po.contains(x) {
                let j = choose|j: int| 0 <= j < po.len() && po[j] == x;
                assert(s.contains(pv[j])) by { lemma_in_set(v@, j); }
            }
            if nr.contains(x) {
                if s.contains(x) && !mover(s, x, d) {
                    let j = lemma_set_member(v@, x);
                    assert(pv[j] == x);
                    assert(po[j] == x);
                } else {
                    let p = choose|p: (int, int)| #[trigger] s.contains(p) && mover(s, p, d) && proposal(s, p, d) == Some(x);
                    let j = lemma_set_member(v@, p);
                    assert(pv[j] == p);
                    assert(po[j] == x);
                }
            }
        }
        assert(po.to_set() =~= nr);
        assert forall|a: int, c: int| 0 <= a < po.len() && 0 <= c < po.len() && a != c implies po[a] != po[c] by {
            let pa = pv[a];
            let pc = pv[c];
            assert(s.contains(pa)) by { lemma_in_set(v@, a); }
            assert(s.contains(pc)) by { lemma_in_set(v@, c); }
            assert(pa != pc);
            if mover(s, pa, d) {
                lemma_dest_free(s, pa, d);
            }
            if mover(s, pc, d) {
                lemma_dest_free(s, pc, d);
            }
        }
    }
    (out, any)
}

proof fn lemma_low_unique(s: Set<(int, int)>, a: int, b: int, col: bool)
    requires
        is_low(s, a, col),
        is_low(s, b, col),
    ensures
        a == b,
{
    if a != 0 {
        let p = choose|p: (int, int)| #[trigger] s.contains(p) && coord(p, col) == a;
    }
    if b != 0 {
        let p = choose|p: (int, int)| #[trigger] s.contains(p) && coord(p, col) == b;
    }
}

proof fn lemma_high_unique(s: Set<(int, int)>, a: int, b: int, col: bool)
    requires
        is_high(s, a, col),
        is_high(s, b, col),
    ensures
        a == b,
{
    if a != 0 {
        let p = choose|p: (int, int)| #[trigger] s.contains(p) && coord(p, col) == a;
    }
    if b != 0 {
        let p = choose|p: (int, int)| #[trigger] s.contains(p) && coord(p, col) == b;
    }
}

/// The least and greatest row or column of the elves and the origin.
fn extent(v: &Vec<(i64, i64)>, col: bool) -> (r: (i64, i64))
    ensures
        is_low(elf_set(v@), r.0 as int, col),
        is_high(elf_set(v@), r.1 as int, col),
{
    let ghost s = elf_set(v@);
    let mut lo: i64 = 0;
    let mut hi: i64 = 0;
    let mut k: usize = 0;
    while k < v.len()
        invariant
            s == elf_set(v@),
            k <= v@.len(),
            lo <= 0 <= hi,
            lo == 0 || exists|j: int| 0 <= j < k && coord(#[trigger] pts(v@)[j], col) == lo,
            hi == 0 || exists|j: int| 0 <= j < k && coord(#[trigger] pts(v@)[j], col) == hi,
            forall|j: int| 0 <= j < k ==> lo <= coord(#[trigger] pts(v@)[j], col) <= hi,
        decreases v@.len() - k,
    {
        let c = if col { v[k].1 } else { v[k].0 };
        assert(coord(pts(v@)[k as int], col) == c);
        if c < lo {
            lo = c;
        }
        if c > hi {
            hi = c;
        }
        k += 1;
    }
    proof {
        assert forall|p: (int, int)| #[trigger] s.contains(p) implies lo <= coord(p, col) <= hi by {
            let j = lemma_set_member(v@, p);
            assert(pts(v@)[j] == p);
        }
        if lo != 0 {
            let j = choose|j: int| 0 <= j < k && coord(#[trigger] pts(v@)[j], col) == lo;
            assert(s.contains(pts(v@)[j])) by { lemma_in_set(v@, j); }
        }
        if hi != 0 {
            let j = choose|j: int| 0 <= j < k && coord(#[trigger] pts(v@)[j], col) == hi;
            assert(s.contains(pts(v@)[j])) by { lemma_in_set(v@, j); }
        }
    }
    (lo, hi)
}

impl Solver {
    pub closed spec fn view(&self) -> Set<(int, int)> {
        elf_set(self.elves@)
    }

    pub closed spec fn wf(&self) -> bool {
        pts(self.elves@).no_duplicates() && within(self.elves@, 0x4000_0000)
    }

    /// Reads the map: `#` marks an elf.
    pub fn new(input: String) -> (r: Solver)
        requires
            forall|ts: Seq<Seq<char>>|
                trimmed_lines_of(ts, input@) ==> ts.len() < 0x4000_0000 && forall|k: int|
                    0 <= k < ts.len() ==> (#[trigger] ts[k]).len() < 0x4000_0000,
        ensures
            r.wf(),
            exists|ts: Seq<Seq<char>>| trimmed_lines_of(ts, input@) && r@ == map_elves(ts),
    {
        let lines = trimmed_lines(input.as_str());
        let ghost ts = views(lines@);
        let mut elves: Vec<(i64, i64)> = Vec::new();
        let mut y: usize = 0;
        while y < lines.len()
            invariant
                ts == views(lines@),
                ts.len() < 0x4000_0000,
                forall|k: int| 0 <= k < ts.len() ==> (#[trigger] ts[k]).len() < 0x4000_0000,
                y <= ts.len(),
                pts(elves@).no_duplicates(),
                within(elves@, 0x4000_0000),
                forall|j: int| 0 <= j < elves@.len() ==> (#[trigger] pts(elves@)[j]).0 < y,
                forall|q: (int, int)|
                    elf_set(elves@).contains(q) <==> (map_elves(ts).contains(q) && q.0 < y),
            decreases ts.len() - y,
        {
            let row = &lines[y];
            assert(row@ == ts[y as int]);
            let mut x: usize = 0;
            while x < row.len()
                invariant
                    ts == views(lines@),
                    ts.len() < 0x4000_0000,
                    forall|k: int| 0 <= k < ts.len() ==> (#[trigger] ts[k]).len() < 0x4000_0000,
                    y < ts.len(),
                    row@ == ts[y as int],
                    x <= row@.len(),
                    pts(elves@).no_duplicates(),
                    within(elves@, 0x4000_0000),
                    forall|j: int|
                        0 <= j < elves@.len() ==> (#[trigger] pts(elves@)[j]).0 < y || (pts(elves@)[j].0 == y
                            && pts(elves@)[j].1 < x),
                    forall|q: (int, int)|
                        elf_set(elves@).contains(q) <==> (map_elves(ts).contains(q) && (q.0 < y || (q.0
                            == y && q.1 < x))),
                decreases row@.len() - x,
            {
                if row[x] == '#' {
                    let ghost before = pts(elves@);
                    let e = (y as i64, x as i64);
                    elves.push(e);
                    let ghost np = (y as int, x as int);
                    assert(pts(elves@) =~= before.push(np));
                    proof {
                        assert forall|a: int, c: int| 0 <= a < pts(elves@).len() && 0 <= c < pts(elves@).len() && a != c implies pts(elves@)[a] != pts(elves@)[c] by {
                            if a < before.len() && c < before.len() {
                            } else if a == before.len() {
                                assert(before[c] == pts(elves@)[c]);
                            } else {
                                assert(before[a] == pts(elves@)[a]);
                            }
                        }
                        assert forall|q: (int, int)| elf_set(elves@).contains(q) <==> (map_elves(ts).contains(q) && (q.0 < y || (q.0 == y && q.1 < x + 1))) by {
                            if pts(elves@).contains(q) && q != np {
                                let j = choose|j: int| 0 <= j < pts(elves@).len() && pts(elves@)[j] == q;
                                assert(before[j] == q);
                                assert(before.contains(q));
                            }
                            if before.contains(q) {
                                let j = choose|j: int| 0 <= j < before.len() && before[j] == q;
                                assert(pts(elves@)[j] == q);
                            }
                            if q == np {
                                assert(pts(elves@)[before.len() as int] == q);
                            }
                        }
                    }
                } else {
                    proof {
                        assert forall|q: (int, int)| elf_set(elves@).contains(q) <==> (map_elves(ts).contains(q) && (q.0 < y || (q.0 == y && q.1 < x + 1))) by {
                            if q == (y as int, x as int) {
                                assert(ts[y as int][x as int] != '#');
                            }
                        }
                    }
                }
                x += 1;
            }
            proof {
                assert forall|q: (int, int)| elf_set(elves@).contains(q) <==> (map_elves(ts).contains(q) && q.0 < y + 1) by {
                    if map_elves(ts).contains(q) && q.0 == y {
                        assert(q.1 < row@.len());
                    }
                }
            }
            y += 1;
        }
        let r = Solver { elves };
        assert(r@ =~= map_elves(ts)) by {
            assert forall|q: (int, int)| r@.contains(q) <==> map_elves(ts).contains(q) by {}
        }
        r
    }

    /// The elves after `n` rounds, the first one starting with north.
    fn rounds(&self, n: usize) -> (r: Vec<(i64, i64)>)
        requires
            self.wf(),
            n <= 10,
        ensures
            elf_set(r@) == after_rounds(self@, n as nat),
            pts(r@).no_duplicates(),
            within(r@, 0x4000_0000 + n),
    {
        let mut v = self.copy_elves();
        let mut d = Direction::Up;
        let mut k: usize = 0;
        while k < n
            invariant
                n <= 10,
                k <= n,
                d == dir_after(Direction::Up, k as nat),
                elf_set(v@) == after_rounds(self@, k as nat),
                pts(v@).no_duplicates(),
                within(v@, 0x4000_0000 + k),
            decreases n - k,
        {
            let (nv, _) = play_round(&v, d, 0x4000_0000 + k as i64);
            v = nv;
            d = cycle_direction(d);
            k += 1;
        }
        v
    }

    fn copy_elves(&self) -> (r: Vec<(i64, i64)>)
        ensures
            r@ == self.elves@,
    {
        let mut r: Vec<(i64, i64)> = Vec::new();
        let mut i: usize = 0;
        while i < self.elves.len()
            invariant
                i <= self.elves@.len(),
                r@ == self.elves@.subrange(0, i as int),
            decreases self.elves@.len() - i,
        {
            r.push(self.elves[i]);
            i += 1;
        }
        assert(self.elves@.subrange(0, i as int) =~= self.elves@);
        r
    }
}

pub open spec fn still_round(s: Set<(int, int)>) -> nat {
    choose|r: nat| first_still(s, r)
}

proof fn lemma_still_unique(s: Set<(int, int)>, a: nat, b: nat)
    requires
        first_still(s, a),
        first_still(s, b),
    ensures
        a == b,
{
    if a < b {
        assert(any_proposal(after_rounds(s, (a - 1) as nat), dir_after(Direction::Up, (a - 1) as nat)));
    } else if b < a {
        assert(any_proposal(after_rounds(s, (b - 1) as nat), dir_after(Direction::Up, (b - 1) as nat)));
    }
}

impl ChallengeSolver for Solver {
    open spec fn solvable_a(&self) -> bool {
        &&& self.wf()
        &&& i64::MIN <= empty_ground(after_rounds(self@, 10)) <= i64::MAX
        &&& exists|r: nat| first_still(self@, r)
        &&& still_round(self@) < 0x4000_0000
    }

    open spec fn solvable_b(&self) -> bool {
        &&& self.wf()
        &&& i64::MIN <= empty_ground(after_rounds(self@, 10)) <= i64::MAX
        &&& exists|r: nat| first_still(self@, r)
        &&& still_round(self@) < 0x4000_0000
    }

    open spec fn answer_a(&self) -> Seq<char> {
        signed_decimal(empty_ground(after_rounds(self@, 10)))
    }

    open spec fn answer_b(&self) -> Seq<char> {
        decimal(still_round(self@))
    }

    /// The empty ground in the rectangle of the elves after ten rounds.
    fn get_part_a_result(&self) -> (r: String) {
        let v = self.rounds(10);
        let ghost s = elf_set(v@);
        let (lr, hr) = extent(&v, false);
        let (lc, hc) = extent(&v, true);
        proof {
            lemma_low_unique(s, lr as int, low(s, false), false);
            lemma_high_unique(s, hr as int, high(s, false), false);
            lemma_low_unique(s, lc as int, low(s, true), true);
            lemma_high_unique(s, hc as int, high(s, true), true);
            pts(v@).unique_seq_to_set();
        }
        let h = (hr as i128) - (lr as i128) + 1;
        let w = (hc as i128) - (lc as i128) + 1;
        assert(h * w <= 0x1_0000_0000 * 0x1_0000_0000) by (nonlinear_arith)
            requires
                1 <= h <= 0x1_0000_0000,
                1 <= w <= 0x1_0000_0000,
        ;
        let area = h * w;
        let res = area - v.len() as i128;
        i64_to_string(res as i64)
    }

    /// The first round in which no elf moves.
    fn get_part_b_result(&self) -> (r: String) {
        let ghost s0 = self@;
        let ghost rf = still_round(s0);
        let mut v = self.copy_elves();
        let mut d = Direction::Up;
        let mut k: usize = 0;
        loop
            invariant_except_break
                k + 1 < rf || k + 1 == rf,
            invariant
                self.solvable_b(),
                s0 == self@,
                first_still(s0, rf),
                rf < 0x4000_0000,
                k < rf,
                d == dir_after(Direction::Up, k as nat),
                elf_set(v@) == after_rounds(s0, k as nat),
                pts(v@).no_duplicates(),
                within(v@, 0x4000_0000 + k),
                forall|j: nat| 1 <= j <= k ==> #[trigger] any_proposal(after_rounds(s0, (j - 1) as nat), dir_after(Direction::Up, (j - 1) as nat)),
            ensures
                k + 1 == rf,
            decreases rf - k,
        {
            let (nv, any) = play_round(&v, d, 0x4000_0000 + k as i64);
            if !any {
                proof {
                    assert(first_still(s0, (k + 1) as nat));
                    lemma_still_unique(s0, (k + 1) as nat, rf);
                }
                break;
            }
            assert(any_proposal(after_rounds(s0, k as nat), dir_after(Direction::Up, k as nat)));
            proof {
                if k + 1 == rf {
                    assert(!any_proposal(after_rounds(s0, k as nat), dir_after(Direction::Up, k as nat)));
                }
            }
            v = nv;
            d = cycle_direction(d);
            k += 1;
        }
        u64_to_string((k + 1) as u64)
    }
}

} // verus!
