use vstd::prelude::*;
use crate::plane::{moved, Boundary, Direction};
use crate::text::{decimal, non_empty, non_empty_lines, trimmed_lines_of, u64_to_string, views};
use crate::ChallengeSolver;

verus! {

/// A blizzard: its place inside the valley and the way it blows.
#[derive(Clone, Copy)]
pub struct Blizzard {
    pub pos: (usize, usize),
    pub dir: Direction,
}

/// The valley: the blizzards at the start, the valley's inside, and the
/// last inner place, next to the exit.
pub struct Solver {
    input: Vec<Blizzard>,
    boundary: Boundary,
    destination: (usize, usize),
}

pub open spec fn arrow(c: char) -> Option<Direction> {
    if c == '>' {
        Some(Direction::Right)
    } else if c == 'v' {
        Some(Direction::Down)
    } else if c == '<' {
        Some(Direction::Left)
    } else if c == '^' {
        Some(Direction::Up)
    } else {
        None
    }
}

/// The blizzards of row `y` of the map, the walls counting as row and
/// column 0.
pub open spec fn row_blizzards(row: Seq<char>, y: int) -> Seq<Blizzard>
    decreases row.len(),
{
    if row.len() == 0 {
        Seq::empty()
    } else {
        let prev = row_blizzards(row.drop_last(), y);
        match arrow(row.last()) {
            Some(d) => prev.push(
                Blizzard { pos: ((y - 1) as usize, (row.len() - 2) as usize), dir: d },
            ),
            None => prev,
        }
    }
}

pub open spec fn map_blizzards(rows: Seq<Seq<char>>) -> Seq<Blizzard>
    decreases rows.len(),
{
    if rows.len() == 0 {
        Seq::empty()
    } else {
        map_blizzards(rows.drop_last()) + row_blizzards(rows.last(), rows.len() - 1)
    }
}

/// Arrows stand only inside the walls.
pub open spec fn map_ok(rows: Seq<Seq<char>>) -> bool {
    &&& rows.len() >= 3
    &&& rows[0].len() >= 3
    &&& rows.len() < 0x1000_0000
    &&& rows[0].len() < 0x1000_0000
    &&& forall|y: int, x: int|
        0 <= y < rows.len() && 0 <= x < rows[y].len() && (#[trigger] arrow(rows[y][x])) is Some
            ==> 1 <= y <= rows.len() - 2 && 1 <= x <= rows[0].len() - 2
}

/// A blizzard one minute later: one step on, back in on the other side
/// where it would leave the valley.
pub open spec fn blow(b: Blizzard, bd: Boundary) -> Blizzard {
    match moved(bd, b.pos.0 as int, b.pos.1 as int, b.dir) {
        Some(p) => Blizzard { pos: (p.0 as usize, p.1 as usize), dir: b.dir },
        None => Blizzard {
            pos: match b.dir {
                Direction::Down => (0, b.pos.1),
                Direction::Right => (b.pos.0, 0),
                Direction::Left => (b.pos.0, (bd.high_x_boundary - 1) as usize),
                Direction::Up => ((bd.high_y_boundary - 1) as usize, b.pos.1),
                Direction::Still => b.pos,
            },
            dir: b.dir,
        },
    }
}

/// The blizzards after `t` minutes.
pub open spec fn blizzards_at(bs: Seq<Blizzard>, bd: Boundary, t: nat) -> Seq<Blizzard>
    decreases t,
{
    if t == 0 {
        bs
    } else {
        blizzards_at(bs, bd, (t - 1) as nat).map_values(|b: Blizzard| blow(b, bd))
    }
}

/// No blizzard stands at `q`.
pub open spec fn free(q: (int, int), bs: Seq<Blizzard>) -> bool {
    forall|k: int| 0 <= k < bs.len() ==> ((#[trigger] bs[k]).pos.0 as int, bs[k].pos.1 as int) != q
}

pub open spec fn steps() -> Seq<Direction> {
    seq![Direction::Still, Direction::Up, Direction::Right, Direction::Down, Direction::Left]
}

/// The places the expedition can be one minute after being somewhere in
/// `layer`: it waits or steps, inside the valley, where no blizzard is then.
pub open spec fn next_layer(layer: Set<(int, int)>, bs: Seq<Blizzard>, bd: Boundary) -> Set<(int, int)> {
    Set::new(
        |q: (int, int)|
            exists|p: (int, int), d: int|
                #![trigger layer.contains(p), steps()[d]]
                layer.contains(p) && 0 <= d < 5 && moved(bd, p.0, p.1, steps()[d]) == Some(q)
                    && free(q, bs),
    )
}

/// Where the expedition can be `k` minutes after leaving `start` at
/// minute `t0`.
pub open spec fn layer(
    bs: Seq<Blizzard>,
    bd: Boundary,
    start: (int, int),
    t0: nat,
    k: nat,
) -> Set<(int, int)>
    decreases k,
{
    if k == 0 {
        set![start]
    } else {
        next_layer(layer(bs, bd, start, t0, (k - 1) as nat), blizzards_at(bs, bd, t0 + k), bd)
    }
}

/// The expedition, leaving `start` at minute `t0`, first reaches `dest` after
/// `k` minutes.
pub open spec fn first_arrival(
    bs: Seq<Blizzard>,
    bd: Boundary,
    start: (int, int),
    t0: nat,
    dest: (int, int),
    k: nat,
) -> bool {
    k >= 1 && layer(bs, bd, start, t0, k).contains(dest) && forall|j: nat|
        1 <= j < k ==> !(#[trigger] layer(bs, bd, start, t0, j)).contains(dest)
}

pub open spec fn reachable(
    bs: Seq<Blizzard>,
    bd: Boundary,
    start: (int, int),
    t0: nat,
    dest: (int, int),
) -> bool {
    exists|k: nat| k >= 1 && (#[trigger] layer(bs, bd, start, t0, k)).contains(dest)
}

/// The minute at which a trip that leaves `start` at minute `t0` is over: one
/// minute after it first reaches `dest`.
pub open spec fn trip_end(
    bs: Seq<Blizzard>,
    bd: Boundary,
    start: (int, int),
    t0: nat,
    dest: (int, int),
) -> nat {
    t0 + (choose|k: nat| first_arrival(bs, bd, start, t0, dest, k)) + 1
}

pub open spec fn inside(b: Blizzard, bd: Boundary) -> bool {
    b.pos.0 < bd.high_y_boundary && b.pos.1 < bd.high_x_boundary
}

pub open spec fn valley(bd: Boundary) -> bool {
    bd.low_x_boundary == 0 && bd.low_y_boundary == 0 && 1 <= bd.high_x_boundary < 0x1000_0000 && 1
        <= bd.high_y_boundary < 0x1000_0000
}

pub open spec fn all_inside(bs: Seq<Blizzard>, bd: Boundary) -> bool {
    forall|k: int| 0 <= k < bs.len() ==> inside(#[trigger] bs[k], bd)
}

pub open spec fn pts(v: Seq<(isize, isize)>) -> Seq<(int, int)> {
    v.map_values(|p: (isize, isize)| (p.0 as int, p.1 as int))
}

/// Every blizzard one minute on.
fn blow_all(bl: &mut Vec<Blizzard>, bd: &Boundary)
    requires
        valley(*bd),
        all_inside(old(bl)@, *bd),
    ensures
        final(bl)@ == old(bl)@.map_values(|b: Blizzard| blow(b, *bd)),
        all_inside(final(bl)@, *bd),
{
    let ghost start = bl@;
    let mut i: usize = 0;
    while i < bl.len()
        invariant
            valley(*bd),
            bl@.len() == start.len(),
            i <= bl@.len(),
            forall|k: int| 0 <= k < i ==> bl@[k] == blow(start[k], *bd),
            forall|k: int| i <= k < bl@.len() ==> bl@[k] == start[k],
            all_inside(start, *bd),
            forall|k: int| 0 <= k < i ==> inside(#[trigger] bl@[k], *bd),
        decreases start.len() - i,
    {
        let b = bl[i];
        assert(inside(start[i as int], *bd));
        let nb = match bd.move_array_iterator(b.pos, &b.dir) {
            Some(p) => Blizzard { pos: p, dir: b.dir },
            None => Blizzard { pos: bd.wrap_array_iterator(b.pos, &b.dir), dir: b.dir },
        };
        bl.set(i, nb);
        i += 1;
    }
    assert(bl@ =~= start.map_values(|b: Blizzard| blow(b, *bd)));
}

/// No blizzard stands at `q`.
fn is_free(bl: &Vec<Blizzard>, q: (isize, isize)) -> (r: bool)
    ensures
        r == free((q.0 as int, q.1 as int), bl@),
{
    if q.0 < 0 || q.1 < 0 {
        return true;
    }
    let mut k: usize = 0;
    while k < bl.len()
        invariant
            q.0 >= 0 && q.1 >= 0,
            k <= bl@.len(),
            forall|j: int|
                0 <= j < k ==> ((#[trigger] bl@[j]).pos.0 as int, bl@[j].pos.1 as int) != (
                    q.0 as int,
                    q.1 as int,
                ),
        decreases bl@.len() - k,
    {
        if bl[k].pos.0 == q.0 as usize && bl[k].pos.1 == q.1 as usize {
            return false;
        }
        k += 1;
    }
    true
}

fn holds_point(v: &Vec<(isize, isize)>, q: (isize, isize)) -> (r: bool)
    ensures
        r == pts(v@).contains((q.0 as int, q.1 as int)),
{
    let mut i: usize = 0;
    while i < v.len()
        invariant
            i <= v@.len(),
            forall|k: int| 0 <= k < i ==> pts(v@)[k] != (q.0 as int, q.1 as int),
        decreases v@.len() - i,
    {
        if v[i].0 == q.0 && v[i].1 == q.1 {
            assert(pts(v@)[i as int] == (q.0 as int, q.1 as int));
            return true;
        }
        i += 1;
    }
    false
}

pub open spec fn small(v: Seq<(isize, isize)>) -> bool {
    forall|k: int|
        0 <= k < v.len() ==> -1 <= (#[trigger] v[k]).0 <= 0x1000_0000 && -1 <= v[k].1
            <= 0x1000_0000
}

/// Some place of the first `n` of `ls` leads to `q` by one of the first `m`
/// steps (of all five where `n` counts the places done).
pub open spec fn produced(
    ls: Seq<(int, int)>,
    n: int,
    m: int,
    bs: Seq<Blizzard>,
    bd: Boundary,
    q: (int, int),
) -> bool {
    (exists|i: int, d: int|
        #![trigger ls[i], steps()[d]]
        0 <= i < n && 0 <= d < 5 && moved(bd, ls[i].0, ls[i].1, steps()[d]) == Some(q) && free(
            q,
            bs,
        )) || (exists|d: int|
        #![trigger steps()[d]]
        0 <= d < m && 0 <= n < ls.len() && moved(bd, ls[n].0, ls[n].1, steps()[d]) == Some(q)
            && free(q, bs))
}

/// The places one minute after `cur`, with the blizzards `bl` of that
/// minute.
fn advance(cur: &Vec<(isize, isize)>, bl: &Vec<Blizzard>, bd: &Boundary) -> (r: Vec<(isize, isize)>)
    requires
        valley(*bd),
        small(cur@),
    ensures
        pts(r@).to_set() == next_layer(pts(cur@).to_set(), bl@, *bd),
        pts(r@).no_duplicates(),
        small(r@),
{
    let ghost ls = pts(cur@);
    let dirs = [Direction::Still, Direction::Up, Direction::Right, Direction::Down, Direction::Left];
    assert(dirs@ =~= steps());
    let mut out: Vec<(isize, isize)> = Vec::new();
    let mut i: usize = 0;
    while i < cur.len()
        invariant
            valley(*bd),
            small(cur@),
            ls == pts(cur@),
            dirs@ == steps(),
            i <= cur@.len(),
            pts(out@).no_duplicates(),
            small(out@),
            forall|q: (int, int)|
                pts(out@).contains(q) <==> produced(ls, i as int, 0, bl@, *bd, q),
        decreases cur@.len() - i,
    {
        let p = cur[i];
        let mut d: usize = 0;
        while d < 5
            invariant
                valley(*bd),
                small(cur@),
                ls == pts(cur@),
                dirs@ == steps(),
                i < cur@.len(),
                p == cur@[i as int],
                d <= 5,
                pts(out@).no_duplicates(),
                small(out@),
                forall|q: (int, int)|
                    pts(out@).contains(q) <==> produced(ls, i as int, d as int, bl@, *bd, q),
            decreases 5 - d,
        {
            assert(ls[i as int] == (p.0 as int, p.1 as int));
            let ghost mv = moved(*bd, ls[i as int].0, ls[i as int].1, steps()[d as int]);
            let ghost before = pts(out@);
            match bd.move_iterator(p, &dirs[d]) {
                Some(q) => {
                    assert(mv == Some((q.0 as int, q.1 as int)));
                    if is_free(bl, q) && !holds_point(&out, q) {
                        out.push(q);
                        assert(pts(out@) =~= before.push((q.0 as int, q.1 as int)));
                    }
                    proof {
                        assert forall|x: (int, int)|
                            pts(out@).contains(x) <==> (before.contains(x) || (mv == Some(x) && free(
                                x,
                                bl@,
                            ))) by {
                            if pts(out@).contains(x) && !before.contains(x) {
                                let k = choose|k: int| 0 <= k < pts(out@).len() && pts(out@)[k] == x;
                                assert(k == before.len());
                            }
                            if before.contains(x) {
                                let k = choose|k: int| 0 <= k < before.len() && before[k] == x;
                                assert(pts(out@)[k] == x);
                            }
                            if mv == Some(x) && free(x, bl@) && !before.contains(x) {
                                assert(x == (q.0 as int, q.1 as int));
                                assert(pts(out@)[before.len() as int] == x);
                            }
                        }
                    }
                },
                None => {
                    assert(mv is None);
                    assert(pts(out@) == before);
                },
            }
            assert(forall|x: (int, int)|
                pts(out@).contains(x) <==> (before.contains(x) || (mv == Some(x) && free(x, bl@))));
            proof {
                assert forall|x: (int, int)|
                    produced(ls, i as int, d + 1, bl@, *bd, x) <==> (produced(
                        ls,
                        i as int,
                        d as int,
                        bl@,
                        *bd,
                        x,
                    ) || (mv == Some(x) && free(x, bl@))) by {
                    if mv == Some(x) && free(x, bl@) {
                        assert(steps()[d as int] == steps()[d as int]);
                    }
                    if produced(ls, i as int, d + 1, bl@, *bd, x) && !produced(
                        ls,
                        i as int,
                        d as int,
                        bl@,
                        *bd,
                        x,
                    ) {
                        let dd = choose|dd: int|
                            #![trigger steps()[dd]]
                            0 <= dd < d + 1 && 0 <= i < ls.len() && moved(
                                *bd,
                                ls[i as int].0,
                                ls[i as int].1,
                                steps()[dd],
                            ) == Some(x) && free(x, bl@);
                        assert(dd == d);
                    }
                }
                assert forall|x: (int, int)|
                    pts(out@).contains(x) <==> produced(ls, i as int, d + 1, bl@, *bd, x) by {
                    assert(before.contains(x) <==> produced(ls, i as int, d as int, bl@, *bd, x));
                }
            }
            d += 1;
        }
        proof {
            assert forall|q: (int, int)|
                produced(ls, i as int, 5, bl@, *bd, q) <==> produced(ls, i + 1, 0, bl@, *bd, q) by {
                if produced(ls, i as int, 5, bl@, *bd, q) {
                    if !(exists|ii: int, dd: int|
                        #![trigger ls[ii], steps()[dd]]
                        0 <= ii < i && 0 <= dd < 5 && moved(*bd, ls[ii].0, ls[ii].1, steps()[dd])
                            == Some(q) && free(q, bl@)) {
                        let dd = choose|dd: int|
                            #![trigger steps()[dd]]
                            0 <= dd < 5 && 0 <= i < ls.len() && moved(
                                *bd,
                                ls[i as int].0,
                                ls[i as int].1,
                                steps()[dd],
                            ) == Some(q) && free(q, bl@);
                        assert(ls[i as int] == ls[i as int]);
                    }
                }
            }
        }
        i += 1;
    }
    proof {
        let nl = next_layer(ls.to_set(), bl@, *bd);
        assert forall|q: (int, int)| pts(out@).to_set().contains(q) <==> nl.contains(q) by {
            if nl.contains(q) {
                let (p, d) = choose|p: (int, int), d: int|
                    #![trigger ls.to_set().contains(p), steps()[d]]
                    ls.to_set().contains(p) && 0 <= d < 5 && moved(*bd, p.0, p.1, steps()[d])
                        == Some(q) && free(q, bl@);
                let ii = choose|ii: int| 0 <= ii < ls.len() && ls[ii] == p;
                assert(produced(ls, cur@.len() as int, 0, bl@, *bd, q));
            }
            if pts(out@).contains(q) {
                assert(produced(ls, cur@.len() as int, 0, bl@, *bd, q));
                let (ii, d) = choose|ii: int, d: int|
                    #![trigger ls[ii], steps()[d]]
                    0 <= ii < cur@.len() && 0 <= d < 5 && moved(*bd, ls[ii].0, ls[ii].1, steps()[d])
                        == Some(q) && free(q, bl@);
                assert(ls.to_set().contains(ls[ii]));
            }
        }
        assert(pts(out@).to_set() =~= nl);
    }
    out
}

proof fn lemma_first_exists(
    bs: Seq<Blizzard>,
    bd: Boundary,
    st: (int, int),
    t0: nat,
    dest: (int, int),
    w: nat,
)
    requires
        w >= 1,
        layer(bs, bd, st, t0, w).contains(dest),
    ensures
        exists|k: nat| first_arrival(bs, bd, st, t0, dest, k),
    decreases w,
{
    if exists|j: nat| 1 <= j < w && (#[trigger] layer(bs, bd, st, t0, j)).contains(dest) {
        let j = choose|j: nat| 1 <= j < w && (#[trigger] layer(bs, bd, st, t0, j)).contains(dest);
        lemma_first_exists(bs, bd, st, t0, dest, j);
    } else {
        assert(first_arrival(bs, bd, st, t0, dest, w));
    }
}

proof fn lemma_first_unique(
    bs: Seq<Blizzard>,
    bd: Boundary,
    st: (int, int),
    t0: nat,
    dest: (int, int),
    a: nat,
    b: nat,
)
    requires
        first_arrival(bs, bd, st, t0, dest, a),
        first_arrival(bs, bd, st, t0, dest, b),
    ensures
        a == b,
{
    if a < b {
        assert(!layer(bs, bd, st, t0, a).contains(dest));
    } else if b < a {
        assert(!layer(bs, bd, st, t0, b).contains(dest));
    }
}

pub open spec fn point(p: (isize, isize)) -> (int, int) {
    (p.0 as int, p.1 as int)
}

impl Solver {
    pub closed spec fn view(&self) -> (Seq<Blizzard>, Boundary, (usize, usize)) {
        (self.input@, self.boundary, self.destination)
    }

    /// One trip from `start` to `dest`, leaving at minute `time`; `time` then
    /// holds the minute the trip is over, and `bl` the blizzards then.
    fn trip(
        &self,
        bl: &mut Vec<Blizzard>,
        time: &mut usize,
        start: (isize, isize),
        dest: (isize, isize),
    )
        requires
            valley(self.boundary),
            all_inside(old(bl)@, self.boundary),
            old(bl)@ == blizzards_at(self.input@, self.boundary, *old(time) as nat),
            reachable(self.input@, self.boundary, point(start), *old(time) as nat, point(dest)),
            trip_end(self.input@, self.boundary, point(start), *old(time) as nat, point(dest))
                <= usize::MAX,
            small(seq![start]),
        ensures
            *final(time) == trip_end(
                self.input@,
                self.boundary,
                point(start),
                *old(time) as nat,
                point(dest),
            ),
            final(bl)@ == blizzards_at(self.input@, self.boundary, *final(time) as nat),
            all_inside(final(bl)@, self.boundary),
    {
        let ghost bs = self.input@;
        let ghost bd = self.boundary;
        let ghost t0 = *time as nat;
        let ghost s = point(start);
        let ghost d = point(dest);
        proof {
            let w = choose|k: nat| k >= 1 && (#[trigger] layer(bs, bd, s, t0, k)).contains(d);
            lemma_first_exists(bs, bd, s, t0, d, w);
        }
        let ghost kf = choose|k: nat| first_arrival(bs, bd, s, t0, d, k);
        let mut cur: Vec<(isize, isize)> = Vec::new();
        cur.push(start);
        assert(pts(cur@).to_set() =~= set![s]) by {
            assert(pts(cur@) =~= seq![s]);
            assert forall|x: (int, int)| pts(cur@).to_set().contains(x) <==> x == s by {
                if x == s {
                    assert(pts(cur@)[0] == x);
                }
            }
        }
        let mut k: usize = 0;
        loop
            invariant_except_break
                k < kf,
            invariant
                valley(bd),
                bd == self.boundary,
                bs == self.input@,
                d == point(dest),
                s == point(start),
                small(cur@),
                all_inside(bl@, bd),
                first_arrival(bs, bd, s, t0, d, kf),
                trip_end(bs, bd, s, t0, d) == t0 + kf + 1,
                t0 + kf + 1 <= usize::MAX,
                k <= kf,
                *time == t0 + k,
                bl@ == blizzards_at(bs, bd, (t0 + k) as nat),
                pts(cur@).to_set() == layer(bs, bd, s, t0, k as nat),
            ensures
                k == kf,
                *time == t0 + k,
                bl@ == blizzards_at(bs, bd, (t0 + k) as nat),
                all_inside(bl@, bd),
            decreases kf - k,
        {
            blow_all(bl, &self.boundary);
            *time = *time + 1;
            k = k + 1;
            cur = advance(&cur, bl, &self.boundary);
            if holds_point(&cur, dest) {
                proof {
                    assert(pts(cur@).contains(d));
                    assert(pts(cur@).to_set().contains(d));
                    assert(first_arrival(bs, bd, s, t0, d, k as nat)) by {
                        assert forall|j: nat| 1 <= j < k implies !(#[trigger] layer(
                            bs,
                            bd,
                            s,
                            t0,
                            j,
                        )).contains(d) by {}
                    }
                    lemma_first_unique(bs, bd, s, t0, d, k as nat, kf);
                }
                break;
            }
            proof {
                assert(!layer(bs, bd, s, t0, k as nat).contains(d)) by {
                    if layer(bs, bd, s, t0, k as nat).contains(d) {
                        assert(pts(cur@).to_set().contains(d));
                        let i = choose|i: int| 0 <= i < pts(cur@).len() && pts(cur@)[i] == d;
                    }
                }
                if k == kf {
                    assert(layer(bs, bd, s, t0, kf).contains(d));
                }
            }
        }
        blow_all(bl, &self.boundary);
        *time = *time + 1;
    }
}

pub open spec fn valley_of(rows: Seq<Seq<char>>) -> Boundary {
    Boundary {
        low_x_boundary: 0,
        low_y_boundary: 0,
        high_x_boundary: (rows[0].len() - 2) as isize,
        high_y_boundary: (rows.len() - 2) as isize,
    }
}

pub open spec fn exit_of(rows: Seq<Seq<char>>) -> (usize, usize) {
    ((rows.len() - 3) as usize, (rows[0].len() - 3) as usize)
}

pub open spec fn entrance() -> (int, int) {
    (-1, 0)
}

pub open spec fn below(dest: (usize, usize)) -> (int, int) {
    (dest.0 + 1, dest.1 as int)
}

pub open spec fn corner(dest: (usize, usize)) -> (int, int) {
    (dest.0 as int, dest.1 as int)
}

impl Solver {
    /// Reads the map of the valley: walls `#`, open ground `.`, and the
    /// blizzards `>`, `v`, `<`, `^`.
    pub fn new(input: String) -> (r: Solver)
        requires
            forall|ts: Seq<Seq<char>>| trimmed_lines_of(ts, input@) ==> map_ok(non_empty(ts)),
        ensures
            exists|ts: Seq<Seq<char>>|
                trimmed_lines_of(ts, input@) && r@ == (
                    map_blizzards(non_empty(ts)),
                    valley_of(non_empty(ts)),
                    exit_of(non_empty(ts)),
                ),
    {
        let rows = non_empty_lines(input.as_str());
        let ghost rv = views(rows@);
        assert(map_ok(rv));
        let ny = rows.len();
        assert(rv[0] == rows@[0]@);
        let nx = rows[0].len();
        let mut bl: Vec<Blizzard> = Vec::new();
        let mut y: usize = 0;
        assert(rv.subrange(0, 0) =~= Seq::<Seq<char>>::empty());
        while y < ny
            invariant
                rv == views(rows@),
                map_ok(rv),
                ny == rv.len(),
                nx == rv[0].len(),
                y <= ny,
                bl@ == map_blizzards(rv.subrange(0, y as int)),
            decreases ny - y,
        {
            let row = &rows[y];
            assert(row@ == rv[y as int]);
            let ghost base = bl@;
            let mut x: usize = 0;
            assert(row@.subrange(0, 0) =~= Seq::<char>::empty());
            while x < row.len()
                invariant
                    row@ == rv[y as int],
                    map_ok(rv),
                    y < ny == rv.len(),
                    nx == rv[0].len(),
                    x <= row@.len(),
                    bl@ == base + row_blizzards(row@.subrange(0, x as int), y as int),
                decreases row@.len() - x,
            {
                let c = row[x];
                assert(row@.subrange(0, x + 1).drop_last() =~= row@.subrange(0, x as int));
                assert(row@.subrange(0, x + 1).last() == c);
                let dir = if c == '>' {
                    Some(Direction::Right)
                } else if c == 'v' {
                    Some(Direction::Down)
                } else if c == '<' {
                    Some(Direction::Left)
                } else if c == '^' {
                    Some(Direction::Up)
                } else {
                    None
                };
                assert(dir == arrow(c));
                match dir {
                    Some(d) => {
                        assert(rv[y as int][x as int] == c);
                        assert(arrow(rv[y as int][x as int]) is Some);
                        let ghost before = bl@;
                        bl.push(Blizzard { pos: (y - 1, x - 1), dir: d });
                        assert(bl@ =~= base + row_blizzards(row@.subrange(0, x + 1), y as int));
                    },
                    None => {},
                }
                x += 1;
            }
            assert(row@.subrange(0, x as int) =~= row@);
            assert(rv.subrange(0, y + 1).drop_last() =~= rv.subrange(0, y as int));
            y += 1;
        }
        assert(rv.subrange(0, ny as int) =~= rv);
        let boundary = Boundary::new_array_boundary(nx - 2, ny - 2);
        let r = Solver { input: bl, boundary, destination: (ny - 3, nx - 3) };
        r
    }
}

pub open spec fn end_a(v: (Seq<Blizzard>, Boundary, (usize, usize))) -> nat {
    trip_end(v.0, v.1, entrance(), 0, corner(v.2))
}

pub open spec fn end_back(v: (Seq<Blizzard>, Boundary, (usize, usize))) -> nat {
    trip_end(v.0, v.1, below(v.2), end_a(v), (0, 0))
}

pub open spec fn end_b(v: (Seq<Blizzard>, Boundary, (usize, usize))) -> nat {
    trip_end(v.0, v.1, entrance(), end_back(v), corner(v.2))
}

impl ChallengeSolver for Solver {
    open spec fn solvable_a(&self) -> bool {
        &&& valley(self@.1)
        &&& all_inside(self@.0, self@.1)
        &&& self@.2.0 < self@.1.high_y_boundary
        &&& self@.2.1 < self@.1.high_x_boundary
        &&& reachable(self@.0, self@.1, entrance(), 0, corner(self@.2))
        &&& end_a(self@) <= usize::MAX
    }

    open spec fn solvable_b(&self) -> bool {
        &&& valley(self@.1)
        &&& all_inside(self@.0, self@.1)
        &&& self@.2.0 < self@.1.high_y_boundary
        &&& self@.2.1 < self@.1.high_x_boundary
        &&& reachable(self@.0, self@.1, entrance(), 0, corner(self@.2))
        &&& end_a(self@) <= usize::MAX
        &&& reachable(self@.0, self@.1, below(self@.2), end_a(self@), (0, 0))
        &&& end_back(self@) <= usize::MAX
        &&& reachable(self@.0, self@.1, entrance(), end_back(self@), corner(self@.2))
        &&& end_b(self@) <= usize::MAX
    }

    open spec fn answer_a(&self) -> Seq<char> {
        decimal(end_a(self@))
    }

    open spec fn answer_b(&self) -> Seq<char> {
        decimal(end_b(self@))
    }

    /// The fewest minutes to cross the valley.
    fn get_part_a_result(&self) -> (r: String) {
        let mut bl = self.initial();
        let mut time: usize = 0;
        let dest = (self.destination.0 as isize, self.destination.1 as isize);
        self.trip(&mut bl, &mut time, (-1, 0), dest);
        u64_to_string(time as u64)
    }

    /// The fewest minutes to cross, go back for the snacks, and cross again.
    fn get_part_b_result(&self) -> (r: String) {
        let mut bl = self.initial();
        let mut time: usize = 0;
        let dest = (self.destination.0 as isize, self.destination.1 as isize);
        let back = (self.destination.0 as isize + 1, self.destination.1 as isize);
        self.trip(&mut bl, &mut time, (-1, 0), dest);
        self.trip(&mut bl, &mut time, back, (0, 0));
        self.trip(&mut bl, &mut time, (-1, 0), dest);
        u64_to_string(time as u64)
    }
}

impl Solver {
    fn initial(&self) -> (r: Vec<Blizzard>)
        ensures
            r@ == self@.0,
    {
        let mut r: Vec<Blizzard> = Vec::new();
        let mut i: usize = 0;
        while i < self.input.len()
            invariant
                i <= self.input@.len(),
                r@ == self.input@.subrange(0, i as int),
            decreases self.input@.len() - i,
        {
            r.push(self.input[i]);
            i += 1;
        }
        assert(self.input@.subrange(0, i as int) =~= self.input@);
        r
    }
}

} // verus!
