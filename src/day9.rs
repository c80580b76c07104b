use vstd::prelude::*;
use crate::plane::Direction;
use crate::text::{
    signed_value,
    all_digits, decimal, decimal_value, parse_i64, split_at_first, split_once, trimmed_lines,
    trimmed_lines_of, u64_to_string, views,
};
use crate::ChallengeSolver;

verus! {

/// The head's moves: a direction and a number of steps.
pub struct Solver {
    input: Vec<(Direction, i64)>,
}

pub open spec fn direction_of(c: char) -> Option<Direction> {
    if c == 'R' {
        Some(Direction::Right)
    } else if c == 'U' {
        Some(Direction::Up)
    } else if c == 'L' {
        Some(Direction::Left)
    } else if c == 'D' {
        Some(Direction::Down)
    } else {
        None
    }
}


/// A letter `R`, `U`, `L` or `D`, a space and a number.
pub open spec fn parse_move(t: Seq<char>) -> Option<(Direction, i64)> {
    match split_at_first(t, ' ') {
        Some(p) => if p.0.len() == 1 && direction_of(p.0[0]) is Some && signed_value(p.1) is Some {
            Some((direction_of(p.0[0])->0, signed_value(p.1)->0))
        } else {
            None
        },
        None => None,
    }
}

pub open spec fn line_ok(t: Seq<char>) -> bool {
    t.len() == 0 || parse_move(t) is Some
}

pub open spec fn moves_of(ts: Seq<Seq<char>>) -> Seq<(Direction, i64)>
    decreases ts.len(),
{
    if ts.len() == 0 {
        Seq::empty()
    } else if ts.last().len() == 0 {
        moves_of(ts.drop_last())
    } else {
        moves_of(ts.drop_last()).push(parse_move(ts.last())->0)
    }
}

/// The single steps of the moves, in order; a move of fewer than one step
/// gives none.
pub open spec fn steps(ms: Seq<(Direction, i64)>) -> Seq<Direction>
    decreases ms.len(),
{
    if ms.len() == 0 {
        Seq::empty()
    } else {
        let n = if ms.last().1 > 0 {
            ms.last().1 as nat
        } else {
            0
        };
        steps(ms.drop_last()) + Seq::new(n, |k: int| ms.last().0)
    }
}

pub open spec fn moved(p: (int, int), d: Direction) -> (int, int) {
    match d {
        Direction::Up => (p.0 - 1, p.1),
        Direction::Down => (p.0 + 1, p.1),
        Direction::Left => (p.0, p.1 - 1),
        Direction::Right => (p.0, p.1 + 1),
        Direction::Still => p,
    }
}

pub open spec fn sgn(x: int) -> int {
    if x > 0 {
        1
    } else if x < 0 {
        -1
    } else {
        0
    }
}

pub open spec fn abs(x: int) -> int {
    if x < 0 {
        -x
    } else {
        x
    }
}

/// A knot that no longer touches the one ahead steps one place towards it,
/// diagonally where they share neither row nor column.
pub open spec fn follow(t: (int, int), h: (int, int)) -> (int, int) {
    if abs(h.0 - t.0) > 1 || abs(h.1 - t.1) > 1 {
        (t.0 + sgn(h.0 - t.0), t.1 + sgn(h.1 - t.1))
    } else {
        t
    }
}

/// Knot `k` after the head of `rope` steps towards `d`.
pub open spec fn knot_after(rope: Seq<(int, int)>, d: Direction, k: int) -> (int, int)
    decreases k,
{
    if k <= 0 {
        moved(rope[0], d)
    } else {
        follow(rope[k], knot_after(rope, d, k - 1))
    }
}

pub open spec fn step(rope: Seq<(int, int)>, d: Direction) -> Seq<(int, int)> {
    Seq::new(rope.len(), |k: int| knot_after(rope, d, k))
}

/// A rope of `len` knots, all at the start, after the steps `ds`.
pub open spec fn rope_after(ds: Seq<Direction>, len: nat) -> Seq<(int, int)>
    decreases ds.len(),
{
    if ds.len() == 0 {
        Seq::new(len, |k: int| (0int, 0int))
    } else {
        step(rope_after(ds.drop_last(), len), ds.last())
    }
}

/// Where the tail is after each step.
pub open spec fn trail(ds: Seq<Direction>, len: nat) -> Seq<(int, int)> {
    Seq::new(ds.len(), |k: int| rope_after(ds.subrange(0, k + 1), len).last())
}

/// How many places the tail of a rope of `len` knots visits.
pub open spec fn visited(ms: Seq<(Direction, i64)>, len: nat) -> nat {
    trail(steps(ms), len).to_set().len()
}

pub open spec fn ints(v: Seq<(i64, i64)>) -> Seq<(int, int)> {
    v.map_values(|p: (i64, i64)| (p.0 as int, p.1 as int))
}

fn read_move(t: &Vec<char>) -> (r: Option<(Direction, i64)>)
    ensures
        r == parse_move(t@),
{
    match split_once(t, ' ') {
        Some((a, b)) => {
            if a.len() != 1 {
                return None;
            }
            let c = a[0];
            let d = if c == 'R' {
                Direction::Right
            } else if c == 'U' {
                Direction::Up
            } else if c == 'L' {
                Direction::Left
            } else if c == 'D' {
                Direction::Down
            } else {
                return None;
            };
            match parse_i64(&b) {
                Some(n) => Some((d, n)),
                None => None,
            }
        },
        None => None,
    }
}

fn follow_knot(t: (i64, i64), h: (i64, i64), bound: i64) -> (r: (i64, i64))
    requires
        0 <= bound <= 0x2000_0000_0000_0000,
        -bound <= t.0 <= bound && -bound <= t.1 <= bound,
        -bound <= h.0 <= bound && -bound <= h.1 <= bound,
    ensures
        (r.0 as int, r.1 as int) == follow((t.0 as int, t.1 as int), (h.0 as int, h.1 as int)),
        -bound <= r.0 <= bound && -bound <= r.1 <= bound,
{
    let dx = h.0 - t.0;
    let dy = h.1 - t.1;
    if dx > 1 || dx < -1 || dy > 1 || dy < -1 {
        let sx: i64 = if dx > 0 { 1 } else if dx < 0 { -1 } else { 0 };
        let sy: i64 = if dy > 0 { 1 } else if dy < 0 { -1 } else { 0 };
        (t.0 + sx, t.1 + sy)
    } else {
        (t.0, t.1)
    }
}

fn step_head(p: (i64, i64), d: Direction, bound: i64) -> (r: (i64, i64))
    requires
        0 <= bound < i64::MAX,
        -bound <= p.0 <= bound && -bound <= p.1 <= bound,
    ensures
        (r.0 as int, r.1 as int) == moved((p.0 as int, p.1 as int), d),
        -bound - 1 <= r.0 <= bound + 1 && -bound - 1 <= r.1 <= bound + 1,
{
    match d {
        Direction::Up => (p.0 - 1, p.1),
        Direction::Down => (p.0 + 1, p.1),
        Direction::Left => (p.0, p.1 - 1),
        Direction::Right => (p.0, p.1 + 1),
        Direction::Still => p,
    }
}

proof fn lemma_push_to_set(s: Seq<(int, int)>, x: (int, int))
    ensures
        s.push(x).to_set() == s.to_set().insert(x),
{
    assert forall|y: (int, int)| s.push(x).to_set().contains(y) <==> s.to_set().insert(x).contains(
        y,
    ) by {
        if s.push(x).contains(y) {
            let k = choose|k: int| 0 <= k < s.push(x).len() && s.push(x)[k] == y;
            if k < s.len() {
                assert(s[k] == y);
            }
        }
        if s.contains(y) {
            let k = choose|k: int| 0 <= k < s.len() && s[k] == y;
            assert(s.push(x)[k] == y);
        }
        if y == x {
            assert(s.push(x)[s.len() as int] == y);
        }
    }
    assert(s.push(x).to_set() =~= s.to_set().insert(x));
}

fn contains_pos(v: &Vec<(i64, i64)>, p: (i64, i64)) -> (r: bool)
    ensures
        r == ints(v@).contains((p.0 as int, p.1 as int)),
{
    let mut i: usize = 0;
    while i < v.len()
        invariant
            i <= v@.len(),
            forall|k: int| 0 <= k < i ==> ints(v@)[k] != (p.0 as int, p.1 as int),
        decreases v@.len() - i,
    {
        if v[i].0 == p.0 && v[i].1 == p.1 {
            assert(ints(v@)[i as int] == (p.0 as int, p.1 as int));
            return true;
        }
        i += 1;
    }
    false
}

impl Solver {
    pub closed spec fn view(&self) -> Seq<(Direction, i64)> {
        self.input@
    }

    /// Reads one move per line, as `R 4`.
    pub fn new(input: String) -> (r: Solver)
        requires
            forall|ts: Seq<Seq<char>>|
                trimmed_lines_of(ts, input@) ==> forall|k: int|
                    0 <= k < ts.len() ==> line_ok(#[trigger] ts[k]),
        ensures
            exists|ts: Seq<Seq<char>>| trimmed_lines_of(ts, input@) && r@ == moves_of(ts),
    {
        let lines = trimmed_lines(input.as_str());
        Solver::from_lines(&lines)
    }

    /// Reads the input as `new` does, or gives `None` where some line is
    /// neither empty nor a move.
    pub fn try_new(input: String) -> (r: Option<Solver>)
        ensures
            r is None ==> exists|ts: Seq<Seq<char>>|
                trimmed_lines_of(ts, input@) && exists|k: int| 0 <= k < ts.len() && !line_ok(#[trigger] ts[k]),
            r matches Some(d) ==> exists|ts: Seq<Seq<char>>|
                trimmed_lines_of(ts, input@) && (forall|k: int| 0 <= k < ts.len() ==> line_ok(#[trigger] ts[k]))
                    && d@ == moves_of(ts),
    {
        let lines = trimmed_lines(input.as_str());
        let ghost ts = views(lines@);
        let mut i: usize = 0;
        while i < lines.len()
            invariant
                i <= lines@.len(),
                ts == views(lines@),
                trimmed_lines_of(ts, input@),
                forall|k: int| 0 <= k < i ==> line_ok(#[trigger] ts[k]),
            decreases lines@.len() - i,
        {
            assert(ts[i as int] == lines@[i as int]@);
            if !(lines[i].len() == 0 || match read_move(&lines[i]) { Some(_) => true, None => false }) {
                assert(!line_ok(ts[i as int]));
                return None;
            }
            i += 1;
        }
        Some(Solver::from_lines(&lines))
    }

    fn from_lines(lines: &Vec<Vec<char>>) -> (r: Solver)
        requires
            forall|k: int| 0 <= k < lines@.len() ==> line_ok(#[trigger] views(lines@)[k]),
        ensures
            r@ == moves_of(views(lines@)),
    {
        let ghost ts = views(lines@);
        let mut acc: Vec<(Direction, i64)> = Vec::new();
        let mut i: usize = 0;
        while i < lines.len()
            invariant
                i <= lines@.len(),
                ts == views(lines@),
                forall|k: int| 0 <= k < ts.len() ==> line_ok(#[trigger] ts[k]),
                acc@ == moves_of(ts.subrange(0, i as int)),
            decreases lines@.len() - i,
        {
            assert(ts.subrange(0, i + 1).drop_last() =~= ts.subrange(0, i as int));
            assert(line_ok(ts[i as int]));
            if lines[i].len() > 0 {
                match read_move(&lines[i]) {
                    Some(m) => acc.push(m),
                    None => {},
                }
            }
            i += 1;
        }
        assert(ts.subrange(0, lines@.len() as int) =~= ts);
        Solver { input: acc }
    }

    fn single_steps(&self) -> (r: Vec<Direction>)
        requires
            steps(self@).len() < 0x2000_0000_0000_0000,
        ensures
            r@ == steps(self@),
    {
        let mut r: Vec<Direction> = Vec::new();
        let mut i: usize = 0;
        while i < self.input.len()
            invariant
                i <= self@.len(),
                r@ == steps(self@.subrange(0, i as int)),
                steps(self@).len() < 0x2000_0000_0000_0000,
            decreases self@.len() - i,
        {
            let (d, n) = self.input[i];
            let ghost before = r@;
            assert(self@.subrange(0, i + 1).drop_last() =~= self@.subrange(0, i as int));
            let mut k: i64 = 0;
            while k < n
                invariant
                    0 <= k,
                    n > 0 ==> k <= n,
                    n <= 0 ==> k == 0,
                    r@ == before + Seq::new(k as nat, |j: int| d),
                decreases n - k,
            {
                r.push(d);
                k += 1;
                assert(r@ =~= before + Seq::new(k as nat, |j: int| d));
            }
            proof {
                let m = if n > 0 { n as nat } else { 0 };
                assert(k as nat == m);
            }
            i += 1;
        }
        assert(self@.subrange(0, i as int) =~= self@);
        r
    }

    /// How many places the tail of a rope of `len` knots visits.
    fn count_tail_positions(&self, len: usize) -> (r: u64)
        requires
            len >= 1,
            steps(self@).len() < 0x2000_0000_0000_0000,
        ensures
            r == visited(self@, len as nat),
    {
        let ds = self.single_steps();
        let mut rope: Vec<(i64, i64)> = Vec::new();
        let mut k: usize = 0;
        while k < len
            invariant
                k <= len,
                rope@.len() == k,
                forall|j: int| 0 <= j < k ==> rope@[j] == (0i64, 0i64),
            decreases len - k,
        {
            rope.push((0, 0));
            k += 1;
        }
        assert(ints(rope@) =~= rope_after(ds@.subrange(0, 0), len as nat));
        let mut seen: Vec<(i64, i64)> = Vec::new();
        let mut s: usize = 0;
        while s < ds.len()
            invariant
                len >= 1,
                ds@ == steps(self@),
                ds@.len() < 0x2000_0000_0000_0000,
                s <= ds@.len(),
                rope@.len() == len,
                ints(rope@) == rope_after(ds@.subrange(0, s as int), len as nat),
                forall|j: int|
                    0 <= j < len ==> -s <= (#[trigger] rope@[j]).0 <= s && -s <= rope@[j].1 <= s,
                ints(seen@).no_duplicates(),
                ints(seen@).to_set() == trail(ds@.subrange(0, s as int), len as nat).to_set(),
            decreases ds@.len() - s,
        {
            let d = ds[s];
            let ghost o = ints(rope@);
            let b = s as i64;
            let head = step_head(rope[0], d, b);
            rope.set(0, head);
            let mut k: usize = 1;
            while k < len
                invariant
                    1 <= k <= len,
                    rope@.len() == len,
                    o.len() == len,
                    b == s,
                    s < 0x2000_0000_0000_0000,
                    forall|j: int| 0 <= j < k ==> ints(rope@)[j] == knot_after(o, d, j),
                    forall|j: int| k <= j < len ==> ints(rope@)[j] == o[j],
                    forall|j: int|
                        0 <= j < len ==> -b - 1 <= (#[trigger] rope@[j]).0 <= b + 1 && -b - 1
                            <= rope@[j].1 <= b + 1,
                decreases len - k,
            {
                let ghost prev = rope@;
                assert(ints(prev)[k as int] == o[k as int]);
                assert(ints(prev)[k - 1] == knot_after(o, d, k - 1));
                assert(knot_after(o, d, k as int) == follow(o[k as int], knot_after(o, d, k - 1)));
                let t = follow_knot(rope[k], rope[k - 1], b + 1);
                rope.set(k, t);
                assert(ints(rope@)[k as int] == knot_after(o, d, k as int));
                assert forall|j: int| 0 <= j < len && j != k implies rope@[j] == prev[j] by {}
                k += 1;
            }
            let ghost pre = ds@.subrange(0, s as int);
            let ghost next = ds@.subrange(0, s + 1);
            assert(next.drop_last() =~= pre);
            assert(ints(rope@) =~= step(o, d));
            let tail = rope[len - 1];
            proof {
                let tn = trail(next, len as nat);
                let tp = trail(pre, len as nat);
                assert forall|j: int| 0 <= j < s implies tn[j] == tp[j] by {
                    assert(next.subrange(0, j + 1) =~= pre.subrange(0, j + 1));
                }
                assert(next.subrange(0, s + 1) =~= next);
                assert(tn =~= tp.push((tail.0 as int, tail.1 as int)));
            }
            let ghost tp = (tail.0 as int, tail.1 as int);
            let ghost before = ints(seen@);
            proof {
                lemma_push_to_set(trail(pre, len as nat), tp);
            }
            if !contains_pos(&seen, tail) {
                seen.push(tail);
                assert(ints(seen@) =~= before.push(tp));
                proof {
                    lemma_push_to_set(before, tp);
                }
            } else {
                assert(before.to_set().insert(tp) =~= before.to_set());
            }
            s += 1;
        }
        proof {
            assert(ds@.subrange(0, s as int) =~= ds@);
            ints(seen@).unique_seq_to_set();
        }
        seen.len() as u64
    }
}

impl ChallengeSolver for Solver {
    open spec fn solvable_a(&self) -> bool {
        steps(self@).len() < 0x2000_0000_0000_0000
    }

    open spec fn solvable_b(&self) -> bool {
        steps(self@).len() < 0x2000_0000_0000_0000
    }

    open spec fn answer_a(&self) -> Seq<char> {
        decimal(visited(self@, 2))
    }

    open spec fn answer_b(&self) -> Seq<char> {
        decimal(visited(self@, 10))
    }

    /// How many places the tail of a two-knot rope visits.
    fn get_part_a_result(&self) -> (r: String) {
        u64_to_string(self.count_tail_positions(2))
    }

    /// How many places the tail of a ten-knot rope visits.
    fn get_part_b_result(&self) -> (r: String) {
        u64_to_string(self.count_tail_positions(10))
    }
}

} // verus!
