use vstd::prelude::*;
use crate::text::{
    all_digits, decimal, decimal_value, parse_u64, split_at_first, split_once, trimmed_lines,
    trimmed_lines_of, u64_to_string, views,
};
use crate::ChallengeSolver;

verus! {

/// The pairs of section ranges: `(a, b, c, d)` for the ranges `a..=b` and
/// `c..=d`.
pub struct Solver {
    input: Vec<(u32, u32, u32, u32)>,
}

pub open spec fn start_ok(t: Seq<char>) -> bool {
    t.len() > 0 && all_digits(t) && decimal_value(t) <= u32::MAX
}

pub open spec fn end_ok(t: Seq<char>) -> bool {
    t.len() > 0 && all_digits(t) && decimal_value(t) < u32::MAX
}

/// `start-end`.
pub open spec fn parse_range(t: Seq<char>) -> Option<(u32, u32)> {
    match split_at_first(t, '-') {
        Some(p) => if start_ok(p.0) && end_ok(p.1) {
            Some((decimal_value(p.0) as u32, decimal_value(p.1) as u32))
        } else {
            None
        },
        None => None,
    }
}

/// `start-end,start-end`.
pub open spec fn parse_pair(t: Seq<char>) -> Option<(u32, u32, u32, u32)> {
    match split_at_first(t, ',') {
        Some(p) => match (parse_range(p.0), parse_range(p.1)) {
            (Some(x), Some(y)) => Some((x.0, x.1, y.0, y.1)),
            _ => None,
        },
        None => None,
    }
}

pub open spec fn line_ok(t: Seq<char>) -> bool {
    t.len() == 0 || parse_pair(t) is Some
}

/// One pair per non-empty line.
pub open spec fn pairs_of(ts: Seq<Seq<char>>) -> Seq<(u32, u32, u32, u32)>
    decreases ts.len(),
{
    if ts.len() == 0 {
        Seq::empty()
    } else if ts.last().len() == 0 {
        pairs_of(ts.drop_last())
    } else {
        pairs_of(ts.drop_last()).push(parse_pair(ts.last())->0)
    }
}

/// How many sections `a..=b` holds.
pub open spec fn size(a: int, b: int) -> int {
    if b >= a {
        b - a + 1
    } else {
        0
    }
}

pub open spec fn min(a: int, b: int) -> int {
    if a <= b {
        a
    } else {
        b
    }
}

pub open spec fn max(a: int, b: int) -> int {
    if a >= b {
        a
    } else {
        b
    }
}

/// How many sections both ranges of the pair hold.
pub open spec fn shared(p: (u32, u32, u32, u32)) -> int {
    size(max(p.0 as int, p.2 as int), min(p.1 as int, p.3 as int))
}

/// One range holds all sections of the other.
pub open spec fn contained(p: (u32, u32, u32, u32)) -> bool {
    shared(p) == size(p.0 as int, p.1 as int) || shared(p) == size(p.2 as int, p.3 as int)
}

pub open spec fn overlaps(p: (u32, u32, u32, u32)) -> bool {
    shared(p) > 0
}

pub open spec fn count_contained(ps: Seq<(u32, u32, u32, u32)>) -> nat
    decreases ps.len(),
{
    if ps.len() == 0 {
        0
    } else {
        count_contained(ps.drop_last()) + if contained(ps.last()) {
            1nat
        } else {
            0
        }
    }
}

pub open spec fn count_overlapping(ps: Seq<(u32, u32, u32, u32)>) -> nat
    decreases ps.len(),
{
    if ps.len() == 0 {
        0
    } else {
        count_overlapping(ps.drop_last()) + if overlaps(ps.last()) {
            1nat
        } else {
            0
        }
    }
}

/// Reads `start-end`.
fn read_range(t: &Vec<char>) -> (r: Option<(u32, u32)>)
    ensures
        r == parse_range(t@),
{
    match split_once(t, '-') {
        Some((a, b)) => {
            let x = parse_u64(&a);
            let y = parse_u64(&b);
            match (x, y) {
                (Some(x), Some(y)) => {
                    if x <= u32::MAX as u64 && y < u32::MAX as u64 {
                        Some((x as u32, y as u32))
                    } else {
                        None
                    }
                },
                _ => None,
            }
        },
        None => None,
    }
}

/// Reads `start-end,start-end`.
fn read_pair(t: &Vec<char>) -> (r: Option<(u32, u32, u32, u32)>)
    ensures
        r == parse_pair(t@),
{
    match split_once(t, ',') {
        Some((a, b)) => {
            match (read_range(&a), read_range(&b)) {
                (Some(x), Some(y)) => Some((x.0, x.1, y.0, y.1)),
                _ => None,
            }
        },
        None => None,
    }
}

/// How many sections both ranges of the pair hold.
fn shared_sections(p: (u32, u32, u32, u32)) -> (r: u64)
    ensures
        r == shared(p),
{
    let lo = if p.0 >= p.2 { p.0 } else { p.2 };
    let hi = if p.1 <= p.3 { p.1 } else { p.3 };
    if hi >= lo {
        hi as u64 - lo as u64 + 1
    } else {
        0
    }
}

fn sections(a: u32, b: u32) -> (r: u64)
    ensures
        r == size(a as int, b as int),
{
    if b >= a {
        b as u64 - a as u64 + 1
    } else {
        0
    }
}

impl Solver {
    pub closed spec fn view(&self) -> Seq<(u32, u32, u32, u32)> {
        self.input@
    }

    /// Reads one pair of ranges per line, as `2-4,6-8`.
    pub fn new(input: String) -> (r: Solver)
        requires
            forall|ts: Seq<Seq<char>>|
                trimmed_lines_of(ts, input@) ==> forall|k: int|
                    0 <= k < ts.len() ==> line_ok(#[trigger] ts[k]),
        ensures
            exists|ts: Seq<Seq<char>>| trimmed_lines_of(ts, input@) && r@ == pairs_of(ts),
    {
        let lines = trimmed_lines(input.as_str());
        Solver::from_lines(&lines)
    }

    /// Reads the input as `new` does, or gives `None` where some line is
    /// neither empty nor a pair of ranges.
    pub fn try_new(input: String) -> (r: Option<Solver>)
        ensures
            r is None ==> exists|ts: Seq<Seq<char>>|
                trimmed_lines_of(ts, input@) && exists|k: int| 0 <= k < ts.len() && !line_ok(#[trigger] ts[k]),
            r matches Some(d) ==> exists|ts: Seq<Seq<char>>|
                trimmed_lines_of(ts, input@) && (forall|k: int| 0 <= k < ts.len() ==> line_ok(#[trigger] ts[k]))
                    && d@ == pairs_of(ts),
    {
        let lines = trimmed_lines(input.as_str());
        let ghost ts = views(lines@);
        let mut i: usize = 0;
        while i < lines.len()
            invariant
                i <= lines@.len(),
                ts == views(lines@),
                trimmed_lines_of(ts, input@),
                forall|k: int| 0 <= k < i ==> line_ok(#[trigger] ts[k]),
            decreases lines@.len() - i,
        {
            assert(ts[i as int] == lines@[i as int]@);
            if !(lines[i].len() == 0 || match read_pair(&lines[i]) { Some(_) => true, None => false }) {
                assert(!line_ok(ts[i as int]));
                return None;
            }
            i += 1;
        }
        Some(Solver::from_lines(&lines))
    }

    fn from_lines(lines: &Vec<Vec<char>>) -> (r: Solver)
        requires
            forall|k: int| 0 <= k < lines@.len() ==> line_ok(#[trigger] views(lines@)[k]),
        ensures
            r@ == pairs_of(views(lines@)),
    {
        let ghost ts = views(lines@);
        let mut acc: Vec<(u32, u32, u32, u32)> = Vec::new();
        let mut i: usize = 0;
        while i < lines.len()
            invariant
                i <= lines@.len(),
                ts == views(lines@),
                forall|k: int| 0 <= k < ts.len() ==> line_ok(#[trigger] ts[k]),
                acc@ == pairs_of(ts.subrange(0, i as int)),
            decreases lines@.len() - i,
        {
            assert(ts.subrange(0, i + 1).drop_last() =~= ts.subrange(0, i as int));
            assert(line_ok(ts[i as int]));
            if lines[i].len() > 0 {
                match read_pair(&lines[i]) {
                    Some(p) => acc.push(p),
                    None => {},
                }
            }
            i += 1;
        }
        assert(ts.subrange(0, lines@.len() as int) =~= ts);
        Solver { input: acc }
    }
}

impl ChallengeSolver for Solver {
    open spec fn solvable_a(&self) -> bool {
        true
    }

    open spec fn solvable_b(&self) -> bool {
        true
    }

    open spec fn answer_a(&self) -> Seq<char> {
        decimal(count_contained(self@))
    }

    open spec fn answer_b(&self) -> Seq<char> {
        decimal(count_overlapping(self@))
    }

    /// How many pairs have one range inside the other.
    fn get_part_a_result(&self) -> (r: String) {
        let mut acc: u64 = 0;
        let mut i: usize = 0;
        while i < self.input.len()
            invariant
                i <= self@.len(),
                acc == count_contained(self@.subrange(0, i as int)),
                acc <= i,
            decreases self@.len() - i,
        {
            assert(self@.subrange(0, i + 1).drop_last() =~= self@.subrange(0, i as int));
            let p = self.input[i];
            let s = shared_sections(p);
            if s == sections(p.0, p.1) || s == sections(p.2, p.3) {
                acc = acc + 1;
            }
            i += 1;
        }
        assert(self@.subrange(0, i as int) =~= self@);
        u64_to_string(acc)
    }

    /// How many pairs share a section.
    fn get_part_b_result(&self) -> (r: String) {
        let mut acc: u64 = 0;
        let mut i: usize = 0;
        while i < self.input.len()
            invariant
                i <= self@.len(),
                acc == count_overlapping(self@.subrange(0, i as int)),
                acc <= i,
            decreases self@.len() - i,
        {
            assert(self@.subrange(0, i + 1).drop_last() =~= self@.subrange(0, i as int));
            if shared_sections(self.input[i]) > 0 {
                acc = acc + 1;
            }
            i += 1;
        }
        assert(self@.subrange(0, i as int) =~= self@);
        u64_to_string(acc)
    }
}

} // verus!
