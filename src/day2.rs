use vstd::prelude::*;
use crate::text::{decimal, trimmed_lines, trimmed_lines_of, u64_to_string, views};
use crate::ChallengeSolver;

verus! {

/// The strategy guide: per round, the opponent's shape and the second
/// column, both as 1, 2 or 3.
pub struct Day2 {
    input: Vec<(u8, u8)>,
}

pub open spec fn line_ok(t: Seq<char>) -> bool {
    t.len() == 0 || ('A' <= t[0] && t[0] <= 'C' && 'X' <= t.last() && t.last() <= 'Z')
}

/// One round per non-empty line: its first letter against its last.
pub open spec fn rounds_of(ts: Seq<Seq<char>>) -> Seq<(u8, u8)>
    decreases ts.len(),
{
    if ts.len() == 0 {
        Seq::empty()
    } else {
        let prev = rounds_of(ts.drop_last());
        let t = ts.last();
        if t.len() == 0 {
            prev
        } else {
            prev.push(((t[0] as int - 'A' as int + 1) as u8, (t.last() as int - 'X' as int + 1) as u8))
        }
    }
}

/// Score of a round where the second column is the shape played: the
/// shape's value, and 3 for a draw or 6 for a win.
pub open spec fn score_a(x: int, y: int) -> int {
    let bonus: int = if (x - y) % 3 == 0 {
        3
    } else if (x - y) % 3 == 2 {
        6
    } else {
        0
    };
    y + bonus
}

/// Score of a round where the second column is the outcome (1 lose, 2 draw,
/// 3 win): the value of the shape that gives it, and 3 per step of outcome.
pub open spec fn score_b(x: int, y: int) -> int {
    let shape = if y == 1 {
        (x + 1) % 3 + 1
    } else if y == 2 {
        x
    } else {
        x % 3 + 1
    };
    shape + (y - 1) * 3
}

pub open spec fn total_a(rs: Seq<(u8, u8)>) -> int
    decreases rs.len(),
{
    if rs.len() == 0 {
        0
    } else {
        total_a(rs.drop_last()) + score_a(rs.last().0 as int, rs.last().1 as int)
    }
}

pub open spec fn total_b(rs: Seq<(u8, u8)>) -> int
    decreases rs.len(),
{
    if rs.len() == 0 {
        0
    } else {
        total_b(rs.drop_last()) + score_b(rs.last().0 as int, rs.last().1 as int)
    }
}

pub open spec fn round_ok(r: (u8, u8)) -> bool {
    1 <= r.0 <= 3 && 1 <= r.1 <= 3
}

proof fn lemma_rounds_ok(ts: Seq<Seq<char>>)
    requires
        forall|k: int| 0 <= k < ts.len() ==> line_ok(#[trigger] ts[k]),
    ensures
        forall|k: int| 0 <= k < rounds_of(ts).len() ==> round_ok(#[trigger] rounds_of(ts)[k]),
        rounds_of(ts).len() <= ts.len(),
    decreases ts.len(),
{
    if ts.len() > 0 {
        assert(line_ok(ts[ts.len() - 1]));
        lemma_rounds_ok(ts.drop_last());
    }
}

impl Day2 {
    pub closed spec fn view(&self) -> Seq<(u8, u8)> {
        self.input@
    }

    pub closed spec fn wf(&self) -> bool {
        forall|k: int| 0 <= k < self@.len() ==> round_ok(#[trigger] self@[k])
    }

    /// Reads one round per line: a letter A to C, then a letter X to Z.
    pub fn new(input: String) -> (r: Day2)
        requires
            forall|ts: Seq<Seq<char>>|
                trimmed_lines_of(ts, input@) ==> forall|k: int|
                    0 <= k < ts.len() ==> line_ok(#[trigger] ts[k]),
        ensures
            r.wf(),
            exists|ts: Seq<Seq<char>>| trimmed_lines_of(ts, input@) && r@ == rounds_of(ts),
    {
        let lines = trimmed_lines(input.as_str());
        Day2::from_lines(&lines)
    }

    /// Reads the input as `new` does, or gives `None` where some line is
    /// neither empty nor a round.
    pub fn try_new(input: String) -> (r: Option<Day2>)
        ensures
            r is None ==> exists|ts: Seq<Seq<char>>|
                trimmed_lines_of(ts, input@) && exists|k: int| 0 <= k < ts.len() && !line_ok(#[trigger] ts[k]),
            r matches Some(d) ==> d.wf() && exists|ts: Seq<Seq<char>>|
                trimmed_lines_of(ts, input@) && (forall|k: int| 0 <= k < ts.len() ==> line_ok(#[trigger] ts[k]))
                    && d@ == rounds_of(ts),
    {
        let lines = trimmed_lines(input.as_str());
        let ghost ts = views(lines@);
        let mut i: usize = 0;
        while i < lines.len()
            invariant
                i <= lines@.len(),
                ts == views(lines@),
                trimmed_lines_of(ts, input@),
                forall|k: int| 0 <= k < i ==> line_ok(#[trigger] ts[k]),
            decreases lines@.len() - i,
        {
            assert(ts[i as int] == lines@[i as int]@);
            if !line_fits(&lines[i]) {
                assert(!line_ok(ts[i as int]));
                return None;
            }
            i += 1;
        }
        Some(Day2::from_lines(&lines))
    }

    fn from_lines(lines: &Vec<Vec<char>>) -> (r: Day2)
        requires
            forall|k: int| 0 <= k < lines@.len() ==> line_ok(#[trigger] views(lines@)[k]),
        ensures
            r.wf(),
            r@ == rounds_of(views(lines@)),
    {
        let ghost ts = views(lines@);
        let mut acc: Vec<(u8, u8)> = Vec::new();
        let mut i: usize = 0;
        while i < lines.len()
            invariant
                i <= lines@.len(),
                ts == views(lines@),
                forall|k: int| 0 <= k < ts.len() ==> line_ok(#[trigger] ts[k]),
                acc@ == rounds_of(ts.subrange(0, i as int)),
            decreases lines@.len() - i,
        {
            let line = &lines[i];
            assert(ts.subrange(0, i + 1).drop_last() =~= ts.subrange(0, i as int));
            assert(line_ok(ts[i as int]));
            if line.len() > 0 {
                let x = (line[0] as u32 - 'A' as u32 + 1) as u8;
                let y = (line[line.len() - 1] as u32 - 'X' as u32 + 1) as u8;
                acc.push((x, y));
            }
            i += 1;
        }
        assert(ts.subrange(0, lines@.len() as int) =~= ts);
        proof {
            lemma_rounds_ok(ts);
        }
        Day2 { input: acc }
    }
}

proof fn lemma_totals_bounded(rs: Seq<(u8, u8)>)
    requires
        forall|k: int| 0 <= k < rs.len() ==> round_ok(#[trigger] rs[k]),
    ensures
        0 <= total_a(rs) <= 9 * rs.len(),
        0 <= total_b(rs) <= 9 * rs.len(),
    decreases rs.len(),
{
    if rs.len() > 0 {
        assert(round_ok(rs[rs.len() - 1]));
        lemma_totals_bounded(rs.drop_last());
    }
}

impl ChallengeSolver for Day2 {
    open spec fn solvable_a(&self) -> bool {
        self.wf() && 9 * self@.len() <= u64::MAX
    }

    open spec fn solvable_b(&self) -> bool {
        self.wf() && 9 * self@.len() <= u64::MAX
    }

    open spec fn answer_a(&self) -> Seq<char> {
        decimal(total_a(self@) as nat)
    }

    open spec fn answer_b(&self) -> Seq<char> {
        decimal(total_b(self@) as nat)
    }

    /// The total score when the second column names the shape to play.
    fn get_part_a_result(&self) -> (r: String) {
        let mut acc: u64 = 0;
        let mut i: usize = 0;
        while i < self.input.len()
            invariant
                self.solvable_a(),
                i <= self@.len(),
                acc == total_a(self@.subrange(0, i as int)),
            decreases self@.len() - i,
        {
            let (x, y) = self.input[i];
            proof {
                assert(self@.subrange(0, i + 1).drop_last() =~= self@.subrange(0, i as int));
                assert(round_ok(self@[i as int]));
                lemma_totals_bounded(self@.subrange(0, i + 1));
            }
            let diff = (x as i64 - y as i64) % 3;
            let diff = if diff < 0 { diff + 3 } else { diff };
            acc = acc + y as u64;
            if diff == 0 {
                acc = acc + 3;
            } else if diff == 2 {
                acc = acc + 6;
            }
            i += 1;
        }
        proof {
            assert(self@.subrange(0, i as int) =~= self@);
            lemma_totals_bounded(self@);
        }
        u64_to_string(acc)
    }

    /// The total score when the second column names the outcome.
    fn get_part_b_result(&self) -> (r: String) {
        let mut acc: u64 = 0;
        let mut i: usize = 0;
        while i < self.input.len()
            invariant
                self.solvable_b(),
                i <= self@.len(),
                acc == total_b(self@.subrange(0, i as int)),
            decreases self@.len() - i,
        {
            let (x, y) = self.input[i];
            proof {
                assert(self@.subrange(0, i + 1).drop_last() =~= self@.subrange(0, i as int));
                assert(round_ok(self@[i as int]));
                lemma_totals_bounded(self@.subrange(0, i + 1));
            }
            let mut point_map: [u64; 3] = [1, 2, 3];
            if y == 1 {
                point_map = [3, 1, 2];
            } else if y == 3 {
                point_map = [2, 3, 1];
            }
            acc = acc + point_map[(x - 1) as usize];
            acc = acc + (y as u64 - 1) * 3;
            i += 1;
        }
        proof {
            assert(self@.subrange(0, i as int) =~= self@);
            lemma_totals_bounded(self@);
        }
        u64_to_string(acc)
    }
}

fn line_fits(t: &Vec<char>) -> (r: bool)
    ensures
        r == line_ok(t@),
{
    t.len() == 0 || ('A' <= t[0] && t[0] <= 'C' && 'X' <= t[t.len() - 1] && t[t.len() - 1] <= 'Z')
}

} // verus!
