use vstd::prelude::*;
use crate::text::{
    signed_value,
    all_digits, decimal_value, i64_to_string, parse_i64, signed_decimal, split_at_first, split_once,
    string_of_chars, trimmed_lines, trimmed_lines_of, views,
};
use crate::ChallengeSolver;

verus! {

/// One instruction of the handheld's CPU.
#[derive(Clone, Copy, PartialEq, Eq, Structural)]
pub enum Instruction {
    Noop,
    Addx(i64),
}

/// The program.
pub struct Solver {
    input: Vec<Instruction>,
}

pub open spec fn noop_word() -> Seq<char> {
    seq!['n', 'o', 'o', 'p']
}

pub open spec fn addx_word() -> Seq<char> {
    seq!['a', 'd', 'd', 'x']
}


/// `noop`, or `addx` and a number after one space.
pub open spec fn parse_instruction(t: Seq<char>) -> Option<Instruction> {
    if t == noop_word() {
        Some(Instruction::Noop)
    } else {
        match split_at_first(t, ' ') {
            Some(p) => if p.0 == addx_word() {
                match signed_value(p.1) {
                    Some(v) => Some(Instruction::Addx(v)),
                    None => None,
                }
            } else {
                None
            },
            None => None,
        }
    }
}

pub open spec fn line_ok(t: Seq<char>) -> bool {
    t.len() == 0 || parse_instruction(t) is Some
}

/// One instruction per non-empty line.
pub open spec fn program_of(ts: Seq<Seq<char>>) -> Seq<Instruction>
    decreases ts.len(),
{
    if ts.len() == 0 {
        Seq::empty()
    } else if ts.last().len() == 0 {
        program_of(ts.drop_last())
    } else {
        program_of(ts.drop_last()).push(parse_instruction(ts.last())->0)
    }
}

/// The register X once all of `ops` have run; it starts at 1.
pub open spec fn x_after(ops: Seq<Instruction>) -> int
    decreases ops.len(),
{
    if ops.len() == 0 {
        1
    } else {
        x_after(ops.drop_last()) + match ops.last() {
            Instruction::Noop => 0,
            Instruction::Addx(v) => v as int,
        }
    }
}

/// X during each cycle: `noop` takes one cycle, `addx` two, and changes X
/// only once both are over.
pub open spec fn trace(ops: Seq<Instruction>) -> Seq<int>
    decreases ops.len(),
{
    if ops.len() == 0 {
        Seq::empty()
    } else {
        let t = trace(ops.drop_last());
        let x = x_after(ops.drop_last());
        match ops.last() {
            Instruction::Noop => t.push(x),
            Instruction::Addx(_) => t.push(x).push(x),
        }
    }
}

/// The signal strength at cycle `c` (from 1), or 0 past the program's end.
pub open spec fn strength(tr: Seq<int>, c: int) -> int {
    if c <= tr.len() {
        c * tr[c - 1]
    } else {
        0
    }
}

/// The strengths at cycles 20, 60, 100, 140, 180 and 220.
pub open spec fn signal_sum(tr: Seq<int>) -> int {
    strength(tr, 20) + strength(tr, 60) + strength(tr, 100) + strength(tr, 140) + strength(tr, 180)
        + strength(tr, 220)
}

/// Pixel `p` of the screen: lit where the three-wide sprite, centred on X,
/// covers the pixel's column while the beam draws it.
pub open spec fn pixel(tr: Seq<int>, p: int) -> char {
    if p < tr.len() && -2 < tr[p] - p % 40 < 2 {
        '#'
    } else {
        '.'
    }
}

/// The six rows of forty pixels, each row followed by a newline.
pub open spec fn screen(tr: Seq<int>) -> Seq<char> {
    Seq::new(246, |k: int| if k % 41 == 40 { '\n' } else { pixel(tr, (k / 41) * 40 + k % 41) })
}

fn read_instruction(t: &Vec<char>) -> (r: Option<Instruction>)
    ensures
        r == parse_instruction(t@),
{
    if t.len() == 4 && t[0] == 'n' && t[1] == 'o' && t[2] == 'o' && t[3] == 'p' {
        assert(t@ =~= noop_word());
        return Some(Instruction::Noop);
    }
    assert(t@ != noop_word()) by {
        if t@ == noop_word() {
            assert(t@[0] == 'n' && t@[1] == 'o' && t@[2] == 'o' && t@[3] == 'p');
        }
    }
    match split_once(t, ' ') {
        Some((a, b)) => {
            if a.len() == 4 && a[0] == 'a' && a[1] == 'd' && a[2] == 'd' && a[3] == 'x' {
                assert(a@ =~= addx_word());
                match parse_i64(&b) {
                    Some(v) => Some(Instruction::Addx(v)),
                    None => None,
                }
            } else {
                assert(a@ != addx_word()) by {
                    if a@ == addx_word() {
                        assert(a@[0] == 'a' && a@[1] == 'd' && a@[2] == 'd' && a@[3] == 'x');
                    }
                }
                None
            }
        },
        None => None,
    }
}

pub open spec fn x_fits(ops: Seq<Instruction>) -> bool {
    forall|k: int| 0 <= k <= ops.len() ==> i64::MIN <= #[trigger] x_after(ops.subrange(0, k)) <= i64::MAX
}

impl Solver {
    pub closed spec fn view(&self) -> Seq<Instruction> {
        self.input@
    }

    /// Reads one instruction per line.
    pub fn new(input: String) -> (r: Solver)
        requires
            forall|ts: Seq<Seq<char>>|
                trimmed_lines_of(ts, input@) ==> forall|k: int|
                    0 <= k < ts.len() ==> line_ok(#[trigger] ts[k]),
        ensures
            exists|ts: Seq<Seq<char>>| trimmed_lines_of(ts, input@) && r@ == program_of(ts),
    {
        let lines = trimmed_lines(input.as_str());
        Solver::from_lines(&lines)
    }

    /// Reads the input as `new` does, or gives `None` where some line is
    /// neither empty nor an instruction.
    pub fn try_new(input: String) -> (r: Option<Solver>)
        ensures
            r is None ==> exists|ts: Seq<Seq<char>>|
                trimmed_lines_of(ts, input@) && exists|k: int| 0 <= k < ts.len() && !line_ok(#[trigger] ts[k]),
            r matches Some(d) ==> exists|ts: Seq<Seq<char>>|
                trimmed_lines_of(ts, input@) && (forall|k: int| 0 <= k < ts.len() ==> line_ok(#[trigger] ts[k]))
                    && d@ == program_of(ts),
    {
        let lines = trimmed_lines(input.as_str());
        let ghost ts = views(lines@);
        let mut i: usize = 0;
        while i < lines.len()
            invariant
                i <= lines@.len(),
                ts == views(lines@),
                trimmed_lines_of(ts, input@),
                forall|k: int| 0 <= k < i ==> line_ok(#[trigger] ts[k]),
            decreases lines@.len() - i,
        {
            assert(ts[i as int] == lines@[i as int]@);
            if !(lines[i].len() == 0 || match read_instruction(&lines[i]) { Some(_) => true, None => false }) {
                assert(!line_ok(ts[i as int]));
                return None;
            }
            i += 1;
        }
        Some(Solver::from_lines(&lines))
    }

    fn from_lines(lines: &Vec<Vec<char>>) -> (r: Solver)
        requires
            forall|k: int| 0 <= k < lines@.len() ==> line_ok(#[trigger] views(lines@)[k]),
        ensures
            r@ == program_of(views(lines@)),
    {
        let ghost ts = views(lines@);
        let mut acc: Vec<Instruction> = Vec::new();
        let mut i: usize = 0;
        while i < lines.len()
            invariant
                i <= lines@.len(),
                ts == views(lines@),
                forall|k: int| 0 <= k < ts.len() ==> line_ok(#[trigger] ts[k]),
                acc@ == program_of(ts.subrange(0, i as int)),
            decreases lines@.len() - i,
        {
            assert(ts.subrange(0, i + 1).drop_last() =~= ts.subrange(0, i as int));
            assert(line_ok(ts[i as int]));
            if lines[i].len() > 0 {
                match read_instruction(&lines[i]) {
                    Some(op) => acc.push(op),
                    None => {},
                }
            }
            i += 1;
        }
        assert(ts.subrange(0, lines@.len() as int) =~= ts);
        Solver { input: acc }
    }

    /// X during each cycle of the program.
    fn run(&self) -> (r: Vec<i64>)
        requires
            x_fits(self@),
        ensures
            r@.len() == trace(self@).len(),
            forall|k: int| 0 <= k < r@.len() ==> r@[k] == #[trigger] trace(self@)[k],
    {
        let mut r: Vec<i64> = Vec::new();
        let mut x: i64 = 1;
        let mut i: usize = 0;
        assert(self@.subrange(0, 0) =~= Seq::<Instruction>::empty());
        while i < self.input.len()
            invariant
                x_fits(self@),
                i <= self@.len(),
                x == x_after(self@.subrange(0, i as int)),
                r@.len() == trace(self@.subrange(0, i as int)).len(),
                forall|k: int|
                    0 <= k < r@.len() ==> r@[k] == #[trigger] trace(self@.subrange(0, i as int))[k],
            decreases self@.len() - i,
        {
            let ghost pre = self@.subrange(0, i as int);
            assert(self@.subrange(0, i + 1).drop_last() =~= pre);
            assert(i64::MIN <= x_after(self@.subrange(0, i + 1)) <= i64::MAX);
            match self.input[i] {
                Instruction::Noop => {
                    r.push(x);
                },
                Instruction::Addx(v) => {
                    r.push(x);
                    r.push(x);
                    x = x + v;
                },
            }
            i += 1;
        }
        assert(self@.subrange(0, i as int) =~= self@);
        r
    }
}

fn strength_at(tr: &Vec<i64>, c: usize) -> (r: i128)
    requires
        1 <= c <= 220,
    ensures
        r == strength(tr@.map_values(|x: i64| x as int), c as int),
{
    if c <= tr.len() {
        let x = tr[c - 1] as i128;
        assert(-220 * 0x8000_0000_0000_0000 <= c * x <= 220 * 0x8000_0000_0000_0000)
            by (nonlinear_arith)
            requires
                1 <= c <= 220,
                -0x8000_0000_0000_0000 <= x < 0x8000_0000_0000_0000,
        ;
        c as i128 * x
    } else {
        0
    }
}

impl ChallengeSolver for Solver {
    open spec fn solvable_a(&self) -> bool {
        &&& x_fits(self@)
        &&& trace(self@).len() <= 240
        &&& i64::MIN <= signal_sum(trace(self@)) <= i64::MAX
    }

    open spec fn solvable_b(&self) -> bool {
        &&& x_fits(self@)
        &&& trace(self@).len() <= 240
        &&& i64::MIN <= signal_sum(trace(self@)) <= i64::MAX
    }

    open spec fn answer_a(&self) -> Seq<char> {
        signed_decimal(signal_sum(trace(self@)))
    }

    open spec fn answer_b(&self) -> Seq<char> {
        screen(trace(self@))
    }

    /// The sum of six signal strengths.
    fn get_part_a_result(&self) -> (r: String) {
        let tr = self.run();
        let ghost t = tr@.map_values(|x: i64| x as int);
        assert(t =~= trace(self@));
        let total = strength_at(&tr, 20) + strength_at(&tr, 60) + strength_at(&tr, 100)
            + strength_at(&tr, 140) + strength_at(&tr, 180) + strength_at(&tr, 220);
        i64_to_string(total as i64)
    }

    /// The picture on the screen.
    fn get_part_b_result(&self) -> (r: String) {
        let tr = self.run();
        let ghost t = tr@.map_values(|x: i64| x as int);
        assert(t =~= trace(self@));
        let mut out: Vec<char> = Vec::new();
        let mut k: usize = 0;
        while k < 246
            invariant
                k <= 246,
                t == tr@.map_values(|x: i64| x as int),
                out@ == screen(t).subrange(0, k as int),
            decreases 246 - k,
        {
            if k % 41 == 40 {
                out.push('\n');
            } else {
                let p = (k / 41) * 40 + k % 41;
                if p < tr.len() && -2 < tr[p] as i128 - (p % 40) as i128 && tr[p] as i128 - (p
                    % 40) as i128 <= 1 {
                    out.push('#');
                } else {
                    out.push('.');
                }
            }
            k += 1;
            assert(out@ =~= screen(t).subrange(0, k as int));
        }
        assert(out@ =~= screen(t));
        string_of_chars(&out)
    }
}

} // verus!
