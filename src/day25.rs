use vstd::prelude::*;
use crate::text::{string_of_chars, trimmed_lines, trimmed_lines_of, views};
use crate::ChallengeSolver;

verus! {

/// The fuel requirements, one number per line, written in balanced base
/// five: digits `=`, `-`, `0`, `1`, `2` for -2 to 2.
pub struct Solver {
    input: Vec<isize>,
}

pub open spec fn is_snafu_digit(c: char) -> bool {
    c == '2' || c == '1' || c == '0' || c == '-' || c == '='
}

pub open spec fn snafu_digit(c: char) -> int {
    if c == '2' {
        2
    } else if c == '1' {
        1
    } else if c == '0' {
        0
    } else if c == '-' {
        -1
    } else {
        -2
    }
}

/// The number that a string of digits writes, the last digit counting one.
pub open spec fn snafu_value(s: Seq<char>) -> int
    decreases s.len(),
{
    if s.len() == 0 {
        0
    } else {
        snafu_value(s.drop_last()) * 5 + snafu_digit(s.last())
    }
}

pub open spec fn fits(v: int) -> bool {
    isize::MIN <= v <= isize::MAX
}

/// Every character is a digit and the value of every prefix fits in `isize`.
pub open spec fn line_ok(t: Seq<char>) -> bool {
    (forall|k: int| 0 <= k < t.len() ==> is_snafu_digit(#[trigger] t[k])) && forall|k: int|
        0 <= k <= t.len() ==> fits(#[trigger] snafu_value(t.subrange(0, k)))
}

pub open spec fn sum(v: Seq<isize>) -> int
    decreases v.len(),
{
    if v.len() == 0 {
        0
    } else {
        sum(v.drop_last()) + v.last()
    }
}

pub open spec fn pow5(n: nat) -> int
    decreases n,
{
    if n == 0 {
        1
    } else {
        5 * pow5((n - 1) as nat)
    }
}

/// `s` writes `n`: the empty string for a number under one, else digits
/// that start with no zero.
pub open spec fn is_snafu_of(s: Seq<char>, n: int) -> bool {
    if n <= 0 {
        s.len() == 0
    } else {
        s.len() > 0 && s[0] != '0' && (forall|k: int|
            0 <= k < s.len() ==> is_snafu_digit(#[trigger] s[k])) && snafu_value(s) == n
    }
}

/// The digits that write `n`, built from the last one: the remainder of
/// `n` by five, where 3 and 4 are written `=` and `-` and carry one.
pub open spec fn snafu_of(n: int) -> Seq<char>
    decreases n,
{
    if n <= 0 {
        Seq::empty()
    } else {
        let rem = n % 5;
        let q = n / 5;
        if rem == 0 {
            snafu_of(q).push('0')
        } else if rem == 1 {
            snafu_of(q).push('1')
        } else if rem == 2 {
            snafu_of(q).push('2')
        } else if rem == 3 {
            snafu_of(q + 1).push('=')
        } else {
            snafu_of(q + 1).push('-')
        }
    }
}

proof fn lemma_snafu_prepend(c: char, s: Seq<char>)
    ensures
        snafu_value(seq![c] + s) == snafu_digit(c) * pow5(s.len()) + snafu_value(s),
    decreases s.len(),
{
    if s.len() == 0 {
        assert((seq![c] + s).drop_last() =~= Seq::<char>::empty());
        assert(seq![c] + s =~= seq![c]);
        assert(seq![c].last() == c);
        assert(snafu_value(seq![c]) == snafu_value(Seq::<char>::empty()) * 5 + snafu_digit(c));
    } else {
        assert((seq![c] + s).drop_last() =~= seq![c] + s.drop_last());
        assert((seq![c] + s).last() == s.last());
        lemma_snafu_prepend(c, s.drop_last());
        let p = pow5((s.len() - 1) as nat);
        assert(pow5(s.len()) == 5 * p);
        assert((snafu_digit(c) * p + snafu_value(s.drop_last())) * 5 + snafu_digit(s.last())
            == snafu_digit(c) * (5 * p) + (snafu_value(s.drop_last()) * 5 + snafu_digit(
            s.last()))) by (nonlinear_arith);
    }
}

proof fn lemma_pow5_pos(n: nat)
    ensures
        pow5(n) >= 1,
    decreases n,
{
    if n > 0 {
        lemma_pow5_pos((n - 1) as nat);
    }
}

/// The value of one line of digits.
fn decode_snafu(num: &Vec<char>) -> (r: isize)
    requires
        line_ok(num@),
    ensures
        r == snafu_value(num@),
{
    let mut v: isize = 0;
    let mut i: usize = 0;
    assert(num@.subrange(0, 0) =~= Seq::<char>::empty());
    while i < num.len()
        invariant
            i <= num@.len(),
            line_ok(num@),
            v == snafu_value(num@.subrange(0, i as int)),
        decreases num@.len() - i,
    {
        let c = num[i];
        assert(num@.subrange(0, i + 1).drop_last() =~= num@.subrange(0, i as int));
        assert(is_snafu_digit(num@[i as int]));
        assert(fits(snafu_value(num@.subrange(0, i + 1))));
        let d: i128 = if c == '2' {
            2
        } else if c == '1' {
            1
        } else if c == '0' {
            0
        } else if c == '-' {
            -1
        } else {
            -2
        };
        v = (v as i128 * 5 + d) as isize;
        i += 1;
    }
    assert(num@.subrange(0, num@.len() as int) =~= num@);
    v
}

/// The digits that write `num`; none for a number under one.
fn encode_snafu(num: isize) -> (r: Vec<char>)
    ensures
        r@ == snafu_of(num as int),
        is_snafu_of(r@, num as int),
{
    let mut out: Vec<char> = Vec::new();
    let mut n: isize = num;
    while n > 0
        invariant
            num > 0 ==> n >= 0,
            num <= 0 ==> n == num && out@.len() == 0,
            num > 0 ==> snafu_value(out@) + n * pow5(out@.len()) == num,
            forall|k: int| 0 <= k < out@.len() ==> is_snafu_digit(#[trigger] out@[k]),
            num > 0 && out@.len() > 0 && n == 0 ==> out@[0] != '0',
            n <= num,
            snafu_of(num as int) == snafu_of(n as int) + out@,
        decreases n,
    {
        let rem = n % 5;
        let q = n / 5;
        let (c, next): (char, isize) = if rem == 0 {
            ('0', q)
        } else if rem == 1 {
            ('1', q)
        } else if rem == 2 {
            ('2', q)
        } else if rem == 3 {
            ('=', q + 1)
        } else {
            ('-', q + 1)
        };
        proof {
            let s = out@;
            lemma_snafu_prepend(c, s);
            lemma_pow5_pos(s.len());
            let p = pow5(s.len());
            assert(pow5((s.len() + 1) as nat) == 5 * p);
            assert(n == 5 * next + snafu_digit(c));
            assert(snafu_digit(c) * p + snafu_value(s) + next * (5 * p) == snafu_value(s) + n * p)
                by (nonlinear_arith)
                requires
                    n == 5 * next + snafu_digit(c),
            ;
        }
        let ghost before = out@;
        out.insert(0, c);
        assert(out@ =~= seq![c] + before);
        assert(snafu_of(n as int) == snafu_of(next as int).push(c));
        assert(snafu_of(next as int) + out@ =~= snafu_of(n as int) + before);
        n = next;
    }
    if num > 0 {
        assert(n == 0);
        assert(out@.len() > 0) by {
            if out@.len() == 0 {
                assert(snafu_value(out@) == 0);
            }
        }
    }
    out
}

impl Solver {
    pub closed spec fn view(&self) -> Seq<isize> {
        self.input@
    }

    /// Reads one number per line; an empty line counts as zero.
    pub fn new(input: String) -> (r: Solver)
        requires
            forall|ts: Seq<Seq<char>>|
                trimmed_lines_of(ts, input@) ==> forall|k: int|
                    0 <= k < ts.len() ==> line_ok(#[trigger] ts[k]),
        ensures
            exists|ts: Seq<Seq<char>>|
                trimmed_lines_of(ts, input@) && r@.len() == ts.len() && forall|k: int|
                    0 <= k < ts.len() ==> r@[k] == snafu_value(#[trigger] ts[k]),
    {
        let lines = trimmed_lines(input.as_str());
        let ghost ts = views(lines@);
        let mut acc: Vec<isize> = Vec::new();
        let mut i: usize = 0;
        while i < lines.len()
            invariant
                i <= lines@.len(),
                ts == views(lines@),
                forall|k: int| 0 <= k < ts.len() ==> line_ok(#[trigger] ts[k]),
                acc@.len() == i,
                forall|k: int| 0 <= k < i ==> acc@[k] == snafu_value(#[trigger] ts[k]),
            decreases lines@.len() - i,
        {
            assert(line_ok(ts[i as int]));
            acc.push(decode_snafu(&lines[i]));
            i += 1;
        }
        Solver { input: acc }
    }
}

impl ChallengeSolver for Solver {
    open spec fn solvable_a(&self) -> bool {
        forall|k: int| 0 <= k <= self@.len() ==> fits(#[trigger] sum(self@.subrange(0, k)))
    }

    open spec fn solvable_b(&self) -> bool {
        forall|k: int| 0 <= k <= self@.len() ==> fits(#[trigger] sum(self@.subrange(0, k)))
    }

    open spec fn answer_a(&self) -> Seq<char> {
        snafu_of(sum(self@))
    }

    open spec fn answer_b(&self) -> Seq<char> {
        "MERRY CHRISTMAS"@
    }

    /// The total of the requirements, written the same way.
    fn get_part_a_result(&self) -> (r: String) {
        let mut total: isize = 0;
        let mut i: usize = 0;
        assert(self@.subrange(0, 0) =~= Seq::<isize>::empty());
        while i < self.input.len()
            invariant
                self.solvable_a(),
                i <= self@.len(),
                total == sum(self@.subrange(0, i as int)),
            decreases self@.len() - i,
        {
            assert(self@.subrange(0, i + 1).drop_last() =~= self@.subrange(0, i as int));
            assert(fits(sum(self@.subrange(0, i + 1))));
            total = total + self.input[i];
            i += 1;
        }
        assert(self@.subrange(0, self@.len() as int) =~= self@);
        let digits = encode_snafu(total);
        string_of_chars(&digits)
    }

    /// The last day has no second puzzle, only a greeting.
    fn get_part_b_result(&self) -> (r: String) {
        "MERRY CHRISTMAS".to_owned()
    }
}

} // verus!
