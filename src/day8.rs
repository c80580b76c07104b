use vstd::prelude::*;
use crate::text::{all_digits, decimal, digit_value, is_digit, trimmed_lines, trimmed_lines_of, u64_to_string, views};
use crate::ChallengeSolver;

verus! {

/// The tree heights, a square of digits.
pub struct Solver {
    board: Vec<Vec<u8>>,
}

/// The non-empty lines, as rows of digits.
pub open spec fn rows_of(ts: Seq<Seq<char>>) -> Seq<Seq<u8>>
    decreases ts.len(),
{
    if ts.len() == 0 {
        Seq::empty()
    } else if ts.last().len() == 0 {
        rows_of(ts.drop_last())
    } else {
        rows_of(ts.drop_last()).push(ts.last().map_values(|c: char| digit_value(c) as u8))
    }
}

pub open spec fn square(g: Seq<Seq<u8>>) -> bool {
    forall|i: int| 0 <= i < g.len() ==> (#[trigger] g[i]).len() == g.len()
}

/// The trees seen from `(i, j)` looking up, nearest first.
pub open spec fn up_line(g: Seq<Seq<u8>>, i: int, j: int) -> Seq<u8> {
    Seq::new(i as nat, |k: int| g[i - 1 - k][j])
}

pub open spec fn down_line(g: Seq<Seq<u8>>, i: int, j: int) -> Seq<u8> {
    Seq::new((g.len() - i - 1) as nat, |k: int| g[i + 1 + k][j])
}

pub open spec fn left_line(g: Seq<Seq<u8>>, i: int, j: int) -> Seq<u8> {
    Seq::new(j as nat, |k: int| g[i][j - 1 - k])
}

pub open spec fn right_line(g: Seq<Seq<u8>>, i: int, j: int) -> Seq<u8> {
    Seq::new((g[i].len() - j - 1) as nat, |k: int| g[i][j + 1 + k])
}

/// Every tree of the line is lower than `h`.
pub open spec fn clear(line: Seq<u8>, h: u8) -> bool {
    forall|k: int| 0 <= k < line.len() ==> line[k] < h
}

/// The tree at `(i, j)` is seen from outside the grid along some direction.
pub open spec fn visible(g: Seq<Seq<u8>>, i: int, j: int) -> bool {
    let h = g[i][j];
    clear(up_line(g, i, j), h) || clear(right_line(g, i, j), h) || clear(down_line(g, i, j), h)
        || clear(left_line(g, i, j), h)
}

/// How many trees are seen along a line from a tree of height `h`: up to
/// and with the first that is not lower, or all of them.
pub open spec fn viewing_distance(line: Seq<u8>, h: u8) -> nat
    decreases line.len(),
{
    if line.len() == 0 {
        0
    } else if line[0] >= h {
        1
    } else {
        1 + viewing_distance(line.drop_first(), h)
    }
}

pub open spec fn scenic_score(g: Seq<Seq<u8>>, i: int, j: int) -> nat {
    let h = g[i][j];
    viewing_distance(up_line(g, i, j), h) * viewing_distance(right_line(g, i, j), h)
        * viewing_distance(down_line(g, i, j), h) * viewing_distance(left_line(g, i, j), h)
}

/// How many trees of row `i` before column `j` are visible.
pub open spec fn count_in_row(g: Seq<Seq<u8>>, i: int, j: int) -> nat
    decreases j,
{
    if j <= 0 {
        0
    } else {
        count_in_row(g, i, j - 1) + if visible(g, i, j - 1) {
            1nat
        } else {
            0
        }
    }
}

/// How many trees of the rows before `i` are visible.
pub open spec fn count_visible(g: Seq<Seq<u8>>, i: int) -> nat
    decreases i,
{
    if i <= 0 {
        0
    } else {
        count_visible(g, i - 1) + count_in_row(g, i - 1, g[i - 1].len() as int)
    }
}

pub open spec fn is_best_score(r: nat, g: Seq<Seq<u8>>) -> bool {
    (exists|i: int, j: int|
        0 <= i < g.len() && 0 <= j < g[i].len() && r == #[trigger] scenic_score(g, i, j))
        && forall|i: int, j: int|
        0 <= i < g.len() && 0 <= j < g[i].len() ==> #[trigger] scenic_score(g, i, j) <= r
}

pub open spec fn best_score(g: Seq<Seq<u8>>) -> nat {
    choose|r: nat| is_best_score(r, g)
}

pub open spec fn line_ok(t: Seq<char>) -> bool {
    all_digits(t)
}

fn digits_of(t: &Vec<char>) -> (r: Vec<u8>)
    requires
        all_digits(t@),
    ensures
        r@ == t@.map_values(|c: char| digit_value(c) as u8),
{
    let mut r: Vec<u8> = Vec::new();
    let mut i: usize = 0;
    while i < t.len()
        invariant
            i <= t@.len(),
            all_digits(t@),
            r@ == t@.subrange(0, i as int).map_values(|c: char| digit_value(c) as u8),
        decreases t@.len() - i,
    {
        r.push((t[i] as u32 - '0' as u32) as u8);
        i += 1;
        assert(r@ =~= t@.subrange(0, i as int).map_values(|c: char| digit_value(c) as u8));
    }
    assert(t@.subrange(0, i as int) =~= t@);
    r
}

/// All trees of the line are lower than `h`.
fn all_lower(line: &Vec<u8>, h: u8) -> (r: bool)
    ensures
        r == clear(line@, h),
{
    let mut k: usize = 0;
    while k < line.len()
        invariant
            k <= line@.len(),
            forall|x: int| 0 <= x < k ==> line@[x] < h,
        decreases line@.len() - k,
    {
        if line[k] >= h {
            return false;
        }
        k += 1;
    }
    true
}

fn view_length(line: &Vec<u8>, h: u8) -> (r: u64)
    ensures
        r == viewing_distance(line@, h),
        r <= line@.len(),
{
    let mut k: usize = 0;
    assert(line@.subrange(0, line@.len() as int) =~= line@);
    while k < line.len()
        invariant
            k <= line@.len(),
            forall|x: int| 0 <= x < k ==> line@[x] < h,
            viewing_distance(line@, h) == k + viewing_distance(
                line@.subrange(k as int, line@.len() as int),
                h,
            ),
        decreases line@.len() - k,
    {
        let ghost rest = line@.subrange(k as int, line@.len() as int);
        assert(rest[0] == line@[k as int]);
        if line[k] >= h {
            return (k + 1) as u64;
        }
        assert(rest.drop_first() =~= line@.subrange(k + 1, line@.len() as int));
        k += 1;
    }
    assert(line@.subrange(k as int, line@.len() as int).len() == 0);
    k as u64
}

impl Solver {
    pub closed spec fn view(&self) -> Seq<Seq<u8>> {
        self.board@.map_values(|r: Vec<u8>| r@)
    }

    /// Reads one row of digits per line.
    pub fn new(input: String) -> (r: Solver)
        requires
            forall|ts: Seq<Seq<char>>|
                trimmed_lines_of(ts, input@) ==> forall|k: int|
                    0 <= k < ts.len() ==> line_ok(#[trigger] ts[k]),
        ensures
            exists|ts: Seq<Seq<char>>| trimmed_lines_of(ts, input@) && r@ == rows_of(ts),
    {
        let lines = trimmed_lines(input.as_str());
        Solver::from_lines(&lines)
    }

    /// Reads the input as `new` does, or gives `None` where some line is
    /// not made of digits.
    pub fn try_new(input: String) -> (r: Option<Solver>)
        ensures
            r is None ==> exists|ts: Seq<Seq<char>>|
                trimmed_lines_of(ts, input@) && exists|k: int| 0 <= k < ts.len() && !line_ok(#[trigger] ts[k]),
            r matches Some(d) ==> exists|ts: Seq<Seq<char>>|
                trimmed_lines_of(ts, input@) && (forall|k: int| 0 <= k < ts.len() ==> line_ok(#[trigger] ts[k]))
                    && d@ == rows_of(ts),
    {
        let lines = trimmed_lines(input.as_str());
        let ghost ts = views(lines@);
        let mut i: usize = 0;
        while i < lines.len()
            invariant
                i <= lines@.len(),
                ts == views(lines@),
                trimmed_lines_of(ts, input@),
                forall|k: int| 0 <= k < i ==> line_ok(#[trigger] ts[k]),
            decreases lines@.len() - i,
        {
            assert(ts[i as int] == lines@[i as int]@);
            if !digits_only(&lines[i]) {
                assert(!line_ok(ts[i as int]));
                return None;
            }
            i += 1;
        }
        Some(Solver::from_lines(&lines))
    }

    fn from_lines(lines: &Vec<Vec<char>>) -> (r: Solver)
        requires
            forall|k: int| 0 <= k < lines@.len() ==> line_ok(#[trigger] views(lines@)[k]),
        ensures
            r@ == rows_of(views(lines@)),
    {
        let ghost ts = views(lines@);
        let mut acc: Vec<Vec<u8>> = Vec::new();
        let mut i: usize = 0;
        while i < lines.len()
            invariant
                i <= lines@.len(),
                ts == views(lines@),
                forall|k: int| 0 <= k < ts.len() ==> line_ok(#[trigger] ts[k]),
                acc@.map_values(|r: Vec<u8>| r@) == rows_of(ts.subrange(0, i as int)),
            decreases lines@.len() - i,
        {
            assert(ts.subrange(0, i + 1).drop_last() =~= ts.subrange(0, i as int));
            assert(line_ok(ts[i as int]));
            if lines[i].len() > 0 {
                let ghost before = acc@.map_values(|r: Vec<u8>| r@);
                let row = digits_of(&lines[i]);
                acc.push(row);
                assert(acc@.map_values(|r: Vec<u8>| r@) =~= before.push(
                    ts[i as int].map_values(|c: char| digit_value(c) as u8),
                ));
            }
            i += 1;
        }
        assert(ts.subrange(0, lines@.len() as int) =~= ts);
        Solver { board: acc }
    }

    fn line_up(&self, i: usize, j: usize) -> (r: Vec<u8>)
        requires
            square(self@),
            i < self@.len(),
            j < self@.len(),
        ensures
            r@ == up_line(self@, i as int, j as int),
    {
        let mut r: Vec<u8> = Vec::new();
        let mut k: usize = 0;
        while k < i
            invariant
                square(self@),
                i < self@.len(),
                j < self@.len(),
                k <= i,
                r@ == up_line(self@, i as int, j as int).subrange(0, k as int),
            decreases i - k,
        {
            assert(self@[i - 1 - k] == self.board@[i - 1 - k]@);
            assert(self@[i - 1 - k].len() == self@.len());
            r.push(self.board[i - 1 - k][j]);
            k += 1;
            assert(r@ =~= up_line(self@, i as int, j as int).subrange(0, k as int));
        }
        assert(r@ =~= up_line(self@, i as int, j as int));
        r
    }

    fn line_down(&self, i: usize, j: usize) -> (r: Vec<u8>)
        requires
            square(self@),
            i < self@.len(),
            j < self@.len(),
        ensures
            r@ == down_line(self@, i as int, j as int),
    {
        let n = self.board.len();
        let mut r: Vec<u8> = Vec::new();
        let mut k: usize = 0;
        while k < n - i - 1
            invariant
                square(self@),
                n == self@.len(),
                i < n,
                j < n,
                k <= n - i - 1,
                r@ == down_line(self@, i as int, j as int).subrange(0, k as int),
            decreases n - i - 1 - k,
        {
            assert(self@[i + 1 + k] == self.board@[i + 1 + k]@);
            assert(self@[i + 1 + k].len() == self@.len());
            r.push(self.board[i + 1 + k][j]);
            k += 1;
            assert(r@ =~= down_line(self@, i as int, j as int).subrange(0, k as int));
        }
        assert(r@ =~= down_line(self@, i as int, j as int));
        r
    }

    fn line_left(&self, i: usize, j: usize) -> (r: Vec<u8>)
        requires
            square(self@),
            i < self@.len(),
            j < self@.len(),
        ensures
            r@ == left_line(self@, i as int, j as int),
    {
        let row = &self.board[i];
        assert(row@ == self@[i as int]);
        assert(row@.len() == self@.len());
        let mut r: Vec<u8> = Vec::new();
        let mut k: usize = 0;
        while k < j
            invariant
                row@ == self@[i as int],
                row@.len() == self@.len(),
                j < self@.len(),
                k <= j,
                r@ == left_line(self@, i as int, j as int).subrange(0, k as int),
            decreases j - k,
        {
            r.push(row[j - 1 - k]);
            k += 1;
            assert(r@ =~= left_line(self@, i as int, j as int).subrange(0, k as int));
        }
        assert(r@ =~= left_line(self@, i as int, j as int));
        r
    }

    fn line_right(&self, i: usize, j: usize) -> (r: Vec<u8>)
        requires
            square(self@),
            i < self@.len(),
            j < self@.len(),
        ensures
            r@ == right_line(self@, i as int, j as int),
    {
        let row = &self.board[i];
        assert(row@ == self@[i as int]);
        assert(row@.len() == self@.len());
        let m = row.len();
        let mut r: Vec<u8> = Vec::new();
        let mut k: usize = 0;
        while k < m - j - 1
            invariant
                row@ == self@[i as int],
                m == row@.len(),
                j < m,
                k <= m - j - 1,
                r@ == right_line(self@, i as int, j as int).subrange(0, k as int),
            decreases m - j - 1 - k,
        {
            r.push(row[j + 1 + k]);
            k += 1;
            assert(r@ =~= right_line(self@, i as int, j as int).subrange(0, k as int));
        }
        assert(r@ =~= right_line(self@, i as int, j as int));
        r
    }

    fn is_tree_visible(&self, i: usize, j: usize) -> (r: bool)
        requires
            square(self@),
            i < self@.len(),
            j < self@.len(),
        ensures
            r == visible(self@, i as int, j as int),
    {
        assert(self@[i as int] == self.board@[i as int]@);
        let h = self.board[i][j];
        all_lower(&self.line_up(i, j), h) || all_lower(&self.line_right(i, j), h) || all_lower(
            &self.line_down(i, j),
            h,
        ) || all_lower(&self.line_left(i, j), h)
    }

    fn get_scenic_score(&self, i: usize, j: usize) -> (r: u64)
        requires
            square(self@),
            i < self@.len(),
            j < self@.len(),
            self@.len() <= 65535,
        ensures
            r == scenic_score(self@, i as int, j as int),
    {
        assert(self@[i as int] == self.board@[i as int]@);
        let h = self.board[i][j];
        let a = view_length(&self.line_up(i, j), h);
        let b = view_length(&self.line_right(i, j), h);
        let c = view_length(&self.line_down(i, j), h);
        let d = view_length(&self.line_left(i, j), h);
        assert(a * b <= 65535 * 65535) by (nonlinear_arith)
            requires
                a <= 65535,
                b <= 65535,
        ;
        assert(a * b * c <= 65535 * 65535 * 65535) by (nonlinear_arith)
            requires
                a * b <= 65535 * 65535,
                c <= 65535,
        ;
        assert(a * b * c * d <= 65535 * 65535 * 65535 * 65535) by (nonlinear_arith)
            requires
                a * b * c <= 65535 * 65535 * 65535,
                d <= 65535,
        ;
        a * b * c * d
    }
}

impl ChallengeSolver for Solver {
    open spec fn solvable_a(&self) -> bool {
        square(self@) && 0 < self@.len() <= 65535
    }

    open spec fn solvable_b(&self) -> bool {
        square(self@) && 0 < self@.len() <= 65535
    }

    open spec fn answer_a(&self) -> Seq<char> {
        decimal(count_visible(self@, self@.len() as int))
    }

    open spec fn answer_b(&self) -> Seq<char> {
        decimal(best_score(self@))
    }

    /// How many trees are visible from outside the grid.
    fn get_part_a_result(&self) -> (r: String) {
        let n = self.board.len();
        let mut acc: u64 = 0;
        let mut i: usize = 0;
        while i < n
            invariant
                self.solvable_a(),
                n == self@.len(),
                i <= n,
                acc == count_visible(self@, i as int),
                acc <= i * n,
            decreases n - i,
        {
            assert(self@[i as int].len() == n);
            let mut j: usize = 0;
            let ghost base = acc;
            assert(i * n <= 65535 * 65535) by (nonlinear_arith)
                requires
                    i < n,
                    n <= 65535,
            ;
            while j < n
                invariant
                    self.solvable_a(),
                    n == self@.len(),
                    i < n,
                    j <= n,
                    self@[i as int].len() == n,
                    base == count_visible(self@, i as int),
                    base <= i * n,
                    i * n <= 65535 * 65535,
                    acc == base + count_in_row(self@, i as int, j as int),
                    acc <= base + j,
                decreases n - j,
            {
                if self.is_tree_visible(i, j) {
                    acc = acc + 1;
                }
                j += 1;
            }
            assert(acc <= (i + 1) * n) by (nonlinear_arith)
                requires
                    acc <= base + n,
                    base <= i * n,
            ;
            i += 1;
        }
        u64_to_string(acc)
    }

    /// The highest scenic score of any tree.
    fn get_part_b_result(&self) -> (r: String) {
        let n = self.board.len();
        let ghost g = self@;
        let mut best: u64 = self.get_scenic_score(0, 0);
        let mut i: usize = 0;
        while i < n
            invariant
                self.solvable_b(),
                g == self@,
                n == g.len(),
                i <= n,
                exists|a: int, b: int|
                    0 <= a < g.len() && 0 <= b < g[a].len() && best == #[trigger] scenic_score(
                        g,
                        a,
                        b,
                    ),
                forall|a: int, b: int|
                    0 <= a < i && 0 <= b < g[a].len() ==> #[trigger] scenic_score(g, a, b) <= best,
            decreases n - i,
        {
            assert(g[i as int].len() == n);
            let mut j: usize = 0;
            while j < n
                invariant
                    self.solvable_b(),
                    g == self@,
                    n == g.len(),
                    i < n,
                    j <= n,
                    g[i as int].len() == n,
                    exists|a: int, b: int|
                        0 <= a < g.len() && 0 <= b < g[a].len() && best
                            == #[trigger] scenic_score(g, a, b),
                    forall|a: int, b: int|
                        0 <= a < i && 0 <= b < g[a].len() ==> #[trigger] scenic_score(g, a, b)
                            <= best,
                    forall|b: int| 0 <= b < j ==> #[trigger] scenic_score(g, i as int, b) <= best,
                decreases n - j,
            {
                let s = self.get_scenic_score(i, j);
                if s > best {
                    best = s;
                }
                j += 1;
            }
            i += 1;
        }
        assert(is_best_score(best as nat, g));
        assert(best_score(g) == best) by {
            let m = best_score(g);
            let (a, b) = choose|a: int, b: int|
                0 <= a < g.len() && 0 <= b < g[a].len() && m == #[trigger] scenic_score(g, a, b);
        }
        u64_to_string(best)
    }
}

fn digits_only(t: &Vec<char>) -> (r: bool)
    ensures
        r == all_digits(t@),
{
    let mut i: usize = 0;
    while i < t.len()
        invariant
            i <= t@.len(),
            forall|k: int| 0 <= k < i ==> is_digit(#[trigger] t@[k]),
        decreases t@.len() - i,
    {
        if !('0' <= t[i] && t[i] <= '9') {
            return false;
        }
        i += 1;
    }
    true
}

} // verus!
