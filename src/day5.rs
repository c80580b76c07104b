use vstd::prelude::*;
use crate::text::{is_lines_of, lines_of, runs, string_of_chars, unsigned_numbers, unsigned_values, views};
use crate::ChallengeSolver;

verus! {

/// The crane's moves, as the numbers of each line (amount, from, to), and
/// the stacks of crates, bottom first.
pub struct Solver {
    moves: Vec<Vec<usize>>,
    stacks: Vec<Vec<char>>,
}

pub open spec fn is_letter(c: char) -> bool {
    ('a' <= c && c <= 'z') || ('A' <= c && c <= 'Z')
}

/// The stack that the character at index `i` of a drawing line falls in,
/// from 1: columns are four characters wide.
pub open spec fn column(i: int) -> int {
    (i + 3) / 4
}

/// The crates of one drawing line put on the stacks.
pub open spec fn add_row(s: Seq<Seq<char>>, row: Seq<char>) -> Seq<Seq<char>>
    decreases row.len(),
{
    if row.len() == 0 {
        s
    } else {
        let s1 = add_row(s, row.drop_last());
        let c = row.last();
        let k = column(row.len() - 1) - 1;
        if is_letter(c) {
            s1.update(k, s1[k].push(c))
        } else {
            s1
        }
    }
}

/// `n` stacks built from the drawing lines, the lowest line first.
pub open spec fn stacks_from(rows: Seq<Seq<char>>, n: nat) -> Seq<Seq<char>>
    decreases rows.len(),
{
    if rows.len() == 0 {
        Seq::new(n, |k: int| Seq::<char>::empty())
    } else {
        add_row(stacks_from(rows.drop_first(), n), rows[0])
    }
}

/// The letters of every row stand in one of `n` columns.
pub open spec fn rows_fit(rows: Seq<Seq<char>>, n: nat) -> bool {
    forall|r: int, i: int|
        0 <= r < rows.len() && 0 <= i < rows[r].len() && is_letter(#[trigger] rows[r][i]) ==> 1
            <= column(i) <= n
}

/// How many stacks the label row under the drawing numbers.
pub open spec fn stack_count(ls: Seq<Seq<char>>, e: int) -> nat {
    unsigned_values(runs(ls[e - 1], false)).len()
}

pub open spec fn is_first_empty(ls: Seq<Seq<char>>, e: int) -> bool {
    0 <= e < ls.len() && ls[e].len() == 0 && forall|j: int|
        0 <= j < e ==> (#[trigger] ls[j]).len() > 0
}

/// The drawing ends at the first empty line; its last line numbers the
/// stacks, and every crate stands over one of them. The moves follow.
pub open spec fn layout_ok(ls: Seq<Seq<char>>) -> bool {
    exists|e: int| #![trigger is_first_empty(ls, e)] layout_at(ls, e)
}

/// One crate moved from the top of stack `f` to the top of stack `t`.
pub open spec fn move_one(s: Seq<Seq<char>>, f: int, t: int) -> Option<Seq<Seq<char>>> {
    if 0 <= f < s.len() && 0 <= t < s.len() && s[f].len() > 0 {
        let s1 = s.update(f, s[f].drop_last());
        Some(s1.update(t, s1[t].push(s[f].last())))
    } else {
        None
    }
}

/// `a` crates moved one at a time.
pub open spec fn move_each(s: Seq<Seq<char>>, f: int, t: int, a: nat) -> Option<Seq<Seq<char>>>
    decreases a,
{
    if a == 0 {
        Some(s)
    } else {
        match move_one(s, f, t) {
            Some(s1) => move_each(s1, f, t, (a - 1) as nat),
            None => None,
        }
    }
}

/// `a` crates moved at once, keeping their order.
pub open spec fn move_all(s: Seq<Seq<char>>, f: int, t: int, a: int) -> Option<Seq<Seq<char>>> {
    if 0 <= f < s.len() && 0 <= t < s.len() && 0 <= a <= s[f].len() {
        let n = s[f].len();
        let s1 = s.update(f, s[f].subrange(0, n - a));
        Some(s1.update(t, s1[t] + s[f].subrange(n - a, n as int)))
    } else {
        None
    }
}

/// The stacks after the moves, crates moved one at a time (`at_once`
/// false) or together; `None` where a move cannot be made.
pub open spec fn run(s: Seq<Seq<char>>, ms: Seq<Seq<usize>>, at_once: bool) -> Option<
    Seq<Seq<char>>,
>
    decreases ms.len(),
{
    if ms.len() == 0 {
        Some(s)
    } else {
        match run(s, ms.drop_last(), at_once) {
            Some(s1) => {
                let m = ms.last();
                if m.len() < 3 || m[1] < 1 || m[2] < 1 {
                    None
                } else if at_once {
                    move_all(s1, m[1] - 1, m[2] - 1, m[0] as int)
                } else {
                    move_each(s1, m[1] - 1, m[2] - 1, m[0] as nat)
                }
            },
            None => None,
        }
    }
}

/// The crates on top of the stacks, left to right; an empty stack gives
/// none.
pub open spec fn tops(s: Seq<Seq<char>>) -> Seq<char>
    decreases s.len(),
{
    if s.len() == 0 {
        Seq::empty()
    } else if s.last().len() > 0 {
        tops(s.drop_last()).push(s.last().last())
    } else {
        tops(s.drop_last())
    }
}

pub open spec fn stack_views(v: Seq<Vec<char>>) -> Seq<Seq<char>> {
    v.map_values(|s: Vec<char>| s@)
}

pub open spec fn move_views(v: Seq<Vec<usize>>) -> Seq<Seq<usize>> {
    v.map_values(|s: Vec<usize>| s@)
}

fn top_crates(stacks: &Vec<Vec<char>>) -> (r: Vec<char>)
    ensures
        r@ == tops(stack_views(stacks@)),
{
    let ghost sv = stack_views(stacks@);
    let mut r: Vec<char> = Vec::new();
    let mut i: usize = 0;
    assert(sv.subrange(0, 0) =~= Seq::<Seq<char>>::empty());
    while i < stacks.len()
        invariant
            sv == stack_views(stacks@),
            i <= sv.len(),
            r@ == tops(sv.subrange(0, i as int)),
        decreases sv.len() - i,
    {
        assert(sv.subrange(0, i + 1).drop_last() =~= sv.subrange(0, i as int));
        assert(sv[i as int] == stacks@[i as int]@);
        let st = &stacks[i];
        if st.len() > 0 {
            r.push(st[st.len() - 1]);
        }
        i += 1;
    }
    assert(sv.subrange(0, i as int) =~= sv);
    r
}

fn move_crate(stacks: &mut Vec<Vec<char>>, f: usize, t: usize)
    requires
        move_one(stack_views(old(stacks)@), f as int, t as int) is Some,
    ensures
        move_one(stack_views(old(stacks)@), f as int, t as int) == Some(
            stack_views(final(stacks)@),
        ),
{
    let ghost s = stack_views(stacks@);
    assert(s[f as int] == stacks@[f as int]@);
    let mut src = stacks[f].clone();
    assert(src@ == s[f as int]);
    let c = src.pop().unwrap();
    stacks.set(f, src);
    let ghost s1 = s.update(f as int, s[f as int].drop_last());
    assert(stack_views(stacks@) =~= s1);
    assert(s1[t as int] == stacks@[t as int]@);
    let mut dst = stacks[t].clone();
    dst.push(c);
    stacks.set(t, dst);
    assert(stack_views(stacks@) =~= s1.update(t as int, s1[t as int].push(s[f as int].last())));
}

fn move_crates_at_once(stacks: &mut Vec<Vec<char>>, f: usize, t: usize, a: usize)
    requires
        move_all(stack_views(old(stacks)@), f as int, t as int, a as int) is Some,
    ensures
        move_all(stack_views(old(stacks)@), f as int, t as int, a as int) == Some(
            stack_views(final(stacks)@),
        ),
{
    let ghost s = stack_views(stacks@);
    assert(s[f as int] == stacks@[f as int]@);
    let src = stacks[f].clone();
    let n = src.len();
    let mut kept: Vec<char> = Vec::new();
    let mut taken: Vec<char> = Vec::new();
    let mut i: usize = 0;
    while i < n
        invariant
            n == src@.len(),
            a <= n,
            i <= n,
            i <= n - a ==> kept@ == src@.subrange(0, i as int) && taken@.len() == 0,
            i > n - a ==> kept@ == src@.subrange(0, n - a) && taken@ == src@.subrange(
                n - a,
                i as int,
            ),
        decreases n - i,
    {
        if i < n - a {
            kept.push(src[i]);
        } else {
            taken.push(src[i]);
        }
        i += 1;
    }
    stacks.set(f, kept);
    let ghost s1 = s.update(f as int, s[f as int].subrange(0, n - a));
    assert(stack_views(stacks@) =~= s1);
    assert(s1[t as int] == stacks@[t as int]@);
    let mut dst = stacks[t].clone();
    let ghost d0 = dst@;
    let mut j: usize = 0;
    while j < taken.len()
        invariant
            j <= taken@.len(),
            dst@ == d0 + taken@.subrange(0, j as int),
        decreases taken@.len() - j,
    {
        dst.push(taken[j]);
        j += 1;
        assert(dst@ =~= d0 + taken@.subrange(0, j as int));
    }
    assert(taken@.subrange(0, j as int) =~= taken@);
    if a == 0 {
        assert(taken@ =~= s[f as int].subrange(n - a, n as int));
    }
    stacks.set(t, dst);
    assert(stack_views(stacks@) =~= s1.update(t as int, s1[t as int] + s[f as int].subrange(n - a, n as int)));
}

proof fn lemma_run_prefix(s: Seq<Seq<char>>, ms: Seq<Seq<usize>>, at_once: bool, k: int)
    requires
        0 <= k <= ms.len(),
        run(s, ms, at_once) is Some,
    ensures
        run(s, ms.subrange(0, k), at_once) is Some,
    decreases ms.len() - k,
{
    if k < ms.len() {
        lemma_run_prefix(s, ms, at_once, k + 1);
        assert(ms.subrange(0, k + 1).drop_last() =~= ms.subrange(0, k));
    } else {
        assert(ms.subrange(0, k) =~= ms);
    }
}

pub open spec fn moves_spec(ls: Seq<Seq<char>>, e: int) -> Seq<Seq<usize>> {
    Seq::new((ls.len() - e - 1) as nat, |k: int| unsigned_values(runs(ls[e + 1 + k], false)))
}

pub open spec fn layout_at(ls: Seq<Seq<char>>, e: int) -> bool {
    is_first_empty(ls, e) && e >= 1 && e + 1 < ls.len() && rows_fit(ls.subrange(0, e - 1), stack_count(ls, e))
}

proof fn lemma_first_empty_unique(ls: Seq<Seq<char>>, a: int, b: int)
    requires
        is_first_empty(ls, a),
        is_first_empty(ls, b),
    ensures
        a == b,
{
    if a < b {
        assert(ls[a].len() > 0);
    } else if b < a {
        assert(ls[b].len() > 0);
    }
}

fn first_empty(lines: &Vec<Vec<char>>) -> (e: usize)
    requires
        layout_ok(views(lines@)),
    ensures
        layout_at(views(lines@), e as int),
{
    let ghost ls = views(lines@);
    let ghost ew = choose|e: int| #![trigger is_first_empty(ls, e)] layout_at(ls, e);
    assert(layout_at(ls, ew));
    let n = lines.len();
    let mut e: usize = 0;
    while lines[e].len() > 0
        invariant
            ls == views(lines@),
            n == ls.len(),
            is_first_empty(ls, ew),
            e <= ew,
            forall|j: int| 0 <= j < e ==> (#[trigger] ls[j]).len() > 0,
        decreases ew - e,
    {
        assert(ls[e as int] == lines@[e as int]@);
        e += 1;
    }
    assert(ls[e as int] == lines@[e as int]@);
    assert(is_first_empty(ls, e as int));
    proof {
        lemma_first_empty_unique(ls, e as int, ew);
    }
    e
}

fn read_moves(lines: &Vec<Vec<char>>, e: usize) -> (r: Vec<Vec<usize>>)
    requires
        layout_at(views(lines@), e as int),
    ensures
        move_views(r@) == moves_spec(views(lines@), e as int),
{
    let ghost ls = views(lines@);
    let ghost mspec = moves_spec(ls, e as int);
    let mut moves: Vec<Vec<usize>> = Vec::new();
    let n = lines.len();
    assert(e + 1 < n);
    let mut k: usize = e + 1;
    assert(mspec.subrange(0, 0) =~= Seq::<Seq<usize>>::empty());
    while k < lines.len()
        invariant
            ls == views(lines@),
            e + 1 <= k <= ls.len(),
            layout_at(ls, e as int),
            mspec == moves_spec(ls, e as int),
            move_views(moves@) == mspec.subrange(0, k - e - 1),
        decreases ls.len() - k,
    {
        assert(ls[k as int] == lines@[k as int]@);
        let nums = unsigned_numbers(&lines[k]);
        let ghost before = move_views(moves@);
        moves.push(nums);
        assert(move_views(moves@) =~= before.push(nums@));
        assert(move_views(moves@) =~= mspec.subrange(0, k + 1 - e - 1));
        k += 1;
    }
    assert(mspec.subrange(0, k - e - 1) =~= mspec);
    moves
}

fn build_stacks(lines: &Vec<Vec<char>>, e: usize, cols: usize) -> (r: Vec<Vec<char>>)
    requires
        1 <= e < lines@.len(),
        rows_fit(views(lines@).subrange(0, e - 1), cols as nat),
    ensures
        stack_views(r@) == stacks_from(views(lines@).subrange(0, e - 1), cols as nat),
{
    let ghost ls = views(lines@);
    let ghost rows = ls.subrange(0, e - 1);
    let mut stacks: Vec<Vec<char>> = Vec::new();
    let mut c: usize = 0;
    while c < cols
        invariant
            c <= cols,
            stack_views(stacks@) == Seq::new(c as nat, |k: int| Seq::<char>::empty()),
        decreases cols - c,
    {
        let ghost before = stack_views(stacks@);
        let v: Vec<char> = Vec::new();
        assert(v@ =~= Seq::<char>::empty());
        stacks.push(v);
        assert(stack_views(stacks@) =~= before.push(v@));
        c += 1;
        assert(stack_views(stacks@) =~= Seq::new(c as nat, |k: int| Seq::<char>::empty()));
    }
    let mut r: usize = e - 1;
    assert(rows.subrange(r as int, e - 1) =~= Seq::<Seq<char>>::empty());
    while r > 0
        invariant
            ls == views(lines@),
            1 <= e < ls.len(),
            rows == ls.subrange(0, e - 1),
            r <= e - 1,
            rows_fit(rows, cols as nat),
            stack_views(stacks@).len() == cols,
            stack_views(stacks@) == stacks_from(rows.subrange(r as int, e - 1), cols as nat),
        decreases r,
    {
        r -= 1;
        let row = &lines[r];
        assert(row@ == rows[r as int]);
        let ghost base = stack_views(stacks@);
        let mut i: usize = 0;
        assert(row@.subrange(0, 0) =~= Seq::<char>::empty());
        while i < row.len()
            invariant
                row@ == rows[r as int],
                0 <= r < rows.len(),
                rows_fit(rows, cols as nat),
                i <= row@.len(),
                stack_views(stacks@).len() == cols,
                base.len() == cols,
                stack_views(stacks@) == add_row(base, row@.subrange(0, i as int)),
            decreases row@.len() - i,
        {
            let ch = row[i];
            let ghost pre = row@.subrange(0, i as int);
            assert(row@.subrange(0, i + 1).drop_last() =~= pre);
            assert(row@.subrange(0, i + 1).last() == ch);
            if ('a' <= ch && ch <= 'z') || ('A' <= ch && ch <= 'Z') {
                assert(rows[r as int][i as int] == ch);
                assert(1 <= column(i as int) <= cols);
                let col = (i - 1) / 4;
                let ghost sv = stack_views(stacks@);
                assert(sv[col as int] == stacks@[col as int]@);
                let mut st = stacks[col].clone();
                st.push(ch);
                stacks.set(col, st);
                assert(stack_views(stacks@) =~= sv.update(col as int, sv[col as int].push(ch)));
            }
            i += 1;
        }
        assert(row@.subrange(0, i as int) =~= row@);
        assert(rows.subrange(r as int, e - 1).drop_first() =~= rows.subrange(r + 1, e - 1));
        assert(rows.subrange(r as int, e - 1)[0] == rows[r as int]);
    }
    assert(rows.subrange(0, e - 1) =~= rows);
    stacks
}

impl Solver {
    pub closed spec fn view(&self) -> (Seq<Seq<usize>>, Seq<Seq<char>>) {
        (move_views(self.moves@), stack_views(self.stacks@))
    }

    /// Reads the drawing of the stacks, an empty line, then one move per
    /// line.
    pub fn new(input: String) -> (r: Solver)
        requires
            forall|ls: Seq<Seq<char>>| is_lines_of(ls, input@) ==> layout_ok(ls),
        ensures
            exists|ls: Seq<Seq<char>>, e: int|
                is_lines_of(ls, input@) && is_first_empty(ls, e) && e >= 1 && r@.0 == moves_spec(ls, e)
                    && r@.1 == stacks_from(ls.subrange(0, e - 1), stack_count(ls, e)),
    {
        let lines = lines_of(input.as_str());
        let ghost ls = views(lines@);
        assert(layout_ok(ls));
        let e = first_empty(&lines);
        let moves = read_moves(&lines, e);
        assert(views(lines@)[e - 1] == lines@[e - 1]@);
        let cols = unsigned_numbers(&lines[e - 1]).len();
        let stacks = build_stacks(&lines, e, cols);
        let s = Solver { moves, stacks };
        s
    }

    /// The crates on top after all moves, one crate at a time or together.
    fn rearrange(&self, at_once: bool) -> (r: Vec<char>)
        requires
            run(self@.1, self@.0, at_once) is Some,
        ensures
            r@ == tops(run(self@.1, self@.0, at_once)->0),
    {
        let ghost ms = self@.0;
        let mut stacks: Vec<Vec<char>> = Vec::new();
        let mut i: usize = 0;
        while i < self.stacks.len()
            invariant
                i <= self.stacks@.len(),
                stack_views(stacks@) == self@.1.subrange(0, i as int),
            decreases self.stacks@.len() - i,
        {
            assert(self@.1[i as int] == self.stacks@[i as int]@);
            let ghost before = stack_views(stacks@);
            let cl = self.stacks[i].clone();
            assert(cl@ == self@.1[i as int]);
            stacks.push(cl);
            assert(stack_views(stacks@) =~= before.push(cl@));
            assert(stack_views(stacks@) =~= self@.1.subrange(0, i + 1));
            i += 1;
        }
        assert(self@.1.subrange(0, i as int) =~= self@.1);
        let mut k: usize = 0;
        assert(ms.subrange(0, 0) =~= Seq::<Seq<usize>>::empty());
        while k < self.moves.len()
            invariant
                ms == self@.0,
                ms.len() == self.moves@.len(),
                k <= ms.len(),
                run(self@.1, ms, at_once) is Some,
                run(self@.1, ms.subrange(0, k as int), at_once) == Some(stack_views(stacks@)),
            decreases ms.len() - k,
        {
            proof {
                lemma_run_prefix(self@.1, ms, at_once, k + 1);
                assert(ms.subrange(0, k + 1).drop_last() =~= ms.subrange(0, k as int));
            }
            let m = &self.moves[k];
            assert(m@ == ms[k as int]);
            let amount = m[0];
            let f = m[1] - 1;
            let t = m[2] - 1;
            if at_once {
                move_crates_at_once(&mut stacks, f, t, amount);
            } else {
                let mut j: usize = 0;
                while j < amount
                    invariant
                        j <= amount,
                        move_each(stack_views(stacks@), f as int, t as int, (amount - j) as nat)
                            == run(self@.1, ms.subrange(0, k + 1), at_once),
                        run(self@.1, ms.subrange(0, k + 1), at_once) is Some,
                    decreases amount - j,
                {
                    move_crate(&mut stacks, f, t);
                    j += 1;
                }
            }
            k += 1;
        }
        assert(ms.subrange(0, k as int) =~= ms);
        top_crates(&stacks)
    }
}

impl ChallengeSolver for Solver {
    open spec fn solvable_a(&self) -> bool {
        run(self@.1, self@.0, false) is Some && run(self@.1, self@.0, true) is Some
    }

    open spec fn solvable_b(&self) -> bool {
        run(self@.1, self@.0, false) is Some && run(self@.1, self@.0, true) is Some
    }

    open spec fn answer_a(&self) -> Seq<char> {
        tops(run(self@.1, self@.0, false)->0)
    }

    open spec fn answer_b(&self) -> Seq<char> {
        tops(run(self@.1, self@.0, true)->0)
    }

    /// The top crates when the crane moves one crate at a time.
    fn get_part_a_result(&self) -> (r: String) {
        string_of_chars(&self.rearrange(false))
    }

    /// The top crates when the crane moves several crates at once.
    fn get_part_b_result(&self) -> (r: String) {
        string_of_chars(&self.rearrange(true))
    }
}

} // verus!
