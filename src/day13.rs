use vstd::prelude::*;
use vstd::string::StrSliceExecFns;
use crate::text::{
    all_digits, chars_of, decimal, decimal_value, parse_u64, string_of_chars, trimmed_lines,
    trimmed_lines_of, u64_to_string, views,
};
use crate::ChallengeSolver;

verus! {

/// The pairs of packets, as text.
pub struct Solver {
    input: Vec<(String, String)>,
}

pub open spec fn open_token() -> Seq<char> {
    seq!['[']
}

pub open spec fn close_token() -> Seq<char> {
    seq![']']
}

/// The tokens found in `s` so far and the text of the token being read.
/// A `[` ends a token, with itself in it; a `]` ends the token being read
/// and is a token of its own; a comma ends the token being read. Empty
/// tokens are dropped.
pub open spec fn scan(s: Seq<char>) -> (Seq<Seq<char>>, Seq<char>)
    decreases s.len(),
{
    if s.len() == 0 {
        (Seq::empty(), Seq::empty())
    } else {
        let (ts, run) = scan(s.drop_last());
        let c = s.last();
        if c == '[' {
            (ts.push(run.push(c)), Seq::empty())
        } else if c == ']' {
            if run.len() > 0 {
                (ts.push(run).push(close_token()), Seq::empty())
            } else {
                (ts.push(close_token()), Seq::empty())
            }
        } else if c == ',' {
            if run.len() > 0 {
                (ts.push(run), Seq::empty())
            } else {
                (ts, Seq::empty())
            }
        } else {
            (ts, run.push(c))
        }
    }
}

/// The tokens of a packet: brackets and the numbers between them.
pub open spec fn tokens(s: Seq<char>) -> Seq<Seq<char>> {
    let (ts, run) = scan(s);
    if run.len() > 0 {
        ts.push(run)
    } else {
        ts
    }
}

/// How many `[` tokens stand at `i` or after.
pub open spec fn opens(s: Seq<Seq<char>>, i: int) -> nat
    decreases s.len() - i,
{
    if i < 0 || i >= s.len() {
        0
    } else {
        opens(s, i + 1) + if s[i] == open_token() {
            1nat
        } else {
            0
        }
    }
}

/// The token at `i` put in a list of its own.
pub open spec fn wrap(s: Seq<Seq<char>>, i: int) -> Seq<Seq<char>> {
    s.subrange(0, i) + seq![open_token(), s[i], close_token()] + s.subrange(i + 1, s.len() as int)
}

/// Where one side opens a list and the other holds a number, the number
/// becomes a list of one; this stops at the first place where one side
/// opens a list and the other closes one.
pub open spec fn inject(l: Seq<Seq<char>>, r: Seq<Seq<char>>, i: int) -> (Seq<Seq<char>>, Seq<
    Seq<char>,
>)
    decreases opens(l, i) + opens(r, i), l.len() - i + r.len() - i
        when 0 <= i
        via inject_decreases
{
    if !(i < l.len() && i < r.len()) {
        (l, r)
    } else if l[i] != open_token() && r[i] == open_token() {
        if l[i] == close_token() {
            (l, r)
        } else {
            inject(wrap(l, i), r, i + 1)
        }
    } else if l[i] == open_token() && r[i] != open_token() {
        if r[i] == close_token() {
            (l, r)
        } else {
            inject(l, wrap(r, i), i + 1)
        }
    } else {
        inject(l, r, i + 1)
    }
}

proof fn lemma_opens_shift(s: Seq<Seq<char>>, i: int, j: int)
    requires
        0 <= i < s.len(),
        i + 1 <= j <= s.len(),
    ensures
        opens(wrap(s, i), j + 2) == opens(s, j),
    decreases s.len() - j,
{
    let w = wrap(s, i);
    if j < s.len() {
        assert(w[j + 2] == s[j]);
        lemma_opens_shift(s, i, j + 1);
    }
}

proof fn lemma_opens_wrap(s: Seq<Seq<char>>, i: int)
    requires
        0 <= i < s.len(),
        s[i] != open_token(),
    ensures
        opens(wrap(s, i), i + 1) == opens(s, i),
{
    let w = wrap(s, i);
    assert(w[i + 1] == s[i]);
    assert(w[i + 2] == close_token());
    assert(close_token() != open_token()) by {
        assert(close_token()[0] != open_token()[0]);
    }
    lemma_opens_shift(s, i, i + 1);
    assert(opens(w, i + 2) == opens(w, i + 3));
    assert(opens(w, i + 1) == opens(w, i + 2));
}

#[via_fn]
proof fn inject_decreases(l: Seq<Seq<char>>, r: Seq<Seq<char>>, i: int) {
    if 0 <= i && i < l.len() && i < r.len() {
        if l[i] != open_token() && r[i] == open_token() {
            if l[i] != close_token() {
                lemma_opens_wrap(l, i);
            }
        } else if l[i] == open_token() && r[i] != open_token() {
            if r[i] != close_token() {
                lemma_opens_wrap(r, i);
            }
        }
    }
}

/// The first place where the tokens differ, up to the shorter end.
pub open spec fn first_difference(l: Seq<Seq<char>>, r: Seq<Seq<char>>) -> Option<int> {
    if exists|k: int| 0 <= k < l.len() && 0 <= k < r.len() && l[k] != r[k] {
        Some(
            choose|k: int|
                0 <= k < l.len() && 0 <= k < r.len() && l[k] != r[k] && forall|j: int|
                    0 <= j < k ==> l[j] == r[j],
        )
    } else {
        None
    }
}

pub open spec fn number(t: Seq<char>) -> Option<nat> {
    if t.len() > 0 && all_digits(t) && decimal_value(t) <= u64::MAX {
        Some(decimal_value(t))
    } else {
        None
    }
}

/// The verdict at the first difference: the left side is in order where it
/// closes its list first or holds the smaller number. Tokens that are not
/// numbers are not in order.
pub open spec fn verdict(a: Seq<char>, b: Seq<char>) -> bool {
    if b == close_token() {
        false
    } else if a == close_token() {
        true
    } else {
        match (number(a), number(b)) {
            (Some(x), Some(y)) => x < y,
            _ => false,
        }
    }
}

/// Whether packet `a` comes before packet `b`, and where that was decided.
pub open spec fn right_order(a: Seq<char>, b: Seq<char>) -> (bool, Option<int>) {
    let (l, r) = inject(tokens(a), tokens(b), 0);
    match first_difference(l, r) {
        Some(k) => (verdict(l[k], r[k]), Some(k)),
        None => (true, None),
    }
}

pub open spec fn strs<'a>(v: Seq<&'a str>) -> Seq<Seq<char>> {
    v.map_values(|t: &'a str| t@)
}

/// `a` and `b` hold the same characters.
fn same_text(a: &str, b: &str) -> (r: bool)
    ensures
        r == (a@ == b@),
{
    let n = a.unicode_len();
    if n != b.unicode_len() {
        return false;
    }
    let mut i: usize = 0;
    while i < n
        invariant
            n == a@.len(),
            n == b@.len(),
            i <= n,
            forall|k: int| 0 <= k < i ==> a@[k] == b@[k],
        decreases n - i,
    {
        if a.get_char(i) != b.get_char(i) {
            return false;
        }
        i += 1;
    }
    assert(a@ =~= b@);
    true
}

fn is_open_token(t: &str) -> (r: bool)
    ensures
        r == (t@ == open_token()),
{
    proof {
        reveal_strlit("[");
    }
    assert("["@ =~= open_token());
    same_text(t, "[")
}

fn is_close_token(t: &str) -> (r: bool)
    ensures
        r == (t@ == close_token()),
{
    proof {
        reveal_strlit("]");
    }
    assert("]"@ =~= close_token());
    same_text(t, "]")
}

proof fn lemma_opens_step(s: Seq<Seq<char>>, i: int)
    requires
        0 <= i < s.len(),
    ensures
        opens(s, i) == opens(s, i + 1) + if s[i] == open_token() {
            1nat
        } else {
            0
        },
{
}

impl Solver {
    pub closed spec fn view(&self) -> Seq<(Seq<char>, Seq<char>)> {
        self.input@.map_values(|p: (String, String)| (p.0@, p.1@))
    }

    /// Cuts a packet into tokens: `[`, `]` and the numbers.
    pub fn prepare_packet<'a>(packet: &'a str) -> (r: Vec<&'a str>)
        ensures
            strs(r@) == tokens(packet@),
    {
        let cs = chars_of(packet);
        let n = cs.len();
        let mut out: Vec<&'a str> = Vec::new();
        let mut st: usize = 0;
        let mut i: usize = 0;
        assert(cs@.subrange(0, 0) =~= Seq::<char>::empty());
        while i < n
            invariant
                n == cs@.len(),
                cs@ == packet@,
                st <= i <= n,
                scan(cs@.subrange(0, i as int)) == (strs(out@), cs@.subrange(st as int, i as int)),
            decreases n - i,
        {
            let c = cs[i];
            let ghost pre = cs@.subrange(0, i as int);
            let ghost run = cs@.subrange(st as int, i as int);
            let ghost before = strs(out@);
            assert(cs@.subrange(0, i + 1).drop_last() =~= pre);
            assert(cs@.subrange(0, i + 1).last() == c);
            if c == '[' {
                out.push(packet.substring_char(st, i + 1));
                assert(cs@.subrange(st as int, i + 1) =~= run.push(c));
                assert(strs(out@) =~= before.push(run.push(c)));
                st = i + 1;
            } else if c == ']' {
                if st < i {
                    out.push(packet.substring_char(st, i));
                }
                out.push(packet.substring_char(i, i + 1));
                assert(cs@.subrange(i as int, i + 1) =~= close_token());
                proof {
                    if st < i {
                        assert(strs(out@) =~= before.push(run).push(close_token()));
                    } else {
                        assert(strs(out@) =~= before.push(close_token()));
                    }
                }
                st = i + 1;
            } else if c == ',' {
                if st < i {
                    out.push(packet.substring_char(st, i));
                    assert(strs(out@) =~= before.push(run));
                }
                st = i + 1;
            } else {
                assert(cs@.subrange(st as int, i + 1) =~= run.push(c));
            }
            i += 1;
            assert(cs@.subrange(st as int, i as int) =~= scan(cs@.subrange(0, i as int)).1);
        }
        assert(cs@.subrange(0, n as int) =~= cs@);
        if st < n {
            let ghost before = strs(out@);
            out.push(packet.substring_char(st, n));
            assert(strs(out@) =~= before.push(cs@.subrange(st as int, n as int)));
        }
        out
    }

    /// Where one side opens a list and the other holds a number, puts the
    /// number in a list of its own, until one side opens a list where the
    /// other closes one.
    pub fn inject_lists<'a>(left_packet: &mut Vec<&'a str>, right_packet: &mut Vec<&'a str>)
        ensures
            (strs(final(left_packet)@), strs(final(right_packet)@)) == inject(
                strs(old(left_packet)@),
                strs(old(right_packet)@),
                0,
            ),
    {
        let ghost goal = inject(strs(left_packet@), strs(right_packet@), 0);
        let mut i: usize = 0;
        while i < left_packet.len() && i < right_packet.len()
            invariant
                goal == inject(strs(left_packet@), strs(right_packet@), i as int),
            ensures
                goal == (strs(left_packet@), strs(right_packet@)),
            decreases opens(strs(left_packet@), i as int) + opens(strs(right_packet@), i as int),
                left_packet@.len() - i + right_packet@.len() - i,
        {
            let ghost l = strs(left_packet@);
            let ghost r = strs(right_packet@);
            proof {
                lemma_opens_step(l, i as int);
                lemma_opens_step(r, i as int);
            }
            let lo = is_open_token(left_packet[i]);
            let ro = is_open_token(right_packet[i]);
            if !lo && ro {
                if is_close_token(left_packet[i]) {
                    break;
                }
                let ghost v = left_packet@;
                left_packet.insert(i, "[");
                let m = left_packet.len();
                left_packet.insert(i + 2, "]");
                proof {
                    reveal_strlit("[");
                    reveal_strlit("]");
                    assert("["@ =~= open_token());
                    assert("]"@ =~= close_token());
                    assert(left_packet@ == v.insert(i as int, "[").insert(i + 2, "]"));
                    assert(strs(left_packet@) =~= wrap(l, i as int));
                    lemma_opens_wrap(l, i as int);
                }
            } else if lo && !ro {
                if is_close_token(right_packet[i]) {
                    break;
                }
                let ghost v = right_packet@;
                right_packet.insert(i, "[");
                let m = right_packet.len();
                right_packet.insert(i + 2, "]");
                proof {
                    reveal_strlit("[");
                    reveal_strlit("]");
                    assert("["@ =~= open_token());
                    assert("]"@ =~= close_token());
                    assert(right_packet@ == v.insert(i as int, "[").insert(i + 2, "]"));
                    assert(strs(right_packet@) =~= wrap(r, i as int));
                    lemma_opens_wrap(r, i as int);
                }
            }
            i += 1;
        }
    }
}

/// The non-empty lines.
pub open spec fn packets_of(ts: Seq<Seq<char>>) -> Seq<Seq<char>>
    decreases ts.len(),
{
    if ts.len() == 0 {
        Seq::empty()
    } else if ts.last().len() == 0 {
        packets_of(ts.drop_last())
    } else {
        packets_of(ts.drop_last()).push(ts.last())
    }
}

/// Each two packets in turn make a pair.
pub open spec fn pairs_of(ps: Seq<Seq<char>>) -> Seq<(Seq<char>, Seq<char>)> {
    Seq::new(ps.len() / 2, |k: int| (ps[2 * k], ps[2 * k + 1]))
}

/// The sum of the numbers, from 1, of the pairs in the right order, over
/// the first `m` pairs.
pub open spec fn ordered_index_sum(ps: Seq<(Seq<char>, Seq<char>)>, m: int) -> nat
    decreases m,
{
    if m <= 0 {
        0
    } else {
        ordered_index_sum(ps, m - 1) + if right_order(ps[m - 1].0, ps[m - 1].1).0 {
            m as nat
        } else {
            0
        }
    }
}

/// All packets: the left ones, the right ones, then the dividers `[[2]]`
/// and `[[6]]`.
pub open spec fn all_packets(ps: Seq<(Seq<char>, Seq<char>)>) -> Seq<Seq<char>> {
    ps.map_values(|p: (Seq<char>, Seq<char>)| p.0) + ps.map_values(
        |p: (Seq<char>, Seq<char>)| p.1,
    ) + seq!["[[2]]"@, "[[6]]"@]
}

/// How many packets among the first `m`, other than packet `d`, come before
/// packet `d`.
pub open spec fn count_before(all: Seq<Seq<char>>, d: int, m: int) -> nat
    decreases m,
{
    if m <= 0 {
        0
    } else {
        count_before(all, d, m - 1) + if m - 1 != d && right_order(all[m - 1], all[d]).0 {
            1nat
        } else {
            0
        }
    }
}

/// Where packet `d` stands, from 1, once all packets are put in order.
pub open spec fn position(all: Seq<Seq<char>>, d: int) -> nat {
    1 + count_before(all, d, all.len() as int)
}

pub open spec fn decoder_key(ps: Seq<(Seq<char>, Seq<char>)>) -> nat {
    let all = all_packets(ps);
    position(all, 2 * ps.len() as int) * position(all, 2 * ps.len() as int + 1)
}

impl Solver {
    /// Compares two packets: whether they are in the right order, and at
    /// which token that was decided (`None` where no token differs).
    pub fn is_in_right_order(left_packet: &str, right_packet: &str) -> (r: (bool, Option<usize>))
        ensures
            r.0 == right_order(left_packet@, right_packet@).0,
            r.1 matches Some(k) ==> right_order(left_packet@, right_packet@).1 == Some(k as int),
            r.1 is None ==> right_order(left_packet@, right_packet@).1 is None,
    {
        let mut l = Solver::prepare_packet(left_packet);
        let mut r = Solver::prepare_packet(right_packet);
        Solver::inject_lists(&mut l, &mut r);
        let ghost lv = strs(l@);
        let ghost rv = strs(r@);
        let mut k: usize = 0;
        while k < l.len() && k < r.len()
            invariant
                lv == strs(l@),
                rv == strs(r@),
                (lv, rv) == inject(tokens(left_packet@), tokens(right_packet@), 0),
                k <= l@.len(),
                k <= r@.len(),
                forall|j: int| 0 <= j < k ==> lv[j] == rv[j],
            decreases l@.len() - k,
        {
            if !same_text(l[k], r[k]) {
                assert(first_difference(lv, rv) == Some(k as int)) by {
                    assert(lv[k as int] != rv[k as int]);
                    let f = choose|f: int|
                        0 <= f < lv.len() && 0 <= f < rv.len() && lv[f] != rv[f] && forall|j: int|
                            0 <= j < f ==> lv[j] == rv[j];
                    if f < k {
                        assert(lv[f] == rv[f]);
                    } else if f > k {
                        assert(lv[k as int] == rv[k as int]);
                    }
                }
                let v = if is_close_token(r[k]) {
                    false
                } else if is_close_token(l[k]) {
                    true
                } else {
                    let a = parse_u64(&chars_of(l[k]));
                    let b = parse_u64(&chars_of(r[k]));
                    match (a, b) {
                        (Some(x), Some(y)) => x < y,
                        _ => false,
                    }
                };
                return (v, Some(k));
            }
            k += 1;
        }
        assert(first_difference(lv, rv) is None);
        (true, None)
    }

    /// Reads the packets, one per line; each two make a pair.
    pub fn new(input: String) -> (r: Solver)
        requires
            forall|ts: Seq<Seq<char>>|
                trimmed_lines_of(ts, input@) ==> packets_of(ts).len() % 2 == 0,
        ensures
            exists|ts: Seq<Seq<char>>|
                trimmed_lines_of(ts, input@) && r@ == pairs_of(packets_of(ts)),
    {
        let lines = trimmed_lines(input.as_str());
        let ps = Solver::packets(&lines);
        Solver::pair_up(&ps)
    }

    /// Reads the input as `new` does, or gives `None` where the packets do
    /// not make whole pairs.
    pub fn try_new(input: String) -> (r: Option<Solver>)
        ensures
            r is None ==> exists|ts: Seq<Seq<char>>|
                trimmed_lines_of(ts, input@) && packets_of(ts).len() % 2 != 0,
            r matches Some(d) ==> exists|ts: Seq<Seq<char>>|
                trimmed_lines_of(ts, input@) && packets_of(ts).len() % 2 == 0 && d@ == pairs_of(packets_of(ts)),
    {
        let lines = trimmed_lines(input.as_str());
        let ps = Solver::packets(&lines);
        if ps.len() % 2 != 0 {
            None
        } else {
            Some(Solver::pair_up(&ps))
        }
    }

    fn packets(lines: &Vec<Vec<char>>) -> (ps: Vec<Vec<char>>)
        ensures
            views(ps@) == packets_of(views(lines@)),
    {
        let ghost ts = views(lines@);
        let mut ps: Vec<Vec<char>> = Vec::new();
        let mut i: usize = 0;
        while i < lines.len()
            invariant
                i <= lines@.len(),
                ts == views(lines@),
                views(ps@) == packets_of(ts.subrange(0, i as int)),
            decreases lines@.len() - i,
        {
            assert(ts.subrange(0, i + 1).drop_last() =~= ts.subrange(0, i as int));
            if lines[i].len() > 0 {
                let ghost before = views(ps@);
                assert(ts[i as int] == lines@[i as int]@);
                ps.push(lines[i].clone());
                assert(views(ps@) =~= before.push(ts[i as int]));
            }
            i += 1;
        }
        assert(ts.subrange(0, lines@.len() as int) =~= ts);
        ps
    }

    fn pair_up(ps: &Vec<Vec<char>>) -> (r: Solver)
        requires
            ps@.len() % 2 == 0,
        ensures
            r@ == pairs_of(views(ps@)),
    {
        let ghost pv = views(ps@);
        let mut acc: Vec<(String, String)> = Vec::new();
        let mut j: usize = 0;
        let n = ps.len();
        while n - j >= 2
            invariant
                pv == views(ps@),
                n == pv.len(),
                n % 2 == 0,
                j % 2 == 0,
                j <= n,
                acc@.len() == j / 2,
                forall|k: int|
                    0 <= k < j / 2 ==> (#[trigger] acc@[k]).0@ == pv[2 * k] && acc@[k].1@ == pv[2
                        * k + 1],
            decreases n - j,
        {
            let a = string_of_chars(&ps[j]);
            let b = string_of_chars(&ps[j + 1]);
            acc.push((a, b));
            j += 2;
        }
        let r = Solver { input: acc };
        assert(r@ =~= pairs_of(pv));
        r
    }
}

impl ChallengeSolver for Solver {
    open spec fn solvable_a(&self) -> bool {
        self@.len() < 0x4000_0000
    }

    open spec fn solvable_b(&self) -> bool {
        self@.len() < 0x4000_0000
    }

    open spec fn answer_a(&self) -> Seq<char> {
        decimal(ordered_index_sum(self@, self@.len() as int))
    }

    open spec fn answer_b(&self) -> Seq<char> {
        decimal(decoder_key(self@))
    }

    /// The sum of the numbers of the pairs that are in the right order.
    fn get_part_a_result(&self) -> (r: String) {
        let n = self.input.len();
        let mut acc: u64 = 0;
        let mut i: usize = 0;
        while i < n
            invariant
                self.solvable_a(),
                n == self@.len(),
                n == self.input@.len(),
                i <= n,
                acc == ordered_index_sum(self@, i as int),
                acc <= i * n,
            decreases n - i,
        {
            let (a, b) = (&self.input[i].0, &self.input[i].1);
            assert(self@[i as int] == (a@, b@));
            let (ok, _) = Solver::is_in_right_order(a.as_str(), b.as_str());
            assert(acc + i + 1 <= (i + 1) * n) by (nonlinear_arith)
                requires
                    acc <= i * n,
                    i < n,
            ;
            assert((i + 1) * n <= n * n) by (nonlinear_arith)
                requires
                    i < n,
            ;
            assert(n * n < 0x4000_0000 * 0x4000_0000) by (nonlinear_arith)
                requires
                    n < 0x4000_0000,
            ;
            if ok {
                acc = acc + (i as u64) + 1;
            }
            i += 1;
        }
        u64_to_string(acc)
    }

    /// The product of the places of the two dividers among all packets in
    /// order.
    fn get_part_b_result(&self) -> (r: String) {
        let n = self.input.len();
        let ghost ps = self@;
        assert(n == ps.len());
        let mut all: Vec<String> = Vec::new();
        let mut i: usize = 0;
        while i < n
            invariant
                n == ps.len(),
                ps == self@,
                i <= n,
                all@.len() == i,
                forall|k: int| 0 <= k < i ==> (#[trigger] all@[k])@ == ps[k].0,
            decreases n - i,
        {
            assert(self@[i as int].0 == self.input@[i as int].0@);
            all.push(self.input[i].0.clone());
            i += 1;
        }
        i = 0;
        while i < n
            invariant
                n == ps.len(),
                ps == self@,
                i <= n,
                all@.len() == n + i,
                forall|k: int| 0 <= k < n ==> (#[trigger] all@[k])@ == ps[k].0,
                forall|k: int| n <= k < n + i ==> (#[trigger] all@[k])@ == ps[k - n].1,
            decreases n - i,
        {
            assert(self@[i as int].1 == self.input@[i as int].1@);
            all.push(self.input[i].1.clone());
            i += 1;
        }
        all.push("[[2]]".to_owned());
        all.push("[[6]]".to_owned());
        let ghost av = all@.map_values(|s: String| s@);
        assert(av =~= all_packets(ps));
        let first = Solver::divider_position(&all, 2 * n);
        let second = Solver::divider_position(&all, 2 * n + 1);
        assert(first * second <= (2 * n + 2) * (2 * n + 2)) by (nonlinear_arith)
            requires
                first <= 2 * n + 2,
                second <= 2 * n + 2,
        ;
        assert((2 * n + 2) * (2 * n + 2) <= 0x8000_0002 * 0x8000_0002) by (nonlinear_arith)
            requires
                n < 0x4000_0000,
        ;
        u64_to_string(first * second)
    }
}

impl Solver {
    fn divider_position(all: &Vec<String>, d: usize) -> (r: u64)
        requires
            d < all@.len(),
            all@.len() < 0x3_0000_0000,
        ensures
            r == position(all@.map_values(|s: String| s@), d as int),
            r <= all@.len(),
    {
        let ghost av = all@.map_values(|s: String| s@);
        let mut c: u64 = 0;
        let mut j: usize = 0;
        while j < all.len()
            invariant
                av == all@.map_values(|s: String| s@),
                d < all@.len(),
                j <= all@.len(),
                c == count_before(av, d as int, j as int),
                c <= j,
                j > d ==> c < j,
            decreases all@.len() - j,
        {
            if j != d {
                let (ok, _) = Solver::is_in_right_order(all[j].as_str(), all[d].as_str());
                if ok {
                    c = c + 1;
                }
            }
            j += 1;
        }
        c + 1
    }
}

} // verus!
