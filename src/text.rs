use vstd::prelude::*;
use vstd::string::StrSliceExecFns;

verus! {

/// Lines joined back with a newline between each two.
pub open spec fn join_lines(ls: Seq<Seq<char>>) -> Seq<char>
    decreases ls.len(),
{
    if ls.len() == 0 {
        Seq::empty()
    } else if ls.len() == 1 {
        ls[0]
    } else {
        join_lines(ls.drop_last()) + seq!['\n'] + ls.last()
    }
}

pub open spec fn no_newline(l: Seq<char>) -> bool {
    forall|k: int| 0 <= k < l.len() ==> l[k] != '\n'
}

/// The characters that `str::trim` strips: those with the Unicode
/// White_Space property.
pub open spec fn is_blank(c: char) -> bool {
    ('\u{9}' <= c && c <= '\u{d}') || c == ' ' || c == '\u{85}' || c == '\u{a0}' || c == '\u{1680}'
        || ('\u{2000}' <= c && c <= '\u{200a}') || c == '\u{2028}' || c == '\u{2029}' || c == '\u{202f}'
        || c == '\u{205f}' || c == '\u{3000}'
}

fn blank(c: char) -> (r: bool)
    ensures
        r == is_blank(c),
{
    ('\u{9}' <= c && c <= '\u{d}') || c == ' ' || c == '\u{85}' || c == '\u{a0}' || c == '\u{1680}'
        || ('\u{2000}' <= c && c <= '\u{200a}') || c == '\u{2028}' || c == '\u{2029}' || c == '\u{202f}'
        || c == '\u{205f}' || c == '\u{3000}'
}

pub open spec fn all_blank(l: Seq<char>) -> bool {
    forall|k: int| 0 <= k < l.len() ==> is_blank(l[k])
}

/// `t` is `l` without its leading and trailing blanks.
pub open spec fn is_trim_of(t: Seq<char>, l: Seq<char>) -> bool {
    exists|a: int, b: int|
        #![trigger l.subrange(a, b)]
        0 <= a <= b <= l.len() && t == l.subrange(a, b) && all_blank(l.subrange(0, a))
            && all_blank(l.subrange(b, l.len() as int)) && (t.len() > 0 ==> !is_blank(t[0])
            && !is_blank(t.last()))
}

pub open spec fn is_digit(c: char) -> bool {
    '0' <= c && c <= '9'
}

pub open spec fn digit_value(c: char) -> nat {
    (c as nat - '0' as nat) as nat
}

pub open spec fn all_digits(s: Seq<char>) -> bool {
    forall|k: int| 0 <= k < s.len() ==> is_digit(s[k])
}

/// The number that a string of decimal digits writes.
pub open spec fn decimal_value(s: Seq<char>) -> nat
    decreases s.len(),
{
    if s.len() == 0 {
        0
    } else {
        decimal_value(s.drop_last()) * 10 + digit_value(s.last())
    }
}

pub open spec fn digit_char(d: nat) -> char {
    (d + '0' as nat) as char
}

/// The decimal writing of `n`, without leading zeros.
pub open spec fn decimal(n: nat) -> Seq<char>
    decreases n,
{
    if n < 10 {
        seq![digit_char(n)]
    } else {
        decimal(n / 10).push(digit_char(n % 10))
    }
}

/// The decimal writing of a signed `n`, with a minus sign when negative.
pub open spec fn signed_decimal(n: int) -> Seq<char> {
    if n < 0 {
        seq!['-'] + decimal((-n) as nat)
    } else {
        decimal(n as nat)
    }
}

/// The characters of `s`, in order.
pub fn chars_of(s: &str) -> (r: Vec<char>)
    ensures
        r@ == s@,
{
    let n = s.unicode_len();
    let mut r: Vec<char> = Vec::new();
    let mut i: usize = 0;
    while i < n
        invariant
            n == s@.len(),
            i <= n,
            r@ == s@.subrange(0, i as int),
        decreases n - i,
    {
        r.push(s.get_char(i));
        i += 1;
    }
    r
}

proof fn lemma_join_push_char(ls: Seq<Seq<char>>, cur: Seq<char>, c: char)
    ensures
        join_lines(ls.push(cur.push(c))) == join_lines(ls.push(cur)).push(c),
{
    let a = ls.push(cur.push(c));
    let b = ls.push(cur);
    if ls.len() == 0 {
        assert(a =~= seq![cur.push(c)]);
        assert(b =~= seq![cur]);
    } else {
        assert(a.drop_last() =~= ls);
        assert(b.drop_last() =~= ls);
        assert(join_lines(a) =~= join_lines(ls) + seq!['\n'] + cur.push(c));
        assert(join_lines(b).push(c) =~= join_lines(ls) + seq!['\n'] + cur.push(c));
    }
}

proof fn lemma_join_newline(ls: Seq<Seq<char>>, cur: Seq<char>)
    ensures
        join_lines(ls.push(cur).push(Seq::empty())) == join_lines(ls.push(cur)).push('\n'),
{
    let a = ls.push(cur).push(Seq::<char>::empty());
    assert(a.drop_last() =~= ls.push(cur));
    assert(join_lines(a) =~= join_lines(ls.push(cur)) + seq!['\n'] + Seq::<char>::empty());
}

/// Splits `s` at each newline. The pieces hold no newline, and joined with
/// newlines they give `s` back; so an empty input gives one empty line.
pub fn split_lines(s: &Vec<char>) -> (r: Vec<Vec<char>>)
    ensures
        r@.len() >= 1,
        join_lines(r@.map_values(|l: Vec<char>| l@)) == s@,
        forall|k: int| 0 <= k < r@.len() ==> no_newline(#[trigger] r@[k]@),
{
    let mut r: Vec<Vec<char>> = Vec::new();
    let mut cur: Vec<char> = Vec::new();
    let mut i: usize = 0;
    while i < s.len()
        invariant
            i <= s@.len(),
            join_lines(r@.map_values(|l: Vec<char>| l@).push(cur@)) == s@.subrange(0, i as int),
            forall|k: int| 0 <= k < r@.len() ==> no_newline(#[trigger] r@[k]@),
            no_newline(cur@),
        decreases s@.len() - i,
    {
        let c = s[i];
        let ghost ls = r@.map_values(|l: Vec<char>| l@);
        assert(s@.subrange(0, i + 1) =~= s@.subrange(0, i as int).push(c));
        if c == '\n' {
            proof {
                lemma_join_newline(ls, cur@);
            }
            r.push(cur);
            cur = Vec::new();
            assert(r@.map_values(|l: Vec<char>| l@).push(cur@) =~= ls.push(
                r@.last()@,
            ).push(Seq::empty()));
        } else {
            proof {
                lemma_join_push_char(ls, cur@, c);
            }
            cur.push(c);
            assert(r@.map_values(|l: Vec<char>| l@) =~= ls);
        }
        i += 1;
    }
    assert(s@.subrange(0, s@.len() as int) =~= s@);
    let ghost ls = r@.map_values(|l: Vec<char>| l@);
    let ghost last = cur@;
    r.push(cur);
    assert(r@.map_values(|l: Vec<char>| l@) =~= ls.push(last));
    r
}

/// `l` without its leading and trailing white space, as `str::trim`.
pub fn trim(l: &Vec<char>) -> (r: Vec<char>)
    ensures
        is_trim_of(r@, l@),
{
    let n = l.len();
    let mut a: usize = 0;
    while a < n && blank(l[a])
        invariant
            n == l@.len(),
            a <= n,
            all_blank(l@.subrange(0, a as int)),
        decreases n - a,
    {
        a += 1;
    }
    let mut b: usize = n;
    while b > a && blank(l[b - 1])
        invariant
            n == l@.len(),
            a <= b <= n,
            all_blank(l@.subrange(b as int, n as int)),
        decreases b,
    {
        assert forall|k: int| 0 <= k < n - (b - 1) implies is_blank(
            #[trigger] l@.subrange(b - 1, n as int)[k],
        ) by {
            if k > 0 {
                assert(l@.subrange(b - 1, n as int)[k] == l@.subrange(b as int, n as int)[k - 1]);
            }
        }
        b -= 1;
    }
    let mut r: Vec<char> = Vec::new();
    let mut i: usize = a;
    while i < b
        invariant
            a <= i <= b <= n,
            n == l@.len(),
            r@ == l@.subrange(a as int, i as int),
        decreases b - i,
    {
        r.push(l[i]);
        i += 1;
    }
    assert(r@ == l@.subrange(a as int, b as int));
    r
}

proof fn lemma_decimal_step(s: Seq<char>, i: int)
    requires
        0 <= i < s.len(),
    ensures
        decimal_value(s.subrange(0, i + 1)) == decimal_value(s.subrange(0, i)) * 10
            + digit_value(s[i]),
{
    assert(s.subrange(0, i + 1).drop_last() =~= s.subrange(0, i));
}

proof fn lemma_decimal_prefix_le(s: Seq<char>, i: int)
    requires
        0 <= i <= s.len(),
    ensures
        decimal_value(s.subrange(0, i)) <= decimal_value(s),
    decreases s.len() - i,
{
    if i < s.len() {
        lemma_decimal_step(s, i);
        lemma_decimal_prefix_le(s, i + 1);
    } else {
        assert(s.subrange(0, i) =~= s);
    }
}

/// Reads a number written in decimal digits: `None` when `s` is empty,
/// holds anything but digits, or writes a number over `u64::MAX`.
pub fn parse_u64(s: &Vec<char>) -> (r: Option<u64>)
    ensures
        r is Some <==> (s@.len() > 0 && all_digits(s@) && decimal_value(s@) <= u64::MAX),
        r matches Some(v) ==> v == decimal_value(s@),
{
    if s.len() == 0 {
        return None;
    }
    let mut v: u64 = 0;
    let mut i: usize = 0;
    while i < s.len()
        invariant
            i <= s@.len(),
            all_digits(s@.subrange(0, i as int)),
            v == decimal_value(s@.subrange(0, i as int)),
        decreases s@.len() - i,
    {
        let c = s[i];
        proof {
            lemma_decimal_step(s@, i as int);
        }
        if !('0' <= c && c <= '9') {
            assert(!all_digits(s@));
            return None;
        }
        let d = (c as u32 - '0' as u32) as u64;
        if v > (u64::MAX - d) / 10 {
            proof {
                lemma_decimal_prefix_le(s@, i + 1);
            }
            return None;
        }
        v = v * 10 + d;
        assert forall|k: int| 0 <= k < i + 1 implies is_digit(#[trigger] s@.subrange(0, i + 1)[k]) by {
            if k < i {
                assert(s@.subrange(0, i + 1)[k] == s@.subrange(0, i as int)[k]);
            }
        }
        i += 1;
    }
    assert(s@.subrange(0, s@.len() as int) =~= s@);
    Some(v)
}

fn drop_sign(s: &Vec<char>) -> (r: Vec<char>)
    requires
        s@.len() > 0,
    ensures
        r@ == s@.drop_first(),
{
    let mut rest: Vec<char> = Vec::new();
    let mut i: usize = 1;
    while i < s.len()
        invariant
            1 <= i <= s@.len(),
            rest@ == s@.subrange(1, i as int),
        decreases s@.len() - i,
    {
        rest.push(s[i]);
        i += 1;
    }
    assert(rest@ =~= s@.drop_first());
    rest
}

/// Reads a number as `str::parse::<i64>` does: an optional sign, then
/// decimal digits, in the range of `i64`.
pub fn parse_i64(s: &Vec<char>) -> (r: Option<i64>)
    ensures
        r == signed_value(s@),
{
    if s.len() > 0 && (s[0] == '-' || s[0] == '+') {
        let rest = drop_sign(s);
        match parse_u64(&rest) {
            Some(v) => {
                if s[0] == '-' {
                    if v < 0x8000_0000_0000_0000 {
                        Some(-(v as i64))
                    } else if v == 0x8000_0000_0000_0000 {
                        Some(i64::MIN)
                    } else {
                        None
                    }
                } else if v <= i64::MAX as u64 {
                    Some(v as i64)
                } else {
                    None
                }
            },
            None => None,
        }
    } else {
        match parse_u64(s) {
            Some(v) => {
                if v <= i64::MAX as u64 {
                    Some(v as i64)
                } else {
                    None
                }
            },
            None => None,
        }
    }
}

/// A number as `str::parse::<u64>` reads it: an optional `+`, then decimal
/// digits, up to `u64::MAX`.
pub open spec fn unsigned_value(t: Seq<char>) -> Option<u64> {
    let d = if t.len() > 0 && t[0] == '+' { t.drop_first() } else { t };
    if d.len() > 0 && all_digits(d) && decimal_value(d) <= u64::MAX {
        Some(decimal_value(d) as u64)
    } else {
        None
    }
}

/// Reads a number as `str::parse::<u64>` does.
pub fn parse_unsigned(s: &Vec<char>) -> (r: Option<u64>)
    ensures
        r == unsigned_value(s@),
{
    if s.len() > 0 && s[0] == '+' {
        let rest = drop_sign(s);
        parse_u64(&rest)
    } else {
        parse_u64(s)
    }
}

fn digit_of(d: u64) -> (c: char)
    requires
        d < 10,
    ensures
        c == digit_char(d as nat),
{
    if d == 0 { '0' } else if d == 1 { '1' } else if d == 2 { '2' } else if d == 3 { '3' } else if d == 4 { '4' }
    else if d == 5 { '5' } else if d == 6 { '6' } else if d == 7 { '7' } else if d == 8 { '8' } else { '9' }
}

/// The decimal digits of `n`.
pub fn decimal_digits(n: u64) -> (r: Vec<char>)
    ensures
        r@ == decimal(n as nat),
{
    let mut out: Vec<char> = Vec::new();
    let mut m: u64 = n;
    while m >= 10
        invariant
            decimal(n as nat) == decimal(m as nat) + out@,
        decreases m,
    {
        let c = digit_of(m % 10);
        let ghost before = out@;
        out.insert(0, c);
        assert(decimal(m as nat) == decimal((m / 10) as nat).push(c));
        assert(decimal((m / 10) as nat) + out@ =~= decimal(m as nat) + before);
        m = m / 10;
    }
    let c = digit_of(m);
    let ghost before = out@;
    out.insert(0, c);
    assert(out@ =~= seq![c] + before);
    assert(decimal(m as nat) == seq![c]);
    out
}

/// `n` written in decimal.
pub fn u64_to_string(n: u64) -> (r: String)
    ensures
        r@ == decimal(n as nat),
{
    string_of_chars(&decimal_digits(n))
}

/// `n` written in decimal, with a minus sign when it is negative.
pub fn i64_to_string(n: i64) -> (r: String)
    ensures
        r@ == signed_decimal(n as int),
{
    if n < 0 {
        let m = (-(n as i128)) as u64;
        let d = decimal_digits(m);
        let mut v: Vec<char> = Vec::new();
        v.push('-');
        let mut i: usize = 0;
        while i < d.len()
            invariant
                i <= d@.len(),
                v@ == seq!['-'] + d@.subrange(0, i as int),
            decreases d@.len() - i,
        {
            v.push(d[i]);
            i += 1;
            assert(v@ =~= seq!['-'] + d@.subrange(0, i as int));
        }
        assert(d@.subrange(0, i as int) =~= d@);
        string_of_chars(&v)
    } else {
        string_of_chars(&decimal_digits(n as u64))
    }
}

/// Relies on `FromIterator<&char>` for `String`, which keeps the characters
/// in order.
#[verifier::external_body]
pub fn string_of_chars(v: &Vec<char>) -> (r: String)
    ensures
        r@ == v@,
{
    String::from_iter(v.iter())
}

/// `ts` are the lines of `s`, each without its leading and trailing blanks.
pub open spec fn trimmed_lines_of(ts: Seq<Seq<char>>, s: Seq<char>) -> bool {
    exists|ls: Seq<Seq<char>>|
        #![trigger join_lines(ls)]
        join_lines(ls) == s && (forall|k: int| 0 <= k < ls.len() ==> no_newline(#[trigger] ls[k]))
            && ts.len() == ls.len() && (forall|k: int|
            0 <= k < ls.len() ==> is_trim_of(#[trigger] ts[k], ls[k]))
}

pub open spec fn views(v: Seq<Vec<char>>) -> Seq<Seq<char>> {
    v.map_values(|l: Vec<char>| l@)
}

/// The lines of `s`, each trimmed of its blanks.
pub fn trimmed_lines(s: &str) -> (r: Vec<Vec<char>>)
    ensures
        trimmed_lines_of(views(r@), s@),
{
    let cs = chars_of(s);
    let ls = split_lines(&cs);
    let mut r: Vec<Vec<char>> = Vec::new();
    let mut i: usize = 0;
    while i < ls.len()
        invariant
            i <= ls@.len(),
            r@.len() == i,
            forall|k: int| 0 <= k < i ==> is_trim_of(#[trigger] r@[k]@, ls@[k]@),
        decreases ls@.len() - i,
    {
        r.push(trim(&ls[i]));
        i += 1;
    }
    let ghost lv = views(ls@);
    assert(join_lines(lv) == s@);
    assert(forall|k: int| 0 <= k < lv.len() ==> no_newline(#[trigger] lv[k]));
    assert(forall|k: int| 0 <= k < lv.len() ==> is_trim_of(#[trigger] views(r@)[k], lv[k]));
    r
}

pub open spec fn is_first(s: Seq<char>, sep: char, i: int) -> bool {
    0 <= i < s.len() && s[i] == sep && forall|j: int| 0 <= j < i ==> s[j] != sep
}

/// What stands before and after the first `sep` of `s`; `None` where `s`
/// holds none.
pub open spec fn split_at_first(s: Seq<char>, sep: char) -> Option<(Seq<char>, Seq<char>)> {
    if s.contains(sep) {
        let i = choose|i: int| is_first(s, sep, i);
        Some((s.subrange(0, i), s.subrange(i + 1, s.len() as int)))
    } else {
        None
    }
}

pub open spec fn split_views(r: Option<(Vec<char>, Vec<char>)>) -> Option<(Seq<char>, Seq<char>)> {
    match r {
        Some(p) => Some((p.0@, p.1@)),
        None => None,
    }
}

/// Splits `s` at the first `sep`: `None` where `s` holds none.
pub fn split_once(s: &Vec<char>, sep: char) -> (r: Option<(Vec<char>, Vec<char>)>)
    ensures
        split_views(r) == split_at_first(s@, sep),
        r is None <==> !s@.contains(sep),
        r matches Some(p) ==> s@ == p.0@ + seq![sep] + p.1@ && !p.0@.contains(sep),
{
    let mut i: usize = 0;
    while i < s.len() && s[i] != sep
        invariant
            i <= s@.len(),
            forall|k: int| 0 <= k < i ==> s@[k] != sep,
        decreases s@.len() - i,
    {
        i += 1;
    }
    if i == s.len() {
        assert(!s@.contains(sep));
        return None;
    }
    assert(is_first(s@, sep, i as int));
    assert(s@.contains(sep));
    let ghost f = choose|f: int| is_first(s@, sep, f);
    assert(f == i) by {
        if f < i {
            assert(s@[f] != sep);
        } else if f > i {
            assert(s@[i as int] != sep);
        }
    }
    let mut a: Vec<char> = Vec::new();
    let mut k: usize = 0;
    while k < i
        invariant
            k <= i < s@.len(),
            a@ == s@.subrange(0, k as int),
        decreases i - k,
    {
        a.push(s[k]);
        k += 1;
    }
    let mut b: Vec<char> = Vec::new();
    k = i + 1;
    while k < s.len()
        invariant
            i + 1 <= k <= s@.len(),
            b@ == s@.subrange(i + 1, k as int),
        decreases s@.len() - k,
    {
        b.push(s[k]);
        k += 1;
    }
    assert(s@ =~= a@ + seq![sep] + b@);
    assert(!a@.contains(sep)) by {
        if a@.contains(sep) {
            let j = choose|j: int| 0 <= j < a@.len() && a@[j] == sep;
            assert(s@[j] == sep);
        }
    }
    Some((a, b))
}

/// Sum of a sequence of integers.
pub open spec fn sum_of(s: Seq<int>) -> int
    decreases s.len(),
{
    if s.len() == 0 {
        0
    } else {
        sum_of(s.drop_last()) + s.last()
    }
}


/// Runs of characters that `keep` accepts, found in `s` so far, and the run
/// being read.
pub open spec fn runs_scan(s: Seq<char>, signed: bool) -> (Seq<Seq<char>>, Seq<char>)
    decreases s.len(),
{
    if s.len() == 0 {
        (Seq::empty(), Seq::empty())
    } else {
        let (done, run) = runs_scan(s.drop_last(), signed);
        let c = s.last();
        if is_digit(c) || (signed && c == '-') {
            (done, run.push(c))
        } else if run.len() > 0 {
            (done.push(run), Seq::empty())
        } else {
            (done, Seq::empty())
        }
    }
}

/// The maximal runs of digits in `s` (of digits and minus signs where
/// `signed`).
pub open spec fn runs(s: Seq<char>, signed: bool) -> Seq<Seq<char>> {
    let (done, run) = runs_scan(s, signed);
    if run.len() > 0 {
        done.push(run)
    } else {
        done
    }
}

/// The numbers that the runs write, leaving out those over `usize::MAX`.
pub open spec fn unsigned_values(rs: Seq<Seq<char>>) -> Seq<usize>
    decreases rs.len(),
{
    if rs.len() == 0 {
        Seq::empty()
    } else if decimal_value(rs.last()) <= usize::MAX {
        unsigned_values(rs.drop_last()).push(decimal_value(rs.last()) as usize)
    } else {
        unsigned_values(rs.drop_last())
    }
}

/// A number as `str::parse::<i64>` reads it: an optional `+` or `-`, then
/// decimal digits, in the range of `i64`.
pub open spec fn signed_value(t: Seq<char>) -> Option<i64> {
    if t.len() > 0 && t[0] == '-' {
        if t.len() > 1 && all_digits(t.drop_first()) && decimal_value(t.drop_first()) <= 0x8000_0000_0000_0000 {
            Some((-decimal_value(t.drop_first())) as i64)
        } else {
            None
        }
    } else if t.len() > 0 && t[0] == '+' {
        if t.len() > 1 && all_digits(t.drop_first()) && decimal_value(t.drop_first()) <= i64::MAX {
            Some(decimal_value(t.drop_first()) as i64)
        } else {
            None
        }
    } else if t.len() > 0 && all_digits(t) && decimal_value(t) <= i64::MAX {
        Some(decimal_value(t) as i64)
    } else {
        None
    }
}

/// The runs that write a number, as numbers.
pub open spec fn signed_values(rs: Seq<Seq<char>>) -> Seq<i64>
    decreases rs.len(),
{
    if rs.len() == 0 {
        Seq::empty()
    } else {
        match signed_value(rs.last()) {
            Some(v) => signed_values(rs.drop_last()).push(v),
            None => signed_values(rs.drop_last()),
        }
    }
}

/// A line without the carriage return of a `\r\n` ending.
pub open spec fn strip_cr(l: Seq<char>) -> Seq<char> {
    if l.len() > 0 && l.last() == '\r' {
        l.drop_last()
    } else {
        l
    }
}

/// The lines that the pieces between newlines make: each piece followed
/// by a newline loses a carriage return at its end, and a last empty piece,
/// which a final newline leaves, does not count.
pub open spec fn lines_from(ps: Seq<Seq<char>>) -> Seq<Seq<char>> {
    let body = Seq::new((ps.len() - 1) as nat, |k: int| strip_cr(ps[k]));
    if ps.len() == 0 || ps.last().len() == 0 {
        body
    } else {
        body.push(ps.last())
    }
}

/// The lines of a text, as `str::lines` gives them.
pub open spec fn is_lines_of(ls: Seq<Seq<char>>, s: Seq<char>) -> bool {
    exists|ps: Seq<Seq<char>>|
        #![trigger join_lines(ps)]
        join_lines(ps) == s && (forall|k: int| 0 <= k < ps.len() ==> no_newline(#[trigger] ps[k]))
            && ps.len() >= 1 && ls == lines_from(ps)
}

fn without_cr(l: &Vec<char>) -> (r: Vec<char>)
    ensures
        r@ == strip_cr(l@),
{
    let n = if l.len() > 0 && l[l.len() - 1] == '\r' { l.len() - 1 } else { l.len() };
    let mut r: Vec<char> = Vec::new();
    let mut i: usize = 0;
    while i < n
        invariant
            n <= l@.len(),
            i <= n,
            r@ == l@.subrange(0, i as int),
        decreases n - i,
    {
        r.push(l[i]);
        i += 1;
    }
    assert(r@ =~= strip_cr(l@));
    r
}

/// The lines of `s`, as `str::lines` gives them.
pub fn lines_of(s: &str) -> (r: Vec<Vec<char>>)
    ensures
        is_lines_of(views(r@), s@),
{
    let cs = chars_of(s);
    let ps = split_lines(&cs);
    let ghost pv = views(ps@);
    let n = ps.len();
    let mut r: Vec<Vec<char>> = Vec::new();
    let mut i: usize = 0;
    while i + 1 < n
        invariant
            pv == views(ps@),
            n == pv.len(),
            n >= 1,
            i + 1 <= n,
            views(r@) == Seq::new((n - 1) as nat, |k: int| strip_cr(pv[k])).subrange(0, i as int),
        decreases n - i,
    {
        assert(pv[i as int] == ps@[i as int]@);
        let ghost before = views(r@);
        let l = without_cr(&ps[i]);
        let ghost lw = l@;
        r.push(l);
        assert(views(r@) =~= before.push(lw));
        assert(lw == strip_cr(pv[i as int]));
        i += 1;
        assert(views(r@) =~= Seq::new((n - 1) as nat, |k: int| strip_cr(pv[k])).subrange(0, i as int));
    }
    assert(Seq::new((n - 1) as nat, |k: int| strip_cr(pv[k])).subrange(0, i as int) =~= Seq::new(
        (n - 1) as nat,
        |k: int| strip_cr(pv[k]),
    ));
    assert(pv[n - 1] == ps@[n - 1]@);
    if ps[n - 1].len() > 0 {
        let ghost before = views(r@);
        r.push(ps[n - 1].clone());
        assert(views(r@) =~= before.push(pv[n - 1]));
    }
    assert(views(r@) == lines_from(pv));
    r
}

/// `ts` are the lines of `s`, as `str::lines` gives them, each trimmed.
pub open spec fn trimmed_text_of(ts: Seq<Seq<char>>, s: Seq<char>) -> bool {
    exists|ls: Seq<Seq<char>>|
        #![trigger is_lines_of(ls, s)]
        is_lines_of(ls, s) && ts.len() == ls.len() && forall|k: int|
            0 <= k < ls.len() ==> is_trim_of(#[trigger] ts[k], ls[k])
}

/// The lines of `s`, as `str::lines` gives them, each trimmed.
pub fn trimmed_text_lines(s: &str) -> (r: Vec<Vec<char>>)
    ensures
        trimmed_text_of(views(r@), s@),
{
    let ls = lines_of(s);
    let ghost lv = views(ls@);
    let mut r: Vec<Vec<char>> = Vec::new();
    let mut i: usize = 0;
    while i < ls.len()
        invariant
            lv == views(ls@),
            i <= lv.len(),
            r@.len() == i,
            forall|k: int| 0 <= k < i ==> is_trim_of(#[trigger] r@[k]@, lv[k]),
        decreases lv.len() - i,
    {
        assert(lv[i as int] == ls@[i as int]@);
        r.push(trim(&ls[i]));
        i += 1;
    }
    assert(forall|k: int| 0 <= k < lv.len() ==> is_trim_of(#[trigger] views(r@)[k], lv[k]));
    r
}

fn digit_runs(line: &Vec<char>, signed: bool) -> (r: Vec<Vec<char>>)
    ensures
        views(r@) == runs(line@, signed),
        forall|k: int|
            0 <= k < r@.len() ==> (#[trigger] r@[k])@.len() > 0 && (!signed ==> all_digits(
                r@[k]@,
            )),
{
    let mut out: Vec<Vec<char>> = Vec::new();
    let mut run: Vec<char> = Vec::new();
    let mut i: usize = 0;
    assert(line@.subrange(0, 0) =~= Seq::<char>::empty());
    while i < line.len()
        invariant
            i <= line@.len(),
            runs_scan(line@.subrange(0, i as int), signed) == (views(out@), run@),
            forall|k: int|
                0 <= k < out@.len() ==> (#[trigger] out@[k])@.len() > 0 && (!signed ==> all_digits(
                    out@[k]@,
                )),
            !signed ==> all_digits(run@),
        decreases line@.len() - i,
    {
        let c = line[i];
        assert(line@.subrange(0, i + 1).drop_last() =~= line@.subrange(0, i as int));
        let ghost before = views(out@);
        if ('0' <= c && c <= '9') || (signed && c == '-') {
            run.push(c);
        } else if run.len() > 0 {
            let ghost r = run@;
            out.push(run);
            run = Vec::new();
            assert(views(out@) =~= before.push(r));
        }
        i += 1;
    }
    assert(line@.subrange(0, i as int) =~= line@);
    if run.len() > 0 {
        let ghost before = views(out@);
        let ghost r = run@;
        out.push(run);
        assert(views(out@) =~= before.push(r));
    }
    out
}

/// The runs of digits of a line that write numbers up to `usize::MAX`.
pub fn unsigned_numbers(line: &Vec<char>) -> (r: Vec<usize>)
    ensures
        r@ == unsigned_values(runs(line@, false)),
{
    let rs = digit_runs(line, false);
    let ghost rv = views(rs@);
    let mut nums: Vec<usize> = Vec::new();
    let mut j: usize = 0;
    while j < rs.len()
        invariant
            rv == views(rs@),
            j <= rs@.len(),
            forall|k: int|
                0 <= k < rs@.len() ==> (#[trigger] rs@[k])@.len() > 0 && all_digits(rs@[k]@),
            nums@ == unsigned_values(rv.subrange(0, j as int)),
        decreases rs@.len() - j,
    {
        assert(rv.subrange(0, j + 1).drop_last() =~= rv.subrange(0, j as int));
        assert(rv[j as int] == rs@[j as int]@);
        assert(rv[j as int].len() > 0 && all_digits(rv[j as int]));
        assert(usize::MAX <= u64::MAX);
        match parse_u64(&rs[j]) {
            Some(v) => {
                if v <= usize::MAX as u64 {
                    nums.push(v as usize);
                }
            },
            None => {},
        }
        j += 1;
    }
    assert(rv.subrange(0, j as int) =~= rv);
    nums
}

/// The unsigned numbers of each line: the runs of digits, leaving out those
/// over `usize::MAX`.
pub fn extract_unsigned_integers_from_string(input: &String) -> (r: Vec<Vec<usize>>)
    ensures
        exists|ls: Seq<Seq<char>>|
            is_lines_of(ls, input@) && r@.len() == ls.len() && forall|k: int|
                0 <= k < ls.len() ==> (#[trigger] r@[k])@ == unsigned_values(runs(ls[k], false)),
{
    let lines = lines_of(input.as_str());
    let ghost ls = views(lines@);
    let mut r: Vec<Vec<usize>> = Vec::new();
    let mut i: usize = 0;
    while i < lines.len()
        invariant
            ls == views(lines@),
            i <= lines@.len(),
            r@.len() == i,
            forall|k: int| 0 <= k < i ==> (#[trigger] r@[k])@ == unsigned_values(runs(ls[k], false)),
        decreases lines@.len() - i,
    {
        let nums = unsigned_numbers(&lines[i]);
        assert(ls[i as int] == lines@[i as int]@);
        r.push(nums);
        i += 1;
    }
    r
}

/// The numbers of each line: the runs of digits and minus signs that write
/// a number in the range of `i64`.
pub fn extract_integers_from_string(input: &String) -> (r: Vec<Vec<i64>>)
    ensures
        exists|ls: Seq<Seq<char>>|
            is_lines_of(ls, input@) && r@.len() == ls.len() && forall|k: int|
                0 <= k < ls.len() ==> (#[trigger] r@[k])@ == signed_values(runs(ls[k], true)),
{
    let lines = lines_of(input.as_str());
    let ghost ls = views(lines@);
    let mut r: Vec<Vec<i64>> = Vec::new();
    let mut i: usize = 0;
    while i < lines.len()
        invariant
            ls == views(lines@),
            i <= lines@.len(),
            r@.len() == i,
            forall|k: int| 0 <= k < i ==> (#[trigger] r@[k])@ == signed_values(runs(ls[k], true)),
        decreases lines@.len() - i,
    {
        let rs = digit_runs(&lines[i], true);
        let ghost rv = views(rs@);
        let mut nums: Vec<i64> = Vec::new();
        let mut j: usize = 0;
        while j < rs.len()
            invariant
                rv == views(rs@),
                j <= rs@.len(),
                nums@ == signed_values(rv.subrange(0, j as int)),
            decreases rs@.len() - j,
        {
            assert(rv.subrange(0, j + 1).drop_last() =~= rv.subrange(0, j as int));
            assert(rv[j as int] == rs@[j as int]@);
            match parse_i64(&rs[j]) {
                Some(v) => {
                    nums.push(v);
                },
                None => {},
            }
            j += 1;
        }
        assert(rv.subrange(0, j as int) =~= rv);
        r.push(nums);
        i += 1;
    }
    r
}

/// The lines that are not empty.
pub open spec fn non_empty(ls: Seq<Seq<char>>) -> Seq<Seq<char>>
    decreases ls.len(),
{
    if ls.len() == 0 {
        Seq::empty()
    } else if ls.last().len() == 0 {
        non_empty(ls.drop_last())
    } else {
        non_empty(ls.drop_last()).push(ls.last())
    }
}

/// The characters of each line that is not empty, trimmed of blanks.
pub fn get_char_arrays(input: &String) -> (r: Vec<Vec<char>>)
    ensures
        exists|ls: Seq<Seq<char>>|
            is_lines_of(ls, input@) && r@.len() == non_empty(ls).len() && forall|k: int|
                0 <= k < r@.len() ==> is_trim_of((#[trigger] r@[k])@, non_empty(ls)[k]),
{
    let lines = lines_of(input.as_str());
    let ghost ls = views(lines@);
    let mut r: Vec<Vec<char>> = Vec::new();
    let mut i: usize = 0;
    assert(ls.subrange(0, 0) =~= Seq::<Seq<char>>::empty());
    while i < lines.len()
        invariant
            ls == views(lines@),
            i <= lines@.len(),
            r@.len() == non_empty(ls.subrange(0, i as int)).len(),
            forall|k: int|
                0 <= k < r@.len() ==> is_trim_of(
                    (#[trigger] r@[k])@,
                    non_empty(ls.subrange(0, i as int))[k],
                ),
        decreases lines@.len() - i,
    {
        let ghost pre = ls.subrange(0, i as int);
        assert(ls.subrange(0, i + 1).drop_last() =~= pre);
        assert(ls[i as int] == lines@[i as int]@);
        if lines[i].len() > 0 {
            r.push(trim(&lines[i]));
        }
        i += 1;
    }
    assert(ls.subrange(0, i as int) =~= ls);
    r
}

/// The lines of `s` that are not empty once trimmed of blanks, trimmed.
pub fn non_empty_lines(s: &str) -> (r: Vec<Vec<char>>)
    ensures
        exists|ts: Seq<Seq<char>>| trimmed_lines_of(ts, s@) && views(r@) == non_empty(ts),
{
    let lines = trimmed_lines(s);
    let ghost ts = views(lines@);
    let mut b: Vec<Vec<char>> = Vec::new();
    let mut i: usize = 0;
    assert(ts.subrange(0, 0) =~= Seq::<Seq<char>>::empty());
    while i < lines.len()
        invariant
            i <= lines@.len(),
            ts == views(lines@),
            views(b@) == non_empty(ts.subrange(0, i as int)),
        decreases lines@.len() - i,
    {
        assert(ts.subrange(0, i + 1).drop_last() =~= ts.subrange(0, i as int));
        if lines[i].len() > 0 {
            let ghost before = views(b@);
            assert(ts[i as int] == lines@[i as int]@);
            b.push(lines[i].clone());
            assert(views(b@) =~= before.push(ts[i as int]));
        }
        i += 1;
    }
    assert(ts.subrange(0, lines@.len() as int) =~= ts);
    b
}

} // verus!
