use vstd::prelude::*;
use crate::text::{i64_to_string, non_empty, non_empty_lines, parse_i64, signed_decimal, signed_value, trimmed_lines_of, views};
use crate::ChallengeSolver;

verus! {

/// The encrypted file: each number with its place in the file.
pub struct Solver {
    pub input: Vec<(usize, i64)>,
}

/// The index of the first entry that came from place `i`.
pub open spec fn is_first_index(l: Seq<(usize, i64)>, i: int, k: int) -> bool {
    0 <= k < l.len() && l[k].0 == i && forall|j: int| 0 <= j < k ==> l[j].0 != i
}

pub open spec fn split_point(l: Seq<(usize, i64)>, i: int) -> int {
    choose|k: int| is_first_index(l, i, k)
}

/// Moves the number from place `i` forward by its value, modulo one less
/// than the length; a move that passes the end comes round one further, and
/// one that lands before the first entry goes to the end.
pub open spec fn move_one(l: Seq<(usize, i64)>, i: int) -> Seq<(usize, i64)> {
    let n = l.len() as int;
    let sp = split_point(l, i);
    let item = l[sp];
    let shift = (item.1 as int) % (n - 1);
    let rest = l.remove(sp);
    if sp + shift == 0 {
        rest.push(item)
    } else {
        rest.insert(insert_point(sp, shift, n), item)
    }
}

/// Where the moved number goes back in: `sp + shift`, past the end coming
/// round one further.
pub open spec fn insert_point(sp: int, shift: int, n: int) -> int {
    if sp + shift >= n {
        sp + shift - n + 1
    } else {
        sp + shift
    }
}

proof fn lemma_shift_bounds(v: int, n: int)
    requires
        n >= 2,
    ensures
        0 <= v % (n - 1) < n - 1,
{
    assert(0 <= v % (n - 1) < n - 1) by (nonlinear_arith)
        requires
            n - 1 > 0,
    ;
}

proof fn lemma_negative_mod(v: int, m: int, a: int)
    requires
        v < 0,
        m > 0,
        a == (-v) % m,
    ensures
        v % m == if a == 0 { 0 } else { m - a },
{
    let q = (-v) / m;
    assert(-v == q * m + a) by (nonlinear_arith)
        requires
            m > 0,
            q == (-v) / m,
            a == (-v) % m,
    ;
    if a == 0 {
        assert(v == (-q) * m) by (nonlinear_arith)
            requires
                -v == q * m + a,
                a == 0,
        ;
        assert(v % m == 0) by (nonlinear_arith)
            requires
                v == (-q) * m,
                m > 0,
        ;
    } else {
        assert(v == (-q - 1) * m + (m - a)) by (nonlinear_arith)
            requires
                -v == q * m + a,
        ;
        assert(0 <= a < m) by (nonlinear_arith)
            requires
                m > 0,
                a == (-v) % m,
        ;
        assert(v % m == m - a) by (nonlinear_arith)
            requires
                v == (-q - 1) * m + (m - a),
                0 < m - a < m,
        ;
    }
}

/// The numbers from places `0` up to `i` moved, in turn.
pub open spec fn mix_upto(l: Seq<(usize, i64)>, i: int) -> Seq<(usize, i64)>
    decreases i,
{
    if i <= 0 {
        l
    } else {
        move_one(mix_upto(l, i - 1), i - 1)
    }
}

/// Every place `0..n` stands in the list.
pub open spec fn present(l: Seq<(usize, i64)>, i: int) -> bool {
    exists|k: int| 0 <= k < l.len() && #[trigger] l[k].0 == i
}

pub open spec fn has_all(l: Seq<(usize, i64)>, n: int) -> bool {
    l.len() == n && forall|i: int| 0 <= i < n ==> #[trigger] present(l, i)
}

/// The sum of the numbers 1000, 2000 and 3000 places after the first zero,
/// each place counted once.
pub open spec fn grove_sum(l: Seq<(usize, i64)>) -> int {
    let z = choose|k: int| 0 <= k < l.len() && l[k].1 == 0 && forall|j: int| 0 <= j < k ==> l[j].1 != 0;
    let n = l.len() as int;
    let a = (z + 1000) % n;
    let b = (z + 2000) % n;
    let c = (z + 3000) % n;
    l[a].1 + if b != a { l[b].1 as int } else { 0 } + if c != a && c != b { l[c].1 as int } else { 0 }
}

pub open spec fn mixed_rounds(l: Seq<(usize, i64)>, r: nat) -> Seq<(usize, i64)>
    decreases r,
{
    if r == 0 {
        l
    } else {
        mix_upto(mixed_rounds(l, (r - 1) as nat), l.len() as int)
    }
}

pub open spec fn scaled(l: Seq<(usize, i64)>) -> Seq<(usize, i64)> {
    l.map_values(|p: (usize, i64)| (p.0, (p.1 * 811589153) as i64))
}

pub open spec fn has_zero(l: Seq<(usize, i64)>) -> bool {
    exists|k: int| 0 <= k < l.len() && l[k].1 == 0
}

pub open spec fn numbers_of(ls: Seq<Seq<char>>) -> Seq<(usize, i64)> {
    Seq::new(ls.len(), |k: int| (k as usize, signed_value(ls[k])->0))
}

proof fn lemma_first_index_unique(l: Seq<(usize, i64)>, i: int, a: int, b: int)
    requires
        is_first_index(l, i, a),
        is_first_index(l, i, b),
    ensures
        a == b,
{
    if a < b {
        assert(l[a].0 != i);
    } else if b < a {
        assert(l[b].0 != i);
    }
}

proof fn lemma_move_keeps(l: Seq<(usize, i64)>, i: int, n: int)
    requires
        n >= 2,
        has_all(l, n),
        0 <= i < n,
    ensures
        has_all(move_one(l, i), n),
{
    let sp = split_point(l, i);
    assert(present(l, i));
    let k0 = choose|k: int| 0 <= k < l.len() && #[trigger] l[k].0 == i;
    assert(exists|k: int| is_first_index(l, i, k)) by {
        lemma_exists_first(l, i, k0);
    }
    let item = l[sp];
    let rest = l.remove(sp);
    let m = move_one(l, i);
    lemma_shift_bounds(item.1 as int, n);
    assert(m.len() == n);
    assert forall|j: int| 0 <= j < n implies #[trigger] present(m, j) by {
        assert(present(l, j));
        let kj = choose|k: int| 0 <= k < l.len() && #[trigger] l[k].0 == j;
        let shift = (item.1 as int) % (n - 1);
        if kj == sp {
            if sp + shift == 0 {
                assert(m[n - 1] == item);
            } else {
                let ap = insert_point(sp, shift, n);
                assert(m[ap] == item);
            }
        } else {
            let kr = if kj < sp { kj } else { kj - 1 };
            assert(rest[kr] == l[kj]);
            if sp + shift == 0 {
                assert(m[kr] == rest[kr]);
            } else {
                let ap = insert_point(sp, shift, n);
                if kr < ap {
                    assert(m[kr] == rest[kr]);
                } else {
                    assert(m[kr + 1] == rest[kr]);
                }
            }
        }
    }
}

proof fn lemma_exists_first(l: Seq<(usize, i64)>, i: int, k: int)
    requires
        0 <= k < l.len(),
        l[k].0 == i,
    ensures
        exists|f: int| is_first_index(l, i, f),
    decreases k,
{
    if exists|j: int| 0 <= j < k && l[j].0 == i {
        let j = choose|j: int| 0 <= j < k && l[j].0 == i;
        lemma_exists_first(l, i, j);
    } else {
        assert(is_first_index(l, i, k));
    }
}

pub open spec fn values_fit(l: Seq<(usize, i64)>) -> bool {
    forall|k: int| 0 <= k < l.len() ==> i64::MIN <= (#[trigger] l[k]).1 * 811589153 <= i64::MAX
}

pub open spec fn sum_fits(l: Seq<(usize, i64)>) -> bool {
    has_zero(l) && 1 <= l.len() < 0x4000_0000 && i64::MIN <= grove_sum(l) <= i64::MAX
}

impl Solver {
    pub closed spec fn view(&self) -> Seq<(usize, i64)> {
        self.input@
    }

    /// Reads one number per line; each keeps its line's place.
    pub fn new(input: String) -> (r: Solver)
        requires
            forall|ts: Seq<Seq<char>>|
                trimmed_lines_of(ts, input@) ==> forall|k: int|
                    0 <= k < non_empty(ts).len() ==> (signed_value(#[trigger] non_empty(ts)[k]) is Some),
        ensures
            exists|ts: Seq<Seq<char>>| trimmed_lines_of(ts, input@) && r@ == numbers_of(non_empty(ts)),
    {
        let rows = non_empty_lines(input.as_str());
        Solver::from_rows(&rows)
    }

    /// Reads the input as `new` does, or gives `None` where some line is
    /// not a number.
    pub fn try_new(input: String) -> (r: Option<Solver>)
        ensures
            r is None ==> exists|ts: Seq<Seq<char>>|
                trimmed_lines_of(ts, input@) && exists|k: int|
                    0 <= k < non_empty(ts).len() && !((signed_value(#[trigger] non_empty(ts)[k]) is Some)),
            r matches Some(d) ==> exists|ts: Seq<Seq<char>>|
                trimmed_lines_of(ts, input@) && (forall|k: int|
                    0 <= k < non_empty(ts).len() ==> (signed_value(#[trigger] non_empty(ts)[k]) is Some))
                    && d@ == numbers_of(non_empty(ts)),
    {
        let rows = non_empty_lines(input.as_str());
        let ghost ts = choose|ts: Seq<Seq<char>>| trimmed_lines_of(ts, input@) && views(rows@) == non_empty(ts);
        let mut i: usize = 0;
        while i < rows.len()
            invariant
                i <= rows@.len(),
                trimmed_lines_of(ts, input@),
                views(rows@) == non_empty(ts),
                forall|k: int| 0 <= k < i ==> (signed_value(#[trigger] views(rows@)[k]) is Some),
            decreases rows@.len() - i,
        {
            assert(views(rows@)[i as int] == rows@[i as int]@);
            if !match parse_i64(&rows[i]) { Some(_) => true, None => false } {
                assert(exists|k: int| 0 <= k < non_empty(ts).len() && !((signed_value(#[trigger] non_empty(ts)[k]) is Some)));
                return None;
            }
            i += 1;
        }
        Some(Solver::from_rows(&rows))
    }

    fn from_rows(rows: &Vec<Vec<char>>) -> (r: Solver)
        requires
            forall|k: int| 0 <= k < rows@.len() ==> (signed_value(#[trigger] views(rows@)[k]) is Some),
        ensures
            r@ == numbers_of(views(rows@)),
    {
        let ghost rv = views(rows@);
        let mut acc: Vec<(usize, i64)> = Vec::new();
        let mut i: usize = 0;
        while i < rows.len()
            invariant
                rv == views(rows@),
                forall|k: int| 0 <= k < rv.len() ==> (signed_value(#[trigger] rv[k]) is Some),
                i <= rv.len(),
                acc@ == numbers_of(rv).subrange(0, i as int),
            decreases rv.len() - i,
        {
            assert(rv[i as int] == rows@[i as int]@);
            assert(signed_value(rv[i as int]) is Some);
            let v = match parse_i64(&rows[i]) {
                Some(v) => v,
                None => 0,
            };
            acc.push((i, v));
            i += 1;
            assert(acc@ =~= numbers_of(rv).subrange(0, i as int));
        }
        assert(numbers_of(rv).subrange(0, i as int) =~= numbers_of(rv));
        Solver { input: acc }
    }

    /// Where the number from place `file_index` stands now, and the entry.
    fn get_split_point(file_index: usize, list: &Vec<(usize, i64)>) -> (r: (usize, (usize, i64)))
        requires
            present(list@, file_index as int),
        ensures
            r.0 == split_point(list@, file_index as int),
            r.0 < list@.len(),
            r.1 == list@[r.0 as int],
    {
        let ghost l = list@;
        let ghost i = file_index as int;
        let ghost k0 = choose|k: int| 0 <= k < l.len() && #[trigger] l[k].0 == i;
        let len = list.len();
        let mut k: usize = 0;
        while list[k].0 != file_index
            invariant
                l == list@,
                len == l.len(),
                i == file_index,
                0 <= k0 < l.len(),
                l[k0].0 == i,
                k <= k0,
                forall|j: int| 0 <= j < k ==> l[j].0 != i,
            decreases k0 - k,
        {
            k += 1;
        }
        proof {
            assert(is_first_index(l, i, k as int));
            lemma_first_index_unique(l, i, k as int, split_point(l, i));
        }
        (k, list[k])
    }

    /// The list once every number, in the order of the file, has moved.
    pub fn get_mixed_list(&self, current_list: &Vec<(usize, i64)>) -> (r: Vec<(usize, i64)>)
        requires
            current_list@.len() == self@.len(),
            2 <= self@.len() < 0x4000_0000,
            has_all(current_list@, self@.len() as int),
        ensures
            r@ == mix_upto(current_list@, self@.len() as int),
            has_all(r@, self@.len() as int),
    {
        let n = self.input.len();
        let ghost c = current_list@;
        let mut list: Vec<(usize, i64)> = Vec::new();
        let mut k: usize = 0;
        while k < current_list.len()
            invariant
                k <= c.len(),
                c == current_list@,
                list@ == c.subrange(0, k as int),
            decreases c.len() - k,
        {
            list.push(current_list[k]);
            k += 1;
        }
        assert(c.subrange(0, k as int) =~= c);
        let mut i: usize = 0;
        while i < n
            invariant
                n == self@.len(),
                2 <= n < 0x4000_0000,
                i <= n,
                list@ == mix_upto(c, i as int),
                has_all(list@, n as int),
            decreases n - i,
        {
            let ghost l = list@;
            assert(present(l, i as int));
            let (sp, item) = Solver::get_split_point(i, &list);
            proof {
                lemma_move_keeps(l, i as int, n as int);
                lemma_shift_bounds(item.1 as int, n as int);
            }
            let m = (n - 1) as u64;
            let v = item.1;
            let shift: u64 = if v >= 0 {
                (v as u64) % m
            } else {
                let a = ((-(v as i128)) as u64) % m;
                proof {
                    lemma_negative_mod(v as int, m as int, a as int);
                }
                if a == 0 {
                    0
                } else {
                    m - a
                }
            };
            assert(shift == (item.1 as int) % (n - 1));
            let shift = shift as usize;
            list.remove(sp);
            if sp == 0 && shift == 0 {
                list.push(item);
            } else {
                let mut ap = (sp + shift) % n;
                if sp + shift >= n {
                    ap = ap + 1;
                }
                assert(ap == insert_point(sp as int, shift as int, n as int)) by {
                    if sp + shift >= n {
                        let ghost t = (sp + shift) as int;
                        let ghost nn = n as int;
                        assert(t % nn == t - nn) by (nonlinear_arith)
                            requires
                                nn <= t < 2 * nn,
                        ;
                    } else {
                        let ghost t = (sp + shift) as int;
                        let ghost nn = n as int;
                        assert(t % nn == t) by (nonlinear_arith)
                            requires
                                0 <= t < nn,
                        ;
                    }
                }
                list.insert(ap, item);
            }
            assert(list@ == move_one(l, i as int));
            i += 1;
        }
        list
    }

    /// The grove coordinates: the sum of the numbers 1000, 2000 and 3000
    /// places after the first zero.
    fn get_result(list: &Vec<(usize, i64)>) -> (r: i64)
        requires
            sum_fits(list@),
        ensures
            r == grove_sum(list@),
    {
        let ghost l = list@;
        let ghost w = choose|k: int| 0 <= k < l.len() && l[k].1 == 0;
        let len = list.len();
        let mut z: usize = 0;
        while list[z].1 != 0
            invariant
                l == list@,
                len == l.len(),
                0 <= w < l.len(),
                l[w].1 == 0,
                z <= w,
                forall|j: int| 0 <= j < z ==> l[j].1 != 0,
            decreases w - z,
        {
            z += 1;
        }
        let n = list.len();
        let ghost zz = choose|k: int| 0 <= k < l.len() && l[k].1 == 0 && forall|j: int| 0 <= j < k ==> l[j].1 != 0;
        proof {
            assert(0 <= z < l.len() && l[z as int].1 == 0 && forall|j: int| 0 <= j < z ==> l[j].1 != 0);
            if zz < z {
                assert(l[zz].1 != 0);
            } else if zz > z {
                assert(l[z as int].1 != 0);
            }
        }
        let a = ((z as u64 + 1000) % n as u64) as usize;
        let b = ((z as u64 + 2000) % n as u64) as usize;
        let c = ((z as u64 + 3000) % n as u64) as usize;
        let mut acc: i128 = list[a].1 as i128;
        if b != a {
            acc = acc + list[b].1 as i128;
        }
        if c != a && c != b {
            acc = acc + list[c].1 as i128;
        }
        acc as i64
    }
}

impl ChallengeSolver for Solver {
    open spec fn solvable_a(&self) -> bool {
        &&& 2 <= self@.len() < 0x4000_0000
        &&& has_all(self@, self@.len() as int)
        &&& sum_fits(mix_upto(self@, self@.len() as int))
        &&& values_fit(self@)
        &&& sum_fits(mixed_rounds(scaled(self@), 10))
    }

    open spec fn solvable_b(&self) -> bool {
        &&& 2 <= self@.len() < 0x4000_0000
        &&& has_all(self@, self@.len() as int)
        &&& sum_fits(mix_upto(self@, self@.len() as int))
        &&& values_fit(self@)
        &&& sum_fits(mixed_rounds(scaled(self@), 10))
    }

    open spec fn answer_a(&self) -> Seq<char> {
        signed_decimal(grove_sum(mix_upto(self@, self@.len() as int)))
    }

    open spec fn answer_b(&self) -> Seq<char> {
        signed_decimal(grove_sum(mixed_rounds(scaled(self@), 10)))
    }

    /// The grove coordinates after one round of mixing.
    fn get_part_a_result(&self) -> (r: String) {
        let mixed = self.get_mixed_list(&self.input);
        i64_to_string(Solver::get_result(&mixed))
    }

    /// The grove coordinates after applying the decryption key and ten
    /// rounds of mixing.
    fn get_part_b_result(&self) -> (r: String) {
        let n = self.input.len();
        let mut list: Vec<(usize, i64)> = Vec::new();
        let mut k: usize = 0;
        while k < n
            invariant
                n == self@.len(),
                values_fit(self@),
                k <= n,
                list@ == scaled(self@).subrange(0, k as int),
            decreases n - k,
        {
            let (i, v) = self.input[k];
            assert(i64::MIN <= self@[k as int].1 * 811589153 <= i64::MAX);
            list.push((i, v * 811589153));
            k += 1;
            assert(list@ =~= scaled(self@).subrange(0, k as int));
        }
        assert(scaled(self@).subrange(0, k as int) =~= scaled(self@));
        assert(has_all(list@, n as int)) by {
            assert forall|i: int| 0 <= i < n implies #[trigger] present(list@, i) by {
                assert(present(self@, i));
                let kk = choose|kk: int| 0 <= kk < self@.len() && #[trigger] self@[kk].0 == i;
                assert(list@[kk].0 == i);
            }
        }
        let ghost start = list@;
        let mut r: usize = 0;
        while r < 10
            invariant
                n == self@.len(),
                2 <= n < 0x4000_0000,
                list@.len() == n,
                start == scaled(self@),
                r <= 10,
                list@ == mixed_rounds(start, r as nat),
                has_all(list@, n as int),
            decreases 10 - r,
        {
            list = self.get_mixed_list(&list);
            r += 1;
        }
        i64_to_string(Solver::get_result(&list))
    }
}

} // verus!
