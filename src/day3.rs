use vstd::prelude::*;
use crate::text::{decimal, sum_of, trimmed_lines, trimmed_lines_of, u64_to_string, views};
use crate::ChallengeSolver;

verus! {

/// The rucksacks, one line of item letters each.
pub struct Solver {
    input: Vec<Vec<char>>,
}

/// The non-empty lines.
pub open spec fn rucksacks_of(ts: Seq<Seq<char>>) -> Seq<Seq<char>>
    decreases ts.len(),
{
    if ts.len() == 0 {
        Seq::empty()
    } else if ts.last().len() == 0 {
        rucksacks_of(ts.drop_last())
    } else {
        rucksacks_of(ts.drop_last()).push(ts.last())
    }
}

/// `a` to `z` count 1 to 26, `A` to `Z` count 27 to 52, anything else 0.
pub open spec fn priority(c: char) -> int {
    if 'a' <= c && c <= 'z' {
        c as int - 'a' as int + 1
    } else if 'A' <= c && c <= 'Z' {
        c as int - 'A' as int + 27
    } else {
        0
    }
}

/// The first item of `a` that `b` and `c` hold too.
pub open spec fn first_shared(a: Seq<char>, b: Seq<char>, c: Seq<char>) -> Option<char>
    decreases a.len(),
{
    if a.len() == 0 {
        None
    } else if b.contains(a[0]) && c.contains(a[0]) {
        Some(a[0])
    } else {
        first_shared(a.drop_first(), b, c)
    }
}

pub open spec fn first_half(r: Seq<char>) -> Seq<char> {
    r.subrange(0, r.len() as int / 2)
}

pub open spec fn second_half(r: Seq<char>) -> Seq<char> {
    r.subrange(r.len() as int / 2, r.len() as int)
}

/// The priority of the item that both compartments of `r` hold.
pub open spec fn misplaced(r: Seq<char>) -> int {
    priority(first_shared(first_half(r), second_half(r), second_half(r))->0)
}

/// The priority of the badge of the `g`-th group of three.
pub open spec fn badge(rs: Seq<Seq<char>>, g: int) -> int {
    priority(first_shared(rs[3 * g], rs[3 * g + 1], rs[3 * g + 2])->0)
}

pub open spec fn misplaced_total(rs: Seq<Seq<char>>) -> int {
    sum_of(rs.map_values(|r: Seq<char>| misplaced(r)))
}

pub open spec fn badges(rs: Seq<Seq<char>>) -> Seq<int> {
    Seq::new(rs.len() / 3, |g: int| badge(rs, g))
}

fn holds(b: &Vec<char>, x: char) -> (r: bool)
    ensures
        r == b@.contains(x),
{
    let mut i: usize = 0;
    while i < b.len()
        invariant
            i <= b@.len(),
            forall|k: int| 0 <= k < i ==> b@[k] != x,
        decreases b@.len() - i,
    {
        if b[i] == x {
            return true;
        }
        i += 1;
    }
    false
}

fn shared_item(a: &Vec<char>, b: &Vec<char>, c: &Vec<char>) -> (r: Option<char>)
    ensures
        r == first_shared(a@, b@, c@),
{
    let mut i: usize = 0;
    assert(a@.subrange(0, a@.len() as int) =~= a@);
    while i < a.len()
        invariant
            i <= a@.len(),
            first_shared(a@, b@, c@) == first_shared(a@.subrange(i as int, a@.len() as int), b@, c@),
        decreases a@.len() - i,
    {
        let x = a[i];
        let ghost rest = a@.subrange(i as int, a@.len() as int);
        assert(rest[0] == x);
        assert(rest.drop_first() =~= a@.subrange(i + 1, a@.len() as int));
        if holds(b, x) && holds(c, x) {
            return Some(x);
        }
        i += 1;
    }
    assert(a@.subrange(i as int, a@.len() as int).len() == 0);
    None
}

fn item_priority(c: char) -> (r: u64)
    ensures
        r == priority(c),
{
    if 'a' <= c && c <= 'z' {
        (c as u32 - 'a' as u32 + 1) as u64
    } else if 'A' <= c && c <= 'Z' {
        (c as u32 - 'A' as u32 + 27) as u64
    } else {
        0
    }
}

fn copy_range(v: &Vec<char>, lo: usize, hi: usize) -> (r: Vec<char>)
    requires
        lo <= hi <= v@.len(),
    ensures
        r@ == v@.subrange(lo as int, hi as int),
{
    let mut r: Vec<char> = Vec::new();
    let mut i: usize = lo;
    while i < hi
        invariant
            lo <= i <= hi <= v@.len(),
            r@ == v@.subrange(lo as int, i as int),
        decreases hi - i,
    {
        r.push(v[i]);
        i += 1;
    }
    r
}

proof fn lemma_priority_bounds(c: char)
    ensures
        0 <= priority(c) <= 52,
{
}

impl Solver {
    pub closed spec fn view(&self) -> Seq<Seq<char>> {
        views(self.input@)
    }

    /// Reads one rucksack per line.
    pub fn new(input: String) -> (r: Solver)
        ensures
            exists|ts: Seq<Seq<char>>| trimmed_lines_of(ts, input@) && r@ == rucksacks_of(ts),
    {
        let lines = trimmed_lines(input.as_str());
        let ghost ts = views(lines@);
        let mut acc: Vec<Vec<char>> = Vec::new();
        let mut i: usize = 0;
        while i < lines.len()
            invariant
                i <= lines@.len(),
                ts == views(lines@),
                views(acc@) == rucksacks_of(ts.subrange(0, i as int)),
            decreases lines@.len() - i,
        {
            assert(ts.subrange(0, i + 1).drop_last() =~= ts.subrange(0, i as int));
            if lines[i].len() > 0 {
                let ghost before = views(acc@);
                assert(ts[i as int] == lines@[i as int]@);
                let item = copy_range(&lines[i], 0, lines[i].len());
                assert(item@ =~= ts[i as int]);
                acc.push(item);
                assert(views(acc@) =~= before.push(ts[i as int]));
            }
            i += 1;
        }
        assert(ts.subrange(0, lines@.len() as int) =~= ts);
        Solver { input: acc }
    }
}

impl ChallengeSolver for Solver {
    open spec fn solvable_a(&self) -> bool {
        &&& forall|k: int|
            0 <= k < self@.len() ==> first_shared(
                first_half(#[trigger] self@[k]),
                second_half(self@[k]),
                second_half(self@[k]),
            ) is Some
        &&& self@.len() % 3 == 0
        &&& forall|g: int| 0 <= g < self@.len() / 3 ==> first_shared(
                #[trigger] self@[3 * g],
                self@[3 * g + 1],
                self@[3 * g + 2],
            ) is Some
        &&& 52 * self@.len() <= u64::MAX
    }

    open spec fn solvable_b(&self) -> bool {
        &&& forall|k: int|
            0 <= k < self@.len() ==> first_shared(
                first_half(#[trigger] self@[k]),
                second_half(self@[k]),
                second_half(self@[k]),
            ) is Some
        &&& self@.len() % 3 == 0
        &&& forall|g: int| 0 <= g < self@.len() / 3 ==> first_shared(
                #[trigger] self@[3 * g],
                self@[3 * g + 1],
                self@[3 * g + 2],
            ) is Some
        &&& 52 * self@.len() <= u64::MAX
    }

    open spec fn answer_a(&self) -> Seq<char> {
        decimal(misplaced_total(self@) as nat)
    }

    open spec fn answer_b(&self) -> Seq<char> {
        decimal(sum_of(badges(self@)) as nat)
    }

    /// The total priority of the items that sit in both compartments.
    fn get_part_a_result(&self) -> (r: String) {
        let ghost terms = self@.map_values(|r: Seq<char>| misplaced(r));
        let mut acc: u64 = 0;
        let mut i: usize = 0;
        while i < self.input.len()
            invariant
                self.solvable_a(),
                terms == self@.map_values(|r: Seq<char>| misplaced(r)),
                i <= self@.len(),
                self@.len() == self.input@.len(),
                acc == sum_of(terms.subrange(0, i as int)),
                acc <= 52 * i,
            decreases self@.len() - i,
        {
            let r = &self.input[i];
            assert(r@ == self@[i as int]);
            let half = r.len() / 2;
            let a = copy_range(r, 0, half);
            let b = copy_range(r, half, r.len());
            let x = shared_item(&a, &b, &b);
            let p = match x {
                Some(c) => item_priority(c),
                None => 0,
            };
            proof {
                lemma_priority_bounds(x->0);
                assert(terms.subrange(0, i + 1).drop_last() =~= terms.subrange(0, i as int));
            }
            acc = acc + p;
            i += 1;
        }
        assert(terms.subrange(0, i as int) =~= terms);
        u64_to_string(acc)
    }

    /// The total priority of the badges of the groups of three.
    fn get_part_b_result(&self) -> (r: String) {
        let ghost terms = badges(self@);
        let mut acc: u64 = 0;
        let mut g: usize = 0;
        let mut j: usize = 0;
        let len = self.input.len();
        while len - j > 2
            invariant
                self.solvable_b(),
                terms == badges(self@),
                len == self@.len(),
                self@.len() == self.input@.len(),
                j == 3 * g,
                j <= len,
                g <= terms.len(),
                acc == sum_of(terms.subrange(0, g as int)),
                acc <= 52 * g,
            decreases len - j,
        {
            let x = shared_item(&self.input[j], &self.input[j + 1], &self.input[j + 2]);
            let p = match x {
                Some(c) => item_priority(c),
                None => 0,
            };
            proof {
                lemma_priority_bounds(x->0);
                assert(terms.subrange(0, g + 1).drop_last() =~= terms.subrange(0, g as int));
            }
            acc = acc + p;
            g += 1;
            j += 3;
        }
        assert(terms.subrange(0, g as int) =~= terms);
        u64_to_string(acc)
    }
}

} // verus!
