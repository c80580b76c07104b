use vstd::prelude::*;
use crate::plane::{moved, Boundary, Direction};
use crate::text::{chars_of, decimal, is_trim_of, trim, u64_to_string};
use crate::ChallengeSolver;

verus! {

/// The jets: each pushes left (`<`) or right (anything else).
pub struct Solver {
    input: Vec<Direction>,
}

/// A rock: its cells as (height, column), and their middle.
pub type Rock = (Seq<(int, int)>, (int, int));

/// The chamber: columns 0 to 6, heights from 1 up.
pub open spec fn chamber() -> Boundary {
    Boundary { low_x_boundary: 0, low_y_boundary: 1, high_x_boundary: 7, high_y_boundary: isize::MAX }
}

/// The cells of rock shape `v` with its lower left corner at `(y, x)`.
pub open spec fn shape(v: int, y: int, x: int) -> Seq<(int, int)> {
    if v == 0 {
        seq![(y, x), (y, x + 1), (y, x + 2), (y, x + 3)]
    } else if v == 1 {
        seq![(y, x + 1), (y + 2, x + 1), (y + 1, x), (y + 1, x + 1), (y + 1, x + 2)]
    } else if v == 2 {
        seq![(y, x), (y, x + 1), (y, x + 2), (y + 1, x + 2), (y + 2, x + 2)]
    } else if v == 3 {
        seq![(y, x), (y + 1, x), (y + 2, x), (y + 3, x)]
    } else {
        seq![(y, x), (y + 1, x), (y, x + 1), (y + 1, x + 1)]
    }
}

pub open spec fn sum_y(ps: Seq<(int, int)>) -> int
    decreases ps.len(),
{
    if ps.len() == 0 { 0 } else { sum_y(ps.drop_last()) + ps.last().0 }
}

pub open spec fn sum_x(ps: Seq<(int, int)>) -> int
    decreases ps.len(),
{
    if ps.len() == 0 { 0 } else { sum_x(ps.drop_last()) + ps.last().1 }
}

/// The middle of the cells: the mean height and column, rounded down.
pub open spec fn middle(ps: Seq<(int, int)>) -> (int, int) {
    (sum_y(ps) / ps.len() as int, sum_x(ps) / ps.len() as int)
}

pub open spec fn new_rock(v: int, y: int, x: int) -> Rock {
    (shape(v, y, x), middle(shape(v, y, x)))
}

pub open spec fn step_cell(p: (int, int), d: Direction) -> Option<(int, int)> {
    moved(chamber(), p.0, p.1, d)
}

/// Every cell can step towards `d` inside the chamber.
pub open spec fn fits(r: Rock, d: Direction) -> bool {
    forall|k: int| 0 <= k < r.0.len() ==> (#[trigger] step_cell(r.0[k], d)) is Some
}

pub open spec fn shifted(r: Rock, d: Direction) -> Rock {
    let ps = Seq::new(r.0.len(), |k: int| step_cell(r.0[k], d)->0);
    (ps, middle(ps))
}

/// Two rocks share a cell; only rocks whose middles are close are looked at.
pub open spec fn colliding(a: Rock, b: Rock) -> bool {
    let d = (if a.1.0 >= b.1.0 { a.1.0 - b.1.0 } else { b.1.0 - a.1.0 }) + (if a.1.1 >= b.1.1 { a.1.1 - b.1.1 } else { b.1.1 - a.1.1 });
    d < 5 && exists|i: int, j: int| 0 <= i < a.0.len() && 0 <= j < b.0.len() && a.0[i] == b.0[j]
}

/// The rock can be pushed towards `d`: it stays in the chamber and hits
/// none of the rocks kept.
pub open spec fn can_push(r: Rock, d: Direction, rocks: Seq<Rock>) -> bool {
    fits(r, d) && forall|k: int| 0 <= k < rocks.len() ==> !colliding(shifted(r, d), #[trigger] rocks[k])
}

pub open spec fn low(r: Rock) -> int {
    r.0[0].0
}

/// A rock falling from its spawn: a jet pushes it, then it drops a row,
/// until it cannot drop; the rock at rest and the jets used.
pub open spec fn fall(r: Rock, rocks: Seq<Rock>, jets: Seq<Direction>, w: nat) -> (Rock, nat)
    decreases low(r),
{
    let d = jets[(w % jets.len()) as int];
    let r1 = if can_push(r, d, rocks) { shifted(r, d) } else { r };
    if can_push(r1, Direction::Up, rocks) && low(shifted(r1, Direction::Up)) < low(r) && r.0.len() > 0 {
        fall(shifted(r1, Direction::Up), rocks, jets, w + 1)
    } else {
        (r1, w + 1)
    }
}

pub open spec fn highest_of(ps: Seq<(int, int)>) -> int
    decreases ps.len(),
{
    if ps.len() == 0 {
        0
    } else {
        let h = highest_of(ps.drop_last());
        if ps.last().0 > h { ps.last().0 } else { h }
    }
}

/// The tower after `n` rocks: the last thirty rocks (newest first), the
/// height, and the jets used.
pub open spec fn tower(jets: Seq<Direction>, n: nat) -> (Seq<Rock>, int, nat)
    decreases n,
{
    if n == 0 {
        (Seq::empty(), 0, 0)
    } else {
        let (rocks, h, w) = tower(jets, (n - 1) as nat);
        let (r, w2) = fall(new_rock(((n - 1) % 5) as int, h + 4, 2), rocks, jets, w);
        let h2 = if highest_of(r.0) > h { highest_of(r.0) } else { h };
        let kept = seq![r] + rocks;
        (if kept.len() > 30 { kept.subrange(0, 30) } else { kept }, h2, w2)
    }
}

pub open spec fn tower_height(jets: Seq<Direction>, n: nat) -> int {
    tower(jets, n).1
}

/// A rock: its cells as (height, column) and their middle.
pub struct RockCells {
    pub points: Vec<(i64, i64)>,
    pub middle: (i64, i64),
}

pub open spec fn pts(v: Seq<(i64, i64)>) -> Seq<(int, int)> {
    v.map_values(|p: (i64, i64)| (p.0 as int, p.1 as int))
}

pub open spec fn rock_view(r: RockCells) -> Rock {
    (pts(r.points@), (r.middle.0 as int, r.middle.1 as int))
}

pub open spec fn rocks_view(v: Seq<RockCells>) -> Seq<Rock> {
    v.map_values(|r: RockCells| rock_view(r))
}

/// Every cell lies in the chamber, below `top`.
pub open spec fn placed(ps: Seq<(int, int)>, top: int) -> bool {
    forall|k: int| 0 <= k < ps.len() ==> 1 <= (#[trigger] ps[k]).0 <= top && 0 <= ps[k].1 < 7
}

pub open spec fn jets_ok(jets: Seq<Direction>) -> bool {
    jets.len() >= 1 && forall|k: int| 0 <= k < jets.len() ==> (#[trigger] jets[k] == Direction::Left || jets[k] == Direction::Right)
}

fn middle_of(ps: &Vec<(i64, i64)>) -> (r: (i64, i64))
    requires
        1 <= ps@.len() <= 5,
        placed(pts(ps@), 0x1000_0000),
    ensures
        (r.0 as int, r.1 as int) == middle(pts(ps@)),
{
    let mut sy: i64 = 0;
    let mut sx: i64 = 0;
    let mut i: usize = 0;
    let ghost v = pts(ps@);
    assert(v.subrange(0, 0) =~= Seq::<(int, int)>::empty());
    while i < ps.len()
        invariant
            v == pts(ps@),
            1 <= ps@.len() <= 5,
            placed(v, 0x1000_0000),
            i <= ps@.len(),
            sy == sum_y(v.subrange(0, i as int)),
            sx == sum_x(v.subrange(0, i as int)),
            0 <= sy <= i * 0x1000_0000,
            0 <= sx <= i * 7,
        decreases ps@.len() - i,
    {
        assert(v.subrange(0, i + 1).drop_last() =~= v.subrange(0, i as int));
        assert(v[i as int] == (ps@[i as int].0 as int, ps@[i as int].1 as int));
        sy = sy + ps[i].0;
        sx = sx + ps[i].1;
        i += 1;
    }
    assert(v.subrange(0, i as int) =~= v);
    (sy / ps.len() as i64, sx / ps.len() as i64)
}

fn rock_new(v: usize, y: i64, x: i64) -> (r: RockCells)
    requires
        v < 5,
        1 <= y <= 0x0800_0000,
        x == 2,
    ensures
        rock_view(r) == new_rock(v as int, y as int, x as int),
        placed(rock_view(r).0, y + 3),
        1 <= r.points@.len() <= 5,
{
    let mut p: Vec<(i64, i64)> = Vec::new();
    if v == 0 {
        p.push((y, x)); p.push((y, x + 1)); p.push((y, x + 2)); p.push((y, x + 3));
    } else if v == 1 {
        p.push((y, x + 1)); p.push((y + 2, x + 1)); p.push((y + 1, x)); p.push((y + 1, x + 1)); p.push((y + 1, x + 2));
    } else if v == 2 {
        p.push((y, x)); p.push((y, x + 1)); p.push((y, x + 2)); p.push((y + 1, x + 2)); p.push((y + 2, x + 2));
    } else if v == 3 {
        p.push((y, x)); p.push((y + 1, x)); p.push((y + 2, x)); p.push((y + 3, x));
    } else {
        p.push((y, x)); p.push((y + 1, x)); p.push((y, x + 1)); p.push((y + 1, x + 1));
    }
    assert(pts(p@) =~= shape(v as int, y as int, x as int));
    let m = middle_of(&p);
    RockCells { points: p, middle: m }
}

fn step_point(p: (i64, i64), d: Direction) -> (r: Option<(i64, i64)>)
    requires
        1 <= p.0 <= 0x1000_0000,
        0 <= p.1 < 7,
    ensures
        match step_cell((p.0 as int, p.1 as int), d) {
            Some(q) => r == Some((q.0 as i64, q.1 as i64)) && q.0 == q.0 as i64 && q.1 == q.1 as i64,
            None => r is None,
        },
{
    match d {
        Direction::Still => Some(p),
        Direction::Down => if p.0 >= 0x7FFF_FFFF_FFFF_FFFE { None } else { Some((p.0 + 1, p.1)) },
        Direction::Right => if p.1 >= 6 || p.0 < 1 { None } else { Some((p.0, p.1 + 1)) },
        Direction::Left => if p.1 <= 0 || p.0 < 1 { None } else { Some((p.0, p.1 - 1)) },
        Direction::Up => if p.0 <= 1 { None } else { Some((p.0 - 1, p.1)) },
    }
}

fn collides(a: &RockCells, b: &RockCells) -> (r: bool)
    requires
        placed(rock_view(*a).0, 0x1000_0000),
        placed(rock_view(*b).0, 0x1000_0000),
        -0x1000_0000 <= a.middle.0 <= 0x1000_0000 && -0x1000_0000 <= a.middle.1 <= 0x1000_0000,
        -0x1000_0000 <= b.middle.0 <= 0x1000_0000 && -0x1000_0000 <= b.middle.1 <= 0x1000_0000,
    ensures
        r == colliding(rock_view(*a), rock_view(*b)),
{
    let dy = if a.middle.0 >= b.middle.0 { a.middle.0 - b.middle.0 } else { b.middle.0 - a.middle.0 };
    let dx = if a.middle.1 >= b.middle.1 { a.middle.1 - b.middle.1 } else { b.middle.1 - a.middle.1 };
    if dy + dx >= 5 {
        return false;
    }
    let ghost av = rock_view(*a).0;
    let ghost bv = rock_view(*b).0;
    let ghost close = dy + dx < 5;
    assert(close == ((if rock_view(*a).1.0 >= rock_view(*b).1.0 { rock_view(*a).1.0 - rock_view(*b).1.0 } else { rock_view(*b).1.0 - rock_view(*a).1.0 }) + (if rock_view(*a).1.1 >= rock_view(*b).1.1 { rock_view(*a).1.1 - rock_view(*b).1.1 } else { rock_view(*b).1.1 - rock_view(*a).1.1 }) < 5));
    let mut i: usize = 0;
    while i < a.points.len()
        invariant
            close,
            close == ((if rock_view(*a).1.0 >= rock_view(*b).1.0 { rock_view(*a).1.0 - rock_view(*b).1.0 } else { rock_view(*b).1.0 - rock_view(*a).1.0 }) + (if rock_view(*a).1.1 >= rock_view(*b).1.1 { rock_view(*a).1.1 - rock_view(*b).1.1 } else { rock_view(*b).1.1 - rock_view(*a).1.1 }) < 5),
            av == rock_view(*a).0,
            bv == rock_view(*b).0,
            av == pts(a.points@),
            bv == pts(b.points@),
            i <= av.len(),
            forall|x: int, y: int| 0 <= x < i && 0 <= y < bv.len() ==> av[x] != bv[y],
        decreases av.len() - i,
    {
        let mut j: usize = 0;
        while j < b.points.len()
            invariant
                close,
                close == ((if rock_view(*a).1.0 >= rock_view(*b).1.0 { rock_view(*a).1.0 - rock_view(*b).1.0 } else { rock_view(*b).1.0 - rock_view(*a).1.0 }) + (if rock_view(*a).1.1 >= rock_view(*b).1.1 { rock_view(*a).1.1 - rock_view(*b).1.1 } else { rock_view(*b).1.1 - rock_view(*a).1.1 }) < 5),
                av == rock_view(*a).0,
                bv == rock_view(*b).0,
                av == pts(a.points@),
                bv == pts(b.points@),
                i < av.len(),
                j <= bv.len(),
                forall|x: int, y: int| 0 <= x < i && 0 <= y < bv.len() ==> av[x] != bv[y],
                forall|y: int| 0 <= y < j ==> av[i as int] != bv[y],
            decreases bv.len() - j,
        {
            assert(av[i as int] == (a.points@[i as int].0 as int, a.points@[i as int].1 as int));
            assert(bv[j as int] == (b.points@[j as int].0 as int, b.points@[j as int].1 as int));
            if a.points[i].0 == b.points[j].0 && a.points[i].1 == b.points[j].1 {
                assert(av[i as int] == bv[j as int]);
                return true;
            }
            j += 1;
        }
        i += 1;
    }
    false
}

pub open spec fn rock_ok(r: RockCells, top: int) -> bool {
    &&& 1 <= r.points@.len() <= 5
    &&& placed(rock_view(r).0, top)
    &&& rock_view(r).1 == middle(rock_view(r).0)
    &&& 1 <= r.middle.0 <= top && 0 <= r.middle.1 < 7
}

proof fn lemma_middle_bounds(ps: Seq<(int, int)>, top: int)
    requires
        1 <= ps.len() <= 5,
        placed(ps, top),
    ensures
        1 <= middle(ps).0 <= top,
        0 <= middle(ps).1 < 7,
{
    assert(ps.len() as int * 1 <= sum_y(ps) <= ps.len() as int * top && 0 <= sum_x(ps) <= ps.len() as int * 6) by {
        lemma_sums(ps, top);
    }
    let n = ps.len() as int;
    assert(1 <= sum_y(ps) / n <= top) by (nonlinear_arith)
        requires
            n * 1 <= sum_y(ps) <= n * top,
            1 <= n,
    ;
    assert(0 <= sum_x(ps) / n < 7) by (nonlinear_arith)
        requires
            0 <= sum_x(ps) <= n * 6,
            1 <= n,
    ;
}

proof fn lemma_sums(ps: Seq<(int, int)>, top: int)
    requires
        placed(ps, top),
    ensures
        ps.len() as int <= sum_y(ps) <= ps.len() as int * top,
        0 <= sum_x(ps) <= ps.len() as int * 6,
    decreases ps.len(),
{
    if ps.len() > 0 {
        assert(placed(ps.drop_last(), top)) by {
            assert forall|k: int| 0 <= k < ps.len() - 1 implies 1 <= (#[trigger] ps.drop_last()[k]).0 <= top && 0 <= ps.drop_last()[k].1 < 7 by {
                assert(ps.drop_last()[k] == ps[k]);
            }
        }
        lemma_sums(ps.drop_last(), top);
        assert(1 <= ps.last().0 <= top && 0 <= ps.last().1 < 7);
        assert((ps.len() - 1) * top + top == ps.len() as int * top) by (nonlinear_arith);
    }
}

/// The rock one step towards `d`.
fn shift(r: &RockCells, d: Direction, top: i64) -> (q: RockCells)
    requires
        rock_ok(*r, top as int),
        1 <= top <= 0x0800_0000,
        fits(rock_view(*r), d),
        d == Direction::Left || d == Direction::Right || d == Direction::Up,
    ensures
        rock_view(q) == shifted(rock_view(*r), d),
        rock_ok(q, top as int),
        q.points@.len() == r.points@.len(),
{
    let ghost rv = rock_view(*r);
    let mut p: Vec<(i64, i64)> = Vec::new();
    let mut i: usize = 0;
    while i < r.points.len()
        invariant
            rv == rock_view(*r),
            rock_ok(*r, top as int),
            1 <= top <= 0x0800_0000,
            fits(rv, d),
            d == Direction::Left || d == Direction::Right || d == Direction::Up,
            i <= rv.0.len(),
            pts(p@) == Seq::new(rv.0.len(), |k: int| step_cell(rv.0[k], d)->0).subrange(0, i as int),
            placed(pts(p@), top as int),
        decreases rv.0.len() - i,
    {
        assert(rv.0[i as int] == (r.points@[i as int].0 as int, r.points@[i as int].1 as int));
        assert(step_cell(rv.0[i as int], d) is Some);
        let q = step_point(r.points[i], d).unwrap();
        let ghost before = pts(p@);
        p.push(q);
        i += 1;
        assert(pts(p@) =~= before.push((q.0 as int, q.1 as int)));
        assert(pts(p@) =~= Seq::new(rv.0.len(), |k: int| step_cell(rv.0[k], d)->0).subrange(0, i as int));
    }
    assert(Seq::new(rv.0.len(), |k: int| step_cell(rv.0[k], d)->0).subrange(0, i as int) =~= Seq::new(rv.0.len(), |k: int| step_cell(rv.0[k], d)->0));
    let m = middle_of(&p);
    proof {
        lemma_middle_bounds(pts(p@), top as int);
    }
    RockCells { points: p, middle: m }
}

fn can_push_exec(r: &RockCells, d: Direction, rocks: &Vec<RockCells>, top: i64) -> (b: bool)
    requires
        rock_ok(*r, top as int),
        1 <= top <= 0x0800_0000,
        d == Direction::Left || d == Direction::Right || d == Direction::Up,
        forall|k: int| 0 <= k < rocks@.len() ==> rock_ok(#[trigger] rocks@[k], top as int),
    ensures
        b == can_push(rock_view(*r), d, rocks_view(rocks@)),
{
    let ghost rv = rock_view(*r);
    let mut i: usize = 0;
    while i < r.points.len()
        invariant
            rv == rock_view(*r),
            rock_ok(*r, top as int),
            1 <= top <= 0x0800_0000,
            i <= rv.0.len(),
            forall|k: int| 0 <= k < i ==> (#[trigger] step_cell(rv.0[k], d)) is Some,
        decreases rv.0.len() - i,
    {
        assert(rv.0[i as int] == (r.points@[i as int].0 as int, r.points@[i as int].1 as int));
        if step_point(r.points[i], d).is_none() {
            return false;
        }
        i += 1;
    }
    let q = shift(r, d, top);
    let mut k: usize = 0;
    while k < rocks.len()
        invariant
            rv == rock_view(*r),
            fits(rv, d),
            rock_view(q) == shifted(rv, d),
            rock_ok(q, top as int),
            1 <= top <= 0x0800_0000,
            forall|j: int| 0 <= j < rocks@.len() ==> rock_ok(#[trigger] rocks@[j], top as int),
            k <= rocks@.len(),
            forall|j: int| 0 <= j < k ==> !colliding(shifted(rv, d), #[trigger] rocks_view(rocks@)[j]),
        decreases rocks@.len() - k,
    {
        assert(rocks_view(rocks@)[k as int] == rock_view(rocks@[k as int]));
        assert(rock_ok(rocks@[k as int], top as int));
        if collides(&q, &rocks[k]) {
            return false;
        }
        k += 1;
    }
    true
}

proof fn lemma_placed_weaken(r: RockCells, a: int, b: int)
    requires
        rock_ok(r, a),
        a <= b,
    ensures
        rock_ok(r, b),
{
}

pub open spec fn kept_ok(rocks: Seq<RockCells>, top: int) -> bool {
    forall|k: int| 0 <= k < rocks.len() ==> rock_ok(#[trigger] rocks[k], top)
}

proof fn lemma_kept_weaken(rocks: Seq<RockCells>, a: int, b: int)
    requires
        kept_ok(rocks, a),
        a <= b,
    ensures
        kept_ok(rocks, b),
{
    assert forall|k: int| 0 <= k < rocks.len() implies rock_ok(#[trigger] rocks[k], b) by {
        lemma_placed_weaken(rocks[k], a, b);
    }
}

fn highest(r: &RockCells, top: i64) -> (h: i64)
    requires
        1 <= r.points@.len() <= 5,
        1 <= top <= 0x0800_0000,
        placed(rock_view(*r).0, top as int),
    ensures
        h == highest_of(rock_view(*r).0),
        1 <= h <= top,
{
    let ghost v = rock_view(*r).0;
    let mut h: i64 = 0;
    let mut i: usize = 0;
    assert(v.subrange(0, 0) =~= Seq::<(int, int)>::empty());
    while i < r.points.len()
        invariant
            v == pts(r.points@),
            1 <= v.len() <= 5,
            placed(v, top as int),
            1 <= top <= 0x0800_0000,
            i <= v.len(),
            h == highest_of(v.subrange(0, i as int)),
            0 <= h <= top,
            i > 0 ==> h >= 1,
        decreases v.len() - i,
    {
        assert(v.subrange(0, i + 1).drop_last() =~= v.subrange(0, i as int));
        assert(v[i as int] == (r.points@[i as int].0 as int, r.points@[i as int].1 as int));
        if r.points[i].0 > h {
            h = r.points[i].0;
        }
        i += 1;
    }
    assert(v.subrange(0, i as int) =~= v);
    h
}

proof fn lemma_highest_bounds(v: Seq<(int, int)>)
    ensures
        forall|k: int| 0 <= k < v.len() ==> (#[trigger] v[k]).0 <= highest_of(v),
    decreases v.len(),
{
    if v.len() > 0 {
        lemma_highest_bounds(v.drop_last());
        assert forall|k: int| 0 <= k < v.len() implies (#[trigger] v[k]).0 <= highest_of(v) by {
            if k < v.len() - 1 {
                assert(v.drop_last()[k] == v[k]);
            }
        }
    }
}

impl Solver {
    pub closed spec fn view(&self) -> Seq<Direction> {
        self.input@
    }

    /// Reads the jets: `<` pushes left, anything else right.
    pub fn new(input: String) -> (r: Solver)
        ensures
            exists|t: Seq<char>| is_trim_of(t, input@) && r@ == t.map_values(|c: char| if c == '<' { Direction::Left } else { Direction::Right }),
    {
        let cs = chars_of(input.as_str());
        let t = trim(&cs);
        let mut v: Vec<Direction> = Vec::new();
        let mut i: usize = 0;
        while i < t.len()
            invariant
                i <= t@.len(),
                v@ == t@.map_values(|c: char| if c == '<' { Direction::Left } else { Direction::Right }).subrange(0, i as int),
            decreases t@.len() - i,
        {
            v.push(if t[i] == '<' { Direction::Left } else { Direction::Right });
            i += 1;
            assert(v@ =~= t@.map_values(|c: char| if c == '<' { Direction::Left } else { Direction::Right }).subrange(0, i as int));
        }
        assert(v@ =~= t@.map_values(|c: char| if c == '<' { Direction::Left } else { Direction::Right }));
        Solver { input: v }
    }

    /// The height of the tower after `num_of_rocks` rocks.
    fn run_simulation(&self, num_of_rocks: usize) -> (r: u64)
        requires
            jets_ok(self@),
            num_of_rocks <= 0x0100_0000,
        ensures
            r == tower_height(self@, num_of_rocks as nat),
            r <= 7 * num_of_rocks,
    {
        let n = self.input.len();
        let mut rocks: Vec<RockCells> = Vec::new();
        let mut h: i64 = 0;
        let mut w: u64 = 0;
        let mut i: usize = 0;
        while i < num_of_rocks
            invariant
                jets_ok(self@),
                n == self@.len(),
                num_of_rocks <= 0x0100_0000,
                i <= num_of_rocks,
                (rocks_view(rocks@), h as int, w as nat) == tower(self@, i as nat),
                rocks@.len() <= 30,
                0 <= h <= 7 * i,
                w <= i * 0x1000_0000,
                kept_ok(rocks@, h as int),
            decreases num_of_rocks - i,
        {
            let top = h + 7;
            proof {
                lemma_kept_weaken(rocks@, h as int, top as int);
            }
            let mut cur = rock_new(i % 5, h + 4, 2);
            proof {
                lemma_middle_bounds(rock_view(cur).0, top as int);
            }
            assert(self.input@ == self@);
            let ghost r0 = rock_view(cur);
            let ghost w0 = w as nat;
            let ghost rv = rocks_view(rocks@);
            loop
                invariant_except_break
                    fall(r0, rv, self@, w0) == fall(rock_view(cur), rv, self@, w as nat),
                    w0 <= w <= w0 + (0x0800_0000 - low(rock_view(cur))),
                invariant
                    jets_ok(self@),
                    n == self@.len(),
                    1 <= top <= 0x0800_0000,
                    w0 <= 0x0100_0000 * 0x1000_0000,
                    rv == rocks_view(rocks@),
                    kept_ok(rocks@, top as int),
                    kept_ok(rocks@, h as int),
                    0 <= h <= top,
                    rock_ok(cur, top as int),
                    1 <= low(rock_view(cur)) <= top,
                ensures
                    fall(r0, rv, self@, w0) == (rock_view(cur), w as nat),
                    rock_ok(cur, top as int),
                    w <= w0 + 0x0800_0000,
                decreases low(rock_view(cur)),
            {
                let ix = (w % n as u64) as usize;
                assert(ix < n && ix as nat == w as nat % self@.len());
                let d = self.input[ix];
                assert(d == Direction::Left || d == Direction::Right);
                let ghost c0 = rock_view(cur);
                assert(c0.0[0] == (cur.points@[0].0 as int, cur.points@[0].1 as int));
                if can_push_exec(&cur, d, &rocks, top) {
                    cur = shift(&cur, d, top);
                }
                let ghost c1 = rock_view(cur);
                assert(low(c1) == low(c0));
                assert(w < w0 + 0x0800_0000 + 1);
                w = w + 1;
                if can_push_exec(&cur, Direction::Up, &rocks, top) {
                    let nxt = shift(&cur, Direction::Up, top);
                    assert(low(rock_view(nxt)) == low(c1) - 1);
                    cur = nxt;
                } else {
                    break;
                }
            }
            let hr = highest(&cur, top);
            let h2 = if hr > h { hr } else { h };
            let ghost before = rocks@;
            rocks.insert(0, cur);
            proof {
                lemma_placed_weaken(rocks@[0], top as int, top as int);
            }
            let ghost ins = rocks@;
            assert(ins =~= seq![ins[0]] + before);
            if rocks.len() > 30 {
                rocks.pop();
                assert(rocks@ =~= ins.subrange(0, 30));
            }
            proof {
                let kept = seq![rock_view(ins[0])] + rv;
                assert(rocks_view(ins) =~= kept);
                assert(rocks_view(rocks@) =~= if kept.len() > 30 { kept.subrange(0, 30) } else { kept });
                assert forall|k: int| 0 <= k < rocks@.len() implies rock_ok(#[trigger] rocks@[k], h2 as int) by {
                    if k == 0 {
                        lemma_highest_bounds(rock_view(ins[0]).0);
                        lemma_middle_bounds(rock_view(ins[0]).0, h2 as int);
                    } else {
                        assert(rocks@[k] == before[k - 1]);
                        assert(rock_ok(before[k - 1], h as int));
                        lemma_placed_weaken(before[k - 1], h as int, h2 as int);
                    }
                }
            }
            h = h2;
            i += 1;
        }
        h as u64
    }
}

impl ChallengeSolver for Solver {
    open spec fn solvable_a(&self) -> bool {
        jets_ok(self@)
    }

    open spec fn solvable_b(&self) -> bool {
        &&& jets_ok(self@)
        &&& 10 <= self@.len() <= 0x10_0000
        &&& cycle_search(self@, first_candidates(self@.len() as int), self@.len() as int / 2) is Some
    }

    open spec fn answer_a(&self) -> Seq<char> {
        decimal(tower_height(self@, 2022) as nat)
    }

    open spec fn answer_b(&self) -> Seq<char> {
        decimal(extrapolated(self@) as nat)
    }

    /// The height of the tower after 2022 rocks.
    fn get_part_a_result(&self) -> (r: String) {
        u64_to_string(self.run_simulation(2022))
    }

    /// The height of the tower after a trillion rocks, from a repeating
    /// cycle of heights.
    fn get_part_b_result(&self) -> (r: String) {
        let len = self.input.len();
        let mut cs: Vec<u64> = Vec::new();
        let mut c: u64 = 5;
        while c < len as u64
            invariant
                10 <= len <= 0x10_0000,
                5 <= c < len + 5,
                c % 5 == 0,
                cs@ == first_candidates(len as int).subrange(0, (c / 5 - 1) as int),
            decreases len + 5 - c,
        {
            cs.push(c);
            c += 5;
            assert(cs@ =~= first_candidates(len as int).subrange(0, (c / 5 - 1) as int));
        }
        assert(c / 5 - 1 == (len - 1) / 5) by (nonlinear_arith)
            requires
                c % 5 == 0,
                len <= c < len + 5,
                len >= 10,
        ;
        assert(cs@ =~= first_candidates(len as int));
        let mut i: usize = len / 2;
        loop
            invariant_except_break
                i < len,
                cycle_search(self@, first_candidates(len as int), len as int / 2) == cycle_search(self@, cs@, i as int),
            invariant
                jets_ok(self@),
                len == self@.len(),
                10 <= len <= 0x10_0000,
                cycle_search(self@, first_candidates(len as int), len as int / 2) is Some,
                ascending(cs@),
                forall|k: int| 0 <= k < cs@.len() ==> 5 <= (#[trigger] cs@[k]) < len,
            ensures
                cycle_search(self@, first_candidates(len as int), len as int / 2) == Some(cs@),
                cs@.len() >= 1,
            decreases len - i,
        {
            let off = self.run_simulation(i);
            let ghost before = cs@;
            let mut kept: Vec<u64> = Vec::new();
            let mut k: usize = 0;
            while k < cs.len()
                invariant
                    jets_ok(self@),
                    len == self@.len(),
                    10 <= len <= 0x10_0000,
                    i < len,
                    before == cs@,
                    off == tower_height(self@, i as nat),
                    forall|j: int| 0 <= j < cs@.len() ==> 5 <= (#[trigger] cs@[j]) < len,
                    k <= cs@.len(),
                    kept@ == filtered(self@, cs@.subrange(0, k as int), i as int),
                decreases cs@.len() - k,
            {
                let cand = cs[k] as usize;
                let r1 = self.run_simulation(i + cand);
                let r2 = self.run_simulation(i + 2 * cand);
                assert(cs@.subrange(0, k + 1).drop_last() =~= cs@.subrange(0, k as int));
                if r2 as i128 - r1 as i128 == r1 as i128 - off as i128 {
                    kept.push(cs[k]);
                }
                k += 1;
            }
            assert(cs@.subrange(0, k as int) =~= cs@);
            proof {
                lemma_filtered_ascending(self@, cs@, i as int);
            }
            cs = kept;
            if cs.len() == 0 {
                assert(false);
            }
            let lowest = cs[0];
            let mut multiples = true;
            let mut j: usize = 0;
            while j < cs.len()
                invariant
                    cs@.len() >= 1,
                    lowest == cs@[0],
                    lowest >= 5,
                    j <= cs@.len(),
                    multiples == forall|q: int| 0 <= q < j ==> #[trigger] cs@[q] % cs@[0] == 0,
                decreases cs@.len() - j,
            {
                if cs[j] % lowest != 0 {
                    multiples = false;
                }
                j += 1;
            }
            if multiples || cs.len() == 1 {
                break;
            }
            i += 1;
            if i >= len {
                assert(false);
            }
        }
        let cycle = cs[0] as usize;
        let half = len / 2;
        let before = self.run_simulation(half);
        let after = self.run_simulation(half + cycle);
        let total: u64 = 1_000_000_000_000;
        let rest = total - half as u64;
        let rem = rest % cycle as u64;
        let cycles = (rest - rem) / cycle as u64;
        let tail = self.run_simulation(half + rem as usize);
        proof {
            lemma_height_mono(self@, half as nat, (half + cycle) as nat);
        }
        let diff = after - before;
        assert(cycle < len && half <= len / 2);
        assert(cycles <= 1_000_000_000_000) by (nonlinear_arith)
            requires
                cycles == (rest - rem) / (cycle as int),
                0 <= rem <= rest <= 1_000_000_000_000,
                cycle >= 1,
        ;
        assert(diff * cycles <= 0x18_0000 * 7 * 1_000_000_000_000) by (nonlinear_arith)
            requires
                diff <= 7 * (half + cycle),
                half + cycle <= 0x18_0000,
                cycles <= 1_000_000_000_000,
        ;
        u64_to_string(diff * cycles + tail)
    }
}

pub open spec fn first_candidates(len: int) -> Seq<u64> {
    Seq::new((if len > 5 { (len - 1) / 5 } else { 0 }) as nat, |k: int| (5 * (k + 1)) as u64)
}

pub open spec fn ascending(cs: Seq<u64>) -> bool {
    forall|a: int, b: int| 0 <= a < b < cs.len() ==> cs[a] < cs[b]
}

/// Candidate cycle `c` fits at rock `i`: the tower grows as much from
/// `i + c` to `i + 2c` as from `i` to `i + c`.
pub open spec fn repeats(jets: Seq<Direction>, i: int, c: int) -> bool {
    tower_height(jets, (i + 2 * c) as nat) - tower_height(jets, (i + c) as nat) == tower_height(jets, (i + c) as nat)
        - tower_height(jets, i as nat)
}

pub open spec fn filtered(jets: Seq<Direction>, cs: Seq<u64>, i: int) -> Seq<u64>
    decreases cs.len(),
{
    if cs.len() == 0 {
        Seq::empty()
    } else {
        let f = filtered(jets, cs.drop_last(), i);
        if repeats(jets, i, cs.last() as int) { f.push(cs.last()) } else { f }
    }
}

/// The candidates left once each is a multiple of the least, or one is
/// left, trying rocks `i` onwards; `None` where none is left or the rocks
/// run out.
pub open spec fn cycle_search(jets: Seq<Direction>, cs: Seq<u64>, i: int) -> Option<Seq<u64>>
    decreases jets.len() - i,
{
    if i >= jets.len() || i < 0 {
        None
    } else {
        let f = filtered(jets, cs, i);
        if f.len() == 0 {
            None
        } else if f.len() == 1 || forall|q: int| 0 <= q < f.len() ==> #[trigger] f[q] % f[0] == 0 {
            Some(f)
        } else {
            cycle_search(jets, f, i + 1)
        }
    }
}

/// The height after a trillion rocks: from rock `len / 2` on, the height
/// grows by the same amount every cycle of the least candidate left.
pub open spec fn extrapolated(jets: Seq<Direction>) -> int {
    match cycle_search(jets, first_candidates(jets.len() as int), jets.len() as int / 2) {
        Some(cs) => {
            let c = cs[0] as int;
            let half = jets.len() as int / 2;
            let rest = 1_000_000_000_000 - half;
            let rem = rest % c;
            (tower_height(jets, (half + c) as nat) - tower_height(jets, half as nat)) * ((rest - rem) / c)
                + tower_height(jets, (half + rem) as nat)
        },
        None => 0,
    }
}

proof fn lemma_filtered_ascending(jets: Seq<Direction>, cs: Seq<u64>, i: int)
    requires
        ascending(cs),
    ensures
        ascending(filtered(jets, cs, i)),
        forall|k: int| 0 <= k < filtered(jets, cs, i).len() ==> cs.contains(#[trigger] filtered(jets, cs, i)[k]),
    decreases cs.len(),
{
    if cs.len() > 0 {
        let d = cs.drop_last();
        assert(ascending(d));
        lemma_filtered_ascending(jets, d, i);
        let f = filtered(jets, d, i);
        assert forall|k: int| 0 <= k < f.len() implies f[k] < cs.last() by {
            assert(d.contains(f[k]));
            let j = choose|j: int| 0 <= j < d.len() && d[j] == f[k];
            assert(cs[j] < cs[cs.len() - 1]);
        }
        assert forall|k: int| 0 <= k < filtered(jets, cs, i).len() implies cs.contains(#[trigger] filtered(jets, cs, i)[k]) by {
            if k < f.len() {
                let j = choose|j: int| 0 <= j < d.len() && d[j] == f[k];
                assert(cs[j] == f[k]);
            } else {
                assert(cs[cs.len() - 1] == cs.last());
            }
        }
    }
}

proof fn lemma_height_mono(jets: Seq<Direction>, a: nat, b: nat)
    requires
        a <= b,
    ensures
        tower_height(jets, a) <= tower_height(jets, b),
        0 <= tower_height(jets, a),
    decreases b,
{
    if a < b {
        lemma_height_mono(jets, a, (b - 1) as nat);
    } else if a > 0 {
        lemma_height_mono(jets, 0, (a - 1) as nat);
    }
}

} // verus!
