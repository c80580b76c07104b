use vstd::prelude::*;
use crate::text::{decimal, non_empty, non_empty_lines, runs, trimmed_lines_of, u64_to_string, unsigned_numbers, unsigned_values, views};
use crate::ChallengeSolver;

verus! {

/// The cave: the cells of rock, as (depth, column), and the depth of the
/// lowest rock.
pub struct Solver {
    pub rocks: Vec<(i64, i64)>,
    max_height: i64,
}

pub open spec fn min(a: int, b: int) -> int {
    if a <= b {
        a
    } else {
        b
    }
}

pub open spec fn max(a: int, b: int) -> int {
    if a >= b {
        a
    } else {
        b
    }
}

/// The points of a line, as (column, depth): its numbers taken two by two.
pub open spec fn points(nums: Seq<usize>) -> Seq<(int, int)> {
    Seq::new(nums.len() / 2, |k: int| (nums[2 * k] as int, nums[2 * k + 1] as int))
}

/// The cells, as (depth, column), of the rock between points `a` and `b`:
/// the row at the smaller depth from the smaller to the larger column where
/// the columns differ, and the column at the smaller column from the smaller
/// to the larger depth where the depths differ.
pub open spec fn seg_cells(a: (int, int), b: (int, int)) -> Set<(int, int)> {
    let lx = min(a.0, b.0);
    let rx = max(a.0, b.0);
    let ly = min(a.1, b.1);
    let ry = max(a.1, b.1);
    Set::new(
        |c: (int, int)|
            (lx < rx && c.0 == ly && lx <= c.1 <= rx) || (ly < ry && c.1 == lx && ly <= c.0 <= ry),
    )
}

/// The cells of the rock that a path of points draws.
pub open spec fn path_cells(ps: Seq<(int, int)>) -> Set<(int, int)>
    decreases ps.len(),
{
    if ps.len() < 2 {
        Set::empty()
    } else {
        path_cells(ps.drop_last()).union(seg_cells(ps[ps.len() - 2], ps.last()))
    }
}

/// The depth of the deepest segment end of a path, or `h` if more.
pub open spec fn path_depth(ps: Seq<(int, int)>, h: int) -> int
    decreases ps.len(),
{
    if ps.len() < 2 {
        h
    } else {
        max(path_depth(ps.drop_last(), h), max(ps[ps.len() - 2].1, ps.last().1))
    }
}

pub open spec fn line_points(l: Seq<char>) -> Seq<(int, int)> {
    points(unsigned_values(runs(l, false)))
}

pub open spec fn cave_cells(ls: Seq<Seq<char>>) -> Set<(int, int)>
    decreases ls.len(),
{
    if ls.len() == 0 {
        Set::empty()
    } else {
        cave_cells(ls.drop_last()).union(path_cells(line_points(ls.last())))
    }
}

pub open spec fn cave_depth(ls: Seq<Seq<char>>) -> int
    decreases ls.len(),
{
    if ls.len() == 0 {
        0
    } else {
        path_depth(line_points(ls.last()), cave_depth(ls.drop_last()))
    }
}

/// Each line holds pairs of numbers under a bound.
pub open spec fn line_ok(l: Seq<char>) -> bool {
    let nums = unsigned_values(runs(l, false));
    nums.len() % 2 == 0 && forall|k: int| 0 <= k < nums.len() ==> #[trigger] nums[k] < 0x1000_0000
}

/// A grain of sand at `p` one step later: straight down, else down to the
/// left, else down to the right, where neither rock nor sand nor the floor
/// two below the lowest rock is; `None` where it rests.
pub open spec fn fall_step(p: (int, int), rocks: Set<(int, int)>, sand: Set<(int, int)>, h: int) -> Option<(int, int)> {
    let open = |q: (int, int)| !rocks.contains(q) && !sand.contains(q) && q.0 != h + 2;
    if open((p.0 + 1, p.1)) {
        Some((p.0 + 1, p.1))
    } else if open((p.0 + 1, p.1 - 1)) {
        Some((p.0 + 1, p.1 - 1))
    } else if open((p.0 + 1, p.1 + 1)) {
        Some((p.0 + 1, p.1 + 1))
    } else {
        None
    }
}

/// Where a grain at `p` comes to rest.
pub open spec fn rest(p: (int, int), rocks: Set<(int, int)>, sand: Set<(int, int)>, h: int) -> (int, int)
    decreases h + 2 - p.0 when p.0 <= h + 1
{
    match fall_step(p, rocks, sand, h) {
        Some(q) => rest(q, rocks, sand, h),
        None => p,
    }
}

pub open spec fn source() -> (int, int) {
    (0, 500)
}

/// The sand at rest after `n` grains.
pub open spec fn sand_after(rocks: Set<(int, int)>, h: int, n: nat) -> Set<(int, int)>
    decreases n,
{
    if n == 0 {
        Set::empty()
    } else {
        let s = sand_after(rocks, h, (n - 1) as nat);
        s.insert(rest(source(), rocks, s, h))
    }
}

pub open spec fn grain(rocks: Set<(int, int)>, h: int, n: nat) -> (int, int) {
    rest(source(), rocks, sand_after(rocks, h, (n - 1) as nat), h)
}

/// Grain `n` is the first to rest on the floor.
pub open spec fn first_on_floor(rocks: Set<(int, int)>, h: int, n: nat) -> bool {
    n >= 1 && grain(rocks, h, n).0 == h + 1 && forall|j: nat|
        1 <= j < n ==> (#[trigger] grain(rocks, h, j)).0 != h + 1
}

/// Grain `n` is the first to rest at the source.
pub open spec fn first_at_source(rocks: Set<(int, int)>, h: int, n: nat) -> bool {
    n >= 1 && grain(rocks, h, n) == source() && forall|j: nat|
        1 <= j < n ==> #[trigger] grain(rocks, h, j) != source()
}

pub open spec fn cells(v: Seq<(i64, i64)>) -> Seq<(int, int)> {
    v.map_values(|p: (i64, i64)| (p.0 as int, p.1 as int))
}

fn holds_cell(v: &Vec<(i64, i64)>, c: (i64, i64)) -> (r: bool)
    ensures
        r == cells(v@).contains((c.0 as int, c.1 as int)),
{
    let mut i: usize = 0;
    while i < v.len()
        invariant
            i <= v@.len(),
            forall|k: int| 0 <= k < i ==> cells(v@)[k] != (c.0 as int, c.1 as int),
        decreases v@.len() - i,
    {
        if v[i].0 == c.0 && v[i].1 == c.1 {
            assert(cells(v@)[i as int] == (c.0 as int, c.1 as int));
            return true;
        }
        i += 1;
    }
    false
}

fn add_cell(v: &mut Vec<(i64, i64)>, c: (i64, i64))
    requires
        cells(old(v)@).no_duplicates(),
    ensures
        cells(final(v)@).no_duplicates(),
        cells(final(v)@).to_set() == cells(old(v)@).to_set().insert((c.0 as int, c.1 as int)),
{
    let ghost before = cells(v@);
    let ghost x = (c.0 as int, c.1 as int);
    if !holds_cell(v, c) {
        v.push(c);
        assert(cells(v@) =~= before.push(x));
        assert forall|y: (int, int)| cells(v@).to_set().contains(y) <==> before.to_set().insert(x).contains(y) by {
            if cells(v@).contains(y) && y != x {
                let k = choose|k: int| 0 <= k < cells(v@).len() && cells(v@)[k] == y;
                assert(before[k] == y);
            }
            if before.contains(y) {
                let k = choose|k: int| 0 <= k < before.len() && before[k] == y;
                assert(cells(v@)[k] == y);
            }
            if y == x {
                assert(cells(v@)[before.len() as int] == y);
            }
        }
        assert(cells(v@).to_set() =~= before.to_set().insert(x));
    } else {
        assert(before.to_set().insert(x) =~= before.to_set());
    }
}

pub open spec fn small_pt(p: (i64, i64)) -> bool {
    0 <= p.0 < 0x1000_0000 && 0 <= p.1 < 0x1000_0000
}

/// Adds the cells of the rock between points `a` and `b`.
fn add_segment(v: &mut Vec<(i64, i64)>, a: (i64, i64), b: (i64, i64))
    requires
        cells(old(v)@).no_duplicates(),
        small_pt(a),
        small_pt(b),
    ensures
        cells(final(v)@).no_duplicates(),
        cells(final(v)@).to_set() == cells(old(v)@).to_set().union(
            seg_cells((a.0 as int, a.1 as int), (b.0 as int, b.1 as int)),
        ),
{
    let ghost s0 = cells(v@).to_set();
    let (lx, rx) = if a.0 <= b.0 { (a.0, b.0) } else { (b.0, a.0) };
    let (ly, ry) = if a.1 <= b.1 { (a.1, b.1) } else { (b.1, a.1) };
    let ghost horiz = Set::new(|c: (int, int)| lx < rx && c.0 == ly && lx <= c.1 <= rx);
    let ghost vert = Set::new(|c: (int, int)| ly < ry && c.1 == lx && ly <= c.0 <= ry);
    if lx < rx {
        let mut i: i64 = lx;
        while i <= rx
            invariant
                lx <= i <= rx + 1,
                rx < 0x1000_0000,
                cells(v@).no_duplicates(),
                cells(v@).to_set() == s0.union(
                    Set::new(|c: (int, int)| c.0 == ly && lx <= c.1 < i),
                ),
            decreases rx + 1 - i,
        {
            let ghost before = cells(v@).to_set();
            add_cell(v, (ly, i));
            assert(cells(v@).to_set() =~= s0.union(
                Set::new(|c: (int, int)| c.0 == ly && lx <= c.1 < i + 1),
            ));
            i += 1;
        }
        assert(cells(v@).to_set() =~= s0.union(horiz));
    } else {
        assert(cells(v@).to_set() =~= s0.union(horiz));
    }
    let ghost s1 = cells(v@).to_set();
    if ly < ry {
        let mut i: i64 = ly;
        while i <= ry
            invariant
                ly <= i <= ry + 1,
                ry < 0x1000_0000,
                cells(v@).no_duplicates(),
                cells(v@).to_set() == s1.union(
                    Set::new(|c: (int, int)| c.1 == lx && ly <= c.0 < i),
                ),
            decreases ry + 1 - i,
        {
            add_cell(v, (i, lx));
            assert(cells(v@).to_set() =~= s1.union(
                Set::new(|c: (int, int)| c.1 == lx && ly <= c.0 < i + 1),
            ));
            i += 1;
        }
        assert(cells(v@).to_set() =~= s1.union(vert));
    } else {
        assert(cells(v@).to_set() =~= s1.union(vert));
    }
    assert(cells(v@).to_set() =~= s0.union(
        seg_cells((a.0 as int, a.1 as int), (b.0 as int, b.1 as int)),
    ));
}

impl Solver {
    pub closed spec fn view(&self) -> (Set<(int, int)>, int) {
        (cells(self.rocks@).to_set(), self.max_height as int)
    }

    pub closed spec fn wf(&self) -> bool {
        cells(self.rocks@).no_duplicates() && 0 <= self.max_height < 0x1000_0000
    }

    /// Reads one path of rock per line, as `498,4 -> 498,6 -> 496,6`.
    pub fn new(input: String) -> (r: Solver)
        requires
            forall|ts: Seq<Seq<char>>|
                trimmed_lines_of(ts, input@) ==> forall|k: int|
                    0 <= k < non_empty(ts).len() ==> line_ok(#[trigger] non_empty(ts)[k]),
        ensures
            r.wf(),
            exists|ts: Seq<Seq<char>>|
                trimmed_lines_of(ts, input@) && r@ == (
                    cave_cells(non_empty(ts)),
                    cave_depth(non_empty(ts)),
                ),
    {
        let rows = non_empty_lines(input.as_str());
        Solver::from_rows(&rows)
    }

    /// Reads the input as `new` does, or gives `None` where some line is
    /// not a path of points.
    pub fn try_new(input: String) -> (r: Option<Solver>)
        ensures
            r is None ==> exists|ts: Seq<Seq<char>>|
                trimmed_lines_of(ts, input@) && exists|k: int|
                    0 <= k < non_empty(ts).len() && !(line_ok(#[trigger] non_empty(ts)[k])),
            r matches Some(d) ==> d.wf() && exists|ts: Seq<Seq<char>>|
                trimmed_lines_of(ts, input@) && (forall|k: int|
                    0 <= k < non_empty(ts).len() ==> line_ok(#[trigger] non_empty(ts)[k]))
                    && d@ == (cave_cells(non_empty(ts)), cave_depth(non_empty(ts))),
    {
        let rows = non_empty_lines(input.as_str());
        let ghost ts = choose|ts: Seq<Seq<char>>| trimmed_lines_of(ts, input@) && views(rows@) == non_empty(ts);
        let mut i: usize = 0;
        while i < rows.len()
            invariant
                i <= rows@.len(),
                trimmed_lines_of(ts, input@),
                views(rows@) == non_empty(ts),
                forall|k: int| 0 <= k < i ==> line_ok(#[trigger] views(rows@)[k]),
            decreases rows@.len() - i,
        {
            assert(views(rows@)[i as int] == rows@[i as int]@);
            if !line_fits(&rows[i]) {
                assert(exists|k: int| 0 <= k < non_empty(ts).len() && !(line_ok(#[trigger] non_empty(ts)[k])));
                return None;
            }
            i += 1;
        }
        Some(Solver::from_rows(&rows))
    }

    fn from_rows(rows: &Vec<Vec<char>>) -> (r: Solver)
        requires
            forall|k: int| 0 <= k < rows@.len() ==> line_ok(#[trigger] views(rows@)[k]),
        ensures
            r.wf(),
            r@ == (cave_cells(views(rows@)), cave_depth(views(rows@))),
    {
        let ghost rv = views(rows@);
        let mut rocks: Vec<(i64, i64)> = Vec::new();
        let mut h: i64 = 0;
        let mut i: usize = 0;
        assert(cells(rocks@).to_set() =~= Set::<(int, int)>::empty());
        assert(rv.subrange(0, 0) =~= Seq::<Seq<char>>::empty());
        while i < rows.len()
            invariant
                rv == views(rows@),
                forall|k: int| 0 <= k < rv.len() ==> line_ok(#[trigger] rv[k]),
                i <= rv.len(),
                cells(rocks@).no_duplicates(),
                0 <= h < 0x1000_0000,
                cells(rocks@).to_set() == cave_cells(rv.subrange(0, i as int)),
                h == cave_depth(rv.subrange(0, i as int)),
            decreases rv.len() - i,
        {
            assert(rv[i as int] == rows@[i as int]@);
            assert(line_ok(rv[i as int]));
            let nums = unsigned_numbers(&rows[i]);
            let ghost ps = points(nums@);
            let np = nums.len() / 2;
            let ghost s0 = cells(rocks@).to_set();
            let ghost h0 = h as int;
            let mut j: usize = if np == 0 { 0 } else { 1 };
            assert(ps.subrange(0, j as int).len() < 2);
            while j < np
                invariant
                    ps == points(nums@),
                    np == ps.len(),
                    nums@.len() % 2 == 0,
                    forall|k: int| 0 <= k < nums@.len() ==> #[trigger] nums@[k] < 0x1000_0000,
                    j <= np,
                    np > 0 ==> 1 <= j,
                    cells(rocks@).no_duplicates(),
                    0 <= h < 0x1000_0000,
                    cells(rocks@).to_set() == s0.union(path_cells(ps.subrange(0, j as int))),
                    h == path_depth(ps.subrange(0, j as int), h0),
                decreases np - j,
            {
                assert(np == nums@.len() / 2);
                assert(2 * j + 1 < nums@.len());
                let a = (nums[2 * j - 2] as i64, nums[2 * j - 1] as i64);
                let b = (nums[2 * j] as i64, nums[2 * j + 1] as i64);
                assert(nums@[2 * j - 2] < 0x1000_0000 && nums@[2 * j - 1] < 0x1000_0000);
                assert(nums@[2 * j + 0] < 0x1000_0000 && nums@[2 * j + 1] < 0x1000_0000);
                add_segment(&mut rocks, a, b);
                let ghost pre = ps.subrange(0, j + 1);
                assert(pre.drop_last() =~= ps.subrange(0, j as int));
                assert(pre[pre.len() - 2] == (a.0 as int, a.1 as int));
                assert(pre.last() == (b.0 as int, b.1 as int));
                let top = if a.1 >= b.1 { a.1 } else { b.1 };
                if top > h {
                    h = top;
                }
                assert(cells(rocks@).to_set() =~= s0.union(path_cells(ps.subrange(0, j + 1))));
                j += 1;
            }
            assert(ps.subrange(0, j as int) =~= ps) by {
                if np > 0 {
                    assert(j == np);
                }
            }
            assert(rv.subrange(0, i + 1).drop_last() =~= rv.subrange(0, i as int));
            assert(line_points(rv[i as int]) == ps);
            i += 1;
        }
        assert(rv.subrange(0, rows@.len() as int) =~= rv);
        Solver { rocks, max_height: h }
    }

    fn open_cell(&self, sand: &Vec<(i64, i64)>, q: (i64, i64)) -> (r: bool)
        requires
            self.wf(),
        ensures
            r == (!self@.0.contains((q.0 as int, q.1 as int)) && !cells(sand@).to_set().contains(
                (q.0 as int, q.1 as int),
            ) && q.0 != self.max_height + 2),
    {
        !holds_cell(&self.rocks, q) && !holds_cell(sand, q) && q.0 != self.max_height + 2
    }

    /// Drops one grain of sand from the source and leaves it where it rests.
    fn add_sand(&self, sand: &mut Vec<(i64, i64)>) -> (r: (i64, i64))
        requires
            self.wf(),
            cells(old(sand)@).no_duplicates(),
        ensures
            (r.0 as int, r.1 as int) == rest(
                source(),
                self@.0,
                cells(old(sand)@).to_set(),
                self@.1,
            ),
            cells(final(sand)@).no_duplicates(),
            cells(final(sand)@).to_set() == cells(old(sand)@).to_set().insert(
                (r.0 as int, r.1 as int),
            ),
    {
        let ghost r0 = self@.0;
        let ghost s0 = cells(sand@).to_set();
        let ghost h = self@.1;
        let mut p: (i64, i64) = (0, 500);
        loop
            invariant
                self.wf(),
                h == self.max_height,
                0 <= p.0 <= h + 1,
                500 - p.0 <= p.1 <= 500 + p.0,
                rest((p.0 as int, p.1 as int), r0, s0, h) == rest(source(), r0, s0, h),
                r0 == self@.0,
                s0 == cells(sand@).to_set(),
            ensures
                0 <= p.0 <= h + 1,
                500 - p.0 <= p.1 <= 500 + p.0,
                rest((p.0 as int, p.1 as int), r0, s0, h) == rest(source(), r0, s0, h),
                fall_step((p.0 as int, p.1 as int), r0, s0, h) is None,
                s0 == cells(sand@).to_set(),
            decreases h + 2 - p.0,
        {
            let ghost pp = (p.0 as int, p.1 as int);
            let down = (p.0 + 1, p.1);
            let left = (p.0 + 1, p.1 - 1);
            let right = (p.0 + 1, p.1 + 1);
            if self.open_cell(sand, down) {
                assert(fall_step(pp, r0, s0, h) == Some((down.0 as int, down.1 as int)));
                p = down;
            } else if self.open_cell(sand, left) {
                assert(fall_step(pp, r0, s0, h) == Some((left.0 as int, left.1 as int)));
                p = left;
            } else if self.open_cell(sand, right) {
                assert(fall_step(pp, r0, s0, h) == Some((right.0 as int, right.1 as int)));
                p = right;
            } else {
                assert(fall_step(pp, r0, s0, h) is None);
                break;
            }
        }
        assert(rest((p.0 as int, p.1 as int), r0, s0, h) == (p.0 as int, p.1 as int));
        add_cell(sand, p);
        p
    }
}

proof fn lemma_floor_unique(rocks: Set<(int, int)>, h: int, a: nat, b: nat)
    requires
        first_on_floor(rocks, h, a),
        first_on_floor(rocks, h, b),
    ensures
        a == b,
{
    if a < b {
        assert(grain(rocks, h, a).0 != h + 1);
    } else if b < a {
        assert(grain(rocks, h, b).0 != h + 1);
    }
}

proof fn lemma_source_unique(rocks: Set<(int, int)>, h: int, a: nat, b: nat)
    requires
        first_at_source(rocks, h, a),
        first_at_source(rocks, h, b),
    ensures
        a == b,
{
    if a < b {
        assert(grain(rocks, h, a) != source());
    } else if b < a {
        assert(grain(rocks, h, b) != source());
    }
}

pub open spec fn floor_count(rocks: Set<(int, int)>, h: int) -> nat {
    choose|n: nat| first_on_floor(rocks, h, n)
}

pub open spec fn source_count(rocks: Set<(int, int)>, h: int) -> nat {
    choose|n: nat| first_at_source(rocks, h, n)
}

impl ChallengeSolver for Solver {
    open spec fn solvable_a(&self) -> bool {
        &&& self.wf()
        &&& exists|n: nat| first_on_floor(self@.0, self@.1, n)
        &&& exists|n: nat| first_at_source(self@.0, self@.1, n)
        &&& floor_count(self@.0, self@.1) < 0x1_0000_0000
        &&& source_count(self@.0, self@.1) < 0x1_0000_0000
    }

    open spec fn solvable_b(&self) -> bool {
        &&& self.wf()
        &&& exists|n: nat| first_on_floor(self@.0, self@.1, n)
        &&& exists|n: nat| first_at_source(self@.0, self@.1, n)
        &&& floor_count(self@.0, self@.1) < 0x1_0000_0000
        &&& source_count(self@.0, self@.1) < 0x1_0000_0000
    }

    open spec fn answer_a(&self) -> Seq<char> {
        decimal(
            (sand_after(self@.0, self@.1, floor_count(self@.0, self@.1)).len() - 1) as nat,
        )
    }

    open spec fn answer_b(&self) -> Seq<char> {
        decimal(sand_after(self@.0, self@.1, source_count(self@.0, self@.1)).len())
    }

    /// How many grains rest before sand starts to flow into the abyss.
    fn get_part_a_result(&self) -> (r: String) {
        let ghost rk = self@.0;
        let ghost h = self@.1;
        let ghost nf = floor_count(rk, h);
        let mut sand: Vec<(i64, i64)> = Vec::new();
        let mut k: usize = 0;
        assert(cells(sand@).to_set() =~= sand_after(rk, h, 0));
        loop
            invariant_except_break
                k < nf,
                forall|j: nat| 1 <= j <= k ==> (#[trigger] grain(rk, h, j)).0 != h + 1,
            invariant
                self.solvable_a(),
                rk == self@.0,
                h == self@.1,
                first_on_floor(rk, h, nf),
                k <= nf,
                cells(sand@).no_duplicates(),
                cells(sand@).to_set() == sand_after(rk, h, k as nat),
                nf < 0x1_0000_0000,
            ensures
                k == nf,
                cells(sand@).no_duplicates(),
                cells(sand@).to_set() == sand_after(rk, h, k as nat),
            decreases nf - k,
        {
            let g = self.add_sand(&mut sand);
            k = k + 1;
            assert(grain(rk, h, k as nat) == (g.0 as int, g.1 as int));
            if g.0 == self.max_height + 1 {
                assert(first_on_floor(rk, h, k as nat));
                proof {
                    lemma_floor_unique(rk, h, k as nat, nf);
                }
                break;
            }
        }
        proof {
            cells(sand@).unique_seq_to_set();
        }
        assert(sand@.len() >= 1) by {
            assert(sand_after(rk, h, k as nat).contains(grain(rk, h, k as nat)));
            if sand@.len() == 0 {
                assert(cells(sand@).len() == 0);
            }
        }
        u64_to_string(sand.len() as u64 - 1)
    }

    /// How many grains rest once the source is covered.
    fn get_part_b_result(&self) -> (r: String) {
        let ghost rk = self@.0;
        let ghost h = self@.1;
        let ghost nf = source_count(rk, h);
        let mut sand: Vec<(i64, i64)> = Vec::new();
        let mut k: usize = 0;
        assert(cells(sand@).to_set() =~= sand_after(rk, h, 0));
        loop
            invariant_except_break
                k < nf,
                forall|j: nat| 1 <= j <= k ==> #[trigger] grain(rk, h, j) != source(),
            invariant
                self.solvable_b(),
                rk == self@.0,
                h == self@.1,
                first_at_source(rk, h, nf),
                nf < 0x1_0000_0000,
                k <= nf,
                cells(sand@).no_duplicates(),
                cells(sand@).to_set() == sand_after(rk, h, k as nat),
            ensures
                k == nf,
                cells(sand@).no_duplicates(),
                cells(sand@).to_set() == sand_after(rk, h, k as nat),
            decreases nf - k,
        {
            let g = self.add_sand(&mut sand);
            k = k + 1;
            assert(grain(rk, h, k as nat) == (g.0 as int, g.1 as int));
            if g.0 == 0 && g.1 == 500 {
                assert(first_at_source(rk, h, k as nat));
                proof {
                    lemma_source_unique(rk, h, k as nat, nf);
                }
                break;
            }
        }
        proof {
            cells(sand@).unique_seq_to_set();
        }
        u64_to_string(sand.len() as u64)
    }
}

fn line_fits(t: &Vec<char>) -> (r: bool)
    ensures
        r == line_ok(t@),
{
    let nums = unsigned_numbers(t);
    if nums.len() % 2 != 0 {
        return false;
    }
    let mut i: usize = 0;
    while i < nums.len()
        invariant
            i <= nums@.len(),
            nums@ == unsigned_values(runs(t@, false)),
            forall|k: int| 0 <= k < i ==> #[trigger] nums@[k] < 0x1000_0000,
        decreases nums@.len() - i,
    {
        if nums[i] >= 0x1000_0000 {
            assert(!(nums@[i as int] < 0x1000_0000));
            return false;
        }
        i += 1;
    }
    true
}

} // verus!
