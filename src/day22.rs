use vstd::prelude::*;
use crate::plane::{moved, rotated, Boundary, Direction};
use crate::text::{all_digits, decimal, decimal_value, is_lines_of, lines_of, parse_u64, u64_to_string, views};
use crate::ChallengeSolver;

verus! {

/// The faces of the cube, as numbers: back 0, top 1, left 2, bottom 3,
/// front 4, right 5.
pub open spec fn back() -> u8 { 0 }
pub open spec fn top() -> u8 { 1 }
pub open spec fn left() -> u8 { 2 }
pub open spec fn bottom() -> u8 { 3 }
pub open spec fn front() -> u8 { 4 }
pub open spec fn right() -> u8 { 5 }

/// A place on a face of the cube and the way the walker faces.
#[derive(Clone, Copy)]
pub struct PositionData {
    pub pos: (usize, usize),
    pub dir: Direction,
    pub face: u8,
}

/// One step on the cube with faces of side `fs`: inside the face, a step on
/// it; over an edge, onto the face that the folding puts there.
pub open spec fn cube_step(fs: int, p: PositionData) -> PositionData {
    let fb = Boundary { low_x_boundary: 0, low_y_boundary: 0, high_x_boundary: fs as isize, high_y_boundary: fs as isize };
    match moved(fb, p.pos.0 as int, p.pos.1 as int, p.dir) {
        Some(q) => PositionData { pos: (q.0 as usize, q.1 as usize), ..p },
        None => {
            let m = fs - 1;
            let y = p.pos.0 as int;
            let x = p.pos.1 as int;
            let (ny, nx, d, f): (int, int, Direction, u8) = if p.face == bottom() {
                match p.dir {
                    Direction::Down => (m, m - x, Direction::Up, front()),
                    Direction::Left => (m, m - y, Direction::Up, left()),
                    Direction::Right => (m, y, Direction::Up, right()),
                    _ => (m, x, Direction::Up, back()),
                }
            } else if p.face == back() {
                match p.dir {
                    Direction::Down => (0, x, Direction::Down, bottom()),
                    Direction::Left => (y, m, Direction::Left, left()),
                    Direction::Right => (y, 0, Direction::Right, right()),
                    _ => (m, x, Direction::Up, top()),
                }
            } else if p.face == right() {
                match p.dir {
                    Direction::Down => (x, m, Direction::Left, bottom()),
                    Direction::Left => (y, m, Direction::Left, back()),
                    Direction::Right => (y, 0, Direction::Right, front()),
                    _ => (m - x, m, Direction::Left, top()),
                }
            } else if p.face == front() {
                match p.dir {
                    Direction::Down => (m, m - x, Direction::Up, bottom()),
                    Direction::Left => (y, m, Direction::Left, right()),
                    Direction::Right => (y, 0, Direction::Right, left()),
                    _ => (0, m - x, Direction::Down, top()),
                }
            } else if p.face == left() {
                match p.dir {
                    Direction::Down => (m - x, 0, Direction::Right, bottom()),
                    Direction::Left => (y, m, Direction::Left, front()),
                    Direction::Right => (y, 0, Direction::Right, back()),
                    _ => (x, 0, Direction::Right, top()),
                }
            } else {
                match p.dir {
                    Direction::Down => (0, x, Direction::Down, back()),
                    Direction::Left => (0, y, Direction::Down, left()),
                    Direction::Right => (0, m - y, Direction::Down, right()),
                    _ => (0, m - x, Direction::Down, front()),
                }
            };
            PositionData { pos: (ny as usize, nx as usize), dir: d, face: f }
        },
    }
}

pub open spec fn on_face(fs: int, p: PositionData) -> bool {
    p.pos.0 < fs && p.pos.1 < fs && p.dir != Direction::Still && p.face < 6
}

/// One step on the cube.
fn move_iterator(fs: usize, p: &PositionData) -> (q: PositionData)
    requires
        1 <= fs <= isize::MAX,
        on_face(fs as int, *p),
    ensures
        q == cube_step(fs as int, *p),
        on_face(fs as int, q),
{
    let fb = Boundary::new_array_boundary(fs, fs);
    if let Some(new_pos) = fb.move_array_iterator(p.pos, &p.dir) {
        return PositionData { pos: new_pos, dir: p.dir, face: p.face };
    }
    let m = fs - 1;
    let (y, x) = p.pos;
    if p.face == 3 {
        match p.dir {
            Direction::Down => PositionData { pos: (m, m - x), dir: Direction::Up, face: 4 },
            Direction::Left => PositionData { pos: (m, m - y), dir: Direction::Up, face: 2 },
            Direction::Right => PositionData { pos: (m, y), dir: Direction::Up, face: 5 },
            _ => PositionData { pos: (m, x), dir: Direction::Up, face: 0 },
        }
    } else if p.face == 0 {
        match p.dir {
            Direction::Down => PositionData { pos: (0, x), dir: Direction::Down, face: 3 },
            Direction::Left => PositionData { pos: (y, m), dir: Direction::Left, face: 2 },
            Direction::Right => PositionData { pos: (y, 0), dir: Direction::Right, face: 5 },
            _ => PositionData { pos: (m, x), dir: Direction::Up, face: 1 },
        }
    } else if p.face == 5 {
        match p.dir {
            Direction::Down => PositionData { pos: (x, m), dir: Direction::Left, face: 3 },
            Direction::Left => PositionData { pos: (y, m), dir: Direction::Left, face: 0 },
            Direction::Right => PositionData { pos: (y, 0), dir: Direction::Right, face: 4 },
            _ => PositionData { pos: (m - x, m), dir: Direction::Left, face: 1 },
        }
    } else if p.face == 4 {
        match p.dir {
            Direction::Down => PositionData { pos: (m, m - x), dir: Direction::Up, face: 3 },
            Direction::Left => PositionData { pos: (y, m), dir: Direction::Left, face: 5 },
            Direction::Right => PositionData { pos: (y, 0), dir: Direction::Right, face: 2 },
            _ => PositionData { pos: (0, m - x), dir: Direction::Down, face: 1 },
        }
    } else if p.face == 2 {
        match p.dir {
            Direction::Down => PositionData { pos: (m - x, 0), dir: Direction::Right, face: 3 },
            Direction::Left => PositionData { pos: (y, m), dir: Direction::Left, face: 4 },
            Direction::Right => PositionData { pos: (y, 0), dir: Direction::Right, face: 0 },
            _ => PositionData { pos: (x, 0), dir: Direction::Right, face: 1 },
        }
    } else {
        match p.dir {
            Direction::Down => PositionData { pos: (0, x), dir: Direction::Down, face: 0 },
            Direction::Left => PositionData { pos: (0, y), dir: Direction::Down, face: 2 },
            Direction::Right => PositionData { pos: (0, m - y), dir: Direction::Down, face: 5 },
            _ => PositionData { pos: (0, m - x), dir: Direction::Down, face: 4 },
        }
    }
}

/// A map character as a tile: 0 nothing, 1 open floor, 2 wall; other
/// characters give none.
pub open spec fn tile_of(c: char) -> Option<u8> {
    if c == ' ' {
        Some(0)
    } else if c == '.' {
        Some(1)
    } else if c == '#' {
        Some(2)
    } else {
        None
    }
}

pub open spec fn tiles(l: Seq<char>) -> Seq<u8>
    decreases l.len(),
{
    if l.len() == 0 {
        Seq::empty()
    } else {
        match tile_of(l.last()) {
            Some(t) => tiles(l.drop_last()).push(t),
            None => tiles(l.drop_last()),
        }
    }
}

/// A row of the map, filled up with nothing to `width`.
pub open spec fn row_of(l: Seq<char>, width: int) -> Seq<u8> {
    tiles(l) + Seq::new((width - tiles(l).len()) as nat, |k: int| 0u8)
}

pub open spec fn widest(ls: Seq<Seq<char>>) -> int
    decreases ls.len(),
{
    if ls.len() == 0 {
        0
    } else {
        let w = widest(ls.drop_last());
        if ls.last().len() > w { ls.last().len() as int } else { w }
    }
}

/// The path: each number of steps, then the turn after it (`Still` for none
/// at the end), and the digits read so far.
pub open spec fn path_scan(s: Seq<char>) -> (Seq<(u64, Direction)>, Seq<char>)
    decreases s.len(),
{
    if s.len() == 0 {
        (Seq::empty(), Seq::empty())
    } else {
        let (done, cur) = path_scan(s.drop_last());
        let c = s.last();
        if c == 'R' {
            (done.push((decimal_value(cur) as u64, Direction::Right)), Seq::empty())
        } else if c == 'L' {
            (done.push((decimal_value(cur) as u64, Direction::Left)), Seq::empty())
        } else {
            (done, cur.push(c))
        }
    }
}

pub open spec fn path_of(s: Seq<char>) -> Seq<(u64, Direction)> {
    let (done, cur) = path_scan(s);
    if cur.len() > 0 {
        done.push((decimal_value(cur) as u64, Direction::Still))
    } else {
        done
    }
}

/// Digits, each number before a turn written out, none too large.
pub open spec fn path_ok(s: Seq<char>) -> bool {
    &&& forall|k: int| 0 <= k < s.len() ==> (#[trigger] crate::text::is_digit(s[k]) || s[k] == 'R' || s[k] == 'L')
    &&& forall|k: int| 0 <= k < s.len() && (s[k] == 'R' || s[k] == 'L') ==> k > 0 && crate::text::is_digit(#[trigger] s[k - 1])
    &&& forall|k: int| 0 <= k <= s.len() ==> decimal_value(#[trigger] path_scan(s.subrange(0, k)).1) <= u64::MAX
}

fn read_path(s: &Vec<char>) -> (r: Vec<(u64, Direction)>)
    requires
        path_ok(s@),
    ensures
        r@ == path_of(s@),
{
    let mut out: Vec<(u64, Direction)> = Vec::new();
    let mut cur: Vec<char> = Vec::new();
    let mut i: usize = 0;
    assert(s@.subrange(0, 0) =~= Seq::<char>::empty());
    while i < s.len()
        invariant
            path_ok(s@),
            i <= s@.len(),
            path_scan(s@.subrange(0, i as int)) == (out@, cur@),
            all_digits(cur@),
        decreases s@.len() - i,
    {
        let c = s[i];
        let ghost pre = s@.subrange(0, i as int);
        assert(s@.subrange(0, i + 1).drop_last() =~= pre);
        assert(s@.subrange(0, i + 1).last() == c);
        assert(crate::text::is_digit(s@[i as int]) || s@[i as int] == 'R' || s@[i as int] == 'L');
        if c == 'R' || c == 'L' {
            let v = match parse_u64(&cur) {
                Some(v) => v,
                None => 0,
            };
            assert(decimal_value(path_scan(s@.subrange(0, i as int)).1) <= u64::MAX);
            out.push((v, if c == 'R' { Direction::Right } else { Direction::Left }));
            cur = Vec::new();
            assert(cur@ =~= Seq::<char>::empty());
        } else {
            cur.push(c);
            assert(all_digits(cur@)) by {
                assert forall|k: int| 0 <= k < cur@.len() implies crate::text::is_digit(#[trigger] cur@[k]) by {
                    if k < cur@.len() - 1 {
                    }
                }
            }
        }
        i += 1;
    }
    assert(s@.subrange(0, i as int) =~= s@);
    if cur.len() > 0 {
        assert(decimal_value(path_scan(s@.subrange(0, s@.len() as int)).1) <= u64::MAX);
        let v = match parse_u64(&cur) {
            Some(v) => v,
            None => 0,
        };
        out.push((v, Direction::Still));
    }
    out
}

pub open spec fn first_blank(ls: Seq<Seq<char>>, e: int) -> bool {
    0 <= e < ls.len() && ls[e].len() == 0 && forall|j: int| 0 <= j < e ==> (#[trigger] ls[j]).len() > 0
}

/// The map, an empty line, and the path on the line after.
pub open spec fn input_ok(ls: Seq<Seq<char>>) -> bool {
    exists|e: int|
        #![trigger first_blank(ls, e)]
        first_blank(ls, e) && e >= 1 && ls.len() == e + 2 && e <= isize::MAX && widest(ls.subrange(0, e)) <= isize::MAX
            && path_ok(ls[e + 1]) && tiles(ls[0]).contains(1u8)
}

pub open spec fn map_of(ls: Seq<Seq<char>>, e: int) -> Seq<Seq<u8>> {
    Seq::new(e as nat, |k: int| row_of(ls[k], widest(ls.subrange(0, e))))
}

pub open spec fn first_floor(row: Seq<u8>) -> int {
    choose|x: int| 0 <= x < row.len() && row[x] == 1 && forall|j: int| 0 <= j < x ==> row[j] != 1
}

pub open spec fn face_size_of(width: int, height: int) -> int {
    if width / 4 >= height / 4 { width / 4 } else { height / 4 }
}

proof fn lemma_tiles_len(l: Seq<char>)
    ensures
        tiles(l).len() <= l.len(),
    decreases l.len(),
{
    if l.len() > 0 {
        lemma_tiles_len(l.drop_last());
    }
}

fn read_row(l: &Vec<char>, width: usize) -> (r: Vec<u8>)
    requires
        l@.len() <= width,
    ensures
        r@ == row_of(l@, width as int),
        r@.len() == width,
{
    let mut r: Vec<u8> = Vec::new();
    let mut i: usize = 0;
    assert(l@.subrange(0, 0) =~= Seq::<char>::empty());
    while i < l.len()
        invariant
            i <= l@.len(),
            r@ == tiles(l@.subrange(0, i as int)),
        decreases l@.len() - i,
    {
        let c = l[i];
        assert(l@.subrange(0, i + 1).drop_last() =~= l@.subrange(0, i as int));
        assert(l@.subrange(0, i + 1).last() == c);
        if c == ' ' {
            r.push(0);
        } else if c == '.' {
            r.push(1);
        } else if c == '#' {
            r.push(2);
        }
        i += 1;
    }
    assert(l@.subrange(0, i as int) =~= l@);
    proof {
        lemma_tiles_len(l@);
    }
    let ghost t = r@;
    while r.len() < width
        invariant
            t.len() <= r@.len() <= width,
            r@ == t + Seq::new((r@.len() - t.len()) as nat, |k: int| 0u8),
        decreases width - r@.len(),
    {
        let ghost before = r@;
        r.push(0);
        assert(r@ =~= t + Seq::new((r@.len() - t.len()) as nat, |k: int| 0u8));
    }
    r
}

/// The board, the path, where the walk starts, and the side of a face.
pub struct Solver {
    map: Vec<Vec<u8>>,
    instructions: Vec<(u64, Direction)>,
    starting_point: (usize, usize),
    face_size: usize,
}

impl Solver {
    pub closed spec fn view(&self) -> (Seq<Seq<u8>>, Seq<(u64, Direction)>, (usize, usize), int) {
        (self.map@.map_values(|r: Vec<u8>| r@), self.instructions@, self.starting_point, self.face_size as int)
    }

    pub closed spec fn wf(&self) -> bool {
        let (m, ins, st, fs) = self@;
        &&& 1 <= m.len() <= isize::MAX
        &&& 1 <= m[0].len() <= isize::MAX
        &&& forall|i: int| 0 <= i < m.len() ==> (#[trigger] m[i]).len() == m[0].len()
        &&& fs == face_size_of(m[0].len() as int, m.len() as int)
        &&& st.0 == 0 && st.1 < m[0].len()
    }

    /// Reads the board, an empty line, then the path.
    pub fn new(input: String) -> (r: Solver)
        requires
            forall|ls: Seq<Seq<char>>| is_lines_of(ls, input@) ==> input_ok(ls),
        ensures
            r.wf(),
            exists|ls: Seq<Seq<char>>, e: int|
                is_lines_of(ls, input@) && first_blank(ls, e) && r@ == (
                    map_of(ls, e),
                    path_of(ls[e + 1]),
                    (0usize, first_floor(map_of(ls, e)[0]) as usize),
                    face_size_of(widest(ls.subrange(0, e)), e),
                ),
    {
        let lines = lines_of(input.as_str());
        let ghost ls = views(lines@);
        assert(input_ok(ls));
        let ghost ew = choose|e: int| #![trigger first_blank(ls, e)] first_blank(ls, e) && e >= 1 && ls.len() == e + 2 && e <= isize::MAX && widest(ls.subrange(0, e)) <= isize::MAX
            && path_ok(ls[e + 1]) && tiles(ls[0]).contains(1u8);
        let mut e: usize = 0;
        let mut width: usize = 0;
        assert(ls.subrange(0, 0) =~= Seq::<Seq<char>>::empty());
        while lines[e].len() > 0
            invariant
                ls == views(lines@),
                first_blank(ls, ew),
                ew <= isize::MAX,
                widest(ls.subrange(0, ew)) <= isize::MAX,
                e <= ew,
                width == widest(ls.subrange(0, e as int)),
                forall|j: int| 0 <= j < e ==> (#[trigger] ls[j]).len() > 0,
            decreases ew - e,
        {
            assert(ls[e as int] == lines@[e as int]@);
            assert(ls.subrange(0, e + 1).drop_last() =~= ls.subrange(0, e as int));
            proof {
                lemma_widest_prefix(ls.subrange(0, ew), e + 1);
                assert(ls.subrange(0, ew).subrange(0, e + 1) =~= ls.subrange(0, e + 1));
            }
            if lines[e].len() > width {
                width = lines[e].len();
            }
            e += 1;
        }
        assert(ls[e as int] == lines@[e as int]@);
        assert(e == ew) by {
            if e < ew {
                assert(ls[e as int].len() > 0);
            }
        }
        let mut map: Vec<Vec<u8>> = Vec::new();
        let mut i: usize = 0;
        while i < e
            invariant
                ls == views(lines@),
                e == ew,
                first_blank(ls, ew),
                width == widest(ls.subrange(0, e as int)),
                i <= e,
                map@.len() == i,
                forall|k: int| 0 <= k < i ==> (#[trigger] map@[k])@.len() == width,
                map@.map_values(|r: Vec<u8>| r@) == map_of(ls, e as int).subrange(0, i as int),
            decreases e - i,
        {
            assert(ls[i as int] == lines@[i as int]@);
            proof {
                lemma_widest_bound(ls.subrange(0, e as int), i as int);
            }
            let row = read_row(&lines[i], width);
            let ghost before = map@.map_values(|r: Vec<u8>| r@);
            let ghost rw = row@;
            map.push(row);
            assert(map@.map_values(|r: Vec<u8>| r@) =~= before.push(rw));
            i += 1;
            assert(map@.map_values(|r: Vec<u8>| r@) =~= map_of(ls, e as int).subrange(0, i as int));
        }
        assert(map_of(ls, e as int).subrange(0, e as int) =~= map_of(ls, e as int));
        assert(ls[e + 1] == lines@[e + 1]@);
        let instructions = read_path(&lines[e + 1]);
        let ghost row0 = map_of(ls, e as int)[0];
        assert(map@[0]@ == row0);
        assert(row0.contains(1u8)) by {
            let k = choose|k: int| 0 <= k < tiles(ls[0]).len() && tiles(ls[0])[k] == 1u8;
            assert(row0[k] == 1u8);
        }
        let ghost w = choose|k: int| 0 <= k < row0.len() && row0[k] == 1u8;
        let mut x: usize = 0;
        let ghost mlen = map@.len();
        assert(mlen >= 1);
        let w0 = map[0].len();
        while map[0][x] != 1
            invariant
                map@.len() == mlen,
                mlen >= 1,
                w0 == row0.len(),
                map@[0]@ == row0,
                0 <= w < row0.len(),
                row0[w] == 1u8,
                x <= w,
                forall|j: int| 0 <= j < x ==> row0[j] != 1,
            decreases w - x,
        {
            x += 1;
        }
        proof {
            let f = first_floor(row0);
            assert(0 <= x < row0.len() && row0[x as int] == 1 && forall|j: int| 0 <= j < x ==> row0[j] != 1);
            if f < x {
                assert(row0[f] != 1);
            } else if f > x {
                assert(row0[x as int] != 1);
            }
        }
        let face_size = if width / 4 >= e / 4 { width / 4 } else { e / 4 };
        let r = Solver { map, instructions, starting_point: (0, x), face_size };
        assert(r@.0 =~= map_of(ls, e as int));
        r
    }
}

proof fn lemma_widest_prefix(ls: Seq<Seq<char>>, k: int)
    requires
        0 <= k <= ls.len(),
    ensures
        widest(ls.subrange(0, k)) <= widest(ls),
        widest(ls.subrange(0, k)) >= 0,
    decreases ls.len() - k,
{
    if k < ls.len() {
        lemma_widest_prefix(ls, k + 1);
        assert(ls.subrange(0, k + 1).drop_last() =~= ls.subrange(0, k));
    } else {
        assert(ls.subrange(0, k) =~= ls);
    }
    lemma_widest_nonneg(ls.subrange(0, k));
}

proof fn lemma_widest_nonneg(ls: Seq<Seq<char>>)
    ensures
        widest(ls) >= 0,
    decreases ls.len(),
{
    if ls.len() > 0 {
        lemma_widest_nonneg(ls.drop_last());
    }
}

proof fn lemma_widest_bound(ls: Seq<Seq<char>>, i: int)
    requires
        0 <= i < ls.len(),
    ensures
        ls[i].len() <= widest(ls),
    decreases ls.len(),
{
    if i < ls.len() - 1 {
        lemma_widest_bound(ls.drop_last(), i);
    }
}

pub open spec fn board(m: Seq<Seq<u8>>) -> Boundary {
    Boundary { low_x_boundary: 0, low_y_boundary: 0, high_x_boundary: m[0].len() as isize, high_y_boundary: m.len() as isize }
}

pub open spec fn tile(m: Seq<Seq<u8>>, p: (usize, usize)) -> u8 {
    m[p.0 as int][p.1 as int]
}

/// How many steps towards `d` stay on the board.
pub open spec fn room(m: Seq<Seq<u8>>, p: (usize, usize), d: Direction) -> int {
    match d {
        Direction::Down => m.len() - 1 - p.0,
        Direction::Up => p.0 as int,
        Direction::Right => m[0].len() - 1 - p.1,
        Direction::Left => p.1 as int,
        Direction::Still => 0,
    }
}

/// From `p` on, towards `d`, the first place that is not nothing; `None`
/// where the board ends first.
pub open spec fn skip(m: Seq<Seq<u8>>, p: (usize, usize), d: Direction) -> Option<(usize, usize)>
    decreases room(m, p, d),
{
    if tile(m, p) != 0 {
        Some(p)
    } else if d == Direction::Still {
        None
    } else {
        match moved(board(m), p.0 as int, p.1 as int, d) {
            Some(q) => if room(m, (q.0 as usize, q.1 as usize), d) < room(m, p, d) {
                skip(m, (q.0 as usize, q.1 as usize), d)
            } else {
                None
            },
            None => None,
        }
    }
}

pub open spec fn wrap_point(m: Seq<Seq<u8>>, p: (usize, usize), d: Direction) -> (usize, usize) {
    match d {
        Direction::Still => p,
        Direction::Down => (0, p.1),
        Direction::Right => (p.0, 0),
        Direction::Left => (p.0, (m[0].len() - 1) as usize),
        Direction::Up => ((m.len() - 1) as usize, p.1),
    }
}

/// One step on the flat board: `Some(Some(q))` moved to `q`, `Some(None)`
/// stopped by a wall, `None` where no place comes back onto the board.
pub open spec fn flat_step(m: Seq<Seq<u8>>, p: (usize, usize), d: Direction) -> Option<Option<(usize, usize)>> {
    let wrapped = match skip(m, wrap_point(m, p, d), d) {
        Some(q) => if tile(m, q) == 1 { Some(Some(q)) } else { Some(None) },
        None => None,
    };
    match moved(board(m), p.0 as int, p.1 as int, d) {
        Some(q) => {
            let q = (q.0 as usize, q.1 as usize);
            if tile(m, q) == 1 {
                Some(Some(q))
            } else if tile(m, q) == 2 {
                Some(None)
            } else {
                wrapped
            }
        },
        None => wrapped,
    }
}

/// Up to `k` steps, stopping at a wall.
pub open spec fn flat_steps(m: Seq<Seq<u8>>, p: (usize, usize), d: Direction, k: nat) -> Option<(usize, usize)>
    decreases k,
{
    if k == 0 {
        Some(p)
    } else {
        match flat_step(m, p, d) {
            Some(Some(q)) => flat_steps(m, q, d, (k - 1) as nat),
            Some(None) => Some(p),
            None => None,
        }
    }
}

/// Where the walk on the flat board is, and its heading, after the first
/// `j` instructions.
pub open spec fn walk_flat(m: Seq<Seq<u8>>, ins: Seq<(u64, Direction)>, st: (usize, usize), j: int) -> Option<((usize, usize), Direction)>
    decreases j,
{
    if j <= 0 {
        Some((st, Direction::Right))
    } else {
        match walk_flat(m, ins, st, j - 1) {
            Some(w) => match flat_steps(m, w.0, w.1, ins[j - 1].0 as nat) {
                Some(q) => Some((q, rotated(w.1, ins[j - 1].1))),
                None => None,
            },
            None => None,
        }
    }
}

pub open spec fn facing(d: Direction) -> int {
    match d {
        Direction::Right => 0,
        Direction::Down => 1,
        Direction::Left => 2,
        _ => 3,
    }
}

pub open spec fn password(p: (usize, usize), d: Direction) -> int {
    1000 * (p.0 + 1) + 4 * (p.1 + 1) + facing(d)
}

pub open spec fn on_board(m: Seq<Seq<u8>>, p: (usize, usize)) -> bool {
    p.0 < m.len() && p.1 < m[0].len()
}

impl Solver {
    fn tile_at(&self, p: (usize, usize)) -> (r: u8)
        requires
            self.wf(),
            on_board(self@.0, p),
        ensures
            r == tile(self@.0, p),
    {
        assert(self@.0[p.0 as int] == self.map@[p.0 as int]@);
        self.map[p.0][p.1]
    }

    fn bounds(&self) -> (r: Boundary)
        requires
            self.wf(),
        ensures
            r == board(self@.0),
    {
        assert(self@.0[0] == self.map@[0]@);
        Boundary::new_array_boundary(self.map[0].len(), self.map.len())
    }

    fn skip_void(&self, p: (usize, usize), d: Direction) -> (r: Option<(usize, usize)>)
        requires
            self.wf(),
            on_board(self@.0, p),
        ensures
            r == skip(self@.0, p, d),
            r matches Some(q) ==> on_board(self@.0, q),
        decreases room(self@.0, p, d),
    {
        if self.tile_at(p) != 0 {
            return Some(p);
        }
        if d == Direction::Still {
            return None;
        }
        let bd = self.bounds();
        match bd.move_array_iterator(p, &d) {
            Some(q) => {
                if self.room_of(q, d) < self.room_of(p, d) {
                    self.skip_void(q, d)
                } else {
                    None
                }
            },
            None => None,
        }
    }

    fn room_of(&self, p: (usize, usize), d: Direction) -> (r: i64)
        requires
            self.wf(),
            on_board(self@.0, p),
        ensures
            r == room(self@.0, p, d),
    {
        assert(self@.0[0] == self.map@[0]@);
        let h = self.map.len() as i64;
        let w = self.map[0].len() as i64;
        match d {
            Direction::Down => h - 1 - p.0 as i64,
            Direction::Up => p.0 as i64,
            Direction::Right => w - 1 - p.1 as i64,
            Direction::Left => p.1 as i64,
            Direction::Still => 0,
        }
    }

    fn step_flat(&self, p: (usize, usize), d: Direction) -> (r: Option<Option<(usize, usize)>>)
        requires
            self.wf(),
            on_board(self@.0, p),
        ensures
            r == flat_step(self@.0, p, d),
            r matches Some(Some(q)) ==> on_board(self@.0, q),
    {
        let bd = self.bounds();
        let wrapped = {
            let w = bd.wrap_array_iterator(p, &d);
            match self.skip_void(w, d) {
                Some(q) => if self.tile_at(q) == 1 { Some(Some(q)) } else { Some(None) },
                None => None,
            }
        };
        match bd.move_array_iterator(p, &d) {
            Some(q) => {
                let t = self.tile_at(q);
                if t == 1 {
                    Some(Some(q))
                } else if t == 2 {
                    Some(None)
                } else {
                    wrapped
                }
            },
            None => wrapped,
        }
    }

    /// The walk on the flat board: where it ends and its heading.
    fn run_simulation(&self) -> (r: ((usize, usize), Direction))
        requires
            self.wf(),
            walk_flat(self@.0, self@.1, self@.2, self@.1.len() as int) is Some,
        ensures
            Some(r) == walk_flat(self@.0, self@.1, self@.2, self@.1.len() as int),
            on_board(self@.0, r.0),
    {
        let mut pos = self.starting_point;
        let mut dir = Direction::Right;
        let mut j: usize = 0;
        while j < self.instructions.len()
            invariant
                self.wf(),
                j <= self@.1.len(),
                walk_flat(self@.0, self@.1, self@.2, self@.1.len() as int) is Some,
                walk_flat(self@.0, self@.1, self@.2, j as int) == Some((pos, dir)),
                on_board(self@.0, pos),
            decreases self@.1.len() - j,
        {
            proof {
                lemma_walk_prefix(self@.0, self@.1, self@.2, self@.1.len() as int, j + 1);
            }
            let (dist, turn) = self.instructions[j];
            let ghost p0 = pos;
            let mut made: u64 = 0;
            let mut can_move = true;
            while can_move && made < dist
                invariant
                    self.wf(),
                    made <= dist,
                    on_board(self@.0, pos),
                    can_move ==> flat_steps(self@.0, p0, dir, dist as nat) == flat_steps(self@.0, pos, dir, (dist - made) as nat),
                    !can_move ==> flat_steps(self@.0, p0, dir, dist as nat) == Some(pos),
                    flat_steps(self@.0, p0, dir, dist as nat) is Some,
                decreases dist - made + (if can_move { 1int } else { 0int }),
            {
                match self.step_flat(pos, dir) {
                    Some(Some(q)) => {
                        pos = q;
                        made += 1;
                    },
                    Some(None) => {
                        can_move = false;
                    },
                    None => {
                        can_move = false;
                    },
                }
            }
            dir = dir.rotate(&turn);
            j += 1;
        }
        (pos, dir)
    }
}

proof fn lemma_walk_prefix(m: Seq<Seq<u8>>, ins: Seq<(u64, Direction)>, st: (usize, usize), n: int, k: int)
    requires
        0 <= k <= n,
        walk_flat(m, ins, st, n) is Some,
    ensures
        walk_flat(m, ins, st, k) is Some,
    decreases n - k,
{
    if k < n {
        lemma_walk_prefix(m, ins, st, n, k + 1);
    }
}

/// Where the faces lie: for each block of the board (six by six blocks of
/// side `fs`), the face found there, if any; the state of the search that
/// names the faces, and the orientation of each face found: its block and
/// how many quarter turns to the right it was turned.
pub type Dissection = (Seq<Seq<Option<u8>>>, Seq<Option<(usize, usize, usize)>>, Seq<(usize, usize)>);

pub open spec fn present(m: Seq<Seq<u8>>, fs: int, gy: int, gx: int) -> bool {
    gy * fs < m.len() && gx * fs < m[0].len() && m[gy * fs][gx * fs] != 0
}

pub open spec fn first_grid(m: Seq<Seq<u8>>, fs: int) -> Seq<Seq<Option<u8>>> {
    Seq::new(6, |gy: int| Seq::new(6, |gx: int| if present(m, fs, gy, gx) { Some(bottom()) } else { None }))
}

/// Records face `f` at block `(y, x)` turned `rot` times, where the block
/// holds a face not yet named.
pub open spec fn name_face(st: Dissection, y: int, x: int, f: u8, rot: usize) -> Dissection {
    if 0 <= y < 6 && 0 <= x < 6 && st.0[y][x] == Some(bottom()) {
        (st.0.update(y, st.0[y].update(x, Some(f))), st.1.update(f as int, Some((y as usize, x as usize, rot))), st.2.push((y as usize, x as usize)))
    } else {
        st
    }
}

/// The faces next to the face at `(y, x)`, named by how the net folds.
pub open spec fn visit(st: Dissection, y: int, x: int) -> Dissection {
    match st.0[y][x] {
        Some(f) => if f == bottom() {
            name_face(name_face(st, y, x + 1, right(), 3), y + 1, x, front(), 2)
        } else if f == front() {
            let s1 = name_face(st, y + 1, x, top(), 0);
            if x > 0 { name_face(s1, y, x - 1, left(), 2) } else { s1 }
        } else if f == top() {
            let s1 = name_face(st, y, x + 1, right(), 1);
            if x > 0 { name_face(s1, y, x - 1, left(), 3) } else { s1 }
        } else if f == left() {
            let s1 = if x > 0 { name_face(st, y, x - 1, back(), 2) } else { st };
            name_face(s1, y + 1, x, back(), 3)
        } else {
            st
        },
        None => st,
    }
}

/// The search, taking blocks from the front of the queue, at most `fuel`.
pub open spec fn search(st: Dissection, fuel: nat) -> Dissection
    decreases fuel,
{
    if fuel == 0 || st.2.len() == 0 {
        st
    } else {
        let (y, x) = st.2[0];
        search(visit((st.0, st.1, st.2.drop_first()), y as int, x as int), (fuel - 1) as nat)
    }
}

pub open spec fn start_dissection(m: Seq<Seq<u8>>, fs: int) -> Dissection {
    let g = first_grid(m, fs);
    let none = Seq::new(6, |k: int| None::<(usize, usize, usize)>);
    if exists|x: int| 0 <= x < 4 && g[0][x] is Some {
        let x = choose|x: int| 0 <= x < 4 && g[0][x] is Some && forall|j: int| 0 <= j < x ==> g[0][j] is None;
        (g, none.update(bottom() as int, Some((0usize, x as usize, 0usize))), seq![(0usize, x as usize)])
    } else {
        (g, none, Seq::empty())
    }
}

pub open spec fn orientation(m: Seq<Seq<u8>>, fs: int) -> Seq<Option<(usize, usize, usize)>> {
    search(start_dissection(m, fs), 40).1
}

pub open spec fn block(m: Seq<Seq<u8>>, fs: int, y: int, x: int) -> Seq<Seq<u8>> {
    Seq::new(fs as nat, |i: int| Seq::new(fs as nat, |j: int| m[y * fs + i][x * fs + j]))
}

/// A face turned a quarter to the right.
pub open spec fn turn_right(g: Seq<Seq<u8>>, fs: int) -> Seq<Seq<u8>> {
    Seq::new(fs as nat, |j: int| Seq::new(fs as nat, |c: int| g[fs - 1 - c][j]))
}

pub open spec fn turned(g: Seq<Seq<u8>>, fs: int, k: nat) -> Seq<Seq<u8>>
    decreases k,
{
    if k == 0 { g } else { turn_right(turned(g, fs, (k - 1) as nat), fs) }
}

/// The tiles of face `f` as the folding sees them.
pub open spec fn face_tiles(m: Seq<Seq<u8>>, fs: int, f: int) -> Seq<Seq<u8>> {
    match orientation(m, fs)[f] {
        Some(o) => turned(block(m, fs, o.0 as int, o.1 as int), fs, o.2 as nat),
        None => Seq::empty(),
    }
}

/// Up to `k` steps on the cube, stopping at a wall; `None` where a step
/// reaches a face the net does not have.
pub open spec fn cube_steps(m: Seq<Seq<u8>>, fs: int, p: PositionData, k: nat) -> Option<PositionData>
    decreases k,
{
    if k == 0 {
        Some(p)
    } else {
        let q = cube_step(fs, p);
        if orientation(m, fs)[q.face as int] is None {
            None
        } else if face_tiles(m, fs, q.face as int)[q.pos.0 as int][q.pos.1 as int] == 2 {
            Some(p)
        } else {
            cube_steps(m, fs, q, (k - 1) as nat)
        }
    }
}

pub open spec fn cube_start() -> PositionData {
    PositionData { pos: (0, 0), dir: Direction::Right, face: bottom() }
}

pub open spec fn walk_cube(m: Seq<Seq<u8>>, fs: int, ins: Seq<(u64, Direction)>, j: int) -> Option<PositionData>
    decreases j,
{
    if j <= 0 {
        Some(cube_start())
    } else {
        match walk_cube(m, fs, ins, j - 1) {
            Some(p) => match cube_steps(m, fs, p, ins[j - 1].0 as nat) {
                Some(q) => Some(PositionData { dir: rotated(q.dir, ins[j - 1].1), ..q }),
                None => None,
            },
            None => None,
        }
    }
}

/// A place on a face turned back a quarter: the place and heading on the
/// face as it lies on the board.
pub open spec fn unturn(fs: int, p: PositionData) -> PositionData {
    PositionData { pos: (p.pos.1, (fs - 1 - p.pos.0) as usize), dir: rotated(p.dir, Direction::Right), ..p }
}

pub open spec fn unturned(fs: int, p: PositionData, k: nat) -> PositionData
    decreases k,
{
    if k == 0 { p } else { unturn(fs, unturned(fs, p, (k - 1) as nat)) }
}

/// Where a place on the cube lies on the board.
pub open spec fn on_board_of(m: Seq<Seq<u8>>, fs: int, p: PositionData) -> PositionData {
    let o = orientation(m, fs)[p.face as int]->0;
    let q = unturned(fs, p, ((4 - o.2 % 4) % 4) as nat);
    PositionData { pos: ((q.pos.0 + o.0 * fs) as usize, (q.pos.1 + o.1 * fs) as usize), ..q }
}

pub open spec fn grid_view(g: Seq<Vec<Option<u8>>>) -> Seq<Seq<Option<u8>>> {
    g.map_values(|r: Vec<Option<u8>>| r@)
}

pub open spec fn shaped(st: Dissection) -> bool {
    st.0.len() == 6 && (forall|i: int| 0 <= i < 6 ==> (#[trigger] st.0[i]).len() == 6) && st.1.len() == 6
        && forall|k: int| 0 <= k < st.2.len() ==> (#[trigger] st.2[k]).0 < 6 && st.2[k].1 < 6
}

fn name_face_exec(
    grid: &mut Vec<Vec<Option<u8>>>,
    orient: &mut Vec<Option<(usize, usize, usize)>>,
    queue: &mut Vec<(usize, usize)>,
    y: usize,
    x: usize,
    f: u8,
    rot: usize,
)
    requires
        shaped((grid_view(old(grid)@), old(orient)@, old(queue)@)),
        f < 6,
        y < 7 && x < 7,
    ensures
        shaped((grid_view(final(grid)@), final(orient)@, final(queue)@)),
        (grid_view(final(grid)@), final(orient)@, final(queue)@) == name_face(
            (grid_view(old(grid)@), old(orient)@, old(queue)@),
            y as int,
            x as int,
            f,
            rot,
        ),
{
    let ghost st = (grid_view(grid@), orient@, queue@);
    if y < 6 && x < 6 {
        assert(grid_view(grid@)[y as int] == grid@[y as int]@);
        if grid[y][x] == Some(3u8) {
            let mut row: Vec<Option<u8>> = Vec::new();
            let mut k: usize = 0;
            while k < 6
                invariant
                    k <= 6,
                    y < 6 && x < 6,
                    grid@.len() == 6,
                    grid@[y as int]@.len() == 6,
                    row@ == grid@[y as int]@.update(x as int, Some(f)).subrange(0, k as int),
                decreases 6 - k,
            {
                row.push(if k == x { Some(f) } else { grid[y][k] });
                k += 1;
                assert(row@ =~= grid@[y as int]@.update(x as int, Some(f)).subrange(0, k as int));
            }
            assert(row@ =~= grid@[y as int]@.update(x as int, Some(f)));
            let ghost gv = grid_view(grid@);
            grid.set(y, row);
            assert(grid_view(grid@) =~= gv.update(y as int, gv[y as int].update(x as int, Some(f))));
            orient.set(f as usize, Some((y, x, rot)));
            queue.push((y, x));
            return;
        }
    }
}

fn visit_exec(
    grid: &mut Vec<Vec<Option<u8>>>,
    orient: &mut Vec<Option<(usize, usize, usize)>>,
    queue: &mut Vec<(usize, usize)>,
    y: usize,
    x: usize,
)
    requires
        shaped((grid_view(old(grid)@), old(orient)@, old(queue)@)),
        y < 6 && x < 6,
    ensures
        shaped((grid_view(final(grid)@), final(orient)@, final(queue)@)),
        (grid_view(final(grid)@), final(orient)@, final(queue)@) == visit(
            (grid_view(old(grid)@), old(orient)@, old(queue)@),
            y as int,
            x as int,
        ),
{
    assert(grid_view(grid@)[y as int] == grid@[y as int]@);
    match grid[y][x] {
        Some(f) => {
            if f == 3 {
                name_face_exec(grid, orient, queue, y, x + 1, 5, 3);
                name_face_exec(grid, orient, queue, y + 1, x, 4, 2);
            } else if f == 4 {
                name_face_exec(grid, orient, queue, y + 1, x, 1, 0);
                if x > 0 {
                    name_face_exec(grid, orient, queue, y, x - 1, 2, 2);
                }
            } else if f == 1 {
                name_face_exec(grid, orient, queue, y, x + 1, 5, 1);
                if x > 0 {
                    name_face_exec(grid, orient, queue, y, x - 1, 2, 3);
                }
            } else if f == 2 {
                if x > 0 {
                    name_face_exec(grid, orient, queue, y, x - 1, 0, 2);
                }
                name_face_exec(grid, orient, queue, y + 1, x, 0, 3);
            }
        },
        None => {},
    }
}

impl Solver {
    /// Names the faces of the cube that the board folds into, and how each
    /// lies on the board.
    fn dissect_cube(&self) -> (r: Vec<Option<(usize, usize, usize)>>)
        requires
            self.wf(),
            self@.3 >= 1,
        ensures
            r@ == orientation(self@.0, self@.3),
            r@.len() == 6,
    {
        let ghost m = self@.0;
        let fs = self.face_size;
        let h = self.map.len();
        assert(m[0] == self.map@[0]@);
        let w = self.map[0].len();
        let mut grid: Vec<Vec<Option<u8>>> = Vec::new();
        let mut gy: usize = 0;
        while gy < 6
            invariant
                self.wf(),
                m == self@.0,
                fs == self@.3,
                fs >= 1,
                h == m.len(),
                w == m[0].len(),
                gy <= 6,
                grid@.len() == gy,
                forall|i: int| 0 <= i < gy ==> (#[trigger] grid@[i])@ == first_grid(m, fs as int)[i],
            decreases 6 - gy,
        {
            let mut row: Vec<Option<u8>> = Vec::new();
            let mut gx: usize = 0;
            while gx < 6
                invariant
                    self.wf(),
                    m == self@.0,
                    fs == self@.3,
                    fs >= 1,
                    h == m.len(),
                    w == m[0].len(),
                    gy < 6,
                    gx <= 6,
                    row@ == first_grid(m, fs as int)[gy as int].subrange(0, gx as int),
                decreases 6 - gx,
            {
                assert(fs <= isize::MAX / 4);
                assert(gy * fs <= 5 * (isize::MAX / 4) && gx * fs <= 5 * (isize::MAX / 4)) by (nonlinear_arith)
                    requires
                        gy < 6,
                        gx < 6,
                        fs <= isize::MAX / 4,
                ;
                let cell = if gy * fs < h && gx * fs < w {
                    assert(m[(gy * fs) as int] == self.map@[(gy * fs) as int]@);
                    if self.map[gy * fs][gx * fs] != 0 { Some(3u8) } else { None }
                } else {
                    None
                };
                row.push(cell);
                gx += 1;
                assert(row@ =~= first_grid(m, fs as int)[gy as int].subrange(0, gx as int));
            }
            assert(row@ =~= first_grid(m, fs as int)[gy as int]);
            grid.push(row);
            gy += 1;
        }
        assert(grid_view(grid@) =~= first_grid(m, fs as int));
        let mut orient: Vec<Option<(usize, usize, usize)>> = Vec::new();
        let mut k: usize = 0;
        while k < 6
            invariant
                k <= 6,
                orient@ == Seq::new(6, |k: int| None::<(usize, usize, usize)>).subrange(0, k as int),
            decreases 6 - k,
        {
            orient.push(None);
            k += 1;
            assert(orient@ =~= Seq::new(6, |k: int| None::<(usize, usize, usize)>).subrange(0, k as int));
        }
        assert(orient@ =~= Seq::new(6, |k: int| None::<(usize, usize, usize)>));
        let mut queue: Vec<(usize, usize)> = Vec::new();
        let ghost g = first_grid(m, fs as int);
        let mut x: usize = 0;
        assert(grid@[0]@ == g[0]);
        while x < 4 && grid[0][x].is_none()
            invariant
                x <= 4,
                grid@.len() == 6,
                grid@[0]@ == g[0],
                g[0].len() == 6,
                forall|j: int| 0 <= j < x ==> g[0][j] is None,
            decreases 4 - x,
        {
            x += 1;
        }
        if x < 4 {
            orient.set(3, Some((0, x, 0)));
            queue.push((0, x));
            proof {
                let c = choose|c: int| 0 <= c < 4 && g[0][c] is Some && forall|j: int| 0 <= j < c ==> g[0][j] is None;
                if c < x {
                } else if c > x {
                    assert(g[0][x as int] is Some);
                }
                assert(queue@ =~= seq![(0usize, x)]);
            }
        } else {
            assert(!(exists|c: int| 0 <= c < 4 && g[0][c] is Some));
            assert(queue@ =~= Seq::<(usize, usize)>::empty());
        }
        assert((grid_view(grid@), orient@, queue@) == start_dissection(m, fs as int));
        let ghost st0 = (grid_view(grid@), orient@, queue@);
        let mut fuel: usize = 40;
        while fuel > 0 && queue.len() > 0
            invariant
                shaped((grid_view(grid@), orient@, queue@)),
                fuel <= 40,
                search(st0, 40) == search((grid_view(grid@), orient@, queue@), fuel as nat),
            decreases fuel,
        {
            let (y, xx) = queue.remove(0);
            visit_exec(&mut grid, &mut orient, &mut queue, y, xx);
            fuel -= 1;
        }
        orient
    }
}

pub open spec fn block_fits(m: Seq<Seq<u8>>, fs: int, o: Option<(usize, usize, usize)>) -> bool {
    match o {
        Some(b) => (b.0 + 1) * fs <= m.len() && (b.1 + 1) * fs <= m[0].len() && b.0 < 6 && b.1 < 6,
        None => true,
    }
}

/// Every face found covers a whole block of the board.
pub open spec fn blocks_fit(m: Seq<Seq<u8>>, fs: int) -> bool {
    forall|f: int| 0 <= f < 6 ==> block_fits(m, fs, #[trigger] orientation(m, fs)[f])
}

pub open spec fn flat_answer(m: Seq<Seq<u8>>, ins: Seq<(u64, Direction)>, st: (usize, usize)) -> int {
    match walk_flat(m, ins, st, ins.len() as int) {
        Some(w) => password(w.0, w.1),
        None => 0,
    }
}

pub open spec fn cube_answer(m: Seq<Seq<u8>>, fs: int, ins: Seq<(u64, Direction)>) -> int {
    match walk_cube(m, fs, ins, ins.len() as int) {
        Some(p) => {
            let q = on_board_of(m, fs, p);
            password(q.pos, q.dir)
        },
        None => 0,
    }
}

fn turn_face(g: &Vec<Vec<u8>>, fs: usize) -> (r: Vec<Vec<u8>>)
    requires
        g@.len() == fs,
        forall|i: int| 0 <= i < fs ==> (#[trigger] g@[i])@.len() == fs,
    ensures
        r@.map_values(|v: Vec<u8>| v@) == turn_right(g@.map_values(|v: Vec<u8>| v@), fs as int),
        r@.len() == fs,
        forall|i: int| 0 <= i < fs ==> (#[trigger] r@[i])@.len() == fs,
{
    let ghost gv = g@.map_values(|v: Vec<u8>| v@);
    let mut r: Vec<Vec<u8>> = Vec::new();
    let mut j: usize = 0;
    while j < fs
        invariant
            g@.len() == fs,
            forall|i: int| 0 <= i < fs ==> (#[trigger] g@[i])@.len() == fs,
            gv == g@.map_values(|v: Vec<u8>| v@),
            j <= fs,
            r@.len() == j,
            forall|i: int| 0 <= i < j ==> (#[trigger] r@[i])@ == turn_right(gv, fs as int)[i],
        decreases fs - j,
    {
        let mut row: Vec<u8> = Vec::new();
        let mut c: usize = 0;
        while c < fs
            invariant
                g@.len() == fs,
                forall|i: int| 0 <= i < fs ==> (#[trigger] g@[i])@.len() == fs,
                gv == g@.map_values(|v: Vec<u8>| v@),
                j < fs,
                c <= fs,
                row@ == turn_right(gv, fs as int)[j as int].subrange(0, c as int),
            decreases fs - c,
        {
            row.push(g[fs - 1 - c][j]);
            c += 1;
            assert(row@ =~= turn_right(gv, fs as int)[j as int].subrange(0, c as int));
        }
        assert(row@ =~= turn_right(gv, fs as int)[j as int]);
        r.push(row);
        j += 1;
    }
    assert(r@.map_values(|v: Vec<u8>| v@) =~= turn_right(gv, fs as int));
    r
}

impl Solver {
    fn copy_block(&self, y: usize, x: usize) -> (r: Vec<Vec<u8>>)
        requires
            self.wf(),
            self@.3 >= 1,
            (y + 1) * self@.3 <= self@.0.len(),
            (x + 1) * self@.3 <= self@.0[0].len(),
        ensures
            r@.map_values(|v: Vec<u8>| v@) == block(self@.0, self@.3, y as int, x as int),
            r@.len() == self@.3,
            forall|i: int| 0 <= i < self@.3 ==> (#[trigger] r@[i])@.len() == self@.3,
    {
        let fs = self.face_size;
        let ghost m = self@.0;
        let mut r: Vec<Vec<u8>> = Vec::new();
        let mut i: usize = 0;
        assert(y * fs + fs <= m.len() && x * fs + fs <= m[0].len()) by (nonlinear_arith)
            requires
                (y + 1) * fs <= m.len(),
                (x + 1) * fs <= m[0].len(),
        ;
        while i < fs
            invariant
                self.wf(),
                m == self@.0,
                fs == self@.3,
                y * fs + fs <= m.len() && x * fs + fs <= m[0].len(),
                i <= fs,
                r@.len() == i,
                forall|a: int| 0 <= a < i ==> (#[trigger] r@[a])@ == block(m, fs as int, y as int, x as int)[a],
            decreases fs - i,
        {
            let mut row: Vec<u8> = Vec::new();
            let mut j: usize = 0;
            assert(m[(y * fs + i) as int] == self.map@[(y * fs + i) as int]@);
            assert(m[(y * fs + i) as int].len() == m[0].len());
            while j < fs
                invariant
                    self.wf(),
                    m == self@.0,
                    fs == self@.3,
                    y * fs + fs <= m.len() && x * fs + fs <= m[0].len(),
                    i < fs,
                    m[(y * fs + i) as int] == self.map@[(y * fs + i) as int]@,
                    m[(y * fs + i) as int].len() == m[0].len(),
                    j <= fs,
                    row@ == block(m, fs as int, y as int, x as int)[i as int].subrange(0, j as int),
                decreases fs - j,
            {
                row.push(self.map[y * fs + i][x * fs + j]);
                j += 1;
                assert(row@ =~= block(m, fs as int, y as int, x as int)[i as int].subrange(0, j as int));
            }
            assert(row@ =~= block(m, fs as int, y as int, x as int)[i as int]);
            r.push(row);
            i += 1;
        }
        assert(r@.map_values(|v: Vec<u8>| v@) =~= block(m, fs as int, y as int, x as int));
        r
    }

    /// The tiles of every face, as the folding sees them.
    fn face_grids(&self, orient: &Vec<Option<(usize, usize, usize)>>) -> (r: Vec<Vec<Vec<u8>>>)
        requires
            self.wf(),
            self@.3 >= 1,
            orient@ == orientation(self@.0, self@.3),
            orient@.len() == 6,
            blocks_fit(self@.0, self@.3),
        ensures
            r@.len() == 6,
            forall|f: int| 0 <= f < 6 && #[trigger] orient@[f] is Some ==> r@[f]@.map_values(|v: Vec<u8>| v@) == face_tiles(self@.0, self@.3, f)
                && r@[f]@.len() == self@.3 && forall|i: int| 0 <= i < self@.3 ==> (#[trigger] r@[f]@[i])@.len() == self@.3,
    {
        let fs = self.face_size;
        let mut r: Vec<Vec<Vec<u8>>> = Vec::new();
        let mut f: usize = 0;
        while f < 6
            invariant
                self.wf(),
                fs == self@.3,
                fs >= 1,
                orient@ == orientation(self@.0, self@.3),
                orient@.len() == 6,
                blocks_fit(self@.0, self@.3),
                f <= 6,
                r@.len() == f,
                forall|g: int| 0 <= g < f && #[trigger] orient@[g] is Some ==> r@[g]@.map_values(|v: Vec<u8>| v@) == face_tiles(self@.0, self@.3, g)
                    && r@[g]@.len() == self@.3 && forall|i: int| 0 <= i < self@.3 ==> (#[trigger] r@[g]@[i])@.len() == self@.3,
            decreases 6 - f,
        {
            match orient[f] {
                Some((y, x, rot)) => {
                    assert(orientation(self@.0, self@.3)[f as int] is Some);
                    let mut g = self.copy_block(y, x);
                    let mut k: usize = 0;
                    while k < rot
                        invariant
                            fs == self@.3,
                            k <= rot,
                            g@.len() == fs,
                            forall|i: int| 0 <= i < fs ==> (#[trigger] g@[i])@.len() == fs,
                            g@.map_values(|v: Vec<u8>| v@) == turned(block(self@.0, self@.3, y as int, x as int), fs as int, k as nat),
                        decreases rot - k,
                    {
                        g = turn_face(&g, fs);
                        k += 1;
                    }
                    r.push(g);
                },
                None => {
                    r.push(Vec::new());
                },
            }
            f += 1;
        }
        r
    }

    /// The walk on the cube: where it ends, as a place on a face.
    fn run_3d_steps(&self, cube: &Vec<Vec<Vec<u8>>>, orient: &Vec<Option<(usize, usize, usize)>>) -> (r: PositionData)
        requires
            self.wf(),
            self@.3 >= 1,
            orient@ == orientation(self@.0, self@.3),
            orient@.len() == 6,
            cube@.len() == 6,
            forall|f: int| 0 <= f < 6 && #[trigger] orient@[f] is Some ==> cube@[f]@.map_values(|v: Vec<u8>| v@) == face_tiles(self@.0, self@.3, f)
                && cube@[f]@.len() == self@.3 && forall|i: int| 0 <= i < self@.3 ==> (#[trigger] cube@[f]@[i])@.len() == self@.3,
            walk_cube(self@.0, self@.3, self@.1, self@.1.len() as int) is Some,
        ensures
            Some(r) == walk_cube(self@.0, self@.3, self@.1, self@.1.len() as int),
            on_face(self@.3, r),
    {
        let fs = self.face_size;
        let ghost m = self@.0;
        let mut cur = PositionData { pos: (0, 0), dir: Direction::Right, face: 3 };
        let mut j: usize = 0;
        while j < self.instructions.len()
            invariant
                self.wf(),
                fs == self@.3,
                fs >= 1,
                m == self@.0,
                orient@ == orientation(m, fs as int),
                orient@.len() == 6,
                cube@.len() == 6,
                forall|f: int| 0 <= f < 6 && #[trigger] orient@[f] is Some ==> cube@[f]@.map_values(|v: Vec<u8>| v@) == face_tiles(m, fs as int, f)
                    && cube@[f]@.len() == fs && forall|i: int| 0 <= i < fs ==> (#[trigger] cube@[f]@[i])@.len() == fs,
                j <= self@.1.len(),
                walk_cube(m, fs as int, self@.1, self@.1.len() as int) is Some,
                walk_cube(m, fs as int, self@.1, j as int) == Some(cur),
                on_face(fs as int, cur),
            decreases self@.1.len() - j,
        {
            proof {
                lemma_cube_prefix(m, fs as int, self@.1, self@.1.len() as int, j + 1);
            }
            let (dist, turn) = self.instructions[j];
            let ghost p0 = cur;
            let mut made: u64 = 0;
            let mut can_move = true;
            while can_move && made < dist
                invariant
                    fs == self@.3,
                    fs >= 1,
                    fs <= isize::MAX,
                    orient@ == orientation(m, fs as int),
                    orient@.len() == 6,
                    cube@.len() == 6,
                    forall|f: int| 0 <= f < 6 && #[trigger] orient@[f] is Some ==> cube@[f]@.map_values(|v: Vec<u8>| v@) == face_tiles(m, fs as int, f)
                        && cube@[f]@.len() == fs && forall|i: int| 0 <= i < fs ==> (#[trigger] cube@[f]@[i])@.len() == fs,
                    made <= dist,
                    on_face(fs as int, cur),
                    can_move ==> cube_steps(m, fs as int, p0, dist as nat) == cube_steps(m, fs as int, cur, (dist - made) as nat),
                    !can_move ==> cube_steps(m, fs as int, p0, dist as nat) == Some(cur),
                    cube_steps(m, fs as int, p0, dist as nat) is Some,
                decreases dist - made + (if can_move { 1int } else { 0int }),
            {
                let q = move_iterator(fs, &cur);
                assert(orient@[q.face as int] is Some);
                let face = &cube[q.face as usize];
                assert(face@[q.pos.0 as int]@ == face_tiles(m, fs as int, q.face as int)[q.pos.0 as int]);
                if face[q.pos.0][q.pos.1] == 2 {
                    can_move = false;
                } else {
                    cur = q;
                    made += 1;
                }
            }
            cur = PositionData { dir: cur.dir.rotate(&turn), ..cur };
            j += 1;
        }
        cur
    }

    /// Where a place on the cube lies on the board.
    fn convert_pos(&self, orient: &Vec<Option<(usize, usize, usize)>>, p: PositionData) -> (r: PositionData)
        requires
            self.wf(),
            self@.3 >= 1,
            orient@ == orientation(self@.0, self@.3),
            orient@.len() == 6,
            on_face(self@.3, p),
            orient@[p.face as int] is Some,
            blocks_fit(self@.0, self@.3),
        ensures
            r == on_board_of(self@.0, self@.3, p),
            r.pos.0 < self@.0.len() && r.pos.1 < self@.0[0].len(),
    {
        let fs = self.face_size;
        let (fy, fx, rot) = orient[p.face as usize].unwrap();
        let c = (4 - rot % 4) % 4;
        let mut q = p;
        let mut k: usize = 0;
        while k < c
            invariant
                fs == self@.3,
                fs >= 1,
                k <= c,
                q.pos.0 < fs && q.pos.1 < fs,
                q == unturned(fs as int, p, k as nat),
            decreases c - k,
        {
            q = PositionData { pos: (q.pos.1, fs - 1 - q.pos.0), dir: q.dir.rotate(&Direction::Right), face: q.face };
            k += 1;
        }
        assert(fy < 6 && fx < 6);
        assert(block_fits(self@.0, fs as int, orientation(self@.0, fs as int)[p.face as int]));
        assert(q.pos.0 + fy * fs < self@.0.len() && q.pos.1 + fx * fs < self@.0[0].len()) by (nonlinear_arith)
            requires
                (fy + 1) * fs <= self@.0.len(),
                (fx + 1) * fs <= self@.0[0].len(),
                q.pos.0 < fs,
                q.pos.1 < fs,
        ;
        PositionData { pos: (q.pos.0 + fy * fs, q.pos.1 + fx * fs), ..q }
    }
}

proof fn lemma_cube_prefix(m: Seq<Seq<u8>>, fs: int, ins: Seq<(u64, Direction)>, n: int, k: int)
    requires
        0 <= k <= n,
        walk_cube(m, fs, ins, n) is Some,
    ensures
        walk_cube(m, fs, ins, k) is Some,
    decreases n - k,
{
    if k < n {
        lemma_cube_prefix(m, fs, ins, n, k + 1);
    }
}

fn password_of(p: (usize, usize), d: Direction) -> (r: u64)
    requires
        password(p, d) <= u64::MAX,
    ensures
        r == password(p, d),
{
    let f: u128 = match d {
        Direction::Right => 0,
        Direction::Down => 1,
        Direction::Left => 2,
        _ => 3,
    };
    (1000 * (p.0 as u128 + 1) + 4 * (p.1 as u128 + 1) + f) as u64
}

impl ChallengeSolver for Solver {
    open spec fn solvable_a(&self) -> bool {
        &&& self.wf()
        &&& walk_flat(self@.0, self@.1, self@.2, self@.1.len() as int) is Some
        &&& flat_answer(self@.0, self@.1, self@.2) <= u64::MAX
    }

    open spec fn solvable_b(&self) -> bool {
        &&& self.wf()
        &&& self@.3 >= 1
        &&& blocks_fit(self@.0, self@.3)
        &&& walk_cube(self@.0, self@.3, self@.1, self@.1.len() as int) is Some
        &&& match walk_cube(self@.0, self@.3, self@.1, self@.1.len() as int) {
            Some(p) => orientation(self@.0, self@.3)[p.face as int] is Some,
            None => false,
        }
        &&& cube_answer(self@.0, self@.3, self@.1) <= u64::MAX
    }

    open spec fn answer_a(&self) -> Seq<char> {
        decimal(flat_answer(self@.0, self@.1, self@.2) as nat)
    }

    open spec fn answer_b(&self) -> Seq<char> {
        decimal(cube_answer(self@.0, self@.3, self@.1) as nat)
    }

    /// The password at the end of the walk on the flat board.
    fn get_part_a_result(&self) -> (r: String) {
        let (pos, dir) = self.run_simulation();
        proof {
            assert(self@.0[0] == self.map@[0]@);
        }
        u64_to_string(password_of(pos, dir))
    }

    /// The password at the end of the walk on the folded cube.
    fn get_part_b_result(&self) -> (r: String) {
        let orient = self.dissect_cube();
        let cube = self.face_grids(&orient);
        let end = self.run_3d_steps(&cube, &orient);
        let q = self.convert_pos(&orient, end);
        u64_to_string(password_of(q.pos, q.dir))
    }
}

} // verus!
