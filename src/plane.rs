use vstd::prelude::*;

verus! {

/// A step on a grid, or `Still` for none. Rows grow downwards, columns to
/// the right.
#[derive(Debug, PartialEq, Eq, Structural, Clone, Copy, Hash)]
pub enum Direction {
    Still,
    Up,
    Right,
    Down,
    Left,
}

/// The direction `d` turned a quarter to the `turn` side; any `turn` but
/// `Right` and `Left` leaves it as it is.
pub open spec fn rotated(d: Direction, turn: Direction) -> Direction {
    match turn {
        Direction::Right => match d {
            Direction::Still => Direction::Still,
            Direction::Up => Direction::Right,
            Direction::Right => Direction::Down,
            Direction::Down => Direction::Left,
            Direction::Left => Direction::Up,
        },
        Direction::Left => match d {
            Direction::Still => Direction::Still,
            Direction::Up => Direction::Left,
            Direction::Left => Direction::Down,
            Direction::Down => Direction::Right,
            Direction::Right => Direction::Up,
        },
        _ => d,
    }
}

impl Direction {
    /// The four directions, clockwise from `Up`.
    pub fn get_basic_directions() -> (r: [Direction; 4])
        ensures
            r@ == seq![Direction::Up, Direction::Right, Direction::Down, Direction::Left],
    {
        let r = [Direction::Up, Direction::Right, Direction::Down, Direction::Left];
        assert(r@ =~= seq![Direction::Up, Direction::Right, Direction::Down, Direction::Left]);
        r
    }

    /// Turns a quarter to the side that `dir` names.
    pub fn rotate(&self, dir: &Direction) -> (r: Direction)
        ensures
            r == rotated(*self, *dir),
    {
        if *dir == Direction::Right {
            return match self {
                Direction::Still => Direction::Still,
                Direction::Up => Direction::Right,
                Direction::Right => Direction::Down,
                Direction::Down => Direction::Left,
                Direction::Left => Direction::Up,
            };
        } else if *dir == Direction::Left {
            return match self {
                Direction::Still => Direction::Still,
                Direction::Up => Direction::Left,
                Direction::Left => Direction::Down,
                Direction::Down => Direction::Right,
                Direction::Right => Direction::Up,
            };
        }
        *self
    }
}

/// A point of the plane.
pub struct Coordinates {
    x: isize,
    y: isize,
}

impl Coordinates {
    pub fn new(x: isize, y: isize) -> (r: Coordinates)
        ensures
            r.x() == x,
            r.y() == y,
    {
        Coordinates { x, y }
    }

    pub closed spec fn x(&self) -> isize {
        self.x
    }

    pub closed spec fn y(&self) -> isize {
        self.y
    }

    pub fn get_x(&self) -> (r: isize)
        ensures
            r == self.x(),
    {
        self.x
    }

    pub fn get_y(&self) -> (r: isize)
        ensures
            r == self.y(),
    {
        self.y
    }
}

/// A rectangle of rows `low_y..high_y` and columns `low_x..high_x`.
pub struct Boundary {
    pub low_x_boundary: isize,
    pub low_y_boundary: isize,
    pub high_x_boundary: isize,
    pub high_y_boundary: isize,
}

/// Where a step from row `i`, column `j` lands, or `None` where it leaves the
/// rectangle. A step down or up checks only the rows, a step to the side
/// checks the column and that the row is inside.
pub open spec fn moved(b: Boundary, i: int, j: int, dir: Direction) -> Option<(int, int)> {
    match dir {
        Direction::Still => Some((i, j)),
        Direction::Down => if i >= b.high_y_boundary - 1 {
            None
        } else {
            Some((i + 1, j))
        },
        Direction::Right => if j >= b.high_x_boundary - 1 || i < b.low_y_boundary || i
            >= b.high_y_boundary {
            None
        } else {
            Some((i, j + 1))
        },
        Direction::Left => if j <= b.low_x_boundary || i < b.low_y_boundary || i
            >= b.high_y_boundary {
            None
        } else {
            Some((i, j - 1))
        },
        Direction::Up => if i <= b.low_y_boundary {
            None
        } else {
            Some((i - 1, j))
        },
    }
}

impl Boundary {
    pub fn new(
        low_x_boundary: isize,
        low_y_boundary: isize,
        high_x_boundary: isize,
        high_y_boundary: isize,
    ) -> (r: Boundary)
        ensures
            r == (Boundary { low_x_boundary, low_y_boundary, high_x_boundary, high_y_boundary }),
    {
        Boundary { low_x_boundary, low_y_boundary, high_x_boundary, high_y_boundary }
    }

    /// The rectangle of an array of `high_y_boundary` rows of
    /// `high_x_boundary` columns.
    pub fn new_array_boundary(high_x_boundary: usize, high_y_boundary: usize) -> (r: Boundary)
        requires
            high_x_boundary <= isize::MAX,
            high_y_boundary <= isize::MAX,
        ensures
            r == (Boundary {
                low_x_boundary: 0,
                low_y_boundary: 0,
                high_x_boundary: high_x_boundary as isize,
                high_y_boundary: high_y_boundary as isize,
            }),
    {
        Boundary {
            low_x_boundary: 0,
            low_y_boundary: 0,
            high_x_boundary: high_x_boundary as isize,
            high_y_boundary: high_y_boundary as isize,
        }
    }

    /// The whole range of `isize`.
    pub fn new_infinite_boundary() -> (r: Boundary)
        ensures
            r == (Boundary {
                low_x_boundary: isize::MIN,
                low_y_boundary: isize::MIN,
                high_x_boundary: isize::MAX,
                high_y_boundary: isize::MAX,
            }),
    {
        Boundary {
            low_x_boundary: isize::MIN,
            low_y_boundary: isize::MIN,
            high_x_boundary: isize::MAX,
            high_y_boundary: isize::MAX,
        }
    }

    /// One step from row `i`, column `j`; `None` where it leaves the rectangle.
    pub fn move_iterator(&self, pos: (isize, isize), dir: &Direction) -> (r: Option<(isize, isize)>)
        ensures
            match moved(*self, pos.0 as int, pos.1 as int, *dir) {
                Some(p) => r == Some((p.0 as isize, p.1 as isize)),
                None => r is None,
            },
    {
        let (i, j) = pos;
        match dir {
            Direction::Still => Some((i, j)),
            Direction::Down => {
                if i as i128 >= self.high_y_boundary as i128 - 1 {
                    None
                } else {
                    Some((i + 1, j))
                }
            },
            Direction::Right => {
                if j as i128 >= self.high_x_boundary as i128 - 1 || i < self.low_y_boundary || i
                    >= self.high_y_boundary {
                    None
                } else {
                    Some((i, j + 1))
                }
            },
            Direction::Left => {
                if j <= self.low_x_boundary || i < self.low_y_boundary || i
                    >= self.high_y_boundary {
                    None
                } else {
                    Some((i, j - 1))
                }
            },
            Direction::Up => {
                if i <= self.low_y_boundary {
                    None
                } else {
                    Some((i - 1, j))
                }
            },
        }
    }

    /// One step in an array from row `i`, column `j`.
    pub fn move_array_iterator(&self, pos: (usize, usize), dir: &Direction) -> (r: Option<
        (usize, usize),
    >)
        requires
            pos.0 <= isize::MAX,
            pos.1 <= isize::MAX,
            self.low_x_boundary >= 0,
            self.low_y_boundary >= 0,
        ensures
            match moved(*self, pos.0 as int, pos.1 as int, *dir) {
                Some(p) => r == Some((p.0 as usize, p.1 as usize)),
                None => r is None,
            },
    {
        let (i, j) = pos;
        if let Some((new_i, new_j)) = self.move_iterator((i as isize, j as isize), dir) {
            return Some((new_i as usize, new_j as usize));
        }
        None
    }

    /// Where a step that leaves the array through one side comes back in
    /// on the opposite side.
    pub fn wrap_array_iterator(&self, pos: (usize, usize), dir: &Direction) -> (r: (usize, usize))
        requires
            *dir == Direction::Left ==> 1 <= self.high_x_boundary,
            *dir == Direction::Up ==> 1 <= self.high_y_boundary,
        ensures
            r == match *dir {
                Direction::Still => pos,
                Direction::Down => (0, pos.1),
                Direction::Right => (pos.0, 0),
                Direction::Left => (pos.0, (self.high_x_boundary - 1) as usize),
                Direction::Up => ((self.high_y_boundary - 1) as usize, pos.1),
            },
    {
        let (i, j) = pos;
        match dir {
            Direction::Still => (i, j),
            Direction::Down => (0, j),
            Direction::Right => (i, 0),
            Direction::Left => (i, self.high_x_boundary as usize - 1),
            Direction::Up => (self.high_y_boundary as usize - 1, j),
        }
    }
}

} // verus!
