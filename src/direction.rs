//! The four axis-aligned directions of movement on a grid.

use vstd::prelude::*;

verus! {

/// One of the four axis-aligned directions. `Up` decreases `y`, `Left` decreases `x`.
#[derive(Debug, Clone, Copy, PartialEq, Eq, Hash, Structural)]
pub enum Direction {
    Up,
    Down,
    Left,
    Right,
}

/// The direction reached by a quarter turn clockwise.
pub open spec fn turned_right(d: Direction) -> Direction {
    match d {
        Direction::Up => Direction::Right,
        Direction::Right => Direction::Down,
        Direction::Down => Direction::Left,
        Direction::Left => Direction::Up,
    }
}

/// The coordinate one unit away from `(x, y)` in direction `d`, as integers
/// (it may be negative or past the largest `usize`).
pub open spec fn stepped(d: Direction, x: int, y: int) -> (int, int) {
    match d {
        Direction::Up => (x, y - 1),
        Direction::Down => (x, y + 1),
        Direction::Left => (x - 1, y),
        Direction::Right => (x + 1, y),
    }
}

impl Direction {
    /// The direction after turning a quarter turn clockwise.
    pub fn right(&self) -> (r: Direction)
        ensures
            r == turned_right(*self),
    {
        match self {
            Direction::Up => Direction::Right,
            Direction::Right => Direction::Down,
            Direction::Down => Direction::Left,
            Direction::Left => Direction::Up,
        }
    }

    /// Moves `pos` one unit in this direction. Returns `None` where a coordinate
    /// would go negative or past the largest `usize`.
    pub fn advance(&self, pos: (usize, usize)) -> (r: Option<(usize, usize)>)
        ensures
            ({
                let s = stepped(*self, pos.0 as int, pos.1 as int);
                match r {
                    Some(p) => s == (p.0 as int, p.1 as int),
                    None => s.0 < 0 || s.1 < 0 || s.0 > usize::MAX || s.1 > usize::MAX,
                }
            }),
    {
        let (x, y) = pos;
        match self {
            Direction::Up => match y.checked_sub(1) {
                Some(ny) => Some((x, ny)),
                None => None,
            },
            Direction::Down => match y.checked_add(1) {
                Some(ny) => Some((x, ny)),
                None => None,
            },
            Direction::Left => match x.checked_sub(1) {
                Some(nx) => Some((nx, y)),
                None => None,
            },
            Direction::Right => match x.checked_add(1) {
                Some(nx) => Some((nx, y)),
                None => None,
            },
        }
    }

    /// The character that draws this direction: an arrow (`^ v < >`), or, where
    /// `axis_only` is set, a line along its axis (`|` or `-`).
    pub fn symbol(&self, axis_only: bool) -> (r: char)
        ensures
            axis_only ==> r == (if *self == Direction::Up || *self == Direction::Down { '|' } else { '-' }),
            !axis_only ==> r == match *self {
                Direction::Up => '^',
                Direction::Down => 'v',
                Direction::Left => '<',
                Direction::Right => '>',
            },
    {
        if axis_only {
            match self {
                Direction::Up | Direction::Down => '|',
                Direction::Left | Direction::Right => '-',
            }
        } else {
            match self {
                Direction::Up => '^',
                Direction::Down => 'v',
                Direction::Left => '<',
                Direction::Right => '>',
            }
        }
    }
}

} // verus!
