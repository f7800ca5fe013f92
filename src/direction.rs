use vstd::prelude::*;

use crate::coord::GameState_Coord;

verus! {

/// One of the four cardinal headings of a snake.
#[derive(Clone, Copy, Debug, PartialEq, Eq, Structural)]
pub enum Direction {
    Up,
    Down,
    Left,
    Right,
}

impl Direction {
    /// The heading that points the other way.
    pub open spec fn spec_opposite(self) -> Direction {
        match self {
            Direction::Up => Direction::Down,
            Direction::Down => Direction::Up,
            Direction::Left => Direction::Right,
            Direction::Right => Direction::Left,
        }
    }

    /// The unit step of this heading; `y` grows downwards.
    pub open spec fn delta(self) -> (int, int) {
        match self {
            Direction::Up => (0, -1),
            Direction::Down => (0, 1),
            Direction::Left => (-1, 0),
            Direction::Right => (1, 0),
        }
    }

    pub fn opposite(&self) -> (r: Direction)
        ensures
            r == self.spec_opposite(),
    {
        match *self {
            Direction::Up => Direction::Down,
            Direction::Down => Direction::Up,
            Direction::Left => Direction::Right,
            Direction::Right => Direction::Left,
        }
    }

    pub fn get_delta(&self) -> (r: GameState_Coord)
        ensures
            r.cell() == self.delta(),
    {
        match self {
            Direction::Up => GameState_Coord::new_custom(0, -1),
            Direction::Down => GameState_Coord::new_custom(0, 1),
            Direction::Left => GameState_Coord::new_custom(-1, 0),
            Direction::Right => GameState_Coord::new_custom(1, 0),
        }
    }
}

} // verus!
