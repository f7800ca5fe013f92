use vstd::prelude::*;

use crate::direction::Direction;

verus! {

/// A board of this size has a non-empty interior.
pub open spec fn board_ok(w: int, h: int) -> bool {
    3 <= w && 3 <= h
}

/// Moving onto the outer ring along one axis re-enters from the opposite
/// interior edge.
pub open spec fn wrap_axis(v: int, n: int) -> int {
    if v <= 0 {
        n - 2
    } else if v >= n - 1 {
        1
    } else {
        v
    }
}

pub open spec fn interior_axis(v: int, n: int) -> bool {
    1 <= v <= n - 2
}

/// A cell off the reserved outer ring.
pub open spec fn interior(c: (int, int), w: int, h: int) -> bool {
    interior_axis(c.0, w) && interior_axis(c.1, h)
}

/// Where `c` lands after adding `d`, with toroidal wraparound.
pub open spec fn step_cell(c: (int, int), d: (int, int), w: int, h: int) -> (int, int) {
    (wrap_axis(c.0 + d.0, w), wrap_axis(c.1 + d.1, h))
}

/// Adding `d` to `c` leaves the interior, so the move is a wraparound jump.
pub open spec fn is_jump(c: (int, int), d: (int, int), w: int, h: int) -> bool {
    !interior((c.0 + d.0, c.1 + d.1), w, h)
}

/// An absolute cell, or a signed run along one axis inside a snake's body.
#[allow(non_camel_case_types)]
#[derive(Clone, Copy, Debug, PartialEq, Eq, Structural)]
pub struct GameState_Coord {
    pub x: i32,
    pub y: i32,
}

impl GameState_Coord {
    pub open spec fn cell(self) -> (int, int) {
        (self.x as int, self.y as int)
    }

    pub fn new_custom(x: i32, y: i32) -> (r: GameState_Coord)
        ensures
            r.x == x,
            r.y == y,
    {
        GameState_Coord { x, y }
    }

    /// Adds `delta`, wrapping each axis that reaches the outer ring.
    pub fn next(&self, delta: &GameState_Coord, width: i32, height: i32) -> (r: GameState_Coord)
        requires
            board_ok(width as int, height as int),
        ensures
            r.cell() == step_cell(self.cell(), delta.cell(), width as int, height as int),
    {
        let x: i64 = self.x as i64 + delta.x as i64;
        let nx: i32 = if x <= 0 {
            width - 2
        } else if x >= width as i64 - 1 {
            1
        } else {
            x as i32
        };
        let y: i64 = self.y as i64 + delta.y as i64;
        let ny: i32 = if y <= 0 {
            height - 2
        } else if y >= height as i64 - 1 {
            1
        } else {
            y as i32
        };
        GameState_Coord::new_custom(nx, ny)
    }

    pub fn next_with_dir(&self, dir: Direction, width: i32, height: i32) -> (r: GameState_Coord)
        requires
            board_ok(width as int, height as int),
        ensures
            r.cell() == step_cell(self.cell(), dir.delta(), width as int, height as int),
    {
        self.next(&dir.get_delta(), width, height)
    }

    /// Whether adding `delta` reaches the outer ring on either axis.
    pub fn check_next_for_jump(&self, delta: &GameState_Coord, width: i32, height: i32) -> (r: bool)
        ensures
            r == is_jump(self.cell(), delta.cell(), width as int, height as int),
    {
        let x: i64 = self.x as i64 + delta.x as i64;
        if x <= 0 || x >= width as i64 - 1 {
            return true;
        }
        let y: i64 = self.y as i64 + delta.y as i64;
        if y <= 0 || y >= height as i64 - 1 {
            return true;
        }
        false
    }

    pub fn reverse(&self) -> (r: GameState_Coord)
        requires
            self.x != i32::MIN,
            self.y != i32::MIN,
        ensures
            r.x == -self.x,
            r.y == -self.y,
    {
        GameState_Coord::new_custom(-self.x, -self.y)
    }
}

} // verus!
