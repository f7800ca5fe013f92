use vstd::prelude::*;

use crate::coord::board_ok;

verus! {

fn default_width() -> (r: i32)
    ensures
        r == 40,
{
    40
}

fn default_height() -> (r: i32)
    ensures
        r == 30,
{
    30
}

fn default_food_static() -> (r: i32)
    ensures
        r == 1,
{
    1
}

fn default_state_delay_ms() -> (r: i32)
    ensures
        r == 1000,
{
    1000
}

/// Board size, target food count and turn interval of one game.
#[derive(Clone, Copy, Debug, PartialEq, Eq, Structural)]
pub struct GameConfig {
    pub width: i32,
    pub height: i32,
    pub food_static: i32,
    pub state_delay_ms: i32,
}

impl GameConfig {
    /// The board has an interior, the food target is not negative and a
    /// turn takes some time.
    pub open spec fn wf(&self) -> bool {
        &&& board_ok(self.width as int, self.height as int)
        &&& self.food_static >= 0
        &&& self.state_delay_ms > 0
    }

    /// The configuration a newly created game starts with.
    pub fn custom_default() -> (r: GameConfig)
        ensures
            r.width == 20,
            r.height == 20,
            r.food_static == 5,
            r.state_delay_ms == 300,
            r.wf(),
    {
        GameConfig { width: 20, height: 20, food_static: 5, state_delay_ms: 300 }
    }

    /// The window within which a deputy must hear from the master:
    /// twice the turn interval.
    pub fn master_timeout_ms(&self) -> (r: i64)
        ensures
            r == 2 * self.state_delay_ms,
    {
        2 * (self.state_delay_ms as i64)
    }
}

impl Default for GameConfig {
    fn default() -> (r: GameConfig)
        ensures
            r.width == 40,
            r.height == 30,
            r.food_static == 1,
            r.state_delay_ms == 1000,
    {
        GameConfig {
            width: default_width(),
            height: default_height(),
            food_static: default_food_static(),
            state_delay_ms: default_state_delay_ms(),
        }
    }
}

} // verus!
