use vstd::prelude::*;
use crate::point::Point;
use crate::{DISPLAY_HEIGHT, DISPLAY_WIDTH, SCREEN_HEIGHT, SCREEN_WIDTH};

verus! {

/// Clamping of `val` into `[lower, upper]`, as the camera applies it.
pub open spec fn spec_trim(lower: int, val: int, upper: int) -> int {
    if val < lower {
        lower
    } else if val > upper {
        upper
    } else {
        val
    }
}

/// The camera's horizontal center for a player standing at column `x`.
pub open spec fn camera_center_x(x: int) -> int {
    spec_trim(DISPLAY_WIDTH as int / 2, x, SCREEN_WIDTH as int - DISPLAY_WIDTH as int / 2)
}

/// The camera's vertical center for a player standing at row `y`.
pub open spec fn camera_center_y(y: int) -> int {
    spec_trim(DISPLAY_HEIGHT as int / 2, y, SCREEN_HEIGHT as int - DISPLAY_HEIGHT as int / 2 - 1)
}

/// The view window onto the grid. Its center follows the player but is
/// clamped so the window never leaves
/// `[DISPLAY_WIDTH/2, SCREEN_WIDTH - DISPLAY_WIDTH/2] x
///  [DISPLAY_HEIGHT/2, SCREEN_HEIGHT - DISPLAY_HEIGHT/2 - 1]`.
pub struct Camera {
    pub left_x: i32,
    pub right_x: i32,
    pub top_y: i32,
    pub bottom_y: i32,
}

impl Camera {
    /// The window `self` describes is the clamped window for a player at `p`.
    pub open spec fn follows(self, p: Point) -> bool {
        &&& self.left_x == camera_center_x(p.x as int) - DISPLAY_WIDTH as int / 2
        &&& self.right_x == self.left_x + DISPLAY_WIDTH
        &&& self.top_y == camera_center_y(p.y as int) - DISPLAY_HEIGHT as int / 2
        &&& self.bottom_y == self.top_y + DISPLAY_HEIGHT
    }

    pub fn new(player_position: Point) -> (r: Camera)
        ensures
            r.follows(player_position),
    {
        let mut result = Camera { left_x: 0, right_x: 0, top_y: 0, bottom_y: 0 };
        result.on_player_move(player_position);
        result
    }

    pub fn on_player_move(&mut self, player_position: Point)
        ensures
            final(self).follows(player_position),
    {
        let center_x = trim_value(DISPLAY_WIDTH / 2, player_position.x, SCREEN_WIDTH - DISPLAY_WIDTH / 2);
        let center_y = trim_value(
            DISPLAY_HEIGHT / 2,
            player_position.y,
            SCREEN_HEIGHT - DISPLAY_HEIGHT / 2 - 1,
        );
        self.left_x = center_x - DISPLAY_WIDTH / 2;
        self.right_x = self.left_x + DISPLAY_WIDTH;
        self.top_y = center_y - DISPLAY_HEIGHT / 2;
        self.bottom_y = self.top_y + DISPLAY_HEIGHT;
    }
}

fn trim_value(lower: i32, val: i32, upper: i32) -> (r: i32)
    requires
        lower <= upper,
    ensures
        r == spec_trim(lower as int, val as int, upper as int),
{
    if val < lower {
        lower
    } else if val > upper {
        upper
    } else {
        val
    }
}

} // verus!
