pub mod camera;
pub mod components;
pub mod fov;
pub mod map;
pub mod map_builder;
pub mod store;
pub mod path;
pub mod point;
pub mod rng;
pub mod spawner;
pub mod state;
pub mod systems;
pub mod turn_state;

use vstd::prelude::*;

verus! {

/// Width of the tile grid, in cells.
pub const SCREEN_WIDTH: i32 = 80;
/// Height of the tile grid, in cells.
pub const SCREEN_HEIGHT: i32 = 50;
/// Width of the camera window, in cells.
pub const DISPLAY_WIDTH: i32 = 40;
/// Height of the camera window, in cells.
pub const DISPLAY_HEIGHT: i32 = 25;
/// Number of cells in the grid.
pub const NUM_TILES: usize = 4000;

/// The grid holds exactly `SCREEN_WIDTH * SCREEN_HEIGHT` cells.
pub proof fn lemma_num_tiles()
    ensures
        NUM_TILES == SCREEN_WIDTH * SCREEN_HEIGHT,
{
}

} // verus!
