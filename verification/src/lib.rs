//! A verified library for a reindeer maze game and its tools: grid
//! coordinates and directions, maze parsing, a rotation-aware cheapest-path
//! search, the decisions of the main level, what is done with random draws,
//! the credits for the assets used, and keeping a version number in step
//! across project files.
pub mod coordinate;
pub mod credits;
pub mod direction;
pub mod directories;
pub mod level;
pub mod maze;
pub mod maze_tile_state;
pub mod path_info;
pub mod path_search;
pub mod paths;
pub mod random;
pub mod text;
pub mod version_sync;
