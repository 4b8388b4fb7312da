//! Tilings of a rectangular board by a set of pieces.
//!
//! A board is a grid of cells, each free or holding the id of the piece
//! that covers it. The search places pieces one at a time, always with the
//! anchor on the first free cell in row-major order, and undoes each
//! placement on the way back. A piece is on offer while no cell holds its
//! id, so every tiling uses each piece at most once. The tilings of a
//! square board are then reduced to one for each class of boards that are
//! turns or mirror images of each other, by a key that is the same for all
//! boards of a class.
//!
//! The contracts speak of a board through its grid, a sequence of rows of
//! cells, and of the search through the recursive function `solutions`.

pub mod block;
pub mod discovery;
pub mod draw;
pub mod filtering;
pub mod game;
pub mod grid;
pub mod solver;
pub mod symmetry;
pub mod text;
pub mod tiling;
pub mod validators;

pub use block::{Block, BlockGeometry, Offset};
pub use discovery::{add_possibilities, next_possible_placements};
pub use draw::draw_world;
pub use filtering::{filter_out_duplicates, world_id, Rotation};
pub use game::{Game, Inventory, Placement};
pub use grid::{Position, World};
pub use solver::{calculate_sync, merge_branches, search_branch};
pub use validators::{valid_inventory, valid_pos, Valid};
