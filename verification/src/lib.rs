//! A perfect-maze generator built on Eller's row-by-row algorithm.
//!
//! The maze is grown one row at a time.  Within the live row, cells are
//! grouped into disjoint sets of mutually reachable cells; right walls are
//! chosen so that no passage ever joins two cells of the same set, and
//! bottom walls are chosen so that every set keeps at least one opening
//! toward the next row.  A final closure pass merges whatever sets remain,
//! which leaves the whole maze connected and loop-free.

mod grid;
mod sets;
mod rng;
mod engine;
mod render;

pub use grid::Cell;
pub use grid::EllerMaze;
pub use grid::MazeOrient;
pub use grid::down_exit_ok;
pub use grid::set_present;
pub use grid::set_has_down_exit;
pub use sets::maze_passages;
pub use sets::passages_to;
pub use sets::row_passages;
pub use sets::open_right_to;
pub use sets::open_bottom_to;
pub use sets::num_sets;
pub use render::render_spec;
pub use render::lemma_render_deterministic;
