use vstd::prelude::*;

verus! {

/// One maze cell.  While its row is being generated, `set_id` names the
/// disjoint set of cells known to be mutually reachable (0 means the cell
/// has not been assigned to a set yet); `right_wall` and `bottom_wall` are
/// the two walls the cell owns.
#[derive(Clone, Copy, Debug)]
pub struct Cell {
    pub set_id: usize,
    pub right_wall: bool,
    pub bottom_wall: bool,
}

/// A finished maze: `height` rows of `width` cells each, top to bottom.
pub struct EllerMaze {
    pub maze: Vec<Vec<Cell>>,
}

/// Skews the wall/passage coin so that corridors tend to run in one
/// direction.  `Normal` is an unbiased coin in both directions.
#[derive(Clone, Copy, Debug)]
pub enum MazeOrient {
    Normal,
    Vertical,
    Horizontal,
}

/// Every set id in the row is at most `w`.
pub open spec fn ids_le(r: Seq<Cell>, w: int) -> bool {
    forall|i: int| 0 <= i < r.len() ==> (#[trigger] r[i]).set_id as int <= w
}

/// Every cell of the row has been assigned: its set id lies in `1..=w`.
pub open spec fn ids_pos(r: Seq<Cell>, w: int) -> bool {
    forall|i: int| 0 <= i < r.len()
        ==> 1 <= (#[trigger] r[i]).set_id as int <= w
}

/// Some cell of the row belongs to set `s`.
pub open spec fn set_present(r: Seq<Cell>, s: int) -> bool {
    exists|i: int| 0 <= i < r.len() && (#[trigger] r[i]).set_id as int == s
}

/// Some cell of set `s` ends the row without a bottom wall, so the set
/// keeps a passage into the row below.
pub open spec fn set_has_down_exit(r: Seq<Cell>, s: int) -> bool {
    exists|i: int|
        0 <= i < r.len() && (#[trigger] r[i]).set_id as int == s
            && !r[i].bottom_wall
}

/// The downward-exit invariant: every set present in the row keeps at
/// least one member cell open toward the next row.
pub open spec fn down_exit_ok(r: Seq<Cell>) -> bool {
    forall|s: int| #[trigger] set_present(r, s) ==> set_has_down_exit(r, s)
}

} // verus!
