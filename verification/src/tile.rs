//! Tile data model: the immutable kind of a cell (mine or empty with a
//! neighbor count) and its mutable visibility state, together with the
//! marker-flag cycle a right click steps through.

use vstd::prelude::*;

verus! {

/// What a cell is, fixed at board generation: a mine, or an empty cell
/// carrying the number of mines among its up-to-8 neighbors.
#[derive(Debug, Copy, Clone, PartialEq, Eq, Structural)]
pub enum TileType {
    Bomb,
    NotBomb(u32),
}

/// How a cell is shown: still hidden, revealed, or carrying one of the
/// two player markers.
#[derive(Debug, Copy, Clone, PartialEq, Eq, Structural)]
pub enum TileState {
    Flagged,
    QuestionMark,
    Visible,
    Hidden,
}

/// One cell of the board.
#[derive(Debug, Copy, Clone, PartialEq, Eq, Structural)]
pub struct Tile {
    pub tile_type: TileType,
    pub state: TileState,
}

/// The state a marker toggle moves a tile state to: the cycle
/// `Hidden -> Flagged -> QuestionMark -> Hidden`, with `Visible` fixed.
pub open spec fn next_flag_state(s: TileState) -> TileState {
    match s {
        TileState::Hidden => TileState::Flagged,
        TileState::Flagged => TileState::QuestionMark,
        TileState::QuestionMark => TileState::Hidden,
        TileState::Visible => TileState::Visible,
    }
}

/// Law: three marker toggles bring any tile state back to where it
/// started; in particular a hidden cell returns to hidden, and a revealed
/// cell is unaffected by any number of toggles.
pub proof fn lemma_flag_cycle(s: TileState)
    ensures
        next_flag_state(next_flag_state(next_flag_state(s))) == s,
{
}

} // verus!
