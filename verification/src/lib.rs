//! A verified minesweeper game engine.
//!
//! The engine owns a square board of tiles, each a mine or an empty cell
//! annotated with the number of mines among its up-to-8 neighbors. Players
//! reveal cells (with a flood-fill cascade through zero-count regions),
//! cycle a marker flag on unrevealed cells, and the game status (in
//! progress, lost, won) is derived from the board after every mutation.

pub mod board;
pub mod generate;
pub mod grid;
pub mod tile;

pub use board::Board;
pub use board::CellView;
pub use board::GameStatus;
pub use board::Msg;
pub use generate::generate_board;
pub use generate::BoardError;
pub use tile::Tile;
pub use tile::TileState;
pub use tile::TileType;
