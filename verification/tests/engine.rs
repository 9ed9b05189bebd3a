//! Scenario tests for the reveal engine, the flag cycle, and the
//! terminal freeze.

use minesweeper::Board;
use minesweeper::GameStatus;
use minesweeper::Msg;
use minesweeper::TileState;
use minesweeper::TileType;

fn board_with(size: usize, mines: &[(usize, usize)]) -> Board {
    let mines: Vec<(usize, usize)> = mines.to_vec();
    Board::with_mines(size, &mines).unwrap()
}

#[test]
fn scenario_a_positive_count_reveals_alone() {
    // 3x3 board, single mine at (1,1): (0,0) is an Empty(1) cell, so
    // revealing it uncovers only (0,0) and the game goes on.
    let mut b = board_with(3, &[(1, 1)]);
    let changed = b.reveal_at(0, 0);
    assert_eq!(changed, vec![(0, 0)]);
    assert_eq!(b.status(), GameStatus::InProgress);
    let v = b.cell_view(0, 0);
    assert_eq!(v.state, TileState::Visible);
    assert_eq!(v.kind, Some(TileType::NotBomb(1)));
    for col in 0..3 {
        for row in 0..3 {
            if (col, row) != (0, 0) {
                let v = b.cell_view(col, row);
                assert_eq!(v.state, TileState::Hidden);
                assert_eq!(v.kind, None);
            }
        }
    }
}

#[test]
fn scenario_b_zero_count_cascades_to_boundary() {
    // 3x3 board, single mine at (2,2): (0,0) is an Empty(0) cell whose
    // whole neighborhood is mine-free, so the cascade uncovers every
    // cell up to (and including) the count-1 boundary around the mine,
    // leaving only the mine hidden.
    let mut b = board_with(3, &[(2, 2)]);
    let changed = b.reveal_at(0, 0);
    assert_eq!(changed.len(), 8);
    assert!(!changed.contains(&(2, 2)));
    for col in 0..3 {
        for row in 0..3 {
            let v = b.cell_view(col, row);
            if (col, row) == (2, 2) {
                assert_eq!(v.state, TileState::Hidden);
            } else {
                assert_eq!(v.state, TileState::Visible);
                assert!(changed.contains(&(col, row)));
            }
        }
    }
    // Every empty cell is revealed and no mine was hit: the game is won.
    assert_eq!(b.status(), GameStatus::Won);
}

#[test]
fn scenario_c_revealing_a_mine_loses() {
    // 5x5 board, mine at (3,3): revealing it loses, and the cell view
    // reports a revealed mine.
    let mut b = board_with(5, &[(3, 3)]);
    let changed = b.reveal_at(3, 3);
    assert_eq!(changed, vec![(3, 3)]);
    assert_eq!(b.status(), GameStatus::Lost);
    let v = b.cell_view(3, 3);
    assert_eq!(v.state, TileState::Visible);
    assert_eq!(v.kind, Some(TileType::Bomb));
}

#[test]
fn scenario_d_zero_mines_all_revealed_wins() {
    // A board without mines: one reveal cascades across the whole board
    // and wins the game.
    let mut b = board_with(2, &[]);
    let changed = b.reveal_at(0, 0);
    assert_eq!(changed.len(), 4);
    assert_eq!(b.status(), GameStatus::Won);
    for col in 0..2 {
        for row in 0..2 {
            assert_eq!(b.cell_view(col, row).state, TileState::Visible);
        }
    }
}

#[test]
fn cascade_stops_at_positive_counts() {
    // A wall of mines down the middle column: revealing a left-hand
    // cell uncovers the left zero-region and its count-3 boundary, and
    // nothing on the far side of the wall.
    let mines: Vec<(usize, usize)> = (0..5).map(|r| (2, r)).collect();
    let mut b = board_with(5, &mines);
    let changed = b.reveal_at(0, 0);
    assert_eq!(changed.len(), 10);
    for row in 0..5 {
        assert_eq!(b.cell_view(0, row).state, TileState::Visible);
        assert_eq!(b.cell_view(0, row).kind, Some(TileType::NotBomb(0)));
        assert_eq!(b.cell_view(1, row).state, TileState::Visible);
        assert_eq!(b.cell_view(2, row).state, TileState::Hidden);
        assert_eq!(b.cell_view(3, row).state, TileState::Hidden);
        assert_eq!(b.cell_view(4, row).state, TileState::Hidden);
    }
    assert_eq!(b.cell_view(1, 2).kind, Some(TileType::NotBomb(3)));
    assert_eq!(b.cell_view(1, 0).kind, Some(TileType::NotBomb(2)));
    assert_eq!(b.status(), GameStatus::InProgress);
}

#[test]
fn cascade_region_is_the_same_from_any_cell_in_it() {
    // Two different zero-count cells of one connected region uncover
    // the same set of cells: the outcome depends on the region, not on
    // where in it the click lands or in what order neighbors are taken.
    let mut from_corner = board_with(3, &[(2, 2)]);
    let mut from_edge = board_with(3, &[(2, 2)]);
    let mut a = from_corner.reveal_at(0, 0);
    let mut b = from_edge.reveal_at(0, 1);
    a.sort();
    b.sort();
    assert_eq!(a, b);
    for col in 0..3 {
        for row in 0..3 {
            assert_eq!(
                from_corner.cell_view(col, row).state,
                from_edge.cell_view(col, row).state
            );
        }
    }
}

#[test]
fn reveal_is_idempotent_on_revealed_cells() {
    let mut b = board_with(3, &[(1, 1)]);
    let first = b.reveal_at(0, 0);
    assert_eq!(first, vec![(0, 0)]);
    let second = b.reveal_at(0, 0);
    assert!(second.is_empty());
    assert_eq!(b.cell_view(0, 0).state, TileState::Visible);
    assert_eq!(b.status(), GameStatus::InProgress);
}

#[test]
fn reveal_skips_flagged_and_questioned_cells() {
    let mut b = board_with(3, &[(1, 1)]);
    assert!(b.toggle_flag(0, 0));
    assert!(b.reveal_at(0, 0).is_empty());
    assert_eq!(b.cell_view(0, 0).state, TileState::Flagged);
    assert!(b.toggle_flag(0, 0));
    assert!(b.reveal_at(0, 0).is_empty());
    assert_eq!(b.cell_view(0, 0).state, TileState::QuestionMark);
    assert!(b.toggle_flag(0, 0));
    assert_eq!(b.cell_view(0, 0).state, TileState::Hidden);
    assert_eq!(b.reveal_at(0, 0), vec![(0, 0)]);
}

#[test]
fn flag_cycle_returns_to_hidden_after_three_toggles() {
    let mut b = board_with(3, &[(1, 1)]);
    assert_eq!(b.cell_view(2, 2).state, TileState::Hidden);
    assert!(b.toggle_flag(2, 2));
    assert_eq!(b.cell_view(2, 2).state, TileState::Flagged);
    assert!(b.toggle_flag(2, 2));
    assert_eq!(b.cell_view(2, 2).state, TileState::QuestionMark);
    assert!(b.toggle_flag(2, 2));
    assert_eq!(b.cell_view(2, 2).state, TileState::Hidden);
}

#[test]
fn flag_toggle_leaves_revealed_cells_alone() {
    let mut b = board_with(3, &[(1, 1)]);
    b.reveal_at(0, 0);
    for _ in 0..5 {
        assert!(!b.toggle_flag(0, 0));
        assert_eq!(b.cell_view(0, 0).state, TileState::Visible);
    }
}

#[test]
fn terminal_freeze_after_loss() {
    let mut b = board_with(3, &[(1, 1)]);
    b.reveal_at(1, 1);
    assert_eq!(b.status(), GameStatus::Lost);
    assert!(b.reveal_at(0, 0).is_empty());
    assert!(!b.toggle_flag(0, 0));
    assert_eq!(b.cell_view(0, 0).state, TileState::Hidden);
    assert_eq!(b.status(), GameStatus::Lost);
}

#[test]
fn terminal_freeze_after_win() {
    let mut b = board_with(2, &[]);
    b.reveal_at(1, 1);
    assert_eq!(b.status(), GameStatus::Won);
    assert!(!b.toggle_flag(0, 0));
    assert!(b.reveal_at(0, 0).is_empty());
    assert_eq!(b.status(), GameStatus::Won);
}

#[test]
fn lost_board_surfaces_every_mine() {
    // Once the game is lost every mine is exposed to the presentation
    // layer, without its stored visibility changing.
    let mut b = board_with(4, &[(0, 3), (3, 0)]);
    b.reveal_at(0, 3);
    assert_eq!(b.status(), GameStatus::Lost);
    let other = b.cell_view(3, 0);
    assert_eq!(other.kind, Some(TileType::Bomb));
    assert_eq!(other.state, TileState::Hidden);
    assert_eq!(b.square_class(3, 0), "bomb");
}

#[test]
fn update_dispatches_select_and_right_click() {
    let mut b = board_with(3, &[(1, 1)]);
    assert!(b.update(Msg::RightClick(0, 0)));
    assert_eq!(b.cell_view(0, 0).state, TileState::Flagged);
    assert!(!b.update(Msg::Select(0, 0)));
    assert!(b.update(Msg::RightClick(0, 0)));
    assert!(b.update(Msg::RightClick(0, 0)));
    assert!(b.update(Msg::Select(0, 0)));
    assert_eq!(b.cell_view(0, 0).state, TileState::Visible);
    let mut frozen = board_with(3, &[(1, 1)]);
    frozen.reveal_at(1, 1);
    assert!(!frozen.update(Msg::Select(0, 0)));
    assert!(!frozen.update(Msg::RightClick(0, 0)));
}

#[test]
fn square_class_follows_visibility() {
    let mut b = board_with(3, &[(1, 1)]);
    assert_eq!(b.square_class(0, 0), "hidden");
    b.toggle_flag(0, 0);
    assert_eq!(b.square_class(0, 0), "flag");
    b.toggle_flag(0, 0);
    assert_eq!(b.square_class(0, 0), "question-mark");
    b.toggle_flag(0, 0);
    b.reveal_at(0, 0);
    assert_eq!(b.square_class(0, 0), "visible");
}

#[test]
fn tile_symbols_show_markers_and_counts() {
    let mut b = board_with(3, &[(1, 1)]);
    assert_eq!(b.get_tile_symbol(0, 0), "");
    b.toggle_flag(0, 0);
    assert_eq!(b.get_tile_symbol(0, 0), "🚩");
    b.toggle_flag(0, 0);
    assert_eq!(b.get_tile_symbol(0, 0), "❓");
    b.toggle_flag(0, 0);
    b.reveal_at(0, 0);
    assert_eq!(b.get_tile_symbol(0, 0), "1");
    let mut empty = board_with(2, &[]);
    empty.reveal_at(0, 0);
    assert_eq!(empty.get_tile_symbol(1, 1), "");
}
