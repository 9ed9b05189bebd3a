//! Tests for board generation: mine totals, neighbor counts, placement
//! order, and the rejected configurations.

use minesweeper::generate_board;
use minesweeper::Board;
use minesweeper::BoardError;
use minesweeper::GameStatus;
use minesweeper::TileType;

fn board_with(size: usize, mines: &[(usize, usize)]) -> Board {
    let mines: Vec<(usize, usize)> = mines.to_vec();
    Board::with_mines(size, &mines).unwrap()
}

/// Play the board to its end by scanning reveals, then read every
/// cell's kind: after a loss `cell_view` exposes all kinds, and after a
/// win the only cells still hidden are the mines.
fn exposed_kinds(b: &mut Board) -> Vec<Vec<TileType>> {
    let size = b.size();
    for col in 0..size {
        for row in 0..size {
            if b.status() == GameStatus::InProgress {
                b.reveal_at(col, row);
            }
        }
    }
    assert_ne!(b.status(), GameStatus::InProgress);
    let mut rows = Vec::new();
    for row in 0..size {
        let mut cells = Vec::new();
        for col in 0..size {
            cells.push(b.cell_view(col, row).kind.unwrap_or(TileType::Bomb));
        }
        rows.push(cells);
    }
    rows
}

fn count_of(kind: TileType) -> Option<u32> {
    match kind {
        TileType::Bomb => None,
        TileType::NotBomb(n) => Some(n),
    }
}

#[test]
fn generated_board_has_exact_mine_total_and_counts() {
    // A random board: exactly the asked-for number of mines, and every
    // empty cell counting exactly the mines in its clipped neighborhood.
    let mut b = generate_board(6, 10).unwrap();
    assert_eq!(b.size(), 6);
    let kinds = exposed_kinds(&mut b);
    let mut mines = 0;
    for row in 0..6usize {
        for col in 0..6usize {
            if kinds[row][col] == TileType::Bomb {
                mines += 1;
            }
        }
    }
    assert_eq!(mines, 10);
    for row in 0..6usize {
        for col in 0..6usize {
            if let Some(n) = count_of(kinds[row][col]) {
                let mut around = 0;
                for dc in -1i64..=1 {
                    for dr in -1i64..=1 {
                        if (dc, dr) == (0, 0) {
                            continue;
                        }
                        let (nc, nr) = (col as i64 + dc, row as i64 + dr);
                        if (0..6).contains(&nc)
                            && (0..6).contains(&nr)
                            && kinds[nr as usize][nc as usize] == TileType::Bomb
                        {
                            around += 1;
                        }
                    }
                }
                assert_eq!(n, around, "count at ({col},{row})");
            }
        }
    }
}

#[test]
fn explicit_counts_around_two_mines() {
    // 3x3 board with mines at (0,0) and (1,1): counts worked out by hand.
    let mut b = board_with(3, &[(0, 0), (1, 1)]);
    let kinds = exposed_kinds(&mut b);
    assert_eq!(kinds[0][0], TileType::Bomb);
    assert_eq!(kinds[1][1], TileType::Bomb);
    assert_eq!(kinds[0][1], TileType::NotBomb(2));
    assert_eq!(kinds[1][0], TileType::NotBomb(2));
    assert_eq!(kinds[0][2], TileType::NotBomb(1));
    assert_eq!(kinds[1][2], TileType::NotBomb(1));
    assert_eq!(kinds[2][0], TileType::NotBomb(1));
    assert_eq!(kinds[2][1], TileType::NotBomb(1));
    assert_eq!(kinds[2][2], TileType::NotBomb(1));
}

#[test]
fn mine_placement_order_does_not_change_counts() {
    // The same mine set placed in two different orders gives the same
    // kinds everywhere: counts accumulate commutatively.
    let mines = [(0usize, 0usize), (2, 1), (1, 2), (3, 3)];
    let mut forward = board_with(4, &mines);
    let mut backward: Vec<(usize, usize)> = mines.to_vec();
    backward.reverse();
    let mut reversed = board_with(4, &backward);
    assert_eq!(exposed_kinds(&mut forward), exposed_kinds(&mut reversed));
}

#[test]
fn generated_board_starts_hidden_and_in_progress() {
    let b = generate_board(5, 7).unwrap();
    assert_eq!(b.status(), GameStatus::InProgress);
    for col in 0..5 {
        for row in 0..5 {
            let v = b.cell_view(col, row);
            assert_eq!(v.state, minesweeper::TileState::Hidden);
            assert_eq!(v.kind, None);
        }
    }
}

#[test]
fn generate_rejects_too_many_bombs() {
    assert_eq!(generate_board(2, 4).unwrap_err(), BoardError::TooManyBombs);
    assert_eq!(generate_board(2, 5).unwrap_err(), BoardError::TooManyBombs);
    assert!(generate_board(2, 3).is_ok());
    assert!(generate_board(1, 0).is_ok());
}

#[test]
fn with_mines_rejects_bad_lists() {
    let dup: Vec<(usize, usize)> = vec![(0, 0), (1, 1), (0, 0)];
    assert_eq!(Board::with_mines(3, &dup).unwrap_err(), BoardError::DuplicateMine);
    let out: Vec<(usize, usize)> = vec![(0, 3)];
    assert_eq!(Board::with_mines(3, &out).unwrap_err(), BoardError::MineOutOfBounds);
    let full: Vec<(usize, usize)> = vec![(0, 0), (0, 1), (1, 0), (1, 1)];
    assert_eq!(Board::with_mines(2, &full).unwrap_err(), BoardError::TooManyBombs);
}

#[test]
fn full_game_on_generated_board_ends() {
    // Reveal every cell of a random board one by one: the game always
    // ends, lost on a mine, or won if every empty cell came up before
    // the scan touched one.
    let mut b = generate_board(8, 12).unwrap();
    for col in 0..8 {
        for row in 0..8 {
            if b.status() == GameStatus::InProgress {
                b.reveal_at(col, row);
            }
        }
    }
    assert_ne!(b.status(), GameStatus::InProgress);
}
