//! Board generation: mine placement with derived neighbor counts. The
//! deterministic core places one mine and re-establishes the counting
//! invariant; randomness enters only through one trusted draw from
//! `rand`, and mines are sampled uniformly without replacement by
//! drawing from the list of still mine-free cells.

use vstd::prelude::*;

use crate::board::tile_index;
use crate::board::Board;
use crate::board::GameStatus;
use crate::grid::bump;
use crate::grid::cell_count_ok;
use crate::grid::count_mines;
use crate::grid::counts_ok;
use crate::grid::idx_of;
use crate::grid::in_bounds;
use crate::grid::in_neighborhood;
use crate::grid::is_mine_at;
use crate::grid::lemma_count_mines_update;
use crate::grid::lemma_counts_bounded;
use crate::grid::lemma_idx_bounds;
use crate::grid::lemma_index_to_coords;
use crate::grid::lemma_idx_injective;
use crate::grid::tile_at;
use crate::grid::above;
use crate::grid::below;
use crate::grid::left;
use crate::grid::right;
use crate::grid::MAX_SIZE;
use crate::tile::Tile;
use crate::tile::TileState;
use crate::tile::TileType;

verus! {

/// A rejected board configuration: a mine count that leaves no room for
/// a single empty cell, or a mine list that names a cell off the board
/// or names one twice.
#[derive(Debug, Copy, Clone, PartialEq, Eq, Structural)]
pub enum BoardError {
    TooManyBombs,
    MineOutOfBounds,
    DuplicateMine,
}

/// Relies on `rand::random_range` over `0..n`: the sample lies in
/// `[0, n)`. The call panics only on an empty range, which the
/// precondition rules out.
#[verifier::external_body]
fn random_below(n: usize) -> (r: usize)
    requires
        1 <= n,
    ensures
        r < n,
{
    rand::random_range(0..n)
}

/// Add one to the stored count of every empty cell in the clipped
/// 3-by-3 neighborhood of (col, row), the center included; mine cells
/// are left alone.
#[verifier::loop_isolation(false)]
pub fn apply_to_neighs(tiles: &mut Vec<Tile>, size: usize, col: usize, row: usize)
    requires
        col < size,
        row < size,
        size <= MAX_SIZE,
        old(tiles)@.len() == size * size,
        forall|j: int|
            0 <= j < old(tiles)@.len() ==> ((#[trigger] old(tiles)@[j]).tile_type matches
                TileType::NotBomb(n) ==> n < u32::MAX),
    ensures
        final(tiles)@.len() == size * size,
        forall|c: int, r: int|
            in_bounds(size as int, c, r) ==> #[trigger] tile_at(final(tiles)@, size as int, c, r)
                == if in_neighborhood(col as int, row as int, c, r) {
                bump(tile_at(old(tiles)@, size as int, c, r))
            } else {
                tile_at(old(tiles)@, size as int, c, r)
            },
{
    let lc = left(col);
    let rc = right(col, size);
    let ar = above(row);
    let br = below(row, size);
    let mut cn = lc;
    while cn <= rc
        invariant
            lc <= cn <= rc + 1,
            tiles@.len() == size * size,
            forall|c: int, r: int|
                in_bounds(size as int, c, r) ==> #[trigger] tile_at(tiles@, size as int, c, r)
                    == if in_neighborhood(col as int, row as int, c, r) && c < cn {
                    bump(tile_at(old(tiles)@, size as int, c, r))
                } else {
                    tile_at(old(tiles)@, size as int, c, r)
                },
        decreases rc + 1 - cn,
    {
        let mut rn = ar;
        while rn <= br
            invariant
                lc <= cn <= rc,
                ar <= rn <= br + 1,
                tiles@.len() == size * size,
                forall|c: int, r: int|
                    in_bounds(size as int, c, r) ==> #[trigger] tile_at(tiles@, size as int, c, r)
                        == if in_neighborhood(col as int, row as int, c, r) && (c < cn || (c == cn
                        && r < rn)) {
                        bump(tile_at(old(tiles)@, size as int, c, r))
                    } else {
                        tile_at(old(tiles)@, size as int, c, r)
                    },
            decreases br + 1 - rn,
        {
            let ghost prev = tiles@;
            let i = tile_index(size, cn, rn);
            let t = tiles[i];
            match t.tile_type {
                TileType::NotBomb(n) => {
                    proof {
                        assert(tile_at(prev, size as int, cn as int, rn as int) == prev[i as int]);
                    }
                    tiles[i] = Tile { tile_type: TileType::NotBomb(n + 1), state: t.state };
                },
                TileType::Bomb => {},
            }
            proof {
                assert forall|c: int, r: int|
                    in_bounds(size as int, c, r) implies #[trigger] tile_at(
                    tiles@,
                    size as int,
                    c,
                    r,
                ) == if in_neighborhood(col as int, row as int, c, r) && (c < cn || (c == cn && r
                    < rn + 1)) {
                    bump(tile_at(old(tiles)@, size as int, c, r))
                } else {
                    tile_at(old(tiles)@, size as int, c, r)
                } by {
                    lemma_idx_bounds(size as int, c, r);
                    assert(tile_at(prev, size as int, c, r) == prev[idx_of(size as int, c, r)]);
                    if idx_of(size as int, c, r) == i as int {
                        lemma_idx_injective(size as int, c, r, cn as int, rn as int);
                    }
                }
            }
            rn = rn + 1;
        }
        cn = cn + 1;
    }
}

/// Turn one mine-free cell of a well-counted board into a mine and
/// raise the counts around it, re-establishing the counting invariant.
/// Visibility states are untouched.
pub(crate) fn place_mine(tiles: &mut Vec<Tile>, size: usize, col: usize, row: usize)
    requires
        col < size,
        row < size,
        size <= MAX_SIZE,
        old(tiles)@.len() == size * size,
        counts_ok(old(tiles)@, size as int),
        !is_mine_at(old(tiles)@, size as int, col as int, row as int),
    ensures
        final(tiles)@.len() == size * size,
        counts_ok(final(tiles)@, size as int),
        count_mines(final(tiles)@) == count_mines(old(tiles)@) + 1,
        forall|c: int, r: int|
            #[trigger] is_mine_at(final(tiles)@, size as int, c, r) == (is_mine_at(
                old(tiles)@,
                size as int,
                c,
                r,
            ) || (in_bounds(size as int, c, r) && c == col && r == row)),
        forall|j: int|
            0 <= j < size * size ==> (#[trigger] final(tiles)@[j]).state == old(tiles)@[j].state,
{
    let ghost t0 = tiles@;
    proof {
        lemma_counts_bounded(t0, size as int);
    }
    let i = tile_index(size, col, row);
    let t = tiles[i];
    tiles[i] = Tile { tile_type: TileType::Bomb, state: t.state };
    let ghost t1 = tiles@;
    proof {
        assert(tile_at(t0, size as int, col as int, row as int) == t0[i as int]);
        lemma_count_mines_update(t0, i as int, t1[i as int]);
        assert forall|j: int|
            0 <= j < t1.len() implies ((#[trigger] t1[j]).tile_type matches TileType::NotBomb(n)
            ==> n < u32::MAX) by {
            assert(t1 == t0.update(i as int, t1[i as int]));
        }
    }
    apply_to_neighs(tiles, size, col, row);
    let ghost t2 = tiles@;
    proof {
        // Where the mines are afterwards: exactly the old ones plus (col, row).
        assert forall|c: int, r: int| #[trigger] is_mine_at(t2, size as int, c, r) == (is_mine_at(
            t0,
            size as int,
            c,
            r,
        ) || (in_bounds(size as int, c, r) && c == col && r == row)) by {
            if in_bounds(size as int, c, r) {
                lemma_idx_bounds(size as int, c, r);
                assert(tile_at(t1, size as int, c, r) == t1[idx_of(size as int, c, r)]);
                assert(tile_at(t0, size as int, c, r) == t0[idx_of(size as int, c, r)]);
                if idx_of(size as int, c, r) == i as int {
                    lemma_idx_injective(size as int, c, r, col as int, row as int);
                }
            }
        }
        // States are untouched throughout.
        assert forall|j: int| 0 <= j < size * size implies (#[trigger] t2[j]).state
            == t0[j].state by {
            lemma_index_to_coords(size as int, j);
            let c = j % (size as int);
            let r = j / (size as int);
            assert(tile_at(t2, size as int, c, r) == t2[j]);
            assert(tile_at(t1, size as int, c, r) == t1[j]);
        }
        // The mine total went up by one.
        assert forall|j: int|
            0 <= j < t1.len() implies ((#[trigger] t1[j]).tile_type is Bomb <==> t2[j].tile_type
            is Bomb) by {
            lemma_index_to_coords(size as int, j);
            let c = j % (size as int);
            let r = j / (size as int);
            assert(tile_at(t2, size as int, c, r) == t2[j]);
            assert(tile_at(t1, size as int, c, r) == t1[j]);
        }
        crate::grid::lemma_count_mines_pointwise(t1, t2);
        // Every count matches the mines around its cell again.
        assert forall|c: int, r: int| in_bounds(size as int, c, r) implies #[trigger]
        cell_count_ok(t2, size as int, c, r) by {
            lemma_idx_bounds(size as int, c, r);
            assert(tile_at(t1, size as int, c, r) == t1[idx_of(size as int, c, r)]);
            assert(tile_at(t0, size as int, c, r) == t0[idx_of(size as int, c, r)]);
            if idx_of(size as int, c, r) == i as int {
                lemma_idx_injective(size as int, c, r, col as int, row as int);
            } else {
                lemma_idx_injective(size as int, col as int, row as int, col as int, row as int);
                assert(cell_count_ok(t0, size as int, c, r));
                assert(!is_mine_at(t0, size as int, col as int, row as int));
            }
        }
    }
}

/// A fresh vector of `size * size` mine-free, count-zero, hidden tiles.
#[verifier::loop_isolation(false)]
fn new_hidden_tiles(size: usize) -> (tiles: Vec<Tile>)
    requires
        1 <= size,
        size <= MAX_SIZE,
    ensures
        tiles@.len() == size * size,
        counts_ok(tiles@, size as int),
        count_mines(tiles@) == 0,
        forall|j: int|
            0 <= j < tiles@.len() ==> #[trigger] tiles@[j] == (Tile {
                tile_type: TileType::NotBomb(0),
                state: TileState::Hidden,
            }),
{
    proof {
        assert(size * size <= MAX_SIZE * MAX_SIZE) by (nonlinear_arith)
            requires
                0 <= size <= MAX_SIZE,
        ;
    }
    let n = size * size;
    let mut tiles: Vec<Tile> = Vec::new();
    let mut j: usize = 0;
    while j < n
        invariant
            j <= n,
            tiles@.len() == j,
            forall|k: int|
                0 <= k < tiles@.len() ==> #[trigger] tiles@[k] == (Tile {
                    tile_type: TileType::NotBomb(0),
                    state: TileState::Hidden,
                }),
        decreases n - j,
    {
        tiles.push(Tile { tile_type: TileType::NotBomb(0), state: TileState::Hidden });
        j = j + 1;
    }
    proof {
        assert forall|x: int, y: int| !(#[trigger] is_mine_at(tiles@, size as int, x, y)) by {
            if in_bounds(size as int, x, y) {
                lemma_idx_bounds(size as int, x, y);
            }
        }
        assert forall|c: int, r: int| in_bounds(size as int, c, r) implies #[trigger] cell_count_ok(
            tiles@,
            size as int,
            c,
            r,
        ) by {
            lemma_idx_bounds(size as int, c, r);
        }
        crate::grid::lemma_count_mines_none(tiles@);
    }
    tiles
}

/// Wrap a fully hidden, well-counted tile vector with room for at least
/// one empty cell into a board; such a game is always still in progress.
fn finish_hidden_board(size: usize, tiles: Vec<Tile>) -> (b: Board)
    requires
        1 <= size,
        size <= MAX_SIZE,
        tiles@.len() == size * size,
        counts_ok(tiles@, size as int),
        count_mines(tiles@) < size * size,
        forall|j: int| 0 <= j < tiles@.len() ==> (#[trigger] tiles@[j]).state is Hidden,
    ensures
        b.wf(),
        b.size_spec() == size as int,
        b.tiles_spec() == tiles@,
        b.status_spec() == GameStatus::InProgress,
{
    proof {
        assert(!crate::board::spec_lost(tiles@)) by {
            if crate::board::spec_lost(tiles@) {
                let j = choose|j: int|
                    0 <= j < tiles@.len() && crate::board::revealed_mine(#[trigger] tiles@[j]);
                assert(tiles@[j].state is Hidden);
            }
        }
        assert(!crate::board::spec_all_empty_revealed(tiles@)) by {
            crate::grid::lemma_some_empty(tiles@);
            let j = choose|j: int|
                0 <= j < tiles@.len() && !((#[trigger] tiles@[j]).tile_type is Bomb);
            assert(crate::board::concealed_empty(tiles@[j]));
        }
    }
    Board::assemble(size, tiles, GameStatus::InProgress)
}

/// The cells named as mines are on the board, pairwise distinct, and
/// leave at least one cell empty: what a deterministic board build
/// accepts.
pub open spec fn mines_ok(mines: Seq<(usize, usize)>, size: int) -> bool {
    &&& mines.len() < size * size
    &&& forall|j: int|
        0 <= j < mines.len() ==> in_bounds(
            size,
            (#[trigger] mines[j]).0 as int,
            mines[j].1 as int,
        )
    &&& forall|j1: int, j2: int| 0 <= j1 < j2 < mines.len() ==> mines[j1] != mines[j2]
}

impl Board {
    /// Build a board of dimension `size` whose mines sit at exactly the
    /// given cells, every cell hidden. Rejects a list that names a cell
    /// off the board or twice, or that leaves no cell empty.
    #[verifier::loop_isolation(false)]
    pub fn with_mines(size: usize, mines: &Vec<(usize, usize)>) -> (res: Result<Board, BoardError>)
        requires
            size <= MAX_SIZE,
        ensures
            res is Ok <==> mines_ok(mines@, size as int),
            res matches Ok(b) ==> {
                &&& b.wf()
                &&& b.size_spec() == size as int
                &&& count_mines(b.tiles_spec()) == mines@.len()
                &&& forall|c: int, r: int|
                    #[trigger] is_mine_at(b.tiles_spec(), size as int, c, r) <==> exists|j: int|
                        0 <= j < mines@.len() && (#[trigger] mines@[j]).0 == c && mines@[j].1 == r
                &&& forall|j: int|
                    0 <= j < b.tiles_spec().len() ==> (#[trigger] b.tiles_spec()[j]).state
                        is Hidden
                &&& b.status_spec() == GameStatus::InProgress
            },
    {
        proof {
            assert(size * size <= MAX_SIZE * MAX_SIZE) by (nonlinear_arith)
                requires
                    0 <= size <= MAX_SIZE,
            ;
        }
        let n = size * size;
        if mines.len() >= n {
            return Err(BoardError::TooManyBombs);
        }
        proof {
            assert(size >= 1) by (nonlinear_arith)
                requires
                    0 <= size,
                    size * size >= 1,
            ;
        }
        let mut tiles = new_hidden_tiles(size);
        proof {
            assert forall|c: int, r: int| !(#[trigger] is_mine_at(tiles@, size as int, c, r)) by {
                if in_bounds(size as int, c, r) {
                    lemma_idx_bounds(size as int, c, r);
                }
            }
        }
        let mut k: usize = 0;
        while k < mines.len()
            invariant
                k <= mines.len(),
                tiles@.len() == size * size,
                counts_ok(tiles@, size as int),
                count_mines(tiles@) == k,
                forall|j: int| 0 <= j < tiles@.len() ==> (#[trigger] tiles@[j]).state is Hidden,
                forall|j: int|
                    0 <= j < k ==> in_bounds(
                        size as int,
                        (#[trigger] mines@[j]).0 as int,
                        mines@[j].1 as int,
                    ),
                forall|j1: int, j2: int| 0 <= j1 < j2 < k ==> mines@[j1] != mines@[j2],
                forall|c: int, r: int|
                    #[trigger] is_mine_at(tiles@, size as int, c, r) <==> exists|j: int|
                        0 <= j < k && (#[trigger] mines@[j]).0 == c && mines@[j].1 == r,
            decreases mines.len() - k,
        {
            let (mc, mr) = mines[k];
            if mc >= size || mr >= size {
                return Err(BoardError::MineOutOfBounds);
            }
            let i = tile_index(size, mc, mr);
            let already = tiles[i];
            match already.tile_type {
                TileType::Bomb => {
                    proof {
                        assert(is_mine_at(tiles@, size as int, mc as int, mr as int));
                    }
                    return Err(BoardError::DuplicateMine);
                },
                TileType::NotBomb(_) => {},
            }
            proof {
                assert(!is_mine_at(tiles@, size as int, mc as int, mr as int));
            }
            place_mine(&mut tiles, size, mc, mr);
            k = k + 1;
        }
        Ok(finish_hidden_board(size, tiles))
    }
}

/// Generate a board of dimension `size` with `bomb_count` mines placed
/// uniformly at random without replacement (each mine drawn from the
/// cells still mine-free), neighbor counts derived, every cell hidden.
/// Rejects a mine count that does not leave room for an empty cell.
#[verifier::loop_isolation(false)]
pub fn generate_board(size: usize, bomb_count: usize) -> (res: Result<Board, BoardError>)
    requires
        size <= MAX_SIZE,
    ensures
        res is Ok <==> bomb_count < size * size,
        res matches Err(e) ==> e == BoardError::TooManyBombs,
        res matches Ok(b) ==> {
            &&& b.wf()
            &&& b.size_spec() == size as int
            &&& count_mines(b.tiles_spec()) == bomb_count
            &&& forall|j: int|
                0 <= j < b.tiles_spec().len() ==> (#[trigger] b.tiles_spec()[j]).state is Hidden
            &&& b.status_spec() == GameStatus::InProgress
        },
{
    proof {
        assert(size * size <= MAX_SIZE * MAX_SIZE) by (nonlinear_arith)
            requires
                0 <= size <= MAX_SIZE,
        ;
    }
    let n = size * size;
    if bomb_count >= n {
        return Err(BoardError::TooManyBombs);
    }
    proof {
        assert(size >= 1) by (nonlinear_arith)
            requires
                0 <= size,
                size * size >= 1,
        ;
    }
    let mut tiles = new_hidden_tiles(size);
    proof {
        assert forall|c: int, r: int| !(#[trigger] is_mine_at(tiles@, size as int, c, r)) by {
            if in_bounds(size as int, c, r) {
                lemma_idx_bounds(size as int, c, r);
            }
        }
    }
    // Every cell, row-major: the pool the mines are drawn from.
    let mut free: Vec<(usize, usize)> = Vec::new();
    let mut row: usize = 0;
    while row < size
        invariant
            row <= size,
            free@.len() == row * size,
            forall|j: int|
                0 <= j < free@.len() ==> #[trigger] free@[j] == (
                    ((j % (size as int)) as usize),
                    ((j / (size as int)) as usize),
                ),
        decreases size - row,
    {
        let mut col: usize = 0;
        while col < size
            invariant
                row < size,
                col <= size,
                free@.len() == row * size + col,
                forall|j: int|
                    0 <= j < free@.len() ==> #[trigger] free@[j] == (
                        ((j % (size as int)) as usize),
                        ((j / (size as int)) as usize),
                    ),
            decreases size - col,
        {
            proof {
                let l = free@.len() as int;
                lemma_idx_bounds(size as int, col as int, row as int);
                lemma_index_to_coords(size as int, l);
                lemma_idx_injective(
                    size as int,
                    col as int,
                    row as int,
                    l % (size as int),
                    l / (size as int),
                );
            }
            free.push((col, row));
            col = col + 1;
        }
        proof {
            assert((row + 1) * size == row * size + size) by (nonlinear_arith);
        }
        row = row + 1;
    }
    proof {
        // The pool holds every cell once: pairwise distinct, in bounds,
        // and mine-free on the fresh board.
        assert forall|j: int|
            0 <= j < free@.len() implies in_bounds(
            size as int,
            (#[trigger] free@[j]).0 as int,
            free@[j].1 as int,
        ) && !is_mine_at(tiles@, size as int, free@[j].0 as int, free@[j].1 as int) by {
            lemma_index_to_coords(size as int, j);
        }
        assert forall|j1: int, j2: int|
            0 <= j1 < j2 < free@.len() implies free@[j1] != free@[j2] by {
            lemma_index_to_coords(size as int, j1);
            lemma_index_to_coords(size as int, j2);
        }
    }
    let ghost bc = bomb_count as int;
    let mut placed: usize = 0;
    while placed < bomb_count
        invariant
            placed <= bomb_count,
            tiles@.len() == size * size,
            counts_ok(tiles@, size as int),
            count_mines(tiles@) == placed,
            forall|j: int| 0 <= j < tiles@.len() ==> (#[trigger] tiles@[j]).state is Hidden,
            free@.len() + placed == size * size,
            forall|j: int|
                0 <= j < free@.len() ==> in_bounds(
                    size as int,
                    (#[trigger] free@[j]).0 as int,
                    free@[j].1 as int,
                ) && !is_mine_at(tiles@, size as int, free@[j].0 as int, free@[j].1 as int),
            forall|j1: int, j2: int| 0 <= j1 < j2 < free@.len() ==> free@[j1] != free@[j2],
        decreases bomb_count - placed,
    {
        let ghost old_free = free@;
        let ghost old_tiles = tiles@;
        let k = random_below(free.len());
        let (mc, mr) = free.swap_remove(k);
        proof {
            assert(old_free[k as int] == (mc, mr));
            assert forall|j: int| 0 <= j < free@.len() implies #[trigger] free@[j] == if j
                == k as int {
                old_free[old_free.len() - 1]
            } else {
                old_free[j]
            } by {}
        }
        place_mine(&mut tiles, size, mc, mr);
        placed = placed + 1;
        proof {
            assert forall|j: int|
                0 <= j < free@.len() implies in_bounds(
                size as int,
                (#[trigger] free@[j]).0 as int,
                free@[j].1 as int,
            ) && !is_mine_at(tiles@, size as int, free@[j].0 as int, free@[j].1 as int) by {
                let oj: int = if j == k as int {
                    old_free.len() - 1
                } else {
                    j
                };
                assert(free@[j] == old_free[oj]);
                if oj < k as int {
                    assert(old_free[oj] != old_free[k as int]);
                } else if oj > k as int {
                    assert(old_free[k as int] != old_free[oj]);
                }
                assert(!is_mine_at(old_tiles, size as int, old_free[oj].0 as int, old_free[oj].1 as int));
            }
            assert forall|j1: int, j2: int|
                0 <= j1 < j2 < free@.len() implies free@[j1] != free@[j2] by {
                let o1: int = if j1 == k as int {
                    old_free.len() - 1
                } else {
                    j1
                };
                let o2: int = if j2 == k as int {
                    old_free.len() - 1
                } else {
                    j2
                };
                assert(free@[j1] == old_free[o1]);
                assert(free@[j2] == old_free[o2]);
                if o1 < o2 {
                    assert(old_free[o1] != old_free[o2]);
                } else {
                    assert(old_free[o2] != old_free[o1]);
                }
            }
        }
    }
    Ok(finish_hidden_board(size, tiles))
}

} // verus!
