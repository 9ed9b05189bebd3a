//! Grid geometry and counting: row-major indexing of a square board,
//! clipped Chebyshev neighborhoods, the specification of per-cell
//! neighbor mine counts, and the total mine count of a board.

use vstd::prelude::*;

use crate::tile::Tile;
use crate::tile::TileType;

verus! {

/// Largest supported board dimension: keeps `size * size` within `usize`
/// on every target.
pub const MAX_SIZE: usize = 46340;

/// The cell (col, row) lies on a board of dimension `size`.
pub open spec fn in_bounds(size: int, col: int, row: int) -> bool {
    0 <= col < size && 0 <= row < size
}

/// Index of cell (col, row) in the row-major tile vector.
pub open spec fn idx_of(size: int, col: int, row: int) -> int {
    row * size + col
}

/// The tile stored for cell (col, row).
pub open spec fn tile_at(t: Seq<Tile>, size: int, col: int, row: int) -> Tile {
    t[idx_of(size, col, row)]
}

/// (col, row) is on the board and holds a mine. Out-of-range positions
/// count as mine-free, which encodes clipping at the edges.
pub open spec fn is_mine_at(t: Seq<Tile>, size: int, col: int, row: int) -> bool {
    in_bounds(size, col, row) && tile_at(t, size, col, row).tile_type is Bomb
}

/// A truth value as the 0-or-1 summand it contributes to a count.
pub open spec fn b2i(b: bool) -> int {
    if b {
        1
    } else {
        0
    }
}

/// Number of mines among the up-to-8 Chebyshev neighbors of (col, row),
/// clipped at the board edges.
pub open spec fn neighbor_mine_count(t: Seq<Tile>, size: int, col: int, row: int) -> int {
    b2i(is_mine_at(t, size, col - 1, row - 1)) + b2i(is_mine_at(t, size, col, row - 1)) + b2i(
        is_mine_at(t, size, col + 1, row - 1),
    ) + b2i(is_mine_at(t, size, col - 1, row)) + b2i(is_mine_at(t, size, col + 1, row)) + b2i(
        is_mine_at(t, size, col - 1, row + 1),
    ) + b2i(is_mine_at(t, size, col, row + 1)) + b2i(is_mine_at(t, size, col + 1, row + 1))
}

/// Two distinct cells within Chebyshev distance 1 of each other.
pub open spec fn is_neighbor(c1: int, r1: int, c2: int, r2: int) -> bool {
    &&& -1 <= c2 - c1 <= 1
    &&& -1 <= r2 - r1 <= 1
    &&& !(c1 == c2 && r1 == r2)
}

/// (c, r) lies in the clipped 3-by-3 block centered on (col, row) —
/// the center itself included.
pub open spec fn in_neighborhood(col: int, row: int, c: int, r: int) -> bool {
    -1 <= c - col <= 1 && -1 <= r - row <= 1
}

/// One more mine next door: an empty cell's count goes up by one, a
/// mine cell is left as it is. The visibility state is untouched.
pub open spec fn bump(t: Tile) -> Tile {
    match t.tile_type {
        TileType::NotBomb(n) => Tile { tile_type: TileType::NotBomb((n + 1) as u32), state: t.state },
        TileType::Bomb => t,
    }
}

/// The count stored in cell (col, row) agrees with the mines around it
/// (vacuous for a mine cell, which stores no count).
pub open spec fn cell_count_ok(t: Seq<Tile>, size: int, col: int, row: int) -> bool {
    match tile_at(t, size, col, row).tile_type {
        TileType::Bomb => true,
        TileType::NotBomb(n) => n as int == neighbor_mine_count(t, size, col, row),
    }
}

/// Every empty cell's stored count equals the number of mines in its
/// clipped 8-neighborhood.
pub open spec fn counts_ok(t: Seq<Tile>, size: int) -> bool {
    forall|col: int, row: int|
        in_bounds(size, col, row) ==> #[trigger] cell_count_ok(t, size, col, row)
}

/// Total number of mine cells in the tile vector.
pub open spec fn count_mines(t: Seq<Tile>) -> int
    decreases t.len(),
{
    if t.len() == 0 {
        0
    } else {
        count_mines(t.drop_last()) + b2i(t.last().tile_type is Bomb)
    }
}

/// The mine total moves by the difference an update makes at one cell.
pub proof fn lemma_count_mines_update(t: Seq<Tile>, i: int, x: Tile)
    requires
        0 <= i < t.len(),
    ensures
        count_mines(t.update(i, x)) == count_mines(t) - b2i(t[i].tile_type is Bomb) + b2i(
            x.tile_type is Bomb,
        ),
    decreases t.len(),
{
    let tu = t.update(i, x);
    if i == t.len() - 1 {
        assert(tu.drop_last() =~= t.drop_last());
    } else {
        assert(tu.drop_last() =~= t.drop_last().update(i, x));
        lemma_count_mines_update(t.drop_last(), i, x);
    }
}

/// Boards that agree pointwise on which cells are mines have the same
/// mine total.
pub proof fn lemma_count_mines_pointwise(t1: Seq<Tile>, t2: Seq<Tile>)
    requires
        t1.len() == t2.len(),
        forall|j: int|
            0 <= j < t1.len() ==> ((#[trigger] t1[j]).tile_type is Bomb <==> t2[j].tile_type
                is Bomb),
    ensures
        count_mines(t1) == count_mines(t2),
    decreases t1.len(),
{
    if t1.len() > 0 {
        lemma_count_mines_pointwise(t1.drop_last(), t2.drop_last());
    }
}

/// The mine total lies between zero and the cell count.
pub proof fn lemma_count_mines_bounds(t: Seq<Tile>)
    ensures
        0 <= count_mines(t) <= t.len(),
    decreases t.len(),
{
    if t.len() > 0 {
        lemma_count_mines_bounds(t.drop_last());
    }
}

/// A board without a mine cell has mine total zero.
pub proof fn lemma_count_mines_none(t: Seq<Tile>)
    requires
        forall|j: int| 0 <= j < t.len() ==> !((#[trigger] t[j]).tile_type is Bomb),
    ensures
        count_mines(t) == 0,
    decreases t.len(),
{
    if t.len() > 0 {
        lemma_count_mines_none(t.drop_last());
    }
}

/// A board with fewer mines than cells has a mine-free cell.
pub proof fn lemma_some_empty(t: Seq<Tile>)
    requires
        count_mines(t) < t.len(),
    ensures
        exists|j: int| 0 <= j < t.len() && !((#[trigger] t[j]).tile_type is Bomb),
    decreases t.len(),
{
    if t.last().tile_type is Bomb {
        lemma_some_empty(t.drop_last());
        let j = choose|j: int|
            0 <= j < t.drop_last().len() && !((#[trigger] t.drop_last()[j]).tile_type is Bomb);
        assert(!(t[j].tile_type is Bomb));
    } else {
        assert(!((t[t.len() - 1]).tile_type is Bomb));
    }
}

/// A cell's row-major index stays within the board.
pub proof fn lemma_idx_bounds(size: int, col: int, row: int)
    requires
        in_bounds(size, col, row),
    ensures
        0 <= idx_of(size, col, row) < size * size,
{
    assert(row * size + col < size * size) by (nonlinear_arith)
        requires
            0 <= col < size,
            0 <= row < size,
    ;
    assert(row * size + col >= 0) by (nonlinear_arith)
        requires
            0 <= col,
            0 <= row,
            0 <= size,
    ;
}

/// Row-major indexing is injective on in-bounds cells.
pub proof fn lemma_idx_injective(size: int, c1: int, r1: int, c2: int, r2: int)
    requires
        in_bounds(size, c1, r1),
        in_bounds(size, c2, r2),
        idx_of(size, c1, r1) == idx_of(size, c2, r2),
    ensures
        c1 == c2 && r1 == r2,
{
    assert(r1 == r2 && c1 == c2) by (nonlinear_arith)
        requires
            0 <= c1 < size,
            0 <= r1 < size,
            0 <= c2 < size,
            0 <= r2 < size,
            r1 * size + c1 == r2 * size + c2,
    ;
}

/// Neighbor mine counts depend only on which cells are mines: two boards
/// of the same dimension whose cells agree on mine-ness agree on every
/// neighbor count.
pub proof fn lemma_counts_depend_on_mines(t1: Seq<Tile>, t2: Seq<Tile>, size: int, col: int, row: int)
    requires
        t1.len() == size * size,
        t2.len() == size * size,
        forall|c: int, r: int|
            in_bounds(size, c, r) ==> (#[trigger] is_mine_at(t1, size, c, r) == is_mine_at(
                t2,
                size,
                c,
                r,
            )),
    ensures
        neighbor_mine_count(t1, size, col, row) == neighbor_mine_count(t2, size, col, row),
{
    assert forall|c: int, r: int| true implies is_mine_at(t1, size, c, r) == is_mine_at(
        t2,
        size,
        c,
        r,
    ) by {
        if in_bounds(size, c, r) {
            assert(is_mine_at(t1, size, c, r) == is_mine_at(t2, size, c, r));
        }
    }
}

/// Each index of the tile vector is the index of exactly one in-bounds
/// cell: division and remainder by the dimension recover it.
pub proof fn lemma_index_to_coords(size: int, j: int)
    requires
        size >= 1,
        0 <= j < size * size,
    ensures
        in_bounds(size, j % size, j / size),
        idx_of(size, j % size, j / size) == j,
{
    assert(0 <= j % size < size && 0 <= j / size < size && (j / size) * size + j % size == j)
        by (nonlinear_arith)
        requires
            size >= 1,
            0 <= j < size * size,
    ;
}

/// On a well-counted board every stored neighbor count is at most 8.
pub proof fn lemma_counts_bounded(t: Seq<Tile>, size: int)
    requires
        size >= 1,
        t.len() == size * size,
        counts_ok(t, size),
    ensures
        forall|j: int|
            0 <= j < t.len() ==> ((#[trigger] t[j]).tile_type matches TileType::NotBomb(n) ==> 0
                <= n <= 8),
{
    assert forall|j: int|
        0 <= j < t.len() implies ((#[trigger] t[j]).tile_type matches TileType::NotBomb(n) ==> 0
        <= n <= 8) by {
        lemma_index_to_coords(size, j);
        assert(cell_count_ok(t, size, j % size, j / size));
        assert(tile_at(t, size, j % size, j / size) == t[j]);
    }
}

/// Two boards whose cells agree pointwise on their kinds agree on where
/// the mines are.
pub proof fn lemma_same_types_same_mines(t1: Seq<Tile>, t2: Seq<Tile>, size: int)
    requires
        t1.len() == size * size,
        t2.len() == size * size,
        forall|j: int| 0 <= j < t1.len() ==> (#[trigger] t1[j]).tile_type == t2[j].tile_type,
    ensures
        forall|c: int, r: int|
            in_bounds(size, c, r) ==> (#[trigger] is_mine_at(t1, size, c, r) == is_mine_at(
                t2,
                size,
                c,
                r,
            )),
{
    assert forall|c: int, r: int|
        in_bounds(size, c, r) implies (#[trigger] is_mine_at(t1, size, c, r) == is_mine_at(
        t2,
        size,
        c,
        r,
    )) by {
        lemma_idx_bounds(size, c, r);
    }
}

/// A change that leaves every cell's kind in place (revealing, flagging)
/// preserves the neighbor-count invariant.
pub proof fn lemma_counts_ok_same_types(t1: Seq<Tile>, t2: Seq<Tile>, size: int)
    requires
        t1.len() == size * size,
        t2.len() == size * size,
        forall|j: int| 0 <= j < t1.len() ==> (#[trigger] t1[j]).tile_type == t2[j].tile_type,
        counts_ok(t1, size),
    ensures
        counts_ok(t2, size),
{
    lemma_same_types_same_mines(t1, t2, size);
    assert forall|c: int, r: int| in_bounds(size, c, r) implies #[trigger] cell_count_ok(
        t2,
        size,
        c,
        r,
    ) by {
        lemma_counts_depend_on_mines(t1, t2, size, c, r);
        assert(cell_count_ok(t1, size, c, r));
        lemma_idx_bounds(size, c, r);
    }
}

/// The neighbor counts of a well-counted board are a function of its
/// mine positions alone: any two well-counted boards with the same
/// mines carry the same counts.
pub proof fn lemma_counts_determined(t1: Seq<Tile>, t2: Seq<Tile>, size: int)
    requires
        t1.len() == size * size,
        t2.len() == size * size,
        counts_ok(t1, size),
        counts_ok(t2, size),
        forall|c: int, r: int|
            in_bounds(size, c, r) ==> (#[trigger] is_mine_at(t1, size, c, r) == is_mine_at(
                t2,
                size,
                c,
                r,
            )),
    ensures
        forall|c: int, r: int|
            in_bounds(size, c, r) && !(#[trigger] tile_at(t1, size, c, r).tile_type is Bomb)
                ==> tile_at(t1, size, c, r).tile_type == tile_at(t2, size, c, r).tile_type,
{
    assert forall|c: int, r: int|
        in_bounds(size, c, r) && !(#[trigger] tile_at(t1, size, c, r).tile_type is Bomb)
            implies tile_at(t1, size, c, r).tile_type == tile_at(t2, size, c, r).tile_type by {
        lemma_counts_depend_on_mines(t1, t2, size, c, r);
        assert(cell_count_ok(t1, size, c, r));
        assert(cell_count_ok(t2, size, c, r));
        assert(is_mine_at(t1, size, c, r) == is_mine_at(t2, size, c, r));
    }
}

/// Law: mine placement order is irrelevant. Two mine lists that name
/// the same set of cells — one a permutation of the other, say — yield
/// boards with identical kinds everywhere: the same mine cells, and the
/// same count on every empty cell. The hypotheses are exactly what
/// `Board::with_mines` ensures of each board and its list.
pub proof fn lemma_placement_order_irrelevant(
    t1: Seq<Tile>,
    t2: Seq<Tile>,
    size: int,
    m1: Seq<(usize, usize)>,
    m2: Seq<(usize, usize)>,
)
    requires
        t1.len() == size * size,
        t2.len() == size * size,
        counts_ok(t1, size),
        counts_ok(t2, size),
        forall|c: int, r: int|
            #[trigger] is_mine_at(t1, size, c, r) <==> exists|j: int|
                0 <= j < m1.len() && (#[trigger] m1[j]).0 == c && m1[j].1 == r,
        forall|c: int, r: int|
            #[trigger] is_mine_at(t2, size, c, r) <==> exists|j: int|
                0 <= j < m2.len() && (#[trigger] m2[j]).0 == c && m2[j].1 == r,
        forall|p: (usize, usize)| #[trigger] m1.contains(p) <==> m2.contains(p),
    ensures
        forall|c: int, r: int|
            in_bounds(size, c, r) ==> #[trigger] tile_at(t1, size, c, r).tile_type == tile_at(
                t2,
                size,
                c,
                r,
            ).tile_type,
{
    assert forall|c: int, r: int|
        in_bounds(size, c, r) implies (#[trigger] is_mine_at(t1, size, c, r) == is_mine_at(
        t2,
        size,
        c,
        r,
    )) by {
        if is_mine_at(t1, size, c, r) {
            let j = choose|j: int| 0 <= j < m1.len() && (#[trigger] m1[j]).0 == c && m1[j].1 == r;
            assert(m1.contains(m1[j]));
            assert(m2.contains(m1[j]));
            let k = choose|k: int| 0 <= k < m2.len() && m2[k] == m1[j];
            assert((#[trigger] m2[k]).0 == c && m2[k].1 == r);
        }
        if is_mine_at(t2, size, c, r) {
            let j = choose|j: int| 0 <= j < m2.len() && (#[trigger] m2[j]).0 == c && m2[j].1 == r;
            assert(m2.contains(m2[j]));
            assert(m1.contains(m2[j]));
            let k = choose|k: int| 0 <= k < m1.len() && m1[k] == m2[j];
            assert((#[trigger] m1[k]).0 == c && m1[k].1 == r);
        }
    }
    lemma_counts_determined(t1, t2, size);
    assert forall|c: int, r: int|
        in_bounds(size, c, r) implies #[trigger] tile_at(t1, size, c, r).tile_type == tile_at(
        t2,
        size,
        c,
        r,
    ).tile_type by {
        if tile_at(t1, size, c, r).tile_type is Bomb {
            assert(is_mine_at(t1, size, c, r));
            assert(is_mine_at(t2, size, c, r));
        }
    }
}

/// Leftmost column of the clipped neighborhood of `col`.
pub fn left(col: usize) -> (r: usize)
    ensures
        r == if col == 0 {
            0int
        } else {
            col - 1
        },
{
    if col == 0 {
        0
    } else {
        col - 1
    }
}

/// Rightmost column of the clipped neighborhood of `col` on a board of
/// dimension `size`.
pub fn right(col: usize, size: usize) -> (r: usize)
    requires
        col < size,
    ensures
        r == if col == size - 1 {
            col as int
        } else {
            col + 1
        },
        r < size,
{
    if col == size - 1 {
        col
    } else {
        col + 1
    }
}

/// Topmost row of the clipped neighborhood of `row`.
pub fn above(row: usize) -> (r: usize)
    ensures
        r == if row == 0 {
            0int
        } else {
            row - 1
        },
{
    if row == 0 {
        0
    } else {
        row - 1
    }
}

/// Bottommost row of the clipped neighborhood of `row` on a board of
/// dimension `size`.
pub fn below(row: usize, size: usize) -> (r: usize)
    requires
        row < size,
    ensures
        r == if row == size - 1 {
            row as int
        } else {
            row + 1
        },
        r < size,
{
    if row == size - 1 {
        row
    } else {
        row + 1
    }
}

} // verus!
