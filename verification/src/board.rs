//! The board: the mapping from coordinates to tiles, the derived game
//! status, the marker-flag toggle, and the read-only projections the
//! presentation layer draws from.

use vstd::prelude::*;

use crate::grid::above;
use crate::grid::below;
use crate::grid::counts_ok;
use crate::grid::idx_of;
use crate::grid::in_bounds;
use crate::grid::is_neighbor;
use crate::grid::left;
use crate::grid::lemma_idx_bounds;
use crate::grid::lemma_idx_injective;
use crate::grid::right;
use crate::grid::tile_at;
use crate::grid::MAX_SIZE;
use vstd::pervasive::unreached;
use crate::tile::next_flag_state;
use crate::tile::Tile;
use crate::tile::TileState;
use crate::tile::TileType;

verus! {

/// Overall game status, derived from the board after every mutation.
#[derive(Debug, Copy, Clone, PartialEq, Eq, Structural)]
pub enum GameStatus {
    InProgress,
    Lost,
    Won,
}

/// A mine that has been revealed: the unique losing trigger.
pub open spec fn revealed_mine(t: Tile) -> bool {
    t.tile_type is Bomb && t.state is Visible
}

/// An empty cell not yet revealed: what stands between the player and a
/// win.
pub open spec fn concealed_empty(t: Tile) -> bool {
    t.tile_type is NotBomb && !(t.state is Visible)
}

/// Some mine on the board is revealed.
pub open spec fn spec_lost(t: Seq<Tile>) -> bool {
    exists|j: int| 0 <= j < t.len() && revealed_mine(#[trigger] t[j])
}

/// Every empty cell on the board is revealed.
pub open spec fn spec_all_empty_revealed(t: Seq<Tile>) -> bool {
    forall|j: int| 0 <= j < t.len() ==> !concealed_empty(#[trigger] t[j])
}

/// Status derivation: lost iff any mine is revealed; else won iff every
/// empty cell is revealed; else in progress.
pub open spec fn derived_status(t: Seq<Tile>) -> GameStatus {
    if spec_lost(t) {
        GameStatus::Lost
    } else if spec_all_empty_revealed(t) {
        GameStatus::Won
    } else {
        GameStatus::InProgress
    }
}

/// (c, r) is on the board and still hidden.
pub open spec fn hidden_at(t: Seq<Tile>, size: int, c: int, r: int) -> bool {
    in_bounds(size, c, r) && tile_at(t, size, c, r).state is Hidden
}

/// (c, r) is on the board and an empty cell without a single mine next
/// to it: the kind of cell a reveal cascades through.
pub open spec fn empty0_at(t: Seq<Tile>, size: int, c: int, r: int) -> bool {
    in_bounds(size, c, r) && tile_at(t, size, c, r).tile_type == TileType::NotBomb(0u32)
}

/// A chain of cells a cascade can run along: every cell on it hidden,
/// every cell but the last mine-free with count zero, and consecutive
/// cells neighbors.
pub open spec fn cascade_path(t: Seq<Tile>, size: int, p: Seq<(int, int)>) -> bool {
    &&& p.len() >= 1
    &&& forall|i: int| 0 <= i < p.len() ==> hidden_at(t, size, (#[trigger] p[i]).0, p[i].1)
    &&& forall|i: int|
        0 <= i < p.len() - 1 ==> empty0_at(t, size, (#[trigger] p[i]).0, p[i].1) && is_neighbor(
            p[i].0,
            p[i].1,
            p[i + 1].0,
            p[i + 1].1,
        )
}

/// Revealing (sc, sr) uncovers (dc, dr): some cascade chain joins them.
/// The chain is free of any order of traversal, which is what makes the
/// outcome of a reveal independent of the order neighbors are visited
/// in.
pub open spec fn reaches(t: Seq<Tile>, size: int, sc: int, sr: int, dc: int, dr: int) -> bool {
    exists|p: Seq<(int, int)>|
        #[trigger] cascade_path(t, size, p) && p.first() == (sc, sr) && p.last() == (dc, dr)
}

/// The tile with its visibility turned to revealed.
pub open spec fn reveal_cell(t: Tile) -> Tile {
    Tile { tile_type: t.tile_type, state: TileState::Visible }
}

/// What a whole board looks like after revealing (col, row): every cell
/// a cascade chain from (col, row) can reach is turned visible, every
/// other cell is untouched. When (col, row) is not hidden no chain
/// exists and the board is unchanged.
pub open spec fn reveal_tiles(t: Seq<Tile>, size: int, col: int, row: int) -> Seq<Tile> {
    Seq::new(
        t.len(),
        |i: int|
            if reaches(t, size, col, row, i % size, i / size) {
                reveal_cell(t[i])
            } else {
                t[i]
            },
    )
}

/// A cell reaches itself as soon as it is hidden.
pub proof fn lemma_reaches_refl(t: Seq<Tile>, size: int, c: int, r: int)
    requires
        hidden_at(t, size, c, r),
    ensures
        reaches(t, size, c, r, c, r),
{
    let p: Seq<(int, int)> = seq![(c, r)];
    assert(cascade_path(t, size, p));
}

/// A cascade chain extends across one more step: from a reached
/// zero-count cell to any hidden neighbor of it.
pub proof fn lemma_reaches_step(
    t: Seq<Tile>,
    size: int,
    sc: int,
    sr: int,
    c: int,
    r: int,
    dc: int,
    dr: int,
)
    requires
        reaches(t, size, sc, sr, c, r),
        empty0_at(t, size, c, r),
        hidden_at(t, size, dc, dr),
        is_neighbor(c, r, dc, dr),
    ensures
        reaches(t, size, sc, sr, dc, dr),
{
    let p = choose|p: Seq<(int, int)>|
        #[trigger] cascade_path(t, size, p) && p.first() == (sc, sr) && p.last() == (c, r);
    let q = p.push((dc, dr));
    assert(cascade_path(t, size, q)) by {
        assert forall|i: int| 0 <= i < q.len() implies hidden_at(
            t,
            size,
            (#[trigger] q[i]).0,
            q[i].1,
        ) by {
            if i < p.len() {
                assert(q[i] == p[i]);
            } else {
                assert(q[i] == (dc, dr));
            }
        }
        assert forall|i: int| 0 <= i < q.len() - 1 implies empty0_at(
            t,
            size,
            (#[trigger] q[i]).0,
            q[i].1,
        ) && is_neighbor(q[i].0, q[i].1, q[i + 1].0, q[i + 1].1) by {
            if i < p.len() - 1 {
                assert(q[i] == p[i]);
                assert(q[i + 1] == p[i + 1]);
            } else {
                assert(q[i] == p[p.len() - 1]);
                assert(p[p.len() - 1] == (c, r));
                assert(q[i + 1] == (dc, dr));
            }
        }
    }
    assert(q.first() == (sc, sr) && q.last() == (dc, dr));
}

/// (c, r) was hidden before a mutation and is visible after it.
pub open spec fn newly_visible(t: Seq<Tile>, t2: Seq<Tile>, size: int, c: int, r: int) -> bool {
    in_bounds(size, c, r) && tile_at(t, size, c, r).state is Hidden && tile_at(
        t2,
        size,
        c,
        r,
    ).state is Visible
}

/// Any set of newly visible cells that contains the start of a cascade
/// chain and is closed under cascade steps contains the chain's end.
pub proof fn lemma_path_covered(t: Seq<Tile>, t2: Seq<Tile>, size: int, p: Seq<(int, int)>)
    requires
        cascade_path(t, size, p),
        newly_visible(t, t2, size, p.first().0, p.first().1),
        forall|c: int, r: int, dc: int, dr: int|
            #![trigger newly_visible(t, t2, size, c, r), hidden_at(t, size, dc, dr)]
            newly_visible(t, t2, size, c, r) && empty0_at(t, size, c, r) && is_neighbor(
                c,
                r,
                dc,
                dr,
            ) && hidden_at(t, size, dc, dr) ==> newly_visible(t, t2, size, dc, dr),
    ensures
        newly_visible(t, t2, size, p.last().0, p.last().1),
    decreases p.len(),
{
    if p.len() > 1 {
        let q = p.subrange(1, p.len() as int);
        assert(cascade_path(t, size, q)) by {
            assert forall|i: int| 0 <= i < q.len() implies hidden_at(
                t,
                size,
                (#[trigger] q[i]).0,
                q[i].1,
            ) by {
                assert(q[i] == p[i + 1]);
            }
            assert forall|i: int| 0 <= i < q.len() - 1 implies empty0_at(
                t,
                size,
                (#[trigger] q[i]).0,
                q[i].1,
            ) && is_neighbor(q[i].0, q[i].1, q[i + 1].0, q[i + 1].1) by {
                assert(q[i] == p[i + 1]);
                assert(q[i + 1] == p[i + 2]);
            }
        }
        assert(q.first() == p[1]);
        assert(newly_visible(t, t2, size, p[1].0, p[1].1)) by {
            assert(empty0_at(t, size, p[0].0, p[0].1));
            assert(is_neighbor(p[0].0, p[0].1, p[1].0, p[1].1));
            assert(hidden_at(t, size, p[1].0, p[1].1));
        }
        lemma_path_covered(t, t2, size, q);
        assert(q.last() == p.last());
    }
}

/// Revealing a cell that is not hidden changes nothing.
pub proof fn lemma_reveal_tiles_nop(t: Seq<Tile>, size: int, col: int, row: int)
    requires
        !hidden_at(t, size, col, row),
    ensures
        reveal_tiles(t, size, col, row) == t,
        forall|c: int, r: int| !(#[trigger] reaches(t, size, col, row, c, r)),
{
    assert forall|c: int, r: int| !(#[trigger] reaches(t, size, col, row, c, r)) by {
        if reaches(t, size, col, row, c, r) {
            let p = choose|p: Seq<(int, int)>|
                #[trigger] cascade_path(t, size, p) && p.first() == (col, row) && p.last() == (
                c,
                r,
                );
            assert(hidden_at(t, size, p[0].0, p[0].1));
        }
    }
    assert(reveal_tiles(t, size, col, row) =~= t);
}

/// Number of still-hidden cells: the measure a cascade runs down.
pub open spec fn count_hidden(t: Seq<Tile>) -> int
    decreases t.len(),
{
    if t.len() == 0 {
        0
    } else {
        count_hidden(t.drop_last()) + crate::grid::b2i(t.last().state is Hidden)
    }
}

/// The hidden total moves by the difference an update makes at one cell.
pub proof fn lemma_count_hidden_update(t: Seq<Tile>, i: int, x: Tile)
    requires
        0 <= i < t.len(),
    ensures
        count_hidden(t.update(i, x)) == count_hidden(t) - crate::grid::b2i(t[i].state is Hidden)
            + crate::grid::b2i(x.state is Hidden),
    decreases t.len(),
{
    let tu = t.update(i, x);
    if i == t.len() - 1 {
        assert(tu.drop_last() =~= t.drop_last());
    } else {
        assert(tu.drop_last() =~= t.drop_last().update(i, x));
        lemma_count_hidden_update(t.drop_last(), i, x);
    }
}

/// The hidden total lies between zero and the cell count.
pub proof fn lemma_count_hidden_bounds(t: Seq<Tile>)
    ensures
        0 <= count_hidden(t) <= t.len(),
    decreases t.len(),
{
    if t.len() > 0 {
        lemma_count_hidden_bounds(t.drop_last());
    }
}

/// Every newly visible zero-count cell outside the exception list has
/// all its hidden neighbors newly visible as well: the worklist
/// invariant of the cascade, with the cells still waiting on the
/// worklist excepted.
pub open spec fn cascade_closed_except(
    t: Seq<Tile>,
    t2: Seq<Tile>,
    size: int,
    ex: Seq<(usize, usize)>,
) -> bool {
    forall|c: int, r: int, dc: int, dr: int|
        #![trigger newly_visible(t, t2, size, c, r), hidden_at(t, size, dc, dr)]
        newly_visible(t, t2, size, c, r) && empty0_at(t, size, c, r) && is_neighbor(c, r, dc, dr)
            && hidden_at(t, size, dc, dr) && !(exists|k: int|
            0 <= k < ex.len() && (#[trigger] ex[k]).0 == c && ex[k].1 == r) ==> newly_visible(
            t,
            t2,
            size,
            dc,
            dr,
        )
}

/// Revealing a hidden cell that is a mine or carries a positive count
/// uncovers that cell alone.
pub proof fn lemma_reveal_tiles_single(t: Seq<Tile>, size: int, col: int, row: int)
    requires
        size >= 1,
        t.len() == size * size,
        hidden_at(t, size, col, row),
        !empty0_at(t, size, col, row),
    ensures
        forall|c: int, r: int|
            #[trigger] reaches(t, size, col, row, c, r) <==> (c == col && r == row),
        reveal_tiles(t, size, col, row) == t.update(
            idx_of(size, col, row),
            reveal_cell(t[idx_of(size, col, row)]),
        ),
{
    assert forall|c: int, r: int|
        #[trigger] reaches(t, size, col, row, c, r) <==> (c == col && r == row) by {
        if reaches(t, size, col, row, c, r) {
            let p = choose|p: Seq<(int, int)>|
                #[trigger] cascade_path(t, size, p) && p.first() == (col, row) && p.last() == (
                c,
                r,
                );
            if p.len() > 1 {
                assert(empty0_at(t, size, p[0].0, p[0].1));
            }
        }
        if c == col && r == row {
            lemma_reaches_refl(t, size, col, row);
        }
    }
    let i = idx_of(size, col, row);
    let t2 = reveal_tiles(t, size, col, row);
    crate::grid::lemma_idx_bounds(size, col, row);
    assert forall|j: int| 0 <= j < t.len() implies t2[j] == t.update(i, reveal_cell(t[i]))[j] by {
        crate::grid::lemma_index_to_coords(size, j);
        if reaches(t, size, col, row, j % size, j / size) {
            crate::grid::lemma_idx_injective(size, j % size, j / size, col, row);
        } else {
            if j == i {
                crate::grid::lemma_idx_injective(size, j % size, j / size, col, row);
            }
        }
    }
    assert(t2 =~= t.update(i, reveal_cell(t[i])));
}

/// A finished cascade uncovered exactly the reachable cells: if the
/// start is newly visible, nothing changed but reveals, every newly
/// visible cell is reached, and the closure holds with no exceptions,
/// then the new board is the one `reveal_tiles` describes.
pub proof fn lemma_cascade_complete(t: Seq<Tile>, t2: Seq<Tile>, size: int, sc: int, sr: int)
    requires
        size >= 1,
        t.len() == size * size,
        t2.len() == size * size,
        newly_visible(t, t2, size, sc, sr),
        forall|j: int|
            0 <= j < t.len() ==> t2[j] == t[j] || (t[j].state is Hidden && #[trigger] t2[j]
                == reveal_cell(t[j])),
        forall|c: int, r: int|
            #[trigger] newly_visible(t, t2, size, c, r) ==> reaches(t, size, sc, sr, c, r),
        cascade_closed_except(t, t2, size, Seq::<(usize, usize)>::empty()),
    ensures
        t2 == reveal_tiles(t, size, sc, sr),
        forall|c: int, r: int|
            #[trigger] reaches(t, size, sc, sr, c, r) <==> newly_visible(t, t2, size, c, r),
{
    assert forall|c: int, r: int|
        #[trigger] reaches(t, size, sc, sr, c, r) <==> newly_visible(t, t2, size, c, r) by {
        if reaches(t, size, sc, sr, c, r) {
            let p = choose|p: Seq<(int, int)>|
                #[trigger] cascade_path(t, size, p) && p.first() == (sc, sr) && p.last() == (c, r);
            lemma_path_covered(t, t2, size, p);
        }
    }
    assert forall|j: int| 0 <= j < t.len() implies t2[j] == reveal_tiles(t, size, sc, sr)[j] by {
        crate::grid::lemma_index_to_coords(size, j);
        let c = j % size;
        let r = j / size;
        assert(tile_at(t, size, c, r) == t[j]);
        assert(tile_at(t2, size, c, r) == t2[j]);
        if reaches(t, size, sc, sr, c, r) {
            assert(newly_visible(t, t2, size, c, r));
            assert(t2[j] == reveal_cell(t[j]));
        } else {
            assert(!newly_visible(t, t2, size, c, r));
            if t2[j] != t[j] {
                assert(t2[j] == reveal_cell(t[j]));
                assert(newly_visible(t, t2, size, c, r));
            }
        }
    }
    assert(t2 =~= reveal_tiles(t, size, sc, sr));
}

/// Law: a reveal is idempotent. After one reveal the clicked cell is no
/// longer hidden, so revealing the same cell again changes nothing — in
/// particular revealing an already-revealed cell is a no-op.
pub proof fn lemma_reveal_idempotent(t: Seq<Tile>, size: int, col: int, row: int)
    requires
        size >= 1,
        t.len() == size * size,
    ensures
        reveal_tiles(reveal_tiles(t, size, col, row), size, col, row) == reveal_tiles(
            t,
            size,
            col,
            row,
        ),
{
    let t1 = reveal_tiles(t, size, col, row);
    if !hidden_at(t, size, col, row) {
        lemma_reveal_tiles_nop(t, size, col, row);
        lemma_reveal_tiles_nop(t1, size, col, row);
    } else {
        lemma_reaches_refl(t, size, col, row);
        crate::grid::lemma_idx_bounds(size, col, row);
        let i = idx_of(size, col, row);
        assert(!hidden_at(t1, size, col, row)) by {
            crate::grid::lemma_index_to_coords(size, i);
            crate::grid::lemma_idx_injective(size, i % size, i / size, col, row);
            assert(t1[i] == reveal_cell(t[i]));
        }
        lemma_reveal_tiles_nop(t1, size, col, row);
    }
}

/// Read-only projection of one cell for display: its visibility, and its
/// kind when (and only when) the kind may be shown — once the cell is
/// revealed, or once the game is lost and all mines are surfaced.
#[derive(Debug, Copy, Clone, PartialEq, Eq)]
pub struct CellView {
    pub kind: Option<TileType>,
    pub state: TileState,
}

/// The glyph for one digit of a neighbor count (counts run 1 to 8;
/// zero-count cells show nothing).
pub open spec fn spec_digit(n: u32) -> Seq<char> {
    if n == 1 {
        "1"@
    } else if n == 2 {
        "2"@
    } else if n == 3 {
        "3"@
    } else if n == 4 {
        "4"@
    } else if n == 5 {
        "5"@
    } else if n == 6 {
        "6"@
    } else if n == 7 {
        "7"@
    } else {
        "8"@
    }
}

/// The glyph drawn on one tile: the markers on flagged and questioned
/// cells, the neighbor count on a revealed positive-count cell, nothing
/// otherwise.
pub open spec fn spec_tile_symbol(t: Tile) -> Seq<char> {
    match t.state {
        TileState::Flagged => "🚩"@,
        TileState::QuestionMark => "❓"@,
        TileState::Visible => match t.tile_type {
            TileType::NotBomb(n) => if n == 0 {
                ""@
            } else {
                spec_digit(n)
            },
            TileType::Bomb => ""@,
        },
        TileState::Hidden => ""@,
    }
}

/// A square minesweeper board of dimension `size`, stored row-major,
/// with the game status derived from the tiles.
#[derive(Debug)]
pub struct Board {
    pub(crate) size: usize,
    pub(crate) tiles: Vec<Tile>,
    pub(crate) status: GameStatus,
}

/// The derived status ignores marker flags: two boards equal in kinds
/// and in which cells are revealed share a status.
pub proof fn lemma_status_ignores_flags(t1: Seq<Tile>, t2: Seq<Tile>)
    requires
        t1.len() == t2.len(),
        forall|j: int|
            0 <= j < t1.len() ==> (#[trigger] t1[j]).tile_type == t2[j].tile_type && (t1[j].state
                is Visible <==> t2[j].state is Visible),
    ensures
        derived_status(t1) == derived_status(t2),
{
    assert(spec_lost(t1) == spec_lost(t2)) by {
        if spec_lost(t1) {
            let j = choose|j: int| 0 <= j < t1.len() && revealed_mine(#[trigger] t1[j]);
            assert(revealed_mine(t2[j]));
        }
        if spec_lost(t2) {
            let j = choose|j: int| 0 <= j < t2.len() && revealed_mine(#[trigger] t2[j]);
            assert(revealed_mine(t1[j]));
        }
    }
    assert(spec_all_empty_revealed(t1) == spec_all_empty_revealed(t2)) by {
        if spec_all_empty_revealed(t1) {
            assert forall|j: int| 0 <= j < t2.len() implies !concealed_empty(#[trigger] t2[j]) by {
                assert(!concealed_empty(t1[j]));
            }
        }
        if spec_all_empty_revealed(t2) {
            assert forall|j: int| 0 <= j < t1.len() implies !concealed_empty(#[trigger] t1[j]) by {
                assert(!concealed_empty(t2[j]));
            }
        }
    }
}

/// Derive the status of a tile vector by one scan.
pub(crate) fn compute_status(tiles: &Vec<Tile>) -> (st: GameStatus)
    ensures
        st == derived_status(tiles@),
{
    let n = tiles.len();
    let mut lost = false;
    let mut all_empty_visible = true;
    let mut i: usize = 0;
    while i < n
        invariant
            n == tiles@.len(),
            i <= n,
            lost <==> exists|j: int| 0 <= j < i && revealed_mine(#[trigger] tiles@[j]),
            all_empty_visible <==> forall|j: int|
                0 <= j < i ==> !concealed_empty(#[trigger] tiles@[j]),
        decreases n - i,
    {
        let t = tiles[i];
        match t.tile_type {
            TileType::Bomb => {
                match t.state {
                    TileState::Visible => {
                        lost = true;
                    },
                    _ => {},
                }
            },
            TileType::NotBomb(_) => {
                match t.state {
                    TileState::Visible => {},
                    _ => {
                        all_empty_visible = false;
                    },
                }
            },
        }
        i = i + 1;
    }
    if lost {
        GameStatus::Lost
    } else if all_empty_visible {
        GameStatus::Won
    } else {
        GameStatus::InProgress
    }
}

/// Row-major index of (col, row), proved to stay within a board of the
/// given dimension.
pub(crate) fn tile_index(size: usize, col: usize, row: usize) -> (i: usize)
    requires
        col < size,
        row < size,
        size <= MAX_SIZE,
    ensures
        i == idx_of(size as int, col as int, row as int),
        i < size * size,
{
    proof {
        lemma_idx_bounds(size as int, col as int, row as int);
        assert(size * size <= MAX_SIZE * MAX_SIZE) by (nonlinear_arith)
            requires
                0 <= size <= MAX_SIZE,
        ;
    }
    row * size + col
}

impl Board {
    /// Put a board together from its parts (crate-internal: the public
    /// constructors establish well-formedness on top of this).
    pub(crate) fn assemble(size: usize, tiles: Vec<Tile>, status: GameStatus) -> (b: Board)
        ensures
            b.size_spec() == size as int,
            b.tiles_spec() == tiles@,
            b.status_spec() == status,
    {
        Board { size, tiles, status }
    }

    /// Board dimension, as seen by specifications.
    pub closed spec fn size_spec(&self) -> int {
        self.size as int
    }

    /// The row-major tile sequence, as seen by specifications.
    pub closed spec fn tiles_spec(&self) -> Seq<Tile> {
        self.tiles@
    }

    /// The stored status, as seen by specifications.
    pub closed spec fn status_spec(&self) -> GameStatus {
        self.status
    }

    /// Well-formedness: a square tile vector of a supported dimension,
    /// every empty cell counting exactly the mines around it, and the
    /// stored status agreeing with the derivation from the tiles.
    pub open spec fn wf(&self) -> bool {
        &&& 1 <= self.size_spec() <= MAX_SIZE
        &&& self.tiles_spec().len() == self.size_spec() * self.size_spec()
        &&& counts_ok(self.tiles_spec(), self.size_spec())
        &&& self.status_spec() == derived_status(self.tiles_spec())
    }

    /// Board dimension.
    pub fn size(&self) -> (s: usize)
        ensures
            s == self.size_spec(),
    {
        self.size
    }

    /// Current game status.
    pub fn status(&self) -> (st: GameStatus)
        requires
            self.wf(),
        ensures
            st == self.status_spec(),
            st == derived_status(self.tiles_spec()),
    {
        self.status
    }

    /// The tile stored at (col, row).
    fn tile(&self, col: usize, row: usize) -> (t: Tile)
        requires
            self.wf(),
            col < self.size_spec(),
            row < self.size_spec(),
        ensures
            t == tile_at(self.tiles_spec(), self.size_spec(), col as int, row as int),
    {
        let i = tile_index(self.size, col, row);
        self.tiles[i]
    }

    /// Cycle the marker on (col, row): `Hidden -> Flagged ->
    /// QuestionMark -> Hidden`; a revealed cell is unaffected, and the
    /// whole call is a no-op once the game is over. Returns whether the
    /// visible state changed.
    pub fn toggle_flag(&mut self, col: usize, row: usize) -> (changed: bool)
        requires
            old(self).wf(),
            col < old(self).size_spec(),
            row < old(self).size_spec(),
        ensures
            final(self).wf(),
            final(self).size_spec() == old(self).size_spec(),
            old(self).status_spec() != GameStatus::InProgress ==> {
                &&& final(self).tiles_spec() == old(self).tiles_spec()
                &&& final(self).status_spec() == old(self).status_spec()
                &&& !changed
            },
            old(self).status_spec() == GameStatus::InProgress ==> {
                let t0 = old(self).tiles_spec();
                let size = old(self).size_spec();
                let t = tile_at(t0, size, col as int, row as int);
                &&& (t.state is Visible ==> final(self).tiles_spec() == t0 && !changed)
                &&& (!(t.state is Visible) ==> final(self).tiles_spec() == t0.update(
                    idx_of(size, col as int, row as int),
                    Tile { tile_type: t.tile_type, state: next_flag_state(t.state) },
                ) && changed)
                &&& final(self).status_spec() == GameStatus::InProgress
            },
    {
        match self.status {
            GameStatus::InProgress => {},
            _ => {
                return false;
            },
        }
        let i = tile_index(self.size, col, row);
        let t = self.tiles[i];
        match t.state {
            TileState::Visible => false,
            _ => {
                let nt = Tile {
                    tile_type: t.tile_type,
                    state: match t.state {
                        TileState::Hidden => TileState::Flagged,
                        TileState::Flagged => TileState::QuestionMark,
                        TileState::QuestionMark => TileState::Hidden,
                        TileState::Visible => TileState::Visible,
                    },
                };
                self.tiles[i] = nt;
                proof {
                    let t1 = old(self).tiles@;
                    let t2 = self.tiles@;
                    let size = old(self).size_spec();
                    assert(forall|j: int|
                        0 <= j < t1.len() ==> (#[trigger] t1[j]).tile_type == t2[j].tile_type && (
                        t1[j].state is Visible <==> t2[j].state is Visible));
                    lemma_status_ignores_flags(t1, t2);
                    crate::grid::lemma_counts_ok_same_types(t1, t2, size);
                }
                true
            },
        }
    }

    /// Reveal (col, row). A cell that is not hidden is left alone (a
    /// flagged cell must be unflagged before it can be revealed); a
    /// hidden mine or positive-count cell is revealed alone; a hidden
    /// zero-count cell is revealed together with every cell a cascade
    /// chain reaches from it, walked with an explicit worklist. The
    /// status is re-derived afterwards, and once the game is over the
    /// whole call is a no-op. Returns the cells whose visibility
    /// changed; because the new board equals `reveal_tiles` — defined
    /// by chain existence alone — the outcome is independent of the
    /// order in which neighbors are visited.
    #[verifier::loop_isolation(false)]
    #[verifier::rlimit(100)]
    pub fn reveal_at(&mut self, col: usize, row: usize) -> (changed: Vec<(usize, usize)>)
        requires
            old(self).wf(),
            col < old(self).size_spec(),
            row < old(self).size_spec(),
        ensures
            final(self).wf(),
            final(self).size_spec() == old(self).size_spec(),
            final(self).status_spec() == derived_status(final(self).tiles_spec()),
            old(self).status_spec() != GameStatus::InProgress ==> {
                &&& final(self).tiles_spec() == old(self).tiles_spec()
                &&& final(self).status_spec() == old(self).status_spec()
                &&& changed@.len() == 0
            },
            old(self).status_spec() == GameStatus::InProgress ==> {
                let t0 = old(self).tiles_spec();
                let size = old(self).size_spec();
                &&& final(self).tiles_spec() == reveal_tiles(t0, size, col as int, row as int)
                &&& (!hidden_at(t0, size, col as int, row as int) ==> changed@.len() == 0
                    && final(self).tiles_spec() == t0 && final(self).status_spec() == old(
                    self,
                ).status_spec())
                &&& (forall|k1: int, k2: int|
                    0 <= k1 < k2 < changed@.len() ==> changed@[k1] != changed@[k2])
                &&& (forall|k: int|
                    0 <= k < changed@.len() ==> reaches(
                        t0,
                        size,
                        col as int,
                        row as int,
                        (#[trigger] changed@[k]).0 as int,
                        changed@[k].1 as int,
                    ))
                &&& (forall|c: int, r: int|
                    #[trigger] reaches(t0, size, col as int, row as int, c, r) ==> exists|k: int|
                        0 <= k < changed@.len() && (#[trigger] changed@[k]).0 == c
                            && changed@[k].1 == r)
            },
    {
        let ghost t0 = self.tiles@;
        let ghost szi = self.size as int;
        let ghost sc = col as int;
        let ghost sr = row as int;
        let mut changed: Vec<(usize, usize)> = Vec::new();
        match self.status {
            GameStatus::InProgress => {},
            _ => {
                return changed;
            },
        }
        let i = tile_index(self.size, col, row);
        let t = self.tiles[i];
        match t.state {
            TileState::Hidden => {},
            _ => {
                proof {
                    lemma_reveal_tiles_nop(t0, szi, sc, sr);
                }
                return changed;
            },
        }
        // The clicked cell is hidden: reveal it.
        self.tiles[i] = Tile { tile_type: t.tile_type, state: TileState::Visible };
        changed.push((col, row));
        proof {
            lemma_reaches_refl(t0, szi, sc, sr);
            lemma_idx_bounds(szi, sc, sr);
            assert(changed@[0] == (col, row));
            assert forall|c: int, r: int|
                #[trigger] newly_visible(t0, self.tiles@, szi, c, r) implies (c == sc && r
                == sr) by {
                lemma_idx_bounds(szi, c, r);
                if idx_of(szi, c, r) == i as int {
                    lemma_idx_injective(szi, c, r, sc, sr);
                }
            }
            assert(newly_visible(t0, self.tiles@, szi, sc, sr));
        }
        let is_cascade = match t.tile_type {
            TileType::NotBomb(n) => n == 0,
            TileType::Bomb => false,
        };
        if !is_cascade {
            proof {
                lemma_reveal_tiles_single(t0, szi, sc, sr);
            }
        } else {
            let mut stack: Vec<(usize, usize)> = Vec::new();
            stack.push((col, row));
            proof {
                lemma_count_hidden_bounds(self.tiles@);
                assert(stack@[0] == (col, row));
                assert(changed@[0] == (col, row));
            }
            while stack.len() > 0
                invariant
                    self.size as int == szi,
                    self.status == GameStatus::InProgress,
                    self.tiles@.len() == szi * szi,
                    0 <= count_hidden(self.tiles@),
                    forall|j: int|
                        0 <= j < t0.len() ==> self.tiles@[j] == t0[j] || (t0[j].state is Hidden
                            && #[trigger] self.tiles@[j] == reveal_cell(t0[j])),
                    newly_visible(t0, self.tiles@, szi, sc, sr),
                    forall|k1: int, k2: int|
                        0 <= k1 < k2 < changed@.len() ==> changed@[k1] != changed@[k2],
                    forall|k: int|
                        0 <= k < changed@.len() ==> newly_visible(
                            t0,
                            self.tiles@,
                            szi,
                            (#[trigger] changed@[k]).0 as int,
                            changed@[k].1 as int,
                        ) && reaches(t0, szi, sc, sr, changed@[k].0 as int, changed@[k].1 as int),
                    forall|c: int, r: int|
                        #[trigger] newly_visible(t0, self.tiles@, szi, c, r) ==> exists|k: int|
                            0 <= k < changed@.len() && (#[trigger] changed@[k]).0 == c
                                && changed@[k].1 == r,
                    forall|k: int|
                        0 <= k < stack@.len() ==> empty0_at(
                            t0,
                            szi,
                            (#[trigger] stack@[k]).0 as int,
                            stack@[k].1 as int,
                        ) && newly_visible(
                            t0,
                            self.tiles@,
                            szi,
                            stack@[k].0 as int,
                            stack@[k].1 as int,
                        ) && reaches(t0, szi, sc, sr, stack@[k].0 as int, stack@[k].1 as int),
                    cascade_closed_except(t0, self.tiles@, szi, stack@),
                decreases count_hidden(self.tiles@), stack@.len(),
            {
                let ghost head_tiles = self.tiles@;
                let ghost head_stack = stack@;
                let (cc, rr) = match stack.pop() {
                    Some(p) => p,
                    None => unreached(),
                };
                proof {
                    assert(head_stack[head_stack.len() - 1] == (cc, rr));
                    assert(stack@ =~= head_stack.subrange(0, head_stack.len() - 1));
                    assert(head_stack =~= stack@.push((cc, rr)));
                    assert(empty0_at(t0, szi, cc as int, rr as int));
                    assert(reaches(t0, szi, sc, sr, cc as int, rr as int));
                    assert(newly_visible(t0, head_tiles, szi, cc as int, rr as int));
                }
                let lc = left(cc);
                let rc = right(cc, self.size);
                let ar = above(rr);
                let br = below(rr, self.size);
                let mut cn = lc;
                while cn <= rc
                    invariant
                        lc <= cn <= rc + 1,
                        self.size as int == szi,
                        self.status == GameStatus::InProgress,
                        self.tiles@.len() == szi * szi,
                        0 <= count_hidden(self.tiles@),
                        forall|j: int|
                            0 <= j < t0.len() ==> self.tiles@[j] == t0[j] || (t0[j].state is Hidden
                                && #[trigger] self.tiles@[j] == reveal_cell(t0[j])),
                        newly_visible(t0, self.tiles@, szi, sc, sr),
                        forall|k1: int, k2: int|
                            0 <= k1 < k2 < changed@.len() ==> changed@[k1] != changed@[k2],
                        forall|k: int|
                            0 <= k < changed@.len() ==> newly_visible(
                                t0,
                                self.tiles@,
                                szi,
                                (#[trigger] changed@[k]).0 as int,
                                changed@[k].1 as int,
                            ) && reaches(
                                t0,
                                szi,
                                sc,
                                sr,
                                changed@[k].0 as int,
                                changed@[k].1 as int,
                            ),
                        forall|c: int, r: int|
                            #[trigger] newly_visible(t0, self.tiles@, szi, c, r) ==> exists|k: int|
                                0 <= k < changed@.len() && (#[trigger] changed@[k]).0 == c
                                    && changed@[k].1 == r,
                        forall|k: int|
                            0 <= k < stack@.len() ==> empty0_at(
                                t0,
                                szi,
                                (#[trigger] stack@[k]).0 as int,
                                stack@[k].1 as int,
                            ) && newly_visible(
                                t0,
                                self.tiles@,
                                szi,
                                stack@[k].0 as int,
                                stack@[k].1 as int,
                            ) && reaches(t0, szi, sc, sr, stack@[k].0 as int, stack@[k].1 as int),
                        newly_visible(t0, self.tiles@, szi, cc as int, rr as int),
                        cascade_closed_except(t0, self.tiles@, szi, stack@.push((cc, rr))),
                        forall|x: int, y: int|
                            #![trigger hidden_at(t0, szi, x, y)]
                            is_neighbor(cc as int, rr as int, x, y) && hidden_at(t0, szi, x, y) && x
                                < cn ==> newly_visible(t0, self.tiles@, szi, x, y),
                        count_hidden(self.tiles@) <= count_hidden(head_tiles),
                        stack@.len() >= head_stack.len() - 1,
                        stack@.len() > head_stack.len() - 1 ==> count_hidden(self.tiles@)
                            < count_hidden(head_tiles),
                    decreases rc + 1 - cn,
                {
                    let mut rn = ar;
                    while rn <= br
                        invariant
                            lc <= cn <= rc,
                            ar <= rn <= br + 1,
                            self.size as int == szi,
                            self.status == GameStatus::InProgress,
                            self.tiles@.len() == szi * szi,
                            0 <= count_hidden(self.tiles@),
                            forall|j: int|
                                0 <= j < t0.len() ==> self.tiles@[j] == t0[j] || (t0[j].state
                                    is Hidden && #[trigger] self.tiles@[j] == reveal_cell(t0[j])),
                            newly_visible(t0, self.tiles@, szi, sc, sr),
                            forall|k1: int, k2: int|
                                0 <= k1 < k2 < changed@.len() ==> changed@[k1] != changed@[k2],
                            forall|k: int|
                                0 <= k < changed@.len() ==> newly_visible(
                                    t0,
                                    self.tiles@,
                                    szi,
                                    (#[trigger] changed@[k]).0 as int,
                                    changed@[k].1 as int,
                                ) && reaches(
                                    t0,
                                    szi,
                                    sc,
                                    sr,
                                    changed@[k].0 as int,
                                    changed@[k].1 as int,
                                ),
                            forall|c: int, r: int|
                                #[trigger] newly_visible(t0, self.tiles@, szi, c, r) ==> exists|
                                    k: int,
                                |
                                    0 <= k < changed@.len() && (#[trigger] changed@[k]).0 == c
                                        && changed@[k].1 == r,
                            forall|k: int|
                                0 <= k < stack@.len() ==> empty0_at(
                                    t0,
                                    szi,
                                    (#[trigger] stack@[k]).0 as int,
                                    stack@[k].1 as int,
                                ) && newly_visible(
                                    t0,
                                    self.tiles@,
                                    szi,
                                    stack@[k].0 as int,
                                    stack@[k].1 as int,
                                ) && reaches(
                                    t0,
                                    szi,
                                    sc,
                                    sr,
                                    stack@[k].0 as int,
                                    stack@[k].1 as int,
                                ),
                            newly_visible(t0, self.tiles@, szi, cc as int, rr as int),
                            cascade_closed_except(t0, self.tiles@, szi, stack@.push((cc, rr))),
                            forall|x: int, y: int|
                                #![trigger hidden_at(t0, szi, x, y)]
                                is_neighbor(cc as int, rr as int, x, y) && hidden_at(t0, szi, x, y)
                                    && (x < cn || (x == cn && y < rn)) ==> newly_visible(
                                    t0,
                                    self.tiles@,
                                    szi,
                                    x,
                                    y,
                                ),
                            count_hidden(self.tiles@) <= count_hidden(head_tiles),
                            stack@.len() >= head_stack.len() - 1,
                            stack@.len() > head_stack.len() - 1 ==> count_hidden(self.tiles@)
                                < count_hidden(head_tiles),
                        decreases br + 1 - rn,
                    {
                        let ghost prev = self.tiles@;
                        let ghost prev_changed = changed@;
                        let ghost prev_stack = stack@;
                        let i2 = tile_index(self.size, cn, rn);
                        let nt = self.tiles[i2];
                        match nt.state {
                            TileState::Hidden => {
                                proof {
                                    // The popped cell is visible, this one still
                                    // hidden, so they differ and are neighbors.
                                    assert(newly_visible(t0, prev, szi, cc as int, rr as int));
                                    assert(tile_at(prev, szi, cn as int, rn as int) == prev[i2 as int]);
                                    assert(hidden_at(t0, szi, cn as int, rn as int));
                                    assert(is_neighbor(cc as int, rr as int, cn as int, rn as int));
                                    lemma_reaches_step(
                                        t0,
                                        szi,
                                        sc,
                                        sr,
                                        cc as int,
                                        rr as int,
                                        cn as int,
                                        rn as int,
                                    );
                                    lemma_count_hidden_update(
                                        prev,
                                        i2 as int,
                                        Tile { tile_type: nt.tile_type, state: TileState::Visible },
                                    );
                                }
                                self.tiles[i2] = Tile {
                                    tile_type: nt.tile_type,
                                    state: TileState::Visible,
                                };
                                changed.push((cn, rn));
                                let push_it = match nt.tile_type {
                                    TileType::NotBomb(n) => n == 0,
                                    TileType::Bomb => false,
                                };
                                if push_it {
                                    stack.push((cn, rn));
                                }
                                proof {
                                    assert forall|c: int, r: int|
                                        #[trigger] newly_visible(t0, self.tiles@, szi, c, r)
                                            implies newly_visible(t0, prev, szi, c, r) || (c
                                        == cn as int && r == rn as int) by {
                                        lemma_idx_bounds(szi, c, r);
                                        if idx_of(szi, c, r) == i2 as int {
                                            lemma_idx_injective(szi, c, r, cn as int, rn as int);
                                        }
                                    }
                                    assert forall|c: int, r: int|
                                        newly_visible(t0, prev, szi, c, r) implies #[trigger]
                                    newly_visible(t0, self.tiles@, szi, c, r) by {
                                        lemma_idx_bounds(szi, c, r);
                                    }
                                    assert(newly_visible(t0, self.tiles@, szi, cn as int, rn as int))
                                        by {
                                        lemma_idx_bounds(szi, cn as int, rn as int);
                                    }
                                    assert(changed@[changed@.len() - 1] == (cn, rn));
                                    lemma_count_hidden_bounds(self.tiles@);
                                    assert forall|c: int, r: int|
                                        #[trigger] newly_visible(t0, self.tiles@, szi, c, r)
                                            implies exists|k: int|
                                        0 <= k < changed@.len() && (#[trigger] changed@[k]).0 == c
                                            && changed@[k].1 == r by {
                                        if newly_visible(t0, prev, szi, c, r) {
                                            let k = choose|k: int|
                                                0 <= k < prev_changed.len() && (#[trigger] prev_changed[k]).0
                                                    == c && prev_changed[k].1 == r;
                                            assert(changed@[k] == prev_changed[k]);
                                        } else {
                                            assert(changed@[changed@.len() - 1] == (cn, rn));
                                        }
                                    }
                                    assert(tile_at(t0, szi, cn as int, rn as int) == t0[i2 as int]);
                                    let exn = stack@.push((cc, rr));
                                    let exo = prev_stack.push((cc, rr));
                                    assert forall|c: int, r: int, dc: int, dr: int|
                                        #![trigger newly_visible(t0, self.tiles@, szi, c, r), hidden_at(t0, szi, dc, dr)]
                                        newly_visible(t0, self.tiles@, szi, c, r) && empty0_at(
                                            t0,
                                            szi,
                                            c,
                                            r,
                                        ) && is_neighbor(c, r, dc, dr) && hidden_at(t0, szi, dc, dr)
                                            && !(exists|k: int|
                                            0 <= k < exn.len() && (#[trigger] exn[k]).0 == c
                                                && exn[k].1 == r) implies newly_visible(
                                        t0,
                                        self.tiles@,
                                        szi,
                                        dc,
                                        dr,
                                    ) by {
                                        if c == cn as int && r == rn as int {
                                            assert(push_it);
                                            assert(exn[prev_stack.len() as int] == (cn, rn));
                                            assert(false);
                                        } else {
                                            assert(newly_visible(t0, prev, szi, c, r));
                                            assert(!(exists|k: int|
                                                0 <= k < exo.len() && (#[trigger] exo[k]).0 == c
                                                    && exo[k].1 == r)) by {
                                                if exists|k: int|
                                                    0 <= k < exo.len() && (#[trigger] exo[k]).0 == c
                                                        && exo[k].1 == r {
                                                    let k = choose|k: int|
                                                        0 <= k < exo.len() && (#[trigger] exo[k]).0
                                                            == c && exo[k].1 == r;
                                                    if k < prev_stack.len() {
                                                        assert(exn[k] == prev_stack[k]);
                                                    } else {
                                                        assert(exn[exn.len() - 1] == (cc, rr));
                                                    }
                                                }
                                            }
                                            assert(newly_visible(t0, prev, szi, dc, dr));
                                        }
                                    }
                                }
                            },
                            _ => {
                                proof {
                                    assert(tile_at(prev, szi, cn as int, rn as int) == prev[i2 as int]);
                                    if hidden_at(t0, szi, cn as int, rn as int) {
                                        assert(newly_visible(t0, self.tiles@, szi, cn as int, rn as int));
                                    }
                                }
                            },
                        }
                        rn = rn + 1;
                    }
                    cn = cn + 1;
                }
                proof {
                    // All neighbors of the popped cell are handled, so the
                    // closure now holds with only the remaining worklist
                    // excepted.
                    assert forall|c: int, r: int, dc: int, dr: int|
                        #![trigger newly_visible(t0, self.tiles@, szi, c, r), hidden_at(t0, szi, dc, dr)]
                        newly_visible(t0, self.tiles@, szi, c, r) && empty0_at(t0, szi, c, r)
                            && is_neighbor(c, r, dc, dr) && hidden_at(t0, szi, dc, dr) && !(exists|
                            k: int,
                        |
                            0 <= k < stack@.len() && (#[trigger] stack@[k]).0 == c && stack@[k].1
                                == r) implies newly_visible(t0, self.tiles@, szi, dc, dr) by {
                        if c == cc as int && r == rr as int {
                            assert(hidden_at(t0, szi, dc, dr));
                        } else {
                            let ex = stack@.push((cc, rr));
                            assert(!(exists|k: int|
                                0 <= k < ex.len() && (#[trigger] ex[k]).0 == c && ex[k].1 == r))
                                by {
                                if exists|k: int|
                                    0 <= k < ex.len() && (#[trigger] ex[k]).0 == c && ex[k].1
                                        == r {
                                    let k = choose|k: int|
                                        0 <= k < ex.len() && (#[trigger] ex[k]).0 == c && ex[k].1
                                            == r;
                                    if k < stack@.len() {
                                        assert((#[trigger] stack@[k]).0 == c && stack@[k].1 == r);
                                    }
                                }
                            }
                        }
                    }
                }
            }
            proof {
                lemma_cascade_complete(t0, self.tiles@, szi, sc, sr);
            }
        }
        proof {
            assert forall|j: int|
                0 <= j < t0.len() implies (#[trigger] self.tiles@[j]).tile_type
                == t0[j].tile_type by {}
            crate::grid::lemma_counts_ok_same_types(t0, self.tiles@, szi);
        }
        let st = compute_status(&self.tiles);
        self.status = st;
        changed
    }

    /// What one cell looks like to the presentation layer: its
    /// visibility, and its kind once revealed or once the game is lost.
    pub fn cell_view(&self, col: usize, row: usize) -> (v: CellView)
        requires
            self.wf(),
            col < self.size_spec(),
            row < self.size_spec(),
        ensures
            ({
                let t = tile_at(self.tiles_spec(), self.size_spec(), col as int, row as int);
                &&& v.state == t.state
                &&& v.kind == if t.state is Visible || self.status_spec() is Lost {
                    Some(t.tile_type)
                } else {
                    None::<TileType>
                }
            }),
    {
        let t = self.tile(col, row);
        let show_kind = match (t.state, self.status) {
            (TileState::Visible, _) => true,
            (_, GameStatus::Lost) => true,
            _ => false,
        };
        CellView { kind: if show_kind { Some(t.tile_type) } else { None }, state: t.state }
    }

    /// The style class of one cell: every mine is surfaced as "bomb"
    /// once the game is lost; otherwise the class follows the cell's
    /// visibility alone.
    pub fn square_class(&self, col: usize, row: usize) -> (class: &'static str)
        requires
            self.wf(),
            col < self.size_spec(),
            row < self.size_spec(),
        ensures
            ({
                let t = tile_at(self.tiles_spec(), self.size_spec(), col as int, row as int);
                class@ == if self.status_spec() is Lost && t.tile_type is Bomb {
                    "bomb"@
                } else {
                    match t.state {
                        TileState::Visible => "visible"@,
                        TileState::Flagged => "flag"@,
                        TileState::QuestionMark => "question-mark"@,
                        TileState::Hidden => "hidden"@,
                    }
                }
            }),
    {
        let t = self.tile(col, row);
        match self.status {
            GameStatus::Lost => {
                match t.tile_type {
                    TileType::Bomb => {
                        return "bomb";
                    },
                    _ => {},
                }
            },
            _ => {},
        }
        match t.state {
            TileState::Visible => "visible",
            TileState::Flagged => "flag",
            TileState::QuestionMark => "question-mark",
            TileState::Hidden => "hidden",
        }
    }

    /// The glyph drawn in one cell, as `spec_tile_symbol` states it.
    pub fn get_tile_symbol(&self, col: usize, row: usize) -> (symbol: String)
        requires
            self.wf(),
            col < self.size_spec(),
            row < self.size_spec(),
        ensures
            symbol@ == spec_tile_symbol(
                tile_at(self.tiles_spec(), self.size_spec(), col as int, row as int),
            ),
    {
        let t = self.tile(col, row);
        let glyph: &str = match t.state {
            TileState::Flagged => "🚩",
            TileState::QuestionMark => "❓",
            TileState::Visible => match t.tile_type {
                TileType::NotBomb(0) => "",
                TileType::NotBomb(1) => "1",
                TileType::NotBomb(2) => "2",
                TileType::NotBomb(3) => "3",
                TileType::NotBomb(4) => "4",
                TileType::NotBomb(5) => "5",
                TileType::NotBomb(6) => "6",
                TileType::NotBomb(7) => "7",
                TileType::NotBomb(_) => "8",
                TileType::Bomb => "",
            },
            TileState::Hidden => "",
        };
        glyph.to_owned()
    }
}

/// One player action on the board: a left click on a cell, or a right
/// click that cycles its marker.
pub enum Msg {
    Select(usize, usize),
    RightClick(usize, usize),
}

impl Board {
    /// Dispatch one player action. A select reveals the cell (with its
    /// cascade), a right click cycles its marker; the whole call is a
    /// no-op once the game is over. Returns whether any visible state
    /// changed, so a caller knows whether to redraw.
    pub fn update(&mut self, msg: Msg) -> (changed: bool)
        requires
            old(self).wf(),
            match msg {
                Msg::Select(c, r) => c < old(self).size_spec() && r < old(self).size_spec(),
                Msg::RightClick(c, r) => c < old(self).size_spec() && r < old(self).size_spec(),
            },
        ensures
            final(self).wf(),
            final(self).size_spec() == old(self).size_spec(),
            final(self).status_spec() == derived_status(final(self).tiles_spec()),
            old(self).status_spec() != GameStatus::InProgress ==> {
                &&& final(self).tiles_spec() == old(self).tiles_spec()
                &&& final(self).status_spec() == old(self).status_spec()
                &&& !changed
            },
            old(self).status_spec() == GameStatus::InProgress ==> {
                let t0 = old(self).tiles_spec();
                let size = old(self).size_spec();
                match msg {
                    Msg::Select(c, r) => {
                        &&& final(self).tiles_spec() == reveal_tiles(t0, size, c as int, r as int)
                        &&& changed == hidden_at(t0, size, c as int, r as int)
                    },
                    Msg::RightClick(c, r) => {
                        let t = tile_at(t0, size, c as int, r as int);
                        &&& (t.state is Visible ==> final(self).tiles_spec() == t0 && !changed)
                        &&& (!(t.state is Visible) ==> final(self).tiles_spec() == t0.update(
                            idx_of(size, c as int, r as int),
                            Tile { tile_type: t.tile_type, state: next_flag_state(t.state) },
                        ) && changed)
                    },
                }
            },
    {
        let ghost t0 = self.tiles@;
        let ghost szi = self.size as int;
        match msg {
            Msg::Select(c, r) => {
                let touched = self.reveal_at(c, r);
                proof {
                    if old(self).status == GameStatus::InProgress && hidden_at(
                        t0,
                        szi,
                        c as int,
                        r as int,
                    ) {
                        lemma_reaches_refl(t0, szi, c as int, r as int);
                    }
                }
                touched.len() > 0
            },
            Msg::RightClick(c, r) => self.toggle_flag(c, r),
        }
    }
}

} // verus!
