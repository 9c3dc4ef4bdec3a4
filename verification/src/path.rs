//! Move sequences on a grid: the cells they visit, the tokens they
//! collect and the rule they have to obey.

use crate::types::{CellCoord, GridView, PuzzleMove};
use vstd::prelude::*;

verus! {

/// The coordinate reached from `at` by one move: a row move keeps the
/// column, a column move keeps the row, a placeholder stays put.
pub open spec fn apply_move(at: CellCoord, m: PuzzleMove) -> CellCoord {
    match m {
        PuzzleMove::Row(r) => (r, at.1),
        PuzzleMove::Column(c) => (at.0, c),
        PuzzleMove::NoMove => at,
    }
}

/// The coordinate selected by move number `i` of `moves`, counting from 0
/// and starting out from `(0, 0)`.
pub open spec fn coord_at(moves: Seq<PuzzleMove>, i: int) -> CellCoord
    decreases i + 1,
{
    if i < 0 {
        (0u32, 0u32)
    } else {
        apply_move(coord_at(moves, i - 1), moves[i])
    }
}

/// The coordinates visited by the first `k` moves, in order; a placeholder
/// ends the replay, and nothing after it is visited.
pub open spec fn replay_upto(moves: Seq<PuzzleMove>, k: int) -> Seq<CellCoord>
    decreases k,
{
    if k <= 0 {
        Seq::empty()
    } else {
        let before = replay_upto(moves, k - 1);
        if before.len() == k - 1 && moves[k - 1] != PuzzleMove::NoMove {
            before.push(coord_at(moves, k - 1))
        } else {
            before
        }
    }
}

/// The coordinates visited by `moves`, in order.
pub open spec fn replay(moves: Seq<PuzzleMove>) -> Seq<CellCoord> {
    replay_upto(moves, moves.len() as int)
}

/// Move number `i` is of the kind its place asks for: columns are selected
/// at even places, rows at odd ones.
pub open spec fn expected_kind(i: int, m: PuzzleMove) -> bool {
    if i % 2 == 0 {
        m is Column
    } else {
        m is Row
    }
}

/// The moves select a column, then a row, then a column, and so on.
pub open spec fn alternating(moves: Seq<PuzzleMove>) -> bool {
    forall|i: int| 0 <= i < moves.len() ==> expected_kind(i, #[trigger] moves[i])
}

/// Every move selects a cell of the grid.
pub open spec fn in_range(grid: GridView, moves: Seq<PuzzleMove>) -> bool {
    forall|i: int|
        0 <= i < moves.len() ==> grid.has(
            (#[trigger] coord_at(moves, i)).0 as int,
            coord_at(moves, i).1 as int,
        )
}

/// No cell is selected twice.
pub open spec fn distinct(moves: Seq<PuzzleMove>) -> bool {
    forall|i: int, j: int|
        0 <= i < j < moves.len() ==> #[trigger] coord_at(moves, i) != #[trigger] coord_at(
            moves,
            j,
        )
}

/// The moves obey the selection rule on `grid`.
pub open spec fn legal(grid: GridView, moves: Seq<PuzzleMove>) -> bool {
    &&& alternating(moves)
    &&& in_range(grid, moves)
    &&& distinct(moves)
}

/// The token collected by move number `i`.
pub open spec fn token_at(grid: GridView, moves: Seq<PuzzleMove>, i: int) -> Seq<char> {
    grid.cell(coord_at(moves, i).0 as int, coord_at(moves, i).1 as int)
}

/// The tokens collected by `moves`, in order.
pub open spec fn buffer_of(grid: GridView, moves: Seq<PuzzleMove>) -> Seq<Seq<char>> {
    Seq::new(moves.len(), |i: int| token_at(grid, moves, i))
}

/// Which cells the first `k` moves have selected, as one flag per cell.
pub open spec fn used_upto(grid: GridView, moves: Seq<PuzzleMove>, k: int) -> Seq<bool>
    decreases k,
{
    if k <= 0 {
        Seq::new(grid.cells.len(), |i: int| false)
    } else {
        used_upto(grid, moves, k - 1).update(
            grid.index_of(coord_at(moves, k - 1).0 as int, coord_at(moves, k - 1).1 as int),
            true,
        )
    }
}

/// The move that selects index `c` after `len` moves have been made.
pub open spec fn candidate(len: int, c: u32) -> PuzzleMove {
    if len % 2 == 0 {
        PuzzleMove::Column(c)
    } else {
        PuzzleMove::Row(c)
    }
}

/// The index that a move selects; a placeholder selects none.
pub open spec fn move_index(m: PuzzleMove) -> int {
    match m {
        PuzzleMove::Row(r) => r as int,
        PuzzleMove::Column(c) => c as int,
        PuzzleMove::NoMove => -1,
    }
}

/// `a` and `b` start with the same `k` moves.
pub open spec fn agree(a: Seq<PuzzleMove>, b: Seq<PuzzleMove>, k: int) -> bool {
    &&& k <= a.len()
    &&& k <= b.len()
    &&& forall|i: int| 0 <= i < k ==> a[i] == b[i]
}

/// Sequences that start with the same moves select the same cells there.
pub proof fn lemma_coord_prefix(a: Seq<PuzzleMove>, b: Seq<PuzzleMove>, k: int, i: int)
    requires
        agree(a, b, k),
        i < k,
    ensures
        coord_at(a, i) == coord_at(b, i),
    decreases i + 1,
{
    if i >= 0 {
        lemma_coord_prefix(a, b, k, i - 1);
    }
}

/// Sequences that start with the same moves collect the same tokens there.
pub proof fn lemma_buffer_prefix(grid: GridView, a: Seq<PuzzleMove>, b: Seq<PuzzleMove>, k: int)
    requires
        agree(a, b, k),
    ensures
        forall|i: int| 0 <= i < k ==> buffer_of(grid, a)[i] == buffer_of(grid, b)[i],
{
    assert forall|i: int| 0 <= i < k implies buffer_of(grid, a)[i] == buffer_of(grid, b)[i] by {
        lemma_coord_prefix(a, b, k, i);
    }
}

/// Sequences that start with the same moves have used the same cells there.
pub proof fn lemma_used_prefix(
    grid: GridView,
    a: Seq<PuzzleMove>,
    b: Seq<PuzzleMove>,
    k: int,
    j: int,
)
    requires
        agree(a, b, k),
        j <= k,
    ensures
        used_upto(grid, a, j) == used_upto(grid, b, j),
    decreases j,
{
    if j > 0 {
        lemma_used_prefix(grid, a, b, k, j - 1);
        lemma_coord_prefix(a, b, k, j - 1);
    }
}

/// The flags of `used_upto` have one entry per cell.
pub proof fn lemma_used_len(grid: GridView, moves: Seq<PuzzleMove>, k: int)
    requires
        grid.wf(),
        k <= moves.len(),
        in_range(grid, moves),
    ensures
        used_upto(grid, moves, k).len() == grid.cells.len(),
    decreases k,
{
    if k > 0 {
        lemma_used_len(grid, moves, k - 1);
        let last = coord_at(moves, k - 1);
        crate::types::lemma_index_in_bounds(
            grid.rows as int,
            grid.cols as int,
            last.0 as int,
            last.1 as int,
        );
    }
}

/// A cell of the grid is flagged as used exactly when one of the moves made
/// so far has selected it.
pub proof fn lemma_used_means_visited(
    grid: GridView,
    moves: Seq<PuzzleMove>,
    k: int,
    at: CellCoord,
)
    requires
        grid.wf(),
        0 <= k <= moves.len(),
        in_range(grid, moves),
        grid.has(at.0 as int, at.1 as int),
    ensures
        used_upto(grid, moves, k)[grid.index_of(at.0 as int, at.1 as int)] <==> exists|i: int|
            0 <= i < k && #[trigger] coord_at(moves, i) == at,
    decreases k,
{
    lemma_used_len(grid, moves, k);
    crate::types::lemma_index_in_bounds(
        grid.rows as int,
        grid.cols as int,
        at.0 as int,
        at.1 as int,
    );
    if k > 0 {
        lemma_used_means_visited(grid, moves, k - 1, at);
        lemma_used_len(grid, moves, k - 1);
        let last = coord_at(moves, k - 1);
        crate::types::lemma_index_in_bounds(
            grid.rows as int,
            grid.cols as int,
            last.0 as int,
            last.1 as int,
        );
        if grid.index_of(last.0 as int, last.1 as int) == grid.index_of(at.0 as int, at.1 as int) {
            crate::types::lemma_index_injective(
                grid.cols as int,
                last.0 as int,
                last.1 as int,
                at.0 as int,
                at.1 as int,
            );
            assert(coord_at(moves, k - 1) == at);
        } else {
            if exists|i: int| 0 <= i < k && #[trigger] coord_at(moves, i) == at {
                let i = choose|i: int| 0 <= i < k && #[trigger] coord_at(moves, i) == at;
                assert(0 <= i < k - 1);
            }
        }
    }
}

/// Without a placeholder among the first `k` moves, the replay visits one
/// coordinate per move.
pub proof fn lemma_replay_full(moves: Seq<PuzzleMove>, k: int)
    requires
        0 <= k <= moves.len(),
        forall|i: int| 0 <= i < k ==> moves[i] != PuzzleMove::NoMove,
    ensures
        replay_upto(moves, k).len() == k,
        forall|i: int| 0 <= i < k ==> replay_upto(moves, k)[i] == coord_at(moves, i),
    decreases k,
{
    if k > 0 {
        lemma_replay_full(moves, k - 1);
    }
}

/// Once the replay has met a placeholder, later moves add nothing.
pub proof fn lemma_replay_stops(moves: Seq<PuzzleMove>, j: int, k: int)
    requires
        0 <= j <= k,
        replay_upto(moves, j).len() < j,
    ensures
        replay_upto(moves, k) == replay_upto(moves, j),
    decreases k - j,
{
    if j < k {
        lemma_replay_stops(moves, j, k - 1);
    }
}

/// Every coordinate of `coords` addresses a cell of `grid`.
pub open spec fn all_within(grid: GridView, coords: Seq<CellCoord>) -> bool {
    forall|i: int|
        0 <= i < coords.len() ==> grid.has((#[trigger] coords[i]).0 as int, coords[i].1 as int)
}

} // verus!
