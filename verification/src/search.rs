//! The search as a mathematical function: what counts as a solution, and
//! which solutions the search meets in which order.

use crate::matcher::{advance, lemma_match_prefix, match_upto};
use crate::order::by_length;
use crate::path::{
    agree, apply_move, buffer_of, candidate, coord_at, legal, lemma_buffer_prefix,
    lemma_coord_prefix, lemma_used_means_visited, lemma_used_prefix, used_upto,
};
use crate::types::{
    lemma_index_in_bounds, CellCoord, GridView, PuzzleMove, PuzzleView, SolutionView,
};
use vstd::prelude::*;

verus! {

/// After the first `k` moves every daemon of the puzzle is completed.
pub open spec fn completes_at(p: PuzzleView, moves: Seq<PuzzleMove>, k: int) -> bool {
    forall|d: int|
        0 <= d < p.daemons.len() ==> (#[trigger] match_upto(
            p.daemons[d],
            buffer_of(p.grid, moves),
            k,
        )) is Completed
}

/// `moves` is a solution of `p`: at least one move, legal on the grid, not
/// longer than the buffer unless it is a single move, and the first of its
/// prefixes after which every daemon is completed.
pub open spec fn is_solution(p: PuzzleView, moves: Seq<PuzzleMove>) -> bool {
    &&& moves.len() >= 1
    &&& (moves.len() <= p.buffer_size || moves.len() == 1)
    &&& legal(p.grid, moves)
    &&& completes_at(p, moves, moves.len() as int)
    &&& forall|k: int| 1 <= k < moves.len() ==> !completes_at(p, moves, k)
}

/// How many indices the move after `len` moves chooses from: the columns
/// at even places, the rows at odd ones.
pub open spec fn limit(grid: GridView, len: int) -> nat {
    if len % 2 == 0 {
        grid.cols
    } else {
        grid.rows
    }
}

/// The cell that index `c` selects after `path`.
pub open spec fn target(path: Seq<PuzzleMove>, c: u32) -> CellCoord {
    apply_move(coord_at(path, path.len() - 1), candidate(path.len() as int, c))
}

/// The cell that index `c` selects after `path` has not been selected by
/// `path` itself.
pub open spec fn is_free(path: Seq<PuzzleMove>, c: u32) -> bool {
    forall|i: int| 0 <= i < path.len() ==> #[trigger] coord_at(path, i) != target(path, c)
}

/// Moves that may still be made after `path` before the buffer is full.
pub open spec fn moves_left(p: PuzzleView, path: Seq<PuzzleMove>) -> nat {
    if path.len() < p.buffer_size {
        (p.buffer_size - path.len()) as nat
    } else {
        0
    }
}

/// The solutions found from `path` on, in the order of discovery, by trying
/// the indices from `c` upwards.
///
/// An index whose cell is used is passed over. A move that completes every
/// daemon is a solution, and the search goes no deeper from it; with
/// `first_only` it also ends the trying of further indices after `path`.
/// Any other move is followed by a search from the longer path, so long as
/// the buffer has room for another move.
pub open spec fn explore(p: PuzzleView, path: Seq<PuzzleMove>, c: nat, first_only: bool) -> Seq<
    Seq<PuzzleMove>,
>
    decreases moves_left(p, path), limit(p.grid, path.len() as int) - c,
{
    if c >= limit(p.grid, path.len() as int) {
        Seq::empty()
    } else {
        let next = path.push(candidate(path.len() as int, c as u32));
        if !is_free(path, c as u32) {
            explore(p, path, c + 1, first_only)
        } else if completes_at(p, next, next.len() as int) {
            if first_only {
                seq![next]
            } else {
                seq![next] + explore(p, path, c + 1, first_only)
            }
        } else if next.len() < p.buffer_size {
            explore(p, next, 0, first_only) + explore(p, path, c + 1, first_only)
        } else {
            explore(p, path, c + 1, first_only)
        }
    }
}

/// The solution that `moves` stands for on `grid`: the moves and the tokens
/// they collect.
pub open spec fn solution_for(grid: GridView, moves: Seq<PuzzleMove>) -> SolutionView {
    SolutionView { buffer: buffer_of(grid, moves), moves }
}

/// The solution of each move sequence of `found`, in order.
pub open spec fn solutions_for(grid: GridView, found: Seq<Seq<PuzzleMove>>) -> Seq<SolutionView> {
    Seq::new(found.len(), |i: int| solution_for(grid, found[i]))
}

/// The solutions that the search from the empty path finds, shortest
/// first and otherwise in the order of discovery.
pub open spec fn search_result(p: PuzzleView, first_only: bool) -> Seq<SolutionView> {
    by_length(solutions_for(p.grid, explore(p, Seq::empty(), 0, first_only)))
}

/// All solutions of `p`, shortest first and otherwise in the order of
/// discovery.
pub open spec fn all_solutions(p: PuzzleView) -> Seq<SolutionView> {
    search_result(p, false)
}

/// The first solution of `found`, if there is one.
pub open spec fn first_of(found: Seq<SolutionView>) -> Option<SolutionView> {
    if found.len() == 0 {
        None
    } else {
        Some(found[0])
    }
}

/// What `solve` gives: the first of what its search finds. With
/// `first_only` the search is the pruned one.
pub open spec fn solve_result(p: PuzzleView, first_only: bool) -> Option<SolutionView> {
    first_of(search_result(p, first_only))
}

/// The cell that an index within the limit selects after a legal path is a
/// cell of the grid.
pub proof fn lemma_target_valid(p: PuzzleView, path: Seq<PuzzleMove>, c: u32)
    requires
        p.wf(),
        legal(p.grid, path),
        c < limit(p.grid, path.len() as int),
    ensures
        p.grid.has(target(path, c).0 as int, target(path, c).1 as int),
        0 <= p.grid.index_of(target(path, c).0 as int, target(path, c).1 as int)
            < p.grid.cells.len(),
{
    if path.len() > 0 {
        let last = coord_at(path, path.len() - 1);
        assert(p.grid.has(last.0 as int, last.1 as int));
    }
    let at = target(path, c);
    lemma_index_in_bounds(p.grid.rows as int, p.grid.cols as int, at.0 as int, at.1 as int);
}

/// The flag of the cell that index `c` selects after `path` is set exactly
/// when `path` has selected that cell.
pub proof fn lemma_used_iff_taken(p: PuzzleView, path: Seq<PuzzleMove>, c: u32)
    requires
        p.wf(),
        legal(p.grid, path),
        c < limit(p.grid, path.len() as int),
    ensures
        used_upto(p.grid, path, path.len() as int)[p.grid.index_of(
            target(path, c).0 as int,
            target(path, c).1 as int,
        )] <==> !is_free(path, c),
{
    lemma_target_valid(p, path, c);
    lemma_used_means_visited(p.grid, path, path.len() as int, target(path, c));
}

/// What one more move makes of a legal path: the longer path is legal, it
/// visits the target cell last, and its tokens, daemon states and used
/// cells are those of the shorter path with the new cell added.
pub proof fn lemma_extend(p: PuzzleView, path: Seq<PuzzleMove>, c: u32)
    requires
        p.wf(),
        legal(p.grid, path),
        c < limit(p.grid, path.len() as int),
        is_free(path, c),
    ensures
        ({
            let next = path.push(candidate(path.len() as int, c));
            let at = target(path, c);
            let token = p.grid.cell(at.0 as int, at.1 as int);
            &&& legal(p.grid, next)
            &&& coord_at(next, path.len() as int) == at
            &&& buffer_of(p.grid, next) == buffer_of(p.grid, path).push(token)
            &&& forall|d: int|
                0 <= d < p.daemons.len() ==> #[trigger] match_upto(
                    p.daemons[d],
                    buffer_of(p.grid, next),
                    next.len() as int,
                ) == advance(
                    p.daemons[d],
                    match_upto(p.daemons[d], buffer_of(p.grid, path), path.len() as int),
                    token,
                )
            &&& used_upto(p.grid, next, next.len() as int) == used_upto(
                p.grid,
                path,
                path.len() as int,
            ).update(p.grid.index_of(at.0 as int, at.1 as int), true)
        }),
{
    let len = path.len() as int;
    let next = path.push(candidate(len, c));
    let at = target(path, c);
    let token = p.grid.cell(at.0 as int, at.1 as int);
    assert(agree(path, next, len));
    lemma_target_valid(p, path, c);
    lemma_coord_prefix(path, next, len, len - 1);
    assert(coord_at(next, len) == at);
    assert forall|i: int| 0 <= i < next.len() implies p.grid.has(
        (#[trigger] coord_at(next, i)).0 as int,
        coord_at(next, i).1 as int,
    ) by {
        if i < len {
            lemma_coord_prefix(path, next, len, i);
            assert(p.grid.has(coord_at(path, i).0 as int, coord_at(path, i).1 as int));
        }
    }
    assert forall|i: int, j: int| 0 <= i < j < next.len() implies #[trigger] coord_at(next, i)
        != #[trigger] coord_at(next, j) by {
        lemma_coord_prefix(path, next, len, i);
        if j < len {
            lemma_coord_prefix(path, next, len, j);
            assert(coord_at(path, i) != coord_at(path, j));
        } else {
            assert(coord_at(path, i) != target(path, c));
        }
    }
    assert(legal(p.grid, next));
    lemma_buffer_prefix(p.grid, path, next, len);
    assert(buffer_of(p.grid, next) =~= buffer_of(p.grid, path).push(token));
    assert forall|d: int| 0 <= d < p.daemons.len() implies #[trigger] match_upto(
        p.daemons[d],
        buffer_of(p.grid, next),
        next.len() as int,
    ) == advance(
        p.daemons[d],
        match_upto(p.daemons[d], buffer_of(p.grid, path), path.len() as int),
        token,
    ) by {
        lemma_match_prefix(p.daemons[d], buffer_of(p.grid, path), buffer_of(p.grid, next), len);
    }
    lemma_used_prefix(p.grid, path, next, len, len);
}

} // verus!
