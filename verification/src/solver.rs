//! The solver: the search frame, the backtracking search over it, and the
//! queries for one solution, for all of them, and for the grid that shows
//! a solution.

use crate::decimal::{decimal, decimal_string};
use crate::enumeration::is_least;
use crate::guarantees::{
    all_solutions_answer, answers, first_is_least, first_match_is_shortest,
    nothing_found_means_unsolvable, result_is_solution, solution_stays_on_grid, unsolvable,
};
use crate::matcher::{advance, advance_state, lemma_match_meaning, match_upto, DaemonMatchState};
use crate::order::sort_by_length;
use crate::path::{all_within, buffer_of, candidate, legal, lemma_used_len, replay, used_upto};
use crate::search::{
    all_solutions, completes_at, explore, first_of, is_free, is_solution, lemma_extend,
    lemma_target_valid, lemma_used_iff_taken, limit, moves_left, solutions_for, solve_result,
    target,
};
use crate::types::{
    copy_moves, copy_tokens, lemma_index_in_bounds, lemma_index_injective, solution_views,
    tokens, CellCoord, GridView, Puzzle, PuzzleDaemon, PuzzleGrid, PuzzleMove, PuzzleMoves,
    PuzzleMoveType, PuzzleSolution, PuzzleView,
};
use vstd::pervasive::unreached;
use vstd::prelude::*;

verus! {

/// The mathematical content of a `SolutionState`.
struct StateView {
    buffer: Seq<Seq<char>>,
    moves: Seq<PuzzleMove>,
    move_count: nat,
    daemons: Seq<DaemonMatchState>,
    next_move_type: PuzzleMoveType,
    used_cells: Seq<bool>,
}

/// The kind of move that is due after `len` moves.
spec fn next_type(len: int) -> PuzzleMoveType {
    if len % 2 == 0 {
        PuzzleMoveType::SelectColumn
    } else {
        PuzzleMoveType::SelectRow
    }
}

/// The other kind of move.
fn flip(t: PuzzleMoveType) -> (r: PuzzleMoveType)
    ensures
        r != t,
{
    match t {
        PuzzleMoveType::SelectRow => PuzzleMoveType::SelectColumn,
        PuzzleMoveType::SelectColumn => PuzzleMoveType::SelectRow,
    }
}

/// The state of each daemon of `p` after `path`.
spec fn daemons_after(p: PuzzleView, path: Seq<PuzzleMove>) -> Seq<DaemonMatchState> {
    Seq::new(
        p.daemons.len(),
        |d: int| match_upto(p.daemons[d], buffer_of(p.grid, path), path.len() as int),
    )
}

/// The search frame that belongs to `path`: every part of it is what
/// `path` makes it on `p`.
spec fn state_after(p: PuzzleView, path: Seq<PuzzleMove>) -> StateView {
    StateView {
        buffer: buffer_of(p.grid, path),
        moves: path,
        move_count: path.len(),
        daemons: daemons_after(p, path),
        next_move_type: next_type(path.len() as int),
        used_cells: used_upto(p.grid, path, path.len() as int),
    }
}

/// One frame of the search: the moves made so far and what follows from
/// them.
struct SolutionState {
    /// Tokens collected so far.
    buffer: Vec<String>,
    /// Moves made so far.
    moves: PuzzleMoves,
    /// Number of moves made so far.
    move_count: u32,
    /// State of each daemon's match, in the order of the puzzle's daemons.
    daemons: Vec<DaemonMatchState>,
    /// Kind of the move that is due next.
    next_move_type: PuzzleMoveType,
    /// One flag per cell, set while the cell is selected.
    used_cells: Vec<bool>,
}

impl View for SolutionState {
    type V = StateView;

    closed spec fn view(&self) -> StateView {
        StateView {
            buffer: tokens(self.buffer@),
            moves: self.moves@,
            move_count: self.move_count as nat,
            daemons: self.daemons@,
            next_move_type: self.next_move_type,
            used_cells: self.used_cells@,
        }
    }
}

impl SolutionState {
    /// The frame is the one that its own moves make on `p`, and those
    /// moves obey the selection rule.
    spec fn fits(&self, p: PuzzleView) -> bool {
        &&& self@ == state_after(p, self@.moves)
        &&& legal(p.grid, self@.moves)
    }

    /// The frame before the first move.
    fn new(puzzle: &Puzzle) -> (state: SolutionState)
        ensures
            state@.moves == Seq::<PuzzleMove>::empty(),
            state.fits(puzzle@),
    {
        let mut daemons: Vec<DaemonMatchState> = Vec::new();
        let mut d: usize = 0;
        while d < puzzle.daemons.len()
            invariant
                d <= puzzle.daemons.len(),
                daemons.len() == d,
                forall|k: int| 0 <= k < d ==> daemons[k] == DaemonMatchState::Partial(0),
            decreases puzzle.daemons.len() - d,
        {
            daemons.push(DaemonMatchState::Partial(0));
            d = d + 1;
        }
        let mut used_cells: Vec<bool> = Vec::new();
        let mut i: usize = 0;
        while i < puzzle.grid.cells.len()
            invariant
                i <= puzzle.grid.cells.len(),
                used_cells.len() == i,
                forall|k: int| 0 <= k < i ==> !used_cells[k],
            decreases puzzle.grid.cells.len() - i,
        {
            used_cells.push(false);
            i = i + 1;
        }
        let state = SolutionState {
            buffer: Vec::new(),
            moves: Vec::new(),
            move_count: 0,
            daemons,
            next_move_type: PuzzleMoveType::SelectColumn,
            used_cells,
        };
        proof {
            let p = puzzle@;
            let path = Seq::<PuzzleMove>::empty();
            assert(state@.moves =~= path);
            assert(state@.buffer =~= buffer_of(p.grid, path));
            assert(state@.daemons =~= daemons_after(p, path));
            assert(state@.used_cells =~= used_upto(p.grid, path, 0));
        }
        state
    }

    /// A second frame equal to this one.
    fn duplicate(&self) -> (copy: SolutionState)
        ensures
            copy@ == self@,
    {
        let mut daemons: Vec<DaemonMatchState> = Vec::with_capacity(self.daemons.len());
        let mut d: usize = 0;
        while d < self.daemons.len()
            invariant
                d <= self.daemons.len(),
                daemons@ == self.daemons@.take(d as int),
            decreases self.daemons.len() - d,
        {
            daemons.push(self.daemons[d]);
            assert(self.daemons@.take(d + 1) =~= self.daemons@.take(d as int).push(
                self.daemons@[d as int],
            ));
            d = d + 1;
        }
        assert(self.daemons@.take(self.daemons.len() as int) =~= self.daemons@);
        let mut used_cells: Vec<bool> = Vec::with_capacity(self.used_cells.len());
        let mut i: usize = 0;
        while i < self.used_cells.len()
            invariant
                i <= self.used_cells.len(),
                used_cells@ == self.used_cells@.take(i as int),
            decreases self.used_cells.len() - i,
        {
            used_cells.push(self.used_cells[i]);
            assert(self.used_cells@.take(i + 1) =~= self.used_cells@.take(i as int).push(
                self.used_cells@[i as int],
            ));
            i = i + 1;
        }
        assert(self.used_cells@.take(self.used_cells.len() as int) =~= self.used_cells@);
        SolutionState {
            buffer: copy_tokens(&self.buffer),
            moves: copy_moves(&self.moves),
            move_count: self.move_count,
            daemons,
            next_move_type: self.next_move_type,
            used_cells,
        }
    }

    /// The move that selects index `c` next, and the cell it selects: the
    /// row of the last move with column `c`, or row `c` with the column of
    /// the last move. Before the first move the row is row 0.
    fn next_target(&self, puzzle: &Puzzle, c: u32) -> (r: (PuzzleMove, CellCoord))
        requires
            self.fits(puzzle@),
        ensures
            r.0 == candidate(self@.moves.len() as int, c),
            r.1 == target(self@.moves, c),
    {
        let last_move = if self.move_count == 0 {
            PuzzleMove::Row(0)
        } else {
            self.moves[(self.move_count - 1) as usize]
        };
        match self.next_move_type {
            PuzzleMoveType::SelectColumn => {
                let last_row_index: u32 = match last_move {
                    PuzzleMove::Row(index) => index,
                    _ => unreached(),
                };
                (PuzzleMove::Column(c), (last_row_index, c))
            },
            PuzzleMoveType::SelectRow => {
                let last_col_index: u32 = match last_move {
                    PuzzleMove::Column(index) => index,
                    _ => unreached(),
                };
                (PuzzleMove::Row(c), (c, last_col_index))
            },
        }
    }

    /// Makes the move `mv` onto the free cell `at`: the cell is marked, its
    /// token and the move are appended, and every daemon sees the token.
    fn enter(&mut self, puzzle: &Puzzle, c: u32, mv: PuzzleMove, at: CellCoord)
        requires
            puzzle@.wf(),
            old(self).fits(puzzle@),
            old(self)@.move_count == 0 || old(self)@.move_count < puzzle@.buffer_size,
            c < limit(puzzle@.grid, old(self)@.moves.len() as int),
            is_free(old(self)@.moves, c),
            mv == candidate(old(self)@.moves.len() as int, c),
            at == target(old(self)@.moves, c),
        ensures
            final(self)@.moves == old(self)@.moves.push(mv),
            final(self).fits(puzzle@),
            entered_from(
                old(self)@,
                final(self)@,
                puzzle@.grid.index_of(at.0 as int, at.1 as int),
            ),
    {
        let ghost p = puzzle@;
        let ghost path = self@.moves;
        proof {
            lemma_target_valid(p, path, c);
            lemma_extend(p, path, c);
            lemma_used_iff_taken(p, path, c);
            lemma_used_len(p.grid, path, path.len() as int);
            assert forall|d: int| 0 <= d < puzzle.daemons.len() implies (
            #[trigger] self.daemons[d] matches DaemonMatchState::Partial(k) ==> k
                < puzzle.daemons[d].len()) by {
                assert(self.daemons[d] == self@.daemons[d]);
                assert(p.daemons[d] == tokens(puzzle.daemons[d]@));
                assert(p.daemons[d].len() == puzzle.daemons[d].len() >= 1);
                lemma_match_meaning(
                    p.daemons[d],
                    buffer_of(p.grid, path),
                    path.len() as int,
                );
            }
        }
        let cell_ref = puzzle.grid.get_cell(at.0, at.1);
        let idx: usize = puzzle.grid.cell_index(at.0, at.1);
        self.moves.push(mv);
        self.buffer.push(cell_ref.clone());
        self.used_cells.set(idx, true);
        feed_daemons(&mut self.daemons, &puzzle.daemons, cell_ref);
        self.move_count = self.move_count + 1;
        self.next_move_type = flip(self.next_move_type);
        proof {
            let next = path.push(mv);
            assert(self@.buffer =~= buffer_of(p.grid, next));
            assert(self@.daemons =~= daemons_after(p, next)) by {
                assert forall|d: int| 0 <= d < p.daemons.len() implies self@.daemons[d]
                    == daemons_after(p, next)[d] by {
                    assert(self.daemons[d] == advance(
                        tokens(puzzle.daemons[d]@),
                        old(self).daemons[d],
                        cell_ref@,
                    ));
                    assert(old(self).daemons[d] == old(self)@.daemons[d]);
                }
            }
            assert(self@ == state_after(p, next));
            assert(self@.moves.drop_last() =~= old(self)@.moves);
            assert(self@.buffer.drop_last() =~= old(self)@.buffer);
        }
    }

    /// Takes back the move made last, with `before` as the frame that the
    /// move was made from: afterwards this frame equals `before` in every
    /// part.
    fn leave(&mut self, before: &SolutionState, idx: usize)
        requires
            entered_from(before@, old(self)@, idx as int),
        ensures
            final(self)@ == before@,
    {
        restore_daemons(&mut self.daemons, &before.daemons);
        self.buffer.pop();
        self.moves.pop();
        self.used_cells.set(idx, false);
        self.move_count = self.move_count - 1;
        self.next_move_type = flip(self.next_move_type);
        proof {
            assert(self@.buffer =~= before@.buffer);
            assert(self@.moves =~= before@.moves);
            assert(self@.used_cells =~= before@.used_cells);
        }
    }

    /// The moves and tokens of this frame as a solution of their own.
    fn snapshot(&self) -> (solution: PuzzleSolution)
        ensures
            solution@.moves == self@.moves,
            solution@.buffer == self@.buffer,
    {
        let solution = PuzzleSolution {
            moves: copy_moves(&self.moves),
            buffer: copy_tokens(&self.buffer),
        };
        assert(solution@.buffer =~= self@.buffer);
        solution
    }
}

/// `now` is the frame `before` with one more move made onto the cell at
/// position `idx`, which was free.
spec fn entered_from(before: StateView, now: StateView, idx: int) -> bool {
    &&& now.moves.len() == before.moves.len() + 1
    &&& now.moves.drop_last() == before.moves
    &&& now.buffer.len() == before.buffer.len() + 1
    &&& now.buffer.drop_last() == before.buffer
    &&& now.move_count == before.move_count + 1
    &&& now.daemons.len() == before.daemons.len()
    &&& now.next_move_type != before.next_move_type
    &&& 0 <= idx < before.used_cells.len()
    &&& !before.used_cells[idx]
    &&& now.used_cells == before.used_cells.update(idx, true)
}

/// Shows `token` to every daemon's matcher.
fn feed_daemons(states: &mut Vec<DaemonMatchState>, daemons: &Vec<PuzzleDaemon>, token: &String)
    requires
        old(states).len() == daemons.len(),
        forall|d: int|
            0 <= d < daemons.len() ==> (#[trigger] old(states)[d] matches DaemonMatchState::Partial(
                k,
            ) ==> k < daemons[d].len()),
    ensures
        final(states).len() == daemons.len(),
        forall|d: int|
            0 <= d < daemons.len() ==> #[trigger] final(states)[d] == advance(
                tokens(daemons[d]@),
                old(states)[d],
                token@,
            ),
{
    let mut d: usize = 0;
    while d < daemons.len()
        invariant
            d <= daemons.len(),
            states.len() == daemons.len(),
            forall|k: int| d <= k < daemons.len() ==> #[trigger] states[k] == old(states)[k],
            forall|k: int|
                0 <= k < d ==> #[trigger] states[k] == advance(
                    tokens(daemons[k]@),
                    old(states)[k],
                    token@,
                ),
            forall|k: int|
                0 <= k < daemons.len() ==> (#[trigger] old(states)[k] matches DaemonMatchState::Partial(
                    n,
                ) ==> n < daemons[k].len()),
        decreases daemons.len() - d,
    {
        let next = advance_state(&daemons[d], states[d], token);
        states.set(d, next);
        d = d + 1;
    }
}

/// Puts every daemon's matcher back to the state saved in `saved`.
fn restore_daemons(states: &mut Vec<DaemonMatchState>, saved: &Vec<DaemonMatchState>)
    requires
        old(states).len() == saved.len(),
    ensures
        final(states)@ == saved@,
{
    let mut d: usize = 0;
    while d < saved.len()
        invariant
            d <= saved.len(),
            states.len() == saved.len(),
            forall|k: int| 0 <= k < d ==> states[k] == saved[k],
        decreases saved.len() - d,
    {
        states.set(d, saved[d]);
        d = d + 1;
    }
    assert(states@ =~= saved@);
}

/// Whether every daemon's matcher has completed.
fn all_completed(states: &Vec<DaemonMatchState>) -> (done: bool)
    ensures
        done <==> forall|d: int| 0 <= d < states.len() ==> (#[trigger] states[d]) is Completed,
{
    let mut d: usize = 0;
    while d < states.len()
        invariant
            d <= states.len(),
            forall|k: int| 0 <= k < d ==> (#[trigger] states[k]) is Completed,
        decreases states.len() - d,
    {
        match states[d] {
            DaemonMatchState::Completed => {},
            DaemonMatchState::Partial(_) => {
                return false;
            },
        }
        d = d + 1;
    }
    true
}

/// The moves of each solution of `v`, in order.
spec fn found_moves(v: Seq<PuzzleSolution>) -> Seq<Seq<PuzzleMove>> {
    Seq::new(v.len(), |i: int| v[i]@.moves)
}

/// The cells of a blank grid of the size of `grid` after the first `k`
/// coordinates of `coords` have been numbered from 1 in the order given; a
/// coordinate that comes twice keeps its later number.
pub open spec fn numbered(grid: GridView, coords: Seq<CellCoord>, k: int) -> Seq<Seq<char>>
    decreases k,
{
    if k <= 0 {
        Seq::new(grid.rows * grid.cols, |i: int| Seq::<char>::empty())
    } else {
        numbered(grid, coords, k - 1).update(
            grid.index_of(coords[k - 1].0 as int, coords[k - 1].1 as int),
            decimal(k as nat),
        )
    }
}

/// Position `i` is the last at which `coords` visits its coordinate.
pub open spec fn last_visit(coords: Seq<CellCoord>, i: int) -> bool {
    &&& 0 <= i < coords.len()
    &&& forall|j: int| i < j < coords.len() ==> coords[j] != coords[i]
}

/// On the numbered grid a cell carries the number of the last visit to
/// it, and a cell that is not visited stays blank.
pub proof fn lemma_numbered_cells(grid: GridView, coords: Seq<CellCoord>, k: int)
    requires
        grid.wf(),
        0 <= k <= coords.len(),
        all_within(grid, coords),
    ensures
        numbered(grid, coords, k).len() == grid.rows * grid.cols,
        forall|i: int|
            0 <= i < k && (forall|j: int| i < j < k ==> coords[j] != coords[i]) ==> numbered(
                grid,
                coords,
                k,
            )[grid.index_of((#[trigger] coords[i]).0 as int, coords[i].1 as int)] == decimal(
                (i + 1) as nat,
            ),
        forall|at: CellCoord|
            grid.has(at.0 as int, at.1 as int) && (forall|i: int| 0 <= i < k ==> coords[i] != at)
                ==> numbered(grid, coords, k)[#[trigger] grid.index_of(at.0 as int, at.1 as int)]
                == Seq::<char>::empty(),
    decreases k,
{
    if k > 0 {
        lemma_numbered_cells(grid, coords, k - 1);
        let last = coords[k - 1];
        let now = numbered(grid, coords, k);
        assert(grid.has(last.0 as int, last.1 as int));
        lemma_index_in_bounds(grid.rows as int, grid.cols as int, last.0 as int, last.1 as int);
        assert forall|i: int|
            0 <= i < k && (forall|j: int| i < j < k ==> coords[j] != coords[i]) implies now[grid.index_of(
            (#[trigger] coords[i]).0 as int,
            coords[i].1 as int,
        )] == decimal((i + 1) as nat) by {
            let at = coords[i];
            assert(grid.has(at.0 as int, at.1 as int));
            lemma_index_in_bounds(grid.rows as int, grid.cols as int, at.0 as int, at.1 as int);
            if i < k - 1 {
                assert(at != last);
                if grid.index_of(at.0 as int, at.1 as int) == grid.index_of(
                    last.0 as int,
                    last.1 as int,
                ) {
                    lemma_index_injective(
                        grid.cols as int,
                        at.0 as int,
                        at.1 as int,
                        last.0 as int,
                        last.1 as int,
                    );
                }
            }
        }
        assert forall|at: CellCoord|
            grid.has(at.0 as int, at.1 as int) && (forall|i: int|
                0 <= i < k ==> coords[i] != at) implies now[#[trigger] grid.index_of(
            at.0 as int,
            at.1 as int,
        )] == Seq::<char>::empty() by {
            lemma_index_in_bounds(grid.rows as int, grid.cols as int, at.0 as int, at.1 as int);
            assert(coords[k - 1] != at);
            if grid.index_of(at.0 as int, at.1 as int) == grid.index_of(
                last.0 as int,
                last.1 as int,
            ) {
                lemma_index_injective(
                    grid.cols as int,
                    at.0 as int,
                    at.1 as int,
                    last.0 as int,
                    last.1 as int,
                );
            }
        }
    } else {
        assert forall|at: CellCoord|
            grid.has(at.0 as int, at.1 as int) implies numbered(grid, coords, k)[#[trigger] grid.index_of(
            at.0 as int,
            at.1 as int,
        )] == Seq::<char>::empty() by {
            lemma_index_in_bounds(grid.rows as int, grid.cols as int, at.0 as int, at.1 as int);
        }
    }
}

/// How `solve` searches.
pub enum SolverSearchMethod {
    /// Every solution is looked for, and the one listed first is returned.
    Shortest,
    /// After a path no further index is tried once a move from it has
    /// completed every daemon; of what is found so, the one listed first
    /// is returned. It is the solution that `Shortest` returns, found with
    /// less work.
    FirstMatch,
}

/// The search for the solutions of one puzzle.
pub struct BreachSolver<'a> {
    puzzle: &'a Puzzle,
}

impl<'a> View for BreachSolver<'a> {
    type V = PuzzleView;

    closed spec fn view(&self) -> PuzzleView {
        self.puzzle@
    }
}

impl<'a> BreachSolver<'a> {
    /// A solver for `puzzle`.
    pub fn new(puzzle: &'a Puzzle) -> (solver: BreachSolver<'a>)
        ensures
            solver@ == puzzle@,
    {
        BreachSolver { puzzle }
    }

    /// The solutions that continue the moves of `state`, in the order in
    /// which the search meets them.
    fn step(&self, state: &SolutionState, first_only: bool) -> (solutions: Vec<PuzzleSolution>)
        requires
            self@.wf(),
            state.fits(self@),
            state@.move_count == 0 || state@.move_count < self@.buffer_size,
        ensures
            found_moves(solutions@) == explore(self@, state@.moves, 0, first_only),
            forall|i: int|
                0 <= i < solutions.len() ==> (#[trigger] solutions[i])@.buffer == buffer_of(
                    self@.grid,
                    solutions[i]@.moves,
                ),
        decreases moves_left(self@, state@.moves),
    {
        let puzzle = self.puzzle;
        let ghost p = self@;
        let ghost path = state@.moves;
        let mut solutions: Vec<PuzzleSolution> = Vec::new();
        let mut new_state = state.duplicate();
        let bound: u32 = match state.next_move_type {
            PuzzleMoveType::SelectColumn => puzzle.grid.cols,
            PuzzleMoveType::SelectRow => puzzle.grid.rows,
        };
        let mut c: u32 = 0;
        let mut stopped: bool = false;
        assert(found_moves(solutions@) + explore(p, path, 0, first_only) =~= explore(
            p,
            path,
            0,
            first_only,
        ));
        while c < bound && !stopped
            invariant
                p == self@,
                p == puzzle@,
                p.wf(),
                path == state@.moves,
                state.fits(p),
                state@.move_count == 0 || state@.move_count < p.buffer_size,
                new_state@ == state@,
                bound == limit(p.grid, path.len() as int),
                c <= bound,
                found_moves(solutions@) + (if stopped {
                    Seq::<Seq<PuzzleMove>>::empty()
                } else {
                    explore(p, path, c as nat, first_only)
                }) == explore(p, path, 0, first_only),
                forall|i: int|
                    0 <= i < solutions.len() ==> (#[trigger] solutions[i])@.buffer == buffer_of(
                        p.grid,
                        solutions[i]@.moves,
                    ),
            decreases bound - c + (if stopped { 0int } else { 1int }),
        {
            let ghost found = found_moves(solutions@);
            let ghost rest = explore(p, path, (c + 1) as nat, first_only);
            let (new_move, cell) = new_state.next_target(puzzle, c);
            proof {
                lemma_target_valid(p, path, c);
                lemma_used_iff_taken(p, path, c);
                lemma_used_len(p.grid, path, path.len() as int);
                assert(new_state.used_cells@ == new_state@.used_cells);
            }
            let idx: usize = puzzle.grid.cell_index(cell.0, cell.1);
            if !new_state.used_cells[idx] {
                let ghost next = path.push(new_move);
                new_state.enter(puzzle, c, new_move, cell);
                proof {
                    assert forall|d: int| 0 <= d < p.daemons.len() implies new_state.daemons[d]
                        == #[trigger] match_upto(
                        p.daemons[d],
                        buffer_of(p.grid, next),
                        next.len() as int,
                    ) by {
                        assert(new_state@.daemons[d] == daemons_after(p, next)[d]);
                    }
                    assert(new_state.daemons.len() == p.daemons.len());
                }
                if all_completed(&new_state.daemons) {
                    assert(completes_at(p, next, next.len() as int));
                    let solution = new_state.snapshot();
                    solutions.push(solution);
                    proof {
                        assert(found_moves(solutions@) =~= found.push(next));
                        if first_only {
                            assert(found.push(next) =~= found + seq![next]);
                        } else {
                            assert(found.push(next) + rest =~= found + (seq![next] + rest));
                        }
                    }
                    if first_only {
                        stopped = true;
                    }
                } else {
                    proof {
                        assert(!completes_at(p, next, next.len() as int)) by {
                            let d = choose|d: int|
                                0 <= d < new_state.daemons.len() && !((
                                #[trigger] new_state.daemons[d]) is Completed);
                            assert(new_state.daemons[d] == match_upto(
                                p.daemons[d],
                                buffer_of(p.grid, next),
                                next.len() as int,
                            ));
                        }
                    }
                    if new_state.move_count < puzzle.buffer_size {
                        let mut rec_solutions = self.step(&new_state, first_only);
                        let ghost deeper = found_moves(rec_solutions@);
                        let ghost earlier = solutions@;
                        let ghost appended = rec_solutions@;
                        solutions.append(&mut rec_solutions);
                        proof {
                            assert(solutions@ == earlier + appended);
                            assert(found_moves(solutions@) =~= found + deeper);
                            assert((found + deeper) + rest =~= found + (deeper + rest));
                        }
                    }
                }
                new_state.leave(state, idx);
            }
            if !stopped {
                c = c + 1;
            }
        }
        proof {
            if !stopped {
                assert(explore(p, path, c as nat, first_only) =~= Seq::<Seq<PuzzleMove>>::empty());
            }
            assert(found_moves(solutions@) + Seq::<Seq<PuzzleMove>>::empty() =~= found_moves(
                solutions@,
            ));
        }
        solutions
    }

    /// The solution that `method` asks for, or `None` where the puzzle has
    /// no solution within its buffer.
    pub fn solve(&self, method: SolverSearchMethod) -> (solution: Option<PuzzleSolution>)
        requires
            self@.wf(),
        ensures
            solution is None <==> solve_result(self@, method is FirstMatch) is None,
            solution is None <==> unsolvable(self@),
            solution matches Some(s) ==> {
                &&& solve_result(self@, method is FirstMatch) == Some(s@)
                &&& first_of(all_solutions(self@)) == Some(s@)
                &&& is_solution(self@, s@.moves)
                &&& s@.buffer == buffer_of(self@.grid, s@.moves)
                &&& all_within(self@.grid, replay(s@.moves))
                &&& is_least(self@, s@.moves)
                &&& forall|m: Seq<PuzzleMove>| #[trigger]
                    is_solution(self@, m) ==> s@.moves.len() <= m.len()
            },
    {
        let state = SolutionState::new(self.puzzle);
        let first_only = match method {
            SolverSearchMethod::FirstMatch => true,
            SolverSearchMethod::Shortest => false,
        };
        let solutions = self.step(&state, first_only);
        proof {
            let p = self@;
            lemma_views_of_found(p, solutions@, explore(p, Seq::empty(), 0, first_only));
            nothing_found_means_unsolvable(p, first_only);
            first_match_is_shortest(p);
            if all_solutions(p).len() > 0 {
                first_is_least(p);
                solution_stays_on_grid(p, all_solutions(p)[0].moves);
                result_is_solution(p, false, 0);
            }
        }
        // Sort solutions by length
        let solutions = sort_by_length(&solutions);
        if solutions.len() > 0 {
            return Some(solutions[0].duplicate());
        }
        None
    }

    /// Every solution of the puzzle, shortest first.
    pub fn solve_all(&self) -> (solutions: Vec<PuzzleSolution>)
        requires
            self@.wf(),
        ensures
            solution_views(solutions@) == all_solutions(self@),
            answers(self@, solution_views(solutions@)),
    {
        let state = SolutionState::new(self.puzzle);
        let solutions = self.step(&state, false);
        proof {
            lemma_views_of_found(self@, solutions@, explore(self@, Seq::empty(), 0, false));
            all_solutions_answer(self@);
        }
        // Sort solutions by length
        sort_by_length(&solutions)
    }

    /// Whether replaying `solution` visits cells of the puzzle's grid only,
    /// which is what `to_grid` asks of it.
    pub fn fits_grid(&self, solution: &PuzzleSolution) -> (ok: bool)
        ensures
            ok == all_within(self@.grid, replay(solution@.moves)),
    {
        let coords = solution.to_coords();
        let mut i: usize = 0;
        while i < coords.len()
            invariant
                i <= coords.len(),
                coords@ == replay(solution@.moves),
                forall|k: int|
                    0 <= k < i ==> self@.grid.has(
                        (#[trigger] coords@[k]).0 as int,
                        coords@[k].1 as int,
                    ),
            decreases coords.len() - i,
        {
            let (row, col) = coords[i];
            if row >= self.puzzle.grid.rows || col >= self.puzzle.grid.cols {
                assert(!self@.grid.has(coords@[i as int].0 as int, coords@[i as int].1 as int));
                return false;
            }
            i = i + 1;
        }
        true
    }

    /// A blank grid of the puzzle's size on which the cells that `solution`
    /// visits carry the number of the move that visits them, counted from
    /// 1.
    pub fn to_grid(&self, solution: &PuzzleSolution) -> (grid: PuzzleGrid)
        requires
            self@.grid.wf(),
            all_within(self@.grid, replay(solution@.moves)),
        ensures
            grid@.rows == self@.grid.rows,
            grid@.cols == self@.grid.cols,
            grid@.wf(),
            grid@.cells == numbered(
                self@.grid,
                replay(solution@.moves),
                replay(solution@.moves).len() as int,
            ),
            forall|i: int| #[trigger]
                last_visit(replay(solution@.moves), i) ==> grid@.cell(
                    replay(solution@.moves)[i].0 as int,
                    replay(solution@.moves)[i].1 as int,
                ) == decimal((i + 1) as nat),
            forall|at: CellCoord|
                grid@.has(at.0 as int, at.1 as int) && !(#[trigger] replay(
                    solution@.moves,
                ).contains(at)) ==> grid@.cell(at.0 as int, at.1 as int) == Seq::<char>::empty(),
    {
        let ghost g = self@.grid;
        assert(g.cells.len() == self.puzzle.grid.cells.len());
        let mut grid = PuzzleGrid::new(self.puzzle.grid.rows, self.puzzle.grid.cols);
        let coords = solution.to_coords();
        assert(grid@.cells =~= numbered(g, coords@, 0));
        let mut i: usize = 0;
        while i < coords.len()
            invariant
                i <= coords.len(),
                g == self@.grid,
                grid@.wf(),
                grid@.rows == g.rows,
                grid@.cols == g.cols,
                all_within(g, coords@),
                grid@.cells == numbered(g, coords@, i as int),
            decreases coords.len() - i,
        {
            let (row, col) = coords[i];
            assert(g.has(coords@[i as int].0 as int, coords@[i as int].1 as int));
            let label = decimal_string(i + 1);
            grid.set_cell(row, col, label.as_str());
            i = i + 1;
        }
        proof {
            lemma_numbered_cells(g, coords@, coords.len() as int);
            assert forall|at: CellCoord|
                grid@.has(at.0 as int, at.1 as int) && !(#[trigger] coords@.contains(
                    at,
                )) implies grid@.cell(at.0 as int, at.1 as int) == Seq::<char>::empty() by {
                assert(forall|i: int| 0 <= i < coords.len() ==> coords@[i] != at);
                assert(grid@.cell(at.0 as int, at.1 as int) == numbered(
                    g,
                    coords@,
                    coords.len() as int,
                )[g.index_of(at.0 as int, at.1 as int)]);
            }
        }
        grid
    }
}

/// Solutions that hold the moves of `found` and the tokens that these
/// collect are the solutions that `found` stands for.
proof fn lemma_views_of_found(p: PuzzleView, v: Seq<PuzzleSolution>, found: Seq<Seq<PuzzleMove>>)
    requires
        found_moves(v) == found,
        forall|i: int|
            0 <= i < v.len() ==> (#[trigger] v[i])@.buffer == buffer_of(p.grid, v[i]@.moves),
    ensures
        solution_views(v) == solutions_for(p.grid, found),
{
    assert(v.len() == found.len());
    assert forall|i: int| 0 <= i < v.len() implies solution_views(v)[i] == solutions_for(
        p.grid,
        found,
    )[i] by {
        assert(found_moves(v)[i] == v[i]@.moves);
    }
    assert(solution_views(v) =~= solutions_for(p.grid, found));
}

} // verus!
