//! What the solver guarantees of its results, stated over the lists and
//! values that `solve` and `solve_all` return.

use crate::enumeration::{
    continues, is_least, lemma_explore_complete, lemma_explore_in_order,
    lemma_explore_keeps_least, lemma_explore_sound, lemma_first_only_empty,
    lemma_first_only_subset, listed_before, open_path, parts_at, tried_before,
};
use crate::matcher::{lemma_completed_occurs, match_upto, occurs_in};
use crate::order::{
    by_length, lemma_by_length_ascending, lemma_by_length_len, lemma_by_length_member,
    lemma_by_length_uniform, lemma_upto_order, longest,
};
use crate::path::{
    all_within, alternating, buffer_of, candidate, coord_at, expected_kind, lemma_replay_full,
    replay,
};
use crate::search::{
    all_solutions, completes_at, explore, is_free, is_solution, search_result, solution_for,
    solutions_for, solve_result,
};
use crate::types::{solution_views, Puzzle, PuzzleMove, PuzzleSolution, PuzzleView, SolutionView};
use vstd::prelude::*;

verus! {

/// `found` answers the puzzle in full: each of its members is a solution
/// with the tokens that its moves collect, every solution of the puzzle is
/// among them, and they stand in order: the shorter first, and of two with
/// equally many moves the one that the order of trial puts first.
pub open spec fn answers(p: PuzzleView, found: Seq<SolutionView>) -> bool {
    &&& forall|i: int|
        0 <= i < found.len() ==> is_solution(p, (#[trigger] found[i]).moves) && found[i].buffer
            == buffer_of(p.grid, found[i].moves)
    &&& forall|m: Seq<PuzzleMove>| #[trigger]
        is_solution(p, m) ==> found.contains(solution_for(p.grid, m))
    &&& forall|i: int, j: int|
        0 <= i < j < found.len() ==> listed_before(
            (#[trigger] found[i]).moves,
            (#[trigger] found[j]).moves,
        )
}

/// The puzzle has no solution at all.
pub open spec fn unsolvable(p: PuzzleView) -> bool {
    forall|m: Seq<PuzzleMove>| !#[trigger] is_solution(p, m)
}

/// Each member of a search result stands for one of the move sequences
/// that the search has met.
proof fn lemma_result_origin(p: PuzzleView, first_only: bool, j: int) -> (i: int)
    requires
        0 <= j < search_result(p, first_only).len(),
    ensures
        0 <= i < explore(p, Seq::empty(), 0, first_only).len(),
        search_result(p, first_only)[j] == solution_for(
            p.grid,
            explore(p, Seq::empty(), 0, first_only)[i],
        ),
{
    let met = explore(p, Seq::empty(), 0, first_only);
    let s = solutions_for(p.grid, met);
    let x = search_result(p, first_only)[j];
    assert(by_length(s).contains(x));
    lemma_by_length_member(s, x);
    let i = choose|i: int| 0 <= i < s.len() && s[i] == x;
    i
}

/// Each move sequence that the search has met stands in the search result.
proof fn lemma_result_holds(p: PuzzleView, first_only: bool, i: int)
    requires
        0 <= i < explore(p, Seq::empty(), 0, first_only).len(),
    ensures
        search_result(p, first_only).contains(
            solution_for(p.grid, explore(p, Seq::empty(), 0, first_only)[i]),
        ),
{
    let met = explore(p, Seq::empty(), 0, first_only);
    let s = solutions_for(p.grid, met);
    assert(s[i] == solution_for(p.grid, met[i]));
    assert(s.contains(s[i]));
    lemma_by_length_member(s, s[i]);
}

/// What the search returns is a solution of the puzzle, together with the
/// tokens that its moves collect.
pub proof fn result_is_solution(p: PuzzleView, first_only: bool, j: int)
    requires
        p.wf(),
        0 <= j < search_result(p, first_only).len(),
    ensures
        is_solution(p, search_result(p, first_only)[j].moves),
        search_result(p, first_only)[j].buffer == buffer_of(
            p.grid,
            search_result(p, first_only)[j].moves,
        ),
{
    let i = lemma_result_origin(p, first_only, j);
    lemma_explore_sound(p, Seq::empty(), 0, first_only, i);
}

/// The full search misses no solution of the puzzle.
pub proof fn every_solution_is_found(p: PuzzleView, m: Seq<PuzzleMove>)
    requires
        p.wf(),
        is_solution(p, m),
    ensures
        all_solutions(p).contains(solution_for(p.grid, m)),
{
    assert(expected_kind(0, m[0]));
    assert(continues(Seq::empty(), 0, m));
    lemma_explore_complete(p, Seq::empty(), 0, m);
    let met = explore(p, Seq::empty(), 0, false);
    let i = choose|i: int| 0 <= i < met.len() && met[i] == m;
    lemma_result_holds(p, false, i);
}

/// The list of all solutions answers the puzzle in full.
pub proof fn all_solutions_answer(p: PuzzleView)
    requires
        p.wf(),
    ensures
        answers(p, all_solutions(p)),
{
    let found = all_solutions(p);
    assert forall|i: int| 0 <= i < found.len() implies is_solution(p, (#[trigger] found[i]).moves)
        && found[i].buffer == buffer_of(p.grid, found[i].moves) by {
        result_is_solution(p, false, i);
    }
    assert forall|m: Seq<PuzzleMove>| #[trigger] is_solution(p, m) implies found.contains(
        solution_for(p.grid, m),
    ) by {
        every_solution_is_found(p, m);
    }
    assert forall|i: int, j: int| 0 <= i < j < found.len() implies listed_before(
        (#[trigger] found[i]).moves,
        (#[trigger] found[j]).moves,
    ) by {
        results_are_in_order(p, false, i, j);
    }
}

/// Every solution in the list of all solutions has as many tokens as
/// moves, and no more moves than the buffer holds where the buffer holds
/// any; its moves select a column, then a row, then a column, and so on;
/// and replaying them visits one cell per move and no cell twice.
pub proof fn solutions_obey_the_rules(p: PuzzleView, i: int)
    requires
        p.wf(),
        0 <= i < all_solutions(p).len(),
    ensures
        all_solutions(p)[i].moves.len() == all_solutions(p)[i].buffer.len(),
        p.buffer_size >= 1 ==> all_solutions(p)[i].moves.len() <= p.buffer_size,
        alternating(all_solutions(p)[i].moves),
        replay(all_solutions(p)[i].moves).len() == all_solutions(p)[i].moves.len(),
        forall|a: int, b: int|
            0 <= a < b < all_solutions(p)[i].moves.len() ==> replay(all_solutions(p)[i].moves)[a]
                != replay(all_solutions(p)[i].moves)[b],
{
    result_is_solution(p, false, i);
    let m = all_solutions(p)[i].moves;
    assert forall|k: int| 0 <= k < m.len() implies m[k] != PuzzleMove::NoMove by {
        assert(expected_kind(k, m[k]));
    }
    lemma_replay_full(m, m.len() as int);
    assert forall|a: int, b: int| 0 <= a < b < m.len() implies replay(m)[a] != replay(m)[b] by {
        assert(coord_at(m, a) != coord_at(m, b));
    }
}

/// Replaying a solution visits cells of the puzzle's grid only.
pub proof fn solution_stays_on_grid(p: PuzzleView, m: Seq<PuzzleMove>)
    requires
        is_solution(p, m),
    ensures
        all_within(p.grid, replay(m)),
{
    assert forall|k: int| 0 <= k < m.len() implies m[k] != PuzzleMove::NoMove by {
        assert(expected_kind(k, m[k]));
    }
    lemma_replay_full(m, m.len() as int);
    assert forall|i: int| 0 <= i < replay(m).len() implies p.grid.has(
        (#[trigger] replay(m)[i]).0 as int,
        replay(m)[i].1 as int,
    ) by {
        assert(p.grid.has(coord_at(m, i).0 as int, coord_at(m, i).1 as int));
    }
}

/// The tokens of a solution hold every daemon of the puzzle as a
/// contiguous run.
pub proof fn solution_holds_every_daemon(p: PuzzleView, m: Seq<PuzzleMove>, d: int)
    requires
        p.wf(),
        is_solution(p, m),
        0 <= d < p.daemons.len(),
    ensures
        occurs_in(buffer_of(p.grid, m), p.daemons[d]),
{
    assert(match_upto(p.daemons[d], buffer_of(p.grid, m), m.len() as int) is Completed);
    lemma_completed_occurs(p.daemons[d], buffer_of(p.grid, m), m.len() as int);
}

/// The tokens of every solution in the list of all solutions hold every
/// daemon of the puzzle as a contiguous run.
pub proof fn solutions_hold_every_daemon(p: PuzzleView, i: int, d: int)
    requires
        p.wf(),
        0 <= i < all_solutions(p).len(),
        0 <= d < p.daemons.len(),
    ensures
        occurs_in(all_solutions(p)[i].buffer, p.daemons[d]),
{
    result_is_solution(p, false, i);
    solution_holds_every_daemon(p, all_solutions(p)[i].moves, d);
}

/// A search finds nothing exactly when the puzzle has no solution, be it
/// the full search or the pruned one.
pub proof fn nothing_found_means_unsolvable(p: PuzzleView, first_only: bool)
    requires
        p.wf(),
    ensures
        search_result(p, first_only).len() == 0 <==> unsolvable(p),
        search_result(p, first_only).len() == 0 <==> all_solutions(p).len() == 0,
{
    let pruned = explore(p, Seq::empty(), 0, true);
    let full = explore(p, Seq::empty(), 0, false);
    lemma_by_length_len(solutions_for(p.grid, pruned));
    lemma_by_length_len(solutions_for(p.grid, full));
    if pruned.len() == 0 {
        lemma_first_only_empty(p, Seq::empty(), 0);
    }
    if pruned.len() > 0 {
        lemma_first_only_subset(p, Seq::empty(), 0, 0);
    }
    assert(pruned.len() == 0 <==> full.len() == 0);
    if full.len() > 0 {
        lemma_explore_sound(p, Seq::empty(), 0, false, 0);
        assert(is_solution(p, full[0]));
    }
    if !unsolvable(p) {
        let m = choose|m: Seq<PuzzleMove>| is_solution(p, m);
        every_solution_is_found(p, m);
    }
}

/// Asking for the shortest solution gives nothing exactly when the list of
/// all solutions is empty; otherwise it gives a member of that list that
/// is as short as any.
pub proof fn shortest_is_minimal(p: PuzzleView)
    requires
        p.wf(),
    ensures
        solve_result(p, false) is None <==> all_solutions(p).len() == 0,
        solve_result(p, false) matches Some(s) ==> all_solutions(p).contains(s)
            && forall|i: int|
            0 <= i < all_solutions(p).len() ==> s.moves.len() <= (#[trigger] all_solutions(
                p,
            )[i]).moves.len(),
{
    let found = all_solutions(p);
    if found.len() > 0 {
        assert(found[0] == found[0]);
        assert(found.contains(found[0]));
        assert forall|i: int| 0 <= i < found.len() implies found[0].moves.len() <= (
        #[trigger] found[i]).moves.len() by {
            lemma_by_length_ascending(
                solutions_for(p.grid, explore(p, Seq::empty(), 0, false)),
                0,
                i,
            );
        }
    }
}

/// Asking for a first match gives nothing exactly when the list of all
/// solutions is empty; otherwise it gives a member of that list.
pub proof fn first_match_is_among_all(p: PuzzleView)
    requires
        p.wf(),
    ensures
        solve_result(p, true) is None <==> all_solutions(p).len() == 0,
        solve_result(p, true) matches Some(s) ==> all_solutions(p).contains(s),
{
    nothing_found_means_unsolvable(p, true);
    if search_result(p, true).len() > 0 {
        let i = lemma_result_origin(p, true, 0);
        lemma_first_only_subset(p, Seq::empty(), 0, i);
        let pruned = explore(p, Seq::empty(), 0, true);
        let full = explore(p, Seq::empty(), 0, false);
        let j = choose|j: int| 0 <= j < full.len() && full[j] == pruned[i];
        lemma_result_holds(p, false, j);
    }
}

/// In a search result the shorter solution comes first, and of two with
/// equally many moves the one that the order of trial puts first; so no
/// solution stands in it twice.
pub proof fn results_are_in_order(p: PuzzleView, first_only: bool, i: int, j: int)
    requires
        p.wf(),
        0 <= i < j < search_result(p, first_only).len(),
    ensures
        listed_before(search_result(p, first_only)[i].moves, search_result(p, first_only)[j].moves),
        search_result(p, first_only)[i] != search_result(p, first_only)[j],
{
    let met = explore(p, Seq::empty(), 0, first_only);
    let s = solutions_for(p.grid, met);
    let at = lemma_upto_order(s, longest(s, s.len() as int) as int, i, j);
    let a = search_result(p, first_only)[i].moves;
    let b = search_result(p, first_only)[j].moves;
    if a.len() == b.len() {
        lemma_explore_in_order(p, Seq::empty(), 0, first_only, at.0, at.1);
        assert(s[at.0].moves == met[at.0]);
        assert(s[at.1].moves == met[at.1]);
    }
    if a == b {
        let k = choose|k: int| parts_at(a, b, k);
        assert(parts_at(a, b, k));
    }
}

/// The order of trial is transitive.
proof fn lemma_tried_transitive(a: Seq<PuzzleMove>, b: Seq<PuzzleMove>, c: Seq<PuzzleMove>)
    requires
        tried_before(a, b),
        tried_before(b, c),
    ensures
        tried_before(a, c),
{
    let i = choose|i: int| parts_at(a, b, i);
    let j = choose|j: int| parts_at(b, c, j);
    let k = if i <= j {
        i
    } else {
        j
    };
    assert(parts_at(a, c, k));
}

/// Nothing is listed before itself, and what is listed before something
/// that is listed before a third is listed before the third.
proof fn lemma_listed_order(a: Seq<PuzzleMove>, b: Seq<PuzzleMove>, c: Seq<PuzzleMove>)
    ensures
        !listed_before(a, a),
        listed_before(a, b) && listed_before(b, c) ==> listed_before(a, c),
{
    if listed_before(a, a) {
        let k = choose|k: int| parts_at(a, a, k);
        assert(parts_at(a, a, k));
    }
    if listed_before(a, b) && listed_before(b, c) && a.len() == b.len() && b.len() == c.len() {
        lemma_tried_transitive(a, b, c);
    }
}

/// `x` and `y` hold the same solutions at their first `n` places.
pub open spec fn same_upto(x: Seq<SolutionView>, y: Seq<SolutionView>, n: int) -> bool {
    &&& n <= x.len()
    &&& n <= y.len()
    &&& forall|k: int| 0 <= k < n ==> #[trigger] x[k] == y[k]
}

/// Two lists that answer a puzzle in full agree at a place once they agree
/// at every place before it.
proof fn lemma_answers_agree_at(
    p: PuzzleView,
    x: Seq<SolutionView>,
    y: Seq<SolutionView>,
    i: int,
)
    requires
        answers(p, x),
        answers(p, y),
        0 <= i < x.len(),
        same_upto(x, y, i),
    ensures
        same_upto(x, y, i + 1),
{
    let e = x[i];
    assert(is_solution(p, e.moves));
    assert(e == solution_for(p.grid, e.moves));
    assert(y.contains(e));
    let j = choose|j: int| 0 <= j < y.len() && y[j] == e;
    if j < i {
        assert(x[j] == y[j]);
        assert(listed_before(x[j].moves, x[i].moves));
        lemma_listed_order(e.moves, e.moves, e.moves);
    }
    let f = y[i];
    assert(is_solution(p, f.moves));
    assert(f == solution_for(p.grid, f.moves));
    assert(x.contains(f));
    let k = choose|k: int| 0 <= k < x.len() && x[k] == f;
    if k < i {
        assert(x[k] == y[k]);
        assert(listed_before(y[k].moves, y[i].moves));
        lemma_listed_order(f.moves, f.moves, f.moves);
    }
    if j > i {
        assert(listed_before(y[i].moves, y[j].moves));
        if k == i {
            lemma_listed_order(e.moves, e.moves, e.moves);
        } else {
            assert(listed_before(x[i].moves, x[k].moves));
            lemma_listed_order(e.moves, f.moves, e.moves);
        }
    }
}

/// Two lists that answer a puzzle in full agree at their first `n`
/// places.
proof fn lemma_answers_agree_upto(
    p: PuzzleView,
    x: Seq<SolutionView>,
    y: Seq<SolutionView>,
    n: int,
)
    requires
        answers(p, x),
        answers(p, y),
        0 <= n <= x.len(),
    ensures
        same_upto(x, y, n),
    decreases n,
{
    if n > 0 {
        lemma_answers_agree_upto(p, x, y, n - 1);
        lemma_answers_agree_at(p, x, y, n - 1);
    }
}

/// Only one list answers a puzzle in full: what `answers` asks of a list
/// settles its members, their number and their order.
pub proof fn answers_are_unique(p: PuzzleView, x: Seq<SolutionView>, y: Seq<SolutionView>)
    requires
        answers(p, x),
        answers(p, y),
    ensures
        x == y,
{
    lemma_answers_agree_upto(p, x, y, x.len() as int);
    lemma_answers_agree_upto(p, y, x, y.len() as int);
    assert(x =~= y);
}

/// The first of all solutions is the least: no solution of the puzzle is
/// listed before it.
pub proof fn first_is_least(p: PuzzleView)
    requires
        p.wf(),
        all_solutions(p).len() > 0,
    ensures
        is_solution(p, all_solutions(p)[0].moves),
        is_least(p, all_solutions(p)[0].moves),
{
    let found = all_solutions(p);
    all_solutions_answer(p);
    let least = found[0].moves;
    assert forall|t: Seq<PuzzleMove>| #[trigger] is_solution(p, t) implies !listed_before(
        t,
        least,
    ) by {
        let x = solution_for(p.grid, t);
        assert(found.contains(x));
        let i = choose|i: int| 0 <= i < found.len() && found[i] == x;
        if i > 0 {
            assert(listed_before(found[0].moves, found[i].moves));
            lemma_listed_order(least, t, least);
        } else {
            lemma_listed_order(least, least, least);
        }
    }
}

/// Asking for a first match gives what asking for the shortest solution
/// gives: the pruning never loses the solution that is listed first.
pub proof fn first_match_is_shortest(p: PuzzleView)
    requires
        p.wf(),
    ensures
        solve_result(p, true) == solve_result(p, false),
{
    nothing_found_means_unsolvable(p, true);
    if all_solutions(p).len() > 0 {
        let full = all_solutions(p);
        let pruned = search_result(p, true);
        first_is_least(p);
        let least = full[0].moves;
        assert(expected_kind(0, least[0]));
        assert(continues(Seq::empty(), 0, least));
        lemma_explore_keeps_least(p, Seq::empty(), 0, least);
        let met = explore(p, Seq::empty(), 0, true);
        let i = choose|i: int| 0 <= i < met.len() && met[i] == least;
        lemma_result_holds(p, true, i);
        result_is_solution(p, false, 0);
        assert(full[0] == solution_for(p.grid, least));
        let t = choose|t: int| 0 <= t < pruned.len() && pruned[t] == full[0];
        if t > 0 {
            results_are_in_order(p, true, 0, t);
            result_is_solution(p, true, 0);
            assert(is_solution(p, pruned[0].moves));
            assert(false);
        }
    }
}

/// Two lists that `solve_all` may return for puzzles with the same
/// content hold the same solutions in the same order.
pub proof fn solve_all_is_deterministic(
    a: Puzzle,
    b: Puzzle,
    first: Vec<PuzzleSolution>,
    second: Vec<PuzzleSolution>,
)
    requires
        a@ == b@,
        answers(a@, solution_views(first@)),
        answers(b@, solution_views(second@)),
    ensures
        solution_views(first@) == solution_views(second@),
{
    answers_are_unique(a@, solution_views(first@), solution_views(second@));
}

/// The single move that selects column `c`.
pub open spec fn first_move(c: int) -> Seq<PuzzleMove> {
    seq![PuzzleMove::Column(c as u32)]
}

/// The single moves that select the columns from `c` on, in ascending
/// order.
pub open spec fn first_moves(cols: nat, c: nat) -> Seq<Seq<PuzzleMove>> {
    Seq::new((cols - c) as nat, |i: int| first_move(c + i))
}

/// Without daemons the search from the empty path finds the single moves
/// onto the first row.
proof fn lemma_explore_without_daemons(p: PuzzleView, c: nat)
    requires
        p.wf(),
        p.daemons.len() == 0,
        c <= p.grid.cols,
    ensures
        explore(p, Seq::empty(), c, false) == first_moves(p.grid.cols, c),
    decreases p.grid.cols - c,
{
    let start = Seq::<PuzzleMove>::empty();
    if c < p.grid.cols {
        lemma_explore_without_daemons(p, c + 1);
        let next = start.push(candidate(0, c as u32));
        assert(is_free(start, c as u32));
        assert(completes_at(p, next, 1));
        assert(next =~= first_move(c as int));
        assert(seq![next] + first_moves(p.grid.cols, c + 1) =~= first_moves(p.grid.cols, c));
    } else {
        assert(explore(p, start, c, false) =~= first_moves(p.grid.cols, c));
    }
}

/// A puzzle without daemons is solved by every first move: its solutions
/// are the single moves that select a column of the first row, one for
/// each column, in ascending order.
pub proof fn without_daemons_every_first_move_solves(p: PuzzleView)
    requires
        p.wf(),
        p.daemons.len() == 0,
    ensures
        all_solutions(p).len() == p.grid.cols,
        forall|c: int|
            0 <= c < p.grid.cols ==> #[trigger] all_solutions(p)[c] == solution_for(
                p.grid,
                first_move(c),
            ),
        forall|c: int| 0 <= c < p.grid.cols ==> is_solution(p, #[trigger] first_move(c)),
{
    lemma_explore_without_daemons(p, 0);
    let s = solutions_for(p.grid, first_moves(p.grid.cols, 0));
    lemma_by_length_uniform(s, 1);
    assert forall|c: int| 0 <= c < p.grid.cols implies is_solution(p, #[trigger] first_move(c)) by {
        assert(all_solutions(p)[c].moves == first_move(c));
        result_is_solution(p, false, c);
    }
}

} // verus!
