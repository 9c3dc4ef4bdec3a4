//! What the search finds, proved of the search itself: every find is a
//! solution, every solution is found, the finds come in the order of
//! trial, and pruning keeps the solution that is listed first.

use crate::matcher::lemma_match_prefix;
use crate::path::{
    agree, buffer_of, candidate, coord_at, expected_kind, legal, lemma_buffer_prefix,
    lemma_coord_prefix, move_index,
};
use crate::search::{
    completes_at, explore, is_free, is_solution, lemma_extend, limit, moves_left, target,
};
use crate::types::{PuzzleMove, PuzzleView};
use vstd::prelude::*;

verus! {

/// A path that the search may stand on: legal, with room for another move
/// unless it is empty, and with some daemon still open after each of its
/// moves.
pub open spec fn open_path(p: PuzzleView, path: Seq<PuzzleMove>) -> bool {
    &&& legal(p.grid, path)
    &&& (path.len() == 0 || path.len() < p.buffer_size)
    &&& forall|k: int| 1 <= k <= path.len() ==> !completes_at(p, path, k)
}

/// `s` goes on from `path` with a move whose index is at least `c`.
pub open spec fn continues(path: Seq<PuzzleMove>, c: nat, s: Seq<PuzzleMove>) -> bool {
    &&& s.len() > path.len()
    &&& agree(path, s, path.len() as int)
    &&& move_index(s[path.len() as int]) >= c
}

/// Whether every daemon is completed after `j` moves depends on those `j`
/// moves only.
pub proof fn lemma_completes_prefix(
    p: PuzzleView,
    a: Seq<PuzzleMove>,
    b: Seq<PuzzleMove>,
    k: int,
    j: int,
)
    requires
        agree(a, b, k),
        j <= k,
    ensures
        completes_at(p, a, j) == completes_at(p, b, j),
{
    lemma_buffer_prefix(p.grid, a, b, k);
    assert forall|d: int| 0 <= d < p.daemons.len() implies #[trigger] crate::matcher::match_upto(
        p.daemons[d],
        buffer_of(p.grid, a),
        j,
    ) == crate::matcher::match_upto(p.daemons[d], buffer_of(p.grid, b), j) by {
        lemma_match_prefix(p.daemons[d], buffer_of(p.grid, a), buffer_of(p.grid, b), j);
    }
    if completes_at(p, a, j) {
        assert forall|d: int| 0 <= d < p.daemons.len() implies (
        #[trigger] crate::matcher::match_upto(p.daemons[d], buffer_of(p.grid, b), j)) is Completed by {
            assert(crate::matcher::match_upto(p.daemons[d], buffer_of(p.grid, a), j) is Completed);
        }
    }
    if completes_at(p, b, j) {
        assert forall|d: int| 0 <= d < p.daemons.len() implies (
        #[trigger] crate::matcher::match_upto(p.daemons[d], buffer_of(p.grid, a), j)) is Completed by {
            assert(crate::matcher::match_upto(p.daemons[d], buffer_of(p.grid, b), j) is Completed);
        }
    }
}

/// The path made of an open path and one more move onto a free cell is
/// open again if that move completes nothing and leaves room in the buffer.
pub proof fn lemma_open_next(p: PuzzleView, path: Seq<PuzzleMove>, c: u32)
    requires
        p.wf(),
        open_path(p, path),
        c < limit(p.grid, path.len() as int),
        is_free(path, c),
        !completes_at(
            p,
            path.push(candidate(path.len() as int, c)),
            path.len() as int + 1,
        ),
        path.len() + 1 < p.buffer_size,
    ensures
        open_path(p, path.push(candidate(path.len() as int, c))),
{
    let next = path.push(candidate(path.len() as int, c));
    lemma_extend(p, path, c);
    assert(agree(path, next, path.len() as int));
    assert forall|k: int| 1 <= k <= next.len() implies !completes_at(p, next, k) by {
        if k <= path.len() {
            lemma_completes_prefix(p, path, next, path.len() as int, k);
        }
    }
}

/// A move that completes every daemon after an open path makes a solution.
pub proof fn lemma_completing_move(p: PuzzleView, path: Seq<PuzzleMove>, c: u32)
    requires
        p.wf(),
        open_path(p, path),
        c < limit(p.grid, path.len() as int),
        is_free(path, c),
        completes_at(p, path.push(candidate(path.len() as int, c)), path.len() as int + 1),
    ensures
        is_solution(p, path.push(candidate(path.len() as int, c))),
{
    let next = path.push(candidate(path.len() as int, c));
    lemma_extend(p, path, c);
    assert(agree(path, next, path.len() as int));
    assert forall|k: int| 1 <= k < next.len() implies !completes_at(p, next, k) by {
        lemma_completes_prefix(p, path, next, path.len() as int, k);
    }
}

/// Everything that the search finds from an open path is a solution that
/// goes on from that path, with a move whose index is not below the first
/// index tried.
pub proof fn lemma_explore_sound(
    p: PuzzleView,
    path: Seq<PuzzleMove>,
    c: nat,
    first_only: bool,
    i: int,
)
    requires
        p.wf(),
        open_path(p, path),
        0 <= i < explore(p, path, c, first_only).len(),
    ensures
        is_solution(p, explore(p, path, c, first_only)[i]),
        continues(path, c, explore(p, path, c, first_only)[i]),
    decreases moves_left(p, path), limit(p.grid, path.len() as int) - c,
{
    let len = path.len() as int;
    if c < limit(p.grid, len) {
        let next = path.push(candidate(len, c as u32));
        let rest = explore(p, path, c + 1, first_only);
        if !is_free(path, c as u32) {
            lemma_explore_sound(p, path, c + 1, first_only, i);
        } else if completes_at(p, next, next.len() as int) {
            if i == 0 {
                lemma_completing_move(p, path, c as u32);
                assert(agree(path, next, len));
            } else {
                lemma_explore_sound(p, path, c + 1, first_only, i - 1);
            }
        } else if next.len() < p.buffer_size {
            let deeper = explore(p, next, 0, first_only);
            if i < deeper.len() {
                lemma_open_next(p, path, c as u32);
                lemma_explore_sound(p, next, 0, first_only, i);
                let s = deeper[i];
                assert(agree(path, s, len));
                assert(s[len] == next[len]);
            } else {
                lemma_explore_sound(p, path, c + 1, first_only, i - deeper.len());
            }
        } else {
            lemma_explore_sound(p, path, c + 1, first_only, i);
        }
    }
}

/// Every solution that goes on from an open path, with a move whose index
/// is not below the first index tried, is found by the full search.
pub proof fn lemma_explore_complete(
    p: PuzzleView,
    path: Seq<PuzzleMove>,
    c: nat,
    s: Seq<PuzzleMove>,
)
    requires
        p.wf(),
        open_path(p, path),
        is_solution(p, s),
        continues(path, c, s),
    ensures
        explore(p, path, c, false).contains(s),
    decreases moves_left(p, path), limit(p.grid, path.len() as int) - c,
{
    let len = path.len() as int;
    let m = s[len];
    let chosen = move_index(m);
    assert(expected_kind(len, m));
    assert(m == candidate(len, chosen as u32));
    let at = coord_at(s, len);
    assert(p.grid.has(at.0 as int, at.1 as int));
    assert(chosen < limit(p.grid, len));
    let next = path.push(candidate(len, c as u32));
    let rest = explore(p, path, c + 1, false);
    if chosen == c {
        assert(agree(next, s, len + 1));
        assert(agree(path, s, len));
        lemma_coord_prefix(path, s, len, len - 1);
        assert(target(path, c as u32) == at);
        assert forall|i: int| 0 <= i < path.len() implies #[trigger] coord_at(path, i) != target(
            path,
            c as u32,
        ) by {
            lemma_coord_prefix(path, s, len, i);
            assert(coord_at(s, i) != coord_at(s, len));
        }
        assert(is_free(path, c as u32));
        lemma_completes_prefix(p, next, s, len + 1, len + 1);
        if completes_at(p, next, next.len() as int) {
            assert(s.len() == len + 1);
            assert(s =~= next);
            assert((seq![next] + rest)[0] == s);
        } else {
            assert(s.len() > len + 1);
            lemma_open_next(p, path, c as u32);
            lemma_explore_complete(p, next, 0, s);
            let deeper = explore(p, next, 0, false);
            let i = choose|i: int| 0 <= i < deeper.len() && deeper[i] == s;
            assert((deeper + rest)[i] == s);
        }
    } else {
        lemma_explore_complete(p, path, c + 1, s);
        let i = choose|i: int| 0 <= i < rest.len() && rest[i] == s;
        if !is_free(path, c as u32) {
        } else if completes_at(p, next, next.len() as int) {
            assert((seq![next] + rest)[1 + i] == s);
        } else if next.len() < p.buffer_size {
            let deeper = explore(p, next, 0, false);
            assert((deeper + rest)[deeper.len() + i] == s);
        }
    }
}

/// Whatever the pruned search finds, the full search finds too.
pub proof fn lemma_first_only_subset(p: PuzzleView, path: Seq<PuzzleMove>, c: nat, i: int)
    requires
        0 <= i < explore(p, path, c, true).len(),
    ensures
        explore(p, path, c, false).contains(explore(p, path, c, true)[i]),
    decreases moves_left(p, path), limit(p.grid, path.len() as int) - c,
{
    let len = path.len() as int;
    if c < limit(p.grid, len) {
        let next = path.push(candidate(len, c as u32));
        let rest = explore(p, path, c + 1, false);
        let s = explore(p, path, c, true)[i];
        if !is_free(path, c as u32) {
            lemma_first_only_subset(p, path, c + 1, i);
        } else if completes_at(p, next, next.len() as int) {
            assert((seq![next] + rest)[0] == s);
        } else if next.len() < p.buffer_size {
            let pruned = explore(p, next, 0, true);
            let deeper = explore(p, next, 0, false);
            if i < pruned.len() {
                lemma_first_only_subset(p, next, 0, i);
                let j = choose|j: int| 0 <= j < deeper.len() && deeper[j] == s;
                assert((deeper + rest)[j] == s);
            } else {
                lemma_first_only_subset(p, path, c + 1, i - pruned.len());
                let j = choose|j: int| 0 <= j < rest.len() && rest[j] == s;
                assert((deeper + rest)[deeper.len() + j] == s);
            }
        } else {
            lemma_first_only_subset(p, path, c + 1, i);
        }
    }
}

/// Where the pruned search finds nothing, the full search finds nothing.
pub proof fn lemma_first_only_empty(p: PuzzleView, path: Seq<PuzzleMove>, c: nat)
    requires
        explore(p, path, c, true).len() == 0,
    ensures
        explore(p, path, c, false).len() == 0,
    decreases moves_left(p, path), limit(p.grid, path.len() as int) - c,
{
    let len = path.len() as int;
    if c < limit(p.grid, len) {
        let next = path.push(candidate(len, c as u32));
        if !is_free(path, c as u32) {
            lemma_first_only_empty(p, path, c + 1);
        } else if completes_at(p, next, next.len() as int) {
        } else if next.len() < p.buffer_size {
            lemma_first_only_empty(p, next, 0);
            lemma_first_only_empty(p, path, c + 1);
        } else {
            lemma_first_only_empty(p, path, c + 1);
        }
    }
}

/// `a` and `b` start with the same `k` moves, and at the next move `a`
/// selects the smaller index.
pub open spec fn parts_at(a: Seq<PuzzleMove>, b: Seq<PuzzleMove>, k: int) -> bool {
    &&& 0 <= k < a.len()
    &&& k < b.len()
    &&& agree(a, b, k)
    &&& move_index(a[k]) < move_index(b[k])
}

/// `a` comes before `b` in the order of trial: where the two part, `a`
/// selects the smaller index.
pub open spec fn tried_before(a: Seq<PuzzleMove>, b: Seq<PuzzleMove>) -> bool {
    exists|k: int| parts_at(a, b, k)
}

/// The search meets its solutions in the order of trial, so that none is
/// met twice.
pub proof fn lemma_explore_in_order(
    p: PuzzleView,
    path: Seq<PuzzleMove>,
    c: nat,
    first_only: bool,
    i: int,
    j: int,
)
    requires
        p.wf(),
        open_path(p, path),
        0 <= i < j < explore(p, path, c, first_only).len(),
    ensures
        tried_before(explore(p, path, c, first_only)[i], explore(p, path, c, first_only)[j]),
    decreases moves_left(p, path), limit(p.grid, path.len() as int) - c,
{
    let len = path.len() as int;
    if c < limit(p.grid, len) {
        let next = path.push(candidate(len, c as u32));
        let rest = explore(p, path, c + 1, first_only);
        if !is_free(path, c as u32) {
            lemma_explore_in_order(p, path, c + 1, first_only, i, j);
        } else if completes_at(p, next, next.len() as int) {
            if i == 0 {
                let b = rest[j - 1];
                lemma_explore_sound(p, path, c + 1, first_only, j - 1);
                assert(agree(next, b, len));
                assert(parts_at(next, b, len));
            } else {
                lemma_explore_in_order(p, path, c + 1, first_only, i - 1, j - 1);
            }
        } else if next.len() < p.buffer_size {
            let deeper = explore(p, next, 0, first_only);
            if j < deeper.len() {
                lemma_open_next(p, path, c as u32);
                lemma_explore_in_order(p, next, 0, first_only, i, j);
            } else if i >= deeper.len() {
                lemma_explore_in_order(
                    p,
                    path,
                    c + 1,
                    first_only,
                    i - deeper.len(),
                    j - deeper.len(),
                );
            } else {
                lemma_open_next(p, path, c as u32);
                lemma_explore_sound(p, next, 0, first_only, i);
                lemma_explore_sound(p, path, c + 1, first_only, j - deeper.len());
                let a = deeper[i];
                let b = rest[j - deeper.len()];
                assert(a[len] == next[len]);
                assert(agree(a, b, len));
                assert(parts_at(a, b, len));
            }
        } else {
            lemma_explore_in_order(p, path, c + 1, first_only, i, j);
        }
    }
}

/// `a` is listed before `b`: it has fewer moves, or as many and comes
/// before `b` in the order of trial.
pub open spec fn listed_before(a: Seq<PuzzleMove>, b: Seq<PuzzleMove>) -> bool {
    a.len() < b.len() || (a.len() == b.len() && tried_before(a, b))
}

/// No solution of the puzzle is listed before `s`.
pub open spec fn is_least(p: PuzzleView, s: Seq<PuzzleMove>) -> bool {
    forall|t: Seq<PuzzleMove>| #[trigger] is_solution(p, t) ==> !listed_before(t, s)
}

/// The pruned search keeps the solution that no other is listed before:
/// an index is only passed over after a move that completes every daemon,
/// and that move is a solution listed before all that the later indices
/// lead to.
pub proof fn lemma_explore_keeps_least(
    p: PuzzleView,
    path: Seq<PuzzleMove>,
    c: nat,
    s: Seq<PuzzleMove>,
)
    requires
        p.wf(),
        open_path(p, path),
        is_solution(p, s),
        is_least(p, s),
        continues(path, c, s),
    ensures
        explore(p, path, c, true).contains(s),
    decreases moves_left(p, path), limit(p.grid, path.len() as int) - c,
{
    let len = path.len() as int;
    let m = s[len];
    let chosen = move_index(m);
    assert(expected_kind(len, m));
    assert(m == candidate(len, chosen as u32));
    let at = coord_at(s, len);
    assert(p.grid.has(at.0 as int, at.1 as int));
    assert(chosen < limit(p.grid, len));
    let next = path.push(candidate(len, c as u32));
    let rest = explore(p, path, c + 1, true);
    if chosen == c {
        assert(agree(next, s, len + 1));
        assert(agree(path, s, len));
        lemma_coord_prefix(path, s, len, len - 1);
        assert(target(path, c as u32) == at);
        assert forall|i: int| 0 <= i < path.len() implies #[trigger] coord_at(path, i) != target(
            path,
            c as u32,
        ) by {
            lemma_coord_prefix(path, s, len, i);
            assert(coord_at(s, i) != coord_at(s, len));
        }
        assert(is_free(path, c as u32));
        lemma_completes_prefix(p, next, s, len + 1, len + 1);
        if completes_at(p, next, next.len() as int) {
            assert(s.len() == len + 1);
            assert(s =~= next);
            assert(seq![next][0] == s);
        } else {
            assert(s.len() > len + 1);
            lemma_open_next(p, path, c as u32);
            lemma_explore_keeps_least(p, next, 0, s);
            let deeper = explore(p, next, 0, true);
            let i = choose|i: int| 0 <= i < deeper.len() && deeper[i] == s;
            assert((deeper + rest)[i] == s);
        }
    } else {
        if is_free(path, c as u32) && completes_at(p, next, next.len() as int) {
            lemma_completing_move(p, path, c as u32);
            assert(agree(next, s, len));
            assert(parts_at(next, s, len));
            assert(listed_before(next, s));
            assert(false);
        }
        lemma_explore_keeps_least(p, path, c + 1, s);
        let i = choose|i: int| 0 <= i < rest.len() && rest[i] == s;
        if is_free(path, c as u32) && next.len() < p.buffer_size {
            let deeper = explore(p, next, 0, true);
            assert((deeper + rest)[deeper.len() + i] == s);
        }
    }
}

} // verus!
