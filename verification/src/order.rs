//! Ordering solutions by their number of moves, shortest first, without
//! disturbing the order of solutions that are equally long.

use crate::types::{solution_views, PuzzleSolution, SolutionView};
use vstd::prelude::*;

verus! {

/// Those of the first `k` solutions of `s` that have `len` moves, in the
/// order in which they stand in `s`.
pub open spec fn pick(s: Seq<SolutionView>, len: nat, k: int) -> Seq<SolutionView>
    decreases k,
{
    if k <= 0 {
        Seq::empty()
    } else if s[k - 1].moves.len() == len {
        pick(s, len, k - 1).push(s[k - 1])
    } else {
        pick(s, len, k - 1)
    }
}

/// The largest number of moves among the first `k` solutions of `s`.
pub open spec fn longest(s: Seq<SolutionView>, k: int) -> nat
    decreases k,
{
    if k <= 0 {
        0
    } else if s[k - 1].moves.len() > longest(s, k - 1) {
        s[k - 1].moves.len()
    } else {
        longest(s, k - 1)
    }
}

/// The solutions of `s` that have at most `len` moves: first those with no
/// move, then those with one, and so on, each group in the order in which
/// it stands in `s`.
pub open spec fn by_length_upto(s: Seq<SolutionView>, len: int) -> Seq<SolutionView>
    decreases len + 1,
{
    if len < 0 {
        Seq::empty()
    } else {
        by_length_upto(s, len - 1) + pick(s, len as nat, s.len() as int)
    }
}

/// The solutions of `s` in ascending order of their number of moves, those
/// with equally many moves in the order in which they stand in `s`.
pub open spec fn by_length(s: Seq<SolutionView>) -> Seq<SolutionView> {
    by_length_upto(s, longest(s, s.len() as int) as int)
}

/// The largest number of moves among `solutions`.
fn longest_of(solutions: &Vec<PuzzleSolution>) -> (len: usize)
    ensures
        len == longest(solution_views(solutions@), solutions.len() as int),
{
    let mut len: usize = 0;
    let mut k: usize = 0;
    while k < solutions.len()
        invariant
            k <= solutions.len(),
            len == longest(solution_views(solutions@), k as int),
        decreases solutions.len() - k,
    {
        if solutions[k].moves.len() > len {
            len = solutions[k].moves.len();
        }
        k = k + 1;
    }
    len
}

/// Orders `solutions` by their number of moves, shortest first, and keeps
/// solutions with equally many moves in the order they came in.
pub fn sort_by_length(solutions: &Vec<PuzzleSolution>) -> (sorted: Vec<PuzzleSolution>)
    ensures
        solution_views(sorted@) == by_length(solution_views(solutions@)),
{
    let ghost s = solution_views(solutions@);
    let top: usize = longest_of(solutions);
    let mut sorted: Vec<PuzzleSolution> = Vec::new();
    let mut len: usize = 0;
    let mut done: bool = false;
    assert(solution_views(sorted@) =~= by_length_upto(s, -1));
    while !done
        invariant
            s == solution_views(solutions@),
            top == longest(s, s.len() as int),
            len <= top,
            !done ==> solution_views(sorted@) == by_length_upto(s, len - 1),
            done ==> solution_views(sorted@) == by_length(s),
        decreases top - len + (if done { 0int } else { 1int }),
    {
        let ghost shorter = solution_views(sorted@);
        let mut k: usize = 0;
        assert(shorter + pick(s, len as nat, 0) =~= shorter);
        while k < solutions.len()
            invariant
                s == solution_views(solutions@),
                k <= solutions.len(),
                solution_views(sorted@) == shorter + pick(s, len as nat, k as int),
            decreases solutions.len() - k,
        {
            if solutions[k].moves.len() == len {
                let ghost so_far = solution_views(sorted@);
                sorted.push(solutions[k].duplicate());
                assert(solution_views(sorted@) =~= so_far.push(s[k as int]));
                assert(shorter + pick(s, len as nat, k as int).push(s[k as int]) =~= so_far.push(
                    s[k as int],
                ));
            }
            k = k + 1;
        }
        if len == top {
            done = true;
        } else {
            len = len + 1;
        }
    }
    sorted
}

/// The solutions picked for a length are those of that length among the
/// first `k`.
pub proof fn lemma_pick_member(s: Seq<SolutionView>, len: nat, k: int, x: SolutionView)
    requires
        0 <= k <= s.len(),
    ensures
        pick(s, len, k).contains(x) <==> x.moves.len() == len && exists|i: int|
            0 <= i < k && s[i] == x,
    decreases k,
{
    if k > 0 {
        lemma_pick_member(s, len, k - 1, x);
        let before = pick(s, len, k - 1);
        if s[k - 1].moves.len() == len {
            let now = before.push(s[k - 1]);
            if now.contains(x) {
                let j = choose|j: int| 0 <= j < now.len() && now[j] == x;
                if j < before.len() {
                    assert(before[j] == x);
                } else {
                    assert(s[k - 1] == x);
                }
            }
            if x.moves.len() == len && exists|i: int| 0 <= i < k && s[i] == x {
                let i = choose|i: int| 0 <= i < k && s[i] == x;
                if i < k - 1 {
                    let j = choose|j: int| 0 <= j < before.len() && before[j] == x;
                    assert(now[j] == x);
                } else {
                    assert(now[before.len() as int] == x);
                }
            }
        } else {
            if x.moves.len() == len && exists|i: int| 0 <= i < k && s[i] == x {
                let i = choose|i: int| 0 <= i < k && s[i] == x;
                assert(i < k - 1);
            }
        }
    }
}

/// None of the first `k` solutions is longer than `longest` says.
pub proof fn lemma_longest_bounds(s: Seq<SolutionView>, k: int, i: int)
    requires
        0 <= i < k <= s.len(),
    ensures
        s[i].moves.len() <= longest(s, k),
    decreases k,
{
    if i < k - 1 {
        lemma_longest_bounds(s, k - 1, i);
    }
}

/// The groups up to a length hold the solutions of `s` that are not
/// longer.
pub proof fn lemma_upto_member(s: Seq<SolutionView>, len: int, x: SolutionView)
    requires
        -1 <= len,
    ensures
        by_length_upto(s, len).contains(x) <==> x.moves.len() <= len && s.contains(x),
    decreases len + 1,
{
    if len >= 0 {
        lemma_upto_member(s, len - 1, x);
        lemma_pick_member(s, len as nat, s.len() as int, x);
        let shorter = by_length_upto(s, len - 1);
        let group = pick(s, len as nat, s.len() as int);
        let all = shorter + group;
        if all.contains(x) {
            let j = choose|j: int| 0 <= j < all.len() && all[j] == x;
            if j < shorter.len() {
                assert(shorter[j] == x);
            } else {
                assert(group[j - shorter.len()] == x);
                let i = choose|i: int| 0 <= i < s.len() && s[i] == x;
                assert(s[i] == x);
            }
        }
        if x.moves.len() <= len && s.contains(x) {
            let i = choose|i: int| 0 <= i < s.len() && s[i] == x;
            if x.moves.len() < len {
                let j = choose|j: int| 0 <= j < shorter.len() && shorter[j] == x;
                assert(all[j] == x);
            } else {
                assert(group.contains(x));
                let j = choose|j: int| 0 <= j < group.len() && group[j] == x;
                assert(all[shorter.len() + j] == x);
            }
        }
    }
}

/// Ordering by length neither drops a solution nor makes one up.
pub proof fn lemma_by_length_member(s: Seq<SolutionView>, x: SolutionView)
    ensures
        by_length(s).contains(x) <==> s.contains(x),
{
    lemma_upto_member(s, longest(s, s.len() as int) as int, x);
    if s.contains(x) {
        let i = choose|i: int| 0 <= i < s.len() && s[i] == x;
        lemma_longest_bounds(s, s.len() as int, i);
    }
}

/// Every solution picked for a length has that length.
pub proof fn lemma_pick_lengths(s: Seq<SolutionView>, len: nat, k: int, j: int)
    requires
        0 <= j < pick(s, len, k).len(),
    ensures
        pick(s, len, k)[j].moves.len() == len,
    decreases k,
{
    if k > 0 {
        if s[k - 1].moves.len() == len {
            if j < pick(s, len, k - 1).len() {
                lemma_pick_lengths(s, len, k - 1, j);
            }
        } else {
            lemma_pick_lengths(s, len, k - 1, j);
        }
    }
}

/// Within the groups up to a length no solution is longer than that
/// length, and none comes before a shorter one.
pub proof fn lemma_upto_ascending(s: Seq<SolutionView>, len: int, i: int, j: int)
    requires
        -1 <= len,
        0 <= i <= j < by_length_upto(s, len).len(),
    ensures
        by_length_upto(s, len)[i].moves.len() <= by_length_upto(s, len)[j].moves.len() <= len,
    decreases len + 1,
{
    if len >= 0 {
        let shorter = by_length_upto(s, len - 1);
        if j < shorter.len() {
            lemma_upto_ascending(s, len - 1, i, j);
        } else {
            lemma_pick_lengths(s, len as nat, s.len() as int, j - shorter.len());
            if i < shorter.len() {
                lemma_upto_ascending(s, len - 1, i, i);
            } else {
                lemma_pick_lengths(s, len as nat, s.len() as int, i - shorter.len());
            }
        }
    }
}

/// Ordered by length, no solution comes before a shorter one.
pub proof fn lemma_by_length_ascending(s: Seq<SolutionView>, i: int, j: int)
    requires
        0 <= i <= j < by_length(s).len(),
    ensures
        by_length(s)[i].moves.len() <= by_length(s)[j].moves.len(),
{
    lemma_upto_ascending(s, longest(s, s.len() as int) as int, i, j);
}

/// How many of the first `k` solutions of `s` have at most `len` moves.
pub open spec fn count_upto(s: Seq<SolutionView>, len: int, k: int) -> nat
    decreases k,
{
    if k <= 0 {
        0
    } else if s[k - 1].moves.len() <= len {
        count_upto(s, len, k - 1) + 1
    } else {
        count_upto(s, len, k - 1)
    }
}

/// No solution has fewer than no moves.
proof fn lemma_count_none(s: Seq<SolutionView>, k: int)
    ensures
        count_upto(s, -1, k) == 0,
    decreases k,
{
    if k > 0 {
        lemma_count_none(s, k - 1);
    }
}

/// The solutions with at most `len` moves are those with fewer and those
/// with exactly `len`.
proof fn lemma_count_split(s: Seq<SolutionView>, len: int, k: int)
    requires
        0 <= len,
    ensures
        count_upto(s, len, k) == count_upto(s, len - 1, k) + pick(s, len as nat, k).len(),
    decreases k,
{
    if k > 0 {
        lemma_count_split(s, len, k - 1);
    }
}

/// The groups up to a length have as many members as `s` has solutions
/// that are not longer.
proof fn lemma_upto_len(s: Seq<SolutionView>, len: int)
    requires
        -1 <= len,
    ensures
        by_length_upto(s, len).len() == count_upto(s, len, s.len() as int),
    decreases len + 1,
{
    if len >= 0 {
        lemma_upto_len(s, len - 1);
        lemma_count_split(s, len, s.len() as int);
    } else {
        lemma_count_none(s, s.len() as int);
    }
}

/// Where none of the first `k` solutions is longer than `len`, all `k` are
/// counted.
proof fn lemma_count_all(s: Seq<SolutionView>, len: int, k: int)
    requires
        0 <= k <= s.len(),
        forall|i: int| 0 <= i < k ==> s[i].moves.len() <= len,
    ensures
        count_upto(s, len, k) == k,
    decreases k,
{
    if k > 0 {
        lemma_count_all(s, len, k - 1);
    }
}

/// Ordering by length keeps the number of solutions.
pub proof fn lemma_by_length_len(s: Seq<SolutionView>)
    ensures
        by_length(s).len() == s.len(),
{
    let top = longest(s, s.len() as int) as int;
    lemma_upto_len(s, top);
    assert forall|i: int| 0 <= i < s.len() implies s[i].moves.len() <= top by {
        lemma_longest_bounds(s, s.len() as int, i);
    }
    lemma_count_all(s, top, s.len() as int);
}

/// From solutions that all have another length, none is picked.
proof fn lemma_pick_none(s: Seq<SolutionView>, len: nat, k: int)
    requires
        0 <= k <= s.len(),
        forall|i: int| 0 <= i < k ==> s[i].moves.len() != len,
    ensures
        pick(s, len, k) == Seq::<SolutionView>::empty(),
    decreases k,
{
    if k > 0 {
        lemma_pick_none(s, len, k - 1);
    }
}

/// From solutions that all have the length asked for, all are picked.
proof fn lemma_pick_every(s: Seq<SolutionView>, len: nat, k: int)
    requires
        0 <= k <= s.len(),
        forall|i: int| 0 <= i < k ==> s[i].moves.len() == len,
    ensures
        pick(s, len, k) == s.take(k),
    decreases k,
{
    if k > 0 {
        lemma_pick_every(s, len, k - 1);
        assert(s.take(k) =~= s.take(k - 1).push(s[k - 1]));
    }
}

/// Below the one length that all solutions have, the groups are empty.
proof fn lemma_upto_none(s: Seq<SolutionView>, len: nat, below: int)
    requires
        -1 <= below < len,
        forall|i: int| 0 <= i < s.len() ==> s[i].moves.len() == len,
    ensures
        by_length_upto(s, below) == Seq::<SolutionView>::empty(),
    decreases below + 1,
{
    if below >= 0 {
        lemma_upto_none(s, len, below - 1);
        lemma_pick_none(s, below as nat, s.len() as int);
    }
}

/// The longest of solutions that all have the same length has that
/// length.
proof fn lemma_longest_uniform(s: Seq<SolutionView>, len: nat, k: int)
    requires
        0 < k <= s.len(),
        forall|i: int| 0 <= i < k ==> s[i].moves.len() == len,
    ensures
        longest(s, k) == len,
    decreases k,
{
    if k > 1 {
        lemma_longest_uniform(s, len, k - 1);
    } else {
        assert(longest(s, 0) == 0);
    }
}

/// Solutions that all have the same length stay as they are when ordered
/// by length.
pub proof fn lemma_by_length_uniform(s: Seq<SolutionView>, len: nat)
    requires
        forall|i: int| 0 <= i < s.len() ==> s[i].moves.len() == len,
    ensures
        by_length(s) == s,
{
    if s.len() == 0 {
        assert(pick(s, 0, 0) =~= s);
        assert(by_length_upto(s, -1) + pick(s, 0, 0) =~= s);
    } else {
        lemma_longest_uniform(s, len, s.len() as int);
        lemma_upto_none(s, len, len - 1);
        lemma_pick_every(s, len, s.len() as int);
        assert(s.take(s.len() as int) =~= s);
        assert(Seq::<SolutionView>::empty() + s =~= s);
    }
}

/// `a` stands before `b` in `s`, at places `u` and `v`, or is shorter.
pub open spec fn kept_order(s: Seq<SolutionView>, a: SolutionView, b: SolutionView, u: int, v: int)
    -> bool {
    &&& 0 <= u < s.len()
    &&& 0 <= v < s.len()
    &&& s[u] == a
    &&& s[v] == b
    &&& (a.moves.len() < b.moves.len() || (a.moves.len() == b.moves.len() && u < v))
}

/// Solutions picked for a length stand in the order in which they stand
/// in `s`.
proof fn lemma_pick_order(s: Seq<SolutionView>, len: nat, k: int, i: int, j: int) -> (at: (
    int,
    int,
))
    requires
        0 <= k <= s.len(),
        0 <= i < j < pick(s, len, k).len(),
    ensures
        0 <= at.0 < at.1 < k,
        s[at.0] == pick(s, len, k)[i],
        s[at.1] == pick(s, len, k)[j],
    decreases k,
{
    let before = pick(s, len, k - 1);
    if s[k - 1].moves.len() == len && j == before.len() {
        let x = before[i];
        assert(before.contains(x));
        lemma_pick_member(s, len, k - 1, x);
        let u = choose|u: int| 0 <= u < k - 1 && s[u] == x;
        (u, k - 1)
    } else {
        lemma_pick_order(s, len, k - 1, i, j)
    }
}

/// Of two solutions in the groups up to a length, the one that stands
/// first is shorter than the other, or as long and before it in `s`.
pub proof fn lemma_upto_order(s: Seq<SolutionView>, len: int, i: int, j: int) -> (at: (int, int))
    requires
        -1 <= len,
        0 <= i < j < by_length_upto(s, len).len(),
    ensures
        kept_order(s, by_length_upto(s, len)[i], by_length_upto(s, len)[j], at.0, at.1),
    decreases len + 1,
{
    let shorter = by_length_upto(s, len - 1);
    let group = pick(s, len as nat, s.len() as int);
    if j < shorter.len() {
        lemma_upto_order(s, len - 1, i, j)
    } else if i >= shorter.len() {
        lemma_pick_lengths(s, len as nat, s.len() as int, i - shorter.len());
        lemma_pick_lengths(s, len as nat, s.len() as int, j - shorter.len());
        lemma_pick_order(s, len as nat, s.len() as int, i - shorter.len(), j - shorter.len())
    } else {
        let a = shorter[i];
        let b = group[j - shorter.len()];
        lemma_upto_ascending(s, len - 1, i, i);
        lemma_pick_lengths(s, len as nat, s.len() as int, j - shorter.len());
        assert(shorter.contains(a));
        lemma_upto_member(s, len - 1, a);
        assert(group.contains(b));
        lemma_pick_member(s, len as nat, s.len() as int, b);
        let u = choose|u: int| 0 <= u < s.len() && s[u] == a;
        let v = choose|v: int| 0 <= v < s.len() && s[v] == b;
        (u, v)
    }
}

} // verus!
