//! The matcher of one daemon: how its state moves with each token
//! collected, and what a state says about the tokens seen.

use vstd::prelude::*;

verus! {

/// Progress of one daemon against the tokens collected so far.
///
/// `Partial(k)` says that the last `k` tokens collected are the daemon's
/// first `k` tokens; `Completed` says that the whole daemon has been seen
/// and is never left again.
#[derive(Debug, Clone, Copy, PartialEq, Eq, Structural)]
pub enum DaemonMatchState {
    Completed,
    Partial(usize),
}

/// The state that follows `state` once token `t` has been collected.
///
/// A token that continues the match advances it by one, completing it when
/// the daemon's last token has been reached; any other token resets the
/// match to nothing, without looking for a shorter match to resume.
pub open spec fn advance(
    daemon: Seq<Seq<char>>,
    state: DaemonMatchState,
    t: Seq<char>,
) -> DaemonMatchState {
    match state {
        DaemonMatchState::Completed => DaemonMatchState::Completed,
        DaemonMatchState::Partial(k) => if k < daemon.len() && daemon[k as int] == t {
            if k + 1 == daemon.len() {
                DaemonMatchState::Completed
            } else {
                DaemonMatchState::Partial((k + 1) as usize)
            }
        } else {
            DaemonMatchState::Partial(0)
        },
    }
}

/// The state of `daemon` after the first `k` tokens of `buffer`.
pub open spec fn match_upto(daemon: Seq<Seq<char>>, buffer: Seq<Seq<char>>, k: int)
    -> DaemonMatchState
    decreases k,
{
    if k <= 0 {
        DaemonMatchState::Partial(0)
    } else {
        advance(daemon, match_upto(daemon, buffer, k - 1), buffer[k - 1])
    }
}

/// `daemon` stands in `buffer` as a contiguous run that begins at `start`
/// and ends within the first `k` tokens.
pub open spec fn occurs_at(buffer: Seq<Seq<char>>, daemon: Seq<Seq<char>>, start: int, k: int)
    -> bool {
    &&& 0 <= start
    &&& start + daemon.len() <= k
    &&& forall|j: int| 0 <= j < daemon.len() ==> buffer[start + j] == daemon[j]
}

/// `daemon` stands somewhere in `buffer` as a contiguous run.
pub open spec fn occurs_in(buffer: Seq<Seq<char>>, daemon: Seq<Seq<char>>) -> bool {
    exists|start: int| occurs_at(buffer, daemon, start, buffer.len() as int)
}

/// The state after `k` tokens depends on those `k` tokens only.
pub proof fn lemma_match_prefix(
    daemon: Seq<Seq<char>>,
    a: Seq<Seq<char>>,
    b: Seq<Seq<char>>,
    k: int,
)
    requires
        forall|i: int| 0 <= i < k ==> a[i] == b[i],
    ensures
        match_upto(daemon, a, k) == match_upto(daemon, b, k),
    decreases k,
{
    if k > 0 {
        lemma_match_prefix(daemon, a, b, k - 1);
    }
}

/// A completed daemon stays completed, whatever tokens follow.
pub proof fn completed_is_absorbing(
    daemon: Seq<Seq<char>>,
    buffer: Seq<Seq<char>>,
    j: int,
    k: int,
)
    requires
        j <= k,
        match_upto(daemon, buffer, j) is Completed,
    ensures
        match_upto(daemon, buffer, k) is Completed,
    decreases k - j,
{
    if j < k {
        completed_is_absorbing(daemon, buffer, j, k - 1);
    }
}

/// What a match state claims about the first `k` tokens of `buffer`: a
/// partial match of length `n` is a match of the daemon's first `n` tokens
/// against the last `n` tokens seen, and a completed match is a full
/// occurrence of the daemon among the tokens seen.
pub open spec fn state_meaning(
    daemon: Seq<Seq<char>>,
    buffer: Seq<Seq<char>>,
    k: int,
    state: DaemonMatchState,
) -> bool {
    match state {
        DaemonMatchState::Partial(n) => {
            &&& n <= k
            &&& (n < daemon.len() || n == 0)
            &&& forall|j: int| 0 <= j < n ==> buffer[k - n + j] == daemon[j]
        },
        DaemonMatchState::Completed => exists|start: int| occurs_at(buffer, daemon, start, k),
    }
}

/// The matcher only reports what is there: after `k` tokens its state means
/// what `state_meaning` says.
pub proof fn lemma_match_meaning(daemon: Seq<Seq<char>>, buffer: Seq<Seq<char>>, k: int)
    requires
        0 <= k <= buffer.len(),
        daemon.len() <= usize::MAX,
    ensures
        state_meaning(daemon, buffer, k, match_upto(daemon, buffer, k)),
    decreases k,
{
    if k > 0 {
        lemma_match_meaning(daemon, buffer, k - 1);
        let prev = match_upto(daemon, buffer, k - 1);
        let t = buffer[k - 1];
        match prev {
            DaemonMatchState::Completed => {
                let seen = k - 1;
                let start = choose|start: int| occurs_at(buffer, daemon, start, seen);
                assert(occurs_at(buffer, daemon, start, k));
            },
            DaemonMatchState::Partial(n) => {
                if n < daemon.len() && daemon[n as int] == t {
                    if n + 1 == daemon.len() {
                        let start = k - 1 - n;
                        assert forall|j: int| 0 <= j < daemon.len() implies buffer[start + j]
                            == daemon[j] by {
                            if j < n {
                                assert(buffer[(k - 1) - n + j] == daemon[j]);
                            }
                        }
                        assert(occurs_at(buffer, daemon, start, k));
                    } else {
                        assert forall|j: int| 0 <= j < n + 1 implies buffer[k - (n + 1) + j]
                            == daemon[j] by {
                            if j < n {
                                assert(buffer[(k - 1) - n + j] == daemon[j]);
                            }
                        }
                    }
                }
            },
        }
    }
}

/// A daemon that the matcher reports as completed after `k` tokens occurs
/// in `buffer` as a contiguous run.
pub proof fn lemma_completed_occurs(daemon: Seq<Seq<char>>, buffer: Seq<Seq<char>>, k: int)
    requires
        0 <= k <= buffer.len(),
        daemon.len() <= usize::MAX,
        match_upto(daemon, buffer, k) is Completed,
    ensures
        occurs_in(buffer, daemon),
{
    lemma_match_meaning(daemon, buffer, k);
    let start = choose|start: int| occurs_at(buffer, daemon, start, k);
    assert(occurs_at(buffer, daemon, start, buffer.len() as int));
}

/// Feeds one token to one daemon's matcher.
pub fn advance_state(daemon: &Vec<String>, state: DaemonMatchState, token: &String) -> (next:
    DaemonMatchState)
    requires
        state matches DaemonMatchState::Partial(k) ==> k < daemon.len(),
    ensures
        next == advance(crate::types::tokens(daemon@), state, token@),
        next matches DaemonMatchState::Partial(k) ==> k < daemon.len(),
{
    match state {
        DaemonMatchState::Completed => DaemonMatchState::Completed,
        DaemonMatchState::Partial(match_len) => {
            if daemon[match_len] == *token {
                if match_len + 1 == daemon.len() {
                    DaemonMatchState::Completed
                } else {
                    DaemonMatchState::Partial(match_len + 1)
                }
            } else {
                DaemonMatchState::Partial(0)
            }
        },
    }
}

} // verus!
