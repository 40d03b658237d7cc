//! The search coordinator's decision logic: the bounded leaderboard the
//! aggregator maintains, the adjusted score it ranks results by, and the
//! two-stage cooperative shutdown state machine. The threads, the channel
//! and the clock live with the caller; everything they decide is here.

use vstd::prelude::*;
use crate::score::Coverage;
use crate::score::MAX_TEXT_LEN;
use crate::simann::div_round_half;
use crate::simann::lemma_round_div_bounds;
use crate::simann::round_div_nonpos;
use crate::simann::SimulatedAnnResult;
use crate::simann::SCORE_LIMIT;

verus! {

/// The leaderboard never holds more results than this.
pub const MAX_RESULTS: usize = 16;

/// The shared shutdown state: running, asked to stop, or told to die.
#[derive(Clone, Copy, Debug, PartialEq, Eq, Structural)]
pub enum RunState {
    /// Normal operation.
    Running,
    /// A stop was requested; the aggregator winds down cooperatively.
    Stopping,
    /// A second stop arrived while stopping: terminate at once.
    Aborted,
}

/// What one stop signal does: the first request turns Running into
/// Stopping; any further request demands immediate, non-graceful
/// termination. The second component says whether to terminate hard.
pub fn on_stop_signal(s: RunState) -> (r: (RunState, bool))
    ensures
        s is Running ==> r == (RunState::Stopping, false),
        !(s is Running) ==> r == (RunState::Aborted, true),
{
    match s {
        RunState::Running => (RunState::Stopping, false),
        RunState::Stopping => (RunState::Aborted, true),
        RunState::Aborted => (RunState::Aborted, true),
    }
}

/// Whether the aggregator keeps looping.
pub fn keep_running(s: &RunState) -> (b: bool)
    ensures
        b == (*s is Running),
{
    match s {
        RunState::Running => true,
        RunState::Stopping => false,
        RunState::Aborted => false,
    }
}

/// The adjusted score the leaderboard ranks by: the raw blended score with
/// a quarter of its weight modulated by coverage,
/// `raw*(1-w) + raw*w*coverage` for `w = 1/4` — exactly
/// `raw*(3*den + num) / (4*den)` — rounded from micro-log10 units to whole
/// units, halves away from zero.
pub open spec fn adjusted_score(raw: int, num: int, den: int) -> int {
    div_round_half(raw * (3 * den + num), 4 * den * 1000000)
}

/// Compute the adjusted score of a result.
pub fn adjust_score(raw: i64, cov: Coverage) -> (a: i64)
    requires
        -SCORE_LIMIT <= raw <= 0,
        1 <= cov.den <= MAX_TEXT_LEN,
        cov.num <= cov.den,
    ensures
        a == adjusted_score(raw as int, cov.num as int, cov.den as int),
        -SCORE_LIMIT <= a <= 0,
{
    let num: i128 = cov.num as i128;
    let den: i128 = cov.den as i128;
    proof {
        assert((raw as int) * (3 * (den as int) + num as int) <= 0 && (raw as int) * (3 * (
        den as int) + num as int) >= -0x40000000000000000000000000000000) by (nonlinear_arith)
            requires
                -1000000000000000000 <= raw as int <= 0,
                1 <= den as int <= 1000000000,
                0 <= num as int <= den as int,
        ;
    }
    let a: i128 = (raw as i128) * (3 * den + num);
    let b: i128 = 4 * den * 1000000;
    let q = round_div_nonpos(a, b);
    proof {
        assert(-((-(raw as int)) * (b as int)) <= a as int) by (nonlinear_arith)
            requires
                raw as int <= 0,
                0 <= num as int <= den as int,
                1 <= den as int,
                b as int == 4 * (den as int) * 1000000,
                a as int == (raw as int) * (3 * (den as int) + num as int),
        ;
        lemma_round_div_bounds(a as int, b as int, -(raw as int));
    }
    q as i64
}

/// Strictly descending by score: the tie rule keeps scores distinct.
pub open spec fn board_sorted(s: Seq<SimulatedAnnResult>) -> bool {
    forall|i: int, j: int| 0 <= i < j < s.len() ==> s[i].score > s[j].score
}

/// The leaderboard's invariant: bounded and strictly sorted.
pub open spec fn board_ok(s: Seq<SimulatedAnnResult>) -> bool {
    &&& board_sorted(s)
    &&& s.len() <= MAX_RESULTS
}

/// Where an ordered insert puts the new result: before the first entry it
/// outscores, replacing an entry whose score it exactly matches.
pub open spec fn board_insert(s: Seq<SimulatedAnnResult>, x: SimulatedAnnResult) -> Seq<
    SimulatedAnnResult,
>
    decreases s.len(),
{
    if s.len() == 0 {
        seq![x]
    } else if x.score == s.first().score {
        s.update(0, x)
    } else if x.score > s.first().score {
        seq![x] + s
    } else {
        seq![s.first()] + board_insert(s.drop_first(), x)
    }
}

/// Cut a board back to the bound, dropping the lowest-scored tail.
pub open spec fn board_clamp(s: Seq<SimulatedAnnResult>) -> Seq<SimulatedAnnResult> {
    if s.len() <= MAX_RESULTS {
        s
    } else {
        s.take(MAX_RESULTS as int)
    }
}

/// An ordered insert splits at any prefix of strictly higher scores.
proof fn lemma_board_insert_split(s: Seq<SimulatedAnnResult>, x: SimulatedAnnResult, i: int)
    requires
        0 <= i <= s.len(),
        forall|j: int| 0 <= j < i ==> s[j].score > x.score,
    ensures
        board_insert(s, x) == s.take(i) + board_insert(s.skip(i), x),
    decreases i,
{
    if i == 0 {
        assert(s.skip(0) =~= s);
        assert(s.take(0) + board_insert(s, x) =~= board_insert(s, x));
    } else {
        assert(s.first().score > x.score);
        assert(board_insert(s, x) == seq![s.first()] + board_insert(s.drop_first(), x));
        assert(forall|j: int| 0 <= j < i - 1 ==> s.drop_first()[j].score > x.score);
        lemma_board_insert_split(s.drop_first(), x, i - 1);
        assert(s.drop_first().take(i - 1) =~= s.take(i).drop_first());
        assert(s.drop_first().skip(i - 1) =~= s.skip(i));
        assert(seq![s.first()] + (s.take(i).drop_first() + board_insert(s.skip(i), x)) =~= s.take(
            i,
        ) + board_insert(s.skip(i), x));
    }
}

/// The tie rule: a result whose score exactly matches an entry's replaces
/// that entry — the board neither grows nor reorders.
pub proof fn lemma_tie_replaces(s: Seq<SimulatedAnnResult>, x: SimulatedAnnResult, i: int)
    requires
        board_sorted(s),
        0 <= i < s.len(),
        s[i].score == x.score,
    ensures
        board_insert(s, x) == s.update(i, x),
        board_insert(s, x).len() == s.len(),
{
    assert(forall|j: int| 0 <= j < i ==> s[j].score > x.score);
    lemma_board_insert_split(s, x, i);
    assert(s.skip(i).first() == s[i]);
    assert(board_insert(s.skip(i), x) == s.skip(i).update(0, x));
    assert(s.take(i) + s.skip(i).update(0, x) =~= s.update(i, x));
}

/// Insert a result into the leaderboard: replace on an exact score tie,
/// insert in order otherwise, and cut back to the bound.
pub fn handle_annealing_result(
    all_results: &mut Vec<SimulatedAnnResult>,
    new_res: SimulatedAnnResult,
)
    requires
        board_ok(old(all_results)@),
    ensures
        final(all_results)@ == board_clamp(board_insert(old(all_results)@, new_res)),
        board_ok(final(all_results)@),
{
    let ghost s0 = all_results@;
    let n = all_results.len();
    let mut i: usize = 0;
    while i < n && all_results[i].score > new_res.score
        invariant
            n == all_results@.len(),
            all_results@ == s0,
            i <= n,
            forall|j: int| 0 <= j < i ==> s0[j].score > new_res.score,
        decreases n - i,
    {
        i = i + 1;
    }
    proof {
        lemma_board_insert_split(s0, new_res, i as int);
    }
    if i < n && all_results[i].score == new_res.score {
        proof {
            assert(s0.skip(i as int).first() == s0[i as int]);
            assert(board_insert(s0.skip(i as int), new_res) == s0.skip(i as int).update(
                0,
                new_res,
            ));
            assert(s0.take(i as int) + s0.skip(i as int).update(0, new_res) =~= s0.update(
                i as int,
                new_res,
            ));
        }
        all_results[i] = new_res;
        proof {
            assert(all_results@ =~= board_clamp(board_insert(s0, new_res)));
        }
    } else {
        proof {
            if i < n {
                assert(s0.skip(i as int).first() == s0[i as int]);
                assert(s0[i as int].score < new_res.score);
                assert(board_insert(s0.skip(i as int), new_res) == seq![new_res] + s0.skip(
                    i as int,
                ));
            } else {
                assert(s0.skip(i as int) =~= Seq::<SimulatedAnnResult>::empty());
                assert(board_insert(s0.skip(i as int), new_res) =~= seq![new_res]);
                assert(seq![new_res] + s0.skip(i as int) =~= seq![new_res]);
                assert(board_insert(s0.skip(i as int), new_res) == seq![new_res] + s0.skip(
                    i as int,
                ));
            }
            assert(s0.take(i as int) + (seq![new_res] + s0.skip(i as int)) =~= s0.insert(
                i as int,
                new_res,
            ));
        }
        all_results.insert(i, new_res);
        if all_results.len() > MAX_RESULTS {
            all_results.truncate(MAX_RESULTS);
            proof {
                assert(all_results@ =~= board_clamp(board_insert(s0, new_res)));
            }
        } else {
            proof {
                assert(all_results@ =~= board_clamp(board_insert(s0, new_res)));
            }
        }
    }
    proof {
        let t = final(all_results)@;
        assert forall|a: int, b: int| 0 <= a < b < t.len() implies t[a].score > t[b].score by {
            assert(forall|j: int| 0 <= j < i ==> s0[j].score > new_res.score);
        }
    }
}

/// The result as the leaderboard ranks it: the same record under its
/// rounded adjusted score.
pub open spec fn with_adjusted(r: SimulatedAnnResult) -> SimulatedAnnResult {
    SimulatedAnnResult {
        score: adjusted_score(r.score as int, r.word_coverage.num as int,
            r.word_coverage.den as int) as i64,
        ..r
    }
}

/// One aggregator step: compute the adjusted score, flag a result whose
/// coverage clears the high-water threshold (a percentage), and fold the
/// result into the leaderboard under the insert/replace-on-tie rule.
pub fn aggregate_result(
    board: &mut Vec<SimulatedAnnResult>,
    res: SimulatedAnnResult,
    high_coverage_pct: u64,
) -> (high: bool)
    requires
        board_ok(old(board)@),
        -SCORE_LIMIT <= res.score <= 0,
        1 <= res.word_coverage.den <= MAX_TEXT_LEN,
        res.word_coverage.num <= res.word_coverage.den,
        high_coverage_pct <= 100,
    ensures
        high == (res.word_coverage.num * 100 > high_coverage_pct * res.word_coverage.den),
        final(board)@ == board_clamp(board_insert(old(board)@, with_adjusted(res))),
        board_ok(final(board)@),
{
    let adj = adjust_score(res.score, res.word_coverage);
    proof {
        assert((high_coverage_pct as int) * (res.word_coverage.den as int) <= 100 * 1000000000)
            by (nonlinear_arith)
            requires
                high_coverage_pct <= 100,
                res.word_coverage.den as int <= 1000000000,
                0 <= res.word_coverage.den as int,
        ;
    }
    let high = (res.word_coverage.num as u64) * 100 > high_coverage_pct * (res.word_coverage.den
        as u64);
    let ranked = SimulatedAnnResult {
        key: res.key,
        decrypt: res.decrypt,
        score: adj,
        word_coverage: res.word_coverage,
    };
    proof {
        assert(ranked == with_adjusted(res));
    }
    handle_annealing_result(board, ranked);
    high
}

} // verus!
