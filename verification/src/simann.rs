//! The annealing optimizer: one staged-temperature local search over a
//! key space, guided by the blended language-model and coverage score, and
//! the result record it produces.

use vstd::prelude::*;
use vstd::arithmetic::div_mod::lemma_div_is_ordered;
use vstd::arithmetic::div_mod::lemma_div_is_ordered_by_denominator;
use vstd::arithmetic::div_mod::lemma_div_multiples_vanish;
use vstd::arithmetic::div_mod::lemma_fundamental_div_mod_converse;
use crate::keyspace::copy_bytes;
use crate::keyspace::random_below;
use crate::keyspace::KeySpace;
use crate::perm::permutation_of;
use crate::score::cov_num;
use crate::score::Coverage;
use crate::score::NgramScore2;
use crate::score::NgramScore4;
use crate::score::WordListScore;
use crate::score::MAX_TEXT_LEN;
use crate::score::SCORE_CAP;
use crate::score::SCORE_SCALE;
use crate::score::num_windows;
use crate::score::NGRAM_LEN;

verus! {

/// Bound on the magnitude of any text score: the longest text times the
/// largest per-window magnitude.
pub const SCORE_LIMIT: i64 = 1000000000000000000;

/// Bound on the number of temperature rungs a schedule may have.
pub const MAX_RUNGS: u64 = 1000000;

/// What one completed optimizer run hands to the coordinator: the best key
/// found, its decryption, the blended score, and the dictionary coverage of
/// the decryption.
#[derive(Debug)]
pub struct SimulatedAnnResult {
    /// The best key found.
    pub key: Vec<u8>,
    /// The decryption that key produces.
    pub decrypt: Vec<u8>,
    /// The blended score of that decryption, in micro-log10 units; after
    /// aggregation, the rounded adjusted score.
    pub score: i64,
    /// The dictionary coverage of that decryption.
    pub word_coverage: Coverage,
}

/// `a / b` rounded to the nearest integer, halves away from zero.
pub open spec fn div_round_half(a: int, b: int) -> int {
    if a >= 0 {
        (2 * a + b) / (2 * b)
    } else {
        -((2 * (-a) + b) / (2 * b))
    }
}

/// The blended fitness: half the language-model score plus half of it
/// weighted by what coverage leaves unexplained. As an exact rational,
/// `l * (2*den - num) / (2*den)`, rounded to micro-log10 units.
pub open spec fn blended_spec(l: int, num: int, den: int) -> int {
    div_round_half(l * (2 * den - num), 2 * den)
}

/// For a non-positive value over a positive divisor the rounded quotient
/// stays within the magnitude bound of the quotient itself.
pub(crate) proof fn lemma_round_div_bounds(a: int, b: int, m: int)
    requires
        b >= 1,
        m >= 0,
        -(m * b) <= a <= 0,
    ensures
        -m <= div_round_half(a, b) <= 0,
{
    if a == 0 {
        lemma_fundamental_div_mod_converse(b, 2 * b, 0, b);
    } else {
        let neg = -a;
        assert(neg <= m * b);
        assert(2 * neg + b <= (2 * m + 1) * b) by (nonlinear_arith)
            requires
                neg <= m * b,
                b >= 1,
        ;
        lemma_div_is_ordered(2 * neg + b, (2 * m + 1) * b, 2 * b);
        assert((2 * m + 1) * b == m * (2 * b) + b) by (nonlinear_arith);
        lemma_fundamental_div_mod_converse((2 * m + 1) * b, 2 * b, m, b);
        assert((2 * neg + b) / (2 * b) <= m);
        assert(2 * neg + b >= 0);
        lemma_div_is_ordered(0, 2 * neg + b, 2 * b);
    }
}

/// Round a ratio of a non-positive numerator and a positive denominator to
/// the nearest integer, halves away from zero.
pub(crate) fn round_div_nonpos(a: i128, b: i128) -> (q: i128)
    requires
        1 <= b <= 0x10000000000000000,
        -0x40000000000000000000000000000000 <= a <= 0,
    ensures
        q == div_round_half(a as int, b as int),
{
    if a == 0 {
        proof {
            lemma_fundamental_div_mod_converse(b as int, 2 * (b as int), 0, b as int);
        }
        return 0;
    }
    let neg: u128 = (-a) as u128;
    let ub: u128 = b as u128;
    let x: u128 = 2 * neg + ub;
    let q: u128 = x / (2 * ub);
    proof {
        lemma_div_is_ordered_by_denominator(x as int, 2, 2 * (ub as int));
        lemma_div_is_ordered(x as int, 2 * ((neg + ub) as int), 2);
        lemma_div_multiples_vanish((neg + ub) as int, 2);
        assert(2 * ((neg + ub) as int) == ((neg + ub) as int) * 2);
        assert(q <= neg + ub);
    }
    -(q as i128)
}

/// The blended score of a text under the primary model and the dictionary.
pub open spec fn score_text_spec(ng: NgramScore4, wl: WordListScore, text: Seq<u8>) -> int {
    let l = ng.score_spec(text);
    let num = cov_num(wl.words_view(), wl.max_len as int, text, 0);
    let den = if text.len() == 0 {
        1int
    } else {
        text.len() as int
    };
    blended_spec(l, num, den)
}

/// Blend the language-model score of `text` with its dictionary coverage:
/// `0.5 * l + 0.5 * l * (1 - coverage)`, exactly, in micro-log10 units.
/// The secondary model is reserved and takes no part in the blend.
pub fn score_text(ng: &NgramScore4, _ng2: &NgramScore2, wl: &WordListScore, text: &Vec<u8>) -> (r:
    i64)
    requires
        ng.wf(),
        text@.len() <= MAX_TEXT_LEN,
    ensures
        r == score_text_spec(*ng, *wl, text@),
        -SCORE_LIMIT <= r <= 0,
{
    let l = ng.score(text);
    let cov = wl.coverage(text);
    proof {
        assert(num_windows(text@, NGRAM_LEN as int) * SCORE_CAP <= MAX_TEXT_LEN as int * SCORE_CAP)
            by (nonlinear_arith)
            requires
                0 <= num_windows(text@, NGRAM_LEN as int) <= MAX_TEXT_LEN as int,
        ;
    }
    let num: i128 = cov.num as i128;
    let den: i128 = cov.den as i128;
    proof {
        assert((l as int) * (2 * (den as int) - num as int) <= 0 && (l as int) * (2 * (den as int)
            - num as int) >= -0x40000000000000000000000000000000) by (nonlinear_arith)
            requires
                -1000000000000000000 <= l as int <= 0,
                1 <= den as int <= 1000000000,
                0 <= num as int <= den as int,
        ;
    }
    let a: i128 = (l as i128) * (2 * den - num);
    let b: i128 = 2 * den;
    let q = round_div_nonpos(a, b);
    proof {
        assert(-((-(l as int)) * (b as int)) <= a as int) by (nonlinear_arith)
            requires
                l as int <= 0,
                0 <= num as int,
                b as int == 2 * (den as int),
                a as int == (l as int) * (2 * (den as int) - num as int),
        ;
        lemma_round_div_bounds(a as int, b as int, -(l as int));
    }
    q as i64
}

/// Draw a boolean that is true with probability `exp(-(num/den))`, using
/// uniform draws alone: the length of the run of draws that starts below
/// `num` and keeps strictly descending is even exactly that often. A ratio
/// above one is split into unit steps.
fn bernoulli_exp(num: u64, den: u64) -> (b: bool)
    requires
        1 <= den,
    ensures
        num == 0 ==> b,
{
    let mut n = num;
    let mut ok = true;
    while n >= den && ok
        invariant
            1 <= den,
            num == 0 ==> n == 0 && ok,
        decreases n,
    {
        ok = bernoulli_exp_fraction(den, den);
        n = n - den;
    }
    if ok {
        bernoulli_exp_fraction(n, den)
    } else {
        false
    }
}

/// One chain draw for a ratio of at most one.
fn bernoulli_exp_fraction(num: u64, den: u64) -> (b: bool)
    requires
        1 <= den,
        num <= den,
    ensures
        num == 0 ==> b,
{
    let mut count: u64 = 0;
    let mut bound = num;
    let mut u = random_below(den);
    while u < bound
        invariant
            1 <= den,
            count + bound <= num,
            num == 0 ==> count == 0,
        decreases bound,
    {
        count = count + 1;
        bound = u;
        u = random_below(den);
    }
    count % 2 == 0
}

/// Whether the chain adopts the candidate: always when the candidate scores
/// at least the current state, otherwise with probability
/// `exp((candidate - current) / rungs_left)` — the Metropolis rule, whose
/// divisor shrinks as the schedule cools. Improvement is adopted
/// unconditionally, whatever the rung.
pub fn accept_candidate(cur_score: i64, cand_score: i64, rungs_left: u64) -> (b: bool)
    requires
        1 <= rungs_left <= MAX_RUNGS,
        -SCORE_LIMIT <= cur_score <= 0,
        -SCORE_LIMIT <= cand_score <= 0,
    ensures
        cand_score >= cur_score ==> b,
{
    if cand_score > cur_score {
        true
    } else {
        let delta = cur_score - cand_score;
        proof {
            assert(SCORE_SCALE as u64 == 1000000);
        }
        let den = (SCORE_SCALE as u64) * rungs_left;
        bernoulli_exp(delta as u64, den)
    }
}

/// Everything the optimizer promises of a result: the key is a permutation
/// of the strategy's alphabet, the decryption is what that key yields, and
/// the score and coverage are exactly those of the decryption.
pub open spec fn result_wf<S: KeySpace>(
    strat: S,
    cipher: Seq<u8>,
    ng: NgramScore4,
    wl: WordListScore,
    r: SimulatedAnnResult,
) -> bool {
    &&& permutation_of(r.key@, strat.alphabet())
    &&& r.decrypt@ == strat.decrypt_spec(cipher, r.key@)
    &&& r.score == score_text_spec(ng, wl, r.decrypt@)
    &&& -SCORE_LIMIT <= r.score <= 0
    &&& r.word_coverage.num == cov_num(wl.words_view(), wl.max_len as int, r.decrypt@, 0)
    &&& r.word_coverage.den == if r.decrypt@.len() == 0 {
        1int
    } else {
        r.decrypt@.len() as int
    }
    &&& r.word_coverage.num <= r.word_coverage.den
}

/// One staged-temperature local search. Per rung, candidates are drawn by
/// local perturbation and adopted by the Metropolis rule; the best state
/// ever seen is tracked across the whole run and returned once every rung
/// has gone `max_fail` candidates without the best improving.
pub fn simulated_annealing<S: KeySpace>(
    cipher: &Vec<u8>,
    ng: &NgramScore4,
    ng2: &NgramScore2,
    wl: &WordListScore,
    strat: &S,
    temps: u64,
    max_fail: u64,
) -> (r: SimulatedAnnResult)
    requires
        ng.wf(),
        strat.cipher_ok(cipher@),
        2 * cipher@.len() <= MAX_TEXT_LEN,
        1 <= temps <= MAX_RUNGS,
    ensures
        result_wf(*strat, cipher@, *ng, *wl, r),
{
    let mut last_key = strat.generate();
    let mut last_decrypt = strat.decrypt(cipher, &last_key);
    let mut last_score = score_text(ng, ng2, wl, &last_decrypt);
    let mut best_key = copy_bytes(&last_key);
    let mut best_decrypt = copy_bytes(&last_decrypt);
    let mut best_score = last_score;

    let mut temp: u64 = 0;
    while temp < temps
        invariant
            ng.wf(),
            strat.cipher_ok(cipher@),
            2 * cipher@.len() <= MAX_TEXT_LEN,
            1 <= temps <= MAX_RUNGS,
            temp <= temps,
            permutation_of(last_key@, strat.alphabet()),
            last_decrypt@ == strat.decrypt_spec(cipher@, last_key@),
            last_decrypt@.len() <= MAX_TEXT_LEN,
            last_score == score_text_spec(*ng, *wl, last_decrypt@),
            -SCORE_LIMIT <= last_score <= 0,
            permutation_of(best_key@, strat.alphabet()),
            best_decrypt@ == strat.decrypt_spec(cipher@, best_key@),
            best_decrypt@.len() <= MAX_TEXT_LEN,
            best_score == score_text_spec(*ng, *wl, best_decrypt@),
            -SCORE_LIMIT <= best_score <= 0,
        decreases temps - temp,
    {
        let mut fail_count: u64 = 0;
        while fail_count < max_fail
            invariant
                ng.wf(),
                strat.cipher_ok(cipher@),
                2 * cipher@.len() <= MAX_TEXT_LEN,
                1 <= temps <= MAX_RUNGS,
                temp < temps,
                fail_count <= max_fail,
                permutation_of(last_key@, strat.alphabet()),
                last_decrypt@ == strat.decrypt_spec(cipher@, last_key@),
                last_decrypt@.len() <= MAX_TEXT_LEN,
                last_score == score_text_spec(*ng, *wl, last_decrypt@),
                -SCORE_LIMIT <= last_score <= 0,
                permutation_of(best_key@, strat.alphabet()),
                best_decrypt@ == strat.decrypt_spec(cipher@, best_key@),
                best_decrypt@.len() <= MAX_TEXT_LEN,
                best_score == score_text_spec(*ng, *wl, best_decrypt@),
                -SCORE_LIMIT <= best_score <= 0,
            decreases 0 - best_score, max_fail - fail_count,
        {
            let cur_key = strat.mutate(&last_key);
            let cur_decrypt = strat.decrypt(cipher, &cur_key);
            let cur_score = score_text(ng, ng2, wl, &cur_decrypt);
            if accept_candidate(last_score, cur_score, temps - temp) {
                last_key = cur_key;
                last_decrypt = cur_decrypt;
                last_score = cur_score;
            }
            if last_score > best_score {
                best_key = copy_bytes(&last_key);
                best_decrypt = copy_bytes(&last_decrypt);
                best_score = last_score;
                fail_count = 0;
            } else {
                fail_count = fail_count + 1;
            }
        }
        temp = temp + 1;
    }
    let word_coverage = wl.coverage(&best_decrypt);
    SimulatedAnnResult { key: best_key, decrypt: best_decrypt, score: best_score, word_coverage }
}

impl PartialEq for SimulatedAnnResult {
    /// Results compare by their score alone.
    fn eq(&self, other: &Self) -> (r: bool) {
        self.score == other.score
    }
}

impl Eq for SimulatedAnnResult {

}

impl vstd::std_specs::cmp::PartialEqSpecImpl for SimulatedAnnResult {
    open spec fn obeys_eq_spec() -> bool {
        true
    }

    open spec fn eq_spec(&self, other: &SimulatedAnnResult) -> bool {
        self.score == other.score
    }
}

impl PartialOrd for SimulatedAnnResult {
    /// Results order by their score alone.
    fn partial_cmp(&self, other: &Self) -> (r: Option<core::cmp::Ordering>) {
        if self.score > other.score {
            Some(core::cmp::Ordering::Greater)
        } else if self.score < other.score {
            Some(core::cmp::Ordering::Less)
        } else {
            Some(core::cmp::Ordering::Equal)
        }
    }
}

impl vstd::std_specs::cmp::PartialOrdSpecImpl for SimulatedAnnResult {
    open spec fn obeys_partial_cmp_spec() -> bool {
        true
    }

    open spec fn partial_cmp_spec(&self, other: &SimulatedAnnResult) -> Option<
        core::cmp::Ordering,
    > {
        if self.score > other.score {
            Some(core::cmp::Ordering::Greater)
        } else if self.score < other.score {
            Some(core::cmp::Ordering::Less)
        } else {
            Some(core::cmp::Ordering::Equal)
        }
    }
}

} // verus!
