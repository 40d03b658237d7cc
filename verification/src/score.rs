//! Statistical scoring of candidate decryptions: an n-gram log-likelihood
//! model over fixed-width character windows, and a dictionary-coverage
//! heuristic.
//!
//! Scores are fixed-point integers in micro-log10 units. The model maps each
//! window to the (always non-positive) log-likelihood of that window; windows
//! it has never seen score a fixed smoothed floor. The caller computes the
//! per-window values from observed counts; this module parses, validates,
//! stores and sums them exactly.

use vstd::prelude::*;
use vstd::arithmetic::div_mod::lemma_fundamental_div_mod_converse;
use crate::keyspace::all_upper;

verus! {

/// Width of the primary model's windows.
pub const NGRAM_LEN: usize = 4;

/// Width of the secondary model's windows.
pub const NGRAM2_LEN: usize = 2;

/// Micro-log10 units per log10 unit.
pub const SCORE_SCALE: i64 = 1000000;

/// Bound on the magnitude of a single window's score, in micro-log10 units.
pub const SCORE_CAP: i64 = 1000000000;

/// Bound on the length of a text handed to the scorers.
pub const MAX_TEXT_LEN: usize = 1000000000;

/// Number of distinct windows of width 4.
pub const TABLE4_LEN: usize = 456976;

/// Number of distinct windows of width 2.
pub const TABLE2_LEN: usize = 676;

/// Why a model or dictionary input was rejected.
#[derive(Clone, Copy, Debug, PartialEq, Eq, Structural)]
pub enum ModelError {
    /// A line does not hold exactly the expected number of tokens.
    WrongTokenCount,
    /// A window is not pure A-Z of the configured width.
    BadWindow,
    /// A count is not an unsigned integer in range.
    BadCount,
    /// The accumulated total is zero or does not fit.
    BadTotal,
    /// A per-window score lies outside the accepted range.
    BadScore,
    /// The smoothing floor lies outside the accepted range.
    BadFloor,
    /// A dictionary word holds a character other than A-Z.
    BadWord,
    /// The dictionary retains no word at all.
    EmptyWordList,
}

/// ASCII whitespace, as the usual tokenizers treat it.
pub open spec fn is_ws(b: u8) -> bool {
    b == 32 || b == 9 || b == 10 || b == 13 || b == 12
}

/// Whitespace-separated tokens of `s`, accumulating a partial token `cur`.
pub open spec fn tokens_acc(s: Seq<u8>, cur: Seq<u8>) -> Seq<Seq<u8>>
    decreases s.len(),
{
    if s.len() == 0 {
        if cur.len() == 0 {
            Seq::empty()
        } else {
            seq![cur]
        }
    } else if is_ws(s[0]) {
        if cur.len() == 0 {
            tokens_acc(s.drop_first(), Seq::empty())
        } else {
            seq![cur] + tokens_acc(s.drop_first(), Seq::empty())
        }
    } else {
        tokens_acc(s.drop_first(), cur.push(s[0]))
    }
}

/// The whitespace-separated tokens of `s`.
pub open spec fn spec_tokens(s: Seq<u8>) -> Seq<Seq<u8>> {
    tokens_acc(s, Seq::empty())
}

/// Split `line` into its whitespace-separated tokens.
pub fn tokenize(line: &Vec<u8>) -> (r: Vec<Vec<u8>>)
    ensures
        r@.map_values(|t: Vec<u8>| t@) == spec_tokens(line@),
{
    let mut done: Vec<Vec<u8>> = Vec::new();
    let mut cur: Vec<u8> = Vec::new();
    let mut i: usize = 0;
    proof {
        assert(line@.skip(0) =~= line@);
        assert(done@.map_values(|t: Vec<u8>| t@) + tokens_acc(line@, cur@) =~= tokens_acc(
            line@,
            cur@,
        ));
        assert(cur@ =~= Seq::<u8>::empty());
    }
    while i < line.len()
        invariant
            i <= line@.len(),
            spec_tokens(line@) == done@.map_values(|t: Vec<u8>| t@) + tokens_acc(
                line@.skip(i as int),
                cur@,
            ),
        decreases line@.len() - i,
    {
        let ghost pre_s = line@.skip(i as int);
        let ghost pre_cur = cur@;
        let ghost pre_done = done@.map_values(|t: Vec<u8>| t@);
        proof {
            assert(pre_s.drop_first() =~= line@.skip(i + 1));
            assert(pre_s[0] == line@[i as int]);
        }
        let b = line[i];
        if b == 32 || b == 9 || b == 10 || b == 13 || b == 12 {
            if cur.len() > 0 {
                proof {
                    assert(tokens_acc(pre_s, pre_cur) == seq![pre_cur] + tokens_acc(
                        line@.skip(i + 1),
                        Seq::empty(),
                    ));
                }
                done.push(cur);
                cur = Vec::new();
                proof {
                    assert(cur@ =~= Seq::<u8>::empty());
                    assert(done@.map_values(|t: Vec<u8>| t@) =~= pre_done + seq![pre_cur]);
                    assert((pre_done + seq![pre_cur]) + tokens_acc(
                        line@.skip(i + 1),
                        Seq::empty(),
                    ) =~= pre_done + (seq![pre_cur] + tokens_acc(line@.skip(i + 1), Seq::empty())));
                }
            } else {
                proof {
                    assert(pre_cur =~= Seq::<u8>::empty());
                }
            }
        } else {
            cur.push(b);
        }
        i = i + 1;
    }
    proof {
        assert(line@.skip(line@.len() as int) =~= Seq::<u8>::empty());
    }
    let ghost pre_done = done@.map_values(|t: Vec<u8>| t@);
    let ghost pre_cur = cur@;
    if cur.len() > 0 {
        done.push(cur);
        proof {
            assert(tokens_acc(Seq::<u8>::empty(), pre_cur) =~= seq![pre_cur]);
            assert(done@.map_values(|t: Vec<u8>| t@) =~= pre_done + seq![pre_cur]);
        }
    } else {
        proof {
            assert(pre_cur =~= Seq::<u8>::empty());
            assert(tokens_acc(Seq::<u8>::empty(), pre_cur) =~= Seq::<Seq<u8>>::empty());
            assert(pre_done + Seq::<Seq<u8>>::empty() =~= pre_done);
        }
    }
    done
}

/// ASCII lower-case letters folded to upper case, all else unchanged.
pub open spec fn upper_of(s: Seq<u8>) -> Seq<u8> {
    Seq::new(
        s.len(),
        |i: int| if 97 <= s[i] <= 122 {
            (s[i] - 32) as u8
        } else {
            s[i]
        },
    )
}

/// Fold ASCII lower-case letters to upper case.
pub fn to_upper(v: &Vec<u8>) -> (r: Vec<u8>)
    ensures
        r@ == upper_of(v@),
{
    let mut r: Vec<u8> = Vec::new();
    let mut i: usize = 0;
    while i < v.len()
        invariant
            i <= v@.len(),
            r@ =~= upper_of(v@).subrange(0, i as int),
        decreases v@.len() - i,
    {
        let b = v[i];
        if 97 <= b && b <= 122 {
            r.push(b - 32);
        } else {
            r.push(b);
        }
        i = i + 1;
    }
    proof {
        assert(r@ =~= upper_of(v@));
    }
    r
}

/// The bytes are at least one decimal digit.
pub open spec fn is_digits(s: Seq<u8>) -> bool {
    s.len() >= 1 && forall|i: int| 0 <= i < s.len() ==> 48 <= #[trigger] s[i] <= 57
}

/// The number the decimal digits spell.
pub open spec fn digits_value(s: Seq<u8>) -> int
    decreases s.len(),
{
    if s.len() == 0 {
        0
    } else {
        digits_value(s.drop_last()) * 10 + (s.last() - 48)
    }
}

/// A digit string's value only grows as digits are appended.
proof fn lemma_digits_prefix_le(s: Seq<u8>, i: int)
    requires
        is_digits(s),
        0 <= i <= s.len(),
    ensures
        digits_value(s.take(i)) <= digits_value(s),
        digits_value(s.take(i)) >= 0,
    decreases s.len() - i,
{
    lemma_digits_nonneg(s.take(i));
    if i < s.len() {
        lemma_digits_prefix_le(s, i + 1);
        assert(s.take(i + 1).drop_last() =~= s.take(i));
        lemma_digits_nonneg(s.take(i));
    } else {
        assert(s.take(i) =~= s);
    }
}

/// Digit strings spell non-negative numbers.
proof fn lemma_digits_nonneg(s: Seq<u8>)
    requires
        forall|i: int| 0 <= i < s.len() ==> 48 <= #[trigger] s[i] <= 57,
    ensures
        digits_value(s) >= 0,
    decreases s.len(),
{
    if s.len() > 0 {
        lemma_digits_nonneg(s.drop_last());
    }
}

/// Parse a decimal token. Fails when the token is empty, holds a non-digit,
/// or spells a number that does not fit in a `u64`.
pub fn parse_u64(tok: &Vec<u8>) -> (r: Result<u64, ModelError>)
    ensures
        match r {
            Ok(n) => is_digits(tok@) && n == digits_value(tok@) && digits_value(tok@)
                <= u64::MAX,
            Err(e) => e == ModelError::BadCount && (!is_digits(tok@) || digits_value(tok@)
                > u64::MAX),
        },
{
    if tok.len() == 0 {
        return Err(ModelError::BadCount);
    }
    let mut n: u64 = 0;
    let mut i: usize = 0;
    while i < tok.len()
        invariant
            i <= tok@.len(),
            tok@.len() >= 1,
            forall|j: int| 0 <= j < i ==> 48 <= #[trigger] tok@[j] <= 57,
            n == digits_value(tok@.take(i as int)),
        decreases tok@.len() - i,
    {
        let b = tok[i];
        if b < 48 || b > 57 {
            return Err(ModelError::BadCount);
        }
        let d: u64 = (b - 48) as u64;
        proof {
            assert(tok@.take(i + 1).drop_last() =~= tok@.take(i as int));
        }
        if n > (u64::MAX - d) / 10 {
            proof {
                if is_digits(tok@) {
                    lemma_digits_prefix_le(tok@, i + 1);
                    assert(digits_value(tok@.take(i + 1)) == n * 10 + d);
                }
            }
            return Err(ModelError::BadCount);
        }
        n = n * 10 + d;
        i = i + 1;
    }
    proof {
        assert(tok@.take(tok@.len() as int) =~= tok@);
    }
    Ok(n)
}

/// 26 to the `n`th power: the number of distinct windows of width `n`.
pub open spec fn pow26(n: nat) -> nat
    decreases n,
{
    if n == 0 {
        1
    } else {
        26 * pow26((n - 1) as nat)
    }
}

/// The window is pure A-Z of exactly the given width.
pub open spec fn valid_window(w: Seq<u8>, width: int) -> bool {
    w.len() == width && all_upper(w)
}

/// The base-26 code of an A-Z window: its row in a dense table.
pub open spec fn code_of(w: Seq<u8>) -> int
    decreases w.len(),
{
    if w.len() == 0 {
        0
    } else {
        code_of(w.drop_last()) * 26 + (w.last() - 65)
    }
}

/// Codes of A-Z windows lie below the table size for their width.
pub proof fn lemma_code_bound(w: Seq<u8>)
    requires
        all_upper(w),
    ensures
        0 <= code_of(w) < pow26(w.len()),
    decreases w.len(),
{
    if w.len() > 0 {
        assert(all_upper(w.drop_last()));
        lemma_code_bound(w.drop_last());
        assert(65 <= w.last() <= 90);
    }
}

/// Table sizes grow with the width.
pub proof fn lemma_pow26_mono(k: nat, m: nat)
    requires
        k <= m,
    ensures
        pow26(k) <= pow26(m),
    decreases m,
{
    if k < m {
        lemma_pow26_mono(k, (m - 1) as nat);
        lemma_pow26_pos((m - 1) as nat);
    }
}

/// Table sizes are positive.
pub proof fn lemma_pow26_pos(n: nat)
    ensures
        pow26(n) >= 1,
    decreases n,
{
    if n > 0 {
        lemma_pow26_pos((n - 1) as nat);
    }
}

/// A per-window score and the smoothing floor lie in the accepted range.
pub open spec fn score_ok(s: i64) -> bool {
    -SCORE_CAP <= s <= 0
}

/// A well-formed dense score table for windows of the given width.
pub open spec fn table_wf(table: Seq<i64>, floor: i64, width: int) -> bool {
    &&& width >= 1
    &&& table.len() == pow26(width as nat)
    &&& forall|c: int| 0 <= c < table.len() ==> score_ok(#[trigger] table[c])
    &&& score_ok(floor)
}

/// The score one window position contributes: the table row of an A-Z
/// window, the floor for anything else.
pub open spec fn win_at(table: Seq<i64>, floor: i64, width: int, text: Seq<u8>, i: int) -> int {
    let w = text.subrange(i, i + width);
    if all_upper(w) {
        table[code_of(w)] as int
    } else {
        floor as int
    }
}

/// How many windows of the given width fit in the text, without wraparound.
pub open spec fn num_windows(text: Seq<u8>, width: int) -> int {
    if text.len() < width {
        0
    } else {
        text.len() - width + 1
    }
}

/// Sum of the contributions of the first `n` window positions.
pub open spec fn score_upto(table: Seq<i64>, floor: i64, width: int, text: Seq<u8>, n: int) -> int
    decreases n,
{
    if n <= 0 {
        0
    } else {
        score_upto(table, floor, width, text, n - 1) + win_at(table, floor, width, text, n - 1)
    }
}

/// The text's score: the summed contributions of all its window positions.
pub open spec fn table_score_spec(table: Seq<i64>, floor: i64, width: int, text: Seq<u8>) -> int {
    score_upto(table, floor, width, text, num_windows(text, width))
}

/// The sum of window contributions when every window scores the floor.
/// This is the smoothed scoring floor: a text none of whose windows the
/// model has seen scores exactly the number of windows times the floor.
pub proof fn lemma_scoring_floor(table: Seq<i64>, floor: i64, width: int, text: Seq<u8>, n: int)
    requires
        0 <= n,
        forall|i: int| 0 <= i < n ==> win_at(table, floor, width, text, i) == floor as int,
    ensures
        score_upto(table, floor, width, text, n) == n * floor,
    decreases n,
{
    if n <= 0 {
        assert(n == 0);
        assert(score_upto(table, floor, width, text, 0) == 0);
    } else {
        lemma_scoring_floor(table, floor, width, text, n - 1);
        assert(score_upto(table, floor, width, text, n) == score_upto(
            table,
            floor,
            width,
            text,
            n - 1,
        ) + win_at(table, floor, width, text, n - 1));
        assert(win_at(table, floor, width, text, n - 1) == floor as int);
        assert(score_upto(table, floor, width, text, n - 1) == (n - 1) * floor);
        assert(n * floor == (n - 1) * floor + floor) by (nonlinear_arith);
    }
}

/// The view of stored entries: each window with its per-window score.
pub open spec fn entries_view(s: Seq<(Vec<u8>, i64)>) -> Seq<(Seq<u8>, i64)> {
    s.map_values(|p: (Vec<u8>, i64)| (p.0@, p.1))
}

/// The first reason to reject the entries, scanning front to back.
pub open spec fn entries_issue(entries: Seq<(Seq<u8>, i64)>, width: int) -> Option<ModelError>
    decreases entries.len(),
{
    if entries.len() == 0 {
        None
    } else if !valid_window(entries.first().0, width) {
        Some(ModelError::BadWindow)
    } else if !score_ok(entries.first().1) {
        Some(ModelError::BadScore)
    } else {
        entries_issue(entries.drop_first(), width)
    }
}

/// The score the table holds for code `c`: the last entry with that code,
/// or the floor when no entry has it.
pub open spec fn lookup_code(entries: Seq<(Seq<u8>, i64)>, width: int, c: int, floor: i64) -> i64
    decreases entries.len(),
{
    if entries.len() == 0 {
        floor
    } else if valid_window(entries.last().0, width) && code_of(entries.last().0) == c {
        entries.last().1
    } else {
        lookup_code(entries.drop_last(), width, c, floor)
    }
}

/// What the table lookup yields is itself a score in range, as long as the
/// entries and the floor are.
proof fn lemma_lookup_code_ok(entries: Seq<(Seq<u8>, i64)>, width: int, c: int, floor: i64)
    requires
        score_ok(floor),
        forall|i: int| 0 <= i < entries.len() ==> score_ok(#[trigger] entries[i].1),
    ensures
        score_ok(lookup_code(entries, width, c, floor)),
    decreases entries.len(),
{
    if entries.len() > 0 {
        if valid_window(entries.last().0, width) && code_of(entries.last().0) == c {
        } else {
            assert(forall|i: int| 0 <= i < entries.drop_last().len() ==> score_ok(
                #[trigger] entries.drop_last()[i].1,
            ));
            lemma_lookup_code_ok(entries.drop_last(), width, c, floor);
        }
    }
}

/// Compute the table row of an A-Z window.
fn window_code(w: &Vec<u8>, table_len: usize) -> (c: usize)
    requires
        all_upper(w@),
        pow26(w@.len() as nat) <= table_len,
    ensures
        c == code_of(w@),
        c < table_len,
{
    proof {
        lemma_code_bound(w@);
    }
    let mut c: usize = 0;
    let mut k: usize = 0;
    while k < w.len()
        invariant
            k <= w@.len(),
            all_upper(w@),
            pow26(w@.len() as nat) <= table_len,
            c == code_of(w@.subrange(0, k as int)),
            c < pow26(k as nat),
        decreases w@.len() - k,
    {
        let b = w[k];
        proof {
            assert(w@.subrange(0, k + 1).drop_last() =~= w@.subrange(0, k as int));
            assert(w@.subrange(0, k + 1).last() == w@[k as int]);
            lemma_pow26_mono((k + 1) as nat, w@.len() as nat);
        }
        c = c * 26 + (b - 65) as usize;
        k = k + 1;
    }
    proof {
        assert(w@.subrange(0, w@.len() as int) =~= w@);
        lemma_pow26_mono(w@.len() as nat, w@.len() as nat);
    }
    c
}

/// Build the dense table: the floor everywhere, overwritten row by row with
/// the given entries, later entries winning.
fn build_table(entries: &Vec<(Vec<u8>, i64)>, floor: i64, width: usize, table_len: usize) -> (r:
    Result<Vec<i64>, ModelError>)
    requires
        width >= 1,
        table_len == pow26(width as nat),
    ensures
        match r {
            Ok(t) => {
                &&& score_ok(floor)
                &&& entries_issue(entries_view(entries@), width as int) is None
                &&& table_wf(t@, floor, width as int)
                &&& forall|c: int| 0 <= c < t@.len() ==> t@[c] == lookup_code(
                    entries_view(entries@),
                    width as int,
                    c,
                    floor,
                )
            },
            Err(e) => {
                ||| (!score_ok(floor) && e == ModelError::BadFloor)
                ||| (score_ok(floor) && entries_issue(entries_view(entries@), width as int)
                    == Some(e))
            },
        },
{
    if floor < -SCORE_CAP || floor > 0 {
        return Err(ModelError::BadFloor);
    }
    // validate every entry first
    let ghost ev = entries_view(entries@);
    let mut i: usize = 0;
    proof {
        assert(ev.skip(0) =~= ev);
    }
    while i < entries.len()
        invariant
            i <= entries@.len(),
            score_ok(floor),
            ev == entries_view(entries@),
            entries_issue(ev, width as int) == entries_issue(ev.skip(i as int), width as int),
        decreases entries@.len() - i,
    {
        proof {
            assert(ev.skip(i as int).first() == ev[i as int]);
            assert(ev.skip(i as int).drop_first() =~= ev.skip(i + 1));
            assert(ev[i as int] == (entries@[i as int].0@, entries@[i as int].1));
        }
        let w = &entries[i].0;
        let s = entries[i].1;
        if w.len() != width {
            proof {
                assert(!valid_window(ev.skip(i as int).first().0, width as int));
                assert(entries_issue(ev.skip(i as int), width as int) == Some(
                    ModelError::BadWindow,
                ));
            }
            return Err(ModelError::BadWindow);
        }
        let mut k: usize = 0;
        while k < w.len()
            invariant
                k <= w@.len(),
                score_ok(floor),
                ev == entries_view(entries@),
                i < entries@.len(),
                w@ == ev[i as int].0,
                w@.len() == width,
                entries_issue(ev, width as int) == entries_issue(ev.skip(i as int), width as int),
                forall|j: int| 0 <= j < k ==> 65 <= #[trigger] w@[j] <= 90,
            decreases w@.len() - k,
        {
            let b = w[k];
            if b < 65 || b > 90 {
                proof {
                    assert(ev.skip(i as int).first() == ev[i as int]);
                    assert(!all_upper(w@));
                    assert(!valid_window(ev.skip(i as int).first().0, width as int));
                    assert(entries_issue(ev.skip(i as int), width as int) == Some(
                        ModelError::BadWindow,
                    ));
                }
                return Err(ModelError::BadWindow);
            }
            k = k + 1;
        }
        assert(all_upper(w@));
        if s < -SCORE_CAP || s > 0 {
            proof {
                assert(!score_ok(ev.skip(i as int).first().1));
                assert(valid_window(ev.skip(i as int).first().0, width as int));
                assert(entries_issue(ev.skip(i as int), width as int) == Some(
                    ModelError::BadScore,
                ));
            }
            return Err(ModelError::BadScore);
        }
        i = i + 1;
    }
    proof {
        assert(ev.skip(ev.len() as int) =~= Seq::<(Seq<u8>, i64)>::empty());
    }
    // fill the table
    let mut t: Vec<i64> = Vec::new();
    let mut c: usize = 0;
    while c < table_len
        invariant
            t@.len() == c,
            c <= table_len,
            forall|d: int| 0 <= d < c ==> t@[d] == floor,
        decreases table_len - c,
    {
        t.push(floor);
        c = c + 1;
    }
    proof {
        assert forall|d: int| 0 <= d < table_len implies t@[d] == lookup_code(
            ev.take(0),
            width as int,
            d,
            floor,
        ) by {
            assert(ev.take(0) =~= Seq::<(Seq<u8>, i64)>::empty());
        }
    }
    let mut i: usize = 0;
    while i < entries.len()
        invariant
            i <= entries@.len(),
            ev == entries_view(entries@),
            entries_issue(ev, width as int) is None,
            width >= 1,
            table_len == pow26(width as nat),
            t@.len() == table_len,
            forall|d: int| 0 <= d < table_len ==> t@[d] == lookup_code(
                ev.take(i as int),
                width as int,
                d,
                floor,
            ),
        decreases entries@.len() - i,
    {
        proof {
            lemma_entries_issue_all(ev, width as int, i as int);
            assert(ev[i as int] == (entries@[i as int].0@, entries@[i as int].1));
        }
        let w = &entries[i].0;
        let s = entries[i].1;
        let code = window_code(w, table_len);
        t[code] = s;
        proof {
            assert forall|d: int| 0 <= d < table_len implies t@[d] == lookup_code(
                ev.take(i + 1),
                width as int,
                d,
                floor,
            ) by {
                assert(ev.take(i + 1).drop_last() =~= ev.take(i as int));
                assert(ev.take(i + 1).last() == ev[i as int]);
            }
        }
        i = i + 1;
    }
    proof {
        assert(ev.take(ev.len() as int) =~= ev);
        assert forall|i2: int| 0 <= i2 < ev.len() implies score_ok(#[trigger] ev[i2].1) by {
            lemma_entries_issue_all(ev, width as int, i2);
        }
        assert forall|d: int| 0 <= d < t@.len() implies score_ok(#[trigger] t@[d]) by {
            lemma_lookup_code_ok(ev, width as int, d, floor);
        }
    }
    Ok(t)
}

/// Entries that pass the scan are valid at every index.
proof fn lemma_entries_issue_all(entries: Seq<(Seq<u8>, i64)>, width: int, i: int)
    requires
        entries_issue(entries, width) is None,
        0 <= i < entries.len(),
    ensures
        valid_window(entries[i].0, width),
        score_ok(entries[i].1),
    decreases i,
{
    if i == 0 {
    } else {
        assert(entries.drop_first()[i - 1] == entries[i]);
        lemma_entries_issue_all(entries.drop_first(), width, i - 1);
    }
}

/// Sum the per-window scores of a text against a dense table.
fn table_score(table: &Vec<i64>, floor: i64, width: usize, text: &Vec<u8>) -> (r: i64)
    requires
        table_wf(table@, floor, width as int),
        text@.len() <= MAX_TEXT_LEN,
    ensures
        r == table_score_spec(table@, floor, width as int, text@),
        -(num_windows(text@, width as int) * SCORE_CAP) <= r <= 0,
{
    let n = text.len();
    if n < width {
        return 0;
    }
    let windows = n - width + 1;
    let mut r: i64 = 0;
    let mut s: usize = 0;
    while s < windows
        invariant
            windows == num_windows(text@, width as int),
            s <= windows,
            windows + width - 1 == text@.len(),
            text@.len() <= MAX_TEXT_LEN,
            width >= 1,
            table_wf(table@, floor, width as int),
            r == score_upto(table@, floor, width as int, text@, s as int),
            -(s * SCORE_CAP) <= r <= 0,
        decreases windows - s,
    {
        let ghost w = text@.subrange(s as int, s as int + width);
        let tl = table.len();
        let mut ok: bool = true;
        let mut code: usize = 0;
        let mut k: usize = 0;
        while k < width
            invariant
                k <= width,
                s + width <= text@.len(),
                text@.len() <= MAX_TEXT_LEN,
                width >= 1,
                table_wf(table@, floor, width as int),
                tl == table@.len(),
                w == text@.subrange(s as int, s as int + width),
                ok ==> (forall|j: int| 0 <= j < k ==> 65 <= #[trigger] w[j] <= 90),
                ok ==> code == code_of(w.subrange(0, k as int)) && code < pow26(k as nat),
                !ok ==> !all_upper(w),
            decreases width - k,
        {
            let b = text[s + k];
            proof {
                assert(w[k as int] == text@[s + k]);
            }
            if ok {
                if b < 65 || b > 90 {
                    ok = false;
                } else {
                    proof {
                        assert(w.subrange(0, k + 1).drop_last() =~= w.subrange(0, k as int));
                        assert(w.subrange(0, k + 1).last() == w[k as int]);
                        lemma_pow26_mono((k + 1) as nat, width as nat);
                        assert(code * 26 + (b - 65) < pow26((k + 1) as nat));
                    }
                    code = code * 26 + (b - 65) as usize;
                }
            }
            k = k + 1;
        }
        let contribution: i64;
        if ok {
            proof {
                assert(w.subrange(0, width as int) =~= w);
                assert(all_upper(w));
                assert(score_ok(table@[code as int]));
            }
            contribution = table[code];
        } else {
            contribution = floor;
        }
        proof {
            assert(win_at(table@, floor, width as int, text@, s as int) == contribution as int);
            assert((s + 1) * SCORE_CAP == s * SCORE_CAP + SCORE_CAP) by (nonlinear_arith);
        }
        r = r + contribution;
        s = s + 1;
    }
    r
}

/// The table sizes are the powers the widths demand.
proof fn lemma_table_lens()
    ensures
        pow26(NGRAM_LEN as nat) == TABLE4_LEN,
        pow26(NGRAM2_LEN as nat) == TABLE2_LEN,
{
    assert(pow26(0) == 1);
    assert(pow26(1) == 26);
    assert(pow26(2) == 676);
    assert(pow26(3) == 17576);
    assert(pow26(4) == 456976);
}

/// What one model line means: a window of the configured width and a count.
/// Exactly two whitespace-separated tokens; the first is case-folded and must
/// be pure A-Z of the right width; the second must be an unsigned integer.
pub open spec fn line_spec(line: Seq<u8>, width: int) -> Result<(Seq<u8>, int), ModelError> {
    let toks = spec_tokens(line);
    if toks.len() != 2 {
        Err(ModelError::WrongTokenCount)
    } else if !valid_window(upper_of(toks[0]), width) {
        Err(ModelError::BadWindow)
    } else if !is_digits(toks[1]) || digits_value(toks[1]) > u64::MAX {
        Err(ModelError::BadCount)
    } else {
        Ok((upper_of(toks[0]), digits_value(toks[1])))
    }
}

/// What a whole model corpus means: the parsed windows with their counts and
/// the accumulated total, or the first line's problem.
pub open spec fn lines_spec(lines: Seq<Seq<u8>>, width: int) -> Result<
    (Seq<(Seq<u8>, int)>, int),
    ModelError,
>
    decreases lines.len(),
{
    if lines.len() == 0 {
        Ok((Seq::empty(), 0))
    } else {
        match lines_spec(lines.drop_last(), width) {
            Err(e) => Err(e),
            Ok((es, tot)) => match line_spec(lines.last(), width) {
                Err(e) => Err(e),
                Ok((w, n)) => if tot + n > u64::MAX {
                    Err(ModelError::BadTotal)
                } else {
                    Ok((es.push((w, n)), tot + n))
                },
            },
        }
    }
}

/// An ill-formed line anywhere in a prefix settles the whole corpus.
proof fn lemma_lines_spec_err(lines: Seq<Seq<u8>>, width: int, n: int)
    requires
        0 <= n <= lines.len(),
        lines_spec(lines.take(n), width) is Err,
    ensures
        lines_spec(lines, width) == lines_spec(lines.take(n), width),
    decreases lines.len() - n,
{
    if n < lines.len() {
        assert(lines.take(n + 1).drop_last() =~= lines.take(n));
        assert(lines_spec(lines.take(n + 1), width) == lines_spec(lines.take(n), width));
        lemma_lines_spec_err(lines, width, n + 1);
    } else {
        assert(lines.take(n) =~= lines);
    }
}

/// The view of parsed entries: each window with its count.
pub open spec fn counts_view(s: Seq<(Vec<u8>, u64)>) -> Seq<(Seq<u8>, int)> {
    s.map_values(|p: (Vec<u8>, u64)| (p.0@, p.1 as int))
}

/// Parse the lines of an n-gram corpus: per line a window of width `width`
/// and its observed count, accumulating the total count. Stops at the first
/// ill-formed line.
pub fn parse_model_lines(lines: &Vec<Vec<u8>>, width: usize) -> (r: Result<
    (Vec<(Vec<u8>, u64)>, u64),
    ModelError,
>)
    ensures
        match r {
            Ok((es, tot)) => lines_spec(lines@.map_values(|l: Vec<u8>| l@), width as int) == Ok::<
                _,
                ModelError,
            >((counts_view(es@), tot as int)),
            Err(e) => lines_spec(lines@.map_values(|l: Vec<u8>| l@), width as int) == Err::<
                (Seq<(Seq<u8>, int)>, int),
                _,
            >(e),
        },
{
    let ghost lv = lines@.map_values(|l: Vec<u8>| l@);
    let mut es: Vec<(Vec<u8>, u64)> = Vec::new();
    let mut tot: u64 = 0;
    let mut i: usize = 0;
    proof {
        assert(lv.take(0) =~= Seq::<Seq<u8>>::empty());
        assert(counts_view(es@) =~= Seq::<(Seq<u8>, int)>::empty());
    }
    while i < lines.len()
        invariant
            i <= lines@.len(),
            lv == lines@.map_values(|l: Vec<u8>| l@),
            lines_spec(lv.take(i as int), width as int) == Ok::<_, ModelError>(
                (counts_view(es@), tot as int),
            ),
        decreases lines@.len() - i,
    {
        proof {
            assert(lv.take(i + 1).drop_last() =~= lv.take(i as int));
            assert(lv.take(i + 1).last() == lv[i as int]);
            assert(lv[i as int] == lines@[i as int]@);
        }
        let toks = tokenize(&lines[i]);
        let ghost tv = toks@.map_values(|t: Vec<u8>| t@);
        if toks.len() != 2 {
            proof {
                assert(tv.len() != 2);
                assert(line_spec(lv[i as int], width as int) == Err::<(Seq<u8>, int), _>(
                    ModelError::WrongTokenCount,
                ));
                lemma_lines_spec_err(lv, width as int, i + 1);
            }
            return Err(ModelError::WrongTokenCount);
        }
        let w = to_upper(&toks[0]);
        proof {
            assert(tv[0] == toks@[0]@);
            assert(tv[1] == toks@[1]@);
        }
        if w.len() != width {
            proof {
                assert(!valid_window(upper_of(tv[0]), width as int));
                lemma_lines_spec_err(lv, width as int, i + 1);
            }
            return Err(ModelError::BadWindow);
        }
        let mut k: usize = 0;
        while k < w.len()
            invariant
                k <= w@.len(),
                i < lines@.len(),
                lv == lines@.map_values(|l: Vec<u8>| l@),
                lines_spec(lv.take(i as int), width as int) is Ok,
                lv.take(i + 1).drop_last() =~= lv.take(i as int),
                lv.take(i + 1).last() == lv[i as int],
                w@ == upper_of(tv[0]),
                tv == spec_tokens(lv[i as int]),
                tv.len() == 2,
                w@.len() == width,
                forall|j: int| 0 <= j < k ==> 65 <= #[trigger] w@[j] <= 90,
            decreases w@.len() - k,
        {
            let b = w[k];
            if b < 65 || b > 90 {
                proof {
                    assert(!all_upper(w@));
                    assert(!valid_window(upper_of(tv[0]), width as int));
                    assert(line_spec(lv[i as int], width as int) == Err::<(Seq<u8>, int), _>(
                        ModelError::BadWindow,
                    ));
                    lemma_lines_spec_err(lv, width as int, i + 1);
                }
                return Err(ModelError::BadWindow);
            }
            k = k + 1;
        }
        proof {
            assert(all_upper(w@));
        }
        let n = match parse_u64(&toks[1]) {
            Ok(n) => n,
            Err(e) => {
                proof {
                    assert(valid_window(upper_of(tv[0]), width as int));
                    assert(line_spec(lv[i as int], width as int) == Err::<(Seq<u8>, int), _>(
                        ModelError::BadCount,
                    ));
                    lemma_lines_spec_err(lv, width as int, i + 1);
                }
                return Err(e);
            },
        };
        if n > u64::MAX - tot {
            proof {
                assert(line_spec(lv[i as int], width as int) == Ok::<_, ModelError>(
                    (w@, n as int),
                ));
                assert(lines_spec(lv.take(i + 1), width as int) == Err::<
                    (Seq<(Seq<u8>, int)>, int),
                    _,
                >(ModelError::BadTotal));
                lemma_lines_spec_err(lv, width as int, i + 1);
            }
            return Err(ModelError::BadTotal);
        }
        let ghost pre_counts = counts_view(es@);
        tot = tot + n;
        es.push((w, n));
        proof {
            assert(counts_view(es@) =~= pre_counts.push((w@, n as int)));
        }
        i = i + 1;
    }
    proof {
        assert(lv.take(lv.len() as int) =~= lv);
    }
    Ok((es, tot))
}

/// The primary n-gram model: per 4-letter window its non-positive
/// log-likelihood score in micro-log10 units, a smoothed floor for windows
/// never observed, and the total observed count.
#[derive(Debug)]
pub struct NgramScore4 {
    /// Dense table: per window code its score.
    pub table: Vec<i64>,
    /// Score of a window the model has not seen.
    pub floor: i64,
    /// Total observed count across all entries.
    pub total: u64,
}

impl NgramScore4 {
    /// The model's invariant.
    pub open spec fn wf(&self) -> bool {
        &&& table_wf(self.table@, self.floor, NGRAM_LEN as int)
        &&& self.total >= 1
    }

    /// The score the model assigns to one window.
    pub open spec fn window_value(&self, w: Seq<u8>) -> int {
        if valid_window(w, NGRAM_LEN as int) {
            self.table@[code_of(w)] as int
        } else {
            self.floor as int
        }
    }

    /// The score of a text: its windows' values, summed.
    pub open spec fn score_spec(&self, text: Seq<u8>) -> int {
        table_score_spec(self.table@, self.floor, NGRAM_LEN as int, text)
    }

    /// Build the model from per-window scores, a floor, and the total count.
    /// Every window must be pure A-Z of width 4, and every score and the
    /// floor must be non-positive and within the accepted magnitude; the
    /// total must be positive. A window given twice keeps its last score.
    pub fn create(entries: &Vec<(Vec<u8>, i64)>, floor: i64, total: u64) -> (r: Result<
        NgramScore4,
        ModelError,
    >)
        ensures
            match r {
                Ok(m) => {
                    &&& total >= 1
                    &&& score_ok(floor)
                    &&& entries_issue(entries_view(entries@), NGRAM_LEN as int) is None
                    &&& m.wf()
                    &&& m.floor == floor
                    &&& m.total == total
                    &&& forall|w: Seq<u8>|
                        valid_window(w, NGRAM_LEN as int) ==> #[trigger] m.window_value(w)
                            == lookup_code(
                            entries_view(entries@),
                            NGRAM_LEN as int,
                            code_of(w),
                            floor,
                        )
                },
                Err(e) => {
                    ||| (total == 0 && e == ModelError::BadTotal)
                    ||| (total >= 1 && !score_ok(floor) && e == ModelError::BadFloor)
                    ||| (total >= 1 && score_ok(floor) && entries_issue(
                        entries_view(entries@),
                        NGRAM_LEN as int,
                    ) == Some(e))
                },
            },
    {
        proof {
            lemma_table_lens();
        }
        if total == 0 {
            return Err(ModelError::BadTotal);
        }
        match build_table(entries, floor, NGRAM_LEN, TABLE4_LEN) {
            Ok(t) => {
                let m = NgramScore4 { table: t, floor, total };
                proof {
                    assert forall|w: Seq<u8>| valid_window(w, NGRAM_LEN as int) implies #[trigger] m
                        .window_value(w) == lookup_code(
                        entries_view(entries@),
                        NGRAM_LEN as int,
                        code_of(w),
                        floor,
                    ) by {
                        lemma_code_bound(w);
                    }
                }
                Ok(m)
            },
            Err(e) => Err(e),
        }
    }

    /// Slide a width-4 window across the text and sum the scores of each
    /// window, the floor standing in for windows outside the model.
    pub fn score(&self, text: &Vec<u8>) -> (r: i64)
        requires
            self.wf(),
            text@.len() <= MAX_TEXT_LEN,
        ensures
            r == self.score_spec(text@),
            -(num_windows(text@, NGRAM_LEN as int) * SCORE_CAP) <= r <= 0,
    {
        table_score(&self.table, self.floor, NGRAM_LEN, text)
    }

    /// The scoring floor: a text none of whose windows the model values
    /// above the floor scores exactly its window count times the floor.
    pub proof fn lemma_floor_score(&self, text: Seq<u8>)
        requires
            self.wf(),
            forall|i: int| 0 <= i < num_windows(text, NGRAM_LEN as int)
                ==> self.window_value(#[trigger] text.subrange(i, i + NGRAM_LEN as int))
                == self.floor as int,
        ensures
            self.score_spec(text) == num_windows(text, NGRAM_LEN as int) * self.floor,
    {
        let width = NGRAM_LEN as int;
        let n = num_windows(text, width);
        assert forall|i: int| 0 <= i < n implies win_at(self.table@, self.floor, width, text, i)
            == self.floor as int by {
            assert(text.subrange(i, i + width).len() == width);
            assert(self.window_value(text.subrange(i, i + width)) == self.floor as int);
        }
        lemma_scoring_floor(self.table@, self.floor, width, text, n);
    }
}

/// The secondary n-gram model, over 2-letter windows; reserved, built and
/// scored exactly as the primary model is.
#[derive(Debug)]
pub struct NgramScore2 {
    /// Dense table: per window code its score.
    pub table: Vec<i64>,
    /// Score of a window the model has not seen.
    pub floor: i64,
    /// Total observed count across all entries.
    pub total: u64,
}

impl NgramScore2 {
    /// The model's invariant.
    pub open spec fn wf(&self) -> bool {
        &&& table_wf(self.table@, self.floor, NGRAM2_LEN as int)
        &&& self.total >= 1
    }

    /// The score the model assigns to one window.
    pub open spec fn window_value(&self, w: Seq<u8>) -> int {
        if valid_window(w, NGRAM2_LEN as int) {
            self.table@[code_of(w)] as int
        } else {
            self.floor as int
        }
    }

    /// The score of a text: its windows' values, summed.
    pub open spec fn score_spec(&self, text: Seq<u8>) -> int {
        table_score_spec(self.table@, self.floor, NGRAM2_LEN as int, text)
    }

    /// Build the model from per-window scores, as the primary model is built.
    pub fn create(entries: &Vec<(Vec<u8>, i64)>, floor: i64, total: u64) -> (r: Result<
        NgramScore2,
        ModelError,
    >)
        ensures
            match r {
                Ok(m) => {
                    &&& total >= 1
                    &&& score_ok(floor)
                    &&& entries_issue(entries_view(entries@), NGRAM2_LEN as int) is None
                    &&& m.wf()
                    &&& m.floor == floor
                    &&& m.total == total
                    &&& forall|w: Seq<u8>|
                        valid_window(w, NGRAM2_LEN as int) ==> #[trigger] m.window_value(w)
                            == lookup_code(
                            entries_view(entries@),
                            NGRAM2_LEN as int,
                            code_of(w),
                            floor,
                        )
                },
                Err(e) => {
                    ||| (total == 0 && e == ModelError::BadTotal)
                    ||| (total >= 1 && !score_ok(floor) && e == ModelError::BadFloor)
                    ||| (total >= 1 && score_ok(floor) && entries_issue(
                        entries_view(entries@),
                        NGRAM2_LEN as int,
                    ) == Some(e))
                },
            },
    {
        proof {
            lemma_table_lens();
        }
        if total == 0 {
            return Err(ModelError::BadTotal);
        }
        match build_table(entries, floor, NGRAM2_LEN, TABLE2_LEN) {
            Ok(t) => {
                let m = NgramScore2 { table: t, floor, total };
                proof {
                    assert forall|w: Seq<u8>| valid_window(w, NGRAM2_LEN as int) implies #[trigger] m
                        .window_value(w) == lookup_code(
                        entries_view(entries@),
                        NGRAM2_LEN as int,
                        code_of(w),
                        floor,
                    ) by {
                        lemma_code_bound(w);
                    }
                }
                Ok(m)
            },
            Err(e) => Err(e),
        }
    }

    /// Slide a width-2 window across the text and sum the scores.
    pub fn score(&self, text: &Vec<u8>) -> (r: i64)
        requires
            self.wf(),
            text@.len() <= MAX_TEXT_LEN,
        ensures
            r == self.score_spec(text@),
            -(num_windows(text@, NGRAM2_LEN as int) * SCORE_CAP) <= r <= 0,
    {
        table_score(&self.table, self.floor, NGRAM2_LEN, text)
    }
}

/// A dictionary coverage fraction: explained characters over text length,
/// an exact rational in [0, 1].
#[derive(Clone, Copy, Debug, PartialEq, Eq, Structural)]
pub struct Coverage {
    /// Characters explained by dictionary words.
    pub num: usize,
    /// Text length (one for the empty text, so the fraction is defined).
    pub den: usize,
}

/// What one dictionary line means: exactly one token, pure A-Z once
/// case-folded; words shorter than two letters are dropped silently.
pub open spec fn wl_line_spec(line: Seq<u8>) -> Result<Option<Seq<u8>>, ModelError> {
    let toks = spec_tokens(line);
    if toks.len() != 1 {
        Err(ModelError::WrongTokenCount)
    } else if !all_upper(upper_of(toks[0])) {
        Err(ModelError::BadWord)
    } else if upper_of(toks[0]).len() >= 2 {
        Ok(Some(upper_of(toks[0])))
    } else {
        Ok(None)
    }
}

/// What a whole dictionary means: the retained words in order, or the first
/// line's problem.
pub open spec fn wl_lines_spec(lines: Seq<Seq<u8>>) -> Result<Seq<Seq<u8>>, ModelError>
    decreases lines.len(),
{
    if lines.len() == 0 {
        Ok(Seq::empty())
    } else {
        match wl_lines_spec(lines.drop_last()) {
            Err(e) => Err(e),
            Ok(ws) => match wl_line_spec(lines.last()) {
                Err(e) => Err(e),
                Ok(Some(w)) => Ok(ws.push(w)),
                Ok(None) => Ok(ws),
            },
        }
    }
}

/// An ill-formed line anywhere in a prefix settles the whole dictionary.
proof fn lemma_wl_lines_spec_err(lines: Seq<Seq<u8>>, n: int)
    requires
        0 <= n <= lines.len(),
        wl_lines_spec(lines.take(n)) is Err,
    ensures
        wl_lines_spec(lines) == wl_lines_spec(lines.take(n)),
    decreases lines.len() - n,
{
    if n < lines.len() {
        assert(lines.take(n + 1).drop_last() =~= lines.take(n));
        assert(wl_lines_spec(lines.take(n + 1)) == wl_lines_spec(lines.take(n)));
        lemma_wl_lines_spec_err(lines, n + 1);
    } else {
        assert(lines.take(n) =~= lines);
    }
}

/// The length of the shortest dictionary match at `start`, trying lengths
/// from `l` up to `lmax`; zero when nothing matches.
pub open spec fn match_len_from(
    words: Seq<Seq<u8>>,
    text: Seq<u8>,
    start: int,
    l: int,
    lmax: int,
) -> int
    decreases lmax + 1 - l,
{
    if l > lmax || l < 0 {
        0
    } else if words.contains(text.subrange(start, start + l)) {
        l
    } else {
        match_len_from(words, text, start, l + 1, lmax)
    }
}

/// The match length is zero or lies between the first tried length and the
/// bound.
pub proof fn lemma_match_len_range(
    words: Seq<Seq<u8>>,
    text: Seq<u8>,
    start: int,
    l: int,
    lmax: int,
)
    ensures
        match_len_from(words, text, start, l, lmax) == 0 || (l <= match_len_from(
            words,
            text,
            start,
            l,
            lmax,
        ) <= lmax),
    decreases lmax + 1 - l,
{
    if l > lmax || l < 0 {
    } else if words.contains(text.subrange(start, start + l)) {
    } else {
        lemma_match_len_range(words, text, start, l + 1, lmax);
    }
}

/// Characters explained from `start` onward by the left-to-right greedy,
/// shortest-match-wins segmentation: at each position the shortest
/// dictionary match no longer than the remaining text is credited and
/// skipped; otherwise the scan advances one character.
pub open spec fn cov_num(words: Seq<Seq<u8>>, max_len: int, text: Seq<u8>, start: int) -> int
    decreases text.len() - start,
    when 0 <= start
    via cov_num_decreases
{
    if start >= text.len() {
        0
    } else {
        let lmax = if max_len < text.len() - start {
            max_len
        } else {
            text.len() - start
        };
        let m = match_len_from(words, text, start, 2, lmax);
        if m <= 0 {
            cov_num(words, max_len, text, start + 1)
        } else {
            m + cov_num(words, max_len, text, start + m)
        }
    }
}

#[via_fn]
proof fn cov_num_decreases(words: Seq<Seq<u8>>, max_len: int, text: Seq<u8>, start: int) {
    if start < text.len() {
        let lmax = if max_len < text.len() - start {
            max_len
        } else {
            text.len() - start
        };
        lemma_match_len_range(words, text, start, 2, lmax);
    }
}

/// The greedy segmentation never credits more characters than remain.
pub proof fn lemma_cov_num_le(words: Seq<Seq<u8>>, max_len: int, text: Seq<u8>, start: int)
    requires
        0 <= start,
    ensures
        0 <= cov_num(words, max_len, text, start) <= if text.len() - start >= 0 {
            text.len() - start
        } else {
            0
        },
    decreases text.len() - start,
{
    if start < text.len() {
        let lmax = if max_len < text.len() - start {
            max_len
        } else {
            text.len() - start
        };
        let m = match_len_from(words, text, start, 2, lmax);
        lemma_match_len_range(words, text, start, 2, lmax);
        if m <= 0 {
            lemma_cov_num_le(words, max_len, text, start + 1);
        } else {
            lemma_cov_num_le(words, max_len, text, start + m);
        }
    }
}

/// The dictionary-coverage model: the retained uppercase words and the
/// length of the longest of them.
#[derive(Debug)]
pub struct WordListScore {
    /// The dictionary words, each at least two letters of A-Z.
    pub words: Vec<Vec<u8>>,
    /// Length of the longest retained word.
    pub max_len: usize,
}

impl WordListScore {
    /// The words as sequences.
    pub open spec fn words_view(&self) -> Seq<Seq<u8>> {
        self.words@.map_values(|w: Vec<u8>| w@)
    }

    /// The model's invariant.
    pub open spec fn wf(&self) -> bool {
        forall|i: int| 0 <= i < self.words@.len() ==> (2 <= #[trigger] self.words@[i]@.len()
            <= self.max_len && all_upper(self.words@[i]@))
    }

    /// Build the dictionary from its lines: one word per line, case-folded,
    /// pure A-Z; words shorter than two letters are dropped. Fails on any
    /// other character, on a line without exactly one token, and when no
    /// word at all is retained.
    pub fn create(lines: &Vec<Vec<u8>>) -> (r: Result<WordListScore, ModelError>)
        ensures
            match r {
                Ok(m) => {
                    &&& wl_lines_spec(lines@.map_values(|l: Vec<u8>| l@)) == Ok::<_, ModelError>(
                        m.words_view(),
                    )
                    &&& m.words_view().len() >= 1
                    &&& m.wf()
                    &&& forall|i: int| 0 <= i < m.words_view().len() ==> #[trigger] m.words_view()[
                        i].len() <= m.max_len
                    &&& exists|i: int| 0 <= i < m.words_view().len() && #[trigger] m.words_view()[
                        i].len() == m.max_len
                },
                Err(e) => {
                    ||| wl_lines_spec(lines@.map_values(|l: Vec<u8>| l@)) == Err::<Seq<Seq<u8>>, _>(
                        e,
                    )
                    ||| (wl_lines_spec(lines@.map_values(|l: Vec<u8>| l@)) matches Ok(ws)
                        && ws.len() == 0 && e == ModelError::EmptyWordList)
                },
            },
    {
        let ghost lv = lines@.map_values(|l: Vec<u8>| l@);
        let mut words: Vec<Vec<u8>> = Vec::new();
        let mut max_len: usize = 0;
        let mut i: usize = 0;
        proof {
            assert(lv.take(0) =~= Seq::<Seq<u8>>::empty());
            assert(words@.map_values(|w: Vec<u8>| w@) =~= Seq::<Seq<u8>>::empty());
        }
        while i < lines.len()
            invariant
                i <= lines@.len(),
                lv == lines@.map_values(|l: Vec<u8>| l@),
                wl_lines_spec(lv.take(i as int)) == Ok::<_, ModelError>(
                    words@.map_values(|w: Vec<u8>| w@),
                ),
                forall|j: int| 0 <= j < words@.len() ==> (2 <= #[trigger] words@[j]@.len()
                    <= max_len && all_upper(words@[j]@)),
                words@.len() == 0 ==> max_len == 0,
                words@.len() >= 1 ==> exists|j: int| 0 <= j < words@.len()
                    && #[trigger] words@[j]@.len() == max_len,
            decreases lines@.len() - i,
        {
            proof {
                assert(lv.take(i + 1).drop_last() =~= lv.take(i as int));
                assert(lv.take(i + 1).last() == lv[i as int]);
                assert(lv[i as int] == lines@[i as int]@);
            }
            let toks = tokenize(&lines[i]);
            let ghost tv = toks@.map_values(|t: Vec<u8>| t@);
            if toks.len() != 1 {
                proof {
                    assert(tv.len() != 1);
                    lemma_wl_lines_spec_err(lv, i + 1);
                }
                return Err(ModelError::WrongTokenCount);
            }
            let w = to_upper(&toks[0]);
            proof {
                assert(tv[0] == toks@[0]@);
            }
            let mut k: usize = 0;
            while k < w.len()
                invariant
                    k <= w@.len(),
                    i < lines@.len(),
                    lv == lines@.map_values(|l: Vec<u8>| l@),
                    wl_lines_spec(lv.take(i as int)) is Ok,
                    lv.take(i + 1).drop_last() =~= lv.take(i as int),
                    lv.take(i + 1).last() == lv[i as int],
                    tv == spec_tokens(lv[i as int]),
                    tv.len() == 1,
                    w@ == upper_of(tv[0]),
                    forall|j: int| 0 <= j < k ==> 65 <= #[trigger] w@[j] <= 90,
                decreases w@.len() - k,
            {
                let b = w[k];
                if b < 65 || b > 90 {
                    proof {
                        assert(!all_upper(w@));
                        assert(wl_line_spec(lv[i as int]) == Err::<Option<Seq<u8>>, _>(
                            ModelError::BadWord,
                        ));
                        lemma_wl_lines_spec_err(lv, i + 1);
                    }
                    return Err(ModelError::BadWord);
                }
                k = k + 1;
            }
            proof {
                assert(all_upper(w@));
            }
            if w.len() >= 2 {
                let ghost pre_words = words@.map_values(|w2: Vec<u8>| w2@);
                let ghost pre_raw = words@;
                let ghost pre_max = max_len;
                let wlen = w.len();
                if wlen > max_len {
                    max_len = wlen;
                }
                words.push(w);
                proof {
                    assert(words@.map_values(|w2: Vec<u8>| w2@) =~= pre_words.push(
                        upper_of(tv[0]),
                    ));
                    assert(words@[words@.len() - 1]@.len() == wlen);
                    if wlen == max_len {
                        assert(exists|j: int| 0 <= j < words@.len() && #[trigger] words@[j]@.len()
                            == max_len);
                    } else {
                        let j = choose|j: int| 0 <= j < pre_raw.len() && #[trigger] pre_raw[
                        j]@.len() == pre_max;
                        assert(words@[j]@.len() == max_len);
                    }
                }
            }
            i = i + 1;
        }
        proof {
            assert(lv.take(lv.len() as int) =~= lv);
        }
        if words.len() == 0 {
            return Err(ModelError::EmptyWordList);
        }
        let m = WordListScore { words, max_len };
        proof {
            assert forall|i: int| 0 <= i < m.words_view().len() implies #[trigger] m.words_view()[
            i] == m.words@[i]@ by {
            }
            let j = choose|j: int| 0 <= j < m.words@.len() && #[trigger] m.words@[j]@.len()
                == m.max_len;
            assert(m.words_view()[j].len() == m.max_len);
        }
        Ok(m)
    }

    /// Left-to-right greedy segmentation: credit the shortest dictionary
    /// match at each position and skip past it, else advance one character.
    /// Returns the explained-character count over the text length.
    pub fn coverage(&self, text: &Vec<u8>) -> (r: Coverage)
        requires
            text@.len() <= MAX_TEXT_LEN,
        ensures
            r.num == cov_num(self.words_view(), self.max_len as int, text@, 0),
            r.den == if text@.len() == 0 {
                1int
            } else {
                text@.len() as int
            },
            r.num <= r.den,
    {
        let ghost wv = self.words_view();
        let n = text.len();
        let mut start: usize = 0;
        let mut explained: usize = 0;
        while start < n
            invariant
                n == text@.len(),
                n <= MAX_TEXT_LEN,
                start <= n,
                explained <= start,
                wv == self.words_view(),
                cov_num(wv, self.max_len as int, text@, 0) == explained + cov_num(
                    wv,
                    self.max_len as int,
                    text@,
                    start as int,
                ),
            decreases n - start,
        {
            let lmax: usize = if self.max_len < n - start {
                self.max_len
            } else {
                n - start
            };
            let mut m: usize = 0;
            let mut l: usize = 2;
            if lmax < 2 {
                proof {
                    assert(match_len_from(wv, text@, start as int, 2, lmax as int) == 0);
                }
            }
            while l <= lmax && m == 0
                invariant
                    2 <= l <= if lmax < 2 { 2int } else { lmax + 1 },
                    lmax <= n - start,
                    start < n,
                    n == text@.len(),
                    n <= MAX_TEXT_LEN,
                    wv == self.words_view(),
                    m == 0 ==> match_len_from(wv, text@, start as int, 2, lmax as int)
                        == match_len_from(wv, text@, start as int, l as int, lmax as int),
                    m != 0 ==> m == match_len_from(wv, text@, start as int, 2, lmax as int) && 2
                        <= m <= lmax,
                decreases lmax + 1 - l,
            {
                if contains_word(&self.words, text, start, l) {
                    proof {
                        assert(match_len_from(wv, text@, start as int, l as int, lmax as int)
                            == l as int);
                    }
                    m = l;
                } else {
                    proof {
                        assert(match_len_from(wv, text@, start as int, l as int, lmax as int)
                            == match_len_from(wv, text@, start as int, l + 1, lmax as int));
                    }
                }
                l = l + 1;
            }
            proof {
                if m == 0 {
                    assert(match_len_from(wv, text@, start as int, l as int, lmax as int) == 0);
                }
                lemma_cov_num_le(wv, self.max_len as int, text@, start as int);
            }
            if m == 0 {
                start = start + 1;
            } else {
                explained = explained + m;
                start = start + m;
            }
        }
        proof {
            assert(cov_num(wv, self.max_len as int, text@, start as int) == 0);
        }
        let den: usize = if n == 0 {
            1
        } else {
            n
        };
        Coverage { num: explained, den }
    }
}

/// Whether the dictionary holds the text's slice of length `l` at `start`.
fn contains_word(words: &Vec<Vec<u8>>, text: &Vec<u8>, start: usize, l: usize) -> (b: bool)
    requires
        start + l <= text@.len(),
        text@.len() <= MAX_TEXT_LEN,
    ensures
        b == words@.map_values(|w: Vec<u8>| w@).contains(
            text@.subrange(start as int, start as int + l),
        ),
{
    let ghost wv = words@.map_values(|w: Vec<u8>| w@);
    let ghost target = text@.subrange(start as int, start as int + l);
    let mut i: usize = 0;
    while i < words.len()
        invariant
            i <= words@.len(),
            start + l <= text@.len(),
            text@.len() <= MAX_TEXT_LEN,
            wv == words@.map_values(|w: Vec<u8>| w@),
            target == text@.subrange(start as int, start as int + l),
            forall|j: int| 0 <= j < i ==> wv[j] != target,
        decreases words@.len() - i,
    {
        let w = &words[i];
        proof {
            assert(wv[i as int] == words@[i as int]@);
        }
        if w.len() == l {
            let mut k: usize = 0;
            let mut same: bool = true;
            while k < l
                invariant
                    k <= l,
                    i < words@.len(),
                    start + l <= text@.len(),
                    text@.len() <= MAX_TEXT_LEN,
                    w@ == wv[i as int],
                    w@.len() == l,
                    target == text@.subrange(start as int, start as int + l),
                    same ==> (forall|j: int| 0 <= j < k ==> w@[j] == #[trigger] target[j]),
                    !same ==> w@ != target,
                decreases l - k,
            {
                proof {
                    assert(target[k as int] == text@[start + k]);
                }
                if w[k] != text[start + k] {
                    proof {
                        assert(w@[k as int] != target[k as int]);
                    }
                    same = false;
                }
                k = k + 1;
            }
            if same {
                proof {
                    assert(w@ =~= target);
                }
                return true;
            }
        }
        i = i + 1;
    }
    false
}

/// The text splits, left to right, into dictionary words with no
/// shorter-word ambiguity at any boundary: each segment is a word the
/// dictionary holds, no longer than the longest word, standing at its
/// boundary in the text, and no strictly shorter dictionary word matches
/// at that boundary.
pub open spec fn clean_concat(
    words: Seq<Seq<u8>>,
    max_len: int,
    segs: Seq<Seq<u8>>,
    text: Seq<u8>,
) -> bool
    decreases segs.len(),
{
    if segs.len() == 0 {
        text.len() == 0
    } else {
        let w = segs.first();
        &&& words.contains(w)
        &&& 2 <= w.len() <= max_len
        &&& w.len() <= text.len()
        &&& text.subrange(0, w.len() as int) == w
        &&& (forall|l: int| 2 <= l < w.len() ==> !words.contains(#[trigger] text.subrange(0, l)))
        &&& clean_concat(words, max_len, segs.drop_first(), text.skip(w.len() as int))
    }
}

/// The shortest match is the first matching length.
proof fn lemma_match_len_first(
    words: Seq<Seq<u8>>,
    text: Seq<u8>,
    start: int,
    l: int,
    lmax: int,
    target: int,
)
    requires
        0 <= l <= target <= lmax,
        words.contains(text.subrange(start, start + target)),
        forall|l2: int| l <= l2 < target ==> !words.contains(#[trigger] text.subrange(start, start + l2)),
    ensures
        match_len_from(words, text, start, l, lmax) == target,
    decreases target - l,
{
    if l < target {
        lemma_match_len_first(words, text, start, l + 1, lmax, target);
    }
}

/// Matching lengths do not change when the text is cut at the scan
/// position's left.
proof fn lemma_match_len_shift(
    words: Seq<Seq<u8>>,
    text: Seq<u8>,
    p: int,
    s: int,
    l: int,
    lmax: int,
)
    requires
        0 <= p,
        0 <= s,
        p + s + lmax <= text.len(),
    ensures
        match_len_from(words, text, p + s, l, lmax) == match_len_from(
            words,
            text.skip(p),
            s,
            l,
            lmax,
        ),
    decreases lmax + 1 - l,
{
    if l > lmax || l < 0 {
    } else {
        assert(text.subrange(p + s, p + s + l) =~= text.skip(p).subrange(s, s + l));
        lemma_match_len_shift(words, text, p, s, l + 1, lmax);
    }
}

/// The greedy scan from a position only reads the text from there on: the
/// prefix can be cut away.
proof fn lemma_cov_num_shift(words: Seq<Seq<u8>>, max_len: int, text: Seq<u8>, p: int, s: int)
    requires
        0 <= p <= text.len(),
        0 <= s,
    ensures
        cov_num(words, max_len, text, p + s) == cov_num(words, max_len, text.skip(p), s),
    decreases text.len() - p - s,
{
    let rest = text.skip(p);
    if p + s >= text.len() {
    } else {
        let lmax = if max_len < text.len() - (p + s) {
            max_len
        } else {
            text.len() - (p + s)
        };
        assert(rest.len() - s == text.len() - (p + s));
        if lmax >= 0 {
            lemma_match_len_shift(words, text, p, s, 2, lmax);
        }
        let m = match_len_from(words, text, p + s, 2, lmax);
        lemma_match_len_range(words, text, p + s, 2, lmax);
        if m <= 0 {
            lemma_cov_num_shift(words, max_len, text, p, s + 1);
        } else {
            lemma_cov_num_shift(words, max_len, text, p, s + m);
        }
    }
}

/// A text that is a clean concatenation of dictionary words is fully
/// explained: the greedy, shortest-match-wins segmentation credits every
/// character, so its coverage fraction is one.
pub proof fn lemma_clean_concat_full_coverage(
    words: Seq<Seq<u8>>,
    max_len: int,
    segs: Seq<Seq<u8>>,
    text: Seq<u8>,
)
    requires
        clean_concat(words, max_len, segs, text),
    ensures
        cov_num(words, max_len, text, 0) == text.len(),
    decreases segs.len(),
{
    if segs.len() == 0 {
    } else {
        let w = segs.first();
        let wl = w.len() as int;
        let lmax = if max_len < text.len() {
            max_len
        } else {
            text.len() as int
        };
        assert(wl <= lmax);
        lemma_match_len_first(words, text, 0, 2, lmax, wl);
        assert(match_len_from(words, text, 0, 2, lmax) == wl);
        assert(cov_num(words, max_len, text, 0) == wl + cov_num(words, max_len, text, wl));
        lemma_cov_num_shift(words, max_len, text, wl, 0);
        lemma_clean_concat_full_coverage(words, max_len, segs.drop_first(), text.skip(wl));
    }
}

/// Distinct A-Z windows of one width have distinct table rows.
pub proof fn lemma_code_injective(w1: Seq<u8>, w2: Seq<u8>)
    requires
        all_upper(w1),
        all_upper(w2),
        w1.len() == w2.len(),
        code_of(w1) == code_of(w2),
    ensures
        w1 == w2,
    decreases w1.len(),
{
    if w1.len() == 0 {
        assert(w1 =~= w2);
    } else {
        assert(all_upper(w1.drop_last()));
        assert(all_upper(w2.drop_last()));
        lemma_code_bound(w1.drop_last());
        lemma_code_bound(w2.drop_last());
        let c = code_of(w1);
        lemma_fundamental_div_mod_converse(c, 26, code_of(w1.drop_last()), w1.last() - 65);
        lemma_fundamental_div_mod_converse(c, 26, code_of(w2.drop_last()), w2.last() - 65);
        lemma_code_injective(w1.drop_last(), w2.drop_last());
        assert(w1 =~= w1.drop_last().push(w1.last()));
        assert(w2 =~= w2.drop_last().push(w2.last()));
        assert(w1 =~= w2);
    }
}

/// A valid window that stands in none of the entries is valued at the
/// smoothed floor: the table keeps the floor in its row.
pub proof fn lemma_unseen_window_scores_floor(
    entries: Seq<(Seq<u8>, i64)>,
    width: int,
    w: Seq<u8>,
    floor: i64,
)
    requires
        valid_window(w, width),
        forall|i: int| 0 <= i < entries.len() ==> (#[trigger] entries[i]).0 != w,
    ensures
        lookup_code(entries, width, code_of(w), floor) == floor,
    decreases entries.len(),
{
    if entries.len() > 0 {
        if valid_window(entries.last().0, width) && code_of(entries.last().0) == code_of(w) {
            lemma_code_injective(entries.last().0, w);
            assert(false);
        }
        assert(forall|i: int| 0 <= i < entries.drop_last().len() ==> (#[trigger] entries.drop_last(
        )[i]).0 != w);
        lemma_unseen_window_scores_floor(entries.drop_last(), width, w, floor);
    }
}

} // verus!

