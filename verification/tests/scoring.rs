use analyzer::score::Coverage;
use analyzer::score::ModelError;
use analyzer::score::NgramScore2;
use analyzer::score::NgramScore4;
use analyzer::score::WordListScore;
use analyzer::score::parse_model_lines;
use analyzer::score::tokenize;
use analyzer::score::to_upper;

fn lines(texts: &[&str]) -> Vec<Vec<u8>> {
    texts.iter().map(|t| t.as_bytes().to_vec()).collect()
}

#[test]
fn tokenize_splits_on_whitespace() {
    let toks = tokenize(&b"  THES  123\t".to_vec());
    assert_eq!(toks, vec![b"THES".to_vec(), b"123".to_vec()]);
}

#[test]
fn to_upper_folds_ascii() {
    assert_eq!(to_upper(&b"aZz9".to_vec()), b"AZZ9".to_vec());
}

#[test]
fn parse_model_lines_accepts_well_formed_lines() {
    let (entries, total) = parse_model_lines(&lines(&["THES 10", "hese 5"]), 4).unwrap();
    assert_eq!(total, 15);
    assert_eq!(entries[0], (b"THES".to_vec(), 10));
    assert_eq!(entries[1], (b"HESE".to_vec(), 5));
}

#[test]
fn parse_model_lines_rejects_wrong_token_count() {
    let r = parse_model_lines(&lines(&["THES 10 extra"]), 4);
    assert_eq!(r.unwrap_err(), ModelError::WrongTokenCount);
}

#[test]
fn parse_model_lines_rejects_bad_window() {
    assert_eq!(
        parse_model_lines(&lines(&["TH3S 10"]), 4).unwrap_err(),
        ModelError::BadWindow
    );
    assert_eq!(
        parse_model_lines(&lines(&["THE 10"]), 4).unwrap_err(),
        ModelError::BadWindow
    );
}

#[test]
fn parse_model_lines_rejects_bad_count() {
    assert_eq!(
        parse_model_lines(&lines(&["THES ten"]), 4).unwrap_err(),
        ModelError::BadCount
    );
    assert_eq!(
        parse_model_lines(&lines(&["THES 99999999999999999999999"]), 4).unwrap_err(),
        ModelError::BadCount
    );
}

#[test]
fn parse_model_lines_rejects_total_overflow() {
    let r = parse_model_lines(
        &lines(&["AAAA 18446744073709551615", "BBBB 1"]),
        4,
    );
    assert_eq!(r.unwrap_err(), ModelError::BadTotal);
}

#[test]
fn parse_model_lines_reports_first_problem() {
    let r = parse_model_lines(&lines(&["THES 10", "bad line here", "HESE x"]), 4);
    assert_eq!(r.unwrap_err(), ModelError::WrongTokenCount);
}

fn tiny_model() -> NgramScore4 {
    // one seen window at -1 log10 unit, floor at -3 log10 units
    let entries = vec![(b"THES".to_vec(), -1000000i64)];
    NgramScore4::create(&entries, -3000000, 11).unwrap()
}

#[test]
fn ngram_score_sums_seen_and_floor_windows() {
    let m = tiny_model();
    // windows of THESE: THES (seen), HESE (floor)
    assert_eq!(m.score(&b"THESE".to_vec()), -1000000 - 3000000);
    // shorter than one window: no window at all
    assert_eq!(m.score(&b"THE".to_vec()), 0);
}

#[test]
fn ngram_score_floor_for_fully_unseen_text() {
    let m = tiny_model();
    // every window of this text is unseen: exactly windows * floor
    assert_eq!(m.score(&b"BCDEFG".to_vec()), 3 * -3000000);
}

#[test]
fn ngram_create_rejects_bad_entries() {
    let bad_window = vec![(b"TH".to_vec(), -1000000i64)];
    assert_eq!(
        NgramScore4::create(&bad_window, -3000000, 1).unwrap_err(),
        ModelError::BadWindow
    );
    let bad_score = vec![(b"THES".to_vec(), 1i64)];
    assert_eq!(
        NgramScore4::create(&bad_score, -3000000, 1).unwrap_err(),
        ModelError::BadScore
    );
    let fine = vec![(b"THES".to_vec(), -1i64)];
    assert_eq!(
        NgramScore4::create(&fine, 1, 1).unwrap_err(),
        ModelError::BadFloor
    );
    assert_eq!(
        NgramScore4::create(&fine, -1, 0).unwrap_err(),
        ModelError::BadTotal
    );
}

#[test]
fn ngram2_scores_bigrams() {
    let entries = vec![(b"TH".to_vec(), -500000i64)];
    let m = NgramScore2::create(&entries, -2000000, 3).unwrap();
    // windows of THE: TH (seen), HE (floor)
    assert_eq!(m.score(&b"THE".to_vec()), -500000 - 2000000);
}

#[test]
fn wordlist_create_keeps_long_words_and_max_len() {
    let wl = WordListScore::create(&lines(&["an", "ant", "a"])).unwrap();
    assert_eq!(wl.words, vec![b"AN".to_vec(), b"ANT".to_vec()]);
    assert_eq!(wl.max_len, 3);
}

#[test]
fn wordlist_create_rejects_bad_words() {
    assert_eq!(
        WordListScore::create(&lines(&["an", "b4d"])).unwrap_err(),
        ModelError::BadWord
    );
    assert_eq!(
        WordListScore::create(&lines(&["two words"])).unwrap_err(),
        ModelError::WrongTokenCount
    );
    assert_eq!(
        WordListScore::create(&lines(&["a"])).unwrap_err(),
        ModelError::EmptyWordList
    );
}

#[test]
fn coverage_prefers_shortest_match() {
    // the two-letter word preempts the longer one at the same position
    let wl = WordListScore::create(&lines(&["AN", "ANT"])).unwrap();
    let cov = wl.coverage(&b"ANTX".to_vec());
    assert_eq!(cov, Coverage { num: 2, den: 4 });
    assert_ne!(cov.num, 3);
}

#[test]
fn coverage_is_full_on_clean_concatenation() {
    let wl = WordListScore::create(&lines(&["HELLO", "WORLD"])).unwrap();
    let cov = wl.coverage(&b"HELLOWORLD".to_vec());
    assert_eq!(cov, Coverage { num: 10, den: 10 });
}

#[test]
fn coverage_stays_within_bounds() {
    let wl = WordListScore::create(&lines(&["AN", "ANT"])).unwrap();
    for text in [&b""[..], b"Q", b"ANANAN", b"XXXXXXX", b"ANT"] {
        let cov = wl.coverage(&text.to_vec());
        assert!(cov.num <= cov.den);
        assert!(cov.den >= 1);
    }
}

#[test]
fn coverage_of_empty_text_is_zero_over_one() {
    let wl = WordListScore::create(&lines(&["AN"])).unwrap();
    assert_eq!(wl.coverage(&b"".to_vec()), Coverage { num: 0, den: 1 });
}
