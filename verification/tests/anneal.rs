use analyzer::keyspace::KeySpace;
use analyzer::keyspace::SubstitutionStrategy;
use analyzer::keyspace::remap;
use analyzer::keyspace::sub_alphabet_vec;
use analyzer::perm::permutation_check;
use analyzer::score::NgramScore2;
use analyzer::score::NgramScore4;
use analyzer::score::WordListScore;
use analyzer::simann::accept_candidate;
use analyzer::simann::score_text;
use analyzer::simann::simulated_annealing;
use std::collections::HashMap;
use std::time::Duration;
use std::time::Instant;

fn lines(texts: &[&str]) -> Vec<Vec<u8>> {
    texts.iter().map(|t| t.as_bytes().to_vec()).collect()
}

fn micro_log10(count: u64, total: u64) -> i64 {
    ((count as f64 / total as f64).log10() * 1e6).round() as i64
}

fn floor_of(total: u64) -> i64 {
    ((0.01f64 / total as f64).log10() * 1e6).round() as i64
}

/// Train a quadgram model on the windows of one text, as the startup path
/// would from a corpus file.
fn model_of(text: &[u8]) -> NgramScore4 {
    let mut counts: HashMap<Vec<u8>, u64> = HashMap::new();
    for w in text.windows(4) {
        *counts.entry(w.to_vec()).or_insert(0) += 1;
    }
    let total: u64 = counts.values().sum();
    let entries: Vec<(Vec<u8>, i64)> = counts
        .iter()
        .map(|(w, c)| (w.clone(), micro_log10(*c, total)))
        .collect();
    NgramScore4::create(&entries, floor_of(total), total).unwrap()
}

fn empty_bigram_model() -> NgramScore2 {
    NgramScore2::create(&Vec::new(), -3000000, 1).unwrap()
}

#[test]
fn score_text_blends_score_and_coverage() {
    let entries = vec![(b"THES".to_vec(), -1000000i64)];
    let m = NgramScore4::create(&entries, -3000000, 11).unwrap();
    let m2 = empty_bigram_model();
    let wl = WordListScore::create(&lines(&["THESE"])).unwrap();
    // L = -4.0, coverage 1: half the raw score
    assert_eq!(score_text(&m, &m2, &wl, &b"THESE".to_vec()), -2000000);
    // L = 3 * -3.0, coverage 0: the raw score whole
    assert_eq!(score_text(&m, &m2, &wl, &b"BCDEFG".to_vec()), -9000000);
}

#[test]
fn improvement_is_adopted_whatever_the_rung() {
    for rungs_left in 1..=20 {
        assert!(accept_candidate(-1000, -999, rungs_left));
        assert!(accept_candidate(-5000000, 0, rungs_left));
    }
}

#[test]
fn equal_score_is_adopted() {
    for rungs_left in 1..=20 {
        assert!(accept_candidate(-1234, -1234, rungs_left));
    }
}

#[test]
fn annealing_returns_a_valid_result() {
    let plain = b"THEQUICKBROWNFOXJUMPSOVERTHELAZYDOG";
    let m = model_of(plain);
    let m2 = empty_bigram_model();
    let wl = WordListScore::create(&lines(&["THE", "QUICK", "BROWN", "FOX"])).unwrap();
    let strat = SubstitutionStrategy {};
    let r = simulated_annealing(&plain.to_vec(), &m, &m2, &wl, &strat, 3, 10);
    assert!(permutation_check(&r.key, &sub_alphabet_vec()));
    assert_eq!(r.decrypt, remap(&plain.to_vec(), &r.key));
    assert_eq!(r.score, score_text(&m, &m2, &wl, &r.decrypt));
    assert!(r.score <= 0);
    assert!(r.word_coverage.num <= r.word_coverage.den);
}

#[test]
fn annealing_recovers_a_known_key() {
    // encrypt a pangram-derived plaintext with a known permutation, train
    // the model on the plaintext's own windows, and search
    let plain: Vec<u8> =
        b"THEQUICKBROWNFOXJUMPSOVERTHELAZYDOG".repeat(3);
    let key = b"TNGEQBOUZRKSFIPYAWCXLHMJDV".to_vec();
    assert!(permutation_check(&key, &sub_alphabet_vec()));
    // remap sends the key letter at position i to alphabet letter i, so
    // encryption sends alphabet letter i to the key letter at position i
    let cipher: Vec<u8> = plain.iter().map(|p| key[(p - b'A') as usize]).collect();
    assert_eq!(remap(&cipher, &key), plain.to_vec());

    let m = model_of(&plain);
    let m2 = empty_bigram_model();
    let wl = WordListScore::create(&lines(&[
        "THE", "QUICK", "BROWN", "FOX", "JUMPS", "OVER", "LAZY", "DOG",
    ]))
    .unwrap();
    let strat = SubstitutionStrategy {};

    let deadline = Instant::now() + Duration::from_secs(16);
    let mut best_num = 0;
    let mut best_den = 1;
    let mut passes = 0;
    while Instant::now() < deadline {
        passes += 1;
        let r = simulated_annealing(&cipher.to_vec(), &m, &m2, &wl, &strat, 10, 1000);
        if r.word_coverage.num * best_den > best_num * r.word_coverage.den {
            best_num = r.word_coverage.num;
            best_den = r.word_coverage.den;
        }
        if best_num * 10 > best_den * 9 {
            break;
        }
    }
    // the best result explains more than nine tenths of the text
    assert!(
        best_num * 10 > best_den * 9,
        "best coverage {}/{} after {} passes",
        best_num,
        best_den,
        passes
    );
}
