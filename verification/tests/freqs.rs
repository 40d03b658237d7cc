use analyzer::freq::Freq;
use analyzer::freq::engl_freqs_vec;

#[test]
fn calc_score_of_the_english_ranking_is_the_square_sum() {
    // letters ranked exactly in English frequency order score
    // 26*26 + 25*25 + ... + 1*1 = 6201
    let freqs: Vec<(u8, u32)> = engl_freqs_vec()
        .iter()
        .enumerate()
        .map(|(i, c)| (*c, (26 - i) as u32))
        .collect();
    assert_eq!(Freq::calc_score(&freqs), 6201);
}

#[test]
fn from_text_counts_and_ranks() {
    let f = Freq::from_text(&b"EEETTA".to_vec());
    assert_eq!(f.freqs[0], (b'E', 3));
    assert_eq!(f.freqs[1], (b'T', 2));
    assert_eq!(f.freqs[2], (b'A', 1));
    // the unseen letters follow, still in English frequency order
    assert_eq!(f.freqs[3], (b'O', 0));
    assert_eq!(f.freqs.len(), 26);
    // this ranking agrees with the English order exactly
    assert_eq!(f.score, 6201);
}

#[test]
fn from_text_keeps_frequency_order_on_ties() {
    let f = Freq::from_text(&b"BA".to_vec());
    // A and B tie on count; A ranks first because English ranks it higher
    assert_eq!(f.freqs[0], (b'A', 1));
    assert_eq!(f.freqs[1], (b'B', 1));
    assert_eq!(f.freqs[2], (b'E', 0));
}

#[test]
fn freq_compares_by_score() {
    let a = Freq::from_text(&b"EEETTA".to_vec());
    let b = Freq::from_text(&b"EEETTA".to_vec());
    assert!(a == b);
    let c = Freq {
        freqs: a.freqs.clone(),
        score: a.score + 1,
    };
    assert!(c > a);
    assert!(a < c);
}
