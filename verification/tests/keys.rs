use analyzer::keyspace::GridStrategy;
use analyzer::keyspace::KeySpace;
use analyzer::keyspace::SubstitutionStrategy;
use analyzer::keyspace::grid_alphabet_vec;
use analyzer::keyspace::random_below;
use analyzer::keyspace::remap;
use analyzer::keyspace::sub_alphabet_vec;
use analyzer::perm::count_byte;
use analyzer::perm::permutation_check;
use analyzer::perm::swap_bytes;
use cipher_crypt::Cipher;

#[test]
fn substitution_generate_yields_permutations() {
    let strat = SubstitutionStrategy {};
    let alpha = sub_alphabet_vec();
    for _ in 0..50 {
        let k = strat.generate();
        assert!(permutation_check(&k, &alpha));
        // the favoured baseline positions are retained
        assert_eq!(&k[0..3], b"TNG");
        assert_eq!(k[12], b'F');
    }
}

#[test]
fn substitution_mutate_preserves_permutation() {
    let strat = SubstitutionStrategy {};
    let alpha = sub_alphabet_vec();
    let mut k = strat.generate();
    for _ in 0..200 {
        k = strat.mutate(&k);
        assert!(permutation_check(&k, &alpha));
    }
}

#[test]
fn substitution_mutate_swaps_two_positions() {
    let strat = SubstitutionStrategy {};
    let k = strat.generate();
    let m = strat.mutate(&k);
    let differing = k.iter().zip(m.iter()).filter(|(a, b)| a != b).count();
    assert_eq!(differing, 2);
}

#[test]
fn grid_generate_and_mutate_yield_permutations() {
    let strat = GridStrategy {};
    let alpha = grid_alphabet_vec();
    let mut k = strat.generate();
    assert!(permutation_check(&k, &alpha));
    for _ in 0..300 {
        k = strat.mutate(&k);
        assert!(permutation_check(&k, &alpha));
    }
}

#[test]
fn generate_draws_differ() {
    let strat = SubstitutionStrategy {};
    assert!((0..20).any(|_| strat.generate() != strat.generate()));
}

#[test]
fn remap_translates_by_key_position() {
    // a key with A and B swapped maps cipher B to plain A and back
    let mut key = sub_alphabet_vec();
    swap_bytes(&mut key, 0, 1);
    assert_eq!(remap(&b"BAC".to_vec(), &key), b"ABC".to_vec());
    // the identity key leaves text unchanged
    let key = sub_alphabet_vec();
    assert_eq!(remap(&b"HELLO".to_vec(), &key), b"HELLO".to_vec());
}

#[test]
fn substitution_decrypt_matches_remap() {
    let strat = SubstitutionStrategy {};
    let k = strat.generate();
    let cipher = b"WONDERFUL".to_vec();
    assert_eq!(strat.decrypt(&cipher, &k), remap(&cipher, &k));
}

#[test]
fn grid_decrypt_agrees_with_the_cipher_crate() {
    let strat = GridStrategy {};
    let key = grid_alphabet_vec();
    let key_str = String::from_utf8(key.clone()).unwrap();
    let pf = cipher_crypt::Playfair::new((key_str, None));
    let cipher = pf.encrypt("HIDETHEGOLDINTHETREESTUMP").unwrap();
    let expected = pf.decrypt(&cipher).unwrap();
    let got = strat.decrypt(&cipher.clone().into_bytes(), &key);
    assert_eq!(got, expected.into_bytes());
    // decryption is no echo of the ciphertext
    assert_ne!(got, cipher.into_bytes());
}

#[test]
fn random_below_respects_its_bound() {
    for _ in 0..200 {
        assert!(random_below(7) < 7);
    }
    assert_eq!(random_below(1), 0);
}

#[test]
fn count_byte_counts() {
    assert_eq!(count_byte(&b"ABRACADABRA".to_vec(), b'A'), 5);
    assert_eq!(count_byte(&b"ABRACADABRA".to_vec(), b'Z'), 0);
}

#[test]
fn substitution_generate_shuffles_within_the_baseline_ranges() {
    let strat = SubstitutionStrategy {};
    let baseline = b"TNGEQBOUZRKSFIPYAWCXLHMJDV";
    for _ in 0..20 {
        let k = strat.generate();
        let mut mid = k[3..12].to_vec();
        let mut base_mid = baseline[3..12].to_vec();
        mid.sort();
        base_mid.sort();
        assert_eq!(mid, base_mid);
        let mut tail = k[13..26].to_vec();
        let mut base_tail = baseline[13..26].to_vec();
        tail.sort();
        base_tail.sort();
        assert_eq!(tail, base_tail);
    }
}

fn is_reverse_of(k: &[u8], m: &[u8]) -> bool {
    k.len() == m.len() && (0..k.len()).all(|i| m[i] == k[k.len() - 1 - i])
}

fn is_col_swap_of(k: &[u8], m: &[u8]) -> bool {
    (0..5).any(|c0| {
        (0..5).any(|c1| {
            c0 != c1 && (0..5).all(|r| {
                (0..5).all(|c| {
                    let want = if c == c0 {
                        k[r * 5 + c1]
                    } else if c == c1 {
                        k[r * 5 + c0]
                    } else {
                        k[r * 5 + c]
                    };
                    m[r * 5 + c] == want
                })
            })
        })
    })
}

fn is_row_swap_of(k: &[u8], m: &[u8]) -> bool {
    (0..5).any(|r0| {
        (0..5).any(|r1| {
            r0 != r1 && (0..5).all(|r| {
                (0..5).all(|c| {
                    let want = if r == r0 {
                        k[r1 * 5 + c]
                    } else if r == r1 {
                        k[r0 * 5 + c]
                    } else {
                        k[r * 5 + c]
                    };
                    m[r * 5 + c] == want
                })
            })
        })
    })
}

fn is_two_swap_of(k: &[u8], m: &[u8]) -> bool {
    let diff: Vec<usize> = (0..k.len()).filter(|i| k[*i] != m[*i]).collect();
    diff.len() == 2 && m[diff[0]] == k[diff[1]] && m[diff[1]] == k[diff[0]]
}

#[test]
fn grid_mutate_makes_one_of_the_four_moves() {
    let strat = GridStrategy {};
    let mut k = strat.generate();
    for _ in 0..300 {
        let m = strat.mutate(&k);
        assert!(
            is_reverse_of(&k, &m)
                || is_col_swap_of(&k, &m)
                || is_row_swap_of(&k, &m)
                || is_two_swap_of(&k, &m)
        );
        k = m;
    }
}
