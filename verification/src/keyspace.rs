//! Key-space strategies: how candidate keys are generated, locally perturbed,
//! and applied to a ciphertext. Two strategies exist, one for simple
//! monoalphabetic substitution over the 26-letter alphabet and one for the
//! 5x5 grid digraph cipher over the 25-letter alphabet (I/J merged).

use vstd::prelude::*;
use vstd::multiset::group_multiset_axioms;
use vstd::seq_lib::group_to_multiset_ensures;
use rand::Rng;
use rand::seq::SliceRandom;
use cipher_crypt::Cipher;
use crate::perm::count_in;
use crate::perm::lemma_count_positive_iff_contains;
use crate::perm::lemma_permutation_by_counts;
use crate::perm::lemma_splice_preserves_multiset;
use crate::perm::permutation_of;
use crate::perm::swap_bytes;

verus! {

/// The 26-letter uppercase alphabet, in order.
pub open spec fn sub_alphabet() -> Seq<u8> {
    Seq::new(26, |i: int| (65 + i) as u8)
}

/// The 25-letter grid alphabet: uppercase letters with J left out.
pub open spec fn grid_alphabet() -> Seq<u8> {
    Seq::new(25, |i: int| if i < 9 { (65 + i) as u8 } else { (66 + i) as u8 })
}

/// Every text byte is an uppercase letter.
pub open spec fn all_upper(s: Seq<u8>) -> bool {
    forall|i: int| 0 <= i < s.len() ==> 65 <= #[trigger] s[i] <= 90
}

/// Every text byte is a letter of the grid alphabet.
pub open spec fn all_grid(s: Seq<u8>) -> bool {
    forall|i: int| 0 <= i < s.len() ==> 65 <= #[trigger] s[i] <= 90 && s[i] != 74
}

/// Each uppercase letter occurs exactly once in the 26-letter alphabet.
pub proof fn lemma_sub_alphabet_counts(c: u8)
    ensures
        count_in(sub_alphabet(), c) == if 65 <= c <= 90 {
            1nat
        } else {
            0nat
        },
{
    lemma_prefix_counts(26, c);
    assert(sub_alphabet() =~= Seq::new(26, |i: int| (65 + i) as u8));
}

/// Counting in a prefix of the ordered alphabet.
proof fn lemma_prefix_counts(n: int, c: u8)
    requires
        0 <= n <= 26,
    ensures
        count_in(Seq::new(n as nat, |i: int| (65 + i) as u8), c) == if 65 <= c < 65 + n {
            1nat
        } else {
            0nat
        },
    decreases n,
{
    let s = Seq::new(n as nat, |i: int| (65 + i) as u8);
    if n == 0 {
    } else {
        lemma_prefix_counts(n - 1, c);
        assert(s.drop_last() =~= Seq::new((n - 1) as nat, |i: int| (65 + i) as u8));
        assert(s.last() == (65 + (n - 1)) as u8);
    }
}

/// Each grid letter occurs exactly once in the 25-letter alphabet.
pub proof fn lemma_grid_alphabet_counts(c: u8)
    ensures
        count_in(grid_alphabet(), c) == if 65 <= c <= 90 && c != 74 {
            1nat
        } else {
            0nat
        },
{
    lemma_grid_prefix_counts(25, c);
    assert(grid_alphabet() =~= Seq::new(
        25,
        |i: int| if i < 9 {
            (65 + i) as u8
        } else {
            (66 + i) as u8
        },
    ));
}

/// Counting in a prefix of the ordered grid alphabet.
proof fn lemma_grid_prefix_counts(n: int, c: u8)
    requires
        0 <= n <= 25,
    ensures
        count_in(
            Seq::new(
                n as nat,
                |i: int| if i < 9 {
                    (65 + i) as u8
                } else {
                    (66 + i) as u8
                },
            ),
            c,
        ) == if (65 <= c < 65 + n && c < 74) || (66 <= c < 66 + n && c > 74) {
            1nat
        } else {
            0nat
        },
    decreases n,
{
    let f = |i: int| if i < 9 {
        (65 + i) as u8
    } else {
        (66 + i) as u8
    };
    let s = Seq::new(n as nat, f);
    if n == 0 {
    } else {
        lemma_grid_prefix_counts(n - 1, c);
        assert(s.drop_last() =~= Seq::new((n - 1) as nat, f));
        assert(s.last() == f(n - 1));
    }
}

/// What a substitution key holds: exactly one copy of each of the 26
/// letters and nothing else.
pub proof fn lemma_sub_key_counts(k: Seq<u8>)
    requires
        permutation_of(k, sub_alphabet()),
    ensures
        k.len() == 26,
        forall|c: u8| 65 <= c <= 90 ==> count_in(k, c) == 1,
        forall|c: u8| !(65 <= c <= 90) ==> count_in(k, c) == 0,
{
    lemma_permutation_by_counts(k, sub_alphabet());
    assert forall|c: u8| count_in(k, c) == count_in(sub_alphabet(), c) by {}
    assert forall|c: u8| 65 <= c <= 90 implies count_in(k, c) == 1 by {
        lemma_sub_alphabet_counts(c);
    }
    assert forall|c: u8| !(65 <= c <= 90) implies count_in(k, c) == 0 by {
        lemma_sub_alphabet_counts(c);
    }
}

/// What a grid key holds: exactly one copy of each of the 25 grid letters
/// and nothing else.
pub proof fn lemma_grid_key_counts(k: Seq<u8>)
    requires
        permutation_of(k, grid_alphabet()),
    ensures
        k.len() == 25,
        forall|c: u8| 65 <= c <= 90 && c != 74 ==> count_in(k, c) == 1,
        forall|c: u8| !(65 <= c <= 90 && c != 74) ==> count_in(k, c) == 0,
{
    lemma_permutation_by_counts(k, grid_alphabet());
    assert forall|c: u8| count_in(k, c) == count_in(grid_alphabet(), c) by {}
    assert forall|c: u8| 65 <= c <= 90 && c != 74 implies count_in(k, c) == 1 by {
        lemma_grid_alphabet_counts(c);
    }
    assert forall|c: u8| !(65 <= c <= 90 && c != 74) implies count_in(k, c) == 0 by {
        lemma_grid_alphabet_counts(c);
    }
}

/// Build the 26-letter alphabet.
pub fn sub_alphabet_vec() -> (v: Vec<u8>)
    ensures
        v@ == sub_alphabet(),
{
    let mut v: Vec<u8> = Vec::new();
    let mut i: usize = 0;
    while i < 26
        invariant
            i <= 26,
            v@ =~= sub_alphabet().subrange(0, i as int),
        decreases 26 - i,
    {
        v.push((65 + i) as u8);
        i = i + 1;
    }
    proof {
        assert(v@ =~= sub_alphabet());
    }
    v
}

/// Build the 25-letter grid alphabet.
pub fn grid_alphabet_vec() -> (v: Vec<u8>)
    ensures
        v@ == grid_alphabet(),
{
    let mut v: Vec<u8> = Vec::new();
    let mut i: usize = 0;
    while i < 25
        invariant
            i <= 25,
            v@ =~= grid_alphabet().subrange(0, i as int),
        decreases 25 - i,
    {
        if i < 9 {
            v.push((65 + i) as u8);
        } else {
            v.push((66 + i) as u8);
        }
        i = i + 1;
    }
    proof {
        assert(v@ =~= grid_alphabet());
    }
    v
}

/// Relies on rand's `SliceRandom::shuffle` (a Fisher-Yates shuffle): it
/// rearranges the elements of the chosen range in place by swaps and touches
/// nothing outside the range.
#[verifier::external_body]
fn shuffle_range(v: &mut Vec<u8>, lo: usize, hi: usize)
    requires
        lo <= hi,
        hi <= old(v).len(),
    ensures
        final(v)@.len() == old(v)@.len(),
        final(v)@.subrange(0, lo as int) == old(v)@.subrange(0, lo as int),
        final(v)@.subrange(hi as int, final(v)@.len() as int) == old(v)@.subrange(
            hi as int,
            old(v)@.len() as int,
        ),
        final(v)@.subrange(lo as int, hi as int).to_multiset() == old(v)@.subrange(
            lo as int,
            hi as int,
        ).to_multiset(),
{
    let mut rng = rand::thread_rng();
    v[lo..hi].shuffle(&mut rng);
}

/// Relies on rand's `index::sample`: exactly two distinct indices below `n`,
/// in random order.
#[verifier::external_body]
fn two_distinct_indices(n: usize) -> (r: (usize, usize))
    requires
        2 <= n,
    ensures
        r.0 < n,
        r.1 < n,
        r.0 != r.1,
{
    let mut rng = rand::thread_rng();
    let idx = rand::seq::index::sample(&mut rng, n, 2);
    (idx.index(0), idx.index(1))
}

/// Relies on rand's `Rng::gen_range`: a value drawn uniformly below `n`.
#[verifier::external_body]
pub fn random_below(n: u64) -> (r: u64)
    requires
        1 <= n,
    ensures
        r < n,
{
    let mut rng = rand::thread_rng();
    rng.gen_range(0..n)
}

/// What the grid-cipher decrypt collaborator returns: a pure function of the
/// ciphertext and the key alone.
pub uninterp spec fn playfair_plain(cipher: Seq<u8>, key: Seq<u8>) -> Seq<u8>;

/// Relies on cipher_crypt's `Playfair`: `new` lays a 25-letter keystream out
/// as the 5x5 table (it panics only for an empty, overlong, or out-of-alphabet
/// keystream), and `decrypt` substitutes digraphs through that table,
/// returning `Ok` for any message made of grid-alphabet letters. The result
/// depends on the message and the key alone, and holds one digraph — two
/// letters — for each one or two letters of the message.
#[verifier::external_body]
fn playfair_decrypt(cipher: &Vec<u8>, key: &Vec<u8>) -> (r: Vec<u8>)
    requires
        permutation_of(key@, grid_alphabet()),
        all_grid(cipher@),
    ensures
        r@ == playfair_plain(cipher@, key@),
        r@.len() <= 2 * cipher@.len(),
{
    let keystream = String::from_utf8(key.clone()).unwrap();
    let message = String::from_utf8(cipher.clone()).unwrap();
    let pf = cipher_crypt::Playfair::new((keystream, None));
    pf.decrypt(&message).unwrap().into_bytes()
}

/// `m` is `k` with the two distinct positions `i` and `j` exchanged.
pub open spec fn swapped_at(k: Seq<u8>, m: Seq<u8>, i: int, j: int) -> bool {
    &&& 0 <= i < k.len()
    &&& 0 <= j < k.len()
    &&& i != j
    &&& m == k.update(i, k[j]).update(j, k[i])
}

/// `m` is `k` with some two distinct positions exchanged.
pub open spec fn is_swap(k: Seq<u8>, m: Seq<u8>) -> bool {
    exists|i: int, j: int| swapped_at(k, m, i, j)
}

/// The letter of a 5x5 grid key at row `r`, column `c`.
pub open spec fn grid_cell(s: Seq<u8>, r: int, c: int) -> u8 {
    s[r * 5 + c]
}

/// `m` is the 5x5 grid key `k` with the two distinct columns `c0` and `c1`
/// exchanged.
pub open spec fn cols_swapped(k: Seq<u8>, m: Seq<u8>, c0: int, c1: int) -> bool {
    &&& 0 <= c0 < 5
    &&& 0 <= c1 < 5
    &&& c0 != c1
    &&& k.len() == 25
    &&& m.len() == 25
    &&& forall|r: int, c: int| 0 <= r < 5 && 0 <= c < 5 ==> #[trigger] grid_cell(m, r, c) == (
        if c == c0 {
            grid_cell(k, r, c1)
        } else if c == c1 {
            grid_cell(k, r, c0)
        } else {
            grid_cell(k, r, c)
        })
}

/// `m` is the 5x5 grid key `k` with the two distinct rows `r0` and `r1`
/// exchanged.
pub open spec fn rows_swapped(k: Seq<u8>, m: Seq<u8>, r0: int, r1: int) -> bool {
    &&& 0 <= r0 < 5
    &&& 0 <= r1 < 5
    &&& r0 != r1
    &&& k.len() == 25
    &&& m.len() == 25
    &&& forall|r: int, c: int| 0 <= r < 5 && 0 <= c < 5 ==> #[trigger] grid_cell(m, r, c) == (
        if r == r0 {
            grid_cell(k, r1, c)
        } else if r == r1 {
            grid_cell(k, r0, c)
        } else {
            grid_cell(k, r, c)
        })
}

/// A key-space strategy: generates keys, perturbs them locally, and applies
/// them to a ciphertext. Every key it produces is a permutation of its
/// alphabet, and decryption is a pure function of ciphertext and key.
pub trait KeySpace: Sized {
    /// The alphabet whose permutations are the keys.
    spec fn alphabet(&self) -> Seq<u8>;

    /// Which ciphertexts the strategy accepts.
    spec fn cipher_ok(&self, cipher: Seq<u8>) -> bool;

    /// What the strategy promises of a fresh key beyond being a
    /// permutation: the bias it starts the search from.
    spec fn generate_ok(&self, k: Seq<u8>) -> bool;

    /// What the strategy promises of a perturbed key beyond being a
    /// permutation: the shape of the local move it made.
    spec fn mutate_ok(&self, k: Seq<u8>, m: Seq<u8>) -> bool;

    /// What decryption returns.
    spec fn decrypt_spec(&self, cipher: Seq<u8>, key: Seq<u8>) -> Seq<u8>;

    /// Produce a fresh starting key.
    fn generate(&self) -> (k: Vec<u8>)
        ensures
            permutation_of(k@, self.alphabet()),
            self.generate_ok(k@),
    ;

    /// Produce a local perturbation of `k`.
    fn mutate(&self, k: &Vec<u8>) -> (m: Vec<u8>)
        requires
            permutation_of(k@, self.alphabet()),
        ensures
            permutation_of(m@, self.alphabet()),
            self.mutate_ok(k@, m@),
    ;

    /// Apply `key` to the ciphertext.
    fn decrypt(&self, cipher: &Vec<u8>, key: &Vec<u8>) -> (p: Vec<u8>)
        requires
            permutation_of(key@, self.alphabet()),
            self.cipher_ok(cipher@),
        ensures
            p@ == self.decrypt_spec(cipher@, key@),
            p@.len() <= 2 * cipher@.len(),
    ;
}

/// The key-space of the simple monoalphabetic substitution cipher.
#[derive(Clone, Copy, Debug)]
pub struct SubstitutionStrategy {
}

/// The key-space of the 5x5 grid digraph cipher.
#[derive(Clone, Copy, Debug)]
pub struct GridStrategy {
}

/// The baseline substitution key ordering: candidate keys start here, with
/// two interior sub-ranges shuffled and the other positions retained.
pub open spec fn sub_baseline() -> Seq<u8> {
    seq![84u8, 78u8, 71u8, 69u8, 81u8, 66u8, 79u8, 85u8, 90u8, 82u8, 75u8, 83u8, 70u8, 73u8, 80u8,
        89u8, 65u8, 87u8, 67u8, 88u8, 76u8, 72u8, 77u8, 74u8, 68u8, 86u8]
}

/// Direct table substitution: the letter at position `i` of the alphabet
/// stands for the key letter found at position `i`.
pub open spec fn remap_spec(cipher: Seq<u8>, key: Seq<u8>) -> Seq<u8> {
    Seq::new(
        cipher.len(),
        |i: int| match key.index_of_first(cipher[i]) {
            Some(j) => (65 + j) as u8,
            None => 65u8,
        },
    )
}

/// Find the first position of `c` in `v`.
fn find_first(v: &Vec<u8>, c: u8) -> (r: Option<usize>)
    ensures
        match r {
            Some(i) => v@.index_of_first(c) == Some(i as int),
            None => v@.index_of_first(c) is None,
        },
{
    let mut i: usize = 0;
    while i < v.len()
        invariant
            i <= v@.len(),
            forall|j: int| 0 <= j < i ==> v@[j] != c,
        decreases v@.len() - i,
    {
        if v[i] == c {
            proof {
                v@.index_of_first_ensures(c);
            }
            return Some(i);
        }
        i = i + 1;
    }
    proof {
        v@.index_of_first_ensures(c);
    }
    None
}

/// Decrypt by table substitution, position of the cipher letter in the key
/// to letter of the alphabet at that position.
pub fn remap(cipher: &Vec<u8>, key: &Vec<u8>) -> (p: Vec<u8>)
    requires
        permutation_of(key@, sub_alphabet()),
        all_upper(cipher@),
    ensures
        p@ == remap_spec(cipher@, key@),
{
    let mut p: Vec<u8> = Vec::new();
    let mut i: usize = 0;
    while i < cipher.len()
        invariant
            i <= cipher@.len(),
            permutation_of(key@, sub_alphabet()),
            all_upper(cipher@),
            p@ =~= remap_spec(cipher@, key@).subrange(0, i as int),
        decreases cipher@.len() - i,
    {
        let c = cipher[i];
        proof {
            lemma_permutation_by_counts(key@, sub_alphabet());
            lemma_sub_alphabet_counts(c);
            lemma_count_positive_iff_contains(key@, c);
            key@.index_of_first_ensures(c);
        }
        let j = match find_first(key, c) {
            Some(j) => j,
            None => 0,  // unreachable: a full key holds every letter
        };
        p.push((65 + j) as u8);
        i = i + 1;
        proof {
            assert(p@ =~= remap_spec(cipher@, key@).subrange(0, i as int));
        }
    }
    proof {
        assert(p@ =~= remap_spec(cipher@, key@));
    }
    p
}

impl KeySpace for SubstitutionStrategy {
    open spec fn alphabet(&self) -> Seq<u8> {
        sub_alphabet()
    }

    open spec fn cipher_ok(&self, cipher: Seq<u8>) -> bool {
        all_upper(cipher)
    }

    /// Fresh keys retain the favoured baseline positions — the first three
    /// and the thirteenth — and each shuffled sub-range is a rearrangement
    /// of the baseline's own sub-range.
    open spec fn generate_ok(&self, k: Seq<u8>) -> bool {
        &&& k.len() == 26
        &&& k[0] == sub_baseline()[0]
        &&& k[1] == sub_baseline()[1]
        &&& k[2] == sub_baseline()[2]
        &&& k[12] == sub_baseline()[12]
        &&& k.subrange(3, 12).to_multiset() == sub_baseline().subrange(3, 12).to_multiset()
        &&& k.subrange(13, 26).to_multiset() == sub_baseline().subrange(13, 26).to_multiset()
    }

    /// A perturbed key is the key with two distinct positions swapped.
    open spec fn mutate_ok(&self, k: Seq<u8>, m: Seq<u8>) -> bool {
        is_swap(k, m)
    }

    open spec fn decrypt_spec(&self, cipher: Seq<u8>, key: Seq<u8>) -> Seq<u8> {
        remap_spec(cipher, key)
    }

    /// A fixed baseline ordering with two interior sub-ranges independently
    /// shuffled, so that a few favoured positions are retained.
    fn generate(&self) -> (k: Vec<u8>) {
        let mut v = sub_alphabet_vec();
        // lay the baseline ordering out by swaps, so that the key plainly
        // stays a rearrangement of the alphabet
        swap_bytes(&mut v, 0, 19);
        swap_bytes(&mut v, 1, 13);
        swap_bytes(&mut v, 2, 6);
        swap_bytes(&mut v, 3, 4);
        swap_bytes(&mut v, 4, 16);
        swap_bytes(&mut v, 5, 13);
        swap_bytes(&mut v, 6, 14);
        swap_bytes(&mut v, 7, 20);
        swap_bytes(&mut v, 8, 25);
        swap_bytes(&mut v, 9, 17);
        swap_bytes(&mut v, 11, 18);
        swap_bytes(&mut v, 12, 13);
        swap_bytes(&mut v, 13, 25);
        swap_bytes(&mut v, 14, 15);
        swap_bytes(&mut v, 15, 24);
        swap_bytes(&mut v, 16, 19);
        swap_bytes(&mut v, 17, 22);
        swap_bytes(&mut v, 18, 24);
        swap_bytes(&mut v, 19, 23);
        swap_bytes(&mut v, 20, 24);
        swap_bytes(&mut v, 21, 24);
        swap_bytes(&mut v, 22, 25);
        swap_bytes(&mut v, 23, 25);
        swap_bytes(&mut v, 24, 25);
        proof {
            assert(v@ =~= sub_baseline());
        }
        let ghost before = v@;
        shuffle_range(&mut v, 3, 12);
        proof {
            lemma_splice_preserves_multiset(before, v@, 3, 12);
            assert(v@.subrange(0, 3)[0] == before.subrange(0, 3)[0]);
            assert(v@.subrange(0, 3)[1] == before.subrange(0, 3)[1]);
            assert(v@.subrange(0, 3)[2] == before.subrange(0, 3)[2]);
            assert(v@.subrange(12, 26)[0] == before.subrange(12, 26)[0]);
        }
        let ghost middle = v@;
        shuffle_range(&mut v, 13, 26);
        proof {
            lemma_splice_preserves_multiset(middle, v@, 13, 26);
            assert(v@.subrange(0, 13)[0] == middle.subrange(0, 13)[0]);
            assert(v@.subrange(0, 13)[1] == middle.subrange(0, 13)[1]);
            assert(v@.subrange(0, 13)[2] == middle.subrange(0, 13)[2]);
            assert(v@.subrange(0, 13)[12] == middle.subrange(0, 13)[12]);
            // the first shuffled sub-range survives the second shuffle
            assert(v@.subrange(3, 12) =~= v@.subrange(0, 13).subrange(3, 12));
            assert(middle.subrange(3, 12) =~= middle.subrange(0, 13).subrange(3, 12));
            // the second shuffled sub-range sat untouched through the first
            assert(middle.subrange(13, 26) =~= middle.subrange(12, 26).subrange(1, 14));
            assert(before.subrange(13, 26) =~= before.subrange(12, 26).subrange(1, 14));
        }
        v
    }

    /// Swap two uniformly chosen distinct positions.
    fn mutate(&self, k: &Vec<u8>) -> (m: Vec<u8>) {
        proof {
            lemma_permutation_by_counts(k@, sub_alphabet());
        }
        let mut m = copy_bytes(k);
        let (i, j) = two_distinct_indices(m.len());
        swap_bytes(&mut m, i, j);
        proof {
            assert(swapped_at(k@, m@, i as int, j as int));
        }
        m
    }

    fn decrypt(&self, cipher: &Vec<u8>, key: &Vec<u8>) -> (p: Vec<u8>) {
        remap(cipher, key)
    }
}

/// Copy a byte vector.
pub fn copy_bytes(v: &Vec<u8>) -> (r: Vec<u8>)
    ensures
        r@ == v@,
{
    let mut r: Vec<u8> = Vec::new();
    let mut i: usize = 0;
    while i < v.len()
        invariant
            i <= v@.len(),
            r@ =~= v@.subrange(0, i as int),
        decreases v@.len() - i,
    {
        r.push(v[i]);
        i = i + 1;
    }
    proof {
        assert(r@ =~= v@);
    }
    r
}

impl KeySpace for GridStrategy {
    open spec fn alphabet(&self) -> Seq<u8> {
        grid_alphabet()
    }

    open spec fn cipher_ok(&self, cipher: Seq<u8>) -> bool {
        all_grid(cipher)
    }

    /// Fresh grid keys carry no bias: any permutation may come out.
    open spec fn generate_ok(&self, k: Seq<u8>) -> bool {
        true
    }

    /// A perturbed key is the key reversed, or with two distinct columns
    /// exchanged, or two distinct rows, or two distinct positions.
    open spec fn mutate_ok(&self, k: Seq<u8>, m: Seq<u8>) -> bool {
        ||| m == k.reverse()
        ||| exists|c0: int, c1: int| cols_swapped(k, m, c0, c1)
        ||| exists|r0: int, r1: int| rows_swapped(k, m, r0, r1)
        ||| is_swap(k, m)
    }

    open spec fn decrypt_spec(&self, cipher: Seq<u8>, key: Seq<u8>) -> Seq<u8> {
        playfair_plain(cipher, key)
    }

    /// A full uniform shuffle of the grid alphabet.
    fn generate(&self) -> (k: Vec<u8>) {
        let mut v = grid_alphabet_vec();
        let ghost before = v@;
        shuffle_range(&mut v, 0, 25);
        proof {
            lemma_splice_preserves_multiset(before, v@, 0, 25);
        }
        v
    }

    /// Weighted perturbation: reverse the whole key, swap two of the five
    /// columns, swap two of the five rows, or swap two arbitrary positions.
    fn mutate(&self, k: &Vec<u8>) -> (m: Vec<u8>) {
        proof {
            lemma_permutation_by_counts(k@, grid_alphabet());
        }
        let mut m = copy_bytes(k);
        let draw = random_below(100);
        if draw >= 95 {
            reverse_bytes(&mut m);
        } else if draw >= 90 {
            let (c0, c1) = two_distinct_indices(5);
            let mut row: usize = 0;
            while row < 5
                invariant
                    c0 < 5,
                    c1 < 5,
                    c0 != c1,
                    row <= 5,
                    k@.len() == 25,
                    m@.len() == 25,
                    m@.to_multiset() == k@.to_multiset(),
                    forall|r: int, c: int| 0 <= r < 5 && 0 <= c < 5 ==> #[trigger] grid_cell(
                        m@,
                        r,
                        c,
                    ) == (if r < row && c == c0 {
                        grid_cell(k@, r, c1 as int)
                    } else if r < row && c == c1 {
                        grid_cell(k@, r, c0 as int)
                    } else {
                        grid_cell(k@, r, c)
                    }),
                decreases 5 - row,
            {
                let ghost pre = m@;
                swap_bytes(&mut m, row * 5 + c0, row * 5 + c1);
                proof {
                    assert forall|r: int, c: int| 0 <= r < 5 && 0 <= c < 5 implies #[trigger]
                    grid_cell(m@, r, c) == (if r < row + 1 && c == c0 {
                        grid_cell(k@, r, c1 as int)
                    } else if r < row + 1 && c == c1 {
                        grid_cell(k@, r, c0 as int)
                    } else {
                        grid_cell(k@, r, c)
                    }) by {
                        assert(grid_cell(pre, r, c) == pre[r * 5 + c]);
                        assert(grid_cell(pre, row as int, c0 as int) == pre[row * 5 + c0]);
                        assert(grid_cell(pre, row as int, c1 as int) == pre[row * 5 + c1]);
                        assert(grid_cell(m@, r, c) == m@[r * 5 + c]);
                    }
                }
                row = row + 1;
            }
            proof {
                assert(cols_swapped(k@, m@, c0 as int, c1 as int));
            }
        } else if draw >= 85 {
            let (r0, r1) = two_distinct_indices(5);
            let mut col: usize = 0;
            while col < 5
                invariant
                    r0 < 5,
                    r1 < 5,
                    r0 != r1,
                    col <= 5,
                    k@.len() == 25,
                    m@.len() == 25,
                    m@.to_multiset() == k@.to_multiset(),
                    forall|r: int, c: int| 0 <= r < 5 && 0 <= c < 5 ==> #[trigger] grid_cell(
                        m@,
                        r,
                        c,
                    ) == (if c < col && r == r0 {
                        grid_cell(k@, r1 as int, c)
                    } else if c < col && r == r1 {
                        grid_cell(k@, r0 as int, c)
                    } else {
                        grid_cell(k@, r, c)
                    }),
                decreases 5 - col,
            {
                let ghost pre = m@;
                swap_bytes(&mut m, r0 * 5 + col, r1 * 5 + col);
                proof {
                    assert forall|r: int, c: int| 0 <= r < 5 && 0 <= c < 5 implies #[trigger]
                    grid_cell(m@, r, c) == (if c < col + 1 && r == r0 {
                        grid_cell(k@, r1 as int, c)
                    } else if c < col + 1 && r == r1 {
                        grid_cell(k@, r0 as int, c)
                    } else {
                        grid_cell(k@, r, c)
                    }) by {
                        assert(grid_cell(pre, r, c) == pre[r * 5 + c]);
                        assert(grid_cell(pre, r0 as int, col as int) == pre[r0 * 5 + col]);
                        assert(grid_cell(pre, r1 as int, col as int) == pre[r1 * 5 + col]);
                        assert(grid_cell(m@, r, c) == m@[r * 5 + c]);
                    }
                }
                col = col + 1;
            }
            proof {
                assert(rows_swapped(k@, m@, r0 as int, r1 as int));
            }
        } else {
            let (i, j) = two_distinct_indices(m.len());
            swap_bytes(&mut m, i, j);
            proof {
                assert(swapped_at(k@, m@, i as int, j as int));
            }
        }
        m
    }

    fn decrypt(&self, cipher: &Vec<u8>, key: &Vec<u8>) -> (p: Vec<u8>) {
        playfair_decrypt(cipher, key)
    }
}

/// Reverse a byte vector in place by swapping ends.
fn reverse_bytes(v: &mut Vec<u8>)
    ensures
        final(v)@ == old(v)@.reverse(),
        final(v)@.to_multiset() == old(v)@.to_multiset(),
{
    let n = v.len();
    let mut i: usize = 0;
    while i < n / 2
        invariant
            n == v@.len(),
            n == old(v)@.len(),
            i <= n / 2,
            forall|x: int| 0 <= x < i ==> v@[x] == old(v)@[n - 1 - x],
            forall|x: int| 0 <= x < i ==> v@[n - 1 - x] == old(v)@[x],
            forall|x: int| i <= x < n - i ==> v@[x] == old(v)@[x],
        decreases n / 2 - i,
    {
        swap_bytes(v, i, n - 1 - i);
        i = i + 1;
    }
    proof {
        assert forall|x: int| 0 <= x < n implies v@[x] == old(v)@[n - 1 - x] by {
            if x >= n / 2 {
                assert(v@[n - 1 - (n - 1 - x)] == old(v)@[n - 1 - x] || v@[x] == old(v)@[x]);
            }
        }
        assert(v@ =~= old(v)@.reverse());
        old(v)@.lemma_reverse_to_multiset();
    }
}

} // verus!
