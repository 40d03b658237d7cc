//! Letter-frequency fingerprint of a text: each letter's occurrence count,
//! ranked by count, scored by how well the ranking agrees with the
//! frequency order of English letters.

use vstd::prelude::*;
use crate::perm::count_in;
use crate::perm::count_byte;

verus! {

/// The 26 letters in English frequency order, most frequent first.
pub open spec fn engl_freqs() -> Seq<u8> {
    seq![69u8, 84u8, 65u8, 79u8, 73u8, 78u8, 83u8, 82u8, 72u8, 68u8, 76u8, 85u8, 67u8, 77u8, 70u8,
        89u8, 87u8, 71u8, 80u8, 66u8, 86u8, 75u8, 88u8, 81u8, 74u8, 90u8]
}

/// A letter's worth: 26 for the most frequent English letter down to 1 for
/// the least, 0 for anything that is no uppercase letter.
pub open spec fn engl_value(c: u8) -> int {
    if c == 69 {
        26
    } else if c == 84 {
        25
    } else if c == 65 {
        24
    } else if c == 79 {
        23
    } else if c == 73 {
        22
    } else if c == 78 {
        21
    } else if c == 83 {
        20
    } else if c == 82 {
        19
    } else if c == 72 {
        18
    } else if c == 68 {
        17
    } else if c == 76 {
        16
    } else if c == 85 {
        15
    } else if c == 67 {
        14
    } else if c == 77 {
        13
    } else if c == 70 {
        12
    } else if c == 89 {
        11
    } else if c == 87 {
        10
    } else if c == 71 {
        9
    } else if c == 80 {
        8
    } else if c == 66 {
        7
    } else if c == 86 {
        6
    } else if c == 75 {
        5
    } else if c == 88 {
        4
    } else if c == 81 {
        3
    } else if c == 74 {
        2
    } else if c == 90 {
        1
    } else {
        0
    }
}

/// Look a letter's worth up.
fn engl_value_exec(c: u8) -> (v: u32)
    ensures
        v as int == engl_value(c),
{
    if c == 69 {
        26
    } else if c == 84 {
        25
    } else if c == 65 {
        24
    } else if c == 79 {
        23
    } else if c == 73 {
        22
    } else if c == 78 {
        21
    } else if c == 83 {
        20
    } else if c == 82 {
        19
    } else if c == 72 {
        18
    } else if c == 68 {
        17
    } else if c == 76 {
        16
    } else if c == 85 {
        15
    } else if c == 67 {
        14
    } else if c == 77 {
        13
    } else if c == 70 {
        12
    } else if c == 89 {
        11
    } else if c == 87 {
        10
    } else if c == 71 {
        9
    } else if c == 80 {
        8
    } else if c == 66 {
        7
    } else if c == 86 {
        6
    } else if c == 75 {
        5
    } else if c == 88 {
        4
    } else if c == 81 {
        3
    } else if c == 74 {
        2
    } else if c == 90 {
        1
    } else {
        0
    }
}

/// Build the frequency-order letter list.
pub fn engl_freqs_vec() -> (v: Vec<u8>)
    ensures
        v@ == engl_freqs(),
{
    let mut v: Vec<u8> = Vec::new();
    v.push(69);
    v.push(84);
    v.push(65);
    v.push(79);
    v.push(73);
    v.push(78);
    v.push(83);
    v.push(82);
    v.push(72);
    v.push(68);
    v.push(76);
    v.push(85);
    v.push(67);
    v.push(77);
    v.push(70);
    v.push(89);
    v.push(87);
    v.push(71);
    v.push(80);
    v.push(66);
    v.push(86);
    v.push(75);
    v.push(88);
    v.push(81);
    v.push(74);
    v.push(90);
    proof {
        assert(v@ =~= engl_freqs());
    }
    v
}

/// The ranking score of the first `n` ranked letters: each rank multiplies
/// its letter's worth by a multiplier that falls from 26 with the rank.
pub open spec fn calc_score_upto(freqs: Seq<(u8, u32)>, n: int) -> int
    decreases n,
{
    if n <= 0 {
        0
    } else {
        calc_score_upto(freqs, n - 1) + engl_value(freqs[n - 1].0) * (26 - (n - 1))
    }
}

/// The ranking score of a full ranked letter list.
pub open spec fn calc_score_spec(freqs: Seq<(u8, u32)>) -> int {
    calc_score_upto(freqs, freqs.len() as int)
}

/// The frequency fingerprint: each letter with its count, ranked by count,
/// and the ranking score.
pub struct Freq {
    /// The letters with their counts, most frequent first; letters of
    /// equal count keep English frequency order.
    pub freqs: Vec<(u8, u32)>,
    /// The ranking score of that order.
    pub score: u32,
}

impl Freq {
    /// Score a ranked letter list: the sum over ranks of the letter's worth
    /// times a multiplier falling from 26. Every letter must be one of the
    /// 26 ranked English letters.
    pub fn calc_score(freqs: &Vec<(u8, u32)>) -> (score: u32)
        requires
            freqs@.len() == 26,
            forall|i: int| 0 <= i < 26 ==> engl_value(#[trigger] freqs@[i].0) >= 1,
        ensures
            score as int == calc_score_spec(freqs@),
    {
        let mut score: u32 = 0;
        let mut i: usize = 0;
        while i < 26
            invariant
                i <= 26,
                freqs@.len() == 26,
                forall|j: int| 0 <= j < 26 ==> engl_value(#[trigger] freqs@[j].0) >= 1,
                score as int == calc_score_upto(freqs@, i as int),
                score <= 676 * i,
            decreases 26 - i,
        {
            let v = engl_value_exec(freqs[i].0);
            let mult: u32 = (26 - i) as u32;
            proof {
                assert(engl_value(freqs@[i as int].0) <= 26);
                assert((v as int) * (mult as int) <= 676) by (nonlinear_arith)
                    requires
                        0 <= v as int <= 26,
                        0 <= mult as int <= 26,
                ;
            }
            score = score + v * mult;
            i = i + 1;
        }
        score
    }

    /// Count each ranked letter in the text.
    pub open spec fn base_freqs(text: Seq<u8>) -> Seq<(u8, u32)> {
        Seq::new(26, |i: int| (engl_freqs()[i], count_in(text, engl_freqs()[i]) as u32))
    }

    /// Fingerprint a text: count each of the 26 letters, rank them by
    /// count — letters of equal count keeping English frequency order —
    /// and score the ranking.
    pub fn from_text(text: &Vec<u8>) -> (f: Freq)
        requires
            text@.len() <= 0xFFFFFFFF,
        ensures
            f.freqs@ == sort_desc(Freq::base_freqs(text@)),
            f.score as int == calc_score_spec(f.freqs@),
    {
        let ghost base = Freq::base_freqs(text@);
        let letters = engl_freqs_vec();
        let mut counted: Vec<(u8, u32)> = Vec::new();
        let mut i: usize = 0;
        while i < 26
            invariant
                i <= 26,
                letters@ == engl_freqs(),
                text@.len() <= 0xFFFFFFFF,
                base == Freq::base_freqs(text@),
                counted@ =~= base.subrange(0, i as int),
            decreases 26 - i,
        {
            let c = letters[i];
            proof {
                crate::perm::lemma_count_le_len(text@, c);
            }
            let n = count_byte(text, c);
            counted.push((c, n as u32));
            proof {
                assert(counted@ =~= base.subrange(0, i + 1));
            }
            i = i + 1;
        }
        proof {
            assert(counted@ =~= base);
        }
        let mut sorted: Vec<(u8, u32)> = Vec::new();
        let mut i: usize = 0;
        proof {
            assert(base.take(0) =~= Seq::<(u8, u32)>::empty());
        }
        while i < 26
            invariant
                i <= 26,
                counted@ == base,
                base == Freq::base_freqs(text@),
                base.len() == 26,
                sorted@ == sort_desc(base.take(i as int)),
                sorted@.len() == i,
                forall|k: int| 0 <= k < i ==> engl_value(#[trigger] sorted@[k].0) >= 1,
            decreases 26 - i,
        {
            proof {
                assert(base.take(i + 1).drop_last() =~= base.take(i as int));
                assert(base.take(i + 1).last() == base[i as int]);
                assert(base[i as int].0 == engl_freqs()[i as int]);
                assert(engl_value(base[i as int].0) >= 1);
                lemma_insert_desc_keeps(base[i as int], sorted@);
            }
            let x = counted[i];
            insert_sorted(&mut sorted, x);
            i = i + 1;
        }
        proof {
            assert(base.take(26) =~= base);
        }
        let score = Freq::calc_score(&sorted);
        Freq { freqs: sorted, score }
    }
}

/// A ranked list ordered by falling count; a new entry goes behind every
/// entry whose count is at least its own, so equal counts keep their order.
pub open spec fn insert_desc(x: (u8, u32), s: Seq<(u8, u32)>) -> Seq<(u8, u32)>
    decreases s.len(),
{
    if s.len() == 0 {
        seq![x]
    } else if s.first().1 < x.1 {
        seq![x] + s
    } else {
        seq![s.first()] + insert_desc(x, s.drop_first())
    }
}

/// Rank a list by falling count, stably, by repeated ordered insertion.
pub open spec fn sort_desc(s: Seq<(u8, u32)>) -> Seq<(u8, u32)>
    decreases s.len(),
{
    if s.len() == 0 {
        s
    } else {
        insert_desc(s.last(), sort_desc(s.drop_last()))
    }
}

/// An ordered insert splits at any prefix of counts at least the new one.
proof fn lemma_insert_desc_split(s: Seq<(u8, u32)>, x: (u8, u32), i: int)
    requires
        0 <= i <= s.len(),
        forall|j: int| 0 <= j < i ==> (#[trigger] s[j]).1 >= x.1,
    ensures
        insert_desc(x, s) == s.take(i) + insert_desc(x, s.skip(i)),
    decreases i,
{
    if i == 0 {
        assert(s.skip(0) =~= s);
        assert(s.take(0) + insert_desc(x, s) =~= insert_desc(x, s));
    } else {
        assert(s[0].1 >= x.1);
        assert(insert_desc(x, s) == seq![s.first()] + insert_desc(x, s.drop_first()));
        assert(forall|j: int| 0 <= j < i - 1 ==> (#[trigger] s.drop_first()[j]).1 >= x.1);
        lemma_insert_desc_split(s.drop_first(), x, i - 1);
        assert(s.drop_first().take(i - 1) =~= s.take(i).drop_first());
        assert(s.drop_first().skip(i - 1) =~= s.skip(i));
        assert(seq![s.first()] + (s.take(i).drop_first() + insert_desc(x, s.skip(i))) =~= s.take(i)
            + insert_desc(x, s.skip(i)));
    }
}

/// Ordered insertion keeps every entry a ranked letter.
proof fn lemma_insert_desc_keeps(x: (u8, u32), s: Seq<(u8, u32)>)
    requires
        engl_value(x.0) >= 1,
        forall|k: int| 0 <= k < s.len() ==> engl_value((#[trigger] s[k]).0) >= 1,
    ensures
        insert_desc(x, s).len() == s.len() + 1,
        forall|k: int| 0 <= k < s.len() + 1 ==> engl_value((#[trigger] insert_desc(x, s)[k]).0)
            >= 1,
    decreases s.len(),
{
    if s.len() == 0 {
    } else if s.first().1 < x.1 {
    } else {
        assert(forall|k: int| 0 <= k < s.drop_first().len() ==> engl_value(
            (#[trigger] s.drop_first()[k]).0,
        ) >= 1);
        lemma_insert_desc_keeps(x, s.drop_first());
    }
}

/// Insert an entry into a ranked list, behind every entry whose count is at
/// least its own.
fn insert_sorted(v: &mut Vec<(u8, u32)>, x: (u8, u32))
    ensures
        final(v)@ == insert_desc(x, old(v)@),
        final(v)@.len() == old(v)@.len() + 1,
{
    let ghost s0 = v@;
    let n = v.len();
    let mut i: usize = 0;
    while i < n && v[i].1 >= x.1
        invariant
            n == v@.len(),
            v@ == s0,
            i <= n,
            forall|j: int| 0 <= j < i ==> (#[trigger] s0[j]).1 >= x.1,
        decreases n - i,
    {
        i = i + 1;
    }
    proof {
        lemma_insert_desc_split(s0, x, i as int);
        if i < n {
            assert(s0.skip(i as int).first() == s0[i as int]);
            assert(insert_desc(x, s0.skip(i as int)) == seq![x] + s0.skip(i as int));
        } else {
            assert(s0.skip(i as int) =~= Seq::<(u8, u32)>::empty());
            assert(insert_desc(x, s0.skip(i as int)) =~= seq![x]);
            assert(insert_desc(x, s0.skip(i as int)) == seq![x] + s0.skip(i as int));
        }
        assert(s0.take(i as int) + (seq![x] + s0.skip(i as int)) =~= s0.insert(i as int, x));
    }
    v.insert(i, x);
}

impl PartialEq for Freq {
    /// Fingerprints compare by their ranking score alone.
    fn eq(&self, other: &Self) -> (r: bool) {
        self.score == other.score
    }
}

impl Eq for Freq {

}

impl vstd::std_specs::cmp::PartialEqSpecImpl for Freq {
    open spec fn obeys_eq_spec() -> bool {
        true
    }

    open spec fn eq_spec(&self, other: &Freq) -> bool {
        self.score == other.score
    }
}

impl PartialOrd for Freq {
    /// Fingerprints order by their ranking score alone.
    fn partial_cmp(&self, other: &Self) -> (r: Option<core::cmp::Ordering>) {
        if self.score > other.score {
            Some(core::cmp::Ordering::Greater)
        } else if self.score < other.score {
            Some(core::cmp::Ordering::Less)
        } else {
            Some(core::cmp::Ordering::Equal)
        }
    }
}

impl vstd::std_specs::cmp::PartialOrdSpecImpl for Freq {
    open spec fn obeys_partial_cmp_spec() -> bool {
        true
    }

    open spec fn partial_cmp_spec(&self, other: &Freq) -> Option<core::cmp::Ordering> {
        if self.score > other.score {
            Some(core::cmp::Ordering::Greater)
        } else if self.score < other.score {
            Some(core::cmp::Ordering::Less)
        } else {
            Some(core::cmp::Ordering::Equal)
        }
    }
}

} // verus!
