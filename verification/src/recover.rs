//! Key recovery: for each sub-stream every one of the 26 shift letters is
//! tried, the decode is scored against the English reference frequencies,
//! and the best letter is kept.
//!
//! The reference table is in thousandths of a percent (slot A holds 8167
//! for 8.167 percent), so a score is the exact integer
//! `sum over letters of count * reference`.  Ties go to the later letter
//! of the alphabetical scan: a candidate whose score equals the running
//! best replaces it.  An empty sub-stream scores zero for every
//! candidate and recovers the letter A.

use vstd::prelude::*;
use crate::cipher::vig_spec;
use crate::cipher::vigenere_bytes;
use crate::freq::count_letter_freq;
use crate::freq::count_occ;
use crate::freq::lemma_count_occ_le_len;
use crate::normalize::is_normalized;

verus! {

/// English reference frequency of letter `i` (0 is A), in thousandths
/// of a percent.
pub open spec fn english_freq_milli(i: int) -> u64 {
    if i == 0 {
        8167
    } else if i == 1 {
        1492
    } else if i == 2 {
        2782
    } else if i == 3 {
        4253
    } else if i == 4 {
        12702
    } else if i == 5 {
        2228
    } else if i == 6 {
        2015
    } else if i == 7 {
        6094
    } else if i == 8 {
        6966
    } else if i == 9 {
        153
    } else if i == 10 {
        772
    } else if i == 11 {
        4025
    } else if i == 12 {
        2406
    } else if i == 13 {
        6749
    } else if i == 14 {
        7507
    } else if i == 15 {
        1929
    } else if i == 16 {
        95
    } else if i == 17 {
        5987
    } else if i == 18 {
        6327
    } else if i == 19 {
        9056
    } else if i == 20 {
        2758
    } else if i == 21 {
        978
    } else if i == 22 {
        2361
    } else if i == 23 {
        150
    } else if i == 24 {
        1974
    } else {
        74
    }
}

/// The reference frequency of letter `i`, as executable code.
fn english_freq_of(i: usize) -> (f: u64)
    requires
        i < 26,
    ensures
        f == english_freq_milli(i as int),
        f <= 12702,
{
    if i == 0 {
        8167
    } else if i == 1 {
        1492
    } else if i == 2 {
        2782
    } else if i == 3 {
        4253
    } else if i == 4 {
        12702
    } else if i == 5 {
        2228
    } else if i == 6 {
        2015
    } else if i == 7 {
        6094
    } else if i == 8 {
        6966
    } else if i == 9 {
        153
    } else if i == 10 {
        772
    } else if i == 11 {
        4025
    } else if i == 12 {
        2406
    } else if i == 13 {
        6749
    } else if i == 14 {
        7507
    } else if i == 15 {
        1929
    } else if i == 16 {
        95
    } else if i == 17 {
        5987
    } else if i == 18 {
        6327
    } else if i == 19 {
        9056
    } else if i == 20 {
        2758
    } else if i == 21 {
        978
    } else if i == 22 {
        2361
    } else if i == 23 {
        150
    } else if i == 24 {
        1974
    } else {
        74
    }
}

/// The sub-stream decoded with the single candidate letter `l` (0 is A).
pub open spec fn decoded_with(sub: Seq<u8>, l: int) -> Seq<u8> {
    vig_spec(seq![(65 + l) as u8], sub, false)
}

/// The frequency score of candidate letter `l` over the first `k`
/// letters of the alphabet: the sum of count times reference frequency
/// over the decode of the sub-stream with `l`.
pub open spec fn score_partial(sub: Seq<u8>, l: int, k: int) -> int
    decreases k,
{
    if k <= 0 {
        0
    } else {
        score_partial(sub, l, k - 1) + count_occ(decoded_with(sub, l), (64 + k) as u8)
            * english_freq_milli(k - 1)
    }
}

/// The full frequency score of candidate letter `l` for a sub-stream.
pub open spec fn score_spec(sub: Seq<u8>, l: int) -> int {
    score_partial(sub, l, 26)
}

/// The candidate kept after scanning the first `k` letters: the running
/// best of the scan, where a later candidate whose score reaches the
/// running best replaces it.
pub open spec fn best_idx(sub: Seq<u8>, k: int) -> int
    decreases k,
{
    if k <= 1 {
        0
    } else if score_spec(sub, k - 1) >= score_spec(sub, best_idx(sub, k - 1)) {
        k - 1
    } else {
        best_idx(sub, k - 1)
    }
}

/// The key letter recovered from one sub-stream, as a byte: the winner
/// of the scan over all 26 candidates, and A for an empty sub-stream.
pub open spec fn key_letter_spec(sub: Seq<u8>) -> u8 {
    if sub.len() == 0 {
        65u8
    } else {
        (65 + best_idx(sub, 26)) as u8
    }
}

/// Law: key recovery is deterministic.  Any two keys recovered from the
/// same sub-streams — two sequences that each pair every sub-stream with
/// its recovered letter — are the same key.
pub proof fn lemma_key_recovery_deterministic(subs: Seq<Seq<u8>>, k1: Seq<u8>, k2: Seq<u8>)
    requires
        k1.len() == subs.len(),
        k2.len() == subs.len(),
        forall|j: int| 0 <= j < subs.len() ==> k1[j] == key_letter_spec(#[trigger] subs[j]),
        forall|j: int| 0 <= j < subs.len() ==> k2[j] == key_letter_spec(#[trigger] subs[j]),
    ensures
        k1 == k2,
{
    assert forall|j: int| 0 <= j < k1.len() implies k1[j] == k2[j] by {
        assert(k1[j] == key_letter_spec(subs[j]));
        assert(k2[j] == key_letter_spec(subs[j]));
    }
    assert(k1 =~= k2);
}

/// The frequency score of one candidate letter for one sub-stream.
fn substream_score(sub: &[u8], letter: u8) -> (sc: u64)
    requires
        is_normalized(sub@),
        sub@.len() < 0x1_0000_0000,
        65 <= letter <= 90,
    ensures
        sc == score_spec(sub@, letter - 65),
{
    let ghost l = letter - 65;
    let mut key_vec: Vec<u8> = Vec::new();
    key_vec.push(letter);
    proof {
        assert(key_vec@ =~= seq![letter]);
    }
    let decoded = vigenere_bytes(key_vec.as_slice(), sub, false);
    proof {
        assert(decoded@ == decoded_with(sub@, l));
    }
    let counts = count_letter_freq(decoded.as_slice());
    let mut total: u64 = 0;
    let mut k: usize = 0;
    while k < 26
        invariant
            counts@.len() == 26,
            forall|i: int| 0 <= i < 26 ==> counts@[i] == count_occ(decoded@, (65 + i) as u8),
            decoded@ == decoded_with(sub@, l),
            decoded@.len() == sub@.len() < 0x1_0000_0000,
            k <= 26,
            total == score_partial(sub@, l, k as int),
            total <= k * 54558520786944,
        decreases 26 - k,
    {
        let c = counts[k];
        let f = english_freq_of(k);
        proof {
            lemma_count_occ_le_len(decoded@, (65 + k) as u8);
            assert(c * f <= 54558520786944) by (nonlinear_arith)
                requires
                    0 <= c < 0x1_0000_0000,
                    0 <= f <= 12702,
            ;
            assert(k * 54558520786944 + 54558520786944 == (k + 1) * 54558520786944) by (
            nonlinear_arith);
            assert((k + 1) * 54558520786944 <= 26 * 54558520786944) by (nonlinear_arith)
                requires
                    0 <= k < 26,
            ;
        }
        total = total + c * f;
        k = k + 1;
    }
    total
}

/// Recovers one key letter per sub-stream and concatenates them in
/// sub-stream order.  For each sub-stream all 26 shift letters are
/// scored against the English reference table and the best is kept;
/// ties go to the later letter of the scan, and an empty sub-stream
/// yields the letter A.
pub fn guess_key(substrings: Vec<Vec<u8>>) -> (key: Vec<u8>)
    requires
        forall|j: int| 0 <= j < substrings@.len() ==> is_normalized(#[trigger] substrings@[j]@),
        forall|j: int|
            0 <= j < substrings@.len() ==> #[trigger] substrings@[j]@.len() < 0x1_0000_0000,
    ensures
        key@.len() == substrings@.len(),
        forall|j: int|
            0 <= j < substrings@.len() ==> key@[j] == key_letter_spec(#[trigger] substrings@[j]@),
        is_normalized(key@),
{
    let mut key: Vec<u8> = Vec::new();
    let mut idx: usize = 0;
    while idx < substrings.len()
        invariant
            forall|j: int| 0 <= j < substrings@.len() ==> is_normalized(#[trigger] substrings@[j]@),
            forall|j: int|
                0 <= j < substrings@.len() ==> #[trigger] substrings@[j]@.len() < 0x1_0000_0000,
            idx <= substrings@.len(),
            key@.len() == idx,
            forall|j: int|
                0 <= j < idx ==> key@[j] == key_letter_spec(#[trigger] substrings@[j]@),
            is_normalized(key@),
        decreases substrings@.len() - idx,
    {
        let sub: &Vec<u8> = &substrings[idx];
        if sub.len() == 0 {
            key.push(65);
        } else {
            let mut best: usize = 0;
            let mut best_score: u64 = substream_score(sub.as_slice(), 65);
            let mut l: usize = 1;
            while l < 26
                invariant
                    is_normalized(sub@),
                    sub@.len() < 0x1_0000_0000,
                    1 <= l <= 26,
                    best < l,
                    best as int == best_idx(sub@, l as int),
                    best_score == score_spec(sub@, best as int),
                decreases 26 - l,
            {
                let sc = substream_score(sub.as_slice(), (l as u8) + 65);
                if sc >= best_score {
                    best = l;
                    best_score = sc;
                }
                l = l + 1;
            }
            key.push((best as u8) + 65);
        }
        idx = idx + 1;
    }
    key
}

} // verus!
