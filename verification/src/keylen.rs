//! Key-length estimation: for every candidate length the ciphertext is
//! split into that many interleaved sub-streams, and the average of their
//! indices of coincidence is held against the value of natural English.
//!
//! The filter is deliberately one-sided: a length passes when the
//! average lies below the English value plus the tolerance, so flat
//! distributions pass as well; only averages above that line are
//! rejected.  On the scaled integers the test
//! `average - target < tolerance` becomes
//! `sum of the n indices < (target + tolerance) * n`, exactly.

use vstd::prelude::*;
use vstd::arithmetic::div_mod::lemma_div_is_ordered_by_denominator;
use vstd::arithmetic::div_mod::lemma_fundamental_div_mod;
use vstd::arithmetic::mul::lemma_mul_inequality;
use crate::freq::ic_scaled_spec;
use crate::freq::index_of_coincidence;
use crate::freq::IC_SCALED_MAX;
use crate::normalize::is_normalized;
use crate::normalize::is_upper;

verus! {

/// The largest key length the estimator considers.
pub const MAX_KEY_LENGTH: u32 = 32;

/// Scaled index of coincidence of typical English text (1.73).
pub const ENGLISH_IC_SCALED: u64 = 1_730_000;

/// Scaled tolerance of the candidate filter (0.20).
pub const IC_TOLERANCE_SCALED: u64 = 200_000;

/// Length of sub-stream `j` of a text of `len` letters under candidate
/// length `n`: the number of indices `j, j + n, j + 2n, ...` below `len`.
pub open spec fn substream_len(len: int, n: int, j: int) -> nat
    recommends
        1 <= n,
        0 <= j < n,
{
    if len <= j {
        0
    } else {
        ((len - j - 1) / n + 1) as nat
    }
}

/// Sub-stream `j` of the text under candidate length `n`: every n-th
/// letter starting at offset `j`, in order.
pub open spec fn substream(s: Seq<u8>, n: int, j: int) -> Seq<u8>
    recommends
        1 <= n,
        0 <= j < n,
{
    Seq::new(substream_len(s.len() as int, n, j), |m: int| s[j + m * n])
}

/// Positions of a sub-stream lie inside the text: below its length the
/// m-th position is in bounds, at its length it is not.
pub proof fn lemma_substream_position(len: int, n: int, j: int, m: int)
    requires
        1 <= n,
        0 <= j < n,
        0 <= m,
    ensures
        m < substream_len(len, n, j) ==> j + m * n < len,
        m >= substream_len(len, n, j) ==> j + m * n >= len,
{
    if len > j {
        let a = len - j - 1;
        if m <= a / n {
            lemma_mul_inequality(m, a / n, n);
            lemma_fundamental_div_mod(a, n);
            lemma_mul_inequality(0, a % n, 1);
            assert((a / n) * n <= a) by (nonlinear_arith)
                requires
                    1 <= n,
                    0 <= a,
                    a == n * (a / n) + a % n,
                    0 <= a % n,
            ;
        } else {
            assert(a / n + 1 <= m);
            lemma_mul_inequality(a / n + 1, m, n);
            lemma_fundamental_div_mod(a, n);
            assert(a < (a / n + 1) * n) by (nonlinear_arith)
                requires
                    1 <= n,
                    a == n * (a / n) + a % n,
                    a % n < n,
            ;
        }
    } else {
        assert(m * n >= 0) by (nonlinear_arith)
            requires
                0 <= m,
                1 <= n,
        ;
    }
}

/// A sub-stream is never longer than the text it is drawn from.
pub proof fn lemma_substream_len_le(len: int, n: int, j: int)
    requires
        1 <= n,
        0 <= j < n,
        0 <= len,
    ensures
        substream_len(len, n, j) <= len,
{
    if len > j {
        let a = len - j - 1;
        lemma_div_is_ordered_by_denominator(a, 1, n);
        assert(a / 1 == a);
    }
}

/// Sub-streams of a normalized text are normalized.
pub proof fn lemma_substream_normalized(s: Seq<u8>, n: int, j: int)
    requires
        is_normalized(s),
        1 <= n,
        0 <= j < n,
    ensures
        is_normalized(substream(s, n, j)),
{
    let sub = substream(s, n, j);
    assert forall|m: int| 0 <= m < sub.len() implies is_upper(sub[m]) by {
        lemma_substream_position(s.len() as int, n, j, m);
        assert(is_upper(s[j + m * n]));
    }
}

/// Splits the text into `key_length` interleaved sub-streams: entry `j`
/// holds every `key_length`-th letter starting at offset `j`.
pub fn transpose(cipher_text: &[u8], key_length: u32) -> (substrings: Vec<Vec<u8>>)
    requires
        is_normalized(cipher_text@),
        1 <= key_length,
        cipher_text@.len() + key_length <= usize::MAX,
    ensures
        substrings@.len() == key_length,
        forall|j: int|
            0 <= j < key_length ==> #[trigger] substrings@[j]@ == substream(
                cipher_text@,
                key_length as int,
                j,
            ),
{
    let ghost t = cipher_text@;
    let n = key_length as usize;
    let mut substrings: Vec<Vec<u8>> = Vec::new();
    let mut j: usize = 0;
    while j < n
        invariant
            is_normalized(t),
            t == cipher_text@,
            1 <= n <= u32::MAX,
            n == key_length,
            t.len() + n <= usize::MAX,
            j <= n,
            substrings@.len() == j,
            forall|jj: int|
                0 <= jj < j ==> #[trigger] substrings@[jj]@ == substream(t, n as int, jj),
        decreases n - j,
    {
        let mut sub: Vec<u8> = Vec::new();
        let mut idx: usize = j;
        let ghost mut m: int = 0;
        while idx < cipher_text.len()
            invariant
                is_normalized(t),
                t == cipher_text@,
                1 <= n,
                t.len() + n <= usize::MAX,
                j < n,
                0 <= m,
                idx == j + m * n,
                m <= substream_len(t.len() as int, n as int, j as int),
                sub@ == substream(t, n as int, j as int).take(m),
            decreases t.len() + n - idx,
        {
            proof {
                lemma_substream_position(t.len() as int, n as int, j as int, m);
                assert(m < substream_len(t.len() as int, n as int, j as int));
                let full = substream(t, n as int, j as int);
                assert(full[m] == t[j + m * n]);
                assert(full.take(m + 1) =~= full.take(m).push(full[m]));
            }
            sub.push(cipher_text[idx]);
            idx = idx + n;
            proof {
                m = m + 1;
                assert(j + m * n == j + (m - 1) * n + n) by (nonlinear_arith);
            }
        }
        proof {
            lemma_substream_position(t.len() as int, n as int, j as int, m);
            let sl = substream_len(t.len() as int, n as int, j as int);
            assert(m == sl);
            let full = substream(t, n as int, j as int);
            assert(full.take(sl as int) =~= full);
        }
        substrings.push(sub);
        j = j + 1;
    }
    substrings
}

/// Sum of the scaled indices of coincidence of the first `j` sub-streams
/// under candidate length `n`.
pub open spec fn sum_ic(s: Seq<u8>, n: int, j: int) -> int
    decreases j,
{
    if j <= 0 {
        0
    } else {
        sum_ic(s, n, j - 1) + ic_scaled_spec(substream(s, n, j - 1))
    }
}

/// The candidate filter: length `n` passes when the average scaled index
/// of coincidence of its sub-streams lies below target plus tolerance,
/// i.e. when the sum over the `n` sub-streams lies below
/// `(target + tolerance) * n`.
pub open spec fn is_candidate(s: Seq<u8>, n: int) -> bool {
    sum_ic(s, n, n) < (ENGLISH_IC_SCALED + IC_TOLERANCE_SCALED) * n
}

/// The candidate lengths among `1..=max`, in ascending order.
pub open spec fn candidates_up_to(s: Seq<u8>, max: int) -> Seq<u32>
    decreases max,
{
    if max <= 0 {
        Seq::empty()
    } else if is_candidate(s, max) {
        candidates_up_to(s, max - 1).push(max as u32)
    } else {
        candidates_up_to(s, max - 1)
    }
}

/// Every reported candidate lies between 1 and the bound, and the list
/// ascends strictly.
pub proof fn lemma_candidates_range(s: Seq<u8>, max: int)
    requires
        0 <= max <= 32,
    ensures
        forall|i: int|
            0 <= i < candidates_up_to(s, max).len() ==> 1 <= #[trigger] candidates_up_to(s, max)[i]
                <= max,
        forall|i1: int, i2: int|
            0 <= i1 < i2 < candidates_up_to(s, max).len() ==> candidates_up_to(s, max)[i1]
                < candidates_up_to(s, max)[i2],
    decreases max,
{
    if max > 0 {
        lemma_candidates_range(s, max - 1);
        let prev = candidates_up_to(s, max - 1);
        let cur = candidates_up_to(s, max);
        assert forall|i: int| 0 <= i < cur.len() implies 1 <= #[trigger] cur[i] <= max by {
            if i < prev.len() {
                assert(cur[i] == prev[i]);
            }
        }
        assert forall|i1: int, i2: int| 0 <= i1 < i2 < cur.len() implies cur[i1] < cur[i2] by {
            if i2 < prev.len() {
                assert(cur[i1] == prev[i1] && cur[i2] == prev[i2]);
            } else if i2 == prev.len() && cur.len() > prev.len() {
                assert(cur[i1] == prev[i1]);
                assert(cur[i2] == max as u32);
            }
        }
    }
}

/// Law: the candidate list is exactly the filter.  A length between 1
/// and the bound appears among the candidates if and only if its
/// sub-stream average passes the one-sided tolerance test.
pub proof fn lemma_candidates_contains(s: Seq<u8>, max: int, n: int)
    requires
        0 <= max <= 32,
        1 <= n <= max,
    ensures
        candidates_up_to(s, max).contains(n as u32) <==> is_candidate(s, n),
    decreases max,
{
    let prev = candidates_up_to(s, max - 1);
    let cur = candidates_up_to(s, max);
    lemma_candidates_range(s, max - 1);
    if n == max {
        assert(!prev.contains(n as u32));
        if is_candidate(s, max) {
            assert(cur[cur.len() - 1] == n as u32);
            assert(cur.contains(n as u32));
        } else {
            assert(cur == prev);
        }
    } else {
        lemma_candidates_contains(s, max - 1, n);
        if is_candidate(s, max) {
            assert(cur == prev.push(max as u32));
            if prev.contains(n as u32) {
                let i = choose|i: int| 0 <= i < prev.len() && prev[i] == n as u32;
                assert(cur[i] == n as u32);
            }
            if cur.contains(n as u32) {
                let i = choose|i: int| 0 <= i < cur.len() && cur[i] == n as u32;
                assert(i < prev.len());
                assert(prev[i] == n as u32);
            }
        } else {
            assert(cur == prev);
        }
    }
}

/// Reports every key length from 1 to `MAX_KEY_LENGTH` whose sub-stream
/// average passes the filter, ascending.  An empty ciphertext yields an
/// empty list.  The length bounds keep the sub-stream statistics inside
/// machine arithmetic.
pub fn possible_key_length(cipher_text: &[u8]) -> (key_lens: Vec<u32>)
    requires
        is_normalized(cipher_text@),
        cipher_text@.len() < 0x1_0000_0000,
        cipher_text@.len() + MAX_KEY_LENGTH <= usize::MAX,
    ensures
        cipher_text@.len() == 0 ==> key_lens@ == Seq::<u32>::empty(),
        cipher_text@.len() > 0 ==> key_lens@ == candidates_up_to(
            cipher_text@,
            MAX_KEY_LENGTH as int,
        ),
{
    let ghost t = cipher_text@;
    let mut key_lens: Vec<u32> = Vec::new();
    if cipher_text.len() == 0 {
        return key_lens;
    }
    let mut n: u32 = 1;
    while n <= MAX_KEY_LENGTH
        invariant
            is_normalized(t),
            t == cipher_text@,
            0 < t.len() < 0x1_0000_0000,
            t.len() + MAX_KEY_LENGTH <= usize::MAX,
            1 <= n <= MAX_KEY_LENGTH + 1,
            key_lens@ == candidates_up_to(t, n as int - 1),
        decreases MAX_KEY_LENGTH + 1 - n,
    {
        let substrings = transpose(cipher_text, n);
        let mut total: u64 = 0;
        let mut j: usize = 0;
        while j < substrings.len()
            invariant
                is_normalized(t),
                t == cipher_text@,
                t.len() < 0x1_0000_0000,
                1 <= n <= MAX_KEY_LENGTH,
                substrings@.len() == n,
                forall|jj: int|
                    0 <= jj < n ==> #[trigger] substrings@[jj]@ == substream(t, n as int, jj),
                j <= n,
                total == sum_ic(t, n as int, j as int),
                total <= j * IC_SCALED_MAX,
            decreases substrings@.len() - j,
        {
            proof {
                lemma_substream_normalized(t, n as int, j as int);
                lemma_substream_len_le(t.len() as int, n as int, j as int);
                assert(j * IC_SCALED_MAX + IC_SCALED_MAX == (j + 1) * IC_SCALED_MAX) by (
                nonlinear_arith);
                assert(j * IC_SCALED_MAX <= 32 * IC_SCALED_MAX) by (nonlinear_arith)
                    requires
                        0 <= j <= 32,
            ;
            }
            let ic = index_of_coincidence(substrings[j].as_slice());
            total = total + ic;
            j = j + 1;
        }
        proof {
            assert((ENGLISH_IC_SCALED + IC_TOLERANCE_SCALED) * (n as int) <= 63_690_000) by (
            nonlinear_arith)
                requires
                    1 <= n <= 33,
            ;
        }
        if total < (ENGLISH_IC_SCALED + IC_TOLERANCE_SCALED) * (n as u64) {
            key_lens.push(n);
        }
        n = n + 1;
    }
    key_lens
}

} // verus!
