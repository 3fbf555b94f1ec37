//! Frequency analysis: per-letter occurrence counts and the index of
//! coincidence, the statistic that detects monoalphabetic sub-streams.
//!
//! The index of coincidence is kept as an exact integer scaled by one
//! million (the constant `IC_SCALE`), so 1.73 on the percentage-like
//! scale is the value 1_730_000 here.  The length term of the statistic
//! is one less than the text length, a deliberate convention of this
//! library; the degenerate denominator of texts shorter than three
//! letters yields zero rather than a division by zero.

use vstd::prelude::*;
use vstd::arithmetic::div_mod::lemma_div_is_ordered;
use vstd::arithmetic::div_mod::lemma_div_multiples_vanish;
use vstd::arithmetic::mul::lemma_mul_inequality;
use vstd::arithmetic::mul::lemma_mul_nonnegative;
use vstd::arithmetic::mul::lemma_mul_strictly_positive;
use crate::normalize::is_normalized;
use crate::normalize::is_upper;

verus! {

/// The index of coincidence is reported as an integer scaled by this.
pub const IC_SCALE: u64 = 1_000_000;

/// The largest scaled index of coincidence a normalized text can reach:
/// 78 on the unscaled scale, attained by a three-letter text of one
/// repeated letter.
pub const IC_SCALED_MAX: u64 = 78_000_000;

/// Occurrences of the byte `b` in `s`.
pub open spec fn count_occ(s: Seq<u8>, b: u8) -> nat
    decreases s.len(),
{
    if s.len() == 0 {
        0
    } else {
        count_occ(s.drop_last(), b) + if s.last() == b {
            1nat
        } else {
            0nat
        }
    }
}

/// A letter cannot occur more often than the text is long.
pub proof fn lemma_count_occ_le_len(s: Seq<u8>, b: u8)
    ensures
        count_occ(s, b) <= s.len(),
    decreases s.len(),
{
    if s.len() > 0 {
        lemma_count_occ_le_len(s.drop_last(), b);
    }
}

/// Appending a byte raises its own count by one and no other.
pub proof fn lemma_count_occ_push(s: Seq<u8>, b: u8, x: u8)
    ensures
        count_occ(s.push(b), x) == count_occ(s, x) + if x == b {
            1int
        } else {
            0int
        },
{
    assert(s.push(b).drop_last() =~= s);
}

/// Over the first `k` letters of the alphabet, the sum of
/// count * (count - 1): the unnormalized number of equal pairs.
pub open spec fn sum_ff(s: Seq<u8>, k: int) -> int
    decreases k,
{
    if k <= 0 {
        0
    } else {
        sum_ff(s, k - 1) + count_occ(s, (64 + k) as u8) * (count_occ(s, (64 + k) as u8) - 1)
    }
}

/// One term of the pair sum: non-negative, and zero for a zero count.
proof fn lemma_pair_term(c: int)
    requires
        0 <= c,
    ensures
        0 <= c * (c - 1),
        c == 0 ==> c * (c - 1) == 0,
        c == 1 ==> c * (c - 1) == 0,
{
    assert(0 <= c * (c - 1) && (c == 0 ==> c * (c - 1) == 0) && (c == 1 ==> c * (c - 1) == 0))
        by (nonlinear_arith)
        requires
            0 <= c,
    ;
}

/// Every term of the pair sum is non-negative, so the sum is.
pub proof fn lemma_sum_ff_nonneg(s: Seq<u8>, k: int)
    ensures
        0 <= sum_ff(s, k),
    decreases k,
{
    if k > 0 {
        lemma_sum_ff_nonneg(s, k - 1);
        lemma_pair_term(count_occ(s, (64 + k) as u8) as int);
    }
}

/// The pair sum grows with the number of letters it covers.
pub proof fn lemma_sum_ff_monotone(s: Seq<u8>, k1: int, k2: int)
    requires
        k1 <= k2,
    ensures
        sum_ff(s, k1) <= sum_ff(s, k2),
    decreases k2 - k1,
{
    if k1 < k2 {
        lemma_sum_ff_monotone(s, k1, k2 - 1);
        lemma_pair_term(count_occ(s, (64 + k2) as u8) as int);
    }
}

/// Appending the letter `b` adds exactly twice its old count to the pair
/// sum, as soon as the sum covers `b`; below that it adds nothing.
pub proof fn lemma_sum_ff_push(s: Seq<u8>, b: u8, k: int)
    requires
        is_upper(b),
        0 <= k <= 26,
    ensures
        sum_ff(s.push(b), k) == sum_ff(s, k) + if b <= 64 + k {
            2 * (count_occ(s, b) as int)
        } else {
            0int
        },
    decreases k,
{
    if k > 0 {
        lemma_sum_ff_push(s, b, k - 1);
        let letter = (64 + k) as u8;
        lemma_count_occ_push(s, b, letter);
        let c = count_occ(s, letter) as int;
        if letter == b {
            assert((c + 1) * c == c * (c - 1) + 2 * c) by (nonlinear_arith);
        }
    }
}

/// For a normalized text the pair sum is at most length * (length - 1),
/// the value of a text of a single repeated letter.
pub proof fn lemma_sum_ff_le(s: Seq<u8>)
    requires
        is_normalized(s),
    ensures
        sum_ff(s, 26) <= s.len() * (s.len() - 1),
    decreases s.len(),
{
    if s.len() == 0 {
        assert(sum_ff(s, 26) == 0) by {
            lemma_sum_ff_zero_empty(s, 26);
        }
    } else {
        let prefix = s.drop_last();
        let b = s.last();
        assert(is_normalized(prefix));
        lemma_sum_ff_le(prefix);
        assert(prefix.push(b) =~= s);
        lemma_sum_ff_push(prefix, b, 26);
        lemma_count_occ_le_len(prefix, b);
        let n = s.len() as int;
        assert((n - 1) * (n - 2) + 2 * (n - 1) == n * (n - 1)) by (nonlinear_arith);
    }
}

/// The pair sum of the empty text is zero.
pub proof fn lemma_sum_ff_zero_empty(s: Seq<u8>, k: int)
    requires
        s.len() == 0,
    ensures
        sum_ff(s, k) == 0,
    decreases k,
{
    if k > 0 {
        lemma_sum_ff_zero_empty(s, k - 1);
        lemma_pair_term(count_occ(s, (64 + k) as u8) as int);
    }
}

/// The index of coincidence, scaled by `IC_SCALE`: with `N` the text
/// length and `n_i` the letter counts, the value
/// `26 * sum n_i * (n_i - 1) / ((N - 1) * (N - 2))`, and zero when the
/// denominator degenerates (texts of fewer than three letters).
pub open spec fn ic_scaled_spec(s: Seq<u8>) -> int {
    let n = s.len() as int;
    if n >= 3 {
        26 * sum_ff(s, 26) * 1_000_000 / ((n - 1) * (n - 2))
    } else {
        0
    }
}

/// A text of `n` copies of the letter A: the most skewed distribution a
/// text of that length can have.
pub open spec fn repeated_letter(n: nat) -> Seq<u8> {
    Seq::new(n, |i: int| 65u8)
}

/// Every count of the repeated-letter text: `n` for A, zero otherwise.
pub proof fn lemma_count_occ_repeated(n: nat, x: u8)
    ensures
        count_occ(repeated_letter(n), x) == if x == 65 {
            n as int
        } else {
            0int
        },
    decreases n,
{
    if n > 0 {
        assert(repeated_letter(n).drop_last() =~= repeated_letter((n - 1) as nat));
        lemma_count_occ_repeated((n - 1) as nat, x);
    }
}

/// The pair sum of the repeated-letter text is n * (n - 1) once the sum
/// covers the letter A, which the first alphabet slot already does.
pub proof fn lemma_sum_ff_repeated(n: nat, k: int)
    requires
        1 <= k <= 26,
    ensures
        sum_ff(repeated_letter(n), k) == n * (n as int - 1),
    decreases k,
{
    lemma_count_occ_repeated(n, (64 + k) as u8);
    if k == 1 {
        assert(sum_ff(repeated_letter(n), 0) == 0);
    } else {
        lemma_sum_ff_repeated(n, k - 1);
    }
}

/// Law: bounds of the index of coincidence.  For every normalized text
/// of at least three letters the scaled statistic is non-negative, at
/// most the value of the single-repeated-letter text of the same length,
/// and that maximum never exceeds `IC_SCALED_MAX`.
pub proof fn lemma_ic_bounds(s: Seq<u8>)
    requires
        is_normalized(s),
        3 <= s.len(),
    ensures
        0 <= ic_scaled_spec(s),
        ic_scaled_spec(s) <= ic_scaled_spec(repeated_letter(s.len())),
        ic_scaled_spec(repeated_letter(s.len())) <= IC_SCALED_MAX as int,
{
    let n = s.len() as int;
    let den = (n - 1) * (n - 2);
    lemma_mul_strictly_positive(n - 1, n - 2);
    let cap = n * (n - 1);
    lemma_sum_ff_nonneg(s, 26);
    lemma_sum_ff_le(s);
    let sum_s = sum_ff(s, 26);
    lemma_sum_ff_repeated(s.len(), 26);
    assert(repeated_letter(s.len()).len() == s.len());

    // Non-negativity: the numerator is non-negative, the denominator positive.
    lemma_mul_nonnegative(26 * sum_s, 1_000_000);
    lemma_div_is_ordered(0, 26 * sum_s * 1_000_000, den);
    assert((den * 0) / den == 0) by {
        lemma_div_multiples_vanish(0, den);
    }
    assert(den * 0 == 0);

    // The repeated letter maximizes the numerator over the same denominator.
    assert(26 * sum_s * 1_000_000 <= 26 * cap * 1_000_000) by {
        lemma_mul_inequality(26 * sum_s, 26 * cap, 1_000_000);
        lemma_mul_inequality(sum_s, cap, 26);
        assert(sum_s * 26 == 26 * sum_s) by (nonlinear_arith);
        assert(cap * 26 == 26 * cap) by (nonlinear_arith);
    }
    lemma_div_is_ordered(26 * sum_s * 1_000_000, 26 * cap * 1_000_000, den);

    // The maximum itself stays under the cap: n*(n-1) <= 3*(n-1)*(n-2)
    // for n >= 3, and 26 * 3 = 78.
    assert(26 * cap * 1_000_000 <= 78_000_000 * den) by (nonlinear_arith)
        requires
            n >= 3,
            den == (n - 1) * (n - 2),
            cap == n * (n - 1),
    ;
    lemma_div_is_ordered(26 * cap * 1_000_000, 78_000_000 * den, den);
    assert((den * 78_000_000) / den == 78_000_000) by {
        lemma_div_multiples_vanish(78_000_000, den);
    }
    assert(den * 78_000_000 == 78_000_000 * den) by (nonlinear_arith);
}

/// Counts, for each of the 26 letters, its occurrences in the text.
pub fn count_letter_freq(text: &[u8]) -> (counts: Vec<u64>)
    requires
        is_normalized(text@),
    ensures
        counts@.len() == 26,
        forall|j: int| 0 <= j < 26 ==> counts@[j] == count_occ(text@, (65 + j) as u8),
{
    let mut counts: Vec<u64> = Vec::new();
    let mut k: usize = 0;
    while k < 26
        invariant
            k <= 26,
            counts@.len() == k,
            forall|j: int| 0 <= j < k ==> counts@[j] == 0,
        decreases 26 - k,
    {
        counts.push(0);
        k = k + 1;
    }
    proof {
        assert forall|j: int| 0 <= j < 26 implies counts@[j] == count_occ(
            text@.take(0),
            (65 + j) as u8,
        ) by {
            assert(count_occ(text@.take(0), (65 + j) as u8) == 0);
        }
    }
    let mut i: usize = 0;
    while i < text.len()
        invariant
            is_normalized(text@),
            i <= text@.len(),
            counts@.len() == 26,
            forall|j: int| 0 <= j < 26 ==> counts@[j] == count_occ(text@.take(i as int), (65
                + j) as u8),
        decreases text@.len() - i,
    {
        let b = text[i];
        proof {
            assert(is_upper(text@[i as int]));
            assert(text@.take(i + 1).drop_last() =~= text@.take(i as int));
            assert forall|j: int| 0 <= j < 26 implies #[trigger] count_occ(
                text@.take(i + 1),
                (65 + j) as u8,
            ) == count_occ(text@.take(i as int), (65 + j) as u8) + if 65 + j == text@[i as int] {
                1int
            } else {
                0int
            } by {
                lemma_count_occ_push(text@.take(i as int), text@[i as int], (65 + j) as u8);
                assert(text@.take(i as int).push(text@[i as int]) =~= text@.take(i + 1));
            }
            lemma_count_occ_le_len(text@.take(i as int), text@[i as int]);
        }
        let idx = (b - 65) as usize;
        let c = counts[idx];
        counts[idx] = c + 1;
        i = i + 1;
    }
    proof {
        assert(text@.take(text@.len() as int) =~= text@);
    }
    counts
}

/// The scaled index of coincidence of a normalized text: the probability
/// that two letters drawn from it coincide, on the percentage-like scale
/// times `IC_SCALE`.  Degenerate texts (fewer than three letters) yield
/// zero.  The length bound keeps every intermediate product inside the
/// machine's 128-bit arithmetic.
pub fn index_of_coincidence(text: &[u8]) -> (ic: u64)
    requires
        is_normalized(text@),
        text@.len() < 0x1_0000_0000,
    ensures
        ic == ic_scaled_spec(text@),
        ic <= IC_SCALED_MAX,
{
    let n = text.len();
    if n < 3 {
        return 0;
    }
    let counts = count_letter_freq(text);
    let ghost t = text@;
    let ghost nn = t.len() as int;
    proof {
        lemma_sum_ff_le(t);
        lemma_sum_ff_nonneg(t, 26);
        assert(nn * (nn - 1) < 0x1_0000_0000_0000_0000) by (nonlinear_arith)
            requires
                3 <= nn < 0x1_0000_0000,
        ;
    }
    let mut s: u64 = 0;
    let mut k: usize = 0;
    while k < 26
        invariant
            counts@.len() == 26,
            forall|j: int| 0 <= j < 26 ==> counts@[j] == count_occ(t, (65 + j) as u8),
            k <= 26,
            s == sum_ff(t, k as int),
            sum_ff(t, 26) <= nn * (nn - 1) < 0x1_0000_0000_0000_0000,
            3 <= nn < 0x1_0000_0000,
            nn == t.len(),
            is_normalized(t),
        decreases 26 - k,
    {
        let c = counts[k];
        proof {
            lemma_count_occ_le_len(t, (65 + k) as u8);
            lemma_sum_ff_monotone(t, k + 1, 26);
            lemma_sum_ff_nonneg(t, k as int);
            assert(c * (c - 1) <= nn * (nn - 1)) by (nonlinear_arith)
                requires
                    0 <= c <= nn,
            ;
            lemma_pair_term(c as int);
        }
        if c > 0 {
            s = s + c * (c - 1);
        }
        k = k + 1;
    }
    proof {
        lemma_mul_strictly_positive(nn - 1, nn - 2);
        assert(26 * (s as int) * 1_000_000 < 0x1_0000_0000_0000_0000_0000_0000_0000_0000) by (
        nonlinear_arith)
            requires
                0 <= s < 0x1_0000_0000_0000_0000,
        ;
        assert((nn - 1) * (nn - 2) < 0x1_0000_0000_0000_0000_0000_0000_0000_0000) by (
        nonlinear_arith)
            requires
                3 <= nn < 0x1_0000_0000,
        ;
    }
    let num: u128 = 26u128 * (s as u128) * 1_000_000u128;
    let den: u128 = ((n - 1) as u128) * ((n - 2) as u128);
    proof {
        // The quotient stays under the cap: the numerator is at most
        // 78_000_000 times the denominator.
        assert(26 * (s as int) * 1_000_000 <= 78_000_000 * ((nn - 1) * (nn - 2))) by (
        nonlinear_arith)
            requires
                3 <= nn,
                0 <= s,
                s <= nn * (nn - 1),
        ;
        lemma_div_is_ordered(
            26 * (s as int) * 1_000_000,
            78_000_000 * ((nn - 1) * (nn - 2)),
            (nn - 1) * (nn - 2),
        );
        assert((((nn - 1) * (nn - 2)) * 78_000_000) / ((nn - 1) * (nn - 2)) == 78_000_000) by {
            lemma_div_multiples_vanish(78_000_000, (nn - 1) * (nn - 2));
        }
        assert(((nn - 1) * (nn - 2)) * 78_000_000 == 78_000_000 * ((nn - 1) * (nn - 2))) by (
        nonlinear_arith);
    }
    let q: u128 = num / den;
    q as u64
}

} // verus!
