//! Text normalization: every later stage works on the canonical alphabetic
//! sequence that this module produces from arbitrary input text.

use vstd::prelude::*;
use vstd::string::StringSliceAdditionalSpecFns;

verus! {

/// True of a byte that encodes an uppercase ASCII letter.
pub open spec fn is_upper(b: u8) -> bool {
    65 <= b <= 90
}

/// True of a byte that encodes a lowercase ASCII letter.
pub open spec fn is_lower(b: u8) -> bool {
    97 <= b <= 122
}

/// True of a byte that encodes an ASCII letter of either case.
pub open spec fn is_ascii_letter(b: u8) -> bool {
    is_upper(b) || is_lower(b)
}

/// The uppercase form of an ASCII letter byte.
pub open spec fn to_upper(b: u8) -> u8 {
    if is_lower(b) {
        (b - 32) as u8
    } else {
        b
    }
}

/// A normalized text holds nothing but uppercase ASCII letters.
pub open spec fn is_normalized(s: Seq<u8>) -> bool {
    forall|i: int| 0 <= i < s.len() ==> is_upper(s[i])
}

/// The canonical alphabetic sequence of a byte string: its ASCII letters,
/// uppercased, in their original order; every other byte is dropped.  In
/// UTF-8 every byte of a multi-byte character is at least 128, so this is
/// also the letter sequence of the decoded text.
pub open spec fn norm_bytes(s: Seq<u8>) -> Seq<u8>
    decreases s.len(),
{
    if s.len() == 0 {
        Seq::empty()
    } else if is_ascii_letter(s.last()) {
        norm_bytes(s.drop_last()).push(to_upper(s.last()))
    } else {
        norm_bytes(s.drop_last())
    }
}

/// Normalization never lengthens a text.
pub proof fn lemma_norm_bytes_len(s: Seq<u8>)
    ensures
        norm_bytes(s).len() <= s.len(),
    decreases s.len(),
{
    if s.len() > 0 {
        lemma_norm_bytes_len(s.drop_last());
    }
}

/// A normalization result holds uppercase letters only.
pub proof fn lemma_norm_bytes_normalized(s: Seq<u8>)
    ensures
        is_normalized(norm_bytes(s)),
    decreases s.len(),
{
    if s.len() > 0 {
        lemma_norm_bytes_normalized(s.drop_last());
    }
}

/// Normalization leaves a text of uppercase letters unchanged.
pub proof fn lemma_norm_bytes_of_normalized(s: Seq<u8>)
    requires
        is_normalized(s),
    ensures
        norm_bytes(s) == s,
    decreases s.len(),
{
    if s.len() == 0 {
        assert(norm_bytes(s) =~= s);
    } else {
        assert(is_upper(s.last()));
        lemma_norm_bytes_of_normalized(s.drop_last());
        assert(norm_bytes(s) =~= s);
    }
}

/// Law: normalization is idempotent.  Normalizing the output of the
/// normalizer gives that output back, for every input byte string.
pub proof fn lemma_normalize_idempotent(s: Seq<u8>)
    ensures
        norm_bytes(norm_bytes(s)) == norm_bytes(s),
{
    lemma_norm_bytes_normalized(s);
    lemma_norm_bytes_of_normalized(norm_bytes(s));
}

/// Strips every byte that is not an ASCII letter and uppercases the rest,
/// yielding the canonical alphabetic sequence of the input.  An empty
/// input yields an empty output; there are no error conditions.
pub fn uppercase_and_filter(input: &str) -> (result: Vec<u8>)
    ensures
        result@ == norm_bytes(input.spec_bytes()),
        is_normalized(result@),
{
    let bytes: &[u8] = input.as_bytes();
    let mut result: Vec<u8> = Vec::new();
    let mut i: usize = 0;
    while i < bytes.len()
        invariant
            i <= bytes@.len(),
            result@ == norm_bytes(bytes@.take(i as int)),
            is_normalized(result@),
        decreases bytes@.len() - i,
    {
        let b = bytes[i];
        if 65 <= b && b <= 90 {
            result.push(b);
        } else if 97 <= b && b <= 122 {
            result.push(b - 32);
        }
        proof {
            assert(bytes@.take(i + 1).drop_last() =~= bytes@.take(i as int));
            assert(bytes@.take(i + 1).last() == bytes@[i as int]);
        }
        i = i + 1;
    }
    proof {
        assert(bytes@.take(bytes@.len() as int) =~= bytes@);
    }
    result
}

} // verus!
