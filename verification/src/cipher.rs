//! The Vigenere cipher transform: the running-key shift over the 26-letter
//! alphabet, in both directions, together with its round-trip law.

use vstd::prelude::*;
use vstd::string::StringSliceAdditionalSpecFns;
use crate::normalize::is_normalized;
use crate::normalize::is_upper;
use crate::normalize::norm_bytes;
use crate::normalize::uppercase_and_filter;

verus! {

/// Errors of the cipher transform.
#[derive(Clone, Copy, Debug, PartialEq, Eq, Structural)]
pub enum CipherError {
    /// The key holds no letters after normalization, so there is no shift
    /// to apply; surfaced rather than defaulting to an identity transform.
    EmptyKey,
}

/// Encoding of one letter: shift the plain letter forward by the key
/// letter, both taken as values 0 to 25 over the byte codes 65 to 90.
pub open spec fn encode_byte(p: u8, k: u8) -> u8
    recommends
        is_upper(p),
        is_upper(k),
{
    (((p + k - 130) % 26) + 65) as u8
}

/// Decoding of one letter: shift the cipher letter back by the key letter.
pub open spec fn decode_byte(c: u8, k: u8) -> u8
    recommends
        is_upper(c),
        is_upper(k),
{
    (((c + 26 - k) % 26) + 65) as u8
}

/// The full transform over a normalized text: the i-th letter is shifted
/// by the (i mod key length)-th letter of the key.
pub open spec fn vig_spec(key: Seq<u8>, text: Seq<u8>, is_encoding: bool) -> Seq<u8>
    recommends
        key.len() >= 1,
{
    Seq::new(
        text.len(),
        |i: int|
            if is_encoding {
                encode_byte(text[i], key[i % key.len() as int])
            } else {
                decode_byte(text[i], key[i % key.len() as int])
            },
    )
}

/// Decoding undoes encoding for a single letter.
pub proof fn lemma_decode_encode_byte(p: u8, k: u8)
    requires
        is_upper(p),
        is_upper(k),
    ensures
        decode_byte(encode_byte(p, k), k) == p,
{
    let a = p + k - 130;
    assert(0 <= a < 52);
    assert(a % 26 == if a < 26 { a } else { a - 26 }) by {
        if a < 26 {
            assert(a % 26 == a);
        } else {
            assert(a % 26 == a - 26);
        }
    }
}

/// The transform keeps letters inside the alphabet.
pub proof fn lemma_vig_spec_normalized(key: Seq<u8>, text: Seq<u8>, is_encoding: bool)
    requires
        is_normalized(key),
        key.len() >= 1,
        is_normalized(text),
    ensures
        is_normalized(vig_spec(key, text, is_encoding)),
{
    let r = vig_spec(key, text, is_encoding);
    assert forall|i: int| 0 <= i < r.len() implies is_upper(r[i]) by {
        assert(is_upper(text[i]));
        assert(is_upper(key[i % key.len() as int]));
    }
}

/// Law: the transform is self-inverse.  For every key of 1 to 32
/// uppercase letters and every normalized text, decoding an encoding
/// with the same key gives the text back.
pub proof fn lemma_vigenere_round_trip(key: Seq<u8>, text: Seq<u8>)
    requires
        is_normalized(key),
        1 <= key.len() <= 32,
        is_normalized(text),
    ensures
        vig_spec(key, vig_spec(key, text, true), false) == text,
{
    let enc = vig_spec(key, text, true);
    assert forall|i: int| 0 <= i < text.len() implies vig_spec(key, enc, false)[i] == text[i] by {
        assert(is_upper(text[i]));
        assert(is_upper(key[i % key.len() as int]));
        lemma_decode_encode_byte(text[i], key[i % key.len() as int]);
    }
    assert(vig_spec(key, enc, false) =~= text);
}

/// The transform over already normalized bytes.  The analysis stages call
/// this directly; `vigenere` wraps it for arbitrary string input.
pub fn vigenere_bytes(key: &[u8], text: &[u8], is_encoding: bool) -> (result: Vec<u8>)
    requires
        is_normalized(key@),
        key@.len() >= 1,
        is_normalized(text@),
    ensures
        result@ == vig_spec(key@, text@, is_encoding),
        is_normalized(result@),
{
    let mut result: Vec<u8> = Vec::new();
    let mut i: usize = 0;
    while i < text.len()
        invariant
            is_normalized(key@),
            key@.len() >= 1,
            is_normalized(text@),
            i <= text@.len(),
            result@ == vig_spec(key@, text@, is_encoding).take(i as int),
        decreases text@.len() - i,
    {
        let c = text[i];
        let k = key[i % key.len()];
        proof {
            assert(is_upper(text@[i as int]));
            assert(is_upper(key@[i as int % key@.len() as int]));
        }
        let c2 = if is_encoding {
            (c + k - 130) % 26 + 65
        } else {
            (c + 26 - k) % 26 + 65
        };
        result.push(c2);
        proof {
            let full = vig_spec(key@, text@, is_encoding);
            assert(full.take(i + 1) =~= full.take(i as int).push(full[i as int]));
        }
        i = i + 1;
    }
    proof {
        let full = vig_spec(key@, text@, is_encoding);
        assert(full.take(text@.len() as int) =~= full);
        lemma_vig_spec_normalized(key@, text@, is_encoding);
    }
    result
}

/// Applies the running-key shift cipher to arbitrary text.  Key and text
/// are both normalized first; the i-th letter of the text is shifted
/// forward (encoding) or back (decoding) by the (i mod key length)-th
/// letter of the key.  Fails with `CipherError::EmptyKey` exactly when
/// the key holds no letters, and succeeds on every other input.
pub fn vigenere(key: &str, text: &str, is_encoding: bool) -> (result: Result<
    Vec<u8>,
    CipherError,
>)
    ensures
        norm_bytes(key.spec_bytes()).len() == 0 <==> result == Err::<Vec<u8>, CipherError>(
            CipherError::EmptyKey,
        ),
        result matches Ok(r) ==> r@ == vig_spec(
            norm_bytes(key.spec_bytes()),
            norm_bytes(text.spec_bytes()),
            is_encoding,
        ) && is_normalized(r@),
{
    let key_bytes = uppercase_and_filter(key);
    let text_bytes = uppercase_and_filter(text);
    if key_bytes.len() == 0 {
        return Err(CipherError::EmptyKey);
    }
    Ok(vigenere_bytes(key_bytes.as_slice(), text_bytes.as_slice(), is_encoding))
}

} // verus!
