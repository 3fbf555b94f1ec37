//! The orchestrator: normalize the ciphertext once, estimate candidate
//! key lengths, and for each candidate recover a key and decrypt, in the
//! order the lengths were found.

use vstd::prelude::*;
use vstd::string::StringSliceAdditionalSpecFns;
use crate::cipher::vig_spec;
use crate::cipher::vigenere_bytes;
use crate::keylen::candidates_up_to;
use crate::keylen::lemma_candidates_range;
use crate::keylen::lemma_substream_len_le;
use crate::keylen::lemma_substream_normalized;
use crate::keylen::possible_key_length;
use crate::keylen::substream;
use crate::keylen::transpose;
use crate::keylen::MAX_KEY_LENGTH;
use crate::normalize::is_normalized;
use crate::normalize::lemma_norm_bytes_len;
use crate::normalize::norm_bytes;
use crate::normalize::uppercase_and_filter;
use crate::recover::guess_key;
use crate::recover::key_letter_spec;

verus! {

/// One finding of the pipeline: a candidate key length, the key
/// recovered under it, and the decryption of the ciphertext with that
/// key.  Key and plaintext are normalized texts.
pub struct AnalysisResult {
    /// The candidate key length the finding was made under.
    pub length: u32,
    /// The key recovered for that length, one letter per sub-stream.
    pub key: Vec<u8>,
    /// The ciphertext decoded with the recovered key.
    pub plaintext: Vec<u8>,
}

/// The key that recovery yields for candidate length `n`: the letter
/// recovered from each of the `n` interleaved sub-streams, in order.
pub open spec fn recovered_key_spec(t: Seq<u8>, n: int) -> Seq<u8> {
    Seq::new(n as nat, |j: int| key_letter_spec(substream(t, n, j)))
}

/// Runs the whole pipeline on arbitrary ciphertext: normalize once,
/// estimate candidate key lengths, and for each candidate recover a key
/// from the interleaved sub-streams and decrypt, collecting the findings
/// in ascending order of length.  An empty (or all non-letter)
/// ciphertext yields no findings.  The length bound keeps the statistics
/// inside machine arithmetic.
pub fn analyze(cipher_text: &str) -> (results: Vec<AnalysisResult>)
    requires
        cipher_text.spec_bytes().len() < 0x1_0000_0000,
        cipher_text.spec_bytes().len() + MAX_KEY_LENGTH <= usize::MAX,
    ensures
        ({
            let t = norm_bytes(cipher_text.spec_bytes());
            &&& t.len() == 0 ==> results@.len() == 0
            &&& t.len() > 0 ==> {
                let cands = candidates_up_to(t, MAX_KEY_LENGTH as int);
                &&& results@.len() == cands.len()
                &&& forall|i: int|
                    0 <= i < cands.len() ==> {
                        &&& (#[trigger] results@[i]).length == cands[i]
                        &&& results@[i].key@ == recovered_key_spec(t, cands[i] as int)
                        &&& results@[i].plaintext@ == vig_spec(
                            recovered_key_spec(t, cands[i] as int),
                            t,
                            false,
                        )
                    }
            }
        }),
{
    let normalized = uppercase_and_filter(cipher_text);
    let ghost t = normalized@;
    proof {
        lemma_norm_bytes_len(cipher_text.spec_bytes());
    }
    let lengths = possible_key_length(normalized.as_slice());
    let ghost cands = lengths@;
    proof {
        lemma_candidates_range(t, MAX_KEY_LENGTH as int);
        if t.len() == 0 {
            assert(cands.len() == 0);
        }
    }
    let mut results: Vec<AnalysisResult> = Vec::new();
    let mut i: usize = 0;
    while i < lengths.len()
        invariant
            is_normalized(t),
            t == normalized@,
            t.len() < 0x1_0000_0000,
            t.len() + MAX_KEY_LENGTH <= usize::MAX,
            cands == lengths@,
            forall|ii: int| 0 <= ii < cands.len() ==> 1 <= #[trigger] cands[ii] <= MAX_KEY_LENGTH,
            i <= cands.len(),
            results@.len() == i,
            forall|ii: int|
                0 <= ii < i ==> {
                    &&& (#[trigger] results@[ii]).length == cands[ii]
                    &&& results@[ii].key@ == recovered_key_spec(t, cands[ii] as int)
                    &&& results@[ii].plaintext@ == vig_spec(
                        recovered_key_spec(t, cands[ii] as int),
                        t,
                        false,
                    )
                },
        decreases cands.len() - i,
    {
        let n = lengths[i];
        let substrings = transpose(normalized.as_slice(), n);
        proof {
            assert forall|j: int| 0 <= j < substrings@.len() implies is_normalized(
                #[trigger] substrings@[j]@,
            ) && substrings@[j]@.len() < 0x1_0000_0000 by {
                lemma_substream_normalized(t, n as int, j);
                lemma_substream_len_le(t.len() as int, n as int, j);
            }
        }
        let key = guess_key(substrings);
        proof {
            assert forall|j: int| 0 <= j < n implies key@[j] == recovered_key_spec(
                t,
                n as int,
            )[j] by {
                assert(substrings@[j]@ == substream(t, n as int, j));
                assert(key@[j] == key_letter_spec(substrings@[j]@));
            }
            assert(key@ =~= recovered_key_spec(t, n as int));
        }
        let plaintext = vigenere_bytes(key.as_slice(), normalized.as_slice(), false);
        results.push(AnalysisResult { length: n, key, plaintext });
        i = i + 1;
    }
    results
}

} // verus!
