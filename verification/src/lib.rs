//! Cryptanalysis of the Vigenere polyalphabetic cipher.
//!
//! Given ciphertext produced with an unknown repeating key, the library
//! estimates the key length from the index of coincidence of interleaved
//! sub-streams, recovers the key letter by letter from frequency scores
//! against a fixed English reference table, and decrypts the message.
//! It also applies the cipher directly when the key is known.
//!
//! Texts are handled as byte sequences of uppercase ASCII letters; the
//! normalizer produces them from arbitrary strings.  All statistics are
//! exact integers: the index of coincidence is scaled by one million and
//! the reference letter frequencies are in thousandths of a percent, so
//! every result is a deterministic function of the input bytes.

pub mod analysis;
pub mod cipher;
pub mod freq;
pub mod keylen;
pub mod normalize;
pub mod recover;

pub use analysis::analyze;
pub use analysis::AnalysisResult;
pub use cipher::vigenere;
pub use cipher::CipherError;
pub use freq::count_letter_freq;
pub use freq::index_of_coincidence;
pub use keylen::possible_key_length;
pub use keylen::transpose;
pub use normalize::uppercase_and_filter;
pub use recover::guess_key;
