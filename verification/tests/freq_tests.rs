use vigenere::count_letter_freq;
use vigenere::freq::IC_SCALE;
use vigenere::freq::IC_SCALED_MAX;
use vigenere::index_of_coincidence;

#[test]
fn counts_each_letter() {
    let counts = count_letter_freq(b"HELLO");
    assert_eq!(counts.len(), 26);
    for (i, c) in counts.iter().enumerate() {
        let expected = match i {
            4 => 1,  // E
            7 => 1,  // H
            11 => 2, // L
            14 => 1, // O
            _ => 0,
        };
        assert_eq!(*c, expected);
    }
}

#[test]
fn counts_of_empty_text_are_zero() {
    let counts = count_letter_freq(b"");
    assert_eq!(counts, vec![0u64; 26]);
}

#[test]
fn degenerate_texts_yield_zero() {
    assert_eq!(index_of_coincidence(b""), 0);
    assert_eq!(index_of_coincidence(b"A"), 0);
    assert_eq!(index_of_coincidence(b"AA"), 0);
}

#[test]
fn repeated_letter_reaches_the_scale_maximum() {
    // Three equal letters: 26 * 6 / (2 * 1) = 78, the largest value the
    // scaled statistic can take.
    assert_eq!(index_of_coincidence(b"AAA"), 78 * IC_SCALE);
    assert_eq!(index_of_coincidence(b"AAA"), IC_SCALED_MAX);
}

#[test]
fn repeated_letter_value_is_exact() {
    // Six copies of one letter: 26 * 30 / (5 * 4) = 39, scaled.
    assert_eq!(index_of_coincidence(b"AAAAAA"), 39_000_000);
}

#[test]
fn alternating_letters_value_is_exact() {
    // Counts 2 and 2: 26 * 4 / (3 * 2) scaled, rounded down.
    assert_eq!(index_of_coincidence(b"ABAB"), 17_333_333);
}

#[test]
fn repeated_letter_is_the_maximum_for_its_length() {
    let texts: [&[u8]; 4] = [b"ABCDEF", b"AABBCC", b"AAAAAB", b"QWERTY"];
    let max = index_of_coincidence(b"AAAAAA");
    for text in texts {
        assert!(index_of_coincidence(text) <= max);
    }
}
