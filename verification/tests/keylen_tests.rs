use vigenere::possible_key_length;
use vigenere::transpose;
use vigenere::uppercase_and_filter;
use vigenere::vigenere;

const ENGLISH_SAMPLE: &str = "On a quiet morning the harbour town woke slowly, with \
fishing boats drifting past the grey stone pier and gulls wheeling above the market \
square. Merchants unpacked crates of silver fish, ripe plums, and dark bread, while \
children raced hoops along the wet cobbles. Far beyond the lighthouse a storm was \
gathering, yet nobody hurried; weather, like rumour, travels quickly here but rarely \
changes anybody's plans. By noon the square hummed with bargains and gossip, and an \
old clockmaker wound the tower clock exactly as his father once did.";

#[test]
fn transpose_interleaves_the_text() {
    let substrings = transpose(b"ABCDEFG", 3);
    assert_eq!(substrings.len(), 3);
    assert_eq!(substrings[0], b"ADG".to_vec());
    assert_eq!(substrings[1], b"BE".to_vec());
    assert_eq!(substrings[2], b"CF".to_vec());
}

#[test]
fn transpose_with_length_one_copies_the_text() {
    let substrings = transpose(b"HELLO", 1);
    assert_eq!(substrings.len(), 1);
    assert_eq!(substrings[0], b"HELLO".to_vec());
}

#[test]
fn empty_ciphertext_yields_no_candidates() {
    assert_eq!(possible_key_length(b""), Vec::<u32>::new());
}

#[test]
fn uniform_text_yields_no_candidates() {
    // Every sub-stream of a one-letter text is maximally skewed, far
    // above target plus tolerance, so every length is rejected.
    let text = vec![b'A'; 100];
    assert_eq!(possible_key_length(&text), Vec::<u32>::new());
}

#[test]
fn flat_text_passes_the_one_sided_filter() {
    // Ten copies of the whole alphabet: the average statistic is well
    // below the English value.  The one-sided filter accepts it; an
    // absolute-difference filter would not.  This pins the implemented
    // policy down.
    let mut text = Vec::new();
    for _ in 0..10 {
        text.extend_from_slice(b"ABCDEFGHIJKLMNOPQRSTUVWXYZ");
    }
    let candidates = possible_key_length(&text);
    assert!(candidates.contains(&1));
}

#[test]
fn english_ciphertext_includes_the_true_key_length() {
    let cipher = vigenere("BIT", ENGLISH_SAMPLE, true).unwrap();
    let candidates = possible_key_length(&cipher);
    assert!(candidates.contains(&3));
}

#[test]
fn candidates_ascend_within_bounds() {
    let cipher = vigenere("BIT", ENGLISH_SAMPLE, true).unwrap();
    let candidates = possible_key_length(&cipher);
    for window in candidates.windows(2) {
        assert!(window[0] < window[1]);
    }
    for n in &candidates {
        assert!((1..=32).contains(n));
    }
    // The transform keeps the letter count of the normalized text.
    assert_eq!(uppercase_and_filter(ENGLISH_SAMPLE).len(), cipher.len());
}
