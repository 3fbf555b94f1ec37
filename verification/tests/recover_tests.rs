use vigenere::guess_key;
use vigenere::transpose;
use vigenere::vigenere;

const ENGLISH_SAMPLE: &str = "On a quiet morning the harbour town woke slowly, with \
fishing boats drifting past the grey stone pier and gulls wheeling above the market \
square. Merchants unpacked crates of silver fish, ripe plums, and dark bread, while \
children raced hoops along the wet cobbles. Far beyond the lighthouse a storm was \
gathering, yet nobody hurried; weather, like rumour, travels quickly here but rarely \
changes anybody's plans. By noon the square hummed with bargains and gossip, and an \
old clockmaker wound the tower clock exactly as his father once did.";

#[test]
fn recovers_the_key_from_english_substreams() {
    let cipher = vigenere("BIT", ENGLISH_SAMPLE, true).unwrap();
    let substrings = transpose(&cipher, 3);
    let key = guess_key(substrings);
    assert_eq!(key, b"BIT".to_vec());
}

#[test]
fn recovery_is_deterministic() {
    let cipher = vigenere("LEMON", ENGLISH_SAMPLE, true).unwrap();
    let substrings = transpose(&cipher, 5);
    let first = guess_key(substrings.clone());
    let second = guess_key(substrings);
    assert_eq!(first, second);
}

#[test]
fn empty_substream_recovers_letter_a() {
    // Every candidate scores zero on an empty sub-stream; the letter A
    // is recovered by definition.
    let key = guess_key(vec![Vec::new()]);
    assert_eq!(key, b"A".to_vec());
}

#[test]
fn single_letter_substream_picks_the_likeliest_shift() {
    // Decoding the one letter E with the shift A leaves E, the most
    // frequent English letter, so A wins the scan outright.
    let key = guess_key(vec![b"E".to_vec()]);
    assert_eq!(key, b"A".to_vec());
}

#[test]
fn ties_go_to_the_later_letter() {
    // A sub-stream holding the whole alphabet once decodes to a
    // permutation of the alphabet under every shift, so all 26
    // candidates score the same; the scan keeps the last of them.
    let key = guess_key(vec![b"ABCDEFGHIJKLMNOPQRSTUVWXYZ".to_vec()]);
    assert_eq!(key, b"Z".to_vec());
}

#[test]
fn no_substreams_yield_an_empty_key() {
    assert_eq!(guess_key(Vec::new()), Vec::<u8>::new());
}
