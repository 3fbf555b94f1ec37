use vigenere::analyze;
use vigenere::uppercase_and_filter;
use vigenere::vigenere;

const ENGLISH_SAMPLE: &str = "On a quiet morning the harbour town woke slowly, with \
fishing boats drifting past the grey stone pier and gulls wheeling above the market \
square. Merchants unpacked crates of silver fish, ripe plums, and dark bread, while \
children raced hoops along the wet cobbles. Far beyond the lighthouse a storm was \
gathering, yet nobody hurried; weather, like rumour, travels quickly here but rarely \
changes anybody's plans. By noon the square hummed with bargains and gossip, and an \
old clockmaker wound the tower clock exactly as his father once did.";

#[test]
fn empty_ciphertext_yields_no_results() {
    assert!(analyze("").is_empty());
    assert!(analyze("42, 43, 44 ...").is_empty());
}

#[test]
fn pipeline_recovers_key_and_plaintext() {
    let cipher_bytes = vigenere("BIT", ENGLISH_SAMPLE, true).unwrap();
    let cipher_text = String::from_utf8(cipher_bytes).unwrap();
    let results = analyze(&cipher_text);
    let expected_plain = uppercase_and_filter(ENGLISH_SAMPLE);
    let hit = results.iter().find(|r| r.length == 3).expect("length 3 must be analyzed");
    assert_eq!(hit.key, b"BIT".to_vec());
    assert_eq!(hit.plaintext, expected_plain);
}

#[test]
fn pipeline_recovers_a_five_letter_key() {
    let cipher_bytes = vigenere("LEMON", ENGLISH_SAMPLE, true).unwrap();
    let cipher_text = String::from_utf8(cipher_bytes).unwrap();
    let results = analyze(&cipher_text);
    let expected_plain = uppercase_and_filter(ENGLISH_SAMPLE);
    let hit = results.iter().find(|r| r.length == 5).expect("length 5 must be analyzed");
    assert_eq!(hit.key, b"LEMON".to_vec());
    assert_eq!(hit.plaintext, expected_plain);
}

#[test]
fn results_come_in_ascending_length_order() {
    let cipher_bytes = vigenere("BIT", ENGLISH_SAMPLE, true).unwrap();
    let cipher_text = String::from_utf8(cipher_bytes).unwrap();
    let results = analyze(&cipher_text);
    for window in results.windows(2) {
        assert!(window[0].length < window[1].length);
    }
}

#[test]
fn direct_decrypt_matches_the_pipeline_entry() {
    let cipher_bytes = vigenere("BIT", ENGLISH_SAMPLE, true).unwrap();
    let cipher_text = String::from_utf8(cipher_bytes).unwrap();
    let direct = vigenere("BIT", &cipher_text, false).unwrap();
    let results = analyze(&cipher_text);
    let hit = results.iter().find(|r| r.length == 3).expect("length 3 must be analyzed");
    assert_eq!(hit.plaintext, direct);
}

#[test]
fn each_result_decrypts_with_its_own_key() {
    let cipher_bytes = vigenere("LEMON", ENGLISH_SAMPLE, true).unwrap();
    let cipher_text = String::from_utf8(cipher_bytes).unwrap();
    for result in analyze(&cipher_text) {
        let key_text = String::from_utf8(result.key.clone()).unwrap();
        let plain = vigenere(&key_text, &cipher_text, false).unwrap();
        assert_eq!(result.plaintext, plain);
        assert_eq!(result.key.len() as u32, result.length);
    }
}
