use vigenere::uppercase_and_filter;
use vigenere::vigenere;
use vigenere::CipherError;

#[test]
fn encodes_attack_at_dawn_with_lemon() {
    let cipher = vigenere("LEMON", "ATTACKATDAWN", true).unwrap();
    assert_eq!(cipher, b"LXFOPVEFRNHR".to_vec());
}

#[test]
fn decodes_with_lemon_back_to_plaintext() {
    let plain = vigenere("LEMON", "LXFOPVEFRNHR", false).unwrap();
    assert_eq!(plain, b"ATTACKATDAWN".to_vec());
}

#[test]
fn key_and_text_are_normalized_first() {
    let cipher = vigenere("lemon!", "Attack at Dawn.", true).unwrap();
    assert_eq!(cipher, b"LXFOPVEFRNHR".to_vec());
}

#[test]
fn round_trip_for_various_keys() {
    let keys = ["A", "LEMON", "ZZZZ", "ABCDEFGHIJKLMNOPQRSTUVWXYZABCDEF"];
    let texts = ["THEQUICKBROWNFOXJUMPSOVERTHELAZYDOG", "A", "XYZZY", "Attack at Dawn!"];
    for key in keys {
        for text in texts {
            let normalized = uppercase_and_filter(text);
            let encoded = vigenere(key, text, true).unwrap();
            let as_text = String::from_utf8(encoded).unwrap();
            let decoded = vigenere(key, &as_text, false).unwrap();
            assert_eq!(decoded, normalized);
        }
    }
}

#[test]
fn empty_key_is_rejected() {
    assert_eq!(vigenere("", "ABC", true), Err(CipherError::EmptyKey));
    assert_eq!(vigenere("123 !?", "ABC", false), Err(CipherError::EmptyKey));
}

#[test]
fn empty_text_encodes_to_empty() {
    assert_eq!(vigenere("LEMON", "", true).unwrap(), Vec::<u8>::new());
}

#[test]
fn direct_decrypt_with_key_bit() {
    // The direct decrypt path is the transform itself, called with the
    // decode direction on a known short ciphertext.
    let plain = vigenere("BIT", "IMEMWPPZEE", false).unwrap();
    assert_eq!(plain, b"HELLOWORLD".to_vec());
    let cipher = vigenere("BIT", "HELLOWORLD", true).unwrap();
    assert_eq!(cipher, b"IMEMWPPZEE".to_vec());
}
