use vigenere::uppercase_and_filter;

#[test]
fn strips_and_uppercases() {
    assert_eq!(uppercase_and_filter("Hello, World! 123"), b"HELLOWORLD".to_vec());
}

#[test]
fn empty_input_yields_empty_output() {
    assert_eq!(uppercase_and_filter(""), Vec::<u8>::new());
    assert_eq!(uppercase_and_filter("123 .,;!?"), Vec::<u8>::new());
}

#[test]
fn non_ascii_letters_are_dropped() {
    assert_eq!(uppercase_and_filter("na\u{ef}ve caf\u{e9}"), b"NAVECAF".to_vec());
}

#[test]
fn normalization_is_idempotent() {
    let inputs = ["Attack at Dawn!", "", "already UPPER", "mixed 123 Case?", "\u{e9}\u{e9}x"];
    for input in inputs {
        let once = uppercase_and_filter(input);
        let as_text = String::from_utf8(once.clone()).unwrap();
        let twice = uppercase_and_filter(&as_text);
        assert_eq!(twice, once);
    }
}
