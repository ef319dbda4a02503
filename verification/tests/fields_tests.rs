use tcp::fields::{handle_string, split_fields};

#[test]
fn handle_string_always_answers_zero() {
    assert_eq!(handle_string(b"|a|b"), 0);
    assert_eq!(handle_string(b"a%b%c"), 0);
    assert_eq!(handle_string(b"plain"), 0);
}

#[test]
fn split_fields_keeps_empty_pieces() {
    assert_eq!(split_fields(b"|a|b", b'|'), vec![b"".to_vec(), b"a".to_vec(), b"b".to_vec()]);
    assert_eq!(split_fields(b"a%%c%", b'%'), vec![b"a".to_vec(), b"".to_vec(), b"c".to_vec(), b"".to_vec()]);
    assert_eq!(split_fields(b"", b'|'), vec![Vec::<u8>::new()]);
    assert_eq!(split_fields(b"abc", b'|'), vec![b"abc".to_vec()]);
}
