use diffutils::unicode::{bytes_width, lossy_string};

#[test]
fn printable_ascii_takes_one_column_per_character() {
    assert_eq!(bytes_width(b"hello, world ~"), 14);
    assert_eq!(bytes_width(b""), 0);
}

#[test]
fn wide_characters_take_two_columns() {
    assert_eq!(bytes_width("日本".as_bytes()), 4);
}

#[test]
fn invalid_utf8_takes_one_column_per_byte() {
    assert_eq!(bytes_width(&[0xff, 0xfe, b'a']), 3);
}

#[test]
fn lossy_text_replaces_invalid_bytes() {
    assert_eq!(lossy_string(b"ok"), "ok");
    assert_eq!(lossy_string(&[b'a', 0xff]), "a\u{fffd}");
}
