use diffutils::lines::text_line_count;

#[test]
fn line_counts_follow_newlines() {
    assert_eq!(text_line_count(b""), 0);
    assert_eq!(text_line_count(b"a"), 1);
    assert_eq!(text_line_count(b"a\n"), 1);
    assert_eq!(text_line_count(b"a\nb"), 2);
    assert_eq!(text_line_count(b"\n\n"), 2);
}
