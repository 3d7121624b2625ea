use diffutils::ed_diff::{diff, make_diff, DiffError};

#[test]
fn ed_diff_test_basic() {
    let from = b"a\n";
    let to = b"b\n";
    let diff = diff(from, to, false, false, 8).unwrap();
    let expected = ["1c", "b", ".", ""].join("\n");
    assert_eq!(diff, expected.as_bytes());
}

#[test]
fn ed_diff_test_stop_early() {
    let from = ["a", "b", "c", ""].join("\n");
    let to = ["a", "d", "c", ""].join("\n");

    let diff_full = diff(from.as_bytes(), to.as_bytes(), false, false, 8).unwrap();
    let expected_full = ["2c", "d", ".", ""].join("\n");
    assert_eq!(diff_full, expected_full.as_bytes());

    let diff_brief = diff(from.as_bytes(), to.as_bytes(), true, false, 8).unwrap();
    let expected_brief = "\0".as_bytes();
    assert_eq!(diff_brief, expected_brief);

    let nodiff_full = diff(from.as_bytes(), from.as_bytes(), false, false, 8).unwrap();
    assert!(nodiff_full.is_empty());

    let nodiff_brief = diff(from.as_bytes(), from.as_bytes(), true, false, 8).unwrap();
    assert!(nodiff_brief.is_empty());
}

#[test]
fn ed_missing_newline_is_an_error() {
    assert_eq!(diff(b"a", b"a\n", false, false, 8), Err(DiffError::MissingNL));
    assert_eq!(diff(b"a\n", b"b", false, false, 8), Err(DiffError::MissingNL));
    assert_eq!(DiffError::MissingNL.message(), "No newline at end of file");
}

#[test]
fn ed_offsets_and_dot_lines() {
    // Deleting the first line moves the later groups up by one line.
    let out = diff(b"a\nb\nc\nd\n", b"b\nc\nx\n", false, false, 8).unwrap();
    assert_eq!(String::from_utf8(out).unwrap(), "1,1d\n3c\nx\n.\n");
    // Appending lines after the last one, one of them a single dot.
    let out = diff(b"a\n", b"a\n.\nz\n", false, false, 8).unwrap();
    assert_eq!(String::from_utf8(out).unwrap(), "1a\n..\n.\ns/.//\na\nz\n.\n");
    // Deleting two lines.
    let out = diff(b"a\nb\nc\n", b"c\n", false, false, 8).unwrap();
    assert_eq!(String::from_utf8(out).unwrap(), "1,2d\n");
    // Changing two lines into one.
    let out = diff(b"a\nb\nc\n", b"x\nc\n", false, false, 8).unwrap();
    assert_eq!(String::from_utf8(out).unwrap(), "1,2c\nx\n.\n");
    // Tabs are expanded in inserted lines when asked.
    let out = diff(b"a\n", b"x\ty\n", false, true, 4).unwrap();
    assert_eq!(String::from_utf8(out).unwrap(), "1c\nx   y\n.\n");
}

#[test]
fn ed_groups_in_order_and_one_when_stopping_early() {
    let from = b"a\nb\nc\nd\ne\nf\n";
    let to = b"a\nB\nc\nd\nE\nf\ng\n";
    let hunks = make_diff(from, to, false).unwrap();
    assert_eq!(hunks.len(), 3);
    for w in hunks.windows(2) {
        assert!(w[0].line_number_expected + w[0].expected.len() <= w[1].line_number_expected);
    }
    let first = make_diff(from, to, true).unwrap();
    assert_eq!(first.len(), 1);
}
