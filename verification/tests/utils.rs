use diffutils::utils::{format_failure_to_read_input_file, format_failure_to_read_input_files};
use diffutils::utils::{do_expand_tabs, do_write_line};

fn assert_tab_expansion(line: &str, tabsize: usize, expected: &str) {
    assert_eq!(do_expand_tabs(line.as_bytes(), tabsize), expected.as_bytes());
}

fn assert_line_written(line: &str, expand_tabs: bool, tabsize: usize, expected: &str) {
    let mut output: Vec<u8> = Vec::new();
    assert!(do_write_line(&mut output, line.as_bytes(), expand_tabs, tabsize).is_ok());
    assert_eq!(output, expected.as_bytes());
}

#[test]
fn utils_basics() {
    assert_tab_expansion("foo barr   baz", 8, "foo barr   baz");
    assert_tab_expansion("foo\tbarr\tbaz", 8, "foo     barr    baz");
    assert_tab_expansion("foo\tbarr\tbaz", 5, "foo  barr baz");
    assert_tab_expansion("foo\tbarr\tbaz", 2, "foo barr  baz");

    assert_line_written("foo bar baz", false, 8, "foo bar baz");
    assert_line_written("foo bar\tbaz", false, 8, "foo bar\tbaz");
    assert_line_written("foo bar\tbaz", true, 8, "foo bar baz");
}

#[test]
fn multibyte_chars() {
    assert_tab_expansion("foo\tépée\tbaz", 8, "foo     épée    baz");
    assert_tab_expansion("foo\t😉\tbaz", 5, "foo  😉   baz");
    assert_tab_expansion("foo\t👩‍🔬\tbaz", 6, "foo   👩‍🔬    baz");
}

#[test]
fn invalid_utf8() {
    assert_eq!(
        do_expand_tabs(&[240, 240, 152, 137, 9, 102, 111, 111], 8),
        &[240, 240, 152, 137, 32, 32, 32, 32, 102, 111, 111]
    );
}

#[test]
fn expand_tabs_edges() {
    // A tab at the start, two tabs in a row, and a tab at the end.
    assert_tab_expansion("\tx", 4, "    x");
    assert_tab_expansion("a\t\tb", 4, "a       b");
    assert_tab_expansion("abcd\t", 4, "abcd    ");
    assert_tab_expansion("", 4, "");
}

#[test]
fn failure_messages_drop_the_os_code() {
    assert_eq!(
        format_failure_to_read_input_file(b"cmp", b"nofile", "No such file or directory (os error 2)"),
        "cmp: nofile: No such file or directory"
    );
    assert_eq!(format_failure_to_read_input_file(b"diff", b"x", "odd (os error)"), "diff: x: odd (os error)");
    let errors = vec![
        (b"a".to_vec(), "Permission denied (os error 13)".to_string()),
        (b"b".to_vec(), "No such file or directory (os error 2)".to_string()),
    ];
    assert_eq!(
        format_failure_to_read_input_files(b"sdiff", &errors),
        "sdiff: a: Permission denied\nsdiff: b: No such file or directory"
    );
    assert_eq!(format_failure_to_read_input_files(b"sdiff", &errors[..1].to_vec()), "sdiff: a: Permission denied");
}
