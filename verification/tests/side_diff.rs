use std::io::Write;

use diffutils::params::Params;
use diffutils::side_diff::{CharIter, diff, format_tabs_and_spaces, process_half_line, push_output, Config};

const DEF_TAB_SIZE: usize = 4;

fn config_e_t() -> Config {
    Config {
        sdiff_half_width: 60,
        tab_size: DEF_TAB_SIZE,
        expanded: true,
        sdiff_column_two_offset: 0,
        separator_pos: 0,
    }
}

fn config_e_f() -> Config {
    Config {
        sdiff_half_width: 60,
        tab_size: DEF_TAB_SIZE,
        expanded: false,
        sdiff_column_two_offset: 0,
        separator_pos: 0,
    }
}

fn create_test_config(expanded: bool, tab_size: usize) -> Config {
    Config {
        sdiff_half_width: 30,
        sdiff_column_two_offset: 60,
        tab_size,
        expanded,
        separator_pos: 15,
    }
}

fn create_test_config_def() -> Config {
    Config::new(130, 8, false)
}

fn generate_params() -> Params {
    Params {
        tabsize: 8,
        expand_tabs: false,
        width: 130,
        ..Default::default()
    }
}

fn contains_string(vec: &Vec<u8>, s: &str) -> usize {
    let pattern = s.as_bytes();
    vec.windows(pattern.len()).filter(|s| s == &pattern).count()
}

fn calc_lines(input: &Vec<u8>) -> usize {
    let mut lines_counter = 0;
    for c in input {
        if c == &b'\n' {
            lines_counter += 1;
        }
    }
    lines_counter
}

fn create_config(full_width: usize, tab_size: usize, expanded: bool) -> Config {
    Config::new(full_width, tab_size, expanded)
}

#[test]
fn test_format_tabs_and_spaces_expanded_false() {
    let mut buf = vec![];
    format_tabs_and_spaces(0, 5, &config_e_f(), &mut buf).unwrap();
    assert_eq!(buf, vec![b'\t', b' ']);
}
#[test]
fn test_format_tabs_and_spaces_expanded_true() {
    let mut buf = vec![];
    format_tabs_and_spaces(0, 5, &config_e_t(), &mut buf).unwrap();
    assert_eq!(buf, vec![b' '; 5]);
}
#[test]
fn test_format_tabs_and_spaces_from_greater_than_to() {
    let mut buf = vec![];
    format_tabs_and_spaces(6, 5, &config_e_f(), &mut buf).unwrap();
    assert!(buf.is_empty());
}
#[test]
fn test_format_from_non_zero_position() {
    let mut buf = vec![];
    format_tabs_and_spaces(2, 7, &config_e_f(), &mut buf).unwrap();
    assert_eq!(buf, vec![b'\t', b' ', b' ', b' ']);
}
#[test]
fn test_multiple_full_tabs_needed() {
    let mut buf = vec![];
    format_tabs_and_spaces(0, 12, &config_e_f(), &mut buf).unwrap();
    assert_eq!(buf, vec![b'\t', b'\t', b'\t']);
}
#[test]
fn test_uneven_tab_boundary_with_spaces() {
    let mut buf = vec![];
    format_tabs_and_spaces(3, 10, &config_e_f(), &mut buf).unwrap();
    assert_eq!(buf, vec![b'\t', b'\t', b' ', b' ']);
}
#[test]
fn test_expanded_true_with_offset() {
    let mut buf = vec![];
    format_tabs_and_spaces(3, 9, &config_e_t(), &mut buf).unwrap();
    assert_eq!(buf, vec![b' '; 6]);
}
#[test]
fn test_exact_tab_boundary_from_midpoint() {
    let mut buf = vec![];
    format_tabs_and_spaces(4, 8, &config_e_f(), &mut buf).unwrap();
    assert_eq!(buf, vec![b'\t']);
}
#[test]
fn test_mixed_tabs_and_spaces_edge_case() {
    let mut buf = vec![];
    format_tabs_and_spaces(5, 9, &config_e_f(), &mut buf).unwrap();
    assert_eq!(buf, vec![b'\t', b' ']);
}
#[test]
fn test_minimal_gap_with_tab() {
    let mut buf = vec![];
    format_tabs_and_spaces(7, 8, &config_e_f(), &mut buf).unwrap();
    assert_eq!(buf, vec![b'\t']);
}
#[test]
fn test_expanded_false_with_tab_at_end() {
    let mut buf = vec![];
    format_tabs_and_spaces(6, 8, &config_e_f(), &mut buf).unwrap();
    assert_eq!(buf, vec![b'\t']);
}
#[test]
fn test_empty_line_left_expanded_false() {
    let config = create_test_config(false, DEF_TAB_SIZE);
    let mut buf = vec![];
    process_half_line(b"", 10, false, false, &config, &mut buf).unwrap();
    assert_eq!(buf.len(), 5);
    assert_eq!(buf, vec![b'\t', b'\t', b' ', b' ', b' ']);
}
#[test]
fn test_tabs_unexpanded() {
    let config = create_test_config(false, DEF_TAB_SIZE);
    let mut buf = vec![];
    process_half_line(b"\tabc", 8, false, false, &config, &mut buf).unwrap();
    assert_eq!(buf, vec![b'\t', b'a', b'b', b'c', b'\t', b' ']);
}
#[test]
fn test_utf8_multibyte() {
    let config = create_test_config(false, DEF_TAB_SIZE);
    let mut buf = vec![];
    let s = "😉😉😉".as_bytes();
    process_half_line(s, 3, false, false, &config, &mut buf).unwrap();
    let mut r = vec![];
    r.write_all("😉\t".as_bytes()).unwrap();
    assert_eq!(buf, r)
}
#[test]
fn test_newline_handling() {
    let config = create_test_config(false, DEF_TAB_SIZE);
    let mut buf = vec![];
    process_half_line(b"abc\ndef", 5, false, false, &config, &mut buf).unwrap();
    assert_eq!(buf, vec![b'a', b'b', b'c', b'\t', b' ', b' ']);
}
#[test]
fn test_carriage_return() {
    let config = create_test_config(false, DEF_TAB_SIZE);
    let mut buf = vec![];
    process_half_line(b"\rxyz", 5, true, false, &config, &mut buf).unwrap();
    let mut r = vec![b'\r'];
    r.extend(vec![b'\t'; 15]);
    r.extend(vec![b'x', b'y', b'z']);
    assert_eq!(buf, r);
}
#[test]
fn test_exact_width_fit() {
    let config = create_test_config(true, DEF_TAB_SIZE);
    let mut buf = vec![];
    process_half_line(b"abcd", 4, false, false, &config, &mut buf).unwrap();
    assert_eq!(buf.len(), 5);
    assert_eq!(buf, b"abcd ".to_vec());
}
#[test]
fn test_non_utf8_bytes() {
    let config = create_test_config(false, DEF_TAB_SIZE);
    let mut buf = vec![];
    // ISO-8859-1
    process_half_line(
        &[0x63, 0x61, 0x66, 0xE9],
        5,
        false,
        false,
        &config,
        &mut buf,
    )
    .unwrap();
    assert_eq!(&buf, &[0x63, 0x61, 0x66, 0xE9, b' ', b' ']);
    assert!(String::from_utf8(buf).is_err());
}
#[test]
fn test_non_utf8_bytes_ignore_padding_bytes() {
    let config = create_test_config(false, DEF_TAB_SIZE);
    let mut buf = vec![];

    let utf32le_bytes = [
        0x63, 0x00, 0x00, 0x00, // 'c'
        0x61, 0x00, 0x00, 0x00, // 'a'
        0x66, 0x00, 0x00, 0x00, // 'f'
        0xE9, 0x00, 0x00, 0x00, // 'é'
    ];
    // utf8 little endiand 32 bits (or 4 bytes per char)
    process_half_line(&utf32le_bytes, 6, false, false, &config, &mut buf).unwrap();
    let mut r = utf32le_bytes.to_vec();
    r.extend(vec![b' '; 3]);
    assert_eq!(buf, r);
}
#[test]
fn test_non_utf8_non_preserve_ascii_bytes_cut() {
    let config = create_test_config(false, DEF_TAB_SIZE);
    let mut buf = vec![];

    let gb18030 = b"\x63\x61\x66\xA8\x80"; // some random chinese encoding
                                           //                                   ^ é char, start multi byte
    process_half_line(gb18030, 4, false, false, &config, &mut buf).unwrap();
    assert_eq!(buf, b"\x63\x61\x66\xA8 "); // break the encoding of 'é' letter
}
#[test]
fn test_right_line_padding() {
    let config = create_test_config(false, DEF_TAB_SIZE);
    let mut buf = vec![];
    process_half_line(b"xyz", 5, true, true, &config, &mut buf).unwrap();
    assert_eq!(buf.len(), 3);
}
#[test]
fn test_mixed_tabs_spaces() {
    let config = create_test_config(false, DEF_TAB_SIZE);
    let mut buf = vec![];
    process_half_line(b"\t  \t", 10, false, false, &config, &mut buf).unwrap();
    assert_eq!(buf, vec![b'\t', b' ', b' ', b'\t', b' ', b' ', b' ']);
}
#[test]
fn test_overflow_multibyte() {
    let config = create_test_config(false, DEF_TAB_SIZE);
    let mut buf = vec![];
    let s = "日本語".as_bytes();
    process_half_line(s, 5, false, false, &config, &mut buf).unwrap();
    assert_eq!(buf, "日本  ".as_bytes());
}
#[test]
fn test_white_space_gutter() {
    let config = create_test_config(false, DEF_TAB_SIZE);
    let mut buf = vec![];
    let s = b"abc";
    process_half_line(s, 3, false, true, &config, &mut buf).unwrap();
    assert_eq!(buf, b"abc\t  ");
}
#[test]
fn test_expanded_true() {
    let config = create_test_config(true, DEF_TAB_SIZE);
    let mut buf = vec![];
    let s = b"abc";
    process_half_line(s, 10, false, false, &config, &mut buf).unwrap();
    assert_eq!(buf, b"abc        ")
}
#[test]
fn test_expanded_true_with_gutter() {
    let config = create_test_config(true, DEF_TAB_SIZE);
    let mut buf = vec![];
    let s = b"abc";
    process_half_line(s, 10, false, true, &config, &mut buf).unwrap();
    assert_eq!(buf, b"abc          ")
}
#[test]
fn test_width0_chars() {
    let config = create_test_config(false, DEF_TAB_SIZE);
    let mut buf = vec![];
    let s = b"abc\0\x0B\x07\x0C";
    process_half_line(s, 4, false, false, &config, &mut buf).unwrap();
    assert_eq!(buf, b"abc\0\x0B\x07\x0C\t ")
}
#[test]
fn test_left_empty_white_space_gutter() {
    let config = create_test_config(false, DEF_TAB_SIZE);
    let mut buf = vec![];
    let s = b"";
    process_half_line(s, 9, false, true, &config, &mut buf).unwrap();
    assert_eq!(buf, b"\t\t\t");
}
#[test]
fn test_s_size_eq_max_width_p1() {
    let config = create_test_config(false, DEF_TAB_SIZE);
    let mut buf = vec![];
    let s = b"abcdefghij";
    process_half_line(s, 10, false, false, &config, &mut buf).unwrap();
    assert_eq!(buf, b"abcdefghij ");
}
#[test]
fn test_mixed_tabs_and_spaces_inversion() {
    let config = create_test_config(false, DEF_TAB_SIZE);
    let mut buf = vec![];
    let s = b" \t \t ";
    process_half_line(s, 10, false, false, &config, &mut buf).unwrap();
    assert_eq!(buf, b" \t \t   ");
}
#[test]
fn test_expanded_with_tabs() {
    let config = create_test_config(true, DEF_TAB_SIZE);
    let mut buf = vec![];
    let s = b" \t \t ";
    process_half_line(s, 10, false, false, &config, &mut buf).unwrap();
    assert_eq!(buf, b"           ");
}
#[test]
fn test_expanded_with_tabs_and_space_gutter() {
    let config = create_test_config(true, DEF_TAB_SIZE);
    let mut buf = vec![];
    let s = b" \t \t ";
    process_half_line(s, 10, false, true, &config, &mut buf).unwrap();
    assert_eq!(buf, b"             ");
}
#[test]
fn test_zero_width_unicode_chars() {
    let config = create_test_config(false, DEF_TAB_SIZE);
    let mut buf = vec![];
    let s = "\u{200B}".as_bytes();
    process_half_line(s, 10, false, false, &config, &mut buf).unwrap();
    assert_eq!(buf, "\u{200B}\t\t   ".as_bytes());
}
#[test]
fn test_multiple_carriage_returns() {
    let config = create_test_config(false, DEF_TAB_SIZE);
    let mut buf = vec![];
    let s = b"\r\r";
    process_half_line(s, 10, false, false, &config, &mut buf).unwrap();
    let mut r = vec![b'\r'];
    r.extend(vec![b'\t'; 15]);
    r.push(b'\r');
    r.extend(vec![b'\t'; 15]);
    r.extend(vec![b'\t'; 2]);
    r.extend(vec![b' '; 3]);
    assert_eq!(buf, r);
}
#[test]
fn test_multiple_carriage_returns_is_right_true() {
    let config = create_test_config(false, DEF_TAB_SIZE);
    let mut buf = vec![];
    let s = b"\r\r";
    process_half_line(s, 10, true, false, &config, &mut buf).unwrap();
    let mut r = vec![b'\r'];
    r.extend(vec![b'\t'; 15]);
    r.push(b'\r');
    r.extend(vec![b'\t'; 15]);
    assert_eq!(buf, r);
}
#[test]
fn test_mixed_invalid_utf8_with_valid() {
    let config = create_test_config(false, DEF_TAB_SIZE);
    let mut buf = vec![];
    let s = b"abc\xFF\xFEdef";
    process_half_line(s, 10, false, false, &config, &mut buf).unwrap();
    assert!(String::from_utf8(s.to_vec()).is_err());
    assert_eq!(buf, b"abc\xFF\xFEdef   ");
}
#[test]
fn test_max_width_zero() {
    let config = create_test_config(false, DEF_TAB_SIZE);
    let mut buf = vec![];
    let s = b"foo bar";
    process_half_line(s, 0, false, false, &config, &mut buf).unwrap();
    assert_eq!(buf, vec![b' ']);
}
#[test]
fn test_line_only_with_tabs() {
    let config = create_test_config(false, DEF_TAB_SIZE);
    let mut buf = vec![];
    let s = b"\t\t\t";
    process_half_line(s, 10, false, false, &config, &mut buf).unwrap();
    assert_eq!(buf, vec![b'\t', b'\t', b' ', b' ', b' '])
}
#[test]
fn test_tabs_expanded() {
    let config = create_test_config(true, DEF_TAB_SIZE);
    let mut buf = vec![];
    let s = b"\t\t\t";
    process_half_line(s, 12, false, false, &config, &mut buf).unwrap();
    assert_eq!(buf, b" ".repeat(13));
}
#[test]
fn test_mixed_tabs() {
    let config = create_test_config(false, DEF_TAB_SIZE);
    let mut buf = vec![];
    let s = b"a\tb\tc\t";
    process_half_line(s, 10, false, false, &config, &mut buf).unwrap();
    assert_eq!(buf, b"a\tb\tc  ");
}
#[test]
fn test_mixed_tabs_with_gutter() {
    let config = create_test_config(false, DEF_TAB_SIZE);
    let mut buf = vec![];
    let s = b"a\tb\tc\t";
    process_half_line(s, 10, false, true, &config, &mut buf).unwrap();
    assert_eq!(buf, b"a\tb\tc\t ");
}
#[test]
fn test_mixed_tabs_expanded() {
    let config = create_test_config(true, DEF_TAB_SIZE);
    let mut buf = vec![];
    let s = b"a\tb\tc\t";
    process_half_line(s, 10, false, false, &config, &mut buf).unwrap();
    assert_eq!(buf, b"a   b   c  ");
}
#[test]
fn test_mixed_tabs_expanded_with_gutter() {
    let config = create_test_config(true, DEF_TAB_SIZE);
    let mut buf = vec![];
    let s = b"a\tb\tc\t";
    process_half_line(s, 10, false, true, &config, &mut buf).unwrap();
    assert_eq!(buf, b"a   b   c    ");
}
#[test]
fn test_break_if_invalid_max_width() {
    let config = create_test_config(true, DEF_TAB_SIZE);
    let mut buf = vec![];
    let s = b"a\tb\tc\t";
    process_half_line(s, 61, false, true, &config, &mut buf).unwrap();
    assert_eq!(buf, b"");
    assert_eq!(buf.len(), 0);
}
#[test]
fn test_new_line() {
    let config = create_test_config(false, DEF_TAB_SIZE);
    let mut buf = vec![];
    let s = b"abc";
    process_half_line(s, 10, false, false, &config, &mut buf).unwrap();
    assert_eq!(buf, b"abc\t\t   ");
}
#[test]
fn test_left_empty_right_not_added() {
    let config = create_test_config_def();
    let left_ln = b"";
    let right_ln = b"bar";
    let symbol = b'>';
    let mut buf = vec![];
    push_output(&left_ln[..], &right_ln[..], symbol, &mut buf, &config).unwrap();
    assert_eq!(buf, b"\t\t\t\t\t\t\t      >\tbar\n");
}
#[test]
fn test_right_empty_left_not_del() {
    let config = create_test_config_def();
    let left_ln = b"bar";
    let right_ln = b"";
    let symbol = b'>';
    let mut buf = vec![];
    push_output(&left_ln[..], &right_ln[..], symbol, &mut buf, &config).unwrap();
    assert_eq!(buf, b"bar\t\t\t\t\t\t\t      >\n");
}
#[test]
fn test_both_empty() {
    let config = create_test_config_def();
    let left_ln = b"";
    let right_ln = b"";
    let symbol = b' ';
    let mut buf = vec![];
    push_output(&left_ln[..], &right_ln[..], symbol, &mut buf, &config).unwrap();
    assert_eq!(buf, b"\n");
}
#[test]
fn test_output_cut_with_maximization() {
    let config = create_test_config_def();
    let left_ln = b"a".repeat(62);
    let right_ln = b"a".repeat(62);
    let symbol = b' ';
    let mut buf = vec![];
    push_output(&left_ln[..], &right_ln[..], symbol, &mut buf, &config).unwrap();
    assert_eq!(buf.len(), 61 * 2 + 2);
    assert_eq!(&buf[0..61], vec![b'a'; 61]);
    assert_eq!(&buf[61..62], b"\t");
    let mut end = b"a".repeat(61);
    end.push(b'\n');
    assert_eq!(&buf[62..], end);
}
#[test]
fn test_both_lines_non_empty_with_space_symbol_max_tabs() {
    let config = create_test_config_def();
    let left_ln = b"left";
    let right_ln = b"right";
    let symbol = b' ';
    let mut buf = vec![];
    push_output(left_ln, right_ln, symbol, &mut buf, &config).unwrap();
    let expected_left = "left\t\t\t\t\t\t\t\t";
    let expected_right = "right";
    assert_eq!(buf, format!("{expected_left}{expected_right}\n").as_bytes());
}
#[test]
fn test_non_space_symbol_with_padding() {
    let config = create_test_config_def();
    let left_ln = b"data";
    let right_ln = b"";
    let symbol = b'<'; // impossible case, just to use different symbol
    let mut buf = vec![];
    push_output(left_ln, right_ln, symbol, &mut buf, &config).unwrap();
    assert_eq!(buf, format!("data\t\t\t\t\t\t\t      <\n").as_bytes());
}
#[test]
fn test_lines_exceeding_half_width() {
    let config = create_test_config_def();
    let left_ln = vec![b'a'; 100];
    let left_ln = left_ln.as_slice();
    let right_ln = vec![b'b'; 100];
    let right_ln = right_ln.as_slice();
    let symbol = b' ';
    let mut buf = vec![];
    push_output(left_ln, right_ln, symbol, &mut buf, &config).unwrap();
    let expected_left = "a".repeat(61);
    let expected_right = "b".repeat(61);
    assert_eq!(buf.len(), 61 + 1 + 61 + 1);
    assert_eq!(&buf[0..61], expected_left.as_bytes());
    assert_eq!(buf[61], b'\t');
    assert_eq!(&buf[62..123], expected_right.as_bytes());
    assert_eq!(&buf[123..], b"\n");
}
#[test]
fn test_tabs_in_lines_expanded() {
    let mut config = create_test_config_def();
    config.expanded = true;
    let left_ln = b"\tleft";
    let right_ln = b"\tright";
    let symbol = b' ';
    let mut buf = vec![];
    push_output(left_ln, right_ln, symbol, &mut buf, &config).unwrap();
    let expected_left = "        left".to_string() + &" ".repeat(61 - 12);
    let expected_right = "        right";
    assert_eq!(
        buf,
        format!("{}{}{}\n", expected_left, "   ", expected_right).as_bytes()
    );
}
#[test]
fn test_unicode_characters() {
    let config = create_test_config_def();
    let left_ln = "áéíóú".as_bytes();
    let right_ln = "😀😃😄".as_bytes();
    let symbol = b' ';
    let mut buf = vec![];
    push_output(left_ln, right_ln, symbol, &mut buf, &config).unwrap();
    let expected_left = format!("áéíóú\t\t\t\t\t\t\t\t");
    let expected_right = "😀😃😄";
    assert_eq!(
        buf,
        format!("{}{}\n", expected_left, expected_right).as_bytes()
    );
}
#[test]
fn test_equal_lines() {
    let params = generate_params();
    let from_file = b"equal";
    let to_file = b"equal";
    let mut output = vec![];
    diff(from_file, to_file, &mut output, &params);
    assert_eq!(calc_lines(&output), 1);
    assert!(!output.contains(&b'<'));
    assert!(!output.contains(&b'>'));
    assert_eq!(contains_string(&output, "equal"), 2)
}
#[test]
fn test_different_lines() {
    let params = generate_params();
    let from_file = b"eq";
    let to_file = b"ne";
    let mut output = vec![];
    diff(from_file, to_file, &mut output, &params);
    assert_eq!(calc_lines(&output), 2);
    assert!(output.contains(&b'>'));
    assert!(output.contains(&b'<'));
    assert_eq!(contains_string(&output, "eq"), 1);
    assert_eq!(contains_string(&output, "ne"), 1);
}
#[test]
fn test_added_line() {
    let params = generate_params();
    let from_file = b"";
    let to_file = b"new line";
    let mut output = vec![];
    diff(from_file, to_file, &mut output, &params);

    assert_eq!(calc_lines(&output), 1);
    assert_eq!(contains_string(&output, ">"), 1);
    assert_eq!(contains_string(&output, "new line"), 1);
}
#[test]
fn test_removed_line() {
    let params = generate_params();
    let from_file = b"old line";
    let to_file = b"";
    let mut output = vec![];
    diff(from_file, to_file, &mut output, &params);

    assert_eq!(calc_lines(&output), 1);
    assert_eq!(contains_string(&output, "<"), 1);
    assert_eq!(contains_string(&output, "old line"), 1);
}
#[test]
fn test_multiple_changes() {
    let params = generate_params();
    let from_file = b"line1\nline2\nline3";
    let to_file = b"line1\nmodified\nline4";
    let mut output = vec![];
    diff(from_file, to_file, &mut output, &params);

    assert_eq!(calc_lines(&output), 5);
    assert_eq!(contains_string(&output, "<"), 2);
    assert_eq!(contains_string(&output, ">"), 2);
}
#[test]
fn test_unicode_and_special_chars() {
    let params = generate_params();
    let from_file = "á\t€".as_bytes();
    let to_file = "€\t😊".as_bytes();
    let mut output = vec![];
    diff(from_file, to_file, &mut output, &params);

    assert!(String::from_utf8_lossy(&output).contains("á"));
    assert!(String::from_utf8_lossy(&output).contains("€"));
    assert!(String::from_utf8_lossy(&output).contains("😊"));
    assert_eq!(contains_string(&output, "<"), 1);
    assert_eq!(contains_string(&output, ">"), 1);
}
#[test]
fn test_mixed_whitespace() {
    let params = generate_params();
    let from_file = b"  \tspaces";
    let to_file = b"\t\t tabs";
    let mut output = vec![];
    diff(from_file, to_file, &mut output, &params);

    assert!(output.contains(&b'<'));
    assert!(output.contains(&b'>'));
    assert!(String::from_utf8_lossy(&output).contains("spaces"));
    assert!(String::from_utf8_lossy(&output).contains("tabs"));
}
#[test]
fn test_empty_files() {
    let params = generate_params();
    let from_file = b"";
    let to_file = b"";
    let mut output = vec![];
    diff(from_file, to_file, &mut output, &params);

    assert_eq!(output, vec![]);
}
#[test]
fn test_partially_matching_lines() {
    let params = generate_params();
    let from_file = b"match\nchange";
    let to_file = b"match\nupdated";
    let mut output = vec![];
    diff(from_file, to_file, &mut output, &params);

    assert_eq!(calc_lines(&output), 3);
    assert_eq!(contains_string(&output, "match"), 2);
    assert_eq!(contains_string(&output, "<"), 1);
    assert_eq!(contains_string(&output, ">"), 1);
}
#[test]
fn test_interleaved_add_remove() {
    let params = generate_params();
    let from_file = b"A\nB\nC\nD";
    let to_file = b"B\nX\nD\nY";
    let mut output = vec![];
    diff(from_file, to_file, &mut output, &params);

    assert_eq!(calc_lines(&output), 7);
    assert_eq!(contains_string(&output, "A"), 1);
    assert_eq!(contains_string(&output, "X"), 1);
    assert_eq!(contains_string(&output, "Y"), 1);
    assert_eq!(contains_string(&output, "<"), 3);
    assert_eq!(contains_string(&output, ">"), 3);
}
#[test]
fn test_swapped_lines() {
    let params = generate_params();
    let from_file = b"1\n2\n3\n4";
    let to_file = b"4\n3\n2\n1";
    let mut output = vec![];
    diff(from_file, to_file, &mut output, &params);

    assert_eq!(calc_lines(&output), 7);
    assert_eq!(contains_string(&output, "<"), 3);
    assert_eq!(contains_string(&output, ">"), 3);
}
#[test]
fn test_gap_between_changes() {
    let params = generate_params();
    let from_file = b"Start\nKeep1\nRemove\nKeep2\nEnd";
    let to_file = b"Start\nNew1\nKeep1\nKeep2\nNew2\nEnd";
    let mut output = vec![];
    diff(from_file, to_file, &mut output, &params);

    assert_eq!(calc_lines(&output), 7);
    assert_eq!(contains_string(&output, "Remove"), 1);
    assert_eq!(contains_string(&output, "New1"), 1);
    assert_eq!(contains_string(&output, "New2"), 1);
    assert_eq!(contains_string(&output, "<"), 1);
    assert_eq!(contains_string(&output, ">"), 2);
}
#[test]
fn test_mixed_operations_complex() {
    let params = generate_params();
    let from_file = b"Same\nOld1\nSameMid\nOld2\nSameEnd";
    let to_file = b"Same\nNew1\nSameMid\nNew2\nNew3\nSameEnd";
    let mut output = vec![];
    diff(from_file, to_file, &mut output, &params);

    assert_eq!(calc_lines(&output), 8);
    assert_eq!(contains_string(&output, "<"), 2);
    assert_eq!(contains_string(&output, ">"), 3);
}
#[test]
fn test_insert_remove_middle() {
    let params = generate_params();
    let from_file = b"Header\nContent1\nFooter";
    let to_file = b"Header\nContent2\nFooter";
    let mut output = vec![];
    diff(from_file, to_file, &mut output, &params);

    assert_eq!(calc_lines(&output), 4);
    assert_eq!(contains_string(&output, "Content1"), 1);
    assert_eq!(contains_string(&output, "Content2"), 1);
    assert_eq!(contains_string(&output, "<"), 1);
    assert_eq!(contains_string(&output, ">"), 1);
}
#[test]
fn test_multiple_adjacent_changes() {
    let params = generate_params();
    let from_file = b"A\nB\nC\nD\nE";
    let to_file = b"A\nX\nY\nD\nZ";
    let mut output = vec![];
    diff(from_file, to_file, &mut output, &params);

    assert_eq!(calc_lines(&output), 8);
    assert_eq!(contains_string(&output, "<"), 3);
    assert_eq!(contains_string(&output, ">"), 3);
}
#[test]
fn test_full_width_80_tab_4() {
    let config = create_config(80, 4, false);
    assert_eq!(config.sdiff_half_width, 37);
    assert_eq!(config.sdiff_column_two_offset, 40);
    assert_eq!(config.separator_pos, 38);
}
#[test]
fn test_full_width_40_tab_8() {
    let config = create_config(40, 8, true);
    assert_eq!(config.sdiff_half_width, 16);
    assert_eq!(config.sdiff_column_two_offset, 24);
    assert_eq!(config.separator_pos, 19); // (16 +24 -1) /2 = 19.5
}
#[test]
fn test_full_width_30_tab_2() {
    let config = create_config(30, 2, false);
    assert_eq!(config.sdiff_half_width, 13);
    assert_eq!(config.sdiff_column_two_offset, 16);
    assert_eq!(config.separator_pos, 14);
}
#[test]
fn test_small_width_10_tab_4() {
    let config = create_config(10, 4, false);
    assert_eq!(config.sdiff_half_width, 2);
    assert_eq!(config.sdiff_column_two_offset, 8);
    assert_eq!(config.separator_pos, 4);
}
#[test]
fn test_minimal_width_3_tab_4() {
    let config = create_config(3, 4, false);
    assert_eq!(config.sdiff_half_width, 0);
    assert_eq!(config.sdiff_column_two_offset, 3);
    assert_eq!(config.separator_pos, 1);
}
#[test]
fn test_odd_width_7_tab_3() {
    let config = create_config(7, 3, false);
    assert_eq!(config.sdiff_half_width, 1);
    assert_eq!(config.sdiff_column_two_offset, 6);
    assert_eq!(config.separator_pos, 3);
}
#[test]
fn test_tab_size_larger_than_width() {
    let config = create_config(5, 10, false);
    assert_eq!(config.sdiff_half_width, 0);
    assert_eq!(config.sdiff_column_two_offset, 5);
    assert_eq!(config.separator_pos, 2);
}

#[test]
fn char_iter_walks_the_whole_line() {
    let text = "a\u{e9}\t\u{4e2d}b".as_bytes().to_vec();
    let mut bytes = text.clone();
    bytes.push(0xff);
    bytes.push(b'z');
    let mut it = CharIter::new(&bytes);
    let mut seen: Vec<u8> = Vec::new();
    let mut widths = Vec::new();
    while let Some((ch, w)) = it.next() {
        assert!(!ch.is_empty());
        seen.extend_from_slice(ch);
        widths.push(w);
    }
    assert_eq!(seen, bytes);
    assert_eq!(widths.len(), 7);
    assert_eq!(widths[3], 2);
    assert_eq!(widths[5], 1);
}
