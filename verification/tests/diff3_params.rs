use diffutils::diff3::{Diff3Format, Diff3OutputMode};
use diffutils::diff3_params::{help_text, parse_params, read_args, Diff3Args};

fn args(v: &[&str]) -> Vec<Vec<u8>> {
    v.iter().map(|a| a.as_bytes().to_vec()).collect()
}

#[test]
fn test_parse_params_basic() {
    let params = parse_params(&args(&["diff3", "file1", "file2", "file3"])).expect("Failed to parse params");
    assert_eq!(params.mine, b"file1");
    assert_eq!(params.older, b"file2");
    assert_eq!(params.yours, b"file3");
    assert_eq!(params.format, Diff3Format::Normal);
    assert_eq!(params.output_mode, Diff3OutputMode::All);
}

#[test]
fn test_parse_params_with_merge_flag() {
    let params = parse_params(&args(&["diff3", "-m", "file1", "file2", "file3"])).expect("Failed to parse params");
    assert_eq!(params.format, Diff3Format::Merged);
    assert_eq!(params.output_mode, Diff3OutputMode::All);
}

#[test]
fn test_parse_params_with_ed_flag() {
    let params = parse_params(&args(&["diff3", "-e", "file1", "file2", "file3"])).expect("Failed to parse params");
    assert_eq!(params.format, Diff3Format::Ed);
    assert_eq!(params.output_mode, Diff3OutputMode::EdScript);
}

#[test]
fn test_parse_params_with_text_flag() {
    let params = parse_params(&args(&["diff3", "-a", "file1", "file2", "file3"])).expect("Failed to parse params");
    assert!(params.text);
}

#[test]
fn test_parse_params_with_labels() {
    let params = parse_params(&args(&[
        "diff3",
        "--label=mine",
        "--label=older",
        "--label=yours",
        "file1",
        "file2",
        "file3",
    ]))
    .expect("Failed to parse params");
    assert_eq!(params.labels[0], Some("mine".to_string()));
    assert_eq!(params.labels[1], Some("older".to_string()));
    assert_eq!(params.labels[2], Some("yours".to_string()));
}

#[test]
fn test_parse_params_missing_files() {
    let result = parse_params(&args(&["diff3", "file1"]));
    assert!(result.is_err());
}

#[test]
fn test_parse_params_stdin() {
    let params = parse_params(&args(&["diff3", "-", "file2", "file3"])).expect("Failed to parse params");
    assert_eq!(params.mine, b"-");
    assert_eq!(params.older, b"file2");
    assert_eq!(params.yours, b"file3");
}

#[test]
fn test_parse_params_with_show_all_flag() {
    let params = parse_params(&args(&["diff3", "-A", "file1", "file2", "file3"])).expect("Failed to parse params");
    assert_eq!(params.output_mode, Diff3OutputMode::All);
}

#[test]
fn test_parse_params_with_easy_only_flag() {
    let params = parse_params(&args(&["diff3", "-3", "file1", "file2", "file3"])).expect("Failed to parse params");
    assert_eq!(params.output_mode, Diff3OutputMode::EasyOnly);
}

#[test]
fn test_parse_params_with_compat_i_flag() {
    let params = parse_params(&args(&["diff3", "-i", "file1", "file2", "file3"])).expect("Failed to parse params");
    assert!(params.compat_i);
    assert_eq!(params.format, Diff3Format::Normal);
}

#[test]
fn test_parse_params_ed_with_compat_i() {
    let params =
        parse_params(&args(&["diff3", "-e", "-i", "file1", "file2", "file3"])).expect("Failed to parse params");
    assert!(params.compat_i);
    assert_eq!(params.format, Diff3Format::Ed);
    assert_eq!(params.output_mode, Diff3OutputMode::EdScript);
}

#[test]
fn diff3_argument_errors() {
    assert_eq!(parse_params(&args(&[])).unwrap_err(), "Usage: <exe> mine older yours");
    assert_eq!(parse_params(&args(&["diff3"])).unwrap_err(), "Missing file: mine");
    assert_eq!(parse_params(&args(&["diff3", "a", "b"])).unwrap_err(), "Missing file: yours");
    assert_eq!(parse_params(&args(&["diff3", "a", "b", "c", "d"])).unwrap_err(), "Usage: diff3 mine older yours");
    assert_eq!(parse_params(&args(&["diff3", "-q", "a", "b", "c"])).unwrap_err(), "Unknown option: \"-q\"");
    assert_eq!(parse_params(&args(&["diff3", "--label"])).unwrap_err(), "--label requires an argument");
    assert_eq!(
        parse_params(&args(&["diff3", "--label=1", "--label=2", "--label=3", "--label=4"])).unwrap_err(),
        "Too many labels"
    );
    let bad = vec![b"diff3".to_vec(), b"--label".to_vec(), vec![0xff], b"a".to_vec()];
    assert_eq!(parse_params(&bad).unwrap_err(), "Label must be valid UTF-8");
}

#[test]
fn diff3_modes_and_double_dash() {
    let p = parse_params(&args(&["diff3", "-e", "-m", "a", "b", "c"])).unwrap();
    assert_eq!((p.format, p.output_mode), (Diff3Format::Merged, Diff3OutputMode::All));
    let p = parse_params(&args(&["diff3", "-E", "-x", "a", "b", "c"])).unwrap();
    assert_eq!((p.format, p.output_mode), (Diff3Format::ShowOverlap, Diff3OutputMode::OverlapOnly));
    let p = parse_params(&args(&["diff3", "-X", "a", "b", "c"])).unwrap();
    assert_eq!((p.format, p.output_mode), (Diff3Format::Ed, Diff3OutputMode::OverlapOnlyMarked));
    let p = parse_params(&args(&["diff3", "--label", "L", "-T", "--strip-trailing-cr", "--", "-a", "-", "c"])).unwrap();
    assert_eq!(p.labels[0], Some("L".to_string()));
    assert!(p.initial_tab && p.strip_trailing_cr && !p.text);
    assert_eq!((p.mine.as_slice(), p.older.as_slice(), p.yours.as_slice()), (&b"-a"[..], &b"-"[..], &b"c"[..]));
}

#[test]
fn diff3_help_and_version() {
    assert!(matches!(read_args(&args(&["diff3", "a", "--help", "b"])), Diff3Args::Help(e) if e == b"diff3"));
    assert!(matches!(read_args(&args(&["diff3", "-v"])), Diff3Args::Version));
    let h = help_text(b"diff3");
    assert!(h.starts_with("Usage: diff3 [OPTION]... mine older yours\n\nCompare three files"));
    assert!(h.ends_with("  -v, --version              Display version information\n"));
}
