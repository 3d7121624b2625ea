use diffutils::arg_parser::{Executable, ParseError};
use diffutils::params_sdiff::{ParamsSDiff, SDiffParseOk};

fn os(s: &str) -> Vec<u8> {
    s.as_bytes().to_vec()
}

/// Splits a command line at spaces; the first word names the utility.
fn parse(args: &str) -> Result<SDiffParseOk, ParseError> {
    let all: Vec<Vec<u8>> = args.split(' ').map(os).collect();
    let executable = Executable::from_name(&all[0]);
    let rest: Vec<Vec<u8>> = all[1..].to_vec();
    ParamsSDiff::parse_params(&executable, &rest)
}

fn res_ok(params: ParamsSDiff) -> Result<SDiffParseOk, ParseError> {
    Ok(SDiffParseOk::Params(params))
}

fn with(from: &str, to: &str) -> ParamsSDiff {
    let mut p = ParamsSDiff::default();
    p.from = os(from);
    p.to = os(to);
    p
}

#[test]
fn params_sdiff_positional() {
    assert_eq!(parse("sdiff foo bar"), res_ok(with("foo", "bar")));
    assert_eq!(parse("sdiff foo"), res_ok(with("foo", "-")));
    assert_eq!(parse("sdiff foo -- --help"), res_ok(with("foo", "--help")));

    let msg = "missing operand after 'sdiff'";
    match parse("sdiff") {
        Ok(_) => panic!("Should not be ok!"),
        Err(e) => assert!(e.to_text().contains(msg), "error must contain: \"{msg}\"\nactual error: \"{}\"", e.to_text()),
    }

    let msg = "extra operand 'should-not-be-here'";
    match parse("sdiff foo bar should-not-be-here") {
        Ok(_) => panic!("Should not be ok!"),
        Err(e) => assert!(e.to_text().contains(msg), "error must contain: \"{msg}\"\nactual error: \"{}\"", e.to_text()),
    }
}

#[test]
fn params_sdiff_execution_modes() {
    let params = ParamsSDiff {
        executable: Executable::SDiff,
        from: os("foo"),
        to: os("bar"),
        diff_program: Some("prg".to_string()),
        expand_tabs: true,
        help: false,
        ignore_all_space: true,
        ignore_blank_lines: true,
        ignore_case: true,
        ignore_matching_lines: Some("^A".to_string()),
        ignore_space_change: true,
        ignore_tab_expansion: true,
        ignore_trailing_space: true,
        left_column: true,
        minimal: true,
        output: Some("out".to_string()),
        speed_large_files: true,
        strip_trailing_cr: true,
        suppress_common_lines: true,
        tabsize: 2,
        text: true,
        version: false,
        width: 150,
    };
    let r = parse("sdiff foo bar -iEZbWBalstdHI^A --wi=150 --diff-program prg -o out --strip --tab=2");
    match &r {
        Ok(_) => assert_eq!(r, res_ok(params)),
        Err(e) => match e {
            ParseError::NotYetImplemented(_) => {}
            _ => assert_eq!(r, res_ok(params)),
        },
    }

    let msg = "invalid --tabsize value '-2'";
    match parse("sdiff foo bar --tab=-2") {
        Ok(_) => panic!("Should not be Ok."),
        Err(e) => assert!(e.to_text().contains(msg), "Must contain: {msg}\nactual: {}", e.to_text()),
    }
}

#[test]
fn help_and_version_end_the_reading() {
    assert_eq!(parse("sdiff --help"), Ok(SDiffParseOk::Help));
    assert_eq!(parse("sdiff -h foo bar"), Ok(SDiffParseOk::Help));
    assert_eq!(parse("sdiff --vers"), Ok(SDiffParseOk::Version));
    assert_eq!(parse("sdiff foo bar -v --help"), Ok(SDiffParseOk::Help));
}

#[test]
fn width_and_tabsize_need_numbers() {
    let mut p = with("a", "b");
    p.width = 40;
    assert_eq!(parse("sdiff a b -w40"), res_ok(p));
    let mut p = with("a", "b");
    p.width = 40;
    assert_eq!(parse("sdiff a b -w 40"), res_ok(p));
    match parse("sdiff a b --width=x") {
        Err(ParseError::InvalidValueNumber(o)) => assert_eq!(o.app_option.long_name, "width"),
        other => panic!("unexpected {other:?}"),
    }
}

#[test]
fn spellings_of_the_same_options() {
    let mut p = with("file_a", "file_b");
    p.ignore_case = true;
    p.minimal = true;
    p.width = 50;
    let expected = res_ok(p);
    for line in [
        "sdiff --ignore-case --minimal --width=50 file_a file_b",
        "sdiff --ignore-case --minimal --width 50 file_a file_b",
        "sdiff -i -d -w 50 file_a file_b",
        "sdiff -id -w50 file_a file_b",
        "sdiff -idw50 file_a file_b",
        "sdiff --ignore-c --mi --wi=50 file_a file_b",
    ] {
        assert_eq!(parse(line), expected, "{line}");
    }
}

#[test]
fn reading_that_panics_is_reported() {
    let exe = Executable::SDiff;
    assert!(ParamsSDiff::parse_params_checked(&exe, &vec![b"a".to_vec(), Vec::new()]).is_none());
    assert!(ParamsSDiff::parse_params_checked(&exe, &vec![b"a".to_vec()]).is_some());
}
