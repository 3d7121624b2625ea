use diffutils::params::{parse_params, parse_params_checked, Format, Params};

fn os(s: &str) -> Vec<u8> {
    s.as_bytes().to_vec()
}

fn parse(a: &[&str]) -> Result<Params, String> {
    parse_params(&a.iter().map(|s| os(s)).collect())
}

fn expected(format: Format, context_count: usize) -> Params {
    Params { executable: os("diff"), from: os("foo"), to: os("bar"), format, context_count, ..Default::default() }
}

#[test]
fn params_basics() {
    assert_eq!(Ok(expected(Format::Normal, 3)), parse(&["diff", "foo", "bar"]));
    assert_eq!(Ok(expected(Format::Normal, 3)), parse(&["diff", "--normal", "foo", "bar"]));
}

#[test]
fn params_basics_ed() {
    for arg in ["-e", "--ed"] {
        assert_eq!(Ok(expected(Format::Ed, 3)), parse(&["diff", arg, "foo", "bar"]));
    }
}

#[test]
fn context_valid() {
    for args in [vec!["-c"], vec!["--context"], vec!["--context="]] {
        let mut params = vec!["diff"];
        params.extend(args);
        params.extend(["foo", "bar"]);
        assert_eq!(Ok(expected(Format::Context, 3)), parse(&params));
    }
    for args in [vec!["-c42"], vec!["-C42"], vec!["-C", "42"], vec!["--context=42"], vec!["-42c"]] {
        let mut params = vec!["diff"];
        params.extend(args);
        params.extend(["foo", "bar"]);
        assert_eq!(Ok(expected(Format::Context, 42)), parse(&params));
    }
}

#[test]
fn context_invalid() {
    for args in [
        vec!["-c", "42"],
        vec!["-c=42"],
        vec!["-c="],
        vec!["-C"],
        vec!["-C=42"],
        vec!["-C="],
        vec!["--context42"],
        vec!["--context", "42"],
        vec!["-42C"],
    ] {
        let mut params = vec!["diff"];
        params.extend(args);
        params.extend(["foo", "bar"]);
        assert!(parse(&params).is_err());
    }
}

#[test]
fn unified_valid() {
    for args in [vec!["-u"], vec!["--unified"], vec!["--unified="]] {
        let mut params = vec!["diff"];
        params.extend(args);
        params.extend(["foo", "bar"]);
        assert_eq!(Ok(expected(Format::Unified, 3)), parse(&params));
    }
    for args in [vec!["-u42"], vec!["-U42"], vec!["-U", "42"], vec!["--unified=42"], vec!["-42u"]] {
        let mut params = vec!["diff"];
        params.extend(args);
        params.extend(["foo", "bar"]);
        assert_eq!(Ok(expected(Format::Unified, 42)), parse(&params));
    }
}

#[test]
fn unified_invalid() {
    for args in [
        vec!["-u", "42"],
        vec!["-u=42"],
        vec!["-u="],
        vec!["-U"],
        vec!["-U=42"],
        vec!["-U="],
        vec!["--unified42"],
        vec!["--unified", "42"],
        vec!["-42U"],
    ] {
        let mut params = vec!["diff"];
        params.extend(args);
        params.extend(["foo", "bar"]);
        assert!(parse(&params).is_err());
    }
}

#[test]
fn params_context_count() {
    assert_eq!(Ok(expected(Format::Unified, 54)), parse(&["diff", "-u54", "foo", "bar"]));
    assert_eq!(Ok(expected(Format::Unified, 54)), parse(&["diff", "-U54", "foo", "bar"]));
    assert_eq!(Ok(expected(Format::Unified, 54)), parse(&["diff", "-U", "54", "foo", "bar"]));
    assert_eq!(Ok(expected(Format::Context, 54)), parse(&["diff", "-c54", "foo", "bar"]));
}

#[test]
fn report_identical_files() {
    assert_eq!(Ok(expected(Format::Normal, 3)), parse(&["diff", "foo", "bar"]));
    let p = Params { report_identical_files: true, ..expected(Format::Normal, 3) };
    assert_eq!(Ok(p.clone()), parse(&["diff", "-s", "foo", "bar"]));
    assert_eq!(Ok(p), parse(&["diff", "--report-identical-files", "foo", "bar"]));
}

#[test]
fn brief() {
    assert_eq!(Ok(expected(Format::Normal, 3)), parse(&["diff", "foo", "bar"]));
    let p = Params { brief: true, ..expected(Format::Normal, 3) };
    assert_eq!(Ok(p.clone()), parse(&["diff", "-q", "foo", "bar"]));
    assert_eq!(Ok(p), parse(&["diff", "--brief", "foo", "bar"]));
}

#[test]
fn expand_tabs() {
    assert_eq!(Ok(expected(Format::Normal, 3)), parse(&["diff", "foo", "bar"]));
    for option in ["-t", "--expand-tabs"] {
        let p = Params { expand_tabs: true, ..expected(Format::Normal, 3) };
        assert_eq!(Ok(p), parse(&["diff", option, "foo", "bar"]));
    }
}

#[test]
fn tabsize() {
    assert_eq!(Ok(expected(Format::Normal, 3)), parse(&["diff", "foo", "bar"]));
    assert_eq!(Ok(Params { tabsize: 1, ..expected(Format::Normal, 3) }), parse(&["diff", "--tabsize=1", "foo", "bar"]));
    assert_eq!(Ok(Params { tabsize: 42, ..expected(Format::Normal, 3) }), parse(&["diff", "--tabsize=42", "foo", "bar"]));
    assert!(parse(&["diff", "--tabsize", "foo", "bar"]).is_err());
    assert!(parse(&["diff", "--tabsize=", "foo", "bar"]).is_err());
    assert!(parse(&["diff", "--tabsize=r2", "foo", "bar"]).is_err());
    assert!(parse(&["diff", "--tabsize=-1", "foo", "bar"]).is_err());
    assert!(parse(&["diff", "--tabsize=r2", "foo", "bar"]).is_err());
    assert!(parse(&["diff", "--tabsize=92233720368547758088", "foo", "bar"]).is_err());
}

#[test]
fn params_double_dash() {
    assert_eq!(
        Ok(Params { executable: os("diff"), from: os("-g"), to: os("-h"), ..Default::default() }),
        parse(&["diff", "--", "-g", "-h"])
    );
}

#[test]
fn default_to_stdin() {
    assert_eq!(Ok(Params { executable: os("diff"), from: os("foo"), to: os("-"), ..Default::default() }), parse(&["diff", "foo", "-"]));
    assert_eq!(Ok(Params { executable: os("diff"), from: os("-"), to: os("bar"), ..Default::default() }), parse(&["diff", "-", "bar"]));
    assert_eq!(Ok(Params { executable: os("diff"), from: os("-"), to: os("-"), ..Default::default() }), parse(&["diff", "-", "-"]));
    assert!(parse(&["diff", "foo", "bar", "-"]).is_err());
    assert!(parse(&["diff", "-", "-", "-"]).is_err());
}

#[test]
fn missing_arguments() {
    assert!(parse(&["diff"]).is_err());
    assert!(parse(&["diff", "foo"]).is_err());
}

#[test]
fn params_unknown_argument() {
    assert!(parse(&["diff", "-g", "foo", "bar"]).is_err());
    assert!(parse(&["diff", "-g", "bar"]).is_err());
    assert!(parse(&["diff", "-g"]).is_err());
}

#[test]
fn params_empty() {
    assert!(parse(&[]).is_err());
}

#[test]
fn conflicting_output_styles() {
    for (arg1, arg2) in [
        ("-u", "-c"),
        ("-u", "-e"),
        ("-c", "-u"),
        ("-c", "-U42"),
        ("-u", "--normal"),
        ("--normal", "-e"),
        ("--context", "--normal"),
    ] {
        assert!(parse(&["diff", arg1, arg2, "foo", "bar"]).is_err());
    }
}

#[test]
fn params_messages_and_widths() {
    assert_eq!(Err("unrecognized option '-g'".to_string()), parse(&["diff", "-g", "foo", "bar"]));
    assert_eq!(Err("Conflicting output style options".to_string()), parse(&["diff", "-u", "-c", "foo", "bar"]));
    assert_eq!(Err("Conflicting output style option".to_string()), parse(&["diff", "-u", "-y", "foo", "bar"]));
    assert_eq!(Err("invalid width «0»".to_string()), parse(&["diff", "--width=0", "foo", "bar"]));
    assert_eq!(Err("invalid tabsize «0»".to_string()), parse(&["diff", "--tabsize=0", "foo", "bar"]));
    assert_eq!(Err("invalid context length 'x'".to_string()), parse(&["diff", "-C", "x", "foo", "bar"]));
    assert_eq!(Err("Usage: diff <from> <to>".to_string()), parse(&["diff", "a", "b", "c"]));
    assert_eq!(Ok(Params { width: 60, ..expected(Format::SideBySide, 3) }), parse(&["diff", "-y", "--width=60", "foo", "bar"]));
    // The width pattern is not tied to the start of the argument.
    assert_eq!(Ok(Params { width: 7, ..expected(Format::Normal, 3) }), parse(&["diff", "x--width=7", "foo", "bar"]));
}

#[test]
fn params_reading_that_panics() {
    let args = vec![os("diff"), os("-C99999999999999999999999"), os("foo"), os("bar")];
    assert!(parse_params_checked(&args).is_none());
    let ok = vec![os("diff"), os("-C9"), os("foo"), os("bar")];
    assert_eq!(parse_params_checked(&ok), Some(Ok(expected(Format::Context, 9))));
}
