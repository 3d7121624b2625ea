use diffutils::arg_parser::{
    format_error_text, is_implemented, AppOption, Executable, NumberParser, OptionNameTypeUsed, ParseError,
    ParseOutcome, ParsedOption, Parser,
};

const OPTS: [AppOption; 5] = [
    AppOption { long_name: "bytes", short: Some('n'), has_arg: true },
    AppOption { long_name: "verbose", short: Some('l'), has_arg: false },
    AppOption { long_name: "version", short: Some('v'), has_arg: false },
    AppOption { long_name: "help", short: Some('h'), has_arg: false },
    AppOption { long_name: "silent", short: Some('s'), has_arg: false },
];

fn args(s: &str) -> Vec<Vec<u8>> {
    s.split(' ').map(|a| a.as_bytes().to_vec()).collect()
}

fn parse(s: &str) -> Result<Parser, ParseError> {
    Parser::parse_params(&OPTS, &args(s))
}

fn names(p: &Parser) -> Vec<&str> {
    p.options_parsed.iter().map(|o| o.app_option.long_name).collect()
}

#[test]
fn operands_and_options() {
    let p = parse("a -l b --silent").unwrap();
    assert_eq!(p.operands, vec![b"a".to_vec(), b"b".to_vec()]);
    assert_eq!(names(&p), vec!["verbose", "silent"]);
    assert_eq!(p.options_parsed[0].name_type_used, OptionNameTypeUsed::ShortName);
    assert_eq!(p.options_parsed[1].name_type_used, OptionNameTypeUsed::LongName);
    assert_eq!(p.name_type_used, OptionNameTypeUsed::LongName);
    // a lone dash is an operand; after `--` everything is
    let p = parse("- -- -l --x").unwrap();
    assert_eq!(p.operands, vec![b"-".to_vec(), b"-l".to_vec(), b"--x".to_vec()]);
    assert!(p.options_parsed.is_empty());
}

#[test]
fn option_arguments() {
    for line in ["--bytes=10", "--bytes 10", "-n10", "-n 10", "-ln10", "--by=10"] {
        let p = parse(line).unwrap();
        let last = p.options_parsed.last().unwrap();
        assert_eq!(last.app_option.long_name, "bytes", "{line}");
        assert_eq!(last.arg_for_option.as_deref(), Some("10"), "{line}");
    }
    // an argument from the next word is kept as text only
    let p = parse("--bytes 10").unwrap();
    assert_eq!(p.options_parsed[0].arg_for_option_os, None);
    let p = parse("--bytes=10").unwrap();
    assert_eq!(p.options_parsed[0].arg_for_option_os, Some(b"10".to_vec()));
    // after other letters, a letter takes the next word even when it begins
    // with a dash; alone, it does not
    let p = parse("-ln -5").unwrap();
    assert_eq!(p.options_parsed[1].arg_for_option.as_deref(), Some("-5"));
    assert!(matches!(parse("-n -5"), Err(ParseError::ArgForOptionMissing(_))));
}

#[test]
fn errors_of_the_parser() {
    match parse("--bytes") {
        Err(ParseError::ArgForOptionMissing(o)) => assert_eq!(o.app_option.long_name, "bytes"),
        other => panic!("{other:?}"),
    }
    match parse("--bytes -l") {
        Err(e) => assert_eq!(e.to_text(), "option '--bytes' (-n) requires an argument"),
        other => panic!("{other:?}"),
    }
    match parse("--silent=1") {
        Err(e) => assert_eq!(e.to_text(), "option --silent doesn't allow an argument"),
        other => panic!("{other:?}"),
    }
    match parse("--ver") {
        Err(e) => assert_eq!(e.to_text(), "option '--ver' is ambiguous; possibilities: --verbose --version"),
        other => panic!("{other:?}"),
    }
    match parse("--nothing") {
        Err(e) => assert_eq!(e.to_text(), "unrecognized option '--nothing'"),
        other => panic!("{other:?}"),
    }
    match parse("-x") {
        Err(e) => assert_eq!(e.to_text(), "invalid option '-x'"),
        other => panic!("{other:?}"),
    }
    match parse("-lx") {
        Err(e) => assert_eq!(e.to_text(), "invalid option '-lx'"),
        other => panic!("{other:?}"),
    }
    match parse("-é") {
        Err(ParseError::InvalidOption(a)) => assert_eq!(a, "-é".as_bytes()),
        other => panic!("{other:?}"),
    }
}

#[test]
fn help_wins() {
    let p = parse("a --verbose --help b -v").unwrap();
    assert_eq!(names(&p), vec!["help"]);
    assert!(p.operands.is_empty());
    assert!(p.is_help());
    let p = parse("a -v").unwrap();
    assert_eq!(names(&p), vec!["version"]);
    assert_eq!(p.options_parsed[0].name_type_used, OptionNameTypeUsed::ShortName);
}

#[test]
fn empty_argument_panics() {
    assert!(matches!(Parser::parse_outcome(&OPTS, &vec![b"a".to_vec(), Vec::new()]), ParseOutcome::Panic));
    // an empty argument taken as an option's argument is fine
    assert!(matches!(Parser::parse_outcome(&OPTS, &vec![b"-n".to_vec(), Vec::new()]), ParseOutcome::Parsed(_)));
}

#[test]
fn split_and_identify() {
    assert_eq!(Parser::split_os_prefix(b"--x=1", 4), Ok(b"1".to_vec()));
    assert!(matches!(Parser::split_os_prefix(b"ab", 3), Err(ParseError::NoUnicode(_))));
    assert_eq!(Parser::identify_option_from_partial_text(b"--sil", &OPTS).unwrap().long_name, "silent");
}

#[test]
fn numbers_with_units() {
    let opt = |a: &str| ParsedOption::new(OPTS[0], a.as_bytes().to_vec(), OptionNameTypeUsed::LongName);
    assert_eq!(NumberParser::parse_number(&opt("1000")), Ok(1000));
    assert_eq!(NumberParser::parse_number(&opt("2KiB")), Ok(2048));
    assert_eq!(NumberParser::parse_number(&opt("3kB")), Ok(3000));
    assert_eq!(NumberParser::parse_number(&opt("18446744073709551615")), Ok(u64::MAX));
    assert!(matches!(NumberParser::parse_number(&opt("18446744073709551616")), Err(ParseError::InvalidValueNumberOverflow(_))));
    assert!(matches!(NumberParser::parse_number(&opt("20EiB")), Err(ParseError::InvalidValueNumberOverflow(_))));
    assert!(matches!(NumberParser::parse_number(&opt("5x")), Err(ParseError::InvalidValueNumberUnit(_))));
    assert!(matches!(NumberParser::parse_number(&opt("K")), Err(ParseError::InvalidValueNumber(_))));
    assert!(matches!(NumberParser::parse_number(&opt("")), Err(ParseError::InvalidValueNumber(_))));
    let none = ParsedOption::new_no_arg(OPTS[0], OptionNameTypeUsed::LongName);
    assert!(matches!(NumberParser::parse_number(&none), Err(ParseError::InvalidValueNumber(_))));
    match NumberParser::parse_number(&opt("20EiB")) {
        Err(e) => assert_eq!(e.to_text(), "invalid '--bytes' (-n) value '20EiB' (too large)"),
        Ok(_) => panic!(),
    }
}

#[test]
fn executables_and_messages() {
    assert_eq!(Executable::from_name(b"cmp"), Executable::Cmp);
    assert_eq!(Executable::from_name(b"sdiff"), Executable::SDiff);
    assert_eq!(Executable::from_name(b"my-diff"), Executable::NotRecognized(b"my-diff".to_vec()));
    assert_eq!(Executable::from_name(b"my-diff").name(), "my-diff");
    assert_eq!(Executable::Diff3.executable(), b"diff3".to_vec());
    assert_eq!(Executable::from_args(&vec![]), None);
    assert_eq!(
        format_error_text(&Executable::Cmp, "invalid option '-x'"),
        "cmp: invalid option '-x'\ncmp: Try 'cmp --help' for more information."
    );
    assert_eq!(
        format_error_text(&Executable::Cmp, "cmp: bad"),
        "cmp: bad\ncmp: Try 'cmp --help' for more information."
    );
    assert_eq!(ParseError::NoOperands(Executable::Diff).to_text(), "missing operand after 'diff'");
}

#[test]
fn not_yet_implemented_options() {
    let p = parse("-l -s").unwrap();
    assert_eq!(is_implemented(&p.options_parsed, &OPTS[2..3]), Ok(()));
    match is_implemented(&p.options_parsed, &OPTS[4..5]) {
        Err(e) => assert_eq!(e.to_text(), "not yet implemented: option '--silent' (-s)"),
        Ok(_) => panic!(),
    }
}
