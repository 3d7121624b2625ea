use diffutils::arg_parser::{add_copyright, AppOption, NumberParser, OptionNameTypeUsed, TEXT_COPYRIGHT};

#[test]
fn copyright_follows_the_text() {
    let s = add_copyright("diff 1.0");
    assert_eq!(s, format!("diff 1.0\n{}", TEXT_COPYRIGHT));
    assert!(s.starts_with("diff 1.0\nCopyright (c) uutils developers\n"));
}

#[test]
fn option_texts() {
    let o = AppOption { long_name: "bytes", short: Some('n'), has_arg: true };
    assert_eq!(o.format_long(), "--bytes");
    assert_eq!(o.format_for_error_msg(), "'--bytes' (-n)");
    assert_eq!(o.short_or_empty(), "-n");
    let o = AppOption { long_name: "help", short: None, has_arg: false };
    assert_eq!(o.short_or_empty(), "");
    assert_eq!(o.format_for_error_msg(), "--help");
}

#[test]
fn option_name_type_defaults_to_not_set() {
    assert_eq!(OptionNameTypeUsed::default(), OptionNameTypeUsed::NotSet);
}

#[test]
fn number_units() {
    assert_eq!(NumberParser::parse_number_unit("kB"), Some(1000));
    assert_eq!(NumberParser::parse_number_unit("K"), Some(1024));
    assert_eq!(NumberParser::parse_number_unit("kiB"), Some(1024));
    assert_eq!(NumberParser::parse_number_unit("MiB"), Some(1_048_576));
    assert_eq!(NumberParser::parse_number_unit("GB"), Some(1_000_000_000));
    assert_eq!(NumberParser::parse_number_unit("T"), Some(1_099_511_627_776));
    assert_eq!(NumberParser::parse_number_unit("PB"), Some(1_000_000_000_000_000));
    assert_eq!(NumberParser::parse_number_unit("EiB"), Some(1_152_921_504_606_846_976));
    assert_eq!(NumberParser::parse_number_unit("kb"), None);
    assert_eq!(NumberParser::parse_number_unit(""), None);
}
