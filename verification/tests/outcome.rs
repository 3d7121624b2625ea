use diffutils::outcome::{diff_operands, set_context_lines, set_unified_lines, UParseError};
use diffutils::clap_args::clap_preparation;
use diffutils::outcome::{sdiff_outcome, set_format, DiffError, FormatOutput, SDiffOk};

#[test]
fn format_names_round_trip() {
    for f in [
        FormatOutput::Normal,
        FormatOutput::Unified,
        FormatOutput::Context,
        FormatOutput::Ed,
        FormatOutput::SideBySide,
    ] {
        assert_eq!(FormatOutput::from_option(f.option_name()), f);
    }
    assert_eq!(FormatOutput::SideBySide.option_name(), "side-by-side");
    assert_eq!(FormatOutput::default(), FormatOutput::Normal);
}

#[test]
fn second_format_conflicts() {
    let mut format = None;
    assert_eq!(set_format(&mut format, "ed", false), Ok(()));
    assert_eq!(format, None);
    assert_eq!(set_format(&mut format, "ed", true), Ok(()));
    assert_eq!(format, Some(FormatOutput::Ed));
    assert_eq!(
        set_format(&mut format, "unified", true),
        Err(("ed".to_string(), "unified".to_string()))
    );
    assert_eq!(format, Some(FormatOutput::Ed));
    assert_eq!(set_format(&mut format, "context", false), Ok(()));
}

#[test]
fn sdiff_outcomes_and_codes() {
    assert_eq!(sdiff_outcome(b"", b""), SDiffOk::Equal);
    assert_eq!(sdiff_outcome(b"a\nb\n", b"a\nb\n"), SDiffOk::Equal);
    assert_eq!(sdiff_outcome(b"a\nb\n", b"a\nc\n"), SDiffOk::Different);
    assert_eq!(sdiff_outcome(b"a\n", b"a"), SDiffOk::Different);
    assert_eq!(SDiffOk::Different.exit_code(), 1);
    assert_eq!(SDiffOk::Equal.exit_code(), 0);
    assert_eq!(SDiffOk::Help.exit_code(), 0);
    assert_eq!(SDiffOk::Version.exit_code(), 0);
    assert_eq!(DiffError::MissingNL.code(), 2);
}

#[test]
fn context_and_unified_lines() {
    let mut format = None;
    let mut chosen = FormatOutput::Normal;
    let mut n = 3;
    assert_eq!(set_context_lines(&mut format, &mut chosen, &mut n, "5"), Ok(()));
    assert_eq!((format, chosen, n), (Some(FormatOutput::Context), FormatOutput::Context, 5));
    assert_eq!(
        set_unified_lines(&mut format, &mut chosen, &mut n, "2"),
        Err(UParseError::ConflictingOutputStyle("context".to_string(), "unified".to_string()))
    );
    assert_eq!(n, 5);

    let (mut format, mut chosen, mut n) = (None, FormatOutput::Normal, 3);
    assert_eq!(set_unified_lines(&mut format, &mut chosen, &mut n, ""), Ok(()));
    assert_eq!((chosen, n), (FormatOutput::Unified, 3));
    let (mut format, mut chosen, mut n) = (None, FormatOutput::Normal, 3);
    assert_eq!(
        set_unified_lines(&mut format, &mut chosen, &mut n, "x"),
        Err(UParseError::InvalidUnifiedLength("x".to_string()))
    );
    let (mut format, mut chosen, mut n) = (None, FormatOutput::Normal, 3);
    assert_eq!(
        set_context_lines(&mut format, &mut chosen, &mut n, "-1"),
        Err(UParseError::InvalidContextLength("-1".to_string()))
    );
}

#[test]
fn arguments_prepared_for_the_option_reader() {
    let a = |v: &[&str]| v.iter().map(|s| s.as_bytes().to_vec()).collect::<Vec<_>>();
    assert_eq!(
        clap_preparation(&a(&["diff", "-c42", "-42c", "-4u2", "-sc4", "-cu", "-C5", "-c", "--context=3", "file", "-abc"])),
        a(&["diff", "-c=42", "-c=42", "-u=42", "-c=4", "-cu", "-C5", "-c", "--context=3", "file", "-c="])
    );
}

#[test]
fn diff_operands_want_exactly_two_files() {
    let none: Vec<Vec<u8>> = vec![];
    assert_eq!(diff_operands(&none, "diff"), Err(UParseError::MissingOperand("diff".to_string())));
    assert_eq!(
        diff_operands(&vec![b"a.txt".to_vec()], "diff"),
        Err(UParseError::MissingOperand("a.txt".to_string()))
    );
    assert_eq!(
        diff_operands(&vec![b"a".to_vec(), b"b".to_vec()], "diff"),
        Ok((b"a".to_vec(), b"b".to_vec()))
    );
    assert_eq!(
        diff_operands(&vec![b"a".to_vec(), b"b".to_vec(), b"c".to_vec(), b"d".to_vec()], "diff"),
        Err(UParseError::ExtraOperand(b"c".to_vec()))
    );
}
