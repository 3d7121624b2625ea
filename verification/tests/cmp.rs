use diffutils::cmp::{parse_args, parse_params, CmpArgs, Params};

fn os(s: &str) -> Vec<u8> {
    s.as_bytes().to_vec()
}

fn args(a: &[&str]) -> Vec<Vec<u8>> {
    a.iter().map(|s| os(s)).collect()
}

fn parse(a: &[&str]) -> Result<Params, String> {
    parse_params(&args(a), false)
}

#[test]
fn cmp_positional() {
    assert_eq!(
        Ok(Params { executable: os("cmp"), from: os("foo"), to: os("bar"), ..Default::default() }),
        parse(&["cmp", "foo", "bar"])
    );
    assert_eq!(
        Ok(Params { executable: os("cmp"), from: os("foo"), to: os("-"), ..Default::default() }),
        parse(&["cmp", "foo"])
    );
    assert_eq!(
        Ok(Params { executable: os("cmp"), from: os("foo"), to: os("--help"), ..Default::default() }),
        parse(&["cmp", "foo", "--", "--help"])
    );
    assert_eq!(
        Ok(Params {
            executable: os("cmp"),
            from: os("foo"),
            to: os("bar"),
            skip_a: Some(1),
            skip_b: None,
            ..Default::default()
        }),
        parse(&["cmp", "foo", "bar", "1"])
    );
    assert_eq!(
        Ok(Params {
            executable: os("cmp"),
            from: os("foo"),
            to: os("bar"),
            skip_a: Some(1),
            skip_b: Some(usize::MAX),
            ..Default::default()
        }),
        parse(&["cmp", "foo", "bar", "1", "2Y"])
    );
    // Bad positional arguments.
    assert_eq!(Err("Usage: cmp <from> <to>".to_string()), parse(&["cmp", "foo", "bar", "1", "2", "3"]));
    assert_eq!(Err("Usage: cmp <from> <to>".to_string()), parse(&["cmp"]));
}

#[test]
fn cmp_execution_modes() {
    let print_bytes = Params { executable: os("cmp"), from: os("foo"), to: os("bar"), print_bytes: true, ..Default::default() };
    assert_eq!(Ok(print_bytes.clone()), parse(&["cmp", "-b", "foo", "bar"]));
    assert_eq!(Ok(print_bytes), parse(&["cmp", "--print-bytes", "foo", "bar"]));

    let verbose = Params { executable: os("cmp"), from: os("foo"), to: os("bar"), verbose: true, ..Default::default() };
    assert_eq!(Ok(verbose.clone()), parse(&["cmp", "-l", "foo", "bar"]));
    assert_eq!(Ok(verbose), parse(&["cmp", "--verbose", "foo", "bar"]));

    let verbose_and_print_bytes = Params {
        executable: os("cmp"),
        from: os("foo"),
        to: os("bar"),
        print_bytes: true,
        verbose: true,
        ..Default::default()
    };
    assert_eq!(Ok(verbose_and_print_bytes.clone()), parse(&["cmp", "-l", "-b", "foo", "bar"]));
    assert_eq!(Ok(verbose_and_print_bytes.clone()), parse(&["cmp", "-lb", "foo", "bar"]));
    assert_eq!(Ok(verbose_and_print_bytes), parse(&["cmp", "-bl", "foo", "bar"]));

    assert_eq!(
        Ok(Params { executable: os("cmp"), from: os("foo"), to: os("bar"), quiet: true, ..Default::default() }),
        parse(&["cmp", "-s", "foo", "bar"])
    );

    // Some options do not mix.
    assert_eq!(Err("cmp: options -l and -s are incompatible".to_string()), parse(&["cmp", "-l", "-s", "foo", "bar"]));
}

#[test]
fn max_bytes() {
    let max_bytes = Params { executable: os("cmp"), from: os("foo"), to: os("bar"), max_bytes: Some(1), ..Default::default() };
    assert_eq!(Ok(max_bytes.clone()), parse(&["cmp", "-n", "1", "foo", "bar"]));
    assert_eq!(Ok(max_bytes), parse(&["cmp", "--bytes=1", "foo", "bar"]));

    assert_eq!(
        Ok(Params { executable: os("cmp"), from: os("foo"), to: os("bar"), max_bytes: Some(usize::MAX), ..Default::default() }),
        parse(&["cmp", "--bytes=99999999999999999999999999999999999999999999999999999999999", "foo", "bar"])
    );

    // Failure case
    assert_eq!(Err("cmp: invalid --bytes value '1K'".to_string()), parse(&["cmp", "--bytes=1K", "foo", "bar"]));
}

#[test]
fn skips() {
    let skips = Params { executable: os("cmp"), from: os("foo"), to: os("bar"), skip_a: Some(1), skip_b: Some(1), ..Default::default() };
    assert_eq!(Ok(skips.clone()), parse(&["cmp", "-i", "1", "foo", "bar"]));
    assert_eq!(Ok(skips), parse(&["cmp", "--ignore-initial=1", "foo", "bar"]));

    assert_eq!(
        Ok(Params {
            executable: os("cmp"),
            from: os("foo"),
            to: os("bar"),
            skip_a: Some(usize::MAX),
            skip_b: Some(usize::MAX),
            ..Default::default()
        }),
        parse(&["cmp", "-i", "99999999999999999999999999999999999999999999999999999999999", "foo", "bar"])
    );

    assert_eq!(
        Ok(Params { executable: os("cmp"), from: os("foo"), to: os("bar"), skip_a: Some(1), skip_b: Some(2), ..Default::default() }),
        parse(&["cmp", "--ignore-initial=1:2", "foo", "bar"])
    );

    let two_e: usize = if usize::BITS == 64 { (1_152_921_504_606_846_976u64 * 2) as usize } else { usize::MAX };
    assert_eq!(
        Ok(Params {
            executable: os("cmp"),
            from: os("foo"),
            to: os("bar"),
            skip_a: Some(1_000_000_000),
            skip_b: Some(two_e),
            ..Default::default()
        }),
        parse(&["cmp", "--ignore-initial=1GB:2E", "foo", "bar"])
    );

    // All special suffixes.
    for (i, suffixes) in [["kB", "K"], ["MB", "M"], ["GB", "G"], ["TB", "T"], ["PB", "P"], ["EB", "E"], ["ZB", "Z"], ["YB", "Y"]]
        .iter()
        .enumerate()
    {
        let values = [
            1_000usize.checked_pow((i + 1) as u32).unwrap_or(usize::MAX),
            1024usize.checked_pow((i + 1) as u32).unwrap_or(usize::MAX),
        ];
        for (j, v) in values.iter().enumerate() {
            assert_eq!(
                Ok(Params {
                    executable: os("cmp"),
                    from: os("foo"),
                    to: os("bar"),
                    skip_a: Some(*v),
                    skip_b: Some(2),
                    ..Default::default()
                }),
                parse(&["cmp", "-i", &format!("1{}:2", suffixes[j]), "foo", "bar"])
            );
        }
    }

    // Ignores positional arguments when -i is provided.
    assert_eq!(
        Ok(Params { executable: os("cmp"), from: os("foo"), to: os("bar"), skip_a: Some(1), skip_b: Some(2), ..Default::default() }),
        parse(&["cmp", "-i", "1:2", "foo", "bar", "3", "4"])
    );

    // Failure cases
    assert_eq!(Err("cmp: invalid --ignore-initial value '1mb'".to_string()), parse(&["cmp", "--ignore-initial=1mb", "foo", "bar"]));
    assert_eq!(Err("cmp: invalid --ignore-initial value '1:2:3'".to_string()), parse(&["cmp", "--ignore-initial=1:2:3", "foo", "bar"]));
    assert_eq!(Err("cmp: invalid --ignore-initial value '-1'".to_string()), parse(&["cmp", "--ignore-initial=-1", "foo", "bar"]));
}

#[test]
fn cmp_help_and_unknown_options() {
    match parse_args(&args(&["cmp", "--help"]), false) {
        CmpArgs::Help(t) => assert_eq!(t, "Usage: cmp <from> <to>"),
        _ => panic!("expected the help text"),
    }
    assert_eq!(Err("unrecognized option: \"-x\"".to_string()), parse(&["cmp", "-x", "a", "b"]));
    assert_eq!(Err("Usage: cmp <from> <to>".to_string()), parse(&["cmp", "-n"]));
    assert_eq!(Err("Usage: <exe> <from> <to>".to_string()), parse_params(&Vec::new(), false));
}

#[test]
fn cmp_output_to_dev_null_is_quiet() {
    assert_eq!(
        Ok(Params { executable: os("cmp"), from: os("a"), to: os("b"), quiet: true, ..Default::default() }),
        parse_params(&args(&["cmp", "-l", "-b", "a", "b"]), true)
    );
}
