use diffutils::normal_diff::diff;
use diffutils::params::Params;

#[test]
fn normal_diff_test_basic() {
    let a = b"a\n".to_vec();
    let b = b"b\n".to_vec();
    let diff = diff(&a, &b, &Params::default());
    let expected = b"1c1\n< a\n---\n> b\n".to_vec();
    assert_eq!(diff, expected);
}

#[test]
fn normal_diff_test_stop_early() {
    let from = ["a", "b", "c"].join("\n");
    let to = ["a", "d", "c"].join("\n");

    let diff_full = diff(from.as_bytes(), to.as_bytes(), &Params::default());
    let expected_full = ["2c2", "< b", "---", "> d", ""].join("\n");
    assert_eq!(diff_full, expected_full.as_bytes());

    let diff_brief = diff(
        from.as_bytes(),
        to.as_bytes(),
        &Params {
            brief: true,
            ..Default::default()
        },
    );
    let expected_brief = "\0".as_bytes();
    assert_eq!(diff_brief, expected_brief);

    let nodiff_full = diff(from.as_bytes(), from.as_bytes(), &Params::default());
    assert!(nodiff_full.is_empty());

    let nodiff_brief = diff(
        from.as_bytes(),
        from.as_bytes(),
        &Params {
            brief: true,
            ..Default::default()
        },
    );
    assert!(nodiff_brief.is_empty());
}

#[test]
fn normal_missing_newline_and_additions() {
    let diff_out = diff(b"a\nb", b"a\nb\nc\n", &Params::default());
    assert_eq!(
        String::from_utf8(diff_out).unwrap(),
        "2c2,3\n< b\n\\ No newline at end of file\n---\n> b\n> c\n"
    );
    let added = diff(b"a\n", b"a\nb\nc\n", &Params::default());
    assert_eq!(String::from_utf8(added).unwrap(), "1a2,3\n> b\n> c\n");
    let deleted = diff(b"a\nb\nc\n", b"c\n", &Params::default());
    assert_eq!(String::from_utf8(deleted).unwrap(), "1,2d0\n< a\n< b\n");
}

#[test]
fn normal_expand_tabs() {
    let p = Params {
        expand_tabs: true,
        ..Default::default()
    };
    let d = diff(b"a\tb\n", b"c\n", &p);
    assert_eq!(String::from_utf8(d).unwrap(), "1c1\n< a       b\n---\n> c\n");
}
