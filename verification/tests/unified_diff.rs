use diffutils::params::Params;
use diffutils::unified_diff::diff;
use diffutils::unified_diff::{make_diff, DiffLine, Mismatch};

fn named(from: &str, to: &str, brief: bool) -> Params {
    Params {
        from: from.as_bytes().to_vec(),
        to: to.as_bytes().to_vec(),
        brief,
        ..Default::default()
    }
}

#[test]
fn unified_diff_test_stop_early() {
    let from = ["a", "b", "c", ""].join("\n");
    let to = ["a", "d", "c", ""].join("\n");

    let diff_full = diff(from.as_bytes(), to.as_bytes(), &named("foo", "bar", false), b"TIMESTAMP", b"TIMESTAMP");
    let expected_full = [
        "--- foo\tTIMESTAMP",
        "+++ bar\tTIMESTAMP",
        "@@ -1,3 +1,3 @@",
        " a",
        "-b",
        "+d",
        " c",
        "",
    ]
    .join("\n");
    assert_eq!(String::from_utf8(diff_full).unwrap(), expected_full);

    let diff_brief = diff(from.as_bytes(), to.as_bytes(), &named("foo", "bar", true), b"TIMESTAMP", b"TIMESTAMP");
    let expected_brief = ["--- foo\tTIMESTAMP", "+++ bar\tTIMESTAMP", ""].join("\n");
    assert_eq!(String::from_utf8(diff_brief).unwrap(), expected_brief);

    let nodiff_full = diff(from.as_bytes(), from.as_bytes(), &named("foo", "bar", false), b"TIMESTAMP", b"TIMESTAMP");
    assert!(nodiff_full.is_empty());

    let nodiff_brief = diff(from.as_bytes(), from.as_bytes(), &named("foo", "bar", true), b"TIMESTAMP", b"TIMESTAMP");
    assert!(nodiff_brief.is_empty());
}

#[test]
fn unified_three_lines_of_context() {
    let out = diff(b"a\nb\nc\nd\ne\nf\ng\n", b"a\nb\nc\nX\ne\nf\ng\n", &named("x", "y", false), b"T1", b"T2");
    assert_eq!(
        String::from_utf8(out).unwrap(),
        "--- x\tT1\n+++ y\tT2\n@@ -1,7 +1,7 @@\n a\n b\n c\n-d\n+X\n e\n f\n g\n"
    );
}

#[test]
fn unified_missing_newlines() {
    let out = diff(b"a\nb", b"a\nc", &named("x", "y", false), b"T", b"T");
    assert_eq!(
        String::from_utf8(out).unwrap(),
        "--- x\tT\n+++ y\tT\n@@ -1,2 +1,2 @@\n a\n-b\n\\ No newline at end of file\n+c\n\\ No newline at end of file\n"
    );
}

#[test]
fn unified_from_empty_file() {
    let out = diff(b"", b"a\n", &named("x", "y", false), b"T", b"T");
    assert_eq!(String::from_utf8(out).unwrap(), "--- x\tT\n+++ y\tT\n@@ -0,0 +1 @@\n+a\n");
}

#[test]
fn unified_far_apart_changes_make_two_hunks() {
    let from = b"1\n2\n3\n4\n5\n6\n7\n8\n9\n10\n";
    let to = b"X\n2\n3\n4\n5\n6\n7\n8\n9\nY\n";
    let mut p = named("x", "y", false);
    p.context_count = 1;
    let out = diff(from, to, &p, b"T", b"T");
    assert_eq!(
        String::from_utf8(out).unwrap(),
        "--- x\tT\n+++ y\tT\n@@ -1,2 +1,2 @@\n-1\n+X\n 2\n@@ -9,2 +9,2 @@\n 9\n-10\n+Y\n"
    );
}

#[test]
fn unified_expands_tabs_when_asked() {
    let mut p = named("x", "y", false);
    p.expand_tabs = true;
    p.tabsize = 4;
    let out = diff(b"a\tb\n", b"c\n", &p, b"T", b"T");
    assert_eq!(String::from_utf8(out).unwrap(), "--- x\tT\n+++ y\tT\n@@ -1 +1 @@\n-a   b\n+c\n");
}

fn split(text: &str) -> Vec<Vec<u8>> {
    let mut v: Vec<Vec<u8>> = text.as_bytes().split(|b| *b == b'\n').map(|l| l.to_vec()).collect();
    if v.last().map(|l| l.is_empty()).unwrap_or(false) {
        v.pop();
    }
    v
}

fn apply(first: &[Vec<u8>], hunks: &[Mismatch]) -> Vec<Vec<u8>> {
    let mut out = Vec::new();
    let mut pos = 0usize;
    for h in hunks {
        let start = h.line_number_expected - 1;
        out.extend_from_slice(&first[pos..start]);
        pos = start;
        for l in &h.lines {
            match l {
                DiffLine::Context(x) => {
                    out.push(x.clone());
                    pos += 1;
                }
                DiffLine::Expected(_) => pos += 1,
                DiffLine::Actual(x) => out.push(x.clone()),
                DiffLine::MissingNL => {}
            }
        }
    }
    out.extend_from_slice(&first[pos..]);
    out
}

#[test]
fn unified_hunks_patch_first_into_second() {
    let from = "a\nb\nc\nd\ne\nf\ng\nh\ni\nj\nk\n";
    let to = "a\nB\nc\nd\ne\nf\ng\nh\ni\nJ\nk\nl";
    for context in [0usize, 1, 3] {
        let hunks = make_diff(from.as_bytes(), to.as_bytes(), context, false);
        assert!(!hunks.is_empty());
        assert_eq!(apply(&split(from), &hunks), split(to));
    }
    let hunks = make_diff(from.as_bytes(), from.as_bytes(), 3, false);
    assert!(hunks.is_empty());
}
