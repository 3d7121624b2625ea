use diffutils::context_diff::diff;
use diffutils::context_diff::{make_diff, DiffLine, Mismatch};

#[test]
fn context_change_in_the_middle() {
    let out = diff(b"a\nb\nc\n", "from", b"a\nx\nc\n", "to", 3);
    assert_eq!(
        String::from_utf8(out).unwrap(),
        "*** from\t\n--- to\t\n***************\n*** 1,3 ****\n  a\n! b\n  c\n--- 1,3 ----\n  a\n! x\n  c\n"
    );
}

#[test]
fn context_deletion_hides_the_all_context_side() {
    let out = diff(b"a\nb\n", "from", b"a\n", "to", 3);
    assert_eq!(
        String::from_utf8(out).unwrap(),
        "*** from\t\n--- to\t\n***************\n*** 1,2 ****\n  a\n- b\n--- 1 ----\n"
    );
}

#[test]
fn context_addition_into_empty_file() {
    let out = diff(b"", "from", b"a\n", "to", 3);
    assert_eq!(
        String::from_utf8(out).unwrap(),
        "*** from\t\n--- to\t\n***************\n*** 0 ****\n--- 1 ----\n+ a\n"
    );
}

#[test]
fn context_identical_files_give_nothing() {
    assert!(diff(b"a\nb\n", "from", b"a\nb\n", "to", 3).is_empty());
    assert!(diff(b"", "from", b"", "to", 0).is_empty());
}

#[test]
fn context_missing_newline() {
    let out = diff(b"a", "from", b"b", "to", 3);
    assert_eq!(
        String::from_utf8(out).unwrap(),
        "*** from\t\n--- to\t\n***************\n*** 1 ****\n! a\n\\ No newline at end of file\n--- 1 ----\n! b\n\\ No newline at end of file\n"
    );
}

fn split_lines(text: &str) -> Vec<Vec<u8>> {
    let mut v: Vec<Vec<u8>> = text.as_bytes().split(|b| *b == b'\n').map(|l| l.to_vec()).collect();
    if v.last().map(|l| l.is_empty()).unwrap_or(false) {
        v.pop();
    }
    v
}

fn line_text(l: &DiffLine) -> Vec<u8> {
    match l {
        DiffLine::Context(x) | DiffLine::Change(x) | DiffLine::Add(x) => x.clone(),
    }
}

fn apply_hunks(first: &[Vec<u8>], hunks: &[Mismatch]) -> Vec<Vec<u8>> {
    let mut out = Vec::new();
    let mut pos = 0usize;
    for h in hunks {
        let start = h.line_number_expected - 1;
        out.extend_from_slice(&first[pos..start]);
        out.extend(h.actual.iter().map(line_text));
        pos = start + h.expected.len();
    }
    out.extend_from_slice(&first[pos..]);
    out
}

#[test]
fn context_hunks_patch_first_into_second() {
    let from = "a\nb\nc\nd\ne\nf\ng\nh\ni\nj\nk\n";
    let to = "a\nB\nc\nd\ne\nf\ng\nh\ni\nj\nk\nl";
    for context in [0usize, 1, 3] {
        let hunks = make_diff(from.as_bytes(), to.as_bytes(), context);
        assert!(!hunks.is_empty());
        assert_eq!(apply_hunks(&split_lines(from), &hunks), split_lines(to));
    }
    let hunks = make_diff(b"x\ny", b"x\ny\n", 2);
    assert_eq!(hunks.len(), 1);
    assert_eq!(apply_hunks(&split_lines("x\ny"), &hunks), split_lines("x\ny\n"));
}
