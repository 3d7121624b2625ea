use diffutils::cmp::{Cmp, Params};
use diffutils::compare::{compare_chunk, compare_setup, report_difference, report_eof, ChunkEnd, CompareState};

fn params(verbose: bool, print_bytes: bool) -> Params {
    Params {
        executable: b"cmp".to_vec(),
        from: b"a".to_vec(),
        to: b"b".to_vec(),
        verbose,
        print_bytes,
        ..Default::default()
    }
}

#[test]
fn compare_equal_chunks_move_the_position() {
    let mut st = CompareState::new();
    let mut out = Vec::new();
    let (end, used) = compare_chunk(&mut st, b"ab\ncd\n", b"ab\ncd\nef", &params(false, false), 1, &mut out);
    assert_eq!(end, ChunkEnd::Continue);
    assert_eq!(used, 6);
    assert_eq!(st, CompareState { at_byte: 7, at_line: 3, start_of_line: true, compare: Cmp::Equal });
    assert!(out.is_empty());
    let (end, _) = compare_chunk(&mut st, b"", b"ef", &params(false, false), 1, &mut out);
    assert_eq!(end, ChunkEnd::EndOfFrom);
    let (end, _) = compare_chunk(&mut st, b"", b"", &params(false, false), 1, &mut out);
    assert_eq!(end, ChunkEnd::Finished);
}

#[test]
fn compare_first_difference() {
    let mut st = CompareState::new();
    let mut out = Vec::new();
    let (end, _) = compare_chunk(&mut st, b"a\nc", b"a\nx", &params(false, false), 1, &mut out);
    assert_eq!(end, ChunkEnd::Differ(b'c', b'x'));
    assert_eq!((st.at_byte, st.at_line), (3, 2));
}

#[test]
fn compare_verbose_lines() {
    let mut st = CompareState::new();
    let mut out = Vec::new();
    let (end, _) = compare_chunk(&mut st, b"abc", b"abx", &params(true, false), 1, &mut out);
    assert_eq!(end, ChunkEnd::Continue);
    assert_eq!(st.compare, Cmp::Different);
    assert_eq!(String::from_utf8(out).unwrap(), "3 143 170\n");

    let mut st = CompareState::new();
    let mut out = Vec::new();
    compare_chunk(&mut st, &[b'a', 1, 0x7f], &[b'b', 0xff, 0xa0], &params(true, true), 3, &mut out);
    assert_eq!(
        String::from_utf8(out).unwrap(),
        "  1 141 a    142 b\n  2   1 ^A   377 M-^?\n  3 177 ^?   240 M- \n"
    );
}

#[test]
fn compare_stops_past_the_limit() {
    let mut st = CompareState::new();
    let mut out = Vec::new();
    let p = Params { max_bytes: Some(2), ..params(true, false) };
    let (end, used) = compare_chunk(&mut st, b"xyz", b"abc", &p, 1, &mut out);
    assert_eq!((end, used), (ChunkEnd::Continue, 3));
    assert_eq!(String::from_utf8(out).unwrap(), "1 170 141\n2 171 142\n");
    let mut st = CompareState::new();
    let (end, _) = compare_chunk(&mut st, b"abc", b"abc", &p, 1, &mut Vec::new());
    assert_eq!(end, ChunkEnd::Finished);
}

#[test]
fn compare_reports() {
    let p = params(false, false);
    assert_eq!(report_difference(b'c', b'x', 3, 1, &p, false).unwrap(), b"a b differ: byte 3, line 1\n".to_vec());
    assert_eq!(report_difference(b'c', b'x', 3, 1, &p, true).unwrap(), b"a b differ: char 3, line 1\n".to_vec());
    let pb = params(false, true);
    assert_eq!(
        String::from_utf8(report_difference(b'c', 0xff, 3, 1, &pb, true).unwrap()).unwrap(),
        "a b differ: byte 3, line 1 is 143 c  377 M-^?\n"
    );
    assert_eq!(report_eof(1, 1, true, b"a", &p).unwrap(), b"cmp: EOF on 'a' which is empty".to_vec());
    assert_eq!(report_eof(4, 2, true, b"a", &p).unwrap(), b"cmp: EOF on 'a' after byte 3, line 1".to_vec());
    assert_eq!(report_eof(4, 2, false, b"b", &p).unwrap(), b"cmp: EOF on 'b' after byte 3, in line 2".to_vec());
    assert_eq!(report_eof(4, 2, false, b"b", &params(true, false)).unwrap(), b"cmp: EOF on 'b' after byte 3".to_vec());
    let quiet = Params { quiet: true, ..p };
    assert!(report_eof(4, 2, false, b"b", &quiet).is_none());
    assert!(report_difference(1, 2, 3, 4, &quiet, false).is_none());
}

#[test]
fn compare_setup_widths() {
    let p = params(true, false);
    assert_eq!(compare_setup(&p, Some((5, 12345))), Ok(1));
    assert_eq!(compare_setup(&p, Some((0, 0))), Ok(2));
    assert_eq!(compare_setup(&Params { max_bytes: Some(100), ..p.clone() }, None), Ok(3));
    assert_eq!(compare_setup(&p, None), Ok(usize::MAX.to_string().len()));
    let q = Params { quiet: true, ..p };
    assert_eq!(compare_setup(&q, Some((1, 2))), Err(Cmp::Different));
    // Comparing at most one byte of `a` and `ab`: the compared parts have the same length.
    assert_eq!(compare_setup(&Params { max_bytes: Some(1), ..q.clone() }, Some((1, 2))), Ok(1));
    // Skipping the first byte of the second input only: one byte left on each side.
    assert_eq!(compare_setup(&Params { skip_b: Some(1), ..q.clone() }, Some((1, 2))), Ok(1));
    assert_eq!(compare_setup(&Params { skip_a: Some(1), ..q.clone() }, Some((1, 2))), Err(Cmp::Different));
}

#[test]
fn verbose_positions_wider_than_the_width() {
    let mut st = CompareState::new();
    st.at_byte = 10;
    let mut out = Vec::new();
    compare_chunk(&mut st, b"ab", b"xb", &params(true, false), 1, &mut out);
    assert_eq!(String::from_utf8(out).unwrap(), "10 141 170\n");
}

/// Runs a whole comparison, the reads handing over chunks of the sizes given
/// in turn (and of the whole rest once the sizes run out).
fn run(a: &[u8], b: &[u8], sizes: &[(usize, usize)], p: &Params) -> (ChunkEnd, CompareState) {
    let mut st = CompareState::new();
    let mut out = Vec::new();
    let (mut a, mut b) = (a, b);
    let mut i = 0;
    loop {
        let (ka, kb) = if i < sizes.len() { sizes[i] } else { (usize::MAX, usize::MAX) };
        i += 1;
        let fa = &a[..a.len().min(ka.max(1))];
        let fb = &b[..b.len().min(kb.max(1))];
        let (end, used) = compare_chunk(&mut st, fa, fb, p, 1, &mut out);
        if end != ChunkEnd::Continue {
            return (end, st);
        }
        a = &a[used..];
        b = &b[used..];
    }
}

#[test]
fn compare_whole_run_does_not_depend_on_the_chunks() {
    let text = b"one\ntwo\nthree\n";
    for sizes in [&[(1, 1)][..], &[(3, 5), (2, 7)][..], &[(20, 1), (1, 20)][..], &[][..]] {
        let (end, st) = run(text, text, sizes, &params(false, false));
        assert_eq!((end, st.compare), (ChunkEnd::Finished, Cmp::Equal));
        let (end, st) = run(text, b"one\ntwo\nthreE\n", sizes, &params(false, false));
        assert_ne!((end, st.compare), (ChunkEnd::Finished, Cmp::Equal));
        let (end, st) = run(text, b"one\ntwo\nthreE\n", sizes, &params(true, false));
        assert_eq!((end, st.compare), (ChunkEnd::Finished, Cmp::Different));
        let (end, _) = run(text, b"one\ntwo\n", sizes, &params(false, false));
        assert_eq!(end, ChunkEnd::EndOfTo);
    }
}
