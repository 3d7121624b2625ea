use diffutils::bench::str_to_args;
use diffutils::bench::{find_files, find_files_kb};
use diffutils::bench::{generate_test_contents, generate_test_files_bytes, FilePair};

fn check_layout(from: &[u8]) {
    for (k, b) in from.iter().enumerate() {
        let line_start = k - k % 60;
        let width = (from.len() - line_start).min(60);
        let c = k % 60;
        if c == width - 1 {
            assert_eq!(*b, b'\n');
        } else if c % 6 == 5 {
            assert_eq!(*b, b' ');
        } else {
            assert!(b.is_ascii_lowercase());
        }
    }
}

#[test]
fn names_of_test_files() {
    let (pair, from, to) = generate_test_files_bytes("", 100, 0, "x");
    assert_eq!(pair.from, "x_from_file_100.txt");
    assert_eq!(pair.to, "x_to_file_100.txt");
    assert_eq!(pair.size_bytes, 100);
    assert_eq!(from, to);
    let (pair, _, _) = generate_test_files_bytes("", 0, 0, "");
    assert_eq!(pair.from, "from_file_0.txt");
    assert_eq!(pair.to, "to_file_0.txt");
    let (pair, _, _) = generate_test_files_bytes("/tmp/bench", 120, 1, "");
    assert_eq!(pair.from, "/tmp/bench/from_file_120.txt");
    assert_eq!(pair.to, "/tmp/bench/to_file_120.txt");
    let (pair, _, _) = generate_test_files_bytes("dir/", 60, 0, "a");
    assert_eq!(pair.from, "dir/a_from_file_60.txt");
    let d = FilePair::default();
    assert_eq!(d.size_bytes, 0);
    assert!(d.from.is_empty());
}

#[test]
fn contents_have_exact_size_and_layout() {
    for bytes in [0u64, 1, 7, 59, 60, 61, 125, 6000] {
        let (from, to) = generate_test_contents(bytes, 3);
        assert_eq!(from.len() as u64, bytes);
        assert_eq!(to.len() as u64, bytes);
        check_layout(&from);
    }
}

#[test]
fn changes_are_spread_evenly() {
    // 100 lines, 4 changes: every 25 lines counted from the last line.
    let (from, to) = generate_test_contents(6000, 4);
    let changed: Vec<usize> = (0..100).filter(|j| to[j * 60 + 5] == b'#').collect();
    assert_eq!(changed, vec![24, 49, 74, 99]);
    for (k, (a, b)) in from.iter().zip(to.iter()).enumerate() {
        if a != b {
            assert_eq!(k % 60, 5);
            assert_eq!(*a, b' ');
        }
    }
    // one change goes to the last line
    let (_, to) = generate_test_contents(600, 1);
    let changed: Vec<usize> = (0..10).filter(|j| to[j * 60 + 5] == b'#').collect();
    assert_eq!(changed, vec![9]);
    // never in the first two lines
    let (_, to) = generate_test_contents(180, 10);
    let changed: Vec<usize> = (0..3).filter(|j| to[j * 60 + 5] == b'#').collect();
    assert_eq!(changed, vec![2]);
}

#[test]
fn command_lines_split_at_spaces() {
    assert_eq!(str_to_args("diff file_a file_b -w 150"), vec![b"diff".to_vec(), b"file_a".to_vec(), b"file_b".to_vec(), b"-w".to_vec(), b"150".to_vec()]);
    assert_eq!(str_to_args("  a  b "), vec![b"a".to_vec(), b"b".to_vec()]);
    assert!(str_to_args("").is_empty());
}

#[test]
fn pairs_found_by_size() {
    let pair = |n: &str, s: u64| FilePair { from: format!("{n}_from"), to: format!("{n}_to"), size_bytes: s };
    let files = vec![pair("a", 1000), pair("b", 5000), pair("c", 1000)];
    assert_eq!(find_files(&files, 1000).unwrap().from, "a_from");
    assert_eq!(find_files_kb(&files, 5).unwrap().to, "b_to");
    assert!(find_files(&files, 7).is_none());
}
