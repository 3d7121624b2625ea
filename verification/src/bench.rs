//! The pairs of test files that the benchmarks compare: their names, and the
//! contents of files of lines of random words with differences spread evenly.

use vstd::prelude::*;
use crate::arg_parser::char_text;
use crate::engine::random_below;
use crate::text::push_all;
use crate::lines::{lines_of, split_on, split_at_byte};
use vstd::utf8::encode_utf8;

verus! {

/// The names of the two files of a pair and the size of each in bytes.
#[derive(Debug)]
pub struct FilePair {
    pub from: String,
    pub to: String,
    pub size_bytes: u64,
}

impl Default for FilePair {
    fn default() -> (r: FilePair)
        ensures
            r.from@.len() == 0,
            r.to@.len() == 0,
            r.size_bytes == 0,
    {
        FilePair { from: String::new(), to: String::new(), size_bytes: 0 }
    }
}

/// The decimal digits of `n`.
pub open spec fn decimal_text(n: nat) -> Seq<char>
    decreases n,
{
    if n < 10 {
        seq![(n + 48) as char]
    } else {
        decimal_text(n / 10).push(((n % 10) + 48) as char)
    }
}

fn decimal_string(n: u64) -> (r: String)
    ensures
        r@ == decimal_text(n as nat),
    decreases n,
{
    let d: u8 = (n % 10) as u8;
    let c = (d + 48) as char;
    if n < 10 {
        char_text(c)
    } else {
        let s = decimal_string(n / 10);
        let t = char_text(c);
        let r = s.concat(t.as_str());
        assert(r@ =~= decimal_text(n as nat));
        r
    }
}

/// What comes before the fixed part of a name: nothing, or the id and `_`.
pub open spec fn id_prefix(id: Seq<char>) -> Seq<char> {
    if id.len() == 0 {
        Seq::empty()
    } else {
        id + "_"@
    }
}

/// The name of a test file: `{id}_{base}_{bytes}.txt`, without the id and its
/// `_` when the id is empty.
pub open spec fn test_file_name(id: Seq<char>, base: Seq<char>, bytes: nat) -> Seq<char> {
    id_prefix(id) + base + "_"@ + decimal_text(bytes) + ".txt"@
}

fn file_name(prefix: &String, base: &str, bytes: u64) -> (r: String)
    ensures
        r@ == prefix@ + base@ + "_"@ + decimal_text(bytes as nat) + ".txt"@,
{
    let n = decimal_string(bytes);
    prefix.clone().concat(base).concat("_").concat(n.as_str()).concat(".txt")
}

/// The length of the full lines of a test file.
pub const LINE_LENGTH: u64 = 60;

/// The byte that marks a change.
pub const CHANGE_INDICATION_CHAR: u8 = 35;

pub open spec fn is_letter(b: u8) -> bool {
    97 <= b <= 122
}

/// Byte `c` of a line of `width` bytes: the last is a newline, every sixth a
/// space (between ten words of five letters), the others lower-case letters.
pub open spec fn line_byte_ok(width: int, c: int, b: u8) -> bool {
    if c == width - 1 {
        b == 10
    } else if c % 6 == 5 {
        b == 32
    } else {
        is_letter(b)
    }
}

/// Every how many lines a change is made, for `nd` changes in `n_lines` lines.
pub open spec fn change_every(n_lines: nat, nd: nat) -> int {
    if nd == 0 {
        0
    } else if n_lines / nd == 0 {
        1
    } else {
        (n_lines / nd) as int
    }
}

/// Whether full line `j` of the second file carries a change: counted from the
/// last line, every `change_every` lines, the last line among them, and never
/// in the first two lines.
pub open spec fn line_changed(n_lines: nat, nd: nat, j: int) -> bool {
    nd != 0 && j >= 2 && (n_lines - 1 - j) % change_every(n_lines, nd) == 0
}

/// Byte `c` of line `j` of a file of full lines.
pub open spec fn at(s: Seq<u8>, j: int, c: int) -> u8 {
    s[j * 60 + c]
}

/// The contents of a pair of test files of `bytes` bytes with `nd` changes:
/// full lines of 60 bytes and a shorter last line for the rest, the same in
/// both files, except that the space after the first word of the changed lines
/// is `#` in the second file.
pub open spec fn test_contents(bytes: nat, nd: nat, from: Seq<u8>, to: Seq<u8>) -> bool {
    let n = bytes / 60;
    let m = bytes % 60;
    &&& from.len() == bytes
    &&& to.len() == bytes
    &&& forall|j: int, c: int| 0 <= j < n && 0 <= c < 60 ==> line_byte_ok(60, c, #[trigger] at(from, j, c))
    &&& forall|j: int, c: int|
        0 <= j < n && 0 <= c < 60 ==> #[trigger] at(to, j, c) == (if c == 5 && line_changed(n, nd, j) {
            CHANGE_INDICATION_CHAR
        } else {
            at(from, j, c)
        })
    &&& forall|c: int| 0 <= c < m ==> line_byte_ok(m as int, c, #[trigger] at(from, n as int, c))
    &&& forall|c: int| 0 <= c < m ==> #[trigger] at(to, n as int, c) == at(from, n as int, c)
}

fn random_letter() -> (r: u8)
    ensures
        is_letter(r),
{
    let k = random_below(26);
    97u8 + (k as u8)
}

fn random_line(width: usize) -> (r: Vec<u8>)
    requires
        width <= 60,
    ensures
        r@.len() == width,
        forall|c: int| 0 <= c < width ==> line_byte_ok(width as int, c, #[trigger] r@[c]),
{
    let mut r: Vec<u8> = Vec::new();
    let mut c: usize = 0;
    while c < width
        invariant
            c <= width <= 60,
            r@.len() == c,
            forall|k: int| 0 <= k < c ==> line_byte_ok(width as int, k, #[trigger] r@[k]),
        decreases width - c,
    {
        let b = if c + 1 == width {
            10u8
        } else if c % 6 == 5 {
            32u8
        } else {
            random_letter()
        };
        r.push(b);
        c += 1;
    }
    r
}

/// The contents of two test files of `bytes` bytes each, with
/// `num_differences` changes spread evenly over the second; the letters are
/// random, the same in both files.
pub fn generate_test_contents(bytes: u64, num_differences: u64) -> (r: (Vec<u8>, Vec<u8>))
    requires
        bytes <= usize::MAX,
    ensures
        test_contents(bytes as nat, num_differences as nat, r.0@, r.1@),
{
    let n_lines: u64 = bytes / LINE_LENGTH;
    let every: u64 = if num_differences == 0 {
        0
    } else {
        let c = n_lines / num_differences;
        if c == 0 {
            1
        } else {
            c
        }
    };
    assert(n_lines * 60 <= bytes) by (nonlinear_arith)
        requires
            n_lines == bytes / 60,
    ;
    let ghost nd = num_differences as nat;
    let ghost n = n_lines as nat;
    let mut from: Vec<u8> = Vec::new();
    let mut to: Vec<u8> = Vec::new();
    let mut j: u64 = 0;
    while j < n_lines
        invariant
            j <= n_lines,
            n == n_lines,
            nd == num_differences,
            n_lines * 60 <= bytes,
            every == change_every(n, nd),
            from@.len() == j * 60,
            to@.len() == j * 60,
            forall|j2: int, c: int| 0 <= j2 < j && 0 <= c < 60 ==> line_byte_ok(60, c, #[trigger] at(from@, j2, c)),
            forall|j2: int, c: int|
                0 <= j2 < j && 0 <= c < 60 ==> #[trigger] at(to@, j2, c) == (if c == 5 && line_changed(n, nd, j2) {
                    CHANGE_INDICATION_CHAR
                } else {
                    at(from@, j2, c)
                }),
        decreases n_lines - j,
    {
        let mut line = random_line(60);
        let ghost line0 = line@;
        let ghost from0 = from@;
        let ghost to0 = to@;
        let i = n_lines - 1 - j;
        push_all(&mut from, line.as_slice());
        let changed = num_differences != 0 && j >= 2 && i % every == 0;
        assert(changed == line_changed(n, nd, j as int));
        if changed {
            line.set(5, CHANGE_INDICATION_CHAR);
        }
        push_all(&mut to, line.as_slice());
        proof {
            assert forall|j2: int, c: int| 0 <= j2 < j + 1 && 0 <= c < 60 implies line_byte_ok(60, c, #[trigger] at(from@, j2, c)) by {
                if j2 < j {
                    assert(at(from@, j2, c) == at(from0, j2, c));
                } else {
                    assert(at(from@, j2, c) == line0[c]);
                }
            }
            assert forall|j2: int, c: int| 0 <= j2 < j + 1 && 0 <= c < 60 implies #[trigger] at(to@, j2, c) == (if c == 5 && line_changed(n, nd, j2) {
                CHANGE_INDICATION_CHAR
            } else {
                at(from@, j2, c)
            }) by {
                if j2 < j {
                    assert(at(to@, j2, c) == at(to0, j2, c));
                    assert(at(from@, j2, c) == at(from0, j2, c));
                } else {
                    assert(at(to@, j2, c) == line@[c]);
                    assert(at(from@, j2, c) == line0[c]);
                }
            }
        }
        j += 1;
    }
    let missing = (bytes - n_lines * LINE_LENGTH) as usize;
    assert(missing == bytes % 60) by (nonlinear_arith)
        requires
            n_lines == bytes / 60,
            missing == bytes - n_lines * 60,
    ;
    if missing > 0 {
        let line = random_line(missing);
        let ghost from0 = from@;
        let ghost to0 = to@;
        push_all(&mut from, line.as_slice());
        push_all(&mut to, line.as_slice());
        proof {
            assert forall|j2: int, c: int| 0 <= j2 < n && 0 <= c < 60 implies #[trigger] at(to@, j2, c) == (if c == 5 && line_changed(n, nd, j2) {
                CHANGE_INDICATION_CHAR
            } else {
                at(from@, j2, c)
            }) by {
                assert(at(from@, j2, c) == at(from0, j2, c));
                assert(at(to@, j2, c) == at(to0, j2, c));
            }
            assert forall|j2: int, c: int| 0 <= j2 < n && 0 <= c < 60 implies line_byte_ok(60, c, #[trigger] at(from@, j2, c)) by {
                assert(at(from@, j2, c) == at(from0, j2, c));
            }
            assert forall|c: int| 0 <= c < missing implies #[trigger] at(from@, n as int, c) == line@[c] && at(to@, n as int, c) == line@[c] by {
            }
        }
    }
    assert(n == bytes as nat / 60);
    assert(from@.len() == bytes);
    assert(to@.len() == bytes);
    (from, to)
}

/// A file name joined to a directory, as a path: the name after the
/// directory and a `/`, no `/` being added after an empty directory or one
/// that ends in `/`.
pub open spec fn path_join(dir: Seq<char>, name: Seq<char>) -> Seq<char> {
    if dir.len() == 0 || dir.last() == '/' {
        dir + name
    } else {
        dir + "/"@ + name
    }
}

fn join_path(dir: &str, name: &String) -> (r: String)
    ensures
        r@ == path_join(dir@, name@),
{
    let n = dir.unicode_len();
    if n == 0 || dir.get_char(n - 1) == '/' {
        String::from_str(dir).concat(name.as_str())
    } else {
        String::from_str(dir).concat("/").concat(name.as_str())
    }
}

/// The paths and contents of a pair of test files of `bytes` bytes with
/// `num_differences` changes, in the directory `dir`:
/// `{dir}/{id}_from_file_{bytes}.txt` and `{dir}/{id}_to_file_{bytes}.txt`
/// (without the id and its `_` when the id is empty), their contents as
/// `generate_test_contents` makes them. Writing them is left to the caller.
pub fn generate_test_files_bytes(dir: &str, bytes: u64, num_differences: u64, id: &str) -> (r: (FilePair, Vec<u8>, Vec<u8>))
    requires
        bytes <= usize::MAX,
    ensures
        r.0.from@ == path_join(dir@, test_file_name(id@, "from_file"@, bytes as nat)),
        r.0.to@ == path_join(dir@, test_file_name(id@, "to_file"@, bytes as nat)),
        r.0.size_bytes == bytes,
        test_contents(bytes as nat, num_differences as nat, r.1@, r.2@),
{
    let prefix = if id.is_empty() {
        let s = String::new();
        assert(s@ =~= id_prefix(id@));
        s
    } else {
        String::from_str(id).concat("_")
    };
    let from = join_path(dir, &file_name(&prefix, "from_file", bytes));
    let to = join_path(dir, &file_name(&prefix, "to_file", bytes));
    let (from_content, to_content) = generate_test_contents(bytes, num_differences);
    (FilePair { from, to, size_bytes: bytes }, from_content, to_content)
}

/// The pieces of `s` that are not empty, in order.
pub open spec fn non_empty(s: Seq<Seq<u8>>) -> Seq<Seq<u8>>
    decreases s.len(),
{
    if s.len() == 0 {
        Seq::empty()
    } else if s.last().len() == 0 {
        non_empty(s.drop_last())
    } else {
        non_empty(s.drop_last()).push(s.last())
    }
}

/// The arguments of a command line written as one text: its words between
/// spaces (several spaces in a row give no empty argument).
pub fn str_to_args(args: &str) -> (r: Vec<Vec<u8>>)
    ensures
        lines_of(r@) == non_empty(split_on(encode_utf8(args@), 32)),
{
    let pieces = split_at_byte(args.as_bytes(), 32);
    let ghost ps = lines_of(pieces@);
    let mut r: Vec<Vec<u8>> = Vec::new();
    let mut k: usize = 0;
    while k < pieces.len()
        invariant
            k <= pieces.len(),
            ps == lines_of(pieces@),
            lines_of(r@) == non_empty(ps.take(k as int)),
        decreases pieces.len() - k,
    {
        assert(ps.take(k + 1).drop_last() =~= ps.take(k as int));
        assert(ps.take(k + 1).last() == pieces@[k as int]@);
        if pieces[k].len() > 0 {
            let ghost before = r@;
            r.push(crate::text::to_owned_bytes(pieces[k].as_slice()));
            assert(lines_of(r@) =~= lines_of(before).push(pieces@[k as int]@));
        }
        k += 1;
    }
    assert(ps.take(pieces@.len() as int) =~= ps);
    r
}

/// The position of the first pair of files of `bytes` bytes.
pub open spec fn pair_index(sizes: Seq<u64>, bytes: u64, k: int) -> Option<int>
    decreases sizes.len() - k,
{
    if k < 0 || k >= sizes.len() {
        None
    } else if sizes[k] == bytes {
        Some(k)
    } else {
        pair_index(sizes, bytes, k + 1)
    }
}

pub open spec fn sizes_of(files: Seq<FilePair>) -> Seq<u64> {
    Seq::new(files.len(), |k: int| files[k].size_bytes)
}

/// The first pair of test files of `bytes` bytes among `files`, if any.
pub fn find_files(files: &[FilePair], bytes: u64) -> (r: Option<&FilePair>)
    ensures
        match pair_index(sizes_of(files@), bytes, 0) {
            Some(k) => r matches Some(p) && *p == files@[k],
            None => r is None,
        },
{
    let ghost sz = sizes_of(files@);
    let mut k: usize = 0;
    while k < files.len()
        invariant
            k <= files.len(),
            sz == sizes_of(files@),
            pair_index(sz, bytes, k as int) == pair_index(sz, bytes, 0),
        decreases files.len() - k,
    {
        if files[k].size_bytes == bytes {
            return Some(&files[k]);
        }
        k += 1;
    }
    None
}

/// The first pair of test files of `kb` kilobytes (of 1000 bytes).
pub fn find_files_kb(files: &[FilePair], kb: u64) -> (r: Option<&FilePair>)
    requires
        kb * 1000 <= u64::MAX,
    ensures
        match pair_index(sizes_of(files@), (kb * 1000) as u64, 0) {
            Some(k) => r matches Some(p) && *p == files@[k],
            None => r is None,
        },
{
    find_files(files, kb * 1000)
}

} // verus!
