//! Tab expansion and line output shared by the diff formats.

use vstd::prelude::*;
use crate::lines::{split_on, count_byte, lines_of, split_at_byte, lemma_split_on_len};
use crate::text::{repeat, push_all, push_repeat};
use crate::unicode::{piece_width, bytes_width, lossy_text, lossy_string};

verus! {

/// `std::io::Error`, the error type of writes; writes into a vector never fail.
#[verifier::external_type_specification]
#[verifier::external_body]
pub struct ExIoError(std::io::Error);

/// The tab byte.
pub const TAB: u8 = 9;

/// The space byte.
pub const SPACE: u8 = 32;

/// The pieces of a line before its last tab, each followed by the spaces that
/// bring the column to the next multiple of `tabsize` (counting from the
/// start of the piece).
pub open spec fn padded_pieces(ps: Seq<Seq<u8>>, tabsize: nat) -> Seq<u8>
    decreases ps.len(),
{
    if ps.len() == 0 {
        Seq::<u8>::empty()
    } else {
        padded_pieces(ps.drop_last(), tabsize) + ps.last() + repeat(
            SPACE,
            (tabsize - piece_width(ps.last()) % tabsize) as nat,
        )
    }
}

/// `line` with every tab replaced by the spaces up to the next tab stop, where
/// the width of each piece between tabs is its display width.
pub open spec fn expand_tabs(line: Seq<u8>, tabsize: nat) -> Seq<u8> {
    let ps = split_on(line, TAB);
    padded_pieces(ps.drop_last(), tabsize) + ps.last()
}

/// What `do_write_line` appends for `line`.
pub open spec fn written_line(line: Seq<u8>, expand: bool, tabsize: nat) -> Seq<u8> {
    if expand {
        expand_tabs(line, tabsize)
    } else {
        line
    }
}

/// The tab size is usable for `line`: it is positive unless the line has no tab.
pub open spec fn tabsize_ok(line: Seq<u8>, tabsize: nat) -> bool {
    tabsize > 0 || count_byte(line, TAB) == 0
}

/// Replaces tabs by spaces in the input line, counting multi-byte characters by
/// their display width. The line is assumed to hold no line break.
pub fn do_expand_tabs(line: &[u8], tabsize: usize) -> (r: Vec<u8>)
    requires
        tabsize_ok(line@, tabsize as nat),
    ensures
        r@ == expand_tabs(line@, tabsize as nat),
{
    let pieces = split_at_byte(line, TAB);
    proof {
        lemma_split_on_len(line@, TAB);
    }
    let ghost ps = lines_of(pieces@);
    let mut result: Vec<u8> = Vec::new();
    let n = pieces.len();
    let mut i: usize = 0;
    assert(ps.drop_last().take(0) =~= Seq::<Seq<u8>>::empty());
    while i + 1 < n
        invariant
            n == pieces.len(),
            ps == lines_of(pieces@),
            ps.len() >= 1,
            n > 1 ==> tabsize > 0,
            i + 1 <= n,
            result@ == padded_pieces(ps.drop_last().take(i as int), tabsize as nat),
        decreases n - i,
    {
        let w = bytes_width(pieces[i].as_slice());
        push_all(&mut result, pieces[i].as_slice());
        push_repeat(&mut result, SPACE, tabsize - w % tabsize);
        proof {
            assert(ps.drop_last().take(i + 1).drop_last() =~= ps.drop_last().take(i as int));
        }
        i = i + 1;
    }
    assert(ps.drop_last().take(i as int) =~= ps.drop_last());
    push_all(&mut result, pieces[n - 1].as_slice());
    result
}

/// Writes a single line to `output`, expanding tabs to spaces when asked.
pub fn do_write_line(output: &mut Vec<u8>, line: &[u8], expand_tabs: bool, tabsize: usize) -> (r: Result<(), std::io::Error>)
    requires
        expand_tabs ==> tabsize_ok(line@, tabsize as nat),
    ensures
        r is Ok,
        final(output)@ == old(output)@ + written_line(line@, expand_tabs, tabsize as nat),
{
    if expand_tabs {
        let e = do_expand_tabs(line, tabsize);
        push_all(output, e.as_slice());
    } else {
        push_all(output, line);
    }
    Ok(())
}

/// The text that `regex` makes of an error message when it replaces a
/// trailing ` (os error N)` (the pattern `\ \(os\ error\ \d+\)$`) by nothing.
pub uninterp spec fn os_error_stripped(text: Seq<char>) -> Seq<char>;

/// Compiles the pattern of a trailing ` (os error N)` with
/// `regex::Regex::new` and calls `Regex::replace` on `text` with an empty
/// replacement. Its contract: the result is the crate's text (named
/// `os_error_stripped`); the pattern is a constant that compiles.
#[verifier::external_body]
fn strip_os_error_code(text: &str) -> (r: String)
    ensures
        r@ == os_error_stripped(text@),
{
    regex::Regex::new(r"\ \(os\ error\ \d+\)$").unwrap().replace(text, "").into_owned()
}

/// The message for a file that could not be read: the name of the utility,
/// the name of the file, and the error's message without its operating
/// system code.
pub open spec fn failure_text(exe: Seq<u8>, file: Seq<u8>, error: Seq<char>) -> Seq<char> {
    lossy_text(exe) + ": "@ + lossy_text(file) + ": "@ + os_error_stripped(error)
}

/// The message for a file that could not be read, `error_text` being the
/// error's message.
pub fn format_failure_to_read_input_file(executable: &[u8], filepath: &[u8], error_text: &str) -> (r: String)
    ensures
        r@ == failure_text(executable@, filepath@, error_text@),
{
    let e = lossy_string(executable);
    let f = lossy_string(filepath);
    let m = strip_os_error_code(error_text);
    e.concat(": ").concat(f.as_str()).concat(": ").concat(m.as_str())
}

/// The messages for the first one or two files that could not be read, on
/// lines of their own.
pub fn format_failure_to_read_input_files(executable: &[u8], errors: &Vec<(Vec<u8>, String)>) -> (r: String)
    requires
        errors@.len() >= 1,
    ensures
        r@ == failure_text(executable@, errors@[0].0@, errors@[0].1@) + (if errors@.len() > 1 {
            "\n"@ + failure_text(executable@, errors@[1].0@, errors@[1].1@)
        } else {
            Seq::<char>::empty()
        }),
{
    let first = format_failure_to_read_input_file(executable, errors[0].0.as_slice(), errors[0].1.as_str());
    if errors.len() > 1 {
        let second = format_failure_to_read_input_file(executable, errors[1].0.as_slice(), errors[1].1.as_str());
        first.concat("\n").concat(second.as_str())
    } else {
        let r = first;
        assert(r@ =~= r@ + Seq::<char>::empty());
        r
    }
}

} // verus!
