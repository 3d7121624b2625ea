//! The comparison that cmp makes: byte after byte over the chunks that the
//! two inputs deliver, with the texts it prints about what it finds.

use vstd::prelude::*;
use crate::cmp::{Params, ParamsV, Cmp, lit};
use crate::text::{decimal, repeat, push_all, push_repeat, decimal_digits};
use crate::lines::{count_byte, lemma_count_byte_le};
use crate::unicode::{lossy_utf8, utf8_lossy};
use crate::diff3::are_files_identical;

verus! {

/// The three octal digits of a byte, right-aligned with spaces (`{:>3o}`).
pub open spec fn octal3(b: u8) -> Seq<u8> {
    seq![
        if b >= 64 { (48 + b / 64) as u8 } else { 32u8 },
        if b >= 8 { (48 + (b / 8) % 8) as u8 } else { 32u8 },
        (48 + b % 8) as u8,
    ]
}

/// The three octal digits of `byte`, right-aligned with spaces.
fn format_octal(byte: u8) -> (r: [u8; 3])
    ensures
        r@ == octal3(byte),
{
    let mut buf: [u8; 3] = [32u8, 32u8, 48u8];
    let mut num = byte;
    let mut idx: usize = 2;
    let mut n_digits: usize = 0;
    while num > 0
        invariant
            n_digits <= 3,
            idx == if n_digits == 0 { 2usize } else if n_digits == 1 { 1usize } else { 0usize },
            n_digits == 0 ==> num == byte && buf@ == seq![32u8, 32u8, 48u8],
            n_digits == 1 ==> num == byte / 8 && buf@ == seq![32u8, 32u8, (48 + byte % 8) as u8],
            n_digits == 2 ==> num == byte / 64 && buf@ == seq![32u8, (48 + (byte / 8) % 8) as u8, (48 + byte % 8) as u8],
            n_digits >= 2 ==> byte >= 8,
            n_digits >= 3 ==> byte >= 64,
            n_digits == 3 ==> num == 0 && buf@ == seq![(48 + byte / 64) as u8, (48 + (byte / 8) % 8) as u8, (48 + byte % 8) as u8],
        decreases num,
    {
        buf.set(idx, 48u8 + num % 8);
        num = num / 8;
        idx = if idx == 0 { 0 } else { idx - 1 };
        n_digits = n_digits + 1;
    }
    assert(buf@ =~= octal3(byte));
    buf
}

/// How cat and cmp show a byte: control bytes as `^X`, the delete byte as
/// `^?`, bytes above 127 with `M-` before the form of the byte 128 below.
pub open spec fn visible(b: u8) -> Seq<u8> {
    if b <= 31 {
        seq![94u8, (b + 64) as u8]
    } else if b <= 126 {
        seq![b]
    } else if b == 127 {
        seq![94u8, 63u8]
    } else if b <= 159 {
        seq![77u8, 45u8, 94u8, (b - 64) as u8]
    } else if b <= 254 {
        seq![77u8, 45u8, (b - 128) as u8]
    } else {
        seq![77u8, 45u8, 94u8, 63u8]
    }
}

/// Appends the visible form of `byte` and returns its width.
fn write_visible_byte(output: &mut Vec<u8>, byte: u8) -> (r: usize)
    ensures
        final(output)@ == old(output)@ + visible(byte),
        r == visible(byte).len(),
{
    if byte <= 31 {
        output.push(94u8);
        output.push(byte + 64);
        2
    } else if byte <= 126 {
        output.push(byte);
        1
    } else if byte == 127 {
        output.push(94u8);
        output.push(63u8);
        2
    } else if byte <= 159 {
        output.push(77u8);
        output.push(45u8);
        output.push(94u8);
        output.push(byte - 64);
        4
    } else if byte <= 254 {
        output.push(77u8);
        output.push(45u8);
        output.push(byte - 128);
        3
    } else {
        output.push(77u8);
        output.push(45u8);
        output.push(94u8);
        output.push(63u8);
        4
    }
}

/// `n` spaces, or none when `n` is not positive.
pub open spec fn spaces(n: int) -> Seq<u8> {
    repeat(32u8, if n > 0 { n as nat } else { 0 })
}

/// Appends the visible form of `byte`, padded with spaces to four columns.
fn write_visible_byte_padded(output: &mut Vec<u8>, byte: u8)
    ensures
        final(output)@ == old(output)@ + visible(byte) + spaces(4 - visible(byte).len()),
{
    let width = write_visible_byte(output, byte);
    let padding = if width < 4 { 4 - width } else { 0 };
    push_repeat(output, 32u8, padding);
}

/// Formats `n` with `itoa::Buffer::format`. Its contract, as the crate's
/// documentation says: the decimal digits of the number.
#[verifier::external_body]
fn itoa_decimal(n: usize) -> (r: Vec<u8>)
    ensures
        r@ == decimal(n as nat),
{
    itoa::Buffer::new().format(n).as_bytes().to_vec()
}

/// The line that verbose mode prints for a differing byte: its position
/// right-aligned to `width` columns (wider when it needs more), then both
/// bytes in octal, with their
/// visible forms when `print_bytes` is set.
pub open spec fn verbose_line(f: u8, t: u8, at: nat, width: int, print_bytes: bool) -> Seq<u8> {
    let d = decimal(at);
    if print_bytes {
        spaces(width - d.len()) + d + seq![32u8] + octal3(f) + seq![32u8] + visible(f) + spaces(4 - visible(f).len())
            + seq![32u8] + octal3(t) + seq![32u8] + visible(t) + seq![10u8]
    } else {
        spaces(width - d.len()) + d + seq![32u8] + octal3(f) + seq![32u8] + octal3(t) + seq![10u8]
    }
}

/// Appends the verbose line for a differing byte (see `verbose_line`).
#[verifier::rlimit(50)]
fn format_verbose_difference(
    from_byte: u8,
    to_byte: u8,
    at_byte: usize,
    offset_width: usize,
    output: &mut Vec<u8>,
    params: &Params,
) -> (r: Result<(), String>)
    requires
        !params.quiet,
    ensures
        r is Ok,
        final(output)@ == old(output)@ + verbose_line(from_byte, to_byte, at_byte as nat, offset_width as int, params.print_bytes),
{
    let ghost o0 = output@;
    let ghost d = decimal(at_byte as nat);
    let at_byte_str = itoa_decimal(at_byte);
    let padding = if offset_width > at_byte_str.len() { offset_width - at_byte_str.len() } else { 0 };
    push_repeat(output, 32u8, padding);
    assert(repeat(32u8, padding as nat) == spaces(offset_width - d.len()));
    push_all(output, at_byte_str.as_slice());
    output.push(32u8);
    let ghost o1 = output@;
    assert(o1 =~= o0 + spaces(offset_width - d.len()) + d + seq![32u8]);
    let from_oct = format_octal(from_byte);
    push_all(output, &from_oct);
    output.push(32u8);
    let ghost o2 = output@;
    assert(o2 =~= o1 + octal3(from_byte) + seq![32u8]);
    if params.print_bytes {
        write_visible_byte_padded(output, from_byte);
        output.push(32u8);
        let ghost o3 = output@;
        assert(o3 =~= o2 + visible(from_byte) + spaces(4 - visible(from_byte).len()) + seq![32u8]);
        let to_oct = format_octal(to_byte);
        push_all(output, &to_oct);
        output.push(32u8);
        write_visible_byte(output, to_byte);
        output.push(10u8);
        assert(output@ =~= o3 + octal3(to_byte) + seq![32u8] + visible(to_byte) + seq![10u8]);
    } else {
        let to_oct = format_octal(to_byte);
        push_all(output, &to_oct);
        output.push(10u8);
        assert(output@ =~= o2 + octal3(to_byte) + seq![10u8]);
    }
    Ok(())
}

/// What cmp reports on standard error when one input ends before the other
/// (without the final newline); nothing when quiet.
pub open spec fn eof_text(at_byte: nat, at_line: nat, start_of_line: bool, eof_on: Seq<u8>, p: ParamsV) -> Option<Seq<u8>> {
    let head = lossy_utf8(p.executable) + lit(": EOF on '") + lossy_utf8(eof_on);
    if p.quiet {
        None
    } else if at_byte == 1 {
        Some(head + lit("' which is empty"))
    } else if p.verbose {
        Some(head + lit("' after byte ") + decimal((at_byte - 1) as nat))
    } else if start_of_line {
        Some(head + lit("' after byte ") + decimal((at_byte - 1) as nat) + lit(", line ") + decimal((at_line - 1) as nat))
    } else {
        Some(head + lit("' after byte ") + decimal((at_byte - 1) as nat) + lit(", in line ") + decimal(at_line))
    }
}

/// The report of cmp when the input named `eof_on` ends first, as
/// `eof_text` says.
pub fn report_eof(at_byte: usize, at_line: usize, start_of_line: bool, eof_on: &[u8], params: &Params) -> (r: Option<Vec<u8>>)
    requires
        1 <= at_byte,
        1 <= at_line,
    ensures
        match (r, eof_text(at_byte as nat, at_line as nat, start_of_line, eof_on@, params@)) {
            (Some(v), Some(t)) => v@ == t,
            (None, None) => true,
            _ => false,
        },
{
    if params.quiet {
        return None;
    }
    let mut out = utf8_lossy(params.executable.as_slice());
    push_all(&mut out, ": EOF on '".as_bytes());
    let name = utf8_lossy(eof_on);
    push_all(&mut out, name.as_slice());
    let ghost head = out@;
    if at_byte == 1 {
        push_all(&mut out, "' which is empty".as_bytes());
    } else if params.verbose {
        push_all(&mut out, "' after byte ".as_bytes());
        push_all(&mut out, decimal_digits(at_byte - 1).as_slice());
    } else if start_of_line {
        push_all(&mut out, "' after byte ".as_bytes());
        push_all(&mut out, decimal_digits(at_byte - 1).as_slice());
        push_all(&mut out, ", line ".as_bytes());
        push_all(&mut out, decimal_digits(at_line - 1).as_slice());
    } else {
        push_all(&mut out, "' after byte ".as_bytes());
        push_all(&mut out, decimal_digits(at_byte - 1).as_slice());
        push_all(&mut out, ", in line ".as_bytes());
        push_all(&mut out, decimal_digits(at_line).as_slice());
    }
    Some(out)
}

/// The visible form of a byte, padded with spaces to `w` columns.
pub open spec fn padded_visible(b: u8, w: int) -> Seq<u8> {
    visible(b) + spaces(w - visible(b).len())
}

/// What cmp prints on standard output at the first difference (with its
/// newline); nothing when quiet. In the POSIX locale, and without
/// `print_bytes`, the position is called a `char`, else a `byte`.
pub open spec fn difference_text(from_byte: u8, to_byte: u8, at_byte: nat, at_line: nat, p: ParamsV, posix_locale: bool) -> Option<Seq<u8>> {
    let term = if posix_locale && !p.print_bytes { lit("char") } else { lit("byte") };
    let w: int = if to_byte >= 127 { 2 } else { 1 };
    let main = lossy_utf8(p.from) + seq![32u8] + lossy_utf8(p.to) + lit(" differ: ") + term + seq![32u8] + decimal(at_byte)
        + lit(", line ") + decimal(at_line);
    if p.quiet {
        None
    } else if p.print_bytes {
        Some(main + lit(" is ") + octal3(from_byte) + seq![32u8] + padded_visible(from_byte, w) + seq![32u8] + octal3(to_byte)
            + seq![32u8] + padded_visible(to_byte, w) + seq![10u8])
    } else {
        Some(main + seq![10u8])
    }
}

/// The report of cmp at the first difference, as `difference_text` says;
/// `posix_locale` tells whether the locale of the messages is C or POSIX.
#[verifier::rlimit(50)]
pub fn report_difference(from_byte: u8, to_byte: u8, at_byte: usize, at_line: usize, params: &Params, posix_locale: bool) -> (r: Option<Vec<u8>>)
    ensures
        match (r, difference_text(from_byte, to_byte, at_byte as nat, at_line as nat, params@, posix_locale)) {
            (Some(v), Some(t)) => v@ == t,
            (None, None) => true,
            _ => false,
        },
{
    if params.quiet {
        return None;
    }
    let mut out = utf8_lossy(params.from.as_slice());
    out.push(32u8);
    let to = utf8_lossy(params.to.as_slice());
    push_all(&mut out, to.as_slice());
    push_all(&mut out, " differ: ".as_bytes());
    if posix_locale && !params.print_bytes {
        push_all(&mut out, "char".as_bytes());
    } else {
        push_all(&mut out, "byte".as_bytes());
    }
    out.push(32u8);
    push_all(&mut out, decimal_digits(at_byte).as_slice());
    push_all(&mut out, ", line ".as_bytes());
    push_all(&mut out, decimal_digits(at_line).as_slice());
    let ghost main = out@;
    if params.print_bytes {
        let w: usize = if to_byte >= 127 { 2 } else { 1 };
        push_all(&mut out, " is ".as_bytes());
        let f = format_octal(from_byte);
        push_all(&mut out, &f);
        out.push(32u8);
        let ghost o1 = out@;
        let n1 = write_visible_byte(&mut out, from_byte);
        push_repeat(&mut out, 32u8, if w > n1 { w - n1 } else { 0 });
        assert(out@ =~= o1 + padded_visible(from_byte, w as int));
        out.push(32u8);
        let t = format_octal(to_byte);
        push_all(&mut out, &t);
        out.push(32u8);
        let ghost o2 = out@;
        let n2 = write_visible_byte(&mut out, to_byte);
        push_repeat(&mut out, 32u8, if w > n2 { w - n2 } else { 0 });
        assert(out@ =~= o2 + padded_visible(to_byte, w as int));
        out.push(10u8);
    } else {
        out.push(10u8);
    }
    Some(out)
}

/// The width of the positions in verbose mode: the digits of the largest
/// position that can be reached, two for zero.
pub open spec fn position_width(n: usize) -> usize {
    if n == 0 { 2 } else { decimal(n as nat).len() as usize }
}

/// The number of bytes of an input of `size` bytes that a comparison reads:
/// those after the first `skip`, at most `limit` of them.
pub open spec fn compared_len(size: u64, skip: Option<usize>, limit: usize) -> int {
    let sk: int = match skip { Some(k) => k as int, None => 0 };
    let rest: int = if sk < size { size - sk } else { 0 };
    if rest < limit { rest } else { limit as int }
}

/// Before comparing: the limit on positions is `max_bytes` (all of a `usize`
/// by default), lowered to the size of the smaller input when both sizes are
/// known. When quiet, inputs whose compared parts (after the skipped bytes,
/// within the limit) have different lengths differ without reading them.
pub open spec fn setup_spec(p: ParamsV, sizes: Option<(u64, u64)>) -> Result<usize, Cmp> {
    let limit = match p.max_bytes { Some(m) => m, None => usize::MAX };
    match sizes {
        Some((a, b)) => if p.quiet && compared_len(a, p.skip_a, limit) != compared_len(b, p.skip_b, limit) {
            Err(Cmp::Different)
        } else {
            let smaller = (if a < b { a } else { b }) as usize;
            Ok(position_width(if smaller < limit { smaller } else { limit }))
        },
        None => Ok(position_width(limit)),
    }
}

fn compared_len_exec(size: u64, skip: Option<usize>, limit: usize) -> (r: u128)
    ensures
        r == compared_len(size, skip, limit),
{
    let sk: u128 = match skip { Some(k) => k as u128, None => 0 };
    let sz = size as u128;
    let rest: u128 = if sk < sz { sz - sk } else { 0 };
    let lim = limit as u128;
    if rest < lim { rest } else { lim }
}

/// Prepares a comparison from the sizes of both inputs, where the system
/// gives them: the width of positions in verbose mode, or the outcome when it
/// is known without reading (see `setup_spec`).
pub fn compare_setup(params: &Params, sizes: Option<(u64, u64)>) -> (r: Result<usize, Cmp>)
    ensures
        r == setup_spec(params@, sizes),
{
    let limit = match params.max_bytes {
        Some(m) => m,
        None => usize::MAX,
    };
    let n = match sizes {
        Some((a, b)) => {
            if params.quiet && compared_len_exec(a, params.skip_a, limit) != compared_len_exec(b, params.skip_b, limit) {
                return Err(Cmp::Different);
            }
            let smaller = (if a < b { a } else { b }) as usize;
            if smaller < limit { smaller } else { limit }
        },
        None => limit,
    };
    if n == 0 {
        Ok(2)
    } else {
        let d = decimal_digits(n);
        Ok(d.len())
    }
}

/// Where a comparison stands: the position of the next byte and its line
/// (both counting from 1), whether the last byte ended a line, and whether a
/// difference has been seen.
#[derive(Clone, Copy, Debug, PartialEq, Eq)]
pub struct CompareState {
    pub at_byte: usize,
    pub at_line: usize,
    pub start_of_line: bool,
    pub compare: Cmp,
}

impl CompareState {
    /// The start of a comparison.
    pub fn new() -> (r: CompareState)
        ensures
            r == (CompareState { at_byte: 1, at_line: 1, start_of_line: true, compare: Cmp::Equal }),
    {
        CompareState { at_byte: 1, at_line: 1, start_of_line: true, compare: Cmp::Equal }
    }
}

/// How the work on a pair of chunks ends: go on with the next chunks (after
/// dropping `consumed` bytes of each input), stop with the outcome so far,
/// report that the first or the second input ended, or report the first
/// difference (with both bytes).
#[derive(Clone, Copy, Debug, PartialEq, Eq)]
pub enum ChunkEnd {
    Continue,
    Finished,
    EndOfFrom,
    EndOfTo,
    Differ(u8, u8),
}

/// The state, the end and the verbose output of the work on a pair of chunks.
pub struct ChunkV {
    pub state: CompareState,
    pub end: ChunkEnd,
    pub out: Seq<u8>,
}

/// Whether `at` lies past the limit `max_bytes`.
pub open spec fn past_limit(at: int, max_bytes: Option<usize>) -> bool {
    match max_bytes {
        Some(m) => at > m,
        None => false,
    }
}

/// Byte after byte from `k` to `n`: a difference is reported at once unless
/// verbose, where its line joins the output; the walk leaves the chunk once
/// the position passes the limit.
pub open spec fn walk_bytes(f: Seq<u8>, t: Seq<u8>, k: int, n: int, st: CompareState, p: ParamsV, width: int, out: Seq<u8>) -> ChunkV
    decreases n - k,
{
    if k >= n || k < 0 {
        ChunkV { state: st, end: ChunkEnd::Continue, out }
    } else if f[k] != t[k] && !p.verbose {
        ChunkV { state: CompareState { compare: Cmp::Different, ..st }, end: ChunkEnd::Differ(f[k], t[k]), out }
    } else {
        let differ = f[k] != t[k];
        let out2 = if differ { out + verbose_line(f[k], t[k], st.at_byte as nat, width, p.print_bytes) } else { out };
        let sol = f[k] == 10;
        let st2 = CompareState {
            at_byte: (st.at_byte + 1) as usize,
            at_line: (if sol { st.at_line + 1 } else { st.at_line as int }) as usize,
            start_of_line: sol,
            compare: if differ { Cmp::Different } else { st.compare },
        };
        if past_limit(st2.at_byte as int, p.max_bytes) {
            ChunkV { state: st2, end: ChunkEnd::Continue, out: out2 }
        } else {
            walk_bytes(f, t, k + 1, n, st2, p, width, out2)
        }
    }
}

/// The work on a pair of chunks that the inputs delivered: both empty ends
/// the comparison; one empty is the end of that input; a common run moves
/// the position and the line count at once; otherwise the bytes are walked.
pub open spec fn chunk_spec(f: Seq<u8>, t: Seq<u8>, st: CompareState, p: ParamsV, width: int) -> ChunkV {
    if f.len() == 0 && t.len() == 0 {
        ChunkV { state: st, end: ChunkEnd::Finished, out: Seq::empty() }
    } else if f.len() == 0 {
        ChunkV { state: st, end: ChunkEnd::EndOfFrom, out: Seq::empty() }
    } else if t.len() == 0 {
        ChunkV { state: st, end: ChunkEnd::EndOfTo, out: Seq::empty() }
    } else {
        let n = if f.len() < t.len() { f.len() as int } else { t.len() as int };
        if f.take(n) == t.take(n) {
            let st2 = CompareState {
                at_byte: (st.at_byte + n) as usize,
                at_line: (st.at_line + count_byte(f.take(n), 10)) as usize,
                start_of_line: f[n - 1] == 10,
                compare: st.compare,
            };
            ChunkV { state: st2, end: if past_limit(st2.at_byte as int, p.max_bytes) { ChunkEnd::Finished } else { ChunkEnd::Continue }, out: Seq::empty() }
        } else {
            walk_bytes(f, t, 0, n, st, p, width, Seq::empty())
        }
    }
}

fn count_newlines(s: &[u8]) -> (r: usize)
    ensures
        r == count_byte(s@, 10u8),
{
    let mut c: usize = 0;
    let mut i: usize = 0;
    assert(s@.take(0) =~= Seq::<u8>::empty());
    while i < s.len()
        invariant
            i <= s.len(),
            c == count_byte(s@.take(i as int), 10u8),
            c <= i,
        decreases s.len() - i,
    {
        assert(s@.take(i + 1).drop_last() =~= s@.take(i as int));
        if s[i] == 10u8 {
            c = c + 1;
        }
        i = i + 1;
    }
    assert(s@.take(i as int) =~= s@);
    c
}

/// Works on a pair of chunks that the inputs delivered, as `chunk_spec`
/// says: updates the state, appends the lines of verbose mode to `output`,
/// and tells how the work ended and how many bytes of each chunk it used.
pub fn compare_chunk(
    state: &mut CompareState,
    from_buf: &[u8],
    to_buf: &[u8],
    params: &Params,
    offset_width: usize,
    output: &mut Vec<u8>,
) -> (r: (ChunkEnd, usize))
    requires
        old(state).at_byte + from_buf@.len() <= usize::MAX,
        old(state).at_line + from_buf@.len() <= usize::MAX,
        !(params.quiet && params.verbose),
    ensures
        *final(state) == chunk_spec(from_buf@, to_buf@, *old(state), params@, offset_width as int).state,
        r.0 == chunk_spec(from_buf@, to_buf@, *old(state), params@, offset_width as int).end,
        final(output)@ == old(output)@ + chunk_spec(from_buf@, to_buf@, *old(state), params@, offset_width as int).out,
        r.1 == if from_buf@.len() < to_buf@.len() { from_buf@.len() } else { to_buf@.len() },
{
    let ghost st0 = *state;
    let ghost o0 = output@;
    let consumed = if from_buf.len() < to_buf.len() { from_buf.len() } else { to_buf.len() };
    if from_buf.len() == 0 && to_buf.len() == 0 {
        return (ChunkEnd::Finished, consumed);
    }
    if from_buf.len() == 0 {
        return (ChunkEnd::EndOfFrom, consumed);
    }
    if to_buf.len() == 0 {
        return (ChunkEnd::EndOfTo, consumed);
    }
    let f: &[u8] = &from_buf[0..consumed];
    let t: &[u8] = &to_buf[0..consumed];
    assert(f@ =~= from_buf@.take(consumed as int));
    assert(t@ =~= to_buf@.take(consumed as int));
    if are_files_identical(f, t) {
        let nl = count_newlines(f);
        proof {
            lemma_count_byte_le(f@, 10u8);
        }
        state.at_byte = state.at_byte + consumed;
        state.at_line = state.at_line + nl;
        state.start_of_line = from_buf[consumed - 1] == 10u8;
        let end = match params.max_bytes {
            Some(m) => if state.at_byte > m { ChunkEnd::Finished } else { ChunkEnd::Continue },
            None => ChunkEnd::Continue,
        };
        assert(output@ =~= o0 + Seq::<u8>::empty());
        return (end, consumed);
    }
    let ghost whole = walk_bytes(from_buf@, to_buf@, 0, consumed as int, st0, params@, offset_width as int, Seq::empty());
    let mut k: usize = 0;
    assert(output@ =~= o0 + Seq::<u8>::empty());
    assert(output@.subrange(o0.len() as int, output@.len() as int) =~= Seq::<u8>::empty());
    assert(output@.subrange(0, o0.len() as int) =~= o0);
    assert(chunk_spec(from_buf@, to_buf@, st0, params@, offset_width as int) == whole);
    while k < consumed
        invariant
            consumed <= from_buf@.len(),
            consumed <= to_buf@.len(),
            k <= consumed,
            state.at_byte == st0.at_byte + k,
            state.at_line <= st0.at_line + k,
            st0.at_byte + from_buf@.len() <= usize::MAX,
            st0.at_line + from_buf@.len() <= usize::MAX,
            !(params.quiet && params.verbose),
            whole == walk_bytes(from_buf@, to_buf@, k as int, consumed as int, *state, params@, offset_width as int, output@.subrange(o0.len() as int, output@.len() as int)),
            whole == chunk_spec(from_buf@, to_buf@, st0, params@, offset_width as int),
            st0 == *old(state),
            o0 == old(output)@,
            consumed == if from_buf@.len() < to_buf@.len() { from_buf@.len() } else { to_buf@.len() },
            output@.len() >= o0.len(),
            output@.subrange(0, o0.len() as int) == o0,
        decreases consumed - k,
    {
        let ghost out_k = output@.subrange(o0.len() as int, output@.len() as int);
        let ghost st_k = *state;
        let fb = from_buf[k];
        let tb = to_buf[k];
        let ghost step = walk_bytes(from_buf@, to_buf@, k as int, consumed as int, st_k, params@, offset_width as int, out_k);
        assert(whole == step);
        if fb != tb {
            state.compare = Cmp::Different;
            if params.verbose {
                let ghost before = output@;
                let _ = format_verbose_difference(fb, tb, state.at_byte, offset_width, output, params);
                assert(output@.subrange(o0.len() as int, output@.len() as int) =~= out_k + verbose_line(fb, tb, (st0.at_byte + k) as nat, offset_width as int, params.print_bytes));
                assert(output@.subrange(0, o0.len() as int) =~= before.subrange(0, o0.len() as int));
            } else {
                assert(output@ =~= o0 + out_k);
                return (ChunkEnd::Differ(fb, tb), consumed);
            }
        }
        state.start_of_line = fb == 10u8;
        if state.start_of_line {
            state.at_line = state.at_line + 1;
        }
        state.at_byte = state.at_byte + 1;
        k = k + 1;
        match params.max_bytes {
            Some(m) => {
                if state.at_byte > m {
                    assert(output@ =~= o0 + output@.subrange(o0.len() as int, output@.len() as int));
                    return (ChunkEnd::Continue, consumed);
                }
            },
            None => {},
        }
    }
    assert(output@ =~= o0 + output@.subrange(o0.len() as int, output@.len() as int));
    (ChunkEnd::Continue, consumed)
}

/// The chunk of `s` that a read hands over when asked for `k` bytes: at
/// least one byte while `s` holds any, and at most all of them.
pub open spec fn chunk_of(s: Seq<u8>, k: nat) -> Seq<u8> {
    if s.len() == 0 {
        s
    } else if k == 0 {
        s.take(1)
    } else if k < s.len() {
        s.take(k as int)
    } else {
        s
    }
}

/// A comparison of the whole inputs `a` and `b` (what follows the skipped
/// bytes), chunk after chunk: the reads hand over the chunks that `sizes`
/// asks for in turn, each pair goes through `chunk_spec`, and after
/// `Continue` the bytes it used are dropped from both inputs. The state and
/// the end of the last chunk; `None` where `sizes` runs out first.
pub open spec fn run_spec(a: Seq<u8>, b: Seq<u8>, st: CompareState, p: ParamsV, width: int, sizes: Seq<(nat, nat)>) -> Option<(CompareState, ChunkEnd)>
    decreases sizes.len(),
{
    if sizes.len() == 0 {
        None
    } else {
        let fa = chunk_of(a, sizes[0].0);
        let fb = chunk_of(b, sizes[0].1);
        let c = chunk_spec(fa, fb, st, p, width);
        if c.end is Continue {
            let n = if fa.len() < fb.len() { fa.len() as int } else { fb.len() as int };
            run_spec(a.skip(n), b.skip(n), c.state, p, width, sizes.drop_first())
        } else {
            Some((c.state, c.end))
        }
    }
}

/// Without a limit, a walk over bytes that hold a difference ends at the
/// first one when not verbose, and otherwise goes on to the end of the chunk
/// with the comparison marked different.
proof fn lemma_walk_differs(f: Seq<u8>, t: Seq<u8>, k: int, n: int, st: CompareState, p: ParamsV, width: int, out: Seq<u8>, d: int)
    requires
        p.max_bytes is None,
        0 <= k <= d < n,
        n <= f.len(),
        n <= t.len(),
        f[d] != t[d],
    ensures
        !p.verbose ==> walk_bytes(f, t, k, n, st, p, width, out).end is Differ,
        p.verbose ==> walk_bytes(f, t, k, n, st, p, width, out).end is Continue,
        p.verbose ==> walk_bytes(f, t, k, n, st, p, width, out).state.compare == Cmp::Different,
    decreases n - k,
{
    if f[k] != t[k] && !p.verbose {
    } else {
        let differ = f[k] != t[k];
        let out2 = if differ { out + verbose_line(f[k], t[k], st.at_byte as nat, width, p.print_bytes) } else { out };
        let sol = f[k] == 10;
        let st2 = CompareState {
            at_byte: (st.at_byte + 1) as usize,
            at_line: (if sol { st.at_line + 1 } else { st.at_line as int }) as usize,
            start_of_line: sol,
            compare: if differ { Cmp::Different } else { st.compare },
        };
        if k == d {
            lemma_walk_keeps_different(f, t, k + 1, n, st2, p, width, out2);
        } else {
            lemma_walk_differs(f, t, k + 1, n, st2, p, width, out2, d);
        }
    }
}

/// Without a limit, a verbose walk that starts out different ends the chunk
/// different.
proof fn lemma_walk_keeps_different(f: Seq<u8>, t: Seq<u8>, k: int, n: int, st: CompareState, p: ParamsV, width: int, out: Seq<u8>)
    requires
        p.max_bytes is None,
        p.verbose,
        st.compare == Cmp::Different,
        0 <= k <= n,
    ensures
        walk_bytes(f, t, k, n, st, p, width, out).end is Continue,
        walk_bytes(f, t, k, n, st, p, width, out).state.compare == Cmp::Different,
    decreases n - k,
{
    if k < n {
        let differ = f[k] != t[k];
        let out2 = if differ { out + verbose_line(f[k], t[k], st.at_byte as nat, width, p.print_bytes) } else { out };
        let sol = f[k] == 10;
        let st2 = CompareState {
            at_byte: (st.at_byte + 1) as usize,
            at_line: (if sol { st.at_line + 1 } else { st.at_line as int }) as usize,
            start_of_line: sol,
            compare: if differ { Cmp::Different } else { st.compare },
        };
        lemma_walk_keeps_different(f, t, k + 1, n, st2, p, width, out2);
    }
}

/// Without a limit on the bytes compared, a comparison of two whole inputs,
/// however the reads cut them into chunks, ends having found both inputs
/// equal (finished, with no difference seen) exactly when they are equal and
/// no difference had been seen before it started. It ends within one more
/// chunk than the first input has bytes.
pub proof fn lemma_whole_run(a: Seq<u8>, b: Seq<u8>, st: CompareState, p: ParamsV, width: int, sizes: Seq<(nat, nat)>)
    requires
        p.max_bytes is None,
        sizes.len() > a.len(),
    ensures
        run_spec(a, b, st, p, width, sizes) is Some,
        (run_spec(a, b, st, p, width, sizes).unwrap().1 == ChunkEnd::Finished
            && run_spec(a, b, st, p, width, sizes).unwrap().0.compare == Cmp::Equal)
            <==> (st.compare == Cmp::Equal && a == b),
    decreases sizes.len(),
{
    let fa = chunk_of(a, sizes[0].0);
    let fb = chunk_of(b, sizes[0].1);
    let c = chunk_spec(fa, fb, st, p, width);
    if a.len() == 0 && b.len() == 0 {
        assert(a =~= b);
    } else if a.len() == 0 || b.len() == 0 {
        assert(a.len() != b.len());
    } else {
        let n = if fa.len() < fb.len() { fa.len() as int } else { fb.len() as int };
        assert(fa.take(n) =~= a.take(n));
        assert(fb.take(n) =~= b.take(n));
        assert(a =~= a.take(n) + a.skip(n));
        assert(b =~= b.take(n) + b.skip(n));
        if fa.take(n) == fb.take(n) {
            lemma_whole_run(a.skip(n), b.skip(n), c.state, p, width, sizes.drop_first());
            if a.skip(n) == b.skip(n) {
                assert(a == b);
            }
            if a == b {
                assert(a.skip(n) =~= b.skip(n));
            }
        } else {
            let d = choose|d: int| 0 <= d < n && fa[d] != fb[d];
            assert(exists|d: int| 0 <= d < n && fa[d] != fb[d]) by {
                if forall|d: int| 0 <= d < n ==> fa[d] == fb[d] {
                    assert(fa.take(n) =~= fb.take(n));
                }
            }
            lemma_walk_differs(fa, fb, 0, n, st, p, width, Seq::empty(), d);
            assert(a[d] != b[d]);
            if p.verbose {
                lemma_whole_run(a.skip(n), b.skip(n), c.state, p, width, sizes.drop_first());
            }
        }
    }
}

} // verus!
