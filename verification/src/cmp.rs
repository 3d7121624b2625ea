//! The cmp utility: the parsing of its arguments, the byte-by-byte
//! comparison of two inputs, and the texts it prints.

use vstd::prelude::*;
use vstd::utf8::encode_utf8;
use crate::diff3::are_files_identical;
use crate::text::to_owned_bytes;
use crate::unicode::{lossy_text, lossy_string};
use crate::lines::lines_of;
use crate::arg_parser::str_eq;

verus! {

/// The settings of a comparison. Names of files are the raw bytes the system
/// gave; `-` stands for the standard input.
#[derive(Clone, Debug, PartialEq, Eq)]
pub struct Params {
    pub executable: Vec<u8>,
    pub from: Vec<u8>,
    pub to: Vec<u8>,
    pub print_bytes: bool,
    pub skip_a: Option<usize>,
    pub skip_b: Option<usize>,
    pub max_bytes: Option<usize>,
    pub verbose: bool,
    pub quiet: bool,
}

/// The settings as values.
pub struct ParamsV {
    pub executable: Seq<u8>,
    pub from: Seq<u8>,
    pub to: Seq<u8>,
    pub print_bytes: bool,
    pub skip_a: Option<usize>,
    pub skip_b: Option<usize>,
    pub max_bytes: Option<usize>,
    pub verbose: bool,
    pub quiet: bool,
}

impl View for Params {
    type V = ParamsV;

    open spec fn view(&self) -> ParamsV {
        ParamsV {
            executable: self.executable@,
            from: self.from@,
            to: self.to@,
            print_bytes: self.print_bytes,
            skip_a: self.skip_a,
            skip_b: self.skip_b,
            max_bytes: self.max_bytes,
            verbose: self.verbose,
            quiet: self.quiet,
        }
    }
}

/// The settings before any option: every flag off, no names.
pub open spec fn default_params() -> ParamsV {
    ParamsV {
        executable: Seq::empty(),
        from: Seq::empty(),
        to: Seq::empty(),
        print_bytes: false,
        skip_a: None,
        skip_b: None,
        max_bytes: None,
        verbose: false,
        quiet: false,
    }
}

impl Default for Params {
    fn default() -> (p: Params)
        ensures
            p@ == default_params(),
    {
        let p = Params {
            executable: Vec::new(),
            from: Vec::new(),
            to: Vec::new(),
            print_bytes: false,
            skip_a: None,
            skip_b: None,
            max_bytes: None,
            verbose: false,
            quiet: false,
        };
        assert(p@.executable =~= Seq::<u8>::empty());
        assert(p@.from =~= Seq::<u8>::empty());
        assert(p@.to =~= Seq::<u8>::empty());
        p
    }
}

/// The outcome of a comparison.
#[derive(Debug, Clone, Copy, PartialEq, Eq, Structural)]
pub enum Cmp {
    Equal,
    Different,
}

/// The bytes of a string literal.
pub open spec fn lit(s: &str) -> Seq<u8> {
    encode_utf8(s@)
}

/// Whether `b` holds exactly the bytes of `s`.
pub fn is_lit(b: &[u8], s: &str) -> (r: bool)
    ensures
        r == (b@ == lit(s)),
{
    are_files_identical(b, s.as_bytes())
}

/// The position of the first byte `c` in `b`, if any.
pub open spec fn first_index(b: Seq<u8>, c: u8) -> Option<int>
    decreases b.len(),
{
    if b.len() == 0 {
        None
    } else if b[0] == c {
        Some(0)
    } else {
        match first_index(b.drop_first(), c) {
            Some(i) => Some(i + 1),
            None => None,
        }
    }
}

proof fn lemma_first_index(b: Seq<u8>, c: u8)
    ensures
        match first_index(b, c) {
            Some(i) => 0 <= i < b.len() && b[i] == c && forall|j: int| 0 <= j < i ==> b[j] != c,
            None => forall|j: int| 0 <= j < b.len() ==> b[j] != c,
        },
    decreases b.len(),
{
    if b.len() > 0 {
        lemma_first_index(b.drop_first(), c);
        if b[0] != c {
            match first_index(b.drop_first(), c) {
                Some(i) => {
                    assert forall|j: int| 0 <= j < i + 1 implies b[j] != c by {
                        if j > 0 {
                            assert(b[j] == b.drop_first()[j - 1]);
                        }
                    }
                },
                None => {
                    assert forall|j: int| 0 <= j < b.len() implies b[j] != c by {
                        if j > 0 {
                            assert(b[j] == b.drop_first()[j - 1]);
                        }
                    }
                },
            }
        }
    }
}

fn find_byte(b: &[u8], c: u8) -> (r: Option<usize>)
    ensures
        match r {
            Some(i) => first_index(b@, c) == Some(i as int),
            None => first_index(b@, c) is None,
        },
{
    proof {
        lemma_first_index(b@, c);
    }
    let mut i: usize = 0;
    while i < b.len()
        invariant
            i <= b.len(),
            forall|j: int| 0 <= j < i ==> b@[j] != c,
            match first_index(b@, c) {
                Some(k) => 0 <= k < b@.len() && b@[k] == c && forall|j: int| 0 <= j < k ==> b@[j] != c,
                None => forall|j: int| 0 <= j < b@.len() ==> b@[j] != c,
            },
        decreases b.len() - i,
    {
        if b[i] == c {
            return Some(i);
        }
        i = i + 1;
    }
    None
}

/// How `str::parse::<usize>` reads a text: a number, a number too large for
/// a `usize`, or no number.
pub enum NumParse {
    Value(usize),
    TooLarge,
    Invalid,
}

pub open spec fn is_digit(b: u8) -> bool {
    48 <= b <= 57
}

/// Reads the digits of `d` after the value `acc`: the first byte that is no
/// digit makes it no number; the first digit that takes the value past
/// `usize::MAX` makes it too large.
pub open spec fn scan_digits(d: Seq<u8>, acc: int) -> NumParse
    decreases d.len(),
{
    if d.len() == 0 {
        NumParse::Value(acc as usize)
    } else if !is_digit(d[0]) {
        NumParse::Invalid
    } else if acc * 10 + (d[0] - 48) > usize::MAX {
        NumParse::TooLarge
    } else {
        scan_digits(d.drop_first(), acc * 10 + (d[0] - 48))
    }
}

/// `str::parse::<usize>`: an optional `+`, then at least one digit.
pub open spec fn parse_usize(s: Seq<u8>) -> NumParse {
    if s.len() == 0 {
        NumParse::Invalid
    } else if s[0] == 43 {
        if s.len() == 1 { NumParse::Invalid } else { scan_digits(s.drop_first(), 0) }
    } else {
        scan_digits(s, 0)
    }
}

/// The value read, saturated at `usize::MAX`; `None` for no number.
pub open spec fn saturated(n: NumParse) -> Option<usize> {
    match n {
        NumParse::Value(v) => Some(v),
        NumParse::TooLarge => Some(usize::MAX),
        NumParse::Invalid => None,
    }
}

fn scan_digits_exec(d: &[u8]) -> (r: NumParse)
    ensures
        r == scan_digits(d@, 0),
{
    let mut acc: usize = 0;
    let mut i: usize = 0;
    assert(d@.skip(0) =~= d@);
    while i < d.len()
        invariant
            i <= d.len(),
            scan_digits(d@.skip(i as int), acc as int) == scan_digits(d@, 0),
        decreases d.len() - i,
    {
        let b = d[i];
        assert(d@.skip(i as int)[0] == b);
        assert(d@.skip(i as int).drop_first() =~= d@.skip(i + 1));
        if b < 48 || b > 57 {
            return NumParse::Invalid;
        }
        let digit = (b - 48) as usize;
        if acc > (usize::MAX - digit) / 10 {
            assert(acc * 10 + digit > usize::MAX) by (nonlinear_arith)
                requires acc > (usize::MAX - digit) / 10, digit <= 9;
            return NumParse::TooLarge;
        }
        assert(acc * 10 + digit <= usize::MAX) by (nonlinear_arith)
            requires acc <= (usize::MAX - digit) / 10, digit <= 9;
        acc = acc * 10 + digit;
        i = i + 1;
    }
    assert(d@.skip(i as int) =~= Seq::<u8>::empty());
    NumParse::Value(acc)
}

/// `str::parse::<usize>` on the bytes of a text.
pub fn parse_number(s: &[u8]) -> (r: NumParse)
    ensures
        r == parse_usize(s@),
{
    if s.len() == 0 {
        NumParse::Invalid
    } else if s[0] == 43u8 {
        if s.len() == 1 {
            NumParse::Invalid
        } else {
            let rest: &[u8] = &s[1..s.len()];
            assert(rest@ =~= s@.drop_first());
            scan_digits_exec(rest)
        }
    } else {
        scan_digits_exec(s)
    }
}

/// A value of the 64-bit table of units, or `usize::MAX` where a `usize` is
/// narrower.
pub open spec fn wide(v: u64) -> usize {
    if v <= usize::MAX { v as usize } else { usize::MAX }
}

fn wide_exec(v: u64) -> (r: usize)
    ensures
        r == wide(v),
{
    if v <= usize::MAX as u64 { v as usize } else { usize::MAX }
}

/// The factor of a unit after a number of bytes to skip; the units beyond
/// exabytes stand for `usize::MAX`.
pub open spec fn skip_unit(u: Seq<u8>) -> Option<usize> {
    if u == lit("kB") { Some(1_000) }
    else if u == lit("K") { Some(1_024) }
    else if u == lit("MB") { Some(1_000_000) }
    else if u == lit("M") { Some(1_048_576) }
    else if u == lit("GB") { Some(1_000_000_000) }
    else if u == lit("G") { Some(1_073_741_824) }
    else if u == lit("TB") { Some(wide(1_000_000_000_000)) }
    else if u == lit("T") { Some(wide(1_099_511_627_776)) }
    else if u == lit("PB") { Some(wide(1_000_000_000_000_000)) }
    else if u == lit("P") { Some(wide(1_125_899_906_842_624)) }
    else if u == lit("EB") { Some(wide(1_000_000_000_000_000_000)) }
    else if u == lit("E") { Some(wide(1_152_921_504_606_846_976)) }
    else if u == lit("ZB") || u == lit("Z") || u == lit("YB") || u == lit("Y") { Some(usize::MAX) }
    else { None }
}

fn skip_unit_exec(u: &[u8]) -> (r: Option<usize>)
    ensures
        r == skip_unit(u@),
{
    if is_lit(u, "kB") { Some(1_000) }
    else if is_lit(u, "K") { Some(1_024) }
    else if is_lit(u, "MB") { Some(1_000_000) }
    else if is_lit(u, "M") { Some(1_048_576) }
    else if is_lit(u, "GB") { Some(1_000_000_000) }
    else if is_lit(u, "G") { Some(1_073_741_824) }
    else if is_lit(u, "TB") { Some(wide_exec(1_000_000_000_000)) }
    else if is_lit(u, "T") { Some(wide_exec(1_099_511_627_776)) }
    else if is_lit(u, "PB") { Some(wide_exec(1_000_000_000_000_000)) }
    else if is_lit(u, "P") { Some(wide_exec(1_125_899_906_842_624)) }
    else if is_lit(u, "EB") { Some(wide_exec(1_000_000_000_000_000_000)) }
    else if is_lit(u, "E") { Some(wide_exec(1_152_921_504_606_846_976)) }
    else if is_lit(u, "ZB") || is_lit(u, "Z") || is_lit(u, "YB") || is_lit(u, "Y") { Some(usize::MAX) }
    else { None }
}

/// The number of leading ASCII digits of `b`.
pub open spec fn digits_len(b: Seq<u8>) -> int
    decreases b.len(),
{
    if b.len() == 0 || !is_digit(b[0]) { 0 } else { 1 + digits_len(b.drop_first()) }
}

proof fn lemma_digits_len(b: Seq<u8>)
    ensures
        0 <= digits_len(b) <= b.len(),
        forall|j: int| 0 <= j < digits_len(b) ==> is_digit(b[j]),
        digits_len(b) < b.len() ==> !is_digit(b[digits_len(b)]),
    decreases b.len(),
{
    if b.len() > 0 && is_digit(b[0]) {
        lemma_digits_len(b.drop_first());
        assert forall|j: int| 0 <= j < digits_len(b) implies is_digit(b[j]) by {
            if j > 0 {
                assert(b[j] == b.drop_first()[j - 1]);
            }
        }
    }
}

/// The product, or `usize::MAX` where it does not fit.
pub open spec fn sat_mul(a: usize, b: usize) -> usize {
    if a * b <= usize::MAX { (a * b) as usize } else { usize::MAX }
}

/// A number of bytes to skip: digits, read as `str::parse` reads them and
/// saturated, then an optional unit multiplied in, saturating. `None` where
/// the digits or the unit are not valid.
pub open spec fn skip_value(b: Seq<u8>) -> Option<usize> {
    let k = digits_len(b);
    match saturated(parse_usize(b.take(k))) {
        None => None,
        Some(n) => if k == b.len() {
            Some(n)
        } else {
            match skip_unit(b.skip(k)) {
                None => None,
                Some(m) => Some(sat_mul(n, m)),
            }
        },
    }
}

/// The text of an invalid number of bytes to skip.
pub open spec fn invalid_skip_text(exe: Seq<char>, desc: Seq<char>) -> Seq<char> {
    exe + ": invalid --ignore-initial value '"@ + desc + "'"@
}

/// Reads a number of bytes to skip, as `skip_value` says.
fn skip_value_exec(b: &[u8]) -> (r: Option<usize>)
    ensures
        r == skip_value(b@),
{
    let ghost bs = b@;
    let mut k: usize = 0;
    proof {
        lemma_digits_len(bs);
    }
    while k < b.len() && 48 <= b[k] && b[k] <= 57
        invariant
            b@ == bs,
            k <= digits_len(bs),
            0 <= digits_len(bs) <= bs.len(),
            forall|j: int| 0 <= j < digits_len(bs) ==> is_digit(bs[j]),
            digits_len(bs) < bs.len() ==> !is_digit(bs[digits_len(bs)]),
        decreases b.len() - k,
    {
        k = k + 1;
    }
    assert(k == digits_len(bs));
    let head: &[u8] = &b[0..k];
    assert(head@ =~= bs.take(k as int));
    let num = match parse_number(head) {
        NumParse::Value(v) => v,
        NumParse::TooLarge => usize::MAX,
        NumParse::Invalid => {
            return None;
        },
    };
    if k == b.len() {
        return Some(num);
    }
    let tail: &[u8] = &b[k..b.len()];
    assert(tail@ =~= bs.skip(k as int));
    match skip_unit_exec(tail) {
        None => None,
        Some(m) => match num.checked_mul(m) {
            Some(v) => Some(v),
            None => Some(usize::MAX),
        },
    }
}

fn invalid_skip_string(exe: &str, desc: &str) -> (r: String)
    ensures
        r@ == invalid_skip_text(exe@, desc@),
{
    String::from_str(exe).concat(": invalid --ignore-initial value '").concat(desc).concat("'")
}

/// The text that `{:?}` gives a string: quoted, with special characters
/// escaped.
pub uninterp spec fn debug_text(s: Seq<char>) -> Seq<char>;

/// Formats a string with `{:?}` (its `Debug` form). Its contract: the result
/// is that form of the string's characters (named `debug_text`).
#[verifier::external_body]
fn debug_string(s: &str) -> (r: String)
    ensures
        r@ == debug_text(s@),
{
    format!("{s:?}")
}

/// The usage line of the program named `exe`.
pub open spec fn usage_text(exe: Seq<char>) -> Seq<char> {
    "Usage: "@ + exe + " <from> <to>"@
}

pub fn usage_string(executable: &str) -> (r: String)
    ensures
        r@ == usage_text(executable@),
{
    String::from_str("Usage: ").concat(executable).concat(" <from> <to>")
}

pub open spec fn starts_with_chars(s: Seq<char>, p: Seq<char>) -> bool {
    s.len() >= p.len() && s.take(p.len() as int) == p
}

/// The state of the reading of the arguments: the settings so far, the two
/// names seen, and the two skips given as operands.
pub struct ScanV {
    pub p: ParamsV,
    pub from: Option<Seq<u8>>,
    pub to: Option<Seq<u8>>,
    pub pos1: Option<usize>,
    pub pos2: Option<usize>,
}

/// What one argument does: the reading goes on at a later argument, stops at
/// `--`, asks for the help text, or fails with a message.
pub enum StepV {
    Next(ScanV, int),
    Stop(ScanV, int),
    Help,
    Fail(Seq<char>),
}

pub open spec fn with_params(st: ScanV, p: ParamsV) -> ScanV {
    ScanV { p, ..st }
}

/// The value of `-n` or `--bytes=`: where it is read from and the index after it.
#[verifier::opaque]
pub open spec fn bytes_step(args: Seq<Seq<u8>>, i: int, st: ScanV) -> StepV {
    let exe = lossy_text(st.p.executable);
    let param = args[i];
    let dash_n = param == lit("-n");
    if dash_n && i >= args.len() - 1 {
        StepV::Fail(usage_text(exe))
    } else {
        let value = if dash_n { lossy_text(args[i + 1]) } else { lossy_text(param).skip(8) };
        let next = if dash_n { i + 2 } else { i + 1 };
        match saturated(parse_usize(encode_utf8(value))) {
            None => StepV::Fail(exe + ": invalid --bytes value '"@ + value + "'"@),
            Some(n) => StepV::Next(with_params(st, ParamsV { max_bytes: Some(n), ..st.p }), next),
        }
    }
}

/// The two skips that the value of `-i` or `--ignore-initial=` gives.
pub open spec fn skip_pair(desc: Seq<char>) -> (Option<usize>, Option<usize>) {
    let db = encode_utf8(desc);
    match first_index(db, 58) {
        Some(c) => (skip_value(db.take(c)), skip_value(db.skip(c + 1))),
        None => (skip_value(db), skip_value(db)),
    }
}

#[verifier::opaque]
pub open spec fn skip_step(args: Seq<Seq<u8>>, i: int, st: ScanV) -> StepV {
    let exe = lossy_text(st.p.executable);
    let param = args[i];
    let dash_i = param == lit("-i");
    if dash_i && i >= args.len() - 1 {
        StepV::Fail(usage_text(exe))
    } else {
        let desc = if dash_i { lossy_text(args[i + 1]) } else { lossy_text(param).skip(17) };
        let next = if dash_i { i + 2 } else { i + 1 };
        let (va, vb) = skip_pair(desc);
        if va is None || vb is None {
            StepV::Fail(invalid_skip_text(exe, desc))
        } else {
            StepV::Next(with_params(st, ParamsV { skip_a: va, skip_b: vb, ..st.p }), next)
        }
    }
}

/// An operand: the first name, the second name, then the two skips.
#[verifier::opaque]
pub open spec fn operand_step(args: Seq<Seq<u8>>, i: int, st: ScanV) -> StepV {
    let exe = lossy_text(st.p.executable);
    let param = args[i];
    let ps = lossy_text(param);
    if st.from is None {
        StepV::Next(ScanV { from: Some(param), ..st }, i + 1)
    } else if st.to is None {
        StepV::Next(ScanV { to: Some(param), ..st }, i + 1)
    } else if st.pos1 is None || st.pos2 is None {
        match skip_value(encode_utf8(ps)) {
            None => StepV::Fail(invalid_skip_text(exe, ps)),
            Some(v) => if st.pos1 is None {
                StepV::Next(ScanV { pos1: Some(v), ..st }, i + 1)
            } else {
                StepV::Next(ScanV { pos2: Some(v), ..st }, i + 1)
            },
        }
    } else {
        StepV::Fail(usage_text(exe))
    }
}

/// What argument `i` does to the reading.
#[verifier::opaque]
pub open spec fn scan_step(args: Seq<Seq<u8>>, i: int, st: ScanV) -> StepV {
    let exe = lossy_text(st.p.executable);
    let param = args[i];
    let ps = lossy_text(param);
    if param == lit("--") {
        StepV::Stop(st, i + 1)
    } else if param == lit("-") {
        if st.from is None {
            StepV::Next(ScanV { from: Some(param), ..st }, i + 1)
        } else if st.to is None {
            StepV::Next(ScanV { to: Some(param), ..st }, i + 1)
        } else {
            StepV::Fail(usage_text(exe))
        }
    } else if param == lit("-b") || param == lit("--print-bytes") {
        StepV::Next(with_params(st, ParamsV { print_bytes: true, ..st.p }), i + 1)
    } else if param == lit("-l") || param == lit("--verbose") {
        StepV::Next(with_params(st, ParamsV { verbose: true, ..st.p }), i + 1)
    } else if param == lit("-lb") || param == lit("-bl") {
        StepV::Next(with_params(st, ParamsV { print_bytes: true, verbose: true, ..st.p }), i + 1)
    } else if param == lit("-n") || starts_with_chars(ps, "--bytes="@) {
        bytes_step(args, i, st)
    } else if param == lit("-i") || starts_with_chars(ps, "--ignore-initial="@) {
        skip_step(args, i, st)
    } else if param == lit("-s") || param == lit("--quiet") || param == lit("--silent") {
        StepV::Next(with_params(st, ParamsV { quiet: true, ..st.p }), i + 1)
    } else if param == lit("--help") {
        StepV::Help
    } else if ps.len() > 0 && ps[0] == '-' {
        StepV::Fail("unrecognized option: "@ + debug_text(ps))
    } else {
        operand_step(args, i, st)
    }
}

/// Where the reading of the options ends: at the end of the arguments or
/// after `--` (with the state and the index of the next argument), at a
/// request for help, or at a failure.
pub enum ScanEnd {
    Done(ScanV, int),
    Help,
    Fail(Seq<char>),
}

pub open spec fn scan_args(args: Seq<Seq<u8>>, i: int, st: ScanV) -> ScanEnd
    decreases args.len() - i,
{
    if i < 0 || i >= args.len() {
        ScanEnd::Done(st, i)
    } else {
        match scan_step(args, i, st) {
            StepV::Next(st2, j) => if j <= i || j > args.len() { ScanEnd::Done(st2, j) } else { scan_args(args, j, st2) },
            StepV::Stop(st2, j) => ScanEnd::Done(st2, j),
            StepV::Help => ScanEnd::Help,
            StepV::Fail(m) => ScanEnd::Fail(m),
        }
    }
}

/// The result of reading the arguments: the settings, a request for the help
/// text (with that text), or a failure (with its message).
pub enum CmpParseV {
    Run(ParamsV),
    Help(Seq<char>),
    Fail(Seq<char>),
}

/// A skip given as an operand after the options, unless one was given by
/// option: the value and the index after it.
pub open spec fn late_skip(args: Seq<Seq<u8>>, i: int, given: Option<usize>, pos: Option<usize>) -> Result<(Option<usize>, int), Seq<char>> {
    if given is Some {
        Ok((given, i))
    } else if pos is Some {
        Ok((pos, i))
    } else if 0 <= i < args.len() {
        let t = lossy_text(args[i]);
        match skip_value(encode_utf8(t)) {
            None => Err(invalid_skip_text(lossy_text(args[0]), t)),
            Some(v) => Ok((Some(v), i + 1)),
        }
    } else {
        Ok((None, i))
    }
}

/// The end of the reading: with the output going nowhere everything is
/// quiet; `-l` and `-s` exclude each other; names and skips still missing
/// are taken from the arguments left (the second name defaults to `-`).
pub open spec fn finish_args(args: Seq<Seq<u8>>, i: int, st: ScanV, devnull: bool) -> CmpParseV {
    let exe = lossy_text(st.p.executable);
    let p0 = if devnull { ParamsV { quiet: true, verbose: false, print_bytes: false, ..st.p } } else { st.p };
    if p0.quiet && p0.verbose {
        CmpParseV::Fail(exe + ": options -l and -s are incompatible"@)
    } else if st.from is None && !(0 <= i < args.len()) {
        CmpParseV::Fail(usage_text(exe))
    } else {
        let from = match st.from { Some(f) => f, None => args[i] };
        let i1 = if st.from is Some { i } else { i + 1 };
        let to = match st.to { Some(t) => t, None => if 0 <= i1 < args.len() { args[i1] } else { lit("-") } };
        let i2 = if st.to is None && 0 <= i1 < args.len() { i1 + 1 } else { i1 };
        match late_skip(args, i2, p0.skip_a, st.pos1) {
            Err(m) => CmpParseV::Fail(m),
            Ok((sa, i3)) => match late_skip(args, i3, p0.skip_b, st.pos2) {
                Err(m) => CmpParseV::Fail(m),
                Ok((sb, _)) => CmpParseV::Run(ParamsV { from, to, skip_a: sa, skip_b: sb, ..p0 }),
            },
        }
    }
}

/// How cmp reads its arguments (the first being the name of the program),
/// given whether its output goes to `/dev/null`.
pub open spec fn read_args(args: Seq<Seq<u8>>, devnull: bool) -> CmpParseV {
    if args.len() == 0 {
        CmpParseV::Fail("Usage: <exe> <from> <to>"@)
    } else {
        let st0 = ScanV { p: ParamsV { executable: args[0], ..default_params() }, from: None, to: None, pos1: None, pos2: None };
        match scan_args(args, 1, st0) {
            ScanEnd::Done(st, i) => finish_args(args, i, st, devnull),
            ScanEnd::Help => CmpParseV::Help(usage_text(lossy_text(args[0]))),
            ScanEnd::Fail(m) => CmpParseV::Fail(m),
        }
    }
}

pub open spec fn opt_bytes(o: Option<Vec<u8>>) -> Option<Seq<u8>> {
    match o {
        Some(v) => Some(v@),
        None => None,
    }
}

/// The state of the reading of the arguments (see `ScanV`).
pub struct CmpScan {
    pub params: Params,
    pub from: Option<Vec<u8>>,
    pub to: Option<Vec<u8>>,
    pub pos1: Option<usize>,
    pub pos2: Option<usize>,
}

impl View for CmpScan {
    type V = ScanV;

    open spec fn view(&self) -> ScanV {
        ScanV { p: self.params@, from: opt_bytes(self.from), to: opt_bytes(self.to), pos1: self.pos1, pos2: self.pos2 }
    }
}

/// What one argument does (see `StepV`).
pub enum Step {
    Next(CmpScan, usize),
    Stop(CmpScan, usize),
    Help,
    Fail(String),
}

pub open spec fn step_view(s: Step) -> StepV {
    match s {
        Step::Next(st, j) => StepV::Next(st@, j as int),
        Step::Stop(st, j) => StepV::Stop(st@, j as int),
        Step::Help => StepV::Help,
        Step::Fail(m) => StepV::Fail(m@),
    }
}

/// Whether the characters of `s` begin with those of `p`.
pub fn starts_with_str(s: &str, p: &str) -> (r: bool)
    ensures
        r == starts_with_chars(s@, p@),
{
    let n = s.unicode_len();
    let k = p.unicode_len();
    if n < k {
        return false;
    }
    let head = s.substring_char(0, k);
    assert(head@ =~= s@.take(k as int));
    str_eq(head, p)
}

fn bytes_step_exec(args: &Vec<Vec<u8>>, i: usize, st: CmpScan, exe: &str, ps: &str) -> (r: Step)
    requires
        i < args.len(),
        exe@ == lossy_text(st.params.executable@),
        ps@ == lossy_text(args@[i as int]@),
        args@[i as int]@ == lit("-n") || starts_with_chars(ps@, "--bytes="@),
    ensures
        step_view(r) == bytes_step(lines_of(args@), i as int, st@),
{
    reveal(bytes_step);
    let ghost a = lines_of(args@);
    let dash_n = is_lit(args[i].as_slice(), "-n");
    if dash_n && i >= args.len() - 1 {
        return Step::Fail(usage_string(exe));
    }
    let value: String = if dash_n {
        lossy_string(args[i + 1].as_slice())
    } else {
        proof {
            reveal_strlit("--bytes=");
        }
        String::from_str(ps.substring_char(8, ps.unicode_len()))
    };
    assert(!dash_n ==> value@ =~= ps@.skip(8));
    let next = if dash_n { i + 2 } else { i + 1 };
    match parse_number(value.as_str().as_bytes()) {
        NumParse::Invalid => Step::Fail(String::from_str(exe).concat(": invalid --bytes value '").concat(value.as_str()).concat("'")),
        NumParse::TooLarge => {
            let mut st = st;
            st.params.max_bytes = Some(usize::MAX);
            Step::Next(st, next)
        },
        NumParse::Value(n) => {
            let mut st = st;
            st.params.max_bytes = Some(n);
            Step::Next(st, next)
        },
    }
}

fn skip_step_exec(args: &Vec<Vec<u8>>, i: usize, st: CmpScan, exe: &str, ps: &str) -> (r: Step)
    requires
        i < args.len(),
        exe@ == lossy_text(st.params.executable@),
        ps@ == lossy_text(args@[i as int]@),
        args@[i as int]@ == lit("-i") || starts_with_chars(ps@, "--ignore-initial="@),
    ensures
        step_view(r) == skip_step(lines_of(args@), i as int, st@),
{
    reveal(skip_step);
    let dash_i = is_lit(args[i].as_slice(), "-i");
    if dash_i && i >= args.len() - 1 {
        return Step::Fail(usage_string(exe));
    }
    let desc: String = if dash_i {
        lossy_string(args[i + 1].as_slice())
    } else {
        proof {
            reveal_strlit("--ignore-initial=");
        }
        String::from_str(ps.substring_char(17, ps.unicode_len()))
    };
    assert(!dash_i ==> desc@ =~= ps@.skip(17));
    let next = if dash_i { i + 2 } else { i + 1 };
    let db = desc.as_str().as_bytes();
    proof {
        lemma_first_index(db@, 58u8);
    }
    let (va, vb) = match find_byte(db, 58u8) {
        Some(c) => {
            assert(first_index(db@, 58u8) == Some(c as int));
            assert(c < db.len());
            let x: &[u8] = &db[0..c];
            let y: &[u8] = &db[c + 1..db.len()];
            assert(x@ =~= db@.take(c as int));
            assert(y@ =~= db@.skip(c + 1));
            (skip_value_exec(x), skip_value_exec(y))
        },
        None => {
            let v = skip_value_exec(db);
            (v, v)
        },
    };
    if va.is_none() || vb.is_none() {
        return Step::Fail(invalid_skip_string(exe, desc.as_str()));
    }
    let mut st = st;
    st.params.skip_a = va;
    st.params.skip_b = vb;
    Step::Next(st, next)
}

fn operand_step_exec(args: &Vec<Vec<u8>>, i: usize, st: CmpScan, exe: &str, ps: &str) -> (r: Step)
    requires
        i < args.len(),
        exe@ == lossy_text(st.params.executable@),
        ps@ == lossy_text(args@[i as int]@),
    ensures
        step_view(r) == operand_step(lines_of(args@), i as int, st@),
{
    reveal(operand_step);
    let mut st = st;
    if st.from.is_none() {
        st.from = Some(to_owned_bytes(args[i].as_slice()));
        return Step::Next(st, i + 1);
    }
    if st.to.is_none() {
        st.to = Some(to_owned_bytes(args[i].as_slice()));
        return Step::Next(st, i + 1);
    }
    if st.pos1.is_none() || st.pos2.is_none() {
        match skip_value_exec(ps.as_bytes()) {
            None => Step::Fail(invalid_skip_string(exe, ps)),
            Some(v) => {
                if st.pos1.is_none() {
                    st.pos1 = Some(v);
                } else {
                    st.pos2 = Some(v);
                }
                Step::Next(st, i + 1)
            },
        }
    } else {
        Step::Fail(usage_string(exe))
    }
}

/// What argument `i` does to the reading, as `scan_step` says.
fn scan_step_exec(args: &Vec<Vec<u8>>, i: usize, st: CmpScan, exe: &str) -> (r: Step)
    requires
        i < args.len(),
        exe@ == lossy_text(st.params.executable@),
    ensures
        step_view(r) == scan_step(lines_of(args@), i as int, st@),
{
    reveal(scan_step);
    let ghost a = lines_of(args@);
    let ghost s0 = st@;
    let param = args[i].as_slice();
    assert(param@ == a[i as int]);
    let ps = lossy_string(param);
    let mut st = st;
    if is_lit(param, "--") {
        return Step::Stop(st, i + 1);
    }
    if is_lit(param, "-") {
        if st.from.is_none() {
            st.from = Some(to_owned_bytes(param));
            return Step::Next(st, i + 1);
        } else if st.to.is_none() {
            st.to = Some(to_owned_bytes(param));
            return Step::Next(st, i + 1);
        } else {
            return Step::Fail(usage_string(exe));
        }
    }
    if is_lit(param, "-b") || is_lit(param, "--print-bytes") {
        st.params.print_bytes = true;
        let r = Step::Next(st, i + 1);
        assert(step_view(r) == scan_step(a, i as int, s0));
        return r;
    }
    if is_lit(param, "-l") || is_lit(param, "--verbose") {
        st.params.verbose = true;
        let r = Step::Next(st, i + 1);
        assert(step_view(r) == scan_step(a, i as int, s0));
        return r;
    }
    if is_lit(param, "-lb") || is_lit(param, "-bl") {
        st.params.print_bytes = true;
        st.params.verbose = true;
        let r = Step::Next(st, i + 1);
        assert(step_view(r) == scan_step(a, i as int, s0));
        return r;
    }
    if is_lit(param, "-n") || starts_with_str(ps.as_str(), "--bytes=") {
        return bytes_step_exec(args, i, st, exe, ps.as_str());
    }
    if is_lit(param, "-i") || starts_with_str(ps.as_str(), "--ignore-initial=") {
        return skip_step_exec(args, i, st, exe, ps.as_str());
    }
    if is_lit(param, "-s") || is_lit(param, "--quiet") || is_lit(param, "--silent") {
        st.params.quiet = true;
        let r = Step::Next(st, i + 1);
        assert(step_view(r) == scan_step(a, i as int, s0));
        return r;
    }
    if is_lit(param, "--help") {
        return Step::Help;
    }
    proof {
        reveal_strlit("-");
        assert("-"@ =~= seq!['-']);
        if ps@.len() > 0 {
            assert(ps@.take(1) =~= seq![ps@[0]]);
        }
    }
    if starts_with_str(ps.as_str(), "-") {
        let r = Step::Fail(String::from_str("unrecognized option: ").concat(debug_string(ps.as_str()).as_str()));
        assert(step_view(r) == scan_step(a, i as int, s0));
        return r;
    }
    let r = operand_step_exec(args, i, st, exe, ps.as_str());
    assert(step_view(r) == scan_step(a, i as int, s0));
    r
}

proof fn lemma_step_advances(args: Seq<Seq<u8>>, i: int, st: ScanV)
    requires
        0 <= i < args.len(),
    ensures
        match scan_step(args, i, st) {
            StepV::Next(st2, j) => i < j <= args.len() && st2.p.executable == st.p.executable,
            StepV::Stop(st2, j) => j == i + 1 && st2.p.executable == st.p.executable,
            _ => true,
        },
{
    reveal(scan_step);
    reveal(bytes_step);
    reveal(skip_step);
    reveal(operand_step);
}

/// The result of reading the arguments (see `CmpParseV`).
pub enum CmpArgs {
    Run(Params),
    Help(String),
    Fail(String),
}

pub open spec fn args_view(r: CmpArgs) -> CmpParseV {
    match r {
        CmpArgs::Run(p) => CmpParseV::Run(p@),
        CmpArgs::Help(t) => CmpParseV::Help(t@),
        CmpArgs::Fail(m) => CmpParseV::Fail(m@),
    }
}

fn late_skip_exec(args: &Vec<Vec<u8>>, i: usize, given: Option<usize>, pos: Option<usize>, exe: &str) -> (r: Result<(Option<usize>, usize), String>)
    requires
        args.len() > 0,
        i <= args.len(),
        exe@ == lossy_text(args@[0]@),
    ensures
        match (r, late_skip(lines_of(args@), i as int, given, pos)) {
            (Ok((v, j)), Ok((w, k))) => v == w && j == k && j <= args.len(),
            (Err(m), Err(n)) => m@ == n,
            _ => false,
        },
{
    if given.is_some() {
        Ok((given, i))
    } else if pos.is_some() {
        Ok((pos, i))
    } else if i < args.len() {
        let t = lossy_string(args[i].as_slice());
        match skip_value_exec(t.as_str().as_bytes()) {
            None => Err(invalid_skip_string(exe, t.as_str())),
            Some(v) => Ok((Some(v), i + 1)),
        }
    } else {
        Ok((None, i))
    }
}

fn finish_args_exec(args: &Vec<Vec<u8>>, i: usize, st: CmpScan, devnull: bool, exe: &str) -> (r: CmpArgs)
    requires
        args.len() > 0,
        i <= args.len(),
        st.params.executable@ == args@[0]@,
        exe@ == lossy_text(args@[0]@),
    ensures
        args_view(r) == finish_args(lines_of(args@), i as int, st@, devnull),
{
    let ghost a = lines_of(args@);
    let CmpScan { params, from, to, pos1, pos2 } = st;
    let mut p = params;
    if devnull {
        p.quiet = true;
        p.verbose = false;
        p.print_bytes = false;
    }
    if p.quiet && p.verbose {
        return CmpArgs::Fail(String::from_str(exe).concat(": options -l and -s are incompatible"));
    }
    let from_is_some = from.is_some();
    let to_is_some = to.is_some();
    if !from_is_some && i >= args.len() {
        return CmpArgs::Fail(usage_string(exe));
    }
    let (from_v, i1) = match from {
        Some(f) => (f, i),
        None => (to_owned_bytes(args[i].as_slice()), i + 1),
    };
    let (to_v, i2) = match to {
        Some(t) => (t, i1),
        None => if i1 < args.len() {
            (to_owned_bytes(args[i1].as_slice()), i1 + 1)
        } else {
            (to_owned_bytes("-".as_bytes()), i1)
        },
    };
    let (sa, i3) = match late_skip_exec(args, i2, p.skip_a, pos1, exe) {
        Err(m) => return CmpArgs::Fail(m),
        Ok(x) => x,
    };
    let (sb, _) = match late_skip_exec(args, i3, p.skip_b, pos2, exe) {
        Err(m) => return CmpArgs::Fail(m),
        Ok(x) => x,
    };
    p.from = from_v;
    p.to = to_v;
    p.skip_a = sa;
    p.skip_b = sb;
    CmpArgs::Run(p)
}

/// Reads the arguments of cmp (the first being the name of the program),
/// given whether its output goes to `/dev/null`: the settings, a request for
/// the help text, or the message of a failure, as `read_args` says.
pub fn parse_args(args: &Vec<Vec<u8>>, stdout_is_dev_null: bool) -> (r: CmpArgs)
    ensures
        args_view(r) == read_args(lines_of(args@), stdout_is_dev_null),
{
    let ghost a = lines_of(args@);
    if args.len() == 0 {
        return CmpArgs::Fail(String::from_str("Usage: <exe> <from> <to>"));
    }
    let exe = lossy_string(args[0].as_slice());
    let mut params = Params::default();
    params.executable = to_owned_bytes(args[0].as_slice());
    let mut st = CmpScan { params, from: None, to: None, pos1: None, pos2: None };
    let ghost st0 = st@;
    assert(st0 == (ScanV { p: ParamsV { executable: a[0], ..default_params() }, from: None, to: None, pos1: None, pos2: None }));
    let mut i: usize = 1;
    let mut done = false;
    while !done && i < args.len()
        invariant
            a == lines_of(args@),
            args.len() > 0,
            1 <= i <= args.len(),
            st.params.executable@ == args@[0]@,
            exe@ == lossy_text(args@[0]@),
            st0 == (ScanV { p: ParamsV { executable: a[0], ..default_params() }, from: None, to: None, pos1: None, pos2: None }),
            done ==> scan_args(a, 1, st0) == ScanEnd::Done(st@, i as int),
            !done ==> scan_args(a, 1, st0) == scan_args(a, i as int, st@),
        decreases args.len() - i,
    {
        proof {
            lemma_step_advances(a, i as int, st@);
        }
        let ghost s_cur = st@;
        let ghost whole = scan_args(a, i as int, s_cur);
        match scan_step_exec(args, i, st, exe.as_str()) {
            Step::Next(st2, j) => {
                st = st2;
                i = j;
            },
            Step::Stop(st2, j) => {
                st = st2;
                i = j;
                done = true;
            },
            Step::Help => {
                assert(whole == ScanEnd::Help);
                return CmpArgs::Help(usage_string(exe.as_str()));
            },
            Step::Fail(m) => {
                assert(whole == ScanEnd::Fail(m@));
                return CmpArgs::Fail(m);
            },
        }
    }
    finish_args_exec(args, i, st, stdout_is_dev_null, exe.as_str())
}

/// The settings that the arguments of cmp give, or the message of the
/// failure to read them, as `read_args` says; for arguments that ask for the
/// help text see `parse_args`.
pub fn parse_params(args: &Vec<Vec<u8>>, stdout_is_dev_null: bool) -> (r: Result<Params, String>)
    requires
        !(read_args(lines_of(args@), stdout_is_dev_null) is Help),
    ensures
        match (r, read_args(lines_of(args@), stdout_is_dev_null)) {
            (Ok(p), CmpParseV::Run(q)) => p@ == q,
            (Err(m), CmpParseV::Fail(n)) => m@ == n,
            _ => false,
        },
{
    match parse_args(args, stdout_is_dev_null) {
        CmpArgs::Run(p) => Ok(p),
        CmpArgs::Fail(m) => Err(m),
        CmpArgs::Help(t) => Err(t),
    }
}

} // verus!
