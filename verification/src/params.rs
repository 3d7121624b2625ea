//! The settings of a two-file diff.

use vstd::prelude::*;
use vstd::utf8::{encode_utf8, valid_utf8};
use crate::cmp::{lit, is_lit, starts_with_str, starts_with_chars, usage_text, usage_string, parse_usize, parse_number, NumParse};
use crate::unicode::{lossy_text, lossy_string, utf8_str};
use crate::lines::lines_of;
use crate::text::to_owned_bytes;

verus! {

/// The output style of a two-file diff.
#[derive(Clone, Copy, Debug, PartialEq, Eq, Structural)]
pub enum Format {
    Normal,
    Unified,
    Context,
    Ed,
    SideBySide,
}

/// The settings of a two-file diff. File names are kept as the raw bytes of the
/// operating system's names.
#[derive(Clone, Debug, PartialEq, Eq)]
pub struct Params {
    pub executable: Vec<u8>,
    pub from: Vec<u8>,
    pub to: Vec<u8>,
    pub format: Format,
    pub context_count: usize,
    pub report_identical_files: bool,
    pub brief: bool,
    pub expand_tabs: bool,
    pub tabsize: usize,
    pub width: usize,
}

impl Params {
    /// The defaults: normal format, 3 lines of context, tabs of 8 columns, a
    /// width of 130 columns, and no names.
    pub fn new() -> (p: Params)
        ensures
            p.executable@.len() == 0,
            p.from@.len() == 0,
            p.to@.len() == 0,
            p.format == Format::Normal,
            p.context_count == 3,
            !p.report_identical_files,
            !p.brief,
            !p.expand_tabs,
            p.tabsize == 8,
            p.width == 130,
    {
        Params {
            executable: Vec::new(),
            from: Vec::new(),
            to: Vec::new(),
            format: Format::Normal,
            context_count: 3,
            report_identical_files: false,
            brief: false,
            expand_tabs: false,
            tabsize: 8,
            width: 130,
        }
    }
}

impl Default for Params {
    fn default() -> (p: Params)
        ensures
            p.format == Format::Normal,
            p.context_count == 3,
            !p.brief,
            !p.expand_tabs,
            p.tabsize == 8,
            p.width == 130,
    {
        Params::new()
    }
}

/// The settings as values.
pub struct ParamsV {
    pub executable: Seq<u8>,
    pub from: Seq<u8>,
    pub to: Seq<u8>,
    pub format: Format,
    pub context_count: usize,
    pub report_identical_files: bool,
    pub brief: bool,
    pub expand_tabs: bool,
    pub tabsize: usize,
    pub width: usize,
}

impl View for Params {
    type V = ParamsV;

    open spec fn view(&self) -> ParamsV {
        ParamsV {
            executable: self.executable@,
            from: self.from@,
            to: self.to@,
            format: self.format,
            context_count: self.context_count,
            report_identical_files: self.report_identical_files,
            brief: self.brief,
            expand_tabs: self.expand_tabs,
            tabsize: self.tabsize,
            width: self.width,
        }
    }
}

/// The pattern of `--width=NUM` (not tied to the start of the argument).
pub const WIDTH_PATTERN: &'static str = r"--width=(?P<long>\d+)$";
/// The pattern of `--tabsize=NUM`.
pub const TABSIZE_PATTERN: &'static str = r"^--tabsize=(?<num>\d+)$";
/// The patterns of the options of the context format: `-c`, `-CNUM`,
/// `--context[=NUM]`, `-NUMc`.
pub const CONTEXT_PATTERN: &'static str = r"^(-[cC](?<num1>\d*)|--context(=(?<num2>\d*))?|-(?<num3>\d+)c)$";
/// The patterns of the options of the unified format: `-u`, `-UNUM`,
/// `--unified[=NUM]`, `-NUMu`.
pub const UNIFIED_PATTERN: &'static str = r"^(-[uU](?<num1>\d*)|--unified(=(?<num2>\d*))?|-(?<num3>\d+)u)$";

pub open spec fn is_option_pattern(p: Seq<char>) -> bool {
    p == WIDTH_PATTERN@ || p == TABSIZE_PATTERN@ || p == CONTEXT_PATTERN@ || p == UNIFIED_PATTERN@
}

/// What the `regex` crate finds when it matches `pattern` against `text`:
/// no match, or a match and the text of the group named `group` if it took
/// part in it.
pub uninterp spec fn regex_capture(pattern: Seq<char>, text: Seq<char>, group: Seq<char>) -> Option<Option<Seq<char>>>;

pub open spec fn capture_view(r: Option<Option<String>>) -> Option<Option<Seq<char>>> {
    match r {
        None => None,
        Some(None) => Some(None),
        Some(Some(s)) => Some(Some(s@)),
    }
}

/// Compiles `pattern` with `regex::Regex::new`, matches it against `text`
/// with `Regex::captures`, and takes the group named `group` with
/// `Captures::name`. Its contract: the result is the crate's answer (named
/// `regex_capture`). The patterns admitted are the constants of this module,
/// which compile.
#[verifier::external_body]
fn capture_group(pattern: &str, text: &str, group: &str) -> (r: Option<Option<String>>)
    requires
        is_option_pattern(pattern@),
    ensures
        capture_view(r) == regex_capture(pattern@, text@, group@),
{
    match regex::Regex::new(pattern).unwrap().captures(text) {
        None => None,
        Some(c) => match c.name(group) {
            None => Some(None),
            Some(m) => Some(Some(m.as_str().to_string())),
        },
    }
}

/// The state of the reading of the arguments: the settings so far, the names
/// seen, the output style chosen and the number of context lines given.
pub struct DiffScanV {
    pub p: ParamsV,
    pub from: Option<Seq<u8>>,
    pub to: Option<Seq<u8>>,
    pub format: Option<Format>,
    pub context: Option<usize>,
}

/// What one argument does: the reading goes on at a later argument, stops at
/// `--`, fails with a message, or reaches a point where the reading panics.
pub enum DiffStepV {
    Next(DiffScanV, int),
    Stop(DiffScanV, int),
    Fail(Seq<char>),
    Panic,
}

pub open spec fn with_p(st: DiffScanV, p: ParamsV) -> DiffScanV {
    DiffScanV { p, ..st }
}

/// Whether choosing style `f` conflicts with the style chosen so far.
pub open spec fn conflicts(cur: Option<Format>, f: Format) -> bool {
    cur is Some && cur != Some(f)
}

/// `--width=NUM`: a positive number; an argument that is not UTF-8 panics.
#[verifier::opaque]
pub open spec fn width_step(args: Seq<Seq<u8>>, i: int, st: DiffScanV) -> DiffStepV {
    let ps = lossy_text(args[i]);
    if !valid_utf8(args[i]) {
        DiffStepV::Panic
    } else {
        match regex_capture(WIDTH_PATTERN@, ps, "long"@) {
            Some(Some(ws)) => match parse_usize(encode_utf8(ws)) {
                NumParse::Value(n) => if n == 0 {
                    DiffStepV::Fail("invalid width «0»"@)
                } else {
                    DiffStepV::Next(with_p(st, ParamsV { width: n, ..st.p }), i + 1)
                },
                _ => DiffStepV::Fail("invalid width «"@ + ws + "»"@),
            },
            _ => DiffStepV::Panic,
        }
    }
}

/// `--tabsize=NUM`: a positive number; an argument that is not UTF-8 panics.
#[verifier::opaque]
pub open spec fn tabsize_step(args: Seq<Seq<u8>>, i: int, st: DiffScanV) -> DiffStepV {
    let ps = lossy_text(args[i]);
    if !valid_utf8(args[i]) {
        DiffStepV::Panic
    } else {
        match regex_capture(TABSIZE_PATTERN@, ps, "num"@) {
            Some(Some(ts)) => match parse_usize(encode_utf8(ts)) {
                NumParse::Value(n) => if n == 0 {
                    DiffStepV::Fail("invalid tabsize «0»"@)
                } else {
                    DiffStepV::Next(with_p(st, ParamsV { tabsize: n, ..st.p }), i + 1)
                },
                _ => DiffStepV::Fail("invalid tabsize «"@ + ts + "»"@),
            },
            _ => DiffStepV::Panic,
        }
    }
}

/// The first group of a style option's pattern that took part in the match.
pub open spec fn first_group(c1: Option<Option<Seq<char>>>, c2: Option<Option<Seq<char>>>, c3: Option<Option<Seq<char>>>) -> Option<Seq<char>> {
    match c1 {
        Some(Some(s)) => Some(s),
        _ => match c2 {
            Some(Some(s)) => Some(s),
            _ => match c3 {
                Some(Some(s)) => Some(s),
                _ => None,
            },
        },
    }
}

/// An option of the context (or unified) style: the style must not conflict
/// with one chosen before; a number in the option gives the context lines (one
/// too large for a `usize` panics), and after `-C` (or `-U`) the next argument
/// does, if there is one.
#[verifier::opaque]
pub open spec fn style_step(args: Seq<Seq<u8>>, i: int, st: DiffScanV, style: Format, pattern: Seq<char>, upper: Seq<u8>) -> DiffStepV {
    let ps = lossy_text(args[i]);
    if conflicts(st.format, style) {
        DiffStepV::Fail("Conflicting output style options"@)
    } else if !valid_utf8(args[i]) {
        DiffStepV::Panic
    } else {
        let num = first_group(regex_capture(pattern, ps, "num1"@), regex_capture(pattern, ps, "num2"@), regex_capture(pattern, ps, "num3"@));
        let bad_num = match num {
            Some(s) => s.len() > 0 && !(parse_usize(encode_utf8(s)) is Value),
            None => false,
        };
        let count = match num {
            Some(s) => if s.len() > 0 {
                match parse_usize(encode_utf8(s)) {
                    NumParse::Value(v) => Some(v),
                    _ => None,
                }
            } else {
                None
            },
            None => None,
        };
        if bad_num {
            DiffStepV::Panic
        } else if args[i] == upper && i + 1 < args.len() {
            let size_str = lossy_text(args[i + 1]);
            match parse_usize(encode_utf8(size_str)) {
                NumParse::Value(v) => DiffStepV::Next(DiffScanV { format: Some(style), context: Some(v), ..st }, i + 2),
                _ => DiffStepV::Fail("invalid context length '"@ + size_str + "'"@),
            }
        } else {
            DiffStepV::Next(DiffScanV { format: Some(style), context: if count is Some { count } else { st.context }, ..st }, i + 1)
        }
    }
}

/// An operand: the first name, then the second; a third is an error.
pub open spec fn diff_operand(args: Seq<Seq<u8>>, i: int, st: DiffScanV) -> DiffStepV {
    if st.from is None {
        DiffStepV::Next(DiffScanV { from: Some(args[i]), ..st }, i + 1)
    } else if st.to is None {
        DiffStepV::Next(DiffScanV { to: Some(args[i]), ..st }, i + 1)
    } else {
        DiffStepV::Fail(usage_text(lossy_text(st.p.executable)))
    }
}

/// A choice of one of the styles without context lines.
pub open spec fn plain_style(i: int, st: DiffScanV, f: Format, message: Seq<char>) -> DiffStepV {
    if conflicts(st.format, f) {
        DiffStepV::Fail(message)
    } else {
        DiffStepV::Next(DiffScanV { format: Some(f), ..st }, i + 1)
    }
}

/// What argument `i` does to the reading of the arguments of diff.
#[verifier::opaque]
pub open spec fn diff_step(args: Seq<Seq<u8>>, i: int, st: DiffScanV) -> DiffStepV {
    let param = args[i];
    let ps = lossy_text(param);
    if param == lit("--") {
        DiffStepV::Stop(st, i + 1)
    } else if param == lit("-") {
        diff_operand(args, i, st)
    } else if param == lit("-s") || param == lit("--report-identical-files") {
        DiffStepV::Next(with_p(st, ParamsV { report_identical_files: true, ..st.p }), i + 1)
    } else if param == lit("-q") || param == lit("--brief") {
        DiffStepV::Next(with_p(st, ParamsV { brief: true, ..st.p }), i + 1)
    } else if param == lit("-t") || param == lit("--expand-tabs") {
        DiffStepV::Next(with_p(st, ParamsV { expand_tabs: true, ..st.p }), i + 1)
    } else if param == lit("--normal") {
        plain_style(i, st, Format::Normal, "Conflicting output style options"@)
    } else if param == lit("-e") || param == lit("--ed") {
        plain_style(i, st, Format::Ed, "Conflicting output style options"@)
    } else if param == lit("-y") || param == lit("--side-by-side") {
        plain_style(i, st, Format::SideBySide, "Conflicting output style option"@)
    } else if regex_capture(WIDTH_PATTERN@, ps, "long"@) is Some {
        width_step(args, i, st)
    } else if regex_capture(TABSIZE_PATTERN@, ps, "num"@) is Some {
        tabsize_step(args, i, st)
    } else if regex_capture(CONTEXT_PATTERN@, ps, "num1"@) is Some {
        style_step(args, i, st, Format::Context, CONTEXT_PATTERN@, lit("-C"))
    } else if regex_capture(UNIFIED_PATTERN@, ps, "num1"@) is Some {
        style_step(args, i, st, Format::Unified, UNIFIED_PATTERN@, lit("-U"))
    } else if ps.len() > 0 && ps[0] == '-' {
        DiffStepV::Fail("unrecognized option '"@ + ps + "'"@)
    } else {
        diff_operand(args, i, st)
    }
}

/// Where the reading of the options ends (see `DiffStepV`).
pub enum DiffScanEnd {
    Done(DiffScanV, int),
    Fail(Seq<char>),
    Panic,
}

pub open spec fn diff_scan(args: Seq<Seq<u8>>, i: int, st: DiffScanV) -> DiffScanEnd
    decreases args.len() - i,
{
    if i < 0 || i >= args.len() {
        DiffScanEnd::Done(st, i)
    } else {
        match diff_step(args, i, st) {
            DiffStepV::Next(st2, j) => if j <= i || j > args.len() { DiffScanEnd::Done(st2, j) } else { diff_scan(args, j, st2) },
            DiffStepV::Stop(st2, j) => DiffScanEnd::Done(st2, j),
            DiffStepV::Fail(m) => DiffScanEnd::Fail(m),
            DiffStepV::Panic => DiffScanEnd::Panic,
        }
    }
}

/// The result of reading the arguments of diff.
pub enum DiffArgsV {
    Run(ParamsV),
    Fail(Seq<char>),
    Panic,
}

/// The end of the reading: the names still missing are taken from the
/// arguments left, the style defaults to the normal one and the context
/// lines to three.
pub open spec fn diff_finish(args: Seq<Seq<u8>>, i: int, st: DiffScanV) -> DiffArgsV {
    let usage = usage_text(lossy_text(st.p.executable));
    let i1 = if st.from is Some { i } else { i + 1 };
    if st.from is None && !(0 <= i < args.len()) {
        DiffArgsV::Fail(usage)
    } else if st.to is None && !(0 <= i1 < args.len()) {
        DiffArgsV::Fail(usage)
    } else {
        let from = match st.from { Some(f) => f, None => args[i] };
        let to = match st.to { Some(t) => t, None => args[i1] };
        DiffArgsV::Run(ParamsV {
            from,
            to,
            format: match st.format { Some(f) => f, None => Format::Normal },
            context_count: match st.context { Some(c) => c, None => st.p.context_count },
            ..st.p
        })
    }
}

/// The defaults of `Params::new`.
pub open spec fn default_diff_params(executable: Seq<u8>) -> ParamsV {
    ParamsV {
        executable,
        from: Seq::empty(),
        to: Seq::empty(),
        format: Format::Normal,
        context_count: 3,
        report_identical_files: false,
        brief: false,
        expand_tabs: false,
        tabsize: 8,
        width: 130,
    }
}

/// How diff reads its arguments, the first being the name of the program.
/// Which of two names is a directory is left to the caller.
pub open spec fn diff_args(args: Seq<Seq<u8>>) -> DiffArgsV {
    if args.len() == 0 {
        DiffArgsV::Fail("Usage: <exe> <from> <to>"@)
    } else {
        let st0 = DiffScanV { p: default_diff_params(args[0]), from: None, to: None, format: None, context: None };
        match diff_scan(args, 1, st0) {
            DiffScanEnd::Done(st, i) => diff_finish(args, i, st),
            DiffScanEnd::Fail(m) => DiffArgsV::Fail(m),
            DiffScanEnd::Panic => DiffArgsV::Panic,
        }
    }
}

pub open spec fn opt_seq(o: Option<Vec<u8>>) -> Option<Seq<u8>> {
    match o {
        Some(v) => Some(v@),
        None => None,
    }
}

/// The state of the reading of the arguments (see `DiffScanV`).
pub struct DiffScan {
    pub params: Params,
    pub from: Option<Vec<u8>>,
    pub to: Option<Vec<u8>>,
    pub format: Option<Format>,
    pub context: Option<usize>,
}

impl View for DiffScan {
    type V = DiffScanV;

    open spec fn view(&self) -> DiffScanV {
        DiffScanV { p: self.params@, from: opt_seq(self.from), to: opt_seq(self.to), format: self.format, context: self.context }
    }
}

/// What one argument does (see `DiffStepV`).
pub enum DiffStep {
    Next(DiffScan, usize),
    Stop(DiffScan, usize),
    Fail(String),
    Panic,
}

pub open spec fn dstep_view(s: DiffStep) -> DiffStepV {
    match s {
        DiffStep::Next(st, j) => DiffStepV::Next(st@, j as int),
        DiffStep::Stop(st, j) => DiffStepV::Stop(st@, j as int),
        DiffStep::Fail(m) => DiffStepV::Fail(m@),
        DiffStep::Panic => DiffStepV::Panic,
    }
}

fn number_step(args: &Vec<Vec<u8>>, i: usize, st: DiffScan, cap: Option<Option<String>>, is_width: bool) -> (r: DiffStep)
    requires
        i < args.len(),
        is_width ==> capture_view(cap) == regex_capture(WIDTH_PATTERN@, lossy_text(args@[i as int]@), "long"@),
        !is_width ==> capture_view(cap) == regex_capture(TABSIZE_PATTERN@, lossy_text(args@[i as int]@), "num"@),
    ensures
        is_width ==> dstep_view(r) == width_step(lines_of(args@), i as int, st@),
        !is_width ==> dstep_view(r) == tabsize_step(lines_of(args@), i as int, st@),
{
    reveal(width_step);
    reveal(tabsize_step);
    let ghost a = lines_of(args@);
    assert(a[i as int] == args@[i as int]@);
    if utf8_str(args[i].as_slice()).is_none() {
        return DiffStep::Panic;
    }
    match cap {
        Some(Some(ns)) => match parse_number(ns.as_str().as_bytes()) {
            NumParse::Value(n) => {
                if n == 0 {
                    if is_width {
                        DiffStep::Fail(String::from_str("invalid width «0»"))
                    } else {
                        DiffStep::Fail(String::from_str("invalid tabsize «0»"))
                    }
                } else {
                    let mut st = st;
                    if is_width {
                        st.params.width = n;
                    } else {
                        st.params.tabsize = n;
                    }
                    DiffStep::Next(st, i + 1)
                }
            },
            _ => {
                if is_width {
                    DiffStep::Fail(String::from_str("invalid width «").concat(ns.as_str()).concat("»"))
                } else {
                    DiffStep::Fail(String::from_str("invalid tabsize «").concat(ns.as_str()).concat("»"))
                }
            },
        },
        _ => DiffStep::Panic,
    }
}

fn style_step_exec(args: &Vec<Vec<u8>>, i: usize, st: DiffScan, ps: &str, style: Format, pattern: &str, upper: &str) -> (r: DiffStep)
    requires
        i < args.len(),
        ps@ == lossy_text(args@[i as int]@),
        pattern@ == CONTEXT_PATTERN@ || pattern@ == UNIFIED_PATTERN@,
    ensures
        dstep_view(r) == style_step(lines_of(args@), i as int, st@, style, pattern@, lit(upper)),
{
    reveal(style_step);
    let ghost a = lines_of(args@);
    assert(a[i as int] == args@[i as int]@);
    if st.format.is_some() && st.format != Some(style) {
        return DiffStep::Fail(String::from_str("Conflicting output style options"));
    }
    if utf8_str(args[i].as_slice()).is_none() {
        return DiffStep::Panic;
    }
    let c1 = capture_group(pattern, ps, "num1");
    let c2 = capture_group(pattern, ps, "num2");
    let c3 = capture_group(pattern, ps, "num3");
    let num: Option<String> = match c1 {
        Some(Some(x)) => Some(x),
        _ => match c2 {
            Some(Some(x)) => Some(x),
            _ => match c3 {
                Some(Some(x)) => Some(x),
                _ => None,
            },
        },
    };
    assert(match num { Some(x) => first_group(capture_view(c1), capture_view(c2), capture_view(c3)) == Some(x@), None => first_group(capture_view(c1), capture_view(c2), capture_view(c3)) is None });
    let mut count: Option<usize> = None;
    match &num {
        Some(x) => {
            if x.as_str().unicode_len() > 0 {
                match parse_number(x.as_str().as_bytes()) {
                    NumParse::Value(v) => {
                        count = Some(v);
                    },
                    _ => {
                        return DiffStep::Panic;
                    },
                }
            }
        },
        None => {},
    }
    let mut st = st;
    if is_lit(args[i].as_slice(), upper) && i < args.len() - 1 {
        let size_str = lossy_string(args[i + 1].as_slice());
        match parse_number(size_str.as_str().as_bytes()) {
            NumParse::Value(v) => {
                st.format = Some(style);
                st.context = Some(v);
                DiffStep::Next(st, i + 2)
            },
            _ => DiffStep::Fail(String::from_str("invalid context length '").concat(size_str.as_str()).concat("'")),
        }
    } else {
        st.format = Some(style);
        if count.is_some() {
            st.context = count;
        }
        DiffStep::Next(st, i + 1)
    }
}

fn diff_operand_exec(args: &Vec<Vec<u8>>, i: usize, st: DiffScan, exe: &str) -> (r: DiffStep)
    requires
        i < args.len(),
        exe@ == lossy_text(st.params.executable@),
    ensures
        dstep_view(r) == diff_operand(lines_of(args@), i as int, st@),
{
    let ghost a = lines_of(args@);
    assert(a[i as int] == args@[i as int]@);
    let mut st = st;
    if st.from.is_none() {
        st.from = Some(to_owned_bytes(args[i].as_slice()));
        DiffStep::Next(st, i + 1)
    } else if st.to.is_none() {
        st.to = Some(to_owned_bytes(args[i].as_slice()));
        DiffStep::Next(st, i + 1)
    } else {
        DiffStep::Fail(usage_string(exe))
    }
}

fn plain_style_exec(i: usize, st: DiffScan, f: Format, message: &str) -> (r: DiffStep)
    requires
        i < usize::MAX,
    ensures
        dstep_view(r) == plain_style(i as int, st@, f, message@),
{
    if st.format.is_some() && st.format != Some(f) {
        DiffStep::Fail(String::from_str(message))
    } else {
        let mut st = st;
        st.format = Some(f);
        DiffStep::Next(st, i + 1)
    }
}

/// What argument `i` does to the reading, as `diff_step` says.
fn diff_step_exec(args: &Vec<Vec<u8>>, i: usize, st: DiffScan, exe: &str) -> (r: DiffStep)
    requires
        i < args.len(),
        exe@ == lossy_text(st.params.executable@),
    ensures
        dstep_view(r) == diff_step(lines_of(args@), i as int, st@),
{
    reveal(diff_step);
    let ghost a = lines_of(args@);
    let ghost s0 = st@;
    let param = args[i].as_slice();
    assert(param@ == a[i as int]);
    let mut st = st;
    if is_lit(param, "--") {
        return DiffStep::Stop(st, i + 1);
    }
    if is_lit(param, "-") {
        return diff_operand_exec(args, i, st, exe);
    }
    if is_lit(param, "-s") || is_lit(param, "--report-identical-files") {
        st.params.report_identical_files = true;
        let r = DiffStep::Next(st, i + 1);
        assert(dstep_view(r) == diff_step(a, i as int, s0));
        return r;
    }
    if is_lit(param, "-q") || is_lit(param, "--brief") {
        st.params.brief = true;
        let r = DiffStep::Next(st, i + 1);
        assert(dstep_view(r) == diff_step(a, i as int, s0));
        return r;
    }
    if is_lit(param, "-t") || is_lit(param, "--expand-tabs") {
        st.params.expand_tabs = true;
        let r = DiffStep::Next(st, i + 1);
        assert(dstep_view(r) == diff_step(a, i as int, s0));
        return r;
    }
    if is_lit(param, "--normal") {
        return plain_style_exec(i, st, Format::Normal, "Conflicting output style options");
    }
    if is_lit(param, "-e") || is_lit(param, "--ed") {
        return plain_style_exec(i, st, Format::Ed, "Conflicting output style options");
    }
    if is_lit(param, "-y") || is_lit(param, "--side-by-side") {
        return plain_style_exec(i, st, Format::SideBySide, "Conflicting output style option");
    }
    let ps = lossy_string(param);
    let wc = capture_group(WIDTH_PATTERN, ps.as_str(), "long");
    if wc.is_some() {
        return number_step(args, i, st, wc, true);
    }
    let tc = capture_group(TABSIZE_PATTERN, ps.as_str(), "num");
    if tc.is_some() {
        return number_step(args, i, st, tc, false);
    }
    if capture_group(CONTEXT_PATTERN, ps.as_str(), "num1").is_some() {
        return style_step_exec(args, i, st, ps.as_str(), Format::Context, CONTEXT_PATTERN, "-C");
    }
    if capture_group(UNIFIED_PATTERN, ps.as_str(), "num1").is_some() {
        return style_step_exec(args, i, st, ps.as_str(), Format::Unified, UNIFIED_PATTERN, "-U");
    }
    proof {
        reveal_strlit("-");
        assert("-"@ =~= seq!['-']);
        if ps@.len() > 0 {
            assert(ps@.take(1) =~= seq![ps@[0]]);
        }
    }
    if starts_with_str(ps.as_str(), "-") {
        let r = DiffStep::Fail(String::from_str("unrecognized option '").concat(ps.as_str()).concat("'"));
        assert(dstep_view(r) == diff_step(a, i as int, s0));
        return r;
    }
    let r = diff_operand_exec(args, i, st, exe);
    assert(dstep_view(r) == diff_step(a, i as int, s0));
    r
}

proof fn lemma_diff_step_advances(args: Seq<Seq<u8>>, i: int, st: DiffScanV)
    requires
        0 <= i < args.len(),
    ensures
        match diff_step(args, i, st) {
            DiffStepV::Next(st2, j) => i < j <= args.len() && st2.p.executable == st.p.executable,
            DiffStepV::Stop(st2, j) => j == i + 1 && st2.p.executable == st.p.executable,
            _ => true,
        },
{
    reveal(diff_step);
    reveal(width_step);
    reveal(tabsize_step);
    reveal(style_step);
}

/// The result of reading the arguments of diff (see `DiffArgsV`).
pub enum DiffArgs {
    Run(Params),
    Fail(String),
    Panic,
}

pub open spec fn diff_args_view(r: DiffArgs) -> DiffArgsV {
    match r {
        DiffArgs::Run(p) => DiffArgsV::Run(p@),
        DiffArgs::Fail(m) => DiffArgsV::Fail(m@),
        DiffArgs::Panic => DiffArgsV::Panic,
    }
}

fn diff_finish_exec(args: &Vec<Vec<u8>>, i: usize, st: DiffScan, exe: &str) -> (r: DiffArgs)
    requires
        i <= args.len(),
        exe@ == lossy_text(st.params.executable@),
    ensures
        diff_args_view(r) == diff_finish(lines_of(args@), i as int, st@),
{
    let ghost a = lines_of(args@);
    let DiffScan { params, from, to, format, context } = st;
    let from_is_some = from.is_some();
    if !from_is_some && i >= args.len() {
        return DiffArgs::Fail(usage_string(exe));
    }
    let i1 = if from_is_some { i } else { i + 1 };
    if to.is_none() && i1 >= args.len() {
        return DiffArgs::Fail(usage_string(exe));
    }
    let mut p = params;
    p.from = match from {
        Some(f) => f,
        None => to_owned_bytes(args[i].as_slice()),
    };
    p.to = match to {
        Some(t) => t,
        None => to_owned_bytes(args[i1].as_slice()),
    };
    p.format = match format {
        Some(f) => f,
        None => Format::Normal,
    };
    match context {
        Some(c) => {
            p.context_count = c;
        },
        None => {},
    }
    DiffArgs::Run(p)
}

/// Reads the arguments of diff (the first being the name of the program),
/// as `diff_args` says: the settings, the message of a failure, or `Panic`
/// where the reading cannot go on (an argument that matches an option but is
/// not UTF-8, or a number of context lines too large for a `usize`).
pub fn read_params(args: &Vec<Vec<u8>>) -> (r: DiffArgs)
    ensures
        diff_args_view(r) == diff_args(lines_of(args@)),
{
    let ghost a = lines_of(args@);
    if args.len() == 0 {
        return DiffArgs::Fail(String::from_str("Usage: <exe> <from> <to>"));
    }
    let exe = lossy_string(args[0].as_slice());
    let mut params = Params::new();
    params.executable = to_owned_bytes(args[0].as_slice());
    let mut st = DiffScan { params, from: None, to: None, format: None, context: None };
    let ghost st0 = st@;
    assert(st.params.from@ =~= Seq::<u8>::empty());
    assert(st.params.to@ =~= Seq::<u8>::empty());
    assert(st0.p == default_diff_params(a[0]));
    let mut i: usize = 1;
    let mut done = false;
    while !done && i < args.len()
        invariant
            a == lines_of(args@),
            args.len() > 0,
            1 <= i <= args.len(),
            st.params.executable@ == args@[0]@,
            exe@ == lossy_text(args@[0]@),
            st0 == (DiffScanV { p: default_diff_params(a[0]), from: None, to: None, format: None, context: None }),
            done ==> diff_scan(a, 1, st0) == DiffScanEnd::Done(st@, i as int),
            !done ==> diff_scan(a, 1, st0) == diff_scan(a, i as int, st@),
        decreases args.len() - i,
    {
        proof {
            lemma_diff_step_advances(a, i as int, st@);
        }
        let ghost s_cur = st@;
        let ghost whole = diff_scan(a, i as int, s_cur);
        match diff_step_exec(args, i, st, exe.as_str()) {
            DiffStep::Next(st2, j) => {
                st = st2;
                i = j;
            },
            DiffStep::Stop(st2, j) => {
                st = st2;
                i = j;
                done = true;
            },
            DiffStep::Fail(m) => {
                assert(whole == DiffScanEnd::Fail(m@));
                return DiffArgs::Fail(m);
            },
            DiffStep::Panic => {
                assert(whole == DiffScanEnd::Panic);
                return DiffArgs::Panic;
            },
        }
    }
    diff_finish_exec(args, i, st, exe.as_str())
}

/// The settings that the arguments of diff give, or the message of the
/// failure to read them, as `diff_args` says, for arguments that the reading
/// can go through (see `read_params`).
pub fn parse_params(args: &Vec<Vec<u8>>) -> (r: Result<Params, String>)
    requires
        !(diff_args(lines_of(args@)) is Panic),
    ensures
        match (r, diff_args(lines_of(args@))) {
            (Ok(p), DiffArgsV::Run(q)) => p@ == q,
            (Err(m), DiffArgsV::Fail(n)) => m@ == n,
            _ => false,
        },
{
    match read_params(args) {
        DiffArgs::Run(p) => Ok(p),
        DiffArgs::Fail(m) => Err(m),
        DiffArgs::Panic => Err(String::new()),
    }
}

/// `parse_params` where the reading can go through, `None` where it panics.
pub fn parse_params_checked(args: &Vec<Vec<u8>>) -> (r: Option<Result<Params, String>>)
    ensures
        (r is None) == (diff_args(lines_of(args@)) is Panic),
        match (r, diff_args(lines_of(args@))) {
            (Some(Ok(p)), DiffArgsV::Run(q)) => p@ == q,
            (Some(Err(m)), DiffArgsV::Fail(n)) => m@ == n,
            (None, DiffArgsV::Panic) => true,
            _ => false,
        },
{
    match read_params(args) {
        DiffArgs::Panic => None,
        _ => Some(parse_params(args)),
    }
}

} // verus!
