//! The settings of `sdiff`, read from its arguments with the shared parser.

use vstd::prelude::*;
use vstd::utf8::encode_utf8;
use crate::arg_parser::{
    AppOption, AppOptionV, Executable, ExecutableV, ParsedOption, ParsedOptionV, ParseError, ParseErrorV,
    ParseOutcome, ParseV, Parser, ParserV, options_view, parse_spec, arg_or_empty, opt_string_view,
    help_option, version_option, same_option,
};
use crate::cmp::{parse_number, parse_usize, NumParse, lit};
use crate::lines::lines_of;
use crate::text::to_owned_bytes;

verus! {

/// An option as values.
pub open spec fn option_v(name: Seq<char>, short: Option<char>, has_arg: bool) -> AppOptionV {
    AppOptionV { long_name: name, short, has_arg }
}

/// The options of `sdiff`, in the order of the table.
pub open spec fn sdiff_options() -> Seq<AppOptionV> {
    seq![
        option_v("diff-program"@, None, true),
        option_v("expand-tabs"@, Some('t'), false),
        help_option(),
        option_v("ignore-all-space"@, Some('W'), false),
        option_v("ignore-blank-lines"@, Some('B'), false),
        option_v("ignore-case"@, Some('i'), false),
        option_v("ignore-matching-lines"@, Some('I'), true),
        option_v("ignore-space-change"@, Some('b'), false),
        option_v("ignore-tab-expansion"@, Some('E'), false),
        option_v("ignore-trailing-space"@, Some('Z'), false),
        option_v("left-column"@, Some('l'), false),
        option_v("minimal"@, Some('d'), false),
        option_v("output"@, Some('o'), true),
        option_v("speed-large-files"@, Some('H'), false),
        option_v("strip-trailing-cr"@, None, false),
        option_v("suppress-common-lines"@, Some('s'), false),
        option_v("tabsize"@, None, true),
        option_v("text"@, Some('a'), false),
        version_option(),
        option_v("width"@, Some('w'), true),
    ]
}

/// Option `k` of the table of `sdiff`.
pub fn sdiff_option(k: usize) -> (r: AppOption)
    requires
        k < 20,
    ensures
        r@ == sdiff_options()[k as int],
{
    match k {
        0 => AppOption { long_name: "diff-program", short: None, has_arg: true },
        1 => AppOption { long_name: "expand-tabs", short: Some('t'), has_arg: false },
        2 => AppOption { long_name: "help", short: Some('h'), has_arg: false },
        3 => AppOption { long_name: "ignore-all-space", short: Some('W'), has_arg: false },
        4 => AppOption { long_name: "ignore-blank-lines", short: Some('B'), has_arg: false },
        5 => AppOption { long_name: "ignore-case", short: Some('i'), has_arg: false },
        6 => AppOption { long_name: "ignore-matching-lines", short: Some('I'), has_arg: true },
        7 => AppOption { long_name: "ignore-space-change", short: Some('b'), has_arg: false },
        8 => AppOption { long_name: "ignore-tab-expansion", short: Some('E'), has_arg: false },
        9 => AppOption { long_name: "ignore-trailing-space", short: Some('Z'), has_arg: false },
        10 => AppOption { long_name: "left-column", short: Some('l'), has_arg: false },
        11 => AppOption { long_name: "minimal", short: Some('d'), has_arg: false },
        12 => AppOption { long_name: "output", short: Some('o'), has_arg: true },
        13 => AppOption { long_name: "speed-large-files", short: Some('H'), has_arg: false },
        14 => AppOption { long_name: "strip-trailing-cr", short: None, has_arg: false },
        15 => AppOption { long_name: "suppress-common-lines", short: Some('s'), has_arg: false },
        16 => AppOption { long_name: "tabsize", short: None, has_arg: true },
        17 => AppOption { long_name: "text", short: Some('a'), has_arg: false },
        18 => AppOption { long_name: "version", short: Some('v'), has_arg: false },
        _ => AppOption { long_name: "width", short: Some('w'), has_arg: true },
    }
}

/// The table of the options of `sdiff`.
pub fn app_options() -> (r: Vec<AppOption>)
    ensures
        options_view(r@) == sdiff_options(),
{
    let mut r: Vec<AppOption> = Vec::new();
    let mut k: usize = 0;
    while k < 20
        invariant
            k <= 20,
            r@.len() == k,
            forall|m: int| 0 <= m < k ==> #[trigger] r@[m]@ == sdiff_options()[m],
        decreases 20 - k,
    {
        r.push(sdiff_option(k));
        k += 1;
    }
    assert(options_view(r@) =~= sdiff_options());
    r
}

/// The settings of `sdiff`. File names are the operating system's bytes.
#[derive(Debug, PartialEq)]
pub struct ParamsSDiff {
    pub executable: Executable,
    pub from: Vec<u8>,
    pub to: Vec<u8>,
    pub diff_program: Option<String>,
    pub expand_tabs: bool,
    pub help: bool,
    pub ignore_all_space: bool,
    pub ignore_blank_lines: bool,
    pub ignore_case: bool,
    pub ignore_matching_lines: Option<String>,
    pub ignore_space_change: bool,
    pub ignore_tab_expansion: bool,
    pub ignore_trailing_space: bool,
    pub left_column: bool,
    pub minimal: bool,
    pub output: Option<String>,
    pub speed_large_files: bool,
    pub strip_trailing_cr: bool,
    pub suppress_common_lines: bool,
    pub tabsize: usize,
    pub text: bool,
    pub version: bool,
    pub width: usize,
}

/// The settings as values.
pub struct ParamsSDiffV {
    pub executable: ExecutableV,
    pub from: Seq<u8>,
    pub to: Seq<u8>,
    pub diff_program: Option<Seq<char>>,
    pub expand_tabs: bool,
    pub help: bool,
    pub ignore_all_space: bool,
    pub ignore_blank_lines: bool,
    pub ignore_case: bool,
    pub ignore_matching_lines: Option<Seq<char>>,
    pub ignore_space_change: bool,
    pub ignore_tab_expansion: bool,
    pub ignore_trailing_space: bool,
    pub left_column: bool,
    pub minimal: bool,
    pub output: Option<Seq<char>>,
    pub speed_large_files: bool,
    pub strip_trailing_cr: bool,
    pub suppress_common_lines: bool,
    pub tabsize: usize,
    pub text: bool,
    pub version: bool,
    pub width: usize,
}

impl View for ParamsSDiff {
    type V = ParamsSDiffV;

    open spec fn view(&self) -> ParamsSDiffV {
        ParamsSDiffV {
            executable: self.executable@,
            from: self.from@,
            to: self.to@,
            diff_program: opt_string_view(self.diff_program),
            expand_tabs: self.expand_tabs,
            help: self.help,
            ignore_all_space: self.ignore_all_space,
            ignore_blank_lines: self.ignore_blank_lines,
            ignore_case: self.ignore_case,
            ignore_matching_lines: opt_string_view(self.ignore_matching_lines),
            ignore_space_change: self.ignore_space_change,
            ignore_tab_expansion: self.ignore_tab_expansion,
            ignore_trailing_space: self.ignore_trailing_space,
            left_column: self.left_column,
            minimal: self.minimal,
            output: opt_string_view(self.output),
            speed_large_files: self.speed_large_files,
            strip_trailing_cr: self.strip_trailing_cr,
            suppress_common_lines: self.suppress_common_lines,
            tabsize: self.tabsize,
            text: self.text,
            version: self.version,
            width: self.width,
        }
    }
}

/// The defaults: no names, no options, tabs of 8 columns, 130 columns.
pub open spec fn sdiff_defaults(exe: ExecutableV) -> ParamsSDiffV {
    ParamsSDiffV {
        executable: exe,
        from: Seq::empty(),
        to: Seq::empty(),
        diff_program: None,
        expand_tabs: false,
        help: false,
        ignore_all_space: false,
        ignore_blank_lines: false,
        ignore_case: false,
        ignore_matching_lines: None,
        ignore_space_change: false,
        ignore_tab_expansion: false,
        ignore_trailing_space: false,
        left_column: false,
        minimal: false,
        output: None,
        speed_large_files: false,
        strip_trailing_cr: false,
        suppress_common_lines: false,
        tabsize: 8,
        text: false,
        version: false,
        width: 130,
    }
}

impl ParamsSDiff {
    /// The defaults for the utility `executable`.
    pub fn new(executable: Executable) -> (r: ParamsSDiff)
        ensures
            r@ == sdiff_defaults(executable@),
    {
        let r = ParamsSDiff {
            executable,
            from: Vec::new(),
            to: Vec::new(),
            diff_program: None,
            expand_tabs: false,
            help: false,
            ignore_all_space: false,
            ignore_blank_lines: false,
            ignore_case: false,
            ignore_matching_lines: None,
            ignore_space_change: false,
            ignore_tab_expansion: false,
            ignore_trailing_space: false,
            left_column: false,
            minimal: false,
            output: None,
            speed_large_files: false,
            strip_trailing_cr: false,
            suppress_common_lines: false,
            tabsize: 8,
            text: false,
            version: false,
            width: 130,
        };
        assert(r@.from =~= Seq::<u8>::empty());
        assert(r@.to =~= Seq::<u8>::empty());
        r
    }
}

impl Default for ParamsSDiff {
    fn default() -> (r: ParamsSDiff)
        ensures
            r@ == sdiff_defaults(ExecutableV::SDiff),
    {
        ParamsSDiff::new(Executable::SDiff)
    }
}

/// The number of an option's argument as `str::parse::<usize>` reads it;
/// anything else, a value too large included, is no number.
#[verifier::opaque]
pub open spec fn usize_arg(p: ParsedOptionV) -> Result<usize, ParseErrorV> {
    match parse_usize(encode_utf8(arg_or_empty(p))) {
        NumParse::Value(v) => Ok(v),
        _ => Err(ParseErrorV::InvalidValueNumber(p)),
    }
}

pub open spec fn usize_view(r: Result<usize, ParseError>) -> Result<usize, ParseErrorV> {
    match r {
        Ok(v) => Ok(v),
        Err(e) => Err(e@),
    }
}

fn usize_of_arg(p: &ParsedOption) -> (r: Result<usize, ParseError>)
    ensures
        usize_view(r) == usize_arg(p@),
{
    reveal(usize_arg);
    let text = p.arg_for_option_or_empty_string();
    match parse_number(text.as_str().as_bytes()) {
        NumParse::Value(v) => Ok(v),
        _ => Err(ParseError::InvalidValueNumber(p.copy())),
    }
}

impl ParamsSDiff {
    /// Sets the tab size from the option's argument, which must be a number.
    pub fn set_tabsize(&mut self, parsed_option: &ParsedOption) -> (r: Result<usize, ParseError>)
        ensures
            usize_view(r) == usize_arg(parsed_option@),
            r matches Ok(t) ==> final(self)@ == (ParamsSDiffV { tabsize: t, ..old(self)@ }),
            r is Err ==> final(self)@ == old(self)@,
    {
        let t = usize_of_arg(parsed_option)?;
        self.tabsize = t;
        Ok(t)
    }

    /// Sets the width from the option's argument, which must be a number.
    pub fn set_width(&mut self, parsed_option: &ParsedOption) -> (r: Result<usize, ParseError>)
        ensures
            usize_view(r) == usize_arg(parsed_option@),
            r matches Ok(w) ==> final(self)@ == (ParamsSDiffV { width: w, ..old(self)@ }),
            r is Err ==> final(self)@ == old(self)@,
    {
        let w = usize_of_arg(parsed_option)?;
        self.width = w;
        Ok(w)
    }
}

/// Where applying the options stands: settings to go on with, help or
/// version asked for, or an error.
pub enum ApplyV {
    Go(ParamsSDiffV),
    Help,
    Version,
    Fail(ParseErrorV),
}

/// The position of option `o` in the table from `k` on, if it is there.
pub open spec fn index_in(t: Seq<AppOptionV>, o: AppOptionV, k: int) -> Option<int>
    decreases t.len() - k,
{
    if k < 0 || k >= t.len() {
        None
    } else if t[k] == o {
        Some(k)
    } else {
        index_in(t, o, k + 1)
    }
}

/// What option `k` of the table, given as `p`, does to the settings.
#[verifier::opaque]
pub open spec fn option_effect(k: int, p: ParsedOptionV, s: ParamsSDiffV) -> ApplyV {
    if k == 0 {
        ApplyV::Go(ParamsSDiffV { diff_program: p.arg, ..s })
    } else if k == 1 {
        ApplyV::Go(ParamsSDiffV { expand_tabs: true, ..s })
    } else if k == 2 {
        ApplyV::Help
    } else if k == 3 {
        ApplyV::Go(ParamsSDiffV { ignore_all_space: true, ..s })
    } else if k == 4 {
        ApplyV::Go(ParamsSDiffV { ignore_blank_lines: true, ..s })
    } else if k == 5 {
        ApplyV::Go(ParamsSDiffV { ignore_case: true, ..s })
    } else if k == 6 {
        ApplyV::Go(ParamsSDiffV { ignore_matching_lines: p.arg, ..s })
    } else if k == 7 {
        ApplyV::Go(ParamsSDiffV { ignore_space_change: true, ..s })
    } else if k == 8 {
        ApplyV::Go(ParamsSDiffV { ignore_tab_expansion: true, ..s })
    } else if k == 9 {
        ApplyV::Go(ParamsSDiffV { ignore_trailing_space: true, ..s })
    } else if k == 10 {
        ApplyV::Go(ParamsSDiffV { left_column: true, ..s })
    } else if k == 11 {
        ApplyV::Go(ParamsSDiffV { minimal: true, ..s })
    } else if k == 12 {
        ApplyV::Go(ParamsSDiffV { output: p.arg, ..s })
    } else if k == 13 {
        ApplyV::Go(ParamsSDiffV { speed_large_files: true, ..s })
    } else if k == 14 {
        ApplyV::Go(ParamsSDiffV { strip_trailing_cr: true, ..s })
    } else if k == 15 {
        ApplyV::Go(ParamsSDiffV { suppress_common_lines: true, ..s })
    } else if k == 16 {
        match usize_arg(p) {
            Ok(v) => ApplyV::Go(ParamsSDiffV { tabsize: v, ..s }),
            Err(e) => ApplyV::Fail(e),
        }
    } else if k == 17 {
        ApplyV::Go(ParamsSDiffV { text: true, ..s })
    } else if k == 18 {
        ApplyV::Version
    } else {
        match usize_arg(p) {
            Ok(v) => ApplyV::Go(ParamsSDiffV { width: v, ..s }),
            Err(e) => ApplyV::Fail(e),
        }
    }
}

/// What option `p` does to the settings: the effect of its entry in the
/// table; an option outside the table (which the parser does not give)
/// changes nothing.
pub open spec fn apply_option(p: ParsedOptionV, s: ParamsSDiffV) -> ApplyV {
    match index_in(sdiff_options(), p.app_option, 0) {
        Some(k) => option_effect(k, p, s),
        None => ApplyV::Go(s),
    }
}

/// Applies the options from `k` on, in order; help, version and errors stop.
pub open spec fn apply_options(options: Seq<ParsedOptionV>, k: int, s: ParamsSDiffV) -> ApplyV
    decreases options.len() - k,
{
    if k < 0 || k >= options.len() {
        ApplyV::Go(s)
    } else {
        match apply_option(options[k], s) {
            ApplyV::Go(s2) => apply_options(options, k + 1, s2),
            other => other,
        }
    }
}

/// The settings with the names from the operands (see `names_of`).
pub open spec fn with_operands(exe: ExecutableV, ops: Seq<Seq<u8>>, s: ParamsSDiffV) -> Result<ParamsSDiffV, ParseErrorV> {
    match names_of(exe, ops) {
        Ok((f, t)) => Ok(ParamsSDiffV { from: f, to: t, ..s }),
        Err(e) => Err(e),
    }
}

/// How reading the arguments of `sdiff` ends.
pub enum SDiffParseV {
    Params(ParamsSDiffV),
    Help,
    Version,
    Fail(ParseErrorV),
    Panic,
}

/// Reading the arguments of `sdiff` (without its name): the shared parser
/// with the options of `sdiff`, the options applied to the defaults in order,
/// then the operands.
pub open spec fn sdiff_parse(exe: ExecutableV, args: Seq<Seq<u8>>) -> SDiffParseV {
    match parse_spec(sdiff_options(), args) {
        ParseV::Panic => SDiffParseV::Panic,
        ParseV::Fail(e) => SDiffParseV::Fail(e),
        ParseV::Parsed(p) => match apply_options(p.options, 0, sdiff_defaults(exe)) {
            ApplyV::Help => SDiffParseV::Help,
            ApplyV::Version => SDiffParseV::Version,
            ApplyV::Fail(e) => SDiffParseV::Fail(e),
            ApplyV::Go(s) => match with_operands(exe, p.operands, s) {
                Ok(s2) => SDiffParseV::Params(s2),
                Err(e) => SDiffParseV::Fail(e),
            },
        },
    }
}

/// What reading the arguments of `sdiff` gives when it succeeds.
#[derive(Debug, PartialEq)]
pub enum SDiffParseOk {
    Params(ParamsSDiff),
    Help,
    Version,
}

pub open spec fn sdiff_result_view(r: Result<SDiffParseOk, ParseError>) -> SDiffParseV {
    match r {
        Ok(SDiffParseOk::Params(p)) => SDiffParseV::Params(p@),
        Ok(SDiffParseOk::Help) => SDiffParseV::Help,
        Ok(SDiffParseOk::Version) => SDiffParseV::Version,
        Err(e) => SDiffParseV::Fail(e@),
    }
}

enum Applied {
    Go(ParamsSDiff),
    Help,
    Version,
    Fail(ParseError),
}

spec fn applied_view(r: Applied) -> ApplyV {
    match r {
        Applied::Go(p) => ApplyV::Go(p@),
        Applied::Help => ApplyV::Help,
        Applied::Version => ApplyV::Version,
        Applied::Fail(e) => ApplyV::Fail(e@),
    }
}

fn copy_text(s: &Option<String>) -> (r: Option<String>)
    ensures
        opt_string_view(r) == opt_string_view(*s),
{
    match s {
        Some(t) => Some(t.clone()),
        None => None,
    }
}

fn table_index(o: &AppOption) -> (r: Option<usize>)
    ensures
        match r {
            Some(k) => index_in(sdiff_options(), o@, 0) == Some(k as int),
            None => index_in(sdiff_options(), o@, 0) is None,
        },
{
    let mut k: usize = 0;
    while k < 20
        invariant
            k <= 20,
            index_in(sdiff_options(), o@, k as int) == index_in(sdiff_options(), o@, 0),
        decreases 20 - k,
    {
        if same_option(o, &sdiff_option(k)) {
            return Some(k);
        }
        k += 1;
    }
    None
}

fn effect_diff_program(p: &ParsedOption, s: ParamsSDiff) -> (r: Applied)
    ensures
        applied_view(r) == option_effect(0, p@, s@),
{
    reveal(option_effect);
    Applied::Go(ParamsSDiff { diff_program: copy_text(&p.arg_for_option), ..s })
}

fn effect_expand_tabs(p: &ParsedOption, s: ParamsSDiff) -> (r: Applied)
    ensures
        applied_view(r) == option_effect(1, p@, s@),
{
    reveal(option_effect);
    Applied::Go(ParamsSDiff { expand_tabs: true, ..s })
}

fn effect_help(p: &ParsedOption, s: ParamsSDiff) -> (r: Applied)
    ensures
        applied_view(r) == option_effect(2, p@, s@),
{
    reveal(option_effect);
    Applied::Help
}

fn effect_ignore_all_space(p: &ParsedOption, s: ParamsSDiff) -> (r: Applied)
    ensures
        applied_view(r) == option_effect(3, p@, s@),
{
    reveal(option_effect);
    Applied::Go(ParamsSDiff { ignore_all_space: true, ..s })
}

fn effect_ignore_blank_lines(p: &ParsedOption, s: ParamsSDiff) -> (r: Applied)
    ensures
        applied_view(r) == option_effect(4, p@, s@),
{
    reveal(option_effect);
    Applied::Go(ParamsSDiff { ignore_blank_lines: true, ..s })
}

fn effect_ignore_case(p: &ParsedOption, s: ParamsSDiff) -> (r: Applied)
    ensures
        applied_view(r) == option_effect(5, p@, s@),
{
    reveal(option_effect);
    Applied::Go(ParamsSDiff { ignore_case: true, ..s })
}

fn effect_ignore_matching_lines(p: &ParsedOption, s: ParamsSDiff) -> (r: Applied)
    ensures
        applied_view(r) == option_effect(6, p@, s@),
{
    reveal(option_effect);
    Applied::Go(ParamsSDiff { ignore_matching_lines: copy_text(&p.arg_for_option), ..s })
}

fn effect_ignore_space_change(p: &ParsedOption, s: ParamsSDiff) -> (r: Applied)
    ensures
        applied_view(r) == option_effect(7, p@, s@),
{
    reveal(option_effect);
    Applied::Go(ParamsSDiff { ignore_space_change: true, ..s })
}

fn effect_ignore_tab_expansion(p: &ParsedOption, s: ParamsSDiff) -> (r: Applied)
    ensures
        applied_view(r) == option_effect(8, p@, s@),
{
    reveal(option_effect);
    Applied::Go(ParamsSDiff { ignore_tab_expansion: true, ..s })
}

fn effect_ignore_trailing_space(p: &ParsedOption, s: ParamsSDiff) -> (r: Applied)
    ensures
        applied_view(r) == option_effect(9, p@, s@),
{
    reveal(option_effect);
    Applied::Go(ParamsSDiff { ignore_trailing_space: true, ..s })
}

fn effect_left_column(p: &ParsedOption, s: ParamsSDiff) -> (r: Applied)
    ensures
        applied_view(r) == option_effect(10, p@, s@),
{
    reveal(option_effect);
    Applied::Go(ParamsSDiff { left_column: true, ..s })
}

fn effect_minimal(p: &ParsedOption, s: ParamsSDiff) -> (r: Applied)
    ensures
        applied_view(r) == option_effect(11, p@, s@),
{
    reveal(option_effect);
    Applied::Go(ParamsSDiff { minimal: true, ..s })
}

fn effect_output(p: &ParsedOption, s: ParamsSDiff) -> (r: Applied)
    ensures
        applied_view(r) == option_effect(12, p@, s@),
{
    reveal(option_effect);
    Applied::Go(ParamsSDiff { output: copy_text(&p.arg_for_option), ..s })
}

fn effect_speed_large_files(p: &ParsedOption, s: ParamsSDiff) -> (r: Applied)
    ensures
        applied_view(r) == option_effect(13, p@, s@),
{
    reveal(option_effect);
    Applied::Go(ParamsSDiff { speed_large_files: true, ..s })
}

fn effect_strip_trailing_cr(p: &ParsedOption, s: ParamsSDiff) -> (r: Applied)
    ensures
        applied_view(r) == option_effect(14, p@, s@),
{
    reveal(option_effect);
    Applied::Go(ParamsSDiff { strip_trailing_cr: true, ..s })
}

fn effect_suppress_common_lines(p: &ParsedOption, s: ParamsSDiff) -> (r: Applied)
    ensures
        applied_view(r) == option_effect(15, p@, s@),
{
    reveal(option_effect);
    Applied::Go(ParamsSDiff { suppress_common_lines: true, ..s })
}

fn effect_tabsize(p: &ParsedOption, s: ParamsSDiff) -> (r: Applied)
    ensures
        applied_view(r) == option_effect(16, p@, s@),
{
    reveal(option_effect);
    let mut s = s;
    match s.set_tabsize(p) {
        Ok(_) => Applied::Go(s),
        Err(e) => Applied::Fail(e),
    }
}

fn effect_text(p: &ParsedOption, s: ParamsSDiff) -> (r: Applied)
    ensures
        applied_view(r) == option_effect(17, p@, s@),
{
    reveal(option_effect);
    Applied::Go(ParamsSDiff { text: true, ..s })
}

fn effect_version(p: &ParsedOption, s: ParamsSDiff) -> (r: Applied)
    ensures
        applied_view(r) == option_effect(18, p@, s@),
{
    reveal(option_effect);
    Applied::Version
}

fn effect_width(p: &ParsedOption, s: ParamsSDiff) -> (r: Applied)
    ensures
        applied_view(r) == option_effect(19, p@, s@),
{
    reveal(option_effect);
    let mut s = s;
    match s.set_width(p) {
        Ok(_) => Applied::Go(s),
        Err(e) => Applied::Fail(e),
    }
}

fn option_effect_exec(k: usize, p: &ParsedOption, s: ParamsSDiff) -> (r: Applied)
    requires
        k < 20,
    ensures
        applied_view(r) == option_effect(k as int, p@, s@),
{
    match k {
        0 => effect_diff_program(p, s),
        1 => effect_expand_tabs(p, s),
        2 => effect_help(p, s),
        3 => effect_ignore_all_space(p, s),
        4 => effect_ignore_blank_lines(p, s),
        5 => effect_ignore_case(p, s),
        6 => effect_ignore_matching_lines(p, s),
        7 => effect_ignore_space_change(p, s),
        8 => effect_ignore_tab_expansion(p, s),
        9 => effect_ignore_trailing_space(p, s),
        10 => effect_left_column(p, s),
        11 => effect_minimal(p, s),
        12 => effect_output(p, s),
        13 => effect_speed_large_files(p, s),
        14 => effect_strip_trailing_cr(p, s),
        15 => effect_suppress_common_lines(p, s),
        16 => effect_tabsize(p, s),
        17 => effect_text(p, s),
        18 => effect_version(p, s),
        _ => effect_width(p, s),
    }
}

fn apply_option_exec(p: &ParsedOption, s: ParamsSDiff) -> (r: Applied)
    ensures
        applied_view(r) == apply_option(p@, s@),
{
    match table_index(&p.app_option) {
        Some(k) => {
            proof {
                lemma_index_in_range(sdiff_options(), p@.app_option, 0);
            }
            option_effect_exec(k, p, s)
        },
        None => Applied::Go(s),
    }
}

proof fn lemma_index_in_range(t: Seq<AppOptionV>, o: AppOptionV, k: int)
    ensures
        index_in(t, o, k) matches Some(m) ==> 0 <= m < t.len(),
    decreases t.len() - k,
{
    if 0 <= k < t.len() && t[k] != o {
        lemma_index_in_range(t, o, k + 1);
    }
}

fn apply_all(options: &Vec<ParsedOption>, initial: ParamsSDiff) -> (r: Applied)
    ensures
        applied_view(r) == apply_options(crate::arg_parser::parsed_view(options@), 0, initial@),
{
    let ghost all = crate::arg_parser::parsed_view(options@);
    let ghost start = initial@;
    let mut params = initial;
    let mut k: usize = 0;
    while k < options.len()
        invariant
            k <= options.len(),
            start == initial@,
            all == crate::arg_parser::parsed_view(options@),
            apply_options(all, k as int, params@) == apply_options(all, 0, start),
        decreases options.len() - k,
    {
        assert(all[k as int] == options@[k as int]@);
        match apply_option_exec(&options[k], params) {
            Applied::Go(p2) => {
                params = p2;
            },
            other => {
                return other;
            },
        }
        k += 1;
    }
    Applied::Go(params)
}

pub open spec fn operands_view(r: Result<ParamsSDiff, ParseError>) -> Result<ParamsSDiffV, ParseErrorV> {
    match r {
        Ok(p) => Ok(p@),
        Err(e) => Err(e@),
    }
}

/// The two names that the operands give: one operand is compared with
/// standard input (`-`); none, or more than two, is an error.
#[verifier::opaque]
pub open spec fn names_of(exe: ExecutableV, ops: Seq<Seq<u8>>) -> Result<(Seq<u8>, Seq<u8>), ParseErrorV> {
    if ops.len() == 0 {
        Err(ParseErrorV::NoOperands(exe))
    } else if ops.len() == 1 {
        Ok((ops[0], lit("-")))
    } else if ops.len() == 2 {
        Ok((ops[0], ops[1]))
    } else {
        Err(ParseErrorV::ExtraOperand(ops[2]))
    }
}

pub open spec fn names_view(r: Result<(Vec<u8>, Vec<u8>), ParseError>) -> Result<(Seq<u8>, Seq<u8>), ParseErrorV> {
    match r {
        Ok((a, b)) => Ok((a@, b@)),
        Err(e) => Err(e@),
    }
}

fn names_exec(executable: &Executable, operands: &Vec<Vec<u8>>) -> (r: Result<(Vec<u8>, Vec<u8>), ParseError>)
    ensures
        names_view(r) == names_of(executable@, lines_of(operands@)),
{
    reveal(names_of);
    let n = operands.len();
    if n == 0 {
        return Err(ParseError::NoOperands(executable.copy()));
    }
    let from = to_owned_bytes(operands[0].as_slice());
    if n == 1 {
        Ok((from, to_owned_bytes("-".as_bytes())))
    } else if n == 2 {
        Ok((from, to_owned_bytes(operands[1].as_slice())))
    } else {
        Err(ParseError::ExtraOperand(to_owned_bytes(operands[2].as_slice())))
    }
}

fn set_operands(executable: &Executable, operands: &Vec<Vec<u8>>, params: ParamsSDiff) -> (r: Result<ParamsSDiff, ParseError>)
    ensures
        operands_view(r) == with_operands(executable@, lines_of(operands@), params@),
{
    match names_exec(executable, operands) {
        Ok((from, to)) => Ok(ParamsSDiff { from, to, ..params }),
        Err(e) => Err(e),
    }
}

impl ParamsSDiff {
    /// Reads the arguments of `sdiff` (without its name) for the utility
    /// `executable`: the options of `sdiff` applied to the defaults in order
    /// (help and version end the reading), then one or two operands.
    pub fn parse_params(executable: &Executable, args: &Vec<Vec<u8>>) -> (r: Result<SDiffParseOk, ParseError>)
        requires
            !(sdiff_parse(executable@, lines_of(args@)) is Panic),
        ensures
            sdiff_result_view(r) == sdiff_parse(executable@, lines_of(args@)),
    {
        let opts = app_options();
        let parser = match Parser::parse_outcome(opts.as_slice(), args) {
            ParseOutcome::Parsed(p) => p,
            ParseOutcome::Fail(e) => {
                return Err(e);
            },
            ParseOutcome::Panic => {
                return Err(ParseError::NoExecutable);
            },
        };
        let params = ParamsSDiff::new(executable.copy());
        match apply_all(&parser.options_parsed, params) {
            Applied::Go(p2) => match set_operands(executable, &parser.operands, p2) {
                Ok(p3) => Ok(SDiffParseOk::Params(p3)),
                Err(e) => Err(e),
            },
            Applied::Help => Ok(SDiffParseOk::Help),
            Applied::Version => Ok(SDiffParseOk::Version),
            Applied::Fail(e) => Err(e),
        }
    }
}

impl ParamsSDiff {
    /// Reads the arguments of `sdiff` as `parse_params` does, or gives `None`
    /// where the reading panics (an empty argument where an option or operand
    /// stands).
    pub fn parse_params_checked(executable: &Executable, args: &Vec<Vec<u8>>) -> (r: Option<Result<SDiffParseOk, ParseError>>)
        ensures
            r is None <==> sdiff_parse(executable@, lines_of(args@)) is Panic,
            r matches Some(x) ==> sdiff_result_view(x) == sdiff_parse(executable@, lines_of(args@)),
    {
        let opts = app_options();
        match Parser::parse_outcome(opts.as_slice(), args) {
            ParseOutcome::Panic => None,
            _ => Some(ParamsSDiff::parse_params(executable, args)),
        }
    }
}

proof fn lemma_index_in_found(t: Seq<AppOptionV>, o: AppOptionV, k: int, m: int)
    requires
        0 <= k <= m < t.len(),
        t[m] == o,
    ensures
        index_in(t, o, k) is Some,
    decreases m - k,
{
    if t[k] != o {
        lemma_index_in_found(t, o, k + 1, m);
    }
}

/// Every option that the parser gives `sdiff` has its entry in the table of
/// `sdiff`, so that applying it never falls outside the table.
pub proof fn lemma_sdiff_options_in_table(args: Seq<Seq<u8>>)
    ensures
        parse_spec(sdiff_options(), args) matches ParseV::Parsed(p) ==> forall|k: int|
            0 <= k < p.options.len() ==> (index_in(sdiff_options(), #[trigger] p.options[k].app_option, 0) is Some),
{
    crate::arg_parser::lemma_parsed_options_known(sdiff_options(), args);
    if let ParseV::Parsed(p) = parse_spec(sdiff_options(), args) {
        let t = sdiff_options();
        assert(t[2] == help_option());
        assert(t[18] == version_option());
        assert forall|k: int| 0 <= k < p.options.len() implies (index_in(t, #[trigger] p.options[k].app_option, 0) is Some) by {
            let o = p.options[k].app_option;
            if crate::arg_parser::known_options(t, p.options) {
                assert(t.contains(o));
                let m = choose|m: int| 0 <= m < t.len() && t[m] == o;
                lemma_index_in_found(t, o, 0, m);
            } else if p.options == seq![crate::arg_parser::option_without_arg(help_option(), p.used)] {
                assert(o == help_option());
                lemma_index_in_found(t, o, 0, 2);
            } else {
                assert(o == version_option());
                lemma_index_in_found(t, o, 0, 18);
            }
        }
    }
}

} // verus!
