//! The argument parser shared by the utilities: options given by their long
//! name (which may be shortened while it stays unique), by a letter (several
//! letters may share one dash), with an argument after `=`, attached to the
//! letter or in the next argument; operands; `--` before operands that begin
//! with a dash; the texts of its errors; and the units of byte counts.

use vstd::prelude::*;
use vstd::utf8::encode_utf8;
use vstd::string::StringSliceAdditionalSpecFns;
use crate::diff3::are_files_identical;
use crate::unicode::{lossy_text, lossy_string, lossy_utf8, utf8_lossy};
use crate::cmp::{lit, is_lit, starts_with_str, starts_with_chars};
use crate::text::to_owned_bytes;
use crate::lines::lines_of;

verus! {

/// The copyright notice of the utilities.
pub const TEXT_COPYRIGHT: &'static str = "Copyright (c) uutils developers\nLicenses: MIT License, Apache License 2.0 <https://www.apache.org/licenses/LICENSE-2.0>";

/// Adds the copyright notice, on a line of its own, after `text`.
pub fn add_copyright(text: &str) -> (r: String)
    ensures
        r@ == text@ + "\n"@ + TEXT_COPYRIGHT@,
{
    String::from_str(text).concat("\n").concat(TEXT_COPYRIGHT)
}

/// An option that a utility accepts: its long name, its short letter if any,
/// and whether it takes an argument.
#[derive(Debug, Clone, Copy, PartialEq)]
pub struct AppOption {
    pub long_name: &'static str,
    pub short: Option<char>,
    pub has_arg: bool,
}

/// An option as values.
pub struct AppOptionV {
    pub long_name: Seq<char>,
    pub short: Option<char>,
    pub has_arg: bool,
}

impl View for AppOption {
    type V = AppOptionV;

    open spec fn view(&self) -> AppOptionV {
        AppOptionV { long_name: self.long_name@, short: self.short, has_arg: self.has_arg }
    }
}

/// `--help` (`-h`), which every utility accepts.
pub open spec fn help_option() -> AppOptionV {
    AppOptionV { long_name: "help"@, short: Some('h'), has_arg: false }
}

/// `--version` (`-v`), which every utility accepts.
pub open spec fn version_option() -> AppOptionV {
    AppOptionV { long_name: "version"@, short: Some('v'), has_arg: false }
}

/// The option `--help`.
pub fn opt_help() -> (r: AppOption)
    ensures
        r@ == help_option(),
{
    AppOption { long_name: "help", short: Some('h'), has_arg: false }
}

/// The option `--version`.
pub fn opt_version() -> (r: AppOption)
    ensures
        r@ == version_option(),
{
    AppOption { long_name: "version", short: Some('v'), has_arg: false }
}

/// Whether two options are the same in all their parts.
pub fn same_option(a: &AppOption, b: &AppOption) -> (r: bool)
    ensures
        r == (a@ == b@),
{
    let short_eq = match (a.short, b.short) {
        (Some(x), Some(y)) => x == y,
        (None, None) => true,
        _ => false,
    };
    short_eq && a.has_arg == b.has_arg && str_eq(a.long_name, b.long_name)
}

/// Calls `char::to_string`, which gives the string of one character.
#[verifier::external_body]
pub(crate) fn char_text(c: char) -> (r: String)
    ensures
        r@ == seq![c],
{
    c.to_string()
}

impl AppOption {
    /// The long name with its dashes: `--option`.
    pub fn format_long(&self) -> (r: String)
        ensures
            r@ == "--"@ + self.long_name@,
    {
        String::from_str("--").concat(self.long_name)
    }

    /// The option as error messages name it: `'--option' (-c)` when it has a
    /// short letter, else its long form `--option`.
    pub fn format_for_error_msg(&self) -> (r: String)
        ensures
            r@ == error_msg_form(self@),
    {
        match self.short {
            Some(c) => String::from_str("'--").concat(self.long_name).concat("' (-").concat(char_text(c).as_str()).concat(")"),
            None => self.format_long(),
        }
    }

    /// The short letter with its dash, `-c`, or an empty string when the option
    /// has none.
    pub fn short_or_empty(&self) -> (r: String)
        ensures
            r@ == match self.short {
                Some(c) => "-"@ + seq![c],
                None => Seq::<char>::empty(),
            },
    {
        match self.short {
            Some(c) => String::from_str("-").concat(char_text(c).as_str()),
            None => {
                let s = String::new();
                assert(s@ =~= Seq::<char>::empty());
                s
            },
        }
    }
}

/// Whether the user named an option by its long name or by its short letter.
#[derive(Debug, Clone, Copy, PartialEq, Eq, Structural)]
pub enum OptionNameTypeUsed {
    /// No option name seen yet.
    NotSet,
    LongName,
    ShortName,
}

impl Default for OptionNameTypeUsed {
    fn default() -> (r: OptionNameTypeUsed)
        ensures
            r == OptionNameTypeUsed::NotSet,
    {
        OptionNameTypeUsed::NotSet
    }
}

/// Whether two strings hold the same characters.
pub fn str_eq(a: &str, b: &str) -> (r: bool)
    ensures
        r == (a@ == b@),
{
    let r = are_files_identical(a.as_bytes(), b.as_bytes());
    proof {
        if r {
            vstd::utf8::encode_utf8_decode_utf8(a@);
            vstd::utf8::encode_utf8_decode_utf8(b@);
        }
    }
    r
}

/// The factor of a byte unit: `kB` and `KB` are 1000, `k`, `K`, `KiB` and
/// `kiB` are 1024, and so on up to exabytes (`EB`, and `E` or `EiB`); any other
/// text is no unit.
pub open spec fn unit_factor(u: Seq<char>) -> Option<u64> {
    if u == "kB"@ || u == "KB"@ {
        Some(1_000)
    } else if u == "k"@ || u == "K"@ || u == "KiB"@ || u == "kiB"@ {
        Some(1_024)
    } else if u == "MB"@ {
        Some(1_000_000)
    } else if u == "M"@ || u == "MiB"@ {
        Some(1_048_576)
    } else if u == "GB"@ {
        Some(1_000_000_000)
    } else if u == "G"@ || u == "GiB"@ {
        Some(1_073_741_824)
    } else if u == "TB"@ {
        Some(1_000_000_000_000)
    } else if u == "T"@ || u == "TiB"@ {
        Some(1_099_511_627_776)
    } else if u == "PB"@ {
        Some(1_000_000_000_000_000)
    } else if u == "P"@ || u == "PiB"@ {
        Some(1_125_899_906_842_624)
    } else if u == "EB"@ {
        Some(1_000_000_000_000_000_000)
    } else if u == "E"@ || u == "EiB"@ {
        Some(1_152_921_504_606_846_976)
    } else {
        None
    }
}

/// Parses the numbers of options, such as byte counts.
pub struct NumberParser {}

impl NumberParser {
    /// The factor of a byte unit, e.g. 1024 for `KiB`, or `None` when the text is
    /// no unit.
    pub fn parse_number_unit(unit: &str) -> (r: Option<u64>)
        ensures
            r == unit_factor(unit@),
    {
        if str_eq(unit, "kB") || str_eq(unit, "KB") {
            Some(1_000)
        } else if str_eq(unit, "k") || str_eq(unit, "K") || str_eq(unit, "KiB") || str_eq(unit, "kiB") {
            Some(1_024)
        } else if str_eq(unit, "MB") {
            Some(1_000_000)
        } else if str_eq(unit, "M") || str_eq(unit, "MiB") {
            Some(1_048_576)
        } else if str_eq(unit, "GB") {
            Some(1_000_000_000)
        } else if str_eq(unit, "G") || str_eq(unit, "GiB") {
            Some(1_073_741_824)
        } else if str_eq(unit, "TB") {
            Some(1_000_000_000_000)
        } else if str_eq(unit, "T") || str_eq(unit, "TiB") {
            Some(1_099_511_627_776)
        } else if str_eq(unit, "PB") {
            Some(1_000_000_000_000_000)
        } else if str_eq(unit, "P") || str_eq(unit, "PiB") {
            Some(1_125_899_906_842_624)
        } else if str_eq(unit, "EB") {
            Some(1_000_000_000_000_000_000)
        } else if str_eq(unit, "E") || str_eq(unit, "EiB") {
            Some(1_152_921_504_606_846_976)
        } else {
            None
        }
    }
}


/// An option as the user gave it: which option, its argument as text and as
/// the operating system's bytes (both absent when it has none), and whether
/// the long name or the letter named it.
#[derive(Debug, PartialEq)]
pub struct ParsedOption {
    pub app_option: AppOption,
    pub arg_for_option: Option<String>,
    pub arg_for_option_os: Option<Vec<u8>>,
    pub name_type_used: OptionNameTypeUsed,
}

/// A given option as values.
pub struct ParsedOptionV {
    pub app_option: AppOptionV,
    pub arg: Option<Seq<char>>,
    pub arg_os: Option<Seq<u8>>,
    pub used: OptionNameTypeUsed,
}

pub open spec fn opt_string_view(o: Option<String>) -> Option<Seq<char>> {
    match o {
        Some(s) => Some(s@),
        None => None,
    }
}

pub open spec fn opt_bytes_view(o: Option<Vec<u8>>) -> Option<Seq<u8>> {
    match o {
        Some(v) => Some(v@),
        None => None,
    }
}

impl View for ParsedOption {
    type V = ParsedOptionV;

    open spec fn view(&self) -> ParsedOptionV {
        ParsedOptionV {
            app_option: self.app_option@,
            arg: opt_string_view(self.arg_for_option),
            arg_os: opt_bytes_view(self.arg_for_option_os),
            used: self.name_type_used,
        }
    }
}

/// An option given with the argument `os`: its text is what
/// `String::from_utf8_lossy` makes of the bytes.
pub open spec fn option_with_arg(o: AppOptionV, os: Seq<u8>, used: OptionNameTypeUsed) -> ParsedOptionV {
    ParsedOptionV { app_option: o, arg: Some(lossy_text(os)), arg_os: Some(os), used }
}

/// An option given without argument.
pub open spec fn option_without_arg(o: AppOptionV, used: OptionNameTypeUsed) -> ParsedOptionV {
    ParsedOptionV { app_option: o, arg: None, arg_os: None, used }
}

fn copy_string(s: &Option<String>) -> (r: Option<String>)
    ensures
        opt_string_view(r) == opt_string_view(*s),
{
    match s {
        Some(t) => Some(t.clone()),
        None => None,
    }
}

fn copy_bytes(s: &Option<Vec<u8>>) -> (r: Option<Vec<u8>>)
    ensures
        opt_bytes_view(r) == opt_bytes_view(*s),
{
    match s {
        Some(t) => Some(to_owned_bytes(t.as_slice())),
        None => None,
    }
}

impl ParsedOption {
    /// The option `app_option` given with the argument `arg_for_option_os`.
    pub fn new(app_option: AppOption, arg_for_option_os: Vec<u8>, name_type_used: OptionNameTypeUsed) -> (r: ParsedOption)
        ensures
            r@ == option_with_arg(app_option@, arg_for_option_os@, name_type_used),
    {
        let text = lossy_string(arg_for_option_os.as_slice());
        ParsedOption {
            app_option,
            arg_for_option: Some(text),
            arg_for_option_os: Some(arg_for_option_os),
            name_type_used,
        }
    }

    /// The option `app_option` given without argument.
    pub fn new_no_arg(app_option: AppOption, used: OptionNameTypeUsed) -> (r: ParsedOption)
        ensures
            r@ == option_without_arg(app_option@, used),
    {
        ParsedOption { app_option, arg_for_option: None, arg_for_option_os: None, name_type_used: used }
    }

    /// Sets the argument: its bytes, and its text as `String::from_utf8_lossy`
    /// makes it.
    pub fn set_arg_for_option(&mut self, arg_for_option_os: Vec<u8>)
        ensures
            final(self)@ == option_with_arg(old(self)@.app_option, arg_for_option_os@, old(self)@.used),
    {
        self.arg_for_option = Some(lossy_string(arg_for_option_os.as_slice()));
        self.arg_for_option_os = Some(arg_for_option_os);
    }

    /// The text of the argument, or an empty string when there is none.
    pub fn arg_for_option_or_empty_string(&self) -> (r: String)
        ensures
            r@ == arg_or_empty(self@),
    {
        match &self.arg_for_option {
            Some(s) => s.clone(),
            None => String::new(),
        }
    }

    /// A copy of the option.
    pub fn copy(&self) -> (r: ParsedOption)
        ensures
            r@ == self@,
    {
        ParsedOption {
            app_option: self.app_option,
            arg_for_option: copy_string(&self.arg_for_option),
            arg_for_option_os: copy_bytes(&self.arg_for_option_os),
            name_type_used: self.name_type_used,
        }
    }
}

/// The text of an option's argument, or nothing.
pub open spec fn arg_or_empty(p: ParsedOptionV) -> Seq<char> {
    match p.arg {
        Some(s) => s,
        None => Seq::empty(),
    }
}

impl Default for ParsedOption {
    /// A placeholder option, `--dummy`, named by its long name.
    fn default() -> (r: ParsedOption)
        ensures
            r@ == option_without_arg(AppOptionV { long_name: "dummy"@, short: None, has_arg: false }, OptionNameTypeUsed::LongName),
    {
        ParsedOption {
            app_option: AppOption { long_name: "dummy", short: None, has_arg: false },
            arg_for_option: None,
            arg_for_option_os: None,
            name_type_used: OptionNameTypeUsed::LongName,
        }
    }
}

/// The utility that runs, recognised by the name it was called by.
#[derive(Debug, Clone, PartialEq, Eq)]
pub enum Executable {
    Cmp,
    Diff,
    Diff3,
    Patch,
    SDiff,
    /// Any other name, kept as given.
    NotRecognized(Vec<u8>),
}

pub enum ExecutableV {
    Cmp,
    Diff,
    Diff3,
    Patch,
    SDiff,
    NotRecognized(Seq<u8>),
}

impl View for Executable {
    type V = ExecutableV;

    open spec fn view(&self) -> ExecutableV {
        match self {
            Executable::Cmp => ExecutableV::Cmp,
            Executable::Diff => ExecutableV::Diff,
            Executable::Diff3 => ExecutableV::Diff3,
            Executable::Patch => ExecutableV::Patch,
            Executable::SDiff => ExecutableV::SDiff,
            Executable::NotRecognized(n) => ExecutableV::NotRecognized(n@),
        }
    }
}

/// The utility that a name calls: `cmp`, `diff`, `diff3`, `patch` and
/// `sdiff` are recognised.
pub open spec fn executable_of(name: Seq<u8>) -> ExecutableV {
    if name == lit("cmp") {
        ExecutableV::Cmp
    } else if name == lit("diff") {
        ExecutableV::Diff
    } else if name == lit("diff3") {
        ExecutableV::Diff3
    } else if name == lit("patch") {
        ExecutableV::Patch
    } else if name == lit("sdiff") {
        ExecutableV::SDiff
    } else {
        ExecutableV::NotRecognized(name)
    }
}

/// The name of a utility as text.
pub open spec fn executable_text(e: ExecutableV) -> Seq<char> {
    match e {
        ExecutableV::Cmp => "cmp"@,
        ExecutableV::Diff => "diff"@,
        ExecutableV::Diff3 => "diff3"@,
        ExecutableV::SDiff => "sdiff"@,
        ExecutableV::Patch => "patch"@,
        ExecutableV::NotRecognized(n) => lossy_text(n),
    }
}

/// The name of a utility as the operating system's bytes.
pub open spec fn executable_bytes(e: ExecutableV) -> Seq<u8> {
    match e {
        ExecutableV::Cmp => lit("cmp"),
        ExecutableV::Diff => lit("diff"),
        ExecutableV::Diff3 => lit("diff3"),
        ExecutableV::SDiff => lit("sdiff"),
        ExecutableV::Patch => lit("patch"),
        ExecutableV::NotRecognized(n) => n,
    }
}

impl Executable {
    /// The utility that the name `name` calls.
    pub fn from_name(name: &[u8]) -> (r: Executable)
        ensures
            r@ == executable_of(name@),
    {
        if is_lit(name, "cmp") {
            Executable::Cmp
        } else if is_lit(name, "diff") {
            Executable::Diff
        } else if is_lit(name, "diff3") {
            Executable::Diff3
        } else if is_lit(name, "patch") {
            Executable::Patch
        } else if is_lit(name, "sdiff") {
            Executable::SDiff
        } else {
            Executable::NotRecognized(to_owned_bytes(name))
        }
    }

    /// The utility named by the first argument, if there is one.
    pub fn from_args(args: &Vec<Vec<u8>>) -> (r: Option<Executable>)
        ensures
            args@.len() == 0 ==> r is None,
            args@.len() > 0 ==> (r matches Some(e) && e@ == executable_of(args@[0]@)),
    {
        if args.len() == 0 {
            None
        } else {
            Some(Executable::from_name(args[0].as_slice()))
        }
    }

    /// The name of the utility as text.
    pub fn name(&self) -> (r: String)
        ensures
            r@ == executable_text(self@),
    {
        match self {
            Executable::Cmp => String::from_str("cmp"),
            Executable::Diff => String::from_str("diff"),
            Executable::Diff3 => String::from_str("diff3"),
            Executable::SDiff => String::from_str("sdiff"),
            Executable::Patch => String::from_str("patch"),
            Executable::NotRecognized(n) => lossy_string(n.as_slice()),
        }
    }

    /// The name of the utility as the operating system's bytes.
    pub fn executable(&self) -> (r: Vec<u8>)
        ensures
            r@ == executable_bytes(self@),
    {
        match self {
            Executable::Cmp => to_owned_bytes("cmp".as_bytes()),
            Executable::Diff => to_owned_bytes("diff".as_bytes()),
            Executable::Diff3 => to_owned_bytes("diff3".as_bytes()),
            Executable::SDiff => to_owned_bytes("sdiff".as_bytes()),
            Executable::Patch => to_owned_bytes("patch".as_bytes()),
            Executable::NotRecognized(n) => to_owned_bytes(n.as_slice()),
        }
    }

    /// The same as `executable`.
    pub fn to_os_string(&self) -> (r: Vec<u8>)
        ensures
            r@ == executable_bytes(self@),
    {
        self.executable()
    }

    /// A copy of the utility.
    pub fn copy(&self) -> (r: Executable)
        ensures
            r@ == self@,
    {
        match self {
            Executable::Cmp => Executable::Cmp,
            Executable::Diff => Executable::Diff,
            Executable::Diff3 => Executable::Diff3,
            Executable::SDiff => Executable::SDiff,
            Executable::Patch => Executable::Patch,
            Executable::NotRecognized(n) => Executable::NotRecognized(to_owned_bytes(n.as_slice())),
        }
    }
}


/// The errors of reading the arguments.
#[derive(Debug, PartialEq)]
pub enum ParseError {
    /// A shortened long option that fits several options: what was given, and
    /// the options it fits.
    AmbiguousOption(Vec<u8>, Vec<AppOption>),
    /// An argument given to an option that takes none.
    ArgForOptionNotAllowed(ParsedOption),
    /// No argument for an option that needs one.
    ArgForOptionMissing(ParsedOption),
    /// More operands than the utility takes; the first of the extra ones.
    ExtraOperand(Vec<u8>),
    /// A letter that names no option.
    InvalidOption(Vec<u8>),
    /// A number of an option that is no number.
    InvalidValueNumber(ParsedOption),
    /// A number of an option with a unit that is no unit.
    InvalidValueNumberUnit(ParsedOption),
    /// A number of an option too large for 64 bits.
    InvalidValueNumberOverflow(ParsedOption),
    /// No name of the utility.
    NoExecutable,
    /// No operands.
    NoOperands(Executable),
    /// An argument after `=` that starts inside a character.
    NoUnicode(Vec<u8>),
    /// Two options that cannot be given together.
    OptionsIncompatible(AppOption, AppOption),
    /// A long option that names no option.
    UnrecognizedOption(Vec<u8>),
    /// An option that is not implemented yet.
    NotYetImplemented(String),
}

pub enum ParseErrorV {
    AmbiguousOption(Seq<u8>, Seq<AppOptionV>),
    ArgForOptionNotAllowed(ParsedOptionV),
    ArgForOptionMissing(ParsedOptionV),
    ExtraOperand(Seq<u8>),
    InvalidOption(Seq<u8>),
    InvalidValueNumber(ParsedOptionV),
    InvalidValueNumberUnit(ParsedOptionV),
    InvalidValueNumberOverflow(ParsedOptionV),
    NoExecutable,
    NoOperands(ExecutableV),
    NoUnicode(Seq<u8>),
    OptionsIncompatible(AppOptionV, AppOptionV),
    UnrecognizedOption(Seq<u8>),
    NotYetImplemented(Seq<char>),
}

pub open spec fn options_view(v: Seq<AppOption>) -> Seq<AppOptionV> {
    v.map_values(|o: AppOption| o@)
}

impl View for ParseError {
    type V = ParseErrorV;

    open spec fn view(&self) -> ParseErrorV {
        match self {
            ParseError::AmbiguousOption(p, v) => ParseErrorV::AmbiguousOption(p@, options_view(v@)),
            ParseError::ArgForOptionNotAllowed(o) => ParseErrorV::ArgForOptionNotAllowed(o@),
            ParseError::ArgForOptionMissing(o) => ParseErrorV::ArgForOptionMissing(o@),
            ParseError::ExtraOperand(p) => ParseErrorV::ExtraOperand(p@),
            ParseError::InvalidOption(p) => ParseErrorV::InvalidOption(p@),
            ParseError::InvalidValueNumber(o) => ParseErrorV::InvalidValueNumber(o@),
            ParseError::InvalidValueNumberUnit(o) => ParseErrorV::InvalidValueNumberUnit(o@),
            ParseError::InvalidValueNumberOverflow(o) => ParseErrorV::InvalidValueNumberOverflow(o@),
            ParseError::NoExecutable => ParseErrorV::NoExecutable,
            ParseError::NoOperands(e) => ParseErrorV::NoOperands(e@),
            ParseError::NoUnicode(p) => ParseErrorV::NoUnicode(p@),
            ParseError::OptionsIncompatible(a, b) => ParseErrorV::OptionsIncompatible(a@, b@),
            ParseError::UnrecognizedOption(p) => ParseErrorV::UnrecognizedOption(p@),
            ParseError::NotYetImplemented(s) => ParseErrorV::NotYetImplemented(s@),
        }
    }
}

/// The long forms of options, separated by spaces.
pub open spec fn join_long_forms(opts: Seq<AppOptionV>) -> Seq<char>
    decreases opts.len(),
{
    if opts.len() == 0 {
        Seq::empty()
    } else if opts.len() == 1 {
        "--"@ + opts[0].long_name
    } else {
        join_long_forms(opts.drop_last()) + " --"@ + opts.last().long_name
    }
}

/// How error messages name an option: `'--option' (-c)` when it has a short
/// letter, else `--option`.
pub open spec fn error_msg_form(o: AppOptionV) -> Seq<char> {
    match o.short {
        Some(c) => "'--"@ + o.long_name + "' (-"@ + seq![c] + ")"@,
        None => "--"@ + o.long_name,
    }
}

/// The message of an error.
pub open spec fn error_text(e: ParseErrorV) -> Seq<char> {
    match e {
        ParseErrorV::AmbiguousOption(p, v) => "option '"@ + lossy_text(p) + "' is ambiguous; possibilities: "@
            + join_long_forms(v),
        ParseErrorV::ArgForOptionNotAllowed(o) => "option --"@ + o.app_option.long_name
            + " doesn't allow an argument"@,
        ParseErrorV::ArgForOptionMissing(o) => "option "@ + error_msg_form(o.app_option) + " requires an argument"@,
        ParseErrorV::ExtraOperand(p) => "extra operand '"@ + lossy_text(p) + "'"@,
        ParseErrorV::InvalidValueNumber(o) => "invalid "@ + error_msg_form(o.app_option) + " value '"@ + arg_or_empty(o)
            + "'"@,
        ParseErrorV::InvalidValueNumberUnit(o) => "invalid "@ + error_msg_form(o.app_option) + " value '"@
            + arg_or_empty(o) + "'"@,
        ParseErrorV::InvalidValueNumberOverflow(o) => "invalid "@ + error_msg_form(o.app_option) + " value '"@
            + arg_or_empty(o) + "' (too large)"@,
        ParseErrorV::InvalidOption(p) => "invalid option '"@ + lossy_text(p) + "'"@,
        ParseErrorV::NoExecutable => "Expected utility name as second argument, got nothing."@,
        ParseErrorV::NoOperands(e) => "missing operand after '"@ + executable_text(e) + "'"@,
        ParseErrorV::NoUnicode(p) => "Expected utility name as second argument, got nothing."@,
        ParseErrorV::OptionsIncompatible(a, b) => "options "@ + error_msg_form(a) + " and "@ + error_msg_form(b)
            + " are incompatible"@,
        ParseErrorV::UnrecognizedOption(p) => "unrecognized option '"@ + lossy_text(p) + "'"@,
        ParseErrorV::NotYetImplemented(s) => "not yet implemented: option "@ + s,
    }
}

fn join_long_forms_exec(opts: &Vec<AppOption>) -> (r: String)
    ensures
        r@ == join_long_forms(options_view(opts@)),
{
    let mut r = String::new();
    let mut i: usize = 0;
    while i < opts.len()
        invariant
            i <= opts.len(),
            r@ == join_long_forms(options_view(opts@).take(i as int)),
        decreases opts.len() - i,
    {
        let ghost v = options_view(opts@);
        assert(v.take(i + 1).drop_last() =~= v.take(i as int));
        let f = opts[i].format_long();
        if i == 0 {
            r = f;
        } else {
            r = r.concat(" ").concat(f.as_str());
        }
        proof {
            reveal_strlit(" ");
            reveal_strlit("--");
            reveal_strlit(" --");
            assert(v[i as int] == opts@[i as int]@);
            assert(v.take(i + 1).last() == v[i as int]);
            if i == 0 {
                assert(v.take(1)[0] == v[0]);
            }
        }
        assert(r@ =~= join_long_forms(v.take(i + 1)));
        i += 1;
    }
    assert(options_view(opts@).take(opts@.len() as int) =~= options_view(opts@));
    r
}

impl ParseError {
    /// The message of the error.
    pub fn to_text(&self) -> (r: String)
        ensures
            r@ == error_text(self@),
    {
        match self {
            ParseError::AmbiguousOption(p, v) => String::from_str("option '").concat(lossy_string(p.as_slice()).as_str()).concat(
                "' is ambiguous; possibilities: ",
            ).concat(join_long_forms_exec(v).as_str()),
            ParseError::ArgForOptionNotAllowed(o) => String::from_str("option --").concat(o.app_option.long_name).concat(
                " doesn't allow an argument",
            ),
            ParseError::ArgForOptionMissing(o) => String::from_str("option ").concat(
                o.app_option.format_for_error_msg().as_str(),
            ).concat(" requires an argument"),
            ParseError::ExtraOperand(p) => String::from_str("extra operand '").concat(lossy_string(p.as_slice()).as_str()).concat("'"),
            ParseError::InvalidValueNumber(o) | ParseError::InvalidValueNumberUnit(o) => String::from_str("invalid ").concat(
                o.app_option.format_for_error_msg().as_str(),
            ).concat(" value '").concat(o.arg_for_option_or_empty_string().as_str()).concat("'"),
            ParseError::InvalidValueNumberOverflow(o) => String::from_str("invalid ").concat(
                o.app_option.format_for_error_msg().as_str(),
            ).concat(" value '").concat(o.arg_for_option_or_empty_string().as_str()).concat("' (too large)"),
            ParseError::InvalidOption(p) => String::from_str("invalid option '").concat(lossy_string(p.as_slice()).as_str()).concat("'"),
            ParseError::NoExecutable => String::from_str("Expected utility name as second argument, got nothing."),
            ParseError::NoOperands(e) => String::from_str("missing operand after '").concat(e.name().as_str()).concat("'"),
            ParseError::NoUnicode(_) => String::from_str("Expected utility name as second argument, got nothing."),
            ParseError::OptionsIncompatible(a, b) => String::from_str("options ").concat(a.format_for_error_msg().as_str()).concat(
                " and ",
            ).concat(b.format_for_error_msg().as_str()).concat(" are incompatible"),
            ParseError::UnrecognizedOption(p) => String::from_str("unrecognized option '").concat(
                lossy_string(p.as_slice()).as_str(),
            ).concat("'"),
            ParseError::NotYetImplemented(s) => String::from_str("not yet implemented: option ").concat(s.as_str()),
        }
    }
}

/// The message of an error as the utilities print it: `{exe}: {msg}` (the
/// name only once when the message begins with it), then the hint
/// `{exe}: Try '{exe} --help' for more information.`.
pub open spec fn error_message(exe: Seq<char>, msg: Seq<char>) -> Seq<char> {
    let head = exe + ": "@;
    let hint = "\n"@ + head + "Try '"@ + exe + " --help' for more information."@;
    if starts_with_chars(msg, head) {
        msg + hint
    } else {
        head + msg + hint
    }
}

/// The message of an error with the name of the utility and the hint to ask
/// for help.
pub fn format_error_text(executable: &Executable, msg: &str) -> (r: String)
    ensures
        r@ == error_message(executable_text(executable@), msg@),
{
    let name = executable.name();
    let head = name.clone().concat(": ");
    let hint = String::from_str("\n").concat(head.as_str()).concat("Try '").concat(name.as_str()).concat(
        " --help' for more information.",
    );
    if starts_with_str(msg, head.as_str()) {
        String::from_str(msg).concat(hint.as_str())
    } else {
        head.concat(msg).concat(hint.as_str())
    }
}


/// What the reading has found so far: the options and operands, and how the
/// last option-like argument named its option.
pub struct ParserV {
    pub options: Seq<ParsedOptionV>,
    pub operands: Seq<Seq<u8>>,
    pub used: OptionNameTypeUsed,
}

/// The state of the reading: what was found, and whether `--` was seen, after
/// which every argument is an operand.
pub struct ReadV {
    pub p: ParserV,
    pub dd: bool,
}

/// What one argument does: the reading goes on at a later argument with a
/// new state, fails, or reaches a point where it panics.
pub enum PStepV {
    Next(ReadV, int),
    Fail(ParseErrorV),
    Panic,
}

pub open spec fn push_option(st: ReadV, o: ParsedOptionV) -> ReadV {
    ReadV { p: ParserV { options: st.p.options.push(o), ..st.p }, ..st }
}

pub open spec fn push_operand(st: ReadV, os: Seq<u8>) -> ReadV {
    ReadV { p: ParserV { operands: st.p.operands.push(os), ..st.p }, ..st }
}

pub open spec fn with_used(st: ReadV, used: OptionNameTypeUsed) -> ReadV {
    ReadV { p: ParserV { used, ..st.p }, ..st }
}

/// The bytes of a long name.
pub open spec fn long_bytes(o: AppOptionV) -> Seq<u8> {
    encode_utf8(o.long_name)
}

/// The operating system's bytes from `index` on, or an error when the
/// argument is shorter.
pub open spec fn split_prefix(os: Seq<u8>, index: int) -> Result<Seq<u8>, ParseErrorV> {
    if 0 <= index <= os.len() {
        Ok(os.subrange(index, os.len() as int))
    } else {
        Err(ParseErrorV::NoUnicode(os))
    }
}

/// The position of the first `=` in `b` at or after `k`.
pub open spec fn find_eq(b: Seq<u8>, k: int) -> Option<int>
    decreases b.len() - k,
{
    if k < 0 || k >= b.len() {
        None
    } else if b[k] == 61 {
        Some(k)
    } else {
        find_eq(b, k + 1)
    }
}

/// The name part of a long option: after its two dashes, up to an `=`.
pub open spec fn long_param(b: Seq<u8>) -> Seq<u8> {
    match find_eq(b, 2) {
        Some(q) => b.subrange(2, q),
        None => b.subrange(2, b.len() as int),
    }
}

/// Whether the long name of `o` begins with `param`.
pub open spec fn fits(o: AppOptionV, param: Seq<u8>) -> bool {
    long_bytes(o).len() >= param.len() && long_bytes(o).take(param.len() as int) == param
}

/// Whether cutting the long name of `o` after `l` bytes would cut a character
/// (which panics).
pub open spec fn cuts_character(o: AppOptionV, l: int) -> bool {
    long_bytes(o).len() >= l && !vstd::utf8::is_char_boundary(long_bytes(o), l)
}

/// The options whose long names begin with `param`, in order.
pub open spec fn candidates(opts: Seq<AppOptionV>, param: Seq<u8>) -> Seq<AppOptionV>
    decreases opts.len(),
{
    if opts.len() == 0 {
        Seq::empty()
    } else {
        let rest = candidates(opts.drop_last(), param);
        if fits(opts.last(), param) {
            rest.push(opts.last())
        } else {
            rest
        }
    }
}

/// What identifying a long option gives: the option, an error, or a panic.
pub enum IdentV {
    Found(AppOptionV),
    Fail(ParseErrorV),
    Panic,
}

/// The option that the long option `os` names: the only one whose long name
/// begins with what was given (up to an `=`); none is an unrecognized
/// option, several an ambiguous one.
pub open spec fn identify_spec(opts: Seq<AppOptionV>, os: Seq<u8>) -> IdentV {
    let b = lossy_utf8(os);
    let param = long_param(b);
    if os.len() <= 2 || b.len() < 2 || !vstd::utf8::is_char_boundary(b, 2) {
        IdentV::Panic
    } else if exists|k: int| 0 <= k < opts.len() && cuts_character(#[trigger] opts[k], param.len() as int) {
        IdentV::Panic
    } else {
        let c = candidates(opts, param);
        if c.len() == 0 {
            IdentV::Fail(ParseErrorV::UnrecognizedOption(os))
        } else if c.len() == 1 {
            IdentV::Found(c[0])
        } else {
            IdentV::Fail(ParseErrorV::AmbiguousOption(os, c))
        }
    }
}

/// The first option whose letter is `c`.
pub open spec fn first_short(opts: Seq<AppOptionV>, c: char) -> Option<AppOptionV>
    decreases opts.len(),
{
    if opts.len() == 0 {
        None
    } else if opts[0].short == Some(c) {
        Some(opts[0])
    } else {
        first_short(opts.drop_first(), c)
    }
}

pub open spec fn starts_with_dash(b: Seq<u8>) -> bool {
    b.len() > 0 && b[0] == 45
}

/// Completes the argument of a given option, the next argument being at `j`:
/// an option that needs one and has none takes the next argument unless it
/// begins with a dash; an option that takes none must have none.
pub open spec fn add_arg(args: Seq<Seq<u8>>, j: int, p: ParsedOptionV) -> Result<(ParsedOptionV, int), ParseErrorV> {
    if p.app_option.has_arg {
        if p.arg is Some {
            Ok((p, j))
        } else if 0 <= j < args.len() && !starts_with_dash(lossy_utf8(args[j])) {
            Ok((ParsedOptionV { arg: Some(lossy_text(args[j])), ..p }, j + 1))
        } else {
            Err(ParseErrorV::ArgForOptionMissing(p))
        }
    } else if p.arg is Some {
        Err(ParseErrorV::ArgForOptionNotAllowed(p))
    } else {
        Ok((p, j))
    }
}

pub open spec fn after_add(st: ReadV, r: Result<(ParsedOptionV, int), ParseErrorV>) -> PStepV {
    match r {
        Ok((p, j)) => PStepV::Next(push_option(st, p), j),
        Err(e) => PStepV::Fail(e),
    }
}

/// The letters of argument `i` from byte `k` on, each naming an option; one
/// that takes an argument takes the rest of the argument, or else the next
/// argument.
pub open spec fn short_run(opts: Seq<AppOptionV>, args: Seq<Seq<u8>>, i: int, k: int, st: ReadV) -> PStepV
    decreases lossy_utf8(args[i]).len() - k,
{
    let os = args[i];
    let b = lossy_utf8(os);
    if k < 1 || k >= b.len() {
        PStepV::Next(st, i + 1)
    } else if b[k] >= 128 {
        PStepV::Fail(ParseErrorV::InvalidOption(os))
    } else {
        match first_short(opts, b[k] as char) {
            None => PStepV::Fail(ParseErrorV::InvalidOption(os)),
            Some(o) => if o.has_arg {
                if b.len() > k + 1 {
                    match split_prefix(os, k + 1) {
                        Ok(a) => PStepV::Next(push_option(st, option_with_arg(o, a, OptionNameTypeUsed::ShortName)), i + 1),
                        Err(e) => PStepV::Fail(e),
                    }
                } else if i + 1 < args.len() {
                    PStepV::Next(push_option(st, option_with_arg(o, args[i + 1], OptionNameTypeUsed::ShortName)), i + 2)
                } else {
                    PStepV::Fail(ParseErrorV::ArgForOptionMissing(option_without_arg(o, OptionNameTypeUsed::ShortName)))
                }
            } else {
                let st2 = push_option(st, option_without_arg(o, OptionNameTypeUsed::ShortName));
                if k + 1 < b.len() {
                    short_run(opts, args, i, k + 1, st2)
                } else {
                    PStepV::Next(st2, i + 1)
                }
            },
        }
    }
}

/// A long option in argument `i`: its argument after an `=`, the option its
/// name (perhaps shortened) names, and the argument it may need.
pub open spec fn long_step(opts: Seq<AppOptionV>, args: Seq<Seq<u8>>, i: int, st: ReadV) -> PStepV {
    let os = args[i];
    let b = lossy_utf8(os);
    let arg: Result<Option<Seq<u8>>, ParseErrorV> = match find_eq(b, 2) {
        Some(q) => match split_prefix(os, q + 1) {
            Ok(a) => Ok(Some(a)),
            Err(e) => Err(e),
        },
        None => Ok(None),
    };
    match arg {
        Err(e) => PStepV::Fail(e),
        Ok(a) => match identify_spec(opts, os) {
            IdentV::Panic => PStepV::Panic,
            IdentV::Fail(e) => PStepV::Fail(e),
            IdentV::Found(o) => {
                let p = match a {
                    Some(x) => option_with_arg(o, x, OptionNameTypeUsed::LongName),
                    None => option_without_arg(o, OptionNameTypeUsed::LongName),
                };
                after_add(st, add_arg(args, i + 1, p))
            },
        },
    }
}

/// What argument `i` does. An empty argument panics. One that does not begin
/// with a dash, a lone dash, and every argument after `--` are operands.
/// Then `--name...` is a long option, `-x` one letter, `-xyz...` several
/// letters, and a lone `--` starts the operands. Only letters that are ASCII
/// name options.
#[verifier::opaque]
pub open spec fn arg_step(opts: Seq<AppOptionV>, args: Seq<Seq<u8>>, i: int, st: ReadV) -> PStepV {
    let os = args[i];
    let b = lossy_utf8(os);
    if b.len() == 0 {
        PStepV::Panic
    } else if b[0] != 45 || b == seq![45u8] || st.dd {
        PStepV::Next(push_operand(st, os), i + 1)
    } else if b[1] >= 128 {
        PStepV::Fail(ParseErrorV::InvalidOption(os))
    } else if b.len() > 2 {
        if b[1] == 45 {
            long_step(opts, args, i, with_used(st, OptionNameTypeUsed::LongName))
        } else {
            short_run(opts, args, i, 1, with_used(st, OptionNameTypeUsed::ShortName))
        }
    } else {
        let st2 = with_used(st, OptionNameTypeUsed::ShortName);
        match first_short(opts, b[1] as char) {
            Some(o) => after_add(st2, add_arg(args, i + 1, option_without_arg(o, OptionNameTypeUsed::ShortName))),
            None => if b[1] == 45 {
                PStepV::Next(ReadV { dd: true, ..st2 }, i + 1)
            } else {
                PStepV::Fail(ParseErrorV::InvalidOption(os))
            },
        }
    }
}

/// How the reading of the arguments from `i` on ends.
pub enum RunV {
    Done(ReadV),
    Fail(ParseErrorV),
    Panic,
}

pub open spec fn parse_run(opts: Seq<AppOptionV>, args: Seq<Seq<u8>>, i: int, st: ReadV) -> RunV
    decreases args.len() - i,
{
    if i < 0 || i >= args.len() {
        RunV::Done(st)
    } else {
        match arg_step(opts, args, i, st) {
            PStepV::Next(st2, j) => if i < j <= args.len() {
                parse_run(opts, args, j, st2)
            } else {
                RunV::Done(st2)
            },
            PStepV::Fail(e) => RunV::Fail(e),
            PStepV::Panic => RunV::Panic,
        }
    }
}

/// Whether option `o` was given.
pub open spec fn has_option(options: Seq<ParsedOptionV>, o: AppOptionV) -> bool {
    exists|k: int| 0 <= k < options.len() && (#[trigger] options[k]).app_option == o
}

/// The result when `o` (help or version) was asked for: that option alone.
pub open spec fn only_option(p: ParserV, o: AppOptionV) -> ParserV {
    ParserV { options: seq![option_without_arg(o, p.used)], operands: Seq::empty(), used: p.used }
}

/// How reading the arguments ends.
pub enum ParseV {
    Parsed(ParserV),
    Fail(ParseErrorV),
    Panic,
}

pub open spec fn start_read() -> ReadV {
    ReadV { p: ParserV { options: Seq::empty(), operands: Seq::empty(), used: OptionNameTypeUsed::NotSet }, dd: false }
}

/// Reading the arguments with the options `opts`: when `--help` or
/// `--version` was given (help first), that option alone is the result.
pub open spec fn parse_spec(opts: Seq<AppOptionV>, args: Seq<Seq<u8>>) -> ParseV {
    match parse_run(opts, args, 0, start_read()) {
        RunV::Done(st) => if has_option(st.p.options, help_option()) {
            ParseV::Parsed(only_option(st.p, help_option()))
        } else if has_option(st.p.options, version_option()) {
            ParseV::Parsed(only_option(st.p, version_option()))
        } else {
            ParseV::Parsed(st.p)
        },
        RunV::Fail(e) => ParseV::Fail(e),
        RunV::Panic => ParseV::Panic,
    }
}


/// Whether every option found is among `opts`.
pub open spec fn known_options(opts: Seq<AppOptionV>, options: Seq<ParsedOptionV>) -> bool {
    forall|k: int| 0 <= k < options.len() ==> opts.contains(#[trigger] options[k].app_option)
}

proof fn lemma_first_short_in(opts: Seq<AppOptionV>, c: char)
    ensures
        first_short(opts, c) matches Some(o) ==> opts.contains(o),
    decreases opts.len(),
{
    if opts.len() > 0 && opts[0].short != Some(c) {
        lemma_first_short_in(opts.drop_first(), c);
        if let Some(o) = first_short(opts.drop_first(), c) {
            let k = choose|k: int| 0 <= k < opts.drop_first().len() && opts.drop_first()[k] == o;
            assert(opts[k + 1] == o);
        }
    } else if opts.len() > 0 {
        assert(opts[0] == opts[0]);
    }
}

proof fn lemma_candidates_in(opts: Seq<AppOptionV>, param: Seq<u8>)
    ensures
        forall|k: int| 0 <= k < candidates(opts, param).len() ==> opts.contains(#[trigger] candidates(opts, param)[k]),
    decreases opts.len(),
{
    if opts.len() > 0 {
        let rest = candidates(opts.drop_last(), param);
        lemma_candidates_in(opts.drop_last(), param);
        assert forall|k: int| 0 <= k < candidates(opts, param).len() implies opts.contains(#[trigger] candidates(opts, param)[k]) by {
            if k < rest.len() {
                let m = choose|m: int| 0 <= m < opts.drop_last().len() && opts.drop_last()[m] == rest[k];
                assert(opts[m] == rest[k]);
            } else {
                assert(opts[opts.len() - 1] == opts.last());
            }
        }
    }
}

proof fn lemma_push_known(opts: Seq<AppOptionV>, st: ReadV, p: ParsedOptionV)
    requires
        known_options(opts, st.p.options),
        opts.contains(p.app_option),
    ensures
        known_options(opts, push_option(st, p).p.options),
{
    let o2 = push_option(st, p).p.options;
    assert forall|k: int| 0 <= k < o2.len() implies opts.contains(#[trigger] o2[k].app_option) by {
        if k < st.p.options.len() {
            assert(o2[k] == st.p.options[k]);
        }
    }
}

proof fn lemma_short_run_known(opts: Seq<AppOptionV>, args: Seq<Seq<u8>>, i: int, k: int, st: ReadV)
    requires
        0 <= i < args.len(),
        known_options(opts, st.p.options),
    ensures
        short_run(opts, args, i, k, st) matches PStepV::Next(st2, _) ==> known_options(opts, st2.p.options),
    decreases lossy_utf8(args[i]).len() - k,
{
    let b = lossy_utf8(args[i]);
    if 1 <= k < b.len() && b[k] < 128 {
        lemma_first_short_in(opts, b[k] as char);
        if let Some(o) = first_short(opts, b[k] as char) {
            if o.has_arg {
                if b.len() > k + 1 {
                    if let Ok(a) = split_prefix(args[i], k + 1) {
                        lemma_push_known(opts, st, option_with_arg(o, a, OptionNameTypeUsed::ShortName));
                    }
                } else if i + 1 < args.len() {
                    lemma_push_known(opts, st, option_with_arg(o, args[i + 1], OptionNameTypeUsed::ShortName));
                }
            } else {
                let st2 = push_option(st, option_without_arg(o, OptionNameTypeUsed::ShortName));
                lemma_push_known(opts, st, option_without_arg(o, OptionNameTypeUsed::ShortName));
                if k + 1 < b.len() {
                    lemma_short_run_known(opts, args, i, k + 1, st2);
                }
            }
        }
    }
}

proof fn lemma_add_known(opts: Seq<AppOptionV>, args: Seq<Seq<u8>>, j: int, st: ReadV, p: ParsedOptionV)
    requires
        known_options(opts, st.p.options),
        opts.contains(p.app_option),
    ensures
        after_add(st, add_arg(args, j, p)) matches PStepV::Next(st2, _) ==> known_options(opts, st2.p.options),
{
    if let Ok((p2, j2)) = add_arg(args, j, p) {
        assert(p2.app_option == p.app_option);
        lemma_push_known(opts, st, p2);
    }
}

proof fn lemma_arg_step_known(opts: Seq<AppOptionV>, args: Seq<Seq<u8>>, i: int, st: ReadV)
    requires
        0 <= i < args.len(),
        known_options(opts, st.p.options),
    ensures
        arg_step(opts, args, i, st) matches PStepV::Next(st2, _) ==> known_options(opts, st2.p.options),
{
    reveal(arg_step);
    let os = args[i];
    let b = lossy_utf8(os);
    if b.len() == 0 {
    } else if b[0] != 45 || b == seq![45u8] || st.dd {
        let st2 = push_operand(st, os);
        assert(st2.p.options == st.p.options);
    } else if b[1] >= 128 {
    } else if b.len() > 2 {
        if b[1] == 45 {
            let st1 = with_used(st, OptionNameTypeUsed::LongName);
            assert(st1.p.options == st.p.options);
            if let IdentV::Found(o) = identify_spec(opts, os) {
                let param = long_param(b);
                lemma_candidates_in(opts, param);
                assert(candidates(opts, param)[0] == o);
                let arg: Result<Option<Seq<u8>>, ParseErrorV> = match find_eq(b, 2) {
                    Some(q) => match split_prefix(os, q + 1) {
                        Ok(a) => Ok(Some(a)),
                        Err(e) => Err(e),
                    },
                    None => Ok(None),
                };
                if let Ok(a) = arg {
                    let p = match a {
                        Some(x) => option_with_arg(o, x, OptionNameTypeUsed::LongName),
                        None => option_without_arg(o, OptionNameTypeUsed::LongName),
                    };
                    lemma_add_known(opts, args, i + 1, st1, p);
                }
            }
        } else {
            let st1 = with_used(st, OptionNameTypeUsed::ShortName);
            assert(st1.p.options == st.p.options);
            lemma_short_run_known(opts, args, i, 1, st1);
        }
    } else {
        let st2 = with_used(st, OptionNameTypeUsed::ShortName);
        assert(st2.p.options == st.p.options);
        lemma_first_short_in(opts, b[1] as char);
        if let Some(o) = first_short(opts, b[1] as char) {
            lemma_add_known(opts, args, i + 1, st2, option_without_arg(o, OptionNameTypeUsed::ShortName));
        }
    }
}

proof fn lemma_run_known(opts: Seq<AppOptionV>, args: Seq<Seq<u8>>, i: int, st: ReadV)
    requires
        known_options(opts, st.p.options),
    ensures
        parse_run(opts, args, i, st) matches RunV::Done(st2) ==> known_options(opts, st2.p.options),
    decreases args.len() - i,
{
    if 0 <= i < args.len() {
        lemma_arg_step_known(opts, args, i, st);
        if let PStepV::Next(st2, j) = arg_step(opts, args, i, st) {
            if i < j <= args.len() {
                lemma_run_known(opts, args, j, st2);
            }
        }
    }
}

/// The parser finds only options of the table it is given, besides `--help`
/// and `--version`: every option in a successful result is one of `opts`, or
/// help or version alone.
pub proof fn lemma_parsed_options_known(opts: Seq<AppOptionV>, args: Seq<Seq<u8>>)
    ensures
        parse_spec(opts, args) matches ParseV::Parsed(p) ==> known_options(opts, p.options)
            || p.options == seq![option_without_arg(help_option(), p.used)]
            || p.options == seq![option_without_arg(version_option(), p.used)],
{
    assert(known_options(opts, start_read().p.options));
    lemma_run_known(opts, args, 0, start_read());
}



/// The options and operands found in the arguments of a utility, and how the
/// last option-like argument named its option.
#[derive(Debug)]
pub struct Parser {
    pub options_parsed: Vec<ParsedOption>,
    pub operands: Vec<Vec<u8>>,
    pub name_type_used: OptionNameTypeUsed,
}

pub open spec fn parsed_view(v: Seq<ParsedOption>) -> Seq<ParsedOptionV> {
    Seq::new(v.len(), |k: int| v[k]@)
}

impl View for Parser {
    type V = ParserV;

    open spec fn view(&self) -> ParserV {
        ParserV {
            options: parsed_view(self.options_parsed@),
            operands: lines_of(self.operands@),
            used: self.name_type_used,
        }
    }
}

impl Default for Parser {
    fn default() -> (r: Parser)
        ensures
            r@ == start_read().p,
    {
        let r = Parser { options_parsed: Vec::new(), operands: Vec::new(), name_type_used: OptionNameTypeUsed::NotSet };
        assert(r@.options =~= Seq::<ParsedOptionV>::empty());
        assert(r@.operands =~= Seq::<Seq<u8>>::empty());
        r
    }
}

struct Reading {
    parser: Parser,
    dd: bool,
}

impl View for Reading {
    type V = ReadV;

    closed spec fn view(&self) -> ReadV {
        ReadV { p: self.parser@, dd: self.dd }
    }
}

enum StepE {
    Next(Reading, usize),
    Fail(ParseError),
    Panic,
}

spec fn step_view(r: StepE) -> PStepV {
    match r {
        StepE::Next(st, j) => PStepV::Next(st@, j as int),
        StepE::Fail(e) => PStepV::Fail(e@),
        StepE::Panic => PStepV::Panic,
    }
}

fn push_opt(st: Reading, p: ParsedOption) -> (r: Reading)
    ensures
        r@ == push_option(st@, p@),
{
    let mut st = st;
    let ghost old_v = st.parser.options_parsed@;
    st.parser.options_parsed.push(p);
    assert(parsed_view(st.parser.options_parsed@) =~= parsed_view(old_v).push(p@));
    st
}

fn push_operand_exec(st: Reading, os: Vec<u8>) -> (r: Reading)
    ensures
        r@ == push_operand(st@, os@),
{
    let mut st = st;
    let ghost old_v = st.parser.operands@;
    st.parser.operands.push(os);
    assert(lines_of(st.parser.operands@) =~= lines_of(old_v).push(os@));
    st
}

fn set_used(st: Reading, used: OptionNameTypeUsed) -> (r: Reading)
    ensures
        r@ == with_used(st@, used),
{
    let mut st = st;
    st.parser.name_type_used = used;
    st
}

pub open spec fn split_view(r: Result<Vec<u8>, ParseError>) -> Result<Seq<u8>, ParseErrorV> {
    match r {
        Ok(v) => Ok(v@),
        Err(e) => Err(e@),
    }
}

impl Parser {
    /// The operating system's bytes of `os_str` from `index` on, or
    /// `NoUnicode` when it is shorter.
    pub fn split_os_prefix(os_str: &[u8], index: usize) -> (r: Result<Vec<u8>, ParseError>)
        ensures
            split_view(r) == split_prefix(os_str@, index as int),
    {
        if index <= os_str.len() {
            let tail: &[u8] = &os_str[index..os_str.len()];
            Ok(to_owned_bytes(tail))
        } else {
            Err(ParseError::NoUnicode(to_owned_bytes(os_str)))
        }
    }
}

fn find_eq_exec(b: &[u8], k: usize) -> (r: Option<usize>)
    ensures
        match r {
            Some(q) => find_eq(b@, k as int) == Some(q as int),
            None => find_eq(b@, k as int) is None,
        },
{
    let mut q = k;
    while q < b.len()
        invariant
            k <= q,
            find_eq(b@, q as int) == find_eq(b@, k as int),
        decreases b.len() - q,
    {
        if b[q] == 61u8 {
            return Some(q);
        }
        q += 1;
    }
    None
}

pub open spec fn opt_app_view(r: Option<AppOption>) -> Option<AppOptionV> {
    match r {
        Some(o) => Some(o@),
        None => None,
    }
}

fn first_short_exec(opts: &[AppOption], c: char) -> (r: Option<AppOption>)
    ensures
        opt_app_view(r) == first_short(options_view(opts@), c),
{
    let ghost all = options_view(opts@);
    let mut i: usize = 0;
    assert(all.skip(0) =~= all);
    while i < opts.len()
        invariant
            i <= opts.len(),
            all == options_view(opts@),
            first_short(all.skip(i as int), c) == first_short(all, c),
        decreases opts.len() - i,
    {
        let ghost v = all.skip(i as int);
        assert(v.drop_first() =~= all.skip(i + 1));
        assert(v[0] == opts@[i as int]@);
        let o = opts[i];
        match o.short {
            Some(s) => {
                if s == c {
                    return Some(o);
                }
            },
            None => {},
        }
        i += 1;
    }
    assert(all.skip(i as int) =~= Seq::<AppOptionV>::empty());
    None
}

enum Ident {
    Found(AppOption),
    Fail(ParseError),
    Panic,
}

spec fn ident_view(r: Ident) -> IdentV {
    match r {
        Ident::Found(o) => IdentV::Found(o@),
        Ident::Fail(e) => IdentV::Fail(e@),
        Ident::Panic => IdentV::Panic,
    }
}

fn identify_exec(opts: &[AppOption], os: &[u8]) -> (r: Ident)
    ensures
        ident_view(r) == identify_spec(options_view(opts@), os@),
{
    let ghost ov = options_view(opts@);
    if os.len() <= 2 {
        return Ident::Panic;
    }
    let b = utf8_lossy(os);
    if b.len() < 2 {
        return Ident::Panic;
    }
    let text = match crate::unicode::utf8_str(b.as_slice()) {
        Some(t) => t,
        None => {
            return Ident::Panic;
        },
    };
    proof {
        vstd::utf8::decode_utf8_encode_utf8(b@);
    }
    assert(text.spec_bytes() == b@);
    if !text.is_char_boundary(2) {
        return Ident::Panic;
    }
    let end = match find_eq_exec(b.as_slice(), 2) {
        Some(q) => q,
        None => b.len(),
    };
    proof {
        if find_eq(b@, 2) is Some {
            lemma_find_eq(b@, 2);
        }
    }
    let param: &[u8] = &b.as_slice()[2..end];
    assert(param@ =~= long_param(b@));
    let l = end - 2;
    let mut k: usize = 0;
    while k < opts.len()
        invariant
            k <= opts.len(),
            os@.len() > 2,
            ov == options_view(opts@),
            param@ == long_param(lossy_utf8(os@)),
            l == param@.len(),
            forall|m: int| 0 <= m < k ==> !cuts_character(#[trigger] ov[m], l as int),
        decreases opts.len() - k,
    {
        let name = opts[k].long_name;
        assert(ov[k as int] == opts@[k as int]@);
        assert(name@ == ov[k as int].long_name);
        assert(name.spec_bytes() == long_bytes(ov[k as int]));
        let n = name.as_bytes().len();
        assert(n == long_bytes(ov[k as int]).len());
        if n >= l {
            let boundary = name.is_char_boundary(l);
            assert(boundary == vstd::utf8::is_char_boundary(long_bytes(ov[k as int]), l as int));
            if !boundary {
                assert(cuts_character(ov[k as int], l as int));
                return Ident::Panic;
            }
        }
        assert(!cuts_character(ov[k as int], l as int));
        k += 1;
    }
    let mut cands: Vec<AppOption> = Vec::new();
    let mut k: usize = 0;
    while k < opts.len()
        invariant
            k <= opts.len(),
            ov == options_view(opts@),
            l == param@.len(),
            options_view(cands@) == candidates(ov.take(k as int), param@),
        decreases opts.len() - k,
    {
        let o = opts[k];
        let bytes = o.long_name.as_bytes();
        assert(ov.take(k + 1).drop_last() =~= ov.take(k as int));
        assert(ov.take(k + 1).last() == o@);
        let fit = if bytes.len() >= l {
            let head: &[u8] = &bytes[0..l];
            assert(head@ =~= long_bytes(o@).take(l as int));
            are_files_identical(head, param)
        } else {
            false
        };
        assert(fit == fits(o@, param@));
        if fit {
            let ghost before = cands@;
            cands.push(o);
            assert(options_view(cands@) =~= options_view(before).push(o@));
        }
        k += 1;
    }
    assert(ov.take(opts@.len() as int) =~= ov);
    if cands.len() == 0 {
        Ident::Fail(ParseError::UnrecognizedOption(to_owned_bytes(os)))
    } else if cands.len() == 1 {
        Ident::Found(cands[0])
    } else {
        Ident::Fail(ParseError::AmbiguousOption(to_owned_bytes(os), cands))
    }
}

proof fn lemma_find_eq(b: Seq<u8>, k: int)
    requires
        find_eq(b, k) is Some,
    ensures
        match find_eq(b, k) {
            Some(q) => k <= q < b.len() && b[q] == 61,
            None => true,
        },
    decreases b.len() - k,
{
    if 0 <= k < b.len() && b[k] != 61 {
        lemma_find_eq(b, k + 1);
    }
}

impl Parser {
    /// The option that the long option `param_os` (which begins with `--`)
    /// names: the only one whose long name begins with what was given up to an
    /// `=`; none is `UnrecognizedOption`, several `AmbiguousOption`.
    pub fn identify_option_from_partial_text(param_os: &[u8], app_options: &[AppOption]) -> (r: Result<AppOption, ParseError>)
        requires
            !(identify_spec(options_view(app_options@), param_os@) is Panic),
        ensures
            match r {
                Ok(o) => identify_spec(options_view(app_options@), param_os@) == IdentV::Found(o@),
                Err(e) => identify_spec(options_view(app_options@), param_os@) == IdentV::Fail(e@),
            },
    {
        match identify_exec(app_options, param_os) {
            Ident::Found(o) => Ok(o),
            Ident::Fail(e) => Err(e),
            Ident::Panic => Err(ParseError::NoExecutable),
        }
    }
}

impl Parser {
    /// Whether identifying the long option `param_os` panics: when it is no
    /// longer than `--`, or when cutting a long name after the length of what
    /// was given would cut a character.
    pub fn identify_panics(param_os: &[u8], app_options: &[AppOption]) -> (r: bool)
        ensures
            r == (identify_spec(options_view(app_options@), param_os@) is Panic),
    {
        match identify_exec(app_options, param_os) {
            Ident::Panic => true,
            _ => false,
        }
    }

    /// The option that the long option `param_os` names, or `None` where
    /// identifying it panics.
    pub fn identify_option_checked(param_os: &[u8], app_options: &[AppOption]) -> (r: Option<Result<AppOption, ParseError>>)
        ensures
            r is None <==> identify_spec(options_view(app_options@), param_os@) is Panic,
            r matches Some(Ok(o)) ==> identify_spec(options_view(app_options@), param_os@) == IdentV::Found(o@),
            r matches Some(Err(e)) ==> identify_spec(options_view(app_options@), param_os@) == IdentV::Fail(e@),
    {
        if Parser::identify_panics(param_os, app_options) {
            None
        } else {
            Some(Parser::identify_option_from_partial_text(param_os, app_options))
        }
    }
}

pub open spec fn add_view(r: Result<(ParsedOption, usize), ParseError>) -> Result<(ParsedOptionV, int), ParseErrorV> {
    match r {
        Ok((p, j)) => Ok((p@, j as int)),
        Err(e) => Err(e@),
    }
}

impl ParsedOption {
    /// Completes the argument of the option, the next argument being
    /// `args[j]`; returns the option and where the reading goes on.
    pub fn check_add_arg(self, args: &Vec<Vec<u8>>, j: usize) -> (r: Result<(ParsedOption, usize), ParseError>)
        ensures
            add_view(r) == add_arg(lines_of(args@), j as int, self@),
    {
        let p = self;
        if p.app_option.has_arg {
            if p.arg_for_option.is_some() {
                return Ok((p, j));
            }
            if j < args.len() {
                let nb = utf8_lossy(args[j].as_slice());
                if !(nb.len() > 0 && nb[0] == 45u8) {
                    let mut q = p;
                    q.arg_for_option = Some(lossy_string(args[j].as_slice()));
                    return Ok((q, j + 1));
                }
            }
            Err(ParseError::ArgForOptionMissing(p))
        } else if p.arg_for_option.is_some() {
            Err(ParseError::ArgForOptionNotAllowed(p))
        } else {
            Ok((p, j))
        }
    }
}

fn after_add_exec(st: Reading, r: Result<(ParsedOption, usize), ParseError>) -> (s: StepE)
    ensures
        step_view(s) == after_add(st@, add_view(r)),
{
    match r {
        Ok((p, j)) => StepE::Next(push_opt(st, p), j),
        Err(e) => StepE::Fail(e),
    }
}

fn short_run_exec(opts: &[AppOption], args: &Vec<Vec<u8>>, i: usize, start: Reading) -> (r: StepE)
    requires
        i < args.len(),
        lossy_utf8(args@[i as int]@).len() > 1,
    ensures
        step_view(r) == short_run(options_view(opts@), lines_of(args@), i as int, 1, start@),
{
    let ghost ov = options_view(opts@);
    let ghost a = lines_of(args@);
    let ghost st0 = start@;
    let os = args[i].as_slice();
    let b = utf8_lossy(os);
    let mut st = start;
    let mut k: usize = 1;
    loop
        invariant
            i < args.len(),
            1 <= k < b@.len(),
            a == lines_of(args@),
            ov == options_view(opts@),
            os@ == a[i as int],
            b@ == lossy_utf8(a[i as int]),
            st0 == start@,
            short_run(ov, a, i as int, k as int, st@) == short_run(ov, a, i as int, 1, st0),
        decreases b@.len() - k,
    {
        let c = b[k];
        assert(b@[k as int] == c);
        if c >= 128u8 {
            return StepE::Fail(ParseError::InvalidOption(to_owned_bytes(os)));
        }
        match first_short_exec(opts, c as char) {
            None => {
                return StepE::Fail(ParseError::InvalidOption(to_owned_bytes(os)));
            },
            Some(o) => {
                if o.has_arg {
                    if b.len() - k > 1 {
                        match Parser::split_os_prefix(os, k + 1) {
                            Ok(arg) => {
                                return StepE::Next(push_opt(st, ParsedOption::new(o, arg, OptionNameTypeUsed::ShortName)), i + 1);
                            },
                            Err(e) => {
                                return StepE::Fail(e);
                            },
                        }
                    } else if i + 1 < args.len() {
                        let arg = to_owned_bytes(args[i + 1].as_slice());
                        return StepE::Next(push_opt(st, ParsedOption::new(o, arg, OptionNameTypeUsed::ShortName)), i + 2);
                    } else {
                        return StepE::Fail(
                            ParseError::ArgForOptionMissing(ParsedOption::new_no_arg(o, OptionNameTypeUsed::ShortName)),
                        );
                    }
                } else {
                    st = push_opt(st, ParsedOption::new_no_arg(o, OptionNameTypeUsed::ShortName));
                    if b.len() - k > 1 {
                        k += 1;
                    } else {
                        return StepE::Next(st, i + 1);
                    }
                }
            },
        }
    }
}

fn long_step_exec(opts: &[AppOption], args: &Vec<Vec<u8>>, i: usize, st: Reading) -> (r: StepE)
    requires
        i < args.len(),
        lossy_utf8(args@[i as int]@).len() > 2,
    ensures
        step_view(r) == long_step(options_view(opts@), lines_of(args@), i as int, st@),
{
    let os = args[i].as_slice();
    let b = utf8_lossy(os);
    let _n = b.len();
    let arg: Option<Vec<u8>> = match find_eq_exec(b.as_slice(), 2) {
        Some(q) => {
            proof {
                lemma_find_eq(b@, 2);
            }
            match Parser::split_os_prefix(os, q + 1) {
                Ok(a) => Some(a),
                Err(e) => {
                    return StepE::Fail(e);
                },
            }
        },
        None => None,
    };
    match identify_exec(opts, os) {
        Ident::Panic => StepE::Panic,
        Ident::Fail(e) => StepE::Fail(e),
        Ident::Found(o) => {
            let p = match arg {
                Some(x) => ParsedOption::new(o, x, OptionNameTypeUsed::LongName),
                None => ParsedOption::new_no_arg(o, OptionNameTypeUsed::LongName),
            };
            after_add_exec(st, p.check_add_arg(args, i + 1))
        },
    }
}

fn arg_step_exec(opts: &[AppOption], args: &Vec<Vec<u8>>, i: usize, st: Reading) -> (r: StepE)
    requires
        i < args.len(),
    ensures
        step_view(r) == arg_step(options_view(opts@), lines_of(args@), i as int, st@),
{
    reveal(arg_step);
    let os = args[i].as_slice();
    let b = utf8_lossy(os);
    if b.len() == 0 {
        return StepE::Panic;
    }
    if b[0] != 45u8 || b.len() == 1 || st.dd {
        proof {
            if b[0] == 45u8 && b.len() == 1 {
                assert(b@ =~= seq![45u8]);
            }
        }
        return StepE::Next(push_operand_exec(st, to_owned_bytes(os)), i + 1);
    }
    assert(b@ != seq![45u8]);
    if b[1] >= 128u8 {
        return StepE::Fail(ParseError::InvalidOption(to_owned_bytes(os)));
    }
    if b.len() > 2 {
        if b[1] == 45u8 {
            long_step_exec(opts, args, i, set_used(st, OptionNameTypeUsed::LongName))
        } else {
            short_run_exec(opts, args, i, set_used(st, OptionNameTypeUsed::ShortName))
        }
    } else {
        let st2 = set_used(st, OptionNameTypeUsed::ShortName);
        match first_short_exec(opts, b[1] as char) {
            Some(o) => after_add_exec(
                st2,
                ParsedOption::new_no_arg(o, OptionNameTypeUsed::ShortName).check_add_arg(args, i + 1),
            ),
            None => {
                if b[1] == 45u8 {
                    let mut st3 = st2;
                    st3.dd = true;
                    StepE::Next(st3, i + 1)
                } else {
                    StepE::Fail(ParseError::InvalidOption(to_owned_bytes(os)))
                }
            },
        }
    }
}

/// How reading the arguments ended.
pub enum ParseOutcome {
    Parsed(Parser),
    Fail(ParseError),
    Panic,
}

pub open spec fn outcome_view(r: ParseOutcome) -> ParseV {
    match r {
        ParseOutcome::Parsed(p) => ParseV::Parsed(p@),
        ParseOutcome::Fail(e) => ParseV::Fail(e@),
        ParseOutcome::Panic => ParseV::Panic,
    }
}

impl Parser {
    /// Whether `--help` was given.
    pub fn is_help(&self) -> (r: bool)
        ensures
            r == has_option(self@.options, help_option()),
    {
        self.has(opt_help())
    }

    /// Whether `--version` was given.
    pub fn is_version(&self) -> (r: bool)
        ensures
            r == has_option(self@.options, version_option()),
    {
        self.has(opt_version())
    }

    fn has(&self, o: AppOption) -> (r: bool)
        ensures
            r == has_option(self@.options, o@),
    {
        let mut k: usize = 0;
        while k < self.options_parsed.len()
            invariant
                k <= self.options_parsed.len(),
                forall|m: int| 0 <= m < k ==> (#[trigger] self@.options[m]).app_option != o@,
            decreases self.options_parsed.len() - k,
        {
            assert(self@.options[k as int] == self.options_parsed@[k as int]@);
            if same_option(&self.options_parsed[k].app_option, &o) {
                return true;
            }
            k += 1;
        }
        false
    }

    fn set_only_option(&mut self, option: AppOption)
        ensures
            final(self)@ == only_option(old(self)@, option@),
    {
        self.options_parsed = vec![ParsedOption::new_no_arg(option, self.name_type_used)];
        self.operands = Vec::new();
        assert(self@.options =~= seq![option_without_arg(option@, old(self)@.used)]);
        assert(self@.operands =~= Seq::<Seq<u8>>::empty());
    }

    /// Reads the arguments of a utility (without its name) as options among
    /// `app_options` and operands, telling also where the reading panics.
    pub fn parse_outcome(app_options: &[AppOption], args: &Vec<Vec<u8>>) -> (r: ParseOutcome)
        ensures
            outcome_view(r) == parse_spec(options_view(app_options@), lines_of(args@)),
    {
        let ghost ov = options_view(app_options@);
        let ghost a = lines_of(args@);
        let mut st = Reading { parser: Parser::default(), dd: false };
        let mut i: usize = 0;
        let ghost whole = parse_run(ov, a, 0, start_read());
        while i < args.len()
            invariant
                i <= args.len(),
                ov == options_view(app_options@),
                a == lines_of(args@),
                whole == parse_run(ov, a, 0, start_read()),
                parse_run(ov, a, i as int, st@) == whole,
            decreases args.len() - i,
        {
            let ghost pre = st@;
            let r = arg_step_exec(app_options, args, i, st);
            assert(parse_run(ov, a, i as int, pre) == match arg_step(ov, a, i as int, pre) {
                PStepV::Next(st2, j) => if i < j <= a.len() {
                    parse_run(ov, a, j, st2)
                } else {
                    RunV::Done(st2)
                },
                PStepV::Fail(e) => RunV::Fail(e),
                PStepV::Panic => RunV::Panic,
            });
            match r {
                StepE::Next(s2, j) => {
                    if i < j && j <= args.len() {
                        st = s2;
                        i = j;
                    } else {
                        return Parser::finish(s2, Ghost(whole));
                    }
                },
                StepE::Fail(e) => {
                    return ParseOutcome::Fail(e);
                },
                StepE::Panic => {
                    return ParseOutcome::Panic;
                },
            }
        }
        Parser::finish(st, Ghost(whole))
    }

    fn finish(st: Reading, Ghost(whole): Ghost<RunV>) -> (r: ParseOutcome)
        requires
            whole == RunV::Done(st@),
        ensures
            outcome_view(r) == match whole {
                RunV::Done(s) => if has_option(s.p.options, help_option()) {
                    ParseV::Parsed(only_option(s.p, help_option()))
                } else if has_option(s.p.options, version_option()) {
                    ParseV::Parsed(only_option(s.p, version_option()))
                } else {
                    ParseV::Parsed(s.p)
                },
                RunV::Fail(e) => ParseV::Fail(e),
                RunV::Panic => ParseV::Panic,
            },
    {
        let mut p = st.parser;
        if p.is_help() {
            p.set_only_option(opt_help());
        } else if p.is_version() {
            p.set_only_option(opt_version());
        }
        ParseOutcome::Parsed(p)
    }

    /// Reads the arguments of a utility (without its name) as options among
    /// `app_options` and operands. An abbreviated long option must name one
    /// option; a letter must name an option; an option gets its argument after
    /// `=`, attached to its letter or from the next argument, and must not get
    /// one when it takes none. When `--help` or `--version` is given, that
    /// option alone is the result.
    pub fn parse_params(app_options: &[AppOption], args: &Vec<Vec<u8>>) -> (r: Result<Parser, ParseError>)
        requires
            !(parse_spec(options_view(app_options@), lines_of(args@)) is Panic),
        ensures
            match r {
                Ok(p) => parse_spec(options_view(app_options@), lines_of(args@)) == ParseV::Parsed(p@),
                Err(e) => parse_spec(options_view(app_options@), lines_of(args@)) == ParseV::Fail(e@),
            },
    {
        match Parser::parse_outcome(app_options, args) {
            ParseOutcome::Parsed(p) => Ok(p),
            ParseOutcome::Fail(e) => Err(e),
            ParseOutcome::Panic => Err(ParseError::NoExecutable),
        }
    }
}


impl Parser {
    /// Reads the arguments as `parse_params` does, or gives `None` where the
    /// reading panics.
    pub fn parse_params_checked(app_options: &[AppOption], args: &Vec<Vec<u8>>) -> (r: Option<Result<Parser, ParseError>>)
        ensures
            r is None <==> parse_spec(options_view(app_options@), lines_of(args@)) is Panic,
            r matches Some(Ok(p)) ==> parse_spec(options_view(app_options@), lines_of(args@)) == ParseV::Parsed(p@),
            r matches Some(Err(e)) ==> parse_spec(options_view(app_options@), lines_of(args@)) == ParseV::Fail(e@),
    {
        match Parser::parse_outcome(app_options, args) {
            ParseOutcome::Panic => None,
            _ => Some(Parser::parse_params(app_options, args)),
        }
    }
}

/// The value of a text of decimal digits.
pub open spec fn digits_value(s: Seq<char>) -> nat
    decreases s.len(),
{
    if s.len() == 0 {
        0
    } else {
        digits_value(s.drop_last()) * 10 + ((s.last() as nat) - 48) as nat
    }
}

/// The position of the first character that is no ASCII digit.
pub open spec fn first_non_digit(s: Seq<char>) -> Option<int>
    decreases s.len(),
{
    if s.len() == 0 {
        None
    } else if !('0' <= s[0] <= '9') {
        Some(0)
    } else {
        match first_non_digit(s.drop_first()) {
            Some(k) => Some(k + 1),
            None => None,
        }
    }
}

/// The number of an option's argument: digits and an optional unit (such as
/// `KiB`) whose factor multiplies them. No argument, an empty one and one
/// that does not begin with a digit are no number; an unknown unit is an
/// error of its own; and so is a value past 64 bits.
pub open spec fn number_spec(p: ParsedOptionV) -> Result<u64, ParseErrorV> {
    match p.arg {
        None => Err(ParseErrorV::InvalidValueNumber(p)),
        Some(s) => if s.len() == 0 {
            Err(ParseErrorV::InvalidValueNumber(p))
        } else {
            match first_non_digit(s) {
                Some(pos) => if pos == 0 {
                    Err(ParseErrorV::InvalidValueNumber(p))
                } else {
                    match unit_factor(s.subrange(pos, s.len() as int)) {
                        None => Err(ParseErrorV::InvalidValueNumberUnit(p)),
                        Some(m) => {
                            let v = digits_value(s.take(pos));
                            if v * m > u64::MAX {
                                Err(ParseErrorV::InvalidValueNumberOverflow(p))
                            } else {
                                Ok((v * m) as u64)
                            }
                        },
                    }
                },
                None => {
                    let v = digits_value(s);
                    if v > u64::MAX {
                        Err(ParseErrorV::InvalidValueNumberOverflow(p))
                    } else {
                        Ok(v as u64)
                    }
                },
            }
        },
    }
}

proof fn lemma_first_non_digit(s: Seq<char>)
    ensures
        match first_non_digit(s) {
            Some(k) => 0 <= k < s.len() && !('0' <= s[k] <= '9') && forall|j: int| 0 <= j < k ==> '0' <= #[trigger] s[j] <= '9',
            None => forall|j: int| 0 <= j < s.len() ==> '0' <= #[trigger] s[j] <= '9',
        },
    decreases s.len(),
{
    if s.len() > 0 {
        lemma_first_non_digit(s.drop_first());
        assert forall|j: int| 0 < j < s.len() implies s[j] == s.drop_first()[j - 1] by {}
    }
}

pub open spec fn number_view(r: Result<u64, ParseError>) -> Result<u64, ParseErrorV> {
    match r {
        Ok(v) => Ok(v),
        Err(e) => Err(e@),
    }
}

/// The value of the digits `s[0..end]`, or `None` when it is past 64 bits.
fn digits_u64(s: &str, end: usize) -> (r: Option<u64>)
    requires
        end <= s@.len(),
        forall|j: int| 0 <= j < end ==> '0' <= #[trigger] s@[j] <= '9',
    ensures
        match r {
            Some(v) => v == digits_value(s@.take(end as int)),
            None => digits_value(s@.take(end as int)) > u64::MAX,
        },
{
    let mut acc: u64 = 0;
    let mut i: usize = 0;
    while i < end
        invariant
            i <= end <= s@.len(),
            forall|j: int| 0 <= j < end ==> '0' <= #[trigger] s@[j] <= '9',
            acc == digits_value(s@.take(i as int)),
        decreases end - i,
    {
        let c = s.get_char(i);
        let d = (c as u32 - 48) as u64;
        assert(s@.take(i + 1).drop_last() =~= s@.take(i as int));
        assert(s@.take(i + 1).last() == c);
        if acc > (u64::MAX - d) / 10 {
            proof {
                assert(acc * 10 + d > u64::MAX) by (nonlinear_arith)
                    requires acc > (u64::MAX - d) / 10, d <= 9;
                lemma_digits_grow(s@, i as int + 1, end as int);
            }
            return None;
        }
        assert(acc * 10 + d <= u64::MAX) by (nonlinear_arith)
            requires acc <= (u64::MAX - d) / 10, d <= 9;
        acc = acc * 10 + d;
        i += 1;
    }
    Some(acc)
}

/// A longer run of digits is worth at least as much.
proof fn lemma_digits_grow(s: Seq<char>, i: int, end: int)
    requires
        0 <= i <= end <= s.len(),
        forall|j: int| 0 <= j < end ==> '0' <= #[trigger] s[j] <= '9',
    ensures
        digits_value(s.take(i)) <= digits_value(s.take(end)),
    decreases end - i,
{
    if i < end {
        lemma_digits_grow(s, i + 1, end);
        assert(s.take(i + 1).drop_last() =~= s.take(i));
    }
}

impl NumberParser {
    /// The number of the option's argument, as `number_spec` reads it, e.g.
    /// 2048 for `2KiB`.
    pub fn parse_number(parsed_option: &ParsedOption) -> (r: Result<u64, ParseError>)
        ensures
            number_view(r) == number_spec(parsed_option@),
    {
        let num_unit = match &parsed_option.arg_for_option {
            None => {
                return Err(ParseError::InvalidValueNumber(parsed_option.copy()));
            },
            Some(s) => s.as_str(),
        };
        let len = num_unit.unicode_len();
        if len == 0 {
            return Err(ParseError::InvalidValueNumber(parsed_option.copy()));
        }
        proof {
            lemma_first_non_digit(num_unit@);
        }
        let mut pos: usize = 0;
        while pos < len && '0' <= num_unit.get_char(pos) && num_unit.get_char(pos) <= '9'
            invariant
                pos <= len == num_unit@.len(),
                forall|j: int| 0 <= j < pos ==> '0' <= #[trigger] num_unit@[j] <= '9',
                match first_non_digit(num_unit@) {
                    Some(k) => pos <= k,
                    None => true,
                },
            decreases len - pos,
        {
            proof {
                lemma_first_non_digit(num_unit@);
            }
            pos += 1;
        }
        if pos < len {
            assert(first_non_digit(num_unit@) == Some(pos as int));
            if pos == 0 {
                return Err(ParseError::InvalidValueNumber(parsed_option.copy()));
            }
            let unit = num_unit.substring_char(pos, len);
            let multiplier = match NumberParser::parse_number_unit(unit) {
                Some(m) => m,
                None => {
                    return Err(ParseError::InvalidValueNumberUnit(parsed_option.copy()));
                },
            };
            match digits_u64(num_unit, pos) {
                Some(v) => match v.checked_mul(multiplier) {
                    Some(r) => Ok(r),
                    None => Err(ParseError::InvalidValueNumberOverflow(parsed_option.copy())),
                },
                None => {
                    proof {
                        let v = digits_value(num_unit@.take(pos as int));
                        assert(v * multiplier >= v) by (nonlinear_arith)
                            requires multiplier >= 1;
                    }
                    Err(ParseError::InvalidValueNumberOverflow(parsed_option.copy()))
                },
            }
        } else {
            assert(first_non_digit(num_unit@) is None);
            assert(num_unit@.take(len as int) =~= num_unit@);
            match digits_u64(num_unit, len) {
                Some(v) => Ok(v),
                None => Err(ParseError::InvalidValueNumberOverflow(parsed_option.copy())),
            }
        }
    }
}

/// The first given option that is among `not_yet`, if any.
pub open spec fn first_listed(options: Seq<ParsedOptionV>, not_yet: Seq<AppOptionV>) -> Option<ParsedOptionV>
    decreases options.len(),
{
    if options.len() == 0 {
        None
    } else if not_yet.contains(options[0].app_option) {
        Some(options[0])
    } else {
        first_listed(options.drop_first(), not_yet)
    }
}

/// How the message names an option that is not implemented: `'--name' (-c)`,
/// with a space for a missing letter.
pub open spec fn not_yet_text(o: AppOptionV) -> Seq<char> {
    "'--"@ + o.long_name + "' (-"@ + seq![
        match o.short {
            Some(c) => c,
            None => ' ',
        },
    ] + ")"@
}

fn contains_option(list: &[AppOption], o: &AppOption) -> (r: bool)
    ensures
        r == options_view(list@).contains(o@),
{
    let mut k: usize = 0;
    while k < list.len()
        invariant
            k <= list.len(),
            forall|m: int| 0 <= m < k ==> options_view(list@)[m] != o@,
        decreases list.len() - k,
    {
        if same_option(&list[k], o) {
            assert(options_view(list@)[k as int] == o@);
            return true;
        }
        k += 1;
    }
    false
}

/// Fails with `NotYetImplemented` for the first given option that is among
/// `implemented_options` (the list of the options that are not implemented
/// yet).
pub fn is_implemented(options_parsed: &[ParsedOption], implemented_options: &[AppOption]) -> (r: Result<(), ParseError>)
    ensures
        match first_listed(parsed_view(options_parsed@), options_view(implemented_options@)) {
            None => r is Ok,
            Some(o) => r matches Err(e) && e@ == ParseErrorV::NotYetImplemented(not_yet_text(o.app_option)),
        },
{
    let ghost all = parsed_view(options_parsed@);
    let ghost ny = options_view(implemented_options@);
    let mut k: usize = 0;
    assert(all.skip(0) =~= all);
    while k < options_parsed.len()
        invariant
            k <= options_parsed.len(),
            all == parsed_view(options_parsed@),
            ny == options_view(implemented_options@),
            first_listed(all.skip(k as int), ny) == first_listed(all, ny),
        decreases options_parsed.len() - k,
    {
        let ghost v = all.skip(k as int);
        assert(v.drop_first() =~= all.skip(k + 1));
        assert(v[0] == options_parsed@[k as int]@);
        let o = &options_parsed[k].app_option;
        if contains_option(implemented_options, o) {
            let letter = match o.short {
                Some(c) => c,
                None => ' ',
            };
            let text = String::from_str("'--").concat(o.long_name).concat("' (-").concat(char_text(letter).as_str()).concat(")");
            return Err(ParseError::NotYetImplemented(text));
        }
        k += 1;
    }
    assert(all.skip(k as int) =~= Seq::<ParsedOptionV>::empty());
    Ok(())
}

} // verus!
