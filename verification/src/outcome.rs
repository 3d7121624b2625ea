//! What the front ends of the utilities decide around a comparison: the output
//! style that the options chose, and the outcome and exit status of a run.

use vstd::prelude::*;
use crate::arg_parser::str_eq;
use crate::diff3::are_files_identical;
use crate::cmp::{parse_number, parse_usize, NumParse};
use vstd::utf8::encode_utf8;
use crate::unicode::{lossy_string, lossy_text};
use crate::text::to_owned_bytes;

verus! {

/// The output style that the options of `diff` choose.
#[derive(Clone, Copy, Debug, PartialEq, Eq, Structural)]
pub enum FormatOutput {
    /// The default output.
    Normal,
    Unified,
    Context,
    /// The output of commands for the `ed` editor.
    Ed,
    /// Two columns.
    SideBySide,
}

impl Default for FormatOutput {
    fn default() -> (r: FormatOutput)
        ensures
            r == FormatOutput::Normal,
    {
        FormatOutput::Normal
    }
}

/// The name of the option that chooses a style.
pub open spec fn format_option_name(f: FormatOutput) -> Seq<char> {
    match f {
        FormatOutput::Normal => "normal"@,
        FormatOutput::Unified => "unified"@,
        FormatOutput::Context => "context"@,
        FormatOutput::Ed => "ed"@,
        FormatOutput::SideBySide => "side-by-side"@,
    }
}

/// Whether `s` names one of the options that choose a style.
pub open spec fn is_format_option(s: Seq<char>) -> bool {
    s == "normal"@ || s == "unified"@ || s == "context"@ || s == "ed"@ || s == "side-by-side"@
}

/// The style that the option named `s` chooses.
pub open spec fn format_of_option(s: Seq<char>) -> FormatOutput {
    if s == "normal"@ {
        FormatOutput::Normal
    } else if s == "unified"@ {
        FormatOutput::Unified
    } else if s == "context"@ {
        FormatOutput::Context
    } else if s == "ed"@ {
        FormatOutput::Ed
    } else {
        FormatOutput::SideBySide
    }
}

impl FormatOutput {
    /// The style that the option named `option` chooses. Only the five names of
    /// the styles are options of this kind.
    pub fn from_option(option: &str) -> (r: FormatOutput)
        requires
            is_format_option(option@),
        ensures
            r == format_of_option(option@),
    {
        if str_eq(option, "normal") {
            FormatOutput::Normal
        } else if str_eq(option, "unified") {
            FormatOutput::Unified
        } else if str_eq(option, "context") {
            FormatOutput::Context
        } else if str_eq(option, "ed") {
            FormatOutput::Ed
        } else {
            FormatOutput::SideBySide
        }
    }

    /// The name of the option that chooses this style.
    pub fn option_name(&self) -> (r: &'static str)
        ensures
            r@ == format_option_name(*self),
    {
        match self {
            FormatOutput::Normal => "normal",
            FormatOutput::Unified => "unified",
            FormatOutput::Context => "context",
            FormatOutput::Ed => "ed",
            FormatOutput::SideBySide => "side-by-side",
        }
    }
}

/// Records that the option named `option` was given (`value`) or not. Giving
/// a style when one was chosen before is an error, which names the earlier
/// style and the new one; otherwise the given style becomes the chosen one.
pub fn set_format(format: &mut Option<FormatOutput>, option: &str, value: bool) -> (r: Result<(), (String, String)>)
    requires
        value ==> is_format_option(option@),
    ensures
        !value ==> r is Ok && *final(format) == *old(format),
        value && (*old(format)) is None ==> r is Ok && *final(format) == Some(format_of_option(option@)),
        value && (*old(format)) is Some ==> *final(format) == *old(format) && (r matches Err((a, b)) && a@
            == format_option_name((*old(format))->0) && b@ == format_option_name(format_of_option(option@))),
{
    if value {
        let new = FormatOutput::from_option(option);
        match format {
            Some(f) => {
                let a = String::from_str(f.option_name());
                let b = String::from_str(new.option_name());
                return Err((a, b));
            },
            None => {
                *format = Some(new);
            },
        }
    }
    Ok(())
}

/// The errors of the options of the `diff` front end that set the output
/// style and the number of context lines.
#[derive(Debug, PartialEq, Eq)]
pub enum UParseError {
    /// Two styles chosen: the earlier and the new one.
    ConflictingOutputStyle(String, String),
    /// A number of context lines that is no number.
    InvalidContextLength(String),
    /// A number of unified context lines that is no number.
    InvalidUnifiedLength(String),
    /// An operand missing after the one named (or after the utility's name).
    MissingOperand(String),
    /// An operand past the two files, as it was given.
    ExtraOperand(Vec<u8>),
}

/// The files that the operands of the `diff` front end name: exactly two. With
/// none the missing operand follows the utility's name; with one it follows
/// that file (its name as text); a third operand is one too many.
pub fn diff_operands(files: &Vec<Vec<u8>>, util_name: &str) -> (r: Result<(Vec<u8>, Vec<u8>), UParseError>)
    ensures
        files.len() == 0 ==> (r matches Err(UParseError::MissingOperand(n)) && n@ == util_name@),
        files.len() == 1 ==> (r matches Err(UParseError::MissingOperand(n)) && n@ == lossy_text(files[0]@)),
        files.len() == 2 ==> (r matches Ok((a, b)) && a@ == files[0]@ && b@ == files[1]@),
        files.len() > 2 ==> (r matches Err(UParseError::ExtraOperand(f)) && f@ == files[2]@),
{
    if files.len() == 0 {
        Err(UParseError::MissingOperand(String::from_str(util_name)))
    } else if files.len() == 1 {
        Err(UParseError::MissingOperand(lossy_string(files[0].as_slice())))
    } else if files.len() == 2 {
        Ok((to_owned_bytes(files[0].as_slice()), to_owned_bytes(files[1].as_slice())))
    } else {
        Err(UParseError::ExtraOperand(to_owned_bytes(files[2].as_slice())))
    }
}

/// What choosing the style `which` with the number text `text` does, when
/// no style was chosen before: the number of lines, or `None` when it stays;
/// an error for a text that is neither a number nor empty.
pub open spec fn lines_value(text: Seq<char>) -> Option<usize> {
    match parse_usize(encode_utf8(text)) {
        NumParse::Value(n) => Some(n),
        _ => None,
    }
}

fn set_lines(
    format_out: &mut Option<FormatOutput>,
    chosen: &mut FormatOutput,
    n_output_lines: &mut usize,
    text: &str,
    which: FormatOutput,
) -> (r: Result<(), UParseError>)
    requires
        which == FormatOutput::Context || which == FormatOutput::Unified,
    ensures
        (*old(format_out)) is Some ==> *final(format_out) == *old(format_out) && *final(chosen) == *old(chosen)
            && *final(n_output_lines) == *old(n_output_lines) && (r matches Err(
            UParseError::ConflictingOutputStyle(a, b),
        ) && a@ == format_option_name((*old(format_out))->0) && b@ == format_option_name(which)),
        (*old(format_out)) is None ==> *final(format_out) == Some(which) && *final(chosen) == which && match lines_value(
            text@,
        ) {
            Some(n) => r is Ok && *final(n_output_lines) == n,
            None => *final(n_output_lines) == *old(n_output_lines) && (if text@.len() == 0 {
                r is Ok
            } else if which == FormatOutput::Context {
                r matches Err(UParseError::InvalidContextLength(t)) && t@ == text@
            } else {
                r matches Err(UParseError::InvalidUnifiedLength(t)) && t@ == text@
            }),
        },
{
    let name = which.option_name();
    match set_format(format_out, name, true) {
        Err((a, b)) => {
            return Err(UParseError::ConflictingOutputStyle(a, b));
        },
        Ok(()) => {},
    }
    proof {
        reveal_strlit("normal");
        reveal_strlit("context");
        reveal_strlit("unified");
        assert("context"@.len() != "normal"@.len());
        assert("unified"@.len() != "normal"@.len());
        assert("context"@[0] != "unified"@[0]);
        assert("context"@ != "unified"@);
    }
    assert(format_of_option(name@) == which);
    *chosen = which;
    match parse_number(text.as_bytes()) {
        NumParse::Value(n) => {
            *n_output_lines = n;
            Ok(())
        },
        _ => {
            if text.is_empty() {
                Ok(())
            } else {
                match which {
                    FormatOutput::Context => Err(UParseError::InvalidContextLength(String::from_str(text))),
                    _ => Err(UParseError::InvalidUnifiedLength(String::from_str(text))),
                }
            }
        },
    }
}

/// `--context[=NUM]` and `-CNUM`: chooses the context style (an error when
/// another style was chosen) and takes the number of lines when the text is
/// one; an empty text keeps the number, any other text is an error.
pub fn set_context_lines(
    format_out: &mut Option<FormatOutput>,
    chosen: &mut FormatOutput,
    n_output_lines: &mut usize,
    context: &str,
) -> (r: Result<(), UParseError>)
    ensures
        (*old(format_out)) is Some ==> *final(format_out) == *old(format_out) && *final(chosen) == *old(chosen)
            && *final(n_output_lines) == *old(n_output_lines) && (r matches Err(
            UParseError::ConflictingOutputStyle(a, b),
        ) && a@ == format_option_name((*old(format_out))->0) && b@ == "context"@),
        (*old(format_out)) is None ==> *final(format_out) == Some(FormatOutput::Context) && *final(chosen)
            == FormatOutput::Context && match lines_value(context@) {
            Some(n) => r is Ok && *final(n_output_lines) == n,
            None => *final(n_output_lines) == *old(n_output_lines) && (if context@.len() == 0 {
                r is Ok
            } else {
                r matches Err(UParseError::InvalidContextLength(t)) && t@ == context@
            }),
        },
{
    set_lines(format_out, chosen, n_output_lines, context, FormatOutput::Context)
}

/// `--unified[=NUM]` and `-UNUM`: as `set_context_lines`, for the unified
/// style.
pub fn set_unified_lines(
    format_out: &mut Option<FormatOutput>,
    chosen: &mut FormatOutput,
    n_output_lines: &mut usize,
    unified: &str,
) -> (r: Result<(), UParseError>)
    ensures
        (*old(format_out)) is Some ==> *final(format_out) == *old(format_out) && *final(chosen) == *old(chosen)
            && *final(n_output_lines) == *old(n_output_lines) && (r matches Err(
            UParseError::ConflictingOutputStyle(a, b),
        ) && a@ == format_option_name((*old(format_out))->0) && b@ == "unified"@),
        (*old(format_out)) is None ==> *final(format_out) == Some(FormatOutput::Unified) && *final(chosen)
            == FormatOutput::Unified && match lines_value(unified@) {
            Some(n) => r is Ok && *final(n_output_lines) == n,
            None => *final(n_output_lines) == *old(n_output_lines) && (if unified@.len() == 0 {
                r is Ok
            } else {
                r matches Err(UParseError::InvalidUnifiedLength(t)) && t@ == unified@
            }),
        },
{
    set_lines(format_out, chosen, n_output_lines, unified, FormatOutput::Unified)
}

/// The outcome of a side-by-side comparison.
#[derive(Debug, PartialEq, Eq, Clone, Copy, Structural)]
pub enum SDiffOk {
    Different,
    Equal,
    Help,
    Version,
}

/// The outcome of a side-by-side comparison of the contents `from` and `to`:
/// equal exactly when the two inputs are identical.
pub fn sdiff_outcome(from: &[u8], to: &[u8]) -> (r: SDiffOk)
    ensures
        r == (if from@ == to@ { SDiffOk::Equal } else { SDiffOk::Different }),
{
    if are_files_identical(from, to) {
        SDiffOk::Equal
    } else {
        SDiffOk::Different
    }
}

impl SDiffOk {
    /// The exit status of the run: 1 when the files differ, else 0.
    pub fn exit_code(&self) -> (r: u8)
        ensures
            r == (if *self == SDiffOk::Different { 1u8 } else { 0u8 }),
    {
        match self {
            SDiffOk::Different => 1,
            _ => 0,
        }
    }
}

/// The errors of `diff` that are not errors of reading the arguments.
#[derive(Debug, PartialEq, Eq, Clone, Copy, Structural)]
pub enum DiffError {
    /// A file lacks the newline at its end where the output style needs one.
    MissingNL,
}

impl DiffError {
    /// The exit status of the error: 2, as for every error of the utilities.
    pub fn code(&self) -> (r: i32)
        ensures
            r == 2,
    {
        2
    }
}

} // verus!
