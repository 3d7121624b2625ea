//! Reading the arguments of diff3: the name of the utility, options, and the
//! three files `mine`, `older` and `yours`.

use vstd::prelude::*;
use vstd::utf8::{valid_utf8, decode_utf8};
use crate::arg_parser::str_eq;
use crate::cmp::{starts_with_chars, starts_with_str};
use crate::diff3::{Diff3Format, Diff3OutputMode, Diff3Params};
use crate::lines::lines_of;
use crate::text::to_owned_bytes;
use crate::unicode::{lossy_text, lossy_string, utf8_str};

verus! {

/// The choices of diff3 that options set: output style and mode, text mode,
/// stripping of carriage returns, initial tabs, and the `-i` compatibility.
#[derive(Clone, Copy, Debug, PartialEq, Eq, Structural)]
pub struct Diff3Flags {
    pub format: Diff3Format,
    pub output_mode: Diff3OutputMode,
    pub text: bool,
    pub strip_trailing_cr: bool,
    pub initial_tab: bool,
    pub compat_i: bool,
}

/// The defaults: normal output, all changes.
pub open spec fn default_flags() -> Diff3Flags {
    Diff3Flags {
        format: Diff3Format::Normal,
        output_mode: Diff3OutputMode::All,
        text: false,
        strip_trailing_cr: false,
        initial_tab: false,
        compat_i: false,
    }
}

/// The effect of an option without argument, or `None` when `t` is none of
/// them. `-m` turns an ed script back to all changes; `-x`, `-X` and `-3`
/// choose the ed style only when no style was chosen.
pub open spec fn option_step(t: Seq<char>, f: Diff3Flags) -> Option<Diff3Flags> {
    if t == "-a"@ || t == "--text"@ {
        Some(Diff3Flags { text: true, ..f })
    } else if t == "-A"@ || t == "--show-all"@ {
        Some(Diff3Flags { format: Diff3Format::Ed, output_mode: Diff3OutputMode::All, ..f })
    } else if t == "-e"@ || t == "--ed"@ {
        Some(Diff3Flags { format: Diff3Format::Ed, output_mode: Diff3OutputMode::EdScript, ..f })
    } else if t == "-E"@ || t == "--show-overlap"@ {
        Some(Diff3Flags { format: Diff3Format::ShowOverlap, output_mode: Diff3OutputMode::ShowOverlapEd, ..f })
    } else if t == "-m"@ || t == "--merge"@ {
        Some(
            Diff3Flags {
                format: Diff3Format::Merged,
                output_mode: if f.output_mode == Diff3OutputMode::EdScript {
                    Diff3OutputMode::All
                } else {
                    f.output_mode
                },
                ..f
            },
        )
    } else if t == "-x"@ || t == "--overlap-only"@ || t == "-X"@ || t == "-3"@ || t == "--easy-only"@ {
        Some(
            Diff3Flags {
                format: if f.format == Diff3Format::Normal {
                    Diff3Format::Ed
                } else {
                    f.format
                },
                output_mode: if t == "-X"@ {
                    Diff3OutputMode::OverlapOnlyMarked
                } else if t == "-3"@ || t == "--easy-only"@ {
                    Diff3OutputMode::EasyOnly
                } else {
                    Diff3OutputMode::OverlapOnly
                },
                ..f
            },
        )
    } else if t == "-i"@ {
        Some(Diff3Flags { compat_i: true, ..f })
    } else if t == "--strip-trailing-cr"@ {
        Some(Diff3Flags { strip_trailing_cr: true, ..f })
    } else if t == "-T"@ || t == "--initial-tab"@ {
        Some(Diff3Flags { initial_tab: true, ..f })
    } else {
        None
    }
}

/// The state of the reading: the choices, the labels and the files so far.
pub struct D3ScanV {
    pub flags: Diff3Flags,
    pub labels: Seq<Seq<char>>,
    pub files: Seq<Seq<u8>>,
}

/// What one argument does: the reading goes on at a later argument, goes on
/// with files only (after `--`), fails with a message, or asks for the help
/// or the version.
pub enum D3StepV {
    Next(D3ScanV, int),
    Stop(D3ScanV, int),
    Fail(Seq<char>),
    Help,
    Version,
}

/// The message when more than three files are given.
pub open spec fn usage_text(exe: Seq<u8>) -> Seq<char> {
    "Usage: "@ + lossy_text(exe) + " mine older yours"@
}

/// A file operand: the first is `mine`, the second `older`, the third
/// `yours`; a fourth is an error.
pub open spec fn push_file(exe: Seq<u8>, st: D3ScanV, a: Seq<u8>) -> Result<D3ScanV, Seq<char>> {
    if st.files.len() < 3 {
        Ok(D3ScanV { files: st.files.push(a), ..st })
    } else {
        Err(usage_text(exe))
    }
}

pub open spec fn file_step(exe: Seq<u8>, st: D3ScanV, a: Seq<u8>, i: int) -> D3StepV {
    match push_file(exe, st, a) {
        Ok(s2) => D3StepV::Next(s2, i + 1),
        Err(m) => D3StepV::Fail(m),
    }
}

/// What argument `i` does: `--` ends the options, `-` and arguments that do
/// not begin with a dash are files, `--label LABEL` and `--label=LABEL` give
/// up to three labels, `-h`/`--help` and `-v`/`--version` ask for help and
/// version, and other options set the choices.
#[verifier::opaque]
pub open spec fn d3_step(args: Seq<Seq<u8>>, i: int, st: D3ScanV) -> D3StepV {
    let a = args[i];
    let t = lossy_text(a);
    if t == "--"@ {
        D3StepV::Stop(st, i + 1)
    } else if t == "-"@ {
        file_step(args[0], st, a, i)
    } else if t.len() > 0 && t[0] == '-' {
        match option_step(t, st.flags) {
            Some(f) => D3StepV::Next(D3ScanV { flags: f, ..st }, i + 1),
            None => if t == "--label"@ {
                if st.labels.len() >= 3 {
                    D3StepV::Fail("Too many labels"@)
                } else if i + 1 >= args.len() {
                    D3StepV::Fail("--label requires an argument"@)
                } else if !valid_utf8(args[i + 1]) {
                    D3StepV::Fail("Label must be valid UTF-8"@)
                } else {
                    D3StepV::Next(D3ScanV { labels: st.labels.push(decode_utf8(args[i + 1])), ..st }, i + 2)
                }
            } else if starts_with_chars(t, "--label="@) {
                if st.labels.len() >= 3 {
                    D3StepV::Fail("Too many labels"@)
                } else {
                    D3StepV::Next(D3ScanV { labels: st.labels.push(t.subrange(8, t.len() as int)), ..st }, i + 1)
                }
            } else if t == "--help"@ || t == "-h"@ {
                D3StepV::Help
            } else if t == "-v"@ || t == "--version"@ {
                D3StepV::Version
            } else {
                D3StepV::Fail("Unknown option: \""@ + t + "\""@)
            },
        }
    } else {
        file_step(args[0], st, a, i)
    }
}

/// How the reading ends: with a state, an error, or help or version.
pub enum D3RunV {
    Done(D3ScanV),
    Fail(Seq<char>),
    Help,
    Version,
}

/// The arguments from `j` on, all files.
pub open spec fn files_rest(args: Seq<Seq<u8>>, j: int, st: D3ScanV) -> D3RunV
    decreases args.len() - j,
{
    if j < 1 || j >= args.len() {
        D3RunV::Done(st)
    } else {
        match push_file(args[0], st, args[j]) {
            Ok(s2) => files_rest(args, j + 1, s2),
            Err(m) => D3RunV::Fail(m),
        }
    }
}

pub open spec fn d3_run(args: Seq<Seq<u8>>, i: int, st: D3ScanV) -> D3RunV
    decreases args.len() - i,
{
    if i < 1 || i >= args.len() {
        D3RunV::Done(st)
    } else {
        match d3_step(args, i, st) {
            D3StepV::Next(s2, j) => if i < j <= args.len() {
                d3_run(args, j, s2)
            } else {
                D3RunV::Done(s2)
            },
            D3StepV::Stop(s2, j) => files_rest(args, j, s2),
            D3StepV::Fail(m) => D3RunV::Fail(m),
            D3StepV::Help => D3RunV::Help,
            D3StepV::Version => D3RunV::Version,
        }
    }
}

/// The settings of diff3 as values.
pub struct Diff3ParamsV {
    pub executable: Seq<u8>,
    pub mine: Seq<u8>,
    pub older: Seq<u8>,
    pub yours: Seq<u8>,
    pub flags: Diff3Flags,
    pub labels: Seq<Option<Seq<char>>>,
}

pub open spec fn opt_text(o: Option<String>) -> Option<Seq<char>> {
    match o {
        Some(s) => Some(s@),
        None => None,
    }
}

pub open spec fn params_view(p: Diff3Params) -> Diff3ParamsV {
    Diff3ParamsV {
        executable: p.executable@,
        mine: p.mine@,
        older: p.older@,
        yours: p.yours@,
        flags: Diff3Flags {
            format: p.format,
            output_mode: p.output_mode,
            text: p.text,
            strip_trailing_cr: p.strip_trailing_cr,
            initial_tab: p.initial_tab,
            compat_i: p.compat_i,
        },
        labels: Seq::new(3, |k: int| opt_text(p.labels@[k])),
    }
}

/// What reading the arguments of diff3 gives.
pub enum D3ArgsV {
    Run(Diff3ParamsV),
    Fail(Seq<char>),
    Help(Seq<u8>),
    Version,
}

pub open spec fn start_scan() -> D3ScanV {
    D3ScanV { flags: default_flags(), labels: Seq::empty(), files: Seq::empty() }
}

/// Reading the arguments of diff3, the first being the name of the utility:
/// the options and files, then the check that all three files were given.
pub open spec fn d3_args(args: Seq<Seq<u8>>) -> D3ArgsV {
    if args.len() == 0 {
        D3ArgsV::Fail("Usage: <exe> mine older yours"@)
    } else {
        match d3_run(args, 1, start_scan()) {
            D3RunV::Done(st) => if st.files.len() == 0 {
                D3ArgsV::Fail("Missing file: mine"@)
            } else if st.files.len() == 1 {
                D3ArgsV::Fail("Missing file: older"@)
            } else if st.files.len() == 2 {
                D3ArgsV::Fail("Missing file: yours"@)
            } else {
                D3ArgsV::Run(
                    Diff3ParamsV {
                        executable: args[0],
                        mine: st.files[0],
                        older: st.files[1],
                        yours: st.files[2],
                        flags: st.flags,
                        labels: Seq::new(3, |k: int| if k < st.labels.len() { Some(st.labels[k]) } else { None }),
                    },
                )
            },
            D3RunV::Fail(m) => D3ArgsV::Fail(m),
            D3RunV::Help => D3ArgsV::Help(args[0]),
            D3RunV::Version => D3ArgsV::Version,
        }
    }
}

fn option_step_exec(t: &str, f: Diff3Flags) -> (r: Option<Diff3Flags>)
    ensures
        r == option_step(t@, f),
{
    if str_eq(t, "-a") || str_eq(t, "--text") {
        Some(Diff3Flags { text: true, ..f })
    } else if str_eq(t, "-A") || str_eq(t, "--show-all") {
        Some(Diff3Flags { format: Diff3Format::Ed, output_mode: Diff3OutputMode::All, ..f })
    } else if str_eq(t, "-e") || str_eq(t, "--ed") {
        Some(Diff3Flags { format: Diff3Format::Ed, output_mode: Diff3OutputMode::EdScript, ..f })
    } else if str_eq(t, "-E") || str_eq(t, "--show-overlap") {
        Some(Diff3Flags { format: Diff3Format::ShowOverlap, output_mode: Diff3OutputMode::ShowOverlapEd, ..f })
    } else if str_eq(t, "-m") || str_eq(t, "--merge") {
        let mode = match f.output_mode {
            Diff3OutputMode::EdScript => Diff3OutputMode::All,
            m => m,
        };
        Some(Diff3Flags { format: Diff3Format::Merged, output_mode: mode, ..f })
    } else if str_eq(t, "-x") || str_eq(t, "--overlap-only") || str_eq(t, "-X") || str_eq(t, "-3") || str_eq(
        t,
        "--easy-only",
    ) {
        let format = match f.format {
            Diff3Format::Normal => Diff3Format::Ed,
            other => other,
        };
        let mode = if str_eq(t, "-X") {
            Diff3OutputMode::OverlapOnlyMarked
        } else if str_eq(t, "-3") || str_eq(t, "--easy-only") {
            Diff3OutputMode::EasyOnly
        } else {
            Diff3OutputMode::OverlapOnly
        };
        Some(Diff3Flags { format, output_mode: mode, ..f })
    } else if str_eq(t, "-i") {
        Some(Diff3Flags { compat_i: true, ..f })
    } else if str_eq(t, "--strip-trailing-cr") {
        Some(Diff3Flags { strip_trailing_cr: true, ..f })
    } else if str_eq(t, "-T") || str_eq(t, "--initial-tab") {
        Some(Diff3Flags { initial_tab: true, ..f })
    } else {
        None
    }
}

struct D3Scan {
    flags: Diff3Flags,
    labels: Vec<String>,
    files: Vec<Vec<u8>>,
}

spec fn texts_view(v: Seq<String>) -> Seq<Seq<char>> {
    Seq::new(v.len(), |k: int| v[k]@)
}

impl View for D3Scan {
    type V = D3ScanV;

    closed spec fn view(&self) -> D3ScanV {
        D3ScanV { flags: self.flags, labels: texts_view(self.labels@), files: lines_of(self.files@) }
    }
}

enum D3Step {
    Next(D3Scan, usize),
    Stop(D3Scan, usize),
    Fail(String),
    Help,
    Version,
}

spec fn d3_step_view(r: D3Step) -> D3StepV {
    match r {
        D3Step::Next(s, j) => D3StepV::Next(s@, j as int),
        D3Step::Stop(s, j) => D3StepV::Stop(s@, j as int),
        D3Step::Fail(m) => D3StepV::Fail(m@),
        D3Step::Help => D3StepV::Help,
        D3Step::Version => D3StepV::Version,
    }
}

fn push_file_exec(exe: &[u8], st: D3Scan, a: &[u8]) -> (r: Result<D3Scan, String>)
    ensures
        match r {
            Ok(s) => push_file(exe@, st@, a@) == Ok::<D3ScanV, Seq<char>>(s@),
            Err(m) => push_file(exe@, st@, a@) == Err::<D3ScanV, Seq<char>>(m@),
        },
{
    if st.files.len() < 3 {
        let mut st = st;
        let ghost old_files = st.files@;
        st.files.push(to_owned_bytes(a));
        assert(lines_of(st.files@) =~= lines_of(old_files).push(a@));
        Ok(st)
    } else {
        Err(String::from_str("Usage: ").concat(lossy_string(exe).as_str()).concat(" mine older yours"))
    }
}

fn file_step_exec(args: &Vec<Vec<u8>>, st: D3Scan, i: usize) -> (r: D3Step)
    requires
        1 <= i < args.len(),
    ensures
        d3_step_view(r) == file_step(args@[0]@, st@, args@[i as int]@, i as int),
{
    match push_file_exec(args[0].as_slice(), st, args[i].as_slice()) {
        Ok(s2) => D3Step::Next(s2, i + 1),
        Err(m) => D3Step::Fail(m),
    }
}

fn push_label(st: D3Scan, label: String) -> (r: D3Scan)
    ensures
        r@ == (D3ScanV { labels: st@.labels.push(label@), ..st@ }),
{
    let mut st = st;
    let ghost old_labels = st.labels@;
    st.labels.push(label);
    assert(texts_view(st.labels@) =~= texts_view(old_labels).push(label@));
    st
}

fn d3_step_exec(args: &Vec<Vec<u8>>, i: usize, st: D3Scan) -> (r: D3Step)
    requires
        1 <= i < args.len(),
    ensures
        d3_step_view(r) == d3_step(lines_of(args@), i as int, st@),
{
    reveal(d3_step);
    let ghost a = lines_of(args@);
    assert(a[0] == args@[0]@);
    let text = lossy_string(args[i].as_slice());
    let t = text.as_str();
    if str_eq(t, "--") {
        return D3Step::Stop(st, i + 1);
    }
    if str_eq(t, "-") {
        return file_step_exec(args, st, i);
    }
    let dash = t.unicode_len() > 0 && t.get_char(0) == '-';
    if !dash {
        return file_step_exec(args, st, i);
    }
    match option_step_exec(t, st.flags) {
        Some(f) => {
            let mut st = st;
            st.flags = f;
            D3Step::Next(st, i + 1)
        },
        None => {
            if str_eq(t, "--label") {
                if st.labels.len() >= 3 {
                    D3Step::Fail(String::from_str("Too many labels"))
                } else if i + 1 >= args.len() {
                    D3Step::Fail(String::from_str("--label requires an argument"))
                } else {
                    match utf8_str(args[i + 1].as_slice()) {
                        None => D3Step::Fail(String::from_str("Label must be valid UTF-8")),
                        Some(label) => D3Step::Next(push_label(st, String::from_str(label)), i + 2),
                    }
                }
            } else if starts_with_str(t, "--label=") {
                if st.labels.len() >= 3 {
                    D3Step::Fail(String::from_str("Too many labels"))
                } else {
                    proof {
                        reveal_strlit("--label=");
                    }
                    let label = t.substring_char(8, t.unicode_len());
                    D3Step::Next(push_label(st, String::from_str(label)), i + 1)
                }
            } else if str_eq(t, "--help") || str_eq(t, "-h") {
                D3Step::Help
            } else if str_eq(t, "-v") || str_eq(t, "--version") {
                D3Step::Version
            } else {
                D3Step::Fail(String::from_str("Unknown option: \"").concat(t).concat("\""))
            }
        },
    }
}

enum D3Run {
    Done(D3Scan),
    Fail(String),
    Help,
    Version,
}

spec fn d3_run_view(r: D3Run) -> D3RunV {
    match r {
        D3Run::Done(s) => D3RunV::Done(s@),
        D3Run::Fail(m) => D3RunV::Fail(m@),
        D3Run::Help => D3RunV::Help,
        D3Run::Version => D3RunV::Version,
    }
}

fn files_rest_exec(args: &Vec<Vec<u8>>, j: usize, start: D3Scan) -> (r: D3Run)
    ensures
        d3_run_view(r) == files_rest(lines_of(args@), j as int, start@),
{
    if j < 1 {
        return D3Run::Done(start);
    }
    let ghost a = lines_of(args@);
    let ghost s0 = start@;
    let ghost whole = files_rest(a, j as int, s0);
    let mut st = start;
    let mut k = j;
    while k < args.len()
        invariant
            1 <= k,
            a == lines_of(args@),
            s0 == start@,
            whole == files_rest(a, j as int, s0),
            files_rest(a, k as int, st@) == whole,
        decreases args.len() - k,
    {
        assert(a[0] == args@[0]@);
        match push_file_exec(args[0].as_slice(), st, args[k].as_slice()) {
            Ok(s2) => {
                st = s2;
            },
            Err(m) => {
                return D3Run::Fail(m);
            },
        }
        k += 1;
    }
    D3Run::Done(st)
}

fn d3_run_exec(args: &Vec<Vec<u8>>, start: D3Scan) -> (r: D3Run)
    ensures
        d3_run_view(r) == d3_run(lines_of(args@), 1, start@),
{
    let ghost a = lines_of(args@);
    let ghost whole = d3_run(a, 1, start@);
    let mut st = start;
    let mut i: usize = 1;
    while i < args.len()
        invariant
            1 <= i,
            a == lines_of(args@),
            whole == d3_run(a, 1, start@),
            d3_run(a, i as int, st@) == whole,
        decreases args.len() - i,
    {
        match d3_step_exec(args, i, st) {
            D3Step::Next(s2, j) => {
                if i < j && j <= args.len() {
                    st = s2;
                    i = j;
                } else {
                    return D3Run::Done(s2);
                }
            },
            D3Step::Stop(s2, j) => {
                return files_rest_exec(args, j, s2);
            },
            D3Step::Fail(m) => {
                return D3Run::Fail(m);
            },
            D3Step::Help => {
                return D3Run::Help;
            },
            D3Step::Version => {
                return D3Run::Version;
            },
        }
    }
    D3Run::Done(st)
}

/// What reading the arguments of diff3 gives: the settings, an error
/// message, a request for the help (with the name of the utility), or for
/// the version.
pub enum Diff3Args {
    Run(Diff3Params),
    Fail(String),
    Help(Vec<u8>),
    Version,
}

pub open spec fn d3_args_view(r: Diff3Args) -> D3ArgsV {
    match r {
        Diff3Args::Run(p) => D3ArgsV::Run(params_view(p)),
        Diff3Args::Fail(m) => D3ArgsV::Fail(m@),
        Diff3Args::Help(e) => D3ArgsV::Help(e@),
        Diff3Args::Version => D3ArgsV::Version,
    }
}

fn label_at(labels: &Vec<String>, k: usize) -> (r: Option<String>)
    ensures
        opt_text(r) == (if k < labels@.len() { Some(labels@[k as int]@) } else { None::<Seq<char>> }),
{
    if k < labels.len() {
        Some(labels[k].clone())
    } else {
        None
    }
}

fn finish(args: &Vec<Vec<u8>>, st: D3Scan) -> (r: Diff3Args)
    requires
        args@.len() > 0,
    ensures
        d3_args_view(r) == (if st@.files.len() == 0 {
            D3ArgsV::Fail("Missing file: mine"@)
        } else if st@.files.len() == 1 {
            D3ArgsV::Fail("Missing file: older"@)
        } else if st@.files.len() == 2 {
            D3ArgsV::Fail("Missing file: yours"@)
        } else {
            D3ArgsV::Run(
                Diff3ParamsV {
                    executable: args@[0]@,
                    mine: st@.files[0],
                    older: st@.files[1],
                    yours: st@.files[2],
                    flags: st@.flags,
                    labels: Seq::new(3, |k: int| if k < st@.labels.len() { Some(st@.labels[k]) } else { None }),
                },
            )
        }),
{
    let n = st.files.len();
    if n == 0 {
        return Diff3Args::Fail(String::from_str("Missing file: mine"));
    }
    if n == 1 {
        return Diff3Args::Fail(String::from_str("Missing file: older"));
    }
    if n == 2 {
        return Diff3Args::Fail(String::from_str("Missing file: yours"));
    }
    let l0 = label_at(&st.labels, 0);
    let l1 = label_at(&st.labels, 1);
    let l2 = label_at(&st.labels, 2);
    let p = Diff3Params {
        executable: to_owned_bytes(args[0].as_slice()),
        mine: to_owned_bytes(st.files[0].as_slice()),
        older: to_owned_bytes(st.files[1].as_slice()),
        yours: to_owned_bytes(st.files[2].as_slice()),
        format: st.flags.format,
        output_mode: st.flags.output_mode,
        text: st.flags.text,
        labels: [l0, l1, l2],
        strip_trailing_cr: st.flags.strip_trailing_cr,
        initial_tab: st.flags.initial_tab,
        compat_i: st.flags.compat_i,
    };
    assert(params_view(p).labels =~= Seq::new(
        3,
        |k: int| if k < st@.labels.len() { Some(st@.labels[k]) } else { None },
    ));
    Diff3Args::Run(p)
}

/// Reads the arguments of diff3 (the first is the name of the utility), as
/// `d3_args` describes.
pub fn read_args(args: &Vec<Vec<u8>>) -> (r: Diff3Args)
    ensures
        d3_args_view(r) == d3_args(lines_of(args@)),
{
    if args.len() == 0 {
        return Diff3Args::Fail(String::from_str("Usage: <exe> mine older yours"));
    }
    let start = D3Scan { flags: Diff3Flags {
        format: Diff3Format::Normal,
        output_mode: Diff3OutputMode::All,
        text: false,
        strip_trailing_cr: false,
        initial_tab: false,
        compat_i: false,
    }, labels: Vec::new(), files: Vec::new() };
    assert(start@.labels =~= Seq::<Seq<char>>::empty());
    assert(start@.files =~= Seq::<Seq<u8>>::empty());
    match d3_run_exec(args, start) {
        D3Run::Done(st) => finish(args, st),
        D3Run::Fail(m) => Diff3Args::Fail(m),
        D3Run::Help => Diff3Args::Help(to_owned_bytes(args[0].as_slice())),
        D3Run::Version => Diff3Args::Version,
    }
}

/// Reads the arguments of diff3 when they ask for neither help nor version:
/// the settings, or the error message.
pub fn parse_params(args: &Vec<Vec<u8>>) -> (r: Result<Diff3Params, String>)
    requires
        !(d3_args(lines_of(args@)) is Help),
        !(d3_args(lines_of(args@)) is Version),
    ensures
        match r {
            Ok(p) => d3_args(lines_of(args@)) == D3ArgsV::Run(params_view(p)),
            Err(m) => d3_args(lines_of(args@)) == D3ArgsV::Fail(m@),
        },
{
    match read_args(args) {
        Diff3Args::Run(p) => Ok(p),
        Diff3Args::Fail(m) => Err(m),
        _ => Err(String::new()),
    }
}

/// The help text of diff3 for the utility named `executable`.
pub fn help_text(executable: &[u8]) -> (r: String)
    ensures
        r@ == "Usage: "@ + lossy_text(executable@) + HELP_BODY@,
{
    String::from_str("Usage: ").concat(lossy_string(executable).as_str()).concat(HELP_BODY)
}

/// The help of diff3 after its usage line's name of the utility.
pub const HELP_BODY: &'static str = " [OPTION]... mine older yours\n\nCompare three files and show their differences.\n\nOptions:\n  -a, --text                 Treat all files as text\n  -A, --show-all             Show all changes with conflict markers\n  -e, --ed                   Output ed script\n  -E, --show-overlap         Output ed script with overlap markers\n  -m, --merge                Generate merged output\n  -x, --overlap-only         Output only overlapping changes\n  -X                         Output only overlapping changes with markers\n  -3, --easy-only            Output only non-overlapping changes\n  -i                         Add write and quit commands for ed\n  -T, --initial-tab          Make tabs line up by prepending a tab\n  --label=LABEL              Use label for conflict markers\n  --strip-trailing-cr        Strip trailing carriage return\n  -h, --help                 Display this help message\n  -v, --version              Display version information\n";

} // verus!
