//! The unified diff format: `@@ -l,n +l,n @@` hunks with context lines.

use vstd::prelude::*;
use crate::lines::{lines_of, text_lines, count_nl, lines_and_newline_count, lemma_text_lines_len};
use crate::script::{DiffOp, diff_size_ok, diff_lines, lemma_diff_size_mono, fits, left_count, right_count,
    lcs_script, lemma_fits_step, lemma_count_step, lemma_count_prefix, lemma_take_all};
use crate::text::{to_owned_bytes, decimal, push_all, push_decimal, no_newline_note, push_no_newline_note, read_range,
    lemma_read_number, lemma_read_pair};
use crate::utils::{written_line, do_write_line};
use crate::params::Params;
use crate::unicode::{lossy_utf8, utf8_lossy};
use crate::ed_diff::apply_ed_hunks;
use crate::unified_patch::{u_replacements, lemma_unified_patch};

verus! {

/// A line of a unified hunk.
#[derive(Debug, PartialEq)]
pub enum DiffLine {
    Context(Vec<u8>),
    Expected(Vec<u8>),
    Actual(Vec<u8>),
    MissingNL,
}

/// A line of a unified hunk, as its bytes.
pub enum ULine {
    Context(Seq<u8>),
    Expected(Seq<u8>),
    Actual(Seq<u8>),
    MissingNL,
}

impl View for DiffLine {
    type V = ULine;

    open spec fn view(&self) -> ULine {
        match self {
            DiffLine::Context(v) => ULine::Context(v@),
            DiffLine::Expected(v) => ULine::Expected(v@),
            DiffLine::Actual(v) => ULine::Actual(v@),
            DiffLine::MissingNL => ULine::MissingNL,
        }
    }
}

pub open spec fn ulines_of(v: Seq<DiffLine>) -> Seq<ULine> {
    Seq::new(v.len(), |i: int| v[i]@)
}

/// A hunk: its first line on each side (counting from 1) and its lines.
pub struct UHunk {
    pub lne: int,
    pub lna: int,
    pub lines: Seq<ULine>,
}

/// The state of the walk over the edit script: the next line on each side, the
/// common lines held back as leading context, the number of common lines since
/// the last change, the hunks so far and the current one.
pub struct UState {
    pub lne: int,
    pub lna: int,
    pub queue: Seq<Seq<u8>>,
    pub since: int,
    pub results: Seq<UHunk>,
    pub cur: UHunk,
    pub stopped: bool,
}

pub open spec fn context_lines(q: Seq<Seq<u8>>) -> Seq<ULine> {
    Seq::new(q.len(), |i: int| ULine::Context(q[i]))
}

pub open spec fn empty_hunk(lne: int, lna: int) -> UHunk {
    UHunk { lne, lna, lines: Seq::empty() }
}

/// A change starts: after `cs` common lines a new hunk begins (its first line
/// is the first held-back context line), and the held-back lines join the hunk.
pub open spec fn start_change(st: UState, cs: int) -> UState {
    let st1 = if st.since >= cs && st.since > 0 {
        UState {
            results: st.results.push(st.cur),
            cur: empty_hunk(st.lne - st.queue.len(), st.lna - st.queue.len()),
            ..st
        }
    } else {
        st
    };
    UState { cur: UHunk { lines: st1.cur.lines + context_lines(st1.queue), ..st1.cur }, queue: Seq::empty(), ..st1 }
}

pub open spec fn with_lines(st: UState, lines: Seq<ULine>) -> UState {
    UState { cur: UHunk { lines, ..st.cur }, ..st }
}

pub open spec fn missing_if(b: bool) -> Seq<ULine> {
    if b { seq![ULine::MissingNL] } else { Seq::empty() }
}

/// One step of the walk: `e` and `a` are the lines of both sides, `ec` and `ac`
/// the numbers of their lines that end in a newline, `cs` the number of
/// context lines.
pub open spec fn u_step_inner(
    st: UState,
    op: DiffOp,
    e: Seq<Seq<u8>>,
    a: Seq<Seq<u8>>,
    ec: int,
    ac: int,
    cs: int,
) -> UState {
        match op {
            DiffOp::Left => {
                let line = e[st.lne - 1];
                let s1 = start_change(st, cs);
                let ls = s1.cur.lines;
                let miss = missing_if(st.lne > ec);
                let new_lines = if ls.len() > 0 && ls.last() == ULine::MissingNL {
                    let l2 = ls.drop_last();
                    l2.drop_last() + seq![ULine::Expected(line)] + miss + seq![l2.last(), ULine::MissingNL]
                } else {
                    ls + seq![ULine::Expected(line)] + miss
                };
                UState { lne: st.lne + 1, since: 0, ..with_lines(s1, new_lines) }
            },
            DiffOp::Right => {
                let line = a[st.lna - 1];
                let s1 = start_change(st, cs);
                UState {
                    lna: st.lna + 1,
                    since: 0,
                    ..with_lines(s1, s1.cur.lines + seq![ULine::Actual(line)] + missing_if(st.lna > ac))
                }
            },
            DiffOp::Both => {
                let line = e[st.lne - 1];
                let ex = st.lne > ec;
                let ax = st.lna > ac;
                let s1 = if ex && ax {
                    let s0 = if st.queue.len() < cs {
                        let fl = st.cur.lines + context_lines(st.queue);
                        UState {
                            queue: Seq::empty(),
                            ..with_lines(
                                st,
                                if st.since < cs {
                                    fl + seq![ULine::Context(line), ULine::MissingNL]
                                } else {
                                    fl
                                },
                            )
                        }
                    } else {
                        st
                    };
                    UState { since: 0, ..s0 }
                } else if ax {
                    let s0 = start_change(st, cs);
                    UState {
                        since: 0,
                        ..with_lines(
                            s0,
                            s0.cur.lines + seq![ULine::Expected(line), ULine::Actual(line), ULine::MissingNL],
                        )
                    }
                } else if ex {
                    let s0 = start_change(st, cs);
                    UState {
                        since: 0,
                        ..with_lines(
                            s0,
                            s0.cur.lines + seq![ULine::Expected(line), ULine::MissingNL, ULine::Actual(line)],
                        )
                    }
                } else {
                    let q0 = if st.queue.len() >= cs && st.queue.len() > 0 {
                        st.queue.drop_first()
                    } else {
                        st.queue
                    };
                    if st.since < cs {
                        UState {
                            queue: q0,
                            since: st.since + 1,
                            ..with_lines(st, st.cur.lines + seq![ULine::Context(line)])
                        }
                    } else if cs > 0 {
                        UState { queue: q0.push(line), since: st.since + 1, ..st }
                    } else {
                        UState { queue: q0, since: st.since + 1, ..st }
                    }
                };
                UState { lne: st.lne + 1, lna: st.lna + 1, ..s1 }
            },
        }
}

/// One step of the walk, which stops (with `stop`) once a hunk is complete.
pub open spec fn u_step(
    st: UState,
    op: DiffOp,
    e: Seq<Seq<u8>>,
    a: Seq<Seq<u8>>,
    ec: int,
    ac: int,
    cs: int,
    stop: bool,
) -> UState {
    if st.stopped {
        st
    } else {
        let s2 = u_step_inner(st, op, e, a, ec, ac, cs);
        UState { stopped: stop && s2.results.len() > 0, ..s2 }
    }
}

pub open spec fn u_init(cs: int) -> UState {
    UState {
        lne: 1,
        lna: 1,
        queue: Seq::empty(),
        since: cs + 1,
        results: Seq::empty(),
        cur: empty_hunk(0, 0),
        stopped: false,
    }
}

pub open spec fn u_run(
    s: Seq<DiffOp>,
    k: nat,
    e: Seq<Seq<u8>>,
    a: Seq<Seq<u8>>,
    ec: int,
    ac: int,
    cs: int,
    stop: bool,
) -> UState
    decreases k,
{
    if k == 0 {
        u_init(cs)
    } else {
        u_step(u_run(s, (k - 1) as nat, e, a, ec, ac, cs, stop), s[k - 1], e, a, ec, ac, cs, stop)
    }
}

/// The hunks of the unified format for script `s`. A walk stopped early keeps
/// its hunks as they are (the first is an empty placeholder). Otherwise the
/// placeholder is dropped and the current hunk added; when nothing differs but
/// one side's last line lacks a newline, a hunk shows that last line.
pub open spec fn u_hunks(
    s: Seq<DiffOp>,
    e: Seq<Seq<u8>>,
    a: Seq<Seq<u8>>,
    ec: int,
    ac: int,
    cs: int,
    stop: bool,
) -> Seq<UHunk> {
    let st = u_run(s, s.len(), e, a, ec, ac, cs, stop);
    if st.stopped {
        st.results
    } else {
        let r = st.results.push(st.cur).drop_first();
        if r.len() == 0 && ec != ac {
            if ec != e.len() {
                seq![UHunk { lne: e.len() as int, lna: a.len() as int, lines: seq![ULine::Expected(e.last()), ULine::MissingNL, ULine::Actual(a.last())] }]
            } else if ac != a.len() {
                seq![UHunk { lne: e.len() as int, lna: a.len() as int, lines: seq![ULine::Expected(e.last()), ULine::Actual(a.last()), ULine::MissingNL] }]
            } else {
                r
            }
        } else {
            r
        }
    }
}

/// The hunks of the unified format between two buffers.
pub open spec fn unified_hunks(expected: Seq<u8>, actual: Seq<u8>, cs: int, stop: bool) -> Seq<UHunk> {
    let e = text_lines(expected);
    let a = text_lines(actual);
    u_hunks(lcs_script(e, a), e, a, count_nl(expected) as int, count_nl(actual) as int, cs, stop)
}


/// A hunk of the unified format: its first line on each side and its lines.
pub struct Mismatch {
    pub line_number_expected: usize,
    pub line_number_actual: usize,
    pub lines: Vec<DiffLine>,
}

impl View for Mismatch {
    type V = UHunk;

    open spec fn view(&self) -> UHunk {
        UHunk {
            lne: self.line_number_expected as int,
            lna: self.line_number_actual as int,
            lines: ulines_of(self.lines@),
        }
    }
}

pub open spec fn uhunks_of(v: Seq<Mismatch>) -> Seq<UHunk> {
    Seq::new(v.len(), |i: int| v[i]@)
}

impl Mismatch {
    pub fn new(line_number_expected: usize, line_number_actual: usize) -> (m: Mismatch)
        ensures
            m@ == empty_hunk(line_number_expected as int, line_number_actual as int),
    {
        let m = Mismatch { line_number_expected, line_number_actual, lines: Vec::new() };
        assert(ulines_of(m.lines@) =~= Seq::<ULine>::empty());
        m
    }
}

fn push_line(m: &mut Mismatch, l: DiffLine)
    ensures
        final(m)@ == (UHunk { lines: old(m)@.lines.push(l@), ..old(m)@ }),
{
    let ghost before = ulines_of(m.lines@);
    m.lines.push(l);
    assert(ulines_of(m.lines@) =~= before.push(l@));
}

/// Moves the held-back context lines into the hunk.
fn flush_queue(m: &mut Mismatch, q: &mut std::collections::VecDeque<Vec<u8>>)
    ensures
        final(m)@ == (UHunk { lines: old(m)@.lines + context_lines(lines_of(old(q)@)), ..old(m)@ }),
        final(q)@.len() == 0,
{
    let ghost target = old(m)@.lines + context_lines(lines_of(old(q)@));
    assert(m@.lines + context_lines(lines_of(q@)) =~= target);
    while q.len() > 0
        invariant
            m@.lne == old(m)@.lne,
            m@.lna == old(m)@.lna,
            m@.lines + context_lines(lines_of(q@)) == target,
        decreases q.len(),
    {
        let ghost qv = q@;
        let line = q.pop_front().unwrap();
        let ghost before = m@.lines;
        push_line(m, DiffLine::Context(line));
        assert(lines_of(q@) =~= lines_of(qv).drop_first());
        assert(m@.lines + context_lines(lines_of(q@)) =~= before + context_lines(lines_of(qv)));
    }
    assert(context_lines(lines_of(q@)) =~= Seq::<ULine>::empty());
    assert(m@.lines =~= target);
}


/// A hunk that ends in a missing-newline mark not right after a line of the
/// second side was closed by the last line of the first side.
pub open spec fn nl_ok(lines: Seq<ULine>, lne: int, ne: int) -> bool {
    (lines.len() > 0 && lines.last() == ULine::MissingNL && !(lines.len() >= 2 && lines[lines.len() - 2] is Actual))
        ==> lne > ne
}

/// The state of the walk as the executable loop holds it.
pub open spec fn exec_state(
    lne: usize,
    lna: usize,
    q: Seq<Vec<u8>>,
    since: usize,
    results: Seq<Mismatch>,
    m: Mismatch,
) -> UState {
    UState {
        lne: lne as int,
        lna: lna as int,
        queue: lines_of(q),
        since: since as int,
        results: uhunks_of(results),
        cur: m@,
        stopped: false,
    }
}

proof fn lemma_u_run_stopped(
    s: Seq<DiffOp>,
    k: nat,
    n: nat,
    e: Seq<Seq<u8>>,
    a: Seq<Seq<u8>>,
    ec: int,
    ac: int,
    cs: int,
    stop: bool,
)
    requires
        k <= n <= s.len(),
        u_run(s, k, e, a, ec, ac, cs, stop).stopped,
    ensures
        u_run(s, n, e, a, ec, ac, cs, stop) == u_run(s, k, e, a, ec, ac, cs, stop),
    decreases n - k,
{
    if n > k {
        lemma_u_run_stopped(s, k, (n - 1) as nat, e, a, ec, ac, cs, stop);
    }
}

/// Every hunk (but a placeholder in front) starts at line 1 or later on both sides.
pub open spec fn u_hunks_ok(hs: Seq<UHunk>, from: int) -> bool {
    forall|i: int| from <= i < hs.len() ==> 1 <= (#[trigger] hs[i]).lne && 1 <= hs[i].lna
}



/// The walk over the edit script as the executable code holds it.
pub struct UWalk {
    pub lne: usize,
    pub lna: usize,
    pub queue: std::collections::VecDeque<Vec<u8>>,
    pub since: usize,
    pub results: Vec<Mismatch>,
    pub mismatch: Mismatch,
}

impl View for UWalk {
    type V = UState;

    open spec fn view(&self) -> UState {
        exec_state(self.lne, self.lna, self.queue@, self.since, self.results@, self.mismatch)
    }
}

/// What the walk keeps true: the held-back lines lie before the next lines;
/// the line numbers stay within the files; a missing-newline mark that does not
/// follow a line of the second side ends the first side; before the first
/// change both sides advance together; and every hunk but the placeholder
/// starts at line 1 or later.
pub open spec fn walk_inv(w: UWalk, ne: int, na: int, cs: int) -> bool {
    &&& w.queue@.len() < w.lne
    &&& w.queue@.len() < w.lna
    &&& 1 <= w.lne <= ne + 1
    &&& 1 <= w.lna <= na + 1
    &&& w.since <= cs + w.lne
    &&& nl_ok(w.mismatch@.lines, w.lne as int, ne)
    &&& (w.results@.len() == 0 ==> w.lne == w.lna && (w.since >= cs + 1 || (w.lne > ne && w.lna > na)))
    &&& u_hunks_ok(uhunks_of(w.results@), 1)
    &&& (w.results@.len() > 0 ==> 1 <= w.mismatch.line_number_expected && 1 <= w.mismatch.line_number_actual)
}

/// The size limits under which the walk's counters cannot overflow.
pub open spec fn walk_limits(ne: int, na: int, cs: int) -> bool {
    ne < usize::MAX - 1 && na < usize::MAX - 1 && cs + 1 + ne + na <= usize::MAX
}

fn walk_start(w: &mut UWalk, cs: usize)
    requires
        old(w).queue@.len() < old(w).lne,
        old(w).queue@.len() < old(w).lna,
    ensures
        final(w)@ == start_change(old(w)@, cs as int),
        final(w).lne == old(w).lne,
        final(w).lna == old(w).lna,
        final(w).since == old(w).since,
        final(w).queue@.len() == 0,
        old(w).since >= cs && old(w).since > 0 ==> final(w).results@ == old(w).results@.push(old(w).mismatch)
            && final(w).mismatch.line_number_expected == old(w).lne - old(w).queue@.len()
            && final(w).mismatch.line_number_actual == old(w).lna - old(w).queue@.len(),
        !(old(w).since >= cs && old(w).since > 0) ==> final(w).results@ == old(w).results@
            && final(w).mismatch.line_number_expected == old(w).mismatch.line_number_expected
            && final(w).mismatch.line_number_actual == old(w).mismatch.line_number_actual,
{
    let ghost st = w@;
    if w.since >= cs && w.since > 0 {
        let ghost before = uhunks_of(w.results@);
        let mut fresh = Mismatch::new(w.lne - w.queue.len(), w.lna - w.queue.len());
        std::mem::swap(&mut w.mismatch, &mut fresh);
        w.results.push(fresh);
        assert(uhunks_of(w.results@) =~= before.push(st.cur));
    }
    let ghost st1 = w@;
    flush_queue(&mut w.mismatch, &mut w.queue);
    assert(lines_of(w.queue@) =~= Seq::<Seq<u8>>::empty());
}

proof fn lemma_start_keeps_nl(w0: UWalk, w1: UWalk, ne: int, cs: int)
    requires
        nl_ok(w0.mismatch@.lines, w0.lne as int, ne),
        w1@ == start_change(w0@, cs),
        w1.lne == w0.lne,
    ensures
        nl_ok(w1.mismatch@.lines, w1.lne as int, ne),
        w0.queue@.len() > 0 ==> w1.mismatch@.lines.len() > 0 && w1.mismatch@.lines.last() is Context,
{
    let q = lines_of(w0.queue@);
    if q.len() > 0 {
        let c = context_lines(q);
        assert(c.last() == ULine::Context(q.last()));
    }
}


fn walk_left(w: &mut UWalk, e: &Vec<Vec<u8>>, a: &Vec<Vec<u8>>, ec: usize, ac: usize, cs: usize)
    requires
        walk_inv(*old(w), e.len() as int, a.len() as int, cs as int),
        walk_limits(e.len() as int, a.len() as int, cs as int),
        old(w).lne <= e.len(),
        ec <= e.len() <= ec + 1,
    ensures
        final(w)@ == u_step_inner(old(w)@, DiffOp::Left, lines_of(e@), lines_of(a@), ec as int, ac as int, cs as int),
        walk_inv(*final(w), e.len() as int, a.len() as int, cs as int),
        final(w).lne == old(w).lne + 1,
        final(w).lna == old(w).lna,
{
    let ghost w0 = *w;
    let ghost st = w@;
    let ghost ne = e.len() as int;
    let line = to_owned_bytes(e[w.lne - 1].as_slice());
    walk_start(w, cs);
    proof {
        lemma_start_keeps_nl(w0, *w, ne, cs as int);
    }
    let ghost s1 = w@;
    let ghost ls = w.mismatch@.lines;
    let lne = w.lne;
    let n = w.mismatch.lines.len();
    if n > 0 && matches!(w.mismatch.lines[n - 1], DiffLine::MissingNL) {
        assert(ls.last() == ULine::MissingNL);
        let _ = w.mismatch.lines.pop();
        let prev = w.mismatch.lines.pop();
        match prev {
            Some(DiffLine::Actual(res)) => {
                let ghost l2 = ls.drop_last();
                assert(l2.last() == ULine::Actual(res@));
                assert(ulines_of(w.mismatch.lines@) =~= l2.drop_last());
                push_line(&mut w.mismatch, DiffLine::Expected(line));
                if lne > ec {
                    push_line(&mut w.mismatch, DiffLine::MissingNL);
                }
                push_line(&mut w.mismatch, DiffLine::Actual(res));
                push_line(&mut w.mismatch, DiffLine::MissingNL);
                assert(w.mismatch@.lines =~= l2.drop_last() + seq![ULine::Expected(line@)] + missing_if(lne > ec)
                    + seq![l2.last(), ULine::MissingNL]);
            },
            _ => {
                assert(ls.len() >= 2 ==> ls[ls.len() - 2] == l2_last_of(ls));
                assert(false);
            },
        }
    } else {
        push_line(&mut w.mismatch, DiffLine::Expected(line));
        if lne > ec {
            push_line(&mut w.mismatch, DiffLine::MissingNL);
        }
        assert(w.mismatch@.lines =~= ls + seq![ULine::Expected(line@)] + missing_if(lne > ec));
    }
    w.lne = w.lne + 1;
    w.since = 0;
}

spec fn l2_last_of(ls: Seq<ULine>) -> ULine {
    ls.drop_last().last()
}


fn walk_right(w: &mut UWalk, e: &Vec<Vec<u8>>, a: &Vec<Vec<u8>>, ec: usize, ac: usize, cs: usize)
    requires
        walk_inv(*old(w), e.len() as int, a.len() as int, cs as int),
        walk_limits(e.len() as int, a.len() as int, cs as int),
        old(w).lna <= a.len(),
        ac <= a.len() <= ac + 1,
    ensures
        final(w)@ == u_step_inner(old(w)@, DiffOp::Right, lines_of(e@), lines_of(a@), ec as int, ac as int, cs as int),
        walk_inv(*final(w), e.len() as int, a.len() as int, cs as int),
        final(w).lne == old(w).lne,
        final(w).lna == old(w).lna + 1,
{
    let ghost w0 = *w;
    let line = to_owned_bytes(a[w.lna - 1].as_slice());
    walk_start(w, cs);
    let ghost ls = w.mismatch@.lines;
    let lna = w.lna;
    push_line(&mut w.mismatch, DiffLine::Actual(line));
    if lna > ac {
        push_line(&mut w.mismatch, DiffLine::MissingNL);
    }
    assert(w.mismatch@.lines =~= ls + seq![ULine::Actual(line@)] + missing_if(lna > ac));
    w.lna = w.lna + 1;
    w.since = 0;
}

#[verifier::rlimit(50)]
fn walk_both(w: &mut UWalk, e: &Vec<Vec<u8>>, a: &Vec<Vec<u8>>, ec: usize, ac: usize, cs: usize)
    requires
        walk_inv(*old(w), e.len() as int, a.len() as int, cs as int),
        walk_limits(e.len() as int, a.len() as int, cs as int),
        old(w).lne <= e.len(),
        old(w).lna <= a.len(),
        ec <= e.len() <= ec + 1,
        ac <= a.len() <= ac + 1,
    ensures
        final(w)@ == u_step_inner(old(w)@, DiffOp::Both, lines_of(e@), lines_of(a@), ec as int, ac as int, cs as int),
        walk_inv(*final(w), e.len() as int, a.len() as int, cs as int),
        final(w).lne == old(w).lne + 1,
        final(w).lna == old(w).lna + 1,
{
    let ghost w0 = *w;
    let ghost ne = e.len() as int;
    let lne = w.lne;
    let lna = w.lna;
    let line = to_owned_bytes(e[lne - 1].as_slice());
    let ex = lne > ec;
    let ax = lna > ac;
    if ex && ax {
        if w.queue.len() < cs {
            let ghost ls = w.mismatch@.lines;
            let ghost q = lines_of(w.queue@);
            flush_queue(&mut w.mismatch, &mut w.queue);
            if w.since < cs {
                push_line(&mut w.mismatch, DiffLine::Context(line));
                push_line(&mut w.mismatch, DiffLine::MissingNL);
                assert(w.mismatch@.lines =~= ls + context_lines(q) + seq![ULine::Context(line@), ULine::MissingNL]);
            }
            assert(lines_of(w.queue@) =~= Seq::<Seq<u8>>::empty());
        }
        w.since = 0;
    } else if ax {
        walk_start(w, cs);
        proof {
            lemma_start_keeps_nl(w0, *w, ne, cs as int);
        }
        let ghost ls = w.mismatch@.lines;
        push_line(&mut w.mismatch, DiffLine::Expected(to_owned_bytes(line.as_slice())));
        push_line(&mut w.mismatch, DiffLine::Actual(to_owned_bytes(line.as_slice())));
        push_line(&mut w.mismatch, DiffLine::MissingNL);
        assert(w.mismatch@.lines =~= ls + seq![ULine::Expected(line@), ULine::Actual(line@), ULine::MissingNL]);
        w.since = 0;
    } else if ex {
        walk_start(w, cs);
        proof {
            lemma_start_keeps_nl(w0, *w, ne, cs as int);
        }
        let ghost ls = w.mismatch@.lines;
        push_line(&mut w.mismatch, DiffLine::Expected(to_owned_bytes(line.as_slice())));
        push_line(&mut w.mismatch, DiffLine::MissingNL);
        push_line(&mut w.mismatch, DiffLine::Actual(to_owned_bytes(line.as_slice())));
        assert(w.mismatch@.lines =~= ls + seq![ULine::Expected(line@), ULine::MissingNL, ULine::Actual(line@)]);
        w.since = 0;
    } else {
        if w.queue.len() >= cs && w.queue.len() > 0 {
            let ghost qv = w.queue@;
            let _ = w.queue.pop_front();
            assert(lines_of(w.queue@) =~= lines_of(qv).drop_first());
        }
        if w.since < cs {
            let ghost ls = w.mismatch@.lines;
            push_line(&mut w.mismatch, DiffLine::Context(line));
            assert(w.mismatch@.lines =~= ls + seq![ULine::Context(line@)]);
        } else if cs > 0 {
            let ghost qv = w.queue@;
            w.queue.push_back(line);
            assert(lines_of(w.queue@) =~= lines_of(qv).push(line@));
        }
        w.since = w.since + 1;
    }
    w.lne = w.lne + 1;
    w.lna = w.lna + 1;
}


/// The hunks of the unified format, from the lines of both sides, the numbers
/// of their lines that end in a newline, an edit script between them and the
/// number of context lines. With `stop_early`, the walk ends as soon as a hunk
/// is complete.
pub fn make_diff_from_script(
    e: &Vec<Vec<u8>>,
    a: &Vec<Vec<u8>>,
    ec: usize,
    ac: usize,
    script: &Vec<DiffOp>,
    context_size: usize,
    stop_early: bool,
) -> (r: Vec<Mismatch>)
    requires
        fits(script@, lines_of(e@), lines_of(a@)),
        walk_limits(e.len() as int, a.len() as int, context_size as int),
        ec <= e.len() <= ec + 1,
        ac <= a.len() <= ac + 1,
    ensures
        uhunks_of(r@) == u_hunks(script@, lines_of(e@), lines_of(a@), ec as int, ac as int, context_size as int, stop_early),
        !u_run(script@, script@.len(), lines_of(e@), lines_of(a@), ec as int, ac as int, context_size as int, stop_early).stopped
            ==> u_hunks_ok(uhunks_of(r@), 0),
{
    let ghost le = lines_of(e@);
    let ghost la = lines_of(a@);
    let ghost s = script@;
    let ghost ne = e.len() as int;
    let ghost na = a.len() as int;
    let cs = context_size;
    let mut w = UWalk {
        lne: 1,
        lna: 1,
        queue: std::collections::VecDeque::new(),
        since: cs + 1,
        results: Vec::new(),
        mismatch: Mismatch::new(0, 0),
    };
    let mut i: usize = 0;
    assert(uhunks_of(w.results@) =~= Seq::<UHunk>::empty());
    assert(lines_of(w.queue@) =~= Seq::<Seq<u8>>::empty());
    assert(s.take(0) =~= Seq::<DiffOp>::empty());
    while i < script.len()
        invariant
            le == lines_of(e@),
            la == lines_of(a@),
            s == script@,
            ne == e.len(),
            na == a.len(),
            cs == context_size,
            fits(s, le, la),
            walk_limits(ne, na, cs as int),
            ec <= e.len() <= ec + 1,
            ac <= a.len() <= ac + 1,
            i <= s.len(),
            w.lne == left_count(s.take(i as int)) + 1,
            w.lna == right_count(s.take(i as int)) + 1,
            u_run(s, i as nat, le, la, ec as int, ac as int, cs as int, stop_early) == w@,
            walk_inv(w, ne, na, cs as int),
        decreases s.len() - i,
    {
        proof {
            lemma_fits_step(s, le, la, i as int);
            lemma_count_step(s, i as int);
        }
        match script[i] {
            DiffOp::Left => walk_left(&mut w, e, a, ec, ac, cs),
            DiffOp::Right => walk_right(&mut w, e, a, ec, ac, cs),
            DiffOp::Both => walk_both(&mut w, e, a, ec, ac, cs),
        }
        i = i + 1;
        if stop_early && w.results.len() > 0 {
            proof {
                lemma_u_run_stopped(s, i as nat, s.len(), le, la, ec as int, ac as int, cs as int, stop_early);
            }
            return w.results;
        }
    }
    proof {
        lemma_take_all(s);
    }
    let UWalk { lne, lna, queue, since, results, mismatch } = w;
    let mut results = results;
    let ghost pushed = uhunks_of(results@).push(mismatch@);
    let ghost had_results = results@.len() > 0;
    results.push(mismatch);
    assert(uhunks_of(results@) =~= pushed);
    let _ = results.remove(0);
    assert(uhunks_of(results@) =~= pushed.drop_first());
    if results.len() == 0 && ec != ac {
        assert(e.len() == a.len());
        let mut m = Mismatch::new(e.len(), a.len());
        if ec != e.len() {
            let ghost el = le.last();
            let ghost al = la.last();
            push_line(&mut m, DiffLine::Expected(to_owned_bytes(e[e.len() - 1].as_slice())));
            push_line(&mut m, DiffLine::MissingNL);
            push_line(&mut m, DiffLine::Actual(to_owned_bytes(a[a.len() - 1].as_slice())));
            assert(m@.lines =~= seq![ULine::Expected(el), ULine::MissingNL, ULine::Actual(al)]);
            results.push(m);
            assert(uhunks_of(results@) =~= seq![m@]);
        } else if ac != a.len() {
            let ghost el = le.last();
            let ghost al = la.last();
            push_line(&mut m, DiffLine::Expected(to_owned_bytes(e[e.len() - 1].as_slice())));
            push_line(&mut m, DiffLine::Actual(to_owned_bytes(a[a.len() - 1].as_slice())));
            push_line(&mut m, DiffLine::MissingNL);
            assert(m@.lines =~= seq![ULine::Expected(el), ULine::Actual(al), ULine::MissingNL]);
            results.push(m);
            assert(uhunks_of(results@) =~= seq![m@]);
        }
        assert(uhunks_of(results@) =~= u_hunks(s, le, la, ec as int, ac as int, cs as int, stop_early));
    }
    results
}


proof fn lemma_u_run_no_stop(
    s: Seq<DiffOp>,
    k: nat,
    e: Seq<Seq<u8>>,
    a: Seq<Seq<u8>>,
    ec: int,
    ac: int,
    cs: int,
)
    ensures
        !u_run(s, k, e, a, ec, ac, cs, false).stopped,
    decreases k,
{
    if k > 0 {
        lemma_u_run_no_stop(s, (k - 1) as nat, e, a, ec, ac, cs);
    }
}

/// The hunks of the unified format between two buffers.
/// On a script of common lines only, between equal sides, the walk opens no
/// hunk.
pub proof fn lemma_u_all_both(s: Seq<DiffOp>, k: nat, e: Seq<Seq<u8>>, ec: int, cs: int, stop: bool)
    requires
        k <= s.len(),
        forall|i: int| 0 <= i < s.len() ==> s[i] == DiffOp::Both,
    ensures
        u_run(s, k, e, e, ec, ec, cs, stop).results.len() == 0,
        u_run(s, k, e, e, ec, ec, cs, stop).lne == u_run(s, k, e, e, ec, ec, cs, stop).lna,
        !u_run(s, k, e, e, ec, ec, cs, stop).stopped,
    decreases k,
{
    if k > 0 {
        lemma_u_all_both(s, (k - 1) as nat, e, ec, cs, stop);
    }
}

pub fn make_diff(expected: &[u8], actual: &[u8], context_size: usize, stop_early: bool) -> (r: Vec<Mismatch>)
    requires
        diff_size_ok(text_lines(expected@).len(), text_lines(actual@).len()),
        context_size + 1 + expected@.len() + actual@.len() <= usize::MAX,
    ensures
        uhunks_of(r@) == unified_hunks(expected@, actual@, context_size as int, stop_early),
        !stop_early ==> u_hunks_ok(uhunks_of(r@), 0),
        expected@ == actual@ ==> r@.len() == 0,
        !stop_early ==> apply_ed_hunks(text_lines(expected@), u_replacements(uhunks_of(r@))) == text_lines(actual@),
{
    let (e, ec) = lines_and_newline_count(expected);
    let (a, ac) = lines_and_newline_count(actual);
    proof {
        lemma_text_lines_len(expected@);
        lemma_text_lines_len(actual@);
        
    }
    let script = diff_lines(&e, &a);
    proof {
        lemma_u_run_no_stop(script@, script@.len(), lines_of(e@), lines_of(a@), ec as int, ac as int, context_size as int);
        lemma_unified_patch(script@, lines_of(e@), lines_of(a@), ec as int, ac as int, context_size as int);
        if expected@ == actual@ {
            lemma_u_all_both(script@, script@.len(), lines_of(e@), ec as int, context_size as int, stop_early);
            let st = u_run(script@, script@.len(), lines_of(e@), lines_of(a@), ec as int, ac as int, context_size as int, stop_early);
            assert(st.results.push(st.cur).drop_first() =~= Seq::<UHunk>::empty());
        }
    }
    let r = make_diff_from_script(&e, &a, ec, ac, &script, context_size, stop_early);
    assert(expected@ == actual@ ==> uhunks_of(r@).len() == 0);
    r
}

/// The number of lines of a hunk on the first side (removed and context lines).
pub open spec fn u_count_expected(ls: Seq<ULine>) -> nat
    decreases ls.len(),
{
    if ls.len() == 0 {
        0
    } else {
        u_count_expected(ls.drop_last()) + if ls.last() is Expected || ls.last() is Context { 1nat } else { 0nat }
    }
}

/// The number of lines of a hunk on the second side (added and context lines).
pub open spec fn u_count_actual(ls: Seq<ULine>) -> nat
    decreases ls.len(),
{
    if ls.len() == 0 {
        0
    } else {
        u_count_actual(ls.drop_last()) + if ls.last() is Actual || ls.last() is Context { 1nat } else { 0nat }
    }
}

/// A line of a hunk: `-`, ` ` or `+` and the line, or the missing-newline note.
pub open spec fn u_line_text(l: ULine, expand: bool, tabsize: nat) -> Seq<u8> {
    match l {
        ULine::Expected(t) => seq![45u8] + written_line(t, expand, tabsize) + seq![10u8],
        ULine::Context(t) => seq![32u8] + written_line(t, expand, tabsize) + seq![10u8],
        ULine::Actual(t) => seq![43u8] + written_line(t, expand, tabsize) + seq![10u8],
        ULine::MissingNL => no_newline_note(),
    }
}

pub open spec fn u_lines_text(ls: Seq<ULine>, expand: bool, tabsize: nat) -> Seq<u8>
    decreases ls.len(),
{
    if ls.len() == 0 {
        Seq::<u8>::empty()
    } else {
        u_lines_text(ls.drop_last(), expand, tabsize) + u_line_text(ls.last(), expand, tabsize)
    }
}

/// The count after a start line: nothing for one line, else a comma and the count.
pub open spec fn count_text(n: nat) -> Seq<u8> {
    if n == 1 {
        Seq::<u8>::empty()
    } else {
        seq![44u8] + decimal(n)
    }
}

/// The text of a hunk: `@@ -L,N +L,N @@` and its lines; a side with no line
/// names the line before the hunk.
pub open spec fn u_hunk_text(h: UHunk, expand: bool, tabsize: nat) -> Seq<u8> {
    let nexp = u_count_expected(h.lines);
    let nact = u_count_actual(h.lines);
    let lne = if nexp == 0 { h.lne - 1 } else { h.lne };
    let lna = if nact == 0 { h.lna - 1 } else { h.lna };
    u_range_line(lne, nexp, lna, nact) + u_lines_text(h.lines, expand, tabsize)
}

/// The line that opens a hunk: `@@ -START,COUNT +START,COUNT @@`.
pub open spec fn u_range_line(lne: int, nexp: nat, lna: int, nact: nat) -> Seq<u8> {
    seq![64u8, 64, 32, 45] + decimal(lne as nat) + count_text(nexp) + seq![32u8, 43] + decimal(lna as nat)
        + count_text(nact) + seq![32u8, 64, 64, 10]
}

pub open spec fn u_text(hs: Seq<UHunk>, expand: bool, tabsize: nat) -> Seq<u8>
    decreases hs.len(),
{
    if hs.len() == 0 {
        Seq::<u8>::empty()
    } else {
        u_text(hs.drop_last(), expand, tabsize) + u_hunk_text(hs.last(), expand, tabsize)
    }
}

/// The two header lines: `--- NAME\tTIME` and `+++ NAME\tTIME`.
pub open spec fn unified_header(from: Seq<u8>, from_time: Seq<u8>, to: Seq<u8>, to_time: Seq<u8>) -> Seq<u8> {
    seq![45u8, 45, 45, 32] + lossy_utf8(from) + seq![9u8] + from_time + seq![10u8, 43, 43, 43, 32] + lossy_utf8(to)
        + seq![9u8] + to_time + seq![10u8]
}

/// The unified diff between two buffers: nothing when they do not differ; the
/// header alone when only asked whether they differ (`brief`); else the header
/// and the hunks.
pub open spec fn unified_output(expected: Seq<u8>, actual: Seq<u8>, p: Params, from_time: Seq<u8>, to_time: Seq<u8>) -> Seq<u8> {
    let hs = unified_hunks(expected, actual, p.context_count as int, p.brief);
    let header = unified_header(p.from@, from_time, p.to@, to_time);
    if hs.len() == 0 {
        Seq::<u8>::empty()
    } else if p.brief {
        header
    } else {
        header + u_text(hs, p.expand_tabs, p.tabsize as nat)
    }
}

fn push_count(out: &mut Vec<u8>, n: usize)
    ensures
        final(out)@ == old(out)@ + count_text(n as nat),
{
    if n != 1 {
        out.push(44u8);
        let ghost o1 = out@;
        push_decimal(out, n);
    }
    assert(out@ =~= old(out)@ + count_text(n as nat));
}

fn count_sides(m: &Mismatch) -> (r: (usize, usize))
    ensures
        r.0 == u_count_expected(m@.lines),
        r.1 == u_count_actual(m@.lines),
{
    let ghost ls = m@.lines;
    let mut nexp: usize = 0;
    let mut nact: usize = 0;
    let mut i: usize = 0;
    assert(ls.take(0) =~= Seq::<ULine>::empty());
    while i < m.lines.len()
        invariant
            ls == m@.lines,
            i <= m.lines.len(),
            nexp == u_count_expected(ls.take(i as int)),
            nact == u_count_actual(ls.take(i as int)),
            nexp <= i,
            nact <= i,
        decreases m.lines.len() - i,
    {
        assert(ls.take(i + 1).drop_last() =~= ls.take(i as int));
        assert(ls[i as int] == m.lines@[i as int]@);
        match &m.lines[i] {
            DiffLine::Expected(_) => nexp = nexp + 1,
            DiffLine::Context(_) => {
                nexp = nexp + 1;
                nact = nact + 1;
            },
            DiffLine::Actual(_) => nact = nact + 1,
            DiffLine::MissingNL => {},
        }
        i = i + 1;
    }
    assert(ls.take(i as int) =~= ls);
    (nexp, nact)
}

fn push_hunk_header(out: &mut Vec<u8>, lne: usize, nexp: usize, lna: usize, nact: usize)
    ensures
        final(out)@ == old(out)@ + u_range_line(lne as int, nexp as nat, lna as int, nact as nat),
{
    let h1: [u8; 4] = [64u8, 64, 32, 45];
    let h2: [u8; 2] = [32u8, 43];
    let h3: [u8; 4] = [32u8, 64, 64, 10];
    push_all(out, &h1);
    push_decimal(out, lne);
    push_count(out, nexp);
    push_all(out, &h2);
    push_decimal(out, lna);
    push_count(out, nact);
    push_all(out, &h3);
    assert(h1@ =~= seq![64u8, 64, 32, 45]);
    assert(h2@ =~= seq![32u8, 43]);
    assert(h3@ =~= seq![32u8, 64, 64, 10]);
    assert(out@ =~= old(out)@ + u_range_line(lne as int, nexp as nat, lna as int, nact as nat));
}

fn push_u_line(out: &mut Vec<u8>, line: &DiffLine, expand: bool, tabsize: usize)
    requires
        expand ==> tabsize > 0,
    ensures
        final(out)@ == old(out)@ + u_line_text(line@, expand, tabsize as nat),
{
    match line {
        DiffLine::Expected(t) => {
            out.push(45u8);
            let _ = do_write_line(out, t.as_slice(), expand, tabsize);
            out.push(10u8);
        },
        DiffLine::Context(t) => {
            out.push(32u8);
            let _ = do_write_line(out, t.as_slice(), expand, tabsize);
            out.push(10u8);
        },
        DiffLine::Actual(t) => {
            out.push(43u8);
            let _ = do_write_line(out, t.as_slice(), expand, tabsize);
            out.push(10u8);
        },
        DiffLine::MissingNL => {
            push_no_newline_note(out);
        },
    }
    assert(out@ =~= old(out)@ + u_line_text(line@, expand, tabsize as nat));
}

fn push_u_lines(out: &mut Vec<u8>, lines: &Vec<DiffLine>, expand: bool, tabsize: usize)
    requires
        expand ==> tabsize > 0,
    ensures
        final(out)@ == old(out)@ + u_lines_text(ulines_of(lines@), expand, tabsize as nat),
{
    let ghost ls = ulines_of(lines@);
    let ghost o1 = out@;
    let mut j: usize = 0;
    assert(ls.take(0) =~= Seq::<ULine>::empty());
    assert(o1 =~= o1 + u_lines_text(ls.take(0), expand, tabsize as nat));
    while j < lines.len()
        invariant
            ls == ulines_of(lines@),
            j <= lines.len(),
            expand ==> tabsize > 0,
            out@ == o1 + u_lines_text(ls.take(j as int), expand, tabsize as nat),
        decreases lines.len() - j,
    {
        assert(ls.take(j + 1).drop_last() =~= ls.take(j as int));
        assert(ls[j as int] == lines@[j as int]@);
        push_u_line(out, &lines[j], expand, tabsize);
        j = j + 1;
    }
    assert(ls.take(j as int) =~= ls);
}

fn push_hunk(out: &mut Vec<u8>, m: &Mismatch, expand: bool, tabsize: usize)
    requires
        1 <= m.line_number_expected,
        1 <= m.line_number_actual,
        expand ==> tabsize > 0,
    ensures
        final(out)@ == old(out)@ + u_hunk_text(m@, expand, tabsize as nat),
{
    let (nexp, nact) = count_sides(m);
    let lne = if nexp == 0 { m.line_number_expected - 1 } else { m.line_number_expected };
    let lna = if nact == 0 { m.line_number_actual - 1 } else { m.line_number_actual };
    push_hunk_header(out, lne, nexp, lna, nact);
    push_u_lines(out, &m.lines, expand, tabsize);
    proof {
        vstd::seq_lib::lemma_concat_associative(
            old(out)@,
            u_range_line(lne as int, nexp as nat, lna as int, nact as nat),
            u_lines_text(m@.lines, expand, tabsize as nat),
        );
    }
}

/// The unified diff between `expected` and `actual`, as `diff -u` prints it,
/// with the modification times of both files given as text; with
/// `params.brief`, only the header when they differ.
pub fn diff(expected: &[u8], actual: &[u8], params: &Params, from_time: &[u8], to_time: &[u8]) -> (r: Vec<u8>)
    requires
        diff_size_ok(text_lines(expected@).len(), text_lines(actual@).len()),
        params.context_count + 1 + expected@.len() + actual@.len() <= usize::MAX,
        params.expand_tabs ==> params.tabsize > 0,
    ensures
        r@ == unified_output(expected@, actual@, *params, from_time@, to_time@),
        expected@ == actual@ ==> r@.len() == 0,
{
    let mut output: Vec<u8> = Vec::new();
    let from_name = utf8_lossy(params.from.as_slice());
    let to_name = utf8_lossy(params.to.as_slice());
    let w1: [u8; 4] = [45u8, 45, 45, 32];
    let w2: [u8; 5] = [10u8, 43, 43, 43, 32];
    push_all(&mut output, &w1);
    push_all(&mut output, from_name.as_slice());
    output.push(9u8);
    push_all(&mut output, from_time);
    push_all(&mut output, &w2);
    push_all(&mut output, to_name.as_slice());
    output.push(9u8);
    push_all(&mut output, to_time);
    output.push(10u8);
    assert(w1@ =~= seq![45u8, 45, 45, 32]);
    assert(w2@ =~= seq![10u8, 43, 43, 43, 32]);
    assert(output@ =~= unified_header(params.from@, from_time@, params.to@, to_time@));
    let diff_results = make_diff(expected, actual, params.context_count, params.brief);
    if diff_results.len() == 0 {
        return Vec::new();
    }
    if params.brief {
        return output;
    }
    let ghost hs = uhunks_of(diff_results@);
    let ghost header = output@;
    let mut i: usize = 0;
    assert(hs.take(0) =~= Seq::<UHunk>::empty());
    assert(output@ =~= header + u_text(hs.take(0), params.expand_tabs, params.tabsize as nat));
    while i < diff_results.len()
        invariant
            hs == uhunks_of(diff_results@),
            u_hunks_ok(hs, 0),
            params.expand_tabs ==> params.tabsize > 0,
            i <= diff_results.len(),
            output@ == header + u_text(hs.take(i as int), params.expand_tabs, params.tabsize as nat),
        decreases diff_results.len() - i,
    {
        assert(hs[i as int] == diff_results@[i as int]@);
        push_hunk(&mut output, &diff_results[i], params.expand_tabs, params.tabsize);
        assert(hs.take(i + 1).drop_last() =~= hs.take(i as int));
        i = i + 1;
    }
    assert(hs.take(i as int) =~= hs);
    output
}

/// What a reader finds for one side of a hunk header: a side of one line is
/// that line alone; any other side is `S,C` with its count `C`, where `S` is
/// the side's first line, or, for a side with no line, the line just before
/// the hunk (the first line number less one).
pub open spec fn side_reads(r: (int, int, int), first: int, count: int) -> bool {
    &&& count == 1 ==> r.0 == first && r.1 == first
    &&& count != 1 ==> r.1 == count && r.0 == (if count == 0 { first - 1 } else { first })
}

proof fn lemma_side_then(first: int, count: nat, rest: Seq<u8>)
    requires
        1 <= first,
        rest.len() > 0,
        rest[0] == 32u8,
    ensures
        ({
            let s = if count == 0 { first - 1 } else { first };
            let r = read_range(decimal(s as nat) + count_text(count) + rest);
            &&& side_reads(r, first, count as int)
            &&& r.2 == (decimal(s as nat) + count_text(count)).len()
        }),
{
    let s = if count == 0 { first - 1 } else { first };
    if count == 1 {
        assert(decimal(s as nat) + count_text(count) + rest =~= decimal(s as nat) + rest);
        assert(decimal(s as nat) + count_text(count) =~= decimal(s as nat));
        lemma_read_number(s as nat, rest);
    } else {
        assert(decimal(s as nat) + count_text(count) + rest =~= decimal(s as nat) + seq![44u8] + decimal(count) + rest);
        lemma_read_pair(s as nat, count, rest);
    }
}

/// The header of a hunk names its lines on both sides: after `@@ -`, the
/// first file's side reads as `side_reads` says, then ` +` and the second
/// file's side in the same way, then ` @@` and the end of the line. In
/// particular a side that holds no line of the hunk is written `S,0`, with `S`
/// the line just before the hunk on that side.
pub proof fn lemma_unified_header_ranges(h: UHunk, expand: bool, tabsize: nat)
    requires
        1 <= h.lne,
        1 <= h.lna,
    ensures
        ({
            let t = u_hunk_text(h, expand, tabsize);
            let r1 = read_range(t.skip(4));
            let r2 = read_range(t.skip(6 + r1.2));
            &&& t.take(4) == seq![64u8, 64, 32, 45]
            &&& side_reads(r1, h.lne, u_count_expected(h.lines) as int)
            &&& t[4 + r1.2] == 32u8 && t[5 + r1.2] == 43u8
            &&& side_reads(r2, h.lna, u_count_actual(h.lines) as int)
            &&& t.skip(6 + r1.2 + r2.2).take(4) == seq![32u8, 64, 64, 10]
        }),
{
    let nexp = u_count_expected(h.lines);
    let nact = u_count_actual(h.lines);
    lemma_range_line_then(h.lne, nexp, h.lna, nact, u_lines_text(h.lines, expand, tabsize));
}

#[verifier::rlimit(50)]
proof fn lemma_range_line_then(first_e: int, nexp: nat, first_a: int, nact: nat, body: Seq<u8>)
    requires
        1 <= first_e,
        1 <= first_a,
    ensures
        ({
            let lne = if nexp == 0 { first_e - 1 } else { first_e };
            let lna = if nact == 0 { first_a - 1 } else { first_a };
            let t = u_range_line(lne, nexp, lna, nact) + body;
            let r1 = read_range(t.skip(4));
            let r2 = read_range(t.skip(6 + r1.2));
            &&& t.take(4) == seq![64u8, 64, 32, 45]
            &&& side_reads(r1, first_e, nexp as int)
            &&& t[4 + r1.2] == 32u8 && t[5 + r1.2] == 43u8
            &&& side_reads(r2, first_a, nact as int)
            &&& t.skip(6 + r1.2 + r2.2).take(4) == seq![32u8, 64, 64, 10]
        }),
{
    let lne = if nexp == 0 { first_e - 1 } else { first_e };
    let lna = if nact == 0 { first_a - 1 } else { first_a };
    let t = u_range_line(lne, nexp, lna, nact) + body;
    let a = decimal(lne as nat) + count_text(nexp);
    let b = decimal(lna as nat) + count_text(nact);
    let tail = seq![32u8, 64, 64, 10] + body;
    let rest1 = seq![32u8, 43] + b + tail;
    assert(t =~= seq![64u8, 64, 32, 45] + (a + rest1));
    assert(t.skip(4) =~= decimal(lne as nat) + count_text(nexp) + rest1);
    lemma_side_then(first_e, nexp, rest1);
    assert(t.skip((6 + a.len()) as int) =~= decimal(lna as nat) + count_text(nact) + tail);
    lemma_side_then(first_a, nact, tail);
    assert(t.skip((6 + a.len() + b.len()) as int) =~= tail);
}

} // verus!
