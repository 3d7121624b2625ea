//! The context diff format: `***************` hunks with `! `, `- `, `+ `
//! and context lines.

use vstd::prelude::*;
use vstd::utf8::encode_utf8;
use crate::lines::{lines_of, text_lines, count_nl, lines_and_newline_count, lemma_text_lines_len};
use crate::script::{DiffOp, diff_size_ok, diff_lines, lemma_diff_size_mono, fits, left_count, right_count,
    lcs_script, lemma_fits_step, lemma_count_step, lemma_take_all};
use crate::ed_diff::apply_ed_hunks;
use crate::context_patch::{c_replacements, lemma_context_patch};
use crate::text::{to_owned_bytes, decimal, push_all, push_decimal, no_newline_note, push_no_newline_note, read_range,
    lemma_read_number, lemma_read_pair};

verus! {

/// A line of a context hunk.
#[derive(Debug, PartialEq)]
pub enum DiffLine {
    Context(Vec<u8>),
    Change(Vec<u8>),
    Add(Vec<u8>),
}

/// A line of a context hunk, as its bytes.
pub enum CLine {
    Context(Seq<u8>),
    Change(Seq<u8>),
    Add(Seq<u8>),
}

impl View for DiffLine {
    type V = CLine;

    open spec fn view(&self) -> CLine {
        match self {
            DiffLine::Context(v) => CLine::Context(v@),
            DiffLine::Change(v) => CLine::Change(v@),
            DiffLine::Add(v) => CLine::Add(v@),
        }
    }
}

pub open spec fn clines_of(v: Seq<DiffLine>) -> Seq<CLine> {
    Seq::new(v.len(), |i: int| v[i]@)
}

/// A hunk: its first line on each side, its lines on each side, whether each
/// side's last line lacks a newline, and whether a side holds only context.
pub struct CHunk {
    pub lne: int,
    pub lna: int,
    pub expected: Seq<CLine>,
    pub actual: Seq<CLine>,
    pub enl: bool,
    pub anl: bool,
    pub eac: bool,
    pub aac: bool,
}

pub open spec fn empty_chunk(lne: int, lna: int) -> CHunk {
    CHunk {
        lne,
        lna,
        expected: Seq::empty(),
        actual: Seq::empty(),
        enl: false,
        anl: false,
        eac: false,
        aac: false,
    }
}

/// The state of the walk: the next line on each side, the held-back context
/// lines, the common lines since the last change, the hunks so far, the
/// current hunk, and the place of the first side's last added line that a
/// line of the second side may still turn into a change (`usize::MAX` when
/// there is none).
pub struct CState {
    pub lne: int,
    pub lna: int,
    pub queue: Seq<Seq<u8>>,
    pub since: int,
    pub results: Seq<CHunk>,
    pub cur: CHunk,
    pub idx: int,
}

pub open spec fn ccontext(q: Seq<Seq<u8>>) -> Seq<CLine> {
    Seq::new(q.len(), |i: int| CLine::Context(q[i]))
}

/// The held-back lines join both sides of the hunk.
pub open spec fn cflush(st: CState) -> CState {
    CState {
        cur: CHunk {
            expected: st.cur.expected + ccontext(st.queue),
            actual: st.cur.actual + ccontext(st.queue),
            ..st.cur
        },
        queue: Seq::empty(),
        ..st
    }
}

/// A new hunk begins, its first line being the first held-back line.
pub open spec fn cnew(st: CState) -> CState {
    CState {
        results: st.results.push(st.cur),
        cur: empty_chunk(st.lne - st.queue.len(), st.lna - st.queue.len()),
        ..st
    }
}

/// One step of the walk (`ec` and `ac` are the numbers of lines that end in a
/// newline, `cs` the number of context lines).
pub open spec fn c_step(
    st: CState,
    op: DiffOp,
    e: Seq<Seq<u8>>,
    a: Seq<Seq<u8>>,
    ec: int,
    ac: int,
    cs: int,
) -> CState {
    match op {
        DiffOp::Left => {
            let line = e[st.lne - 1];
            let s0 = if st.since > cs && st.since > 0 { cnew(st) } else { st };
            let s1 = cflush(s0);
            CState {
                idx: s1.cur.expected.len() as int,
                cur: CHunk {
                    expected: s1.cur.expected.push(CLine::Add(line)),
                    enl: if st.lne > ec { true } else { s1.cur.enl },
                    ..s1.cur
                },
                lne: st.lne + 1,
                since: 0,
                ..s1
            }
        },
        DiffOp::Right => {
            let line = a[st.lna - 1];
            let s0 = if st.since > cs && st.since > 0 { CState { idx: usize::MAX as int, ..cnew(st) } } else { st };
            let s1 = cflush(s0);
            let ex = s1.cur.expected;
            let s2 = if 0 <= s1.idx < ex.len() && ex[s1.idx] is Add {
                CState {
                    cur: CHunk {
                        expected: ex.update(s1.idx, CLine::Change(ex[s1.idx]->Add_0)),
                        actual: s1.cur.actual.push(CLine::Change(line)),
                        ..s1.cur
                    },
                    idx: if s1.idx == 0 { usize::MAX as int } else { s1.idx - 1 },
                    ..s1
                }
            } else {
                CState { cur: CHunk { actual: s1.cur.actual.push(CLine::Add(line)), ..s1.cur }, ..s1 }
            };
            CState {
                cur: CHunk { anl: if st.lna > ac { true } else { s2.cur.anl }, ..s2.cur },
                lna: st.lna + 1,
                since: 0,
                ..s2
            }
        },
        DiffOp::Both => {
            let line = e[st.lne - 1];
            let st0 = CState { idx: usize::MAX as int, ..st };
            let ex = st.lne > ec;
            let ax = st.lna > ac;
            let s1 = if ex && ax {
                let s0 = if st.queue.len() < cs {
                    let f = cflush(st0);
                    if st.since < cs {
                        CState {
                            cur: CHunk {
                                expected: f.cur.expected.push(CLine::Context(line)),
                                actual: f.cur.actual.push(CLine::Context(line)),
                                enl: true,
                                anl: true,
                                ..f.cur
                            },
                            ..f
                        }
                    } else {
                        f
                    }
                } else {
                    st0
                };
                CState { since: 0, ..s0 }
            } else if ax || ex {
                let s0 = cflush(if st.since >= cs && st.since > 0 { cnew(st0) } else { st0 });
                CState {
                    cur: CHunk {
                        expected: s0.cur.expected.push(CLine::Change(line)),
                        actual: s0.cur.actual.push(CLine::Change(line)),
                        enl: if ex { true } else { s0.cur.enl },
                        anl: if ax { true } else { s0.cur.anl },
                        ..s0.cur
                    },
                    since: 0,
                    ..s0
                }
            } else {
                let q0 = if st.queue.len() >= cs && st.queue.len() > 0 {
                    st.queue.drop_first()
                } else {
                    st.queue
                };
                if st.since < cs {
                    CState {
                        queue: q0,
                        since: st.since + 1,
                        cur: CHunk {
                            expected: st.cur.expected.push(CLine::Context(line)),
                            actual: st.cur.actual.push(CLine::Context(line)),
                            ..st.cur
                        },
                        ..st0
                    }
                } else if cs > 0 {
                    CState { queue: q0.push(line), since: st.since + 1, ..st0 }
                } else {
                    CState { queue: q0, since: st.since + 1, ..st0 }
                }
            };
            CState { lne: st.lne + 1, lna: st.lna + 1, ..s1 }
        },
    }
}

pub open spec fn c_init(cs: int) -> CState {
    CState {
        lne: 1,
        lna: 1,
        queue: Seq::empty(),
        since: cs + 1,
        results: Seq::empty(),
        cur: empty_chunk(0, 0),
        idx: usize::MAX as int,
    }
}

pub open spec fn c_run(s: Seq<DiffOp>, k: nat, e: Seq<Seq<u8>>, a: Seq<Seq<u8>>, ec: int, ac: int, cs: int) -> CState
    decreases k,
{
    if k == 0 {
        c_init(cs)
    } else {
        c_step(c_run(s, (k - 1) as nat, e, a, ec, ac, cs), s[k - 1], e, a, ec, ac, cs)
    }
}

pub open spec fn all_context(ls: Seq<CLine>) -> bool {
    forall|i: int| 0 <= i < ls.len() ==> (#[trigger] ls[i]) is Context
}

/// A hunk marked with the sides that hold only context lines.
pub open spec fn mark_context(h: CHunk) -> CHunk {
    CHunk { eac: h.eac || all_context(h.expected), aac: h.aac || all_context(h.actual), ..h }
}

/// The hunks of the context format for script `s`: the placeholder is dropped
/// and the current hunk added; when nothing differs but one side's last line
/// lacks a newline, a hunk shows that last line; then sides with only context
/// lines are marked.
pub open spec fn c_hunks(s: Seq<DiffOp>, e: Seq<Seq<u8>>, a: Seq<Seq<u8>>, ec: int, ac: int, cs: int) -> Seq<CHunk> {
    let st = c_run(s, s.len(), e, a, ec, ac, cs);
    let r = st.results.push(st.cur).drop_first();
    let r2 = if r.len() == 0 && ec != ac {
        if ec != e.len() {
            seq![CHunk { expected: seq![CLine::Change(e.last())], actual: seq![CLine::Change(a.last())], enl: true, ..empty_chunk(e.len() as int, a.len() as int) }]
        } else if ac != a.len() {
            seq![CHunk { expected: seq![CLine::Change(e.last())], actual: seq![CLine::Change(a.last())], anl: true, ..empty_chunk(e.len() as int, a.len() as int) }]
        } else {
            r
        }
    } else {
        r
    };
    marked(r2)
}

/// Each hunk marked with the sides that hold only context lines.
pub open spec fn marked(r: Seq<CHunk>) -> Seq<CHunk> {
    Seq::new(r.len(), |i: int| mark_context(r[i]))
}

/// The hunks of the context format between two buffers.
pub open spec fn context_hunks(expected: Seq<u8>, actual: Seq<u8>, cs: int) -> Seq<CHunk> {
    let e = text_lines(expected);
    let a = text_lines(actual);
    c_hunks(lcs_script(e, a), e, a, count_nl(expected) as int, count_nl(actual) as int, cs)
}


/// A hunk of the context format.
pub struct Mismatch {
    pub line_number_expected: usize,
    pub line_number_actual: usize,
    pub expected: Vec<DiffLine>,
    pub actual: Vec<DiffLine>,
    pub expected_missing_nl: bool,
    pub actual_missing_nl: bool,
    pub expected_all_context: bool,
    pub actual_all_context: bool,
}

impl View for Mismatch {
    type V = CHunk;

    open spec fn view(&self) -> CHunk {
        CHunk {
            lne: self.line_number_expected as int,
            lna: self.line_number_actual as int,
            expected: clines_of(self.expected@),
            actual: clines_of(self.actual@),
            enl: self.expected_missing_nl,
            anl: self.actual_missing_nl,
            eac: self.expected_all_context,
            aac: self.actual_all_context,
        }
    }
}

pub open spec fn chunks_of(v: Seq<Mismatch>) -> Seq<CHunk> {
    Seq::new(v.len(), |i: int| v[i]@)
}

impl Mismatch {
    pub fn new(line_number_expected: usize, line_number_actual: usize) -> (m: Mismatch)
        ensures
            m@ == empty_chunk(line_number_expected as int, line_number_actual as int),
            m.line_number_expected == line_number_expected,
            m.line_number_actual == line_number_actual,
            m.expected@.len() == 0,
            m.actual@.len() == 0,
    {
        let m = Mismatch {
            line_number_expected,
            line_number_actual,
            expected: Vec::new(),
            actual: Vec::new(),
            expected_missing_nl: false,
            actual_missing_nl: false,
            expected_all_context: false,
            actual_all_context: false,
        };
        assert(clines_of(m.expected@) =~= Seq::<CLine>::empty());
        assert(clines_of(m.actual@) =~= Seq::<CLine>::empty());
        m
    }
}

fn push_cline(v: &mut Vec<DiffLine>, l: DiffLine)
    ensures
        clines_of(final(v)@) == clines_of(old(v)@).push(l@),
        final(v)@.len() == old(v)@.len() + 1,
{
    let ghost before = clines_of(v@);
    v.push(l);
    assert(clines_of(v@) =~= before.push(l@));
}

/// The walk as the executable code holds it.
pub struct CWalk {
    pub lne: usize,
    pub lna: usize,
    pub queue: std::collections::VecDeque<Vec<u8>>,
    pub since: usize,
    pub results: Vec<Mismatch>,
    pub mismatch: Mismatch,
    pub idx: usize,
}

impl View for CWalk {
    type V = CState;

    open spec fn view(&self) -> CState {
        CState {
            lne: self.lne as int,
            lna: self.lna as int,
            queue: lines_of(self.queue@),
            since: self.since as int,
            results: chunks_of(self.results@),
            cur: self.mismatch@,
            idx: self.idx as int,
        }
    }
}

/// What the walk keeps true (see the unified format's walk).
pub open spec fn cwalk_inv(w: CWalk, ne: int, na: int, cs: int) -> bool {
    &&& w.queue@.len() < w.lne
    &&& w.queue@.len() < w.lna
    &&& 1 <= w.lne <= ne + 1
    &&& 1 <= w.lna <= na + 1
    &&& w.since <= cs + w.lne
    &&& (w.results@.len() == 0 ==> w.lne == w.lna && (w.since >= cs + 1 || (w.lne > ne && w.lna > na)))
    &&& (forall|i: int| 1 <= i < w.results@.len() ==> 1 <= (#[trigger] w.results@[i]).line_number_expected
        && 1 <= w.results@[i].line_number_actual)
    &&& (w.results@.len() > 0 ==> 1 <= w.mismatch.line_number_expected && 1 <= w.mismatch.line_number_actual)
    &&& w.mismatch.line_number_expected + w.mismatch.expected@.len() + w.queue@.len() <= w.lne
    &&& w.mismatch.line_number_actual + w.mismatch.actual@.len() + w.queue@.len() <= w.lna
    &&& (forall|i: int| 0 <= i < w.results@.len() ==> (#[trigger] w.results@[i]).line_number_expected
        + w.results@[i].expected@.len() <= ne + 1 && w.results@[i].line_number_actual + w.results@[i].actual@.len() <= na + 1)
}

pub open spec fn cwalk_limits(ne: int, na: int, cs: int) -> bool {
    ne < usize::MAX - 1 && na < usize::MAX - 1 && cs + 1 + ne + na <= usize::MAX
}

fn cwalk_flush(w: &mut CWalk)
    ensures
        final(w)@ == cflush(old(w)@),
        final(w).lne == old(w).lne,
        final(w).lna == old(w).lna,
        final(w).since == old(w).since,
        final(w).idx == old(w).idx,
        final(w).results@ == old(w).results@,
        final(w).mismatch.line_number_expected == old(w).mismatch.line_number_expected,
        final(w).mismatch.line_number_actual == old(w).mismatch.line_number_actual,
        final(w).queue@.len() == 0,
        final(w).mismatch.expected@.len() == old(w).mismatch.expected@.len() + old(w).queue@.len(),
        final(w).mismatch.actual@.len() == old(w).mismatch.actual@.len() + old(w).queue@.len(),
{
    let ghost q0 = lines_of(w.queue@);
    let ghost e0 = w.mismatch@.expected;
    let ghost a0 = w.mismatch@.actual;
    assert(q0.take(0) =~= Seq::<Seq<u8>>::empty());
    while w.queue.len() > 0
        invariant
            w.lne == old(w).lne,
            w.lna == old(w).lna,
            w.since == old(w).since,
            w.idx == old(w).idx,
            w.results@ == old(w).results@,
            w.mismatch.line_number_expected == old(w).mismatch.line_number_expected,
            w.mismatch.line_number_actual == old(w).mismatch.line_number_actual,
            w.mismatch.expected_missing_nl == old(w).mismatch.expected_missing_nl,
            w.mismatch.actual_missing_nl == old(w).mismatch.actual_missing_nl,
            w.mismatch.expected_all_context == old(w).mismatch.expected_all_context,
            w.mismatch.actual_all_context == old(w).mismatch.actual_all_context,
            q0 == lines_of(old(w).queue@),
            e0 == old(w).mismatch@.expected,
            a0 == old(w).mismatch@.actual,
            lines_of(w.queue@) == q0.skip(q0.len() - w.queue@.len()),
            w.queue@.len() <= q0.len(),
            w.mismatch@.expected == e0 + ccontext(q0.take(q0.len() - w.queue@.len())),
            w.mismatch@.actual == a0 + ccontext(q0.take(q0.len() - w.queue@.len())),
        decreases w.queue@.len(),
    {
        let ghost k = q0.len() - w.queue@.len();
        let ghost qv = w.queue@;
        assert(lines_of(qv)[0] == q0.skip(k)[0]);
        let line = w.queue.pop_front().unwrap();
        assert(line@ == lines_of(qv)[0]);
        assert(lines_of(w.queue@) =~= lines_of(qv).drop_first());
        push_cline(&mut w.mismatch.expected, DiffLine::Context(to_owned_bytes(line.as_slice())));
        push_cline(&mut w.mismatch.actual, DiffLine::Context(line));
        assert(lines_of(w.queue@) =~= q0.skip(k + 1));
        assert(q0[k] == line@);
        assert(ccontext(q0.take(k + 1)) =~= ccontext(q0.take(k)).push(CLine::Context(q0[k])));
    }
    assert(q0.take(q0.len() as int) =~= q0);
    assert(lines_of(w.queue@) =~= Seq::<Seq<u8>>::empty());
}

fn cwalk_new(w: &mut CWalk)
    requires
        old(w).queue@.len() < old(w).lne,
        old(w).queue@.len() < old(w).lna,
    ensures
        final(w)@ == cnew(old(w)@),
        final(w).lne == old(w).lne,
        final(w).lna == old(w).lna,
        final(w).since == old(w).since,
        final(w).idx == old(w).idx,
        final(w).queue@ == old(w).queue@,
        final(w).results@ == old(w).results@.push(old(w).mismatch),
        final(w).mismatch.line_number_expected == old(w).lne - old(w).queue@.len(),
        final(w).mismatch.line_number_actual == old(w).lna - old(w).queue@.len(),
        final(w).mismatch.expected@.len() == 0,
        final(w).mismatch.actual@.len() == 0,
{
    let ghost before = chunks_of(w.results@);
    let ghost cur = w.mismatch@;
    let mut fresh = Mismatch::new(w.lne - w.queue.len(), w.lna - w.queue.len());
    std::mem::swap(&mut w.mismatch, &mut fresh);
    w.results.push(fresh);
    assert(chunks_of(w.results@) =~= before.push(cur));
}


fn cwalk_left(w: &mut CWalk, e: &Vec<Vec<u8>>, a: &Vec<Vec<u8>>, ec: usize, ac: usize, cs: usize)
    requires
        cwalk_inv(*old(w), e.len() as int, a.len() as int, cs as int),
        cwalk_limits(e.len() as int, a.len() as int, cs as int),
        old(w).lne <= e.len(),
    ensures
        final(w)@ == c_step(old(w)@, DiffOp::Left, lines_of(e@), lines_of(a@), ec as int, ac as int, cs as int),
        cwalk_inv(*final(w), e.len() as int, a.len() as int, cs as int),
        final(w).lne == old(w).lne + 1,
        final(w).lna == old(w).lna,
{
    let lne = w.lne;
    let line = to_owned_bytes(e[lne - 1].as_slice());
    if w.since > cs && w.since > 0 {
        cwalk_new(w);
    }
    cwalk_flush(w);
    w.idx = w.mismatch.expected.len();
    push_cline(&mut w.mismatch.expected, DiffLine::Add(line));
    if lne > ec {
        w.mismatch.expected_missing_nl = true;
    }
    w.lne = w.lne + 1;
    w.since = 0;
}

fn cwalk_right(w: &mut CWalk, e: &Vec<Vec<u8>>, a: &Vec<Vec<u8>>, ec: usize, ac: usize, cs: usize)
    requires
        cwalk_inv(*old(w), e.len() as int, a.len() as int, cs as int),
        cwalk_limits(e.len() as int, a.len() as int, cs as int),
        old(w).lna <= a.len(),
    ensures
        final(w)@ == c_step(old(w)@, DiffOp::Right, lines_of(e@), lines_of(a@), ec as int, ac as int, cs as int),
        cwalk_inv(*final(w), e.len() as int, a.len() as int, cs as int),
        final(w).lne == old(w).lne,
        final(w).lna == old(w).lna + 1,
{
    let lna = w.lna;
    let line = to_owned_bytes(a[lna - 1].as_slice());
    if w.since > cs && w.since > 0 {
        cwalk_new(w);
        w.idx = usize::MAX;
    }
    cwalk_flush(w);
    let ghost s1 = w@;
    let idx = w.idx;
    if idx < w.mismatch.expected.len() && matches!(w.mismatch.expected[idx], DiffLine::Add(_)) {
        let content = match &w.mismatch.expected[idx] {
            DiffLine::Add(c) => to_owned_bytes(c.as_slice()),
            DiffLine::Change(c) => to_owned_bytes(c.as_slice()),
            DiffLine::Context(c) => to_owned_bytes(c.as_slice()),
        };
        let ghost ex = clines_of(w.mismatch.expected@);
        w.mismatch.expected[idx] = DiffLine::Change(content);
        assert(clines_of(w.mismatch.expected@) =~= ex.update(idx as int, CLine::Change(ex[idx as int]->Add_0)));
        w.idx = if idx == 0 { usize::MAX } else { idx - 1 };
        push_cline(&mut w.mismatch.actual, DiffLine::Change(line));
    } else {
        push_cline(&mut w.mismatch.actual, DiffLine::Add(line));
    }
    if lna > ac {
        w.mismatch.actual_missing_nl = true;
    }
    w.lna = w.lna + 1;
    w.since = 0;
}

#[verifier::rlimit(50)]
fn cwalk_both(w: &mut CWalk, e: &Vec<Vec<u8>>, a: &Vec<Vec<u8>>, ec: usize, ac: usize, cs: usize)
    requires
        cwalk_inv(*old(w), e.len() as int, a.len() as int, cs as int),
        cwalk_limits(e.len() as int, a.len() as int, cs as int),
        old(w).lne <= e.len(),
        old(w).lna <= a.len(),
        ec <= e.len() <= ec + 1,
        ac <= a.len() <= ac + 1,
    ensures
        final(w)@ == c_step(old(w)@, DiffOp::Both, lines_of(e@), lines_of(a@), ec as int, ac as int, cs as int),
        cwalk_inv(*final(w), e.len() as int, a.len() as int, cs as int),
        final(w).lne == old(w).lne + 1,
        final(w).lna == old(w).lna + 1,
{
    let lne = w.lne;
    let lna = w.lna;
    let line = to_owned_bytes(e[lne - 1].as_slice());
    w.idx = usize::MAX;
    let ex = lne > ec;
    let ax = lna > ac;
    if ex && ax {
        if w.queue.len() < cs {
            cwalk_flush(w);
            if w.since < cs {
                push_cline(&mut w.mismatch.expected, DiffLine::Context(to_owned_bytes(line.as_slice())));
                push_cline(&mut w.mismatch.actual, DiffLine::Context(line));
                w.mismatch.expected_missing_nl = true;
                w.mismatch.actual_missing_nl = true;
            }
        }
        w.since = 0;
    } else if ax || ex {
        if w.since >= cs && w.since > 0 {
            cwalk_new(w);
        }
        cwalk_flush(w);
        push_cline(&mut w.mismatch.expected, DiffLine::Change(to_owned_bytes(line.as_slice())));
        push_cline(&mut w.mismatch.actual, DiffLine::Change(line));
        if ex {
            w.mismatch.expected_missing_nl = true;
        }
        if ax {
            w.mismatch.actual_missing_nl = true;
        }
        w.since = 0;
    } else {
        if w.queue.len() >= cs && w.queue.len() > 0 {
            let ghost qv = w.queue@;
            let _ = w.queue.pop_front();
            assert(lines_of(w.queue@) =~= lines_of(qv).drop_first());
        }
        if w.since < cs {
            push_cline(&mut w.mismatch.expected, DiffLine::Context(to_owned_bytes(line.as_slice())));
            push_cline(&mut w.mismatch.actual, DiffLine::Context(line));
        } else if cs > 0 {
            let ghost qv = w.queue@;
            let ghost l = line@;
            w.queue.push_back(line);
            assert(lines_of(w.queue@) =~= lines_of(qv).push(l));
        }
        w.since = w.since + 1;
    }
    w.lne = w.lne + 1;
    w.lna = w.lna + 1;
}


fn is_all_context(v: &Vec<DiffLine>) -> (r: bool)
    ensures
        r == all_context(clines_of(v@)),
{
    let ghost ls = clines_of(v@);
    let mut i: usize = 0;
    while i < v.len()
        invariant
            ls == clines_of(v@),
            i <= v.len(),
            forall|j: int| 0 <= j < i ==> (#[trigger] ls[j]) is Context,
        decreases v.len() - i,
    {
        assert(ls[i as int] == v@[i as int]@);
        match &v[i] {
            DiffLine::Context(_) => {},
            _ => {
                return false;
            },
        }
        i = i + 1;
    }
    true
}

/// The hunks of the context format, from the lines of both sides, the numbers
/// of their lines that end in a newline, an edit script between them and the
/// number of context lines.
pub fn make_diff_from_script(
    e: &Vec<Vec<u8>>,
    a: &Vec<Vec<u8>>,
    ec: usize,
    ac: usize,
    script: &Vec<DiffOp>,
    context_size: usize,
) -> (r: Vec<Mismatch>)
    requires
        fits(script@, lines_of(e@), lines_of(a@)),
        cwalk_limits(e.len() as int, a.len() as int, context_size as int),
        ec <= e.len() <= ec + 1,
        ac <= a.len() <= ac + 1,
    ensures
        chunks_of(r@) == c_hunks(script@, lines_of(e@), lines_of(a@), ec as int, ac as int, context_size as int),
        forall|i: int| 0 <= i < r@.len() ==> 1 <= (#[trigger] r@[i]).line_number_expected && 1 <= r@[i].line_number_actual,
        forall|i: int| 0 <= i < r@.len() ==> (#[trigger] r@[i]).line_number_expected + r@[i].expected@.len() <= e.len() + 1
            && r@[i].line_number_actual + r@[i].actual@.len() <= a.len() + 1,
{
    let ghost le = lines_of(e@);
    let ghost la = lines_of(a@);
    let ghost s = script@;
    let ghost ne = e.len() as int;
    let ghost na = a.len() as int;
    let cs = context_size;
    let mut w = CWalk {
        lne: 1,
        lna: 1,
        queue: std::collections::VecDeque::new(),
        since: cs + 1,
        results: Vec::new(),
        mismatch: Mismatch::new(0, 0),
        idx: usize::MAX,
    };
    let mut i: usize = 0;
    assert(chunks_of(w.results@) =~= Seq::<CHunk>::empty());
    assert(lines_of(w.queue@) =~= Seq::<Seq<u8>>::empty());
    assert(s.take(0) =~= Seq::<DiffOp>::empty());
    while i < script.len()
        invariant
            le == lines_of(e@),
            la == lines_of(a@),
            s == script@,
            ne == e.len(),
            na == a.len(),
            cs == context_size,
            fits(s, le, la),
            cwalk_limits(ne, na, cs as int),
            ec <= e.len() <= ec + 1,
            ac <= a.len() <= ac + 1,
            i <= s.len(),
            w.lne == left_count(s.take(i as int)) + 1,
            w.lna == right_count(s.take(i as int)) + 1,
            c_run(s, i as nat, le, la, ec as int, ac as int, cs as int) == w@,
            cwalk_inv(w, ne, na, cs as int),
        decreases s.len() - i,
    {
        proof {
            lemma_fits_step(s, le, la, i as int);
            lemma_count_step(s, i as int);
        }
        match script[i] {
            DiffOp::Left => cwalk_left(&mut w, e, a, ec, ac, cs),
            DiffOp::Right => cwalk_right(&mut w, e, a, ec, ac, cs),
            DiffOp::Both => cwalk_both(&mut w, e, a, ec, ac, cs),
        }
        i = i + 1;
    }
    proof {
        lemma_take_all(s);
    }
    let CWalk { lne, lna, queue, since, results, mismatch, idx } = w;
    let mut results = results;
    let ghost pushed = chunks_of(results@).push(mismatch@);
    let ghost old_res = results@;
    let ghost cur = mismatch;
    results.push(mismatch);
    assert(chunks_of(results@) =~= pushed);
    let _ = results.remove(0);
    assert(chunks_of(results@) =~= pushed.drop_first());
    assert forall|j: int| 0 <= j < results@.len() implies (#[trigger] results@[j]).line_number_expected
        + results@[j].expected@.len() <= e.len() + 1 && results@[j].line_number_actual + results@[j].actual@.len()
        <= a.len() + 1 && 1 <= results@[j].line_number_expected && 1 <= results@[j].line_number_actual by {
        if j + 1 < old_res.len() {
            assert(results@[j] == old_res[j + 1]);
        } else {
            assert(results@[j] == cur);
        }
    }
    if results.len() == 0 && ec != ac {
        assert(e.len() == a.len());
        let mut m = Mismatch::new(e.len(), a.len());
        if ec != e.len() {
            push_cline(&mut m.expected, DiffLine::Change(to_owned_bytes(e[e.len() - 1].as_slice())));
            m.expected_missing_nl = true;
            push_cline(&mut m.actual, DiffLine::Change(to_owned_bytes(a[a.len() - 1].as_slice())));
            results.push(m);
        } else if ac != a.len() {
            push_cline(&mut m.expected, DiffLine::Change(to_owned_bytes(e[e.len() - 1].as_slice())));
            push_cline(&mut m.actual, DiffLine::Change(to_owned_bytes(a[a.len() - 1].as_slice())));
            m.actual_missing_nl = true;
            results.push(m);
        }
    }
    let ghost r2 = chunks_of(results@);
    let mut out: Vec<Mismatch> = Vec::new();
    assert(chunks_of(out@) =~= marked(r2.take(0)));
    let mut k: usize = 0;
    while results.len() > 0
        invariant
            k + results@.len() == r2.len(),
            r2.len() <= usize::MAX,
            chunks_of(out@) == marked(r2.take(k as int)),
            forall|j: int| 0 <= j < results@.len() ==> (#[trigger] results@[j])@ == r2[k + j],
            forall|j: int| 0 <= j < results@.len() ==> 1 <= (#[trigger] results@[j]).line_number_expected && 1 <= results@[j].line_number_actual,
            forall|j: int| 0 <= j < out@.len() ==> 1 <= (#[trigger] out@[j]).line_number_expected && 1 <= out@[j].line_number_actual,
            forall|j: int| 0 <= j < results@.len() ==> (#[trigger] results@[j]).line_number_expected + results@[j].expected@.len() <= e.len() + 1
                && results@[j].line_number_actual + results@[j].actual@.len() <= a.len() + 1,
            forall|j: int| 0 <= j < out@.len() ==> (#[trigger] out@[j]).line_number_expected + out@[j].expected@.len() <= e.len() + 1
                && out@[j].line_number_actual + out@[j].actual@.len() <= a.len() + 1,
        decreases results@.len(),
    {
        let mut m = results.remove(0);
        if is_all_context(&m.expected) {
            m.expected_all_context = true;
        }
        if is_all_context(&m.actual) {
            m.actual_all_context = true;
        }
        let ghost before = chunks_of(out@);
        assert(m@ == mark_context(r2[k as int]));
        let ghost mv = m@;
        out.push(m);
        assert(chunks_of(out@) =~= before.push(mv));
        assert forall|j: int| 0 <= j < k + 1 implies #[trigger] marked(r2.take(k + 1))[j] == chunks_of(out@)[j] by {
            if j < k {
                assert(marked(r2.take(k as int))[j] == mark_context(r2[j]));
            }
        }
        assert(chunks_of(out@) =~= marked(r2.take(k + 1)));
        k = k + 1;
    }
    assert(r2.take(k as int) =~= r2);
    out
}


/// The hunks of the context format between two buffers.
/// On a script of common lines only, between equal sides, the walk opens no
/// hunk.
pub proof fn lemma_c_all_both(s: Seq<DiffOp>, k: nat, e: Seq<Seq<u8>>, ec: int, cs: int)
    requires
        k <= s.len(),
        forall|i: int| 0 <= i < s.len() ==> s[i] == DiffOp::Both,
    ensures
        c_run(s, k, e, e, ec, ec, cs).results.len() == 0,
        c_run(s, k, e, e, ec, ec, cs).lne == c_run(s, k, e, e, ec, ec, cs).lna,
    decreases k,
{
    if k > 0 {
        lemma_c_all_both(s, (k - 1) as nat, e, ec, cs);
    }
}

pub fn make_diff(expected: &[u8], actual: &[u8], context_size: usize) -> (r: Vec<Mismatch>)
    requires
        diff_size_ok(text_lines(expected@).len(), text_lines(actual@).len()),
        context_size + 1 + expected@.len() + actual@.len() <= usize::MAX,
    ensures
        chunks_of(r@) == context_hunks(expected@, actual@, context_size as int),
        forall|i: int| 0 <= i < r@.len() ==> 1 <= (#[trigger] r@[i]).line_number_expected && 1 <= r@[i].line_number_actual,
        forall|i: int| 0 <= i < r@.len() ==> (#[trigger] r@[i]).line_number_expected + r@[i].expected@.len() <= expected@.len() + 1
            && r@[i].line_number_actual + r@[i].actual@.len() <= actual@.len() + 1,
        expected@ == actual@ ==> r@.len() == 0,
        apply_ed_hunks(text_lines(expected@), c_replacements(chunks_of(r@))) == text_lines(actual@),
{
    let (e, ec) = lines_and_newline_count(expected);
    let (a, ac) = lines_and_newline_count(actual);
    proof {
        lemma_text_lines_len(expected@);
        lemma_text_lines_len(actual@);
        
    }
    let script = diff_lines(&e, &a);
    proof {
        lemma_context_patch(script@, lines_of(e@), lines_of(a@), ec as int, ac as int, context_size as int);
        if expected@ == actual@ {
            lemma_c_all_both(script@, script@.len(), lines_of(e@), ec as int, context_size as int);
            let st = c_run(script@, script@.len(), lines_of(e@), lines_of(a@), ec as int, ac as int, context_size as int);
            assert(st.results.push(st.cur).drop_first() =~= Seq::<CHunk>::empty());
        }
    }
    let r = make_diff_from_script(&e, &a, ec, ac, &script, context_size);
    assert(expected@ == actual@ ==> chunks_of(r@).len() == 0);
    r
}

/// A line of a hunk: `  ` for context, `! ` for a change, and `- ` (first
/// side) or `+ ` (second side) for a line only on that side.
pub open spec fn c_line_text(l: CLine, first: bool) -> Seq<u8> {
    match l {
        CLine::Context(t) => seq![32u8, 32] + t + seq![10u8],
        CLine::Change(t) => seq![33u8, 32] + t + seq![10u8],
        CLine::Add(t) => (if first { seq![45u8, 32] } else { seq![43u8, 32] }) + t + seq![10u8],
    }
}

pub open spec fn c_lines_text(ls: Seq<CLine>, first: bool) -> Seq<u8>
    decreases ls.len(),
{
    if ls.len() == 0 {
        Seq::<u8>::empty()
    } else {
        c_lines_text(ls.drop_last(), first) + c_line_text(ls.last(), first)
    }
}

/// The line range of a side: `START,END`, or `END` alone when the side spans
/// one line; a side with no line names the line before the hunk.
pub open spec fn c_range_text(start: int, count: int) -> Seq<u8> {
    let s = if count == 0 { start - 1 } else { start };
    let c = if count == 0 { 1 } else { count };
    let end = c + s - 1;
    (if end == s { Seq::<u8>::empty() } else { decimal(s as nat) + seq![44u8] }) + decimal(end as nat)
}

/// One side of a hunk: its lines (unless it holds only context) and the
/// missing-newline note.
pub open spec fn c_side_text(ls: Seq<CLine>, first: bool, all_ctx: bool, missing_nl: bool) -> Seq<u8> {
    if all_ctx {
        Seq::<u8>::empty()
    } else {
        c_lines_text(ls, first) + if missing_nl { no_newline_note() } else { Seq::<u8>::empty() }
    }
}

/// The text of a hunk: the separator, `*** RANGE ****` and the first side,
/// `--- RANGE ----` and the second side.
pub open spec fn c_hunk_text(h: CHunk) -> Seq<u8> {
    seq![42u8, 42, 42, 42, 42, 42, 42, 42, 42, 42, 42, 42, 42, 42, 42, 10, 42, 42, 42, 32] + c_range_text(
        h.lne,
        h.expected.len() as int,
    ) + seq![32u8, 42, 42, 42, 42, 10] + c_side_text(h.expected, true, h.eac, h.enl) + seq![45u8, 45, 45, 32]
        + c_range_text(h.lna, h.actual.len() as int) + seq![32u8, 45, 45, 45, 45, 10] + c_side_text(
        h.actual,
        false,
        h.aac,
        h.anl,
    )
}

pub open spec fn c_text(hs: Seq<CHunk>) -> Seq<u8>
    decreases hs.len(),
{
    if hs.len() == 0 {
        Seq::<u8>::empty()
    } else {
        c_text(hs.drop_last()) + c_hunk_text(hs.last())
    }
}

/// The context diff between two buffers: nothing when they do not differ, else
/// the two header lines `*** NAME\t` and `--- NAME\t` and the hunks.
pub open spec fn context_output(expected: Seq<u8>, ename: Seq<u8>, actual: Seq<u8>, aname: Seq<u8>, cs: int) -> Seq<u8> {
    let hs = context_hunks(expected, actual, cs);
    if hs.len() == 0 {
        Seq::<u8>::empty()
    } else {
        seq![42u8, 42, 42, 32] + ename + seq![9u8, 10, 45, 45, 45, 32] + aname + seq![9u8, 10] + c_text(hs)
    }
}

fn push_range_text(out: &mut Vec<u8>, start: usize, count: usize)
    requires
        start >= 1,
        start + count <= usize::MAX,
    ensures
        final(out)@ == old(out)@ + c_range_text(start as int, count as int),
{
    let s = if count == 0 { start - 1 } else { start };
    let c = if count == 0 { 1 } else { count };
    let end = c + s - 1;
    if end != s {
        push_decimal(out, s);
        out.push(44u8);
    }
    let ghost o1 = out@;
    push_decimal(out, end);
    assert(out@ =~= old(out)@ + c_range_text(start as int, count as int));
}

fn push_side(out: &mut Vec<u8>, ls: &Vec<DiffLine>, first: bool, all_ctx: bool, missing_nl: bool)
    ensures
        final(out)@ == old(out)@ + c_side_text(clines_of(ls@), first, all_ctx, missing_nl),
{
    if all_ctx {
        assert(out@ =~= old(out)@ + Seq::<u8>::empty());
        return;
    }
    let ghost l = clines_of(ls@);
    let mut i: usize = 0;
    assert(l.take(0) =~= Seq::<CLine>::empty());
    assert(out@ =~= old(out)@ + c_lines_text(l.take(0), first));
    while i < ls.len()
        invariant
            l == clines_of(ls@),
            i <= ls.len(),
            out@ == old(out)@ + c_lines_text(l.take(i as int), first),
        decreases ls.len() - i,
    {
        assert(l.take(i + 1).drop_last() =~= l.take(i as int));
        assert(l[i as int] == ls@[i as int]@);
        let ghost before = out@;
        match &ls[i] {
            DiffLine::Context(t) => {
                out.push(32u8);
                out.push(32u8);
                push_all(out, t.as_slice());
            },
            DiffLine::Change(t) => {
                out.push(33u8);
                out.push(32u8);
                push_all(out, t.as_slice());
            },
            DiffLine::Add(t) => {
                out.push(if first { 45u8 } else { 43u8 });
                out.push(32u8);
                push_all(out, t.as_slice());
            },
        }
        out.push(10u8);
        assert(out@ =~= before + c_line_text(l[i as int], first));
        i = i + 1;
    }
    assert(l.take(i as int) =~= l);
    let ghost o1 = out@;
    if missing_nl {
        push_no_newline_note(out);
    }
    assert(out@ =~= old(out)@ + c_side_text(l, first, all_ctx, missing_nl));
}

fn push_chunk(out: &mut Vec<u8>, m: &Mismatch)
    requires
        1 <= m.line_number_expected,
        1 <= m.line_number_actual,
        m.line_number_expected + m.expected.len() <= usize::MAX,
        m.line_number_actual + m.actual.len() <= usize::MAX,
    ensures
        final(out)@ == old(out)@ + c_hunk_text(m@),
{
    let ghost o0 = out@;
    let sep: [u8; 20] = [42u8, 42, 42, 42, 42, 42, 42, 42, 42, 42, 42, 42, 42, 42, 42, 10, 42, 42, 42, 32];
    let w2: [u8; 6] = [32u8, 42, 42, 42, 42, 10];
    let w3: [u8; 4] = [45u8, 45, 45, 32];
    let w4: [u8; 6] = [32u8, 45, 45, 45, 45, 10];
    push_all(out, &sep);
    push_range_text(out, m.line_number_expected, m.expected.len());
    push_all(out, &w2);
    push_side(out, &m.expected, true, m.expected_all_context, m.expected_missing_nl);
    push_all(out, &w3);
    push_range_text(out, m.line_number_actual, m.actual.len());
    push_all(out, &w4);
    push_side(out, &m.actual, false, m.actual_all_context, m.actual_missing_nl);
    assert(sep@ =~= seq![42u8, 42, 42, 42, 42, 42, 42, 42, 42, 42, 42, 42, 42, 42, 42, 10, 42, 42, 42, 32]);
    assert(w2@ =~= seq![32u8, 42, 42, 42, 42, 10]);
    assert(w3@ =~= seq![45u8, 45, 45, 32]);
    assert(w4@ =~= seq![32u8, 45, 45, 45, 45, 10]);
    assert(out@ =~= o0 + c_hunk_text(m@));
}

/// The context diff between `expected` and `actual`, as `diff -c` prints it,
/// with the given file names in the header.
pub fn diff(expected: &[u8], expected_filename: &str, actual: &[u8], actual_filename: &str, context_size: usize) -> (r: Vec<u8>)
    requires
        diff_size_ok(text_lines(expected@).len(), text_lines(actual@).len()),
        context_size + 1 + expected@.len() + actual@.len() <= usize::MAX,
    ensures
        r@ == context_output(expected@, encode_utf8(expected_filename@), actual@, encode_utf8(actual_filename@), context_size as int),
        expected@ == actual@ ==> r@.len() == 0,
{
    let mut output: Vec<u8> = Vec::new();
    let w1: [u8; 4] = [42u8, 42, 42, 32];
    let w2: [u8; 6] = [9u8, 10, 45, 45, 45, 32];
    let w3: [u8; 2] = [9u8, 10];
    push_all(&mut output, &w1);
    push_all(&mut output, expected_filename.as_bytes());
    push_all(&mut output, &w2);
    push_all(&mut output, actual_filename.as_bytes());
    push_all(&mut output, &w3);
    assert(w1@ =~= seq![42u8, 42, 42, 32]);
    assert(w2@ =~= seq![9u8, 10, 45, 45, 45, 32]);
    assert(w3@ =~= seq![9u8, 10]);
    let ghost header = output@;
    let diff_results = make_diff(expected, actual, context_size);
    if diff_results.len() == 0 {
        return Vec::new();
    }
    proof {
        lemma_text_lines_len(expected@);
        lemma_text_lines_len(actual@);
    }
    let ghost hs = chunks_of(diff_results@);
    let mut i: usize = 0;
    assert(hs.take(0) =~= Seq::<CHunk>::empty());
    assert(output@ =~= header + c_text(hs.take(0)));
    while i < diff_results.len()
        invariant
            hs == chunks_of(diff_results@),
            forall|j: int| 0 <= j < diff_results@.len() ==> 1 <= (#[trigger] diff_results@[j]).line_number_expected
                && 1 <= diff_results@[j].line_number_actual,
            forall|j: int| 0 <= j < diff_results@.len() ==> (#[trigger] diff_results@[j]).line_number_expected
                + diff_results@[j].expected@.len() <= expected@.len() + 1 && diff_results@[j].line_number_actual
                + diff_results@[j].actual@.len() <= actual@.len() + 1,
            expected@.len() < usize::MAX,
            actual@.len() < usize::MAX,
            i <= diff_results.len(),
            output@ == header + c_text(hs.take(i as int)),
        decreases diff_results.len() - i,
    {
        assert(hs[i as int] == diff_results@[i as int]@);
        push_chunk(&mut output, &diff_results[i]);
        assert(hs.take(i + 1).drop_last() =~= hs.take(i as int));
        i = i + 1;
    }
    assert(hs.take(i as int) =~= hs);
    output
}

/// What a reader finds for the range of one side of a hunk: from its first
/// line `start` to its last line, `start + count - 1`; a side with no line
/// names the line just before the hunk.
pub open spec fn c_side_reads(r: (int, int, int), start: int, count: int) -> bool {
    &&& count >= 1 ==> r.0 == start && r.1 == start + count - 1
    &&& count == 0 ==> r.0 == start - 1 && r.1 == start - 1
}

proof fn lemma_c_range_then(start: int, count: int, rest: Seq<u8>)
    requires
        1 <= start,
        0 <= count,
        rest.len() > 0,
        rest[0] == 32u8,
    ensures
        c_side_reads(read_range(c_range_text(start, count) + rest), start, count),
        read_range(c_range_text(start, count) + rest).2 == c_range_text(start, count).len(),
{
    let s = if count == 0 { start - 1 } else { start };
    let c = if count == 0 { 1 } else { count };
    let end = c + s - 1;
    if end == s {
        assert(c_range_text(start, count) =~= decimal(end as nat));
        lemma_read_number(end as nat, rest);
    } else {
        assert(c_range_text(start, count) + rest =~= decimal(s as nat) + seq![44u8] + decimal(end as nat) + rest);
        lemma_read_pair(s as nat, end as nat, rest);
    }
}

#[verifier::rlimit(50)]
proof fn lemma_c_hunk_then(lne: int, ne: int, lna: int, na: int, s1: Seq<u8>, s2: Seq<u8>)
    requires
        1 <= lne,
        1 <= lna,
        0 <= ne,
        0 <= na,
    ensures
        ({
            let t = seq![42u8, 42, 42, 42, 42, 42, 42, 42, 42, 42, 42, 42, 42, 42, 42, 10, 42, 42, 42, 32] + c_range_text(lne, ne)
                + seq![32u8, 42, 42, 42, 42, 10] + s1 + seq![45u8, 45, 45, 32] + c_range_text(lna, na)
                + seq![32u8, 45, 45, 45, 45, 10] + s2;
            let r1 = read_range(t.skip(20));
            let j = 20 + r1.2 + 6 + s1.len();
            let r2 = read_range(t.skip(j + 4));
            &&& c_side_reads(r1, lne, ne)
            &&& t.skip(20 + r1.2).take(6) == seq![32u8, 42, 42, 42, 42, 10]
            &&& t.skip(j).take(4) == seq![45u8, 45, 45, 32]
            &&& c_side_reads(r2, lna, na)
            &&& t.skip(j + 4 + r2.2).take(6) == seq![32u8, 45, 45, 45, 45, 10]
        }),
{
    let a = c_range_text(lne, ne);
    let b = c_range_text(lna, na);
    let p = seq![42u8, 42, 42, 42, 42, 42, 42, 42, 42, 42, 42, 42, 42, 42, 42, 10, 42, 42, 42, 32];
    let t = p + a + seq![32u8, 42, 42, 42, 42, 10] + s1 + seq![45u8, 45, 45, 32] + b + seq![32u8, 45, 45, 45, 45, 10] + s2;
    let tail2 = seq![32u8, 45, 45, 45, 45, 10] + s2;
    let rest1 = seq![32u8, 42, 42, 42, 42, 10] + s1 + seq![45u8, 45, 45, 32] + b + tail2;
    assert(t.skip(20) =~= a + rest1);
    lemma_c_range_then(lne, ne, rest1);
    assert(t.skip((20 + a.len()) as int) =~= rest1);
    let j = (20 + a.len() + 6 + s1.len()) as int;
    assert(t.skip(j) =~= seq![45u8, 45, 45, 32] + b + tail2);
    assert(t.skip(j + 4) =~= b + tail2);
    lemma_c_range_then(lna, na, tail2);
    assert(t.skip((j + 4 + b.len()) as int) =~= tail2);
}

/// The ranges of a hunk name its lines: after the separator and `*** `, the
/// first file's range reads from the hunk's first line to its last (the
/// line before the hunk when that side has no line), followed by ` ****`;
/// after that side's lines, `--- ` and the second file's range in the same
/// way, followed by ` ----`.
pub proof fn lemma_context_header_ranges(h: CHunk)
    requires
        1 <= h.lne,
        1 <= h.lna,
    ensures
        ({
            let t = c_hunk_text(h);
            let r1 = read_range(t.skip(20));
            let j = 20 + r1.2 + 6 + c_side_text(h.expected, true, h.eac, h.enl).len();
            let r2 = read_range(t.skip(j + 4));
            &&& c_side_reads(r1, h.lne, h.expected.len() as int)
            &&& t.skip(20 + r1.2).take(6) == seq![32u8, 42, 42, 42, 42, 10]
            &&& t.skip(j).take(4) == seq![45u8, 45, 45, 32]
            &&& c_side_reads(r2, h.lna, h.actual.len() as int)
            &&& t.skip(j + 4 + r2.2).take(6) == seq![32u8, 45, 45, 45, 45, 10]
        }),
{
    lemma_c_hunk_then(h.lne, h.expected.len() as int, h.lna, h.actual.len() as int,
        c_side_text(h.expected, true, h.eac, h.enl), c_side_text(h.actual, false, h.aac, h.anl));
}

} // verus!
