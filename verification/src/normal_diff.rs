//! The normal diff format: `1c1`, `< old`, `---`, `> new`.

use vstd::prelude::*;
use crate::lines::{lines_of, text_lines, count_nl, count_byte, lines_and_newline_count, lemma_text_lines_len};
use crate::script::{DiffOp, diff_size_ok, diff_lines, lemma_diff_size_mono, fits, left_count, right_count, lcs_script, lemma_fits_step, lemma_count_step, lemma_count_prefix, lemma_take_all};
use crate::text::{to_owned_bytes, decimal, push_decimal, no_newline_note, push_no_newline_note, pair_text, push_pair, push_range,
    read_range, range_text, lemma_read_number, lemma_read_pair, lemma_read_range_text};
use crate::utils::{written_line, do_write_line, tabsize_ok, TAB};
use crate::params::Params;
use crate::ed_diff::{EdHunk, apply_ed_hunks, lemma_apply_common, lemma_apply_grow_expected, lemma_apply_grow_actual, lemma_apply_new};

verus! {

/// A group of changed lines as the normal format reports it.
pub struct NormalHunk {
    pub line_number_expected: int,
    pub line_number_actual: int,
    pub expected: Seq<Seq<u8>>,
    pub actual: Seq<Seq<u8>>,
    pub expected_missing_nl: bool,
    pub actual_missing_nl: bool,
}

pub open spec fn new_hunk(lne: int, lna: int) -> NormalHunk {
    NormalHunk {
        line_number_expected: lne,
        line_number_actual: lna,
        expected: Seq::empty(),
        actual: Seq::empty(),
        expected_missing_nl: false,
        actual_missing_nl: false,
    }
}

pub open spec fn hunk_nonempty(h: NormalHunk) -> bool {
    h.expected.len() > 0 || h.actual.len() > 0
}

/// The state of the walk over the edit script.
pub struct NormalState {
    pub lne: int,
    pub lna: int,
    pub results: Seq<NormalHunk>,
    pub cur: NormalHunk,
    pub stopped: bool,
}

pub open spec fn normal_init() -> NormalState {
    NormalState { lne: 1, lna: 1, results: Seq::empty(), cur: new_hunk(1, 1), stopped: false }
}

/// One step of the walk: `e` and `a` are the lines of both sides, `ec` and `ac`
/// the numbers of their lines that end in a newline; a line numbered above that
/// count has no newline. With `stop`, the walk stops once a group is complete.
pub open spec fn normal_step(
    st: NormalState,
    op: DiffOp,
    e: Seq<Seq<u8>>,
    a: Seq<Seq<u8>>,
    ec: int,
    ac: int,
    stop: bool,
) -> NormalState {
    if st.stopped {
        st
    } else {
        let s2 = match op {
            DiffOp::Left => {
                let line = e[st.lne - 1];
                let split = st.cur.actual.len() > 0 && !st.cur.actual_missing_nl;
                let results = if split { st.results.push(st.cur) } else { st.results };
                let cur = if split { new_hunk(st.lne, st.lna) } else { st.cur };
                NormalState {
                    lne: st.lne + 1,
                    lna: st.lna,
                    results,
                    cur: NormalHunk {
                        expected: cur.expected.push(line),
                        expected_missing_nl: st.lne > ec,
                        ..cur
                    },
                    stopped: false,
                }
            },
            DiffOp::Right => {
                let line = a[st.lna - 1];
                NormalState {
                    lna: st.lna + 1,
                    cur: NormalHunk {
                        actual: st.cur.actual.push(line),
                        actual_missing_nl: st.lna > ac,
                        ..st.cur
                    },
                    ..st
                }
            },
            DiffOp::Both => {
                let line = e[st.lne - 1];
                let ex = st.lne > ec;
                let ax = st.lna > ac;
                if ex && !ax {
                    NormalState {
                        lne: st.lne + 1,
                        lna: st.lna + 1,
                        cur: NormalHunk {
                            expected: st.cur.expected.push(line),
                            expected_missing_nl: true,
                            actual: st.cur.actual.push(line),
                            ..st.cur
                        },
                        ..st
                    }
                } else if !ex && ax {
                    NormalState {
                        lne: st.lne + 1,
                        lna: st.lna + 1,
                        cur: NormalHunk {
                            actual: st.cur.actual.push(line),
                            actual_missing_nl: true,
                            expected: st.cur.expected.push(line),
                            ..st.cur
                        },
                        ..st
                    }
                } else if hunk_nonempty(st.cur) {
                    NormalState {
                        lne: st.lne + 1,
                        lna: st.lna + 1,
                        results: st.results.push(st.cur),
                        cur: new_hunk(st.lne + 1, st.lna + 1),
                        stopped: false,
                    }
                } else {
                    NormalState {
                        lne: st.lne + 1,
                        lna: st.lna + 1,
                        cur: NormalHunk {
                            line_number_expected: st.lne + 1,
                            line_number_actual: st.lna + 1,
                            ..st.cur
                        },
                        ..st
                    }
                }
            },
        };
        NormalState { stopped: stop && s2.results.len() > 0, ..s2 }
    }
}

/// The state after the first `k` steps of script `s`.
pub open spec fn normal_run(
    s: Seq<DiffOp>,
    k: nat,
    e: Seq<Seq<u8>>,
    a: Seq<Seq<u8>>,
    ec: int,
    ac: int,
    stop: bool,
) -> NormalState
    decreases k,
{
    if k == 0 {
        normal_init()
    } else {
        normal_step(normal_run(s, (k - 1) as nat, e, a, ec, ac, stop), s[k - 1], e, a, ec, ac, stop)
    }
}

/// The groups of changes that the normal format reports for script `s`.
pub open spec fn normal_hunks(
    s: Seq<DiffOp>,
    e: Seq<Seq<u8>>,
    a: Seq<Seq<u8>>,
    ec: int,
    ac: int,
    stop: bool,
) -> Seq<NormalHunk> {
    let st = normal_run(s, s.len(), e, a, ec, ac, stop);
    if st.stopped {
        st.results
    } else if hunk_nonempty(st.cur) {
        st.results.push(st.cur)
    } else {
        st.results
    }
}

/// The groups of changes between two buffers, as `make_diff` computes them.
pub open spec fn normal_diff_hunks(expected: Seq<u8>, actual: Seq<u8>, stop: bool) -> Seq<NormalHunk> {
    let e = text_lines(expected);
    let a = text_lines(actual);
    normal_hunks(lcs_script(e, a), e, a, count_nl(expected) as int, count_nl(actual) as int, stop)
}

/// A group of changed lines, with the line number (counting from 1) of its
/// first line on each side.
pub struct Mismatch {
    pub line_number_expected: usize,
    pub line_number_actual: usize,
    pub expected: Vec<Vec<u8>>,
    pub actual: Vec<Vec<u8>>,
    pub expected_missing_nl: bool,
    pub actual_missing_nl: bool,
}

impl View for Mismatch {
    type V = NormalHunk;

    open spec fn view(&self) -> NormalHunk {
        NormalHunk {
            line_number_expected: self.line_number_expected as int,
            line_number_actual: self.line_number_actual as int,
            expected: lines_of(self.expected@),
            actual: lines_of(self.actual@),
            expected_missing_nl: self.expected_missing_nl,
            actual_missing_nl: self.actual_missing_nl,
        }
    }
}

impl Mismatch {
    pub fn new(line_number_expected: usize, line_number_actual: usize) -> (m: Mismatch)
        ensures
            m@ == new_hunk(line_number_expected as int, line_number_actual as int),
            m.expected@.len() == 0,
            m.actual@.len() == 0,
            m.line_number_expected == line_number_expected,
            m.line_number_actual == line_number_actual,
    {
        let m = Mismatch {
            line_number_expected,
            line_number_actual,
            expected: Vec::new(),
            actual: Vec::new(),
            expected_missing_nl: false,
            actual_missing_nl: false,
        };
        assert(m@.expected =~= Seq::<Seq<u8>>::empty());
        assert(m@.actual =~= Seq::<Seq<u8>>::empty());
        m
    }
}

/// Once the walk has stopped, the remaining steps change nothing.
pub proof fn lemma_normal_run_stopped(
    s: Seq<DiffOp>,
    k: nat,
    n: nat,
    e: Seq<Seq<u8>>,
    a: Seq<Seq<u8>>,
    ec: int,
    ac: int,
    stop: bool,
)
    requires
        k <= n <= s.len(),
        normal_run(s, k, e, a, ec, ac, stop).stopped,
    ensures
        normal_run(s, n, e, a, ec, ac, stop) == normal_run(s, k, e, a, ec, ac, stop),
    decreases n - k,
{
    if n > k {
        lemma_normal_run_stopped(s, k, (n - 1) as nat, e, a, ec, ac, stop);
    }
}

pub open spec fn hunks_of(v: Seq<Mismatch>) -> Seq<NormalHunk> {
    Seq::new(v.len(), |i: int| v[i]@)
}

/// Every group has a change, starts at line 1 or later, and ends within the
/// given numbers of lines (plus one).
pub open spec fn hunks_bounded(hs: Seq<NormalHunk>, ne: int, na: int) -> bool {
    forall|i: int|
        0 <= i < hs.len() ==> {
            let h = #[trigger] hs[i];
            &&& hunk_nonempty(h)
            &&& 1 <= h.line_number_expected
            &&& 1 <= h.line_number_actual
            &&& h.line_number_expected + h.expected.len() <= ne + 1
            &&& h.line_number_actual + h.actual.len() <= na + 1
        }
}

fn push_line(v: &mut Vec<Vec<u8>>, line: &Vec<u8>)
    ensures
        lines_of(final(v)@) == lines_of(old(v)@).push(line@),
        final(v)@.len() == old(v)@.len() + 1,
{
    let c = to_owned_bytes(line.as_slice());
    v.push(c);
    assert(lines_of(v@) =~= lines_of(old(v)@).push(line@));
}

/// The groups of changes of the normal format, from the lines of both sides, the
/// numbers of their lines that end in a newline, and an edit script between them.
/// With `stop_early`, the walk ends as soon as one group is complete.
pub fn make_diff_from_script(
    e: &Vec<Vec<u8>>,
    a: &Vec<Vec<u8>>,
    ec: usize,
    ac: usize,
    script: &Vec<DiffOp>,
    stop_early: bool,
) -> (r: Vec<Mismatch>)
    requires
        fits(script@, lines_of(e@), lines_of(a@)),
        e.len() < usize::MAX - 1,
        a.len() < usize::MAX - 1,
    ensures
        hunks_of(r@) == normal_hunks(script@, lines_of(e@), lines_of(a@), ec as int, ac as int, stop_early),
        hunks_bounded(hunks_of(r@), e.len() as int, a.len() as int),
{
    let ghost le = lines_of(e@);
    let ghost la = lines_of(a@);
    let ghost s = script@;
    let mut lne: usize = 1;
    let mut lna: usize = 1;
    let mut results: Vec<Mismatch> = Vec::new();
    let mut mismatch = Mismatch::new(1, 1);
    let mut i: usize = 0;
    assert(hunks_of(results@) =~= Seq::<NormalHunk>::empty());
    assert(s.take(0) =~= Seq::<DiffOp>::empty());
    while i < script.len()
        invariant
            le == lines_of(e@),
            la == lines_of(a@),
            s == script@,
            fits(s, le, la),
            e.len() < usize::MAX - 1,
            a.len() < usize::MAX - 1,
            i <= s.len(),
            lne == left_count(s.take(i as int)) + 1,
            lna == right_count(s.take(i as int)) + 1,
            ({
                let st = normal_run(s, i as nat, le, la, ec as int, ac as int, stop_early);
                &&& !st.stopped
                &&& st.lne == lne
                &&& st.lna == lna
                &&& st.results == hunks_of(results@)
                &&& st.cur == mismatch@
            }),
            hunks_bounded(hunks_of(results@), lne - 1, lna - 1),
            1 <= mismatch.line_number_expected,
            1 <= mismatch.line_number_actual,
            mismatch.line_number_expected + mismatch.expected.len() == lne,
            mismatch.line_number_actual + mismatch.actual.len() == lna,
        decreases s.len() - i,
    {
        proof {
            lemma_fits_step(s, le, la, i as int);
            lemma_count_step(s, i as int);
            lemma_count_prefix(s, i as int + 1);
        }
        let ghost st = normal_run(s, i as nat, le, la, ec as int, ac as int, stop_early);
        let ghost old_results = hunks_of(results@);
        let op = script[i];
        match op {
            DiffOp::Left => {
                if mismatch.actual.len() > 0 && !mismatch.actual_missing_nl {
                    results.push(mismatch);
                    mismatch = Mismatch::new(lne, lna);
                    assert(hunks_of(results@) =~= old_results.push(st.cur));
                }
                push_line(&mut mismatch.expected, &e[lne - 1]);
                mismatch.expected_missing_nl = lne > ec;
                lne = lne + 1;
            },
            DiffOp::Right => {
                push_line(&mut mismatch.actual, &a[lna - 1]);
                mismatch.actual_missing_nl = lna > ac;
                lna = lna + 1;
            },
            DiffOp::Both => {
                let ex = lne > ec;
                let ax = lna > ac;
                if ex && !ax {
                    push_line(&mut mismatch.expected, &e[lne - 1]);
                    mismatch.expected_missing_nl = true;
                    push_line(&mut mismatch.actual, &e[lne - 1]);
                    lne = lne + 1;
                    lna = lna + 1;
                } else if !ex && ax {
                    push_line(&mut mismatch.actual, &e[lne - 1]);
                    mismatch.actual_missing_nl = true;
                    push_line(&mut mismatch.expected, &e[lne - 1]);
                    lne = lne + 1;
                    lna = lna + 1;
                } else {
                    lne = lne + 1;
                    lna = lna + 1;
                    if mismatch.actual.len() > 0 || mismatch.expected.len() > 0 {
                        results.push(mismatch);
                        mismatch = Mismatch::new(lne, lna);
                        assert(hunks_of(results@) =~= old_results.push(st.cur));
                    } else {
                        mismatch.line_number_expected = lne;
                        mismatch.line_number_actual = lna;
                    }
                }
            },
        }
        i = i + 1;
        assert(normal_run(s, i as nat, le, la, ec as int, ac as int, stop_early).cur =~= mismatch@);
        if stop_early && results.len() > 0 {
            proof {
                lemma_normal_run_stopped(s, i as nat, s.len(), le, la, ec as int, ac as int, stop_early);
            }
            return results;
        }
    }
    let ghost st = normal_run(s, i as nat, le, la, ec as int, ac as int, stop_early);
    proof {
        lemma_take_all(s);
    }
    if mismatch.actual.len() > 0 || mismatch.expected.len() > 0 {
        let ghost old_results = hunks_of(results@);
        results.push(mismatch);
        assert(hunks_of(results@) =~= old_results.push(st.cur));
    }
    results
}

/// The header line of a group: the line ranges on both sides and the
/// action (`a`dd, `d`elete, `c`hange). A range of one line is a single number,
/// except next to `a` and `d`, where both ends are always given.
pub open spec fn normal_header(h: NormalHunk) -> Seq<u8> {
    let ec = h.expected.len() as int;
    let ac = h.actual.len() as int;
    let lne = h.line_number_expected;
    let lna = h.line_number_actual;
    if ec == 0 {
        decimal((lne - 1) as nat) + seq![97u8] + pair_text(lna, lna + ac - 1) + seq![10u8]
    } else if ac == 0 {
        pair_text(lne, ec + lne - 1) + seq![100u8] + decimal((lna - 1) as nat) + seq![10u8]
    } else {
        (if ec == 1 { decimal(lne as nat) } else { pair_text(lne, ec + lne - 1) }) + seq![99u8]
            + (if ac == 1 { decimal(lna as nat) } else { pair_text(lna, ac + lna - 1) }) + seq![10u8]
    }
}

/// Each line preceded by `mark` and a space, and followed by a newline.
#[verifier::opaque]
pub open spec fn marked_lines(ls: Seq<Seq<u8>>, mark: u8, expand: bool, tabsize: nat) -> Seq<u8>
    decreases ls.len(),
{
    if ls.len() == 0 {
        Seq::<u8>::empty()
    } else {
        marked_lines(ls.drop_last(), mark, expand, tabsize) + seq![mark, 32u8] + written_line(ls.last(), expand, tabsize) + seq![10u8]
    }
}

/// The text of one group in the normal format.
pub open spec fn normal_hunk_text(h: NormalHunk, expand: bool, tabsize: nat) -> Seq<u8> {
    normal_header(h) + marked_lines(h.expected, 60u8, expand, tabsize) + (if h.expected_missing_nl {
        no_newline_note()
    } else {
        Seq::<u8>::empty()
    }) + (if h.expected.len() != 0 && h.actual.len() != 0 {
        seq![45u8, 45, 45, 10]
    } else {
        Seq::<u8>::empty()
    }) + marked_lines(h.actual, 62u8, expand, tabsize) + (if h.actual_missing_nl {
        no_newline_note()
    } else {
        Seq::<u8>::empty()
    })
}

/// The text of a sequence of groups in the normal format.
pub open spec fn normal_text(hs: Seq<NormalHunk>, expand: bool, tabsize: nat) -> Seq<u8>
    decreases hs.len(),
{
    if hs.len() == 0 {
        Seq::<u8>::empty()
    } else {
        normal_text(hs.drop_last(), expand, tabsize) + normal_hunk_text(hs.last(), expand, tabsize)
    }
}

/// The normal diff between two buffers: a single zero byte when only asked
/// whether they differ (`brief`) and they do, else the text of all groups.
pub open spec fn normal_diff_output(expected: Seq<u8>, actual: Seq<u8>, brief: bool, expand: bool, tabsize: nat) -> Seq<u8> {
    let hs = normal_diff_hunks(expected, actual, brief);
    if brief && hs.len() > 0 {
        seq![0u8]
    } else {
        normal_text(hs, expand, tabsize)
    }
}

fn push_marked_lines(out: &mut Vec<u8>, ls: &Vec<Vec<u8>>, mark: u8, expand: bool, tabsize: usize)
    requires
        expand ==> tabsize > 0,
    ensures
        final(out)@ == old(out)@ + marked_lines(lines_of(ls@), mark, expand, tabsize as nat),
{
    let ghost l = lines_of(ls@);
    let mut i: usize = 0;
    assert(l.take(0) =~= Seq::<Seq<u8>>::empty());
    reveal(marked_lines);
    assert(old(out)@ + marked_lines(Seq::<Seq<u8>>::empty(), mark, expand, tabsize as nat) =~= old(out)@);
    while i < ls.len()
        invariant
            l == lines_of(ls@),
            i <= ls.len(),
            expand ==> tabsize > 0,
            out@ == old(out)@ + marked_lines(l.take(i as int), mark, expand, tabsize as nat),
        decreases ls.len() - i,
    {
        let ghost before = out@;
        out.push(mark);
        out.push(32u8);
        let _ = do_write_line(out, ls[i].as_slice(), expand, tabsize);
        out.push(10u8);
        proof {
            reveal(marked_lines);
            assert(l.take(i + 1).drop_last() =~= l.take(i as int));
            assert(out@ =~= before + seq![mark, 32u8] + written_line(l[i as int], expand, tabsize as nat) + seq![10u8]);
        }
        i = i + 1;
    }
    assert(l.take(i as int) =~= l);
}

proof fn lemma_concat6(o: Seq<u8>, p0: Seq<u8>, p1: Seq<u8>, p2: Seq<u8>, p3: Seq<u8>, p4: Seq<u8>, p5: Seq<u8>)
    ensures
        o + p0 + p1 + p2 + p3 + p4 + p5 == o + (p0 + p1 + p2 + p3 + p4 + p5),
{
    assert(o + p0 + p1 + p2 + p3 + p4 + p5 =~= o + (p0 + p1 + p2 + p3 + p4 + p5));
}

fn push_normal_header(out: &mut Vec<u8>, m: &Mismatch)
    requires
        hunk_nonempty(m@),
        1 <= m.line_number_expected,
        1 <= m.line_number_actual,
        m.line_number_expected + m.expected.len() < usize::MAX,
        m.line_number_actual + m.actual.len() < usize::MAX,
    ensures
        final(out)@ == old(out)@ + normal_header(m@),
{
    let lne = m.line_number_expected;
    let lna = m.line_number_actual;
    let ec = m.expected.len();
    let ac = m.actual.len();
    let ghost h = m@;
    if ec == 0 {
        push_decimal(out, lne - 1);
        out.push(97u8);
        push_pair(out, lna, lna + ac - 1);
        out.push(10u8);
        assert(out@ =~= old(out)@ + (decimal((lne - 1) as nat) + seq![97u8] + pair_text(lna as int, lna + ac - 1) + seq![10u8]));
    } else if ac == 0 {
        push_pair(out, lne, ec + lne - 1);
        out.push(100u8);
        push_decimal(out, lna - 1);
        out.push(10u8);
        assert(out@ =~= old(out)@ + (pair_text(lne as int, ec + lne - 1) + seq![100u8] + decimal((lna - 1) as nat) + seq![10u8]));
    } else {
        let ghost o0 = out@;
        push_range(out, lne, ec);
        let ghost o1 = out@;
        out.push(99u8);
        push_range(out, lna, ac);
        let ghost o2 = out@;
        out.push(10u8);
        assert(out@ =~= o0 + (o1.skip(o0.len() as int) + seq![99u8] + o2.skip(o1.len() as int + 1) + seq![10u8]));
    }
}

/// Appends the text of one group in the normal format.
fn push_normal_hunk(out: &mut Vec<u8>, m: &Mismatch, expand: bool, tabsize: usize)
    requires
        hunk_nonempty(m@),
        1 <= m.line_number_expected,
        1 <= m.line_number_actual,
        m.line_number_expected + m.expected.len() < usize::MAX,
        m.line_number_actual + m.actual.len() < usize::MAX,
        expand ==> tabsize > 0,
    ensures
        final(out)@ == old(out)@ + normal_hunk_text(m@, expand, tabsize as nat),
{
    let ghost e = m@;
    let ghost p0 = normal_header(e);
    let ghost p1 = marked_lines(e.expected, 60u8, expand, tabsize as nat);
    let ghost p2 = if e.expected_missing_nl { no_newline_note() } else { Seq::<u8>::empty() };
    let ghost p3 = if e.expected.len() != 0 && e.actual.len() != 0 { seq![45u8, 45, 45, 10] } else { Seq::<u8>::empty() };
    let ghost p4 = marked_lines(e.actual, 62u8, expand, tabsize as nat);
    let ghost p5 = if e.actual_missing_nl { no_newline_note() } else { Seq::<u8>::empty() };
    let ghost o0 = out@;
    push_normal_header(out, m);
    let ghost o1 = out@;
    push_marked_lines(out, &m.expected, 60u8, expand, tabsize);
    let ghost o2 = out@;
    if m.expected_missing_nl {
        push_no_newline_note(out);
    } else {
        assert(out@ =~= o2 + p2);
    }
    let ghost o3 = out@;
    if m.expected.len() != 0 && m.actual.len() != 0 {
        out.push(45u8);
        out.push(45u8);
        out.push(45u8);
        out.push(10u8);
        assert(out@ =~= o3 + p3);
    } else {
        assert(out@ =~= o3 + p3);
    }
    let ghost o4 = out@;
    push_marked_lines(out, &m.actual, 62u8, expand, tabsize);
    let ghost o5 = out@;
    if m.actual_missing_nl {
        push_no_newline_note(out);
    } else {
        assert(out@ =~= o5 + p5);
    }
    proof {
        lemma_concat6(o0, p0, p1, p2, p3, p4, p5);
    }
}

/// The normal diff between `expected` and `actual`, as `diff` prints it; with
/// `params.brief`, a single zero byte when they differ.
pub fn diff(expected: &[u8], actual: &[u8], params: &Params) -> (r: Vec<u8>)
    requires
        diff_size_ok(text_lines(expected@).len(), text_lines(actual@).len()),
        params.expand_tabs ==> params.tabsize > 0,
    ensures
        r@ == normal_diff_output(expected@, actual@, params.brief, params.expand_tabs, params.tabsize as nat),
        expected@ == actual@ ==> r@.len() == 0,
{
    let mut output: Vec<u8> = Vec::new();
    let diff_results = make_diff(expected, actual, params.brief);
    let ghost hs = hunks_of(diff_results@);
    if params.brief && diff_results.len() > 0 {
        output.push(0u8);
        assert(output@ =~= seq![0u8]);
        return output;
    }
    let mut i: usize = 0;
    assert(hs.take(0) =~= Seq::<NormalHunk>::empty());
    while i < diff_results.len()
        invariant
            hs == hunks_of(diff_results@),
            hunks_bounded(hs, text_lines(expected@).len() as int, text_lines(actual@).len() as int),
            diff_size_ok(text_lines(expected@).len(), text_lines(actual@).len()),
            params.expand_tabs ==> params.tabsize > 0,
            i <= diff_results.len(),
            output@ == normal_text(hs.take(i as int), params.expand_tabs, params.tabsize as nat),
        decreases diff_results.len() - i,
    {
        assert(hs[i as int] == diff_results@[i as int]@);
        push_normal_hunk(&mut output, &diff_results[i], params.expand_tabs, params.tabsize);
        proof {
            assert(hs.take(i + 1).drop_last() =~= hs.take(i as int));
        }
        i = i + 1;
    }
    assert(hs.take(i as int) =~= hs);
    output
}

/// A group of the normal format as a replacement of lines: its first line on
/// the first side, the lines it removes and the lines it puts in their place.
pub open spec fn as_replacement(h: NormalHunk) -> EdHunk {
    EdHunk {
        line_number_expected: h.line_number_expected,
        line_number_actual: h.line_number_actual,
        expected: h.expected,
        actual: h.actual,
    }
}

pub open spec fn as_replacements(hs: Seq<NormalHunk>) -> Seq<EdHunk> {
    Seq::new(hs.len(), |i: int| as_replacement(hs[i]))
}

/// The groups reported so far, the current one included once it has a change.
pub open spec fn normal_done(st: NormalState) -> Seq<NormalHunk> {
    if hunk_nonempty(st.cur) { st.results.push(st.cur) } else { st.results }
}

/// What the walk over a fitting script keeps true (see `ed_patch_inv`).
pub open spec fn normal_patch_inv(st: NormalState, s: Seq<DiffOp>, k: int, e: Seq<Seq<u8>>, a: Seq<Seq<u8>>) -> bool {
    let done = as_replacements(normal_done(st));
    &&& st.lne == left_count(s.take(k)) + 1
    &&& st.lna == right_count(s.take(k)) + 1
    &&& st.cur.line_number_expected + st.cur.expected.len() == st.lne
    &&& !st.stopped
    &&& done.len() > 0 ==> {
        &&& 1 <= done.last().line_number_expected
        &&& done.last().line_number_expected - 1 + done.last().expected.len() <= st.lne - 1
    }
    &&& apply_ed_hunks(e.take(st.lne - 1), done) == a.take(st.lna - 1)
}

proof fn lemma_replacements_push(hs: Seq<NormalHunk>, h: NormalHunk)
    ensures
        as_replacements(hs.push(h)) == as_replacements(hs).push(as_replacement(h)),
        hs.len() > 0 ==> as_replacements(hs.drop_last().push(h)) == as_replacements(hs).drop_last().push(as_replacement(h)),
        hs.len() > 0 ==> as_replacements(hs).last() == as_replacement(hs.last()),
{
    assert(as_replacements(hs.push(h)) =~= as_replacements(hs).push(as_replacement(h)));
    if hs.len() > 0 {
        assert(as_replacements(hs.drop_last().push(h)) =~= as_replacements(hs).drop_last().push(as_replacement(h)));
    }
}

proof fn lemma_normal_patch_both(st: NormalState, s: Seq<DiffOp>, j: int, e: Seq<Seq<u8>>, a: Seq<Seq<u8>>, ec: int, ac: int)
    requires
        fits(s, e, a),
        0 <= j < s.len(),
        s[j] == DiffOp::Both,
        normal_patch_inv(st, s, j, e, a),
    ensures
        normal_patch_inv(normal_step(st, s[j], e, a, ec, ac, false), s, j + 1, e, a),
{
    lemma_fits_step(s, e, a, j);
    lemma_count_step(s, j);
    lemma_count_prefix(s, j);
    let st2 = normal_step(st, s[j], e, a, ec, ac, false);
    let l = st.lne - 1;
    let r = st.lna - 1;
    let line = e[l];
    let d0 = normal_done(st);
    let done = as_replacements(d0);
    assert(line == a[r]);
    assert(a.take(r + 1) =~= a.take(r).push(a[r]));
    let ex = st.lne > ec;
    let ax = st.lna > ac;
    if (ex && !ax) || (!ex && ax) {
        let c2 = st2.cur;
        assert(c2.expected == st.cur.expected.push(line));
        assert(c2.actual == st.cur.actual.push(line));
        if hunk_nonempty(st.cur) {
            let c1 = NormalHunk { expected: st.cur.expected.push(line), ..st.cur };
            lemma_replacements_push(st.results, st.cur);
            lemma_replacements_push(st.results.push(st.cur), c1);
            assert(st.results.push(st.cur).drop_last() =~= st.results);
            lemma_apply_grow_expected(e, done, l);
            let done1 = as_replacements(st.results.push(c1));
            assert(done1 == done.drop_last().push(EdHunk { expected: done.last().expected.push(e[l]), ..done.last() }));
            lemma_replacements_push(st.results.push(c1), c2);
            assert(st.results.push(c1).drop_last() =~= st.results);
            lemma_apply_grow_actual(e, done1, l + 1, line);
            assert(as_replacements(normal_done(st2)) == done1.drop_last().push(EdHunk { actual: done1.last().actual.push(line), ..done1.last() }));
        } else {
            lemma_replacements_push(st.results, c2);
            lemma_apply_new(e, done, as_replacement(c2), l);
            assert(st.cur.expected.len() == 0 && st.cur.actual.len() == 0);
            assert(c2.actual =~= seq![line]);
            assert(a.take(r).push(a[r]) =~= a.take(r) + seq![a[r]]);
        }
    } else {
        lemma_apply_common(e, done, l);
        if hunk_nonempty(st.cur) {
            assert(normal_done(st2) == d0);
        } else {
            assert(normal_done(st2) == st.results);
        }
    }
}

proof fn lemma_normal_patch_left(st: NormalState, s: Seq<DiffOp>, j: int, e: Seq<Seq<u8>>, a: Seq<Seq<u8>>, ec: int, ac: int)
    requires
        fits(s, e, a),
        0 <= j < s.len(),
        s[j] == DiffOp::Left,
        normal_patch_inv(st, s, j, e, a),
    ensures
        normal_patch_inv(normal_step(st, s[j], e, a, ec, ac, false), s, j + 1, e, a),
{
    lemma_fits_step(s, e, a, j);
    lemma_count_step(s, j);
    let st2 = normal_step(st, s[j], e, a, ec, ac, false);
    let l = st.lne - 1;
    let d0 = normal_done(st);
    let done = as_replacements(d0);
    let c2 = st2.cur;
    if st.cur.actual.len() > 0 && !st.cur.actual_missing_nl {
        lemma_replacements_push(d0, c2);
        assert(normal_done(st2) == d0.push(c2));
        lemma_apply_new(e, done, as_replacement(c2), l);
        assert(c2.actual =~= Seq::<Seq<u8>>::empty());
        assert(apply_ed_hunks(e.take(l), done) + c2.actual =~= apply_ed_hunks(e.take(l), done));
    } else if hunk_nonempty(st.cur) {
        lemma_replacements_push(st.results, st.cur);
        lemma_replacements_push(st.results.push(st.cur), c2);
        assert(st.results.push(st.cur).drop_last() =~= st.results);
        assert(normal_done(st2) == st.results.push(c2));
        assert(as_replacements(normal_done(st2)) == done.drop_last().push(EdHunk { expected: done.last().expected.push(e[l]), ..done.last() }));
        lemma_apply_grow_expected(e, done, l);
    } else {
        lemma_replacements_push(st.results, c2);
        assert(normal_done(st2) == d0.push(c2));
        lemma_apply_new(e, done, as_replacement(c2), l);
        assert(c2.actual =~= Seq::<Seq<u8>>::empty());
        assert(apply_ed_hunks(e.take(l), done) + c2.actual =~= apply_ed_hunks(e.take(l), done));
    }
}

proof fn lemma_normal_patch_right(st: NormalState, s: Seq<DiffOp>, j: int, e: Seq<Seq<u8>>, a: Seq<Seq<u8>>, ec: int, ac: int)
    requires
        fits(s, e, a),
        0 <= j < s.len(),
        s[j] == DiffOp::Right,
        normal_patch_inv(st, s, j, e, a),
    ensures
        normal_patch_inv(normal_step(st, s[j], e, a, ec, ac, false), s, j + 1, e, a),
{
    lemma_fits_step(s, e, a, j);
    lemma_count_step(s, j);
    lemma_count_prefix(s, j);
    let st2 = normal_step(st, s[j], e, a, ec, ac, false);
    let l = st.lne - 1;
    let r = st.lna - 1;
    let d0 = normal_done(st);
    let done = as_replacements(d0);
    let c2 = st2.cur;
    assert(a.take(r + 1) =~= a.take(r).push(a[r]));
    if hunk_nonempty(st.cur) {
        lemma_replacements_push(st.results, st.cur);
        lemma_replacements_push(st.results.push(st.cur), c2);
        assert(st.results.push(st.cur).drop_last() =~= st.results);
        assert(as_replacements(normal_done(st2)) == done.drop_last().push(EdHunk { actual: done.last().actual.push(a[r]), ..done.last() }));
        lemma_apply_grow_actual(e, done, l, a[r]);
    } else {
        lemma_replacements_push(st.results, c2);
        lemma_apply_new(e, done, as_replacement(c2), l);
        assert(c2.actual =~= seq![a[r]]);
        assert(e.take(l + 0) =~= e.take(l));
        assert(a.take(r).push(a[r]) =~= a.take(r) + seq![a[r]]);
    }
}

/// The walk over a fitting edit script keeps `normal_patch_inv`.
pub proof fn lemma_normal_patch_run(s: Seq<DiffOp>, k: nat, e: Seq<Seq<u8>>, a: Seq<Seq<u8>>, ec: int, ac: int)
    requires
        fits(s, e, a),
        k <= s.len(),
    ensures
        normal_patch_inv(normal_run(s, k, e, a, ec, ac, false), s, k as int, e, a),
    decreases k,
{
    if k == 0 {
        assert(s.take(0) =~= Seq::<DiffOp>::empty());
        assert(e.take(0) =~= Seq::<Seq<u8>>::empty());
        assert(a.take(0) =~= Seq::<Seq<u8>>::empty());
        assert(as_replacements(Seq::<NormalHunk>::empty()) =~= Seq::<EdHunk>::empty());
    } else {
        let j = (k - 1) as int;
        lemma_normal_patch_run(s, (k - 1) as nat, e, a, ec, ac);
        let st = normal_run(s, (k - 1) as nat, e, a, ec, ac, false);
        match s[j] {
            DiffOp::Both => lemma_normal_patch_both(st, s, j, e, a, ec, ac),
            DiffOp::Left => lemma_normal_patch_left(st, s, j, e, a, ec, ac),
            DiffOp::Right => lemma_normal_patch_right(st, s, j, e, a, ec, ac),
        }
    }
}

/// Applied to the lines of the first side, the groups that the normal format
/// reports for any edit script between two sides give the lines of the
/// second side: patching the first file with the diff gives the second.
pub proof fn lemma_normal_patch(s: Seq<DiffOp>, e: Seq<Seq<u8>>, a: Seq<Seq<u8>>, ec: int, ac: int)
    requires
        fits(s, e, a),
    ensures
        apply_ed_hunks(e, as_replacements(normal_hunks(s, e, a, ec, ac, false))) == a,
{
    lemma_normal_patch_run(s, s.len(), e, a, ec, ac);
    lemma_take_all(s);
    assert(e.take(e.len() as int) =~= e);
    assert(a.take(a.len() as int) =~= a);
}

/// On a script of common lines only, between equal sides, the walk reports
/// nothing.
pub proof fn lemma_normal_all_both(s: Seq<DiffOp>, k: nat, e: Seq<Seq<u8>>, ec: int, stop: bool)
    requires
        k <= s.len(),
        forall|i: int| 0 <= i < s.len() ==> s[i] == DiffOp::Both,
    ensures
        normal_run(s, k, e, e, ec, ec, stop).results.len() == 0,
        !hunk_nonempty(normal_run(s, k, e, e, ec, ec, stop).cur),
        normal_run(s, k, e, e, ec, ec, stop).lne == normal_run(s, k, e, e, ec, ec, stop).lna,
        !normal_run(s, k, e, e, ec, ec, stop).stopped,
    decreases k,
{
    if k > 0 {
        lemma_normal_all_both(s, (k - 1) as nat, e, ec, stop);
    }
}

/// A walk asked to stop early matches the full walk until the full walk has
/// completed a group, and from then on it has stopped with a group.
pub proof fn lemma_normal_stop_run(s: Seq<DiffOp>, k: nat, e: Seq<Seq<u8>>, a: Seq<Seq<u8>>, ec: int, ac: int)
    requires
        k <= s.len(),
    ensures
        normal_run(s, k, e, a, ec, ac, false).results.len() == 0 ==>
            normal_run(s, k, e, a, ec, ac, true) == normal_run(s, k, e, a, ec, ac, false),
        normal_run(s, k, e, a, ec, ac, false).results.len() > 0 ==>
            normal_run(s, k, e, a, ec, ac, true).stopped && normal_run(s, k, e, a, ec, ac, true).results.len() > 0,
        !normal_run(s, k, e, a, ec, ac, false).stopped,
    decreases k,
{
    if k > 0 {
        lemma_normal_stop_run(s, (k - 1) as nat, e, a, ec, ac);
    }
}

/// Asked to stop early, the walk reports some group exactly when the full
/// walk does.
pub proof fn lemma_normal_stop_hunks(s: Seq<DiffOp>, e: Seq<Seq<u8>>, a: Seq<Seq<u8>>, ec: int, ac: int)
    ensures
        (normal_hunks(s, e, a, ec, ac, true).len() > 0) == (normal_hunks(s, e, a, ec, ac, false).len() > 0),
{
    lemma_normal_stop_run(s, s.len(), e, a, ec, ac);
}

/// The text of some groups is not empty.
pub proof fn lemma_normal_text_nonempty(hs: Seq<NormalHunk>, expand: bool, tabsize: nat)
    ensures
        (normal_text(hs, expand, tabsize).len() > 0) == (hs.len() > 0),
{
    if hs.len() > 0 {
        let h = hs.last();
        assert(normal_header(h).len() > 0);
        assert(normal_hunk_text(h, expand, tabsize).len() >= normal_header(h).len());
    }
}

/// With `brief`, the normal format prints a single zero byte exactly when the
/// full diff is not empty, and nothing otherwise.
pub proof fn lemma_normal_brief(expected: Seq<u8>, actual: Seq<u8>, expand: bool, tabsize: nat)
    ensures
        normal_diff_output(expected, actual, true, expand, tabsize) == if normal_diff_output(expected, actual, false, expand, tabsize).len() > 0 {
            seq![0u8]
        } else {
            Seq::<u8>::empty()
        },
{
    let e = text_lines(expected);
    let a = text_lines(actual);
    let s = lcs_script(e, a);
    lemma_normal_stop_hunks(s, e, a, count_nl(expected) as int, count_nl(actual) as int);
    lemma_normal_text_nonempty(normal_diff_hunks(expected, actual, false), expand, tabsize);
    lemma_normal_text_nonempty(normal_diff_hunks(expected, actual, true), expand, tabsize);
}

/// The groups of changes between two buffers in the normal format.
pub fn make_diff(expected: &[u8], actual: &[u8], stop_early: bool) -> (r: Vec<Mismatch>)
    requires
        diff_size_ok(text_lines(expected@).len(), text_lines(actual@).len()),
    ensures
        hunks_of(r@) == normal_diff_hunks(expected@, actual@, stop_early),
        hunks_bounded(hunks_of(r@), text_lines(expected@).len() as int, text_lines(actual@).len() as int),
        expected@ == actual@ ==> r@.len() == 0,
        !stop_early ==> apply_ed_hunks(text_lines(expected@), as_replacements(hunks_of(r@))) == text_lines(actual@),
{
    let (e, ec) = lines_and_newline_count(expected);
    let (a, ac) = lines_and_newline_count(actual);
    proof {
        lemma_text_lines_len(expected@);
        lemma_text_lines_len(actual@);
        
    }
    let script = diff_lines(&e, &a);
    proof {
        if expected@ == actual@ {
            lemma_normal_all_both(script@, script@.len(), lines_of(e@), ec as int, stop_early);
        }
        lemma_normal_patch(script@, lines_of(e@), lines_of(a@), ec as int, ac as int);
    }
    let r = make_diff_from_script(&e, &a, ec, ac, &script, stop_early);
    assert(expected@ == actual@ ==> hunks_of(r@).len() == 0);
    r
}

/// What a reader finds at the start of a group's text.
pub open spec fn header_reads_right(h: NormalHunk, t: Seq<u8>) -> bool {
    let ec = h.expected.len() as int;
    let ac = h.actual.len() as int;
    let lne = h.line_number_expected;
    let lna = h.line_number_actual;
    let r1 = read_range(t);
    let r2 = read_range(t.skip(r1.2 + 1));
    &&& ec > 0 ==> r1.0 == lne && r1.1 == lne + ec - 1
    &&& ec == 0 ==> r1.0 == lne - 1 && r1.1 == lne - 1
    &&& t[r1.2] == (if ec == 0 { 97u8 } else if ac == 0 { 100u8 } else { 99u8 })
    &&& ac > 0 ==> r2.0 == lna && r2.1 == lna + ac - 1
    &&& ac == 0 ==> r2.0 == lna - 1 && r2.1 == lna - 1
    &&& t[r1.2 + 1 + r2.2] == 10u8
}

#[verifier::rlimit(50)]
proof fn lemma_header_then(h: NormalHunk, body: Seq<u8>)
    requires
        hunk_nonempty(h),
        1 <= h.line_number_expected,
        1 <= h.line_number_actual,
    ensures
        header_reads_right(h, normal_header(h) + body),
{
    let hd = normal_header(h);
    let t = hd + body;
    let ec = h.expected.len() as int;
    let ac = h.actual.len() as int;
    let lne = h.line_number_expected;
    let lna = h.line_number_actual;
    if ec == 0 {
        let a = decimal((lne - 1) as nat);
        let b = pair_text(lna, lna + ac - 1);
        assert(t =~= a + (seq![97u8] + b + seq![10u8] + body));
        lemma_read_number((lne - 1) as nat, seq![97u8] + b + seq![10u8] + body);
        assert(t.skip((a.len() + 1) as int) =~= decimal(lna as nat) + seq![44u8] + decimal((lna + ac - 1) as nat) + (seq![10u8] + body));
        lemma_read_pair(lna as nat, (lna + ac - 1) as nat, seq![10u8] + body);
    } else if ac == 0 {
        let a = pair_text(lne, ec + lne - 1);
        let b = decimal((lna - 1) as nat);
        assert(t =~= decimal(lne as nat) + seq![44u8] + decimal((ec + lne - 1) as nat) + (seq![100u8] + b + seq![10u8] + body));
        lemma_read_pair(lne as nat, (ec + lne - 1) as nat, seq![100u8] + b + seq![10u8] + body);
        assert(t.skip((a.len() + 1) as int) =~= b + (seq![10u8] + body));
        lemma_read_number((lna - 1) as nat, seq![10u8] + body);
    } else {
        let a = range_text(lne, ec);
        let b = range_text(lna, ac);
        assert(hd == a + seq![99u8] + b + seq![10u8]);
        assert(t =~= a + (seq![99u8] + b + seq![10u8] + body));
        lemma_read_range_text(lne, ec, seq![99u8] + b + seq![10u8] + body);
        assert(t.skip((a.len() + 1) as int) =~= b + (seq![10u8] + body));
        lemma_read_range_text(lna, ac, seq![10u8] + body);
    }
}

/// The header of a group names its lines: read back, the first range is the
/// first and the last line of the first file that the group removes or
/// changes (`L,L+n-1`, or `L` alone for one changed line), or, for an
/// addition, the line after which it goes; then comes the command: `a` when
/// the first file gives no line, `d` when the second gives none, else `c`;
/// then, in the same way, the range of the second file's lines, or the line
/// after which a deletion leaves it; then the end of the line.
pub proof fn lemma_normal_header_ranges(h: NormalHunk, expand: bool, tabsize: nat)
    requires
        hunk_nonempty(h),
        1 <= h.line_number_expected,
        1 <= h.line_number_actual,
    ensures
        header_reads_right(h, normal_hunk_text(h, expand, tabsize)),
{
    let t = normal_hunk_text(h, expand, tabsize);
    let hd = normal_header(h);
    let body = t.subrange(hd.len() as int, t.len() as int);
    assert(t =~= hd + body);
    lemma_header_then(h, body);
}

} // verus!
