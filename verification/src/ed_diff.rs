//! The ed script format: commands that turn the first file into the second.

use vstd::prelude::*;
use crate::lines::{lines_of, split_lines, text_lines, lines_and_newline_count, lemma_text_lines_len};
use crate::script::{DiffOp, fits, left_count, right_count, lcs_script, diff_size_ok, diff_lines,
    lemma_diff_size_mono, lemma_fits_step, lemma_count_step, lemma_count_prefix, lemma_take_all};
use crate::text::{to_owned_bytes, decimal, push_decimal, pair_text, push_pair, push_all, read_range, lemma_read_number,
    lemma_read_pair};
use crate::utils::{written_line, do_write_line};

verus! {

/// The error of the ed format: an input whose last line has no newline.
#[derive(Debug, PartialEq, Eq)]
pub enum DiffError {
    MissingNL,
}

impl DiffError {
    /// The message of the error.
    pub fn message(&self) -> (r: String)
        ensures
            r@ == "No newline at end of file"@,
    {
        String::from_str("No newline at end of file")
    }
}

/// A group of changed lines of the ed format.
pub struct EdHunk {
    pub line_number_expected: int,
    pub line_number_actual: int,
    pub expected: Seq<Seq<u8>>,
    pub actual: Seq<Seq<u8>>,
}

pub open spec fn new_ed_hunk(lne: int, lna: int) -> EdHunk {
    EdHunk { line_number_expected: lne, line_number_actual: lna, expected: Seq::empty(), actual: Seq::empty() }
}

pub open spec fn ed_nonempty(h: EdHunk) -> bool {
    h.expected.len() > 0 || h.actual.len() > 0
}

pub struct EdState {
    pub lne: int,
    pub lna: int,
    pub results: Seq<EdHunk>,
    pub cur: EdHunk,
    pub stopped: bool,
}

/// One step of the walk over the edit script.
pub open spec fn ed_step(st: EdState, op: DiffOp, e: Seq<Seq<u8>>, a: Seq<Seq<u8>>, stop: bool) -> EdState {
    if st.stopped {
        st
    } else {
        let s2 = match op {
            DiffOp::Left => {
                let split = st.cur.actual.len() > 0;
                let results = if split { st.results.push(st.cur) } else { st.results };
                let cur = if split { new_ed_hunk(st.lne, st.lna) } else { st.cur };
                EdState {
                    lne: st.lne + 1,
                    lna: st.lna,
                    results,
                    cur: EdHunk { expected: cur.expected.push(e[st.lne - 1]), ..cur },
                    stopped: false,
                }
            },
            DiffOp::Right => EdState {
                lna: st.lna + 1,
                cur: EdHunk { actual: st.cur.actual.push(a[st.lna - 1]), ..st.cur },
                ..st
            },
            DiffOp::Both => if ed_nonempty(st.cur) {
                EdState {
                    lne: st.lne + 1,
                    lna: st.lna + 1,
                    results: st.results.push(st.cur),
                    cur: new_ed_hunk(st.lne + 1, st.lna + 1),
                    stopped: false,
                }
            } else {
                EdState {
                    lne: st.lne + 1,
                    lna: st.lna + 1,
                    cur: new_ed_hunk(st.lne + 1, st.lna + 1),
                    ..st
                }
            },
        };
        EdState { stopped: stop && s2.results.len() > 0, ..s2 }
    }
}

pub open spec fn ed_run(s: Seq<DiffOp>, k: nat, e: Seq<Seq<u8>>, a: Seq<Seq<u8>>, stop: bool) -> EdState
    decreases k,
{
    if k == 0 {
        EdState { lne: 1, lna: 1, results: Seq::empty(), cur: new_ed_hunk(1, 1), stopped: false }
    } else {
        ed_step(ed_run(s, (k - 1) as nat, e, a, stop), s[k - 1], e, a, stop)
    }
}

/// The groups of changes of the ed format for script `s`.
pub open spec fn ed_hunks(s: Seq<DiffOp>, e: Seq<Seq<u8>>, a: Seq<Seq<u8>>, stop: bool) -> Seq<EdHunk> {
    let st = ed_run(s, s.len(), e, a, stop);
    if st.stopped {
        st.results
    } else if ed_nonempty(st.cur) {
        st.results.push(st.cur)
    } else {
        st.results
    }
}

/// Both buffers end with a newline (an empty buffer counts as ending with one).
pub open spec fn ends_with_newline(s: Seq<u8>) -> bool {
    split_lines(s).last() == Seq::<u8>::empty()
}

/// The groups of changes between two buffers, or the error when one of them
/// does not end with a newline.
pub open spec fn ed_diff_hunks(expected: Seq<u8>, actual: Seq<u8>, stop: bool) -> Result<Seq<EdHunk>, DiffError> {
    if !ends_with_newline(expected) || !ends_with_newline(actual) {
        Err(DiffError::MissingNL)
    } else {
        let e = text_lines(expected);
        let a = text_lines(actual);
        Ok(ed_hunks(lcs_script(e, a), e, a, stop))
    }
}

/// The groups come in order: each ends on the first side before the next
/// one starts.
pub open spec fn ed_hunks_ordered(hs: Seq<EdHunk>) -> bool {
    forall|i: int, j: int|
        0 <= i < j < hs.len() ==> (#[trigger] hs[i]).line_number_expected + hs[i].expected.len()
            <= (#[trigger] hs[j]).line_number_expected
}

/// What the walk keeps for the order of the groups: the finished groups are
/// in order and end before the current one starts, which ends at the
/// position; and a walk that stops has at most one finished group, and none
/// before it stops.
pub open spec fn ed_order_inv(st: EdState, stop: bool) -> bool {
    &&& ed_hunks_ordered(st.results)
    &&& forall|i: int| 0 <= i < st.results.len() ==> (#[trigger] st.results[i]).line_number_expected
        + st.results[i].expected.len() <= st.cur.line_number_expected
    &&& st.cur.line_number_expected + st.cur.expected.len() <= st.lne
    &&& stop ==> st.results.len() <= 1
    &&& stop && !st.stopped ==> st.results.len() == 0
    &&& !stop ==> !st.stopped
}

proof fn lemma_ed_order_run(s: Seq<DiffOp>, k: nat, e: Seq<Seq<u8>>, a: Seq<Seq<u8>>, stop: bool)
    requires
        k <= s.len(),
    ensures
        ed_order_inv(ed_run(s, k, e, a, stop), stop),
    decreases k,
{
    if k > 0 {
        lemma_ed_order_run(s, (k - 1) as nat, e, a, stop);
        let st = ed_run(s, (k - 1) as nat, e, a, stop);
        let st2 = ed_run(s, k, e, a, stop);
        if !st.stopped {
            assert forall|i: int, j: int| 0 <= i < j < st2.results.len() implies (#[trigger] st2.results[i]).line_number_expected
                + st2.results[i].expected.len() <= (#[trigger] st2.results[j]).line_number_expected by {
                if j < st.results.len() {
                    assert(st2.results[i] == st.results[i] && st2.results[j] == st.results[j]);
                } else {
                    assert(st2.results[i] == st.results[i]);
                }
            }
            assert forall|i: int| 0 <= i < st2.results.len() implies (#[trigger] st2.results[i]).line_number_expected
                + st2.results[i].expected.len() <= st2.cur.line_number_expected by {
                if i < st.results.len() {
                    assert(st2.results[i] == st.results[i]);
                }
            }
        }
    }
}

/// The groups of any walk are in order, and a walk that stops early gives at
/// most one.
pub proof fn lemma_ed_hunks_ordered(s: Seq<DiffOp>, e: Seq<Seq<u8>>, a: Seq<Seq<u8>>, stop: bool)
    ensures
        ed_hunks_ordered(ed_hunks(s, e, a, stop)),
        stop ==> ed_hunks(s, e, a, stop).len() <= 1,
{
    lemma_ed_order_run(s, s.len(), e, a, stop);
    let st = ed_run(s, s.len(), e, a, stop);
    let hs = ed_hunks(s, e, a, stop);
    if !st.stopped && ed_nonempty(st.cur) {
        assert forall|i: int, j: int| 0 <= i < j < hs.len() implies (#[trigger] hs[i]).line_number_expected + hs[i].expected.len()
            <= (#[trigger] hs[j]).line_number_expected by {
            assert(hs[i] == st.results[i]);
            if j < st.results.len() {
                assert(hs[j] == st.results[j]);
            }
        }
    }
}

/// The sum over groups of the lines added minus the lines removed.
pub open spec fn ed_offset(hs: Seq<EdHunk>) -> int
    decreases hs.len(),
{
    if hs.len() == 0 {
        0
    } else {
        ed_offset(hs.drop_last()) + hs.last().actual.len() - hs.last().expected.len()
    }
}

/// The line of an ed insertion that stands for a line holding a single dot:
/// `..`, the end of the insertion, a command that removes the extra dot, and
/// a new insertion.
pub open spec fn dot_line_text() -> Seq<u8> {
    seq![46u8, 46, 10, 46, 10, 115, 47, 46, 47, 47, 10, 97, 10]
}

/// The lines inserted by an ed command, each followed by a newline.
pub open spec fn ed_insert_lines(ls: Seq<Seq<u8>>, expand: bool, tabsize: nat) -> Seq<u8>
    decreases ls.len(),
{
    if ls.len() == 0 {
        Seq::<u8>::empty()
    } else {
        ed_insert_lines(ls.drop_last(), expand, tabsize) + if ls.last() == seq![46u8] {
            dot_line_text()
        } else {
            written_line(ls.last(), expand, tabsize) + seq![10u8]
        }
    }
}

/// The ed command of one group, whose first line is moved by `off` lines by the
/// commands of the earlier groups.
pub open spec fn ed_hunk_text(h: EdHunk, off: int, expand: bool, tabsize: nat) -> Seq<u8> {
    let ec = h.expected.len() as int;
    let ac = h.actual.len() as int;
    let l = h.line_number_expected + off;
    let header = if ec == 0 {
        decimal((l - 1) as nat) + seq![97u8]
    } else if ac == 0 {
        pair_text(l, ec + l - 1) + seq![100u8]
    } else if ec == 1 {
        decimal(l as nat) + seq![99u8]
    } else {
        pair_text(l, ec + l - 1) + seq![99u8]
    };
    header + seq![10u8] + if ac != 0 {
        ed_insert_lines(h.actual, expand, tabsize) + seq![46u8, 10]
    } else {
        Seq::<u8>::empty()
    }
}

/// The commands of a sequence of groups.
pub open spec fn ed_text(hs: Seq<EdHunk>, expand: bool, tabsize: nat) -> Seq<u8>
    decreases hs.len(),
{
    if hs.len() == 0 {
        Seq::<u8>::empty()
    } else {
        ed_text(hs.drop_last(), expand, tabsize) + ed_hunk_text(hs.last(), ed_offset(hs.drop_last()), expand, tabsize)
    }
}

/// The ed diff between two buffers: the error when one does not end with a
/// newline; a single zero byte when asked only whether they differ
/// (`stop_early`) and they do; else the commands.
pub open spec fn ed_diff_output(expected: Seq<u8>, actual: Seq<u8>, stop: bool, expand: bool, tabsize: nat) -> Result<Seq<u8>, DiffError> {
    match ed_diff_hunks(expected, actual, stop) {
        Err(e) => Err(e),
        Ok(hs) => if stop && hs.len() > 0 {
            Ok(seq![0u8])
        } else {
            Ok(ed_text(hs, expand, tabsize))
        },
    }
}

pub struct Mismatch {
    pub line_number_expected: usize,
    pub line_number_actual: usize,
    pub expected: Vec<Vec<u8>>,
    pub actual: Vec<Vec<u8>>,
}

impl View for Mismatch {
    type V = EdHunk;

    open spec fn view(&self) -> EdHunk {
        EdHunk {
            line_number_expected: self.line_number_expected as int,
            line_number_actual: self.line_number_actual as int,
            expected: lines_of(self.expected@),
            actual: lines_of(self.actual@),
        }
    }
}

impl Mismatch {
    pub fn new(line_number_expected: usize, line_number_actual: usize) -> (m: Mismatch)
        ensures
            m@ == new_ed_hunk(line_number_expected as int, line_number_actual as int),
            m.expected@.len() == 0,
            m.actual@.len() == 0,
            m.line_number_expected == line_number_expected,
            m.line_number_actual == line_number_actual,
    {
        let m = Mismatch { line_number_expected, line_number_actual, expected: Vec::new(), actual: Vec::new() };
        assert(m@.expected =~= Seq::<Seq<u8>>::empty());
        assert(m@.actual =~= Seq::<Seq<u8>>::empty());
        m
    }
}

pub open spec fn ed_hunks_of(v: Seq<Mismatch>) -> Seq<EdHunk> {
    Seq::new(v.len(), |i: int| v[i]@)
}

/// Every group has a change, lies within the `ne` lines of the first side and
/// the `na` lines of the second, and its first line on the first side, moved by
/// the earlier groups, is its first line on the second side.
pub open spec fn ed_hunks_wf(hs: Seq<EdHunk>, ne: int, na: int) -> bool {
    forall|j: int|
        0 <= j < hs.len() ==> {
            let h = #[trigger] hs[j];
            &&& ed_nonempty(h)
            &&& 1 <= h.line_number_expected
            &&& 1 <= h.line_number_actual
            &&& h.line_number_expected + h.expected.len() <= ne + 1
            &&& h.line_number_actual + h.actual.len() <= na + 1
            &&& h.line_number_expected + ed_offset(hs.take(j)) == h.line_number_actual
        }
}

pub proof fn lemma_ed_run_stopped(s: Seq<DiffOp>, k: nat, n: nat, e: Seq<Seq<u8>>, a: Seq<Seq<u8>>, stop: bool)
    requires
        k <= n <= s.len(),
        ed_run(s, k, e, a, stop).stopped,
    ensures
        ed_run(s, n, e, a, stop) == ed_run(s, k, e, a, stop),
    decreases n - k,
{
    if n > k {
        lemma_ed_run_stopped(s, k, (n - 1) as nat, e, a, stop);
    }
}

fn push_line(v: &mut Vec<Vec<u8>>, line: &Vec<u8>)
    ensures
        lines_of(final(v)@) == lines_of(old(v)@).push(line@),
        final(v)@.len() == old(v)@.len() + 1,
{
    let c = to_owned_bytes(line.as_slice());
    v.push(c);
    assert(lines_of(v@) =~= lines_of(old(v)@).push(line@));
}

proof fn lemma_offset_push(hs: Seq<EdHunk>, h: EdHunk)
    ensures
        ed_offset(hs.push(h)) == ed_offset(hs) + h.actual.len() - h.expected.len(),
{
    assert(hs.push(h).drop_last() =~= hs);
}

proof fn lemma_wf_push(hs: Seq<EdHunk>, h: EdHunk, ne: int, na: int)
    requires
        ed_hunks_wf(hs, ne, na),
        ed_nonempty(h),
        1 <= h.line_number_expected,
        1 <= h.line_number_actual,
        h.line_number_expected + h.expected.len() <= ne + 1,
        h.line_number_actual + h.actual.len() <= na + 1,
        h.line_number_expected + ed_offset(hs) == h.line_number_actual,
    ensures
        ed_hunks_wf(hs.push(h), ne, na),
{
    let hs2 = hs.push(h);
    assert forall|j: int| 0 <= j < hs2.len() implies {
        let g = #[trigger] hs2[j];
        &&& ed_nonempty(g)
        &&& 1 <= g.line_number_expected
        &&& 1 <= g.line_number_actual
        &&& g.line_number_expected + g.expected.len() <= ne + 1
        &&& g.line_number_actual + g.actual.len() <= na + 1
        &&& g.line_number_expected + ed_offset(hs2.take(j)) == g.line_number_actual
    } by {
        if j < hs.len() {
            assert(hs2.take(j) =~= hs.take(j));
        } else {
            assert(hs2.take(j) =~= hs);
        }
    }
}

/// The groups of changes of the ed format, from the lines of both sides and an
/// edit script between them. With `stop_early`, the walk ends as soon as one
/// group is complete.
pub fn make_diff_from_script(e: &Vec<Vec<u8>>, a: &Vec<Vec<u8>>, script: &Vec<DiffOp>, stop_early: bool) -> (r: Vec<Mismatch>)
    requires
        fits(script@, lines_of(e@), lines_of(a@)),
        e.len() < usize::MAX - 1,
        a.len() < usize::MAX - 1,
    ensures
        ed_hunks_of(r@) == ed_hunks(script@, lines_of(e@), lines_of(a@), stop_early),
        ed_hunks_wf(ed_hunks_of(r@), e.len() as int, a.len() as int),
{
    let ghost le = lines_of(e@);
    let ghost la = lines_of(a@);
    let ghost s = script@;
    let ghost ne = e.len() as int;
    let ghost na = a.len() as int;
    let mut lne: usize = 1;
    let mut lna: usize = 1;
    let mut results: Vec<Mismatch> = Vec::new();
    let mut mismatch = Mismatch::new(1, 1);
    let mut i: usize = 0;
    assert(ed_hunks_of(results@) =~= Seq::<EdHunk>::empty());
    assert(s.take(0) =~= Seq::<DiffOp>::empty());
    while i < script.len()
        invariant
            le == lines_of(e@),
            la == lines_of(a@),
            s == script@,
            ne == e.len(),
            na == a.len(),
            fits(s, le, la),
            e.len() < usize::MAX - 1,
            a.len() < usize::MAX - 1,
            i <= s.len(),
            lne == left_count(s.take(i as int)) + 1,
            lna == right_count(s.take(i as int)) + 1,
            ({
                let st = ed_run(s, i as nat, le, la, stop_early);
                &&& !st.stopped
                &&& st.lne == lne
                &&& st.lna == lna
                &&& st.results == ed_hunks_of(results@)
                &&& st.cur == mismatch@
            }),
            ed_hunks_wf(ed_hunks_of(results@), ne, na),
            1 <= mismatch.line_number_expected,
            1 <= mismatch.line_number_actual,
            mismatch.line_number_expected + mismatch.expected.len() == lne,
            mismatch.line_number_actual + mismatch.actual.len() == lna,
            mismatch.line_number_expected + ed_offset(ed_hunks_of(results@)) == mismatch.line_number_actual,
        decreases s.len() - i,
    {
        proof {
            lemma_fits_step(s, le, la, i as int);
            lemma_count_step(s, i as int);
            lemma_count_prefix(s, i as int + 1);
            lemma_count_prefix(s, s.len() as int);
            lemma_take_all(s);
        }
        let ghost st = ed_run(s, i as nat, le, la, stop_early);
        let ghost old_results = ed_hunks_of(results@);
        let op = script[i];
        match op {
            DiffOp::Left => {
                if mismatch.actual.len() > 0 {
                    proof {
                        lemma_offset_push(old_results, mismatch@);
                        lemma_wf_push(old_results, mismatch@, ne, na);
                    }
                    results.push(mismatch);
                    mismatch = Mismatch::new(lne, lna);
                    assert(ed_hunks_of(results@) =~= old_results.push(st.cur));
                }
                push_line(&mut mismatch.expected, &e[lne - 1]);
                lne = lne + 1;
            },
            DiffOp::Right => {
                push_line(&mut mismatch.actual, &a[lna - 1]);
                lna = lna + 1;
            },
            DiffOp::Both => {
                lne = lne + 1;
                lna = lna + 1;
                if mismatch.actual.len() > 0 || mismatch.expected.len() > 0 {
                    proof {
                        lemma_offset_push(old_results, mismatch@);
                        lemma_wf_push(old_results, mismatch@, ne, na);
                    }
                    results.push(mismatch);
                    assert(ed_hunks_of(results@) =~= old_results.push(st.cur));
                }
                mismatch = Mismatch::new(lne, lna);
            },
        }
        i = i + 1;
        assert(ed_run(s, i as nat, le, la, stop_early).cur =~= mismatch@);
        if stop_early && results.len() > 0 {
            proof {
                lemma_ed_run_stopped(s, i as nat, s.len(), le, la, stop_early);
            }
            return results;
        }
    }
    let ghost st = ed_run(s, i as nat, le, la, stop_early);
    proof {
        lemma_take_all(s);
        lemma_count_prefix(s, s.len() as int);
    }
    if mismatch.actual.len() > 0 || mismatch.expected.len() > 0 {
        let ghost old_results = ed_hunks_of(results@);
        proof {
            lemma_wf_push(old_results, mismatch@, ne, na);
        }
        results.push(mismatch);
        assert(ed_hunks_of(results@) =~= old_results.push(st.cur));
    }
    results
}

/// The groups of changes between two buffers in the ed format, or the error when
/// one of them does not end with a newline.
/// On a script of common lines only, the walk reports nothing.
pub proof fn lemma_ed_all_both(s: Seq<DiffOp>, k: nat, e: Seq<Seq<u8>>, a: Seq<Seq<u8>>, stop: bool)
    requires
        k <= s.len(),
        forall|i: int| 0 <= i < s.len() ==> s[i] == DiffOp::Both,
    ensures
        ed_run(s, k, e, a, stop).results.len() == 0,
        !ed_nonempty(ed_run(s, k, e, a, stop).cur),
        !ed_run(s, k, e, a, stop).stopped,
    decreases k,
{
    if k > 0 {
        lemma_ed_all_both(s, (k - 1) as nat, e, a, stop);
    }
}

pub fn make_diff(expected: &[u8], actual: &[u8], stop_early: bool) -> (r: Result<Vec<Mismatch>, DiffError>)
    requires
        diff_size_ok(text_lines(expected@).len(), text_lines(actual@).len()),
    ensures
        match (r, ed_diff_hunks(expected@, actual@, stop_early)) {
            (Ok(v), Ok(hs)) => ed_hunks_of(v@) == hs && ed_hunks_wf(hs, text_lines(expected@).len() as int, text_lines(actual@).len() as int),
            (Err(x), Err(y)) => x == y,
            _ => false,
        },
        expected@ == actual@ ==> (r matches Ok(v) ==> v@.len() == 0),
        !stop_early ==> (r matches Ok(v) ==> apply_ed_hunks(text_lines(expected@), ed_hunks_of(v@)) == text_lines(actual@)),
        r matches Ok(v) ==> ed_hunks_ordered(ed_hunks_of(v@)) && (stop_early ==> v@.len() <= 1),
{
    let (e, ec) = lines_and_newline_count(expected);
    let (a, ac) = lines_and_newline_count(actual);
    proof {
        lemma_text_lines_len(expected@);
        lemma_text_lines_len(actual@);
        
    }
    if e.len() != ec {
        return Err(DiffError::MissingNL);
    }
    if a.len() != ac {
        return Err(DiffError::MissingNL);
    }
    let script = diff_lines(&e, &a);
    proof {
        if expected@ == actual@ {
            lemma_ed_all_both(script@, script@.len(), lines_of(e@), lines_of(a@), stop_early);
        }
        lemma_ed_patch(script@, lines_of(e@), lines_of(a@));
        lemma_ed_hunks_ordered(script@, lines_of(e@), lines_of(a@), stop_early);
    }
    let r = make_diff_from_script(&e, &a, &script, stop_early);
    assert(ed_hunks_of(r@).len() == r@.len());
    assert(expected@ == actual@ ==> ed_hunks_of(r@).len() == 0);
    Ok(r)
}

fn push_insert_lines(out: &mut Vec<u8>, ls: &Vec<Vec<u8>>, expand: bool, tabsize: usize)
    requires
        expand ==> tabsize > 0,
    ensures
        final(out)@ == old(out)@ + ed_insert_lines(lines_of(ls@), expand, tabsize as nat),
{
    let ghost l = lines_of(ls@);
    let mut i: usize = 0;
    assert(l.take(0) =~= Seq::<Seq<u8>>::empty());
    assert(old(out)@ + ed_insert_lines(Seq::<Seq<u8>>::empty(), expand, tabsize as nat) =~= old(out)@);
    while i < ls.len()
        invariant
            l == lines_of(ls@),
            i <= ls.len(),
            expand ==> tabsize > 0,
            out@ == old(out)@ + ed_insert_lines(l.take(i as int), expand, tabsize as nat),
        decreases ls.len() - i,
    {
        let ghost before = out@;
        let line = &ls[i];
        if line.len() == 1 && line[0] == 46u8 {
            let d: [u8; 13] = [46u8, 46, 10, 46, 10, 115, 47, 46, 47, 47, 10, 97, 10];
            push_all(out, &d);
            assert(d@ =~= dot_line_text());
            assert(l[i as int] =~= seq![46u8]);
        } else {
            let _ = do_write_line(out, line.as_slice(), expand, tabsize);
            out.push(10u8);
            assert(l[i as int] != seq![46u8]);
        }
        proof {
            assert(l.take(i + 1).drop_last() =~= l.take(i as int));
            assert(out@ =~= old(out)@ + ed_insert_lines(l.take(i + 1), expand, tabsize as nat));
        }
        i = i + 1;
    }
    assert(l.take(i as int) =~= l);
}

#[verifier::rlimit(50)]
fn push_ed_hunk(out: &mut Vec<u8>, m: &Mismatch, lne: usize, expand: bool, tabsize: usize, Ghost(off): Ghost<int>)
    requires
        ed_nonempty(m@),
        1 <= lne,
        lne == m.line_number_expected + off,
        lne + m.expected.len() < usize::MAX,
        expand ==> tabsize > 0,
    ensures
        final(out)@ == old(out)@ + ed_hunk_text(m@, off, expand, tabsize as nat),
{
    let ec = m.expected.len();
    let ac = m.actual.len();
    let ghost o0 = out@;
    if ec == 0 {
        push_decimal(out, lne - 1);
        out.push(97u8);
    } else if ac == 0 {
        push_pair(out, lne, ec + lne - 1);
        out.push(100u8);
    } else if ec == 1 {
        push_decimal(out, lne);
        out.push(99u8);
    } else {
        push_pair(out, lne, ec + lne - 1);
        out.push(99u8);
    }
    out.push(10u8);
    let ghost o1 = out@;
    if ac != 0 {
        push_insert_lines(out, &m.actual, expand, tabsize);
        out.push(46u8);
        out.push(10u8);
    }
    assert(out@ =~= old(out)@ + ed_hunk_text(m@, off, expand, tabsize as nat));
}

/// The ed diff between `expected` and `actual`: the commands that turn the first
/// into the second; with `stop_early`, a single zero byte when they differ. Both
/// must end with a newline.
pub fn diff(expected: &[u8], actual: &[u8], stop_early: bool, expand_tabs: bool, tabsize: usize) -> (r: Result<Vec<u8>, DiffError>)
    requires
        diff_size_ok(text_lines(expected@).len(), text_lines(actual@).len()),
        expand_tabs ==> tabsize > 0,
    ensures
        match (r, ed_diff_output(expected@, actual@, stop_early, expand_tabs, tabsize as nat)) {
            (Ok(v), Ok(t)) => v@ == t,
            (Err(x), Err(y)) => x == y,
            _ => false,
        },
        expected@ == actual@ ==> (r matches Ok(v) ==> v@.len() == 0),
{
    let diff_results = match make_diff(expected, actual, stop_early) {
        Ok(v) => v,
        Err(e) => return Err(e),
    };
    let ghost hs = ed_hunks_of(diff_results@);
    let ghost ne = text_lines(expected@).len() as int;
    let ghost na = text_lines(actual@).len() as int;
    proof {
        lemma_text_lines_len(expected@);
        lemma_text_lines_len(actual@);
        lemma_line_sum(ne as nat, na as nat, ne as nat, na as nat);
    }
    let mut output: Vec<u8> = Vec::new();
    if stop_early && diff_results.len() > 0 {
        output.push(0u8);
        assert(output@ =~= seq![0u8]);
        return Ok(output);
    }
    let mut i: usize = 0;
    assert(hs.take(0) =~= Seq::<EdHunk>::empty());
    while i < diff_results.len()
        invariant
            hs == ed_hunks_of(diff_results@),
            ed_hunks_wf(hs, ne, na),
            ne + na + 1 < usize::MAX,
            expand_tabs ==> tabsize > 0,
            i <= diff_results.len(),
            output@ == ed_text(hs.take(i as int), expand_tabs, tabsize as nat),
        decreases diff_results.len() - i,
    {
        let result = &diff_results[i];
        assert(hs[i as int] == result@);
        // Once the commands of the earlier groups have run, a group starts on
        // the line where it starts in the second file.
        let lne = result.line_number_actual;
        push_ed_hunk(&mut output, result, lne, expand_tabs, tabsize, Ghost(ed_offset(hs.take(i as int))));
        proof {
            assert(hs.take(i + 1).drop_last() =~= hs.take(i as int));
        }
        i = i + 1;
    }
    assert(hs.take(i as int) =~= hs);
    Ok(output)
}

/// Line counts within the sizes accepted by `diff_lines` leave room for a line
/// number past both sides.
proof fn lemma_line_sum(ne: nat, na: nat, le: nat, la: nat)
    requires
        ne <= le,
        na <= la,
        diff_size_ok(le, la),
    ensures
        ne + na + 1 < usize::MAX,
{
    lemma_diff_size_mono(ne, na, le, la);
    assert(ne + na + 1 < usize::MAX) by (nonlinear_arith)
        requires
            ne + 3 <= 0xffff_ffff,
            na + 3 <= 0xffff_ffff,
            (ne + 1) * (na + 1) <= usize::MAX,
            0xffff_ffff <= usize::MAX;
}

/// A walk asked to stop early matches the full walk until the full walk has
/// completed a group, and from then on it has stopped with a group.
pub proof fn lemma_ed_stop_run(s: Seq<DiffOp>, k: nat, e: Seq<Seq<u8>>, a: Seq<Seq<u8>>)
    requires
        k <= s.len(),
    ensures
        ed_run(s, k, e, a, false).results.len() == 0 ==> ed_run(s, k, e, a, true) == ed_run(s, k, e, a, false),
        ed_run(s, k, e, a, false).results.len() > 0 ==> ed_run(s, k, e, a, true).stopped && ed_run(s, k, e, a, true).results.len() > 0,
        !ed_run(s, k, e, a, false).stopped,
    decreases k,
{
    if k > 0 {
        lemma_ed_stop_run(s, (k - 1) as nat, e, a);
    }
}

/// The commands of some groups are not empty.
pub proof fn lemma_ed_text_nonempty(hs: Seq<EdHunk>, expand: bool, tabsize: nat)
    ensures
        (ed_text(hs, expand, tabsize).len() > 0) == (hs.len() > 0),
{
    if hs.len() > 0 {
        assert(ed_hunk_text(hs.last(), ed_offset(hs.drop_last()), expand, tabsize).len() > 0);
    }
}

/// Asked only whether the files differ, the ed format answers with a single
/// zero byte exactly when the full script is not empty, nothing otherwise, and
/// with the same error when a file lacks its last newline.
pub proof fn lemma_ed_brief(expected: Seq<u8>, actual: Seq<u8>, expand: bool, tabsize: nat)
    ensures
        ed_diff_output(expected, actual, true, expand, tabsize) == match ed_diff_output(expected, actual, false, expand, tabsize) {
            Ok(t) => Ok(if t.len() > 0 { seq![0u8] } else { Seq::<u8>::empty() }),
            Err(x) => Err(x),
        },
{
    let e = text_lines(expected);
    let a = text_lines(actual);
    let s = lcs_script(e, a);
    lemma_ed_stop_run(s, s.len(), e, a);
    lemma_ed_text_nonempty(ed_hunks(s, e, a, false), expand, tabsize);
    lemma_ed_text_nonempty(ed_hunks(s, e, a, true), expand, tabsize);
}

/// The lines that applying the groups `hs` to the lines `e` gives: each group,
/// in order, replaces its lines of the first side (from its first line on)
/// with its lines of the second side, as a patch does.
pub open spec fn apply_ed_hunks(e: Seq<Seq<u8>>, hs: Seq<EdHunk>) -> Seq<Seq<u8>>
    decreases hs.len(),
{
    if hs.len() == 0 {
        e
    } else {
        let h = hs.last();
        let start = h.line_number_expected - 1;
        apply_ed_hunks(e.take(start), hs.drop_last()) + h.actual + e.skip(start + h.expected.len())
    }
}

/// Common lines after the last replacement are copied.
pub proof fn lemma_apply_tail(e: Seq<Seq<u8>>, hs: Seq<EdHunk>, l0: int, l: int)
    requires
        0 <= l0 <= l <= e.len(),
        hs.len() > 0 ==> 1 <= hs.last().line_number_expected && hs.last().line_number_expected - 1
            + hs.last().expected.len() <= l0,
    ensures
        apply_ed_hunks(e.take(l), hs) == apply_ed_hunks(e.take(l0), hs) + e.subrange(l0, l),
{
    if hs.len() > 0 {
        let h = hs.last();
        let start = h.line_number_expected - 1;
        let end = start + h.expected.len();
        assert(e.take(l).take(start) =~= e.take(l0).take(start));
        assert(e.take(l).skip(end) =~= e.take(l0).skip(end) + e.subrange(l0, l));
        assert(apply_ed_hunks(e.take(l0).take(start), hs.drop_last()) + h.actual + (e.take(l0).skip(end) + e.subrange(
            l0,
            l,
        )) =~= apply_ed_hunks(e.take(l0).take(start), hs.drop_last()) + h.actual + e.take(l0).skip(end) + e.subrange(
            l0,
            l,
        ));
    } else {
        assert(e.take(l) =~= e.take(l0) + e.subrange(l0, l));
    }
}

/// The last replacement, which ends at `l`, grows by the next `m` lines of the
/// first side and by the lines `ys` of the second.
pub proof fn lemma_apply_extend(e: Seq<Seq<u8>>, hs: Seq<EdHunk>, l: int, m: int, ys: Seq<Seq<u8>>)
    requires
        hs.len() > 0,
        1 <= hs.last().line_number_expected,
        hs.last().line_number_expected - 1 + hs.last().expected.len() == l,
        0 <= m,
        l + m <= e.len(),
    ensures
        apply_ed_hunks(
            e.take(l + m),
            hs.drop_last().push(
                EdHunk { expected: hs.last().expected + e.subrange(l, l + m), actual: hs.last().actual + ys, ..hs.last() },
            ),
        ) == apply_ed_hunks(e.take(l), hs) + ys,
{
    let h = hs.last();
    let h2 = EdHunk { expected: h.expected + e.subrange(l, l + m), actual: h.actual + ys, ..h };
    let hs2 = hs.drop_last().push(h2);
    assert(hs2.drop_last() =~= hs.drop_last());
    assert(hs2.last() == h2);
    let start = h.line_number_expected - 1;
    assert(e.take(l + m).take(start) =~= e.take(l).take(start));
    assert(e.take(l + m).skip(l + m) =~= Seq::<Seq<u8>>::empty());
    assert(e.take(l).skip(l) =~= Seq::<Seq<u8>>::empty());
    let p = apply_ed_hunks(e.take(l).take(start), hs.drop_last());
    assert(p + (h.actual + ys) + Seq::<Seq<u8>>::empty() =~= p + h.actual + Seq::<Seq<u8>>::empty() + ys);
}

/// A new replacement starting at `l0`, after the others, covering the lines
/// up to `l` of the first side.
pub proof fn lemma_apply_new_at(e: Seq<Seq<u8>>, hs: Seq<EdHunk>, h: EdHunk, l0: int, l: int)
    requires
        0 <= l0 <= l <= e.len(),
        h.line_number_expected == l0 + 1,
        h.expected == e.subrange(l0, l),
        hs.len() > 0 ==> 1 <= hs.last().line_number_expected && hs.last().line_number_expected - 1
            + hs.last().expected.len() <= l0,
    ensures
        apply_ed_hunks(e.take(l), hs.push(h)) == apply_ed_hunks(e.take(l0), hs) + h.actual,
{
    let hs2 = hs.push(h);
    assert(hs2.drop_last() =~= hs);
    assert(e.take(l).take(l0) =~= e.take(l0));
    assert(e.take(l).skip(l) =~= Seq::<Seq<u8>>::empty());
    assert(apply_ed_hunks(e.take(l0), hs) + h.actual + Seq::<Seq<u8>>::empty() =~= apply_ed_hunks(e.take(l0), hs) + h.actual);
}

/// The groups reported so far, the current one included once it has a change.
pub open spec fn ed_done(st: EdState) -> Seq<EdHunk> {
    if ed_nonempty(st.cur) { st.results.push(st.cur) } else { st.results }
}

/// What the walk over a fitting script keeps true: its position on each side,
/// where the current group ends, that the last group ends before the position,
/// and that the groups so far turn the lines passed on the first side into
/// those passed on the second.
pub open spec fn ed_patch_inv(st: EdState, s: Seq<DiffOp>, k: int, e: Seq<Seq<u8>>, a: Seq<Seq<u8>>) -> bool {
    let done = ed_done(st);
    &&& st.lne == left_count(s.take(k)) + 1
    &&& st.lna == right_count(s.take(k)) + 1
    &&& st.cur.line_number_expected + st.cur.expected.len() == st.lne
    &&& !st.stopped
    &&& done.len() > 0 ==> {
        &&& 1 <= done.last().line_number_expected
        &&& done.last().line_number_expected - 1 + done.last().expected.len() <= st.lne - 1
    }
    &&& apply_ed_hunks(e.take(st.lne - 1), done) == a.take(st.lna - 1)
}

/// One more common line on both sides leaves the groups as they are.
pub proof fn lemma_apply_common(e: Seq<Seq<u8>>, hs: Seq<EdHunk>, l: int)
    requires
        0 <= l < e.len(),
        hs.len() > 0 ==> 1 <= hs.last().line_number_expected && hs.last().line_number_expected - 1 + hs.last().expected.len() <= l,
    ensures
        apply_ed_hunks(e.take(l + 1), hs) == apply_ed_hunks(e.take(l), hs).push(e[l]),
{
    if hs.len() > 0 {
        let h = hs.last();
        let start = h.line_number_expected - 1;
        let end = start + h.expected.len();
        assert(e.take(l + 1).take(start) =~= e.take(l).take(start));
        assert(e.take(l + 1).skip(end) =~= e.take(l).skip(end).push(e[l]));
    } else {
        assert(e.take(l + 1) =~= e.take(l).push(e[l]));
    }
}

/// The last group, ending at line `l`, takes one more line of the first side.
pub proof fn lemma_apply_grow_expected(e: Seq<Seq<u8>>, hs: Seq<EdHunk>, l: int)
    requires
        0 <= l < e.len(),
        hs.len() > 0,
        1 <= hs.last().line_number_expected,
        hs.last().line_number_expected - 1 + hs.last().expected.len() == l,
    ensures
        apply_ed_hunks(e.take(l + 1), hs.drop_last().push(EdHunk { expected: hs.last().expected.push(e[l]), ..hs.last() }))
            == apply_ed_hunks(e.take(l), hs),
{
    let h = hs.last();
    let h2 = EdHunk { expected: h.expected.push(e[l]), ..h };
    let hs2 = hs.drop_last().push(h2);
    assert(hs2.drop_last() =~= hs.drop_last());
    let start = h.line_number_expected - 1;
    assert(e.take(l + 1).take(start) =~= e.take(l).take(start));
    assert(e.take(l + 1).skip(l + 1) =~= Seq::<Seq<u8>>::empty());
    assert(e.take(l).skip(l) =~= Seq::<Seq<u8>>::empty());
}

/// The last group, ending at line `l`, takes one more line of the second side.
pub proof fn lemma_apply_grow_actual(e: Seq<Seq<u8>>, hs: Seq<EdHunk>, l: int, x: Seq<u8>)
    requires
        0 <= l <= e.len(),
        hs.len() > 0,
        1 <= hs.last().line_number_expected,
        hs.last().line_number_expected - 1 + hs.last().expected.len() == l,
    ensures
        apply_ed_hunks(e.take(l), hs.drop_last().push(EdHunk { actual: hs.last().actual.push(x), ..hs.last() }))
            == apply_ed_hunks(e.take(l), hs).push(x),
{
    let h = hs.last();
    let h2 = EdHunk { actual: h.actual.push(x), ..h };
    let hs2 = hs.drop_last().push(h2);
    assert(hs2.drop_last() =~= hs.drop_last());
    assert(e.take(l).skip(l) =~= Seq::<Seq<u8>>::empty());
}

/// A new group at line `l + 1` holding one line of either side.
pub proof fn lemma_apply_new(e: Seq<Seq<u8>>, hs: Seq<EdHunk>, h: EdHunk, l: int)
    requires
        0 <= l <= e.len(),
        h.line_number_expected == l + 1,
        h.expected.len() <= 1,
        h.expected.len() == 1 ==> l < e.len() && h.expected[0] == e[l],
    ensures
        apply_ed_hunks(e.take(l + h.expected.len()), hs.push(h)) == apply_ed_hunks(e.take(l), hs) + h.actual,
{
    let hs2 = hs.push(h);
    assert(hs2.drop_last() =~= hs);
    let m = l + h.expected.len();
    assert(e.take(m).take(l) =~= e.take(l));
    assert(e.take(m).skip(m) =~= Seq::<Seq<u8>>::empty());
}

proof fn lemma_ed_patch_both(st: EdState, s: Seq<DiffOp>, j: int, e: Seq<Seq<u8>>, a: Seq<Seq<u8>>)
    requires
        fits(s, e, a),
        0 <= j < s.len(),
        s[j] == DiffOp::Both,
        ed_patch_inv(st, s, j, e, a),
    ensures
        ed_patch_inv(ed_step(st, s[j], e, a, false), s, j + 1, e, a),
{
    lemma_fits_step(s, e, a, j);
    lemma_count_step(s, j);
    let st2 = ed_step(st, s[j], e, a, false);
    let l = st.lne - 1;
    let r = st.lna - 1;
    let done = ed_done(st);
    assert(e[l] == a[r]);
    lemma_apply_common(e, done, l);
    assert(a.take(r + 1) =~= a.take(r).push(a[r]));
    if ed_nonempty(st.cur) {
        assert(ed_done(st2) == done);
    } else {
        assert(ed_done(st2) == st.results);
    }
}

proof fn lemma_ed_patch_left(st: EdState, s: Seq<DiffOp>, j: int, e: Seq<Seq<u8>>, a: Seq<Seq<u8>>)
    requires
        fits(s, e, a),
        0 <= j < s.len(),
        s[j] == DiffOp::Left,
        ed_patch_inv(st, s, j, e, a),
    ensures
        ed_patch_inv(ed_step(st, s[j], e, a, false), s, j + 1, e, a),
{
    lemma_fits_step(s, e, a, j);
    lemma_count_step(s, j);
    let st2 = ed_step(st, s[j], e, a, false);
    let l = st.lne - 1;
    let done = ed_done(st);
    if st.cur.actual.len() > 0 {
        let h = new_ed_hunk(st.lne, st.lna);
        let h2 = EdHunk { expected: h.expected.push(e[l]), ..h };
        assert(ed_done(st2) == done.push(h2));
        lemma_apply_new(e, done, h2, l);
        assert(apply_ed_hunks(e.take(l), done) + h2.actual =~= apply_ed_hunks(e.take(l), done));
    } else if ed_nonempty(st.cur) {
        assert(ed_done(st2) == done.drop_last().push(EdHunk { expected: done.last().expected.push(e[l]), ..done.last() }));
        lemma_apply_grow_expected(e, done, l);
    } else {
        let h2 = EdHunk { expected: st.cur.expected.push(e[l]), ..st.cur };
        assert(ed_done(st2) == done.push(h2));
        lemma_apply_new(e, done, h2, l);
        assert(apply_ed_hunks(e.take(l), done) + h2.actual =~= apply_ed_hunks(e.take(l), done));
    }
}

proof fn lemma_ed_patch_right(st: EdState, s: Seq<DiffOp>, j: int, e: Seq<Seq<u8>>, a: Seq<Seq<u8>>)
    requires
        fits(s, e, a),
        0 <= j < s.len(),
        s[j] == DiffOp::Right,
        ed_patch_inv(st, s, j, e, a),
    ensures
        ed_patch_inv(ed_step(st, s[j], e, a, false), s, j + 1, e, a),
{
    lemma_fits_step(s, e, a, j);
    lemma_count_step(s, j);
    lemma_count_prefix(s, j);
    let st2 = ed_step(st, s[j], e, a, false);
    let l = st.lne - 1;
    let r = st.lna - 1;
    let done = ed_done(st);
    assert(a.take(r + 1) =~= a.take(r).push(a[r]));
    if ed_nonempty(st.cur) {
        assert(ed_done(st2) == done.drop_last().push(EdHunk { actual: done.last().actual.push(a[r]), ..done.last() }));
        lemma_apply_grow_actual(e, done, l, a[r]);
    } else {
        let h2 = EdHunk { actual: st.cur.actual.push(a[r]), ..st.cur };
        assert(ed_done(st2) == done.push(h2));
        lemma_apply_new(e, done, h2, l);
        assert(h2.actual =~= seq![a[r]]);
        assert(e.take(l + 0) =~= e.take(l));
        assert(a.take(r).push(a[r]) =~= a.take(r) + seq![a[r]]);
        assert(apply_ed_hunks(e.take(l), ed_done(st2)) == a.take(r + 1));
    }
}

/// The walk over a fitting edit script keeps `ed_patch_inv`.
pub proof fn lemma_ed_patch_run(s: Seq<DiffOp>, k: nat, e: Seq<Seq<u8>>, a: Seq<Seq<u8>>)
    requires
        fits(s, e, a),
        k <= s.len(),
    ensures
        ed_patch_inv(ed_run(s, k, e, a, false), s, k as int, e, a),
    decreases k,
{
    if k == 0 {
        assert(s.take(0) =~= Seq::<DiffOp>::empty());
        assert(e.take(0) =~= Seq::<Seq<u8>>::empty());
        assert(a.take(0) =~= Seq::<Seq<u8>>::empty());
    } else {
        let j = (k - 1) as int;
        lemma_ed_patch_run(s, (k - 1) as nat, e, a);
        let st = ed_run(s, (k - 1) as nat, e, a, false);
        match s[j] {
            DiffOp::Both => lemma_ed_patch_both(st, s, j, e, a),
            DiffOp::Left => lemma_ed_patch_left(st, s, j, e, a),
            DiffOp::Right => lemma_ed_patch_right(st, s, j, e, a),
        }
    }
}

/// Applied to the lines of the first side, the groups that the ed format
/// reports for any edit script between two sides give the lines of the
/// second side: the script that the format prints turns the first file into
/// the second.
pub proof fn lemma_ed_patch(s: Seq<DiffOp>, e: Seq<Seq<u8>>, a: Seq<Seq<u8>>)
    requires
        fits(s, e, a),
    ensures
        apply_ed_hunks(e, ed_hunks(s, e, a, false)) == a,
{
    lemma_ed_patch_run(s, s.len(), e, a);
    lemma_take_all(s);
    assert(e.take(e.len() as int) =~= e);
    assert(a.take(a.len() as int) =~= a);
}

#[verifier::rlimit(50)]
proof fn lemma_ed_command_then(h: EdHunk, off: int, body: Seq<u8>)
    requires
        1 <= h.line_number_expected + off,
    ensures
        ({
            let ec = h.expected.len() as int;
            let ac = h.actual.len() as int;
            let l = h.line_number_expected + off;
            let header = if ec == 0 {
                decimal((l - 1) as nat) + seq![97u8]
            } else if ac == 0 {
                pair_text(l, ec + l - 1) + seq![100u8]
            } else if ec == 1 {
                decimal(l as nat) + seq![99u8]
            } else {
                pair_text(l, ec + l - 1) + seq![99u8]
            };
            let t = header + seq![10u8] + body;
            let r = read_range(t);
            &&& ec == 0 ==> t[r.2] == 97u8 && r.0 == l - 1 && r.1 == l - 1
            &&& ec > 0 ==> r.0 == l && r.1 - r.0 + 1 == ec
            &&& ec > 0 && ac == 0 ==> t[r.2] == 100u8
            &&& ec > 0 && ac > 0 ==> t[r.2] == 99u8
            &&& t[r.2 + 1] == 10u8
        }),
{
    let ec = h.expected.len() as int;
    let ac = h.actual.len() as int;
    let l = h.line_number_expected + off;
    if ec == 0 {
        let rest = seq![97u8] + seq![10u8] + body;
        assert(decimal((l - 1) as nat) + seq![97u8] + seq![10u8] + body =~= decimal((l - 1) as nat) + rest);
        lemma_read_number((l - 1) as nat, rest);
    } else if ec == 1 && ac > 0 {
        let rest = seq![99u8] + seq![10u8] + body;
        assert(decimal(l as nat) + seq![99u8] + seq![10u8] + body =~= decimal(l as nat) + rest);
        lemma_read_number(l as nat, rest);
    } else {
        let c: u8 = if ac == 0 { 100u8 } else { 99u8 };
        let rest = seq![c] + seq![10u8] + body;
        assert(pair_text(l, ec + l - 1) + seq![c] + seq![10u8] + body
            =~= decimal(l as nat) + seq![44u8] + decimal((ec + l - 1) as nat) + rest);
        lemma_read_pair(l as nat, (ec + l - 1) as nat, rest);
    }
}

/// The command of a group names the lines it works on: read back, a
/// deletion `S,Ed` or a change `S,Ec` (or `Sc` for one line) spans exactly
/// the group's removed lines, from its first line `S` (moved by the commands
/// of the earlier groups) on, `E - S + 1` of them; an addition `La` names the
/// line after which the new lines go; the command ends its line.
pub proof fn lemma_ed_command_ranges(h: EdHunk, off: int, expand: bool, tabsize: nat)
    requires
        1 <= h.line_number_expected + off,
    ensures
        ({
            let ec = h.expected.len() as int;
            let ac = h.actual.len() as int;
            let l = h.line_number_expected + off;
            let t = ed_hunk_text(h, off, expand, tabsize);
            let r = read_range(t);
            &&& ec == 0 ==> t[r.2] == 97u8 && r.0 == l - 1 && r.1 == l - 1
            &&& ec > 0 ==> r.0 == l && r.1 - r.0 + 1 == ec
            &&& ec > 0 && ac == 0 ==> t[r.2] == 100u8
            &&& ec > 0 && ac > 0 ==> t[r.2] == 99u8
            &&& t[r.2 + 1] == 10u8
        }),
{
    let ac = h.actual.len() as int;
    let body = if ac != 0 {
        ed_insert_lines(h.actual, expand, tabsize) + seq![46u8, 10]
    } else {
        Seq::<u8>::empty()
    };
    lemma_ed_command_then(h, off, body);
}

} // verus!
