//! Applying the hunks of the context format as a patch: each hunk replaces the
//! lines of its first part (context, changed and removed lines) by the lines of
//! its second part. Applied to the first side, the hunks give the second side.

use vstd::prelude::*;
use crate::ed_diff::{EdHunk, apply_ed_hunks, lemma_apply_tail, lemma_apply_extend, lemma_apply_new_at};
use crate::script::{DiffOp, fits, left_count, right_count, lemma_fits_step, lemma_count_step, lemma_take_all};
use crate::context_diff::{CLine, CHunk, CState, c_step, c_run, c_hunks, c_init, cflush, cnew, ccontext, marked,
    mark_context, empty_chunk};

verus! {

/// The text of a line of a context hunk, whatever its mark.
pub open spec fn cline_text(l: CLine) -> Seq<u8> {
    match l {
        CLine::Context(x) => x,
        CLine::Change(x) => x,
        CLine::Add(x) => x,
    }
}

/// The texts of the lines of one part of a hunk.
pub open spec fn ctexts(ls: Seq<CLine>) -> Seq<Seq<u8>> {
    Seq::new(ls.len(), |i: int| cline_text(ls[i]))
}

/// A hunk as a replacement of lines from its first line on.
pub open spec fn c_replacement(h: CHunk) -> EdHunk {
    EdHunk { line_number_expected: h.lne, line_number_actual: h.lna, expected: ctexts(h.expected), actual: ctexts(h.actual) }
}

pub open spec fn c_replacements(hs: Seq<CHunk>) -> Seq<EdHunk> {
    Seq::new(hs.len(), |i: int| c_replacement(hs[i]))
}

/// The hunks that the walk has completed or started (the placeholder before
/// the first change left out).
pub open spec fn c_done(st: CState) -> Seq<CHunk> {
    st.results.push(st.cur).drop_first()
}

/// The end of the current hunk on the first side.
pub open spec fn c_end(st: CState) -> int {
    st.cur.lne - 1 + st.cur.expected.len()
}

/// Whether a line remains on either side.
pub open spec fn c_lines_left(st: CState, e: Seq<Seq<u8>>, a: Seq<Seq<u8>>) -> bool {
    st.lne - 1 < e.len() || st.lna - 1 < a.len()
}

/// What the walk over a fitting script keeps true: its position on each side;
/// while lines remain, the held-back lines are the last lines passed on the
/// first side, the gap after the current hunk holds them (exactly, while there
/// is room for more), and no gap follows the hunk right after a change or
/// within the context; and the hunks so far turn the lines passed on the first
/// side into those passed on the second.
pub open spec fn c_patch_inv(st: CState, s: Seq<DiffOp>, k: int, e: Seq<Seq<u8>>, a: Seq<Seq<u8>>, cs: int) -> bool {
    let q = st.queue.len() as int;
    let l = st.lne - 1;
    let r = st.lna - 1;
    &&& l == left_count(s.take(k))
    &&& r == right_count(s.take(k))
    &&& 0 <= l <= e.len()
    &&& 0 <= r <= a.len()
    &&& c_lines_left(st, e, a) ==> {
        &&& q <= l
        &&& q <= cs
        &&& st.queue == e.subrange(l - q, l)
        &&& st.results.len() == 0 ==> st.since > cs
    }
    &&& st.results.len() > 0 ==> {
        &&& 1 <= st.cur.lne
        &&& c_end(st) <= l
        &&& c_lines_left(st, e, a) ==> {
            &&& q <= l - c_end(st)
            &&& q < cs ==> q == l - c_end(st)
            &&& (st.since <= cs || st.since == 0) ==> c_end(st) == l
        }
    }
    &&& apply_ed_hunks(e.take(l), c_replacements(c_done(st))) == a.take(r)
}

proof fn lemma_ctexts_push(ls: Seq<CLine>, x: CLine)
    ensures
        ctexts(ls.push(x)) == ctexts(ls).push(cline_text(x)),
{
    assert(ctexts(ls.push(x)) =~= ctexts(ls).push(cline_text(x)));
}

proof fn lemma_ctexts_context(ls: Seq<CLine>, q: Seq<Seq<u8>>)
    ensures
        ctexts(ls + ccontext(q)) == ctexts(ls) + q,
        (ls + ccontext(q)).len() == ls.len() + q.len(),
{
    assert(ctexts(ls + ccontext(q)) =~= ctexts(ls) + q);
}

proof fn lemma_c_replacements_last(hs: Seq<CHunk>, h: CHunk)
    requires
        hs.len() > 0,
    ensures
        c_replacements(hs.drop_last().push(h)) == c_replacements(hs).drop_last().push(c_replacement(h)),
        c_replacements(hs).last() == c_replacement(hs.last()),
{
    assert(c_replacements(hs.drop_last().push(h)) =~= c_replacements(hs).drop_last().push(c_replacement(h)));
}

/// What a change finds once the held-back lines have joined the current hunk
/// (a new one, when the last change lies far enough back): the hunk ends at
/// the position, and the patch is the same.
pub open spec fn c_started(s1: CState, st: CState, e: Seq<Seq<u8>>, a: Seq<Seq<u8>>) -> bool {
    &&& s1.lne == st.lne
    &&& s1.lna == st.lna
    &&& s1.queue.len() == 0
    &&& s1.results.len() > 0
    &&& 1 <= s1.cur.lne
    &&& c_end(s1) == st.lne - 1
    &&& apply_ed_hunks(e.take(st.lne - 1), c_replacements(c_done(s1))) == a.take(st.lna - 1)
}

proof fn lemma_c_new(st: CState, s: Seq<DiffOp>, k: int, e: Seq<Seq<u8>>, a: Seq<Seq<u8>>, cs: int, x: int)
    requires
        cs >= 0,
        c_patch_inv(st, s, k, e, a, cs),
        c_lines_left(st, e, a),
        st.since >= cs,
        st.since > 0,
    ensures
        c_started(cflush(CState { idx: x, ..cnew(st) }), st, e, a),
        cflush(CState { idx: x, ..cnew(st) }).since == st.since,
{
    let l = st.lne - 1;
    let q = st.queue.len() as int;
    let s0 = CState { idx: x, ..cnew(st) };
    let s1 = cflush(s0);
    let c2 = s1.cur;
    let done = c_done(st);
    assert(empty_chunk(st.lne - q, st.lna - q).expected + ccontext(st.queue) =~= ccontext(st.queue));
    assert(empty_chunk(st.lne - q, st.lna - q).actual + ccontext(st.queue) =~= ccontext(st.queue));
    assert(s1.results == st.results.push(st.cur));
    assert(c_done(s1) =~= done.push(c2));
    assert(c_replacements(done.push(c2)) =~= c_replacements(done).push(c_replacement(c2)));
    assert(ctexts(ccontext(st.queue)) =~= st.queue);
    let reps = c_replacements(done);
    if st.results.len() > 0 {
        assert(done.last() == st.cur);
        assert(reps.last() == c_replacement(st.cur));
    } else {
        assert(done =~= Seq::<CHunk>::empty());
    }
    lemma_apply_new_at(e, reps, c_replacement(c2), l - q, l);
    lemma_apply_tail(e, reps, l - q, l);
}

proof fn lemma_c_cont(st: CState, s: Seq<DiffOp>, k: int, e: Seq<Seq<u8>>, a: Seq<Seq<u8>>, cs: int)
    requires
        cs >= 0,
        c_patch_inv(st, s, k, e, a, cs),
        c_lines_left(st, e, a),
        st.since <= cs || st.since == 0,
    ensures
        c_started(cflush(st), st, e, a),
        cflush(st).since == st.since,
{
    assert(st.results.len() > 0);
    assert(st.queue.len() == 0);
    assert(st.cur.expected + ccontext(st.queue) =~= st.cur.expected);
    assert(st.cur.actual + ccontext(st.queue) =~= st.cur.actual);
    assert(cflush(st).cur == st.cur);
    assert(c_done(cflush(st)) == c_done(st));
}

proof fn lemma_c_left(st: CState, s: Seq<DiffOp>, j: int, e: Seq<Seq<u8>>, a: Seq<Seq<u8>>, ec: int, ac: int, cs: int)
    requires
        fits(s, e, a),
        0 <= j < s.len(),
        s[j] == DiffOp::Left,
        cs >= 0,
        c_patch_inv(st, s, j, e, a, cs),
    ensures
        c_patch_inv(c_step(st, s[j], e, a, ec, ac, cs), s, j + 1, e, a, cs),
{
    lemma_fits_step(s, e, a, j);
    lemma_count_step(s, j);
    let l = st.lne - 1;
    let line = e[l];
    let s0 = if st.since > cs && st.since > 0 { cnew(st) } else { st };
    if st.since > cs && st.since > 0 {
        lemma_c_new(st, s, j, e, a, cs, st.idx);
        assert(CState { idx: st.idx, ..cnew(st) } == cnew(st));
    } else {
        lemma_c_cont(st, s, j, e, a, cs);
    }
    let s1 = cflush(s0);
    let c2 = CHunk { expected: s1.cur.expected.push(CLine::Add(line)), enl: if st.lne > ec { true } else { s1.cur.enl }, ..s1.cur };
    let st2 = c_step(st, s[j], e, a, ec, ac, cs);
    assert(st2.cur == c2);
    assert(st2.results == s1.results);
    let d1 = c_done(s1);
    assert(c_done(st2) =~= d1.drop_last().push(c2));
    let reps1 = c_replacements(d1);
    assert(d1.last() == s1.cur);
    lemma_c_replacements_last(d1, c2);
    lemma_ctexts_push(s1.cur.expected, CLine::Add(line));
    assert(e.subrange(l, l + 1) =~= seq![line]);
    assert(ctexts(s1.cur.expected).push(line) =~= ctexts(s1.cur.expected) + seq![line]);
    assert(ctexts(s1.cur.actual) =~= ctexts(s1.cur.actual) + Seq::<Seq<u8>>::empty());
    assert(c_replacement(c2) == EdHunk { expected: reps1.last().expected + e.subrange(l, l + 1), actual: reps1.last().actual + Seq::<Seq<u8>>::empty(), ..reps1.last() });
    lemma_apply_extend(e, reps1, l, 1, Seq::empty());
    assert(apply_ed_hunks(e.take(l), reps1) + Seq::<Seq<u8>>::empty() =~= apply_ed_hunks(e.take(l), reps1));
    assert(st2.queue =~= e.subrange(l + 1, l + 1));
}

proof fn lemma_c_right(st: CState, s: Seq<DiffOp>, j: int, e: Seq<Seq<u8>>, a: Seq<Seq<u8>>, ec: int, ac: int, cs: int)
    requires
        fits(s, e, a),
        0 <= j < s.len(),
        s[j] == DiffOp::Right,
        cs >= 0,
        c_patch_inv(st, s, j, e, a, cs),
    ensures
        c_patch_inv(c_step(st, s[j], e, a, ec, ac, cs), s, j + 1, e, a, cs),
{
    lemma_fits_step(s, e, a, j);
    lemma_count_step(s, j);
    let l = st.lne - 1;
    let r = st.lna - 1;
    let line = a[r];
    let s0 = if st.since > cs && st.since > 0 { CState { idx: usize::MAX as int, ..cnew(st) } } else { st };
    if st.since > cs && st.since > 0 {
        lemma_c_new(st, s, j, e, a, cs, usize::MAX as int);
    } else {
        lemma_c_cont(st, s, j, e, a, cs);
    }
    let s1 = cflush(s0);
    let ex = s1.cur.expected;
    let st2 = c_step(st, s[j], e, a, ec, ac, cs);
    assert(st2.results == s1.results);
    assert(st2.cur.lne == s1.cur.lne && st2.cur.lna == s1.cur.lna);
    assert(st2.cur.actual == s1.cur.actual.push(st2.cur.actual.last()));
    assert(cline_text(st2.cur.actual.last()) == line);
    assert(ctexts(st2.cur.expected) =~= ctexts(ex));
    lemma_ctexts_push(s1.cur.actual, st2.cur.actual.last());
    let c2 = st2.cur;
    let d1 = c_done(s1);
    assert(c_done(st2) =~= d1.drop_last().push(c2));
    let reps1 = c_replacements(d1);
    assert(d1.last() == s1.cur);
    lemma_c_replacements_last(d1, c2);
    assert(e.subrange(l, l + 0) =~= Seq::<Seq<u8>>::empty());
    assert(ctexts(ex) + Seq::<Seq<u8>>::empty() =~= ctexts(ex));
    assert(ctexts(s1.cur.actual).push(line) =~= ctexts(s1.cur.actual) + seq![line]);
    assert(c_replacement(c2) == EdHunk { expected: reps1.last().expected + e.subrange(l, l + 0), actual: reps1.last().actual + seq![line], ..reps1.last() });
    lemma_apply_extend(e, reps1, l, 0, seq![line]);
    assert(a.take(r + 1) =~= a.take(r) + seq![line]);
}

proof fn lemma_c_both_change(st: CState, s: Seq<DiffOp>, j: int, e: Seq<Seq<u8>>, a: Seq<Seq<u8>>, ec: int, ac: int, cs: int)
    requires
        fits(s, e, a),
        0 <= j < s.len(),
        s[j] == DiffOp::Both,
        cs >= 0,
        e.len() <= ec + 1,
        a.len() <= ac + 1,
        c_patch_inv(st, s, j, e, a, cs),
        (st.lna > ac) != (st.lne > ec),
    ensures
        c_patch_inv(c_step(st, s[j], e, a, ec, ac, cs), s, j + 1, e, a, cs),
{
    lemma_fits_step(s, e, a, j);
    lemma_count_step(s, j);
    let l = st.lne - 1;
    let r = st.lna - 1;
    let line = e[l];
    assert(line == a[r]);
    assert(a.take(r + 1) =~= a.take(r) + seq![line]);
    assert(e.subrange(l, l + 1) =~= seq![line]);
    assert(e.subrange(l + 1, l + 1) =~= Seq::<Seq<u8>>::empty());
    let ex = st.lne > ec;
    let ax = st.lna > ac;
    let st0 = CState { idx: usize::MAX as int, ..st };
    let st2 = c_step(st, s[j], e, a, ec, ac, cs);
    let done = c_done(st);
    let reps = c_replacements(done);
    let q = st.queue.len() as int;
    if st.results.len() > 0 {
        assert(done.last() == st.cur);
        assert(reps.last() == c_replacement(st.cur));
    } else {
        assert(done =~= Seq::<CHunk>::empty());
    }
    assert(c_done(st0) == done);
    let s0 = if st.since >= cs && st.since > 0 { cnew(st0) } else { st0 };
    if st.since >= cs && st.since > 0 {
        lemma_c_new(st, s, j, e, a, cs, usize::MAX as int);
        assert(cnew(st0) == CState { idx: usize::MAX as int, ..cnew(st) });
    } else {
        lemma_c_cont(st0, s, j, e, a, cs);
    }
    let s1 = cflush(s0);
    let c2 = st2.cur;
    assert(c2.expected == s1.cur.expected.push(CLine::Change(line)));
    assert(c2.actual == s1.cur.actual.push(CLine::Change(line)));
    assert(c2.lne == s1.cur.lne);
    lemma_ctexts_push(s1.cur.expected, CLine::Change(line));
    lemma_ctexts_push(s1.cur.actual, CLine::Change(line));
    let d1 = c_done(s1);
    assert(st2.results == s1.results);
    assert(c_done(st2) =~= d1.drop_last().push(c2));
    let reps1 = c_replacements(d1);
    assert(d1.last() == s1.cur);
    lemma_c_replacements_last(d1, c2);
    assert(ctexts(s1.cur.expected).push(line) =~= ctexts(s1.cur.expected) + e.subrange(l, l + 1));
    assert(ctexts(s1.cur.actual).push(line) =~= ctexts(s1.cur.actual) + seq![line]);
    assert(c_replacement(c2) == EdHunk { expected: reps1.last().expected + e.subrange(l, l + 1), actual: reps1.last().actual + seq![line], ..reps1.last() });
    lemma_apply_extend(e, reps1, l, 1, seq![line]);
    if ex {
        assert(l + 1 == e.len());
    }
}

proof fn lemma_c_both_last(st: CState, s: Seq<DiffOp>, j: int, e: Seq<Seq<u8>>, a: Seq<Seq<u8>>, ec: int, ac: int, cs: int)
    requires
        fits(s, e, a),
        0 <= j < s.len(),
        s[j] == DiffOp::Both,
        cs >= 0,
        e.len() <= ec + 1,
        a.len() <= ac + 1,
        c_patch_inv(st, s, j, e, a, cs),
        st.lne > ec && st.lna > ac,
    ensures
        c_patch_inv(c_step(st, s[j], e, a, ec, ac, cs), s, j + 1, e, a, cs),
{
    lemma_fits_step(s, e, a, j);
    lemma_count_step(s, j);
    let l = st.lne - 1;
    let r = st.lna - 1;
    let line = e[l];
    assert(line == a[r]);
    assert(a.take(r + 1) =~= a.take(r) + seq![line]);
    assert(e.subrange(l, l + 1) =~= seq![line]);
    assert(e.subrange(l + 1, l + 1) =~= Seq::<Seq<u8>>::empty());
    let ex = st.lne > ec;
    let ax = st.lna > ac;
    let st0 = CState { idx: usize::MAX as int, ..st };
    let st2 = c_step(st, s[j], e, a, ec, ac, cs);
    let done = c_done(st);
    let reps = c_replacements(done);
    let q = st.queue.len() as int;
    if st.results.len() > 0 {
        assert(done.last() == st.cur);
        assert(reps.last() == c_replacement(st.cur));
    } else {
        assert(done =~= Seq::<CHunk>::empty());
    }
    assert(c_done(st0) == done);
    assert(l + 1 == e.len() && r + 1 == a.len());
    if q < cs {
        let t = if st.since < cs { 1int } else { 0int };
        let f = cflush(st0);
        let c2 = st2.cur;
        assert(st2.results == st.results);
        lemma_ctexts_context(st.cur.expected, st.queue);
        lemma_ctexts_context(st.cur.actual, st.queue);
        if st.results.len() > 0 {
            assert(q == l - c_end(st));
            let ys = if t == 1 { st.queue.push(line) } else { st.queue };
            if t == 1 {
                assert(c_end(st) == l);
                lemma_ctexts_push(f.cur.expected, CLine::Context(line));
                lemma_ctexts_push(f.cur.actual, CLine::Context(line));
                assert(ctexts(c2.expected) =~= ctexts(st.cur.expected) + e.subrange(l - q, l + 1));
                assert(ctexts(c2.actual) =~= ctexts(st.cur.actual) + ys);
            } else {
                assert(ctexts(c2.expected) =~= ctexts(st.cur.expected) + e.subrange(l - q, l));
                assert(ctexts(c2.actual) =~= ctexts(st.cur.actual) + ys);
            }
            assert(c_done(st2) =~= done.drop_last().push(c2));
            lemma_c_replacements_last(done, c2);
            assert(c_replacement(c2) == EdHunk { expected: reps.last().expected + e.subrange(l - q, l - q + (q + t)), actual: reps.last().actual + ys, ..reps.last() });
            lemma_apply_extend(e, reps, l - q, q + t, ys);
            lemma_apply_tail(e, reps, l - q, l);
            if t == 1 {
                assert(apply_ed_hunks(e.take(l - q), reps) + ys =~= apply_ed_hunks(e.take(l - q), reps) + e.subrange(l - q, l) + seq![line]);
            } else {
                let reps2 = c_replacements(c_done(st2));
                assert(reps2.last() == c_replacement(c2));
                lemma_apply_tail(e, reps2, l, l + 1);
            }
        } else {
            assert(c_done(st2) =~= Seq::<CHunk>::empty());
            assert(e.take(l + 1) =~= e.take(l) + seq![line]);
        }
    } else {
        assert(st2.results == st.results && st2.cur == st.cur);
        assert(c_done(st2) == done);
        lemma_apply_tail(e, reps, l, l + 1);
    }
}

proof fn lemma_c_both_common(st: CState, s: Seq<DiffOp>, j: int, e: Seq<Seq<u8>>, a: Seq<Seq<u8>>, ec: int, ac: int, cs: int)
    requires
        fits(s, e, a),
        0 <= j < s.len(),
        s[j] == DiffOp::Both,
        cs >= 0,
        e.len() <= ec + 1,
        a.len() <= ac + 1,
        c_patch_inv(st, s, j, e, a, cs),
        st.lne <= ec && st.lna <= ac,
    ensures
        c_patch_inv(c_step(st, s[j], e, a, ec, ac, cs), s, j + 1, e, a, cs),
{
    lemma_fits_step(s, e, a, j);
    lemma_count_step(s, j);
    let l = st.lne - 1;
    let r = st.lna - 1;
    let line = e[l];
    assert(line == a[r]);
    assert(a.take(r + 1) =~= a.take(r) + seq![line]);
    assert(e.subrange(l, l + 1) =~= seq![line]);
    assert(e.subrange(l + 1, l + 1) =~= Seq::<Seq<u8>>::empty());
    let ex = st.lne > ec;
    let ax = st.lna > ac;
    let st0 = CState { idx: usize::MAX as int, ..st };
    let st2 = c_step(st, s[j], e, a, ec, ac, cs);
    let done = c_done(st);
    let reps = c_replacements(done);
    let q = st.queue.len() as int;
    if st.results.len() > 0 {
        assert(done.last() == st.cur);
        assert(reps.last() == c_replacement(st.cur));
    } else {
        assert(done =~= Seq::<CHunk>::empty());
    }
    assert(c_done(st0) == done);
    let q0 = if st.queue.len() >= cs && st.queue.len() > 0 { st.queue.drop_first() } else { st.queue };
    if st.since < cs {
        assert(st.results.len() > 0);
        assert(c_end(st) == l);
        assert(q == 0);
        let c2 = st2.cur;
        lemma_ctexts_push(st.cur.expected, CLine::Context(line));
        lemma_ctexts_push(st.cur.actual, CLine::Context(line));
        assert(c_done(st2) =~= done.drop_last().push(c2));
        lemma_c_replacements_last(done, c2);
        assert(ctexts(st.cur.expected).push(line) =~= ctexts(st.cur.expected) + e.subrange(l, l + 1));
        assert(ctexts(st.cur.actual).push(line) =~= ctexts(st.cur.actual) + seq![line]);
        assert(c_replacement(c2) == EdHunk { expected: reps.last().expected + e.subrange(l, l + 1), actual: reps.last().actual + seq![line], ..reps.last() });
        lemma_apply_extend(e, reps, l, 1, seq![line]);
        assert(st2.queue =~= Seq::<Seq<u8>>::empty());
    } else {
        assert(st2.results == st.results && st2.cur == st.cur);
        assert(c_done(st2) == done);
        lemma_apply_tail(e, reps, l, l + 1);
        if cs > 0 {
            assert(st2.queue == q0.push(line));
            if q >= cs {
                assert(q0 =~= e.subrange(l - q + 1, l));
            } else {
                assert(q0 == st.queue);
            }
            assert(st2.queue =~= e.subrange(l + 1 - st2.queue.len(), l + 1));
        } else {
            assert(q == 0);
            assert(st2.queue =~= Seq::<Seq<u8>>::empty());
        }
    }
}

proof fn lemma_c_both(st: CState, s: Seq<DiffOp>, j: int, e: Seq<Seq<u8>>, a: Seq<Seq<u8>>, ec: int, ac: int, cs: int)
    requires
        fits(s, e, a),
        0 <= j < s.len(),
        s[j] == DiffOp::Both,
        cs >= 0,
        e.len() <= ec + 1,
        a.len() <= ac + 1,
        c_patch_inv(st, s, j, e, a, cs),
    ensures
        c_patch_inv(c_step(st, s[j], e, a, ec, ac, cs), s, j + 1, e, a, cs),
{
    if (st.lna > ac) != (st.lne > ec) {
        lemma_c_both_change(st, s, j, e, a, ec, ac, cs);
    } else if st.lne > ec && st.lna > ac {
        lemma_c_both_last(st, s, j, e, a, ec, ac, cs);
    } else {
        lemma_c_both_common(st, s, j, e, a, ec, ac, cs);
    }
}

/// The walk over a fitting edit script keeps `c_patch_inv`.
proof fn lemma_c_patch_run(s: Seq<DiffOp>, k: nat, e: Seq<Seq<u8>>, a: Seq<Seq<u8>>, ec: int, ac: int, cs: int)
    requires
        fits(s, e, a),
        k <= s.len(),
        cs >= 0,
        e.len() <= ec + 1,
        a.len() <= ac + 1,
    ensures
        c_patch_inv(c_run(s, k, e, a, ec, ac, cs), s, k as int, e, a, cs),
    decreases k,
{
    if k == 0 {
        assert(s.take(0) =~= Seq::<DiffOp>::empty());
        assert(e.take(0) =~= Seq::<Seq<u8>>::empty());
        assert(a.take(0) =~= Seq::<Seq<u8>>::empty());
        let st = c_init(cs);
        assert(c_done(st) =~= Seq::<CHunk>::empty());
        assert(c_replacements(Seq::<CHunk>::empty()) =~= Seq::<EdHunk>::empty());
        assert(e.subrange(0, 0) =~= Seq::<Seq<u8>>::empty());
    } else {
        let j = (k - 1) as int;
        lemma_c_patch_run(s, (k - 1) as nat, e, a, ec, ac, cs);
        let st = c_run(s, (k - 1) as nat, e, a, ec, ac, cs);
        match s[j] {
            DiffOp::Both => lemma_c_both(st, s, j, e, a, ec, ac, cs),
            DiffOp::Left => lemma_c_left(st, s, j, e, a, ec, ac, cs),
            DiffOp::Right => lemma_c_right(st, s, j, e, a, ec, ac, cs),
        }
    }
}

/// Applied to the lines of the first side, the hunks that the context format
/// reports for any edit script between two sides give the lines of the second
/// side: patching the first file with the diff gives the second. (`ec` and
/// `ac` count the lines that end in a newline; at most the last line of each
/// side lacks one.)
pub proof fn lemma_context_patch(s: Seq<DiffOp>, e: Seq<Seq<u8>>, a: Seq<Seq<u8>>, ec: int, ac: int, cs: int)
    requires
        fits(s, e, a),
        cs >= 0,
        0 <= ec <= e.len() <= ec + 1,
        0 <= ac <= a.len() <= ac + 1,
    ensures
        apply_ed_hunks(e, c_replacements(c_hunks(s, e, a, ec, ac, cs))) == a,
{
    lemma_c_patch_run(s, s.len(), e, a, ec, ac, cs);
    lemma_take_all(s);
    assert(e.take(e.len() as int) =~= e);
    assert(a.take(a.len() as int) =~= a);
    let st = c_run(s, s.len(), e, a, ec, ac, cs);
    let rr = st.results.push(st.cur).drop_first();
    assert(rr == c_done(st));
    let r2 = if rr.len() == 0 && ec != ac {
        if ec != e.len() {
            seq![CHunk { expected: seq![CLine::Change(e.last())], actual: seq![CLine::Change(a.last())], enl: true, ..empty_chunk(e.len() as int, a.len() as int) }]
        } else if ac != a.len() {
            seq![CHunk { expected: seq![CLine::Change(e.last())], actual: seq![CLine::Change(a.last())], anl: true, ..empty_chunk(e.len() as int, a.len() as int) }]
        } else {
            rr
        }
    } else {
        rr
    };
    assert(c_hunks(s, e, a, ec, ac, cs) == marked(r2));
    assert(c_replacements(marked(r2)) =~= c_replacements(r2));
    if rr.len() == 0 && ec != ac {
        assert(c_replacements(rr) =~= Seq::<EdHunk>::empty());
        assert(e == a);
        if ec != e.len() || ac != a.len() {
            let h = r2[0];
            assert(r2 == seq![h]);
            let hs = c_replacements(seq![h]);
            reveal_with_fuel(apply_ed_hunks, 2);
            assert(hs.drop_last() =~= Seq::<EdHunk>::empty());
            assert(hs.last() == c_replacement(h));
            assert(ctexts(h.expected) =~= seq![e.last()]);
            assert(ctexts(h.actual) =~= seq![a.last()]);
            assert(e.take(e.len() - 1) + seq![a.last()] + e.skip(e.len() as int) =~= a);
        }
    }
}

} // verus!
