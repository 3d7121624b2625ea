//! Applying the hunks of the unified format as a patch: each hunk replaces its
//! lines of the first side (context and removed lines) by its lines of the
//! second side (context and added lines). Applied to the first side, the hunks
//! give the second side.

use vstd::prelude::*;
use crate::ed_diff::{EdHunk, apply_ed_hunks, lemma_apply_tail, lemma_apply_extend, lemma_apply_new_at};
use crate::script::{DiffOp, fits, left_count, right_count, lemma_fits_step, lemma_count_step, lemma_take_all};
use crate::unified_diff::{ULine, UHunk, UState, u_step, u_run, u_hunks, u_init, start_change,
    context_lines, missing_if, empty_hunk};

verus! {

/// The lines of the first side that a hunk covers: its context and removed
/// lines, in order.
pub open spec fn old_side(ls: Seq<ULine>) -> Seq<Seq<u8>>
    decreases ls.len(),
{
    if ls.len() == 0 {
        Seq::empty()
    } else {
        let r = old_side(ls.drop_last());
        match ls.last() {
            ULine::Context(x) => r.push(x),
            ULine::Expected(x) => r.push(x),
            _ => r,
        }
    }
}

/// The lines of the second side that a hunk gives: its context and added
/// lines, in order.
pub open spec fn new_side(ls: Seq<ULine>) -> Seq<Seq<u8>>
    decreases ls.len(),
{
    if ls.len() == 0 {
        Seq::empty()
    } else {
        let r = new_side(ls.drop_last());
        match ls.last() {
            ULine::Context(x) => r.push(x),
            ULine::Actual(x) => r.push(x),
            _ => r,
        }
    }
}

/// A hunk as a replacement of lines from its first line on.
pub open spec fn u_replacement(h: UHunk) -> EdHunk {
    EdHunk { line_number_expected: h.lne, line_number_actual: h.lna, expected: old_side(h.lines), actual: new_side(h.lines) }
}

pub open spec fn u_replacements(hs: Seq<UHunk>) -> Seq<EdHunk> {
    Seq::new(hs.len(), |i: int| u_replacement(hs[i]))
}

/// The hunks that the walk has completed or started (the placeholder before
/// the first change left out).
pub open spec fn u_done(st: UState) -> Seq<UHunk> {
    st.results.push(st.cur).drop_first()
}

proof fn lemma_sides_concat(x: Seq<ULine>, y: Seq<ULine>)
    ensures
        old_side(x + y) == old_side(x) + old_side(y),
        new_side(x + y) == new_side(x) + new_side(y),
    decreases y.len(),
{
    if y.len() == 0 {
        assert(x + y =~= x);
        assert(old_side(x) + old_side(y) =~= old_side(x));
        assert(new_side(x) + new_side(y) =~= new_side(x));
    } else {
        lemma_sides_concat(x, y.drop_last());
        assert((x + y).drop_last() =~= x + y.drop_last());
        assert((x + y).last() == y.last());
        match y.last() {
            ULine::Context(v) => {
                assert(old_side(x) + old_side(y.drop_last()).push(v) =~= (old_side(x) + old_side(y.drop_last())).push(v));
                assert(new_side(x) + new_side(y.drop_last()).push(v) =~= (new_side(x) + new_side(y.drop_last())).push(v));
            },
            ULine::Expected(v) => {
                assert(old_side(x) + old_side(y.drop_last()).push(v) =~= (old_side(x) + old_side(y.drop_last())).push(v));
            },
            ULine::Actual(v) => {
                assert(new_side(x) + new_side(y.drop_last()).push(v) =~= (new_side(x) + new_side(y.drop_last())).push(v));
            },
            ULine::MissingNL => {},
        }
    }
}

proof fn lemma_sides_context(q: Seq<Seq<u8>>)
    ensures
        old_side(context_lines(q)) == q,
        new_side(context_lines(q)) == q,
    decreases q.len(),
{
    if q.len() > 0 {
        lemma_sides_context(q.drop_last());
        assert(context_lines(q).drop_last() =~= context_lines(q.drop_last()));
    } else {
        assert(context_lines(q) =~= Seq::<ULine>::empty());
    }
}

proof fn lemma_sides_small(x: Seq<u8>)
    ensures
        old_side(seq![ULine::Expected(x)]) == seq![x],
        new_side(seq![ULine::Expected(x)]) == Seq::<Seq<u8>>::empty(),
        old_side(seq![ULine::Actual(x)]) == Seq::<Seq<u8>>::empty(),
        new_side(seq![ULine::Actual(x)]) == seq![x],
        old_side(seq![ULine::Context(x)]) == seq![x],
        new_side(seq![ULine::Context(x)]) == seq![x],
        old_side(seq![ULine::MissingNL]) == Seq::<Seq<u8>>::empty(),
        new_side(seq![ULine::MissingNL]) == Seq::<Seq<u8>>::empty(),
{
    reveal_with_fuel(old_side, 2);
    reveal_with_fuel(new_side, 2);
    assert(seq![ULine::Expected(x)].drop_last() =~= Seq::<ULine>::empty());
    assert(seq![ULine::Actual(x)].drop_last() =~= Seq::<ULine>::empty());
    assert(seq![ULine::Context(x)].drop_last() =~= Seq::<ULine>::empty());
    assert(seq![ULine::MissingNL].drop_last() =~= Seq::<ULine>::empty());
    assert(Seq::<Seq<u8>>::empty().push(x) =~= seq![x]);
}

proof fn lemma_sides_missing(b: bool)
    ensures
        old_side(missing_if(b)) == Seq::<Seq<u8>>::empty(),
        new_side(missing_if(b)) == Seq::<Seq<u8>>::empty(),
{
    lemma_sides_small(Seq::empty());
    if !b {
        assert(missing_if(b) =~= Seq::<ULine>::empty());
    }
}

proof fn lemma_replacements_push(hs: Seq<UHunk>, h: UHunk)
    ensures
        u_replacements(hs.push(h)) == u_replacements(hs).push(u_replacement(h)),
{
    assert(u_replacements(hs.push(h)) =~= u_replacements(hs).push(u_replacement(h)));
}

proof fn lemma_replacements_last(hs: Seq<UHunk>, h: UHunk)
    requires
        hs.len() > 0,
    ensures
        u_replacements(hs.drop_last().push(h)) == u_replacements(hs).drop_last().push(u_replacement(h)),
        u_replacements(hs).last() == u_replacement(hs.last()),
{
    assert(u_replacements(hs.drop_last().push(h)) =~= u_replacements(hs).drop_last().push(u_replacement(h)));
}

/// The end of the current hunk on the first side.
pub open spec fn cur_end(st: UState) -> int {
    st.cur.lne - 1 + old_side(st.cur.lines).len()
}

/// Whether a line remains on either side.
pub open spec fn lines_left(st: UState, e: Seq<Seq<u8>>, a: Seq<Seq<u8>>) -> bool {
    st.lne - 1 < e.len() || st.lna - 1 < a.len()
}

/// What the walk over a fitting script keeps true: its position on each side;
/// while lines remain, the held-back lines are the last lines passed on the
/// first side, the gap after the current hunk holds them (exactly, while there
/// is room for more), and no gap follows the hunk right after a change or
/// within the context; a hunk ending in a missing-newline mark while the first
/// side has lines left ends with an added line before it; and the hunks so far
/// turn the lines passed on the first side into those passed on the second.
pub open spec fn u_patch_inv(st: UState, s: Seq<DiffOp>, k: int, e: Seq<Seq<u8>>, a: Seq<Seq<u8>>, cs: int) -> bool {
    let q = st.queue.len() as int;
    let l = st.lne - 1;
    let r = st.lna - 1;
    let c = st.cur;
    &&& l == left_count(s.take(k))
    &&& r == right_count(s.take(k))
    &&& 0 <= l <= e.len()
    &&& 0 <= r <= a.len()
    &&& !st.stopped
    &&& lines_left(st, e, a) ==> {
        &&& q <= l
        &&& q <= cs
        &&& st.queue == e.subrange(l - q, l)
        &&& st.results.len() == 0 ==> st.since > cs
    }
    &&& st.results.len() > 0 ==> {
        &&& 1 <= c.lne
        &&& cur_end(st) <= l
        &&& lines_left(st, e, a) ==> {
            &&& q <= l - cur_end(st)
            &&& q < cs ==> q == l - cur_end(st)
            &&& (st.since < cs || st.since == 0) ==> cur_end(st) == l
        }
        &&& (c.lines.len() > 0 && c.lines.last() == ULine::MissingNL && l < e.len()) ==> (c.lines.len() >= 2
            && c.lines[c.lines.len() - 2] is Actual)
    }
    &&& apply_ed_hunks(e.take(l), u_replacements(u_done(st))) == a.take(r)
}

/// What starting a change gives: an empty queue, a current hunk that ends at
/// the position, and the same patch.
proof fn lemma_u_start(st: UState, s: Seq<DiffOp>, k: int, e: Seq<Seq<u8>>, a: Seq<Seq<u8>>, cs: int)
    requires
        cs >= 0,
        u_patch_inv(st, s, k, e, a, cs),
        lines_left(st, e, a),
    ensures
        ({
            let s1 = start_change(st, cs);
            &&& s1.lne == st.lne
            &&& s1.lna == st.lna
            &&& s1.queue.len() == 0
            &&& s1.results.len() > 0
            &&& 1 <= s1.cur.lne
            &&& cur_end(s1) == st.lne - 1
            &&& s1.stopped == st.stopped
            &&& (s1.cur.lines.len() > 0 && s1.cur.lines.last() == ULine::MissingNL && st.lne - 1 < e.len()) ==> (
            s1.cur.lines.len() >= 2 && s1.cur.lines[s1.cur.lines.len() - 2] is Actual)
            &&& apply_ed_hunks(e.take(st.lne - 1), u_replacements(u_done(s1))) == a.take(st.lna - 1)
        }),
{
    let s1 = start_change(st, cs);
    let l = st.lne - 1;
    let q = st.queue.len() as int;
    let done = u_done(st);
    if st.since >= cs && st.since > 0 {
        let c2 = UHunk { lines: empty_hunk(st.lne - q, st.lna - q).lines + context_lines(st.queue), ..empty_hunk(st.lne - q, st.lna - q) };
        assert(empty_hunk(st.lne - q, st.lna - q).lines + context_lines(st.queue) =~= context_lines(st.queue));
        assert(s1.cur == c2);
        assert(s1.results == st.results.push(st.cur));
        assert(u_done(s1) =~= done.push(c2));
        lemma_replacements_push(done, c2);
        lemma_sides_context(st.queue);
        let reps = u_replacements(done);
        if st.results.len() > 0 {
            assert(done.last() == st.cur);
            assert(reps.last() == u_replacement(st.cur));
        } else {
            assert(done =~= Seq::<UHunk>::empty());
        }
        lemma_apply_new_at(e, reps, u_replacement(c2), l - q, l);
        lemma_apply_tail(e, reps, l - q, l);
        assert(c2.lines.len() > 0 ==> c2.lines.last() is Context);
    } else {
        assert(st.results.len() > 0);
        assert(q == 0);
        assert(context_lines(st.queue) =~= Seq::<ULine>::empty());
        assert(st.cur.lines + context_lines(st.queue) =~= st.cur.lines);
        assert(s1.cur == st.cur);
        assert(u_done(s1) == done);
    }
}

#[verifier::spinoff_prover]
#[verifier::rlimit(40)]
proof fn lemma_u_left(st: UState, s: Seq<DiffOp>, j: int, e: Seq<Seq<u8>>, a: Seq<Seq<u8>>, ec: int, ac: int, cs: int)
    requires
        fits(s, e, a),
        0 <= j < s.len(),
        s[j] == DiffOp::Left,
        cs >= 0,
        e.len() <= ec + 1,
        u_patch_inv(st, s, j, e, a, cs),
    ensures
        u_patch_inv(u_step(st, s[j], e, a, ec, ac, cs, false), s, j + 1, e, a, cs),
{
    lemma_fits_step(s, e, a, j);
    lemma_count_step(s, j);
    let l = st.lne - 1;
    let r = st.lna - 1;
    let line = e[l];
    lemma_u_start(st, s, j, e, a, cs);
    let s1 = start_change(st, cs);
    let ls = s1.cur.lines;
    let miss = missing_if(st.lne > ec);
    lemma_sides_missing(st.lne > ec);
    lemma_sides_small(line);
    let new_lines = if ls.len() > 0 && ls.last() == ULine::MissingNL {
        let l2 = ls.drop_last();
        l2.drop_last() + seq![ULine::Expected(line)] + miss + seq![l2.last(), ULine::MissingNL]
    } else {
        ls + seq![ULine::Expected(line)] + miss
    };
    if ls.len() > 0 && ls.last() == ULine::MissingNL {
        let l2 = ls.drop_last();
        let l3 = l2.drop_last();
        let x = l2.last();
        assert(x is Actual);
        assert(ls =~= l3 + seq![x] + seq![ULine::MissingNL]);
        lemma_sides_concat(l3 + seq![x], seq![ULine::MissingNL]);
        lemma_sides_concat(l3, seq![x]);
        lemma_sides_small(x->Actual_0);
        assert(seq![x, ULine::MissingNL] =~= seq![x] + seq![ULine::MissingNL]);
        lemma_sides_concat(seq![x], seq![ULine::MissingNL]);
        lemma_sides_concat(l3 + seq![ULine::Expected(line)] + miss, seq![x, ULine::MissingNL]);
        lemma_sides_concat(l3 + seq![ULine::Expected(line)], miss);
        lemma_sides_concat(l3, seq![ULine::Expected(line)]);
        assert(old_side(new_lines) =~= old_side(ls).push(line));
        assert(new_side(new_lines) =~= new_side(ls));
        assert(new_lines[new_lines.len() - 2] == x);
    } else {
        lemma_sides_concat(ls + seq![ULine::Expected(line)], miss);
        lemma_sides_concat(ls, seq![ULine::Expected(line)]);
        assert(old_side(new_lines) =~= old_side(ls).push(line));
        assert(new_side(new_lines) =~= new_side(ls));
    }
    let c2 = UHunk { lines: new_lines, ..s1.cur };
    let st2 = u_step(st, s[j], e, a, ec, ac, cs, false);
    assert(st2.cur == c2);
    assert(st2.results == s1.results);
    let d1 = u_done(s1);
    assert(u_done(st2) =~= d1.drop_last().push(c2));
    let reps1 = u_replacements(d1);
    assert(d1.last() == s1.cur);
    lemma_replacements_last(d1, c2);
    assert(e.subrange(l, l + 1) =~= seq![line]);
    assert(old_side(ls).push(line) =~= old_side(ls) + seq![line]);
    assert(new_side(ls) =~= new_side(ls) + Seq::<Seq<u8>>::empty());
    assert(u_replacement(c2) == EdHunk { expected: reps1.last().expected + e.subrange(l, l + 1), actual: reps1.last().actual + Seq::<Seq<u8>>::empty(), ..reps1.last() });
    assert(st2.queue =~= e.subrange(l + 1, l + 1));
    lemma_apply_extend(e, reps1, l, 1, Seq::empty());
    assert(apply_ed_hunks(e.take(l), reps1) + Seq::<Seq<u8>>::empty() =~= apply_ed_hunks(e.take(l), reps1));
    if st.lne > ec {
        assert(l + 1 == e.len());
    }
}

proof fn lemma_u_right(st: UState, s: Seq<DiffOp>, j: int, e: Seq<Seq<u8>>, a: Seq<Seq<u8>>, ec: int, ac: int, cs: int)
    requires
        fits(s, e, a),
        0 <= j < s.len(),
        s[j] == DiffOp::Right,
        cs >= 0,
        u_patch_inv(st, s, j, e, a, cs),
    ensures
        u_patch_inv(u_step(st, s[j], e, a, ec, ac, cs, false), s, j + 1, e, a, cs),
{
    lemma_fits_step(s, e, a, j);
    lemma_count_step(s, j);
    let l = st.lne - 1;
    let r = st.lna - 1;
    let line = a[r];
    lemma_u_start(st, s, j, e, a, cs);
    let s1 = start_change(st, cs);
    let ls = s1.cur.lines;
    let miss = missing_if(st.lna > ac);
    lemma_sides_missing(st.lna > ac);
    lemma_sides_small(line);
    let new_lines = ls + seq![ULine::Actual(line)] + miss;
    lemma_sides_concat(ls + seq![ULine::Actual(line)], miss);
    lemma_sides_concat(ls, seq![ULine::Actual(line)]);
    assert(old_side(new_lines) =~= old_side(ls));
    assert(new_side(new_lines) =~= new_side(ls).push(line));
    let c2 = UHunk { lines: new_lines, ..s1.cur };
    let st2 = u_step(st, s[j], e, a, ec, ac, cs, false);
    assert(st2.cur == c2);
    let d1 = u_done(s1);
    assert(u_done(st2) =~= d1.drop_last().push(c2));
    let reps1 = u_replacements(d1);
    assert(reps1.last() == u_replacement(s1.cur));
    assert(e.subrange(l, l + 0) =~= Seq::<Seq<u8>>::empty());
    assert(u_replacements(u_done(st2)) =~= reps1.drop_last().push(
        EdHunk { expected: reps1.last().expected + e.subrange(l, l + 0), actual: reps1.last().actual + seq![line], ..reps1.last() },
    ));
    lemma_apply_extend(e, reps1, l, 0, seq![line]);
    assert(a.take(r + 1) =~= a.take(r) + seq![line]);
    if miss.len() > 0 {
        assert(new_lines[new_lines.len() - 2] == ULine::Actual(line));
    }
}

proof fn lemma_u_both(st: UState, s: Seq<DiffOp>, j: int, e: Seq<Seq<u8>>, a: Seq<Seq<u8>>, ec: int, ac: int, cs: int)
    requires
        fits(s, e, a),
        0 <= j < s.len(),
        s[j] == DiffOp::Both,
        cs >= 0,
        e.len() <= ec + 1,
        a.len() <= ac + 1,
        u_patch_inv(st, s, j, e, a, cs),
    ensures
        u_patch_inv(u_step(st, s[j], e, a, ec, ac, cs, false), s, j + 1, e, a, cs),
{
    lemma_fits_step(s, e, a, j);
    lemma_count_step(s, j);
    let l = st.lne - 1;
    let r = st.lna - 1;
    let line = e[l];
    assert(line == a[r]);
    assert(e.subrange(l + 1, l + 1) =~= Seq::<Seq<u8>>::empty());
    assert(a.take(r + 1) =~= a.take(r) + seq![line]);
    assert(e.subrange(l, l + 1) =~= seq![line]);
    let ex = st.lne > ec;
    let ax = st.lna > ac;
    let st2 = u_step(st, s[j], e, a, ec, ac, cs, false);
    lemma_sides_small(line);
    let done = u_done(st);
    let reps = u_replacements(done);
    let q = st.queue.len() as int;
    if st.results.len() > 0 {
        assert(done.last() == st.cur);
        assert(reps.last() == u_replacement(st.cur));
    } else {
        assert(done =~= Seq::<UHunk>::empty());
    }
    if (ax && !ex) || (ex && !ax) {
        lemma_u_start(st, s, j, e, a, cs);
        let s1 = start_change(st, cs);
        let ls = s1.cur.lines;
        let add = if ax {
            seq![ULine::Expected(line), ULine::Actual(line), ULine::MissingNL]
        } else {
            seq![ULine::Expected(line), ULine::MissingNL, ULine::Actual(line)]
        };
        assert(add =~= seq![ULine::Expected(line)] + seq![add[1]] + seq![add[2]]);
        lemma_sides_concat(seq![ULine::Expected(line)] + seq![add[1]], seq![add[2]]);
        lemma_sides_concat(seq![ULine::Expected(line)], seq![add[1]]);
        assert(old_side(add) =~= seq![line]);
        assert(new_side(add) =~= seq![line]);
        lemma_sides_concat(ls, add);
        let c2 = UHunk { lines: ls + add, ..s1.cur };
        assert(st2.cur == c2);
        let d1 = u_done(s1);
        assert(u_done(st2) =~= d1.drop_last().push(c2));
        let reps1 = u_replacements(d1);
        assert(reps1.last() == u_replacement(s1.cur));
        assert(u_replacements(u_done(st2)) =~= reps1.drop_last().push(
            EdHunk { expected: reps1.last().expected + e.subrange(l, l + 1), actual: reps1.last().actual + seq![line], ..reps1.last() },
        ));
        lemma_apply_extend(e, reps1, l, 1, seq![line]);
        if ex {
            assert(l + 1 == e.len());
        }
    } else if ex && ax {
        assert(l + 1 == e.len() && r + 1 == a.len());
        if q < cs {
            let t = if st.since < cs { 1int } else { 0int };
            let fl = st.cur.lines + context_lines(st.queue);
            let nl = if st.since < cs { fl + seq![ULine::Context(line), ULine::MissingNL] } else { fl };
            let c2 = UHunk { lines: nl, ..st.cur };
            assert(st2.cur == c2);
            assert(st2.results == st.results);
            if st.results.len() > 0 {
                assert(q == l - cur_end(st));
                lemma_sides_context(st.queue);
                lemma_sides_concat(st.cur.lines, context_lines(st.queue));
                let ys = if t == 1 { st.queue.push(line) } else { st.queue };
                if t == 1 {
                    assert(cur_end(st) == l);
                    lemma_sides_concat(fl, seq![ULine::Context(line), ULine::MissingNL]);
                    assert(seq![ULine::Context(line), ULine::MissingNL] =~= seq![ULine::Context(line)] + seq![ULine::MissingNL]);
                    lemma_sides_concat(seq![ULine::Context(line)], seq![ULine::MissingNL]);
                    assert(old_side(nl) =~= old_side(st.cur.lines) + e.subrange(l - q, l + 1));
                    assert(new_side(nl) =~= new_side(st.cur.lines) + ys);
                } else {
                    assert(old_side(nl) =~= old_side(st.cur.lines) + e.subrange(l - q, l));
                    assert(new_side(nl) =~= new_side(st.cur.lines) + ys);
                }
                assert(u_done(st2) =~= done.drop_last().push(c2));
                assert(u_replacements(u_done(st2)) =~= reps.drop_last().push(
                    EdHunk { expected: reps.last().expected + e.subrange(l - q, l - q + (q + t)), actual: reps.last().actual + ys, ..reps.last() },
                ));
                lemma_apply_extend(e, reps, l - q, q + t, ys);
                lemma_apply_tail(e, reps, l - q, l);
                assert(st.queue == e.subrange(l - q, l));
                if t == 1 {
                    assert(apply_ed_hunks(e.take(l - q), reps) + ys =~= apply_ed_hunks(e.take(l - q), reps) + e.subrange(l - q, l) + seq![line]);
                } else {
                    let reps2 = u_replacements(u_done(st2));
                    assert(reps2.last() == u_replacement(c2));
                    lemma_apply_tail(e, reps2, l, l + 1);
                }
            } else {
                assert(u_done(st2) =~= Seq::<UHunk>::empty());
                assert(u_done(st) =~= Seq::<UHunk>::empty());
                assert(e.take(l + 1) =~= e.take(l) + seq![line]);
            }
        } else {
            assert(st2.results == st.results && st2.cur == st.cur);
            assert(u_done(st2) == done);
            lemma_apply_tail(e, reps, l, l + 1);
        }
    } else {
        let q0 = if st.queue.len() >= cs && st.queue.len() > 0 { st.queue.drop_first() } else { st.queue };
        if st.since < cs {
            assert(st.results.len() > 0);
            assert(cur_end(st) == l);
            assert(q == 0);
            let c2 = UHunk { lines: st.cur.lines + seq![ULine::Context(line)], ..st.cur };
            assert(st2.cur == c2);
            lemma_sides_concat(st.cur.lines, seq![ULine::Context(line)]);
            assert(u_done(st2) =~= done.drop_last().push(c2));
            assert(u_replacements(u_done(st2)) =~= reps.drop_last().push(
                EdHunk { expected: reps.last().expected + e.subrange(l, l + 1), actual: reps.last().actual + seq![line], ..reps.last() },
            ));
            lemma_apply_extend(e, reps, l, 1, seq![line]);
            assert(st2.queue =~= Seq::<Seq<u8>>::empty());
        } else {
            assert(st2.results == st.results && st2.cur == st.cur);
            assert(u_done(st2) == done);
            lemma_apply_tail(e, reps, l, l + 1);
            if cs > 0 {
                assert(st2.queue == q0.push(line));
                if q >= cs {
                    assert(q0 =~= e.subrange(l - q + 1, l));
                } else {
                    assert(q0 == st.queue);
                }
                assert(st2.queue =~= e.subrange(l + 1 - st2.queue.len(), l + 1));
            } else {
                assert(q == 0);
                assert(st2.queue =~= Seq::<Seq<u8>>::empty());
            }
        }
    }
}

/// The walk over a fitting edit script keeps `u_patch_inv`.
proof fn lemma_u_patch_run(s: Seq<DiffOp>, k: nat, e: Seq<Seq<u8>>, a: Seq<Seq<u8>>, ec: int, ac: int, cs: int)
    requires
        fits(s, e, a),
        k <= s.len(),
        cs >= 0,
        e.len() <= ec + 1,
        a.len() <= ac + 1,
    ensures
        u_patch_inv(u_run(s, k, e, a, ec, ac, cs, false), s, k as int, e, a, cs),
    decreases k,
{
    if k == 0 {
        assert(s.take(0) =~= Seq::<DiffOp>::empty());
        assert(e.take(0) =~= Seq::<Seq<u8>>::empty());
        assert(a.take(0) =~= Seq::<Seq<u8>>::empty());
        let st = u_init(cs);
        assert(u_done(st) =~= Seq::<UHunk>::empty());
        assert(u_replacements(Seq::<UHunk>::empty()) =~= Seq::<EdHunk>::empty());
        assert(e.subrange(0, 0) =~= Seq::<Seq<u8>>::empty());
    } else {
        let j = (k - 1) as int;
        lemma_u_patch_run(s, (k - 1) as nat, e, a, ec, ac, cs);
        let st = u_run(s, (k - 1) as nat, e, a, ec, ac, cs, false);
        match s[j] {
            DiffOp::Both => lemma_u_both(st, s, j, e, a, ec, ac, cs),
            DiffOp::Left => lemma_u_left(st, s, j, e, a, ec, ac, cs),
            DiffOp::Right => lemma_u_right(st, s, j, e, a, ec, ac, cs),
        }
    }
}

/// Applied to the lines of the first side, the hunks that the unified format
/// reports for any edit script between two sides give the lines of the second
/// side: patching the first file with the diff gives the second. (`ec` and
/// `ac` count the lines that end in a newline; at most the last line of each
/// side lacks one.)
pub proof fn lemma_unified_patch(s: Seq<DiffOp>, e: Seq<Seq<u8>>, a: Seq<Seq<u8>>, ec: int, ac: int, cs: int)
    requires
        fits(s, e, a),
        cs >= 0,
        0 <= ec <= e.len() <= ec + 1,
        0 <= ac <= a.len() <= ac + 1,
    ensures
        apply_ed_hunks(e, u_replacements(u_hunks(s, e, a, ec, ac, cs, false))) == a,
{
    lemma_u_patch_run(s, s.len(), e, a, ec, ac, cs);
    lemma_take_all(s);
    assert(e.take(e.len() as int) =~= e);
    assert(a.take(a.len() as int) =~= a);
    let st = u_run(s, s.len(), e, a, ec, ac, cs, false);
    let rr = st.results.push(st.cur).drop_first();
    assert(rr == u_done(st));
    if rr.len() == 0 && ec != ac {
        assert(u_replacements(rr) =~= Seq::<EdHunk>::empty());
        assert(e == a);
        if ec != e.len() {
            let h = UHunk { lne: e.len() as int, lna: a.len() as int, lines: seq![ULine::Expected(e.last()), ULine::MissingNL, ULine::Actual(a.last())] };
            let ls = h.lines;
            assert(ls =~= seq![ULine::Expected(e.last())] + seq![ULine::MissingNL] + seq![ULine::Actual(a.last())]);
            lemma_sides_small(e.last());
            lemma_sides_small(a.last());
            lemma_sides_concat(seq![ULine::Expected(e.last())] + seq![ULine::MissingNL], seq![ULine::Actual(a.last())]);
            lemma_sides_concat(seq![ULine::Expected(e.last())], seq![ULine::MissingNL]);
            let hs = u_replacements(seq![h]);
            assert(u_hunks(s, e, a, ec, ac, cs, false) == seq![h]);
            reveal_with_fuel(apply_ed_hunks, 2);
            assert(hs.drop_last() =~= Seq::<EdHunk>::empty());
            assert(hs.last() == u_replacement(h));
            assert(old_side(ls) =~= seq![e.last()]);
            assert(new_side(ls) =~= seq![a.last()]);
            assert(e.take(e.len() - 1) + seq![a.last()] + e.skip(e.len() as int) =~= a);
        } else if ac != a.len() {
            let h = UHunk { lne: e.len() as int, lna: a.len() as int, lines: seq![ULine::Expected(e.last()), ULine::Actual(a.last()), ULine::MissingNL] };
            let ls = h.lines;
            assert(ls =~= seq![ULine::Expected(e.last())] + seq![ULine::Actual(a.last())] + seq![ULine::MissingNL]);
            lemma_sides_small(e.last());
            lemma_sides_small(a.last());
            lemma_sides_concat(seq![ULine::Expected(e.last())] + seq![ULine::Actual(a.last())], seq![ULine::MissingNL]);
            lemma_sides_concat(seq![ULine::Expected(e.last())], seq![ULine::Actual(a.last())]);
            let hs = u_replacements(seq![h]);
            assert(u_hunks(s, e, a, ec, ac, cs, false) == seq![h]);
            reveal_with_fuel(apply_ed_hunks, 2);
            assert(hs.drop_last() =~= Seq::<EdHunk>::empty());
            assert(hs.last() == u_replacement(h));
            assert(old_side(ls) =~= seq![e.last()]);
            assert(new_side(ls) =~= seq![a.last()]);
            assert(e.take(e.len() - 1) + seq![a.last()] + e.skip(e.len() as int) =~= a);
        }
    }
}

} // verus!
