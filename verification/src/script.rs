//! The line-level edit script between two sequences of lines, computed by the
//! `diff` crate, and the facts about it that the output formats rely on.

use vstd::prelude::*;
use crate::lines::lines_of;

verus! {

/// One step of an edit script: a line only on the left, only on the right,
/// or the same line on both sides.
#[derive(Clone, Copy, Debug, PartialEq, Eq)]
pub enum DiffOp {
    Left,
    Right,
    Both,
}

/// The number of left lines that the script consumes (`Left` and `Both` steps).
pub open spec fn left_count(s: Seq<DiffOp>) -> nat
    decreases s.len(),
{
    if s.len() == 0 {
        0
    } else {
        left_count(s.drop_last()) + if s.last() != DiffOp::Right { 1nat } else { 0nat }
    }
}

/// The number of right lines that the script consumes (`Right` and `Both` steps).
pub open spec fn right_count(s: Seq<DiffOp>) -> nat
    decreases s.len(),
{
    if s.len() == 0 {
        0
    } else {
        right_count(s.drop_last()) + if s.last() != DiffOp::Left { 1nat } else { 0nat }
    }
}

/// `s` is an edit script from `a` to `b`: it consumes all lines of both sides in
/// order, and each `Both` step pairs two equal lines.
pub open spec fn fits(s: Seq<DiffOp>, a: Seq<Seq<u8>>, b: Seq<Seq<u8>>) -> bool {
    &&& left_count(s) == a.len()
    &&& right_count(s) == b.len()
    &&& forall|k: int|
        0 <= k < s.len() && #[trigger] s[k] == DiffOp::Both ==> a[left_count(s.take(k)) as int]
            == b[right_count(s.take(k)) as int]
}

/// Sizes for which the line tables of the `diff` crate can be allocated and indexed.
pub open spec fn diff_size_ok(a: nat, b: nat) -> bool {
    &&& a + 3 <= 0xffff_ffff
    &&& b + 3 <= 0xffff_ffff
    &&& (a + 1) * (b + 1) <= usize::MAX
}

/// Whether two sequences of `a` and `b` lines are within the sizes that
/// `diff_lines` accepts.
pub fn sizes_ok(a: usize, b: usize) -> (r: bool)
    ensures
        r == diff_size_ok(a as nat, b as nat),
{
    if a > 0xffff_fffc || b > 0xffff_fffc {
        return false;
    }
    match (a + 1).checked_mul(b + 1) {
        Some(_) => true,
        None => false,
    }
}

/// The edit script that `diff::slice` computes between two sequences of lines
/// (a longest-common-subsequence script).
pub uninterp spec fn lcs_script(a: Seq<Seq<u8>>, b: Seq<Seq<u8>>) -> Seq<DiffOp>;

/// Calls `diff::slice` on two sequences of lines and keeps the kind of each step.
/// Its contract: the result is the crate's script between the two inputs (named
/// `lcs_script`); it is an edit script from the left lines to the right lines
/// (the crate walks both inputs in order, and pairs only equal items); and on two
/// equal inputs every step is `Both` (the crate's common prefix then covers both).
/// That the script is a longest one is not stated.
#[verifier::external_body]
pub fn diff_lines(a: &Vec<Vec<u8>>, b: &Vec<Vec<u8>>) -> (r: Vec<DiffOp>)
    requires
        diff_size_ok(a.len() as nat, b.len() as nat),
    ensures
        r@ == lcs_script(lines_of(a@), lines_of(b@)),
        fits(r@, lines_of(a@), lines_of(b@)),
        lines_of(a@) == lines_of(b@) ==> forall|k: int| 0 <= k < r@.len() ==> r@[k] == DiffOp::Both,
{
    diff::slice(a.as_slice(), b.as_slice())
        .into_iter()
        .map(|x| match x {
            diff::Result::Left(_) => DiffOp::Left,
            diff::Result::Right(_) => DiffOp::Right,
            diff::Result::Both(_, _) => DiffOp::Both,
        })
        .collect()
}

/// Smaller sizes stay within the limits.
pub proof fn lemma_diff_size_mono(a: nat, b: nat, a2: nat, b2: nat)
    requires
        a <= a2,
        b <= b2,
        diff_size_ok(a2, b2),
    ensures
        diff_size_ok(a, b),
{
    assert((a + 1) * (b + 1) <= (a2 + 1) * (b2 + 1)) by (nonlinear_arith)
        requires a <= a2, b <= b2;
}

/// Counting one more step of a script.
pub proof fn lemma_count_step(s: Seq<DiffOp>, k: int)
    requires
        0 <= k < s.len(),
    ensures
        left_count(s.take(k + 1)) == left_count(s.take(k)) + if s[k] != DiffOp::Right { 1nat } else { 0nat },
        right_count(s.take(k + 1)) == right_count(s.take(k)) + if s[k] != DiffOp::Left { 1nat } else { 0nat },
{
    assert(s.take(k + 1).drop_last() =~= s.take(k));
}

/// A prefix of a script consumes no more lines than the whole script.
pub proof fn lemma_count_prefix(s: Seq<DiffOp>, k: int)
    requires
        0 <= k <= s.len(),
    ensures
        left_count(s.take(k)) <= left_count(s),
        right_count(s.take(k)) <= right_count(s),
        left_count(s) - left_count(s.take(k)) <= s.len() - k,
        right_count(s) - right_count(s.take(k)) <= s.len() - k,
    decreases s.len() - k,
{
    if k == s.len() {
        assert(s.take(k) =~= s);
    } else {
        lemma_count_step(s, k);
        lemma_count_prefix(s, k + 1);
    }
}

/// The whole script, seen as its longest prefix.
pub proof fn lemma_take_all(s: Seq<DiffOp>)
    ensures
        s.take(s.len() as int) == s,
{
    assert(s.take(s.len() as int) =~= s);
}

/// At step `k` of a fitting script, the line that the step names exists.
pub proof fn lemma_fits_step(s: Seq<DiffOp>, a: Seq<Seq<u8>>, b: Seq<Seq<u8>>, k: int)
    requires
        fits(s, a, b),
        0 <= k < s.len(),
    ensures
        s[k] != DiffOp::Right ==> left_count(s.take(k)) < a.len(),
        s[k] != DiffOp::Left ==> right_count(s.take(k)) < b.len(),
        s[k] == DiffOp::Both ==> a[left_count(s.take(k)) as int] == b[right_count(s.take(k)) as int],
{
    lemma_count_step(s, k);
    lemma_count_prefix(s, k + 1);
}

} // verus!
