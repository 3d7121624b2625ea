//! A line differ in the manner of Myers: a double-ended search along the
//! diagonals of the edit graph finds a common run of lines (a snake), the
//! inputs are split there, and each half is diffed in turn. The heuristics of
//! GNU diff bound the work on inputs that differ a lot.

use vstd::prelude::*;
use crate::lines::lines_of;
use crate::diff3::are_files_identical;

verus! {

/// A common run of `length` lines, starting at line `x` of the left input and
/// line `y` of the right one.
#[derive(Debug, Default, PartialEq)]
pub struct Snake {
    pub x: usize,
    pub y: usize,
    pub length: usize,
}

impl Snake {
    /// A run long enough to stop searching early (the threshold of GNU diff).
    pub fn is_good(&self) -> (r: bool)
        ensures
            r == (self.length > 20),
    {
        self.length > 20
    }

    /// Keeps the run at `x`, `y` if it is longer than the one held.
    pub fn maybe_update(&mut self, x: isize, y: isize, length: isize)
        requires
            0 <= length,
            length > old(self).length ==> 0 <= x && 0 <= y,
        ensures
            length > old(self).length ==> *final(self) == (Snake { x: x as usize, y: y as usize, length: length as usize }),
            length <= old(self).length ==> *final(self) == *old(self),
            *final(self) == longer(*old(self), x as int, y as int, length as int),
    {
        let length = length as usize;
        if length > self.length {
            self.x = x as usize;
            self.y = y as usize;
            self.length = length;
        }
    }

    /// Moves the split point to `x`, `y` while no run has been found.
    pub fn maybe_set(&mut self, x: isize, y: isize)
        ensures
            old(self).length == 0 ==> *final(self) == (Snake { x: x as usize, y: y as usize, length: 0 }),
            old(self).length != 0 ==> *final(self) == *old(self),
            *final(self) == placed(*old(self), x as int, y as int),
    {
        if self.length == 0 {
            self.x = x as usize;
            self.y = y as usize;
        }
    }
}

/// `s`, or the run of `length` lines at `x`, `y` where that is longer.
pub open spec fn longer(s: Snake, x: int, y: int, length: int) -> Snake {
    if length > s.length {
        Snake { x: x as usize, y: y as usize, length: length as usize }
    } else {
        s
    }
}

/// `s`, or the empty run at `x`, `y` where `s` is empty.
pub open spec fn placed(s: Snake, x: int, y: int) -> Snake {
    if s.length == 0 {
        Snake { x: x as usize, y: y as usize, length: 0 }
    } else {
        s
    }
}

/// One step of an edit script: a line of the left input dropped, a line of the
/// right input added, or a line that both share.
#[derive(Debug)]
pub enum Edit<'a, T> {
    Delete(&'a T),
    Insert(&'a T),
    Keep(&'a T),
}

/// The lines of the left input that an edit script walks through: those it
/// drops and those it keeps.
pub open spec fn left_side<'a>(es: Seq<Edit<'a, Vec<u8>>>) -> Seq<Seq<u8>>
    decreases es.len(),
{
    if es.len() == 0 {
        Seq::empty()
    } else {
        let rest = left_side(es.drop_last());
        match es.last() {
            Edit::Delete(l) => rest.push(l@),
            Edit::Keep(l) => rest.push(l@),
            Edit::Insert(_) => rest,
        }
    }
}

/// The lines of the right input that an edit script walks through: those it
/// adds and those it keeps.
pub open spec fn right_side<'a>(es: Seq<Edit<'a, Vec<u8>>>) -> Seq<Seq<u8>>
    decreases es.len(),
{
    if es.len() == 0 {
        Seq::empty()
    } else {
        let rest = right_side(es.drop_last());
        match es.last() {
            Edit::Insert(r) => rest.push(r@),
            Edit::Keep(r) => rest.push(r@),
            Edit::Delete(_) => rest,
        }
    }
}

/// Whether every step of an edit script keeps a line.
pub open spec fn all_kept<'a>(es: Seq<Edit<'a, Vec<u8>>>) -> bool {
    forall|i: int| 0 <= i < es.len() ==> #[trigger] es[i] is Keep
}

/// Where the lines both inputs start and end with make up all of one input,
/// the edits between the kept ends, from position `from` on, are all of one
/// kind: the other input's lines are added, or removed, as one block.
pub open spec fn middle_one_kind<'a>(es: Seq<Edit<'a, Vec<u8>>>, from: int, l: Seq<Seq<u8>>, r: Seq<Seq<u8>>) -> bool {
    let p = common_ends(l, r).0;
    let s = common_ends(l, r).1;
    &&& p + s == l.len() ==> forall|j: int| from + p <= j < es.len() - s ==> #[trigger] es[j] is Insert
    &&& p + s == r.len() ==> forall|j: int| from + p <= j < es.len() - s ==> #[trigger] es[j] is Delete
}

/// Whether an insertion directly precedes a deletion at position `i`.
pub open spec fn insert_then_delete<'a>(es: Seq<Edit<'a, Vec<u8>>>, i: int) -> bool {
    es[i] is Insert && es[i + 1] is Delete
}

/// Within each change of the script, the deletions come before the
/// insertions: no insertion is directly followed by a deletion.
pub open spec fn deletes_first<'a>(es: Seq<Edit<'a, Vec<u8>>>) -> bool {
    forall|i: int| 0 <= i && i + 1 < es.len() ==> !#[trigger] insert_then_delete(es, i)
}

/// Whether the script ends with an insertion.
pub open spec fn ends_in_insert<'a>(es: Seq<Edit<'a, Vec<u8>>>) -> bool {
    es.len() > 0 && es.last() is Insert
}

/// Edits appended to a script whose deletions come first keep that order when
/// the appended edits have it and the junction is not an insertion followed by
/// a deletion.
proof fn lemma_extend_deletes_first<'a>(e0: Seq<Edit<'a, Vec<u8>>>, ef: Seq<Edit<'a, Vec<u8>>>)
    requires
        deletes_first(e0),
        ef.len() >= e0.len(),
        forall|j: int| 0 <= j < e0.len() ==> ef[j] == e0[j],
        forall|i: int| e0.len() <= i && i + 1 < ef.len() ==> !#[trigger] insert_then_delete(ef, i),
        ends_in_insert(e0) && ef.len() > e0.len() ==> !(ef[e0.len() as int] is Delete),
    ensures
        deletes_first(ef),
{
    assert forall|i: int| 0 <= i && i + 1 < ef.len() implies !#[trigger] insert_then_delete(ef, i) by {
        if i + 1 < e0.len() {
            assert(ef[i] == e0[i] && ef[i + 1] == e0[i + 1]);
            assert(!insert_then_delete(e0, i));
        } else if i + 1 == e0.len() {
            assert(ef[i] == e0.last());
        }
    }
}

/// The number of lines both inputs start with.
pub open spec fn common_prefix(l: Seq<Seq<u8>>, r: Seq<Seq<u8>>) -> nat
    decreases l.len(),
{
    if l.len() == 0 || r.len() == 0 || l[0] != r[0] {
        0
    } else {
        1 + common_prefix(l.drop_first(), r.drop_first())
    }
}

/// The number of lines both inputs end with.
pub open spec fn common_suffix(l: Seq<Seq<u8>>, r: Seq<Seq<u8>>) -> nat
    decreases l.len(),
{
    if l.len() == 0 || r.len() == 0 || l.last() != r.last() {
        0
    } else {
        1 + common_suffix(l.drop_last(), r.drop_last())
    }
}

/// Whether edit `e` keeps a line with the text `x`.
pub open spec fn keeps<'a>(e: Edit<'a, Vec<u8>>, x: Seq<u8>) -> bool {
    e is Keep && e->Keep_0@ == x
}

/// The edits of `es` from position `from` on start with edits that keep the
/// `p` first lines of `l` and end with edits that keep its `s` last lines.
pub open spec fn keeps_ends<'a>(es: Seq<Edit<'a, Vec<u8>>>, from: int, l: Seq<Seq<u8>>, p: int, s: int) -> bool {
    &&& 0 <= from
    &&& from + p + s <= es.len()
    &&& p + s <= l.len()
    &&& forall|k: int| 0 <= k < p ==> keeps(#[trigger] es[from + k], l[k])
    &&& forall|k: int| 0 <= k < s ==> keeps(#[trigger] es[es.len() - s + k], l[l.len() - s + k])
}

/// The lines both inputs start with, and, of the rest, those they end with.
pub open spec fn common_ends(l: Seq<Seq<u8>>, r: Seq<Seq<u8>>) -> (int, int) {
    let p = common_prefix(l, r) as int;
    (p, common_suffix(l.skip(p), r.skip(p)) as int)
}

/// The edits kept at both ends by three steps: keeping `lead` lines, then
/// edits that leave those alone, then keeping the `trail` last lines.
proof fn lemma_ends_kept<'a>(
    e0: Seq<Edit<'a, Vec<u8>>>,
    e1: Seq<Edit<'a, Vec<u8>>>,
    e2: Seq<Edit<'a, Vec<u8>>>,
    ef: Seq<Edit<'a, Vec<u8>>>,
    l: Seq<Seq<u8>>,
    lead: int,
    trail: int,
)
    requires
        0 <= lead,
        0 <= trail,
        lead + trail <= l.len(),
        e1.len() == e0.len() + lead,
        forall|k: int| 0 <= k < lead ==> keeps(#[trigger] e1[e0.len() + k], l[k]),
        e2.len() >= e1.len(),
        forall|j: int| 0 <= j < e1.len() ==> e2[j] == e1[j],
        ef.len() == e2.len() + trail,
        forall|j: int| 0 <= j < e2.len() ==> ef[j] == e2[j],
        forall|k: int| 0 <= k < trail ==> keeps(#[trigger] ef[e2.len() + k], l[l.len() - trail + k]),
    ensures
        keeps_ends(ef, e0.len() as int, l, lead, trail),
{
    assert forall|k: int| 0 <= k < lead implies keeps(#[trigger] ef[e0.len() + k], l[k]) by {
        assert(ef[e0.len() + k] == e2[e0.len() + k]);
        assert(e2[e0.len() + k] == e1[e0.len() + k]);
    }
    assert forall|k: int| 0 <= k < trail implies keeps(#[trigger] ef[ef.len() - trail + k], l[l.len() - trail + k]) by {
        assert(ef.len() - trail + k == e2.len() + k);
    }
}

/// A prefix that cannot be extended is the common prefix.
proof fn lemma_common_prefix(l: Seq<Seq<u8>>, r: Seq<Seq<u8>>, p: int)
    requires
        0 <= p <= l.len(),
        p <= r.len(),
        l.subrange(0, p) == r.subrange(0, p),
        p < l.len() && p < r.len() ==> l[p] != r[p],
    ensures
        common_prefix(l, r) == p,
    decreases p,
{
    if p > 0 {
        assert(l[0] == l.subrange(0, p)[0]);
        assert(r[0] == r.subrange(0, p)[0]);
        assert(l.drop_first().subrange(0, p - 1) =~= l.subrange(0, p).drop_first());
        assert(r.drop_first().subrange(0, p - 1) =~= r.subrange(0, p).drop_first());
        lemma_common_prefix(l.drop_first(), r.drop_first(), p - 1);
    }
}

/// A suffix that cannot be extended is the common suffix.
proof fn lemma_common_suffix(l: Seq<Seq<u8>>, r: Seq<Seq<u8>>, s: int)
    requires
        0 <= s <= l.len(),
        s <= r.len(),
        l.subrange(l.len() - s, l.len() as int) == r.subrange(r.len() - s, r.len() as int),
        s < l.len() && s < r.len() ==> l[l.len() - 1 - s] != r[r.len() - 1 - s],
    ensures
        common_suffix(l, r) == s,
    decreases s,
{
    if s > 0 {
        assert(l.last() == l.subrange(l.len() - s, l.len() as int)[s - 1]);
        assert(r.last() == r.subrange(r.len() - s, r.len() as int)[s - 1]);
        assert(l.drop_last().subrange(l.len() - s, l.len() - 1) =~= l.subrange(l.len() - s, l.len() as int).drop_last());
        assert(r.drop_last().subrange(r.len() - s, r.len() - 1) =~= r.subrange(r.len() - s, r.len() as int).drop_last());
        lemma_common_suffix(l.drop_last(), r.drop_last(), s - 1);
    } else {
        if l.len() > 0 && r.len() > 0 {
            assert(l.last() == l[l.len() - 1]);
        }
    }
}

/// The floor of the square root of `x`.
pub open spec fn is_sqrt_floor(x: int, r: int) -> bool {
    0 <= r && r * r <= x < (r + 1) * (r + 1)
}

pub open spec fn sqrt_floor(x: int) -> int {
    choose|r: int| is_sqrt_floor(x, r)
}

proof fn lemma_sqrt_floor_unique(x: int, r: int, s: int)
    requires
        is_sqrt_floor(x, r),
        is_sqrt_floor(x, s),
    ensures
        r == s,
{
    if r < s {
        assert((r + 1) * (r + 1) <= s * s) by (nonlinear_arith)
            requires 0 <= r, r + 1 <= s;
    } else if s < r {
        assert((s + 1) * (s + 1) <= r * r) by (nonlinear_arith)
            requires 0 <= s, s + 1 <= r;
    }
}

proof fn lemma_sqrt_floor_mono(x: int, r: int, y: int, s: int)
    requires
        is_sqrt_floor(x, r),
        is_sqrt_floor(y, s),
        x <= y,
    ensures
        r <= s,
{
    if s < r {
        assert((s + 1) * (s + 1) <= r * r) by (nonlinear_arith)
            requires 0 <= s, s + 1 <= r;
    }
}

/// The floor of the square root of `x`, found by bisection.
fn isqrt(x: usize) -> (r: usize)
    ensures
        is_sqrt_floor(x as int, r as int),
        r == sqrt_floor(x as int),
{
    // The root lies in [lo, hi).
    let xx: u64 = x as u64;
    let mut lo: u64 = 0;
    let mut hi: u64 = if xx < 4_294_967_296 { xx + 1 } else { 4_294_967_296 };
    assert(hi * hi > xx) by (nonlinear_arith)
        requires
            hi == (if xx < 4_294_967_296 { xx + 1 } else { 4_294_967_296 }),
            xx <= 18_446_744_073_709_551_615,
    ;
    while hi - lo > 1
        invariant
            lo < hi,
            hi <= 4_294_967_296,
            lo * lo <= xx,
            xx < hi * hi,
        decreases hi - lo,
    {
        let mid = lo + (hi - lo) / 2;
        assert(mid * mid < 18_446_744_073_709_551_616) by (nonlinear_arith)
            requires mid < 4_294_967_296;
        let sq: u64 = mid * mid;
        if sq <= xx {
            lo = mid;
        } else {
            hi = mid;
        }
    }
    assert(lo <= xx) by (nonlinear_arith)
        requires lo * lo <= xx;
    let r = lo as usize;
    assert(is_sqrt_floor(x as int, r as int));
    proof {
        lemma_sqrt_floor_unique(x as int, r as int, sqrt_floor(x as int));
    }
    r
}

/// The number of search rounds after which the search settles for what it
/// has: the square root of the total length, and at least 4096.
pub open spec fn too_expensive(max_cost: int) -> int {
    let s = sqrt_floor(max_cost);
    if s < 4096 { 4096 } else { s }
}

/// The furthest point reached along the diagonals, as the search records it:
/// the last position `i` among those whose value `x` is at least `i` and
/// greatest; `None` when there is no such position.
pub open spec fn furthest(s: Seq<isize>) -> Option<(int, int)>
    decreases s.len(),
{
    if s.len() == 0 {
        None
    } else {
        let i = s.len() - 1;
        let x = s.last() as int;
        let prev = furthest(s.drop_last());
        if x >= i && (match prev { Some((_, px)) => x >= px, None => true }) {
            Some((i, x))
        } else {
            prev
        }
    }
}

proof fn lemma_furthest(s: Seq<isize>)
    ensures
        match furthest(s) {
            Some((i, x)) => 0 <= i < s.len() && x == s[i] && i <= x,
            None => true,
        },
    decreases s.len(),
{
    if s.len() > 0 {
        lemma_furthest(s.drop_last());
    }
}

/// The best value of `x` reached so far on each diagonal `d` of a search, for
/// `d` from `min_diag - 1` to `max_diag + 1`, with the range of diagonals the
/// search currently spans.
pub struct Diagonals {
    data: Vec<isize>,
    center: usize,
    search_low: isize,
    search_high: isize,
    min_diag: isize,
    max_diag: isize,
}

impl Diagonals {
    /// The layout of a search between inputs of `n` and `m` lines.
    pub closed spec fn wf(&self, n: int, m: int) -> bool {
        &&& 0 <= n
        &&& 0 <= m
        &&& n + m + 3 <= isize::MAX
        &&& self.min_diag == -m
        &&& self.max_diag == n
        &&& self.center == m + 1
        &&& self.data@.len() == n + m + 3
        &&& self.min_diag <= self.search_low
        &&& self.search_high <= self.max_diag
    }

    /// The value on diagonal `d`.
    pub closed spec fn at(&self, d: int) -> int {
        self.data@[self.center + d] as int
    }

    pub closed spec fn low(&self) -> int {
        self.search_low as int
    }

    pub closed spec fn high(&self) -> int {
        self.search_high as int
    }

    pub closed spec fn values(&self) -> Seq<isize> {
        self.data@
    }

    /// Diagonals for inputs of `left_length` and `right_length` lines, each
    /// holding `filler`, with the search spanning the diagonal where the two
    /// ends meet.
    pub fn new(filler: isize, left_length: isize, right_length: isize) -> (r: Self)
        requires
            0 <= left_length,
            0 <= right_length,
            left_length + right_length + 3 <= isize::MAX,
        ensures
            r.wf(left_length as int, right_length as int),
            r.low() == left_length - right_length,
            r.high() == left_length - right_length,
            forall|d: int| -right_length - 1 <= d <= left_length + 1 ==> #[trigger] r.at(d) == filler,
            r.values() == Seq::new((left_length + right_length + 3) as nat, |i: int| filler),
    {
        let size = left_length + right_length + 3;
        let mut data: Vec<isize> = Vec::new();
        let mut i: isize = 0;
        while i < size
            invariant
                0 <= i <= size,
                data@.len() == i,
                forall|k: int| 0 <= k < i ==> data@[k] == filler,
            decreases size - i,
        {
            data.push(filler);
            i = i + 1;
        }
        let mid_diag = left_length - right_length;
        assert(data@ =~= Seq::new((left_length + right_length + 3) as nat, |i: int| filler));
        Diagonals {
            data,
            center: (right_length + 1) as usize,
            search_low: mid_diag,
            search_high: mid_diag,
            min_diag: -right_length,
            max_diag: left_length,
        }
    }

    /// The position in `data` of diagonal `index`.
    fn actual_index(&self, index: isize) -> (r: usize)
        requires
            self.center <= isize::MAX,
            0 <= self.center + index <= isize::MAX,
        ensures
            r == self.center + index,
    {
        (self.center as isize + index) as usize
    }

    /// The value on diagonal `d`.
    fn get(&self, d: isize) -> (r: isize)
        requires
            self.wf(self.max_diag as int, -self.min_diag),
            self.min_diag - 1 <= d <= self.max_diag + 1,
        ensures
            r == self.at(d as int),
    {
        self.data[self.actual_index(d)]
    }

    /// Records `v` on diagonal `d`.
    fn set(&mut self, d: isize, v: isize)
        requires
            old(self).wf(old(self).max_diag as int, -old(self).min_diag),
            old(self).min_diag - 1 <= d <= old(self).max_diag + 1,
        ensures
            final(self).wf(old(self).max_diag as int, -old(self).min_diag),
            final(self).low() == old(self).low(),
            final(self).high() == old(self).high(),
            final(self).at(d as int) == v,
            final(self).values() == old(self).values().update(old(self).center + d, v),
            forall|k: int| k != d && old(self).min_diag - 1 <= k <= old(self).max_diag + 1
                ==> #[trigger] final(self).at(k) == old(self).at(k),
            final(self).max_diag == old(self).max_diag,
            final(self).min_diag == old(self).min_diag,
    {
        let i = self.actual_index(d);
        self.data.set(i, v);
    }

    /// The point furthest along the diagonals, taking positions in `data` as
    /// diagonals; the origin when no value lies on or above its position.
    fn get_furthest_progress(&self) -> (r: (usize, usize))
        requires
            self.data@.len() <= isize::MAX,
        ensures
            r == (match furthest(self.data@) {
                Some((d, x)) => ((x as usize), ((x - d) as usize)),
                None => (0usize, 0usize),
            }),
    {
        let mut best: Option<(usize, isize)> = None;
        let mut i: usize = 0;
        while i < self.data.len()
            invariant
                i <= self.data@.len() <= isize::MAX,
                (match best {
                    Some((d, x)) => furthest(self.data@.take(i as int)) == Some((d as int, x as int)) && d <= x,
                    None => furthest(self.data@.take(i as int)) is None,
                }),
            decreases self.data@.len() - i,
        {
            assert(self.data@.take(i + 1).drop_last() =~= self.data@.take(i as int));
            let x = self.data[i];
            let keep = match best {
                Some((_, bx)) => x >= bx,
                None => true,
            };
            if x >= i as isize && keep {
                best = Some((i, x));
            }
            i = i + 1;
        }
        assert(self.data@.take(i as int) =~= self.data@);
        proof { lemma_furthest(self.data@); }
        match best {
            Some((d, x)) => (x as usize, (x - d as isize) as usize),
            None => (0, 0),
        }
    }

    /// Widens the search by one diagonal on each side, within the diagonals
    /// that exist; at the upper edge the top steps back by one.
    fn expand_search(&mut self)
        requires
            old(self).wf(old(self).max_diag as int, -old(self).min_diag),
        ensures
            final(self).wf(old(self).max_diag as int, -old(self).min_diag),
            final(self).values() == old(self).values(),
            forall|k: int| #[trigger] final(self).at(k) == old(self).at(k),
            final(self).high() == if old(self).high() == old(self).max_diag { old(self).high() - 1 } else { old(self).high() + 1 },
            final(self).low() == if old(self).low() - 1 < old(self).min_diag { old(self).min_diag as int } else { old(self).low() - 1 },
            final(self).max_diag == old(self).max_diag,
            final(self).min_diag == old(self).min_diag,
    {
        let upper = if self.search_high == self.max_diag { self.search_high - 1 } else { self.search_high + 1 };
        let lower = if self.search_low - 1 < self.min_diag { self.min_diag } else { self.search_low - 1 };
        self.search_low = lower;
        self.search_high = upper;
    }
}

/// Whether `s` is a run of lines that both inputs share (any snake of length
/// zero is).
pub open spec fn snake_ok(s: Snake, left: Seq<Seq<u8>>, right: Seq<Seq<u8>>) -> bool {
    s.length > 0 ==> {
        &&& s.x + s.length <= left.len()
        &&& s.y + s.length <= right.len()
        &&& left.subrange(s.x as int, s.x + s.length) == right.subrange(s.y as int, s.y + s.length)
    }
}

/// The limit on the lengths of the inputs: twice their sum, and a margin, fit
/// in an `isize` (each line takes more than eight bytes of memory, so no
/// input held in memory comes near it).
pub open spec fn lengths_ok(n: int, m: int) -> bool {
    0 <= n && 0 <= m && 4 * (n + m) + 8 <= isize::MAX
}

fn same_line(a: &Vec<u8>, b: &Vec<u8>) -> (r: bool)
    ensures
        r == (a@ == b@),
{
    are_files_identical(a.as_slice(), b.as_slice())
}

/// Whether the point `x`, `y` lies in the grid of the two inputs shifted by
/// `offset`.
fn in_grid(x: isize, y: isize, offset: isize, n: isize, m: isize) -> (r: bool)
    requires
        0 <= offset <= 1,
        0 <= n < isize::MAX,
        0 <= m < isize::MAX,
    ensures
        r == (x >= offset && y >= offset && x < n + offset && y < m + offset),
{
    x >= offset && y >= offset && x < n + offset && y < m + offset
}

/// Follows the lines that the inputs share from `x0` on diagonal `d`, forwards.
fn follow_forward(left: &[Vec<u8>], right: &[Vec<u8>], x0: isize, d: isize) -> (x: isize)
    requires
        lengths_ok(left@.len() as int, right@.len() as int),
        0 <= x0 <= 2 * (left@.len() + right@.len()),
        -right@.len() <= d <= left@.len(),
    ensures
        x0 <= x,
        x <= x0 || x <= left@.len(),
        x > x0 ==> {
            &&& 0 <= x0
            &&& 0 <= x0 - d
            &&& x <= left@.len()
            &&& x - d <= right@.len()
            &&& lines_of(left@).subrange(x0 as int, x as int) == lines_of(right@).subrange(x0 - d, x - d)
        },
        !(0 <= x && 0 <= x - d && x < left@.len() && x - d < right@.len() && left@[x as int]@ == right@[x - d]@),
        x == run_forward(lines_of(left@), lines_of(right@), x0 as int, d as int),
{
    let n = left.len() as isize;
    let m = right.len() as isize;
    let mut x = x0;
    let mut y = x0 - d;
    while in_grid(x, y, 0, n, m) && same_line(&left[x as usize], &right[y as usize])
        invariant
            lengths_ok(n as int, m as int),
            n == left@.len(),
            m == right@.len(),
            0 <= x0 <= 2 * (n + m),
            -m <= d <= n,
            y == x - d,
            x0 <= x,
            x <= x0 || x <= n,
            x > x0 ==> 0 <= x0 - d && x - d <= m,
            x > x0 ==> lines_of(left@).subrange(x0 as int, x as int) == lines_of(right@).subrange(x0 - d, x - d),
            run_forward(lines_of(left@), lines_of(right@), x as int, d as int)
                == run_forward(lines_of(left@), lines_of(right@), x0 as int, d as int),
        decreases n + 1 - x,
    {
        proof {
            assert(lines_of(left@).subrange(x0 as int, x + 1) =~= lines_of(left@).subrange(x0 as int, x as int).push(left@[x as int]@));
            assert(lines_of(right@).subrange(x0 - d, x + 1 - d) =~= lines_of(right@).subrange(x0 - d, x - d).push(right@[y as int]@));
        }
        x = x + 1;
        y = y + 1;
    }
    x
}

/// Follows the lines that the inputs share back from `x0` on diagonal `d`.
fn follow_backward(left: &[Vec<u8>], right: &[Vec<u8>], x0: isize, d: isize, c: isize) -> (x: isize)
    requires
        lengths_ok(left@.len() as int, right@.len() as int),
        0 <= c <= left@.len() + right@.len(),
        -c <= x0 <= left@.len(),
        -right@.len() <= d <= left@.len(),
    ensures
        x <= x0,
        x >= x0 || x >= 0,
        x < x0 ==> {
            &&& 0 <= x
            &&& 0 <= x - d
            &&& x0 <= left@.len()
            &&& x0 - d <= right@.len()
            &&& lines_of(left@).subrange(x as int, x0 as int) == lines_of(right@).subrange(x - d, x0 - d)
        },
        !(1 <= x && 1 <= x - d && x <= left@.len() && x - d <= right@.len() && left@[x - 1]@ == right@[x - d - 1]@),
        x == run_backward(lines_of(left@), lines_of(right@), x0 as int, d as int),
{
    let n = left.len() as isize;
    let m = right.len() as isize;
    let mut x = x0;
    let mut y = x0 - d;
    while in_grid(x, y, 1, n, m) && same_line(&left[(x - 1) as usize], &right[(y - 1) as usize])
        invariant
            lengths_ok(n as int, m as int),
            n == left@.len(),
            m == right@.len(),
            0 <= c <= n + m,
            -c <= x0 <= n,
            -m <= d <= n,
            y == x - d,
            x <= x0,
            x >= x0 || x >= 0,
            x < x0 ==> x0 - d <= m && 0 <= x - d,
            x < x0 ==> lines_of(left@).subrange(x as int, x0 as int) == lines_of(right@).subrange(x - d, x0 - d),
            run_backward(lines_of(left@), lines_of(right@), x as int, d as int)
                == run_backward(lines_of(left@), lines_of(right@), x0 as int, d as int),
        decreases x,
    {
        proof {
            assert(lines_of(left@).subrange(x - 1, x0 as int) =~= seq![left@[x - 1]@] + lines_of(left@).subrange(x as int, x0 as int));
            assert(lines_of(right@).subrange(x - 1 - d, x0 - d) =~= seq![right@[y - 1]@] + lines_of(right@).subrange(x - d, x0 - d));
        }
        x = x - 1;
        y = y - 1;
    }
    x
}

/// The top of a search range after one widening.
pub open spec fn grown_high(hi: int, max_diag: int) -> int {
    if hi == max_diag { hi - 1 } else { hi + 1 }
}

/// The bottom of a search range after one widening.
pub open spec fn grown_low(lo: int, min_diag: int) -> int {
    if lo - 1 < min_diag { min_diag } else { lo - 1 }
}

/// The state of a split-point search as plain values: the best `x` on each
/// forward and each backward diagonal (position `m + 1 + d` holds diagonal
/// `d`, for a right input of `m` lines), the range of diagonals each search
/// spans, and the longest run found.
pub struct SearchState {
    pub fwd: Seq<isize>,
    pub fwd_low: int,
    pub fwd_high: int,
    pub bwd: Seq<isize>,
    pub bwd_low: int,
    pub bwd_high: int,
    pub best: Snake,
}

/// The value on diagonal `d` of `v`, for a right input of `m` lines.
pub open spec fn diag(v: Seq<isize>, m: int, d: int) -> int {
    v[m + 1 + d] as int
}

/// Where the lines that both inputs share, followed forwards from `x` on
/// diagonal `d` (line `x` of `l` against line `x - d` of `r`), stop.
pub open spec fn run_forward(l: Seq<Seq<u8>>, r: Seq<Seq<u8>>, x: int, d: int) -> int
    decreases l.len() - x,
{
    if 0 <= x && 0 <= x - d && x < l.len() && x - d < r.len() && l[x] == r[x - d] {
        run_forward(l, r, x + 1, d)
    } else {
        x
    }
}

/// Where the lines that both inputs share, followed backwards from `x` on
/// diagonal `d`, stop.
pub open spec fn run_backward(l: Seq<Seq<u8>>, r: Seq<Seq<u8>>, x: int, d: int) -> int
    decreases x,
{
    if 1 <= x && 1 <= x - d && x <= l.len() && x - d <= r.len() && l[x - 1] == r[x - d - 1] {
        run_backward(l, r, x - 1, d)
    } else {
        x
    }
}

/// The forward search on diagonal `d`: it starts from the neighbour that
/// reached further, follows the shared lines, records where it stops, keeps
/// the run if it is the longest, and tells whether it met the backward search.
pub open spec fn forward_step(l: Seq<Seq<u8>>, r: Seq<Seq<u8>>, s: SearchState, ends_align: bool, d: int) -> (SearchState, bool) {
    let m = r.len() as int;
    let a = diag(s.fwd, m, d - 1);
    let b = diag(s.fwd, m, d + 1);
    let x0 = if a < b { b } else { a + 1 };
    let x = run_forward(l, r, x0, d);
    let best = longer(s.best, x0, x0 - d, x - x0);
    let met = !ends_align && s.bwd_low <= d <= s.bwd_high && x >= diag(s.bwd, m, d);
    (SearchState {
        fwd: s.fwd.update(m + 1 + d, x as isize),
        fwd_low: s.fwd_low,
        fwd_high: s.fwd_high,
        bwd: s.bwd,
        bwd_low: s.bwd_low,
        bwd_high: s.bwd_high,
        best: if met { placed(best, x, x - d) } else { best },
    }, met)
}

/// The forward steps on diagonals `d`, `d - 2`, ... down to `lo`, until one
/// meets the backward search.
pub open spec fn forward_pass(l: Seq<Seq<u8>>, r: Seq<Seq<u8>>, s: SearchState, ends_align: bool, d: int, lo: int) -> (SearchState, bool)
    decreases d - lo + 2,
{
    if d < lo {
        (s, false)
    } else {
        let st = forward_step(l, r, s, ends_align, d);
        if st.1 {
            st
        } else {
            forward_pass(l, r, st.0, ends_align, d - 2, lo)
        }
    }
}

/// The search state with the forward range widened by one round.
pub open spec fn widen_forward(s: SearchState, n: int, m: int) -> SearchState {
    SearchState {
        fwd: s.fwd,
        fwd_low: grown_low(s.fwd_low, -m),
        fwd_high: grown_high(s.fwd_high, n),
        bwd: s.bwd,
        bwd_low: s.bwd_low,
        bwd_high: s.bwd_high,
        best: s.best,
    }
}

/// The search state with the backward range widened by one round.
pub open spec fn widen_backward(s: SearchState, n: int, m: int) -> SearchState {
    SearchState {
        fwd: s.fwd,
        fwd_low: s.fwd_low,
        fwd_high: s.fwd_high,
        bwd: s.bwd,
        bwd_low: grown_low(s.bwd_low, -m),
        bwd_high: grown_high(s.bwd_high, n),
        best: s.best,
    }
}

/// One round of the forward search: the range widens, and the steps run
/// from its top down.
pub open spec fn forward_search_round(l: Seq<Seq<u8>>, r: Seq<Seq<u8>>, s: SearchState, ends_align: bool) -> (SearchState, bool) {
    let w = widen_forward(s, l.len() as int, r.len() as int);
    forward_pass(l, r, w, ends_align, w.fwd_high, w.fwd_low)
}

/// The backward search on diagonal `d`, as `forward_step` does forwards.
pub open spec fn backward_step(l: Seq<Seq<u8>>, r: Seq<Seq<u8>>, s: SearchState, ends_align: bool, d: int) -> (SearchState, bool) {
    let m = r.len() as int;
    let a = diag(s.bwd, m, d - 1);
    let b = diag(s.bwd, m, d + 1);
    let x0 = if a < b { a } else { b - 1 };
    let x = run_backward(l, r, x0, d);
    let best = longer(s.best, x, x - d, x0 - x);
    let met = ends_align && s.fwd_low <= d <= s.fwd_high && x <= diag(s.fwd, m, d);
    (SearchState {
        fwd: s.fwd,
        fwd_low: s.fwd_low,
        fwd_high: s.fwd_high,
        bwd: s.bwd.update(m + 1 + d, x as isize),
        bwd_low: s.bwd_low,
        bwd_high: s.bwd_high,
        best: if met { placed(best, x, x - d) } else { best },
    }, met)
}

/// The backward steps on diagonals `d`, `d - 2`, ... down to `lo`, until one
/// meets the forward search.
pub open spec fn backward_pass(l: Seq<Seq<u8>>, r: Seq<Seq<u8>>, s: SearchState, ends_align: bool, d: int, lo: int) -> (SearchState, bool)
    decreases d - lo + 2,
{
    if d < lo {
        (s, false)
    } else {
        let st = backward_step(l, r, s, ends_align, d);
        if st.1 {
            st
        } else {
            backward_pass(l, r, st.0, ends_align, d - 2, lo)
        }
    }
}

/// One round of the backward search.
pub open spec fn backward_search_round(l: Seq<Seq<u8>>, r: Seq<Seq<u8>>, s: SearchState, ends_align: bool) -> (SearchState, bool) {
    let w = widen_backward(s, l.len() as int, r.len() as int);
    backward_pass(l, r, w, ends_align, w.bwd_high, w.bwd_low)
}

/// The rounds of a search from round `c` on, with the round at which it
/// stops: after the last diagonal, past `limit` rounds, when the two searches
/// meet, or past 200 rounds with a run of more than twenty lines in hand.
pub open spec fn search_rounds(l: Seq<Seq<u8>>, r: Seq<Seq<u8>>, s: SearchState, ends_align: bool, c: int, limit: int) -> (SearchState, int)
    decreases l.len() + r.len() - c,
{
    if c >= l.len() + r.len() {
        (s, c)
    } else if c > limit {
        (s, c + 1)
    } else {
        let f = forward_search_round(l, r, s, ends_align);
        if f.1 {
            (f.0, c + 1)
        } else {
            let b = backward_search_round(l, r, f.0, ends_align);
            if b.1 || (c > 200 && b.0.best.length > 20) {
                (b.0, c + 1)
            } else {
                search_rounds(l, r, b.0, ends_align, c + 1, limit)
            }
        }
    }
}

/// The state a search starts from, for inputs of `n` and `m` lines: the
/// forward search at the start of both, the backward one at their ends.
pub open spec fn search_start(n: int, m: int) -> SearchState {
    SearchState {
        fwd: Seq::new((n + m + 3) as nat, |i: int| -1isize).update(m + 1, 0isize),
        fwd_low: n - m,
        fwd_high: n - m,
        bwd: Seq::new((n + m + 3) as nat, |i: int| isize::MAX).update(n + 1, n as isize),
        bwd_low: n - m,
        bwd_high: n - m,
        best: Snake { x: 0, y: 0, length: 0 },
    }
}

/// The whole search between `l` and `r`, with the round after its last.
pub open spec fn split_search(l: Seq<Seq<u8>>, r: Seq<Seq<u8>>) -> (SearchState, int) {
    search_rounds(l, r, search_start(l.len() as int, r.len() as int), l.len() % 2 == r.len() % 2, 1,
        too_expensive((l.len() + r.len()) as int))
}

/// Where the search splits `l` and `r`: the longest run it met, or, where it
/// met none, the furthest point of the forward search, with no run.
pub open spec fn split_snake(l: Seq<Seq<u8>>, r: Seq<Seq<u8>>) -> Snake {
    let s = split_search(l, r).0;
    if s.best.length == 0 {
        match furthest(s.fwd) {
            Some((d, x)) => Snake { x: x as usize, y: (x - d) as usize, length: 0 },
            None => Snake { x: 0, y: 0, length: 0 },
        }
    } else {
        s.best
    }
}

/// The number of rounds the search between `l` and `r` runs.
pub open spec fn split_rounds(l: Seq<Seq<u8>>, r: Seq<Seq<u8>>) -> int {
    split_search(l, r).1 - 1
}

/// The state of a search held in `f`, `b` and `best`.
spec fn state_of(f: Diagonals, b: Diagonals, best: Snake) -> SearchState {
    SearchState {
        fwd: f.data@,
        fwd_low: f.search_low as int,
        fwd_high: f.search_high as int,
        bwd: b.data@,
        bwd_low: b.search_low as int,
        bwd_high: b.search_high as int,
        best,
    }
}

/// The forward values lie in `-1..=top`.
spec fn fwd_bounded(f: Diagonals, n: int, m: int, top: int) -> bool {
    forall|k: int| -m - 1 <= k <= n + 1 ==> -1 <= #[trigger] f.at(k) <= top
}

/// The backward values are unset or lie in `-c..=n`.
spec fn bwd_bounded(b: Diagonals, n: int, m: int, c: int) -> bool {
    forall|k: int| -m - 1 <= k <= n + 1 ==> (#[trigger] b.at(k) == isize::MAX || -c <= b.at(k) <= n)
}

/// Every diagonal from `hi` down to `lo` in steps of two has been reached.
spec fn reached(b: Diagonals, lo: int, hi: int) -> bool {
    forall|k: int| lo <= k <= hi && (hi - k) % 2 == 0 ==> #[trigger] b.at(k) != isize::MAX
}

/// After a widening, each diagonal of the new round has a neighbour that the
/// previous round reached.
proof fn lemma_neighbour(plo: int, phi: int, lo: int, hi: int, d: int)
    requires
        plo <= phi,
        hi == phi + 1 || hi == phi - 1,
        plo - 1 <= lo,
        lo <= d <= hi,
        (hi - d) % 2 == 0,
    ensures
        (plo <= d - 1 <= phi && (phi - (d - 1)) % 2 == 0) || (plo <= d + 1 <= phi && (phi - (d + 1)) % 2 == 0),
{
}

/// One round of the forward search: widens the range and extends the path on
/// each of its diagonals from the top down. Tells whether it met the backward
/// search.
fn forward_round(
    left: &[Vec<u8>],
    right: &[Vec<u8>],
    fwd: &mut Diagonals,
    bwd: &Diagonals,
    best: &mut Snake,
    ends_align: bool,
    c: isize,
) -> (met: bool)
    requires
        lengths_ok(left@.len() as int, right@.len() as int),
        1 <= c < left@.len() + right@.len(),
        old(fwd).wf(left@.len() as int, right@.len() as int),
        bwd.wf(left@.len() as int, right@.len() as int),
        old(fwd).low() <= old(fwd).high(),
        fwd_bounded(*old(fwd), left@.len() as int, right@.len() as int, left@.len() + c - 1),
        snake_ok(*old(best), lines_of(left@), lines_of(right@)),
    ensures
        final(fwd).wf(left@.len() as int, right@.len() as int),
        final(fwd).high() == grown_high(old(fwd).high(), left@.len() as int),
        final(fwd).low() == grown_low(old(fwd).low(), -right@.len()),
        final(fwd).low() <= final(fwd).high(),
        fwd_bounded(*final(fwd), left@.len() as int, right@.len() as int, left@.len() + c),
        snake_ok(*final(best), lines_of(left@), lines_of(right@)),
        forward_search_round(lines_of(left@), lines_of(right@), state_of(*old(fwd), *bwd, *old(best)), ends_align)
            == (state_of(*final(fwd), *bwd, *final(best)), met),
{
    let ghost n = left@.len() as int;
    let ghost m = right@.len() as int;
    let ghost l = lines_of(left@);
    let ghost r = lines_of(right@);
    fwd.expand_search();
    let ghost w = state_of(*fwd, *bwd, *best);
    assert(w == widen_forward(state_of(*old(fwd), *bwd, *old(best)), n, m));
    let lo = fwd.search_low;
    let hi = fwd.search_high;
    let mut d = hi;
    let mut met = false;
    assert forall|k: int| -m - 1 <= k <= n + 1 implies {
        &&& -1 <= #[trigger] fwd.at(k) <= n + c
        &&& (hi - k) % 2 != 0 ==> fwd.at(k) < n + c
    } by {
    }
    while !met && d >= lo
        invariant
            lengths_ok(n, m),
            n == left@.len(),
            m == right@.len(),
            1 <= c < n + m,
            fwd.wf(n, m),
            bwd.wf(n, m),
            fwd.low() == lo,
            fwd.high() == hi,
            -m <= lo,
            hi <= n,
            lo - 2 <= d <= hi,
            (hi - d) % 2 == 0,
            forall|k: int| -m - 1 <= k <= n + 1 ==> {
                &&& -1 <= #[trigger] fwd.at(k) <= n + c
                &&& (hi - k) % 2 != 0 ==> fwd.at(k) < n + c
            },
            snake_ok(*best, lines_of(left@), lines_of(right@)),
            l == lines_of(left@),
            r == lines_of(right@),
            w.fwd_low == lo,
            w.fwd_high == hi,
            !met ==> forward_pass(l, r, state_of(*fwd, *bwd, *best), ends_align, d as int, lo as int)
                == forward_pass(l, r, w, ends_align, hi as int, lo as int),
            met ==> (state_of(*fwd, *bwd, *best), true) == forward_pass(l, r, w, ends_align, hi as int, lo as int),
        decreases d - lo + 2,
    {
        let ghost before = state_of(*fwd, *bwd, *best);
        let a = fwd.get(d - 1);
        let b = fwd.get(d + 1);
        let x0 = if a < b { b } else { a + 1 };
        let x = follow_forward(left, right, x0, d);
        fwd.set(d, x);
        let y = x - d;
        let snake_length = x - x0;
        best.maybe_update(x0, y - snake_length, snake_length);
        if !ends_align && bwd.search_low <= d && d <= bwd.search_high && x >= bwd.get(d) {
            best.maybe_set(x, y);
            met = true;
        }
        assert(forward_step(l, r, before, ends_align, d as int) == (state_of(*fwd, *bwd, *best), met));
        d = d - 2;
    }
    met
}

/// Writing a reached value on diagonal `d` of the current round keeps what the
/// backward search knows of its diagonals.
proof fn lemma_backward_write(b0: Diagonals, b1: Diagonals, n: int, m: int, c: int, plo: int, phi: int, hi: int, d: int, x: int)
    requires
        -m <= plo,
        phi <= n,
        -m <= d <= hi,
        hi <= n,
        b1.at(d) == x,
        -c <= x <= n,
        n < isize::MAX,
        forall|k: int| k != d && -m - 1 <= k <= n + 1 ==> #[trigger] b1.at(k) == b0.at(k),
        reached(b0, plo, phi),
        forall|k: int| d < k <= hi && (hi - k) % 2 == 0 ==> #[trigger] b0.at(k) != isize::MAX,
        forall|k: int| -m - 1 <= k <= n + 1 ==> {
            &&& (#[trigger] b0.at(k) == isize::MAX || -c <= b0.at(k) <= n)
            &&& ((hi - k) % 2 != 0 ==> b0.at(k) == isize::MAX || -c < b0.at(k))
        },
        (hi - d) % 2 == 0,
    ensures
        reached(b1, plo, phi),
        forall|k: int| d - 2 < k <= hi && (hi - k) % 2 == 0 ==> #[trigger] b1.at(k) != isize::MAX,
        forall|k: int| -m - 1 <= k <= n + 1 ==> {
            &&& (#[trigger] b1.at(k) == isize::MAX || -c <= b1.at(k) <= n)
            &&& ((hi - k) % 2 != 0 ==> b1.at(k) == isize::MAX || -c < b1.at(k))
        },
{
    assert forall|k: int| plo <= k <= phi && (phi - k) % 2 == 0 implies #[trigger] b1.at(k) != isize::MAX by {
        if k != d {
            assert(b0.at(k) != isize::MAX);
        }
    }
    assert forall|k: int| d - 2 < k <= hi && (hi - k) % 2 == 0 implies #[trigger] b1.at(k) != isize::MAX by {
        if k != d {
            assert(k > d);
            assert(b0.at(k) != isize::MAX);
        }
    }
    assert forall|k: int| -m - 1 <= k <= n + 1 implies {
        &&& (#[trigger] b1.at(k) == isize::MAX || -c <= b1.at(k) <= n)
        &&& ((hi - k) % 2 != 0 ==> b1.at(k) == isize::MAX || -c < b1.at(k))
    } by {
        if k != d {
            assert(b1.at(k) == b0.at(k));
        }
    }
}

/// One round of the backward search: widens the range and extends the path
/// back on each of its diagonals from the top down. Tells whether it met the
/// forward search.
fn backward_round(
    left: &[Vec<u8>],
    right: &[Vec<u8>],
    bwd: &mut Diagonals,
    fwd: &Diagonals,
    best: &mut Snake,
    ends_align: bool,
    c: isize,
) -> (met: bool)
    requires
        lengths_ok(left@.len() as int, right@.len() as int),
        1 <= c < left@.len() + right@.len(),
        old(bwd).wf(left@.len() as int, right@.len() as int),
        fwd.wf(left@.len() as int, right@.len() as int),
        old(bwd).low() <= old(bwd).high(),
        bwd_bounded(*old(bwd), left@.len() as int, right@.len() as int, c - 1),
        reached(*old(bwd), old(bwd).low(), old(bwd).high()),
        snake_ok(*old(best), lines_of(left@), lines_of(right@)),
    ensures
        final(bwd).wf(left@.len() as int, right@.len() as int),
        final(bwd).high() == grown_high(old(bwd).high(), left@.len() as int),
        final(bwd).low() == grown_low(old(bwd).low(), -right@.len()),
        final(bwd).low() <= final(bwd).high(),
        bwd_bounded(*final(bwd), left@.len() as int, right@.len() as int, c as int),
        !met ==> reached(*final(bwd), final(bwd).low(), final(bwd).high()),
        snake_ok(*final(best), lines_of(left@), lines_of(right@)),
        backward_search_round(lines_of(left@), lines_of(right@), state_of(*fwd, *old(bwd), *old(best)), ends_align)
            == (state_of(*fwd, *final(bwd), *final(best)), met),
{
    let ghost n = left@.len() as int;
    let ghost m = right@.len() as int;
    let ghost l = lines_of(left@);
    let ghost r = lines_of(right@);
    let ghost plo = bwd.low();
    let ghost phi = bwd.high();
    bwd.expand_search();
    let ghost w = state_of(*fwd, *bwd, *best);
    assert(w == widen_backward(state_of(*fwd, *old(bwd), *old(best)), n, m));
    let lo = bwd.search_low;
    let hi = bwd.search_high;
    let mut d = hi;
    let mut met = false;
    while !met && d >= lo
        invariant
            lengths_ok(n, m),
            n == left@.len(),
            m == right@.len(),
            1 <= c < n + m,
            bwd.wf(n, m),
            fwd.wf(n, m),
            bwd.low() == lo,
            bwd.high() == hi,
            -m <= lo,
            hi <= n,
            lo - 2 <= d <= hi,
            (hi - d) % 2 == 0,
            plo <= phi,
            -m <= plo,
            phi <= n,
            hi == phi + 1 || hi == phi - 1,
            plo - 1 <= lo,
            reached(*bwd, plo, phi),
            forall|k: int| d < k <= hi && (hi - k) % 2 == 0 ==> #[trigger] bwd.at(k) != isize::MAX,
            forall|k: int| -m - 1 <= k <= n + 1 ==> {
                &&& (#[trigger] bwd.at(k) == isize::MAX || -c <= bwd.at(k) <= n)
                &&& ((hi - k) % 2 != 0 ==> bwd.at(k) == isize::MAX || -c < bwd.at(k))
            },
            !met ==> lo <= hi,
            snake_ok(*best, lines_of(left@), lines_of(right@)),
            l == lines_of(left@),
            r == lines_of(right@),
            w.bwd_low == lo,
            w.bwd_high == hi,
            !met ==> backward_pass(l, r, state_of(*fwd, *bwd, *best), ends_align, d as int, lo as int)
                == backward_pass(l, r, w, ends_align, hi as int, lo as int),
            met ==> (state_of(*fwd, *bwd, *best), true) == backward_pass(l, r, w, ends_align, hi as int, lo as int),
        decreases d - lo + 2,
    {
        let ghost before = state_of(*fwd, *bwd, *best);
        let a = bwd.get(d - 1);
        let b = bwd.get(d + 1);
        proof {
            lemma_neighbour(plo, phi, lo as int, hi as int, d as int);
        }
        let x0 = if a < b { a } else { b - 1 };
        let x = follow_backward(left, right, x0, d, c);
        let ghost b0 = *bwd;
        bwd.set(d, x);
        proof {
            lemma_backward_write(b0, *bwd, n, m, c as int, plo, phi, hi as int, d as int, x as int);
        }
        let y = x - d;
        best.maybe_update(x, y, x0 - x);
        if ends_align && fwd.search_low <= d && d <= fwd.search_high && x <= fwd.get(d) {
            best.maybe_set(x, y);
            met = true;
        }
        assert(backward_step(l, r, before, ends_align, d as int) == (state_of(*fwd, *bwd, *best), met));
        d = d - 2;
    }
    met
}

/// The number of rounds after which a run of more than twenty lines is good
/// enough (the value of GNU diff).
const HIGH_COST: isize = 200;

proof fn lemma_sqrt_small(x: int, r: int)
    requires
        is_sqrt_floor(x, r),
        x <= isize::MAX,
    ensures
        11 * r + 1 <= isize::MAX / 2,
        11 * (if r < 4096 { 4096 } else { r }) + 1 <= isize::MAX / 2,
{
    if r >= 23 {
        assert(22 * r + 2 <= r * r) by (nonlinear_arith)
            requires r >= 23;
    }
}

/// Finds where to split the inputs: the longest run of shared lines that a
/// search from both ends along the diagonals meets, cut short by the
/// heuristics of GNU diff (`split_snake`, the search that `search_rounds`
/// states). Once the searches of a whole diff have cost too much, it picks a
/// random split point and no run. A run of length zero means that no shared
/// line was found. Otherwise each round of the search adds one to
/// `total_cost` (`split_rounds` in all): a search over two lines or more runs
/// at least one round, and fewer rounds than the inputs hold lines.
fn find_split_point(left: &[Vec<u8>], right: &[Vec<u8>], total_cost: &mut usize) -> (r: Snake)
    requires
        lengths_ok(left@.len() as int, right@.len() as int),
        *old(total_cost) <= isize::MAX / 2,
    ensures
        snake_ok(r, lines_of(left@), lines_of(right@)),
        *old(total_cost) <= *final(total_cost) <= *old(total_cost) + too_expensive((left@.len() + right@.len()) as int) + 1,
        *old(total_cost) > 10 * too_expensive((left@.len() + right@.len()) as int) ==> {
            &&& *final(total_cost) == *old(total_cost)
            &&& r.length == 0
            &&& if left@.len() == 0 { r.x == 0 } else { r.x < left@.len() }
            &&& if right@.len() == 0 { r.y == 0 } else { r.y < right@.len() }
        },
        *old(total_cost) <= 10 * too_expensive((left@.len() + right@.len()) as int) ==> {
            &&& left@.len() + right@.len() >= 2 ==> *final(total_cost) >= *old(total_cost) + 1
            &&& left@.len() + right@.len() >= 1 ==> *final(total_cost) + 1 <= *old(total_cost) + left@.len() + right@.len()
            &&& left@.len() + right@.len() == 0 ==> *final(total_cost) == *old(total_cost)
            &&& r == split_snake(lines_of(left@), lines_of(right@))
            &&& *final(total_cost) == *old(total_cost) + split_rounds(lines_of(left@), lines_of(right@))
        },
{
    let ghost n = left@.len() as int;
    let ghost m = right@.len() as int;
    let ghost t0 = *total_cost;
    let left_length = left.len() as isize;
    let right_length = right.len() as isize;
    let max_cost = left_length + right_length;
    let mc = max_cost as usize;
    assert(mc == n + m);
    let r0 = isqrt(mc);
    assert(r0 <= mc) by (nonlinear_arith)
        requires r0 * r0 <= mc, 0 <= r0;
    let root = r0 as isize;
    proof {
        lemma_sqrt_small(max_cost as int, root as int);
    }
    let too_expensive: isize = if root < 4096 { 4096 } else { root };
    if *total_cost as isize > too_expensive * 10 {
        let x = if left_length == 0 { 0 } else { random_below(left.len()) };
        let y = if right_length == 0 { 0 } else { random_below(right.len()) };
        return Snake { x, y, length: 0 };
    }
    let ghost l = lines_of(left@);
    let ghost r = lines_of(right@);
    let backwards_mid = left_length - right_length;
    let ends_align = left.len() % 2 == right.len() % 2;
    let mut forward = Diagonals::new(-1isize, left_length, right_length);
    forward.set(0, 0);
    let mut backward = Diagonals::new(isize::MAX, left_length, right_length);
    backward.set(backwards_mid, left_length);
    let mut best = Snake { x: 0, y: 0, length: 0 };
    assert(forward.data@ =~= search_start(n, m).fwd);
    assert(backward.data@ =~= search_start(n, m).bwd);
    assert(state_of(forward, backward, best) == search_start(n, m));
    let mut c: isize = 1;
    let mut stop = false;
    while !stop && c < max_cost
        invariant
            lengths_ok(n, m),
            n == left@.len(),
            m == right@.len(),
            max_cost == n + m,
            too_expensive == crate::engine::too_expensive(n + m),
            4096 <= too_expensive,
            11 * too_expensive + 1 <= isize::MAX / 2,
            t0 <= 10 * too_expensive,
            1 <= c <= too_expensive + 2,
            !stop ==> c <= too_expensive + 1,
            c <= max_cost || c == 1,
            stop ==> c >= 2,
            *total_cost == t0 + c - 1,
            forward.wf(n, m),
            backward.wf(n, m),
            forward.low() <= forward.high(),
            backward.low() <= backward.high(),
            fwd_bounded(forward, n, m, n + c - 1),
            bwd_bounded(backward, n, m, c - 1),
            !stop ==> reached(backward, backward.low(), backward.high()),
            snake_ok(best, lines_of(left@), lines_of(right@)),
            l == lines_of(left@),
            r == lines_of(right@),
            ends_align == (n % 2 == m % 2),
            !stop ==> search_rounds(l, r, state_of(forward, backward, best), ends_align, c as int, too_expensive as int)
                == split_search(l, r),
            stop ==> (state_of(forward, backward, best), c as int) == split_search(l, r),
        decreases max_cost - c,
    {
        *total_cost = *total_cost + 1;
        if c > too_expensive {
            stop = true;
        } else {
            let met = forward_round(left, right, &mut forward, &backward, &mut best, ends_align, c);
            if met {
                stop = true;
            } else {
                let met_backward = backward_round(left, right, &mut backward, &forward, &mut best, ends_align, c);
                if met_backward {
                    stop = true;
                } else if c > HIGH_COST && best.is_good() {
                    stop = true;
                }
            }
        }
        c = c + 1;
    }
    if best.length == 0 {
        let (x, y) = forward.get_furthest_progress();
        best.x = x;
        best.y = y;
    }
    best
}

proof fn lemma_sqrt_exists(x: int)
    requires
        0 <= x,
    ensures
        is_sqrt_floor(x, sqrt_floor(x)),
    decreases x,
{
    if x == 0 {
        assert(is_sqrt_floor(0, 0));
    } else {
        lemma_sqrt_exists(x - 1);
        let r = sqrt_floor(x - 1);
        if (r + 1) * (r + 1) <= x {
            assert(x < (r + 2) * (r + 2)) by (nonlinear_arith)
                requires x - 1 < (r + 1) * (r + 1), 0 <= r;
            assert(is_sqrt_floor(x, r + 1));
        } else {
            assert(is_sqrt_floor(x, r));
        }
    }
}

/// A larger input never lowers the limit on the rounds of a search.
proof fn lemma_too_expensive_mono(x: int, y: int)
    requires
        0 <= x <= y,
    ensures
        too_expensive(x) <= too_expensive(y),
{
    lemma_sqrt_exists(x);
    lemma_sqrt_exists(y);
    lemma_sqrt_floor_mono(x, sqrt_floor(x), y, sqrt_floor(y));
}

/// The most that the searches of one diff between inputs of `cap` lines in all
/// can have cost before they turn to random split points, plus the cost of
/// the search that crosses that mark.
pub open spec fn cost_cap(cap: int) -> int {
    11 * too_expensive(cap) + 1
}

/// A step of an edit script, by the text of the line it concerns.
pub enum EditLine {
    Delete(Seq<u8>),
    Insert(Seq<u8>),
    Keep(Seq<u8>),
}

/// The step `e`, by the text of its line.
pub open spec fn edit_line<'a>(e: Edit<'a, Vec<u8>>) -> EditLine {
    match e {
        Edit::Delete(x) => EditLine::Delete(x@),
        Edit::Insert(x) => EditLine::Insert(x@),
        Edit::Keep(x) => EditLine::Keep(x@),
    }
}

/// The steps of `es`, by the text of their lines.
pub open spec fn edit_lines<'a>(es: Seq<Edit<'a, Vec<u8>>>) -> Seq<EditLine> {
    es.map_values(|e: Edit<'a, Vec<u8>>| edit_line(e))
}

/// Steps that drop each of `lines`.
pub open spec fn deleting(lines: Seq<Seq<u8>>) -> Seq<EditLine> {
    lines.map_values(|x: Seq<u8>| EditLine::Delete(x))
}

/// Steps that add each of `lines`.
pub open spec fn inserting(lines: Seq<Seq<u8>>) -> Seq<EditLine> {
    lines.map_values(|x: Seq<u8>| EditLine::Insert(x))
}

/// Steps that keep each of `lines`.
pub open spec fn keeping(lines: Seq<Seq<u8>>) -> Seq<EditLine> {
    lines.map_values(|x: Seq<u8>| EditLine::Keep(x))
}

/// The common prefix and, after it, the common suffix fit in both inputs.
pub proof fn lemma_common_ends_fit(l: Seq<Seq<u8>>, r: Seq<Seq<u8>>)
    ensures
        0 <= common_ends(l, r).0,
        0 <= common_ends(l, r).1,
        common_ends(l, r).0 + common_ends(l, r).1 <= l.len(),
        common_ends(l, r).0 + common_ends(l, r).1 <= r.len(),
{
    lemma_common_prefix_fits(l, r);
    let p = common_prefix(l, r) as int;
    lemma_common_suffix_fits(l.skip(p), r.skip(p));
}

/// The common prefix fits in both inputs.
pub proof fn lemma_common_prefix_fits(l: Seq<Seq<u8>>, r: Seq<Seq<u8>>)
    ensures
        common_prefix(l, r) <= l.len(),
        common_prefix(l, r) <= r.len(),
    decreases l.len(),
{
    if l.len() > 0 && r.len() > 0 && l[0] == r[0] {
        lemma_common_prefix_fits(l.drop_first(), r.drop_first());
    }
}

/// The common suffix fits in both inputs.
pub proof fn lemma_common_suffix_fits(l: Seq<Seq<u8>>, r: Seq<Seq<u8>>)
    ensures
        common_suffix(l, r) <= l.len(),
        common_suffix(l, r) <= r.len(),
    decreases l.len(),
{
    if l.len() > 0 && r.len() > 0 && l.last() == r.last() {
        lemma_common_suffix_fits(l.drop_last(), r.drop_last());
    }
}

/// The edit script that the differ writes from `l` to `r` when the searches
/// before it have cost `t` rounds, with what they have cost after it: the
/// lines both inputs start with and end with are kept, and what lies between
/// goes to `middle_script`.
pub open spec fn diff_script(l: Seq<Seq<u8>>, r: Seq<Seq<u8>>, t: int) -> (Seq<EditLine>, int)
    decreases l.len() + r.len(), 1int,
{
    if l.len() == 0 {
        (inserting(r), t)
    } else if r.len() == 0 {
        (deleting(l), t)
    } else {
        let p = common_ends(l, r).0;
        let s = common_ends(l, r).1;
        proof {
            lemma_common_ends_fit(l, r);
        }
        let mid = middle_script(l.subrange(p, l.len() - s), r.subrange(p, r.len() - s), t);
        (keeping(l.subrange(0, p)) + mid.0 + keeping(l.subrange(l.len() - s, l.len() as int)), mid.1)
    }
}

/// The edit script between inputs whose first lines differ. While the
/// searches have cost no more than ten times the limit on the rounds of one
/// search, the search splits the inputs at the run it finds and each half
/// gets its own script; past that, or where the search finds no run, every
/// line of `l` is dropped and every line of `r` added. (A run the search
/// returns always lies inside both inputs and, as their first lines differ,
/// away from their start; the test for it shows the recursion its end.)
pub open spec fn middle_script(l: Seq<Seq<u8>>, r: Seq<Seq<u8>>, t: int) -> (Seq<EditLine>, int)
    decreases l.len() + r.len(), 0int,
{
    let searched = t <= 10 * too_expensive((l.len() + r.len()) as int);
    let sn = split_snake(l, r);
    let t1 = if searched { t + split_rounds(l, r) } else { t };
    if searched && sn.length > 0 && sn.x + sn.length <= l.len() && sn.y + sn.length <= r.len() && sn.x + sn.y > 0 {
        let a = diff_script(l.subrange(0, sn.x as int), r.subrange(0, sn.y as int), t1);
        let b = diff_script(l.subrange(sn.x as int, l.len() as int), r.subrange(sn.y as int, r.len() as int), a.1);
        (a.0 + b.0, b.1)
    } else {
        (deleting(l) + inserting(r), t1)
    }
}

/// Three scripts appended in turn to `e0`.
proof fn lemma_concat3(e0: Seq<EditLine>, e1: Seq<EditLine>, e2: Seq<EditLine>, ef: Seq<EditLine>, a: Seq<EditLine>, b: Seq<EditLine>, c: Seq<EditLine>)
    requires
        e1 == e0 + a,
        e2 == e1 + b,
        ef == e2 + c,
    ensures
        ef == e0 + (a + b + c),
{
    assert(ef =~= e0 + (a + b + c));
}

/// The script between inputs that both hold lines, by their common ends.
proof fn lemma_script_parts(l: Seq<Seq<u8>>, r: Seq<Seq<u8>>, t: int, p: int, s: int)
    requires
        l.len() > 0,
        r.len() > 0,
        p == common_ends(l, r).0,
        s == common_ends(l, r).1,
    ensures
        diff_script(l, r, t) == (keeping(l.subrange(0, p)) + middle_script(l.subrange(p, l.len() - s), r.subrange(p, r.len() - s), t).0
            + keeping(l.subrange(l.len() - s, l.len() as int)),
            middle_script(l.subrange(p, l.len() - s), r.subrange(p, r.len() - s), t).1),
{
}

/// The middle script where the search found no run, or was not run.
proof fn lemma_middle_no_run(l: Seq<Seq<u8>>, r: Seq<Seq<u8>>, t: int, sn: Snake, cost: int)
    requires
        sn.length == 0,
        t > 10 * too_expensive((l.len() + r.len()) as int) ==> cost == t,
        t <= 10 * too_expensive((l.len() + r.len()) as int) ==> sn == split_snake(l, r) && cost == t + split_rounds(l, r),
    ensures
        middle_script(l, r, t) == (deleting(l) + inserting(r), cost),
{
}

/// The middle script where the search found a run `sn`.
proof fn lemma_middle_run(l: Seq<Seq<u8>>, r: Seq<Seq<u8>>, t: int, sn: Snake, cost: int)
    requires
        sn.length > 0,
        t <= 10 * too_expensive((l.len() + r.len()) as int),
        sn == split_snake(l, r),
        cost == t + split_rounds(l, r),
        sn.x + sn.length <= l.len(),
        sn.y + sn.length <= r.len(),
        sn.x + sn.y > 0,
    ensures
        middle_script(l, r, t) == ({
            let a = diff_script(l.subrange(0, sn.x as int), r.subrange(0, sn.y as int), cost);
            let b = diff_script(l.subrange(sn.x as int, l.len() as int), r.subrange(sn.y as int, r.len() as int), a.1);
            (a.0 + b.0, b.1)
        }),
{
}

fn push_deletes<'a>(edits: &mut Vec<Edit<'a, Vec<u8>>>, lines: &'a [Vec<u8>])
    ensures
        edit_lines(final(edits)@) == edit_lines(old(edits)@) + deleting(lines_of(lines@)),
        left_side(final(edits)@) == left_side(old(edits)@) + lines_of(lines@),
        right_side(final(edits)@) == right_side(old(edits)@),
        final(edits)@.len() == old(edits)@.len() + lines@.len(),
        forall|j: int| 0 <= j < old(edits)@.len() ==> final(edits)@[j] == old(edits)@[j],
        lines@.len() == 0 ==> final(edits)@ == old(edits)@,
        forall|j: int| old(edits)@.len() <= j < final(edits)@.len() ==> #[trigger] final(edits)@[j] is Delete,
        deletes_first(old(edits)@) && (!ends_in_insert(old(edits)@) || lines@.len() == 0) ==> deletes_first(final(edits)@),
{
    let mut i: usize = 0;
    assert(lines_of(lines@).subrange(0, 0) =~= Seq::<Seq<u8>>::empty());
    while i < lines.len()
        invariant
            edit_lines(edits@) == edit_lines(old(edits)@) + deleting(lines_of(lines@).subrange(0, i as int)),
            i <= lines@.len(),
            left_side(edits@) == left_side(old(edits)@) + lines_of(lines@).subrange(0, i as int),
            right_side(edits@) == right_side(old(edits)@),
            edits@.len() == old(edits)@.len() + i,
            forall|j: int| 0 <= j < old(edits)@.len() ==> edits@[j] == old(edits)@[j],
            forall|j: int| old(edits)@.len() <= j < edits@.len() ==> #[trigger] edits@[j] is Delete,
        decreases lines@.len() - i,
    {
        let ghost before = edits@;
        edits.push(Edit::Delete(&lines[i]));
        assert(edit_lines(edits@) =~= edit_lines(before).push(EditLine::Delete(lines@[i as int]@)));
        assert(deleting(lines_of(lines@).subrange(0, i + 1)) =~= deleting(lines_of(lines@).subrange(0, i as int)).push(EditLine::Delete(lines@[i as int]@)));
        assert(edits@.drop_last() =~= before);
        assert(lines_of(lines@).subrange(0, i + 1) =~= lines_of(lines@).subrange(0, i as int).push(lines@[i as int]@));
        i = i + 1;
    }
    assert(lines_of(lines@).subrange(0, i as int) =~= lines_of(lines@));
    assert(lines@.len() == 0 ==> edits@ =~= old(edits)@);
    proof {
        if deletes_first(old(edits)@) && (!ends_in_insert(old(edits)@) || lines@.len() == 0) {
            assert forall|k: int| old(edits)@.len() <= k && k + 1 < edits@.len() implies !#[trigger] insert_then_delete(edits@, k) by {
                assert(edits@[k] is Delete);
            }
            lemma_extend_deletes_first(old(edits)@, edits@);
        }
    }
}

fn push_inserts<'a>(edits: &mut Vec<Edit<'a, Vec<u8>>>, lines: &'a [Vec<u8>])
    ensures
        edit_lines(final(edits)@) == edit_lines(old(edits)@) + inserting(lines_of(lines@)),
        right_side(final(edits)@) == right_side(old(edits)@) + lines_of(lines@),
        left_side(final(edits)@) == left_side(old(edits)@),
        final(edits)@.len() == old(edits)@.len() + lines@.len(),
        forall|j: int| 0 <= j < old(edits)@.len() ==> final(edits)@[j] == old(edits)@[j],
        lines@.len() == 0 ==> final(edits)@ == old(edits)@,
        forall|j: int| old(edits)@.len() <= j < final(edits)@.len() ==> #[trigger] final(edits)@[j] is Insert,
        deletes_first(old(edits)@) ==> deletes_first(final(edits)@),
{
    let mut i: usize = 0;
    assert(lines_of(lines@).subrange(0, 0) =~= Seq::<Seq<u8>>::empty());
    while i < lines.len()
        invariant
            edit_lines(edits@) == edit_lines(old(edits)@) + inserting(lines_of(lines@).subrange(0, i as int)),
            i <= lines@.len(),
            right_side(edits@) == right_side(old(edits)@) + lines_of(lines@).subrange(0, i as int),
            left_side(edits@) == left_side(old(edits)@),
            edits@.len() == old(edits)@.len() + i,
            forall|j: int| 0 <= j < old(edits)@.len() ==> edits@[j] == old(edits)@[j],
            forall|j: int| old(edits)@.len() <= j < edits@.len() ==> #[trigger] edits@[j] is Insert,
        decreases lines@.len() - i,
    {
        let ghost before = edits@;
        edits.push(Edit::Insert(&lines[i]));
        assert(edit_lines(edits@) =~= edit_lines(before).push(EditLine::Insert(lines@[i as int]@)));
        assert(inserting(lines_of(lines@).subrange(0, i + 1)) =~= inserting(lines_of(lines@).subrange(0, i as int)).push(EditLine::Insert(lines@[i as int]@)));
        assert(edits@.drop_last() =~= before);
        assert(lines_of(lines@).subrange(0, i + 1) =~= lines_of(lines@).subrange(0, i as int).push(lines@[i as int]@));
        i = i + 1;
    }
    assert(lines_of(lines@).subrange(0, i as int) =~= lines_of(lines@));
    assert(lines@.len() == 0 ==> edits@ =~= old(edits)@);
    proof {
        if deletes_first(old(edits)@) {
            assert forall|k: int| old(edits)@.len() <= k && k + 1 < edits@.len() implies !#[trigger] insert_then_delete(edits@, k) by {
                assert(edits@[k + 1] is Insert);
            }
            lemma_extend_deletes_first(old(edits)@, edits@);
        }
    }
}

fn push_keeps<'a>(edits: &mut Vec<Edit<'a, Vec<u8>>>, lines: &'a [Vec<u8>])
    ensures
        edit_lines(final(edits)@) == edit_lines(old(edits)@) + keeping(lines_of(lines@)),
        left_side(final(edits)@) == left_side(old(edits)@) + lines_of(lines@),
        right_side(final(edits)@) == right_side(old(edits)@) + lines_of(lines@),
        final(edits)@.len() == old(edits)@.len() + lines@.len(),
        forall|j: int| 0 <= j < old(edits)@.len() ==> final(edits)@[j] == old(edits)@[j],
        forall|j: int| old(edits)@.len() <= j < final(edits)@.len() ==> #[trigger] final(edits)@[j] is Keep,
        forall|k: int| 0 <= k < lines@.len() ==> keeps(#[trigger] final(edits)@[old(edits)@.len() + k], lines@[k]@),
        deletes_first(old(edits)@) ==> deletes_first(final(edits)@),
{
    let mut i: usize = 0;
    assert(lines_of(lines@).subrange(0, 0) =~= Seq::<Seq<u8>>::empty());
    while i < lines.len()
        invariant
            edit_lines(edits@) == edit_lines(old(edits)@) + keeping(lines_of(lines@).subrange(0, i as int)),
            i <= lines@.len(),
            left_side(edits@) == left_side(old(edits)@) + lines_of(lines@).subrange(0, i as int),
            right_side(edits@) == right_side(old(edits)@) + lines_of(lines@).subrange(0, i as int),
            edits@.len() == old(edits)@.len() + i,
            forall|j: int| 0 <= j < old(edits)@.len() ==> edits@[j] == old(edits)@[j],
            forall|j: int| old(edits)@.len() <= j < edits@.len() ==> #[trigger] edits@[j] is Keep,
            forall|k: int| 0 <= k < i ==> keeps(#[trigger] edits@[old(edits)@.len() + k], lines@[k]@),
        decreases lines@.len() - i,
    {
        let ghost before = edits@;
        edits.push(Edit::Keep(&lines[i]));
        assert(edit_lines(edits@) =~= edit_lines(before).push(EditLine::Keep(lines@[i as int]@)));
        assert(keeping(lines_of(lines@).subrange(0, i + 1)) =~= keeping(lines_of(lines@).subrange(0, i as int)).push(EditLine::Keep(lines@[i as int]@)));
        assert(keeps(edits@[old(edits)@.len() + i], lines@[i as int]@));
        assert(edits@.drop_last() =~= before);
        assert(lines_of(lines@).subrange(0, i + 1) =~= lines_of(lines@).subrange(0, i as int).push(lines@[i as int]@));
        i = i + 1;
    }
    assert(lines_of(lines@).subrange(0, i as int) =~= lines_of(lines@));
    proof {
        if deletes_first(old(edits)@) {
            assert forall|k: int| old(edits)@.len() <= k && k + 1 < edits@.len() implies !#[trigger] insert_then_delete(edits@, k) by {
                assert(edits@[k] is Keep);
            }
            lemma_extend_deletes_first(old(edits)@, edits@);
        }
    }
}

/// The number of lines that both inputs start with.
fn leading_matches(left: &[Vec<u8>], right: &[Vec<u8>]) -> (lead: usize)
    ensures
        lead <= left@.len(),
        lead <= right@.len(),
        lines_of(left@).subrange(0, lead as int) == lines_of(right@).subrange(0, lead as int),
        lead < left@.len() && lead < right@.len() ==> left@[lead as int]@ != right@[lead as int]@,
{
    let ghost l = lines_of(left@);
    let ghost r = lines_of(right@);
    let n = left.len();
    let m = right.len();
    let mut lead: usize = 0;
    while lead < n && lead < m && same_line(&left[lead], &right[lead])
        invariant
            n == left@.len(),
            m == right@.len(),
            lead <= n,
            lead <= m,
            l == lines_of(left@),
            r == lines_of(right@),
            l.subrange(0, lead as int) == r.subrange(0, lead as int),
        decreases n - lead,
    {
        assert(l.subrange(0, lead + 1) =~= l.subrange(0, lead as int).push(l[lead as int]));
        assert(r.subrange(0, lead + 1) =~= r.subrange(0, lead as int).push(r[lead as int]));
        lead = lead + 1;
    }
    lead
}

/// The number of lines that both inputs end with, among those after the
/// first `lead` lines.
fn trailing_matches(left: &[Vec<u8>], right: &[Vec<u8>], lead: usize) -> (trail: usize)
    requires
        lead <= left@.len(),
        lead <= right@.len(),
    ensures
        trail <= left@.len() - lead,
        trail <= right@.len() - lead,
        lines_of(left@).subrange(left@.len() - trail, left@.len() as int)
            == lines_of(right@).subrange(right@.len() - trail, right@.len() as int),
        trail < left@.len() - lead && trail < right@.len() - lead
            ==> left@[left@.len() - 1 - trail]@ != right@[right@.len() - 1 - trail]@,
{
    let ghost l = lines_of(left@);
    let ghost r = lines_of(right@);
    let n = left.len();
    let m = right.len();
    let mut trail: usize = 0;
    while trail < n - lead && trail < m - lead && same_line(&left[n - 1 - trail], &right[m - 1 - trail])
        invariant
            n == left@.len(),
            m == right@.len(),
            lead <= n,
            lead <= m,
            trail <= n - lead,
            trail <= m - lead,
            l == lines_of(left@),
            r == lines_of(right@),
            l.subrange(n - trail, n as int) == r.subrange(m - trail, m as int),
        decreases n - trail,
    {
        assert(l.subrange(n - trail - 1, n as int) =~= seq![l[n - trail - 1]] + l.subrange(n - trail, n as int));
        assert(r.subrange(m - trail - 1, m as int) =~= seq![r[m - trail - 1]] + r.subrange(m - trail, m as int));
        trail = trail + 1;
    }
    trail
}

/// Appends to `edits` an edit script between inputs whose first lines
/// differ: split at the run that the search finds and diffed in two halves,
/// or, where it finds none, every line dropped from the left and added from
/// the right.
#[verifier::rlimit(100)]
#[verifier::spinoff_prover]
fn diff_middle<'a>(
    left: &'a [Vec<u8>],
    right: &'a [Vec<u8>],
    edits: &mut Vec<Edit<'a, Vec<u8>>>,
    total_cost: &mut usize,
    Ghost(cap): Ghost<int>,
)
    requires
        lengths_ok(cap, 0),
        left@.len() + right@.len() <= cap,
        *old(total_cost) <= cost_cap(cap),
        left@.len() > 0 && right@.len() > 0 ==> left@[0]@ != right@[0]@,
        deletes_first(old(edits)@),
        !ends_in_insert(old(edits)@),
    ensures
        deletes_first(final(edits)@),
        left@.len() == 0 ==> forall|j: int| old(edits)@.len() <= j < final(edits)@.len() ==> #[trigger] final(edits)@[j] is Insert,
        right@.len() == 0 ==> forall|j: int| old(edits)@.len() <= j < final(edits)@.len() ==> #[trigger] final(edits)@[j] is Delete,
        *final(total_cost) <= cost_cap(cap),
        left_side(final(edits)@) == left_side(old(edits)@) + lines_of(left@),
        right_side(final(edits)@) == right_side(old(edits)@) + lines_of(right@),
        final(edits)@.len() >= old(edits)@.len(),
        forall|j: int| 0 <= j < old(edits)@.len() ==> final(edits)@[j] == old(edits)@[j],
        left@.len() == 0 && right@.len() == 0 ==> final(edits)@ == old(edits)@,
        edit_lines(final(edits)@) == edit_lines(old(edits)@)
            + middle_script(lines_of(left@), lines_of(right@), *old(total_cost) as int).0,
        *final(total_cost) == middle_script(lines_of(left@), lines_of(right@), *old(total_cost) as int).1,
    decreases left@.len() + right@.len(), 0int,
{
    proof {
        lemma_too_expensive_mono((left@.len() + right@.len()) as int, cap);
        lemma_sqrt_exists(cap);
        lemma_sqrt_small(cap, sqrt_floor(cap));
    }
    let ghost l = lines_of(left@);
    let ghost r = lines_of(right@);
    let ghost e0 = edits@;
    let ghost t = *total_cost;
    let snake = find_split_point(left, right, total_cost);
    let ghost tc = *total_cost;
    if snake.length == 0 {
        push_deletes(edits, left);
        push_inserts(edits, right);
        assert(edit_lines(edits@) =~= edit_lines(e0) + (deleting(l) + inserting(r)));
        proof {
            lemma_middle_no_run(l, r, t as int, snake, *total_cost as int);
        }
    } else {
        let (l1, l2) = left.split_at(snake.x);
        let (r1, r2) = right.split_at(snake.y);
        proof {
            if snake.x == 0 && snake.y == 0 {
                assert(left@[0]@ == lines_of(left@).subrange(0, snake.length as int)[0]);
                assert(right@[0]@ == lines_of(right@).subrange(0, snake.length as int)[0]);
            }
        }
        do_diff(l1, r1, edits, total_cost, Ghost(cap));
        proof {
            assert(l2@[0] == left@[snake.x as int]);
            assert(r2@[0] == right@[snake.y as int]);
            assert(left@[snake.x as int]@ == lines_of(left@).subrange(snake.x as int, snake.x + snake.length)[0]);
            assert(right@[snake.y as int]@ == lines_of(right@).subrange(snake.y as int, snake.y + snake.length)[0]);
        }
        let ghost e1 = edits@;
        do_diff(l2, r2, edits, total_cost, Ghost(cap));
        assert(lines_of(l1@) + lines_of(l2@) =~= lines_of(left@));
        assert(lines_of(r1@) + lines_of(r2@) =~= lines_of(right@));
        assert(lines_of(l1@) =~= l.subrange(0, snake.x as int));
        assert(lines_of(r1@) =~= r.subrange(0, snake.y as int));
        assert(lines_of(l2@) =~= l.subrange(snake.x as int, l.len() as int));
        assert(lines_of(r2@) =~= r.subrange(snake.y as int, r.len() as int));
        assert(edit_lines(edits@) =~= edit_lines(e0) + (edit_lines(e1).skip(e0.len() as int) + edit_lines(edits@).skip(e1.len() as int)));
        proof {
            lemma_middle_run(l, r, t as int, snake, tc as int);
        }
    }
}

/// Appends to `edits` an edit script from `left` to `right`: the lines both
/// start with and end with are kept, and what lies between is diffed by
/// `diff_middle`.
fn do_diff<'a>(
    left: &'a [Vec<u8>],
    right: &'a [Vec<u8>],
    edits: &mut Vec<Edit<'a, Vec<u8>>>,
    total_cost: &mut usize,
    Ghost(cap): Ghost<int>,
)
    requires
        lengths_ok(cap, 0),
        left@.len() + right@.len() <= cap,
        *old(total_cost) <= cost_cap(cap),
        deletes_first(old(edits)@),
        !ends_in_insert(old(edits)@) || (left@.len() > 0 && right@.len() > 0 && left@[0]@ == right@[0]@),
    ensures
        deletes_first(final(edits)@),
        middle_one_kind(final(edits)@, old(edits)@.len() as int, lines_of(left@), lines_of(right@)),
        *final(total_cost) <= cost_cap(cap),
        left_side(final(edits)@) == left_side(old(edits)@) + lines_of(left@),
        right_side(final(edits)@) == right_side(old(edits)@) + lines_of(right@),
        final(edits)@.len() >= old(edits)@.len(),
        forall|j: int| 0 <= j < old(edits)@.len() ==> final(edits)@[j] == old(edits)@[j],
        lines_of(left@) == lines_of(right@) ==>
            forall|j: int| old(edits)@.len() <= j < final(edits)@.len() ==> #[trigger] final(edits)@[j] is Keep,
        keeps_ends(final(edits)@, old(edits)@.len() as int, lines_of(left@),
            common_ends(lines_of(left@), lines_of(right@)).0, common_ends(lines_of(left@), lines_of(right@)).1),
        edit_lines(final(edits)@) == edit_lines(old(edits)@)
            + diff_script(lines_of(left@), lines_of(right@), *old(total_cost) as int).0,
        *final(total_cost) == diff_script(lines_of(left@), lines_of(right@), *old(total_cost) as int).1,
    decreases left@.len() + right@.len(), 2int,
{
    let ghost l = lines_of(left@);
    let ghost r = lines_of(right@);
    if left.len() == 0 {
        push_inserts(edits, right);
        proof {
            assert(l =~= Seq::<Seq<u8>>::empty());
            assert(l == r ==> r.len() == 0 && right@.len() == 0);
            assert(l.skip(0) =~= l);
        }
        return;
    } else if right.len() == 0 {
        push_deletes(edits, left);
        proof {
            assert(r =~= Seq::<Seq<u8>>::empty());
            assert(l == r ==> l.len() == 0 && left@.len() == 0);
            assert(r.skip(0) =~= r);
        }
        return;
    }
    do_diff_parts(left, right, edits, total_cost, Ghost(cap));
}

/// The work of `do_diff` on two inputs that both hold lines.
#[verifier::rlimit(100)]
#[verifier::spinoff_prover]
fn do_diff_parts<'a>(
    left: &'a [Vec<u8>],
    right: &'a [Vec<u8>],
    edits: &mut Vec<Edit<'a, Vec<u8>>>,
    total_cost: &mut usize,
    Ghost(cap): Ghost<int>,
)
    requires
        lengths_ok(cap, 0),
        left@.len() + right@.len() <= cap,
        *old(total_cost) <= cost_cap(cap),
        left@.len() > 0,
        right@.len() > 0,
        deletes_first(old(edits)@),
        !ends_in_insert(old(edits)@) || (left@.len() > 0 && right@.len() > 0 && left@[0]@ == right@[0]@),
    ensures
        deletes_first(final(edits)@),
        middle_one_kind(final(edits)@, old(edits)@.len() as int, lines_of(left@), lines_of(right@)),
        *final(total_cost) <= cost_cap(cap),
        left_side(final(edits)@) == left_side(old(edits)@) + lines_of(left@),
        right_side(final(edits)@) == right_side(old(edits)@) + lines_of(right@),
        final(edits)@.len() >= old(edits)@.len(),
        forall|j: int| 0 <= j < old(edits)@.len() ==> final(edits)@[j] == old(edits)@[j],
        lines_of(left@) == lines_of(right@) ==>
            forall|j: int| old(edits)@.len() <= j < final(edits)@.len() ==> #[trigger] final(edits)@[j] is Keep,
        keeps_ends(final(edits)@, old(edits)@.len() as int, lines_of(left@),
            common_ends(lines_of(left@), lines_of(right@)).0, common_ends(lines_of(left@), lines_of(right@)).1),
        edit_lines(final(edits)@) == edit_lines(old(edits)@)
            + diff_script(lines_of(left@), lines_of(right@), *old(total_cost) as int).0,
        *final(total_cost) == diff_script(lines_of(left@), lines_of(right@), *old(total_cost) as int).1,
    decreases left@.len() + right@.len(), 1int,
{
    let ghost l = lines_of(left@);
    let ghost r = lines_of(right@);
    let n = left.len();
    let m = right.len();
    let lead = leading_matches(left, right);
    let trail = trailing_matches(left, right, lead);
    let leading: &'a [Vec<u8>] = &left[0..lead];
    let left_remaining: &'a [Vec<u8>] = &left[lead..n - trail];
    let right_remaining: &'a [Vec<u8>] = &right[lead..m - trail];
    let trailing: &'a [Vec<u8>] = &left[n - trail..n];
    assert(lines_of(leading@) =~= l.subrange(0, lead as int));
    assert(lines_of(left_remaining@) =~= l.subrange(lead as int, n - trail));
    assert(lines_of(right_remaining@) =~= r.subrange(lead as int, m - trail));
    assert(lines_of(trailing@) =~= l.subrange(n - trail, n as int));
    proof {
        if left_remaining@.len() > 0 && right_remaining@.len() > 0 {
            assert(left_remaining@[0] == left@[lead as int]);
            assert(right_remaining@[0] == right@[lead as int]);
        }
        if l == r {
            assert(n == m);
            assert(lead == n) by {
                if lead < n {
                    assert(l[lead as int] == left@[lead as int]@);
                    assert(r[lead as int] == right@[lead as int]@);
                }
            }
        }
    }
    let ghost e0 = edits@;
    let ghost t0 = *total_cost;
    push_keeps(edits, leading);
    let ghost e1 = edits@;
    proof {
        if lead > 0 {
            assert(e1.last() == e1[e0.len() + lead - 1]);
        } else {
            assert(e1 =~= e0);
            if left@.len() > 0 && right@.len() > 0 && left@[0]@ == right@[0]@ {
                assert(l[0] == left@[0]@ && r[0] == right@[0]@);
            }
        }
    }
    diff_middle(left_remaining, right_remaining, edits, total_cost, Ghost(cap));
    let ghost e2 = edits@;
    push_keeps(edits, trailing);
    assert(l =~= l.subrange(0, lead as int) + l.subrange(lead as int, n - trail) + l.subrange(n - trail, n as int));
    assert(r =~= r.subrange(0, lead as int) + r.subrange(lead as int, m - trail) + r.subrange(m - trail, m as int));
    proof {
        lemma_common_prefix(l, r, lead as int);
        let ls = l.skip(lead as int);
        let rs = r.skip(lead as int);
        assert(ls.subrange(ls.len() - trail, ls.len() as int) =~= l.subrange(n - trail, n as int));
        assert(rs.subrange(rs.len() - trail, rs.len() as int) =~= r.subrange(m - trail, m as int));
        if trail < ls.len() && trail < rs.len() {
            assert(ls[ls.len() - 1 - trail] == l[n - 1 - trail]);
            assert(rs[rs.len() - 1 - trail] == r[m - 1 - trail]);
        }
        lemma_common_suffix(ls, rs, trail as int);
        assert forall|k: int| 0 <= k < lead implies keeps(#[trigger] e1[e0.len() + k], l[k]) by {
            assert(leading@[k] == left@[k]);
        }
        let ef = edits@;
        assert forall|k: int| 0 <= k < trail implies keeps(#[trigger] ef[e2.len() + k], l[l.len() - trail + k]) by {
            assert(trailing@[k] == left@[n - trail + k]);
        }
        lemma_ends_kept(e0, e1, e2, ef, l, lead as int, trail as int);
    }
    proof {
        if l == r {
            assert(e2 == e1);
            assert forall|j: int| e0.len() <= j < edits@.len() implies #[trigger] edits@[j] is Keep by {
                if j < e1.len() {
                    assert(edits@[j] == e1[j]);
                }
            }
        }
    }
    proof {
        let ef = edits@;
        if lead + trail == n {
            assert(left_remaining@.len() == 0);
            assert forall|j: int| e0.len() + lead <= j < ef.len() - trail implies #[trigger] ef[j] is Insert by {
                assert(ef[j] == e2[j]);
            }
        }
        if lead + trail == m {
            assert(right_remaining@.len() == 0);
            assert forall|j: int| e0.len() + lead <= j < ef.len() - trail implies #[trigger] ef[j] is Delete by {
                assert(ef[j] == e2[j]);
            }
        }
    }
    proof {
        lemma_script_parts(l, r, t0 as int, lead as int, trail as int);
        lemma_concat3(edit_lines(e0), edit_lines(e1), edit_lines(e2), edit_lines(edits@), keeping(lines_of(leading@)),
            middle_script(lines_of(left_remaining@), lines_of(right_remaining@), t0 as int).0, keeping(lines_of(trailing@)));
    }
}

/// An edit script from `left` to `right`: walking it and keeping the lines it
/// drops and keeps gives `left`; keeping those it adds and keeps gives `right`.
/// It starts by keeping the lines both inputs start with and ends by keeping
/// the lines that both end with after those; what lies between is split at
/// the runs of shared lines that the search finds. Within each change the
/// deletions come before the insertions. Where the lines both inputs start
/// and end with make up all of one input, the other input's remaining lines
/// are added or removed as one block (so the script is a shortest one).
/// Identical inputs give a script that only keeps lines. Step by step, the
/// script is `diff_script(left, right, 0)`: the searches split the differing middle
/// at the runs they find, and those runs are kept.
pub fn diff<'a>(left: &'a [Vec<u8>], right: &'a [Vec<u8>]) -> (r: Vec<Edit<'a, Vec<u8>>>)
    requires
        lengths_ok(left@.len() as int, right@.len() as int),
    ensures
        left_side(r@) == lines_of(left@),
        right_side(r@) == lines_of(right@),
        lines_of(left@) == lines_of(right@) ==> all_kept(r@),
        keeps_ends(r@, 0, lines_of(left@), common_ends(lines_of(left@), lines_of(right@)).0,
            common_ends(lines_of(left@), lines_of(right@)).1),
        deletes_first(r@),
        middle_one_kind(r@, 0, lines_of(left@), lines_of(right@)),
        edit_lines(r@) == diff_script(lines_of(left@), lines_of(right@), 0).0,
{
    let mut edits: Vec<Edit<'a, Vec<u8>>> = Vec::new();
    let mut total_cost: usize = 0;
    let ghost cap: int = (left@.len() + right@.len()) as int;
    proof {
        lemma_sqrt_exists(cap);
    }
    do_diff(left, right, &mut edits, &mut total_cost, Ghost(cap));
    assert(left_side(Seq::<Edit<'a, Vec<u8>>>::empty()) =~= Seq::<Seq<u8>>::empty());
    assert(right_side(Seq::<Edit<'a, Vec<u8>>>::empty()) =~= Seq::<Seq<u8>>::empty());
    assert(Seq::<Seq<u8>>::empty() + lines_of(left@) =~= lines_of(left@));
    assert(Seq::<Seq<u8>>::empty() + lines_of(right@) =~= lines_of(right@));
    assert(edit_lines(Seq::<Edit<'a, Vec<u8>>>::empty()) + diff_script(lines_of(left@), lines_of(right@), 0).0
        =~= diff_script(lines_of(left@), lines_of(right@), 0).0);
    edits
}

/// Calls `rand::Rng::gen_range` on the generator of the thread
/// (`rand::thread_rng`) for a number in `0..n`; the crate promises no more than
/// that range.
#[verifier::external_body]
pub(crate) fn random_below(n: usize) -> (r: usize)
    requires
        n > 0,
    ensures
        r < n,
{
    rand::Rng::gen_range(&mut rand::thread_rng(), 0..n)
}

} // verus!
