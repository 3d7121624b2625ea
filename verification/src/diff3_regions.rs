//! The regions of a three-way comparison, built from the edit scripts between
//! the first edited file and the ancestor, and between the ancestor and the
//! second edited file.

use vstd::prelude::*;
use crate::lines::lines_of;
use crate::script::{DiffOp, fits, left_count, right_count, lemma_count_step, lemma_count_prefix,
    lemma_take_all};
use crate::diff3::{ConflictType, Diff3Region, RegionV, regions_view, are_files_identical};

verus! {

/// A run of consecutive changed steps of a two-way script: where it starts and
/// how many lines it spans on the left and on the right.
pub struct ChangeRun {
    pub ls: int,
    pub lc: int,
    pub rs: int,
    pub rc: int,
}

/// The state of the scan over a two-way script.
pub struct ScanState {
    pub li: int,
    pub ri: int,
    pub sl: int,
    pub sr: int,
    pub in_change: bool,
    pub runs: Seq<ChangeRun>,
}

pub open spec fn open_run(st: ScanState) -> ChangeRun {
    ChangeRun { ls: st.sl, lc: st.li - st.sl, rs: st.sr, rc: st.ri - st.sr }
}

pub open spec fn scan_step(st: ScanState, op: DiffOp) -> ScanState {
    match op {
        DiffOp::Both => ScanState {
            li: st.li + 1,
            ri: st.ri + 1,
            in_change: false,
            runs: if st.in_change { st.runs.push(open_run(st)) } else { st.runs },
            ..st
        },
        DiffOp::Left => ScanState {
            li: st.li + 1,
            sl: if st.in_change { st.sl } else { st.li },
            sr: if st.in_change { st.sr } else { st.ri },
            in_change: true,
            ..st
        },
        DiffOp::Right => ScanState {
            ri: st.ri + 1,
            sl: if st.in_change { st.sl } else { st.li },
            sr: if st.in_change { st.sr } else { st.ri },
            in_change: true,
            ..st
        },
    }
}

pub open spec fn scan_run(s: Seq<DiffOp>, k: nat) -> ScanState
    decreases k,
{
    if k == 0 {
        ScanState { li: 0, ri: 0, sl: 0, sr: 0, in_change: false, runs: Seq::empty() }
    } else {
        scan_step(scan_run(s, (k - 1) as nat), s[k - 1])
    }
}

/// The runs of changes of a two-way script, in order.
pub open spec fn change_runs(s: Seq<DiffOp>) -> Seq<ChangeRun> {
    let st = scan_run(s, s.len());
    if st.in_change {
        st.runs.push(open_run(st))
    } else {
        st.runs
    }
}

/// A run lies within `nl` lines on the left and `nr` on the right.
pub open spec fn run_ok(r: ChangeRun, nl: int, nr: int) -> bool {
    0 <= r.ls && 0 <= r.lc && r.ls + r.lc <= nl && 0 <= r.rs && 0 <= r.rc && r.rs + r.rc <= nr
}

pub open spec fn runs_ok(rs: Seq<ChangeRun>, nl: int, nr: int) -> bool {
    forall|i: int| 0 <= i < rs.len() ==> run_ok(#[trigger] rs[i], nl, nr)
}

/// The runs line up between two files of `nl` and `nr` lines: before each
/// run, and after the last, the files share equally many lines.
pub open spec fn aligned(rs: Seq<ChangeRun>, nl: int, nr: int) -> bool
    decreases rs.len(),
{
    if rs.len() == 0 {
        nl == nr
    } else {
        let r = rs.last();
        &&& 0 <= r.lc
        &&& 0 <= r.rc
        &&& r.ls + r.lc <= nl
        &&& nl - (r.ls + r.lc) == nr - (r.rs + r.rc)
        &&& aligned(rs.drop_last(), r.ls, r.rs)
    }
}

pub open spec fn runs_view(v: Seq<(usize, usize, usize, usize)>) -> Seq<ChangeRun> {
    Seq::new(v.len(), |i: int| ChangeRun { ls: v[i].0 as int, lc: v[i].1 as int, rs: v[i].2 as int, rc: v[i].3 as int })
}

/// The runs of changes of a two-way script, as (left start, left count, right
/// start, right count).
pub fn change_runs_of(script: &Vec<DiffOp>) -> (r: Vec<(usize, usize, usize, usize)>)
    requires
        left_count(script@) < usize::MAX,
        right_count(script@) < usize::MAX,
    ensures
        runs_view(r@) == change_runs(script@),
        runs_ok(change_runs(script@), left_count(script@) as int, right_count(script@) as int),
        aligned(change_runs(script@), left_count(script@) as int, right_count(script@) as int),
{
    let ghost s = script@;
    let ghost nl = left_count(s) as int;
    let ghost nr = right_count(s) as int;
    let mut runs: Vec<(usize, usize, usize, usize)> = Vec::new();
    let mut li: usize = 0;
    let mut ri: usize = 0;
    let mut sl: usize = 0;
    let mut sr: usize = 0;
    let mut in_change = false;
    let mut i: usize = 0;
    assert(runs_view(runs@) =~= Seq::<ChangeRun>::empty());
    while i < script.len()
        invariant
            s == script@,
            nl == left_count(s),
            nr == right_count(s),
            nl < usize::MAX,
            nr < usize::MAX,
            i <= s.len(),
            li == left_count(s.take(i as int)),
            ri == right_count(s.take(i as int)),
            li <= nl,
            ri <= nr,
            sl <= li,
            sr <= ri,
            ({
                let st = scan_run(s, i as nat);
                &&& st.li == li
                &&& st.ri == ri
                &&& st.in_change == in_change
                &&& (in_change ==> st.sl == sl && st.sr == sr)
                &&& st.runs == runs_view(runs@)
            }),
            runs_ok(runs_view(runs@), nl, nr),
            if in_change { aligned(runs_view(runs@), sl as int, sr as int) } else { aligned(runs_view(runs@), li as int, ri as int) },
        decreases s.len() - i,
    {
        proof {
            lemma_count_step(s, i as int);
            lemma_count_prefix(s, i as int + 1);
        }
        let ghost before = runs_view(runs@);
        match script[i] {
            DiffOp::Both => {
                if in_change {
                    runs.push((sl, li - sl, sr, ri - sr));
                    assert(runs_view(runs@) =~= before.push(ChangeRun { ls: sl as int, lc: li - sl, rs: sr as int, rc: ri - sr }));
                    assert(runs_view(runs@).drop_last() =~= before);
                    in_change = false;
                }
                li = li + 1;
                ri = ri + 1;
            },
            DiffOp::Left => {
                if !in_change {
                    sl = li;
                    sr = ri;
                    in_change = true;
                }
                li = li + 1;
            },
            DiffOp::Right => {
                if !in_change {
                    sl = li;
                    sr = ri;
                    in_change = true;
                }
                ri = ri + 1;
            },
        }
        i = i + 1;
    }
    proof {
        lemma_take_all(s);
    }
    if in_change {
        let ghost before = runs_view(runs@);
        runs.push((sl, li - sl, sr, ri - sr));
        assert(runs_view(runs@) =~= before.push(ChangeRun { ls: sl as int, lc: li - sl, rs: sr as int, rc: ri - sr }));
        assert(runs_view(runs@).drop_last() =~= before);
    }
    runs
}

/// A region of change before it is classified: its place in each file and
/// which edited files changed it.
#[derive(Clone, Copy, Debug)]
pub struct Hunk {
    pub mine_start: usize,
    pub mine_count: usize,
    pub older_start: usize,
    pub older_count: usize,
    pub yours_start: usize,
    pub yours_count: usize,
    pub mine_changed: bool,
    pub yours_changed: bool,
}

pub struct HunkV {
    pub mine_start: int,
    pub mine_count: int,
    pub older_start: int,
    pub older_count: int,
    pub yours_start: int,
    pub yours_count: int,
    pub mine_changed: bool,
    pub yours_changed: bool,
}

impl View for Hunk {
    type V = HunkV;

    open spec fn view(&self) -> HunkV {
        HunkV {
            mine_start: self.mine_start as int,
            mine_count: self.mine_count as int,
            older_start: self.older_start as int,
            older_count: self.older_count as int,
            yours_start: self.yours_start as int,
            yours_count: self.yours_count as int,
            mine_changed: self.mine_changed,
            yours_changed: self.yours_changed,
        }
    }
}

pub open spec fn hunks_view(v: Seq<Hunk>) -> Seq<HunkV> {
    Seq::new(v.len(), |i: int| v[i]@)
}

/// The line of the second edited file that stands where line `p` of the
/// ancestor stands, through the runs of changes `rs` between the two (ordered
/// by position): after the last run that ends at or before `p`, the files
/// share their lines.
pub open spec fn map_right(rs: Seq<ChangeRun>, p: int) -> int
    decreases rs.len(),
{
    if rs.len() == 0 {
        p
    } else if rs.last().ls + rs.last().lc <= p {
        p - (rs.last().ls + rs.last().lc) + (rs.last().rs + rs.last().rc)
    } else {
        map_right(rs.drop_last(), p)
    }
}

/// The hunk of a run of changes between the first edited file and the ancestor;
/// on the side of the second edited file it stands on the ancestor's lines it
/// spans, found through the runs of changes `yr` between the ancestor and the
/// second edited file.
pub open spec fn mine_hunk(r: ChangeRun, yr: Seq<ChangeRun>) -> HunkV {
    HunkV {
        mine_start: r.ls,
        mine_count: r.lc,
        older_start: r.rs,
        older_count: r.rc,
        yours_start: map_right(yr, r.rs),
        yours_count: r.rc,
        mine_changed: true,
        yours_changed: false,
    }
}

/// The line of the first edited file that stands where line `p` of the
/// ancestor stands, through the runs of changes `rs` between the two (ordered
/// by position): after the last run that ends at or before `p`, the files
/// share their lines, so `p` moves by the difference in lengths before it.
pub open spec fn map_left(rs: Seq<ChangeRun>, p: int) -> int
    decreases rs.len(),
{
    if rs.len() == 0 {
        p
    } else if rs.last().rs + rs.last().rc <= p {
        p - (rs.last().rs + rs.last().rc) + (rs.last().ls + rs.last().lc)
    } else {
        map_left(rs.drop_last(), p)
    }
}

/// A line of the ancestor, moved through runs that lie within the files,
/// stays within both files together.
proof fn lemma_map_right_range(rs: Seq<ChangeRun>, p: int, no: int, ny: int)
    requires
        runs_ok(rs, no, ny),
        0 <= p,
        0 <= ny,
    ensures
        0 <= map_right(rs, p) <= p + ny,
    decreases rs.len(),
{
    if rs.len() > 0 {
        assert(run_ok(rs[rs.len() - 1], no, ny));
        assert(rs.last() == rs[rs.len() - 1]);
        if !(rs.last().ls + rs.last().lc <= p) {
            assert(runs_ok(rs.drop_last(), no, ny)) by {
                assert forall|i: int| 0 <= i < rs.drop_last().len() implies run_ok(#[trigger] rs.drop_last()[i], no, ny) by {
                    assert(rs.drop_last()[i] == rs[i]);
                }
            }
            lemma_map_right_range(rs.drop_last(), p, no, ny);
        }
    }
}

/// Whether a run of changes between the ancestor and the second edited file
/// overlaps the ancestor's lines of a hunk.
pub open spec fn overlaps(h: HunkV, y: ChangeRun) -> bool {
    y.ls < h.older_start + h.older_count && y.ls + y.lc > h.older_start
}

/// A hunk that the second edited file changed too, over the lines of `y`.
pub open spec fn mark_yours(h: HunkV, y: ChangeRun) -> HunkV {
    HunkV { yours_changed: true, yours_start: y.rs, yours_count: y.rc, ..h }
}

/// Adds a run of changes between the ancestor and the second edited file: it
/// marks every hunk that it overlaps, or becomes a hunk of its own, whose
/// lines of the first edited file are the ancestor's lines it spans, found
/// through the runs of changes `mr` between the first edited file and the
/// ancestor. A run that overlaps several hunks marks each of them, all with
/// the run's lines of the second file: each is a change of both edited files.
/// Marking only the first would leave the others standing on lines of the
/// second file placed inside the run, which can lie past that file's end
/// (an ancestor of five lines that the second file deletes whole, and a
/// first file that changes its second and fourth lines: the second hunk
/// would claim the fourth line of an empty file).
pub open spec fn merge_run(hs: Seq<HunkV>, y: ChangeRun, mr: Seq<ChangeRun>) -> Seq<HunkV> {
    if exists|i: int| 0 <= i < hs.len() && #[trigger] overlaps(hs[i], y) {
        Seq::new(hs.len(), |i: int| if overlaps(hs[i], y) { mark_yours(hs[i], y) } else { hs[i] })
    } else {
        hs.push(
            HunkV {
                mine_start: map_left(mr, y.ls),
                mine_count: y.lc,
                older_start: y.ls,
                older_count: y.lc,
                yours_start: y.rs,
                yours_count: y.rc,
                mine_changed: false,
                yours_changed: true,
            },
        )
    }
}

pub open spec fn merge_runs(hs: Seq<HunkV>, ys: Seq<ChangeRun>, mr: Seq<ChangeRun>) -> Seq<HunkV>
    decreases ys.len(),
{
    if ys.len() == 0 {
        hs
    } else {
        merge_run(merge_runs(hs, ys.drop_last(), mr), ys.last(), mr)
    }
}

/// A line of the ancestor, moved through runs that lie within the files,
/// stays within both files together.
proof fn lemma_map_left_range(rs: Seq<ChangeRun>, p: int, nm: int, no: int)
    requires
        runs_ok(rs, nm, no),
        0 <= p,
        0 <= nm,
    ensures
        0 <= map_left(rs, p) <= p + nm,
    decreases rs.len(),
{
    if rs.len() > 0 {
        assert(run_ok(rs[rs.len() - 1], nm, no));
        assert(rs.last() == rs[rs.len() - 1]);
        if !(rs.last().rs + rs.last().rc <= p) {
            assert(runs_ok(rs.drop_last(), nm, no)) by {
                assert forall|i: int| 0 <= i < rs.drop_last().len() implies run_ok(#[trigger] rs.drop_last()[i], nm, no) by {
                    assert(rs.drop_last()[i] == rs[i]);
                }
            }
            lemma_map_left_range(rs.drop_last(), p, nm, no);
        }
    }
}

/// The place at which a hunk starting at `key` in the ancestor goes into a
/// sequence sorted by that start: after every hunk that starts no later.
pub open spec fn insert_pos(hs: Seq<HunkV>, key: int) -> int
    decreases hs.len(),
{
    if hs.len() == 0 {
        0
    } else if hs.last().older_start <= key {
        hs.len() as int
    } else {
        insert_pos(hs.drop_last(), key)
    }
}

/// The hunks ordered by their start in the ancestor, hunks with equal starts
/// keeping their order.
pub open spec fn sort_hunks(hs: Seq<HunkV>) -> Seq<HunkV>
    decreases hs.len(),
{
    if hs.len() == 0 {
        hs
    } else {
        let sorted = sort_hunks(hs.drop_last());
        sorted.insert(insert_pos(sorted, hs.last().older_start), hs.last())
    }
}

/// How the changes of a hunk relate, given the lines of both edited files.
pub open spec fn classify(h: HunkV, m: Seq<Seq<u8>>, y: Seq<Seq<u8>>) -> ConflictType {
    if !h.mine_changed && !h.yours_changed {
        ConflictType::NoConflict
    } else if h.mine_changed != h.yours_changed {
        ConflictType::EasyConflict
    } else if m.subrange(h.mine_start, h.mine_start + h.mine_count) == y.subrange(
        h.yours_start,
        h.yours_start + h.yours_count,
    ) {
        ConflictType::NonOverlapping
    } else {
        ConflictType::OverlappingConflict
    }
}

pub open spec fn region_of(h: HunkV, c: ConflictType) -> RegionV {
    RegionV {
        mine_start: h.mine_start,
        mine_count: h.mine_count,
        older_start: h.older_start,
        older_count: h.older_count,
        yours_start: h.yours_start,
        yours_count: h.yours_count,
        conflict: c,
    }
}

/// The hunks of the runs of changes between the first edited file and the ancestor.
pub open spec fn mine_hunks_of(mr: Seq<ChangeRun>, yr: Seq<ChangeRun>) -> Seq<HunkV> {
    Seq::new(mr.len(), |i: int| mine_hunk(mr[i], yr))
}

/// The hunks as regions, each with its classification.
pub open spec fn classified(sh: Seq<HunkV>, m: Seq<Seq<u8>>, y: Seq<Seq<u8>>) -> Seq<RegionV> {
    Seq::new(sh.len(), |q: int| region_of(sh[q], classify(sh[q], m, y)))
}

/// The regions of a three-way comparison, from the script `smo` between the
/// first edited file and the ancestor and the script `soy` between the ancestor
/// and the second edited file: the runs of changes of the first script, merged
/// with those of the second, ordered by their start in the ancestor and
/// classified. When there is no change but some file has lines, a single region
/// spans all files.
pub open spec fn conflict_regions(
    smo: Seq<DiffOp>,
    soy: Seq<DiffOp>,
    m: Seq<Seq<u8>>,
    o: Seq<Seq<u8>>,
    y: Seq<Seq<u8>>,
) -> Seq<RegionV> {
    let sorted = sort_hunks(merge_runs(mine_hunks_of(change_runs(smo), change_runs(soy)), change_runs(soy), change_runs(smo)));
    let rs = classified(sorted, m, y);
    if rs.len() == 0 && (m.len() > 0 || o.len() > 0 || y.len() > 0) {
        seq![
            RegionV {
                mine_start: 0,
                mine_count: m.len() as int,
                older_start: 0,
                older_count: o.len() as int,
                yours_start: 0,
                yours_count: y.len() as int,
                conflict: ConflictType::NoConflict,
            },
        ]
    } else {
        rs
    }
}

/// A hunk lies within the files: on the side of an edited file that did not
/// change it, within the ancestor's lines.
pub open spec fn hunk_ok(h: HunkV, nm: int, no: int, ny: int) -> bool {
    &&& 0 <= h.mine_start && 0 <= h.mine_count
    &&& 0 <= h.older_start && 0 <= h.older_count
    &&& 0 <= h.yours_start && 0 <= h.yours_count
    &&& h.older_start + h.older_count <= no
    &&& h.mine_start + h.mine_count <= if h.mine_changed { nm } else { nm + no }
    &&& h.yours_start + h.yours_count <= if h.yours_changed { ny } else { ny + no }
    &&& (h.mine_changed || h.yours_changed)
}

pub open spec fn hunks_ok(hs: Seq<HunkV>, nm: int, no: int, ny: int) -> bool {
    forall|i: int| 0 <= i < hs.len() ==> hunk_ok(#[trigger] hs[i], nm, no, ny)
}

/// A region lies within the three files.
pub open spec fn region_ok(r: RegionV, nm: int, no: int, ny: int) -> bool {
    &&& 0 <= r.mine_start && 0 <= r.mine_count
    &&& 0 <= r.older_start && 0 <= r.older_count
    &&& 0 <= r.yours_start && 0 <= r.yours_count
    &&& r.older_start + r.older_count <= no
    &&& r.mine_start + r.mine_count <= nm
    &&& r.yours_start + r.yours_count <= ny
}

/// The two scripts cover the three files of `nm`, `no` and `ny` lines
/// exactly: the first goes from the first file to the ancestor, the second
/// from the ancestor to the second file.
pub open spec fn scripts_cover(smo: Seq<DiffOp>, soy: Seq<DiffOp>, nm: int, no: int, ny: int) -> bool {
    &&& left_count(smo) == nm
    &&& right_count(smo) == no
    &&& left_count(soy) == no
    &&& right_count(soy) == ny
}

pub open spec fn regions_ok(rs: Seq<RegionV>, nm: int, no: int, ny: int) -> bool {
    forall|i: int| 0 <= i < rs.len() ==> region_ok(#[trigger] rs[i], nm, no, ny)
}

proof fn lemma_merge_run_ok(hs: Seq<HunkV>, y: ChangeRun, mr: Seq<ChangeRun>, nm: int, no: int, ny: int)
    requires
        hunks_ok(hs, nm, no, ny),
        run_ok(y, no, ny),
        runs_ok(mr, nm, no),
        0 <= nm,
    ensures
        hunks_ok(merge_run(hs, y, mr), nm, no, ny),
{
    lemma_map_left_range(mr, y.ls, nm, no);
    assert(y.ls + y.lc <= no);
    let r = merge_run(hs, y, mr);
    assert forall|i: int| 0 <= i < r.len() implies hunk_ok(#[trigger] r[i], nm, no, ny) by {
        if i < hs.len() {
            assert(hunk_ok(hs[i], nm, no, ny));
        }
    }
}

/// A range of the ancestor that no run of `rs` overlaps (on the side of the
/// second file of the runs) lies, through `map_left`, within the first file.
proof fn lemma_map_left_tight(rs: Seq<ChangeRun>, p: int, c: int, nl: int, nr: int)
    requires
        aligned(rs, nl, nr),
        0 <= c,
        p + c <= nr,
        forall|i: int| 0 <= i < rs.len() ==> !(rs[i].rs < p + c && rs[i].rs + rs[i].rc > p),
    ensures
        map_left(rs, p) + c <= nl,
    decreases rs.len(),
{
    if rs.len() > 0 {
        let r = rs.last();
        assert(r == rs[rs.len() - 1]);
        if !(r.rs + r.rc <= p) {
            assert forall|i: int| 0 <= i < rs.drop_last().len() implies !(rs.drop_last()[i].rs < p + c && rs.drop_last()[i].rs
                + rs.drop_last()[i].rc > p) by {
                assert(rs.drop_last()[i] == rs[i]);
            }
            lemma_map_left_tight(rs.drop_last(), p, c, r.ls, r.rs);
        }
    }
}

/// A range of the ancestor that no run of `rs` overlaps (on the side of the
/// first file of the runs) lies, through `map_right`, within the second file.
proof fn lemma_map_right_tight(rs: Seq<ChangeRun>, p: int, c: int, nl: int, nr: int)
    requires
        aligned(rs, nl, nr),
        0 <= c,
        p + c <= nl,
        forall|i: int| 0 <= i < rs.len() ==> !(rs[i].ls < p + c && rs[i].ls + rs[i].lc > p),
    ensures
        map_right(rs, p) + c <= nr,
    decreases rs.len(),
{
    if rs.len() > 0 {
        let r = rs.last();
        assert(r == rs[rs.len() - 1]);
        if !(r.ls + r.lc <= p) {
            assert forall|i: int| 0 <= i < rs.drop_last().len() implies !(rs.drop_last()[i].ls < p + c && rs.drop_last()[i].ls
                + rs.drop_last()[i].lc > p) by {
                assert(rs.drop_last()[i] == rs[i]);
            }
            lemma_map_right_tight(rs.drop_last(), p, c, r.ls, r.rs);
        }
    }
}

/// A hunk lies within both edited files.
pub open spec fn hunk_tight(h: HunkV, nm: int, ny: int) -> bool {
    h.mine_start + h.mine_count <= nm && h.yours_start + h.yours_count <= ny
}

pub open spec fn hunks_tight(hs: Seq<HunkV>, nm: int, ny: int) -> bool {
    forall|i: int| 0 <= i < hs.len() ==> hunk_tight(#[trigger] hs[i], nm, ny)
}

/// What merging the first `j` runs of `yr` into the hunks of `mr` keeps: the
/// hunks of `mr` come first with their lines of the first file and the
/// ancestor; one that the second file has not changed stands on its mapped
/// lines of the second file and no merged run overlaps it; the changed lines
/// of the second file lie within it; and the hunks added after them are
/// changes of the second file only, within the first file.
pub open spec fn merge_inv(hs: Seq<HunkV>, mr: Seq<ChangeRun>, yr: Seq<ChangeRun>, j: int, nm: int, ny: int) -> bool {
    &&& hs.len() >= mr.len()
    &&& forall|i: int| 0 <= i < mr.len() ==> {
        &&& (#[trigger] hs[i]).older_start == mr[i].rs
        &&& hs[i].older_count == mr[i].rc
        &&& hs[i].mine_start == mr[i].ls
        &&& hs[i].mine_count == mr[i].lc
        &&& !hs[i].yours_changed ==> hs[i].yours_start == map_right(yr, mr[i].rs) && hs[i].yours_count == mr[i].rc
    }
    &&& forall|i: int, q: int| 0 <= i < mr.len() && 0 <= q < j && !hs[i].yours_changed ==> !#[trigger] overlaps(hs[i], yr[q])
    &&& forall|i: int| 0 <= i < hs.len() && (#[trigger] hs[i]).yours_changed ==> hs[i].yours_start + hs[i].yours_count <= ny
    &&& forall|i: int| mr.len() <= i < hs.len() ==> (#[trigger] hs[i]).yours_changed && hs[i].mine_start + hs[i].mine_count
        <= nm
}

proof fn lemma_merge_inv_step(hs: Seq<HunkV>, mr: Seq<ChangeRun>, yr: Seq<ChangeRun>, j: int, nm: int, no: int, ny: int)
    requires
        merge_inv(hs, mr, yr, j, nm, ny),
        0 <= j < yr.len(),
        aligned(mr, nm, no),
        runs_ok(yr, no, ny),
    ensures
        merge_inv(merge_run(hs, yr[j], mr), mr, yr, j + 1, nm, ny),
{
    let y = yr[j];
    assert(run_ok(y, no, ny));
    let r = merge_run(hs, y, mr);
    if exists|i: int| 0 <= i < hs.len() && #[trigger] overlaps(hs[i], y) {
        assert forall|i: int, q: int| 0 <= i < mr.len() && 0 <= q < j + 1 && !r[i].yours_changed implies !#[trigger] overlaps(r[i], yr[q]) by {
            assert(r[i] == hs[i]);
            if q < j {
                assert(!overlaps(hs[i], yr[q]));
            }
        }
        assert forall|i: int| 0 <= i < mr.len() implies {
            &&& (#[trigger] r[i]).older_start == mr[i].rs
            &&& r[i].older_count == mr[i].rc
            &&& r[i].mine_start == mr[i].ls
            &&& r[i].mine_count == mr[i].lc
            &&& !r[i].yours_changed ==> r[i].yours_start == map_right(yr, mr[i].rs) && r[i].yours_count == mr[i].rc
        } by {
            assert(hs[i].older_start == mr[i].rs);
        }
        assert forall|i: int| 0 <= i < r.len() && (#[trigger] r[i]).yours_changed implies r[i].yours_start + r[i].yours_count <= ny by {
            if !overlaps(hs[i], y) {
                assert(r[i] == hs[i]);
            }
        }
        assert forall|i: int| mr.len() <= i < r.len() implies (#[trigger] r[i]).yours_changed && r[i].mine_start + r[i].mine_count <= nm by {
            assert(hs[i].yours_changed);
        }
    } else {
        assert forall|i: int| 0 <= i < mr.len() implies !(mr[i].rs < y.ls + y.lc && mr[i].rs + mr[i].rc > y.ls) by {
            assert(!overlaps(hs[i], y));
            assert(hs[i].older_start == mr[i].rs);
        }
        lemma_map_left_tight(mr, y.ls, y.lc, nm, no);
        assert forall|i: int, q: int| 0 <= i < mr.len() && 0 <= q < j + 1 && !r[i].yours_changed implies !#[trigger] overlaps(r[i], yr[q]) by {
            assert(r[i] == hs[i]);
            if q < j {
                assert(!overlaps(hs[i], yr[q]));
            } else {
                assert(!overlaps(hs[i], y));
            }
        }
        assert forall|i: int| 0 <= i < mr.len() implies {
            &&& (#[trigger] r[i]).older_start == mr[i].rs
            &&& r[i].older_count == mr[i].rc
            &&& r[i].mine_start == mr[i].ls
            &&& r[i].mine_count == mr[i].lc
            &&& !r[i].yours_changed ==> r[i].yours_start == map_right(yr, mr[i].rs) && r[i].yours_count == mr[i].rc
        } by {
            assert(r[i] == hs[i]);
        }
        assert forall|i: int| 0 <= i < r.len() && (#[trigger] r[i]).yours_changed implies r[i].yours_start + r[i].yours_count <= ny by {
            if i < hs.len() {
                assert(r[i] == hs[i]);
            }
        }
        assert forall|i: int| mr.len() <= i < r.len() implies (#[trigger] r[i]).yours_changed && r[i].mine_start + r[i].mine_count <= nm by {
            if i < hs.len() {
                assert(r[i] == hs[i]);
            }
        }
    }
}

proof fn lemma_merge_runs_inv(mr: Seq<ChangeRun>, yr: Seq<ChangeRun>, k: int, nm: int, no: int, ny: int)
    requires
        0 <= k <= yr.len(),
        aligned(mr, nm, no),
        runs_ok(yr, no, ny),
    ensures
        merge_inv(merge_runs(mine_hunks_of(mr, yr), yr.take(k), mr), mr, yr, k, nm, ny),
    decreases k,
{
    let h0 = mine_hunks_of(mr, yr);
    if k == 0 {
        assert(yr.take(0) =~= Seq::<ChangeRun>::empty());
        assert forall|i: int| 0 <= i < h0.len() && (#[trigger] h0[i]).yours_changed implies h0[i].yours_start + h0[i].yours_count <= ny by {}
    } else {
        lemma_merge_runs_inv(mr, yr, k - 1, nm, no, ny);
        assert(yr.take(k).drop_last() =~= yr.take(k - 1));
        assert(yr.take(k).last() == yr[k - 1]);
        lemma_merge_inv_step(merge_runs(h0, yr.take(k - 1), mr), mr, yr, k - 1, nm, no, ny);
    }
}

/// Merging every run of changes of the second file into the hunks of the
/// first gives hunks within both edited files, when the runs line up with
/// the files.
proof fn lemma_merged_tight(mr: Seq<ChangeRun>, yr: Seq<ChangeRun>, nm: int, no: int, ny: int)
    requires
        aligned(mr, nm, no),
        aligned(yr, no, ny),
        runs_ok(mr, nm, no),
        runs_ok(yr, no, ny),
    ensures
        hunks_tight(merge_runs(mine_hunks_of(mr, yr), yr, mr), nm, ny),
{
    lemma_merge_runs_inv(mr, yr, yr.len() as int, nm, no, ny);
    assert(yr.take(yr.len() as int) =~= yr);
    let hs = merge_runs(mine_hunks_of(mr, yr), yr, mr);
    assert forall|i: int| 0 <= i < hs.len() implies hunk_tight(#[trigger] hs[i], nm, ny) by {
        if i < mr.len() {
            assert(run_ok(mr[i], nm, no));
            if !hs[i].yours_changed {
                assert forall|q: int| 0 <= q < yr.len() implies !(yr[q].ls < mr[i].rs + mr[i].rc && yr[q].ls + yr[q].lc > mr[i].rs) by {
                    assert(!overlaps(hs[i], yr[q]));
                }
                lemma_map_right_tight(yr, mr[i].rs, mr[i].rc, no, ny);
            }
        }
    }
}

proof fn lemma_sort_tight(hs: Seq<HunkV>, nm: int, ny: int)
    requires
        hunks_tight(hs, nm, ny),
    ensures
        hunks_tight(sort_hunks(hs), nm, ny),
    decreases hs.len(),
{
    if hs.len() > 0 {
        let d = hs.drop_last();
        assert(hunks_tight(d, nm, ny)) by {
            assert forall|i: int| 0 <= i < d.len() implies hunk_tight(#[trigger] d[i], nm, ny) by {
                assert(d[i] == hs[i]);
            }
        }
        lemma_sort_tight(d, nm, ny);
        let sorted = sort_hunks(d);
        let p = insert_pos(sorted, hs.last().older_start);
        lemma_insert_pos_range(sorted, hs.last().older_start);
        assert(hunk_tight(hs[hs.len() - 1], nm, ny));
        let r = sorted.insert(p, hs.last());
        assert forall|i: int| 0 <= i < r.len() implies hunk_tight(#[trigger] r[i], nm, ny) by {
            if i < p {
                assert(r[i] == sorted[i]);
            } else if i > p {
                assert(r[i] == sorted[i - 1]);
            }
        }
    }
}

proof fn lemma_insert_pos_range(hs: Seq<HunkV>, key: int)
    ensures
        0 <= insert_pos(hs, key) <= hs.len(),
    decreases hs.len(),
{
    if hs.len() > 0 {
        lemma_insert_pos_range(hs.drop_last(), key);
    }
}

proof fn lemma_sort_ok(hs: Seq<HunkV>, nm: int, no: int, ny: int)
    requires
        hunks_ok(hs, nm, no, ny),
    ensures
        hunks_ok(sort_hunks(hs), nm, no, ny),
        sort_hunks(hs).len() == hs.len(),
    decreases hs.len(),
{
    if hs.len() > 0 {
        let d = hs.drop_last();
        assert(hunks_ok(d, nm, no, ny)) by {
            assert forall|i: int| 0 <= i < d.len() implies hunk_ok(#[trigger] d[i], nm, no, ny) by {
                assert(d[i] == hs[i]);
            }
        }
        lemma_sort_ok(d, nm, no, ny);
        let sorted = sort_hunks(d);
        let p = insert_pos(sorted, hs.last().older_start);
        lemma_insert_pos_range(sorted, hs.last().older_start);
        assert(hunk_ok(hs[hs.len() - 1], nm, no, ny));
        let r = sorted.insert(p, hs.last());
        assert forall|i: int| 0 <= i < r.len() implies hunk_ok(#[trigger] r[i], nm, no, ny) by {
            if i < p {
                assert(r[i] == sorted[i]);
            } else if i > p {
                assert(r[i] == sorted[i - 1]);
            }
        }
    }
}

/// Whether two ranges of lines hold the same lines.
pub fn lines_range_eq(a: &Vec<Vec<u8>>, a_start: usize, a_count: usize, b: &Vec<Vec<u8>>, b_start: usize, b_count: usize) -> (r: bool)
    requires
        a_start + a_count <= a.len(),
        b_start + b_count <= b.len(),
    ensures
        r == (lines_of(a@).subrange(a_start as int, a_start + a_count) == lines_of(b@).subrange(
            b_start as int,
            b_start + b_count,
        )),
{
    let ghost la = lines_of(a@).subrange(a_start as int, a_start + a_count);
    let ghost lb = lines_of(b@).subrange(b_start as int, b_start + b_count);
    if a_count != b_count {
        assert(la.len() != lb.len());
        return false;
    }
    let mut i: usize = 0;
    while i < a_count
        invariant
            a_count == b_count,
            a_start + a_count <= a.len(),
            b_start + b_count <= b.len(),
            la == lines_of(a@).subrange(a_start as int, a_start + a_count),
            lb == lines_of(b@).subrange(b_start as int, b_start + b_count),
            i <= a_count,
            forall|j: int| 0 <= j < i ==> la[j] == lb[j],
        decreases a_count - i,
    {
        if !are_files_identical(a[a_start + i].as_slice(), b[b_start + i].as_slice()) {
            assert(la[i as int] != lb[i as int]);
            return false;
        }
        i = i + 1;
    }
    assert(la =~= lb);
    true
}


/// Analyzes the two scripts to build the regions of a three-way comparison: the
/// runs of changes between the first edited file and the ancestor and between
/// the ancestor and the second edited file, correlated by the lines of the
/// ancestor that they span, ordered, and classified. Scripts that walk
/// fewer lines than the files hold leave the lines past their end unchanged;
/// where they walk the files exactly, every region lies within the files.
pub fn build_conflict_regions(
    diff_mine_older: &Vec<DiffOp>,
    diff_older_yours: &Vec<DiffOp>,
    _diff_mine_yours: &Vec<DiffOp>,
    mine_lines: &Vec<Vec<u8>>,
    older_lines: &Vec<Vec<u8>>,
    yours_lines: &Vec<Vec<u8>>,
) -> (r: Vec<Diff3Region>)
    requires
        left_count(diff_mine_older@) <= mine_lines.len(),
        right_count(diff_mine_older@) <= older_lines.len(),
        left_count(diff_older_yours@) <= older_lines.len(),
        right_count(diff_older_yours@) <= yours_lines.len(),
        mine_lines.len() + older_lines.len() < usize::MAX,
        yours_lines.len() + older_lines.len() < usize::MAX,
    ensures
        regions_view(r@) == conflict_regions(
            diff_mine_older@,
            diff_older_yours@,
            lines_of(mine_lines@),
            lines_of(older_lines@),
            lines_of(yours_lines@),
        ),
        scripts_cover(diff_mine_older@, diff_older_yours@, mine_lines.len() as int, older_lines.len() as int,
            yours_lines.len() as int)
            ==> regions_ok(regions_view(r@), mine_lines.len() as int, older_lines.len() as int, yours_lines.len() as int),
{
    let ghost covers = scripts_cover(diff_mine_older@, diff_older_yours@, mine_lines.len() as int,
        older_lines.len() as int, yours_lines.len() as int);
    let ghost m = lines_of(mine_lines@);
    let ghost o = lines_of(older_lines@);
    let ghost y = lines_of(yours_lines@);
    let ghost nm = mine_lines.len() as int;
    let ghost no = older_lines.len() as int;
    let ghost ny = yours_lines.len() as int;
    let mine_runs = change_runs_of(diff_mine_older);
    let ghost mr = change_runs(diff_mine_older@);
    let yours_runs = change_runs_of(diff_older_yours);
    let ghost yr = change_runs(diff_older_yours@);
    let ghost mine_hunks = mine_hunks_of(mr, yr);
    assert forall|q: int| 0 <= q < mr.len() implies run_ok(#[trigger] mr[q], nm, no) by {
        assert(run_ok(mr[q], left_count(diff_mine_older@) as int, right_count(diff_mine_older@) as int));
    }
    assert forall|q: int| 0 <= q < yr.len() implies run_ok(#[trigger] yr[q], no, ny) by {
        assert(run_ok(yr[q], left_count(diff_older_yours@) as int, right_count(diff_older_yours@) as int));
    }
    let mut hunks: Vec<Hunk> = Vec::new();
    let mut i: usize = 0;
    while i < mine_runs.len()
        invariant
            runs_view(mine_runs@) == mr,
            runs_ok(mr, nm, no),
            runs_view(yours_runs@) == yr,
            runs_ok(yr, no, ny),
            no < usize::MAX,
            ny + no < usize::MAX,
            i <= mine_runs.len(),
            hunks_view(hunks@) == mine_hunks.take(i as int),
            mine_hunks == mine_hunks_of(mr, yr),
        decreases mine_runs.len() - i,
    {
        let (ms, mc, os, oc) = mine_runs[i];
        assert(mr[i as int] == ChangeRun { ls: ms as int, lc: mc as int, rs: os as int, rc: oc as int });
        assert(run_ok(mr[i as int], nm, no));
        assert(mine_hunks.len() == mr.len());
        assert(hunks_view(hunks@).len() == i);
        assert(hunks@.len() == i);
        let mut q: usize = yours_runs.len();
        assert(yr.take(q as int) =~= yr);
        while q > 0 && yours_runs[q - 1].0 + yours_runs[q - 1].1 > os
            invariant
                runs_view(yours_runs@) == yr,
                runs_ok(yr, no, ny),
                no < usize::MAX,
                q <= yours_runs.len(),
                map_right(yr, os as int) == map_right(yr.take(q as int), os as int),
            decreases q,
        {
            assert(run_ok(yr[q - 1], no, ny));
            assert(yr.take(q as int).drop_last() =~= yr.take(q - 1));
            assert(yr.take(q as int).last() == yr[q - 1]);
            q = q - 1;
        }
        let ys = if q == 0 {
            os
        } else {
            let (l0, lc0, r0, rc0) = yours_runs[q - 1];
            assert(run_ok(yr[q - 1], no, ny));
            assert(yr.take(q as int).last() == yr[q - 1]);
            os - (l0 + lc0) + (r0 + rc0)
        };
        assert(ys == map_right(yr, os as int));
        hunks.push(Hunk {
            mine_start: ms,
            mine_count: mc,
            older_start: os,
            older_count: oc,
            yours_start: ys,
            yours_count: oc,
            mine_changed: true,
            yours_changed: false,
        });
        assert(mine_hunks[i as int] == mine_hunk(mr[i as int], yr));
        assert(hunks_view(hunks@)[i as int] == mine_hunk(mr[i as int], yr));
        assert(hunks_view(hunks@) =~= mine_hunks.take(i + 1));
        i = i + 1;
    }
    assert(mine_hunks.take(i as int) =~= mine_hunks);
    assert(hunks_ok(mine_hunks, nm, no, ny)) by {
        assert forall|q: int| 0 <= q < mine_hunks.len() implies hunk_ok(#[trigger] mine_hunks[q], nm, no, ny) by {
            assert(run_ok(mr[q], nm, no));
            lemma_map_right_range(yr, mr[q].rs, no, ny);
        }
    }
    let mut j: usize = 0;
    assert(yr.take(0) =~= Seq::<ChangeRun>::empty());
    while j < yours_runs.len()
        invariant
            runs_view(yours_runs@) == yr,
            runs_ok(yr, no, ny),
            runs_view(mine_runs@) == mr,
            runs_ok(mr, nm, no),
            nm == mine_lines.len(),
            no == older_lines.len(),
            ny == yours_lines.len(),
            nm + no < usize::MAX,
            ny + no < usize::MAX,
            j <= yours_runs.len(),
            hunks_view(hunks@) == merge_runs(mine_hunks, yr.take(j as int), mr),
            hunks_ok(hunks_view(hunks@), nm, no, ny),
        decreases yours_runs.len() - j,
    {
        let (yos, yoc, ys, yc) = yours_runs[j];
        assert(yr[j as int] == ChangeRun { ls: yos as int, lc: yoc as int, rs: ys as int, rc: yc as int });
        assert(run_ok(yr[j as int], no, ny));
        let yoe = yos + yoc;
        let ghost hv = hunks_view(hunks@);
        let ghost y = yr[j as int];
        let mut k: usize = 0;
        let mut found = false;
        while k < hunks.len()
            invariant
                hv.len() == hunks@.len(),
                hunks_ok(hv, nm, no, ny),
                no < usize::MAX,
                y == (ChangeRun { ls: yos as int, lc: yoc as int, rs: ys as int, rc: yc as int }),
                yoe == yos + yoc,
                k <= hunks.len(),
                forall|i: int| k <= i < hv.len() ==> hunks_view(hunks@)[i] == hv[i],
                forall|i: int| 0 <= i < k ==> hunks_view(hunks@)[i] == (if overlaps(hv[i], y) { mark_yours(hv[i], y) } else { hv[i] }),
                found <==> exists|i: int| 0 <= i < k && #[trigger] overlaps(hv[i], y),
            decreases hunks.len() - k,
        {
            let h = hunks[k];
            assert(h@ == hv[k as int]);
            assert(hunk_ok(hv[k as int], nm, no, ny));
            let he = h.older_start + h.older_count;
            let ghost before = hunks@;
            if yos < he && yoe > h.older_start {
                found = true;
                hunks.set(k, Hunk { yours_changed: true, yours_start: ys, yours_count: yc, ..h });
                assert(hunks@[k as int]@ == mark_yours(hv[k as int], y));
            }
            proof {
                assert(overlaps(hv[k as int], y) == (yos < he && yoe > h.older_start));
                assert forall|i: int| 0 <= i < hunks@.len() && i != k implies hunks@[i] == before[i] by {}
                assert forall|i: int| 0 <= i < k + 1 implies hunks_view(hunks@)[i] == (if overlaps(hv[i], y) { mark_yours(hv[i], y) } else { hv[i] }) by {
                    if i < k {
                        assert(hunks@[i] == before[i]);
                        assert(hunks_view(before)[i] == before[i]@);
                    }
                }
            }
            k = k + 1;
        }
        proof {
            assert(yr.take(j + 1).drop_last() =~= yr.take(j as int));
        }
        if found {
            assert(hunks_view(hunks@) =~= merge_run(hv, yr[j as int], mr));
        } else {
            assert forall|i: int| 0 <= i < hv.len() implies !#[trigger] overlaps(hv[i], y) by {}
            assert(hunks_view(hunks@) =~= hv);
            let mut q: usize = mine_runs.len();
            assert(mr.take(q as int) =~= mr);
            while q > 0 && mine_runs[q - 1].2 + mine_runs[q - 1].3 > yos
                invariant
                    runs_view(mine_runs@) == mr,
                    runs_ok(mr, nm, no),
                    no < usize::MAX,
                    q <= mine_runs.len(),
                    map_left(mr, yos as int) == map_left(mr.take(q as int), yos as int),
                decreases q,
            {
                assert(run_ok(mr[q - 1], nm, no));
                assert(mr.take(q as int).drop_last() =~= mr.take(q - 1));
                assert(mr.take(q as int).last() == mr[q - 1]);
                q = q - 1;
            }
            let ms = if q == 0 {
                yos
            } else {
                let (l0, lc0, r0, rc0) = mine_runs[q - 1];
                assert(run_ok(mr[q - 1], nm, no));
                assert(mr.take(q as int).last() == mr[q - 1]);
                yos - (r0 + rc0) + (l0 + lc0)
            };
            assert(ms == map_left(mr, yos as int));
            hunks.push(Hunk {
                mine_start: ms,
                mine_count: yoc,
                older_start: yos,
                older_count: yoc,
                yours_start: ys,
                yours_count: yc,
                mine_changed: false,
                yours_changed: true,
            });
            assert(hunks_view(hunks@) =~= merge_run(hv, yr[j as int], mr));
        }
        proof {
            lemma_merge_run_ok(hv, yr[j as int], mr, nm, no, ny);
        }
        j = j + 1;
    }
    assert(yr.take(j as int) =~= yr);
    let ghost merged = hunks_view(hunks@);
    proof {
        if covers {
            lemma_merged_tight(mr, yr, nm, no, ny);
        }
    }
    let mut sorted: Vec<Hunk> = Vec::new();
    let mut i2: usize = 0;
    assert(merged.take(0) =~= Seq::<HunkV>::empty());
    while i2 < hunks.len()
        invariant
            merged == hunks_view(hunks@),
            hunks_ok(merged, nm, no, ny),
            i2 <= hunks.len(),
            hunks_view(sorted@) == sort_hunks(merged.take(i2 as int)),
            sorted.len() == i2,
        decreases hunks.len() - i2,
    {
        let h = hunks[i2];
        let key = h.older_start;
        let ghost sv = hunks_view(sorted@);
        let mut p: usize = sorted.len();
        assert(sv.take(p as int) =~= sv);
        while p > 0 && sorted[p - 1].older_start > key
            invariant
                sv == hunks_view(sorted@),
                p <= sorted.len(),
                insert_pos(sv, key as int) == insert_pos(sv.take(p as int), key as int),
            decreases p,
        {
            assert(sv.take(p as int).drop_last() =~= sv.take(p - 1));
            p = p - 1;
        }
        proof {
            if p > 0 {
                assert(sv.take(p as int).last() == sv[p - 1]);
            }
            assert(merged.take(i2 + 1).drop_last() =~= merged.take(i2 as int));
        }
        sorted.insert(p, h);
        assert(hunks_view(sorted@) =~= sv.insert(p as int, h@));
        i2 = i2 + 1;
    }
    assert(merged.take(i2 as int) =~= merged);
    let ghost sh = sort_hunks(merged);
    proof {
        lemma_sort_ok(merged, nm, no, ny);
        if covers {
            lemma_sort_tight(merged, nm, ny);
        }
    }
    let ghost rs = classified(sh, m, y);
    let mut regions: Vec<Diff3Region> = Vec::new();
    let mut i3: usize = 0;
    while i3 < sorted.len()
        invariant
            sh == hunks_view(sorted@),
            hunks_ok(sh, nm, no, ny),
            covers ==> hunks_tight(sh, nm, ny),
            m == lines_of(mine_lines@),
            y == lines_of(yours_lines@),
            nm == mine_lines.len(),
            ny == yours_lines.len(),
            rs == classified(sh, m, y),
            i3 <= sorted.len(),
            regions_view(regions@) == rs.take(i3 as int),
            covers ==> regions_ok(regions_view(regions@), nm, no, ny),
        decreases sorted.len() - i3,
    {
        let h = sorted[i3];
        assert(hunk_ok(sh[i3 as int], nm, no, ny));
        assert(covers ==> hunk_tight(sh[i3 as int], nm, ny));
        let conflict = if !h.mine_changed && !h.yours_changed {
            ConflictType::NoConflict
        } else if h.mine_changed && !h.yours_changed {
            ConflictType::EasyConflict
        } else if !h.mine_changed && h.yours_changed {
            ConflictType::EasyConflict
        } else {
            if lines_range_eq(mine_lines, h.mine_start, h.mine_count, yours_lines, h.yours_start, h.yours_count) {
                ConflictType::NonOverlapping
            } else {
                ConflictType::OverlappingConflict
            }
        };
        assert(conflict == classify(sh[i3 as int], m, y));
        assert(sh.len() == sorted.len());
        assert(rs.len() == sh.len());
        assert(rs.take(i3 as int).len() == i3);
        assert(regions_view(regions@).len() == i3);
        assert(regions@.len() == i3);
        let ghost before = regions_view(regions@);
        regions.push(Diff3Region {
            mine_start: h.mine_start,
            mine_count: h.mine_count,
            older_start: h.older_start,
            older_count: h.older_count,
            yours_start: h.yours_start,
            yours_count: h.yours_count,
            conflict,
        });
        assert(rs.len() == sh.len());
        assert(regions@.len() == i3 + 1);
        assert(h@ == sh[i3 as int]);
        assert(rs[i3 as int] == region_of(sh[i3 as int], classify(sh[i3 as int], m, y)));
        assert(regions_view(regions@)[i3 as int] == rs[i3 as int]);
        assert(regions_view(regions@) =~= rs.take(i3 + 1));
        i3 = i3 + 1;
    }
    assert(rs.take(i3 as int) =~= rs);
    if regions.len() == 0 && (mine_lines.len() != 0 || older_lines.len() != 0 || yours_lines.len() != 0) {
        regions.push(Diff3Region {
            mine_start: 0,
            mine_count: mine_lines.len(),
            older_start: 0,
            older_count: older_lines.len(),
            yours_start: 0,
            yours_count: yours_lines.len(),
            conflict: ConflictType::NoConflict,
        });
        assert(regions_view(regions@) =~= conflict_regions(diff_mine_older@, diff_older_yours@, m, o, y));
    }
    regions
}

/// Some region has a conflict.
pub open spec fn some_conflict(rs: Seq<RegionV>) -> bool {
    exists|i: int| 0 <= i < rs.len() && (#[trigger] rs[i]).conflict != ConflictType::NoConflict
}

/// Whether the two scripts give some region a conflict.
pub fn detect_conflicts(
    diff_mine_older: &Vec<DiffOp>,
    diff_older_yours: &Vec<DiffOp>,
    diff_mine_yours: &Vec<DiffOp>,
    mine_lines: &Vec<Vec<u8>>,
    older_lines: &Vec<Vec<u8>>,
    yours_lines: &Vec<Vec<u8>>,
) -> (r: bool)
    requires
        left_count(diff_mine_older@) <= mine_lines.len(),
        right_count(diff_mine_older@) <= older_lines.len(),
        left_count(diff_older_yours@) <= older_lines.len(),
        right_count(diff_older_yours@) <= yours_lines.len(),
        mine_lines.len() + older_lines.len() < usize::MAX,
        yours_lines.len() + older_lines.len() < usize::MAX,
    ensures
        r == some_conflict(
            conflict_regions(
                diff_mine_older@,
                diff_older_yours@,
                lines_of(mine_lines@),
                lines_of(older_lines@),
                lines_of(yours_lines@),
            ),
        ),
{
    let regions = build_conflict_regions(
        diff_mine_older,
        diff_older_yours,
        diff_mine_yours,
        mine_lines,
        older_lines,
        yours_lines,
    );
    let ghost rs = regions_view(regions@);
    let mut i: usize = 0;
    while i < regions.len()
        invariant
            rs == regions_view(regions@),
            rs == conflict_regions(
                diff_mine_older@,
                diff_older_yours@,
                lines_of(mine_lines@),
                lines_of(older_lines@),
                lines_of(yours_lines@),
            ),
            i <= regions.len(),
            forall|j: int| 0 <= j < i ==> (#[trigger] rs[j]).conflict == ConflictType::NoConflict,
        decreases regions.len() - i,
    {
        if regions[i].conflict != ConflictType::NoConflict {
            assert(rs[i as int].conflict != ConflictType::NoConflict);
            assert(some_conflict(rs));
            return true;
        }
        i = i + 1;
    }
    false
}

} // verus!
