//! The output of diff3 in its three styles (normal, merged, ed script), and
//! the whole comparison of three buffers.

use vstd::prelude::*;
use vstd::utf8::{valid_utf8, encode_utf8};
use crate::lines::lines_of;
use crate::text::{decimal, range_text, push_all, push_decimal, push_range, to_owned_bytes, read_range, lemma_read_number,
    lemma_read_range_text};
use crate::unicode::{lossy_utf8, utf8_lossy, utf8_str};
use crate::diff3::{ConflictType, Diff3Format, Diff3OutputMode, Diff3Region, RegionV, regions_view,
    include_region, should_include_region};
use crate::diff3_regions::{region_ok, regions_ok, lines_range_eq};

verus! {

/// The lines of `ls` from `start`, at most `count` of them, and none when
/// `start` is past the end.
pub open spec fn clip(ls: Seq<Seq<u8>>, start: int, count: int) -> Seq<Seq<u8>> {
    let end = if start + count < ls.len() { start + count } else { ls.len() as int };
    if start <= end {
        ls.subrange(start, end)
    } else {
        Seq::empty()
    }
}

/// Each line as the text that `String::from_utf8_lossy` makes of it, after
/// `prefix`, and followed by a newline.
pub open spec fn lossy_lines(ls: Seq<Seq<u8>>, prefix: Seq<u8>) -> Seq<u8>
    decreases ls.len(),
{
    if ls.len() == 0 {
        Seq::<u8>::empty()
    } else {
        lossy_lines(ls.drop_last(), prefix) + prefix + lossy_utf8(ls.last()) + seq![10u8]
    }
}

/// Appends the lines of `clip(ls, start, count)`, each after `prefix`.
pub fn push_lossy_lines(out: &mut Vec<u8>, ls: &Vec<Vec<u8>>, start: usize, count: usize, prefix: &[u8])
    ensures
        final(out)@ == old(out)@ + lossy_lines(clip(lines_of(ls@), start as int, count as int), prefix@),
{
    let ghost l = lines_of(ls@);
    let end = if start >= ls.len() {
        ls.len()
    } else if count < ls.len() - start {
        start + count
    } else {
        ls.len()
    };
    if start > end {
        assert(clip(l, start as int, count as int) =~= Seq::<Seq<u8>>::empty());
        assert(old(out)@ + lossy_lines(Seq::<Seq<u8>>::empty(), prefix@) =~= old(out)@);
        return;
    }
    let mut i: usize = start;
    assert(l.subrange(start as int, start as int) =~= Seq::<Seq<u8>>::empty());
    assert(out@ =~= old(out)@ + lossy_lines(l.subrange(start as int, start as int), prefix@));
    while i < end
        invariant
            l == lines_of(ls@),
            start <= i <= end,
            end <= ls.len(),
            out@ == old(out)@ + lossy_lines(l.subrange(start as int, i as int), prefix@),
        decreases end - i,
    {
        let ghost before = out@;
        push_all(out, prefix);
        let t = utf8_lossy(ls[i].as_slice());
        push_all(out, t.as_slice());
        out.push(10u8);
        proof {
            assert(l.subrange(start as int, i + 1).drop_last() =~= l.subrange(start as int, i as int));
            assert(l.subrange(start as int, i + 1).last() == l[i as int]);
            assert(out@ =~= before + prefix@ + lossy_utf8(l[i as int]) + seq![10u8]);
        }
        i = i + 1;
    }
}

// ---------------------------------------------------------------------------
// Normal style
// ---------------------------------------------------------------------------

/// In the normal style, whether the first edited file differs from the
/// ancestor in an easy region (the lines are compared only when the counts
/// agree and stay within the files' lengths).
pub open spec fn mine_differs(r: RegionV, m: Seq<Seq<u8>>, o: Seq<Seq<u8>>) -> bool {
    r.mine_count != r.older_count || (r.mine_count > 0 && r.mine_count <= m.len() && r.older_count > 0
        && r.older_count <= o.len() && m.subrange(r.mine_start, r.mine_start + r.mine_count)
        != o.subrange(r.older_start, r.older_start + r.older_count))
}

/// In the normal style, whether the second edited file differs from the
/// ancestor in an easy region.
pub open spec fn yours_differs(r: RegionV, y: Seq<Seq<u8>>, o: Seq<Seq<u8>>) -> bool {
    r.yours_count != r.older_count || (r.yours_count > 0 && r.yours_count <= y.len() && r.older_count
        > 0 && r.older_count <= o.len() && y.subrange(r.yours_start, r.yours_start + r.yours_count)
        != o.subrange(r.older_start, r.older_start + r.older_count))
}

/// The line that opens a region: `====1` or `====3` when only that file
/// differs, else `====`.
pub open spec fn normal3_mark(r: RegionV, m: Seq<Seq<u8>>, o: Seq<Seq<u8>>, y: Seq<Seq<u8>>) -> Seq<u8> {
    let md = mine_differs(r, m, o);
    let yd = yours_differs(r, y, o);
    if r.conflict == ConflictType::EasyConflict && md && !yd {
        seq![61u8, 61, 61, 61, 49, 10]
    } else if r.conflict == ConflictType::EasyConflict && yd && !md {
        seq![61u8, 61, 61, 61, 51, 10]
    } else {
        seq![61u8, 61, 61, 61, 10]
    }
}

/// The part of a region that concerns file `k`: `k:La` after line `L` when
/// the region spans no line there, else `k:Rc` with the range `R` of its lines,
/// followed by the lines when `show`.
pub open spec fn file_block(k: u8, start: int, count: int, ls: Seq<Seq<u8>>, show: bool, prefix: Seq<u8>) -> Seq<u8> {
    if count == 0 {
        seq![k, 58u8] + decimal(start as nat) + seq![97u8, 10]
    } else {
        seq![k, 58u8] + range_text(start + 1, count) + seq![99u8, 10] + if show {
            lossy_lines(clip(ls, start, count), prefix)
        } else {
            Seq::<u8>::empty()
        }
    }
}

/// The normal-style text of a region: nothing for a region that is not shown
/// or has no conflict; else its mark and the parts of the three files, where
/// the ancestor's lines are left out in an easy region.
pub open spec fn normal3_region(
    r: RegionV,
    m: Seq<Seq<u8>>,
    o: Seq<Seq<u8>>,
    y: Seq<Seq<u8>>,
    mode: Diff3OutputMode,
    prefix: Seq<u8>,
) -> Seq<u8> {
    if !include_region(r, mode) || r.conflict == ConflictType::NoConflict {
        Seq::<u8>::empty()
    } else {
        normal3_mark(r, m, o, y) + file_block(49u8, r.mine_start, r.mine_count, m, true, prefix)
            + file_block(50u8, r.older_start, r.older_count, o, r.conflict != ConflictType::EasyConflict, prefix)
            + file_block(51u8, r.yours_start, r.yours_count, y, true, prefix)
    }
}

pub open spec fn normal3_text(
    rs: Seq<RegionV>,
    m: Seq<Seq<u8>>,
    o: Seq<Seq<u8>>,
    y: Seq<Seq<u8>>,
    mode: Diff3OutputMode,
    prefix: Seq<u8>,
) -> Seq<u8>
    decreases rs.len(),
{
    if rs.len() == 0 {
        Seq::<u8>::empty()
    } else {
        normal3_text(rs.drop_last(), m, o, y, mode, prefix) + normal3_region(rs.last(), m, o, y, mode, prefix)
    }
}

/// The normal style reads only lines that exist for this region: the
/// comparisons of an easy region, and the slices of the lines it shows.
pub open spec fn normal3_region_safe(r: RegionV, nm: int, no: int, ny: int, mode: Diff3OutputMode) -> bool {
    !include_region(r, mode) || r.conflict == ConflictType::NoConflict || ({
        &&& (r.conflict == ConflictType::EasyConflict ==> !(r.mine_count == r.older_count && r.mine_count
            > 0 && r.mine_count <= nm && r.older_count <= no && (r.mine_start + r.mine_count > nm
            || r.older_start + r.older_count > no)))
        &&& (r.conflict == ConflictType::EasyConflict ==> !(r.yours_count == r.older_count && r.yours_count
            > 0 && r.yours_count <= ny && r.older_count <= no && (r.yours_start + r.yours_count > ny
            || r.older_start + r.older_count > no)))
        &&& (r.mine_count != 0 ==> r.mine_start <= nm)
        &&& (r.older_count != 0 && r.conflict != ConflictType::EasyConflict ==> r.older_start <= no)
        &&& (r.yours_count != 0 ==> r.yours_start <= ny)
    })
}

fn push_file_block(out: &mut Vec<u8>, k: u8, start: usize, count: usize, ls: &Vec<Vec<u8>>, show: bool, prefix: &[u8])
    requires
        start + count < usize::MAX,
        show && count != 0 ==> start <= ls.len(),
    ensures
        final(out)@ == old(out)@ + file_block(k, start as int, count as int, lines_of(ls@), show, prefix@),
{
    let ghost o0 = out@;
    out.push(k);
    out.push(58u8);
    if count == 0 {
        push_decimal(out, start);
        out.push(97u8);
        out.push(10u8);
        assert(out@ =~= o0 + file_block(k, start as int, count as int, lines_of(ls@), show, prefix@));
    } else {
        push_range(out, start + 1, count);
        out.push(99u8);
        out.push(10u8);
        let ghost o1 = out@;
        if show {
            push_lossy_lines(out, ls, start, count, prefix);
        }
        assert(out@ =~= o0 + file_block(k, start as int, count as int, lines_of(ls@), show, prefix@));
    }
}

fn normal3_region_text(
    r: &Diff3Region,
    m: &Vec<Vec<u8>>,
    o: &Vec<Vec<u8>>,
    y: &Vec<Vec<u8>>,
    mode: Diff3OutputMode,
    prefix: &[u8],
) -> (t: Vec<u8>)
    requires
        region_ok(r@, m.len() as int, o.len() as int, y.len() as int),
        m.len() < usize::MAX,
        m.len() + o.len() < usize::MAX,
        y.len() + o.len() < usize::MAX,
        o.len() < usize::MAX,
        y.len() < usize::MAX,
        normal3_region_safe(r@, m.len() as int, o.len() as int, y.len() as int, mode),
    ensures
        t@ == normal3_region(r@, lines_of(m@), lines_of(o@), lines_of(y@), mode, prefix@),
{
    let mut t: Vec<u8> = Vec::new();
    if !should_include_region(r, mode) || r.conflict == ConflictType::NoConflict {
        assert(t@ =~= Seq::<u8>::empty());
        return t;
    }
    let ghost lm = lines_of(m@);
    let ghost lo = lines_of(o@);
    let ghost ly = lines_of(y@);
    let ms = r.mine_start;
    let mc = r.mine_count;
    let os = r.older_start;
    let oc = r.older_count;
    let ys = r.yours_start;
    let yc = r.yours_count;
    let md = mc != oc || (mc > 0 && mc <= m.len() && oc > 0 && oc <= o.len() && !lines_range_eq(m, ms, mc, o, os, oc));
    let yd = yc != oc || (yc > 0 && yc <= y.len() && oc > 0 && oc <= o.len() && !lines_range_eq(y, ys, yc, o, os, oc));
    assert(r.conflict == ConflictType::EasyConflict ==> md == mine_differs(r@, lm, lo));
    assert(r.conflict == ConflictType::EasyConflict ==> yd == yours_differs(r@, ly, lo));
    if r.conflict == ConflictType::EasyConflict && md && !yd {
        t.push(61u8);
        t.push(61u8);
        t.push(61u8);
        t.push(61u8);
        t.push(49u8);
        t.push(10u8);
    } else if r.conflict == ConflictType::EasyConflict && yd && !md {
        t.push(61u8);
        t.push(61u8);
        t.push(61u8);
        t.push(61u8);
        t.push(51u8);
        t.push(10u8);
    } else {
        t.push(61u8);
        t.push(61u8);
        t.push(61u8);
        t.push(61u8);
        t.push(10u8);
    }
    let ghost t0 = t@;
    assert(t0 =~= normal3_mark(r@, lm, lo, ly));
    push_file_block(&mut t, 49u8, ms, mc, m, true, prefix);
    let ghost t1 = t@;
    push_file_block(&mut t, 50u8, os, oc, o, r.conflict != ConflictType::EasyConflict, prefix);
    let ghost t2 = t@;
    push_file_block(&mut t, 51u8, ys, yc, y, true, prefix);
    assert(t@ =~= normal3_region(r@, lm, lo, ly, mode, prefix@));
    t
}

/// The normal style of diff3: for each region shown and in conflict, its mark
/// and its place in the three files, with the lines of the edited files (and
/// of the ancestor unless the conflict is easy), each after `prefix`.
pub fn generate_normal_output(
    mine_lines: &Vec<Vec<u8>>,
    older_lines: &Vec<Vec<u8>>,
    yours_lines: &Vec<Vec<u8>>,
    regions: &Vec<Diff3Region>,
    mode: Diff3OutputMode,
    prefix: &[u8],
) -> (r: Vec<u8>)
    requires
        regions_ok(regions_view(regions@), mine_lines.len() as int, older_lines.len() as int, yours_lines.len() as int),
        mine_lines.len() < usize::MAX,
        mine_lines.len() + older_lines.len() < usize::MAX,
        yours_lines.len() + older_lines.len() < usize::MAX,
        older_lines.len() < usize::MAX,
        yours_lines.len() < usize::MAX,
    ensures
        r@ == normal3_text(
            regions_view(regions@),
            lines_of(mine_lines@),
            lines_of(older_lines@),
            lines_of(yours_lines@),
            mode,
            prefix@,
        ),
{
    let ghost rs = regions_view(regions@);
    let mut output: Vec<u8> = Vec::new();
    let mut i: usize = 0;
    assert(rs.take(0) =~= Seq::<RegionV>::empty());
    while i < regions.len()
        invariant
            rs == regions_view(regions@),
            regions_ok(rs, mine_lines.len() as int, older_lines.len() as int, yours_lines.len() as int),
            mine_lines.len() < usize::MAX,
            mine_lines.len() + older_lines.len() < usize::MAX,
            yours_lines.len() + older_lines.len() < usize::MAX,
            older_lines.len() < usize::MAX,
            yours_lines.len() < usize::MAX,
            i <= regions.len(),
            output@ == normal3_text(
                rs.take(i as int),
                lines_of(mine_lines@),
                lines_of(older_lines@),
                lines_of(yours_lines@),
                mode,
                prefix@,
            ),
        decreases regions.len() - i,
    {
        assert(rs[i as int] == regions@[i as int]@);
        assert(region_ok(rs[i as int], mine_lines.len() as int, older_lines.len() as int, yours_lines.len() as int));
        assert(normal3_region_safe(rs[i as int], mine_lines.len() as int, older_lines.len() as int, yours_lines.len() as int, mode));
        let t = normal3_region_text(&regions[i], mine_lines, older_lines, yours_lines, mode, prefix);
        push_all(&mut output, t.as_slice());
        assert(rs.take(i + 1).drop_last() =~= rs.take(i as int));
        i = i + 1;
    }
    assert(rs.take(i as int) =~= rs);
    output
}


// ---------------------------------------------------------------------------
// Merged style
// ---------------------------------------------------------------------------

/// The merged-style text of a region shown: the lines that resolve it, or the
/// conflict markers around the lines of both edited files (and of the
/// ancestor, in the merged and show-overlap formats).
pub open spec fn merged_body(
    r: RegionV,
    m: Seq<Seq<u8>>,
    o: Seq<Seq<u8>>,
    y: Seq<Seq<u8>>,
    format: Diff3Format,
    mode: Diff3OutputMode,
    ml: Seq<u8>,
    ol: Seq<u8>,
    yl: Seq<u8>,
) -> Seq<u8> {
    let e = Seq::<u8>::empty();
    let mine = lossy_lines(clip(m, r.mine_start, r.mine_count), e);
    let older = lossy_lines(clip(o, r.older_start, r.older_count), e);
    let yours = lossy_lines(clip(y, r.yours_start, r.yours_count), e);
    match r.conflict {
        ConflictType::NoConflict | ConflictType::NonOverlapping => mine,
        ConflictType::EasyConflict => if r.mine_count != r.older_count { mine } else { yours },
        ConflictType::OverlappingConflict => if (mode == Diff3OutputMode::OverlapOnlyMarked || mode
            == Diff3OutputMode::OverlapOnly) && format == Diff3Format::Merged {
            yours
        } else {
            seq![60u8, 60, 60, 60, 60, 60, 60, 32] + ml + seq![10u8] + mine + (if format
                == Diff3Format::Merged || format == Diff3Format::ShowOverlap {
                seq![124u8, 124, 124, 124, 124, 124, 124, 32] + ol + seq![10u8] + older
            } else {
                e
            }) + seq![61u8, 61, 61, 61, 61, 61, 61, 10] + yours + seq![62u8, 62, 62, 62, 62, 62, 62, 32] + yl
                + seq![10u8]
        },
    }
}

/// The state of the merged output: the next line of the first edited file to
/// copy, and the text so far.
pub struct MergeState {
    pub last: int,
    pub out: Seq<u8>,
}

/// One region of the merged output: the lines of the first edited file up to
/// the region are copied, then the region's text follows.
pub open spec fn merged_step(
    st: MergeState,
    r: RegionV,
    m: Seq<Seq<u8>>,
    o: Seq<Seq<u8>>,
    y: Seq<Seq<u8>>,
    format: Diff3Format,
    mode: Diff3OutputMode,
    ml: Seq<u8>,
    ol: Seq<u8>,
    yl: Seq<u8>,
) -> MergeState {
    if !include_region(r, mode) {
        st
    } else {
        let upto = if r.mine_start < m.len() { r.mine_start } else { m.len() as int };
        let pre = if st.last < upto {
            lossy_lines(clip(m, st.last, upto - st.last), Seq::<u8>::empty())
        } else {
            Seq::<u8>::empty()
        };
        MergeState {
            last: r.mine_start + r.mine_count,
            out: st.out + pre + merged_body(r, m, o, y, format, mode, ml, ol, yl),
        }
    }
}

pub open spec fn merged_run(
    rs: Seq<RegionV>,
    k: nat,
    m: Seq<Seq<u8>>,
    o: Seq<Seq<u8>>,
    y: Seq<Seq<u8>>,
    format: Diff3Format,
    mode: Diff3OutputMode,
    ml: Seq<u8>,
    ol: Seq<u8>,
    yl: Seq<u8>,
) -> MergeState
    decreases k,
{
    if k == 0 || k > rs.len() {
        MergeState { last: 0, out: Seq::<u8>::empty() }
    } else {
        merged_step(merged_run(rs, (k - 1) as nat, m, o, y, format, mode, ml, ol, yl), rs[k - 1], m, o, y, format, mode, ml, ol, yl)
    }
}

/// The merged output: the regions in order, then the rest of the first edited
/// file.
pub open spec fn merged_text(
    rs: Seq<RegionV>,
    m: Seq<Seq<u8>>,
    o: Seq<Seq<u8>>,
    y: Seq<Seq<u8>>,
    format: Diff3Format,
    mode: Diff3OutputMode,
    ml: Seq<u8>,
    ol: Seq<u8>,
    yl: Seq<u8>,
) -> Seq<u8> {
    let st = merged_run(rs, rs.len(), m, o, y, format, mode, ml, ol, yl);
    st.out + if st.last < m.len() {
        lossy_lines(clip(m, st.last, m.len() - st.last), Seq::<u8>::empty())
    } else {
        Seq::<u8>::empty()
    }
}

fn push_marker(out: &mut Vec<u8>, c: u8, label: &[u8])
    ensures
        final(out)@ == old(out)@ + seq![c, c, c, c, c, c, c, 32u8] + label@ + seq![10u8],
{
    let ghost o0 = out@;
    out.push(c);
    out.push(c);
    out.push(c);
    out.push(c);
    out.push(c);
    out.push(c);
    out.push(c);
    out.push(32u8);
    push_all(out, label);
    out.push(10u8);
    assert(out@ =~= o0 + seq![c, c, c, c, c, c, c, 32u8] + label@ + seq![10u8]);
}

#[verifier::rlimit(40)]
fn merged_body_text(
    r: &Diff3Region,
    m: &Vec<Vec<u8>>,
    o: &Vec<Vec<u8>>,
    y: &Vec<Vec<u8>>,
    format: Diff3Format,
    mode: Diff3OutputMode,
    ml: &[u8],
    ol: &[u8],
    yl: &[u8],
) -> (t: Vec<u8>)
    requires
        region_ok(r@, m.len() as int, o.len() as int, y.len() as int),
        m.len() < usize::MAX,
        m.len() + o.len() < usize::MAX,
        y.len() + o.len() < usize::MAX,
        o.len() < usize::MAX,
        y.len() < usize::MAX,
    ensures
        t@ == merged_body(r@, lines_of(m@), lines_of(o@), lines_of(y@), format, mode, ml@, ol@, yl@),
{
    let e: [u8; 0] = [];
    let ghost es = Seq::<u8>::empty();
    assert(e@ =~= es);
    let ghost lm = lines_of(m@);
    let ghost lo = lines_of(o@);
    let ghost ly = lines_of(y@);
    let mut t: Vec<u8> = Vec::new();
    let ghost mine = lossy_lines(clip(lm, r.mine_start as int, r.mine_count as int), es);
    let ghost older = lossy_lines(clip(lo, r.older_start as int, r.older_count as int), es);
    let ghost yours = lossy_lines(clip(ly, r.yours_start as int, r.yours_count as int), es);
    match r.conflict {
        ConflictType::NoConflict | ConflictType::NonOverlapping => {
            push_lossy_lines(&mut t, m, r.mine_start, r.mine_count, &e);
            assert(t@ =~= mine);
        },
        ConflictType::EasyConflict => {
            if r.mine_count != r.older_count {
                push_lossy_lines(&mut t, m, r.mine_start, r.mine_count, &e);
                assert(t@ =~= mine);
            } else {
                push_lossy_lines(&mut t, y, r.yours_start, r.yours_count, &e);
                assert(t@ =~= yours);
            }
        },
        ConflictType::OverlappingConflict => {
            if (mode == Diff3OutputMode::OverlapOnlyMarked || mode == Diff3OutputMode::OverlapOnly)
                && format == Diff3Format::Merged {
                push_lossy_lines(&mut t, y, r.yours_start, r.yours_count, &e);
                assert(t@ =~= yours);
            } else {
                push_marker(&mut t, 60u8, ml);
                push_lossy_lines(&mut t, m, r.mine_start, r.mine_count, &e);
                let ghost t1 = t@;
                if format == Diff3Format::Merged || format == Diff3Format::ShowOverlap {
                    push_marker(&mut t, 124u8, ol);
                    push_lossy_lines(&mut t, o, r.older_start, r.older_count, &e);
                }
                let ghost t2 = t@;
                t.push(61u8);
                t.push(61u8);
                t.push(61u8);
                t.push(61u8);
                t.push(61u8);
                t.push(61u8);
                t.push(61u8);
                t.push(10u8);
                push_lossy_lines(&mut t, y, r.yours_start, r.yours_count, &e);
                push_marker(&mut t, 62u8, yl);
                assert(t@ =~= merged_body(r@, lm, lo, ly, format, mode, ml@, ol@, yl@));
            }
        },
    }
    t
}

/// The merged style of diff3: the first edited file, with each region shown
/// replaced by the lines that resolve it or by conflict markers.
pub fn generate_merged_output(
    mine_lines: &Vec<Vec<u8>>,
    older_lines: &Vec<Vec<u8>>,
    yours_lines: &Vec<Vec<u8>>,
    regions: &Vec<Diff3Region>,
    format: Diff3Format,
    mode: Diff3OutputMode,
    ml: &[u8],
    ol: &[u8],
    yl: &[u8],
) -> (r: Vec<u8>)
    requires
        regions_ok(regions_view(regions@), mine_lines.len() as int, older_lines.len() as int, yours_lines.len() as int),
        mine_lines.len() < usize::MAX,
        mine_lines.len() + older_lines.len() < usize::MAX,
        yours_lines.len() + older_lines.len() < usize::MAX,
        older_lines.len() < usize::MAX,
        yours_lines.len() < usize::MAX,
    ensures
        r@ == merged_text(
            regions_view(regions@),
            lines_of(mine_lines@),
            lines_of(older_lines@),
            lines_of(yours_lines@),
            format,
            mode,
            ml@,
            ol@,
            yl@,
        ),
{
    let ghost rs = regions_view(regions@);
    let ghost lm = lines_of(mine_lines@);
    let ghost lo = lines_of(older_lines@);
    let ghost ly = lines_of(yours_lines@);
    let ghost nm = mine_lines.len() as int;
    let ghost no = older_lines.len() as int;
    let ghost ny = yours_lines.len() as int;
    let e: [u8; 0] = [];
    assert(e@ =~= Seq::<u8>::empty());
    let mut output: Vec<u8> = Vec::new();
    let mut last_output_line: usize = 0;
    let mut i: usize = 0;
    while i < regions.len()
        invariant
            rs == regions_view(regions@),
            lm == lines_of(mine_lines@),
            lo == lines_of(older_lines@),
            ly == lines_of(yours_lines@),
            nm == mine_lines.len(),
            no == older_lines.len(),
            ny == yours_lines.len(),
            e@ == Seq::<u8>::empty(),
            regions_ok(rs, nm, no, ny),
            nm < usize::MAX,
            nm + no < usize::MAX,
            ny + no < usize::MAX,
            no < usize::MAX,
            ny < usize::MAX,
            i <= regions.len(),
            ({
                let st = merged_run(rs, i as nat, lm, lo, ly, format, mode, ml@, ol@, yl@);
                &&& st.last == last_output_line
                &&& st.out == output@
            }),
        decreases regions.len() - i,
    {
        let region = &regions[i];
        assert(rs[i as int] == region@);
        assert(region_ok(rs[i as int], nm, no, ny));
        let ghost st = merged_run(rs, i as nat, lm, lo, ly, format, mode, ml@, ol@, yl@);
        if should_include_region(region, mode) {
            let upto: usize = if region.mine_start < mine_lines.len() { region.mine_start } else { mine_lines.len() };
            if last_output_line < upto {
                push_lossy_lines(&mut output, mine_lines, last_output_line, upto - last_output_line, &e);
            } else {
                assert(output@ =~= st.out + Seq::<u8>::empty());
            }
            let t = merged_body_text(region, mine_lines, older_lines, yours_lines, format, mode, ml, ol, yl);
            push_all(&mut output, t.as_slice());
            last_output_line = region.mine_start + region.mine_count;
        }
        i = i + 1;
    }
    if last_output_line < mine_lines.len() {
        push_lossy_lines(&mut output, mine_lines, last_output_line, mine_lines.len() - last_output_line, &e);
    } else {
        assert(output@ =~= output@ + Seq::<u8>::empty());
    }
    output
}


// ---------------------------------------------------------------------------
// Ed script style
// ---------------------------------------------------------------------------

/// The ed command that takes the second edited file's lines for a region of
/// the first: an append after line `start` when the region spans no line of the
/// first file, a deletion when it spans none of the second, else a change.
pub open spec fn yours_cmd(r: RegionV, y: Seq<Seq<u8>>) -> Seq<u8> {
    let yours = lossy_lines(clip(y, r.yours_start, r.yours_count), Seq::<u8>::empty());
    if r.mine_count == 0 && r.yours_count > 0 {
        decimal(r.mine_start as nat) + seq![97u8, 10] + yours + seq![46u8, 10]
    } else if r.yours_count == 0 && r.mine_count > 0 {
        range_text(r.mine_start + 1, r.mine_count) + seq![100u8, 10]
    } else if r.yours_count > 0 {
        range_text(r.mine_start + 1, r.mine_count) + seq![99u8, 10] + yours + seq![46u8, 10]
    } else {
        Seq::<u8>::empty()
    }
}

/// In the ed style, whether the first edited file differs from the ancestor in
/// an easy region (the lines are compared only when both ranges lie within
/// their files).
pub open spec fn ed_mine_differs(r: RegionV, m: Seq<Seq<u8>>, o: Seq<Seq<u8>>) -> bool {
    r.mine_count != r.older_count || (r.mine_count > 0 && r.mine_start + r.mine_count <= m.len()
        && r.older_start + r.older_count <= o.len() && m.subrange(r.mine_start, r.mine_start
        + r.mine_count) != o.subrange(r.older_start, r.older_start + r.older_count))
}

/// The ed commands of a region that both edited files changed in the same way:
/// none when the first edited file still has the ancestor's lines there, else
/// the lines of the first edited file.
pub open spec fn nonoverlap_cmd(r: RegionV, m: Seq<Seq<u8>>, o: Seq<Seq<u8>>) -> Seq<u8> {
    let e = Seq::<u8>::empty();
    if r.mine_count == r.older_count && r.mine_start < m.len() && r.older_start < o.len() && clip(
        m,
        r.mine_start,
        r.mine_count,
    ) == clip(o, r.older_start, r.older_count) {
        e
    } else if r.mine_count == 0 {
        decimal(r.mine_start as nat) + seq![97u8, 10] + lossy_lines(clip(m, r.mine_start, r.yours_count), e)
            + seq![46u8, 10]
    } else {
        range_text(r.mine_start + 1, r.mine_count) + seq![99u8, 10] + lossy_lines(
            clip(m, r.mine_start, r.mine_count),
            e,
        ) + seq![46u8, 10]
    }
}

/// The ed commands that mark an overlapping conflict: after the region, the
/// ancestor's lines (with `-A`), a separator, the second edited file's lines
/// and the closing marker; before the region, the opening marker.
pub open spec fn marker_cmds(
    r: RegionV,
    o: Seq<Seq<u8>>,
    y: Seq<Seq<u8>>,
    mode: Diff3OutputMode,
    ml: Seq<u8>,
    ol: Seq<u8>,
    yl: Seq<u8>,
) -> Seq<u8> {
    let e = Seq::<u8>::empty();
    decimal((r.mine_start + r.mine_count) as nat) + seq![97u8, 10] + (if mode == Diff3OutputMode::All {
        seq![124u8, 124, 124, 124, 124, 124, 124, 32] + ol + seq![10u8] + lossy_lines(
            clip(o, r.older_start, r.older_count),
            e,
        )
    } else {
        e
    }) + seq![61u8, 61, 61, 61, 61, 61, 61, 10] + lossy_lines(clip(y, r.yours_start, r.yours_count), e)
        + seq![62u8, 62, 62, 62, 62, 62, 62, 32] + yl + seq![10u8] + seq![46u8, 10] + decimal(
        r.mine_start as nat,
    ) + seq![97u8, 10] + seq![60u8, 60, 60, 60, 60, 60, 60, 32] + ml + seq![10u8] + seq![46u8, 10]
}

/// The ed commands of one region.
pub open spec fn ed3_region(
    r: RegionV,
    m: Seq<Seq<u8>>,
    o: Seq<Seq<u8>>,
    y: Seq<Seq<u8>>,
    mode: Diff3OutputMode,
    ml: Seq<u8>,
    ol: Seq<u8>,
    yl: Seq<u8>,
) -> Seq<u8> {
    if !include_region(r, mode) {
        Seq::<u8>::empty()
    } else {
        match r.conflict {
            ConflictType::NoConflict => Seq::<u8>::empty(),
            ConflictType::NonOverlapping => nonoverlap_cmd(r, m, o),
            ConflictType::EasyConflict => if ed_mine_differs(r, m, o) {
                Seq::<u8>::empty()
            } else {
                yours_cmd(r, y)
            },
            ConflictType::OverlappingConflict => if mode == Diff3OutputMode::ShowOverlapEd || mode
                == Diff3OutputMode::All {
                marker_cmds(r, o, y, mode, ml, ol, yl)
            } else {
                yours_cmd(r, y)
            },
        }
    }
}

/// The ed commands of the regions, the last region first (so that each command
/// is applied before the lines above it move).
pub open spec fn ed3_text(
    rs: Seq<RegionV>,
    m: Seq<Seq<u8>>,
    o: Seq<Seq<u8>>,
    y: Seq<Seq<u8>>,
    mode: Diff3OutputMode,
    ml: Seq<u8>,
    ol: Seq<u8>,
    yl: Seq<u8>,
) -> Seq<u8>
    decreases rs.len(),
{
    if rs.len() == 0 {
        Seq::<u8>::empty()
    } else {
        ed3_text(rs.drop_first(), m, o, y, mode, ml, ol, yl) + ed3_region(rs[0], m, o, y, mode, ml, ol, yl)
    }
}

/// The ed script: the commands, then `w` and `q` when asked for.
pub open spec fn ed3_script(
    rs: Seq<RegionV>,
    m: Seq<Seq<u8>>,
    o: Seq<Seq<u8>>,
    y: Seq<Seq<u8>>,
    mode: Diff3OutputMode,
    ml: Seq<u8>,
    ol: Seq<u8>,
    yl: Seq<u8>,
    compat_i: bool,
) -> Seq<u8> {
    ed3_text(rs, m, o, y, mode, ml, ol, yl) + if compat_i {
        seq![119u8, 10, 113, 10]
    } else {
        Seq::<u8>::empty()
    }
}

fn push_yours_cmd(out: &mut Vec<u8>, r: &Diff3Region, y: &Vec<Vec<u8>>)
    requires
        r.mine_start + r.mine_count < usize::MAX,
        r.yours_start + r.yours_count <= usize::MAX,
    ensures
        final(out)@ == old(out)@ + yours_cmd(r@, lines_of(y@)),
{
    let e: [u8; 0] = [];
    assert(e@ =~= Seq::<u8>::empty());
    let ghost o0 = out@;
    if r.mine_count == 0 && r.yours_count > 0 {
        push_decimal(out, r.mine_start);
        out.push(97u8);
        out.push(10u8);
        push_lossy_lines(out, y, r.yours_start, r.yours_count, &e);
        out.push(46u8);
        out.push(10u8);
    } else if r.yours_count == 0 && r.mine_count > 0 {
        push_range(out, r.mine_start + 1, r.mine_count);
        out.push(100u8);
        out.push(10u8);
    } else if r.yours_count > 0 {
        push_range(out, r.mine_start + 1, r.mine_count);
        out.push(99u8);
        out.push(10u8);
        push_lossy_lines(out, y, r.yours_start, r.yours_count, &e);
        out.push(46u8);
        out.push(10u8);
    }
    assert(out@ =~= o0 + yours_cmd(r@, lines_of(y@)));
}

#[verifier::rlimit(100)]
fn push_nonoverlap_cmd(out: &mut Vec<u8>, r: &Diff3Region, m: &Vec<Vec<u8>>, o: &Vec<Vec<u8>>)
    requires
        r.mine_start + r.mine_count < usize::MAX,
        r.older_start + r.older_count < usize::MAX,
    ensures
        final(out)@ == old(out)@ + nonoverlap_cmd(r@, lines_of(m@), lines_of(o@)),
{
    let e: [u8; 0] = [];
    assert(e@ =~= Seq::<u8>::empty());
    let ghost lm = lines_of(m@);
    let ghost lo = lines_of(o@);
    let ghost o0 = out@;
    let ms = r.mine_start;
    let mc = r.mine_count;
    let os = r.older_start;
    let oc = r.older_count;
    let same = if mc == oc && ms < m.len() && os < o.len() {
        let me = if ms + mc < m.len() { ms + mc } else { m.len() };
        let oe = if os + oc < o.len() { os + oc } else { o.len() };
        let r1 = lines_range_eq(m, ms, me - ms, o, os, oe - os);
        assert(clip(lm, ms as int, mc as int) == lm.subrange(ms as int, me as int));
        assert(clip(lo, os as int, oc as int) == lo.subrange(os as int, oe as int));
        r1
    } else {
        false
    };
    if same {
    } else if mc == 0 {
        push_decimal(out, ms);
        out.push(97u8);
        out.push(10u8);
        push_lossy_lines(out, m, ms, r.yours_count, &e);
        out.push(46u8);
        out.push(10u8);
    } else {
        push_range(out, ms + 1, mc);
        out.push(99u8);
        out.push(10u8);
        push_lossy_lines(out, m, ms, mc, &e);
        out.push(46u8);
        out.push(10u8);
    }
    assert(out@ =~= o0 + nonoverlap_cmd(r@, lm, lo));
}

#[verifier::rlimit(100)]
fn push_marker_cmds(
    out: &mut Vec<u8>,
    r: &Diff3Region,
    o: &Vec<Vec<u8>>,
    y: &Vec<Vec<u8>>,
    mode: Diff3OutputMode,
    ml: &[u8],
    ol: &[u8],
    yl: &[u8],
)
    requires
        r.mine_start + r.mine_count <= usize::MAX,
    ensures
        final(out)@ == old(out)@ + marker_cmds(r@, lines_of(o@), lines_of(y@), mode, ml@, ol@, yl@),
{
    let e: [u8; 0] = [];
    assert(e@ =~= Seq::<u8>::empty());
    let ghost o0 = out@;
    push_decimal(out, r.mine_start + r.mine_count);
    out.push(97u8);
    out.push(10u8);
    let ghost o1 = out@;
    if mode == Diff3OutputMode::All {
        push_marker(out, 124u8, ol);
        push_lossy_lines(out, o, r.older_start, r.older_count, &e);
    }
    let ghost o2 = out@;
    let sep: [u8; 8] = [61u8, 61, 61, 61, 61, 61, 61, 10];
    push_all(out, &sep);
    push_lossy_lines(out, y, r.yours_start, r.yours_count, &e);
    push_marker(out, 62u8, yl);
    let ghost o3 = out@;
    let dot: [u8; 2] = [46u8, 10];
    push_all(out, &dot);
    push_decimal(out, r.mine_start);
    out.push(97u8);
    out.push(10u8);
    push_marker(out, 60u8, ml);
    push_all(out, &dot);
    assert(sep@ =~= seq![61u8, 61, 61, 61, 61, 61, 61, 10]);
    assert(dot@ =~= seq![46u8, 10]);
    assert(out@ =~= o0 + marker_cmds(r@, lines_of(o@), lines_of(y@), mode, ml@, ol@, yl@));
}

fn ed3_region_text(
    r: &Diff3Region,
    m: &Vec<Vec<u8>>,
    o: &Vec<Vec<u8>>,
    y: &Vec<Vec<u8>>,
    mode: Diff3OutputMode,
    ml: &[u8],
    ol: &[u8],
    yl: &[u8],
) -> (t: Vec<u8>)
    requires
        region_ok(r@, m.len() as int, o.len() as int, y.len() as int),
        m.len() < usize::MAX,
        m.len() + o.len() < usize::MAX,
        y.len() + o.len() < usize::MAX,
        o.len() < usize::MAX,
        y.len() < usize::MAX,
    ensures
        t@ == ed3_region(r@, lines_of(m@), lines_of(o@), lines_of(y@), mode, ml@, ol@, yl@),
{
    let mut t: Vec<u8> = Vec::new();
    if !should_include_region(r, mode) {
        assert(t@ =~= Seq::<u8>::empty());
        return t;
    }
    let ms = r.mine_start;
    let mc = r.mine_count;
    let os = r.older_start;
    let oc = r.older_count;
    match r.conflict {
        ConflictType::NoConflict => {
            assert(t@ =~= Seq::<u8>::empty());
        },
        ConflictType::NonOverlapping => {
            push_nonoverlap_cmd(&mut t, r, m, o);
            assert(t@ =~= nonoverlap_cmd(r@, lines_of(m@), lines_of(o@)));
        },
        ConflictType::EasyConflict => {
            let md = mc != oc || (mc > 0 && ms + mc <= m.len() && os + oc <= o.len() && !lines_range_eq(m, ms, mc, o, os, oc));
            assert(md == ed_mine_differs(r@, lines_of(m@), lines_of(o@)));
            if !md {
                push_yours_cmd(&mut t, r, y);
                assert(t@ =~= yours_cmd(r@, lines_of(y@)));
            } else {
                assert(t@ =~= Seq::<u8>::empty());
            }
        },
        ConflictType::OverlappingConflict => {
            if mode == Diff3OutputMode::ShowOverlapEd || mode == Diff3OutputMode::All {
                push_marker_cmds(&mut t, r, o, y, mode, ml, ol, yl);
                assert(t@ =~= marker_cmds(r@, lines_of(o@), lines_of(y@), mode, ml@, ol@, yl@));
            } else {
                push_yours_cmd(&mut t, r, y);
                assert(t@ =~= yours_cmd(r@, lines_of(y@)));
            }
        },
    }
    t
}

/// The ed style of diff3: the commands of the regions shown, the last region
/// first, and `w` and `q` when `compat_i` asks for them.
pub fn generate_ed_script(
    mine_lines: &Vec<Vec<u8>>,
    older_lines: &Vec<Vec<u8>>,
    yours_lines: &Vec<Vec<u8>>,
    regions: &Vec<Diff3Region>,
    mode: Diff3OutputMode,
    ml: &[u8],
    ol: &[u8],
    yl: &[u8],
    compat_i: bool,
) -> (r: Vec<u8>)
    requires
        regions_ok(regions_view(regions@), mine_lines.len() as int, older_lines.len() as int, yours_lines.len() as int),
        mine_lines.len() < usize::MAX,
        mine_lines.len() + older_lines.len() < usize::MAX,
        yours_lines.len() + older_lines.len() < usize::MAX,
        older_lines.len() < usize::MAX,
        yours_lines.len() < usize::MAX,
    ensures
        r@ == ed3_script(
            regions_view(regions@),
            lines_of(mine_lines@),
            lines_of(older_lines@),
            lines_of(yours_lines@),
            mode,
            ml@,
            ol@,
            yl@,
            compat_i,
        ),
{
    let ghost rs = regions_view(regions@);
    let ghost lm = lines_of(mine_lines@);
    let ghost lo = lines_of(older_lines@);
    let ghost ly = lines_of(yours_lines@);
    let mut output: Vec<u8> = Vec::new();
    let mut i: usize = regions.len();
    assert(rs.subrange(i as int, rs.len() as int) =~= Seq::<RegionV>::empty());
    while i > 0
        invariant
            rs == regions_view(regions@),
            lm == lines_of(mine_lines@),
            lo == lines_of(older_lines@),
            ly == lines_of(yours_lines@),
            regions_ok(rs, mine_lines.len() as int, older_lines.len() as int, yours_lines.len() as int),
            mine_lines.len() < usize::MAX,
            mine_lines.len() + older_lines.len() < usize::MAX,
            yours_lines.len() + older_lines.len() < usize::MAX,
            older_lines.len() < usize::MAX,
            yours_lines.len() < usize::MAX,
            i <= regions.len(),
            output@ == ed3_text(rs.subrange(i as int, rs.len() as int), lm, lo, ly, mode, ml@, ol@, yl@),
        decreases i,
    {
        i = i - 1;
        assert(rs[i as int] == regions@[i as int]@);
        assert(region_ok(rs[i as int], mine_lines.len() as int, older_lines.len() as int, yours_lines.len() as int));
        let t = ed3_region_text(&regions[i], mine_lines, older_lines, yours_lines, mode, ml, ol, yl);
        push_all(&mut output, t.as_slice());
        proof {
            let s1 = rs.subrange(i as int, rs.len() as int);
            assert(s1.drop_first() =~= rs.subrange(i + 1, rs.len() as int));
            assert(s1[0] == rs[i as int]);
        }
    }
    assert(rs.subrange(0, rs.len() as int) =~= rs);
    if compat_i {
        output.push(119u8);
        output.push(10u8);
        output.push(113u8);
        output.push(10u8);
    }
    assert(output@ =~= ed3_script(rs, lm, lo, ly, mode, ml@, ol@, yl@, compat_i));
    output
}

/// The part of a region for file `k` names its lines: after `k:`, a region
/// that spans no line of the file reads as the line `L` after which it lies,
/// followed by `a` (append); a region that holds lines reads as the range
/// from its first line to its last (`start + 1` to `start + count`, counting
/// from one), followed by `c`; then the line ends.
pub proof fn lemma_file_block_ranges(k: u8, start: int, count: int, ls: Seq<Seq<u8>>, show: bool, prefix: Seq<u8>)
    requires
        0 <= start,
        0 <= count,
    ensures
        ({
            let t = file_block(k, start, count, ls, show, prefix);
            let r = read_range(t.skip(2));
            &&& t[0] == k && t[1] == 58u8
            &&& count == 0 ==> t[2 + r.2] == 97u8 && r.0 == start && r.1 == start
            &&& count > 0 ==> t[2 + r.2] == 99u8 && r.0 == start + 1 && r.1 == start + count
            &&& t[3 + r.2] == 10u8
        }),
{
    let t = file_block(k, start, count, ls, show, prefix);
    if count == 0 {
        let rest = seq![97u8, 10];
        assert(t.skip(2) =~= decimal(start as nat) + rest);
        lemma_read_number(start as nat, rest);
    } else {
        let body = if show { lossy_lines(clip(ls, start, count), prefix) } else { Seq::<u8>::empty() };
        let rest = seq![99u8, 10] + body;
        assert(t.skip(2) =~= range_text(start + 1, count) + rest);
        lemma_read_range_text(start + 1, count, rest);
    }
}

/// What a reader finds at the start of an ed command for the lines
/// `start + 1` to `start + count` of the first file: an append `La` after line
/// `start` when the command spans no line, else the range from the first to
/// the last line and the command letter `cmd`; then the line ends.
pub open spec fn ed3_command_reads(t: Seq<u8>, start: int, count: int, cmd: u8) -> bool {
    let r = read_range(t);
    &&& count == 0 ==> t[r.2] == 97u8 && r.0 == start && r.1 == start
    &&& count > 0 ==> t[r.2] == cmd && r.0 == start + 1 && r.1 == start + count
    &&& t[r.2 + 1] == 10u8
}

proof fn lemma_ed3_command_then(start: int, count: int, cmd: u8, body: Seq<u8>)
    requires
        0 <= start,
        0 <= count,
        cmd == 99u8 || cmd == 100u8,
    ensures
        count == 0 ==> ed3_command_reads(decimal(start as nat) + seq![97u8, 10] + body, start, count, cmd),
        count > 0 ==> ed3_command_reads(range_text(start + 1, count) + seq![cmd, 10] + body, start, count, cmd),
{
    if count == 0 {
        let rest = seq![97u8, 10] + body;
        assert(decimal(start as nat) + seq![97u8, 10] + body =~= decimal(start as nat) + rest);
        lemma_read_number(start as nat, rest);
    } else {
        let rest = seq![cmd, 10] + body;
        assert(range_text(start + 1, count) + seq![cmd, 10] + body =~= range_text(start + 1, count) + rest);
        lemma_read_range_text(start + 1, count, rest);
    }
}

/// The ed command that takes the second edited file's lines for a region names
/// the region's lines of the first file: an append after line `L` when it
/// spans none of them, a deletion (`d`) of exactly its lines when the second
/// file has none there, else a change (`c`) of exactly its lines.
pub proof fn lemma_yours_cmd_ranges(r: RegionV, y: Seq<Seq<u8>>)
    requires
        0 <= r.mine_start,
        0 <= r.mine_count,
        0 <= r.yours_count,
        r.mine_count > 0 || r.yours_count > 0,
    ensures
        ed3_command_reads(yours_cmd(r, y), r.mine_start, r.mine_count, if r.yours_count == 0 { 100u8 } else { 99u8 }),
{
    let yours = lossy_lines(clip(y, r.yours_start, r.yours_count), Seq::<u8>::empty());
    if r.mine_count == 0 {
        lemma_ed3_command_then(r.mine_start, 0, 99u8, yours + seq![46u8, 10]);
        assert(yours_cmd(r, y) =~= decimal(r.mine_start as nat) + seq![97u8, 10] + (yours + seq![46u8, 10]));
    } else if r.yours_count == 0 {
        lemma_ed3_command_then(r.mine_start, r.mine_count, 100u8, Seq::<u8>::empty());
        assert(yours_cmd(r, y) =~= range_text(r.mine_start + 1, r.mine_count) + seq![100u8, 10] + Seq::<u8>::empty());
    } else {
        lemma_ed3_command_then(r.mine_start, r.mine_count, 99u8, yours + seq![46u8, 10]);
        assert(yours_cmd(r, y) =~= range_text(r.mine_start + 1, r.mine_count) + seq![99u8, 10] + (yours + seq![46u8, 10]));
    }
}

/// The ed command that takes the first edited file's lines for a region that
/// both edited files changed alike, where there is one, names the region's
/// lines of the first file: an append after line `L` when it spans none,
/// else a change (`c`) of exactly its lines.
pub proof fn lemma_nonoverlap_cmd_ranges(r: RegionV, m: Seq<Seq<u8>>, o: Seq<Seq<u8>>)
    requires
        0 <= r.mine_start,
        0 <= r.mine_count,
        nonoverlap_cmd(r, m, o).len() > 0,
    ensures
        ed3_command_reads(nonoverlap_cmd(r, m, o), r.mine_start, r.mine_count, 99u8),
{
    let e = Seq::<u8>::empty();
    if r.mine_count == 0 {
        let body = lossy_lines(clip(m, r.mine_start, r.yours_count), e) + seq![46u8, 10];
        lemma_ed3_command_then(r.mine_start, 0, 99u8, body);
        assert(nonoverlap_cmd(r, m, o) =~= decimal(r.mine_start as nat) + seq![97u8, 10] + body);
    } else {
        let body = lossy_lines(clip(m, r.mine_start, r.mine_count), e) + seq![46u8, 10];
        lemma_ed3_command_then(r.mine_start, r.mine_count, 99u8, body);
        assert(nonoverlap_cmd(r, m, o) =~= range_text(r.mine_start + 1, r.mine_count) + seq![99u8, 10] + body);
    }
}

/// The commands that mark a conflict start by appending after the region's
/// last line of the first file.
pub proof fn lemma_marker_cmds_start(r: RegionV, o: Seq<Seq<u8>>, y: Seq<Seq<u8>>, mode: Diff3OutputMode, ml: Seq<u8>, ol: Seq<u8>, yl: Seq<u8>)
    requires
        0 <= r.mine_start,
        0 <= r.mine_count,
    ensures
        ed3_command_reads(marker_cmds(r, o, y, mode, ml, ol, yl), r.mine_start + r.mine_count, 0, 97u8),
{
    let t = marker_cmds(r, o, y, mode, ml, ol, yl);
    let n = (r.mine_start + r.mine_count) as nat;
    let body = t.skip((decimal(n).len() + 2) as int);
    assert(t =~= decimal(n) + seq![97u8, 10] + body);
    lemma_ed3_command_then(r.mine_start + r.mine_count, 0, 99u8, body);
}

} // verus!
