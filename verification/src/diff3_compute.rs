//! The whole three-way comparison of three buffers, as diff3 runs it.

use vstd::prelude::*;
use vstd::utf8::{valid_utf8, encode_utf8};
use crate::lines::{lines_of, split_lines, split_at_byte, lemma_split_lines_len, lemma_count_nl_le,
    lemma_last_piece_nonempty_bound};
use crate::script::{DiffOp, lcs_script, diff_size_ok, diff_lines, lemma_diff_size_mono};
use crate::text::{push_all, to_owned_bytes};
use crate::unicode::{lossy_utf8, utf8_lossy, utf8_str};
use crate::diff3::{ConflictType, Diff3Format, Diff3OutputMode, Diff3Params, Diff3Region, RegionV,
    regions_view, are_files_identical, is_binary, is_binary_content, strip_cr, strip_trailing_cr};
use crate::diff3_regions::{conflict_regions, regions_ok, region_ok, build_conflict_regions, lines_range_eq};
use crate::diff3_output::{normal3_text, merged_text, ed3_script, generate_normal_output, generate_merged_output, generate_ed_script};

verus! {

/// The lines of a buffer as diff3 reads them: the pieces between newlines,
/// each without a trailing carriage return when `strip` asks for it, and
/// without the empty piece that follows a final newline.
pub open spec fn diff3_lines(s: Seq<u8>, strip: bool) -> Seq<Seq<u8>> {
    let p = split_lines(s);
    let q = if strip { Seq::new(p.len(), |i: int| strip_cr(p[i])) } else { p };
    if q.last() == Seq::<u8>::empty() {
        q.drop_last()
    } else {
        q
    }
}

proof fn lemma_diff3_lines_len(s: Seq<u8>, strip: bool)
    ensures
        diff3_lines(s, strip).len() <= s.len(),
{
    lemma_split_lines_len(s);
    lemma_count_nl_le(s);
    let p = split_lines(s);
    let q = if strip { Seq::new(p.len(), |i: int| strip_cr(p[i])) } else { p };
    if q.last() != Seq::<u8>::empty() {
        assert(p.last() != Seq::<u8>::empty()) by {
            if p.last() == Seq::<u8>::empty() {
                assert(strip_cr(p.last()) =~= Seq::<u8>::empty());
            }
        }
        lemma_last_piece_nonempty_bound(s);
    }
}

/// The lines of a buffer as diff3 reads them.
pub fn diff3_lines_of(s: &[u8], strip: bool) -> (r: Vec<Vec<u8>>)
    ensures
        lines_of(r@) == diff3_lines(s@, strip),
        r.len() <= s.len(),
{
    let pieces = split_at_byte(s, 10u8);
    proof {
        lemma_split_lines_len(s@);
        lemma_diff3_lines_len(s@, strip);
    }
    let ghost p = split_lines(s@);
    let mut q: Vec<Vec<u8>> = Vec::new();
    let mut i: usize = 0;
    while i < pieces.len()
        invariant
            lines_of(pieces@) == p,
            i <= pieces.len(),
            q.len() == i,
            forall|j: int| 0 <= j < i ==> (#[trigger] q@[j])@ == if strip { strip_cr(p[j]) } else { p[j] },
        decreases pieces.len() - i,
    {
        assert(p[i as int] == pieces@[i as int]@);
        let line: &[u8] = if strip { strip_trailing_cr(pieces[i].as_slice()) } else { pieces[i].as_slice() };
        q.push(to_owned_bytes(line));
        i = i + 1;
    }
    let ghost qs = if strip { Seq::new(p.len(), |j: int| strip_cr(p[j])) } else { p };
    assert(lines_of(q@) =~= qs);
    if q[q.len() - 1].len() == 0 {
        assert(qs.last() =~= Seq::<u8>::empty());
        q.pop();
        assert(lines_of(q@) =~= qs.drop_last());
    } else {
        assert(qs.last() != Seq::<u8>::empty());
    }
    q
}

/// The text of a conflict marker's label: the label given, else the file's name
/// when it is valid UTF-8, else `default`.
pub open spec fn label_text(label: Option<String>, name: Seq<u8>, default: Seq<u8>) -> Seq<u8> {
    match label {
        Some(s) => encode_utf8(s@),
        None => if valid_utf8(name) {
            name
        } else {
            default
        },
    }
}

fn label_bytes(label: &Option<String>, name: &[u8], default: &[u8]) -> (r: Vec<u8>)
    ensures
        r@ == label_text(*label, name@, default@),
{
    match label {
        Some(s) => to_owned_bytes(s.as_str().as_bytes()),
        None => match utf8_str(name) {
            Some(_) => to_owned_bytes(name),
            None => to_owned_bytes(default),
        },
    }
}

/// `Binary files A and B differ` and a newline.
pub open spec fn binary_differ(a: Seq<u8>, b: Seq<u8>) -> Seq<u8> {
    seq![66u8, 105, 110, 97, 114, 121, 32, 102, 105, 108, 101, 115, 32] + lossy_utf8(a) + seq![32u8, 97, 110, 100, 32]
        + lossy_utf8(b) + seq![32u8, 100, 105, 102, 102, 101, 114, 10]
}

/// What diff3 reports when some input is binary: one line for each pair of
/// binary inputs that differ.
pub open spec fn binary_report(mine: Seq<u8>, older: Seq<u8>, yours: Seq<u8>, p: Diff3Params, mb: bool, ob: bool, yb: bool) -> Seq<u8> {
    (if mb && ob && mine != older {
        binary_differ(p.mine@, p.older@)
    } else {
        Seq::<u8>::empty()
    }) + (if ob && yb && older != yours {
        binary_differ(p.older@, p.yours@)
    } else {
        Seq::<u8>::empty()
    }) + (if mb && yb && mine != yours {
        binary_differ(p.mine@, p.yours@)
    } else {
        Seq::<u8>::empty()
    })
}

pub open spec fn any_conflict(rs: Seq<RegionV>, c: ConflictType) -> bool {
    exists|i: int| 0 <= i < rs.len() && (#[trigger] rs[i]).conflict == c
}

/// Whether diff3 reports unresolved conflicts (its exit status 1): in the
/// ed formats with `-A` or `-E` and in the show-overlap format when a region
/// overlaps; in the merged format (but with `-x` or `-X`) when some region has
/// an easy or an overlapping conflict; never in the normal format.
pub open spec fn should_report(rs: Seq<RegionV>, format: Diff3Format, mode: Diff3OutputMode) -> bool {
    match format {
        Diff3Format::Ed => (mode == Diff3OutputMode::ShowOverlapEd || mode == Diff3OutputMode::All)
            && any_conflict(rs, ConflictType::OverlappingConflict),
        Diff3Format::ShowOverlap => any_conflict(rs, ConflictType::OverlappingConflict),
        Diff3Format::Normal => false,
        Diff3Format::Merged => if mode == Diff3OutputMode::OverlapOnly || mode == Diff3OutputMode::OverlapOnlyMarked {
            false
        } else {
            any_conflict(rs, ConflictType::EasyConflict) || any_conflict(rs, ConflictType::OverlappingConflict)
        },
    }
}

/// The regions of the comparison of three buffers.
pub open spec fn diff3_regions(mine: Seq<u8>, older: Seq<u8>, yours: Seq<u8>, strip: bool) -> Seq<RegionV> {
    let m = diff3_lines(mine, strip);
    let o = diff3_lines(older, strip);
    let y = diff3_lines(yours, strip);
    conflict_regions(lcs_script(m, o), lcs_script(o, y), m, o, y)
}

/// Whether some input counts as binary.
pub open spec fn some_binary(mine: Seq<u8>, older: Seq<u8>, yours: Seq<u8>, p: Diff3Params) -> bool {
    !p.text && (is_binary(mine) || is_binary(older) || is_binary(yours))
}

/// The comparison reaches the regions: the buffers are not all equal, none is
/// binary, and their lines are not all equal.
pub open spec fn reaches_regions(mine: Seq<u8>, older: Seq<u8>, yours: Seq<u8>, p: Diff3Params) -> bool {
    &&& !(mine == older && older == yours)
    &&& !some_binary(mine, older, yours, p)
    &&& !(diff3_lines(mine, p.strip_trailing_cr) == diff3_lines(older, p.strip_trailing_cr) && diff3_lines(
        older,
        p.strip_trailing_cr,
    ) == diff3_lines(yours, p.strip_trailing_cr))
}

/// The output of diff3 and whether it reports conflicts: nothing when the
/// buffers or their lines are all equal; the binary report when some input is
/// binary; else the regions in the chosen format.
pub open spec fn diff3_output(mine: Seq<u8>, older: Seq<u8>, yours: Seq<u8>, p: Diff3Params) -> (Seq<u8>, bool) {
    let strip = p.strip_trailing_cr;
    if mine == older && older == yours {
        (Seq::<u8>::empty(), false)
    } else if some_binary(mine, older, yours, p) {
        let mb = !p.text && is_binary(mine);
        let ob = !p.text && is_binary(older);
        let yb = !p.text && is_binary(yours);
        (binary_report(mine, older, yours, p, mb, ob, yb), true)
    } else {
        let m = diff3_lines(mine, strip);
        let o = diff3_lines(older, strip);
        let y = diff3_lines(yours, strip);
        if m == o && o == y {
            (Seq::<u8>::empty(), false)
        } else {
            let rs = diff3_regions(mine, older, yours, strip);
            let report = should_report(rs, p.format, p.output_mode);
            let text = match p.format {
                Diff3Format::Normal => normal3_text(
                    rs,
                    m,
                    o,
                    y,
                    p.output_mode,
                    if p.initial_tab { seq![9u8] } else { seq![32u8, 32] },
                ),
                Diff3Format::Merged => merged_text(
                    rs,
                    m,
                    o,
                    y,
                    p.format,
                    p.output_mode,
                    label_text(p.labels@[0], p.mine@, seq![60u8, 60, 60, 60, 60, 60, 60]),
                    label_text(p.labels@[1], p.older@, seq![124u8, 124, 124, 124, 124, 124, 124]),
                    label_text(p.labels@[2], p.yours@, seq![62u8, 62, 62, 62, 62, 62, 62]),
                ),
                _ => ed3_script(
                    rs,
                    m,
                    o,
                    y,
                    p.output_mode,
                    label_text(p.labels@[0], p.mine@, seq![109u8, 105, 110, 101]),
                    label_text(p.labels@[1], p.older@, seq![111u8, 108, 100, 101, 114]),
                    label_text(p.labels@[2], p.yours@, seq![121u8, 111, 117, 114, 115]),
                    p.compat_i,
                ),
            };
            (text, report)
        }
    }
}

/// The line counts of three buffers within the limits of `diff_lines`, pair by pair.
pub open spec fn diff3_sizes_ok(a: nat, b: nat, c: nat) -> bool {
    diff_size_ok(a, b) && diff_size_ok(b, c) && diff_size_ok(a, c)
}

/// Line counts within the limits of `diff_lines` add up within a `usize`.
proof fn lemma_sum_within(a: nat, b: nat)
    requires
        diff_size_ok(a, b),
    ensures
        a + b < usize::MAX,
{
    assert(a + b + 1 <= (a + 1) * (b + 1)) by (nonlinear_arith);
}

fn push_binary_differ(out: &mut Vec<u8>, a: &[u8], b: &[u8])
    ensures
        final(out)@ == old(out)@ + binary_differ(a@, b@),
{
    let w1: [u8; 13] = [66u8, 105, 110, 97, 114, 121, 32, 102, 105, 108, 101, 115, 32];
    let w2: [u8; 5] = [32u8, 97, 110, 100, 32];
    let w3: [u8; 8] = [32u8, 100, 105, 102, 102, 101, 114, 10];
    let la = utf8_lossy(a);
    let lb = utf8_lossy(b);
    let ghost o0 = out@;
    push_all(out, &w1);
    push_all(out, la.as_slice());
    push_all(out, &w2);
    push_all(out, lb.as_slice());
    push_all(out, &w3);
    assert(w1@ =~= seq![66u8, 105, 110, 97, 114, 121, 32, 102, 105, 108, 101, 115, 32]);
    assert(w2@ =~= seq![32u8, 97, 110, 100, 32]);
    assert(w3@ =~= seq![32u8, 100, 105, 102, 102, 101, 114, 10]);
    assert(out@ =~= o0 + binary_differ(a@, b@));
}

fn all_lines_equal(a: &Vec<Vec<u8>>, b: &Vec<Vec<u8>>) -> (r: bool)
    ensures
        r == (lines_of(a@) == lines_of(b@)),
{
    if a.len() != b.len() {
        assert(lines_of(a@).len() != lines_of(b@).len());
        return false;
    }
    let r = lines_range_eq(a, 0, a.len(), b, 0, b.len());
    assert(lines_of(a@).subrange(0, a.len() as int) =~= lines_of(a@));
    assert(lines_of(b@).subrange(0, b.len() as int) =~= lines_of(b@));
    r
}

fn has_conflict(regions: &Vec<Diff3Region>, c: ConflictType) -> (r: bool)
    ensures
        r == any_conflict(regions_view(regions@), c),
{
    let ghost rs = regions_view(regions@);
    let mut i: usize = 0;
    while i < regions.len()
        invariant
            rs == regions_view(regions@),
            i <= regions.len(),
            forall|j: int| 0 <= j < i ==> (#[trigger] rs[j]).conflict != c,
        decreases regions.len() - i,
    {
        if regions[i].conflict == c {
            assert(rs[i as int].conflict == c);
            return true;
        }
        i = i + 1;
    }
    false
}

/// The comparison of three buffers: the output and whether it reports
/// unresolved conflicts.
fn compute_diff3_inner(mine: &[u8], older: &[u8], yours: &[u8], params: &Diff3Params) -> (r: (Vec<u8>, bool))
    requires
        diff3_sizes_ok(diff3_lines(mine@, params.strip_trailing_cr).len(), diff3_lines(older@, params.strip_trailing_cr).len(), diff3_lines(yours@, params.strip_trailing_cr).len()),
    ensures
        r.0@ == diff3_output(mine@, older@, yours@, *params).0,
        r.1 == diff3_output(mine@, older@, yours@, *params).1,
{
    if are_files_identical(mine, older) && are_files_identical(older, yours) {
        return ((Vec::new(), false));
    }
    let mine_is_binary = !params.text && is_binary_content(mine);
    let older_is_binary = !params.text && is_binary_content(older);
    let yours_is_binary = !params.text && is_binary_content(yours);
    if mine_is_binary || older_is_binary || yours_is_binary {
        let all_identical = are_files_identical(mine, older) && are_files_identical(older, yours);
        if all_identical {
            return ((Vec::new(), false));
        }
        let mut output: Vec<u8> = Vec::new();
        let ghost o0 = output@;
        if mine_is_binary && older_is_binary && !are_files_identical(mine, older) {
            push_binary_differ(&mut output, params.mine.as_slice(), params.older.as_slice());
        }
        let ghost o1 = output@;
        if older_is_binary && yours_is_binary && !are_files_identical(older, yours) {
            push_binary_differ(&mut output, params.older.as_slice(), params.yours.as_slice());
        }
        let ghost o2 = output@;
        if mine_is_binary && yours_is_binary && !are_files_identical(mine, yours) {
            push_binary_differ(&mut output, params.mine.as_slice(), params.yours.as_slice());
        }
        assert(output@ =~= binary_report(mine@, older@, yours@, *params, mine_is_binary, older_is_binary, yours_is_binary));
        return ((output, true));
    }
    let strip = params.strip_trailing_cr;
    let mine_lines = diff3_lines_of(mine, strip);
    let older_lines = diff3_lines_of(older, strip);
    let yours_lines = diff3_lines_of(yours, strip);
    if all_lines_equal(&mine_lines, &older_lines) && all_lines_equal(&older_lines, &yours_lines) {
        return ((Vec::new(), false));
    }
    proof {
        assert(mine_lines@.len() == lines_of(mine_lines@).len());
        assert(older_lines@.len() == lines_of(older_lines@).len());
        assert(yours_lines@.len() == lines_of(yours_lines@).len());
        lemma_sum_within(mine_lines.len() as nat, older_lines.len() as nat);
        lemma_sum_within(older_lines.len() as nat, yours_lines.len() as nat);
    }
    let diff_mine_older = diff_lines(&mine_lines, &older_lines);
    let diff_older_yours = diff_lines(&older_lines, &yours_lines);
    let diff_mine_yours = diff_lines(&mine_lines, &yours_lines);
    let regions = build_conflict_regions(
        &diff_mine_older,
        &diff_older_yours,
        &diff_mine_yours,
        &mine_lines,
        &older_lines,
        &yours_lines,
    );
    let ghost rs = regions_view(regions@);
    let overlapping = has_conflict(&regions, ConflictType::OverlappingConflict);
    let easy = has_conflict(&regions, ConflictType::EasyConflict);
    let should_report_conflict = match params.format {
        Diff3Format::Ed => (params.output_mode == Diff3OutputMode::ShowOverlapEd || params.output_mode
            == Diff3OutputMode::All) && overlapping,
        Diff3Format::ShowOverlap => overlapping,
        Diff3Format::Normal => false,
        Diff3Format::Merged => if params.output_mode == Diff3OutputMode::OverlapOnly || params.output_mode
            == Diff3OutputMode::OverlapOnlyMarked {
            false
        } else {
            easy || overlapping
        },
    };
    match params.format {
        Diff3Format::Normal => {
            let tab: [u8; 1] = [9u8];
            let spaces: [u8; 2] = [32u8, 32];
            assert(tab@ =~= seq![9u8]);
            assert(spaces@ =~= seq![32u8, 32]);
            let prefix: &[u8] = if params.initial_tab { &tab } else { &spaces };
            let out = generate_normal_output(&mine_lines, &older_lines, &yours_lines, &regions, params.output_mode, prefix);
            (out, should_report_conflict)
        },
        Diff3Format::Merged => {
            let d0: [u8; 7] = [60u8, 60, 60, 60, 60, 60, 60];
            let d1: [u8; 7] = [124u8, 124, 124, 124, 124, 124, 124];
            let d2: [u8; 7] = [62u8, 62, 62, 62, 62, 62, 62];
            assert(d0@ =~= seq![60u8, 60, 60, 60, 60, 60, 60]);
            assert(d1@ =~= seq![124u8, 124, 124, 124, 124, 124, 124]);
            assert(d2@ =~= seq![62u8, 62, 62, 62, 62, 62, 62]);
            let ml = label_bytes(&params.labels[0], params.mine.as_slice(), &d0);
            let ol = label_bytes(&params.labels[1], params.older.as_slice(), &d1);
            let yl = label_bytes(&params.labels[2], params.yours.as_slice(), &d2);
            let out = generate_merged_output(
                &mine_lines,
                &older_lines,
                &yours_lines,
                &regions,
                params.format,
                params.output_mode,
                ml.as_slice(),
                ol.as_slice(),
                yl.as_slice(),
            );
            (out, should_report_conflict)
        },
        _ => {
            let d0: [u8; 4] = [109u8, 105, 110, 101];
            let d1: [u8; 5] = [111u8, 108, 100, 101, 114];
            let d2: [u8; 5] = [121u8, 111, 117, 114, 115];
            assert(d0@ =~= seq![109u8, 105, 110, 101]);
            assert(d1@ =~= seq![111u8, 108, 100, 101, 114]);
            assert(d2@ =~= seq![121u8, 111, 117, 114, 115]);
            let ml = label_bytes(&params.labels[0], params.mine.as_slice(), &d0);
            let ol = label_bytes(&params.labels[1], params.older.as_slice(), &d1);
            let yl = label_bytes(&params.labels[2], params.yours.as_slice(), &d2);
            let out = generate_ed_script(
                &mine_lines,
                &older_lines,
                &yours_lines,
                &regions,
                params.output_mode,
                ml.as_slice(),
                ol.as_slice(),
                yl.as_slice(),
                params.compat_i,
            );
            (out, should_report_conflict)
        },
    }
}

/// The comparison of three buffers, as diff3 runs it: the output and whether
/// it reports unresolved conflicts.
pub fn compute_diff3(mine: &[u8], older: &[u8], yours: &[u8], params: &Diff3Params) -> (r: Result<(Vec<u8>, bool), std::io::Error>)
    requires
        diff3_sizes_ok(diff3_lines(mine@, params.strip_trailing_cr).len(), diff3_lines(older@, params.strip_trailing_cr).len(), diff3_lines(yours@, params.strip_trailing_cr).len()),
    ensures
        r matches Ok((out, c)) && out@ == diff3_output(mine@, older@, yours@, *params).0 && c == diff3_output(
            mine@,
            older@,
            yours@,
            *params,
        ).1,
{
    Ok(compute_diff3_inner(mine, older, yours, params))
}

} // verus!
