//! Three-way comparison (diff3): the settings, the detection of binary input,
//! and the regions where two edited files and their common ancestor differ.

use vstd::prelude::*;
use crate::lines::lines_of;
use crate::script::{DiffOp, fits, left_count, right_count, lemma_fits_step, lemma_count_step,
    lemma_count_prefix, lemma_take_all};

verus! {

/// The output style of diff3.
#[derive(Clone, Copy, Debug, PartialEq, Eq, Structural)]
pub enum Diff3Format {
    Normal,
    Merged,
    Ed,
    ShowOverlap,
}

impl Default for Diff3Format {
    fn default() -> (r: Diff3Format)
        ensures
            r == Diff3Format::Normal,
    {
        Diff3Format::Normal
    }
}

/// Which regions diff3 shows, and how.
#[derive(Clone, Copy, Debug, PartialEq, Eq, Structural)]
pub enum Diff3OutputMode {
    /// All changes, with conflict markers (`-A`).
    All,
    /// An ed script (`-e`).
    EdScript,
    /// An ed script with the overlaps marked (`-E`).
    ShowOverlapEd,
    /// Only the overlapping changes (`-x`).
    OverlapOnly,
    /// Only the overlapping changes, marked (`-X`).
    OverlapOnlyMarked,
    /// Only the changes that do not overlap (`-3`).
    EasyOnly,
}

impl Default for Diff3OutputMode {
    fn default() -> (r: Diff3OutputMode)
        ensures
            r == Diff3OutputMode::All,
    {
        Diff3OutputMode::All
    }
}

/// How the changes of the two edited files relate within a region.
#[derive(Clone, Copy, Debug, PartialEq, Eq, Structural)]
pub enum ConflictType {
    /// Neither file changed the region.
    NoConflict,
    /// Both files changed the region in the same way.
    NonOverlapping,
    /// Only one of the files changed the region.
    EasyConflict,
    /// Both files changed the region, differently.
    OverlappingConflict,
}

impl Default for ConflictType {
    fn default() -> (r: ConflictType)
        ensures
            r == ConflictType::NoConflict,
    {
        ConflictType::NoConflict
    }
}

/// A region of a three-way comparison: where it starts (counting from 0) and
/// how many lines it spans in each file, and how its changes relate.
#[derive(Clone, Copy, Debug, PartialEq, Eq, Structural)]
pub struct Diff3Region {
    pub mine_start: usize,
    pub mine_count: usize,
    pub older_start: usize,
    pub older_count: usize,
    pub yours_start: usize,
    pub yours_count: usize,
    pub conflict: ConflictType,
}

/// A region with its positions as integers.
pub struct RegionV {
    pub mine_start: int,
    pub mine_count: int,
    pub older_start: int,
    pub older_count: int,
    pub yours_start: int,
    pub yours_count: int,
    pub conflict: ConflictType,
}

impl View for Diff3Region {
    type V = RegionV;

    open spec fn view(&self) -> RegionV {
        RegionV {
            mine_start: self.mine_start as int,
            mine_count: self.mine_count as int,
            older_start: self.older_start as int,
            older_count: self.older_count as int,
            yours_start: self.yours_start as int,
            yours_count: self.yours_count as int,
            conflict: self.conflict,
        }
    }
}

pub open spec fn regions_view(v: Seq<Diff3Region>) -> Seq<RegionV> {
    Seq::new(v.len(), |i: int| v[i]@)
}

/// The settings of diff3. File names are the raw bytes of the operating
/// system's names.
#[derive(Clone, Debug)]
pub struct Diff3Params {
    pub executable: Vec<u8>,
    pub mine: Vec<u8>,
    pub older: Vec<u8>,
    pub yours: Vec<u8>,
    pub format: Diff3Format,
    pub output_mode: Diff3OutputMode,
    pub text: bool,
    pub labels: [Option<String>; 3],
    pub strip_trailing_cr: bool,
    pub initial_tab: bool,
    pub compat_i: bool,
}

impl Default for Diff3Params {
    fn default() -> (p: Diff3Params)
        ensures
            p.executable@.len() == 0,
            p.mine@.len() == 0,
            p.older@.len() == 0,
            p.yours@.len() == 0,
            p.format == Diff3Format::Normal,
            p.output_mode == Diff3OutputMode::All,
            !p.text,
            p.labels@ == seq![None::<String>, None, None],
            !p.strip_trailing_cr,
            !p.initial_tab,
            !p.compat_i,
    {
        let p = Diff3Params {
            executable: Vec::new(),
            mine: Vec::new(),
            older: Vec::new(),
            yours: Vec::new(),
            format: Diff3Format::Normal,
            output_mode: Diff3OutputMode::All,
            text: false,
            labels: [None, None, None],
            strip_trailing_cr: false,
            initial_tab: false,
            compat_i: false,
        };
        assert(p.labels@ =~= seq![None::<String>, None, None]);
        p
    }
}

/// Whether two buffers hold the same bytes.
pub fn are_files_identical(file_a: &[u8], file_b: &[u8]) -> (r: bool)
    ensures
        r == (file_a@ == file_b@),
{
    if file_a.len() != file_b.len() {
        return false;
    }
    let mut i: usize = 0;
    while i < file_a.len()
        invariant
            file_a.len() == file_b.len(),
            i <= file_a.len(),
            file_a@.take(i as int) == file_b@.take(i as int),
        decreases file_a.len() - i,
    {
        if file_a[i] != file_b[i] {
            assert(file_a@[i as int] != file_b@[i as int]);
            return false;
        }
        assert(file_a@.take(i + 1) =~= file_a@.take(i as int).push(file_a@[i as int]));
        assert(file_b@.take(i + 1) =~= file_b@.take(i as int).push(file_b@[i as int]));
        i = i + 1;
    }
    assert(file_a@.take(i as int) =~= file_a@);
    assert(file_b@.take(i as int) =~= file_b@);
    true
}

/// A control byte that text does not hold: 0 to 8, 14 to 31, and 127.
pub open spec fn is_non_text(b: u8) -> bool {
    b <= 8 || (14 <= b && b <= 31) || b == 127
}

/// The number of non-text bytes in `s`.
pub open spec fn count_non_text(s: Seq<u8>) -> nat
    decreases s.len(),
{
    if s.len() == 0 {
        0
    } else {
        count_non_text(s.drop_last()) + if is_non_text(s.last()) { 1nat } else { 0nat }
    }
}

/// A buffer is binary when it is not empty and either its first 8192 bytes hold
/// a zero byte, or more than 30% (in whole percents) of its first 512 bytes are
/// non-text bytes.
pub open spec fn is_binary(c: Seq<u8>) -> bool {
    let window: int = if c.len() < 8192 { c.len() as int } else { 8192 };
    let sample: int = if c.len() < 512 { c.len() as int } else { 512 };
    &&& c.len() > 0
    &&& ((exists|i: int| 0 <= i < window && c[i] == 0) || (count_non_text(c.take(sample)) * 100) as int / sample > 30)
}

proof fn lemma_count_non_text_le(s: Seq<u8>)
    ensures
        count_non_text(s) <= s.len(),
    decreases s.len(),
{
    if s.len() > 0 {
        lemma_count_non_text_le(s.drop_last());
    }
}

/// Detects binary content by its zero bytes and its share of control bytes.
pub fn is_binary_content(content: &[u8]) -> (r: bool)
    ensures
        r == is_binary(content@),
{
    if content.len() == 0 {
        return false;
    }
    let check_limit: usize = if content.len() < 8192 { content.len() } else { 8192 };
    let mut i: usize = 0;
    while i < check_limit
        invariant
            check_limit <= content.len(),
            check_limit == (if content@.len() < 8192 { content@.len() as int } else { 8192 }),
            i <= check_limit,
            forall|j: int| 0 <= j < i ==> content@[j] != 0,
        decreases check_limit - i,
    {
        if content[i] == 0 {
            return true;
        }
        i = i + 1;
    }
    let mut non_text_count: usize = 0;
    let sample_size: usize = if content.len() < 512 { content.len() } else { 512 };
    let mut k: usize = 0;
    while k < sample_size
        invariant
            sample_size <= content.len(),
            sample_size <= 512,
            k <= sample_size,
            non_text_count == count_non_text(content@.take(k as int)),
            non_text_count <= k,
        decreases sample_size - k,
    {
        let byte = content[k];
        assert(content@.take(k + 1).drop_last() =~= content@.take(k as int));
        if byte <= 8 || (14 <= byte && byte <= 31) || byte == 127 {
            non_text_count = non_text_count + 1;
        }
        k = k + 1;
    }
    if sample_size > 0 && (non_text_count * 100) / sample_size > 30 {
        return true;
    }
    false
}

/// `line` without its last byte when that byte is a carriage return.
pub open spec fn strip_cr(line: Seq<u8>) -> Seq<u8> {
    if line.len() > 0 && line.last() == 13u8 {
        line.drop_last()
    } else {
        line
    }
}

/// Strips a trailing carriage return from a line.
pub fn strip_trailing_cr(line: &[u8]) -> (r: &[u8])
    ensures
        r@ == strip_cr(line@),
{
    if line.len() > 0 && line[line.len() - 1] == 13u8 {
        let r = &line[0..line.len() - 1];
        assert(r@ =~= line@.drop_last());
        r
    } else {
        line
    }
}

/// Whether a region is shown in the given output mode.
pub open spec fn include_region(r: RegionV, mode: Diff3OutputMode) -> bool {
    match mode {
        Diff3OutputMode::All | Diff3OutputMode::EdScript | Diff3OutputMode::ShowOverlapEd => true,
        Diff3OutputMode::OverlapOnly | Diff3OutputMode::OverlapOnlyMarked => r.conflict
            == ConflictType::OverlappingConflict,
        Diff3OutputMode::EasyOnly => r.conflict == ConflictType::EasyConflict || r.conflict
            == ConflictType::NonOverlapping,
    }
}

/// Determines whether a region is shown in the given output mode.
pub fn should_include_region(region: &Diff3Region, output_mode: Diff3OutputMode) -> (r: bool)
    ensures
        r == include_region(region@, output_mode),
{
    match output_mode {
        Diff3OutputMode::All | Diff3OutputMode::EdScript | Diff3OutputMode::ShowOverlapEd => true,
        Diff3OutputMode::OverlapOnly | Diff3OutputMode::OverlapOnlyMarked => region.conflict
            == ConflictType::OverlappingConflict,
        Diff3OutputMode::EasyOnly => region.conflict == ConflictType::EasyConflict
            || region.conflict == ConflictType::NonOverlapping,
    }
}

/// The number of regions of `rs` whose changes relate as `c`.
pub open spec fn count_conflict(rs: Seq<RegionV>, c: ConflictType) -> nat
    decreases rs.len(),
{
    if rs.len() == 0 {
        0
    } else {
        count_conflict(rs.drop_last(), c) + if rs.last().conflict == c { 1nat } else { 0nat }
    }
}

proof fn lemma_count_conflict_le(rs: Seq<RegionV>, c: ConflictType)
    ensures
        count_conflict(rs, c) <= rs.len(),
    decreases rs.len(),
{
    if rs.len() > 0 {
        lemma_count_conflict_le(rs.drop_last(), c);
    }
}

/// The numbers of easy conflicts, overlapping conflicts and identical changes
/// among the regions.
pub fn analyze_overlap(regions: &[Diff3Region]) -> (r: (usize, usize, usize))
    ensures
        r.0 == count_conflict(regions_view(regions@), ConflictType::EasyConflict),
        r.1 == count_conflict(regions_view(regions@), ConflictType::OverlappingConflict),
        r.2 == count_conflict(regions_view(regions@), ConflictType::NonOverlapping),
{
    let ghost rv = regions_view(regions@);
    let mut easy_conflicts: usize = 0;
    let mut overlapping_conflicts: usize = 0;
    let mut non_overlapping: usize = 0;
    let mut i: usize = 0;
    while i < regions.len()
        invariant
            rv == regions_view(regions@),
            i <= regions.len(),
            easy_conflicts == count_conflict(rv.take(i as int), ConflictType::EasyConflict),
            overlapping_conflicts == count_conflict(rv.take(i as int), ConflictType::OverlappingConflict),
            non_overlapping == count_conflict(rv.take(i as int), ConflictType::NonOverlapping),
        decreases regions.len() - i,
    {
        proof {
            assert(rv.take(i + 1).drop_last() =~= rv.take(i as int));
            lemma_count_conflict_le(rv.take(i as int), ConflictType::EasyConflict);
            lemma_count_conflict_le(rv.take(i as int), ConflictType::OverlappingConflict);
            lemma_count_conflict_le(rv.take(i as int), ConflictType::NonOverlapping);
        }
        match regions[i].conflict {
            ConflictType::EasyConflict => easy_conflicts = easy_conflicts + 1,
            ConflictType::OverlappingConflict => overlapping_conflicts = overlapping_conflicts + 1,
            ConflictType::NonOverlapping => non_overlapping = non_overlapping + 1,
            ConflictType::NoConflict => {},
        }
        i = i + 1;
    }
    assert(rv.take(i as int) =~= rv);
    (easy_conflicts, overlapping_conflicts, non_overlapping)
}

/// Whether every region is free of conflict or an easy conflict.
pub fn has_only_easy_conflicts(regions: &[Diff3Region]) -> (r: bool)
    ensures
        r == (forall|i: int|
            0 <= i < regions@.len() ==> (#[trigger] regions@[i]).conflict == ConflictType::NoConflict
                || regions@[i].conflict == ConflictType::EasyConflict),
{
    let mut i: usize = 0;
    while i < regions.len()
        invariant
            i <= regions.len(),
            forall|j: int|
                0 <= j < i ==> (#[trigger] regions@[j]).conflict == ConflictType::NoConflict
                    || regions@[j].conflict == ConflictType::EasyConflict,
        decreases regions.len() - i,
    {
        if !(regions[i].conflict == ConflictType::NoConflict || regions[i].conflict == ConflictType::EasyConflict) {
            return false;
        }
        i = i + 1;
    }
    true
}

/// Whether some region is an overlapping conflict.
pub fn has_overlapping_conflicts(regions: &[Diff3Region]) -> (r: bool)
    ensures
        r == (exists|i: int|
            0 <= i < regions@.len() && (#[trigger] regions@[i]).conflict == ConflictType::OverlappingConflict),
{
    let mut i: usize = 0;
    while i < regions.len()
        invariant
            i <= regions.len(),
            forall|j: int| 0 <= j < i ==> (#[trigger] regions@[j]).conflict != ConflictType::OverlappingConflict,
        decreases regions.len() - i,
    {
        if regions[i].conflict == ConflictType::OverlappingConflict {
            return true;
        }
        i = i + 1;
    }
    false
}

} // verus!
