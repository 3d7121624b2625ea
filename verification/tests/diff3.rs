use diffutils::diff3::{
    analyze_overlap, has_only_easy_conflicts, has_overlapping_conflicts, is_binary_content,
    strip_trailing_cr, ConflictType, Diff3Format, Diff3OutputMode, Diff3Params, Diff3Region,
};
use diffutils::diff3_compute::compute_diff3;
use diffutils::diff3_regions::detect_conflicts;

fn params(format: Diff3Format, output_mode: Diff3OutputMode) -> Diff3Params {
    Diff3Params {
        executable: b"diff3".to_vec(),
        mine: b"file1".to_vec(),
        older: b"file2".to_vec(),
        yours: b"file3".to_vec(),
        format,
        output_mode,
        text: false,
        labels: [None, None, None],
        strip_trailing_cr: false,
        initial_tab: false,
        compat_i: false,
    }
}

fn region(start: usize, count: usize, conflict: ConflictType) -> Diff3Region {
    Diff3Region {
        mine_start: start,
        mine_count: count,
        older_start: start,
        older_count: count,
        yours_start: start,
        yours_count: count,
        conflict,
    }
}

#[test]
fn test_detect_conflicts() {
    let result = detect_conflicts(
        &vec![],
        &vec![],
        &vec![],
        &vec![b"line1".to_vec()],
        &vec![b"line1".to_vec()],
        &vec![b"line1".to_vec()],
    );
    assert!(!result);
}

#[test]
fn test_conflict_type_no_conflict() {
    assert_eq!(ConflictType::NoConflict, ConflictType::NoConflict);
}

#[test]
fn test_conflict_type_easy_conflict() {
    assert_eq!(ConflictType::EasyConflict, ConflictType::EasyConflict);
}

#[test]
fn test_conflict_type_overlapping_conflict() {
    assert_eq!(
        ConflictType::OverlappingConflict,
        ConflictType::OverlappingConflict
    );
}

#[test]
fn test_conflict_type_non_overlapping() {
    assert_eq!(ConflictType::NonOverlapping, ConflictType::NonOverlapping);
}

#[test]
fn test_conflict_type_inequality() {
    assert_ne!(ConflictType::NoConflict, ConflictType::EasyConflict);
    assert_ne!(
        ConflictType::EasyConflict,
        ConflictType::OverlappingConflict
    );
    assert_ne!(ConflictType::NonOverlapping, ConflictType::NoConflict);
}

#[test]
fn test_analyze_overlap_empty_regions() {
    let regions = vec![];
    let (easy, overlapping, non_overlapping) = analyze_overlap(&regions);
    assert_eq!(easy, 0);
    assert_eq!(overlapping, 0);
    assert_eq!(non_overlapping, 0);
}

#[test]
fn test_analyze_overlap_all_easy_conflicts() {
    let regions = vec![
        region(0, 1, ConflictType::EasyConflict),
        region(1, 1, ConflictType::EasyConflict),
    ];
    let (easy, overlapping, non_overlapping) = analyze_overlap(&regions);
    assert_eq!(easy, 2);
    assert_eq!(overlapping, 0);
    assert_eq!(non_overlapping, 0);
}

#[test]
fn test_analyze_overlap_all_overlapping() {
    let regions = vec![Diff3Region {
        mine_start: 0,
        mine_count: 2,
        older_start: 0,
        older_count: 1,
        yours_start: 0,
        yours_count: 3,
        conflict: ConflictType::OverlappingConflict,
    }];
    let (easy, overlapping, non_overlapping) = analyze_overlap(&regions);
    assert_eq!(easy, 0);
    assert_eq!(overlapping, 1);
    assert_eq!(non_overlapping, 0);
}

#[test]
fn test_analyze_overlap_mixed_conflicts() {
    let regions = vec![
        region(0, 1, ConflictType::EasyConflict),
        region(1, 1, ConflictType::OverlappingConflict),
        region(2, 1, ConflictType::NonOverlapping),
        region(3, 1, ConflictType::NoConflict),
    ];
    let (easy, overlapping, non_overlapping) = analyze_overlap(&regions);
    assert_eq!(easy, 1);
    assert_eq!(overlapping, 1);
    assert_eq!(non_overlapping, 1);
}

#[test]
fn test_has_only_easy_conflicts_true() {
    let regions = vec![
        region(0, 1, ConflictType::EasyConflict),
        region(1, 1, ConflictType::NoConflict),
    ];
    assert!(has_only_easy_conflicts(&regions));
}

#[test]
fn test_has_only_easy_conflicts_false() {
    let regions = vec![
        region(0, 1, ConflictType::EasyConflict),
        Diff3Region {
            mine_start: 1,
            mine_count: 2,
            older_start: 1,
            older_count: 1,
            yours_start: 1,
            yours_count: 3,
            conflict: ConflictType::OverlappingConflict,
        },
    ];
    assert!(!has_only_easy_conflicts(&regions));
}

#[test]
fn test_has_only_easy_conflicts_empty() {
    let regions = vec![];
    assert!(has_only_easy_conflicts(&regions));
}

#[test]
fn test_has_overlapping_conflicts_true() {
    let regions = vec![
        region(0, 1, ConflictType::EasyConflict),
        Diff3Region {
            mine_start: 1,
            mine_count: 2,
            older_start: 1,
            older_count: 1,
            yours_start: 1,
            yours_count: 3,
            conflict: ConflictType::OverlappingConflict,
        },
    ];
    assert!(has_overlapping_conflicts(&regions));
}

#[test]
fn test_has_overlapping_conflicts_false() {
    let regions = vec![
        region(0, 1, ConflictType::EasyConflict),
        region(1, 1, ConflictType::NoConflict),
    ];
    assert!(!has_overlapping_conflicts(&regions));
}

#[test]
fn test_has_overlapping_conflicts_empty() {
    let regions = vec![];
    assert!(!has_overlapping_conflicts(&regions));
}

#[test]
fn test_diff3_region_construction() {
    let region = Diff3Region {
        mine_start: 10,
        mine_count: 5,
        older_start: 12,
        older_count: 3,
        yours_start: 15,
        yours_count: 7,
        conflict: ConflictType::OverlappingConflict,
    };

    assert_eq!(region.mine_start, 10);
    assert_eq!(region.mine_count, 5);
    assert_eq!(region.older_start, 12);
    assert_eq!(region.older_count, 3);
    assert_eq!(region.yours_start, 15);
    assert_eq!(region.yours_count, 7);
    assert_eq!(region.conflict, ConflictType::OverlappingConflict);
}

#[test]
fn test_diff3_region_cloning() {
    let region1 = region(0, 1, ConflictType::NoConflict);
    let region2 = region1.clone();

    assert_eq!(region1.mine_start, region2.mine_start);
    assert_eq!(region1.conflict, region2.conflict);
}

#[test]
fn test_is_binary_content_with_null_bytes() {
    let binary = b"GIF89a\x00\x00\x00\x00";
    assert!(is_binary_content(binary), "Should detect null bytes as binary");
}

#[test]
fn test_is_binary_content_text_only() {
    let text = b"This is plain text\nwith multiple lines\n";
    assert!(!is_binary_content(text), "Should not detect plain text as binary");
}

#[test]
fn test_is_binary_content_with_control_chars() {
    let binary = vec![0x01, 0x02, 0x03, 0x04, 0x05, 0x06, 0x07, 0xFF, 0xFE];
    assert!(
        is_binary_content(&binary),
        "Should detect control-heavy content as binary"
    );
}

#[test]
fn test_is_binary_content_empty() {
    let empty: &[u8] = b"";
    assert!(!is_binary_content(empty), "Empty content should not be binary");
}

#[test]
fn test_compute_diff3_identical_files() {
    let p = params(Diff3Format::Normal, Diff3OutputMode::All);
    let content = b"line1\nline2\nline3\n";
    let (output, has_conflicts) =
        compute_diff3(content, content, content, &p).expect("compute_diff3 failed");
    assert!(output.is_empty());
    assert!(!has_conflicts);
}

#[test]
fn test_compute_diff3_with_changes() {
    let p = params(Diff3Format::Normal, Diff3OutputMode::All);
    let mine = b"line1\nmodified\nline3\n";
    let older = b"line1\nline2\nline3\n";
    let yours = b"line1\nline2\nline3\n";
    let (output, has_conflicts) = compute_diff3(mine, older, yours, &p).expect("compute_diff3 failed");
    assert!(!output.is_empty());
    assert_eq!(
        String::from_utf8(output).unwrap(),
        "====1\n1:2c\n  modified\n2:2c\n3:2c\n  line2\n"
    );
    assert!(!has_conflicts);
}

#[test]
fn test_compute_diff3_merged_format() {
    let mut p = params(Diff3Format::Merged, Diff3OutputMode::All);
    p.labels = [Some("mine".to_string()), None, Some("yours".to_string())];
    let mine = b"line1\nmine_version\nline3\n";
    let older = b"line1\noriginal\nline3\n";
    let yours = b"line1\nyours_version\nline3\n";
    let (output, has_conflicts) = compute_diff3(mine, older, yours, &p).expect("compute_diff3 failed");
    let output_str = String::from_utf8_lossy(&output);
    assert!(output_str.contains("<<<<<<<") || !output.is_empty());
    assert_eq!(
        output_str,
        "line1\n<<<<<<< mine\nmine_version\n||||||| file2\noriginal\n=======\nyours_version\n>>>>>>> yours\nline3\n"
    );
    assert!(has_conflicts);
}

#[test]
fn test_compute_diff3_identical_lines() {
    let p = params(Diff3Format::Merged, Diff3OutputMode::All);
    let content = b"line1\nline2\nline3\n";
    let (output, _has_conflicts) =
        compute_diff3(content, b"different\n", content, &p).expect("compute_diff3 failed");
    let output_str = String::from_utf8_lossy(&output);
    assert!(output_str.contains("line1"));
    assert!(output_str.contains("line2"));
    assert!(output_str.contains("line3"));
}

#[test]
fn test_compute_diff3_empty_files() {
    let p = params(Diff3Format::Normal, Diff3OutputMode::All);
    let (output, has_conflicts) = compute_diff3(b"", b"", b"", &p).expect("compute_diff3 failed");
    assert!(output.is_empty());
    assert!(!has_conflicts);
}

#[test]
fn test_compute_diff3_single_line_files() {
    let p = params(Diff3Format::Normal, Diff3OutputMode::All);
    let (output, _has_conflicts) =
        compute_diff3(b"line1\n", b"line1\n", b"different\n", &p).expect("compute_diff3 failed");
    assert!(!output.is_empty());
    assert_eq!(
        String::from_utf8(output).unwrap(),
        "====3\n1:1c\n  line1\n2:1c\n3:1c\n  different\n"
    );
}

#[test]
fn test_compute_diff3_ed_with_compat_i() {
    let mut p = params(Diff3Format::Ed, Diff3OutputMode::EdScript);
    p.compat_i = true;
    let mine = b"line1\noriginal\nline3\n";
    let older = b"line1\noriginal\nline3\n";
    let yours = b"line1\nmodified\nline3\n";
    let (output, has_conflicts) = compute_diff3(mine, older, yours, &p).expect("compute_diff3 failed");
    let output_str = String::from_utf8_lossy(&output);
    assert!(output_str.contains("w\n") || output_str.contains("w"));
    assert!(output_str.contains("q\n") || output_str.contains("q"));
    assert_eq!(output_str, "2c\nmodified\n.\nw\nq\n");
    assert!(!has_conflicts);
}

#[test]
fn test_compute_diff3_ed_without_compat_i() {
    let p = params(Diff3Format::Ed, Diff3OutputMode::EdScript);
    let mine = b"line1\noriginal\nline3\n";
    let older = b"line1\noriginal\nline3\n";
    let yours = b"line1\nmodified\nline3\n";
    let (output, _has_conflicts) = compute_diff3(mine, older, yours, &p).expect("compute_diff3 failed");
    let output_str = String::from_utf8_lossy(&output);
    let lines: Vec<&str> = output_str.lines().collect();
    if !lines.is_empty() {
        let last_line = lines[lines.len() - 1];
        assert_ne!(last_line, "q", "Last line should not be 'q' without -i flag");
    }
    assert_eq!(output_str, "2c\nmodified\n.\n");
}

#[test]
fn test_compute_diff3_with_binary_files() {
    let mut p = params(Diff3Format::Normal, Diff3OutputMode::All);
    p.mine = b"mine.bin".to_vec();
    p.older = b"older.bin".to_vec();
    p.yours = b"yours.bin".to_vec();
    let mine = b"GIF89a\x00\x10\x00\x10";
    let older = b"GIF89a\x00\x10\x00\x10";
    let yours = b"PNG\x89\x50\x4E\x47\x0D";
    let (output, has_conflicts) = compute_diff3(mine, older, yours, &p).expect("compute_diff3 failed");
    let output_str = String::from_utf8_lossy(&output);
    assert!(output_str.contains("Binary files") || output_str.is_empty());
    assert!(has_conflicts);
}

#[test]
fn test_compute_diff3_binary_identical() {
    let p = params(Diff3Format::Normal, Diff3OutputMode::All);
    let content = b"GIF89a\x00\x10\x00\x10\xFF\xFF\xFF";
    let (output, has_conflicts) =
        compute_diff3(content, content, content, &p).expect("compute_diff3 failed");
    assert!(output.is_empty());
    assert!(!has_conflicts);
}

#[test]
fn test_text_flag_forces_text_mode() {
    let mut p = params(Diff3Format::Normal, Diff3OutputMode::All);
    p.text = true;
    let mine = b"line1\x00\nline2\n";
    let older = b"line1\x00\nline2\n";
    let yours = b"line1\x00\nline3\n";
    let (output, _has_conflicts) = compute_diff3(mine, older, yours, &p).expect("compute_diff3 failed");
    let output_str = String::from_utf8_lossy(&output);
    if !output.is_empty() {
        assert!(!output_str.contains("Binary files differ"));
    }
    assert_eq!(output_str, "====3\n1:2c\n  line2\n2:2c\n3:2c\n  line3\n");
}

#[test]
fn test_strip_trailing_cr() {
    let mut p = params(Diff3Format::Normal, Diff3OutputMode::All);
    p.strip_trailing_cr = true;
    let content = b"line1\r\nline2\r\nline3\r\n";
    let (output, has_conflicts) =
        compute_diff3(content, content, content, &p).expect("compute_diff3 failed");
    assert!(!has_conflicts);
    assert!(output.is_empty());
}

#[test]
fn test_strip_trailing_cr_with_differences() {
    let mut p = params(Diff3Format::Normal, Diff3OutputMode::All);
    p.strip_trailing_cr = true;
    let mine = b"line1\r\nmodified_mine\r\nline3\r\n";
    let older = b"line1\r\nline2\r\nline3\r\n";
    let yours = b"line1\r\nmodified_yours\r\nline3\r\n";
    let (output, has_conflicts) = compute_diff3(mine, older, yours, &p).expect("compute_diff3 failed");
    assert!(!has_conflicts);
    assert!(!output.is_empty());
    assert_eq!(
        String::from_utf8(output).unwrap(),
        "====\n1:2c\n  modified_mine\n2:2c\n  line2\n3:2c\n  modified_yours\n"
    );
}

#[test]
fn test_strip_trailing_cr_mixed_line_endings() {
    let mut p = params(Diff3Format::Normal, Diff3OutputMode::All);
    p.strip_trailing_cr = true;
    let mine = b"line1\r\nline2\r\nline3\r\n";
    let older = b"line1\nline2\nline3\n";
    let yours = b"line1\nline2\nline3\n";
    let (output, has_conflicts) = compute_diff3(mine, older, yours, &p).expect("compute_diff3 failed");
    assert!(!has_conflicts);
    assert!(output.is_empty());
}

#[test]
fn test_initial_tab_flag() {
    let mut p = params(Diff3Format::Normal, Diff3OutputMode::All);
    p.initial_tab = true;
    let mine = b"line1\nchanged_mine\nline3\n";
    let older = b"line1\nline2\nline3\n";
    let yours = b"line1\nline2\nline3\n";
    let (output, _has_conflicts) = compute_diff3(mine, older, yours, &p).expect("compute_diff3 failed");
    let output_str = String::from_utf8_lossy(&output);
    assert!(output_str.contains("\t"));
    assert_eq!(output_str, "====1\n1:2c\n\tchanged_mine\n2:2c\n3:2c\n\tline2\n");
}

#[test]
fn test_without_initial_tab_flag() {
    let p = params(Diff3Format::Normal, Diff3OutputMode::All);
    let mine = b"line1\nchanged_mine\nline3\n";
    let older = b"line1\nline2\nline3\n";
    let yours = b"line1\nline2\nline3\n";
    let (output, _has_conflicts) = compute_diff3(mine, older, yours, &p).expect("compute_diff3 failed");
    let output_str = String::from_utf8_lossy(&output);
    assert!(output_str.contains("  changed_mine"));
    assert!(!output_str.contains("\t  "));
}

#[test]
fn diff3_binary_report_names_each_differing_pair() {
    let mut p = params(Diff3Format::Normal, Diff3OutputMode::All);
    p.mine = b"mine.bin".to_vec();
    p.older = b"older.bin".to_vec();
    p.yours = b"yours.bin".to_vec();
    let (output, has_conflicts) =
        compute_diff3(b"\x00a", b"\x00b", b"\x00b", &p).expect("compute_diff3 failed");
    assert_eq!(
        String::from_utf8(output).unwrap(),
        "Binary files mine.bin and older.bin differ\nBinary files mine.bin and yours.bin differ\n"
    );
    assert!(has_conflicts);
}

#[test]
fn diff3_ed_script_marks_overlaps() {
    let mut p = params(Diff3Format::Ed, Diff3OutputMode::All);
    p.labels = [Some("M".to_string()), Some("O".to_string()), Some("Y".to_string())];
    let (output, has_conflicts) = compute_diff3(
        b"line1\nmine_version\nline3\n",
        b"line1\noriginal\nline3\n",
        b"line1\nyours_version\nline3\n",
        &p,
    )
    .expect("compute_diff3 failed");
    assert_eq!(
        String::from_utf8(output).unwrap(),
        "2a\n||||||| O\noriginal\n=======\nyours_version\n>>>>>>> Y\n.\n1a\n<<<<<<< M\n.\n"
    );
    assert!(has_conflicts);
}

#[test]
fn diff3_yours_change_lands_on_mine_lines() {
    // Mine dropped two lines before the line that yours changed: the region
    // names that line by its place in mine (line 2), not in the ancestor.
    let p = params(Diff3Format::Normal, Diff3OutputMode::All);
    let (out, _) = compute_diff3(b"c\nd\n", b"a\nb\nc\nd\n", b"a\nb\nc\nD\n", &p).expect("diff3 runs");
    let text = String::from_utf8(out).unwrap();
    assert!(text.contains("1:2c"), "{text}");
    assert!(text.contains("3:4c"), "{text}");
    let e = params(Diff3Format::Ed, Diff3OutputMode::EdScript);
    assert!(compute_diff3(b"c\nd\n", b"a\nb\nc\nd\n", b"a\nb\nc\nD\n", &e).is_ok());
}

#[test]
fn diff3_strip_trailing_cr_of_a_line() {
    assert_eq!(strip_trailing_cr(b"abc\r"), b"abc");
    assert_eq!(strip_trailing_cr(b"abc"), b"abc");
    assert_eq!(strip_trailing_cr(b"\r"), b"");
    assert_eq!(strip_trailing_cr(b""), b"");
}

#[test]
fn merged_applies_changes_on_both_sides() {
    // mine drops the first two lines, yours changes the last one: both apply.
    let p = params(Diff3Format::Merged, Diff3OutputMode::All);
    let r = compute_diff3(b"c\nd\n", b"a\nb\nc\nd\n", b"a\nb\nc\nX\n", &p);
    let (output, has_conflicts) = r.expect("diff3 runs");
    assert_eq!(output, b"c\nX\n".to_vec());
    let _ = has_conflicts;
    let n = params(Diff3Format::Normal, Diff3OutputMode::All);
    assert!(compute_diff3(b"c\nd\n", b"a\nb\nc\nd\n", b"a\nb\nc\nX\n", &n).is_ok());
}

#[test]
fn diff3_mine_change_lands_on_yours_lines() {
    // Yours added a line before the line that mine changed: the region names
    // that line by its place in yours (line 3), not in the ancestor.
    let p = params(Diff3Format::Normal, Diff3OutputMode::All);
    let (out, _) = compute_diff3(b"a\nB\nc\n", b"a\nb\nc\n", b"x\na\nb\nc\n", &p).expect("diff3 runs");
    let text = String::from_utf8(out).unwrap();
    assert!(text.contains("====1\n1:2c\n  B\n2:2c\n3:3c\n  b\n"), "{text}");
}

#[test]
fn diff3_one_change_of_yours_over_two_of_mine() {
    // Yours drops lines 2 to 8; mine changes lines 3 and 5 within them.
    let older = b"1\n2\n3\n4\n5\n6\n7\n8\n9\n";
    let mine = b"1\n2\nA\n4\nB\n6\n7\n8\n9\n";
    let yours = b"1\n9\n";
    for format in [Diff3Format::Normal, Diff3Format::Merged, Diff3Format::Ed] {
        let p = params(format, Diff3OutputMode::All);
        assert!(compute_diff3(mine, older, yours, &p).is_ok());
    }
}
