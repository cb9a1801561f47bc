use bn6f_harness::compare::{compare_hash_texts, compare_records, parse_hash_records, CompareError, CompareSummary};
use bn6f_harness::frames::{
    decode_input_file, decode_mask_file, frames_to_run, hash_frame, hash_line, strip_bk2_state_prefix,
    visible_frame_bytes, FB_STRIDE_PX, GBA_H, GBA_W,
};
use bn6f_harness::orchestrate::{
    canonical_patches, compare_jobs, global_index, hash_jobs, pair_file_name, patch_manifest, patch_rom_file, patch_stem, rom_stem,
    select_patches, IfndefRe, SelectError,
};
use bn6f_harness::num::{signed_decimal, IntErrorKind};
use bn6f_harness::summary::{csv_header, csv_line, summarize, table_order, ResultRow};
use bn6f_harness::verdict::{compare_verdict, Verdict};
use sha2::Digest;

fn s(x: &str) -> String {
    x.to_string()
}

fn strs(xs: &[&str]) -> Vec<String> {
    xs.iter().map(|x| x.to_string()).collect()
}

#[test]
fn hash_records_skip_comments_blank_and_bad_lines() {
    let text = "# header\n0 aa\n\n1 bb extra\nx cc\n2\n3 dd";
    let r = parse_hash_records(text);
    assert_eq!(r, vec![(0, s("aa")), (1, s("bb")), (3, s("dd"))]);
}

#[test]
fn compare_identical_streams_pass() {
    let a = "# c\n0 aa\n1 bb\n";
    let r = compare_hash_texts(a, a).unwrap();
    assert_eq!(r, CompareSummary { frames: 2, first_diff: None, diff_count: 0 });
    assert!(r.passed());
    assert_eq!(r.result_line(), "RESULT: pass frames=2");
}

#[test]
fn compare_counts_differences_and_first() {
    let a = "0 aa\n1 bb\n2 cc\n3 dd\n";
    let b = "0 aa\n1 xx\n2 cc\n3 yy\n";
    let r = compare_hash_texts(a, b).unwrap();
    assert_eq!(r, CompareSummary { frames: 4, first_diff: Some(1), diff_count: 2 });
    assert!(!r.passed());
    assert_eq!(r.result_line(), "RESULT: fail frames=4 first_diff=1 diff_count=2");
}

#[test]
fn compare_index_mismatch_is_error() {
    let r = compare_hash_texts("0 aa\n1 bb\n", "0 aa\n2 bb\n");
    assert_eq!(r, Err(CompareError::IndexMismatch { row: 2, orig: 1, patched: 2 }));
}

#[test]
fn compare_length_mismatch_is_error() {
    assert_eq!(compare_hash_texts("0 aa\n1 bb\n", "0 aa\n"), Err(CompareError::OrigLonger { at: 1 }));
    assert_eq!(compare_hash_texts("0 aa\n", "0 aa\n1 bb\n"), Err(CompareError::PatchedLonger { at: 1 }));
}

#[test]
fn compare_records_empty_passes() {
    let r = compare_records(&Vec::new(), &Vec::new()).unwrap();
    assert_eq!(r.result_line(), "RESULT: pass frames=0");
}

#[test]
fn verdict_words() {
    assert_eq!(Verdict::Pass.as_str(), "PASS");
    assert_eq!(Verdict::Fail.as_str(), "FAIL");
    assert_eq!(Verdict::Missing.as_str(), "MISSING");
    assert_eq!(Verdict::Error.as_str(), "ERROR");
}

#[test]
fn verdict_read_back_from_lines() {
    assert_eq!(compare_verdict("RESULT: pass frames=3\n"), (Verdict::Pass, -1));
    assert_eq!(compare_verdict("RESULT: fail frames=9 first_diff=5 diff_count=2\n"), (Verdict::Fail, 5));
    assert_eq!(compare_verdict(""), (Verdict::Fail, -1));
    assert_eq!(compare_verdict("first_diff=x"), (Verdict::Fail, -1));
    assert_eq!(compare_verdict("  first_diff=-7  "), (Verdict::Fail, -7));
}

#[test]
fn verdict_roundtrip_of_result_lines() {
    let pass = CompareSummary { frames: 12, first_diff: None, diff_count: 0 };
    assert_eq!(compare_verdict(&pass.result_line()), (Verdict::Pass, -1));
    let fail = CompareSummary { frames: 12, first_diff: Some(7), diff_count: 3 };
    assert_eq!(compare_verdict(&fail.result_line()), (Verdict::Fail, 7));
}

#[test]
fn strip_prefix_only_when_inner_magic() {
    let wrapped = vec![0xAA, 0xBB, 0xCC, 0xDD, 0x07, 0, 0, 1, 9];
    assert_eq!(strip_bk2_state_prefix(wrapped), vec![0x07, 0, 0, 1, 9]);
    let bare = vec![0x07, 0, 0, 1, 5, 0, 0, 1];
    assert_eq!(strip_bk2_state_prefix(bare.clone()), bare);
    let neither = vec![1, 2, 3, 4, 5, 6, 7, 8];
    assert_eq!(strip_bk2_state_prefix(neither.clone()), neither);
    let short = vec![1, 2, 3, 4];
    assert_eq!(strip_bk2_state_prefix(short.clone()), short);
    assert_eq!(strip_bk2_state_prefix(vec![1, 2, 3]), vec![1, 2, 3]);
    assert_eq!(strip_bk2_state_prefix(vec![]), Vec::<u8>::new());
}

#[test]
fn input_files_decode_little_endian_masks() {
    assert_eq!(decode_input_file(&[1, 2, 0, 0, 3, 4, 9, 9, 5]), vec![0x0201, 0x0403]);
    assert_eq!(decode_input_file(&[]), Vec::<u16>::new());
    assert_eq!(decode_mask_file(&[1, 2, 3, 4]), Ok(vec![0x0201, 0x0403]));
    assert_eq!(decode_mask_file(&[1, 2, 3]), Err(3));
}

#[test]
fn frames_capped_by_input() {
    assert_eq!(frames_to_run(Some(5), 10), 5);
    assert_eq!(frames_to_run(Some(50), 10), 10);
    assert_eq!(frames_to_run(None, 10), 10);
}

fn test_frame() -> Vec<u32> {
    (0..(FB_STRIDE_PX * GBA_H) as u32).map(|i| i.wrapping_mul(0x0101_0101) ^ 0x00FF_00FF).collect()
}

#[test]
fn visible_bytes_skip_the_row_padding() {
    let fb = test_frame();
    let v = visible_frame_bytes(&fb);
    assert_eq!(v.len(), GBA_W * GBA_H * 4);
    assert_eq!(&v[0..4], &fb[0].to_le_bytes());
    assert_eq!(&v[4 * 239..4 * 240], &fb[239].to_le_bytes());
    assert_eq!(&v[4 * 240..4 * 241], &fb[256].to_le_bytes());
    let mut expect = Vec::new();
    for y in 0..GBA_H {
        for x in 0..GBA_W {
            expect.extend_from_slice(&fb[y * FB_STRIDE_PX + x].to_le_bytes());
        }
    }
    assert_eq!(v, expect);
}

#[test]
fn frame_hash_is_sha256_of_visible_bytes() {
    let fb = test_frame();
    let h = hash_frame(&fb);
    let d = sha2::Sha256::digest(visible_frame_bytes(&fb));
    assert_eq!(&h[..], &d[..]);
    let mut other = fb.clone();
    other[250] ^= 1; // padding pixel: not visible
    assert_eq!(hash_frame(&other), h);
    other[3] ^= 1;
    assert_ne!(hash_frame(&other), h);
}

#[test]
fn hash_line_format() {
    let mut h = [0u8; 32];
    h[0] = 0xab;
    h[31] = 0x01;
    let line = hash_line(42, &h);
    let mut expect = s("42 ab");
    expect.push_str(&"00".repeat(30));
    expect.push_str("01");
    assert_eq!(line, expect);
}

#[test]
fn ifndef_guard_lines() {
    let re = IfndefRe::new();
    assert_eq!(re.match_line("  .ifndef DECOMP_foo_bar"), Some(s("foo_bar")));
    assert_eq!(re.match_line(".ifndef\tDECOMP_x  @ note"), Some(s("x")));
    assert_eq!(re.match_line(".ifndefDECOMP_y"), Some(s("y")));
    assert_eq!(re.match_line(".ifndef DECOMP_"), Some(s("")));
    assert_eq!(re.match_line(".ifdef DECOMP_x"), None);
    assert_eq!(re.match_line(".ifndef OTHER_x"), None);
    assert_eq!(re.match_line("mov r0, r1"), None);
}

#[test]
fn canonical_patches_sorted_unique() {
    let a = s("thumb_func_start f\n.ifndef DECOMP_zeta\n  .ifndef DECOMP_alpha\n.endif\n");
    let b = s(".ifndef DECOMP_zeta\n.ifndef DECOMP_mid\n");
    assert_eq!(canonical_patches(&[a, b]), strs(&["alpha", "mid", "zeta"]));
    assert_eq!(canonical_patches(&[]), Vec::<String>::new());
}

#[test]
fn select_patches_by_range_and_name() {
    let all = strs(&["a", "b", "c", "d"]);
    assert_eq!(select_patches(&all, None, None, &[]).ok().unwrap(), all);
    assert_eq!(select_patches(&all, Some(2), Some(3), &[]).ok().unwrap(), strs(&["b", "c"]));
    assert_eq!(select_patches(&all, Some(3), None, &[]).ok().unwrap(), strs(&["c", "d"]));
    match select_patches(&all, Some(0), None, &[]) {
        Err(SelectError::Range { start, end, have }) => assert_eq!((start, end, have), (0, 4, 4)),
        _ => panic!("range accepted"),
    }
    match select_patches(&all, Some(2), Some(5), &[]) {
        Err(SelectError::Range { start, end, have }) => assert_eq!((start, end, have), (2, 5, 4)),
        _ => panic!("range accepted"),
    }
    assert_eq!(select_patches(&all, Some(1), Some(1), &strs(&["d", "a"])).ok().unwrap(), strs(&["d", "a"]));
    match select_patches(&all, None, None, &strs(&["x", "a", "y"])) {
        Err(SelectError::Unknown(bad)) => assert_eq!(bad, strs(&["x", "y"])),
        _ => panic!("unknown accepted"),
    }
}

#[test]
fn global_index_is_one_based() {
    let all = strs(&["a", "b", "c"]);
    assert_eq!(global_index(&all, &s("a")), 1);
    assert_eq!(global_index(&all, &s("c")), 3);
    assert_eq!(global_index(&all, &s("zz")), 1);
}

#[test]
fn patch_names_and_stems() {
    assert_eq!(patch_stem(3, &s("foo")), "0000003_foo");
    assert_eq!(patch_stem(12345678, &s("x")), "12345678_x");
    assert_eq!(patch_rom_file(42, &s("bar")), "bn6f_0000042_bar.gba");
    assert_eq!(rom_stem("bn6f_0000042_bar.gba"), "0000042_bar");
    assert_eq!(rom_stem("bn6f_orig.gba"), "orig");
    assert_eq!(rom_stem("bn6f.gba"), "bn6f");
    assert_eq!(rom_stem("bn6f_bn6f_x"), "x");
    assert_eq!(rom_stem(".gba"), ".gba");
    assert_eq!(rom_stem("a.b.gba"), "a.b");
    assert_eq!(pair_file_name("orig", "run1", "txt"), "orig__run1.txt");
}

#[test]
fn jobs_are_outer_major() {
    assert_eq!(hash_jobs(2, 3), vec![(0, 0), (0, 1), (0, 2), (1, 0), (1, 1), (1, 2)]);
    assert_eq!(hash_jobs(3, 0), Vec::<(usize, usize)>::new());
    let jobs = compare_jobs(&strs(&["p1", "p2"]), &strs(&["b1", "b2"]));
    assert_eq!(
        jobs,
        vec![(s("p1"), s("b1")), (s("p1"), s("b2")), (s("p2"), s("b1")), (s("p2"), s("b2"))]
    );
}

fn row(r: &str, b: &str, v: Verdict, f: i64) -> ResultRow {
    ResultRow { rom_stem: s(r), bk2: s(b), verdict: v, first_diff: f }
}

fn key(r: &ResultRow) -> (String, String, &'static str, i64) {
    (r.rom_stem.clone(), r.bk2.clone(), r.verdict.as_str(), r.first_diff)
}

#[test]
fn summary_counts_patches() {
    let rows = vec![
        row("0000002_b", "x", Verdict::Fail, 4),
        row("0000001_a", "x", Verdict::Pass, -1),
        row("0000001_a", "y", Verdict::Pass, -1),
        row("0000002_b", "y", Verdict::Missing, -1),
        row("0000003_c", "x", Verdict::Pass, -1),
    ];
    let sum = summarize(&rows);
    assert_eq!(sum.patches_tested, 3);
    assert_eq!(sum.n_pass, 2);
    assert_eq!(sum.n_fail, 1);
    let f: Vec<_> = sum.failures.iter().map(key).collect();
    assert_eq!(f, vec![(s("0000002_b"), s("x"), "FAIL", 4), (s("0000002_b"), s("y"), "MISSING", -1)]);
}

#[test]
fn summary_lists_at_most_twenty_failures() {
    let mut rows = Vec::new();
    for p in 0..5 {
        for b in 0..6 {
            rows.push(row(&format!("p{p}"), &format!("b{b}"), Verdict::Fail, b));
        }
    }
    let sum = summarize(&rows);
    assert_eq!(sum.patches_tested, 5);
    assert_eq!(sum.n_pass, 0);
    assert_eq!(sum.n_fail, 5);
    assert_eq!(sum.failures.len(), 20);
    assert_eq!(key(&sum.failures[19]), (s("p3"), s("b1"), "FAIL", 1));
    let empty = summarize(&[]);
    assert_eq!((empty.patches_tested, empty.n_pass, empty.n_fail), (0, 0, 0));
}

#[test]
fn table_rows_sorted() {
    let rows = vec![
        row("b", "x", Verdict::Pass, -1),
        row("a", "y", Verdict::Fail, 3),
        row("a", "x", Verdict::Pass, -1),
        row("a", "x", Verdict::Fail, 9),
        row("a", "x", Verdict::Fail, 2),
    ];
    let t: Vec<_> = table_order(&rows).iter().map(key).collect();
    assert_eq!(
        t,
        vec![
            (s("a"), s("x"), "FAIL", 2),
            (s("a"), s("x"), "FAIL", 9),
            (s("a"), s("x"), "PASS", -1),
            (s("a"), s("y"), "FAIL", 3),
            (s("b"), s("x"), "PASS", -1),
        ]
    );
}

#[test]
fn manifest_keeps_header_and_selects_one_patch() {
    let raw = "# header\n\nfoo\n  \r\n#bar\r\nbaz";
    assert_eq!(patch_manifest(raw, "x"), "# header\n\n  \n#bar\nx\n");
    assert_eq!(patch_manifest("", "only"), "only\n");
    assert_eq!(patch_manifest("a\nb\n", "c"), "c\n");
}

#[test]
fn csv_rows() {
    assert_eq!(csv_header(), "rom_stem,bk2,verdict,first_diff_frame");
    assert_eq!(csv_line(&row("0000001_a", "run", Verdict::Fail, 17)), "0000001_a,run,FAIL,17");
    assert_eq!(csv_line(&row("0000002_b", "run", Verdict::Missing, -1)), "0000002_b,run,MISSING,-1");
}

#[test]
fn signed_decimals() {
    let d = |v: i64| signed_decimal(v).into_iter().collect::<String>();
    assert_eq!(d(0), "0");
    assert_eq!(d(-1), "-1");
    assert_eq!(d(1234), "1234");
    assert_eq!(d(i64::MIN), "-9223372036854775808");
    assert_eq!(d(i64::MAX), "9223372036854775807");
}

#[test]
fn parse_error_messages() {
    assert_eq!(IntErrorKind::Empty.message(), "cannot parse integer from empty string");
    assert_eq!(IntErrorKind::InvalidDigit.message(), "invalid digit found in string");
    assert_eq!(IntErrorKind::PosOverflow.message(), "number too large to fit in target type");
    assert_eq!(IntErrorKind::NegOverflow.message(), "number too small to fit in target type");
}

#[test]
fn patch_rom_names_back_to_their_stem() {
    for (idx, name) in [(1usize, "a"), (42, "foo_bar"), (9999999, "x.y"), (12345678, "bn6f_z")] {
        let name = s(name);
        assert_eq!(rom_stem(&patch_rom_file(idx, &name)), patch_stem(idx, &name));
    }
    assert_eq!(pair_file_name(&rom_stem("bn6f_0000042_foo.gba"), "run", "txt"), "0000042_foo__run.txt");
}

fn hash_file(header: &[&str], frames: &[(u64, [u8; 32])]) -> String {
    let mut t = String::new();
    for c in header {
        t.push_str(c);
        t.push('\n');
    }
    for (i, h) in frames {
        t.push_str(&hash_line(*i, h));
        t.push('\n');
    }
    t
}

#[test]
fn hash_file_reads_back_and_compares() {
    let mut h1 = [0u8; 32];
    h1[5] = 0x5a;
    let h2 = [0xffu8; 32];
    let run_a = [(0u64, [0u8; 32]), (1, h1), (2, h2)];
    let run_b = [(0u64, [0u8; 32]), (1, h2), (2, h2)];
    let a = hash_file(&["# bn6f-validate hash run", "# rom: x.gba"], &run_a);
    let b = hash_file(&["# other header"], &run_b);
    let recs = parse_hash_records(&a);
    assert_eq!(recs.len(), 3);
    assert_eq!(recs[1].0, 1);
    assert_eq!(recs[1].1, hash_line(1, &h1)[2..].to_string());
    let r = compare_hash_texts(&a, &b).unwrap();
    assert_eq!(r, CompareSummary { frames: 3, first_diff: Some(1), diff_count: 1 });
    assert!(compare_hash_texts(&a, &a).unwrap().passed());
}
