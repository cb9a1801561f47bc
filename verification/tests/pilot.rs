use bn6f_harness::num::IntErrorKind;
use bn6f_harness::pilot::{
    arg, due_changes, key_bit, parse_keys, parse_png_every, parse_script, parse_trace, read_script, png_due, png_frame_path,
    trace_mismatch, trace_text_line, xrgb_to_rgb,
    ScriptError, ScriptErrorKind,
};
use bn6f_harness::screenshot::{screenshot_png, PngError};

fn s(x: &str) -> String {
    x.to_string()
}

#[test]
fn key_bits() {
    assert_eq!(key_bit("A"), Ok(1));
    assert_eq!(key_bit("START"), Ok(8));
    assert_eq!(key_bit("L"), Ok(512));
    assert_eq!(key_bit("a"), Err(s("a")));
    assert_eq!(key_bit(""), Err(s("")));
}

#[test]
fn key_specs() {
    assert_eq!(parse_keys("-"), Ok(0));
    assert_eq!(parse_keys("A+B"), Ok(3));
    assert_eq!(parse_keys("UP+DOWN+R+L"), Ok(64 | 128 | 256 | 512));
    assert_eq!(parse_keys("A+A"), Ok(1));
    assert_eq!(parse_keys("A+X+B"), Err(s("X")));
    assert_eq!(parse_keys("A+"), Err(s("")));
    assert_eq!(parse_keys(""), Err(s("")));
}

#[test]
fn script_hold_tap_end() {
    let text = "# demo\nhold 0 A\n\n  tap 10 B+START   # press\nhold 12 -\nend 100\n";
    let sc = match parse_script(text) {
        Ok(sc) => sc,
        Err(_) => panic!("refused"),
    };
    assert_eq!(sc.changes, vec![(0, 1), (10, 11), (12, 1), (12, 0)]);
    assert_eq!(sc.end, 100);
}

#[test]
fn script_end_only() {
    match parse_script("end 3") {
        Ok(sc) => {
            assert!(sc.changes.is_empty());
            assert_eq!(sc.end, 3);
        },
        Err(_) => panic!("refused"),
    }
}

fn refusal(text: &str) -> (usize, String, ScriptErrorKind) {
    match parse_script(text) {
        Err(ScriptError::Line { line, raw, kind }) => (line, raw, kind),
        Err(ScriptError::NoEnd) => panic!("no end"),
        Ok(_) => panic!("accepted"),
    }
}

#[test]
fn script_refusals() {
    let (l, raw, k) = refusal("hold 0 A\nhold");
    assert_eq!((l, raw.as_str()), (2, "hold"));
    assert!(matches!(k, ScriptErrorKind::MissingFrame));
    let (l, raw, k) = refusal("hold x A # why");
    assert_eq!((l, raw.as_str()), (1, "hold x A # why"));
    assert!(matches!(k, ScriptErrorKind::BadFrame));
    let (l, _, k) = refusal("hold 5 A\nend 3\nhold 6 B");
    assert_eq!(l, 2);
    assert!(matches!(k, ScriptErrorKind::NonDecreasing));
    let (l, _, k) = refusal("tap 5 A\nhold 6 B");
    assert_eq!(l, 2);
    assert!(matches!(k, ScriptErrorKind::NonDecreasing));
    let (_, _, k) = refusal("hold 5");
    assert!(matches!(k, ScriptErrorKind::MissingKeys));
    let (_, _, k) = refusal("hold 5 A+Q");
    match k {
        ScriptErrorKind::UnknownKey(n) => assert_eq!(n, "Q"),
        _ => panic!("wrong kind"),
    }
    let (_, _, k) = refusal("jump 5");
    assert!(matches!(k, ScriptErrorKind::UnknownDirective));
    assert!(matches!(parse_script("hold 1 A\n"), Err(ScriptError::NoEnd)));
    assert!(matches!(parse_script(""), Err(ScriptError::NoEnd)));
}

#[test]
fn args_take_value_after_first_flag() {
    let args = vec![s("--rom"), s("x.gba"), s("--script"), s("a.txt"), s("--rom"), s("y.gba")];
    assert_eq!(arg(&args, "--rom"), Some(s("x.gba")));
    assert_eq!(arg(&args, "--script"), Some(s("a.txt")));
    assert_eq!(arg(&args, "--bios"), None);
}

#[test]
fn due_changes_at_frame() {
    let c = vec![(0, 1), (10, 11), (12, 1), (12, 0)];
    assert_eq!(due_changes(&c, 0, 0), 1);
    assert_eq!(due_changes(&c, 5, 1), 1);
    assert_eq!(due_changes(&c, 10, 1), 2);
    assert_eq!(due_changes(&c, 12, 2), 4);
    assert_eq!(due_changes(&c, 13, 4), 4);
}

#[test]
fn trace_checks() {
    let e = vec![5, 6, 7];
    assert_eq!(trace_mismatch(&e, 1, 6), None);
    assert_eq!(trace_mismatch(&e, 1, 9), Some(Some(6)));
    assert_eq!(trace_mismatch(&e, 3, 9), Some(None));
}

#[test]
fn trace_files() {
    assert_eq!(parse_trace("# t\n00000000000000ff\n\n  0x10  \n0x0x1\n"), Ok(vec![0xff, 0x10, 1]));
    assert_eq!(parse_trace(""), Ok(vec![]));
    assert_eq!(parse_trace("12\nzz\n"), Err(IntErrorKind::InvalidDigit));
    assert_eq!(parse_trace("0x\n"), Err(IntErrorKind::Empty));
    assert_eq!(parse_trace("1ffffffffffffffff\n"), Err(IntErrorKind::PosOverflow));
}

#[test]
fn png_every_spec() {
    assert_eq!(parse_png_every("30:shots"), Some((30, s("shots"))));
    assert_eq!(parse_png_every("5:a:b"), Some((5, s("a:b"))));
    assert_eq!(parse_png_every("30"), None);
    assert_eq!(parse_png_every("x:dir"), None);
}

#[test]
fn xrgb_packs_rgb() {
    assert_eq!(xrgb_to_rgb(&[0xFF11_2233, 0x0044_5566]), vec![0x11, 0x22, 0x33, 0x44, 0x55, 0x66]);
    assert_eq!(xrgb_to_rgb(&[]), Vec::<u8>::new());
}

#[test]
fn screenshot_is_png_of_rgb() {
    let px = vec![0x00FF_0000u32, 0x0000_FF00, 0x0000_00FF, 0x00FF_FFFF];
    let bytes = screenshot_png(&px, 2, 2).unwrap();
    assert_eq!(&bytes[..8], &[0x89, b'P', b'N', b'G', 0x0D, 0x0A, 0x1A, 0x0A]);
    let dec = png::Decoder::new(&bytes[..]);
    let mut reader = dec.read_info().unwrap();
    let mut buf = vec![0; reader.output_buffer_size()];
    let info = reader.next_frame(&mut buf).unwrap();
    assert_eq!((info.width, info.height), (2, 2));
    assert_eq!(&buf[..info.buffer_size()], &[255, 0, 0, 0, 255, 0, 0, 0, 255, 255, 255, 255]);
}

#[test]
fn screenshot_refuses_wrong_size() {
    assert_eq!(screenshot_png(&[1, 2, 3], 2, 2), Err(PngError::Encoding));
    assert_eq!(screenshot_png(&[], 0, 0), Err(PngError::Encoding));
}

#[test]
fn png_schedule_and_names() {
    assert!(png_due(29, 30));
    assert!(!png_due(28, 30));
    assert!(png_due(0, 1));
    assert_eq!(png_frame_path("shots", 30), "shots/f000030.png");
    assert_eq!(png_frame_path("d", 1234567), "d/f1234567.png");
}

#[test]
fn trace_lines_read_back() {
    assert_eq!(trace_text_line(0xff), "00000000000000ff\n");
    assert_eq!(trace_text_line(u64::MAX), "ffffffffffffffff\n");
    let hs = vec![0, 0xff, u64::MAX, 0x0123_4567_89ab_cdef];
    let text: String = hs.iter().map(|&h| trace_text_line(h)).collect();
    assert_eq!(parse_trace(&text), Ok(hs));
}

#[test]
fn script_end_is_last() {
    let (l, raw, k) = refusal("end 9\nhold 9 A");
    assert_eq!((l, raw.as_str()), (2, "hold 9 A"));
    assert!(matches!(k, ScriptErrorKind::AfterEnd));
    let (l, _, k) = refusal("hold 1 A\nend 9\n\n# done\nend 10");
    assert_eq!(l, 5);
    assert!(matches!(k, ScriptErrorKind::AfterEnd));
    match parse_script("hold 1 A\nend 9\n  # trailing comment\n\n") {
        Ok(sc) => assert_eq!((sc.changes, sc.end), (vec![(1, 1)], 9)),
        Err(_) => panic!("refused"),
    }
}

#[test]
fn tap_release_past_last_frame_reads_as_nothing() {
    assert!(read_script("tap 18446744073709551614 A\nend 1").is_none());
    assert!(read_script("hold 1 Q\ntap 18446744073709551614 A").unwrap().is_err());
    match read_script("tap 18446744073709551613 A\nend 18446744073709551615") {
        Some(Ok(sc)) => assert_eq!(sc.changes, vec![(18446744073709551613, 1), (u64::MAX, 0)]),
        _ => panic!("refused"),
    }
}
