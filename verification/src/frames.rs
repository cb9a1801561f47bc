//! Per-frame pixel hashing of a replay: BizHawk savestate and input files,
//! the visible part of the frame buffer, and the hash file's text.
use vstd::prelude::*;
use crate::compare::{push_all, push_str};
use crate::digests::{sha256_digest, sha256_of};
use crate::compare::{hash_record, hash_records, records_of};
use crate::hex::{hex_chars, hex32, hex_vec, is_hex_lower, lemma_hex_chars};
use crate::num::{parse_unsigned, IntErrorKind};
use crate::text::{is_ws, joined_lines, lemma_joined_line, lemma_joined_spans, lemma_scan_is_at,
    line_offset, line_spans, not_ws, plain_line, token_at, ws};
use crate::verdict::{lemma_dec_digits, lemma_dec_roundtrip};
use crate::num::{dec_chars, decimal};
use crate::text::string_of;

verus! {

/// Visible width of the GBA screen.
pub const GBA_W: usize = 240;

/// Visible height of the GBA screen.
pub const GBA_H: usize = 160;

/// libmgba renders into rows of this many pixels; the visible area is the
/// leftmost 240 of each.
pub const FB_STRIDE_PX: usize = 256;

/// mGBA savestates start with the little-endian magic `0x010000XX`.
pub open spec fn mgba_magic(b: Seq<u8>) -> bool {
    b.len() >= 4 && b[1] == 0 && b[2] == 0 && b[3] == 0x01
}

fn looks_like_mgba_magic(b: &[u8], from: usize) -> (r: bool)
    requires
        from <= b.len(),
    ensures
        r == mgba_magic(b@.skip(from as int)),
{
    b.len() - from >= 4 && b[from + 1] == 0 && b[from + 2] == 0 && b[from + 3] == 0x01
}

/// The mGBA state inside a BizHawk `.ss` file: BizHawk prepends 4 bytes,
/// so when the file does not start with the mGBA magic but does 4 bytes
/// in, those 4 bytes are dropped. Anything else, shorter files included,
/// is returned unchanged.
pub fn strip_bk2_state_prefix(bytes: Vec<u8>) -> (r: Vec<u8>)
    ensures
        r@ == if bytes@.len() >= 4 && !mgba_magic(bytes@) && mgba_magic(bytes@.skip(4)) {
            bytes@.skip(4)
        } else {
            bytes@
        },
{
    assert(bytes@.skip(0) =~= bytes@);
    if bytes.len() >= 4 && !looks_like_mgba_magic(&bytes, 0) && looks_like_mgba_magic(&bytes, 4) {
        let mut out: Vec<u8> = Vec::new();
        let mut i: usize = 4;
        while i < bytes.len()
            invariant
                4 <= i <= bytes.len(),
                out@ == bytes@.subrange(4, i as int),
            decreases bytes.len() - i,
        {
            out.push(bytes[i]);
            assert(bytes@.subrange(4, i as int + 1) =~= bytes@.subrange(4, i as int).push(bytes@[i as int]));
            i = i + 1;
        }
        assert(bytes@.subrange(4, bytes.len() as int) =~= bytes@.skip(4));
        out
    } else {
        bytes
    }
}

/// The joypad masks of an input file packed `stride` bytes per frame: the
/// little-endian `u16` at the start of each whole record.
pub open spec fn input_masks(bytes: Seq<u8>, stride: int) -> Seq<u16> {
    Seq::new((bytes.len() as int / stride) as nat, |i: int| (bytes[stride * i] as int + 256 * bytes[stride * i + 1] as int) as u16)
}

fn masks(bytes: &[u8], stride: usize) -> (r: Vec<u16>)
    requires
        stride == 2 || stride == 4,
    ensures
        r@ == input_masks(bytes@, stride as int),
{
    let n = bytes.len() / stride;
    let mut out: Vec<u16> = Vec::new();
    let mut i: usize = 0;
    while i < n
        invariant
            stride == 2 || stride == 4,
            n == bytes@.len() as int / (stride as int),
            i <= n,
            out@.len() == i,
            forall|k: int| 0 <= k < i ==> #[trigger] out@[k] == input_masks(bytes@, stride as int)[k],
        decreases n - i,
    {
        assert(stride * i + 1 < bytes.len()) by (nonlinear_arith)
            requires
                i < n,
                n == bytes@.len() as int / (stride as int),
                stride == 2 || stride == 4,
        ;
        let lo = bytes[stride * i] as u16;
        let hi = bytes[stride * i + 1] as u16;
        let m = lo + hi * 256;
        out.push(m);
        i = i + 1;
    }
    assert(out@ =~= input_masks(bytes@, stride as int));
    out
}

/// The joypad masks of a `.input` file (4 bytes per frame: the mask, then
/// padding). A trailing partial record is ignored.
pub fn decode_input_file(bytes: &[u8]) -> (r: Vec<u16>)
    ensures
        r@ == input_masks(bytes@, 4),
{
    masks(bytes, 4)
}

/// The joypad masks of a tracker input file (2 bytes per frame), refused
/// (with its length) when the byte count is odd.
pub fn decode_mask_file(bytes: &[u8]) -> (r: Result<Vec<u16>, usize>)
    ensures
        bytes@.len() % 2 == 0 ==> (r matches Ok(v) && v@ == input_masks(bytes@, 2)),
        bytes@.len() % 2 == 1 ==> r == Err::<Vec<u16>, usize>(bytes@.len() as usize),
{
    if bytes.len() % 2 != 0 {
        return Err(bytes.len());
    }
    Ok(masks(bytes, 2))
}

/// The frames a replay runs: the requested count, capped by the input.
pub fn frames_to_run(requested: Option<u32>, available: usize) -> (n: usize)
    ensures
        n == match requested {
            Some(f) => if (f as int) < available { f as int } else { available as int },
            None => available as int,
        },
{
    match requested {
        Some(f) => if (f as usize) < available { f as usize } else { available },
        None => available,
    }
}

/// The little-endian bytes of the visible pixels, row by row.
pub open spec fn visible_bytes(fb: Seq<u32>) -> Seq<u8> {
    Seq::new((GBA_H * GBA_W * 4) as nat, |k: int| {
        let p = k / 4;
        let px = fb[(p / 240) * 256 + p % 240];
        ((px >> (8 * (k % 4) as u32)) & 0xff) as u8
    })
}

/// The pixel at row `y`, column `x` of a frame buffer.
pub open spec fn visible_pixel(fb: Seq<u32>, y: int, x: int) -> u32 {
    fb[y * 256 + x]
}

/// Pixels outside the visible 240x160 area never reach the hash: frame
/// buffers that agree on every visible pixel give the same bytes, so the
/// same hash.
pub proof fn lemma_hash_sees_only_visible(fb1: Seq<u32>, fb2: Seq<u32>)
    requires
        forall|y: int, x: int|
            0 <= y < GBA_H && 0 <= x < GBA_W ==> #[trigger] visible_pixel(fb1, y, x) == visible_pixel(fb2, y, x),
    ensures
        visible_bytes(fb1) == visible_bytes(fb2),
        sha256_digest(visible_bytes(fb1)) == sha256_digest(visible_bytes(fb2)),
{
    assert forall|k: int| 0 <= k < visible_bytes(fb1).len() implies #[trigger] visible_bytes(fb1)[k] == visible_bytes(fb2)[k] by {
        let p = k / 4;
        assert(0 <= p / 240 < 160 && 0 <= p % 240 < 240) by (nonlinear_arith)
            requires
                0 <= k < 153600,
                p == k / 4,
        ;
        assert(visible_pixel(fb1, p / 240, p % 240) == visible_pixel(fb2, p / 240, p % 240));
    }
    assert(visible_bytes(fb1) =~= visible_bytes(fb2));
}

/// The visible 240x160 part of a frame buffer as bytes.
pub fn visible_frame_bytes(fb: &[u32]) -> (r: Vec<u8>)
    requires
        fb@.len() >= FB_STRIDE_PX * GBA_H,
    ensures
        r@ == visible_bytes(fb@),
{
    let mut out: Vec<u8> = Vec::new();
    let mut p: usize = 0;
    while p < GBA_W * GBA_H
        invariant
            fb@.len() >= FB_STRIDE_PX * GBA_H,
            p <= GBA_W * GBA_H,
            out@.len() == 4 * p,
            forall|k: int| 0 <= k < 4 * p ==> #[trigger] out@[k] == visible_bytes(fb@)[k],
        decreases GBA_W * GBA_H - p,
    {
        let y = p / GBA_W;
        let x = p % GBA_W;
        assert(y * 256 + x < 256 * 160) by (nonlinear_arith)
            requires
                y == p / 240,
                x == p % 240,
                p < 240 * 160,
        ;
        let px = fb[y * FB_STRIDE_PX + x];
        let ghost before = out@;
        let b0 = (px & 0xff) as u8;
        let b1 = ((px >> 8) & 0xff) as u8;
        let b2 = ((px >> 16) & 0xff) as u8;
        let b3 = ((px >> 24) & 0xff) as u8;
        out.push(b0);
        out.push(b1);
        out.push(b2);
        out.push(b3);
        proof {
            assert forall|k: int| 0 <= k < 4 * (p + 1) implies #[trigger] out@[k] == visible_bytes(fb@)[k] by {
                if k < 4 * p {
                    assert(out@[k] == before[k]);
                } else {
                    let j = k - 4 * p;
                    assert(k / 4 == p) by (nonlinear_arith)
                        requires
                            4 * p <= k < 4 * p + 4,
                    ;
                    assert(k % 4 == j) by (nonlinear_arith)
                        requires
                            4 * p <= k < 4 * p + 4,
                            j == k - 4 * p,
                    ;
                    assert(((px >> 0u32) & 0xff) as u8 == b0 && ((px >> 8u32) & 0xff) as u8 == b1
                        && ((px >> 16u32) & 0xff) as u8 == b2 && ((px >> 24u32) & 0xff) as u8 == b3) by (bit_vector)
                        requires
                            b0 == (px & 0xff) as u8,
                            b1 == ((px >> 8) & 0xff) as u8,
                            b2 == ((px >> 16) & 0xff) as u8,
                            b3 == ((px >> 24) & 0xff) as u8,
                    ;
                }
            }
        }
        p = p + 1;
    }
    assert(out@ =~= visible_bytes(fb@));
    out
}

/// SHA-256 of the visible pixels of a frame buffer.
pub fn hash_frame(fb: &[u32]) -> (h: [u8; 32])
    requires
        fb@.len() >= FB_STRIDE_PX * GBA_H,
    ensures
        h@ == sha256_digest(visible_bytes(fb@)),
{
    let bytes = visible_frame_bytes(fb);
    sha256_of(bytes.as_slice())
}

/// The line of a hash file for one frame: `<frame_index> <hash_hex>`.
pub open spec fn hash_line_spec(index: u64, hash: Seq<u8>) -> Seq<char> {
    dec_chars(index as nat) + seq![' '] + hex_chars(hash)
}

/// One line of a hash file: `<frame_index> <sha256_hex>`.
pub fn hash_line(index: u64, hash: &[u8; 32]) -> (s: String)
    ensures
        s@ == hash_line_spec(index, hash@),
{
    let mut out = decimal(index);
    out.push(' ');
    let h = hex_vec(hash.as_slice());
    push_all(&mut out, &h);
    string_of(out.as_slice())
}

// ---------------------------------------------------------------------
// A hash file reads back as the hashes written.
// ---------------------------------------------------------------------

/// A header line of a hash file: a `#` comment on one line.
pub open spec fn comment_line(c: Seq<char>) -> bool {
    c.len() > 0 && c[0] == '#' && plain_line(c)
}

/// The line of a frame (index, hash bytes).
pub open spec fn frame_line() -> spec_fn((u64, Seq<u8>)) -> Seq<char> {
    |f: (u64, Seq<u8>)| hash_line_spec(f.0, f.1)
}

/// The record a frame's line holds.
pub open spec fn frame_record() -> spec_fn((u64, Seq<u8>)) -> (u64, Seq<char>) {
    |f: (u64, Seq<u8>)| (f.0, hex_chars(f.1))
}

/// The lines of a hash file: the comment header, then one line per frame.
pub open spec fn hash_file_lines(comments: Seq<Seq<char>>, frames: Seq<(u64, Seq<u8>)>) -> Seq<Seq<char>> {
    comments + frames.map_values(frame_line())
}

proof fn lemma_frame_line(i: u64, h: Seq<u8>)
    requires
        h.len() > 0,
    ensures
        plain_line(hash_line_spec(i, h)),
        ({
            let l = hash_line_spec(i, h);
            let d = dec_chars(i as nat).len() as int;
            &&& 1 <= d < l.len() - 1
            &&& l[d] == ' '
            &&& forall|t: int| 0 <= t < d ==> 0x30 <= (#[trigger] l[t] as u32) <= 0x39
            &&& forall|t: int| d < t < l.len() ==> is_hex_lower(#[trigger] l[t])
            &&& l.subrange(0, d) == dec_chars(i as nat)
            &&& l.subrange(d + 1, l.len() as int) == hex_chars(h)
        }),
{
    let dc = dec_chars(i as nat);
    let hx = hex_chars(h);
    let l = hash_line_spec(i, h);
    let d = dc.len() as int;
    lemma_dec_digits(i as nat);
    lemma_hex_chars(h);
    assert forall|t: int| 0 <= t < d implies 0x30 <= (#[trigger] l[t] as u32) <= 0x39 by {
        assert(l[t] == dc[t]);
    }
    assert forall|t: int| d < t < l.len() implies is_hex_lower(#[trigger] l[t]) by {
        assert(l[t] == hx[t - d - 1]);
    }
    assert forall|t: int| 0 <= t < l.len() implies #[trigger] l[t] != '\n' by {
        if t < d {
            assert(0x30 <= (l[t] as u32) <= 0x39);
        } else if t > d {
            assert(is_hex_lower(l[t]));
        }
    }
    assert(is_hex_lower(l[l.len() - 1]));
    assert(l.subrange(0, d) =~= dc);
    assert(l.subrange(d + 1, l.len() as int) =~= hx);
}

/// The record of a frame's line, wherever it sits in a text.
proof fn lemma_line_record(s: Seq<char>, a: int, b: int, i: u64, h: Seq<u8>)
    requires
        0 <= a <= b <= s.len(),
        h.len() > 0,
        s.subrange(a, b) == hash_line_spec(i, h),
    ensures
        hash_record(s, a, b) == Some((i, hex_chars(h))),
{
    let l = hash_line_spec(i, h);
    lemma_frame_line(i, h);
    let d = dec_chars(i as nat).len() as int;
    assert forall|k: int| a <= k < b implies #[trigger] s[k] == l[k - a] by {
        assert(s.subrange(a, b)[k - a] == s[k]);
    }
    // the first token is the index
    assert(0x30 <= (l[0] as u32) <= 0x39);
    assert(s[a] == l[0]);
    lemma_scan_is_at(s, a, a, b, not_ws());
    assert forall|k: int| a <= k < a + d implies !ws()(#[trigger] s[k]) by {
        assert(s[k] == l[k - a]);
        assert(0x30 <= (l[k - a] as u32) <= 0x39);
    }
    assert(s[a + d] == l[d]);
    lemma_scan_is_at(s, a, a + d, b, ws());
    assert(s.subrange(a, a + d) =~= l.subrange(0, d));
    lemma_dec_roundtrip(i as nat, u64::MAX as int, IntErrorKind::PosOverflow);
    assert(s.subrange(a, a + d)[0] == l[0]);
    assert(parse_unsigned(s.subrange(a, a + d), 10, u64::MAX as int) == Ok::<int, IntErrorKind>(i as int));
    // the second token is the hash
    assert(s[a + d + 1] == l[d + 1]);
    assert(is_hex_lower(l[d + 1]));
    lemma_scan_is_at(s, a + d, a + d + 1, b, not_ws());
    assert forall|k: int| a + d + 1 <= k < b implies !ws()(#[trigger] s[k]) by {
        assert(s[k] == l[k - a]);
        assert(is_hex_lower(l[k - a]));
    }
    lemma_scan_is_at(s, a + d + 1, b, b, ws());
    assert(s.subrange(a + d + 1, b) =~= l.subrange(d + 1, l.len() as int));
}

proof fn lemma_file_records(comments: Seq<Seq<char>>, frames: Seq<(u64, Seq<u8>)>, m: int)
    requires
        forall|k: int| 0 <= k < comments.len() ==> comment_line(#[trigger] comments[k]),
        forall|k: int| 0 <= k < frames.len() ==> (#[trigger] frames[k]).1.len() > 0,
        0 <= m <= comments.len() + frames.len(),
    ensures
        hash_records(
            joined_lines(hash_file_lines(comments, frames)),
            line_spans(joined_lines(hash_file_lines(comments, frames)), 0).take(m),
        ) == (if m <= comments.len() {
            Seq::<(u64, Seq<char>)>::empty()
        } else {
            frames.take(m - comments.len()).map_values(frame_record())
        }),
    decreases m,
{
    let ls = hash_file_lines(comments, frames);
    let s = joined_lines(ls);
    let sp = line_spans(s, 0);
    let c = comments.len() as int;
    lemma_file_lines_plain(comments, frames);
    lemma_joined_spans(ls);
    if m == 0 {
        assert(sp.take(0) =~= Seq::<(int, int)>::empty());
    } else {
        lemma_file_records(comments, frames, m - 1);
        let j = m - 1;
        assert(sp.take(m).drop_last() =~= sp.take(m - 1));
        let a = line_offset(ls, j);
        let b = a + ls[j].len();
        assert(sp.take(m).last() == (a, b));
        lemma_joined_line(ls, j);
        if j < c {
            assert(ls[j] == comments[j]);
            assert(comment_line(comments[j]));
            assert(s.subrange(a, b)[0] == s[a]);
            assert(hash_record(s, a, b) is None);
            if m > c {
                assert(frames.take(m - c).map_values(frame_record()) =~= Seq::<(u64, Seq<char>)>::empty());
            }
        } else {
            let f = frames[j - c];
            assert(ls[j] == hash_line_spec(f.0, f.1));
            lemma_line_record(s, a, b, f.0, f.1);
            assert(frames.take(m - c) =~= frames.take(m - 1 - c).push(f));
            assert(frames.take(m - c).map_values(frame_record()) =~= frames.take(m - 1 - c).map_values(frame_record()).push(
                (f.0, hex_chars(f.1)),
            ));
            if m - 1 <= c {
                assert(frames.take(m - 1 - c) =~= Seq::<(u64, Seq<u8>)>::empty());
                assert(frames.take(m - 1 - c).map_values(frame_record()) =~= Seq::<(u64, Seq<char>)>::empty());
            }
        }
    }
}

proof fn lemma_file_lines_plain(comments: Seq<Seq<char>>, frames: Seq<(u64, Seq<u8>)>)
    requires
        forall|k: int| 0 <= k < comments.len() ==> comment_line(#[trigger] comments[k]),
        forall|k: int| 0 <= k < frames.len() ==> (#[trigger] frames[k]).1.len() > 0,
    ensures
        forall|j: int| 0 <= j < hash_file_lines(comments, frames).len() ==> plain_line(#[trigger] hash_file_lines(comments, frames)[j]),
{
    let ls = hash_file_lines(comments, frames);
    let c = comments.len() as int;
    assert forall|j: int| 0 <= j < ls.len() implies plain_line(#[trigger] ls[j]) by {
        if j < c {
            assert(ls[j] == comments[j]);
        } else {
            assert(ls[j] == hash_line_spec(frames[j - c].0, frames[j - c].1));
            lemma_frame_line(frames[j - c].0, frames[j - c].1);
        }
    }
}

/// A hash file reads back as the hashes written: after any `#` header,
/// each frame's line gives its index and hash text, in order.
pub proof fn lemma_hash_file_roundtrip(comments: Seq<Seq<char>>, frames: Seq<(u64, Seq<u8>)>)
    requires
        forall|k: int| 0 <= k < comments.len() ==> comment_line(#[trigger] comments[k]),
        forall|k: int| 0 <= k < frames.len() ==> (#[trigger] frames[k]).1.len() > 0,
    ensures
        records_of(joined_lines(hash_file_lines(comments, frames))) == frames.map_values(frame_record()),
{
    let ls = hash_file_lines(comments, frames);
    let n = (comments.len() + frames.len()) as int;
    lemma_file_records(comments, frames, n);
    lemma_file_lines_plain(comments, frames);
    lemma_joined_spans(ls);
    let sp = line_spans(joined_lines(ls), 0);
    assert(sp.take(n) =~= sp);
    assert(frames.take(frames.len() as int) =~= frames);
    if frames.len() == 0 {
        assert(frames.map_values(frame_record()) =~= Seq::<(u64, Seq<char>)>::empty());
    }
}

/// The frame index of the first row before `n` whose hash bytes differ
/// between two runs.
pub open spec fn first_frame_diff(a: Seq<(u64, Seq<u8>)>, b: Seq<(u64, Seq<u8>)>, n: int) -> Option<u64>
    decreases n,
{
    if n <= 0 {
        None
    } else {
        match first_frame_diff(a, b, n - 1) {
            Some(f) => Some(f),
            None => if a[n - 1].1 != b[n - 1].1 {
                Some(a[n - 1].0)
            } else {
                None
            },
        }
    }
}

/// Rows before `n` whose hash bytes differ between two runs.
pub open spec fn frame_diffs(a: Seq<(u64, Seq<u8>)>, b: Seq<(u64, Seq<u8>)>, n: int) -> nat
    decreases n,
{
    if n <= 0 {
        0
    } else {
        frame_diffs(a, b, n - 1) + if a[n - 1].1 != b[n - 1].1 {
            1nat
        } else {
            0nat
        }
    }
}

proof fn lemma_rows_of_runs(a: Seq<(u64, Seq<u8>)>, b: Seq<(u64, Seq<u8>)>, n: int)
    requires
        0 <= n <= a.len(),
        a.len() == b.len(),
        forall|k: int| 0 <= k < a.len() ==> (#[trigger] a[k]).0 == b[k].0 && a[k].1.len() == b[k].1.len(),
    ensures
        crate::compare::first_index_mismatch(a.map_values(frame_record()), b.map_values(frame_record()), n) == n,
        crate::compare::first_hash_diff(a.map_values(frame_record()), b.map_values(frame_record()), n)
            == first_frame_diff(a, b, n),
        crate::compare::hash_diffs(a.map_values(frame_record()), b.map_values(frame_record()), n) == frame_diffs(a, b, n),
    decreases n,
{
    if n > 0 {
        lemma_rows_of_runs(a, b, n - 1);
        let k = n - 1;
        assert(a[k].0 == b[k].0);
        if hex_chars(a[k].1) == hex_chars(b[k].1) {
            crate::hex::lemma_hex_chars_injective(a[k].1, b[k].1);
        }
    }
}

/// Comparing the hash files of two runs over the same frames names exactly
/// the frames whose pixel hashes differ: the first of them and how many,
/// and passes exactly when there is none.
pub proof fn lemma_runs_compare(
    c1: Seq<Seq<char>>,
    c2: Seq<Seq<char>>,
    a: Seq<(u64, Seq<u8>)>,
    b: Seq<(u64, Seq<u8>)>,
)
    requires
        forall|k: int| 0 <= k < c1.len() ==> comment_line(#[trigger] c1[k]),
        forall|k: int| 0 <= k < c2.len() ==> comment_line(#[trigger] c2[k]),
        a.len() == b.len(),
        a.len() <= u64::MAX,
        forall|k: int| 0 <= k < a.len() ==> (#[trigger] a[k]).0 == b[k].0 && a[k].1.len() == 32 && b[k].1.len() == 32,
    ensures
        crate::compare::compare_spec(
            records_of(joined_lines(hash_file_lines(c1, a))),
            records_of(joined_lines(hash_file_lines(c2, b))),
        ) == Ok::<crate::compare::CompareSummary, crate::compare::CompareError>(crate::compare::CompareSummary {
            frames: a.len() as u64,
            first_diff: first_frame_diff(a, b, a.len() as int),
            diff_count: frame_diffs(a, b, a.len() as int) as u64,
        }),
{
    assert forall|k: int| 0 <= k < b.len() implies (#[trigger] b[k]).1.len() > 0 by {
        assert(a[k].1.len() == 32);
    }
    lemma_hash_file_roundtrip(c1, a);
    lemma_hash_file_roundtrip(c2, b);
    lemma_rows_of_runs(a, b, a.len() as int);
}

} // verus!
