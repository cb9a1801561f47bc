//! Diffing two per-frame hash streams (`<frame_index> <sha256_hex>` per
//! line, `#` comments), and the one-line verdict the orchestrator reads back.
use vstd::prelude::*;
use crate::num::{dec_chars, decimal, parse_i64, parse_signed64, parse_uint, parse_unsigned};
use crate::text::{chars_of, line_spans, lines, next_token, span_is, string_of, token_at};

verus! {

/// The record a line holds: `None` for an empty line, a `#` comment, or a
/// line whose first token is not a `u64` or that has no second token.
pub open spec fn hash_record(s: Seq<char>, a: int, b: int) -> Option<(u64, Seq<char>)> {
    let t0 = token_at(s, a, b);
    let t1 = token_at(s, t0.1, b);
    if a >= b || s[a] == '#' || t0.0 >= b {
        None
    } else {
        match parse_unsigned(s.subrange(t0.0, t0.1), 10, u64::MAX as int) {
            Err(_) => None,
            Ok(idx) => if t1.0 >= b {
                None
            } else {
                Some((idx as u64, s.subrange(t1.0, t1.1)))
            },
        }
    }
}

/// The records of the lines `spans` of `s`, in order.
pub open spec fn hash_records(s: Seq<char>, spans: Seq<(int, int)>) -> Seq<(u64, Seq<char>)>
    decreases spans.len(),
{
    if spans.len() == 0 {
        Seq::empty()
    } else {
        let rest = hash_records(s, spans.drop_last());
        match hash_record(s, spans.last().0, spans.last().1) {
            Some(r) => rest.push(r),
            None => rest,
        }
    }
}

/// The records of a hash file's text.
pub open spec fn records_of(text: Seq<char>) -> Seq<(u64, Seq<char>)> {
    hash_records(text, line_spans(text, 0))
}

/// Reads the records of a hash file: frame index and hash text per line.
pub fn parse_hash_records(text: &str) -> (r: Vec<(u64, String)>)
    ensures
        r@.map_values(|x: (u64, String)| (x.0, x.1@)) == records_of(text@),
{
    let cs = chars_of(text);
    let spans = lines(&cs);
    let ghost sp = line_spans(cs@, 0);
    let mut out: Vec<(u64, String)> = Vec::new();
    let mut k: usize = 0;
    while k < spans.len()
        invariant
            cs@ == text@,
            sp == line_spans(cs@, 0),
            spans@.len() == sp.len(),
            forall|j: int|
                0 <= j < spans@.len() ==> (#[trigger] spans@[j]).0 == sp[j].0 && spans@[j].1 == sp[j].1,
            forall|j: int| 0 <= j < spans@.len() ==> (#[trigger] spans@[j]).0 <= spans@[j].1 <= cs@.len(),
            k <= spans.len(),
            out@.map_values(|x: (u64, String)| (x.0, x.1@)) == hash_records(cs@, sp.take(k as int)),
        decreases spans.len() - k,
    {
        let (a, b) = spans[k];
        assert(sp.take(k as int + 1).drop_last() =~= sp.take(k as int));
        assert(sp.take(k as int + 1).last() == sp[k as int]);
        let ghost before = out@;
        if a < b && cs[a] != '#' {
            let (t0a, t0b) = next_token(&cs, a, b);
            if t0a < b {
                match parse_uint(&cs, t0a, t0b, 10, u64::MAX) {
                    Ok(idx) => {
                        let (t1a, t1b) = next_token(&cs, t0b, b);
                        if t1a < b {
                            let hash = crate::text::string_of_span(&cs, t1a, t1b);
                            out.push((idx, hash));
                            proof {
                                assert(out@.map_values(|x: (u64, String)| (x.0, x.1@)) =~= before.map_values(
                                    |x: (u64, String)| (x.0, x.1@),
                                ).push((idx, cs@.subrange(t1a as int, t1b as int))));
                            }
                        }
                    },
                    Err(_) => {},
                }
            }
        }
        k = k + 1;
    }
    assert(sp.take(spans.len() as int) =~= sp);
    out
}

/// How two hash streams differ in shape.
#[derive(Clone, Copy, Debug, PartialEq, Eq, Structural)]
pub enum CompareError {
    /// Row `row` (from 1) holds different frame indices.
    IndexMismatch { row: u64, orig: u64, patched: u64 },
    /// The original stream goes on; it is at this frame.
    OrigLonger { at: u64 },
    /// The patched stream goes on; it is at this frame.
    PatchedLonger { at: u64 },
}

/// The outcome of two streams of the same shape.
#[derive(Clone, Copy, Debug, PartialEq, Eq, Structural)]
pub struct CompareSummary {
    pub frames: u64,
    pub first_diff: Option<u64>,
    pub diff_count: u64,
}

/// The first row before `n` whose frame indices differ, or `n`.
pub open spec fn first_index_mismatch(a: Seq<(u64, Seq<char>)>, b: Seq<(u64, Seq<char>)>, n: int) -> int
    decreases n,
{
    if n <= 0 {
        n
    } else {
        let m = first_index_mismatch(a, b, n - 1);
        if m < n - 1 {
            m
        } else if a[n - 1].0 != b[n - 1].0 {
            n - 1
        } else {
            n
        }
    }
}

/// Rows before `n` whose hashes differ.
pub open spec fn hash_diffs(a: Seq<(u64, Seq<char>)>, b: Seq<(u64, Seq<char>)>, n: int) -> nat
    decreases n,
{
    if n <= 0 {
        0
    } else {
        hash_diffs(a, b, n - 1) + if a[n - 1].1 != b[n - 1].1 {
            1nat
        } else {
            0nat
        }
    }
}

/// The frame index of the first row before `n` whose hashes differ.
pub open spec fn first_hash_diff(a: Seq<(u64, Seq<char>)>, b: Seq<(u64, Seq<char>)>, n: int) -> Option<u64>
    decreases n,
{
    if n <= 0 {
        None
    } else {
        match first_hash_diff(a, b, n - 1) {
            Some(f) => Some(f),
            None => if a[n - 1].1 != b[n - 1].1 {
                Some(a[n - 1].0)
            } else {
                None
            },
        }
    }
}

/// Comparing two record streams row by row: a row whose frame indices
/// differ is refused; then a stream that is longer; else the number of
/// rows, the first differing frame and how many rows differ.
pub open spec fn compare_spec(a: Seq<(u64, Seq<char>)>, b: Seq<(u64, Seq<char>)>) -> Result<CompareSummary, CompareError> {
    let n = if a.len() < b.len() { a.len() as int } else { b.len() as int };
    let m = first_index_mismatch(a, b, n);
    if m < n {
        Err(CompareError::IndexMismatch { row: (m + 1) as u64, orig: a[m].0, patched: b[m].0 })
    } else if a.len() > b.len() {
        Err(CompareError::OrigLonger { at: a[n].0 })
    } else if b.len() > a.len() {
        Err(CompareError::PatchedLonger { at: b[n].0 })
    } else {
        Ok(CompareSummary { frames: n as u64, first_diff: first_hash_diff(a, b, n), diff_count: hash_diffs(a, b, n) as u64 })
    }
}

pub open spec fn record_views(r: Seq<(u64, String)>) -> Seq<(u64, Seq<char>)> {
    r.map_values(|x: (u64, String)| (x.0, x.1@))
}

/// Compares two hash files' texts.
pub fn compare_hash_texts(orig: &str, patched: &str) -> (r: Result<CompareSummary, CompareError>)
    ensures
        r == compare_spec(records_of(orig@), records_of(patched@)),
{
    let a = parse_hash_records(orig);
    let b = parse_hash_records(patched);
    compare_records(&a, &b)
}

/// Compares two record streams.
pub fn compare_records(a: &Vec<(u64, String)>, b: &Vec<(u64, String)>) -> (r: Result<CompareSummary, CompareError>)
    ensures
        r == compare_spec(record_views(a@), record_views(b@)),
{
    let ghost av = record_views(a@);
    let ghost bv = record_views(b@);
    let n = if a.len() < b.len() { a.len() } else { b.len() };
    let mut i: usize = 0;
    let mut diffs: u64 = 0;
    let mut first: Option<u64> = None;
    while i < n
        invariant
            av == record_views(a@),
            bv == record_views(b@),
            n == if a.len() < b.len() { a.len() } else { b.len() },
            i <= n,
            first_index_mismatch(av, bv, i as int) == i,
            diffs == hash_diffs(av, bv, i as int),
            diffs <= i,
            first == first_hash_diff(av, bv, i as int),
        decreases n - i,
    {
        if a[i].0 != b[i].0 {
            assert(first_index_mismatch(av, bv, i as int + 1) == i);
            proof {
                lemma_mismatch_sticks(av, bv, i as int + 1, n as int);
            }
            return Err(CompareError::IndexMismatch { row: (i + 1) as u64, orig: a[i].0, patched: b[i].0 });
        }
        if a[i].1 != b[i].1 {
            diffs = diffs + 1;
            if first.is_none() {
                first = Some(a[i].0);
            }
        }
        i = i + 1;
    }
    if a.len() > b.len() {
        return Err(CompareError::OrigLonger { at: a[n].0 });
    }
    if b.len() > a.len() {
        return Err(CompareError::PatchedLonger { at: b[n].0 });
    }
    Ok(CompareSummary { frames: n as u64, first_diff: first, diff_count: diffs })
}

proof fn lemma_mismatch_sticks(a: Seq<(u64, Seq<char>)>, b: Seq<(u64, Seq<char>)>, k: int, n: int)
    requires
        1 <= k <= n,
        first_index_mismatch(a, b, k) < k,
    ensures
        first_index_mismatch(a, b, n) == first_index_mismatch(a, b, k),
    decreases n - k,
{
    if k < n {
        lemma_mismatch_sticks(a, b, k + 1, n);
    }
}

/// A hash stream compared with itself passes: as many frames as records,
/// no difference.
pub proof fn lemma_compare_self(a: Seq<(u64, Seq<char>)>)
    requires
        a.len() <= u64::MAX,
    ensures
        compare_spec(a, a) == Ok::<CompareSummary, CompareError>(CompareSummary { frames: a.len() as u64, first_diff: None, diff_count: 0 }),
{
    lemma_self_rows(a, a.len() as int);
}

proof fn lemma_self_rows(a: Seq<(u64, Seq<char>)>, n: int)
    requires
        0 <= n <= a.len(),
    ensures
        first_index_mismatch(a, a, n) == n,
        hash_diffs(a, a, n) == 0,
        first_hash_diff(a, a, n) is None,
    decreases n,
{
    if n > 0 {
        lemma_self_rows(a, n - 1);
    }
}

pub open spec fn pass_line_spec(frames: u64) -> Seq<char> {
    "RESULT: pass frames="@ + dec_chars(frames as nat)
}

pub open spec fn fail_line_spec(frames: u64, first: u64, count: u64) -> Seq<char> {
    "RESULT: fail frames="@ + dec_chars(frames as nat) + " first_diff="@ + dec_chars(first as nat) + " diff_count="@
        + dec_chars(count as nat)
}

/// The verdict line `compare` prints for a summary.
pub open spec fn result_line_spec(s: CompareSummary) -> Seq<char> {
    match s.first_diff {
        None => pass_line_spec(s.frames),
        Some(f) => fail_line_spec(s.frames, f, s.diff_count),
    }
}

impl CompareSummary {
    /// Whether every frame matched (exit status 0; else 1).
    pub fn passed(&self) -> (r: bool)
        ensures
            r == (self.first_diff is None),
    {
        self.first_diff.is_none()
    }

    /// The `RESULT:` line printed for this summary.
    pub fn result_line(&self) -> (r: String)
        ensures
            r@ == result_line_spec(*self),
    {
        let mut out: Vec<char> = Vec::new();
        match self.first_diff {
            None => {
                push_str(&mut out, "RESULT: pass frames=");
                push_all(&mut out, &decimal(self.frames));
            },
            Some(f) => {
                push_str(&mut out, "RESULT: fail frames=");
                push_all(&mut out, &decimal(self.frames));
                push_str(&mut out, " first_diff=");
                push_all(&mut out, &decimal(f));
                push_str(&mut out, " diff_count=");
                push_all(&mut out, &decimal(self.diff_count));
            },
        }
        string_of(out.as_slice())
    }
}

/// Appends characters.
pub fn push_all(out: &mut Vec<char>, cs: &Vec<char>)
    ensures
        final(out)@ == old(out)@ + cs@,
{
    let mut i: usize = 0;
    let ghost start = out@;
    while i < cs.len()
        invariant
            i <= cs.len(),
            out@ == start + cs@.take(i as int),
        decreases cs.len() - i,
    {
        out.push(cs[i]);
        assert(cs@.take(i as int + 1) =~= cs@.take(i as int).push(cs@[i as int]));
        i = i + 1;
    }
    assert(cs@.take(cs.len() as int) =~= cs@);
}

/// Appends the characters of a string slice.
pub fn push_str(out: &mut Vec<char>, s: &str)
    ensures
        final(out)@ == old(out)@ + s@,
{
    let cs = chars_of(s);
    push_all(out, &cs);
}

} // verus!
