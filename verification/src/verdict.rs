//! Reading a comparison's verdict back from the line `compare` printed, and
//! the law that ties the two together.
use vstd::prelude::*;
use crate::compare::{CompareSummary, result_line_spec, pass_line_spec, fail_line_spec};
use crate::num::{dec_chars, digit_value, digits_value, parse_i64, parse_signed64, IntErrorKind};
use crate::orchestrate::starts_at;
use crate::text::{chars_of, is_ws, next_token, not_ws, scan, token_at, trim, trim_span, ws, span_is,
    lemma_scan_facts, rscan, lemma_rscan_facts};

verus! {

/// What a (patch, bk2) comparison came to.
#[derive(Clone, Copy, Debug, PartialEq, Eq, Structural)]
pub enum Verdict {
    Pass,
    Fail,
    /// One of the two hash files was not there.
    Missing,
    /// The comparison could not be run.
    Error,
}

/// The word the results table uses for a verdict.
pub open spec fn verdict_word(v: Verdict) -> Seq<char> {
    match v {
        Verdict::Pass => seq!['P', 'A', 'S', 'S'],
        Verdict::Fail => seq!['F', 'A', 'I', 'L'],
        Verdict::Missing => seq!['M', 'I', 'S', 'S', 'I', 'N', 'G'],
        Verdict::Error => seq!['E', 'R', 'R', 'O', 'R'],
    }
}

impl Verdict {
    /// The word the results table uses.
    pub fn as_str(&self) -> (s: &'static str)
        ensures
            s@ == verdict_word(*self),
    {
        proof {
            reveal_strlit("PASS");
            reveal_strlit("FAIL");
            reveal_strlit("MISSING");
            reveal_strlit("ERROR");
        }
        match self {
            Verdict::Pass => "PASS",
            Verdict::Fail => "FAIL",
            Verdict::Missing => "MISSING",
            Verdict::Error => "ERROR",
        }
    }
}

pub open spec fn pass_word() -> Seq<char> {
    seq!['p', 'a', 's', 's']
}

pub open spec fn first_diff_word() -> Seq<char> {
    seq!['f', 'i', 'r', 's', 't', '_', 'd', 'i', 'f', 'f', '=']
}

/// `w` occurs in `s`.
pub open spec fn has_sub(s: Seq<char>, w: Seq<char>) -> bool {
    exists|i: int| #[trigger] starts_at(s, i, w)
}

/// The rest of the first token of `s[from..to]` that begins with `w`, as a
/// span, if any token does.
pub open spec fn first_prefixed(s: Seq<char>, from: int, to: int, w: Seq<char>) -> Option<(int, int)>
    decreases to - from,
{
    let t = token_at(s, from, to);
    if t.0 >= to || t.1 <= from || t.1 > to {
        None
    } else if t.1 - t.0 >= w.len() && s.subrange(t.0, t.0 + w.len()) == w {
        Some((t.0 + w.len(), t.1))
    } else {
        first_prefixed(s, t.1, to, w)
    }
}

/// The verdict and first differing frame read from `compare`'s output: a
/// pass when the trimmed output mentions `pass`; else a failure at the
/// frame after the first `first_diff=` token, or -1 when that is missing
/// or not an `i64`.
pub open spec fn verdict_spec(out: Seq<char>) -> (Verdict, int) {
    let t = trim_span(out, 0, out.len() as int);
    let line = out.subrange(t.0, t.1);
    if has_sub(line, pass_word()) {
        (Verdict::Pass, -1)
    } else {
        match first_prefixed(line, 0, line.len() as int, first_diff_word()) {
            None => (Verdict::Fail, -1),
            Some(sp) => match parse_signed64(line.subrange(sp.0, sp.1)) {
                Ok(v) => (Verdict::Fail, v),
                Err(_) => (Verdict::Fail, -1),
            },
        }
    }
}

fn contains_word(cs: &Vec<char>, w: &[char]) -> (r: bool)
    ensures
        r == has_sub(cs@, w@),
{
    if w.len() > cs.len() {
        proof {
            if has_sub(cs@, w@) {
                let i = choose|i: int| #[trigger] starts_at(cs@, i, w@);
            }
        }
        return false;
    }
    if w.len() == 0 {
        assert(cs@.subrange(0, 0) =~= w@);
        assert(starts_at(cs@, 0, w@));
        return true;
    }
    let last = cs.len() - w.len();
    let mut i: usize = 0;
    while i <= last
        invariant
            w.len() <= cs.len(),
            w.len() > 0,
            last == cs.len() - w.len(),
            i <= last + 1,
            forall|k: int| 0 <= k < i ==> !#[trigger] starts_at(cs@, k, w@),
        decreases last + 1 - i,
    {
        if span_is(cs.as_slice(), i, i + w.len(), w) {
            assert(starts_at(cs@, i as int, w@));
            return true;
        }
        i = i + 1;
    }
    proof {
        if has_sub(cs@, w@) {
            let k = choose|k: int| #[trigger] starts_at(cs@, k, w@);
            assert(k < i);
        }
    }
    false
}

/// Reads `compare`'s standard output back into a verdict and the first
/// differing frame (-1 when there is none to report).
pub fn compare_verdict(stdout: &str) -> (r: (Verdict, i64))
    ensures
        r.0 == verdict_spec(stdout@).0,
        r.1 as int == verdict_spec(stdout@).1,
{
    let all = chars_of(stdout);
    let (a, b) = trim(&all, 0, all.len());
    let mut line: Vec<char> = Vec::new();
    let mut k = a;
    while k < b
        invariant
            a <= k <= b <= all.len(),
            line@ == all@.subrange(a as int, k as int),
        decreases b - k,
    {
        line.push(all[k]);
        assert(all@.subrange(a as int, k as int + 1) =~= all@.subrange(a as int, k as int).push(all@[k as int]));
        k = k + 1;
    }
    let pass: [char; 4] = ['p', 'a', 's', 's'];
    let key: [char; 11] = ['f', 'i', 'r', 's', 't', '_', 'd', 'i', 'f', 'f', '='];
    assert(pass@ =~= pass_word());
    assert(key@ =~= first_diff_word());
    if contains_word(&line, &pass) {
        return (Verdict::Pass, -1);
    }
    let n = line.len();
    let mut from: usize = 0;
    proof {
        assert(line@ == stdout@.subrange(trim_span(stdout@, 0, stdout@.len() as int).0, trim_span(stdout@, 0, stdout@.len() as int).1));
    }
    while from < n
        invariant
            line@ == stdout@.subrange(trim_span(stdout@, 0, stdout@.len() as int).0, trim_span(stdout@, 0, stdout@.len() as int).1),
            !has_sub(line@, pass_word()),
            n == line@.len(),
            from <= n,
            key@ == first_diff_word(),
            first_prefixed(line@, 0, n as int, key@) == first_prefixed(line@, from as int, n as int, key@),
        decreases n - from,
    {
        let (t0, t1) = next_token(line.as_slice(), from, n);
        if t0 >= n || t1 <= from {
            return (Verdict::Fail, -1);
        }
        if t1 - t0 >= key.len() && span_is(line.as_slice(), t0, t0 + key.len(), &key) {
            return match parse_i64(line.as_slice(), t0 + key.len(), t1) {
                Ok(v) => (Verdict::Fail, v),
                Err(_) => (Verdict::Fail, -1),
            };
        }
        from = t1;
    }
    (Verdict::Fail, -1)
}

// ---------------------------------------------------------------------
// The verdict law.
// ---------------------------------------------------------------------

/// Every character of a decimal rendering is a digit.
pub(crate) proof fn lemma_dec_digits(v: nat)
    ensures
        dec_chars(v).len() >= 1,
        forall|k: int| 0 <= k < dec_chars(v).len() ==> 0x30 <= #[trigger] (dec_chars(v)[k] as u32) <= 0x39,
    decreases v,
{
    if v >= 10 {
        lemma_dec_digits(v / 10);
        let d = dec_chars(v / 10);
        assert forall|k: int| 0 <= k < dec_chars(v).len() implies 0x30 <= #[trigger] (dec_chars(v)[k] as u32) <= 0x39 by {
            if k < d.len() {
                assert(dec_chars(v)[k] == d[k]);
            }
        }
    }
}

/// Folding the decimal rendering of `v` gives `v` back, or overflows when
/// `v` is past the bound.
pub(crate) proof fn lemma_dec_roundtrip(v: nat, bound: int, ov: IntErrorKind)
    requires
        bound >= 9,
    ensures
        v <= bound ==> digits_value(dec_chars(v), 10, bound, ov) == Ok::<int, IntErrorKind>(v as int),
        v > bound ==> digits_value(dec_chars(v), 10, bound, ov) == Err::<int, IntErrorKind>(ov),
    decreases v,
{
    let s = dec_chars(v);
    if v < 10 {
        assert(s.drop_last() =~= Seq::<char>::empty());
        assert(digit_value(s.last(), 10) == Some(v as int));
    } else {
        lemma_dec_roundtrip(v / 10, bound, ov);
        assert(s.drop_last() =~= dec_chars(v / 10));
        assert(digit_value(s.last(), 10) == Some((v % 10) as int));
        assert((v / 10) * 10 + v % 10 == v);
        if v / 10 > bound {
            assert(v > bound);
        }
    }
}

/// `scan` stops at the first index where the test holds.
pub(crate) proof fn lemma_scan_is(s: Seq<char>, i: int, j: int, to: int, p: spec_fn(char) -> bool)
    requires
        i <= j <= to,
        forall|k: int| i <= k < j ==> !p(#[trigger] s[k]),
        j < to ==> p(s[j]),
    ensures
        scan(s, i, to, p) == j,
    decreases j - i,
{
    if i < j {
        lemma_scan_is(s, i + 1, j, to, p);
    }
}

proof fn lemma_pass_line(frames: u64)
    ensures
        has_sub(pass_line_spec(frames), pass_word()),
        trim_span(pass_line_spec(frames), 0, pass_line_spec(frames).len() as int) == (0int, pass_line_spec(frames).len() as int),
{
    let l = pass_line_spec(frames);
    let d = dec_chars(frames as nat);
    reveal_strlit("RESULT: pass frames=");
    lemma_dec_digits(frames as nat);
    assert(l.subrange(8, 12) =~= pass_word());
    assert(starts_at(l, 8, pass_word()));
    lemma_trim_whole(l);
}

/// A line that starts and ends with a non-space is its own trim.
proof fn lemma_trim_whole(l: Seq<char>)
    requires
        l.len() > 0,
        !is_ws(l[0]),
        !is_ws(l[l.len() - 1]),
    ensures
        trim_span(l, 0, l.len() as int) == (0int, l.len() as int),
{
    lemma_scan_is(l, 0, 0, l.len() as int, not_ws());
    assert(rscan(l, 0, l.len() as int, not_ws()) == l.len());
}

proof fn lemma_fail_line(frames: u64, first: u64, count: u64)
    ensures
        !has_sub(fail_line_spec(frames, first, count), pass_word()),
        trim_span(fail_line_spec(frames, first, count), 0, fail_line_spec(frames, first, count).len() as int) == (
            0int,
            fail_line_spec(frames, first, count).len() as int,
        ),
        ({
            let l = fail_line_spec(frames, first, count);
            let d1 = dec_chars(frames as nat);
            let d2 = dec_chars(first as nat);
            first_prefixed(l, 0, l.len() as int, first_diff_word()) == Some((32 + d1.len() as int, 32 + d1.len() + d2.len() as int))
        }),
        ({
            let l = fail_line_spec(frames, first, count);
            let d1 = dec_chars(frames as nat);
            let d2 = dec_chars(first as nat);
            l.subrange(32 + d1.len() as int, 32 + d1.len() + d2.len() as int) == d2
        }),
{
    let l = fail_line_spec(frames, first, count);
    let d1 = dec_chars(frames as nat);
    let d2 = dec_chars(first as nat);
    let d3 = dec_chars(count as nat);
    let p1 = "RESULT: fail frames="@;
    let p2 = " first_diff="@;
    let p3 = " diff_count="@;
    reveal_strlit("RESULT: fail frames=");
    reveal_strlit(" first_diff=");
    reveal_strlit(" diff_count=");
    lemma_dec_digits(frames as nat);
    lemma_dec_digits(first as nat);
    lemma_dec_digits(count as nat);
    let o1 = p1.len() as int;
    let o2 = o1 + d1.len();
    let o3 = o2 + p2.len();
    let o4 = o3 + d2.len();
    let o5 = o4 + p3.len();
    assert(l =~= p1 + d1 + p2 + d2 + p3 + d3);
    assert(o1 == 20 && p2.len() == 12 && p3.len() == 12);
    assert forall|k: int| 0 <= k < l.len() implies #[trigger] l[k] == if k < o1 {
        p1[k]
    } else if k < o2 {
        d1[k - o1]
    } else if k < o3 {
        p2[k - o2]
    } else if k < o4 {
        d2[k - o3]
    } else if k < o5 {
        p3[k - o4]
    } else {
        d3[k - o5]
    } by {}
    // no 'p' anywhere
    assert forall|i: int| !#[trigger] starts_at(l, i, pass_word()) by {
        if starts_at(l, i, pass_word()) {
            assert(l.subrange(i, i + 4)[0] == 'p');
            assert(l[i] == 'p');
            if i >= o1 && i < o2 {
                assert(0x30 <= (d1[i - o1] as u32) <= 0x39);
            } else if i >= o3 && i < o4 {
                assert(0x30 <= (d2[i - o3] as u32) <= 0x39);
            } else if i >= o5 {
                assert(0x30 <= (d3[i - o5] as u32) <= 0x39);
            }
        }
    }
    // trimmed
    assert(0x30 <= (d3[d3.len() - 1] as u32) <= 0x39);
    assert(l[l.len() - 1] == d3[d3.len() - 1]);
    lemma_trim_whole(l);
    // tokens: "RESULT:" [0,7), "fail" [8,12), "frames=D1" [13,o2), "first_diff=D2" [o2+1, o4)
    let len = l.len() as int;
    lemma_scan_is(l, 0, 0, len, not_ws());
    lemma_scan_is(l, 0, 7, len, ws());
    assert(token_at(l, 0, len) == (0int, 7int));
    lemma_scan_is(l, 7, 8, len, not_ws());
    lemma_scan_is(l, 8, 12, len, ws());
    assert(token_at(l, 7, len) == (8int, 12int));
    lemma_scan_is(l, 12, 13, len, not_ws());
    assert forall|k: int| 13 <= k < o2 implies !ws()(#[trigger] l[k]) by {
        if k >= o1 {
            assert(0x30 <= (d1[k - o1] as u32) <= 0x39);
        }
    }
    lemma_scan_is(l, 13, o2, len, ws());
    assert(token_at(l, 12, len) == (13int, o2));
    assert(l[14] == 'r');
    assert(!(l.subrange(13int, 24int) == first_diff_word())) by {
        assert(l.subrange(13int, 24int)[1] == 'r');
    }
    lemma_scan_is(l, o2, o2 + 1, len, not_ws());
    assert forall|k: int| o2 + 1 <= k < o4 implies !ws()(#[trigger] l[k]) by {
        if k >= o3 {
            assert(0x30 <= (d2[k - o3] as u32) <= 0x39);
        }
    }
    lemma_scan_is(l, o2 + 1, o4, len, ws());
    assert(token_at(l, o2, len) == (o2 + 1, o4));
    assert(l.subrange(o2 + 1, o2 + 1 + 11) =~= first_diff_word());
    assert(first_prefixed(l, o2, len, first_diff_word()) == Some((o2 + 12, o4)));
    assert(first_prefixed(l, 12, len, first_diff_word()) == Some((o2 + 12, o4)));
    assert(first_prefixed(l, 7, len, first_diff_word()) == Some((o2 + 12, o4)));
    assert(first_prefixed(l, 0, len, first_diff_word()) == Some((o2 + 12, o4)));
    assert(l.subrange(o3, o4) =~= d2);
}

/// What `compare` prints, the orchestrator reads back: a passing
/// comparison is read as a pass; a failing one as a failure at its first
/// differing frame (as -1 when that frame does not fit an `i64`).
pub proof fn lemma_verdict_roundtrip(s: CompareSummary)
    ensures
        s.first_diff is None ==> verdict_spec(result_line_spec(s)) == (Verdict::Pass, -1int),
        s.first_diff matches Some(f) ==> verdict_spec(result_line_spec(s)) == (
            Verdict::Fail,
            if f <= i64::MAX { f as int } else { -1int },
        ),
{
    match s.first_diff {
        None => {
            lemma_pass_line(s.frames);
            let l = pass_line_spec(s.frames);
            assert(l.subrange(0, l.len() as int) =~= l);
        },
        Some(f) => {
            lemma_fail_line(s.frames, f, s.diff_count);
            let l = fail_line_spec(s.frames, f, s.diff_count);
            assert(l.subrange(0, l.len() as int) =~= l);
            let d2 = dec_chars(f as nat);
            lemma_dec_digits(f as nat);
            lemma_dec_roundtrip(f as nat, 0x7fff_ffff_ffff_ffff, IntErrorKind::PosOverflow);
            assert(d2[0] != '+' && d2[0] != '-') by {
                assert(0x30 <= (d2[0] as u32) <= 0x39);
            }
        },
    }
}

} // verus!
