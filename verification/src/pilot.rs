//! The pilot's input scripts: a keypad schedule replayed against the
//! deterministic core, one directive per line (`#` comments):
//!
//! ```text
//! hold <frame> <KEYS|->    set the held keypad from this frame ('-' none)
//! tap <frame> <KEYS>       press KEYS for 2 frames on top of the current
//!                          hold, then release back to it
//! end <frame>              total frames to run (required, last)
//! ```
//!
//! KEYS is `+`-joined from A B START SELECT UP DOWN LEFT RIGHT L R.
use vstd::prelude::*;
use crate::num::{digit_value, digits_value, parse_uint, parse_unsigned, IntErrorKind};
use crate::hex::{hex_digit, is_hex_lower, lemma_hex_digit};
use crate::report::{hex_lower_num_chars, pad_left};
use crate::text::{is_ws, not_ws, rscan};
use crate::verdict::lemma_scan_is;
use crate::text::{chars_of, eq_char, find_char, lines, line_spans, next_token, scan, span_is, string_of_span,
    token_at, trim, trim_span, lemma_scan_facts};

verus! {

/// The keypad bit of a key name.
pub open spec fn key_bit_spec(name: Seq<char>) -> Option<u16> {
    if name == seq!['A'] {
        Some(1u16)
    } else if name == seq!['B'] {
        Some(2u16)
    } else if name == seq!['S', 'E', 'L', 'E', 'C', 'T'] {
        Some(4u16)
    } else if name == seq!['S', 'T', 'A', 'R', 'T'] {
        Some(8u16)
    } else if name == seq!['R', 'I', 'G', 'H', 'T'] {
        Some(16u16)
    } else if name == seq!['L', 'E', 'F', 'T'] {
        Some(32u16)
    } else if name == seq!['U', 'P'] {
        Some(64u16)
    } else if name == seq!['D', 'O', 'W', 'N'] {
        Some(128u16)
    } else if name == seq!['R'] {
        Some(256u16)
    } else if name == seq!['L'] {
        Some(512u16)
    } else {
        None
    }
}

/// Each key name has its GBA KEYINPUT bit: A is bit 0, B bit 1, SELECT
/// bit 2, START bit 3, RIGHT bit 4, LEFT bit 5, UP bit 6, DOWN bit 7, R
/// bit 8 and L bit 9.
pub proof fn lemma_keyinput_bits()
    ensures
        key_bit_spec(seq!['A']) == Some(0x001u16),
        key_bit_spec(seq!['B']) == Some(0x002u16),
        key_bit_spec(seq!['S', 'E', 'L', 'E', 'C', 'T']) == Some(0x004u16),
        key_bit_spec(seq!['S', 'T', 'A', 'R', 'T']) == Some(0x008u16),
        key_bit_spec(seq!['R', 'I', 'G', 'H', 'T']) == Some(0x010u16),
        key_bit_spec(seq!['L', 'E', 'F', 'T']) == Some(0x020u16),
        key_bit_spec(seq!['U', 'P']) == Some(0x040u16),
        key_bit_spec(seq!['D', 'O', 'W', 'N']) == Some(0x080u16),
        key_bit_spec(seq!['R']) == Some(0x100u16),
        key_bit_spec(seq!['L']) == Some(0x200u16),
{
    assert(seq!['B'][0] != seq!['A'][0]);
    assert(seq!['S', 'E', 'L', 'E', 'C', 'T'].len() != seq!['A'].len());
    assert(seq!['S', 'E', 'L', 'E', 'C', 'T'].len() != seq!['B'].len());
    assert(seq!['S', 'T', 'A', 'R', 'T'].len() != seq!['A'].len());
    assert(seq!['S', 'T', 'A', 'R', 'T'].len() != seq!['B'].len());
    assert(seq!['S', 'T', 'A', 'R', 'T'].len() != seq!['S', 'E', 'L', 'E', 'C', 'T'].len());
    assert(seq!['R', 'I', 'G', 'H', 'T'].len() != seq!['A'].len());
    assert(seq!['R', 'I', 'G', 'H', 'T'].len() != seq!['B'].len());
    assert(seq!['R', 'I', 'G', 'H', 'T'].len() != seq!['S', 'E', 'L', 'E', 'C', 'T'].len());
    assert(seq!['R', 'I', 'G', 'H', 'T'][0] != seq!['S', 'T', 'A', 'R', 'T'][0]);
    assert(seq!['L', 'E', 'F', 'T'].len() != seq!['A'].len());
    assert(seq!['L', 'E', 'F', 'T'].len() != seq!['B'].len());
    assert(seq!['L', 'E', 'F', 'T'].len() != seq!['S', 'E', 'L', 'E', 'C', 'T'].len());
    assert(seq!['L', 'E', 'F', 'T'].len() != seq!['S', 'T', 'A', 'R', 'T'].len());
    assert(seq!['L', 'E', 'F', 'T'].len() != seq!['R', 'I', 'G', 'H', 'T'].len());
    assert(seq!['U', 'P'].len() != seq!['A'].len());
    assert(seq!['U', 'P'].len() != seq!['B'].len());
    assert(seq!['U', 'P'].len() != seq!['S', 'E', 'L', 'E', 'C', 'T'].len());
    assert(seq!['U', 'P'].len() != seq!['S', 'T', 'A', 'R', 'T'].len());
    assert(seq!['U', 'P'].len() != seq!['R', 'I', 'G', 'H', 'T'].len());
    assert(seq!['U', 'P'].len() != seq!['L', 'E', 'F', 'T'].len());
    assert(seq!['D', 'O', 'W', 'N'].len() != seq!['A'].len());
    assert(seq!['D', 'O', 'W', 'N'].len() != seq!['B'].len());
    assert(seq!['D', 'O', 'W', 'N'].len() != seq!['S', 'E', 'L', 'E', 'C', 'T'].len());
    assert(seq!['D', 'O', 'W', 'N'].len() != seq!['S', 'T', 'A', 'R', 'T'].len());
    assert(seq!['D', 'O', 'W', 'N'].len() != seq!['R', 'I', 'G', 'H', 'T'].len());
    assert(seq!['D', 'O', 'W', 'N'][0] != seq!['L', 'E', 'F', 'T'][0]);
    assert(seq!['D', 'O', 'W', 'N'].len() != seq!['U', 'P'].len());
    assert(seq!['R'][0] != seq!['A'][0]);
    assert(seq!['R'][0] != seq!['B'][0]);
    assert(seq!['R'].len() != seq!['S', 'E', 'L', 'E', 'C', 'T'].len());
    assert(seq!['R'].len() != seq!['S', 'T', 'A', 'R', 'T'].len());
    assert(seq!['R'].len() != seq!['R', 'I', 'G', 'H', 'T'].len());
    assert(seq!['R'].len() != seq!['L', 'E', 'F', 'T'].len());
    assert(seq!['R'].len() != seq!['U', 'P'].len());
    assert(seq!['R'].len() != seq!['D', 'O', 'W', 'N'].len());
    assert(seq!['L'][0] != seq!['A'][0]);
    assert(seq!['L'][0] != seq!['B'][0]);
    assert(seq!['L'].len() != seq!['S', 'E', 'L', 'E', 'C', 'T'].len());
    assert(seq!['L'].len() != seq!['S', 'T', 'A', 'R', 'T'].len());
    assert(seq!['L'].len() != seq!['R', 'I', 'G', 'H', 'T'].len());
    assert(seq!['L'].len() != seq!['L', 'E', 'F', 'T'].len());
    assert(seq!['L'].len() != seq!['U', 'P'].len());
    assert(seq!['L'].len() != seq!['D', 'O', 'W', 'N'].len());
    assert(seq!['L'][0] != seq!['R'][0]);
}

/// The keypad bit of `cs[from..to]`.
fn key_bit_span(cs: &[char], from: usize, to: usize) -> (r: Option<u16>)
    requires
        from <= to <= cs.len(),
    ensures
        r == key_bit_spec(cs@.subrange(from as int, to as int)),
{
    let a: [char; 1] = ['A'];
    let b: [char; 1] = ['B'];
    let select: [char; 6] = ['S', 'E', 'L', 'E', 'C', 'T'];
    let start: [char; 5] = ['S', 'T', 'A', 'R', 'T'];
    let right: [char; 5] = ['R', 'I', 'G', 'H', 'T'];
    let left: [char; 4] = ['L', 'E', 'F', 'T'];
    let up: [char; 2] = ['U', 'P'];
    let down: [char; 4] = ['D', 'O', 'W', 'N'];
    let r: [char; 1] = ['R'];
    let l: [char; 1] = ['L'];
    assert(a@ =~= seq!['A']);
    assert(b@ =~= seq!['B']);
    assert(select@ =~= seq!['S', 'E', 'L', 'E', 'C', 'T']);
    assert(start@ =~= seq!['S', 'T', 'A', 'R', 'T']);
    assert(right@ =~= seq!['R', 'I', 'G', 'H', 'T']);
    assert(left@ =~= seq!['L', 'E', 'F', 'T']);
    assert(up@ =~= seq!['U', 'P']);
    assert(down@ =~= seq!['D', 'O', 'W', 'N']);
    assert(r@ =~= seq!['R']);
    assert(l@ =~= seq!['L']);
    if span_is(cs, from, to, &a) {
        Some(1)
    } else if span_is(cs, from, to, &b) {
        Some(2)
    } else if span_is(cs, from, to, &select) {
        Some(4)
    } else if span_is(cs, from, to, &start) {
        Some(8)
    } else if span_is(cs, from, to, &right) {
        Some(16)
    } else if span_is(cs, from, to, &left) {
        Some(32)
    } else if span_is(cs, from, to, &up) {
        Some(64)
    } else if span_is(cs, from, to, &down) {
        Some(128)
    } else if span_is(cs, from, to, &r) {
        Some(256)
    } else if span_is(cs, from, to, &l) {
        Some(512)
    } else {
        None
    }
}

/// The keypad bit of a key name, or the name refused.
pub fn key_bit(name: &str) -> (r: Result<u16, String>)
    ensures
        match key_bit_spec(name@) {
            Some(v) => r == Ok::<u16, String>(v),
            None => r matches Err(n) && n@ == name@,
        },
{
    let cs = chars_of(name);
    assert(cs@.subrange(0, cs.len() as int) =~= cs@);
    match key_bit_span(&cs, 0, cs.len()) {
        Some(v) => Ok(v),
        None => Err(string_of_span(&cs, 0, cs.len())),
    }
}

/// The keypad mask of `+`-joined key names in `s[from..to]`, folded from
/// the left; the first unknown name is refused.
pub open spec fn keys_from(s: Seq<char>, from: int, to: int, acc: u16) -> Result<u16, Seq<char>>
    decreases to - from,
{
    let p = scan(s, from, to, eq_char('+'));
    if from > to || p < from || p > to {
        Err(Seq::empty())
    } else {
        match key_bit_spec(s.subrange(from, p)) {
            None => Err(s.subrange(from, p)),
            Some(bit) => if p >= to {
                Ok(acc | bit)
            } else {
                keys_from(s, p + 1, to, acc | bit)
            },
        }
    }
}

/// A KEYS field: `-` for none, else `+`-joined key names.
pub open spec fn keys_spec(s: Seq<char>, from: int, to: int) -> Result<u16, Seq<char>> {
    if s.subrange(from, to) == seq!['-'] {
        Ok(0u16)
    } else {
        keys_from(s, from, to, 0)
    }
}

/// Parses the KEYS field `cs[from..to]`.
fn keys_span(cs: &[char], from: usize, to: usize) -> (r: Result<u16, String>)
    requires
        from <= to <= cs.len(),
    ensures
        match keys_spec(cs@, from as int, to as int) {
            Ok(v) => r == Ok::<u16, String>(v),
            Err(n) => r matches Err(e) && e@ == n,
        },
{
    let dash: [char; 1] = ['-'];
    assert(dash@ =~= seq!['-']);
    if span_is(cs, from, to, &dash) {
        return Ok(0);
    }
    let mut acc: u16 = 0;
    let mut a = from;
    loop
        invariant
            from <= a <= to <= cs.len(),
            keys_spec(cs@, from as int, to as int) == keys_from(cs@, a as int, to as int, acc),
        decreases to - a,
    {
        let p = find_char(cs, a, to, '+');
        proof {
            lemma_scan_facts(cs@, a as int, to as int, eq_char('+'));
        }
        match key_bit_span(cs, a, p) {
            None => {
                return Err(string_of_span(cs, a, p));
            },
            Some(bit) => {
                acc = acc | bit;
                if p >= to {
                    return Ok(acc);
                }
                a = p + 1;
            },
        }
    }
}

/// The keypad mask of a KEYS spec (`-` for none).
pub fn parse_keys(spec: &str) -> (r: Result<u16, String>)
    ensures
        match keys_spec(spec@, 0, spec@.len() as int) {
            Ok(v) => r == Ok::<u16, String>(v),
            Err(n) => r matches Err(e) && e@ == n,
        },
{
    let cs = chars_of(spec);
    keys_span(&cs, 0, cs.len())
}

/// A parsed script: keypad states by frame, and the frame count to run.
pub struct Script {
    /// (frame, absolute key state), frames non-decreasing.
    pub changes: Vec<(u64, u16)>,
    pub end: u64,
}

/// Why a script line was refused.
pub enum ScriptErrorKind {
    MissingFrame,
    BadFrame,
    NonDecreasing,
    MissingKeys,
    /// A key name that is not one of the ten.
    UnknownKey(String),
    UnknownDirective,
    /// A directive after the `end` line.
    AfterEnd,
}

/// A refused script: the line (from 1) and its raw text, or no `end`.
pub enum ScriptError {
    Line { line: usize, raw: String, kind: ScriptErrorKind },
    NoEnd,
}

/// The state of reading a script so far.
pub struct ParseState {
    pub changes: Seq<(u64, u16)>,
    pub held: u16,
    pub end: Option<u64>,
}

/// How one line left the reading: on, refused (with the refusal's kind,
/// the unknown key named where there is one), or past the last frame
/// number (a `tap` at a frame that has no frame two after it).
pub enum LineOutcome {
    Next(ParseState),
    Refused(int, Option<Seq<char>>),
    Overflow,
}

pub open spec fn hold_word() -> Seq<char> {
    seq!['h', 'o', 'l', 'd']
}

pub open spec fn tap_word() -> Seq<char> {
    seq!['t', 'a', 'p']
}

pub open spec fn end_word() -> Seq<char> {
    seq!['e', 'n', 'd']
}

/// Refusal kinds, numbered in `ScriptErrorKind` order.
pub open spec fn kind_index(k: ScriptErrorKind) -> int {
    match k {
        ScriptErrorKind::MissingFrame => 0,
        ScriptErrorKind::BadFrame => 1,
        ScriptErrorKind::NonDecreasing => 2,
        ScriptErrorKind::MissingKeys => 3,
        ScriptErrorKind::UnknownKey(_) => 4,
        ScriptErrorKind::UnknownDirective => 5,
        ScriptErrorKind::AfterEnd => 6,
    }
}

/// One line `s[a..b]` read against the state: the text before any `#`,
/// trimmed; skipped when empty; refused after the `end` line; else verb,
/// frame (non-decreasing against the last change), then by verb.
pub open spec fn script_line(s: Seq<char>, a: int, b: int, st: ParseState) -> LineOutcome {
    let h = scan(s, a, b, eq_char('#'));
    let t = trim_span(s, a, h);
    let verb = token_at(s, t.0, t.1);
    let ft = token_at(s, verb.1, t.1);
    let kt = token_at(s, ft.1, t.1);
    let frame = parse_unsigned(s.subrange(ft.0, ft.1), 10, u64::MAX as int);
    let v = s.subrange(verb.0, verb.1);
    if t.0 >= t.1 {
        LineOutcome::Next(st)
    } else if st.end is Some {
        LineOutcome::Refused(6, None)
    } else if ft.0 >= t.1 {
        LineOutcome::Refused(0, None)
    } else if frame is Err {
        LineOutcome::Refused(1, None)
    } else if st.changes.len() > 0 && frame->Ok_0 < st.changes.last().0 {
        LineOutcome::Refused(2, None)
    } else if v == hold_word() || v == tap_word() {
        if kt.0 >= t.1 {
            LineOutcome::Refused(3, None)
        } else {
            match keys_spec(s, kt.0, kt.1) {
                Err(n) => LineOutcome::Refused(4, Some(n)),
                Ok(keys) => if v == hold_word() {
                    LineOutcome::Next(ParseState { changes: st.changes.push((frame->Ok_0 as u64, keys)), held: keys, end: st.end })
                } else if frame->Ok_0 + 2 > u64::MAX {
                    LineOutcome::Overflow
                } else {
                    LineOutcome::Next(ParseState {
                        changes: st.changes.push((frame->Ok_0 as u64, st.held | keys)).push(((frame->Ok_0 + 2) as u64, st.held)),
                        held: st.held,
                        end: st.end,
                    })
                },
            }
        }
    } else if v == end_word() {
        LineOutcome::Next(ParseState { changes: st.changes, held: st.held, end: Some(frame->Ok_0 as u64) })
    } else {
        LineOutcome::Refused(5, None)
    }
}

/// The outcome of reading the lines `spans` of `s` in order: the state
/// after all of them, or the first refused line (numbered from 1).
pub enum ScriptOutcome {
    Read(ParseState),
    RefusedAt(int, int, Option<Seq<char>>),
    Overflow,
}

pub open spec fn script_lines(s: Seq<char>, spans: Seq<(int, int)>) -> ScriptOutcome
    decreases spans.len(),
{
    if spans.len() == 0 {
        ScriptOutcome::Read(ParseState { changes: Seq::empty(), held: 0, end: None })
    } else {
        match script_lines(s, spans.drop_last()) {
            ScriptOutcome::Read(st) => match script_line(s, spans.last().0, spans.last().1, st) {
                LineOutcome::Next(st2) => ScriptOutcome::Read(st2),
                LineOutcome::Refused(k, n) => ScriptOutcome::RefusedAt(spans.len() as int, k, n),
                LineOutcome::Overflow => ScriptOutcome::Overflow,
            },
            other => other,
        }
    }
}

/// Reading a whole script text.
pub open spec fn script_outcome(text: Seq<char>) -> ScriptOutcome {
    script_lines(text, line_spans(text, 0))
}

proof fn lemma_script_stops(s: Seq<char>, spans: Seq<(int, int)>, k: int)
    requires
        0 <= k <= spans.len(),
        !(script_lines(s, spans.take(k)) is Read),
    ensures
        script_lines(s, spans) == script_lines(s, spans.take(k)),
    decreases spans.len() - k,
{
    if k < spans.len() {
        assert(spans.take(k + 1).drop_last() =~= spans.take(k));
        lemma_script_stops(s, spans, k + 1);
    } else {
        assert(spans.take(k) =~= spans);
    }
}

/// The keypad changes are in frame order.
pub open spec fn frames_nondecreasing(c: Seq<(u64, u16)>) -> bool {
    forall|i: int, j: int| 0 <= i <= j < c.len() ==> (#[trigger] c[i]).0 <= (#[trigger] c[j]).0
}

/// What reading a script text comes to: the script, the refusal, or, when
/// a `tap` would schedule its release past the largest frame number,
/// nothing.
pub open spec fn read_script_ok(text: Seq<char>, r: Option<Result<Script, ScriptError>>) -> bool {
    match script_outcome(text) {
        ScriptOutcome::Read(st) => match st.end {
            Some(e) => r matches Some(Ok(sc)) && sc.changes@ == st.changes && sc.end == e,
            None => r matches Some(Err(ScriptError::NoEnd)),
        },
        ScriptOutcome::RefusedAt(line, k, n) => r matches Some(Err(ScriptError::Line { line: l, raw, kind }))
            && l == line && kind_index(kind) == k && (kind matches ScriptErrorKind::UnknownKey(name) ==> n == Some(name@))
            && raw@ == text.subrange(line_spans(text, 0)[line - 1].0, line_spans(text, 0)[line - 1].1),
        ScriptOutcome::Overflow => r is None,
    }
}

/// Parses a pilot script. Scripts whose `tap` would schedule a release past
/// the largest frame number are outside what can be run; `read_script`
/// tells them apart.
pub fn parse_script(text: &str) -> (r: Result<Script, ScriptError>)
    requires
        !(script_outcome(text@) is Overflow),
    ensures
        read_script_ok(text@, Some(r)),
        r matches Ok(sc) ==> frames_nondecreasing(sc.changes@),
{
    match read_script(text) {
        Some(r) => r,
        None => Err(ScriptError::NoEnd),
    }
}

/// Reads a pilot script: `None` when a `tap` would schedule its release
/// past the largest frame number, else what `parse_script` gives.
pub fn read_script(text: &str) -> (r: Option<Result<Script, ScriptError>>)
    ensures
        read_script_ok(text@, r),
        r matches Some(Ok(sc)) ==> frames_nondecreasing(sc.changes@),
{
    let cs = chars_of(text);
    let spans = lines(&cs);
    let ghost sp = line_spans(cs@, 0);
    let hold: [char; 4] = ['h', 'o', 'l', 'd'];
    let tap: [char; 3] = ['t', 'a', 'p'];
    let end_w: [char; 3] = ['e', 'n', 'd'];
    assert(hold@ =~= hold_word());
    assert(tap@ =~= tap_word());
    assert(end_w@ =~= end_word());
    let mut changes: Vec<(u64, u16)> = Vec::new();
    let mut held: u16 = 0;
    let mut end: Option<u64> = None;
    let mut k: usize = 0;
    assert(sp.take(0) =~= Seq::<(int, int)>::empty());
    while k < spans.len()
        invariant
            cs@ == text@,
            sp == line_spans(cs@, 0),
            hold@ == hold_word(),
            tap@ == tap_word(),
            end_w@ == end_word(),
            spans@.len() == sp.len(),
            forall|j: int| 0 <= j < spans@.len() ==> (#[trigger] spans@[j]).0 == sp[j].0 && spans@[j].1 == sp[j].1,
            forall|j: int| 0 <= j < spans@.len() ==> (#[trigger] spans@[j]).0 <= spans@[j].1 <= cs@.len(),
            k <= spans.len(),
            frames_nondecreasing(changes@),
            script_lines(cs@, sp.take(k as int)) == ScriptOutcome::Read(ParseState { changes: changes@, held, end }),
        decreases spans.len() - k,
    {
        let (a, b) = spans[k];
        let ghost st = ParseState { changes: changes@, held, end };
        assert(sp.take(k as int + 1).drop_last() =~= sp.take(k as int));
        assert(sp.take(k as int + 1).last() == sp[k as int]);
        let h = find_char(&cs, a, b, '#');
        proof {
            lemma_scan_facts(cs@, a as int, b as int, eq_char('#'));
        }
        let (ta, tb) = trim(&cs, a, h);
        if ta >= tb {
            k = k + 1;
            continue;
        }
        let ln = k + 1;
        if end.is_some() {
            proof { lemma_script_stops(cs@, sp, k as int + 1); }
            return Some(Err(ScriptError::Line { line: ln, raw: string_of_span(&cs, a, b), kind: ScriptErrorKind::AfterEnd }));
        }
        let (va, vb) = next_token(&cs, ta, tb);
        let (fa, fb) = next_token(&cs, vb, tb);
        if fa >= tb {
            proof { lemma_script_stops(cs@, sp, k as int + 1); }
            return Some(Err(ScriptError::Line { line: ln, raw: string_of_span(&cs, a, b), kind: ScriptErrorKind::MissingFrame }));
        }
        let frame = match parse_uint(&cs, fa, fb, 10, u64::MAX) {
            Ok(v) => v,
            Err(_) => {
                proof { lemma_script_stops(cs@, sp, k as int + 1); }
                return Some(Err(ScriptError::Line { line: ln, raw: string_of_span(&cs, a, b), kind: ScriptErrorKind::BadFrame }));
            },
        };
        if changes.len() > 0 && frame < changes[changes.len() - 1].0 {
            proof { lemma_script_stops(cs@, sp, k as int + 1); }
            return Some(Err(ScriptError::Line { line: ln, raw: string_of_span(&cs, a, b), kind: ScriptErrorKind::NonDecreasing }));
        }
        let is_hold = span_is(&cs, va, vb, &hold);
        let is_tap = span_is(&cs, va, vb, &tap);
        if is_hold || is_tap {
            let (ka, kb) = next_token(&cs, fb, tb);
            if ka >= tb {
                proof { lemma_script_stops(cs@, sp, k as int + 1); }
                return Some(Err(ScriptError::Line { line: ln, raw: string_of_span(&cs, a, b), kind: ScriptErrorKind::MissingKeys }));
            }
            let keys = match keys_span(&cs, ka, kb) {
                Ok(v) => v,
                Err(name) => {
                    proof { lemma_script_stops(cs@, sp, k as int + 1); }
                    return Some(Err(ScriptError::Line { line: ln, raw: string_of_span(&cs, a, b), kind: ScriptErrorKind::UnknownKey(name) }));
                },
            };
            if is_hold {
                held = keys;
                changes.push((frame, keys));
            } else {
                if frame > u64::MAX - 2 {
                    proof {
                        assert(script_line(cs@, a as int, b as int, st) is Overflow);
                        lemma_script_stops(cs@, sp, k as int + 1);
                    }
                    return None;
                }
                changes.push((frame, held | keys));
                changes.push((frame + 2, held));
            }
        } else if span_is(&cs, va, vb, &end_w) {
            end = Some(frame);
        } else {
            proof { lemma_script_stops(cs@, sp, k as int + 1); }
            return Some(Err(ScriptError::Line { line: ln, raw: string_of_span(&cs, a, b), kind: ScriptErrorKind::UnknownDirective }));
        }
        k = k + 1;
    }
    assert(sp.take(spans.len() as int) =~= sp);
    match end {
        Some(e) => Some(Ok(Script { changes, end: e })),
        None => Some(Err(ScriptError::NoEnd)),
    }
}


/// The value after the first `name` among the arguments, if `name` is given.
pub open spec fn arg_spec(args: Seq<Seq<char>>, name: Seq<char>) -> Option<Seq<char>> {
    if args.contains(name) {
        let i = choose|i: int| 0 <= i < args.len() && args[i] == name && forall|j: int| 0 <= j < i ==> args[j] != name;
        Some(args[i + 1])
    } else {
        None
    }
}

/// A flag given last, with no value after it.
pub open spec fn flag_without_value(args: Seq<Seq<char>>, name: Seq<char>) -> bool {
    exists|i: int| #![trigger args[i]] 0 <= i < args.len() && args[i] == name && i + 1 == args.len() && forall|j: int| 0 <= j < i ==> args[j] != name
}

/// The value of the command-line flag `name`: the argument after its first
/// occurrence. A flag given as the last argument has no value; callers
/// refuse that before asking.
pub fn arg(args: &[String], name: &str) -> (r: Option<String>)
    requires
        !flag_without_value(crate::strorder::views(args@), name@),
    ensures
        match arg_spec(crate::strorder::views(args@), name@) {
            Some(v) => r matches Some(s) && s@ == v,
            None => r is None,
        },
{
    let ghost av = crate::strorder::views(args@);
    let target = crate::text::string_of(chars_of(name).as_slice());
    let mut i: usize = 0;
    while i < args.len()
        invariant
            i <= args.len(),
            av == crate::strorder::views(args@),
            target@ == name@,
            !flag_without_value(av, name@),
            forall|j: int| 0 <= j < i ==> av[j] != name@,
        decreases args.len() - i,
    {
        if args[i] == target {
            assert(av[i as int] == name@);
            proof {
                let c = choose|c: int| 0 <= c < av.len() && av[c] == name@ && forall|j: int| 0 <= j < c ==> av[j] != name@;
                if c < i {
                } else if c > i {
                    assert(av[i as int] != name@);
                }
                assert(c == i);
                if i + 1 == args.len() {
                    assert(av[i as int] == name@ && i + 1 == av.len());
                    assert(flag_without_value(av, name@));
                    assert(false);
                }
            }
            return Some(args[i + 1].clone());
        }
        i = i + 1;
    }
    proof {
        if av.contains(name@) {
            let c = choose|c: int| 0 <= c < av.len() && av[c] == name@;
        }
    }
    None
}

/// How far the schedule's changes for `frame` run: from `next`, the index
/// past the changes at exactly this frame (the keypad is set to each in
/// turn before the frame runs).
pub fn due_changes(changes: &[(u64, u16)], frame: u64, next: usize) -> (r: usize)
    requires
        next <= changes.len(),
    ensures
        next <= r <= changes.len(),
        forall|k: int| next <= k < r ==> (#[trigger] changes@[k]).0 == frame,
        r == changes.len() || changes@[r as int].0 != frame,
{
    let mut i = next;
    while i < changes.len() && changes[i].0 == frame
        invariant
            next <= i <= changes.len(),
            forall|k: int| next <= k < i ==> (#[trigger] changes@[k]).0 == frame,
        decreases changes.len() - i,
    {
        i = i + 1;
    }
    i
}

/// The expected hash of a frame differs from the one observed: the
/// expected value, or `None` past the end of the stored trace.
pub fn trace_mismatch(expected: &[u64], frame: u64, h: u64) -> (r: Option<Option<u64>>)
    ensures
        (frame < expected@.len() && expected@[frame as int] == h) ==> r is None,
        (frame < expected@.len() && expected@[frame as int] != h) ==> r == Some(Some(expected@[frame as int])),
        frame >= expected@.len() ==> r == Some(None::<u64>),
{
    if frame < expected.len() as u64 {
        let want = expected[frame as usize];
        if want == h {
            None
        } else {
            Some(Some(want))
        }
    } else {
        Some(None)
    }
}

pub open spec fn zero_x() -> Seq<char> {
    seq!['0', 'x']
}

/// `s[from..to]` with every leading `0x` removed.
pub open spec fn strip_zero_x(s: Seq<char>, from: int, to: int) -> int
    decreases to - from,
{
    if from + 2 <= to && s.subrange(from, from + 2) == zero_x() {
        strip_zero_x(s, from + 2, to)
    } else {
        from
    }
}

/// A stored trace's line: `None` when blank or a `#` comment, else the
/// hash it holds (hex after trimming and dropping leading `0x`s).
pub open spec fn trace_line(s: Seq<char>, a: int, b: int) -> Option<Result<int, crate::num::IntErrorKind>> {
    let t = trim_span(s, a, b);
    if t.0 >= t.1 || (a < b && s[a] == '#') {
        None
    } else {
        let d = strip_zero_x(s, t.0, t.1);
        Some(parse_unsigned(s.subrange(d, t.1), 16, u64::MAX as int))
    }
}

/// The hashes of a stored trace, in order, or the first bad line's error.
pub open spec fn trace_values(s: Seq<char>, spans: Seq<(int, int)>) -> Result<Seq<u64>, crate::num::IntErrorKind>
    decreases spans.len(),
{
    if spans.len() == 0 {
        Ok(Seq::empty())
    } else {
        match trace_values(s, spans.drop_last()) {
            Err(e) => Err(e),
            Ok(vs) => match trace_line(s, spans.last().0, spans.last().1) {
                None => Ok(vs),
                Some(Err(e)) => Err(e),
                Some(Ok(v)) => Ok(vs.push(v as u64)),
            },
        }
    }
}

proof fn lemma_trace_err_sticks(s: Seq<char>, spans: Seq<(int, int)>, k: int)
    requires
        0 <= k <= spans.len(),
        trace_values(s, spans.take(k)) is Err,
    ensures
        trace_values(s, spans) == trace_values(s, spans.take(k)),
    decreases spans.len() - k,
{
    if k < spans.len() {
        assert(spans.take(k + 1).drop_last() =~= spans.take(k));
        lemma_trace_err_sticks(s, spans, k + 1);
    } else {
        assert(spans.take(k) =~= spans);
    }
}

/// Reads a stored per-frame hash trace.
pub fn parse_trace(text: &str) -> (r: Result<Vec<u64>, crate::num::IntErrorKind>)
    ensures
        match trace_values(text@, line_spans(text@, 0)) {
            Ok(vs) => r matches Ok(v) && v@ == vs,
            Err(e) => r == Err::<Vec<u64>, crate::num::IntErrorKind>(e),
        },
{
    let cs = chars_of(text);
    let spans = lines(&cs);
    let ghost sp = line_spans(cs@, 0);
    let zx: [char; 2] = ['0', 'x'];
    assert(zx@ =~= zero_x());
    let mut out: Vec<u64> = Vec::new();
    let mut k: usize = 0;
    assert(sp.take(0) =~= Seq::<(int, int)>::empty());
    while k < spans.len()
        invariant
            cs@ == text@,
            sp == line_spans(cs@, 0),
            zx@ == zero_x(),
            spans@.len() == sp.len(),
            forall|j: int| 0 <= j < spans@.len() ==> (#[trigger] spans@[j]).0 == sp[j].0 && spans@[j].1 == sp[j].1,
            forall|j: int| 0 <= j < spans@.len() ==> (#[trigger] spans@[j]).0 <= spans@[j].1 <= cs@.len(),
            k <= spans.len(),
            trace_values(cs@, sp.take(k as int)) == Ok::<Seq<u64>, crate::num::IntErrorKind>(out@),
        decreases spans.len() - k,
    {
        let (a, b) = spans[k];
        assert(sp.take(k as int + 1).drop_last() =~= sp.take(k as int));
        assert(sp.take(k as int + 1).last() == sp[k as int]);
        let (ta, tb) = trim(&cs, a, b);
        if ta < tb && !(a < b && cs[a] == '#') {
            let mut d = ta;
            while tb - d >= 2 && span_is(&cs, d, d + 2, &zx)
                invariant
                    ta <= d <= tb <= cs.len(),
                    zx@ == zero_x(),
                    strip_zero_x(cs@, ta as int, tb as int) == strip_zero_x(cs@, d as int, tb as int),
                decreases tb - d,
            {
                d = d + 2;
            }
            match parse_uint(&cs, d, tb, 16, u64::MAX) {
                Ok(v) => {
                    out.push(v);
                },
                Err(e) => {
                    proof { lemma_trace_err_sticks(cs@, sp, k as int + 1); }
                    return Err(e);
                },
            }
        }
        k = k + 1;
    }
    assert(sp.take(spans.len() as int) =~= sp);
    Ok(out)
}

/// `--png-every N:dir`: the period and the directory, or `None` when there
/// is no `:` or `N` is not a `u64`.
pub fn parse_png_every(spec: &str) -> (r: Option<(u64, String)>)
    ensures
        ({
            let s = spec@;
            let c = scan(s, 0, s.len() as int, eq_char(':'));
            if c >= s.len() {
                r is None
            } else {
                match parse_unsigned(s.subrange(0, c), 10, u64::MAX as int) {
                    Ok(n) => r matches Some(p) && p.0 == n && p.1@ == s.subrange(c + 1, s.len() as int),
                    Err(_) => r is None,
                }
            }
        }),
{
    let cs = chars_of(spec);
    let c = find_char(&cs, 0, cs.len(), ':');
    if c >= cs.len() {
        return None;
    }
    match parse_uint(&cs, 0, c, 10, u64::MAX) {
        Ok(n) => Some((n, string_of_span(&cs, c + 1, cs.len()))),
        Err(_) => None,
    }
}

/// 32-bit XRGB pixels as packed 8-bit RGB triples.
pub fn xrgb_to_rgb(pixels: &[u32]) -> (rgb: Vec<u8>)
    ensures
        rgb@.len() == 3 * pixels@.len(),
        forall|i: int| 0 <= i < pixels@.len() ==> {
            &&& #[trigger] rgb@[3 * i] == ((pixels@[i] >> 16) & 0xff)
            &&& rgb@[3 * i + 1] == ((pixels@[i] >> 8) & 0xff)
            &&& rgb@[3 * i + 2] == (pixels@[i] & 0xff)
        },
{
    let mut rgb: Vec<u8> = Vec::new();
    let mut i: usize = 0;
    while i < pixels.len()
        invariant
            i <= pixels.len(),
            rgb@.len() == 3 * i,
            forall|k: int| 0 <= k < i ==> {
                &&& #[trigger] rgb@[3 * k] == ((pixels@[k] >> 16) & 0xff)
                &&& rgb@[3 * k + 1] == ((pixels@[k] >> 8) & 0xff)
                &&& rgb@[3 * k + 2] == (pixels@[k] & 0xff)
            },
        decreases pixels.len() - i,
    {
        let p = pixels[i];
        let r = (p >> 16) & 0xff;
        let g = (p >> 8) & 0xff;
        let b = p & 0xff;
        assert(r <= 0xff && g <= 0xff && b <= 0xff) by (bit_vector)
            requires
                r == (p >> 16) & 0xff,
                g == (p >> 8) & 0xff,
                b == p & 0xff,
        ;
        let ghost before = rgb@;
        rgb.push(r as u8);
        rgb.push(g as u8);
        rgb.push(b as u8);
        assert(rgb@ == before.push(r as u8).push(g as u8).push(b as u8));
        assert forall|k: int| 0 <= k < i + 1 implies {
            &&& #[trigger] rgb@[3 * k] == ((pixels@[k] >> 16) & 0xff)
            &&& rgb@[3 * k + 1] == ((pixels@[k] >> 8) & 0xff)
            &&& rgb@[3 * k + 2] == (pixels@[k] & 0xff)
        } by {
            if k < i {
                assert(rgb@[3 * k] == before[3 * k]);
                assert(rgb@[3 * k + 1] == before[3 * k + 1]);
                assert(rgb@[3 * k + 2] == before[3 * k + 2]);
            }
        }
        i = i + 1;
    }
    rgb
}

/// A screenshot is due after frame `frame` (counted from 0) when the
/// frames run so far are a multiple of the period `every`.
pub fn png_due(frame: u64, every: u64) -> (r: bool)
    requires
        every > 0,
        frame < u64::MAX,
    ensures
        r == ((frame + 1) % (every as int) == 0),
{
    (frame + 1) % every == 0
}

/// The screenshot file after `frames` frames: `{dir}/f{frames:06}.png`.
pub fn png_frame_path(dir: &str, frames: u64) -> (r: String)
    ensures
        r@ == dir@ + seq!['/', 'f'] + crate::report::pad_left(crate::num::dec_chars(frames as nat), 6, '0') + ".png"@,
{
    let mut out: Vec<char> = Vec::new();
    crate::compare::push_str(&mut out, dir);
    out.push('/');
    out.push('f');
    crate::compare::push_all(&mut out, &crate::report::pad_with(crate::num::decimal(frames), 6, '0'));
    crate::compare::push_str(&mut out, ".png");
    crate::text::string_of(out.as_slice())
}

/// A stored trace line: the hash as 16 lower-case hex digits, then `\n`.
pub open spec fn trace_line_spec(h: u64) -> Seq<char> {
    pad_left(hex_lower_num_chars(h as nat), 16, '0') + seq!['\n']
}

/// The stored trace of the hashes `hs`, one line each, in order.
pub open spec fn trace_text(hs: Seq<u64>) -> Seq<char>
    decreases hs.len(),
{
    if hs.len() == 0 {
        Seq::empty()
    } else {
        trace_text(hs.drop_last()) + trace_line_spec(hs.last())
    }
}

/// One line of a stored trace: the hash as 16 lower-case hex digits.
pub fn trace_text_line(h: u64) -> (r: String)
    ensures
        r@ == trace_line_spec(h),
{
    let mut out = crate::report::hex_lower_padded(h, 16);
    out.push('\n');
    crate::text::string_of(out.as_slice())
}

// ---------------------------------------------------------------------
// A stored trace reads back as the hashes written.
// ---------------------------------------------------------------------

/// `16^k`.
pub open spec fn pow16(k: nat) -> nat
    decreases k,
{
    if k == 0 {
        1
    } else {
        16 * pow16((k - 1) as nat)
    }
}

proof fn lemma_hex_num(v: nat, bound: int, ov: IntErrorKind)
    requires
        v <= bound,
    ensures
        hex_lower_num_chars(v).len() >= 1,
        forall|k: int| 0 <= k < hex_lower_num_chars(v).len() ==> is_hex_lower(#[trigger] hex_lower_num_chars(v)[k]),
        digits_value(hex_lower_num_chars(v), 16, bound, ov) == Ok::<int, IntErrorKind>(v as int),
    decreases v,
{
    let s = hex_lower_num_chars(v);
    if v < 16 {
        lemma_hex_digit(v as int);
        assert(s.drop_last() =~= Seq::<char>::empty());
        assert(s.last() == hex_digit(v as int));
        assert(digits_value(s.drop_last(), 16, bound, ov) == Ok::<int, IntErrorKind>(0));
    } else {
        lemma_hex_num(v / 16, bound, ov);
        lemma_hex_digit((v % 16) as int);
        let p = hex_lower_num_chars(v / 16);
        assert(s.drop_last() =~= p);
        assert forall|k: int| 0 <= k < s.len() implies is_hex_lower(#[trigger] s[k]) by {
            if k < p.len() {
                assert(s[k] == p[k]);
            }
        }
        assert((v / 16) * 16 + v % 16 == v);
        assert(s.last() == hex_digit((v % 16) as int));
        assert(digits_value(s.drop_last(), 16, bound, ov) == Ok::<int, IntErrorKind>((v / 16) as int));
    }
}

proof fn lemma_hex_len(v: nat, k: nat)
    requires
        k >= 1,
        v < pow16(k),
    ensures
        hex_lower_num_chars(v).len() <= k,
    decreases v,
{
    if v >= 16 {
        assert(k >= 2) by {
            if k == 1 {
                assert(pow16(0) == 1);
            }
        }
        let q = pow16((k - 1) as nat);
        assert(v / 16 < q) by (nonlinear_arith)
            requires
                v < 16 * q,
        ;
        lemma_hex_len(v / 16, (k - 1) as nat);
    }
}

/// The facts of one trace line used by the reader.
proof fn lemma_trace_line(h: u64)
    ensures
        trace_line_spec(h).len() == 17,
        trace_line_spec(h)[16] == '\n',
        forall|t: int| 0 <= t < 16 ==> is_hex_lower(#[trigger] trace_line_spec(h)[t]),
        parse_unsigned(trace_line_spec(h).take(16), 16, u64::MAX as int) == Ok::<int, IntErrorKind>(h as int),
{
    let hx = hex_lower_num_chars(h as nat);
    lemma_hex_num(h as nat, u64::MAX as int, IntErrorKind::PosOverflow);
    assert(pow16(16) == 0x1_0000_0000_0000_0000) by {
        reveal_with_fuel(pow16, 17);
    }
    lemma_hex_len(h as nat, 16);
    let p = pad_left(hx, 16, '0');
    let l = trace_line_spec(h);
    assert(l.take(16) =~= p);
    if hx.len() < 16 {
        let z = Seq::new((16 - hx.len()) as nat, |i: int| '0');
        assert(p =~= z + hx);
        crate::num::lemma_zero_pad(z, hx, 16, u64::MAX as int, IntErrorKind::PosOverflow);
        assert forall|t: int| 0 <= t < 16 implies is_hex_lower(#[trigger] l[t]) by {
            if t < z.len() {
                assert(l[t] == '0');
                assert(('0' as u32) == 0x30);
            } else {
                assert(l[t] == hx[t - z.len()]);
            }
        }
    } else {
        assert(p == hx);
        assert forall|t: int| 0 <= t < 16 implies is_hex_lower(#[trigger] l[t]) by {
            assert(l[t] == hx[t]);
        }
    }
    assert(is_hex_lower(p[0]));
    assert(('+' as u32) == 0x2B);
}

/// The character at line `j`, column `t` of a stored trace.
pub open spec fn trace_char(hs: Seq<u64>, j: int, t: int) -> char {
    trace_text(hs)[17 * j + t]
}

proof fn lemma_trace_index(hs: Seq<u64>)
    ensures
        trace_text(hs).len() == 17 * hs.len(),
        forall|j: int, t: int| 0 <= j < hs.len() && 0 <= t < 17 ==> #[trigger] trace_char(hs, j, t) == trace_line_spec(hs[j])[t],
    decreases hs.len(),
{
    if hs.len() > 0 {
        let init = hs.drop_last();
        lemma_trace_index(init);
        lemma_trace_line(hs.last());
        assert forall|j: int, t: int| 0 <= j < hs.len() && 0 <= t < 17 implies #[trigger] trace_char(hs, j, t) == trace_line_spec(hs[j])[t] by {
            if j < init.len() {
                assert(trace_char(init, j, t) == trace_line_spec(init[j])[t]);
            }
        }
    }
}

proof fn lemma_trace_spans(hs: Seq<u64>, k: int)
    requires
        0 <= k <= hs.len(),
    ensures
        line_spans(trace_text(hs), 17 * k) =~= Seq::new((hs.len() - k) as nat, |j: int| (17 * (k + j), 17 * (k + j) + 16)),
    decreases hs.len() - k,
{
    let f = trace_text(hs);
    lemma_trace_index(hs);
    if k < hs.len() {
        let a = 17 * k;
        lemma_trace_line(hs[k]);
        assert forall|i: int| a <= i < a + 16 implies !eq_char('\n')(#[trigger] f[i]) by {
            assert(f[i] == trace_char(hs, k, i - a));
            assert(is_hex_lower(trace_line_spec(hs[k])[i - a]));
        }
        assert(f[a + 16] == trace_char(hs, k, 16));
        lemma_scan_is(f, a, a + 16, f.len() as int, eq_char('\n'));
        assert(f[a + 15] == trace_char(hs, k, 15));
        assert(is_hex_lower(trace_line_spec(hs[k])[15]));
        lemma_trace_spans(hs, k + 1);
        assert(17 * (k + 1) == a + 17);
    }
}

proof fn lemma_trace_values(hs: Seq<u64>, m: int)
    requires
        0 <= m <= hs.len(),
    ensures
        trace_values(trace_text(hs), line_spans(trace_text(hs), 0).take(m)) == Ok::<Seq<u64>, IntErrorKind>(hs.take(m)),
    decreases m,
{
    let f = trace_text(hs);
    let sp = line_spans(f, 0);
    lemma_trace_spans(hs, 0);
    lemma_trace_index(hs);
    if m == 0 {
        assert(sp.take(0) =~= Seq::<(int, int)>::empty());
        assert(hs.take(0) =~= Seq::<u64>::empty());
    } else {
        lemma_trace_values(hs, m - 1);
        assert(sp.take(m).drop_last() =~= sp.take(m - 1));
        let j = m - 1;
        let a = 17 * j;
        let b = a + 16;
        assert(sp.take(m).last() == (a, b));
        lemma_trace_line(hs[j]);
        let l = trace_line_spec(hs[j]);
        assert(f[a] == trace_char(hs, j, 0));
        assert(f[a + 1] == trace_char(hs, j, 1));
        assert(f[b - 1] == trace_char(hs, j, 15));
        assert(is_hex_lower(l[0]) && is_hex_lower(l[1]) && is_hex_lower(l[15]));
        lemma_scan_is(f, a, a, b, not_ws());
        assert(rscan(f, a, b, not_ws()) == b);
        assert(trim_span(f, a, b) == (a, b));
        assert(f.subrange(a, a + 2) != zero_x()) by {
            if f.subrange(a, a + 2) == zero_x() {
                assert(f.subrange(a, a + 2)[1] == f[a + 1]);
            }
        }
        assert(strip_zero_x(f, a, b) == a);
        assert forall|t: int| 0 <= t < 16 implies #[trigger] f.subrange(a, b)[t] == l.take(16)[t] by {
            assert(f.subrange(a, b)[t] == f[a + t]);
            assert(f[a + t] == trace_char(hs, j, t));
        }
        assert(f.subrange(a, b) =~= l.take(16));
        assert(hs.take(m) =~= hs.take(m - 1).push(hs[j]));
    }
}

/// A trace written line by line reads back as the hashes written: what
/// `--trace` stores, `--check-trace` compares against unchanged.
pub proof fn lemma_trace_roundtrip(hs: Seq<u64>)
    ensures
        trace_values(trace_text(hs), line_spans(trace_text(hs), 0)) == Ok::<Seq<u64>, IntErrorKind>(hs),
{
    lemma_trace_spans(hs, 0);
    lemma_trace_values(hs, hs.len() as int);
    assert(line_spans(trace_text(hs), 0).take(hs.len() as int) =~= line_spans(trace_text(hs), 0));
    assert(hs.take(hs.len() as int) =~= hs);
}

} // verus!
