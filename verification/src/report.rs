//! The text the tracker writes: hexadecimal addresses and right-aligned
//! counts in its hit table, and one-line descriptions of replay diffs.
use vstd::prelude::*;
use crate::compare::{push_all, push_str};
use crate::num::{dec_chars, decimal};
use crate::hex::hex_digit;
use crate::text::string_of;

verus! {

/// The upper-case hex digit for `v < 16`.
pub open spec fn hex_upper_digit(v: int) -> char {
    if v < 10 {
        (0x30 + v) as char
    } else {
        (0x41 + v - 10) as char
    }
}

/// The upper-case hex digits of `v`, most significant first (`{:X}`).
pub open spec fn hex_upper_chars(v: nat) -> Seq<char>
    decreases v,
{
    if v < 16 {
        seq![hex_upper_digit(v as int)]
    } else {
        hex_upper_chars(v / 16) + seq![hex_upper_digit((v % 16) as int)]
    }
}

/// `s` padded on the left with `c` to at least `width` characters.
pub open spec fn pad_left(s: Seq<char>, width: nat, c: char) -> Seq<char> {
    if s.len() < width {
        Seq::new((width - s.len()) as nat, |i: int| c) + s
    } else {
        s
    }
}

fn upper_digits(v: u64) -> (r: Vec<char>)
    ensures
        r@ == hex_upper_chars(v as nat),
    decreases v,
{
    let d = (v % 16) as u8;
    let c = if d < 10 { (0x30u8 + d) as char } else { (0x41u8 + d - 10) as char };
    if v < 16 {
        let mut r = Vec::new();
        r.push(c);
        assert(r@ =~= hex_upper_chars(v as nat));
        r
    } else {
        let mut r = upper_digits(v / 16);
        r.push(c);
        assert(r@ =~= hex_upper_chars(v as nat));
        r
    }
}

pub(crate) fn pad_with(s: Vec<char>, width: usize, c: char) -> (r: Vec<char>)
    ensures
        r@ == pad_left(s@, width as nat, c),
{
    if s.len() >= width {
        return s;
    }
    let pad = width - s.len();
    let mut out: Vec<char> = Vec::new();
    let mut i: usize = 0;
    while i < pad
        invariant
            i <= pad,
            out@ == Seq::new(i as nat, |k: int| c),
        decreases pad - i,
    {
        out.push(c);
        i = i + 1;
        assert(out@ =~= Seq::new(i as nat, |k: int| c));
    }
    push_all(&mut out, &s);
    assert(out@ =~= pad_left(s@, width as nat, c));
    out
}

/// The lower-case hex digits of `v`, most significant first (`{:x}`).
pub open spec fn hex_lower_num_chars(v: nat) -> Seq<char>
    decreases v,
{
    if v < 16 {
        seq![hex_digit(v as int)]
    } else {
        hex_lower_num_chars(v / 16) + seq![hex_digit((v % 16) as int)]
    }
}

fn lower_digits(v: u64) -> (r: Vec<char>)
    ensures
        r@ == hex_lower_num_chars(v as nat),
    decreases v,
{
    let d = (v % 16) as u8;
    let c = if d < 10 { (0x30u8 + d) as char } else { (0x61u8 + d - 10) as char };
    if v < 16 {
        let mut r = Vec::new();
        r.push(c);
        assert(r@ =~= hex_lower_num_chars(v as nat));
        r
    } else {
        let mut r = lower_digits(v / 16);
        r.push(c);
        assert(r@ =~= hex_lower_num_chars(v as nat));
        r
    }
}

/// `{v:0width$x}`: lower-case hex, zero-padded.
pub fn hex_lower_padded(v: u64, width: usize) -> (r: Vec<char>)
    ensures
        r@ == pad_left(hex_lower_num_chars(v as nat), width as nat, '0'),
{
    pad_with(lower_digits(v), width, '0')
}

/// `{v:0width$X}`: upper-case hex, zero-padded.
pub fn hex_upper(v: u64, width: usize) -> (r: Vec<char>)
    ensures
        r@ == pad_left(hex_upper_chars(v as nat), width as nat, '0'),
{
    pad_with(upper_digits(v), width, '0')
}

/// `{v:>width$}`: decimal, right-aligned with spaces.
pub fn dec_right(v: u64, width: usize) -> (r: Vec<char>)
    ensures
        r@ == pad_left(dec_chars(v as nat), width as nat, ' '),
{
    pad_with(decimal(v), width, ' ')
}

/// One row of the tracker's hit table:
/// `0x{addr:08X}  {hits:>8} {calls:>8} {exits:>8}  {name}`.
pub fn track_row(addr: u32, hits: u64, calls: u64, exits: u64, name: &str) -> (s: String)
    ensures
        s@ == seq!['0', 'x'] + pad_left(hex_upper_chars(addr as nat), 8, '0') + seq![' ', ' '] + pad_left(
            dec_chars(hits as nat),
            8,
            ' ',
        ) + seq![' '] + pad_left(dec_chars(calls as nat), 8, ' ') + seq![' '] + pad_left(dec_chars(exits as nat), 8, ' ')
            + seq![' ', ' '] + name@,
{
    let mut out: Vec<char> = Vec::new();
    out.push('0');
    out.push('x');
    push_all(&mut out, &hex_upper(addr as u64, 8));
    out.push(' ');
    out.push(' ');
    push_all(&mut out, &dec_right(hits, 8));
    out.push(' ');
    push_all(&mut out, &dec_right(calls, 8));
    out.push(' ');
    push_all(&mut out, &dec_right(exits, 8));
    out.push(' ');
    out.push(' ');
    push_str(&mut out, name);
    assert(out@ =~= seq!['0', 'x'] + pad_left(hex_upper_chars(addr as nat), 8, '0') + seq![' ', ' '] + pad_left(
        dec_chars(hits as nat),
        8,
        ' ',
    ) + seq![' '] + pad_left(dec_chars(calls as nat), 8, ' ') + seq![' '] + pad_left(dec_chars(exits as nat), 8, ' ')
        + seq![' ', ' '] + name@);
    string_of(out.as_slice())
}

/// A register that had to match at exit and did not.
pub struct RegMismatch {
    pub name: String,
    pub expected: u32,
    pub actual: u32,
}

/// How a replayed exit differs from the recorded one.
pub struct DiffSummary {
    /// Registers that must match, in register order.
    pub reg_mismatches: Vec<RegMismatch>,
    pub ewram_diff_bytes: usize,
    pub ewram_first_diff: Option<u32>,
    pub iwram_diff_bytes: usize,
    pub iwram_first_diff: Option<u32>,
}

/// The text of a diff: the first mismatching register, else the EWRAM
/// difference, else the IWRAM difference, else nothing.
pub open spec fn describe_spec(d: DiffSummary) -> Seq<char> {
    if d.reg_mismatches@.len() > 0 {
        let m = d.reg_mismatches@[0];
        m.name@ + " mismatch: expected 0x"@ + pad_left(hex_upper_chars(m.expected as nat), 8, '0') + ", got 0x"@ + pad_left(
            hex_upper_chars(m.actual as nat),
            8,
            '0',
        )
    } else if d.ewram_diff_bytes > 0 {
        "EWRAM diff: "@ + dec_chars(d.ewram_diff_bytes as nat) + " bytes (first at 0x0200"@ + pad_left(
            hex_upper_chars(match d.ewram_first_diff { Some(f) => f as nat, None => 0 }),
            4,
            '0',
        ) + seq![')']
    } else if d.iwram_diff_bytes > 0 {
        "IWRAM diff: "@ + dec_chars(d.iwram_diff_bytes as nat) + " bytes (first at 0x0300"@ + pad_left(
            hex_upper_chars(match d.iwram_first_diff { Some(f) => f as nat, None => 0 }),
            4,
            '0',
        ) + seq![')']
    } else {
        Seq::empty()
    }
}

/// Describes a replay diff in one line.
pub fn describe_diff(d: &DiffSummary) -> (s: String)
    ensures
        s@ == describe_spec(*d),
{
    let mut out: Vec<char> = Vec::new();
    if d.reg_mismatches.len() > 0 {
        let m = &d.reg_mismatches[0];
        push_str(&mut out, m.name.as_str());
        push_str(&mut out, " mismatch: expected 0x");
        push_all(&mut out, &hex_upper(m.expected as u64, 8));
        push_str(&mut out, ", got 0x");
        push_all(&mut out, &hex_upper(m.actual as u64, 8));
    } else if d.ewram_diff_bytes > 0 {
        let first = match d.ewram_first_diff { Some(f) => f, None => 0 };
        push_str(&mut out, "EWRAM diff: ");
        push_all(&mut out, &decimal(d.ewram_diff_bytes as u64));
        push_str(&mut out, " bytes (first at 0x0200");
        push_all(&mut out, &hex_upper(first as u64, 4));
        out.push(')');
    } else if d.iwram_diff_bytes > 0 {
        let first = match d.iwram_first_diff { Some(f) => f, None => 0 };
        push_str(&mut out, "IWRAM diff: ");
        push_all(&mut out, &decimal(d.iwram_diff_bytes as u64));
        push_str(&mut out, " bytes (first at 0x0300");
        push_all(&mut out, &hex_upper(first as u64, 4));
        out.push(')');
    }
    string_of(out.as_slice())
}

} // verus!
