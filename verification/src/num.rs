//! Integer parsing with the exact behaviour of std's `from_str_radix` and
//! `str::parse` for the integer types the tools read: an optional sign, then
//! digits of the radix, folded left to right; the first bad digit or the
//! first overflow ends the parse.
use vstd::prelude::*;

verus! {

/// Why an integer did not parse (std's `IntErrorKind`, the cases that arise).
#[derive(Clone, Copy, Debug, PartialEq, Eq, Structural)]
pub enum IntErrorKind {
    Empty,
    InvalidDigit,
    PosOverflow,
    NegOverflow,
}

/// The message std's `ParseIntError` displays for a kind.
pub open spec fn int_error_message(k: IntErrorKind) -> Seq<char> {
    match k {
        IntErrorKind::Empty => "cannot parse integer from empty string"@,
        IntErrorKind::InvalidDigit => "invalid digit found in string"@,
        IntErrorKind::PosOverflow => "number too large to fit in target type"@,
        IntErrorKind::NegOverflow => "number too small to fit in target type"@,
    }
}

impl IntErrorKind {
    /// The message std's `ParseIntError` displays for this kind.
    pub fn message(&self) -> (s: &'static str)
        ensures
            s@ == int_error_message(*self),
    {
        match self {
            IntErrorKind::Empty => "cannot parse integer from empty string",
            IntErrorKind::InvalidDigit => "invalid digit found in string",
            IntErrorKind::PosOverflow => "number too large to fit in target type",
            IntErrorKind::NegOverflow => "number too small to fit in target type",
        }
    }
}

/// `char::to_digit(radix)`.
pub open spec fn digit_value(c: char, radix: int) -> Option<int> {
    let u = c as u32 as int;
    let d = if 0x30 <= u <= 0x39 {
        u - 0x30
    } else if 0x61 <= u <= 0x7A {
        u - 0x61 + 10
    } else if 0x41 <= u <= 0x5A {
        u - 0x41 + 10
    } else {
        99
    };
    if d < radix {
        Some(d)
    } else {
        None
    }
}

/// The digits of `s` folded left to right in `radix`; the value may not
/// exceed `bound`, and going past it is reported as `overflow`.
pub open spec fn digits_value(s: Seq<char>, radix: int, bound: int, overflow: IntErrorKind) -> Result<
    int,
    IntErrorKind,
>
    decreases s.len(),
{
    if s.len() == 0 {
        Ok(0)
    } else {
        match digits_value(s.drop_last(), radix, bound, overflow) {
            Err(e) => Err(e),
            Ok(v) => match digit_value(s.last(), radix) {
                None => Err(IntErrorKind::InvalidDigit),
                Some(d) => if v * radix + d > bound {
                    Err(overflow)
                } else {
                    Ok(v * radix + d)
                },
            },
        }
    }
}

/// std's `from_str_radix` for an unsigned type whose largest value is `max`.
pub open spec fn parse_unsigned(s: Seq<char>, radix: int, max: int) -> Result<int, IntErrorKind> {
    if s.len() == 0 {
        Err(IntErrorKind::Empty)
    } else if s[0] == '+' && s.len() == 1 {
        Err(IntErrorKind::InvalidDigit)
    } else if s[0] == '+' {
        digits_value(s.drop_first(), radix, max, IntErrorKind::PosOverflow)
    } else {
        digits_value(s, radix, max, IntErrorKind::PosOverflow)
    }
}

/// std's `from_str_radix(s, 10)` for `i64`.
pub open spec fn parse_signed64(s: Seq<char>) -> Result<int, IntErrorKind> {
    if s.len() == 0 {
        Err(IntErrorKind::Empty)
    } else if (s[0] == '+' || s[0] == '-') && s.len() == 1 {
        Err(IntErrorKind::InvalidDigit)
    } else if s[0] == '-' {
        match digits_value(s.drop_first(), 10, 0x8000_0000_0000_0000, IntErrorKind::NegOverflow) {
            Ok(v) => Ok(-v),
            Err(e) => Err(e),
        }
    } else if s[0] == '+' {
        digits_value(s.drop_first(), 10, 0x7fff_ffff_ffff_ffff, IntErrorKind::PosOverflow)
    } else {
        digits_value(s, 10, 0x7fff_ffff_ffff_ffff, IntErrorKind::PosOverflow)
    }
}

fn to_digit(c: char, radix: u32) -> (r: Option<u32>)
    requires
        2 <= radix <= 36,
    ensures
        match digit_value(c, radix as int) {
            Some(d) => r == Some(d as u32),
            None => r is None,
        },
{
    let u = c as u32;
    let d: u32 = if 0x30 <= u && u <= 0x39 {
        u - 0x30
    } else if 0x61 <= u && u <= 0x7A {
        u - 0x61 + 10
    } else if 0x41 <= u && u <= 0x5A {
        u - 0x41 + 10
    } else {
        99
    };
    if d < radix {
        Some(d)
    } else {
        None
    }
}

/// Folds the digits of `cs[from..to]` as `digits_value` does.
fn fold_digits(cs: &[char], from: usize, to: usize, radix: u32, bound: u64, overflow: IntErrorKind) -> (r:
    Result<u64, IntErrorKind>)
    requires
        from <= to <= cs.len(),
        2 <= radix <= 36,
    ensures
        match digits_value(cs@.subrange(from as int, to as int), radix as int, bound as int, overflow) {
            Ok(v) => r == Ok::<u64, IntErrorKind>(v as u64),
            Err(e) => r == Err::<u64, IntErrorKind>(e),
        },
{
    let mut v: u64 = 0;
    let mut i = from;
    while i < to
        invariant
            from <= i <= to <= cs.len(),
            2 <= radix <= 36,
            v <= bound,
            digits_value(cs@.subrange(from as int, i as int), radix as int, bound as int, overflow)
                == Ok::<int, IntErrorKind>(v as int),
        decreases to - i,
    {
        let ghost pre = cs@.subrange(from as int, i as int);
        let ghost next = cs@.subrange(from as int, i as int + 1);
        assert(next.drop_last() =~= pre);
        assert(next.last() == cs@[i as int]);
        match to_digit(cs[i], radix) {
            None => {
                proof {
                    lemma_error_sticks(cs@, from as int, i as int + 1, to as int, radix as int,
                        bound as int, overflow, IntErrorKind::InvalidDigit);
                }
                return Err(IntErrorKind::InvalidDigit);
            },
            Some(d) => {
                assert((v as int) * (radix as int) <= 0xffff_ffff_ffff_ffff * 36) by (nonlinear_arith)
                    requires
                        v <= 0xffff_ffff_ffff_ffff,
                        radix <= 36,
                ;
                let w: u128 = (v as u128) * (radix as u128) + (d as u128);
                if w > bound as u128 {
                    proof {
                        lemma_error_sticks(cs@, from as int, i as int + 1, to as int, radix as int,
                            bound as int, overflow, overflow);
                    }
                    return Err(overflow);
                }
                v = w as u64;
            },
        }
        i = i + 1;
    }
    Ok(v)
}

/// Once a prefix of the digits fails, every longer prefix fails the same way.
proof fn lemma_error_sticks(
    s: Seq<char>,
    from: int,
    i: int,
    to: int,
    radix: int,
    bound: int,
    overflow: IntErrorKind,
    e: IntErrorKind,
)
    requires
        0 <= from <= i <= to <= s.len(),
        digits_value(s.subrange(from, i), radix, bound, overflow) == Err::<int, IntErrorKind>(e),
    ensures
        digits_value(s.subrange(from, to), radix, bound, overflow) == Err::<int, IntErrorKind>(e),
    decreases to - i,
{
    if i < to {
        assert(s.subrange(from, i + 1).drop_last() =~= s.subrange(from, i));
        lemma_error_sticks(s, from, i + 1, to, radix, bound, overflow, e);
    }
}

/// `from_str_radix(&s[from..to], radix)` for an unsigned type whose largest
/// value is `max` (`u32`, `u64` or `usize`).
pub fn parse_uint(cs: &[char], from: usize, to: usize, radix: u32, max: u64) -> (r: Result<u64, IntErrorKind>)
    requires
        from <= to <= cs.len(),
        2 <= radix <= 36,
    ensures
        match parse_unsigned(cs@.subrange(from as int, to as int), radix as int, max as int) {
            Ok(v) => 0 <= v <= max && r == Ok::<u64, IntErrorKind>(v as u64),
            Err(e) => r == Err::<u64, IntErrorKind>(e),
        },
        r is Ok ==> r->Ok_0 <= max,
{
    let ghost s = cs@.subrange(from as int, to as int);
    if from == to {
        return Err(IntErrorKind::Empty);
    }
    if cs[from] == '+' {
        if to - from == 1 {
            return Err(IntErrorKind::InvalidDigit);
        }
        assert(s.drop_first() =~= cs@.subrange(from + 1, to as int));
        let r = fold_digits(cs, from + 1, to, radix, max, IntErrorKind::PosOverflow);
        proof {
            lemma_digits_bounded(cs@.subrange(from + 1, to as int), radix as int, max as int,
                IntErrorKind::PosOverflow);
        }
        r
    } else {
        let r = fold_digits(cs, from, to, radix, max, IntErrorKind::PosOverflow);
        proof {
            lemma_digits_bounded(s, radix as int, max as int, IntErrorKind::PosOverflow);
        }
        r
    }
}

/// A successful fold stays within its bound and is non-negative.
pub proof fn lemma_digits_bounded(s: Seq<char>, radix: int, bound: int, overflow: IntErrorKind)
    requires
        radix >= 2,
        bound >= 0,
    ensures
        digits_value(s, radix, bound, overflow) is Ok ==> 0 <= digits_value(
            s,
            radix,
            bound,
            overflow,
        )->Ok_0 <= bound,
    decreases s.len(),
{
    if s.len() > 0 {
        lemma_digits_bounded(s.drop_last(), radix, bound, overflow);
        if digits_value(s.drop_last(), radix, bound, overflow) is Ok {
            let v = digits_value(s.drop_last(), radix, bound, overflow)->Ok_0;
            assert(v * radix >= 0) by (nonlinear_arith)
                requires
                    v >= 0,
                    radix >= 2,
            ;
        }
    }
}

/// `s[from..to].parse::<i64>()`.
pub fn parse_i64(cs: &[char], from: usize, to: usize) -> (r: Result<i64, IntErrorKind>)
    requires
        from <= to <= cs.len(),
    ensures
        match parse_signed64(cs@.subrange(from as int, to as int)) {
            Ok(v) => i64::MIN <= v <= i64::MAX && r == Ok::<i64, IntErrorKind>(v as i64),
            Err(e) => r == Err::<i64, IntErrorKind>(e),
        },
{
    let ghost s = cs@.subrange(from as int, to as int);
    if from == to {
        return Err(IntErrorKind::Empty);
    }
    if (cs[from] == '+' || cs[from] == '-') && to - from == 1 {
        return Err(IntErrorKind::InvalidDigit);
    }
    if cs[from] == '-' {
        assert(s.drop_first() =~= cs@.subrange(from + 1, to as int));
        let m = fold_digits(cs, from + 1, to, 10, 0x8000_0000_0000_0000, IntErrorKind::NegOverflow);
        proof {
            lemma_digits_bounded(s.drop_first(), 10, 0x8000_0000_0000_0000, IntErrorKind::NegOverflow);
        }
        match m {
            Err(e) => Err(e),
            Ok(v) => {
                if v == 0x8000_0000_0000_0000 {
                    Ok(i64::MIN)
                } else {
                    Ok(-(v as i64))
                }
            },
        }
    } else {
        let start = if cs[from] == '+' {
            from + 1
        } else {
            from
        };
        if cs[from] == '+' {
            assert(s.drop_first() =~= cs@.subrange(from + 1, to as int));
        }
        let m = fold_digits(cs, start, to, 10, 0x7fff_ffff_ffff_ffff, IntErrorKind::PosOverflow);
        proof {
            lemma_digits_bounded(cs@.subrange(start as int, to as int), 10, 0x7fff_ffff_ffff_ffff,
                IntErrorKind::PosOverflow);
        }
        match m {
            Err(e) => Err(e),
            Ok(v) => Ok(v as i64),
        }
    }
}

/// The decimal digits of `v`, most significant first, as `{}` prints it.
pub open spec fn dec_chars(v: nat) -> Seq<char>
    decreases v,
{
    if v < 10 {
        seq![(0x30 + v) as char]
    } else {
        dec_chars(v / 10) + seq![(0x30 + v % 10) as char]
    }
}

/// `v` in decimal.
pub fn decimal(v: u64) -> (r: Vec<char>)
    ensures
        r@ == dec_chars(v as nat),
    decreases v,
{
    let d = ((v % 10) as u8 + 0x30u8) as char;
    if v < 10 {
        let mut r = Vec::new();
        r.push(d);
        assert(r@ =~= dec_chars(v as nat));
        r
    } else {
        let mut r = decimal(v / 10);
        r.push(d);
        assert(r@ =~= dec_chars(v as nat));
        r
    }
}

/// `v` in decimal, with a leading `-` when negative (`{}` of an `i64`).
pub open spec fn signed_dec_chars(v: int) -> Seq<char> {
    if v < 0 {
        seq!['-'] + dec_chars((-v) as nat)
    } else {
        dec_chars(v as nat)
    }
}

/// The decimal digits of a signed value.
pub fn signed_decimal(v: i64) -> (r: Vec<char>)
    ensures
        r@ == signed_dec_chars(v as int),
{
    if v < 0 {
        let m: u64 = if v == i64::MIN {
            0x8000_0000_0000_0000u64
        } else {
            (-v) as u64
        };
        let d = decimal(m);
        let mut out: Vec<char> = Vec::new();
        out.push('-');
        let mut i: usize = 0;
        while i < d.len()
            invariant
                i <= d.len(),
                out@ == seq!['-'] + d@.take(i as int),
            decreases d.len() - i,
        {
            out.push(d[i]);
            assert(d@.take(i as int + 1) =~= d@.take(i as int).push(d@[i as int]));
            i = i + 1;
        }
        assert(d@.take(d.len() as int) =~= d@);
        out
    } else {
        decimal(v as u64)
    }
}

/// Zeros fold to zero in any radix.
pub proof fn lemma_zeros_value(z: Seq<char>, radix: int, bound: int, ov: IntErrorKind)
    requires
        2 <= radix,
        bound >= 0,
        forall|i: int| 0 <= i < z.len() ==> z[i] == '0',
    ensures
        digits_value(z, radix, bound, ov) == Ok::<int, IntErrorKind>(0),
    decreases z.len(),
{
    if z.len() > 0 {
        lemma_zeros_value(z.drop_last(), radix, bound, ov);
        assert(('0' as u32) == 0x30);
        assert(z.last() == '0');
        assert(digit_value(z.last(), radix) == Some(0int));
        assert(0 * radix + 0 == 0) by (nonlinear_arith);
    }
}

/// Leading zeros do not change the value of a digit string.
pub proof fn lemma_zero_pad(z: Seq<char>, s: Seq<char>, radix: int, bound: int, ov: IntErrorKind)
    requires
        2 <= radix,
        bound >= 0,
        forall|i: int| 0 <= i < z.len() ==> z[i] == '0',
    ensures
        digits_value(z + s, radix, bound, ov) == digits_value(s, radix, bound, ov),
    decreases s.len(),
{
    if s.len() == 0 {
        assert(z + s =~= z);
        lemma_zeros_value(z, radix, bound, ov);
    } else {
        lemma_zero_pad(z, s.drop_last(), radix, bound, ov);
        assert((z + s).drop_last() =~= z + s.drop_last());
        assert((z + s).last() == s.last());
    }
}

} // verus!
