//! Lower-case hexadecimal rendering of bytes, as the cache keys and the
//! frame-hash files spell them.
use vstd::prelude::*;
use crate::text::string_of;

verus! {

/// The lower-case hex digit for `v < 16`.
pub open spec fn hex_digit(v: int) -> char {
    if v < 10 {
        (0x30 + v) as char
    } else {
        (0x61 + v - 10) as char
    }
}

/// Two lower-case hex digits per byte, high nibble first.
pub open spec fn hex_chars(bytes: Seq<u8>) -> Seq<char>
    decreases bytes.len(),
{
    if bytes.len() == 0 {
        Seq::empty()
    } else {
        hex_chars(bytes.drop_last()) + seq![
            hex_digit(bytes.last() as int / 16),
            hex_digit(bytes.last() as int % 16),
        ]
    }
}

/// A lower-case hex digit.
pub open spec fn is_hex_lower(c: char) -> bool {
    let u = c as u32;
    (0x30 <= u <= 0x39) || (0x61 <= u <= 0x66)
}

/// A hex digit reads back as its value.
pub proof fn lemma_hex_digit(d: int)
    requires
        0 <= d < 16,
    ensures
        is_hex_lower(hex_digit(d)),
        crate::num::digit_value(hex_digit(d), 16) == Some(d),
{
    if d < 10 {
        assert(((0x30 + d) as char) as u32 == 0x30 + d);
    } else {
        assert(((0x61 + d - 10) as char) as u32 == 0x61 + d - 10);
    }
}

/// The rendering of bytes is two hex digits per byte.
pub proof fn lemma_hex_chars(bytes: Seq<u8>)
    ensures
        hex_chars(bytes).len() == 2 * bytes.len(),
        forall|k: int| 0 <= k < hex_chars(bytes).len() ==> is_hex_lower(#[trigger] hex_chars(bytes)[k]),
    decreases bytes.len(),
{
    if bytes.len() > 0 {
        let p = bytes.drop_last();
        lemma_hex_chars(p);
        lemma_hex_digit(bytes.last() as int / 16);
        lemma_hex_digit(bytes.last() as int % 16);
        let h = hex_chars(bytes);
        let hp = hex_chars(p);
        assert forall|k: int| 0 <= k < h.len() implies is_hex_lower(#[trigger] h[k]) by {
            if k < hp.len() {
                assert(h[k] == hp[k]);
            }
        }
    }
}

/// Different bytes of the same length render differently.
pub proof fn lemma_hex_chars_injective(x: Seq<u8>, y: Seq<u8>)
    requires
        x.len() == y.len(),
        hex_chars(x) == hex_chars(y),
    ensures
        x == y,
    decreases x.len(),
{
    if x.len() > 0 {
        let hx = hex_chars(x);
        let px = hex_chars(x.drop_last());
        let py = hex_chars(y.drop_last());
        lemma_hex_chars(x.drop_last());
        lemma_hex_chars(y.drop_last());
        assert(hx.subrange(0, px.len() as int) =~= px);
        assert(hex_chars(y).subrange(0, py.len() as int) =~= py);
        lemma_hex_chars_injective(x.drop_last(), y.drop_last());
        let a = x.last() as int;
        let b = y.last() as int;
        lemma_hex_digit(a / 16);
        lemma_hex_digit(a % 16);
        lemma_hex_digit(b / 16);
        lemma_hex_digit(b % 16);
        assert(hx[px.len() as int] == hex_digit(a / 16));
        assert(hex_chars(y)[py.len() as int] == hex_digit(b / 16));
        assert(hx[px.len() as int + 1] == hex_digit(a % 16));
        assert(hex_chars(y)[py.len() as int + 1] == hex_digit(b % 16));
        assert(a / 16 == b / 16 && a % 16 == b % 16);
        assert(a == b);
        assert(x =~= x.drop_last().push(x.last()));
        assert(y =~= y.drop_last().push(y.last()));
    }
}

fn nibble(v: u8) -> (c: char)
    requires
        v < 16,
    ensures
        c == hex_digit(v as int),
{
    let digits: [char; 16] = ['0', '1', '2', '3', '4', '5', '6', '7', '8', '9', 'a', 'b', 'c', 'd', 'e', 'f'];
    assert(digits@ == seq!['0', '1', '2', '3', '4', '5', '6', '7', '8', '9', 'a', 'b', 'c', 'd', 'e', 'f']);
    digits[v as usize]
}

/// The hex characters of `bytes`.
pub fn hex_vec(bytes: &[u8]) -> (v: Vec<char>)
    ensures
        v@ == hex_chars(bytes@),
{
    let mut v: Vec<char> = Vec::new();
    let mut i: usize = 0;
    while i < bytes.len()
        invariant
            i <= bytes.len(),
            v@ == hex_chars(bytes@.take(i as int)),
        decreases bytes.len() - i,
    {
        let b = bytes[i];
        assert(bytes@.take(i as int + 1).drop_last() =~= bytes@.take(i as int));
        v.push(nibble(b / 16));
        v.push(nibble(b % 16));
        i = i + 1;
        assert(v@ =~= hex_chars(bytes@.take(i as int)));
    }
    assert(bytes@.take(bytes.len() as int) =~= bytes@);
    v
}

/// Lower-case hex of `bytes`, two digits per byte.
pub fn hex_lower(bytes: &[u8]) -> (s: String)
    ensures
        s@ == hex_chars(bytes@),
{
    let v = hex_vec(bytes);
    string_of(v.as_slice())
}

/// Lower-case hex of a 32-byte digest: 64 characters.
pub fn hex32(bytes: &[u8; 32]) -> (s: String)
    ensures
        s@ == hex_chars(bytes@),
{
    hex_lower(bytes.as_slice())
}

} // verus!
