//! The tracker's symbol table: `0xADDR NAME` per line, as `make
//! function-symbols` writes it; blank lines and `#` comments skipped.
use vstd::prelude::*;
use crate::num::{IntErrorKind, parse_uint, parse_unsigned};
use crate::text::{chars_of, find_ws, is_ws, line_spans, lines, scan, span_starts_with, string_of_span, trim, trim_span,
    ws, lemma_scan_facts};

verus! {

/// Why the symbol table was refused.
pub enum SymbolError {
    /// A line with an address and no name.
    MissingName,
    /// An address that is not hexadecimal `u32`: the text and why.
    BadAddr { text: String, kind: IntErrorKind },
}

/// What a symbol line holds: `None` when blank or a comment; else the
/// address (hex, optional `0x`) and the name after the first whitespace,
/// trimmed.
pub enum SymLine {
    Skip,
    Entry(u32, Seq<char>),
    MissingName,
    BadAddr(Seq<char>, IntErrorKind),
}

pub open spec fn symbol_line(s: Seq<char>, a: int, b: int) -> SymLine {
    let t = trim_span(s, a, b);
    let w = scan(s, t.0, t.1, ws());
    let name = trim_span(s, w + 1, t.1);
    let digits_from = if w - t.0 >= 2 && s[t.0] == '0' && s[t.0 + 1] == 'x' { t.0 + 2 } else { t.0 };
    let digits = s.subrange(digits_from, w);
    if t.0 >= t.1 || s[t.0] == '#' {
        SymLine::Skip
    } else if w >= t.1 {
        SymLine::MissingName
    } else {
        match parse_unsigned(digits, 16, 0xffff_ffff) {
            Err(e) => SymLine::BadAddr(digits, e),
            Ok(v) => SymLine::Entry(v as u32, s.subrange(name.0, name.1)),
        }
    }
}

/// The outcome of reading the lines `spans` of `s`.
pub open spec fn symbol_lines(s: Seq<char>, spans: Seq<(int, int)>) -> Result<Seq<(u32, Seq<char>)>, SymLine>
    decreases spans.len(),
{
    if spans.len() == 0 {
        Ok(Seq::empty())
    } else {
        match symbol_lines(s, spans.drop_last()) {
            Err(e) => Err(e),
            Ok(es) => match symbol_line(s, spans.last().0, spans.last().1) {
                SymLine::Skip => Ok(es),
                SymLine::Entry(a, n) => Ok(es.push((a, n))),
                other => Err(other),
            },
        }
    }
}

proof fn lemma_symbols_err_sticks(s: Seq<char>, spans: Seq<(int, int)>, k: int)
    requires
        0 <= k <= spans.len(),
        symbol_lines(s, spans.take(k)) is Err,
    ensures
        symbol_lines(s, spans) == symbol_lines(s, spans.take(k)),
    decreases spans.len() - k,
{
    if k < spans.len() {
        assert(spans.take(k + 1).drop_last() =~= spans.take(k));
        lemma_symbols_err_sticks(s, spans, k + 1);
    } else {
        assert(spans.take(k) =~= spans);
    }
}

/// Reads a symbol table: `(address, name)` per entry line, in file order,
/// or the first line without a name or with a bad address.
pub fn read_symbols(text: &str) -> (r: Result<Vec<(u32, String)>, SymbolError>)
    ensures
        match symbol_lines(text@, line_spans(text@, 0)) {
            Ok(es) => r matches Ok(v) && crate::radius::symbol_views(v@) == es,
            Err(SymLine::MissingName) => r matches Err(SymbolError::MissingName),
            Err(SymLine::BadAddr(d, k)) => r matches Err(SymbolError::BadAddr { text: t, kind }) && t@ == d && kind == k,
            Err(_) => false,
        },
{
    let cs = chars_of(text);
    let spans = lines(&cs);
    let ghost sp = line_spans(cs@, 0);
    let mut out: Vec<(u32, String)> = Vec::new();
    let mut k: usize = 0;
    assert(sp.take(0) =~= Seq::<(int, int)>::empty());
    assert(crate::radius::symbol_views(out@) =~= Seq::<(u32, Seq<char>)>::empty());
    while k < spans.len()
        invariant
            cs@ == text@,
            sp == line_spans(cs@, 0),
            spans@.len() == sp.len(),
            forall|j: int| 0 <= j < spans@.len() ==> (#[trigger] spans@[j]).0 == sp[j].0 && spans@[j].1 == sp[j].1,
            forall|j: int| 0 <= j < spans@.len() ==> (#[trigger] spans@[j]).0 <= spans@[j].1 <= cs@.len(),
            k <= spans.len(),
            symbol_lines(cs@, sp.take(k as int)) == Ok::<Seq<(u32, Seq<char>)>, SymLine>(crate::radius::symbol_views(out@)),
        decreases spans.len() - k,
    {
        let (a, b) = spans[k];
        assert(sp.take(k as int + 1).drop_last() =~= sp.take(k as int));
        assert(sp.take(k as int + 1).last() == sp[k as int]);
        let (ta, tb) = trim(&cs, a, b);
        if ta >= tb || cs[ta] == '#' {
            k = k + 1;
            continue;
        }
        let w = find_ws(&cs, ta, tb);
        proof {
            lemma_scan_facts(cs@, ta as int, tb as int, ws());
        }
        if w >= tb {
            proof { lemma_symbols_err_sticks(cs@, sp, k as int + 1); }
            return Err(SymbolError::MissingName);
        }
        let from = if w - ta >= 2 && cs[ta] == '0' && cs[ta + 1] == 'x' { ta + 2 } else { ta };
        match parse_uint(&cs, from, w, 16, 0xffff_ffff) {
            Err(kind) => {
                proof { lemma_symbols_err_sticks(cs@, sp, k as int + 1); }
                return Err(SymbolError::BadAddr { text: string_of_span(&cs, from, w), kind });
            },
            Ok(v) => {
                let (na, nb) = trim(&cs, w + 1, tb);
                let ghost before = out@;
                let name = string_of_span(&cs, na, nb);
                out.push((v as u32, name));
                proof {
                    assert(crate::radius::symbol_views(out@) =~= crate::radius::symbol_views(before).push((v as u32, cs@.subrange(na as int, nb as int))));
                }
            },
        }
        k = k + 1;
    }
    assert(sp.take(spans.len() as int) =~= sp);
    Ok(out)
}

} // verus!
