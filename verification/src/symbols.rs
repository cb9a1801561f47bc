//! The function map: every `func_start` label joined to its linked address,
//! one `<addr_hex>\t<name>\t<isa>` line per function. This is the profiler's
//! index; call counts and coverage are reported per entry here.
use vstd::prelude::*;
use crate::num::{IntErrorKind, parse_uint, parse_unsigned};
use crate::sorting::{Keyed, stable_sort_by_key, stable_sorted_by, lemma_stable_sort_view};
use crate::text::{chars_of, eq_char, find_char, line_spans, lines, scan, span_is, string_of_span, trim, trim_span, lemma_scan_facts};

verus! {

/// One mapped function.
#[derive(Clone, Debug)]
pub struct Function {
    pub name: String,
    /// Linked entry address (even; the Thumb bit is not set here).
    pub addr: u32,
    pub thumb: bool,
}

impl View for Function {
    type V = (u32, Seq<char>, bool);

    open spec fn view(&self) -> (u32, Seq<char>, bool) {
        (self.addr, self.name@, self.thumb)
    }
}

impl Function {
    /// True for the IWRAM-resident routines (copied to 0x03xxxxxx at
    /// runtime), a distinct relocation class the profiler must still count.
    pub fn is_iwram(&self) -> (r: bool)
        ensures
            r == (self.addr >> 24 == 0x03),
    {
        self.addr >> 24 == 0x03
    }
}

impl Keyed for Function {
    open spec fn key_of(&self) -> u32 {
        self.addr
    }

    fn key(&self) -> (k: u32) {
        self.addr
    }
}

/// Why a map line was refused.
#[derive(Clone, Copy, Debug, PartialEq, Eq, Structural)]
pub enum MapErrorKind {
    /// Fewer than three tab-separated fields.
    MissingField,
    /// The address field is not hexadecimal `u32`.
    BadAddr(IntErrorKind),
}

/// A refused map line, numbered from 1.
#[derive(Clone, Copy, Debug, PartialEq, Eq, Structural)]
pub struct MapError {
    pub line: usize,
    pub kind: MapErrorKind,
}

pub open spec fn thumb_word() -> Seq<char> {
    seq!['t', 'h', 'u', 'm', 'b']
}

/// The key of a function as seen through its view.
pub open spec fn entry_addr() -> spec_fn((u32, Seq<char>, bool)) -> u32 {
    |e: (u32, Seq<char>, bool)| e.0
}

/// The meaning of the line `s[a..b]`: `None` for a blank line, else the
/// entry `(addr, name, thumb)` it declares or why it is refused. Fields are
/// split at tabs; the address and the isa are trimmed, the name is not.
pub open spec fn map_line(s: Seq<char>, a: int, b: int) -> Option<Result<(u32, Seq<char>, bool), MapErrorKind>> {
    let t = trim_span(s, a, b);
    let t1 = scan(s, a, b, eq_char('\t'));
    let t2 = scan(s, t1 + 1, b, eq_char('\t'));
    let t3 = scan(s, t2 + 1, b, eq_char('\t'));
    let af = trim_span(s, a, t1);
    let isa = trim_span(s, t2 + 1, t3);
    if t.0 == t.1 {
        None
    } else if t1 >= b || t2 >= b {
        Some(Err(MapErrorKind::MissingField))
    } else {
        match parse_unsigned(s.subrange(af.0, af.1), 16, 0xffff_ffff) {
            Err(e) => Some(Err(MapErrorKind::BadAddr(e))),
            Ok(v) => Some(Ok((v as u32, s.subrange(t1 + 1, t2), s.subrange(isa.0, isa.1) == thumb_word()))),
        }
    }
}

/// The entries declared by the lines `spans` of `s`, in line order, or the
/// first refused line.
pub open spec fn map_entries(s: Seq<char>, spans: Seq<(int, int)>) -> Result<Seq<(u32, Seq<char>, bool)>, MapError>
    decreases spans.len(),
{
    if spans.len() == 0 {
        Ok(Seq::empty())
    } else {
        match map_entries(s, spans.drop_last()) {
            Err(e) => Err(e),
            Ok(es) => match map_line(s, spans.last().0, spans.last().1) {
                None => Ok(es),
                Some(Err(k)) => Err(MapError { line: spans.len() as usize, kind: k }),
                Some(Ok(e)) => Ok(es.push(e)),
            },
        }
    }
}

/// A refused line refuses the whole map.
proof fn lemma_entries_err_sticks(s: Seq<char>, spans: Seq<(int, int)>, k: int)
    requires
        0 <= k <= spans.len(),
        map_entries(s, spans.take(k)) is Err,
    ensures
        map_entries(s, spans) == map_entries(s, spans.take(k)),
    decreases spans.len() - k,
{
    if k < spans.len() {
        assert(spans.take(k + 1).drop_last() =~= spans.take(k));
        lemma_entries_err_sticks(s, spans, k + 1);
    } else {
        assert(spans.take(k) =~= spans);
    }
}

/// Parses a function map: the entries of its lines, stably sorted by
/// address, or the first line that has fewer than three fields or a bad
/// address.
pub fn parse_map(text: &str) -> (r: Result<Vec<Function>, MapError>)
    ensures
        match map_entries(text@, line_spans(text@, 0)) {
            Err(e) => r == Err::<Vec<Function>, MapError>(e),
            Ok(es) => r is Ok && stable_sorted_by(
                r->Ok_0@.map_values(|f: Function| f@),
                es,
                entry_addr(),
            ),
        },
{
    let cs = chars_of(text);
    let spans = lines(&cs);
    let ghost sp = line_spans(cs@, 0);
    let thumb: [char; 5] = ['t', 'h', 'u', 'm', 'b'];
    assert(thumb@ =~= thumb_word());
    let mut out: Vec<Function> = Vec::new();
    let mut k: usize = 0;
    assert(sp.take(0) =~= Seq::<(int, int)>::empty());
    assert(out@.map_values(|f: Function| f@) =~= Seq::<(u32, Seq<char>, bool)>::empty());
    while k < spans.len()
        invariant
            cs@ == text@,
            sp == line_spans(cs@, 0),
            thumb@ == thumb_word(),
            spans@.len() == sp.len(),
            forall|j: int|
                0 <= j < spans@.len() ==> (#[trigger] spans@[j]).0 == sp[j].0 && spans@[j].1 == sp[j].1,
            forall|j: int| 0 <= j < spans@.len() ==> (#[trigger] spans@[j]).0 <= spans@[j].1 <= cs@.len(),
            k <= spans.len(),
            map_entries(cs@, sp.take(k as int)) == Ok::<Seq<(u32, Seq<char>, bool)>, MapError>(
                out@.map_values(|f: Function| f@),
            ),
        decreases spans.len() - k,
    {
        let (a, b) = spans[k];
        assert(sp.take(k as int + 1).drop_last() =~= sp.take(k as int));
        assert(sp.take(k as int + 1).last() == sp[k as int]);
        let (ta, tb) = trim(&cs, a, b);
        if ta == tb {
            assert(map_line(cs@, a as int, b as int) is None);
            assert(map_entries(cs@, sp.take(k as int + 1)) == map_entries(cs@, sp.take(k as int)));
            k = k + 1;
            continue;
        }
        let t1 = find_char(&cs, a, b, '\t');
        proof {
            lemma_scan_facts(cs@, a as int, b as int, eq_char('\t'));
        }
        if t1 == b {
            proof {
                lemma_entries_err_sticks(cs@, sp, k + 1);
            }
            return Err(MapError { line: k + 1, kind: MapErrorKind::MissingField });
        }
        let t2 = find_char(&cs, t1 + 1, b, '\t');
        proof {
            lemma_scan_facts(cs@, t1 + 1, b as int, eq_char('\t'));
        }
        if t2 == b {
            proof {
                lemma_entries_err_sticks(cs@, sp, k + 1);
            }
            return Err(MapError { line: k + 1, kind: MapErrorKind::MissingField });
        }
        let t3 = find_char(&cs, t2 + 1, b, '\t');
        proof {
            lemma_scan_facts(cs@, t2 + 1, b as int, eq_char('\t'));
        }
        let (fa, fb) = trim(&cs, a, t1);
        let addr = match parse_uint(&cs, fa, fb, 16, 0xffff_ffff) {
            Err(e) => {
                proof {
                    lemma_entries_err_sticks(cs@, sp, k + 1);
                }
                return Err(MapError { line: k + 1, kind: MapErrorKind::BadAddr(e) });
            },
            Ok(v) => v as u32,
        };
        let (ia, ib) = trim(&cs, t2 + 1, t3);
        let is_thumb = span_is(&cs, ia, ib, &thumb);
        let f = Function { name: string_of_span(&cs, t1 + 1, t2), addr, thumb: is_thumb };
        let ghost before = out@;
        assert(t1 == scan(cs@, a as int, b as int, eq_char('\t')));
        assert(t2 == scan(cs@, t1 + 1, b as int, eq_char('\t')));
        assert(t3 == scan(cs@, t2 + 1, b as int, eq_char('\t')));
        assert(fa == trim_span(cs@, a as int, t1 as int).0);
        assert(parse_unsigned(cs@.subrange(fa as int, fb as int), 16, 0xffff_ffff) == Ok::<int, IntErrorKind>(addr as int));
        assert(is_thumb == (cs@.subrange(ia as int, ib as int) == thumb_word()));
        assert(map_line(cs@, a as int, b as int) == Some(
            Ok::<(u32, Seq<char>, bool), MapErrorKind>(f@),
        ));
        out.push(f);
        proof {
            assert(out@ == before.push(f));
            assert(out@.map_values(|f: Function| f@) =~= before.map_values(|f: Function| f@).push(f@));
            assert(map_entries(cs@, sp.take(k as int + 1)) == Ok::<Seq<(u32, Seq<char>, bool)>, MapError>(
                before.map_values(|f: Function| f@).push(f@)));
        }
        k = k + 1;
    }
    assert(sp.take(spans.len() as int) =~= sp);
    let ghost unsorted = out@;
    stable_sort_by_key(&mut out);
    proof {
        assert forall|x: Function| #[trigger] crate::sorting::key_fn::<Function>()(x) == entry_addr()(x.view()) by {}
        lemma_stable_sort_view(out@, unsorted, crate::sorting::key_fn::<Function>(), entry_addr());
    }
    Ok(out)
}

} // verus!
