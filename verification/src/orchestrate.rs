//! The decisions of the per-patch validation run: which patches exist and
//! are selected, how ROMs and hash files are named, which (ROM, bk2) pairs
//! are hashed and compared, how a comparison's verdict line is read back,
//! and how the results are summarized.
use vstd::prelude::*;
use crate::num::{dec_chars, decimal, parse_i64, parse_signed64};
use crate::strorder::{strictly_sorted, views, sort_dedup};
use crate::text::{chars_of, lines, line_spans, next_token, scan, not_ws, ws, skip_ws, find_ws, span_is, span_starts_with,
    string_of, string_of_span, token_at, trim, trim_span, lemma_scan_facts};
use crate::compare::{push_all, push_str};

verus! {

pub open spec fn ifndef_word() -> Seq<char> {
    seq!['.', 'i', 'f', 'n', 'd', 'e', 'f']
}

pub open spec fn decomp_word() -> Seq<char> {
    seq!['D', 'E', 'C', 'O', 'M', 'P', '_']
}

/// `w` starts `s` at index `at`.
pub open spec fn starts_at(s: Seq<char>, at: int, w: Seq<char>) -> bool {
    0 <= at && at + w.len() <= s.len() && s.subrange(at, at + w.len()) == w
}

/// The patch a line of assembly guards: after optional leading whitespace,
/// `.ifndef`, optional whitespace, `DECOMP_`, then the symbol up to the next
/// whitespace or the end of the line.
pub open spec fn ifndef_name(s: Seq<char>) -> Option<Seq<char>> {
    let a = scan(s, 0, s.len() as int, not_ws());
    let b = scan(s, a + 7, s.len() as int, not_ws());
    let c = b + 7;
    let e = scan(s, c, s.len() as int, ws());
    if !starts_at(s, a, ifndef_word()) || !starts_at(s, b, decomp_word()) {
        None
    } else {
        Some(s.subrange(c, e))
    }
}

/// Matches `.ifndef DECOMP_<sym>` lines.
pub struct IfndefRe;

impl IfndefRe {
    pub fn new() -> (r: IfndefRe)
        ensures
            r == IfndefRe,
    {
        IfndefRe
    }

    /// The guarded symbol of `line`, if it is such a guard.
    pub fn match_line(&self, line: &str) -> (r: Option<String>)
        ensures
            match ifndef_name(line@) {
                Some(n) => r matches Some(s) && s@ == n,
                None => r is None,
            },
    {
        let cs = chars_of(line);
        assert(cs@.subrange(0, cs.len() as int) =~= cs@);
        name_in_span(&cs, 0, cs.len())
    }
}

/// `ifndef_name` of the span `cs[from..to]`.
pub open spec fn ifndef_in(s: Seq<char>, from: int, to: int) -> Option<Seq<char>> {
    ifndef_name(s.subrange(from, to))
}

proof fn lemma_scan_shift(s: Seq<char>, from: int, to: int, i: int, j: int, p: spec_fn(char) -> bool)
    requires
        0 <= from <= to <= s.len(),
        0 <= i <= j <= to - from,
    ensures
        scan(s.subrange(from, to), i, j, p) == scan(s, from + i, from + j, p) - from,
    decreases j - i,
{
    if i < j {
        lemma_scan_shift(s, from, to, i + 1, j, p);
    }
}

fn name_in_span(cs: &[char], from: usize, to: usize) -> (r: Option<String>)
    requires
        from <= to <= cs.len(),
    ensures
        match ifndef_in(cs@, from as int, to as int) {
            Some(n) => r matches Some(s) && s@ == n,
            None => r is None,
        },
{
    let ghost s = cs@.subrange(from as int, to as int);
    let ifndef: [char; 7] = ['.', 'i', 'f', 'n', 'd', 'e', 'f'];
    let decomp: [char; 7] = ['D', 'E', 'C', 'O', 'M', 'P', '_'];
    assert(ifndef@ =~= ifndef_word());
    assert(decomp@ =~= decomp_word());
    let a = skip_ws(cs, from, to);
    proof {
        lemma_scan_shift(cs@, from as int, to as int, 0, to - from, not_ws());
        lemma_scan_facts(cs@, from as int, to as int, not_ws());
    }
    if !span_starts_with(cs, a, to, &ifndef) {
        proof {
            if starts_at(s, a - from, ifndef_word()) {
                assert(s.subrange(a - from, a - from + 7) =~= cs@.subrange(a as int, a + 7));
            }
        }
        return None;
    }
    assert(s.subrange(a - from, a - from + 7) =~= cs@.subrange(a as int, a + 7));
    let b = skip_ws(cs, a + 7, to);
    proof {
        lemma_scan_shift(cs@, from as int, to as int, a - from + 7, to - from, not_ws());
        lemma_scan_facts(cs@, a + 7, to as int, not_ws());
    }
    if !span_starts_with(cs, b, to, &decomp) {
        proof {
            if starts_at(s, b - from, decomp_word()) {
                assert(s.subrange(b - from, b - from + 7) =~= cs@.subrange(b as int, b + 7));
            }
        }
        return None;
    }
    assert(s.subrange(b - from, b - from + 7) =~= cs@.subrange(b as int, b + 7));
    let e = find_ws(cs, b + 7, to);
    proof {
        lemma_scan_shift(cs@, from as int, to as int, b - from + 7, to - from, ws());
        lemma_scan_facts(cs@, b + 7, to as int, ws());
        assert(s.subrange(b - from + 7, e - from) =~= cs@.subrange(b + 7, e as int));
    }
    Some(string_of_span(cs, b + 7, e))
}

/// Some line of `text` guards `name`.
pub open spec fn guards(text: Seq<char>, name: Seq<char>) -> bool {
    exists|k: int| 0 <= k < line_spans(text, 0).len() && #[trigger] ifndef_in(text, line_spans(text, 0)[k].0, line_spans(text, 0)[k].1) == Some(name)
}

/// Every patch the assembly sources guard: the symbols of all their
/// `.ifndef DECOMP_<sym>` lines, sorted without repeats.
pub fn canonical_patches(sources: &[String]) -> (r: Vec<String>)
    ensures
        strictly_sorted(views(r@)),
        forall|n: Seq<char>| #[trigger] views(r@).contains(n) <==> exists|f: int| 0 <= f < sources@.len() && guards(#[trigger] sources@[f]@, n),
{
    let mut found: Vec<String> = Vec::new();
    let mut f: usize = 0;
    while f < sources.len()
        invariant
            f <= sources.len(),
            forall|n: Seq<char>| #[trigger] views(found@).contains(n) <==> exists|g: int| 0 <= g < f && guards(#[trigger] sources@[g]@, n),
        decreases sources.len() - f,
    {
        let cs = chars_of(sources[f].as_str());
        let spans = lines(&cs);
        let ghost sp = line_spans(cs@, 0);
        let ghost before = views(found@);
        let mut k: usize = 0;
        while k < spans.len()
            invariant
                f < sources.len(),
                cs@ == sources@[f as int]@,
                sp == line_spans(cs@, 0),
                spans@.len() == sp.len(),
                forall|j: int| 0 <= j < spans@.len() ==> (#[trigger] spans@[j]).0 == sp[j].0 && spans@[j].1 == sp[j].1,
                forall|j: int| 0 <= j < spans@.len() ==> (#[trigger] spans@[j]).0 <= spans@[j].1 <= cs@.len(),
                k <= spans.len(),
                forall|n: Seq<char>| #[trigger] views(found@).contains(n) <==> (before.contains(n) || exists|j: int| 0 <= j < k && #[trigger] ifndef_in(cs@, sp[j].0, sp[j].1) == Some(n)),
            decreases spans.len() - k,
        {
            let (a, b) = spans[k];
            match name_in_span(&cs, a, b) {
                Some(name) => {
                    let ghost nv = name@;
                    let ghost prev = views(found@);
                    found.push(name);
                    proof {
                        assert(views(found@) =~= prev.push(nv));
                        assert forall|n: Seq<char>| #[trigger] views(found@).contains(n) <==> (before.contains(n) || exists|j: int| 0 <= j < k + 1 && #[trigger] ifndef_in(cs@, sp[j].0, sp[j].1) == Some(n)) by {
                            crate::seq_facts::lemma_push_contains(prev, nv, n);
                            if n == nv {
                                assert(ifndef_in(cs@, sp[k as int].0, sp[k as int].1) == Some(n));
                            }
                            if exists|j: int| 0 <= j < k + 1 && #[trigger] ifndef_in(cs@, sp[j].0, sp[j].1) == Some(n) {
                                let j = choose|j: int| 0 <= j < k + 1 && #[trigger] ifndef_in(cs@, sp[j].0, sp[j].1) == Some(n);
                                if j < k {
                                } else {
                                    assert(n == nv);
                                }
                            }
                        }
                    }
                },
                None => {
                    proof {
                        assert forall|n: Seq<char>| #[trigger] views(found@).contains(n) <==> (before.contains(n) || exists|j: int| 0 <= j < k + 1 && #[trigger] ifndef_in(cs@, sp[j].0, sp[j].1) == Some(n)) by {
                            if exists|j: int| 0 <= j < k + 1 && #[trigger] ifndef_in(cs@, sp[j].0, sp[j].1) == Some(n) {
                                let j = choose|j: int| 0 <= j < k + 1 && #[trigger] ifndef_in(cs@, sp[j].0, sp[j].1) == Some(n);
                                if j == k {
                                    assert(ifndef_in(cs@, sp[k as int].0, sp[k as int].1) is None);
                                }
                            }
                        }
                    }
                },
            }
            k = k + 1;
        }
        proof {
            assert forall|n: Seq<char>| #[trigger] views(found@).contains(n) <==> exists|g: int| 0 <= g < f + 1 && guards(#[trigger] sources@[g]@, n) by {
                if views(found@).contains(n) && !before.contains(n) {
                    let j = choose|j: int| 0 <= j < k && #[trigger] ifndef_in(cs@, sp[j].0, sp[j].1) == Some(n);
                    assert(guards(sources@[f as int]@, n));
                }
                if exists|g: int| 0 <= g < f + 1 && guards(#[trigger] sources@[g]@, n) {
                    let g = choose|g: int| 0 <= g < f + 1 && guards(#[trigger] sources@[g]@, n);
                    if g == f {
                        let j = choose|j: int| 0 <= j < line_spans(cs@, 0).len() && #[trigger] ifndef_in(cs@, line_spans(cs@, 0)[j].0, line_spans(cs@, 0)[j].1) == Some(n);
                        assert(ifndef_in(cs@, sp[j].0, sp[j].1) == Some(n));
                    }
                }
            }
        }
        f = f + 1;
    }
    sort_dedup(found)
}

/// Why a patch selection was refused.
pub enum SelectError {
    /// Named patches that no `.ifndef` guards, in the order given.
    Unknown(Vec<String>),
    /// A 1-based inclusive range outside the patch list.
    Range { start: usize, end: usize, have: usize },
}

/// The patches to validate: the named ones when any are named (all must
/// exist), else the 1-based inclusive range `start..=end` of the full list
/// (default: all of it).
pub fn select_patches(all: &[String], start: Option<usize>, end: Option<usize>, patches: &[String]) -> (r: Result<Vec<String>, SelectError>)
    ensures
        patches@.len() > 0 ==> ({
            let bad = views(patches@).filter(|p: Seq<char>| !views(all@).contains(p));
            if bad.len() > 0 {
                r matches Err(SelectError::Unknown(b)) && views(b@) == bad
            } else {
                r matches Ok(sel) && views(sel@) == views(patches@)
            }
        }),
        patches@.len() == 0 ==> ({
            let s = match start { Some(v) => v as int, None => 1 };
            let e = match end { Some(v) => v as int, None => all@.len() as int };
            if s < 1 || e < s || e > all@.len() {
                r matches Err(SelectError::Range { start: rs, end: re, have }) && rs == s && re == e && have == all@.len()
            } else {
                r matches Ok(sel) && views(sel@) == views(all@).subrange(s - 1, e)
            }
        }),
{
    if patches.len() > 0 {
        let ghost pv = views(patches@);
        let ghost av = views(all@);
        let ghost pred = |p: Seq<char>| !av.contains(p);
        let mut bad: Vec<String> = Vec::new();
        let mut sel: Vec<String> = Vec::new();
        let mut i: usize = 0;
        while i < patches.len()
            invariant
                i <= patches.len(),
                pv == views(patches@),
                av == views(all@),
                pred == (|p: Seq<char>| !av.contains(p)),
                views(bad@) == pv.take(i as int).filter(pred),
                views(sel@) == pv.take(i as int).filter(|p: Seq<char>| !pred(p)),
            decreases patches.len() - i,
        {
            let ghost t = pv.take(i as int + 1);
            assert(t.drop_last() =~= pv.take(i as int));
            assert(t.last() == patches@[i as int]@);
            let mut found = false;
            let mut j: usize = 0;
            while j < all.len()
                invariant
                    j <= all.len(),
                    i < patches.len(),
                    av == views(all@),
                    found <==> exists|k: int| 0 <= k < j && av[k] == patches@[i as int]@,
                decreases all.len() - j,
            {
                assert(av[j as int] == all@[j as int]@);
                if all[j] == patches[i] {
                    found = true;
                }
                j = j + 1;
            }
            proof {
                if av.contains(patches@[i as int]@) {
                    let k = choose|k: int| 0 <= k < av.len() && av[k] == patches@[i as int]@;
                }
                assert(found == av.contains(patches@[i as int]@));
            }
            reveal(Seq::filter);
            if found {
                let ghost prev = views(sel@);
                sel.push(patches[i].clone());
                assert(views(sel@) =~= prev.push(patches@[i as int]@));
            } else {
                let ghost prev = views(bad@);
                bad.push(patches[i].clone());
                assert(views(bad@) =~= prev.push(patches@[i as int]@));
            }
            i = i + 1;
        }
        assert(pv.take(patches.len() as int) =~= pv);
        if bad.len() > 0 {
            return Err(SelectError::Unknown(bad));
        }
        proof {
            let keep = |p: Seq<char>| !pred(p);
            assert forall|k: int| 0 <= k < pv.len() implies keep(pv[k]) by {
                if !keep(pv[k]) {
                    pv.lemma_filter_contains(pred, k);
                    assert(pv.filter(pred).len() > 0);
                }
            }
            lemma_filter_all(pv, keep);
        }
        return Ok(sel);
    }
    let s = match start { Some(v) => v, None => 1 };
    let e = match end { Some(v) => v, None => all.len() };
    if s < 1 || e < s || e > all.len() {
        return Err(SelectError::Range { start: s, end: e, have: all.len() });
    }
    let mut sel: Vec<String> = Vec::new();
    let mut i: usize = s - 1;
    while i < e
        invariant
            s - 1 <= i <= e <= all.len(),
            1 <= s,
            views(sel@) == views(all@).subrange(s - 1, i as int),
        decreases e - i,
    {
        let ghost prev = views(sel@);
        let x = all[i].clone();
        sel.push(x);
        assert(views(sel@) =~= prev.push(all@[i as int]@));
        assert(views(all@).subrange(s - 1, i as int + 1) =~= views(all@).subrange(s - 1, i as int).push(all@[i as int]@));
        i = i + 1;
    }
    Ok(sel)
}

/// Filtering by a test every element passes keeps the sequence.
proof fn lemma_filter_all(s: Seq<Seq<char>>, p: spec_fn(Seq<char>) -> bool)
    requires
        forall|k: int| 0 <= k < s.len() ==> p(#[trigger] s[k]),
    ensures
        s.filter(p) == s,
    decreases s.len(),
{
    reveal(Seq::filter);
    if s.len() > 0 {
        lemma_filter_all(s.drop_last(), p);
        assert(p(s[s.len() - 1]));
        assert(s.drop_last().push(s.last()) =~= s);
    } else {
        assert(s.filter(p) =~= s);
    }
}

/// The 1-based index of a patch in the full list: its first position plus
/// one, or 1 when it is not listed.
pub fn global_index(all: &[String], name: &String) -> (r: usize)
    ensures
        views(all@).contains(name@) ==> r >= 1 && r - 1 < all@.len() && views(all@)[r - 1] == name@
            && forall|j: int| 0 <= j < r - 1 ==> views(all@)[j] != name@,
        !views(all@).contains(name@) ==> r == 1,
{
    let mut i: usize = 0;
    while i < all.len()
        invariant
            i <= all.len(),
            forall|j: int| 0 <= j < i ==> views(all@)[j] != name@,
        decreases all.len() - i,
    {
        if all[i] == *name {
            assert(views(all@)[i as int] == name@);
            return i + 1;
        }
        i = i + 1;
    }
    proof {
        if views(all@).contains(name@) {
            let k = choose|k: int| 0 <= k < views(all@).len() && views(all@)[k] == name@;
        }
    }
    1
}

/// `v` in decimal, zero-padded to at least `width` digits (`{:0width}`).
pub open spec fn padded_dec(v: nat, width: nat) -> Seq<char> {
    let d = dec_chars(v);
    if d.len() < width {
        Seq::new((width - d.len()) as nat, |i: int| '0') + d
    } else {
        d
    }
}

fn padded_decimal(v: u64, width: usize) -> (r: Vec<char>)
    ensures
        r@ == padded_dec(v as nat, width as nat),
{
    let d = decimal(v);
    let mut out: Vec<char> = Vec::new();
    if d.len() < width {
        let pad = width - d.len();
        let mut i: usize = 0;
        while i < pad
            invariant
                i <= pad,
                out@ == Seq::new(i as nat, |k: int| '0'),
            decreases pad - i,
        {
            out.push('0');
            i = i + 1;
            assert(out@ =~= Seq::new(i as nat, |k: int| '0'));
        }
    }
    push_all(&mut out, &d);
    assert(out@ =~= padded_dec(v as nat, width as nat));
    out
}

/// The stem of a patch ROM and its hash files: `{idx:07}_{name}`.
pub open spec fn patch_stem_spec(idx: usize, name: Seq<char>) -> Seq<char> {
    padded_dec(idx as nat, 7) + seq!['_'] + name
}

proof fn lemma_dec_first(v: nat)
    ensures
        dec_chars(v).len() >= 1,
        dec_chars(v)[0] != 'b',
    decreases v,
{
    if v >= 10 {
        lemma_dec_first(v / 10);
        assert((dec_chars(v / 10) + seq![(0x30 + v % 10) as char])[0] == dec_chars(v / 10)[0]);
    } else {
        assert(((0x30 + v) as char) as int == 0x30 + v);
    }
}

/// The ROM built for a patch is named so that its ROM stem is the patch's
/// stem: the hash files written under the ROM's stem are the ones the
/// comparison looks up under the patch's stem.
pub proof fn lemma_patch_rom_stem(idx: usize, name: Seq<char>)
    ensures
        trim_bn6f(file_stem("bn6f_"@ + patch_stem_spec(idx, name) + ".gba"@)) == patch_stem_spec(idx, name),
{
    reveal_strlit("bn6f_");
    reveal_strlit(".gba");
    let s = patch_stem_spec(idx, name);
    let f = "bn6f_"@ + s + ".gba"@;
    let n = f.len() as int;
    lemma_dec_first(idx as nat);
    assert(padded_dec(idx as nat, 7).len() >= 1);
    assert(padded_dec(idx as nat, 7)[0] != 'b');
    assert(s[0] == padded_dec(idx as nat, 7)[0]);
    assert(f[n - 1] == 'a' && f[n - 2] == 'b' && f[n - 3] == 'g' && f[n - 4] == '.');
    assert(last_dot(f, n - 3) == n - 4);
    assert(last_dot(f, n - 2) == n - 4);
    assert(last_dot(f, n - 1) == n - 4);
    assert(last_dot(f, n) == n - 4);
    assert(!is_dot_name(f)) by {
        if f == seq!['.'] || f == seq!['.', '.'] {
            assert(f.len() <= 2);
        }
    }
    let t = "bn6f_"@ + s;
    assert(f.take(n - 4) =~= t);
    assert(t.take(5) =~= "bn6f_"@);
    assert(t.skip(5) =~= s);
    assert(s.take(5)[0] == s[0]);
    assert(s.take(5) != "bn6f_"@) by {
        if s.len() >= 5 && s.take(5) == "bn6f_"@ {
            assert("bn6f_"@[0] == 'b');
        }
    }
    assert(file_stem(f) == t);
    assert(trim_bn6f(t) == trim_bn6f(s));
    assert(trim_bn6f(s) == s);
}

/// `{idx:07}_{name}`.
pub fn patch_stem(idx: usize, name: &String) -> (r: String)
    ensures
        r@ == patch_stem_spec(idx, name@),
{
    let mut out = padded_decimal(idx as u64, 7);
    out.push('_');
    push_str(&mut out, name.as_str());
    string_of(out.as_slice())
}

/// The file name of a patch ROM: `bn6f_{idx:07}_{name}.gba`.
pub fn patch_rom_file(idx: usize, name: &String) -> (r: String)
    ensures
        r@ == "bn6f_"@ + patch_stem_spec(idx, name@) + ".gba"@,
{
    let mut out: Vec<char> = Vec::new();
    push_str(&mut out, "bn6f_");
    let stem = patch_stem(idx, name);
    push_str(&mut out, stem.as_str());
    push_str(&mut out, ".gba");
    string_of(out.as_slice())
}

/// `.` and `..`, which name no file of their own.
pub open spec fn is_dot_name(f: Seq<char>) -> bool {
    f == seq!['.'] || f == seq!['.', '.']
}

/// `Path::file_stem` of a file name (one without `/`): up to its last `.`,
/// unless that dot starts the name; nothing for `.` and `..`.
pub open spec fn file_stem(f: Seq<char>) -> Seq<char> {
    let d = last_dot(f, f.len() as int);
    if is_dot_name(f) {
        Seq::empty()
    } else if d <= 0 {
        f
    } else {
        f.take(d)
    }
}

/// `Path::extension` of a file name (one without `/`): after its last `.`,
/// unless that dot starts the name; none for `.` and `..`.
pub open spec fn extension_of(f: Seq<char>) -> Option<Seq<char>> {
    let d = last_dot(f, f.len() as int);
    if is_dot_name(f) || d <= 0 {
        None
    } else {
        Some(f.skip(d + 1))
    }
}

/// The last index before `to` holding `.`, or -1.
pub open spec fn last_dot(f: Seq<char>, to: int) -> int
    decreases to,
{
    if to <= 0 {
        -1
    } else if f[to - 1] == '.' {
        to - 1
    } else {
        last_dot(f, to - 1)
    }
}

/// `s` with every leading `bn6f_` removed (`trim_start_matches`).
pub open spec fn trim_bn6f(s: Seq<char>) -> Seq<char>
    decreases s.len(),
{
    if s.len() >= 5 && s.take(5) == "bn6f_"@ {
        trim_bn6f(s.skip(5))
    } else {
        s
    }
}

fn last_dot_index(cs: &Vec<char>) -> (r: Option<usize>)
    ensures
        match r {
            Some(p) => p < cs@.len() && last_dot(cs@, cs@.len() as int) == p,
            None => last_dot(cs@, cs@.len() as int) == -1,
        },
{
    let mut d = cs.len();
    while d > 0
        invariant
            d <= cs.len(),
            last_dot(cs@, cs.len() as int) == last_dot(cs@, d as int),
        decreases d,
    {
        if cs[d - 1] == '.' {
            return Some(d - 1);
        }
        d = d - 1;
    }
    None
}

fn dot_name(cs: &Vec<char>) -> (r: bool)
    ensures
        r == is_dot_name(cs@),
{
    let one = cs.len() == 1 && cs[0] == '.';
    let two = cs.len() == 2 && cs[0] == '.' && cs[1] == '.';
    proof {
        if cs@.len() == 1 && cs@[0] == '.' {
            assert(cs@ =~= seq!['.']);
        }
        if cs@.len() == 2 && cs@[0] == '.' && cs@[1] == '.' {
            assert(cs@ =~= seq!['.', '.']);
        }
    }
    one || two
}

/// Where the stem of the file name `cs` ends.
fn stem_end(cs: &Vec<char>) -> (end: usize)
    ensures
        end <= cs@.len(),
        cs@.take(end as int) == file_stem(cs@),
{
    if dot_name(cs) {
        return 0;
    }
    match last_dot_index(cs) {
        Some(p) => if p == 0 {
            assert(cs@.take(cs@.len() as int) =~= cs@);
            cs.len()
        } else {
            p
        },
        None => {
            assert(cs@.take(cs@.len() as int) =~= cs@);
            cs.len()
        },
    }
}

/// `Path::file_stem` of a file name.
pub fn file_stem_of(file_name: &str) -> (r: String)
    ensures
        r@ == file_stem(file_name@),
{
    let cs = chars_of(file_name);
    let end = stem_end(&cs);
    assert(cs@.subrange(0, end as int) =~= cs@.take(end as int));
    string_of_span(&cs, 0, end)
}

/// Whether `Path::extension` of a file name is `ext`.
pub fn extension_is(file_name: &str, ext: &str) -> (r: bool)
    ensures
        r == (extension_of(file_name@) == Some(ext@)),
{
    let cs = chars_of(file_name);
    let es = chars_of(ext);
    if dot_name(&cs) {
        return false;
    }
    match last_dot_index(&cs) {
        None => false,
        Some(p) => {
            if p == 0 {
                return false;
            }
            let n = cs.len();
            assert(p < n);
            let r = span_is(&cs, p + 1, n, es.as_slice());
            assert(cs@.subrange(p + 1, cs@.len() as int) =~= cs@.skip(p + 1));
            r
        },
    }
}

/// The stem of a ROM's file name with the `bn6f_` prefix removed: `orig`
/// for the original build, `{idx:07}_{name}` for a patch build.
pub fn rom_stem(file_name: &str) -> (r: String)
    ensures
        r@ == trim_bn6f(file_stem(file_name@)),
{
    let cs = chars_of(file_name);
    let end = stem_end(&cs);
    assert(cs@.subrange(0, end as int) =~= cs@.take(end as int));
    let prefix: [char; 5] = ['b', 'n', '6', 'f', '_'];
    proof {
        reveal_strlit("bn6f_");
        assert(prefix@ =~= "bn6f_"@);
    }
    let mut a: usize = 0;
    while span_starts_with(&cs, a, end, &prefix)
        invariant
            a <= end <= cs.len(),
            prefix@ == "bn6f_"@,
            trim_bn6f(file_stem(cs@)) == trim_bn6f(cs@.subrange(a as int, end as int)),
        decreases end - a,
    {
        assert(cs@.subrange(a as int, end as int).take(5) =~= cs@.subrange(a as int, a + 5));
        assert(cs@.subrange(a as int, end as int).skip(5) =~= cs@.subrange(a + 5, end as int));
        a = a + 5;
    }
    proof {
        let rest = cs@.subrange(a as int, end as int);
        if rest.len() >= 5 {
            assert(rest.take(5) =~= cs@.subrange(a as int, a + 5));
        }
    }
    string_of_span(&cs, a, end)
}

/// A manifest line kept when one patch is selected: a `#` comment or a
/// blank line, with its line ending normalized to `\n`.
pub open spec fn kept_header_line(s: Seq<char>, a: int, b: int) -> Seq<char> {
    let t = trim_span(s, a, b);
    if (a < b && s[a] == '#') || t.0 >= t.1 {
        s.subrange(a, b).push('\n')
    } else {
        Seq::empty()
    }
}

/// The kept lines of `spans`, in order.
pub open spec fn header_lines(s: Seq<char>, spans: Seq<(int, int)>) -> Seq<char>
    decreases spans.len(),
{
    if spans.len() == 0 {
        Seq::empty()
    } else {
        header_lines(s, spans.drop_last()) + kept_header_line(s, spans.last().0, spans.last().1)
    }
}

/// The manifest that selects exactly one patch: the comment and blank
/// lines of `raw`, then the patch's name on a line of its own.
pub open spec fn patch_manifest_spec(raw: Seq<char>, name: Seq<char>) -> Seq<char> {
    header_lines(raw, line_spans(raw, 0)) + name + seq!['\n']
}

/// Rewrites the decomp manifest `raw` so that it selects only `name`.
pub fn patch_manifest(raw: &str, name: &str) -> (r: String)
    ensures
        r@ == patch_manifest_spec(raw@, name@),
{
    let cs = chars_of(raw);
    let spans = lines(&cs);
    let ghost sp = line_spans(cs@, 0);
    let mut out: Vec<char> = Vec::new();
    let mut k: usize = 0;
    while k < spans.len()
        invariant
            cs@ == raw@,
            sp == line_spans(cs@, 0),
            spans@.len() == sp.len(),
            forall|j: int|
                0 <= j < spans@.len() ==> (#[trigger] spans@[j]).0 == sp[j].0 && spans@[j].1 == sp[j].1,
            forall|j: int| 0 <= j < spans@.len() ==> (#[trigger] spans@[j]).0 <= spans@[j].1 <= cs@.len(),
            k <= spans.len(),
            out@ == header_lines(cs@, sp.take(k as int)),
        decreases spans.len() - k,
    {
        let (a, b) = spans[k];
        assert(sp.take(k as int + 1).drop_last() =~= sp.take(k as int));
        assert(sp.take(k as int + 1).last() == sp[k as int]);
        let ghost before = out@;
        let (ta, tb) = trim(&cs, a, b);
        if (a < b && cs[a] == '#') || ta >= tb {
            let mut i = a;
            while i < b
                invariant
                    a <= i <= b <= cs@.len(),
                    out@ == before + cs@.subrange(a as int, i as int),
                decreases b - i,
            {
                out.push(cs[i]);
                assert(cs@.subrange(a as int, i as int + 1) =~= cs@.subrange(a as int, i as int).push(cs@[i as int]));
                i = i + 1;
            }
            out.push('\n');
            assert(out@ =~= before + kept_header_line(cs@, a as int, b as int));
        } else {
            assert(kept_header_line(cs@, a as int, b as int) =~= Seq::<char>::empty());
            assert(out@ =~= before + kept_header_line(cs@, a as int, b as int));
        }
        k = k + 1;
    }
    assert(sp.take(spans.len() as int) =~= sp);
    push_str(&mut out, name);
    out.push('\n');
    string_of(out.as_slice())
}

/// The hash file of a (ROM, bk2) pair: `{rom_stem}__{bk2}.{ext}`.
pub fn pair_file_name(rom_stem: &str, bk2: &str, ext: &str) -> (r: String)
    ensures
        r@ == rom_stem@ + seq!['_', '_'] + bk2@ + seq!['.'] + ext@,
{
    let mut out: Vec<char> = Vec::new();
    push_str(&mut out, rom_stem);
    out.push('_');
    out.push('_');
    push_str(&mut out, bk2);
    out.push('.');
    push_str(&mut out, ext);
    assert(out@ =~= rom_stem@ + seq!['_', '_'] + bk2@ + seq!['.'] + ext@);
    string_of(out.as_slice())
}

/// The (ROM, bk2) jobs of a run by index: ROM 0 (the original build) with
/// every bk2, then each patch ROM with every bk2.
pub fn hash_jobs(n_roms: usize, n_bk2: usize) -> (r: Vec<(usize, usize)>)
    requires
        n_roms * n_bk2 <= usize::MAX,
    ensures
        r@.len() == n_roms * n_bk2,
        forall|i: int| 0 <= i < r@.len() ==> (#[trigger] r@[i]).0 == i / (n_bk2 as int) && r@[i].1 == i % (n_bk2 as int),
{
    let mut out: Vec<(usize, usize)> = Vec::new();
    let mut a: usize = 0;
    while a < n_roms
        invariant
            a <= n_roms,
            n_roms * n_bk2 <= usize::MAX,
            out@.len() == a * n_bk2,
            forall|i: int| 0 <= i < out@.len() ==> (#[trigger] out@[i]).0 == i / (n_bk2 as int) && out@[i].1 == i % (n_bk2 as int),
        decreases n_roms - a,
    {
        let mut b: usize = 0;
        while b < n_bk2
            invariant
                a < n_roms,
                b <= n_bk2,
                n_roms * n_bk2 <= usize::MAX,
                out@.len() == a * n_bk2 + b,
                forall|i: int| 0 <= i < out@.len() ==> (#[trigger] out@[i]).0 == i / (n_bk2 as int) && out@[i].1 == i % (n_bk2 as int),
            decreases n_bk2 - b,
        {
            proof {
                let i = a * n_bk2 + b;
                assert(i / (n_bk2 as int) == a && i % (n_bk2 as int) == b) by (nonlinear_arith)
                    requires
                        i == a * n_bk2 + b,
                        b < n_bk2,
                ;
                assert(a * n_bk2 + b < n_roms * n_bk2) by (nonlinear_arith)
                    requires
                        a < n_roms,
                        b < n_bk2,
                ;
            }
            out.push((a, b));
            b = b + 1;
        }
        proof {
            assert(a * n_bk2 + n_bk2 == (a + 1) * n_bk2) by (nonlinear_arith);
        }
        a = a + 1;
    }
    out
}

/// The comparisons of a run: each patch ROM stem with every bk2 stem,
/// patch-major.
pub fn compare_jobs(patch_stems: &[String], bk2_stems: &[String]) -> (r: Vec<(String, String)>)
    requires
        patch_stems@.len() * bk2_stems@.len() <= usize::MAX,
    ensures
        r@.len() == patch_stems@.len() * bk2_stems@.len(),
        forall|i: int| 0 <= i < r@.len() ==> (#[trigger] r@[i]).0@ == patch_stems@[i / (bk2_stems@.len() as int)]@
            && r@[i].1@ == bk2_stems@[i % (bk2_stems@.len() as int)]@,
{
    let jobs = hash_jobs(patch_stems.len(), bk2_stems.len());
    let mut out: Vec<(String, String)> = Vec::new();
    let mut i: usize = 0;
    while i < jobs.len()
        invariant
            i <= jobs.len(),
            jobs@.len() == patch_stems@.len() * bk2_stems@.len(),
            forall|k: int| 0 <= k < jobs@.len() ==> (#[trigger] jobs@[k]).0 == k / (bk2_stems@.len() as int) && jobs@[k].1 == k % (bk2_stems@.len() as int),
            out@.len() == i,
            forall|k: int| 0 <= k < i ==> (#[trigger] out@[k]).0@ == patch_stems@[k / (bk2_stems@.len() as int)]@
                && out@[k].1@ == bk2_stems@[k % (bk2_stems@.len() as int)]@,
        decreases jobs.len() - i,
    {
        let (p, b) = jobs[i];
        proof {
            let n = bk2_stems@.len() as int;
            let m = patch_stems@.len() as int;
            let ii = i as int;
            assert(n > 0 && ii / n < m && 0 <= ii % n < n) by (nonlinear_arith)
                requires
                    0 <= ii < m * n,
                    m >= 0,
                    n >= 0,
            ;
        }
        out.push((patch_stems[p].clone(), bk2_stems[b].clone()));
        i = i + 1;
    }
    out
}

} // verus!

