//! Decisions of the bk2 fleet verification: which target addresses are
//! asked for and under which names, which functions the incremental cache
//! lets a run skip, how replay outcomes are counted, and how the record of
//! green radii is carried to the next run.
use vstd::prelude::*;
use crate::num::{IntErrorKind, parse_uint, parse_unsigned};
use crate::strorder::views;
use crate::text::{chars_of, span_is, span_starts_with, string_of_span, trim, trim_span};

verus! {

/// A target address that did not parse: the text handed to the parser and
/// why it was refused.
pub struct TargetError {
    pub text: String,
    pub kind: IntErrorKind,
}

pub open spec fn hex_prefix() -> Seq<char> {
    seq!['0', 'x']
}

/// The text a target address is parsed from: the trimmed text without its
/// `0x` when it has one, else the text as given (untrimmed).
pub open spec fn target_digits(s: Seq<char>) -> Seq<char> {
    let t = trim_span(s, 0, s.len() as int);
    let ts = s.subrange(t.0, t.1);
    if ts.len() >= 2 && ts.take(2) == hex_prefix() {
        ts.skip(2)
    } else {
        s
    }
}

/// Parses a target function address: hexadecimal, optional `0x` after
/// trimming.
pub fn parse_target(s: &str) -> (r: Result<u32, TargetError>)
    ensures
        match parse_unsigned(target_digits(s@), 16, 0xffff_ffff) {
            Ok(v) => r matches Ok(a) && a == v,
            Err(e) => r matches Err(te) && te.kind == e && te.text@ == target_digits(s@),
        },
{
    let cs = chars_of(s);
    let (a, b) = trim(&cs, 0, cs.len());
    let prefix: [char; 2] = ['0', 'x'];
    let (from, to) = if span_starts_with(&cs, a, b, &prefix) {
        proof {
            assert(prefix@ =~= hex_prefix());
            assert(cs@.subrange(a as int, b as int).take(2) =~= cs@.subrange(a as int, a + 2));
            assert(cs@.subrange(a as int, b as int).skip(2) =~= cs@.subrange(a + 2, b as int));
        }
        (a + 2, b)
    } else {
        proof {
            assert(prefix@ =~= hex_prefix());
            if b - a >= 2 {
                assert(cs@.subrange(a as int, b as int).take(2) =~= cs@.subrange(a as int, a + 2));
            }
            assert(cs@.subrange(0, cs.len() as int) =~= cs@);
        }
        (0, cs.len())
    };
    match parse_uint(&cs, from, to, 16, 0xffff_ffff) {
        Ok(v) => Ok(v as u32),
        Err(kind) => Err(TargetError { text: string_of_span(&cs, from, to), kind }),
    }
}

/// The name a symbol table gives `addr`: the last entry with that address,
/// as a map collected from the table keeps it.
pub open spec fn name_for(symbols: Seq<(u32, Seq<char>)>, addr: u32) -> Option<Seq<char>>
    decreases symbols.len(),
{
    if symbols.len() == 0 {
        None
    } else if symbols.last().0 == addr {
        Some(symbols.last().1)
    } else {
        name_for(symbols.drop_last(), addr)
    }
}

/// Looks up the name of `addr`.
pub fn lookup_name(symbols: &[(u32, String)], addr: u32) -> (r: Option<String>)
    ensures
        match name_for(crate::radius::symbol_views(symbols@), addr) {
            Some(n) => r matches Some(s) && s@ == n,
            None => r is None,
        },
{
    let ghost sv = crate::radius::symbol_views(symbols@);
    let mut i = symbols.len();
    assert(sv.take(symbols.len() as int) =~= sv);
    while i > 0
        invariant
            i <= symbols.len(),
            sv == crate::radius::symbol_views(symbols@),
            name_for(sv, addr) == name_for(sv.take(i as int), addr),
        decreases i,
    {
        assert(sv.take(i as int).drop_last() =~= sv.take(i as int - 1));
        if symbols[i - 1].0 == addr {
            return Some(symbols[i - 1].1.clone());
        }
        i = i - 1;
    }
    None
}

/// Resolves each target address to its symbol name, in order; the first
/// address with no symbol is refused (the cache is keyed by name).
pub fn resolve_targets(addrs: &[u32], symbols: &[(u32, String)]) -> (r: Result<Vec<String>, u32>)
    ensures
        match r {
            Ok(names) => names@.len() == addrs@.len() && forall|i: int|
                0 <= i < addrs@.len() ==> name_for(crate::radius::symbol_views(symbols@), #[trigger] addrs@[i])
                    == Some(names@[i]@),
            Err(a) => exists|i: int|
                0 <= i < addrs@.len() && addrs@[i] == a && name_for(crate::radius::symbol_views(symbols@), a) is None
                    && forall|j: int| 0 <= j < i ==> name_for(crate::radius::symbol_views(symbols@), #[trigger] addrs@[j]) is Some,
        },
{
    let mut names: Vec<String> = Vec::new();
    let mut i: usize = 0;
    while i < addrs.len()
        invariant
            i <= addrs.len(),
            names@.len() == i,
            forall|j: int| 0 <= j < i ==> name_for(crate::radius::symbol_views(symbols@), #[trigger] addrs@[j])
                == Some(names@[j]@),
        decreases addrs.len() - i,
    {
        match lookup_name(symbols, addrs[i]) {
            Some(n) => names.push(n),
            None => {
                assert(forall|j: int| 0 <= j < i ==> name_for(crate::radius::symbol_views(symbols@), #[trigger] addrs@[j]) is Some);
                return Err(addrs[i]);
            },
        }
        i = i + 1;
    }
    Ok(names)
}

/// The radius a function last passed at, per the stored `name,value...`
/// rows: the last value of the last row for the name that has a value.
pub open spec fn prior_for(rows: Seq<(Seq<char>, Seq<Seq<char>>)>, name: Seq<char>) -> Option<Seq<char>>
    decreases rows.len(),
{
    if rows.len() == 0 {
        None
    } else if rows.last().0 == name && rows.last().1.len() > 0 {
        Some(rows.last().1.last())
    } else {
        prior_for(rows.drop_last(), name)
    }
}

/// Looks up the stored radius of `name`.
pub fn prior_pass(rows: &[(String, Vec<String>)], name: &String) -> (r: Option<String>)
    ensures
        match prior_for(crate::radius::graph_view(rows@), name@) {
            Some(v) => r matches Some(s) && s@ == v,
            None => r is None,
        },
{
    let ghost g = crate::radius::graph_view(rows@);
    let mut i = rows.len();
    assert(g.take(rows.len() as int) =~= g);
    while i > 0
        invariant
            i <= rows.len(),
            g == crate::radius::graph_view(rows@),
            prior_for(g, name@) == prior_for(g.take(i as int), name@),
        decreases i,
    {
        assert(g.take(i as int).drop_last() =~= g.take(i as int - 1));
        let n = rows[i - 1].1.len();
        if rows[i - 1].0 == *name && n > 0 {
            assert(g[i - 1].1.last() == rows@[i - 1].1@[n - 1]@);
            return Some(rows[i - 1].1[n - 1].clone());
        }
        i = i - 1;
    }
    None
}

/// A function's pairs are skipped when its radius is known and equals the
/// radius it last passed at.
pub fn should_skip(has_callgraph: bool, radius: &String, prior: &Option<String>) -> (r: bool)
    ensures
        r == (has_callgraph && radius@.len() > 0 && (prior matches Some(p) && p@ == radius@)),
{
    if !has_callgraph || radius.as_str().is_empty() {
        return false;
    }
    match prior {
        Some(p) => *p == *radius,
        None => false,
    }
}

pub open spec fn entry_suffix() -> Seq<char> {
    seq!['.', 'e', 'n', 't', 'r', 'y', '.', 'b', 'i', 'n']
}

/// The sequence number of a captured entry file `NNNN.entry.bin`: the
/// file name without the suffix, parsed as a decimal `usize`.
pub open spec fn entry_seq_spec(fname: Seq<char>) -> Option<int> {
    if fname.len() >= 10 && fname.skip(fname.len() - 10) == entry_suffix() {
        match parse_unsigned(fname.take(fname.len() - 10), 10, usize::MAX as int) {
            Ok(v) => Some(v),
            Err(_) => None,
        }
    } else {
        None
    }
}

/// Recognizes a captured entry file and gives its sequence number.
pub fn entry_seq(fname: &str) -> (r: Option<usize>)
    ensures
        match entry_seq_spec(fname@) {
            Some(v) => r == Some(v as usize),
            None => r is None,
        },
{
    let cs = chars_of(fname);
    let suffix: [char; 10] = ['.', 'e', 'n', 't', 'r', 'y', '.', 'b', 'i', 'n'];
    assert(suffix@ =~= entry_suffix());
    if cs.len() < 10 {
        return None;
    }
    let cut = cs.len() - 10;
    if !span_is(&cs, cut, cs.len(), &suffix) {
        assert(cs@.subrange(cut as int, cs.len() as int) =~= cs@.skip(cut as int));
        return None;
    }
    assert(cs@.subrange(cut as int, cs.len() as int) =~= cs@.skip(cut as int));
    assert(cs@.subrange(0, cut as int) =~= cs@.take(cut as int));
    match parse_uint(&cs, 0, cut, 10, usize::MAX as u64) {
        Ok(v) => Some(v as usize),
        Err(_) => None,
    }
}

/// `{seq:04}`: the sequence number, zero-padded to four digits.
pub open spec fn seq_digits(seq: usize) -> Seq<char> {
    crate::report::pad_left(crate::num::dec_chars(seq as nat), 4, '0')
}

/// The entry snapshot file of capture `seq`: `{seq:04}.entry.bin`.
pub open spec fn entry_file_spec(seq: usize) -> Seq<char> {
    seq_digits(seq) + entry_suffix()
}

/// The expected exit delta file of capture `seq`: `{seq:04}.exit.delta.bin`.
pub open spec fn exit_file_spec(seq: usize) -> Seq<char> {
    seq_digits(seq) + ".exit.delta.bin"@
}

/// `{seq:04}.entry.bin`.
pub fn entry_file_name(seq: usize) -> (r: String)
    ensures
        r@ == entry_file_spec(seq),
{
    let mut out = crate::report::pad_with(crate::num::decimal(seq as u64), 4, '0');
    let suffix: [char; 10] = ['.', 'e', 'n', 't', 'r', 'y', '.', 'b', 'i', 'n'];
    assert(suffix@ =~= entry_suffix());
    let mut i: usize = 0;
    let ghost start = out@;
    while i < 10
        invariant
            i <= 10,
            suffix@ == entry_suffix(),
            out@ == start + suffix@.take(i as int),
        decreases 10 - i,
    {
        out.push(suffix[i]);
        assert(suffix@.take(i as int + 1) =~= suffix@.take(i as int).push(suffix@[i as int]));
        i = i + 1;
    }
    assert(suffix@.take(10) =~= suffix@);
    crate::text::string_of(out.as_slice())
}

/// `{seq:04}.exit.delta.bin`.
pub fn exit_file_name(seq: usize) -> (r: String)
    ensures
        r@ == exit_file_spec(seq),
{
    let mut out = crate::report::pad_with(crate::num::decimal(seq as u64), 4, '0');
    crate::compare::push_str(&mut out, ".exit.delta.bin");
    crate::text::string_of(out.as_slice())
}

/// The name a capture's entry file is written under is read back as its
/// sequence number: replay finds every pair that record wrote.
pub proof fn lemma_entry_file_roundtrip(seq: usize)
    ensures
        entry_seq_spec(entry_file_spec(seq)) == Some(seq as int),
{
    let d = crate::num::dec_chars(seq as nat);
    let p = seq_digits(seq);
    let f = entry_file_spec(seq);
    crate::verdict::lemma_dec_digits(seq as nat);
    crate::verdict::lemma_dec_roundtrip(seq as nat, usize::MAX as int, IntErrorKind::PosOverflow);
    assert(f.skip(f.len() - 10) =~= entry_suffix());
    assert(f.take(f.len() - 10) =~= p);
    if d.len() < 4 {
        let z = Seq::new((4 - d.len()) as nat, |i: int| '0');
        assert(p =~= z + d);
        crate::num::lemma_zero_pad(z, d, 10, usize::MAX as int, IntErrorKind::PosOverflow);
        assert(p[0] == '0');
    } else {
        assert(p == d);
        assert(0x30 <= (d[0] as u32) <= 0x39);
    }
    assert(p[0] != '+') by {
        assert(('+' as u32) == 0x2B);
        assert(('0' as u32) == 0x30);
    }
}

/// The view of an optional string.
pub open spec fn opt_view(o: Option<String>) -> Option<Seq<char>> {
    match o {
        Some(s) => Some(s@),
        None => None,
    }
}

/// One replayed pair: session, function, whether it passed.
pub type PairResult = (String, String, bool);

/// Pairs of `results` in session `s` (any function when `f` is `None`,
/// else only function `f`) whose outcome is `ok`.
pub open spec fn count_pairs(results: Seq<(Seq<char>, Seq<char>, bool)>, s: Seq<char>, f: Option<Seq<char>>, ok: bool) -> nat
    decreases results.len(),
{
    if results.len() == 0 {
        0
    } else {
        let r = results.last();
        count_pairs(results.drop_last(), s, f, ok) + if r.0 == s && r.2 == ok && (f is None || f->Some_0 == r.1) {
            1nat
        } else {
            0nat
        }
    }
}

/// The views of replay results.
pub open spec fn result_views(results: Seq<PairResult>) -> Seq<(Seq<char>, Seq<char>, bool)> {
    results.map_values(|r: PairResult| (r.0@, r.1@, r.2))
}

/// Passed and failed pair counts of a session, or of one function in it.
pub fn tally(results: &[PairResult], session: &String, func: &Option<String>) -> (r: (usize, usize))
    ensures
        r.0 == count_pairs(result_views(results@), session@, opt_view(*func), true),
        r.1 == count_pairs(result_views(results@), session@, opt_view(*func), false),
{
    let ghost rv = result_views(results@);
    let ghost f = opt_view(*func);
    let mut pass: usize = 0;
    let mut fail: usize = 0;
    let mut i: usize = 0;
    while i < results.len()
        invariant
            i <= results.len(),
            rv == result_views(results@),
            f == opt_view(*func),
            pass == count_pairs(rv.take(i as int), session@, f, true),
            fail == count_pairs(rv.take(i as int), session@, f, false),
            pass + fail <= i,
        decreases results.len() - i,
    {
        assert(rv.take(i as int + 1).drop_last() =~= rv.take(i as int));
        let r = &results[i];
        let in_scope = r.0 == *session && match func {
            Some(n) => r.1 == *n,
            None => true,
        };
        if in_scope {
            if r.2 {
                pass = pass + 1;
            } else {
                fail = fail + 1;
            }
        }
        i = i + 1;
    }
    assert(rv.take(results.len() as int) =~= rv);
    (pass, fail)
}

/// A replayed function of one session: its name, how many of its pairs
/// failed, and the radius it was replayed at (none when unknown).
pub struct FnOutcome {
    pub name: String,
    pub failed: usize,
    pub radius: Option<String>,
}

/// The stored radii as a map from function name.
pub open spec fn pass_map(rows: Seq<(Seq<char>, Seq<Seq<char>>)>) -> Map<Seq<char>, Seq<char>> {
    Map::new(|n: Seq<char>| prior_for(rows, n) is Some, |n: Seq<char>| prior_for(rows, n)->Some_0)
}

/// The record after this run: a function whose pairs all passed at a known
/// radius is recorded at that radius; one with a failure is dropped; any
/// other entry is kept as it was.
pub open spec fn merged_pass(prior: Map<Seq<char>, Seq<char>>, outcomes: Seq<(Seq<char>, nat, Option<Seq<char>>)>) -> Map<Seq<char>, Seq<char>>
    decreases outcomes.len(),
{
    if outcomes.len() == 0 {
        prior
    } else {
        let m = merged_pass(prior, outcomes.drop_last());
        let o = outcomes.last();
        if o.1 == 0 {
            match o.2 {
                Some(r) => if r.len() > 0 {
                    m.insert(o.0, r)
                } else {
                    m
                },
                None => m,
            }
        } else {
            m.remove(o.0)
        }
    }
}

/// The views of the outcomes.
pub open spec fn outcome_views(o: Seq<FnOutcome>) -> Seq<(Seq<char>, nat, Option<Seq<char>>)> {
    o.map_values(|x: FnOutcome| (x.name@, x.failed as nat, opt_view(x.radius)))
}

/// Rows `name,value` with distinct names, read as a map.
pub open spec fn rows_map(rows: Seq<(Seq<char>, Seq<char>)>) -> Map<Seq<char>, Seq<char>> {
    Map::new(
        |n: Seq<char>| exists|i: int| 0 <= i < rows.len() && #[trigger] rows[i].0 == n,
        |n: Seq<char>| rows[choose|i: int| 0 <= i < rows.len() && #[trigger] rows[i].0 == n].1,
    )
}

pub open spec fn distinct_names(rows: Seq<(Seq<char>, Seq<char>)>) -> bool {
    forall|i: int, j: int| 0 <= i < j < rows.len() ==> (#[trigger] rows[i]).0 != (#[trigger] rows[j]).0
}

pub open spec fn pair_views(rows: Seq<(String, String)>) -> Seq<(Seq<char>, Seq<char>)> {
    rows.map_values(|r: (String, String)| (r.0@, r.1@))
}

/// Index of `name` among the rows, if present.
fn find_row(rows: &Vec<(String, String)>, name: &String) -> (r: Option<usize>)
    ensures
        match r {
            Some(i) => i < rows@.len() && rows@[i as int].0@ == name@,
            None => forall|i: int| 0 <= i < rows@.len() ==> (#[trigger] rows@[i]).0@ != name@,
        },
{
    let mut i: usize = 0;
    while i < rows.len()
        invariant
            i <= rows.len(),
            forall|k: int| 0 <= k < i ==> (#[trigger] rows@[k]).0@ != name@,
        decreases rows.len() - i,
    {
        if rows[i].0 == *name {
            return Some(i);
        }
        i = i + 1;
    }
    None
}

proof fn lemma_rows_map_at(rows: Seq<(Seq<char>, Seq<char>)>, i: int)
    requires
        distinct_names(rows),
        0 <= i < rows.len(),
    ensures
        rows_map(rows).contains_key(rows[i].0),
        rows_map(rows)[rows[i].0] == rows[i].1,
{
    let n = rows[i].0;
    let j = choose|j: int| 0 <= j < rows.len() && #[trigger] rows[j].0 == n;
    if j != i {
        if j < i {
            assert(rows[j].0 != rows[i].0);
        } else {
            assert(rows[i].0 != rows[j].0);
        }
    }
}

/// Sets `name` to `value` in distinct-name rows.
fn set_row(rows: &mut Vec<(String, String)>, name: String, value: String)
    requires
        distinct_names(pair_views(old(rows)@)),
    ensures
        distinct_names(pair_views(final(rows)@)),
        rows_map(pair_views(final(rows)@)) == rows_map(pair_views(old(rows)@)).insert(name@, value@),
{
    let ghost before = pair_views(rows@);
    match find_row(rows, &name) {
        Some(i) => {
            let ghost nm = name@;
            let ghost vv = value@;
            rows.set(i, (name, value));
            proof {
                let after = pair_views(rows@);
                assert(after =~= before.update(i as int, (nm, vv)));
                assert(distinct_names(after)) by {
                    assert forall|a: int, b: int| 0 <= a < b < after.len() implies (#[trigger] after[a]).0 != (#[trigger] after[b]).0 by {
                        assert(before[a].0 != before[b].0);
                    }
                }
                assert(rows_map(after) =~= rows_map(before).insert(nm, vv)) by {
                    assert forall|n: Seq<char>| rows_map(after).contains_key(n) <==> rows_map(before).insert(nm, vv).contains_key(n) by {
                        if rows_map(after).contains_key(n) {
                            let j = choose|j: int| 0 <= j < after.len() && #[trigger] after[j].0 == n;
                            if j != i {
                                assert(before[j].0 == n);
                            }
                        }
                        if rows_map(before).contains_key(n) {
                            let j = choose|j: int| 0 <= j < before.len() && #[trigger] before[j].0 == n;
                            if j != i {
                                assert(after[j].0 == n);
                            } else {
                                assert(after[i as int].0 == n);
                            }
                        }
                        if n == nm {
                            assert(after[i as int].0 == n);
                        }
                    }
                    assert forall|n: Seq<char>| rows_map(after).contains_key(n) implies rows_map(after)[n] == rows_map(before).insert(nm, vv)[n] by {
                        let j = choose|j: int| 0 <= j < after.len() && #[trigger] after[j].0 == n;
                        lemma_rows_map_at(after, j);
                        if j != i {
                            lemma_rows_map_at(before, j);
                            assert(before[i as int].0 == nm);
                            if j < i {
                                assert(before[j].0 != before[i as int].0);
                            } else {
                                assert(before[i as int].0 != before[j].0);
                            }
                        }
                    }
                }
            }
        },
        None => {
            let ghost nm = name@;
            let ghost vv = value@;
            rows.push((name, value));
            proof {
                let after = pair_views(rows@);
                assert(after =~= before.push((nm, vv)));
                assert(distinct_names(after)) by {
                    assert forall|a: int, b: int| 0 <= a < b < after.len() implies (#[trigger] after[a]).0 != (#[trigger] after[b]).0 by {
                        if b == before.len() {
                            assert(rows@[a].0@ != nm);
                        } else {
                            assert(before[a].0 != before[b].0);
                        }
                    }
                }
                assert(rows_map(after) =~= rows_map(before).insert(nm, vv)) by {
                    assert forall|n: Seq<char>| rows_map(after).contains_key(n) <==> rows_map(before).insert(nm, vv).contains_key(n) by {
                        if rows_map(after).contains_key(n) {
                            let j = choose|j: int| 0 <= j < after.len() && #[trigger] after[j].0 == n;
                            if j < before.len() {
                                assert(before[j].0 == n);
                            }
                        }
                        if rows_map(before).contains_key(n) {
                            let j = choose|j: int| 0 <= j < before.len() && #[trigger] before[j].0 == n;
                            assert(after[j].0 == n);
                        }
                        if n == nm {
                            assert(after[before.len() as int].0 == n);
                        }
                    }
                    assert forall|n: Seq<char>| rows_map(after).contains_key(n) implies rows_map(after)[n] == rows_map(before).insert(nm, vv)[n] by {
                        let j = choose|j: int| 0 <= j < after.len() && #[trigger] after[j].0 == n;
                        lemma_rows_map_at(after, j);
                        if j < before.len() {
                            lemma_rows_map_at(before, j);
                        }
                    }
                }
            }
        },
    }
}

/// Removes `name` from distinct-name rows.
fn drop_row(rows: &mut Vec<(String, String)>, name: &String)
    requires
        distinct_names(pair_views(old(rows)@)),
    ensures
        distinct_names(pair_views(final(rows)@)),
        rows_map(pair_views(final(rows)@)) == rows_map(pair_views(old(rows)@)).remove(name@),
{
    let ghost before = pair_views(rows@);
    match find_row(rows, name) {
        None => {
            assert(rows_map(before) =~= rows_map(before).remove(name@)) by {
                if rows_map(before).contains_key(name@) {
                    let j = choose|j: int| 0 <= j < before.len() && #[trigger] before[j].0 == name@;
                    assert(rows@[j].0@ == name@);
                }
            }
        },
        Some(i) => {
            rows.remove(i);
            proof {
                let after = pair_views(rows@);
                assert(after =~= before.subrange(0, i as int) + before.subrange(i as int + 1, before.len() as int));
                assert forall|k: int| 0 <= k < after.len() implies #[trigger] after[k] == (if k < i { before[k] } else { before[k + 1] }) by {}
                assert(distinct_names(after)) by {
                    assert forall|a: int, b: int| 0 <= a < b < after.len() implies (#[trigger] after[a]).0 != (#[trigger] after[b]).0 by {
                        let ia = if a < i { a } else { a + 1 };
                        let ib = if b < i { b } else { b + 1 };
                        assert(before[ia].0 != before[ib].0);
                    }
                }
                assert(rows_map(after) =~= rows_map(before).remove(name@)) by {
                    assert forall|n: Seq<char>| rows_map(after).contains_key(n) <==> rows_map(before).remove(name@).contains_key(n) by {
                        if rows_map(after).contains_key(n) {
                            let j = choose|j: int| 0 <= j < after.len() && #[trigger] after[j].0 == n;
                            let ij = if j < i { j } else { j + 1 };
                            assert(before[ij].0 == n);
                            assert(before[ij].0 != before[i as int].0 || ij == i);
                        }
                        if rows_map(before).contains_key(n) && n != name@ {
                            let j = choose|j: int| 0 <= j < before.len() && #[trigger] before[j].0 == n;
                            assert(j != i);
                            if j < i {
                                assert(after[j].0 == n);
                            } else {
                                assert(after[j - 1].0 == n);
                            }
                        }
                    }
                    assert forall|n: Seq<char>| rows_map(after).contains_key(n) implies rows_map(after)[n] == rows_map(before).remove(name@)[n] by {
                        let j = choose|j: int| 0 <= j < after.len() && #[trigger] after[j].0 == n;
                        lemma_rows_map_at(after, j);
                        let ij = if j < i { j } else { j + 1 };
                        lemma_rows_map_at(before, ij);
                    }
                }
            }
        },
    }
}

/// Carries the record of green radii forward: starts from the stored rows
/// (last value of the last row with a value, per name) and applies this
/// run's outcomes in order. The result has one row per recorded name.
pub fn merge_pair_pass(prior: &[(String, Vec<String>)], outcomes: &[FnOutcome]) -> (r: Vec<(String, String)>)
    ensures
        distinct_names(pair_views(r@)),
        rows_map(pair_views(r@)) == merged_pass(pass_map(crate::radius::graph_view(prior@)), outcome_views(outcomes@)),
{
    let ghost g = crate::radius::graph_view(prior@);
    let mut rows: Vec<(String, String)> = Vec::new();
    let mut i: usize = 0;
    assert(rows_map(pair_views(rows@)) =~= Map::<Seq<char>, Seq<char>>::empty());
    while i < prior.len()
        invariant
            i <= prior.len(),
            g == crate::radius::graph_view(prior@),
            distinct_names(pair_views(rows@)),
            rows_map(pair_views(rows@)) == pass_map(g.take(i as int)),
        decreases prior.len() - i,
    {
        let n = prior[i].1.len();
        let ghost t = g.take(i as int + 1);
        assert(t.drop_last() =~= g.take(i as int));
        if n > 0 {
            set_row(&mut rows, prior[i].0.clone(), prior[i].1[n - 1].clone());
            assert(rows_map(pair_views(rows@)) =~= pass_map(t));
        } else {
            assert(pass_map(t) =~= pass_map(g.take(i as int)));
        }
        i = i + 1;
    }
    assert(g.take(prior.len() as int) =~= g);
    let ghost ov = outcome_views(outcomes@);
    let mut k: usize = 0;
    while k < outcomes.len()
        invariant
            k <= outcomes.len(),
            ov == outcome_views(outcomes@),
            distinct_names(pair_views(rows@)),
            rows_map(pair_views(rows@)) == merged_pass(pass_map(g), ov.take(k as int)),
        decreases outcomes.len() - k,
    {
        assert(ov.take(k as int + 1).drop_last() =~= ov.take(k as int));
        let o = &outcomes[k];
        if o.failed == 0 {
            match &o.radius {
                Some(rad) => {
                    if !rad.as_str().is_empty() {
                        set_row(&mut rows, o.name.clone(), rad.clone());
                    }
                },
                None => {},
            }
        } else {
            drop_row(&mut rows, &o.name);
        }
        k = k + 1;
    }
    assert(ov.take(outcomes.len() as int) =~= ov);
    rows
}

/// Outcome names are distinct (they come from a map).
pub open spec fn distinct_outcomes(o: Seq<(Seq<char>, nat, Option<Seq<char>>)>) -> bool {
    forall|i: int, j: int| 0 <= i < j < o.len() ==> (#[trigger] o[i]).0 != (#[trigger] o[j]).0
}

/// No outcome is for `n`.
pub open spec fn not_named(o: Seq<(Seq<char>, nat, Option<Seq<char>>)>, n: Seq<char>) -> bool {
    forall|i: int| 0 <= i < o.len() ==> (#[trigger] o[i]).0 != n
}

/// The record of green radii never keeps a function whose pairs failed in
/// this run, and records every function that passed at a known radius at
/// exactly that radius; functions not replayed keep what they had.
pub proof fn lemma_merge_keeps_only_green(prior: Map<Seq<char>, Seq<char>>, o: Seq<(Seq<char>, nat, Option<Seq<char>>)>)
    requires
        distinct_outcomes(o),
    ensures
        forall|i: int| 0 <= i < o.len() && (#[trigger] o[i]).1 > 0 ==> !merged_pass(prior, o).contains_key(o[i].0),
        forall|i: int| 0 <= i < o.len() && (#[trigger] o[i]).1 == 0 && o[i].2 is Some && o[i].2->Some_0.len() > 0 ==> merged_pass(prior, o).contains_key(o[i].0)
            && merged_pass(prior, o)[o[i].0] == o[i].2->Some_0,
        forall|n: Seq<char>| #![trigger merged_pass(prior, o).contains_key(n)] #![trigger prior.contains_key(n)]
            not_named(o, n) ==> (merged_pass(prior, o).contains_key(n) <==> prior.contains_key(n))
            && (prior.contains_key(n) ==> merged_pass(prior, o)[n] == prior[n]),
    decreases o.len(),
{
    if o.len() == 0 {
        assert(merged_pass(prior, o) == prior);
    }
    if o.len() > 0 {
        let init = o.drop_last();
        assert forall|i: int, j: int| 0 <= i < j < init.len() implies (#[trigger] init[i]).0 != (#[trigger] init[j]).0 by {
            assert(o[i] == init[i] && o[j] == init[j]);
        }
        lemma_merge_keeps_only_green(prior, init);
        let last = o.last();
        assert forall|i: int| 0 <= i < o.len() - 1 implies (#[trigger] o[i]).0 != last.0 by {
            assert(o[i] == o[i]);
        }
        assert forall|i: int| 0 <= i < o.len() && (#[trigger] o[i]).1 > 0 implies !merged_pass(prior, o).contains_key(o[i].0) by {
            if i < o.len() - 1 {
                assert(init[i] == o[i]);
            }
        }
        assert forall|i: int| 0 <= i < o.len() && (#[trigger] o[i]).1 == 0 && o[i].2 is Some && o[i].2->Some_0.len() > 0 implies merged_pass(prior, o).contains_key(o[i].0)
            && merged_pass(prior, o)[o[i].0] == o[i].2->Some_0 by {
            if i < o.len() - 1 {
                assert(init[i] == o[i]);
            }
        }
        assert forall|n: Seq<char>| #![trigger merged_pass(prior, o).contains_key(n)] #![trigger prior.contains_key(n)]
            not_named(o, n) implies (merged_pass(prior, o).contains_key(n) <==> prior.contains_key(n))
            && (prior.contains_key(n) ==> merged_pass(prior, o)[n] == prior[n]) by {
            assert forall|i: int| 0 <= i < init.len() implies (#[trigger] init[i]).0 != n by {
                assert(init[i] == o[i]);
            }
            assert(not_named(init, n));
            assert(o[o.len() - 1] == last);
            assert(last.0 != n);
            let m = merged_pass(prior, init);
            assert(m.contains_key(n) <==> prior.contains_key(n));
            assert(prior.contains_key(n) ==> m[n] == prior[n]);
            if last.1 == 0 {
                match last.2 {
                    Some(r) => {
                        if r.len() > 0 {
                            assert(merged_pass(prior, o) == m.insert(last.0, r));
                        } else {
                            assert(merged_pass(prior, o) == m);
                        }
                    },
                    None => {
                        assert(merged_pass(prior, o) == m);
                    },
                }
            } else {
                assert(merged_pass(prior, o) == m.remove(last.0));
            }
        }
    }
}

} // verus!

