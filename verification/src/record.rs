//! Planning a record pass against the cache: which targets still need
//! recording, how they are named on the command line, and how the call
//! graph captured while recording is written down by function name.
use vstd::prelude::*;
use crate::fleet::{lookup_name, name_for};
use crate::radius::symbol_views;
use crate::report::{hex_upper, hex_upper_chars, pad_left};
use crate::strorder::{sort_dedup, strictly_sorted, views};
use crate::text::{chars_of, string_of};
use crate::compare::{push_all, push_str};
use crate::fleet::{entry_file_name, entry_file_spec, exit_file_name, exit_file_spec, seq_digits};
use crate::num::{dec_chars, decimal};
use crate::report::pad_with;

verus! {

/// Targets (address and name, paired in order) whose slot is not cached.
pub open spec fn uncached_targets(addrs: Seq<u32>, names: Seq<Seq<char>>, cached: Seq<bool>) -> Seq<(u32, Seq<char>)>
    decreases addrs.len(),
{
    let n = if addrs.len() < names.len() { addrs.len() as int } else { names.len() as int };
    if n == 0 {
        Seq::empty()
    } else {
        let rest = uncached_targets(addrs.take(n - 1), names.take(n - 1), cached);
        if cached[n - 1] {
            rest
        } else {
            rest.push((addrs[n - 1], names[n - 1]))
        }
    }
}

/// Splits the targets into cached ones (counted) and the rest, given
/// whether each one's slot is cached; addresses and names are paired in
/// order, up to the shorter list.
pub fn split_cached(addrs: &[u32], names: &[String], cached: &[bool]) -> (r: (usize, Vec<(u32, String)>))
    requires
        cached@.len() >= addrs@.len() || cached@.len() >= names@.len(),
    ensures
        symbol_views(r.1@) == uncached_targets(addrs@, views(names@), cached@),
        r.0 + r.1@.len() == if addrs@.len() < names@.len() { addrs@.len() } else { names@.len() },
{
    let n = if addrs.len() < names.len() { addrs.len() } else { names.len() };
    let mut hit: usize = 0;
    let mut miss: Vec<(u32, String)> = Vec::new();
    let mut i: usize = 0;
    while i < n
        invariant
            n == if addrs@.len() < names@.len() { addrs@.len() } else { names@.len() },
            cached@.len() >= n,
            i <= n,
            hit + miss@.len() == i,
            symbol_views(miss@) == uncached_targets(addrs@.take(i as int), views(names@).take(i as int), cached@),
        decreases n - i,
    {
        assert(addrs@.take(i as int + 1).take(i as int) =~= addrs@.take(i as int));
        assert(views(names@).take(i as int + 1).take(i as int) =~= views(names@).take(i as int));
        if cached[i] {
            hit = hit + 1;
        } else {
            let ghost before = symbol_views(miss@);
            let name = names[i].clone();
            miss.push((addrs[i], name));
            assert(symbol_views(miss@) =~= before.push((addrs@[i as int], names@[i as int]@)));
        }
        i = i + 1;
    }
    assert(addrs@.take(n as int) =~= (if addrs@.len() < names@.len() { addrs@ } else { addrs@.take(n as int) }));
    proof {
        lemma_uncached_prefix(addrs@, views(names@), cached@, n as int);
    }
    (hit, miss)
}

proof fn lemma_uncached_prefix(addrs: Seq<u32>, names: Seq<Seq<char>>, cached: Seq<bool>, n: int)
    requires
        n == if addrs.len() < names.len() { addrs.len() as int } else { names.len() as int },
    ensures
        uncached_targets(addrs.take(n), names.take(n), cached) == uncached_targets(addrs, names, cached),
{
    let a = addrs.take(n);
    let b = names.take(n);
    if n > 0 {
        assert(a.take(n - 1) =~= addrs.take(n - 1));
        assert(b.take(n - 1) =~= names.take(n - 1));
    }
}

/// `{a:08X}` for each uncached target address, as the record pass takes
/// them.
pub fn target_hex_list(targets: &[(u32, String)]) -> (r: Vec<String>)
    ensures
        r@.len() == targets@.len(),
        forall|i: int| 0 <= i < r@.len() ==> (#[trigger] r@[i])@ == pad_left(hex_upper_chars(targets@[i].0 as nat), 8, '0'),
{
    let mut out: Vec<String> = Vec::new();
    let mut i: usize = 0;
    while i < targets.len()
        invariant
            i <= targets.len(),
            out@.len() == i,
            forall|k: int| 0 <= k < i ==> (#[trigger] out@[k])@ == pad_left(hex_upper_chars(targets@[k].0 as nat), 8, '0'),
        decreases targets.len() - i,
    {
        let h = hex_upper(targets[i].0 as u64, 8);
        out.push(string_of(h.as_slice()));
        i = i + 1;
    }
    out
}

/// One captured call edge set: caller entry and callee entries.
pub type Edges = (u32, Vec<u32>);

/// Caller entry `e` of `edges` is named `name`, and `callees` are the
/// names of its named callees.
pub open spec fn names_edge(edges: Seq<Edges>, sv: Seq<(u32, Seq<char>)>, e: int, name: Seq<char>, callees: Seq<String>) -> bool {
    &&& 0 <= e < edges.len()
    &&& name_for(sv, edges[e].0) == Some(name)
    &&& forall|s: Seq<char>| #[trigger] views(callees).contains(s) <==> exists|c: int|
        0 <= c < edges[e].1@.len() && name_for(sv, #[trigger] edges[e].1@[c]) == Some(s)
}

/// Edge sets among the first `k` whose caller has a name.
pub open spec fn named_count(edges: Seq<Edges>, sv: Seq<(u32, Seq<char>)>, k: int) -> nat
    decreases k,
{
    if k <= 0 {
        0
    } else {
        named_count(edges, sv, k - 1) + if name_for(sv, edges[k - 1].0) is Some {
            1nat
        } else {
            0nat
        }
    }
}

/// The call graph by name: for each caller that has a name, in the order
/// given, one row with its name and the sorted, repeat-free names of its
/// callees that have names. Callers without a name are dropped.
pub fn name_edges(edges: &[Edges], symbols: &[(u32, String)]) -> (r: Vec<(String, Vec<String>)>)
    ensures
        r@.len() == named_count(edges@, symbol_views(symbols@), edges@.len() as int),
        forall|i: int| 0 <= i < r@.len() ==> strictly_sorted(views((#[trigger] r@[i]).1@)),
        forall|e: int| 0 <= e < edges@.len() && #[trigger] name_for(symbol_views(symbols@), edges@[e].0) is Some ==> {
            let i = named_count(edges@, symbol_views(symbols@), e) as int;
            &&& i < r@.len()
            &&& names_edge(edges@, symbol_views(symbols@), e, r@[i].0@, r@[i].1@)
        },
{
    let ghost sv = symbol_views(symbols@);
    let mut out: Vec<(String, Vec<String>)> = Vec::new();
    let mut e: usize = 0;
    while e < edges.len()
        invariant
            e <= edges.len(),
            sv == symbol_views(symbols@),
            out@.len() == named_count(edges@, sv, e as int),
            forall|i: int| 0 <= i < out@.len() ==> strictly_sorted(views((#[trigger] out@[i]).1@)),
            forall|e2: int| 0 <= e2 < e && #[trigger] name_for(sv, edges@[e2].0) is Some ==> {
                let i = named_count(edges@, sv, e2) as int;
                &&& i < out@.len()
                &&& names_edge(edges@, sv, e2, out@[i].0@, out@[i].1@)
            },
        decreases edges.len() - e,
    {
        match lookup_name(symbols, edges[e].0) {
            None => {},
            Some(caller) => {
                let callees = &edges[e].1;
                let mut named: Vec<String> = Vec::new();
                let mut c: usize = 0;
                while c < callees.len()
                    invariant
                        e < edges.len(),
                        sv == symbol_views(symbols@),
                        *callees == edges@[e as int].1,
                        c <= callees.len(),
                        forall|s: Seq<char>| #[trigger] views(named@).contains(s) <==> exists|k: int|
                            0 <= k < c && name_for(sv, #[trigger] callees@[k]) == Some(s),
                    decreases callees.len() - c,
                {
                    match lookup_name(symbols, callees[c]) {
                        None => {
                            proof {
                                assert forall|s: Seq<char>| #[trigger] views(named@).contains(s) <==> exists|k: int|
                                    0 <= k < c + 1 && name_for(sv, #[trigger] callees@[k]) == Some(s) by {
                                    if exists|k: int| 0 <= k < c + 1 && name_for(sv, #[trigger] callees@[k]) == Some(s) {
                                        let k = choose|k: int| 0 <= k < c + 1 && name_for(sv, #[trigger] callees@[k]) == Some(s);
                                        assert(k < c);
                                    }
                                }
                            }
                        },
                        Some(n) => {
                            let ghost before = views(named@);
                            let ghost nv = n@;
                            named.push(n);
                            proof {
                                assert(views(named@) =~= before.push(nv));
                                assert forall|s: Seq<char>| #[trigger] views(named@).contains(s) <==> exists|k: int|
                                    0 <= k < c + 1 && name_for(sv, #[trigger] callees@[k]) == Some(s) by {
                                    crate::seq_facts::lemma_push_contains(before, nv, s);
                                    if exists|k: int| 0 <= k < c + 1 && name_for(sv, #[trigger] callees@[k]) == Some(s) {
                                        let k = choose|k: int| 0 <= k < c + 1 && name_for(sv, #[trigger] callees@[k]) == Some(s);
                                        if k == c {
                                            assert(s == nv);
                                        }
                                    }
                                    if s == nv {
                                        assert(name_for(sv, callees@[c as int]) == Some(s));
                                    }
                                }
                            }
                        },
                    }
                    c = c + 1;
                }
                let sorted = sort_dedup(named);
                let ghost cv = caller@;
                let ghost old_out = out@;
                out.push((caller, sorted));
                proof {
                    let i = out@.len() - 1;
                    assert(out@[i].0@ == cv);
                    assert(names_edge(edges@, sv, e as int, cv, out@[i].1@));
                    assert forall|e2: int| 0 <= e2 < e + 1 && #[trigger] name_for(sv, edges@[e2].0) is Some implies ({
                        let i2 = named_count(edges@, sv, e2) as int;
                        &&& i2 < out@.len()
                        &&& names_edge(edges@, sv, e2, out@[i2].0@, out@[i2].1@)
                    }) by {
                        if e2 < e {
                            let i2 = named_count(edges@, sv, e2) as int;
                            assert(out@[i2] == old_out[i2]);
                        }
                    }
                }
            },
        }
        proof {
            if name_for(sv, edges@[e as int].0) is None {
                assert(named_count(edges@, sv, e as int + 1) == named_count(edges@, sv, e as int));
            }
        }
        e = e + 1;
    }
    out
}


/// The name a capture is filed under: the symbol of its function, or
/// `<unknown>` when the table has none.
pub open spec fn display_name_spec(symbols: Seq<(u32, Seq<char>)>, addr: u32) -> Seq<char> {
    match name_for(symbols, addr) {
        Some(n) => n,
        None => "<unknown>"@,
    }
}

/// Looks up the name a capture of `addr` is filed under.
pub fn display_name(symbols: &[(u32, String)], addr: u32) -> (r: String)
    ensures
        r@ == display_name_spec(symbol_views(symbols@), addr),
{
    match lookup_name(symbols, addr) {
        Some(n) => n,
        None => {
            let mut out: Vec<char> = Vec::new();
            push_str(&mut out, "<unknown>");
            string_of(out.as_slice())
        },
    }
}

/// The next sequence number of `fn_addr` in a log of `(function, next
/// number)` entries: the latest entry for it wins; a function with none
/// starts at 0.
pub open spec fn next_seq(seqs: Seq<(u32, usize)>, fn_addr: u32) -> nat
    decreases seqs.len(),
{
    if seqs.len() == 0 {
        0
    } else if seqs.last().0 == fn_addr {
        seqs.last().1 as nat
    } else {
        next_seq(seqs.drop_last(), fn_addr)
    }
}

/// Where one captured pair is written.
pub struct PairSlot {
    pub seq: usize,
    pub fn_dir: String,
    pub entry_path: String,
    pub exit_path: String,
}

/// `{session}/{name}`.
pub open spec fn pair_dir_spec(session: Seq<char>, name: Seq<char>) -> Seq<char> {
    session + "/"@ + name
}

/// The next sequence number of `fn_addr` in the log.
fn seq_for(seqs: &Vec<(u32, usize)>, fn_addr: u32) -> (r: usize)
    ensures
        r == next_seq(seqs@, fn_addr),
{
    let mut i = seqs.len();
    assert(seqs@.take(seqs.len() as int) =~= seqs@);
    while i > 0
        invariant
            i <= seqs.len(),
            next_seq(seqs@, fn_addr) == next_seq(seqs@.take(i as int), fn_addr),
        decreases i,
    {
        assert(seqs@.take(i as int).drop_last() =~= seqs@.take(i as int - 1));
        if seqs[i - 1].0 == fn_addr {
            return seqs[i - 1].1;
        }
        i = i - 1;
    }
    0
}

/// Gives a capture of `fn_addr` the next sequence number of its function
/// and the paths of its pair: `{session}/{name}/{seq:04}.entry.bin` and
/// `{session}/{name}/{seq:04}.exit.delta.bin`. The log then records the
/// number after it.
pub fn record_pair(seqs: &mut Vec<(u32, usize)>, fn_addr: u32, name: &str, session: &str) -> (r: PairSlot)
    requires
        next_seq(old(seqs)@, fn_addr) < usize::MAX,
    ensures
        r.seq == next_seq(old(seqs)@, fn_addr),
        final(seqs)@ == old(seqs)@.push((fn_addr, (r.seq + 1) as usize)),
        next_seq(final(seqs)@, fn_addr) == r.seq + 1,
        forall|other: u32| other != fn_addr ==> next_seq(final(seqs)@, other) == next_seq(old(seqs)@, other),
        r.fn_dir@ == pair_dir_spec(session@, name@),
        r.entry_path@ == pair_dir_spec(session@, name@) + "/"@ + entry_file_spec(r.seq),
        r.exit_path@ == pair_dir_spec(session@, name@) + "/"@ + exit_file_spec(r.seq),
{
    let seq = seq_for(seqs, fn_addr);
    seqs.push((fn_addr, seq + 1));
    assert(seqs@.drop_last() =~= old(seqs)@);
    let mut d: Vec<char> = Vec::new();
    push_str(&mut d, session);
    push_str(&mut d, "/");
    push_str(&mut d, name);
    let mut e = d.clone();
    push_str(&mut e, "/");
    push_all(&mut e, &chars_of(entry_file_name(seq).as_str()));
    let mut x = d.clone();
    push_str(&mut x, "/");
    push_all(&mut x, &chars_of(exit_file_name(seq).as_str()));
    PairSlot {
        seq,
        fn_dir: string_of(d.as_slice()),
        entry_path: string_of(e.as_slice()),
        exit_path: string_of(x.as_slice()),
    }
}

/// The log after numbering captures of `addrs`, in order, from an empty log.
pub open spec fn seq_log(addrs: Seq<u32>) -> Seq<(u32, usize)>
    decreases addrs.len(),
{
    if addrs.len() == 0 {
        Seq::empty()
    } else {
        let log = seq_log(addrs.drop_last());
        log.push((addrs.last(), (next_seq(log, addrs.last()) + 1) as usize))
    }
}

/// How often `a` occurs in `addrs`.
pub open spec fn occurrences(addrs: Seq<u32>, a: u32) -> nat
    decreases addrs.len(),
{
    if addrs.len() == 0 {
        0
    } else {
        occurrences(addrs.drop_last(), a) + if addrs.last() == a {
            1nat
        } else {
            0nat
        }
    }
}

proof fn lemma_occurrences_bound(addrs: Seq<u32>, a: u32)
    ensures
        occurrences(addrs, a) <= addrs.len(),
    decreases addrs.len(),
{
    if addrs.len() > 0 {
        lemma_occurrences_bound(addrs.drop_last(), a);
    }
}

/// Numbering from an empty log gives a function the count of its earlier
/// captures: its captures are numbered 0, 1, 2, ... in order.
pub proof fn lemma_seq_numbers(addrs: Seq<u32>, a: u32)
    requires
        addrs.len() < usize::MAX,
    ensures
        next_seq(seq_log(addrs), a) == occurrences(addrs, a),
    decreases addrs.len(),
{
    if addrs.len() > 0 {
        let p = addrs.drop_last();
        lemma_seq_numbers(p, a);
        lemma_seq_numbers(p, addrs.last());
        lemma_occurrences_bound(p, addrs.last());
        let log = seq_log(p);
        let e = (addrs.last(), (next_seq(log, addrs.last()) + 1) as usize);
        assert(log.push(e).drop_last() =~= log);
        assert(log.push(e).last() == e);
        assert(seq_log(addrs) == log.push(e));
    }
}

proof fn lemma_occurrences_prefix(addrs: Seq<u32>, a: u32, j: int, k: int)
    requires
        0 <= j <= k <= addrs.len(),
    ensures
        occurrences(addrs.take(j), a) <= occurrences(addrs.take(k), a),
    decreases k - j,
{
    if j < k {
        lemma_occurrences_prefix(addrs, a, j, k - 1);
        assert(addrs.take(k).drop_last() =~= addrs.take(k - 1));
    }
}

/// Within a run, two captures of one function never share a number: the
/// captures at positions `j < k` of the same function get different
/// numbers, so no pair file of a run is written twice.
pub proof fn lemma_seq_numbers_distinct(addrs: Seq<u32>, j: int, k: int)
    requires
        addrs.len() < usize::MAX,
        0 <= j < k < addrs.len(),
        addrs[j] == addrs[k],
    ensures
        next_seq(seq_log(addrs.take(j)), addrs[j]) < next_seq(seq_log(addrs.take(k)), addrs[k]),
{
    let a = addrs[j];
    lemma_seq_numbers(addrs.take(j), a);
    lemma_seq_numbers(addrs.take(k), a);
    assert(addrs.take(j + 1).drop_last() =~= addrs.take(j));
    assert(addrs.take(j + 1).last() == a);
    lemma_occurrences_prefix(addrs, a, j + 1, k);
}

/// `captured {captured} target entries ({skipped} dropped by dedup); waiting
/// for phase 2 to drain...`, the parenthesis only when dedup dropped any.
pub open spec fn capture_line_spec(captured: nat, skipped: nat, dedup: bool) -> Seq<char> {
    "captured "@ + dec_chars(captured) + " target entries"@ + (if dedup && skipped > 0 {
        " ("@ + dec_chars(skipped) + " dropped by dedup)"@
    } else {
        Seq::empty()
    }) + "; waiting for phase 2 to drain..."@
}

/// The line printed once recording stopped capturing.
pub fn capture_line(captured: usize, skipped: usize, dedup: bool) -> (s: String)
    ensures
        s@ == capture_line_spec(captured as nat, skipped as nat, dedup),
{
    let mut out: Vec<char> = Vec::new();
    push_str(&mut out, "captured ");
    push_all(&mut out, &decimal(captured as u64));
    push_str(&mut out, " target entries");
    let ghost head = out@;
    if dedup && skipped > 0 {
        push_str(&mut out, " (");
        push_all(&mut out, &decimal(skipped as u64));
        push_str(&mut out, " dropped by dedup)");
    } else {
        assert(out@ =~= head + Seq::<char>::empty());
    }
    push_str(&mut out, "; waiting for phase 2 to drain...");
    assert(out@ =~= capture_line_spec(captured as nat, skipped as nat, dedup));
    string_of(out.as_slice())
}

/// `wrote {wrote} pairs to {session} ({failed} entries failed isolated run)`.
pub open spec fn wrote_line_spec(wrote: nat, session: Seq<char>, failed: nat) -> Seq<char> {
    "wrote "@ + dec_chars(wrote) + " pairs to "@ + session + " ("@ + dec_chars(failed)
        + " entries failed isolated run)"@
}

/// The closing line of a record pass.
pub fn wrote_line(wrote: usize, session: &str, failed: usize) -> (s: String)
    ensures
        s@ == wrote_line_spec(wrote as nat, session@, failed as nat),
{
    let mut out: Vec<char> = Vec::new();
    push_str(&mut out, "wrote ");
    push_all(&mut out, &decimal(wrote as u64));
    push_str(&mut out, " pairs to ");
    push_str(&mut out, session);
    push_str(&mut out, " (");
    push_all(&mut out, &decimal(failed as u64));
    push_str(&mut out, " entries failed isolated run)");
    assert(out@ =~= wrote_line_spec(wrote as nat, session@, failed as nat));
    string_of(out.as_slice())
}

/// `  {name} #{seq:04} isolated run failed: {error}`.
pub open spec fn isolated_failure_line_spec(name: Seq<char>, seq: usize, error: Seq<char>) -> Seq<char> {
    "  "@ + name + " #"@ + seq_digits(seq) + " isolated run failed: "@ + error
}

/// The line reporting a capture whose isolated run did not return.
pub fn isolated_failure_line(name: &str, seq: usize, error: &str) -> (s: String)
    ensures
        s@ == isolated_failure_line_spec(name@, seq, error@),
{
    let mut out: Vec<char> = Vec::new();
    push_str(&mut out, "  ");
    push_str(&mut out, name);
    push_str(&mut out, " #");
    push_all(&mut out, &pad_with(decimal(seq as u64), 4, '0'));
    push_str(&mut out, " isolated run failed: ");
    push_str(&mut out, error);
    assert(out@ =~= isolated_failure_line_spec(name@, seq, error@));
    string_of(out.as_slice())
}

/// `  0x{addr:08X}  {name}`: a target as the verbose listing shows it.
pub open spec fn target_line_spec(addr: u32, name: Seq<char>) -> Seq<char> {
    "  0x"@ + pad_left(hex_upper_chars(addr as nat), 8, '0') + "  "@ + name
}

/// One line of the verbose target listing.
pub fn target_line(addr: u32, name: &str) -> (s: String)
    ensures
        s@ == target_line_spec(addr, name@),
{
    let mut out: Vec<char> = Vec::new();
    push_str(&mut out, "  0x");
    push_all(&mut out, &hex_upper(addr as u64, 8));
    push_str(&mut out, "  ");
    push_str(&mut out, name);
    assert(out@ =~= target_line_spec(addr, name@));
    string_of(out.as_slice())
}

} // verus!
