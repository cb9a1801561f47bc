//! Code radius of a function for incremental verification: the function and
//! every function it transitively calls, per the call graph captured while
//! recording. If no byte of the radius changed since the last green replay,
//! the function's captured pairs still pass and can be skipped.
use vstd::prelude::*;
use crate::strorder::{lex_lt, strictly_sorted, views, sort_dedup, lemma_lex_irreflexive, lemma_sorted_unique, lemma_sorted_listing};
use crate::sorting::{Keyed, stable_sort_by_key, stable_sorted_by, lemma_stable_sort_view, key_fn};
use crate::digests::sha1_digest;
use crate::hex::{hex_chars, is_hex_lower};

verus! {

/// A call graph as read back from disk: caller name and callee names. Like
/// the map it is collected into, a later entry for the same caller replaces
/// an earlier one.
pub type CallGraph = Seq<(Seq<char>, Seq<Seq<char>>)>;

/// The view of the call graph entries.
pub open spec fn graph_view(cg: Seq<(String, Vec<String>)>) -> CallGraph {
    cg.map_values(|e: (String, Vec<String>)| (e.0@, views(e.1@)))
}

/// Index of the last entry for `name`, or -1.
pub open spec fn last_entry(cg: CallGraph, name: Seq<char>) -> int
    decreases cg.len(),
{
    if cg.len() == 0 {
        -1
    } else if cg.last().0 == name {
        cg.len() - 1
    } else {
        last_entry(cg.drop_last(), name)
    }
}

/// The callees the graph records for `name` (none when it has no entry).
pub open spec fn callees(cg: CallGraph, name: Seq<char>) -> Seq<Seq<char>> {
    let i = last_entry(cg, name);
    if i < 0 {
        Seq::empty()
    } else {
        cg[i].1
    }
}

/// `p` follows call edges from its first name to its last.
pub open spec fn is_call_path(cg: CallGraph, p: Seq<Seq<char>>) -> bool {
    &&& p.len() >= 1
    &&& forall|i: int| 0 <= i < p.len() - 1 ==> callees(cg, #[trigger] p[i]).contains(p[i + 1])
}

/// `name` is `root` or is reached from it by call edges.
pub open spec fn reachable(cg: CallGraph, root: Seq<char>, name: Seq<char>) -> bool {
    exists|p: Seq<Seq<char>>| #[trigger] is_call_path(cg, p) && p[0] == root && p.last() == name
}

pub proof fn lemma_last_entry_bounds(cg: CallGraph, name: Seq<char>)
    ensures
        -1 <= last_entry(cg, name) < cg.len(),
        last_entry(cg, name) >= 0 ==> cg[last_entry(cg, name)].0 == name,
    decreases cg.len(),
{
    if cg.len() > 0 && cg.last().0 != name {
        lemma_last_entry_bounds(cg.drop_last(), name);
    }
}

/// The index of the last entry for `name`, if any.
pub fn find_entry(cg: &[(String, Vec<String>)], name: &String) -> (r: Option<usize>)
    ensures
        match r {
            Some(i) => i as int == last_entry(graph_view(cg@), name@),
            None => last_entry(graph_view(cg@), name@) == -1,
        },
{
    let mut i = cg.len();
    assert(graph_view(cg@).take(cg.len() as int) =~= graph_view(cg@));
    while i > 0
        invariant
            i <= cg.len(),
            last_entry(graph_view(cg@), name@) == last_entry(graph_view(cg@).take(i as int), name@),
        decreases i,
    {
        let ghost g = graph_view(cg@).take(i as int);
        assert(g.drop_last() =~= graph_view(cg@).take(i as int - 1));
        if cg[i - 1].0 == *name {
            return Some(i - 1);
        }
        i = i - 1;
    }
    assert(graph_view(cg@).take(0) =~= Seq::<(Seq<char>, Seq<Seq<char>>)>::empty());
    None
}

/// Every callee name recorded anywhere in the graph.
pub open spec fn recorded_callee(cg: CallGraph, name: Seq<char>) -> bool {
    exists|k: int| 0 <= k < cg.len() && #[trigger] cg[k].1.contains(name)
}

/// Whether `name` occurs among the strings of `v`, and where.
fn position(v: &Vec<String>, name: &String) -> (r: Option<usize>)
    ensures
        match r {
            Some(j) => j < v@.len() && v@[j as int]@ == name@,
            None => !views(v@).contains(name@),
        },
{
    let mut j: usize = 0;
    while j < v.len()
        invariant
            j <= v.len(),
            forall|k: int| 0 <= k < j ==> v@[k]@ != name@,
        decreases v.len() - j,
    {
        if v[j] == *name {
            return Some(j);
        }
        j = j + 1;
    }
    proof {
        if views(v@).contains(name@) {
            let k = choose|k: int| 0 <= k < views(v@).len() && views(v@)[k] == name@;
            assert(v@[k]@ == name@);
        }
    }
    None
}

proof fn lemma_contains_prefix(before: Seq<Seq<char>>, after: Seq<Seq<char>>, x: Seq<char>)
    requires
        before.len() <= after.len(),
        after.take(before.len() as int) == before,
        before.contains(x),
    ensures
        after.contains(x),
{
    let t = choose|t: int| 0 <= t < before.len() && before[t] == x;
    assert(after.take(before.len() as int)[t] == after[t]);
}

/// `root` and every callee name the graph records, sorted without repeats.
fn candidates(root: &String, cg: &[(String, Vec<String>)]) -> (c: Vec<String>)
    ensures
        strictly_sorted(views(c@)),
        views(c@).contains(root@),
        forall|s: Seq<char>| recorded_callee(graph_view(cg@), s) ==> views(c@).contains(s),
{
    let ghost g = graph_view(cg@);
    let mut all: Vec<String> = Vec::new();
    all.push(root.clone());
    assert(views(all@)[0] == root@);
    let mut i: usize = 0;
    while i < cg.len()
        invariant
            g == graph_view(cg@),
            i <= cg.len(),
            views(all@).contains(root@),
            forall|k: int, s: Seq<char>| 0 <= k < i && #[trigger] g[k].1.contains(s) ==> views(all@).contains(s),
        decreases cg.len() - i,
    {
        let ghost before = views(all@);
        let mut j: usize = 0;
        while j < cg[i].1.len()
            invariant
                g == graph_view(cg@),
                i < cg.len(),
                j <= cg@[i as int].1.len(),
                before.len() <= views(all@).len(),
                views(all@).take(before.len() as int) == before,
                forall|m: int| 0 <= m < j ==> views(all@).contains(#[trigger] views(cg@[i as int].1@)[m]),
            decreases cg@[i as int].1.len() - j,
        {
            let ghost prev = views(all@);
            all.push(cg[i].1[j].clone());
            proof {
                assert(views(all@) =~= prev.push(cg@[i as int].1@[j as int]@));
                assert(views(all@).take(before.len() as int) =~= before);
                assert forall|m: int| 0 <= m < j + 1 implies views(all@).contains(#[trigger] views(cg@[i as int].1@)[m]) by {
                    if m < j {
                        assert(views(all@).take(prev.len() as int) =~= prev);
                        lemma_contains_prefix(prev, views(all@), views(cg@[i as int].1@)[m]);
                    } else {
                        assert(views(all@)[prev.len() as int] == views(cg@[i as int].1@)[m]);
                    }
                }
            }
            j = j + 1;
        }
        proof {
            assert forall|k: int, s: Seq<char>| 0 <= k < i + 1 && #[trigger] g[k].1.contains(s) implies views(all@).contains(s) by {
                if k < i {
                    lemma_contains_prefix(before, views(all@), s);
                } else {
                    let m = choose|m: int| 0 <= m < g[k].1.len() && g[k].1[m] == s;
                    assert(g[k].1 == views(cg@[i as int].1@));
                    assert(views(cg@[i as int].1@)[m] == s);
                }
            }
            lemma_contains_prefix(before, views(all@), root@);
        }
        i = i + 1;
    }
    let c = sort_dedup(all);
    proof {
        assert forall|s: Seq<char>| recorded_callee(g, s) implies views(c@).contains(s) by {
            let k = choose|k: int| 0 <= k < g.len() && #[trigger] g[k].1.contains(s);
        }
    }
    c
}

/// Number of `false` entries.
pub open spec fn falses(s: Seq<bool>) -> nat
    decreases s.len(),
{
    if s.len() == 0 {
        0
    } else {
        falses(s.drop_last()) + if s.last() {
            0nat
        } else {
            1nat
        }
    }
}

proof fn lemma_falses_mark(s: Seq<bool>, i: int)
    requires
        0 <= i < s.len(),
        !s[i],
    ensures
        falses(s.update(i, true)) + 1 == falses(s),
    decreases s.len(),
{
    if i < s.len() - 1 {
        assert(s.update(i, true).drop_last() =~= s.drop_last().update(i, true));
        lemma_falses_mark(s.drop_last(), i);
    } else {
        assert(s.update(i, true).drop_last() =~= s.drop_last());
    }
}

/// Every reached candidate is reachable from the root.
pub open spec fn marks_sound(cg: CallGraph, root: Seq<char>, names: Seq<Seq<char>>, reached: Seq<bool>) -> bool {
    forall|j: int| 0 <= j < reached.len() && #[trigger] reached[j] ==> reachable(cg, root, names[j])
}

/// Some copy of `c` among the candidates is reached.
pub open spec fn marked(names: Seq<Seq<char>>, reached: Seq<bool>, c: Seq<char>) -> bool {
    exists|j: int| 0 <= j < names.len() && names[j] == c && #[trigger] reached[j]
}

/// The callees of the reached candidates before `upto` are all reached.
pub open spec fn marks_closed(cg: CallGraph, names: Seq<Seq<char>>, reached: Seq<bool>, upto: int) -> bool {
    forall|i: int, c: Seq<char>|
        0 <= i < upto && reached[i] && #[trigger] callees(cg, names[i]).contains(c) ==> marked(names, reached, c)
}

proof fn lemma_marked_grows(names: Seq<Seq<char>>, reached: Seq<bool>, j: int, c: Seq<char>)
    requires
        0 <= j < reached.len(),
        names.len() == reached.len(),
        marked(names, reached, c),
    ensures
        marked(names, reached.update(j, true), c),
{
    let t = choose|t: int| 0 <= t < names.len() && names[t] == c && #[trigger] reached[t];
    assert(reached.update(j, true)[t]);
}

proof fn lemma_path_extend(cg: CallGraph, root: Seq<char>, a: Seq<char>, b: Seq<char>)
    requires
        reachable(cg, root, a),
        callees(cg, a).contains(b),
    ensures
        reachable(cg, root, b),
{
    let p = choose|p: Seq<Seq<char>>| #[trigger] is_call_path(cg, p) && p[0] == root && p.last() == a;
    let q = p.push(b);
    assert forall|i: int| 0 <= i < q.len() - 1 implies callees(cg, #[trigger] q[i]).contains(q[i + 1]) by {
        if i < p.len() - 1 {
            assert(q[i] == p[i] && q[i + 1] == p[i + 1]);
        } else {
            assert(q[i] == a && q[i + 1] == b);
        }
    }
    assert(is_call_path(cg, q));
}

proof fn lemma_root_reachable(cg: CallGraph, root: Seq<char>)
    ensures
        reachable(cg, root, root),
{
    let p = seq![root];
    assert(is_call_path(cg, p));
}

/// With the marks closed under calls and the root marked, every name on a
/// call path from the root is marked.
proof fn lemma_closed_complete(cg: CallGraph, root: Seq<char>, names: Seq<Seq<char>>, reached: Seq<bool>, p: Seq<Seq<char>>, k: int)
    requires
        names.len() == reached.len(),
        marks_closed(cg, names, reached, names.len() as int),
        marked(names, reached, root),
        is_call_path(cg, p),
        p[0] == root,
        0 <= k < p.len(),
    ensures
        marked(names, reached, p[k]),
    decreases k,
{
    if k > 0 {
        lemma_closed_complete(cg, root, names, reached, p, k - 1);
        let j = choose|j: int| 0 <= j < names.len() && names[j] == p[k - 1] && #[trigger] reached[j];
        assert(callees(cg, p[k - 1]).contains(p[k]));
        assert(callees(cg, names[j]).contains(p[k]));
    }
}

/// Callees are recorded callee names.
proof fn lemma_callees_recorded(cg: CallGraph, name: Seq<char>, c: Seq<char>)
    requires
        callees(cg, name).contains(c),
    ensures
        recorded_callee(cg, c),
{
    lemma_last_entry_bounds(cg, name);
    let i = last_entry(cg, name);
    assert(cg[i].1.contains(c));
}

/// The function `root` and every function it transitively calls per `cg`,
/// sorted by name without repeats.
pub fn radius_closure(root: &String, cg: &[(String, Vec<String>)]) -> (r: Vec<String>)
    ensures
        strictly_sorted(views(r@)),
        forall|s: Seq<char>| #[trigger] views(r@).contains(s) <==> reachable(graph_view(cg@), root@, s),
{
    let ghost g = graph_view(cg@);
    let names = candidates(root, cg);
    let ghost nv = views(names@);
    let mut reached: Vec<bool> = Vec::new();
    let mut k: usize = 0;
    while k < names.len()
        invariant
            k <= names.len(),
            nv == views(names@),
            reached@.len() == k,
            forall|j: int| 0 <= j < k ==> #[trigger] reached@[j] == (nv[j] == root@),
        decreases names.len() - k,
    {
        reached.push(names[k] == *root);
        k = k + 1;
    }
    proof {
        lemma_root_reachable(g, root@);
        let j = choose|j: int| 0 <= j < nv.len() && nv[j] == root@;
        assert(reached@[j]);
        assert(marks_sound(g, root@, nv, reached@));
    }
    loop
        invariant
            nv == views(names@),
            g == graph_view(cg@),
            strictly_sorted(nv),
            forall|s: Seq<char>| recorded_callee(g, s) ==> nv.contains(s),
            reached@.len() == names@.len(),
            marks_sound(g, root@, nv, reached@),
            marked(nv, reached@, root@),
        ensures
            marks_closed(g, nv, reached@, nv.len() as int),
        decreases falses(reached@),
    {
        let ghost start_falses = falses(reached@);
        let mut changed = false;
        let mut i: usize = 0;
        while i < names.len()
            invariant
                nv == views(names@),
                g == graph_view(cg@),
                forall|s: Seq<char>| recorded_callee(g, s) ==> nv.contains(s),
                reached@.len() == names@.len(),
                i <= names.len(),
                marks_sound(g, root@, nv, reached@),
                marked(nv, reached@, root@),
                !changed ==> marks_closed(g, nv, reached@, i as int),
                changed ==> falses(reached@) < start_falses,
                !changed ==> falses(reached@) == start_falses,
            decreases names.len() - i,
        {
            if reached[i] {
                match find_entry(cg, &names[i]) {
                    None => {
                        proof {
                            assert(callees(g, nv[i as int]) =~= Seq::<Seq<char>>::empty());
                            if !changed {
                                assert forall|i2: int, c: Seq<char>|
                                    0 <= i2 < i + 1 && reached@[i2] && #[trigger] callees(g, nv[i2]).contains(c) implies marked(nv, reached@, c) by {
                                    if i2 == i {
                                        assert(!callees(g, nv[i as int]).contains(c));
                                    }
                                }
                            }
                        }
                    },
                    Some(e) => {
                        proof {
                            lemma_last_entry_bounds(g, nv[i as int]);
                        }
                        let callee_list = &cg[e].1;
                        let mut m: usize = 0;
                        while m < callee_list.len()
                            invariant
                                nv == views(names@),
                                g == graph_view(cg@),
                                forall|s: Seq<char>| recorded_callee(g, s) ==> nv.contains(s),
                                reached@.len() == names@.len(),
                                i < names.len(),
                                e < cg.len(),
                                e as int == last_entry(g, nv[i as int]),
                                *callee_list == cg@[e as int].1,
                                callees(g, nv[i as int]) == views(callee_list@),
                                m <= callee_list.len(),
                                marks_sound(g, root@, nv, reached@),
                                marked(nv, reached@, root@),
                                !changed ==> marks_closed(g, nv, reached@, i as int),
                                !changed ==> forall|m2: int| 0 <= m2 < m ==> marked(nv, reached@, #[trigger] views(callee_list@)[m2]),
                                reached@[i as int],
                                changed ==> falses(reached@) < start_falses,
                                !changed ==> falses(reached@) == start_falses,
                            decreases callee_list.len() - m,
                        {
                            let c = &callee_list[m];
                            proof {
                                assert(views(callee_list@)[m as int] == c@);
                                assert(callees(g, nv[i as int]).contains(c@));
                                lemma_callees_recorded(g, nv[i as int], c@);
                            }
                            match position(&names, c) {
                                None => {
                                    assert(false);
                                },
                                Some(j) => {
                                    if !reached[j] {
                                        let ghost old_r = reached@;
                                        proof {
                                            assert(reachable(g, root@, nv[i as int]));
                                            lemma_path_extend(g, root@, nv[i as int], c@);
                                            lemma_falses_mark(reached@, j as int);
                                            lemma_marked_grows(nv, reached@, j as int, root@);
                                        }
                                        reached.set(j, true);
                                        changed = true;
                                        proof {
                                            assert forall|t: int| 0 <= t < reached@.len() && #[trigger] reached@[t] implies reachable(g, root@, nv[t]) by {
                                                if t != j {
                                                    assert(old_r[t]);
                                                }
                                            }
                                        }
                                    } else {
                                        assert(marked(nv, reached@, c@));
                                    }
                                },
                            }
                            m = m + 1;
                        }
                        proof {
                            if !changed {
                                assert forall|i2: int, c: Seq<char>|
                                    0 <= i2 < i + 1 && reached@[i2] && #[trigger] callees(g, nv[i2]).contains(c) implies marked(nv, reached@, c) by {
                                    if i2 == i {
                                        let m2 = choose|m2: int| 0 <= m2 < views(callee_list@).len() && views(callee_list@)[m2] == c;
                                        assert(marked(nv, reached@, views(callee_list@)[m2]));
                                    }
                                }
                            }
                        }
                    },
                }
            } else {
                proof {
                    if !changed {
                        assert forall|i2: int, c: Seq<char>|
                            0 <= i2 < i + 1 && reached@[i2] && #[trigger] callees(g, nv[i2]).contains(c) implies marked(nv, reached@, c) by {
                        }
                    }
                }
            }
            i = i + 1;
        }
        if !changed {
            break;
        }
    }
    let mut out: Vec<String> = Vec::new();
    let mut k2: usize = 0;
    while k2 < names.len()
        invariant
            nv == views(names@),
            strictly_sorted(nv),
            reached@.len() == names@.len(),
            k2 <= names.len(),
            forall|a: int| #![trigger views(out@)[a]] 0 <= a < out@.len() ==> exists|b: int| #![trigger nv[b]] 0 <= b < k2 && nv[b] == views(out@)[a],
            strictly_sorted(views(out@)),
            forall|b: int| 0 <= b < k2 ==> (#[trigger] reached@[b] <==> views(out@).contains(nv[b])),
        decreases names.len() - k2,
    {
        let ghost before = views(out@);
        if reached[k2] {
            out.push(names[k2].clone());
            proof {
                let after = views(out@);
                assert(after =~= before.push(nv[k2 as int]));
                assert forall|a: int, b: int| 0 <= a < b < after.len() implies lex_lt(#[trigger] after[a], #[trigger] after[b]) by {
                    if b == after.len() - 1 {
                        assert(after[a] == before[a]);
                        let ia = choose|ia: int| #![trigger nv[ia]] 0 <= ia < k2 && nv[ia] == before[a];
                        assert(lex_lt(nv[ia], nv[k2 as int]));
                    } else {
                        assert(after[a] == before[a] && after[b] == before[b]);
                    }
                }
                assert forall|a: int| #![trigger after[a]] 0 <= a < after.len() implies exists|b: int| #![trigger nv[b]] 0 <= b < k2 + 1 && nv[b] == after[a] by {
                    if a < before.len() {
                        assert(after[a] == before[a]);
                        let ia = choose|ia: int| #![trigger nv[ia]] 0 <= ia < k2 && nv[ia] == before[a];
                        assert(nv[ia] == after[a]);
                    } else {
                        assert(nv[k2 as int] == after[a]);
                    }
                }
                assert forall|b: int| 0 <= b < k2 + 1 implies (#[trigger] reached@[b] <==> after.contains(nv[b])) by {
                    crate::seq_facts::lemma_push_contains(before, nv[k2 as int], nv[b]);
                    if b < k2 && nv[b] == nv[k2 as int] {
                        lemma_lex_irreflexive(nv[b]);
                    }
                }
            }
        } else {
            proof {
                assert forall|b: int| 0 <= b < k2 + 1 implies (#[trigger] reached@[b] <==> before.contains(nv[b])) by {
                    if b == k2 && before.contains(nv[b]) {
                        let a = choose|a: int| 0 <= a < before.len() && before[a] == nv[b];
                        let ib = choose|ib: int| #![trigger nv[ib]] 0 <= ib < k2 && nv[ib] == before[a];
                        lemma_lex_irreflexive(nv[b]);
                    }
                }
            }
        }
        k2 = k2 + 1;
    }
    proof {
        assert forall|s: Seq<char>| #[trigger] views(out@).contains(s) <==> reachable(g, root@, s) by {
            if views(out@).contains(s) {
                let a = choose|a: int| 0 <= a < views(out@).len() && views(out@)[a] == s;
                let b = choose|b: int| #![trigger nv[b]] 0 <= b < names@.len() && nv[b] == views(out@)[a];
                assert(reached@[b]);
            }
            if reachable(g, root@, s) {
                let p = choose|p: Seq<Seq<char>>| #[trigger] is_call_path(g, p) && p[0] == root@ && p.last() == s;
                lemma_closed_complete(g, root@, nv, reached@, p, p.len() - 1);
                let j = choose|j: int| 0 <= j < nv.len() && nv[j] == p[p.len() - 1] && #[trigger] reached@[j];
                assert(reached@[j]);
            }
        }
    }
    out
}

/// A symbol: entry address and name, as the symbol file lists them.
impl Keyed for (u32, String) {
    open spec fn key_of(&self) -> u32 {
        self.0
    }

    fn key(&self) -> (k: u32) {
        self.0
    }
}

/// One function's byte range in the ROM address space: from its entry to
/// the next function's entry (exclusive).
pub struct FnRange {
    pub name: String,
    pub start: u32,
    pub end: u32,
}

impl View for FnRange {
    type V = (Seq<char>, u32, u32);

    open spec fn view(&self) -> (Seq<char>, u32, u32) {
        (self.name@, self.start, self.end)
    }
}

/// The key of a viewed symbol.
pub open spec fn symbol_addr() -> spec_fn((u32, Seq<char>)) -> u32 {
    |e: (u32, Seq<char>)| e.0
}

/// The ranges in table order, each seen as its `(start, name)` symbol.
pub open spec fn range_symbols(r: Seq<FnRange>) -> Seq<(u32, Seq<char>)> {
    r.map_values(|x: FnRange| (x.start, x.name@))
}

/// The symbols seen as `(addr, name)`.
pub open spec fn symbol_views(s: Seq<(u32, String)>) -> Seq<(u32, Seq<char>)> {
    s.map_values(|e: (u32, String)| (e.0, e.1@))
}

/// Builds the per-function ranges from a symbol list: the symbols stably
/// sorted by address, each ending where the next begins, the last at
/// `u32::MAX`.
pub fn build_fn_ranges(symbols: &[(u32, String)]) -> (r: Vec<FnRange>)
    ensures
        stable_sorted_by(range_symbols(r@), symbol_views(symbols@), symbol_addr()),
        forall|i: int| 0 <= i < r@.len() ==> (#[trigger] r@[i]).end == if i + 1 < r@.len() {
            r@[i + 1].start
        } else {
            u32::MAX
        },
{
    let mut by_addr: Vec<(u32, String)> = Vec::new();
    let mut k: usize = 0;
    while k < symbols.len()
        invariant
            k <= symbols.len(),
            symbol_views(by_addr@) == symbol_views(symbols@.take(k as int)),
        decreases symbols.len() - k,
    {
        let name = symbols[k].1.clone();
        let ghost before = by_addr@;
        by_addr.push((symbols[k].0, name));
        proof {
            assert(by_addr@ == before.push((symbols@[k as int].0, name)));
            assert(symbols@.take(k as int + 1) == symbols@.take(k as int).push(symbols@[k as int]));
            assert(symbol_views(by_addr@) =~= symbol_views(before).push((symbols@[k as int].0, name@)));
            assert(symbol_views(symbols@.take(k as int + 1)) =~= symbol_views(symbols@.take(k as int)).push((symbols@[k as int].0, symbols@[k as int].1@)));
        }
        k = k + 1;
    }
    assert(symbols@.take(symbols.len() as int) =~= symbols@);
    let ghost unsorted = by_addr@;
    stable_sort_by_key(&mut by_addr);
    proof {
        assert forall|x: (u32, String)| #[trigger] key_fn::<(u32, String)>()(x) == symbol_addr()((x.0, x.1@)) by {}
        lemma_stable_sort_symbols(by_addr@, unsorted);
    }
    let mut out: Vec<FnRange> = Vec::new();
    let mut i: usize = 0;
    while i < by_addr.len()
        invariant
            i <= by_addr.len(),
            out@.len() == i,
            forall|j: int| 0 <= j < i ==> (#[trigger] out@[j]).start == by_addr@[j].0 && out@[j].name@ == by_addr@[j].1@,
            forall|j: int| 0 <= j < i ==> (#[trigger] out@[j]).end == if j + 1 < by_addr@.len() {
                by_addr@[j + 1].0
            } else {
                u32::MAX
            },
        decreases by_addr.len() - i,
    {
        let end = if i + 1 < by_addr.len() {
            by_addr[i + 1].0
        } else {
            u32::MAX
        };
        out.push(FnRange { name: by_addr[i].1.clone(), start: by_addr[i].0, end });
        i = i + 1;
    }
    proof {
        assert(range_symbols(out@) =~= symbol_views(by_addr@));
    }
    out
}

proof fn lemma_stable_sort_symbols(sorted: Seq<(u32, String)>, unsorted: Seq<(u32, String)>)
    requires
        stable_sorted_by(sorted, unsorted, key_fn::<(u32, String)>()),
    ensures
        stable_sorted_by(symbol_views(sorted), symbol_views(unsorted), symbol_addr()),
{
    let key = key_fn::<(u32, String)>();
    let vo = symbol_views(sorted);
    let vi = symbol_views(unsorted);
    assert forall|i: int, j: int| 0 <= i <= j < vo.len() implies symbol_addr()(#[trigger] vo[i]) <= symbol_addr()(
        #[trigger] vo[j],
    ) by {
        assert(key(sorted[i]) <= key(sorted[j]));
    }
    assert forall|k: u32| #[trigger] crate::sorting::class_by(vo, symbol_addr(), k) == crate::sorting::class_by(vi, symbol_addr(), k) by {
        let p = crate::sorting::key_is(key, k);
        let sp = crate::sorting::key_is(symbol_addr(), k);
        let f = |e: (u32, String)| (e.0, e.1@);
        assert forall|x: (u32, String)| #[trigger] p(x) <==> sp(f(x)) by {}
        lemma_filter_map_commute(sorted, p, sp, f);
        lemma_filter_map_commute(unsorted, p, sp, f);
        assert(crate::sorting::class_by(sorted, key, k) == crate::sorting::class_by(unsorted, key, k));
    }
}

/// Filtering then mapping is mapping then filtering by the matching test.
proof fn lemma_filter_map_commute<A, B>(s: Seq<A>, p: spec_fn(A) -> bool, sp: spec_fn(B) -> bool, f: spec_fn(A) -> B)
    requires
        forall|x: A| #[trigger] p(x) <==> sp(f(x)),
    ensures
        s.filter(p).map_values(f) == s.map_values(f).filter(sp),
    decreases s.len(),
{
    broadcast use vstd::seq_lib::group_seq_properties;
    reveal(Seq::filter);
    if s.len() > 0 {
        let rest = s.drop_last();
        lemma_filter_map_commute(rest, p, sp, f);
        assert(s.map_values(f).drop_last() =~= rest.map_values(f));
        assert(s.map_values(f).last() == f(s.last()));
        if p(s.last()) {
            assert(s.filter(p) == rest.filter(p).push(s.last()));
            assert(s.filter(p).map_values(f) =~= rest.filter(p).map_values(f).push(f(s.last())));
        } else {
            assert(s.filter(p) == rest.filter(p));
        }
    } else {
        assert(s.filter(p) =~= Seq::<A>::empty());
        assert(s.map_values(f) =~= Seq::<B>::empty());
        assert(s.map_values(f).filter(sp) =~= Seq::<B>::empty());
    }
}

/// The range recorded for `name`: the last one in table order, as a map
/// keyed by name keeps it.
pub open spec fn range_for(rv: Seq<(Seq<char>, u32, u32)>, name: Seq<char>) -> Option<(u32, u32)>
    decreases rv.len(),
{
    if rv.len() == 0 {
        None
    } else if rv.last().0 == name {
        Some((rv.last().1, rv.last().2))
    } else {
        range_for(rv.drop_last(), name)
    }
}

/// The views of a range table.
pub open spec fn range_views(r: Seq<FnRange>) -> Seq<(Seq<char>, u32, u32)> {
    r.map_values(|x: FnRange| x@)
}

/// Looks up the range of `name`.
pub fn range_of(ranges: &[FnRange], name: &String) -> (r: Option<(u32, u32)>)
    ensures
        r == range_for(range_views(ranges@), name@),
{
    let mut i = ranges.len();
    assert(range_views(ranges@).take(ranges.len() as int) =~= range_views(ranges@));
    while i > 0
        invariant
            i <= ranges.len(),
            range_for(range_views(ranges@), name@) == range_for(range_views(ranges@).take(i as int), name@),
        decreases i,
    {
        let ghost t = range_views(ranges@).take(i as int);
        assert(t.drop_last() =~= range_views(ranges@).take(i as int - 1));
        if ranges[i - 1].name == *name {
            return Some((ranges[i - 1].start, ranges[i - 1].end));
        }
        i = i - 1;
    }
    None
}

/// ROM is mapped at this bus address.
pub const ROM_BASE: u32 = 0x0800_0000;

/// The ROM bytes one function of the radius contributes: its range clipped
/// to the image; nothing for a function with no range, one below the ROM,
/// or one past its end.
pub open spec fn radius_piece(rv: Seq<(Seq<char>, u32, u32)>, name: Seq<char>, rom: Seq<u8>) -> Seq<u8> {
    match range_for(rv, name) {
        None => Seq::empty(),
        Some((start, end)) => {
            let lo = start - ROM_BASE;
            let hi0 = if end >= ROM_BASE { end - ROM_BASE } else { 0 };
            let hi = if hi0 < rom.len() { hi0 } else { rom.len() as int };
            if start < ROM_BASE || lo >= rom.len() || lo >= hi {
                Seq::empty()
            } else {
                rom.subrange(lo, hi)
            }
        },
    }
}

/// The radius bytes: the pieces of `names` concatenated in order.
pub open spec fn radius_bytes(names: Seq<Seq<char>>, rv: Seq<(Seq<char>, u32, u32)>, rom: Seq<u8>) -> Seq<u8>
    decreases names.len(),
{
    if names.len() == 0 {
        Seq::empty()
    } else {
        radius_bytes(names.drop_last(), rv, rom) + radius_piece(rv, names.last(), rom)
    }
}

/// The reachable names of the graph from `root`, in increasing order.
pub open spec fn sorted_radius(cg: CallGraph, root: Seq<char>) -> Seq<Seq<char>> {
    choose|q: Seq<Seq<char>>| strictly_sorted(q) && forall|s: Seq<char>| #[trigger] q.contains(s) <==> reachable(cg, root, s)
}

/// The radius key of `fn_name`: lower-case hex of the first 6 bytes of the
/// SHA-1 of the radius bytes, taken from the decomp ROM image over the
/// function and everything it transitively calls, in name order.
pub fn radius_sha_for(
    fn_name: &str,
    callgraph: &[(String, Vec<String>)],
    fn_ranges: &[FnRange],
    decomp_bytes: &[u8],
) -> (r: String)
    ensures
        r@ == hex_chars(
            sha1_digest(
                radius_bytes(sorted_radius(graph_view(callgraph@), fn_name@), range_views(fn_ranges@), decomp_bytes@),
            ).take(6),
        ),
        r@.len() == 12,
        forall|k: int| 0 <= k < 12 ==> is_hex_lower(#[trigger] r@[k]),
{
    let root = crate::text::string_of(crate::text::chars_of(fn_name).as_slice());
    let closure = radius_closure(&root, callgraph);
    proof {
        let q = sorted_radius(graph_view(callgraph@), fn_name@);
        assert(strictly_sorted(views(closure@)) && forall|s: Seq<char>| #[trigger] views(closure@).contains(s) <==> reachable(graph_view(callgraph@), fn_name@, s));
        lemma_sorted_unique(q, views(closure@));
    }
    let mut bytes: Vec<u8> = Vec::new();
    let mut i: usize = 0;
    while i < closure.len()
        invariant
            i <= closure.len(),
            bytes@ == radius_bytes(views(closure@).take(i as int), range_views(fn_ranges@), decomp_bytes@),
        decreases closure.len() - i,
    {
        let ghost names = views(closure@).take(i as int + 1);
        assert(names.drop_last() =~= views(closure@).take(i as int));
        assert(names.last() == closure@[i as int]@);
        match range_of(fn_ranges, &closure[i]) {
            None => {},
            Some((start, end)) => {
                if start >= ROM_BASE {
                    let lo = (start - ROM_BASE) as usize;
                    let hi0 = if end >= ROM_BASE { (end - ROM_BASE) as usize } else { 0 };
                    let hi = if hi0 < decomp_bytes.len() { hi0 } else { decomp_bytes.len() };
                    if lo < decomp_bytes.len() && lo < hi {
                        let ghost before = bytes@;
                        let mut k = lo;
                        while k < hi
                            invariant
                                lo <= k <= hi <= decomp_bytes.len(),
                                bytes@ == before + decomp_bytes@.subrange(lo as int, k as int),
                            decreases hi - k,
                        {
                            bytes.push(decomp_bytes[k]);
                            assert(decomp_bytes@.subrange(lo as int, k as int + 1) =~= decomp_bytes@.subrange(lo as int, k as int).push(decomp_bytes@[k as int]));
                            k = k + 1;
                        }
                    }
                }
            },
        }
        i = i + 1;
    }
    assert(views(closure@).take(closure.len() as int) =~= views(closure@));
    crate::cache::sha1_file_short(bytes.as_slice())
}

/// Every callee name the graph records, entry by entry.
pub open spec fn all_callees(cg: CallGraph) -> Seq<Seq<char>>
    decreases cg.len(),
{
    if cg.len() == 0 {
        Seq::empty()
    } else {
        all_callees(cg.drop_last()) + cg.last().1
    }
}

proof fn lemma_all_callees(cg: CallGraph, s: Seq<char>)
    requires
        recorded_callee(cg, s),
    ensures
        all_callees(cg).contains(s),
    decreases cg.len(),
{
    let k = choose|k: int| 0 <= k < cg.len() && #[trigger] cg[k].1.contains(s);
    let init = cg.drop_last();
    if k < cg.len() - 1 {
        assert(init[k] == cg[k]);
        lemma_all_callees(init, s);
        let i = choose|i: int| 0 <= i < all_callees(init).len() && all_callees(init)[i] == s;
        assert(all_callees(cg)[i] == s);
    } else {
        let j = choose|j: int| 0 <= j < cg.last().1.len() && cg.last().1[j] == s;
        assert(all_callees(cg)[all_callees(init).len() + j] == s);
    }
}

/// The names reachable from `root`.
pub open spec fn reach_set(cg: CallGraph, root: Seq<char>) -> Set<Seq<char>> {
    Set::new(|s: Seq<char>| reachable(cg, root, s))
}

proof fn lemma_reach_finite(cg: CallGraph, root: Seq<char>)
    ensures
        reach_set(cg, root).finite(),
{
    let bound = (seq![root] + all_callees(cg)).to_set();
    assert(reach_set(cg, root).subset_of(bound)) by {
        assert forall|s: Seq<char>| reach_set(cg, root).contains(s) implies bound.contains(s) by {
            let p = choose|p: Seq<Seq<char>>| #[trigger] is_call_path(cg, p) && p[0] == root && p.last() == s;
            if p.len() == 1 {
                assert((seq![root] + all_callees(cg))[0] == s);
            } else {
                let k = p.len() - 2;
                assert(callees(cg, p[k]).contains(p[k + 1]));
                lemma_callees_recorded(cg, p[k], s);
                lemma_all_callees(cg, s);
                let i = choose|i: int| 0 <= i < all_callees(cg).len() && all_callees(cg)[i] == s;
                assert((seq![root] + all_callees(cg))[i + 1] == s);
            }
        }
    }
    vstd::seq_lib::seq_to_set_is_finite(seq![root] + all_callees(cg));
    vstd::set_lib::lemma_set_subset_finite(bound, reach_set(cg, root));
}

/// The sorted radius is an increasing listing of exactly the reachable
/// names.
pub proof fn lemma_sorted_radius(cg: CallGraph, root: Seq<char>)
    ensures
        strictly_sorted(sorted_radius(cg, root)),
        forall|s: Seq<char>| #[trigger] sorted_radius(cg, root).contains(s) <==> reachable(cg, root, s),
{
    lemma_reach_finite(cg, root);
    let q = lemma_sorted_listing(reach_set(cg, root));
    assert(strictly_sorted(q) && forall|s: Seq<char>| #[trigger] q.contains(s) <==> reachable(cg, root, s));
}

/// The radius does not depend on how the call graph lists its edges: two
/// graphs that give every function the same callees (in any order, with
/// any repeats or entry order) give the same radius, and so the same
/// radius key.
pub proof fn lemma_radius_order_free(cg1: CallGraph, cg2: CallGraph, root: Seq<char>)
    requires
        forall|n: Seq<char>, c: Seq<char>| #[trigger] callees(cg1, n).contains(c) <==> #[trigger] callees(cg2, n).contains(c),
    ensures
        sorted_radius(cg1, root) == sorted_radius(cg2, root),
{
    assert forall|p: Seq<Seq<char>>| #[trigger] is_call_path(cg1, p) <==> is_call_path(cg2, p) by {
        if is_call_path(cg1, p) {
            assert forall|i: int| 0 <= i < p.len() - 1 implies callees(cg2, #[trigger] p[i]).contains(p[i + 1]) by {
                assert(callees(cg1, p[i]).contains(p[i + 1]));
            }
        }
        if is_call_path(cg2, p) {
            assert forall|i: int| 0 <= i < p.len() - 1 implies callees(cg1, #[trigger] p[i]).contains(p[i + 1]) by {
                assert(callees(cg2, p[i]).contains(p[i + 1]));
            }
        }
    }
    lemma_sorted_radius(cg1, root);
    lemma_sorted_radius(cg2, root);
    assert forall|s: Seq<char>| sorted_radius(cg1, root).contains(s) <==> sorted_radius(cg2, root).contains(s) by {
        if reachable(cg1, root, s) {
            let p = choose|p: Seq<Seq<char>>| #[trigger] is_call_path(cg1, p) && p[0] == root && p.last() == s;
            assert(is_call_path(cg2, p));
        }
        if reachable(cg2, root, s) {
            let p = choose|p: Seq<Seq<char>>| #[trigger] is_call_path(cg2, p) && p[0] == root && p.last() == s;
            assert(is_call_path(cg1, p));
        }
    }
    lemma_sorted_unique(sorted_radius(cg1, root), sorted_radius(cg2, root));
}

} // verus!


