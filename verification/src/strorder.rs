//! The order of `String`s: lexicographic by character code, which is the
//! order of their UTF-8 bytes that `Ord for String` compares. Sorting and
//! deduplicating names by it stands in for `BTreeSet<String>` and
//! `sort()` on names.
use vstd::prelude::*;
use crate::text::chars_of;

verus! {

/// `a` comes strictly before `b`.
pub open spec fn lex_lt(a: Seq<char>, b: Seq<char>) -> bool
    decreases a.len(),
{
    if a.len() == 0 {
        b.len() > 0
    } else if b.len() == 0 {
        false
    } else if a[0] != b[0] {
        (a[0] as int) < (b[0] as int)
    } else {
        lex_lt(a.drop_first(), b.drop_first())
    }
}

pub proof fn lemma_lex_irreflexive(a: Seq<char>)
    ensures
        !lex_lt(a, a),
    decreases a.len(),
{
    if a.len() > 0 {
        lemma_lex_irreflexive(a.drop_first());
    }
}

pub proof fn lemma_lex_transitive(a: Seq<char>, b: Seq<char>, c: Seq<char>)
    requires
        lex_lt(a, b),
        lex_lt(b, c),
    ensures
        lex_lt(a, c),
    decreases a.len(),
{
    if a.len() > 0 && b.len() > 0 && c.len() > 0 && a[0] == b[0] && b[0] == c[0] {
        lemma_lex_transitive(a.drop_first(), b.drop_first(), c.drop_first());
    }
}

pub proof fn lemma_lex_total(a: Seq<char>, b: Seq<char>)
    ensures
        a == b || lex_lt(a, b) || lex_lt(b, a),
    decreases a.len(),
{
    if a.len() > 0 && b.len() > 0 && a[0] == b[0] {
        lemma_lex_total(a.drop_first(), b.drop_first());
        if a.drop_first() == b.drop_first() {
            assert(a =~= seq![a[0]] + a.drop_first());
            assert(b =~= seq![b[0]] + b.drop_first());
        }
    } else if a.len() == 0 && b.len() == 0 {
        assert(a =~= b);
    }
}

pub proof fn lemma_lex_asymmetric(a: Seq<char>, b: Seq<char>)
    requires
        lex_lt(a, b),
    ensures
        !lex_lt(b, a),
{
    if lex_lt(b, a) {
        lemma_lex_transitive(a, b, a);
        lemma_lex_irreflexive(a);
    }
}

/// Compares two character sequences: `a < b`.
pub fn chars_less(a: &[char], b: &[char]) -> (r: bool)
    ensures
        r == lex_lt(a@, b@),
{
    let mut i: usize = 0;
    assert(a@.skip(0) =~= a@);
    assert(b@.skip(0) =~= b@);
    while i < a.len() && i < b.len()
        invariant
            i <= a.len(),
            i <= b.len(),
            lex_lt(a@, b@) == lex_lt(a@.skip(i as int), b@.skip(i as int)),
        decreases a.len() - i,
    {
        if a[i] != b[i] {
            return a[i] < b[i];
        }
        assert(a@.skip(i as int).drop_first() =~= a@.skip(i as int + 1));
        assert(b@.skip(i as int).drop_first() =~= b@.skip(i as int + 1));
        i = i + 1;
    }
    i == a.len() && i < b.len()
}

/// Compares two strings: `a < b` as `Ord for String` does.
pub fn str_less(a: &str, b: &str) -> (r: bool)
    ensures
        r == lex_lt(a@, b@),
{
    let x = chars_of(a);
    let y = chars_of(b);
    chars_less(x.as_slice(), y.as_slice())
}

/// Strictly increasing: sorted with no repeats.
pub open spec fn strictly_sorted(s: Seq<Seq<char>>) -> bool {
    forall|i: int, j: int| 0 <= i < j < s.len() ==> lex_lt(#[trigger] s[i], #[trigger] s[j])
}

/// Two strictly increasing sequences with the same elements are equal.
pub proof fn lemma_sorted_unique(a: Seq<Seq<char>>, b: Seq<Seq<char>>)
    requires
        strictly_sorted(a),
        strictly_sorted(b),
        forall|s: Seq<char>| a.contains(s) <==> b.contains(s),
    ensures
        a == b,
    decreases a.len(),
{
    if a.len() == 0 {
        if b.len() > 0 {
            assert(b.contains(b[0]));
        }
        assert(a =~= b);
    } else {
        assert(a.contains(a[0]));
        let j = choose|j: int| 0 <= j < b.len() && b[j] == a[0];
        assert(b.contains(b[0]));
        let i = choose|i: int| 0 <= i < a.len() && a[i] == b[0];
        if j > 0 {
            assert(lex_lt(b[0], b[j]));
            if i == 0 {
                lemma_lex_irreflexive(a[0]);
            } else {
                assert(lex_lt(a[0], a[i]));
                lemma_lex_asymmetric(a[0], a[i]);
            }
        }
        let ta = a.drop_first();
        let tb = b.drop_first();
        assert forall|x: int, y: int| 0 <= x < y < ta.len() implies lex_lt(#[trigger] ta[x], #[trigger] ta[y]) by {
            assert(ta[x] == a[x + 1] && ta[y] == a[y + 1]);
        }
        assert forall|x: int, y: int| 0 <= x < y < tb.len() implies lex_lt(#[trigger] tb[x], #[trigger] tb[y]) by {
            assert(tb[x] == b[x + 1] && tb[y] == b[y + 1]);
        }
        assert forall|s: Seq<char>| ta.contains(s) <==> tb.contains(s) by {
            if ta.contains(s) {
                let x = choose|x: int| 0 <= x < ta.len() && ta[x] == s;
                assert(a[x + 1] == s);
                assert(lex_lt(a[0], s));
                assert(b.contains(s));
                let y = choose|y: int| 0 <= y < b.len() && b[y] == s;
                if y == 0 {
                    lemma_lex_irreflexive(s);
                }
                assert(tb[y - 1] == s);
            }
            if tb.contains(s) {
                let y = choose|y: int| 0 <= y < tb.len() && tb[y] == s;
                assert(b[y + 1] == s);
                assert(lex_lt(b[0], s));
                assert(a.contains(s));
                let x = choose|x: int| 0 <= x < a.len() && a[x] == s;
                if x == 0 {
                    lemma_lex_irreflexive(s);
                }
                assert(ta[x - 1] == s);
            }
        }
        lemma_sorted_unique(ta, tb);
        assert(a =~= seq![a[0]] + ta);
        assert(b =~= seq![b[0]] + tb);
    }
}

/// A finite, non-empty set of strings has a least element.
pub proof fn lemma_least(s: Set<Seq<char>>) -> (m: Seq<char>)
    requires
        s.finite(),
        s.len() > 0,
    ensures
        s.contains(m),
        forall|x: Seq<char>| #[trigger] s.contains(x) && x != m ==> lex_lt(m, x),
    decreases s.len(),
{
    let x = s.choose();
    let rest = s.remove(x);
    assert(s.contains(x));
    if rest.len() == 0 {
        assert forall|y: Seq<char>| #[trigger] s.contains(y) && y != x implies lex_lt(x, y) by {
            assert(rest.contains(y));
        }
        x
    } else {
        let m2 = lemma_least(rest);
        lemma_lex_total(x, m2);
        if lex_lt(x, m2) {
            assert forall|y: Seq<char>| #[trigger] s.contains(y) && y != x implies lex_lt(x, y) by {
                assert(rest.contains(y));
                if y != m2 {
                    lemma_lex_transitive(x, m2, y);
                }
            }
            x
        } else {
            assert forall|y: Seq<char>| #[trigger] s.contains(y) && y != m2 implies lex_lt(m2, y) by {
                if y != x {
                    assert(rest.contains(y));
                }
            }
            m2
        }
    }
}

/// A finite set of strings has an increasing listing.
pub proof fn lemma_sorted_listing(s: Set<Seq<char>>) -> (q: Seq<Seq<char>>)
    requires
        s.finite(),
    ensures
        strictly_sorted(q),
        forall|x: Seq<char>| q.contains(x) <==> s.contains(x),
    decreases s.len(),
{
    if s.len() == 0 {
        assert forall|x: Seq<char>| !s.contains(x) by {
            if s.contains(x) {
                vstd::set_lib::lemma_set_empty_equivalency_len(s);
            }
        }
        Seq::empty()
    } else {
        let m = lemma_least(s);
        let r = s.remove(m);
        let q2 = lemma_sorted_listing(r);
        let q = seq![m] + q2;
        assert forall|a: int, b: int| 0 <= a < b < q.len() implies lex_lt(#[trigger] q[a], #[trigger] q[b]) by {
            if a == 0 {
                assert(q2.contains(q[b]));
                assert(r.contains(q[b]));
            } else {
                assert(q[a] == q2[a - 1] && q[b] == q2[b - 1]);
            }
        }
        assert forall|x: Seq<char>| q.contains(x) <==> s.contains(x) by {
            if q.contains(x) {
                let i = choose|i: int| 0 <= i < q.len() && q[i] == x;
                if i > 0 {
                    assert(q2[i - 1] == x);
                }
            }
            if s.contains(x) {
                if x == m {
                    assert(q[0] == x);
                } else {
                    assert(r.contains(x));
                    let i = choose|i: int| 0 <= i < q2.len() && q2[i] == x;
                    assert(q[i + 1] == x);
                }
            }
        }
        q
    }
}

/// The views of a vector of strings.
pub open spec fn views(v: Seq<String>) -> Seq<Seq<char>> {
    v.map_values(|s: String| s@)
}

/// Sorts strings into increasing order and drops repeats: the contents of
/// a `BTreeSet<String>` built from them, in iteration order.
pub fn sort_dedup(v: Vec<String>) -> (r: Vec<String>)
    ensures
        strictly_sorted(views(r@)),
        forall|s: Seq<char>| views(r@).contains(s) <==> views(v@).contains(s),
{
    let mut out: Vec<String> = Vec::new();
    let mut i: usize = 0;
    while i < v.len()
        invariant
            i <= v.len(),
            strictly_sorted(views(out@)),
            forall|s: Seq<char>| views(out@).contains(s) <==> views(v@.take(i as int)).contains(s),
        decreases v.len() - i,
    {
        let x = v[i].clone();
        let ghost xv = x@;
        assert(views(v@.take(i as int + 1)) =~= views(v@.take(i as int)).push(xv));
        // find the insertion point: first position whose string is not below x
        let mut j: usize = 0;
        while j < out.len() && str_less(out[j].as_str(), x.as_str())
            invariant
                j <= out.len(),
                x@ == xv,
                forall|k: int| 0 <= k < j ==> lex_lt(#[trigger] views(out@)[k], xv),
            decreases out.len() - j,
        {
            j = j + 1;
        }
        let ghost before = views(out@);
        if j < out.len() && out[j] == x {
            // already present
            proof {
                assert(before[j as int] == xv);
                assert forall|s: Seq<char>| views(v@.take(i as int + 1)).contains(s) <==> (views(v@.take(i as int)).contains(s) || s == xv) by {
                    crate::seq_facts::lemma_push_contains(views(v@.take(i as int)), xv, s);
                }
                assert forall|s: Seq<char>| views(out@).contains(s) <==> views(v@.take(i as int + 1)).contains(s) by {
                    if s == xv {
                        assert(views(out@)[j as int] == s);
                    }
                }
            }
        } else {
            proof {
                if j < out.len() {
                    lemma_lex_total(before[j as int], xv);
                    assert(!lex_lt(before[j as int], xv));
                    assert(before[j as int] != xv);
                    assert(lex_lt(xv, before[j as int]));
                }
            }
            out.insert(j, x);
            proof {
                let after = views(out@);
                assert(after =~= before.subrange(0, j as int).push(xv) + before.subrange(j as int, before.len() as int));
                assert forall|k: int| 0 <= k < after.len() implies #[trigger] after[k] == (if k < j {
                    before[k]
                } else if k == j {
                    xv
                } else {
                    before[k - 1]
                }) by {}
                assert forall|a: int, b: int| 0 <= a < b < after.len() implies lex_lt(#[trigger] after[a], #[trigger] after[b]) by {
                    if b == j {
                    } else if a == j {
                        if b - 1 > j {
                            lemma_lex_transitive(xv, before[j as int], before[b - 1]);
                        }
                    } else if a < j && b > j {
                        if j < before.len() {
                            lemma_lex_transitive(before[a], xv, before[j as int]);
                        }
                        assert(lex_lt(before[a], before[b - 1]));
                    } else if b < j {
                    } else {
                        assert(lex_lt(before[a - 1], before[b - 1]));
                    }
                }
                assert forall|s: Seq<char>| views(v@.take(i as int + 1)).contains(s) <==> (views(v@.take(i as int)).contains(s) || s == xv) by {
                    crate::seq_facts::lemma_push_contains(views(v@.take(i as int)), xv, s);
                }
                assert forall|s: Seq<char>| after.contains(s) <==> views(v@.take(i as int + 1)).contains(s) by {
                    if after.contains(s) {
                        let k = choose|k: int| 0 <= k < after.len() && after[k] == s;
                        if k < j {
                            assert(before[k] == s);
                        } else if k > j {
                            assert(before[k - 1] == s);
                        }
                    }
                    if before.contains(s) {
                        let k = choose|k: int| 0 <= k < before.len() && before[k] == s;
                        if k < j {
                            assert(after[k] == s);
                        } else {
                            assert(after[k + 1] == s);
                        }
                    }
                    if s == xv {
                        assert(after[j as int] == s);
                    }
                }
            }
        }
        i = i + 1;
    }
    assert(v@.take(v.len() as int) =~= v@);
    out
}

/// Sorted, repeats allowed: no string comes after one that is below it.
pub open spec fn sorted_names(s: Seq<Seq<char>>) -> bool {
    forall|i: int, j: int| 0 <= i < j < s.len() ==> !lex_lt(#[trigger] s[j], #[trigger] s[i])
}

/// Sorts strings into increasing order, keeping repeats (`sort()` on a
/// `Vec<String>`).
pub fn sort_names(v: &[String]) -> (r: Vec<String>)
    ensures
        sorted_names(views(r@)),
        views(r@).to_multiset() == views(v@).to_multiset(),
{
    let ghost vv = views(v@);
    let mut out: Vec<String> = Vec::new();
    let mut i: usize = 0;
    assert(views(out@) =~= vv.take(0));
    while i < v.len()
        invariant
            i <= v.len(),
            vv == views(v@),
            sorted_names(views(out@)),
            views(out@).to_multiset() == vv.take(i as int).to_multiset(),
        decreases v.len() - i,
    {
        let x = v[i].clone();
        let ghost xv = x@;
        let mut j: usize = 0;
        while j < out.len() && !str_less(x.as_str(), out[j].as_str())
            invariant
                j <= out.len(),
                x@ == xv,
                forall|k: int| 0 <= k < j ==> !lex_lt(xv, #[trigger] views(out@)[k]),
            decreases out.len() - j,
        {
            j = j + 1;
        }
        let ghost before = views(out@);
        out.insert(j, x);
        proof {
            let after = views(out@);
            assert(after =~= before.insert(j as int, xv));
            assert forall|a: int, b: int| 0 <= a < b < after.len() implies !lex_lt(#[trigger] after[b], #[trigger] after[a]) by {
                if a < j && b == j {
                    lemma_lex_total(before[a], xv);
                } else if a == j && b > j {
                    assert(lex_lt(xv, before[j as int]));
                    if b - 1 > j {
                        assert(!lex_lt(before[b - 1], before[j as int]));
                        lemma_lex_total(before[j as int], before[b - 1]);
                        if before[j as int] != before[b - 1] {
                            lemma_lex_transitive(xv, before[j as int], before[b - 1]);
                        }
                    }
                    lemma_lex_asymmetric(xv, before[b - 1]);
                } else if a < j && b > j {
                    assert(!lex_lt(before[b - 1], before[a]));
                } else if a > j {
                    assert(!lex_lt(before[b - 1], before[a - 1]));
                }
            }
            assert(after.remove(j as int) =~= before);
            after.to_multiset_ensures();
            assert(after.to_multiset().count(xv) > 0) by {
                assert(after[j as int] == xv);
            }
            assert(before.to_multiset() =~= after.to_multiset().remove(xv));
            assert(after.to_multiset() =~= before.to_multiset().insert(xv));
            let t = vv.take(i as int + 1);
            assert(t =~= vv.take(i as int).push(xv));
            vv.take(i as int).to_multiset_ensures();
        }
        i = i + 1;
    }
    assert(vv.take(v.len() as int) =~= vv);
    out
}

} // verus!
