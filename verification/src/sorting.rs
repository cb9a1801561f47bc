//! Stable sorting by an address key (what `sort_by_key` does on the symbol
//! tables), stated without reference to any algorithm: the output is ordered
//! by key and keeps, for every key, the subsequence of input items with that
//! key unchanged.
use vstd::prelude::*;

verus! {

broadcast use vstd::seq_lib::group_seq_properties;

/// Items ordered by a `u32` key.
pub trait Keyed {
    spec fn key_of(&self) -> u32;

    fn key(&self) -> (k: u32)
        ensures
            k == self.key_of(),
    ;
}

/// Keys never decrease along the sequence.
pub open spec fn sorted_by<V>(s: Seq<V>, key: spec_fn(V) -> u32) -> bool {
    forall|i: int, j: int| 0 <= i <= j < s.len() ==> key(#[trigger] s[i]) <= key(#[trigger] s[j])
}

/// Holds of the items whose key is `k`.
pub open spec fn key_is<V>(key: spec_fn(V) -> u32, k: u32) -> spec_fn(V) -> bool {
    |v: V| key(v) == k
}

/// The items of `s` whose key is `k`, in their order in `s`.
pub open spec fn class_by<V>(s: Seq<V>, key: spec_fn(V) -> u32, k: u32) -> Seq<V> {
    s.filter(key_is(key, k))
}

/// `out` is the stable sort of `inp` by `key`: ordered by key, and for every
/// key the items with that key in the same order as in `inp`.
pub open spec fn stable_sorted_by<V>(out: Seq<V>, inp: Seq<V>, key: spec_fn(V) -> u32) -> bool {
    &&& out.len() == inp.len()
    &&& sorted_by(out, key)
    &&& forall|k: u32| #[trigger] class_by(out, key, k) == class_by(inp, key, k)
}

/// The key of a `Keyed` item.
pub open spec fn key_fn<T: Keyed>() -> spec_fn(T) -> u32 {
    |x: T| x.key_of()
}

pub open spec fn key_sorted<T: Keyed>(s: Seq<T>) -> bool {
    sorted_by(s, key_fn::<T>())
}

pub open spec fn key_class<T: Keyed>(s: Seq<T>, k: u32) -> Seq<T> {
    class_by(s, key_fn::<T>(), k)
}

pub open spec fn stable_sorted_of<T: Keyed>(out: Seq<T>, inp: Seq<T>) -> bool {
    stable_sorted_by(out, inp, key_fn::<T>())
}

/// A stable sort seen through views stays a stable sort, for a key that
/// only looks at the view.
pub proof fn lemma_stable_sort_view<T: View>(
    out: Seq<T>,
    inp: Seq<T>,
    key: spec_fn(T) -> u32,
    vkey: spec_fn(T::V) -> u32,
)
    requires
        stable_sorted_by(out, inp, key),
        forall|x: T| #[trigger] key(x) == vkey(x.view()),
    ensures
        stable_sorted_by(out.map_values(|x: T| x.view()), inp.map_values(|x: T| x.view()), vkey),
{
    let vo = out.map_values(|x: T| x.view());
    let vi = inp.map_values(|x: T| x.view());
    assert forall|i: int, j: int| 0 <= i <= j < vo.len() implies vkey(#[trigger] vo[i]) <= vkey(
        #[trigger] vo[j],
    ) by {
        assert(key(out[i]) <= key(out[j]));
    }
    assert forall|k: u32| #[trigger] class_by(vo, vkey, k) == class_by(vi, vkey, k) by {
        assert forall|x: T| key_is(key, k)(x) <==> key_is(vkey, k)(x.view()) by {}
        vstd::seq_lib::lemma_filter_view_commute(out, key_is(key, k), key_is(vkey, k));
        vstd::seq_lib::lemma_filter_view_commute(inp, key_is(key, k), key_is(vkey, k));
        assert(class_by(out, key, k) == class_by(inp, key, k));
    }
}

proof fn lemma_class_of_larger<T: Keyed>(b: Seq<T>, k: u32)
    requires
        forall|m: int| 0 <= m < b.len() ==> (#[trigger] b[m]).key_of() > k,
    ensures
        key_class(b, k) == Seq::<T>::empty(),
{
    b.lemma_all_neg_filter_empty(key_is(key_fn::<T>(), k));
    assert(key_class(b, k) =~= Seq::<T>::empty());
}

proof fn lemma_class_of_single<T: Keyed>(x: T, k: u32)
    ensures
        x.key_of() != k ==> key_class(seq![x], k) == Seq::<T>::empty(),
        x.key_of() == k ==> key_class(seq![x], k) == seq![x],
{
    let s = seq![x];
    reveal_with_fuel(Seq::filter, 2);
    assert(s.drop_last() =~= Seq::<T>::empty());
}

/// Sorts `v` stably by key.
pub fn stable_sort_by_key<T: Keyed>(v: &mut Vec<T>)
    ensures
        stable_sorted_of(final(v)@, old(v)@),
{
    let ghost orig = v@;
    if v.len() == 0 {
        return;
    }
    let mut i: usize = 1;
    while i < v.len()
        invariant
            v@.len() == orig.len(),
            1 <= i <= v@.len(),
            key_sorted(v@.subrange(0, i as int)),
            forall|k: u32| #[trigger] key_class(v@, k) == key_class(orig, k),
        decreases v@.len() - i,
    {
        let xk = v[i].key();
        let mut j: usize = i;
        while j > 0 && v[j - 1].key() > xk
            invariant
                j <= i < v@.len(),
                xk == v@[i as int].key_of(),
                forall|m: int| j <= m < i ==> (#[trigger] v@[m]).key_of() > xk,
            decreases j,
        {
            j = j - 1;
        }
        let ghost before = v@;
        let ghost x = before[i as int];
        proof {
            assert forall|a: int, b: int| 0 <= a <= b < i implies (#[trigger] before[a]).key_of()
                <= (#[trigger] before[b]).key_of() by {
                assert(before.subrange(0, i as int)[a] == before[a]);
                assert(before.subrange(0, i as int)[b] == before[b]);
            }
        }
        let y = v.remove(i);
        v.insert(j, y);
        proof {
            let sa = before.subrange(0, j as int);
            let sb = before.subrange(j as int, i as int);
            let sc = before.subrange(i as int + 1, before.len() as int);
            assert(before =~= sa + (sb + (seq![x] + sc)));
            assert(v@ =~= sa + (seq![x] + (sb + sc)));
            assert forall|k: u32| #[trigger] key_class(v@, k) == key_class(before, k) by {
                lemma_class_of_single(x, k);
                if x.key_of() == k {
                    assert forall|m: int| 0 <= m < sb.len() implies (#[trigger] sb[m]).key_of() > k by {
                        assert(sb[m] == before[j + m]);
                    }
                    lemma_class_of_larger(sb, k);
                }
                assert(key_class(sb + sc, k) == key_class(sb, k) + key_class(sc, k));
                assert(key_class(seq![x] + sc, k) == key_class(seq![x], k) + key_class(sc, k));
                assert(key_class(sb + (seq![x] + sc), k) == key_class(sb, k) + key_class(
                    seq![x] + sc,
                    k,
                ));
                assert(key_class(seq![x] + (sb + sc), k) == key_class(seq![x], k) + key_class(
                    sb + sc,
                    k,
                ));
                assert(key_class(before, k) == key_class(sa, k) + key_class(sb + (seq![x] + sc), k));
                assert(key_class(v@, k) == key_class(sa, k) + key_class(seq![x] + (sb + sc), k));
                assert(key_class(v@, k) =~= key_class(before, k));
            }
            assert forall|k: int| 0 <= k < v@.len() implies #[trigger] v@[k] == (if k < j {
                before[k]
            } else if k == j {
                x
            } else if k <= i {
                before[k - 1]
            } else {
                before[k]
            }) by {}
            let p = v@.subrange(0, i as int + 1);
            assert forall|a: int, b: int| 0 <= a <= b < p.len() implies (#[trigger] p[a]).key_of()
                <= (#[trigger] p[b]).key_of() by {
                assert(p[a] == v@[a] && p[b] == v@[b]);
                if b < j {
                } else if b == j {
                    if a < j {
                        assert(before[a].key_of() <= before[j - 1].key_of());
                    }
                } else if a == j {
                } else if a < j {
                    assert(before[a].key_of() <= before[b - 1].key_of());
                } else {
                    assert(before[a - 1].key_of() <= before[b - 1].key_of());
                }
            }
        }
        i = i + 1;
    }
    proof {
        assert(v@.subrange(0, v@.len() as int) =~= v@);
        assert forall|k: u32| #[trigger] class_by(v@, key_fn::<T>(), k) == class_by(orig, key_fn::<T>(), k) by {
            assert(key_class(v@, k) == key_class(orig, k));
        }
    }
}

} // verus!
