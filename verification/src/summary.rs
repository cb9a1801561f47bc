//! The end of a validation run: one result row per (patch ROM, bk2) pair,
//! the per-patch summary, and the rows in the order the results table
//! lists them.
use vstd::prelude::*;
use crate::strorder::{lex_lt, lemma_lex_irreflexive, lemma_lex_transitive, lemma_lex_total, lemma_lex_asymmetric,
    sort_dedup, strictly_sorted, views};
use crate::verdict::{verdict_word, Verdict};
use crate::compare::{push_all, push_str};
use crate::num::{signed_dec_chars, signed_decimal};
use crate::text::string_of;

verus! {

broadcast use vstd::seq_lib::group_seq_properties;

/// One compared pair: the ROM stem, the bk2 stem, the verdict and the
/// first differing frame (-1 when there is none).
pub struct ResultRow {
    pub rom_stem: String,
    pub bk2: String,
    pub verdict: Verdict,
    pub first_diff: i64,
}

pub type RowView = (Seq<char>, Seq<char>, Verdict, i64);

impl View for ResultRow {
    type V = RowView;

    open spec fn view(&self) -> RowView {
        (self.rom_stem@, self.bk2@, self.verdict, self.first_diff)
    }
}

impl ResultRow {
    pub fn clone_row(&self) -> (r: ResultRow)
        ensures
            r@ == self@,
    {
        ResultRow { rom_stem: self.rom_stem.clone(), bk2: self.bk2.clone(), verdict: self.verdict, first_diff: self.first_diff }
    }
}

pub open spec fn row_views(rows: Seq<ResultRow>) -> Seq<RowView> {
    rows.map_values(|r: ResultRow| r@)
}

/// How many failures the summary lists.
pub const LISTED_FAILURES: usize = 20;

/// The per-patch summary.
pub struct RunSummary {
    /// Distinct patch ROMs compared.
    pub patches_tested: usize,
    /// Patches whose every bk2 passed.
    pub n_pass: usize,
    /// Patches with at least one bk2 that did not pass.
    pub n_fail: usize,
    /// The first failing rows, patch by patch in name order, each patch's
    /// rows in result order.
    pub failures: Vec<ResultRow>,
}

/// Every row of patch `k` passed.
pub open spec fn patch_passes(rows: Seq<RowView>, k: Seq<char>) -> bool {
    forall|i: int| 0 <= i < rows.len() && (#[trigger] rows[i]).0 == k ==> rows[i].2 == Verdict::Pass
}

/// The failing rows of patch `k`, in result order.
pub open spec fn failing_rows_of(rows: Seq<RowView>, k: Seq<char>) -> Seq<RowView> {
    rows.filter(|r: RowView| r.0 == k && r.2 != Verdict::Pass)
}

/// The failing rows of the patches `keys`, patch by patch.
pub open spec fn failing_rows(rows: Seq<RowView>, keys: Seq<Seq<char>>) -> Seq<RowView>
    decreases keys.len(),
{
    if keys.len() == 0 {
        Seq::empty()
    } else {
        failing_rows(rows, keys.drop_last()) + failing_rows_of(rows, keys.last())
    }
}

/// Patches among `keys` whose rows all passed.
pub open spec fn passing_count(rows: Seq<RowView>, keys: Seq<Seq<char>>) -> nat
    decreases keys.len(),
{
    if keys.len() == 0 {
        0
    } else {
        passing_count(rows, keys.drop_last()) + if patch_passes(rows, keys.last()) {
            1nat
        } else {
            0nat
        }
    }
}

/// The patches compared, in name order.
pub open spec fn patch_keys(rows: Seq<RowView>) -> Seq<Seq<char>> {
    choose|q: Seq<Seq<char>>| strictly_sorted(q) && forall|s: Seq<char>| #[trigger] q.contains(s) <==> exists|i: int|
        0 <= i < rows.len() && #[trigger] rows[i].0 == s
}

fn failing_of(rows: &[ResultRow], key: &String, out: &mut Vec<ResultRow>) -> (passes: bool)
    requires
        old(out)@.len() <= LISTED_FAILURES,
    ensures
        final(out)@.len() <= LISTED_FAILURES,
        passes == patch_passes(row_views(rows@), key@),
        row_views(final(out)@) == (row_views(old(out)@) + failing_rows_of(row_views(rows@), key@)).take(
            if old(out)@.len() + failing_rows_of(row_views(rows@), key@).len() < LISTED_FAILURES {
                old(out)@.len() + failing_rows_of(row_views(rows@), key@).len() as int
            } else {
                LISTED_FAILURES as int
            },
        ),
{
    let ghost rv = row_views(rows@);
    let ghost start = row_views(out@);
    let ghost pred = |r: RowView| r.0 == key@ && r.2 != Verdict::Pass;
    let mut passes = true;
    let mut i: usize = 0;
    while i < rows.len()
        invariant
            i <= rows.len(),
            rv == row_views(rows@),
            pred == (|r: RowView| r.0 == key@ && r.2 != Verdict::Pass),
            passes == forall|j: int| 0 <= j < i && (#[trigger] rv[j]).0 == key@ ==> rv[j].2 == Verdict::Pass,
            row_views(out@) == (start + rv.take(i as int).filter(pred)).take(
                if start.len() + rv.take(i as int).filter(pred).len() < LISTED_FAILURES {
                    start.len() + rv.take(i as int).filter(pred).len() as int
                } else {
                    LISTED_FAILURES as int
                },
            ),
            start.len() <= LISTED_FAILURES,
            out@.len() <= LISTED_FAILURES,
        decreases rows.len() - i,
    {
        let ghost before = row_views(out@);
        let ghost t = rv.take(i as int + 1);
        assert(t.drop_last() =~= rv.take(i as int));
        assert(t.last() == rv[i as int]);
        reveal(Seq::filter);
        if rows[i].rom_stem == *key && rows[i].verdict != Verdict::Pass {
            passes = false;
            assert(pred(rv[i as int]));
            assert(t.filter(pred) == rv.take(i as int).filter(pred).push(rv[i as int]));
            if out.len() < LISTED_FAILURES {
                let r = rows[i].clone_row();
                out.push(r);
                assert(row_views(out@) =~= before.push(rv[i as int]));
            }
            let ghost f = rv.take(i as int).filter(pred);
            assert((start + f.push(rv[i as int])) =~= (start + f).push(rv[i as int]));
        } else {
            assert(!pred(rv[i as int]));
            assert(t.filter(pred) == rv.take(i as int).filter(pred));
        }
        i = i + 1;
    }
    assert(rv.take(rows.len() as int) =~= rv);
    passes
}

/// Summarizes a run: patches tested, how many passed every bk2, how many
/// did not, and up to 20 failing rows in patch-name order.
pub fn summarize(rows: &[ResultRow]) -> (s: RunSummary)
    ensures
        s.patches_tested == patch_keys(row_views(rows@)).len(),
        s.n_pass == passing_count(row_views(rows@), patch_keys(row_views(rows@))),
        s.n_fail == s.patches_tested - s.n_pass,
        row_views(s.failures@) == failing_rows(row_views(rows@), patch_keys(row_views(rows@))).take(
            if failing_rows(row_views(rows@), patch_keys(row_views(rows@))).len() < LISTED_FAILURES {
                failing_rows(row_views(rows@), patch_keys(row_views(rows@))).len() as int
            } else {
                LISTED_FAILURES as int
            },
        ),
{
    let ghost rv = row_views(rows@);
    let mut stems: Vec<String> = Vec::new();
    let mut i: usize = 0;
    while i < rows.len()
        invariant
            i <= rows.len(),
            rv == row_views(rows@),
            views(stems@) == Seq::new(i as nat, |j: int| rv[j].0),
        decreases rows.len() - i,
    {
        let st = rows[i].rom_stem.clone();
        let ghost before = views(stems@);
        stems.push(st);
        assert(rv[i as int].0 == rows@[i as int].rom_stem@);
        assert(views(stems@) =~= before.push(rv[i as int].0));
        assert(views(stems@) =~= Seq::new(i as nat + 1, |j: int| rv[j].0));
        i = i + 1;
    }
    let keys = sort_dedup(stems);
    proof {
        let q = patch_keys(rv);
        let kv = views(keys@);
        assert forall|s: Seq<char>| #[trigger] kv.contains(s) <==> exists|i: int| 0 <= i < rv.len() && #[trigger] rv[i].0 == s by {
            if kv.contains(s) {
                let j = choose|j: int| 0 <= j < views(stems@).len() && views(stems@)[j] == s;
                assert(rv[j].0 == s);
            }
            if exists|i: int| 0 <= i < rv.len() && #[trigger] rv[i].0 == s {
                let i = choose|i: int| 0 <= i < rv.len() && #[trigger] rv[i].0 == s;
                assert(views(stems@)[i] == s);
            }
        }
        crate::strorder::lemma_sorted_unique(q, kv);
    }
    let ghost kv = views(keys@);
    let mut n_pass: usize = 0;
    let mut failures: Vec<ResultRow> = Vec::new();
    let mut k: usize = 0;
    while k < keys.len()
        invariant
            k <= keys.len(),
            rv == row_views(rows@),
            kv == views(keys@),
            n_pass == passing_count(rv, kv.take(k as int)),
            n_pass <= k,
            failures@.len() <= LISTED_FAILURES,
            row_views(failures@) == failing_rows(rv, kv.take(k as int)).take(
                if failing_rows(rv, kv.take(k as int)).len() < LISTED_FAILURES {
                    failing_rows(rv, kv.take(k as int)).len() as int
                } else {
                    LISTED_FAILURES as int
                },
            ),
        decreases keys.len() - k,
    {
        let ghost t = kv.take(k as int + 1);
        assert(t.drop_last() =~= kv.take(k as int));
        assert(t.last() == keys@[k as int]@);
        let ghost prev = failing_rows(rv, kv.take(k as int));
        let ghost here = failing_rows_of(rv, keys@[k as int]@);
        let passes = failing_of(rows, &keys[k], &mut failures);
        proof {
            let lim = |n: int| if n < LISTED_FAILURES { n } else { LISTED_FAILURES as int };
            assert(failing_rows(rv, t) == prev + here);
            let p_t = prev.take(lim(prev.len() as int));
            assert((p_t + here).take(lim(p_t.len() + here.len() as int)) =~= (prev + here).take(lim(prev.len() + here.len() as int)));
        }
        if passes {
            n_pass = n_pass + 1;
        }
        k = k + 1;
    }
    assert(kv.take(keys.len() as int) =~= kv);
    RunSummary { patches_tested: keys.len(), n_pass, n_fail: keys.len() - n_pass, failures }
}

/// Verdicts in the order of their table words: `ERROR` < `FAIL` <
/// `MISSING` < `PASS`.
pub open spec fn verdict_rank(v: Verdict) -> int {
    match v {
        Verdict::Error => 0,
        Verdict::Fail => 1,
        Verdict::Missing => 2,
        Verdict::Pass => 3,
    }
}

fn rank(v: Verdict) -> (r: u8)
    ensures
        r == verdict_rank(v),
{
    match v {
        Verdict::Error => 0,
        Verdict::Fail => 1,
        Verdict::Missing => 2,
        Verdict::Pass => 3,
    }
}

/// The results table's row order: ROM stem, then bk2, then verdict word,
/// then first differing frame.
pub open spec fn row_lt(a: RowView, b: RowView) -> bool {
    ||| lex_lt(a.0, b.0)
    ||| a.0 == b.0 && lex_lt(a.1, b.1)
    ||| a.0 == b.0 && a.1 == b.1 && verdict_rank(a.2) < verdict_rank(b.2)
    ||| a.0 == b.0 && a.1 == b.1 && a.2 == b.2 && a.3 < b.3
}

proof fn lemma_row_irreflexive(a: RowView)
    ensures
        !row_lt(a, a),
{
    lemma_lex_irreflexive(a.0);
    lemma_lex_irreflexive(a.1);
}

proof fn lemma_row_transitive(a: RowView, b: RowView, c: RowView)
    requires
        row_lt(a, b),
        row_lt(b, c),
    ensures
        row_lt(a, c),
{
    if lex_lt(a.0, b.0) && lex_lt(b.0, c.0) {
        lemma_lex_transitive(a.0, b.0, c.0);
    }
    if a.0 == b.0 && b.0 == c.0 && lex_lt(a.1, b.1) && lex_lt(b.1, c.1) {
        lemma_lex_transitive(a.1, b.1, c.1);
    }
}

proof fn lemma_row_total(a: RowView, b: RowView)
    ensures
        a == b || row_lt(a, b) || row_lt(b, a),
{
    lemma_lex_total(a.0, b.0);
    lemma_lex_total(a.1, b.1);
    if a.0 == b.0 && a.1 == b.1 && verdict_rank(a.2) == verdict_rank(b.2) {
        assert(a.2 == b.2);
    }
}

proof fn lemma_row_asymmetric(a: RowView, b: RowView)
    requires
        row_lt(a, b),
    ensures
        !row_lt(b, a),
{
    if row_lt(b, a) {
        lemma_row_transitive(a, b, a);
        lemma_row_irreflexive(a);
    }
}

fn row_less(a: &ResultRow, b: &ResultRow) -> (r: bool)
    ensures
        r == row_lt(a@, b@),
{
    if crate::strorder::str_less(a.rom_stem.as_str(), b.rom_stem.as_str()) {
        return true;
    }
    if a.rom_stem != b.rom_stem {
        return false;
    }
    if crate::strorder::str_less(a.bk2.as_str(), b.bk2.as_str()) {
        return true;
    }
    if a.bk2 != b.bk2 {
        return false;
    }
    let ra = rank(a.verdict);
    let rb = rank(b.verdict);
    if ra != rb {
        proof {
            if ra < rb {
            } else {
                assert(a@.2 != b@.2);
            }
        }
        return ra < rb;
    }
    assert(a@.2 == b@.2) by {
        if a@.2 != b@.2 {
            assert(verdict_rank(a@.2) != verdict_rank(b@.2));
        }
    }
    a.first_diff < b.first_diff
}

/// Rows never decrease in table order.
pub open spec fn rows_in_order(rows: Seq<RowView>) -> bool {
    forall|i: int, j: int| 0 <= i < j < rows.len() ==> !row_lt(#[trigger] rows[j], #[trigger] rows[i])
}

/// The rows in table order (the same rows, each as often).
pub fn table_order(rows: &[ResultRow]) -> (r: Vec<ResultRow>)
    ensures
        rows_in_order(row_views(r@)),
        row_views(r@).to_multiset() == row_views(rows@).to_multiset(),
{
    let ghost rv = row_views(rows@);
    let mut out: Vec<ResultRow> = Vec::new();
    let mut i: usize = 0;
    while i < rows.len()
        invariant
            i <= rows.len(),
            rv == row_views(rows@),
            rows_in_order(row_views(out@)),
            row_views(out@).to_multiset() == rv.take(i as int).to_multiset(),
        decreases rows.len() - i,
    {
        let x = rows[i].clone_row();
        let ghost xv = x@;
        let mut j: usize = 0;
        while j < out.len() && !row_less(&x, &out[j])
            invariant
                j <= out.len(),
                x@ == xv,
                forall|k: int| 0 <= k < j ==> !row_lt(xv, #[trigger] row_views(out@)[k]),
            decreases out.len() - j,
        {
            j = j + 1;
        }
        let ghost before = row_views(out@);
        out.insert(j, x);
        proof {
            let after = row_views(out@);
            assert(after =~= before.insert(j as int, xv));
            assert forall|k: int| 0 <= k < after.len() implies #[trigger] after[k] == (if k < j {
                before[k]
            } else if k == j {
                xv
            } else {
                before[k - 1]
            }) by {}
            assert forall|a: int, b: int| 0 <= a < b < after.len() implies !row_lt(#[trigger] after[b], #[trigger] after[a]) by {
                if a < j && b == j {
                    lemma_row_total(before[a], xv);
                    if row_lt(xv, before[a]) {
                    }
                } else if a == j && b > j {
                    // x < before[j] <= before[b - 1]
                    assert(row_lt(xv, before[j as int]));
                    if b - 1 > j {
                        assert(!row_lt(before[b - 1], before[j as int]));
                        lemma_row_total(before[j as int], before[b - 1]);
                        if before[j as int] != before[b - 1] {
                            lemma_row_transitive(xv, before[j as int], before[b - 1]);
                        }
                    }
                    lemma_row_asymmetric(xv, before[b - 1]);
                } else if a < j && b > j {
                    assert(!row_lt(before[b - 1], before[a]));
                } else if a > j {
                    assert(!row_lt(before[b - 1], before[a - 1]));
                }
            }
            // the same rows
            assert(after.remove(j as int) =~= before);
            after.to_multiset_ensures();
            assert(after.to_multiset().count(xv) > 0) by {
                assert(after[j as int] == xv);
            }
            assert(before.to_multiset() =~= after.to_multiset().remove(xv));
            assert(after.to_multiset() =~= before.to_multiset().insert(xv));
            let t = rv.take(i as int + 1);
            assert(t =~= rv.take(i as int).push(xv));
            rv.take(i as int).to_multiset_ensures();
        }
        i = i + 1;
    }
    assert(rv.take(rows.len() as int) =~= rv);
    out
}

/// The header line of the results CSV.
pub fn csv_header() -> (s: &'static str)
    ensures
        s@ == "rom_stem,bk2,verdict,first_diff_frame"@,
{
    "rom_stem,bk2,verdict,first_diff_frame"
}

/// One row of the results CSV: `rom_stem,bk2,VERDICT,first_diff`.
pub fn csv_line(row: &ResultRow) -> (s: String)
    ensures
        s@ == row.rom_stem@ + seq![','] + row.bk2@ + seq![','] + verdict_word(row.verdict) + seq![',']
            + signed_dec_chars(row.first_diff as int),
{
    let mut out: Vec<char> = Vec::new();
    push_str(&mut out, row.rom_stem.as_str());
    out.push(',');
    push_str(&mut out, row.bk2.as_str());
    out.push(',');
    push_str(&mut out, row.verdict.as_str());
    out.push(',');
    push_all(&mut out, &signed_decimal(row.first_diff));
    string_of(out.as_slice())
}

} // verus!
