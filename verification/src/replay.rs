//! What `replay` reports: one line per function that failed (or every
//! function when verbose), the description of its first failure, and the
//! run's total. Reading the pairs and running them is the caller's work;
//! each pair arrives here as `None` when it matched and as the description
//! of the difference when it did not.
use vstd::prelude::*;
use crate::compare::{push_all, push_str};
use crate::fleet::opt_view;
use crate::num::{dec_chars, decimal};
use crate::text::{chars_of, string_of};

verus! {

/// The views of pair outcomes.
pub open spec fn check_views(o: Seq<Option<String>>) -> Seq<Option<Seq<char>>> {
    o.map_values(|c: Option<String>| opt_view(c))
}

/// The views of printed lines.
pub open spec fn line_views(v: Seq<String>) -> Seq<Seq<char>> {
    v.map_values(|s: String| s@)
}

/// Pairs that matched.
pub open spec fn passes(o: Seq<Option<Seq<char>>>) -> nat
    decreases o.len(),
{
    if o.len() == 0 {
        0
    } else {
        passes(o.drop_last()) + if o.last() is None {
            1nat
        } else {
            0nat
        }
    }
}

/// Pairs that did not match.
pub open spec fn failures(o: Seq<Option<Seq<char>>>) -> nat
    decreases o.len(),
{
    if o.len() == 0 {
        0
    } else {
        failures(o.drop_last()) + if o.last() is Some {
            1nat
        } else {
            0nat
        }
    }
}

/// The first non-empty failure description, or the empty text.
pub open spec fn first_failure(o: Seq<Option<Seq<char>>>) -> Seq<char>
    decreases o.len(),
{
    if o.len() == 0 {
        Seq::empty()
    } else {
        let f = first_failure(o.drop_last());
        if f.len() > 0 {
            f
        } else {
            match o.last() {
                Some(m) => m,
                None => f,
            }
        }
    }
}

/// `[PASS]` for a function with no failed pair, else `[FAIL]`.
pub open spec fn verdict_tag(fail: nat) -> Seq<char> {
    if fail == 0 {
        "PASS"@
    } else {
        "FAIL"@
    }
}

/// `[{tag}] {name}: {pass}/{pass + fail} pairs`.
pub open spec fn fn_head_spec(name: Seq<char>, pass: nat, fail: nat) -> Seq<char> {
    "["@ + verdict_tag(fail) + "] "@ + name + ": "@ + dec_chars(pass) + "/"@ + dec_chars(pass + fail) + " pairs"@
}

/// `       first failure: {msg}`.
pub open spec fn first_failure_line(msg: Seq<char>) -> Seq<char> {
    "       first failure: "@ + msg
}

/// The lines printed for one function: its head line when verbose or when
/// a pair failed, then its first failure when there is one to tell.
pub open spec fn fn_lines(name: Seq<char>, o: Seq<Option<Seq<char>>>, verbose: bool) -> Seq<Seq<char>> {
    let p = passes(o);
    let f = failures(o);
    let m = first_failure(o);
    (if verbose || f > 0 {
        seq![fn_head_spec(name, p, f)]
    } else {
        Seq::<Seq<char>>::empty()
    }) + (if m.len() > 0 {
        seq![first_failure_line(m)]
    } else {
        Seq::<Seq<char>>::empty()
    })
}

/// The replay of one function's pairs.
pub struct FnReplay {
    pub pass: usize,
    pub fail: usize,
    pub lines: Vec<String>,
}

proof fn lemma_counts_len(o: Seq<Option<Seq<char>>>)
    ensures
        passes(o) + failures(o) == o.len(),
    decreases o.len(),
{
    if o.len() > 0 {
        lemma_counts_len(o.drop_last());
    }
}

/// Tallies one function's pairs and forms the lines printed for it.
pub fn replay_fn(name: &str, outcomes: &[Option<String>], verbose: bool) -> (r: FnReplay)
    ensures
        r.pass == passes(check_views(outcomes@)),
        r.fail == failures(check_views(outcomes@)),
        r.pass + r.fail == outcomes@.len(),
        line_views(r.lines@) == fn_lines(name@, check_views(outcomes@), verbose),
{
    let ghost ov = check_views(outcomes@);
    let mut pass: usize = 0;
    let mut fail: usize = 0;
    let mut first: Vec<char> = Vec::new();
    let mut i: usize = 0;
    while i < outcomes.len()
        invariant
            i <= outcomes.len(),
            ov == check_views(outcomes@),
            pass == passes(ov.take(i as int)),
            fail == failures(ov.take(i as int)),
            pass + fail == i,
            first@ == first_failure(ov.take(i as int)),
        decreases outcomes.len() - i,
    {
        assert(ov.take(i as int + 1).drop_last() =~= ov.take(i as int));
        assert(ov.take(i as int + 1).last() == ov[i as int]);
        match &outcomes[i] {
            None => {
                pass = pass + 1;
            },
            Some(m) => {
                fail = fail + 1;
                if first.len() == 0 {
                    first = chars_of(m.as_str());
                }
            },
        }
        i = i + 1;
    }
    assert(ov.take(outcomes.len() as int) =~= ov);
    proof {
        lemma_counts_len(ov);
    }
    let mut lines: Vec<String> = Vec::new();
    if verbose || fail > 0 {
        let mut h: Vec<char> = Vec::new();
        push_str(&mut h, "[");
        if fail == 0 {
            push_str(&mut h, "PASS");
        } else {
            push_str(&mut h, "FAIL");
        }
        push_str(&mut h, "] ");
        push_str(&mut h, name);
        push_str(&mut h, ": ");
        push_all(&mut h, &decimal(pass as u64));
        push_str(&mut h, "/");
        push_all(&mut h, &decimal((pass + fail) as u64));
        push_str(&mut h, " pairs");
        assert(h@ =~= fn_head_spec(name@, pass as nat, fail as nat));
        lines.push(string_of(h.as_slice()));
    }
    let ghost head = line_views(lines@);
    if first.len() > 0 {
        let mut t: Vec<char> = Vec::new();
        push_str(&mut t, "       first failure: ");
        push_all(&mut t, &first);
        lines.push(string_of(t.as_slice()));
        assert(line_views(lines@) =~= head.push(first_failure_line(first@)));
    }
    assert(line_views(lines@) =~= fn_lines(name@, ov, verbose));
    FnReplay { pass, fail, lines }
}

/// The views of the per-function outcome groups.
pub open spec fn group_views(g: Seq<(String, Vec<Option<String>>)>) -> Seq<(Seq<char>, Seq<Option<Seq<char>>>)> {
    g.map_values(|x: (String, Vec<Option<String>>)| (x.0@, check_views(x.1@)))
}

/// Matched pairs over all functions.
pub open spec fn run_passes(g: Seq<(Seq<char>, Seq<Option<Seq<char>>>)>) -> nat
    decreases g.len(),
{
    if g.len() == 0 {
        0
    } else {
        run_passes(g.drop_last()) + passes(g.last().1)
    }
}

/// Failed pairs over all functions.
pub open spec fn run_failures(g: Seq<(Seq<char>, Seq<Option<Seq<char>>>)>) -> nat
    decreases g.len(),
{
    if g.len() == 0 {
        0
    } else {
        run_failures(g.drop_last()) + failures(g.last().1)
    }
}

/// The lines of every function, in the order the functions come.
pub open spec fn run_lines(g: Seq<(Seq<char>, Seq<Option<Seq<char>>>)>, verbose: bool) -> Seq<Seq<char>>
    decreases g.len(),
{
    if g.len() == 0 {
        Seq::empty()
    } else {
        run_lines(g.drop_last(), verbose) + fn_lines(g.last().0, g.last().1, verbose)
    }
}

/// `\nTotal: {pass}/{pass + fail} pairs passed ({fail} failed)`.
pub open spec fn total_line_spec(pass: nat, fail: nat) -> Seq<char> {
    "\nTotal: "@ + dec_chars(pass) + "/"@ + dec_chars(pass + fail) + " pairs passed ("@ + dec_chars(fail)
        + " failed)"@
}

/// What a replay run prints and how it ends.
pub struct ReplayReport {
    pub lines: Vec<String>,
    pub pass: usize,
    pub fail: usize,
    pub exit_code: i32,
}

proof fn lemma_run_prefix(g: Seq<(Seq<char>, Seq<Option<Seq<char>>>)>, i: int)
    requires
        0 <= i <= g.len(),
    ensures
        run_passes(g.take(i)) + run_failures(g.take(i)) <= run_passes(g) + run_failures(g),
    decreases g.len(),
{
    if i == g.len() {
        assert(g.take(i) =~= g);
    } else {
        assert(g.drop_last().take(i) =~= g.take(i));
        lemma_run_prefix(g.drop_last(), i);
    }
}

/// The whole report of a replay: every function's lines, in the order the
/// groups come, then the total line; exit status 1 when a pair failed.
pub fn replay_report(groups: &[(String, Vec<Option<String>>)], verbose: bool) -> (r: ReplayReport)
    requires
        run_passes(group_views(groups@)) + run_failures(group_views(groups@)) <= usize::MAX,
    ensures
        r.pass == run_passes(group_views(groups@)),
        r.fail == run_failures(group_views(groups@)),
        line_views(r.lines@) == run_lines(group_views(groups@), verbose).push(total_line_spec(r.pass as nat, r.fail as nat)),
        r.exit_code == (if r.fail > 0 { 1i32 } else { 0i32 }),
{
    let ghost gv = group_views(groups@);
    let mut lines: Vec<String> = Vec::new();
    let mut pass: usize = 0;
    let mut fail: usize = 0;
    let mut i: usize = 0;
    while i < groups.len()
        invariant
            i <= groups.len(),
            gv == group_views(groups@),
            run_passes(gv) + run_failures(gv) <= usize::MAX,
            pass == run_passes(gv.take(i as int)),
            fail == run_failures(gv.take(i as int)),
            line_views(lines@) == run_lines(gv.take(i as int), verbose),
        decreases groups.len() - i,
    {
        let ghost t = gv.take(i as int + 1);
        assert(t.drop_last() =~= gv.take(i as int));
        assert(t.last() == gv[i as int]);
        proof {
            lemma_run_prefix(gv, i as int + 1);
        }
        let fr = replay_fn(groups[i].0.as_str(), groups[i].1.as_slice(), verbose);
        pass = pass + fr.pass;
        fail = fail + fr.fail;
        let ghost before = lines@;
        let mut more = fr.lines;
        let ghost added = more@;
        lines.append(&mut more);
        assert(line_views(lines@) =~= line_views(before) + line_views(added));
        i = i + 1;
    }
    assert(gv.take(groups.len() as int) =~= gv);
    let ghost body = line_views(lines@);
    let mut t: Vec<char> = Vec::new();
    push_str(&mut t, "\nTotal: ");
    push_all(&mut t, &decimal(pass as u64));
    push_str(&mut t, "/");
    push_all(&mut t, &decimal((pass + fail) as u64));
    push_str(&mut t, " pairs passed (");
    push_all(&mut t, &decimal(fail as u64));
    push_str(&mut t, " failed)");
    assert(t@ =~= total_line_spec(pass as nat, fail as nat));
    lines.push(string_of(t.as_slice()));
    assert(line_views(lines@) =~= body.push(total_line_spec(pass as nat, fail as nat)));
    let exit_code: i32 = if fail > 0 { 1 } else { 0 };
    ReplayReport { lines, pass, fail, exit_code }
}

} // verus!
