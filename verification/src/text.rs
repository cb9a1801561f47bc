//! Character-level text handling shared by the parsers: whitespace as Rust
//! defines it, line splitting, trimming and token splitting, all stated over
//! `Seq<char>`.
use vstd::prelude::*;
use vstd::std_specs::iter::IteratorSpec;

verus! {

/// The Unicode `White_Space` property, which `char::is_whitespace` tests.
pub open spec fn is_ws(c: char) -> bool {
    let u = c as u32;
    ||| 0x09 <= u <= 0x0D
    ||| u == 0x20
    ||| u == 0x85
    ||| u == 0xA0
    ||| u == 0x1680
    ||| 0x2000 <= u <= 0x200A
    ||| u == 0x2028
    ||| u == 0x2029
    ||| u == 0x202F
    ||| u == 0x205F
    ||| u == 0x3000
}

/// `char::is_whitespace`.
pub fn is_whitespace(c: char) -> (r: bool)
    ensures
        r == is_ws(c),
{
    let u = c as u32;
    (0x09 <= u && u <= 0x0D) || u == 0x20 || u == 0x85 || u == 0xA0 || u == 0x1680 || (0x2000 <= u
        && u <= 0x200A) || u == 0x2028 || u == 0x2029 || u == 0x202F || u == 0x205F || u == 0x3000
}

/// The characters of a string slice, in order.
pub fn chars_of(s: &str) -> (v: Vec<char>)
    ensures
        v@ == s@,
{
    let mut v: Vec<char> = Vec::new();
    let it = s.chars();
    proof {
        vstd::string::axiom_spec_iter(s);
    }
    for c in iter: it
        invariant
            iter.seq() == s@,
            v@ == iter.seq().take(iter.index() as int),
    {
        v.push(c);
    }
    v
}

/// `String::push`: appends one character.
#[verifier::external_body]
fn push_char(s: &mut String, c: char)
    ensures
        final(s)@ == old(s)@.push(c),
{
    s.push(c);
}

/// The string whose characters are `cs`.
pub fn string_of(cs: &[char]) -> (s: String)
    ensures
        s@ == cs@,
{
    let mut s = String::new();
    let mut i: usize = 0;
    while i < cs.len()
        invariant
            i <= cs.len(),
            s@ == cs@.take(i as int),
        decreases cs.len() - i,
    {
        push_char(&mut s, cs[i]);
        i = i + 1;
        assert(s@ =~= cs@.take(i as int));
    }
    assert(cs@.take(cs.len() as int) =~= cs@);
    s
}


/// The string of the characters `cs[from..to]`.
pub fn string_of_span(cs: &[char], from: usize, to: usize) -> (s: String)
    requires
        from <= to <= cs.len(),
    ensures
        s@ == cs@.subrange(from as int, to as int),
{
    let mut s = String::new();
    let mut i: usize = from;
    while i < to
        invariant
            from <= i <= to <= cs.len(),
            s@ == cs@.subrange(from as int, i as int),
        decreases to - i,
    {
        push_char(&mut s, cs[i]);
        i = i + 1;
        assert(s@ =~= cs@.subrange(from as int, i as int));
    }
    s
}

/// Whether `cs[from..to]` is exactly `word`.
pub fn span_is(cs: &[char], from: usize, to: usize, word: &[char]) -> (r: bool)
    requires
        from <= to <= cs.len(),
    ensures
        r == (cs@.subrange(from as int, to as int) == word@),
{
    if to - from != word.len() {
        assert(cs@.subrange(from as int, to as int).len() != word@.len());
        return false;
    }
    let mut i: usize = 0;
    while i < word.len()
        invariant
            from <= to <= cs.len(),
            to - from == word.len(),
            i <= word.len(),
            forall|k: int| 0 <= k < i ==> cs@[from + k] == word@[k],
        decreases word.len() - i,
    {
        if cs[from + i] != word[i] {
            assert(cs@.subrange(from as int, to as int)[i as int] != word@[i as int]);
            return false;
        }
        i = i + 1;
    }
    assert(cs@.subrange(from as int, to as int) =~= word@);
    true
}

/// Whether `cs[from..to]` begins with `word`.
pub fn span_starts_with(cs: &[char], from: usize, to: usize, word: &[char]) -> (r: bool)
    requires
        from <= to <= cs.len(),
    ensures
        r == (word@.len() <= to - from && cs@.subrange(from as int, from + word@.len()) == word@),
{
    if to - from < word.len() {
        return false;
    }
    span_is(cs, from, from + word.len(), word)
}

/// The first index in `[from, to)` whose character satisfies `p`, or `to`.
pub open spec fn scan(s: Seq<char>, from: int, to: int, p: spec_fn(char) -> bool) -> int
    decreases to - from,
{
    if from >= to {
        to
    } else if p(s[from]) {
        from
    } else {
        scan(s, from + 1, to, p)
    }
}

/// One past the last index in `[from, to)` whose character satisfies `p`,
/// or `from` when none does.
pub open spec fn rscan(s: Seq<char>, from: int, to: int, p: spec_fn(char) -> bool) -> int
    decreases to - from,
{
    if to <= from {
        from
    } else if p(s[to - 1]) {
        to
    } else {
        rscan(s, from, to - 1, p)
    }
}

pub open spec fn not_ws() -> spec_fn(char) -> bool {
    |c: char| !is_ws(c)
}

pub open spec fn ws() -> spec_fn(char) -> bool {
    |c: char| is_ws(c)
}

pub open spec fn eq_char(x: char) -> spec_fn(char) -> bool {
    |c: char| c == x
}

pub proof fn lemma_scan_facts(s: Seq<char>, from: int, to: int, p: spec_fn(char) -> bool)
    requires
        from <= to,
    ensures
        from <= scan(s, from, to, p) <= to,
        forall|j: int| from <= j < scan(s, from, to, p) ==> !p(#[trigger] s[j]),
        scan(s, from, to, p) < to ==> p(s[scan(s, from, to, p)]),
    decreases to - from,
{
    if from < to && !p(s[from]) {
        lemma_scan_facts(s, from + 1, to, p);
    }
}

pub proof fn lemma_rscan_facts(s: Seq<char>, from: int, to: int, p: spec_fn(char) -> bool)
    requires
        from <= to,
    ensures
        from <= rscan(s, from, to, p) <= to,
        forall|j: int| rscan(s, from, to, p) <= j < to ==> !p(#[trigger] s[j]),
        rscan(s, from, to, p) > from ==> p(s[rscan(s, from, to, p) - 1]),
    decreases to - from,
{
    if from < to && !p(s[to - 1]) {
        lemma_rscan_facts(s, from, to - 1, p);
    }
}

/// The first index in `[from, to)` holding `x`, or `to`.
pub fn find_char(cs: &[char], from: usize, to: usize, x: char) -> (r: usize)
    requires
        from <= to <= cs.len(),
    ensures
        r == scan(cs@, from as int, to as int, eq_char(x)),
{
    let mut i = from;
    while i < to
        invariant
            from <= i <= to <= cs.len(),
            scan(cs@, from as int, to as int, eq_char(x)) == scan(cs@, i as int, to as int, eq_char(x)),
        decreases to - i,
    {
        if cs[i] == x {
            return i;
        }
        i = i + 1;
    }
    i
}

/// The first index in `[from, to)` holding a whitespace character, or `to`.
pub fn find_ws(cs: &[char], from: usize, to: usize) -> (r: usize)
    requires
        from <= to <= cs.len(),
    ensures
        r == scan(cs@, from as int, to as int, ws()),
{
    let mut i = from;
    while i < to
        invariant
            from <= i <= to <= cs.len(),
            scan(cs@, from as int, to as int, ws()) == scan(cs@, i as int, to as int, ws()),
        decreases to - i,
    {
        if is_whitespace(cs[i]) {
            return i;
        }
        i = i + 1;
    }
    i
}

/// The first index in `[from, to)` holding a non-whitespace character, or `to`.
pub fn skip_ws(cs: &[char], from: usize, to: usize) -> (r: usize)
    requires
        from <= to <= cs.len(),
    ensures
        r == scan(cs@, from as int, to as int, not_ws()),
{
    let mut i = from;
    while i < to
        invariant
            from <= i <= to <= cs.len(),
            scan(cs@, from as int, to as int, not_ws()) == scan(cs@, i as int, to as int, not_ws()),
        decreases to - i,
    {
        if !is_whitespace(cs[i]) {
            return i;
        }
        i = i + 1;
    }
    i
}

/// `str::trim` on the span `[from, to)`: the span without its leading and
/// trailing whitespace.
pub open spec fn trim_span(s: Seq<char>, from: int, to: int) -> (int, int) {
    let a = scan(s, from, to, not_ws());
    (a, rscan(s, a, to, not_ws()))
}

/// The trimmed span of `[from, to)`.
pub fn trim(cs: &[char], from: usize, to: usize) -> (r: (usize, usize))
    requires
        from <= to <= cs.len(),
    ensures
        r.0 == trim_span(cs@, from as int, to as int).0,
        r.1 == trim_span(cs@, from as int, to as int).1,
        from <= r.0 <= r.1 <= to,
{
    let a = skip_ws(cs, from, to);
    proof {
        lemma_scan_facts(cs@, from as int, to as int, not_ws());
    }
    let mut b = to;
    while b > a
        invariant
            from <= a <= b <= to <= cs.len(),
            a == scan(cs@, from as int, to as int, not_ws()),
            rscan(cs@, a as int, to as int, not_ws()) == rscan(cs@, a as int, b as int, not_ws()),
        decreases b - a,
    {
        if !is_whitespace(cs[b - 1]) {
            assert(not_ws()(cs@[b - 1]));
            assert(rscan(cs@, a as int, b as int, not_ws()) == b);
            return (a, b);
        }
        b = b - 1;
    }
    (a, b)
}

/// The next whitespace-separated token of `[from, to)`: its span, empty at
/// `to` when there is none (as `split_whitespace` yields them).
pub open spec fn token_at(s: Seq<char>, from: int, to: int) -> (int, int) {
    let a = scan(s, from, to, not_ws());
    (a, scan(s, a, to, ws()))
}

/// The span of the next token of `[from, to)`.
pub fn next_token(cs: &[char], from: usize, to: usize) -> (r: (usize, usize))
    requires
        from <= to <= cs.len(),
    ensures
        r.0 == token_at(cs@, from as int, to as int).0,
        r.1 == token_at(cs@, from as int, to as int).1,
        from <= r.0 <= r.1 <= to,
{
    let a = skip_ws(cs, from, to);
    proof {
        lemma_scan_facts(cs@, from as int, to as int, not_ws());
    }
    let b = find_ws(cs, a, to);
    proof {
        lemma_scan_facts(cs@, a as int, to as int, ws());
    }
    (a, b)
}

/// `str::lines` as spans: where the line starting at `from` ends, before a
/// `\r` that precedes its `\n`.
pub open spec fn line_end(s: Seq<char>, from: int, nl: int) -> int {
    if from < nl < s.len() && s[nl - 1] == '\r' {
        nl - 1
    } else {
        nl
    }
}

/// The spans `[start, end)` of the lines of `s` from index `from` on, as
/// `str::lines` yields them: split at `\n`, a `\r` right before a `\n`
/// dropped, no empty last line after a final `\n`.
pub open spec fn line_spans(s: Seq<char>, from: int) -> Seq<(int, int)>
    decreases s.len() + 1 - from,
{
    if from >= s.len() || from < 0 {
        Seq::empty()
    } else {
        let nl = scan(s, from, s.len() as int, eq_char('\n'));
        if nl < from || nl > s.len() {
            Seq::empty()
        } else {
            seq![(from, line_end(s, from, nl))] + line_spans(s, nl + 1)
        }
    }
}

/// The line spans of `cs`, in order.
pub fn lines(cs: &[char]) -> (r: Vec<(usize, usize)>)
    ensures
        r@.len() == line_spans(cs@, 0).len(),
        forall|k: int|
            0 <= k < r@.len() ==> (#[trigger] r@[k]).0 == line_spans(cs@, 0)[k].0 && r@[k].1
                == line_spans(cs@, 0)[k].1,
        forall|k: int| 0 <= k < r@.len() ==> (#[trigger] r@[k]).0 <= r@[k].1 <= cs.len(),
{
    let mut r: Vec<(usize, usize)> = Vec::new();
    let mut from: usize = 0;
    let ghost done: Seq<(int, int)> = Seq::empty();
    while from < cs.len()
        invariant
            from <= cs.len(),
            line_spans(cs@, 0) == done + line_spans(cs@, from as int),
            r@.len() == done.len(),
            forall|k: int|
                0 <= k < r@.len() ==> (#[trigger] r@[k]).0 == done[k].0 && r@[k].1 == done[k].1,
            forall|k: int| 0 <= k < r@.len() ==> (#[trigger] r@[k]).0 <= r@[k].1 <= cs.len(),
        decreases cs.len() - from,
    {
        let nl = find_char(cs, from, cs.len(), '\n');
        proof {
            lemma_scan_facts(cs@, from as int, cs.len() as int, eq_char('\n'));
        }
        let end = if from < nl && nl < cs.len() && cs[nl - 1] == '\r' {
            nl - 1
        } else {
            nl
        };
        r.push((from, end));
        proof {
            let step = seq![(from as int, end as int)];
            assert(line_spans(cs@, from as int) == step + line_spans(cs@, nl as int + 1));
            assert(done + line_spans(cs@, from as int) =~= (done + step) + line_spans(
                cs@,
                nl as int + 1,
            ));
            done = done + step;
        }
        if nl == cs.len() {
            proof {
                assert(line_spans(cs@, nl as int + 1) =~= Seq::<(int, int)>::empty());
                assert(line_spans(cs@, 0) =~= done);
            }
            return r;
        }
        from = nl + 1;
    }
    proof {
        assert(line_spans(cs@, from as int) =~= Seq::<(int, int)>::empty());
        assert(line_spans(cs@, 0) =~= done);
    }
    r
}

/// Lines joined into a text, each ended by `\n`.
pub open spec fn joined_lines(ls: Seq<Seq<char>>) -> Seq<char>
    decreases ls.len(),
{
    if ls.len() == 0 {
        Seq::empty()
    } else {
        joined_lines(ls.drop_last()) + ls.last() + seq!['\n']
    }
}

/// Where line `j` starts in `joined_lines(ls)`.
pub open spec fn line_offset(ls: Seq<Seq<char>>, j: int) -> int
    decreases j,
{
    if j <= 0 {
        0
    } else {
        line_offset(ls, j - 1) + ls[j - 1].len() + 1
    }
}

/// A line `str::lines` gives back unchanged once ended by `\n`: it holds
/// no `\n` and does not end in `\r`.
pub open spec fn plain_line(l: Seq<char>) -> bool {
    &&& forall|t: int| 0 <= t < l.len() ==> #[trigger] l[t] != '\n'
    &&& (l.len() > 0 ==> l.last() != '\r')
}

/// The character at column `t` of line `j` of the joined text.
pub open spec fn joined_char(ls: Seq<Seq<char>>, j: int, t: int) -> char {
    joined_lines(ls)[line_offset(ls, j) + t]
}

proof fn lemma_offset_prefix(ls: Seq<Seq<char>>, j: int)
    requires
        0 <= j < ls.len(),
    ensures
        line_offset(ls.drop_last(), j) == line_offset(ls, j),
    decreases j,
{
    if j > 0 {
        lemma_offset_prefix(ls, j - 1);
    }
}

proof fn lemma_offset_nonneg(ls: Seq<Seq<char>>, j: int)
    ensures
        line_offset(ls, j) >= 0,
    decreases j,
{
    if j > 0 {
        lemma_offset_nonneg(ls, j - 1);
    }
}

proof fn lemma_offset_mono(ls: Seq<Seq<char>>, i: int, j: int)
    requires
        0 <= i <= j,
    ensures
        0 <= line_offset(ls, i) <= line_offset(ls, j),
        i < j ==> line_offset(ls, i) + ls[i].len() + 1 <= line_offset(ls, j),
    decreases j - i,
{
    lemma_offset_nonneg(ls, i);
    if i < j {
        lemma_offset_mono(ls, i, j - 1);
    }
}

/// Each line of the joined text sits at its offset, followed by `\n`.
pub proof fn lemma_joined_index(ls: Seq<Seq<char>>)
    ensures
        joined_lines(ls).len() == line_offset(ls, ls.len() as int),
        forall|j: int, t: int|
            0 <= j < ls.len() && 0 <= t < ls[j].len() ==> #[trigger] joined_char(ls, j, t) == ls[j][t],
        forall|j: int| 0 <= j < ls.len() ==> #[trigger] joined_lines(ls)[line_offset(ls, j) + ls[j].len()] == '\n',
    decreases ls.len(),
{
    if ls.len() > 0 {
        let init = ls.drop_last();
        let n = ls.len() - 1;
        lemma_joined_index(init);
        lemma_offset_prefix(ls, n);
        let f = joined_lines(ls);
        let g = joined_lines(init);
        assert(f =~= g + ls.last() + seq!['\n']);
        assert(init.len() == n);
        assert(g.len() == line_offset(init, n));
        assert(g.len() == line_offset(ls, n));
        assert(f.len() == g.len() + ls[n].len() + 1);
        assert forall|j: int, t: int| 0 <= j < ls.len() && 0 <= t < ls[j].len() implies #[trigger] joined_char(ls, j, t) == ls[j][t] by {
            if j < n {
                lemma_offset_prefix(ls, j);
                lemma_offset_mono(ls, j, n);
                assert(line_offset(ls, j) + ls[j].len() + 1 <= line_offset(ls, n));
                assert(init[j] == ls[j]);
                assert(joined_char(init, j, t) == init[j][t]);
                let x = line_offset(ls, j) + t;
                assert(0 <= line_offset(ls, j));
                assert(x < g.len());
                assert(f[x] == g[x]);
            } else {
                assert(f[line_offset(ls, j) + t] == ls.last()[t]);
            }
        }
        assert forall|j: int| 0 <= j < ls.len() implies #[trigger] f[line_offset(ls, j) + ls[j].len()] == '\n' by {
            if j < n {
                lemma_offset_prefix(ls, j);
                lemma_offset_mono(ls, j, n);
                assert(init[j] == ls[j]);
                assert(g[line_offset(init, j) + init[j].len()] == '\n');
                assert(f[line_offset(ls, j) + ls[j].len()] == g[line_offset(ls, j) + ls[j].len()]);
            } else {
                assert(line_offset(ls, j) == g.len());
            }
        }
    }
}

/// Line `j` of the joined text is `ls[j]`, inside the text.
pub proof fn lemma_joined_line(ls: Seq<Seq<char>>, j: int)
    requires
        0 <= j < ls.len(),
    ensures
        0 <= line_offset(ls, j),
        line_offset(ls, j) + ls[j].len() < joined_lines(ls).len(),
        joined_lines(ls).subrange(line_offset(ls, j), line_offset(ls, j) + ls[j].len()) == ls[j],
{
    lemma_joined_index(ls);
    lemma_offset_mono(ls, j, ls.len() as int);
    let a = line_offset(ls, j);
    let f = joined_lines(ls);
    assert forall|t: int| 0 <= t < ls[j].len() implies #[trigger] f.subrange(a, a + ls[j].len())[t] == ls[j][t] by {
        assert(joined_char(ls, j, t) == ls[j][t]);
    }
    assert(f.subrange(a, a + ls[j].len()) =~= ls[j]);
}

proof fn lemma_joined_spans_from(ls: Seq<Seq<char>>, k: int)
    requires
        0 <= k <= ls.len(),
        forall|j: int| 0 <= j < ls.len() ==> plain_line(#[trigger] ls[j]),
    ensures
        line_spans(joined_lines(ls), line_offset(ls, k)) =~= Seq::new(
            (ls.len() - k) as nat,
            |j: int| (line_offset(ls, k + j), line_offset(ls, k + j) + ls[k + j].len()),
        ),
    decreases ls.len() - k,
{
    let f = joined_lines(ls);
    lemma_joined_index(ls);
    if k < ls.len() {
        let a = line_offset(ls, k);
        let l = ls[k];
        let e = a + l.len();
        lemma_offset_mono(ls, k, ls.len() as int);
        assert(plain_line(l));
        assert forall|i: int| a <= i < e implies !eq_char('\n')(#[trigger] f[i]) by {
            assert(joined_char(ls, k, i - a) == l[i - a]);
        }
        assert(f[e] == '\n');
        lemma_scan_is_at(f, a, e, f.len() as int, eq_char('\n'));
        if a < e {
            assert(joined_char(ls, k, l.len() - 1) == l[l.len() - 1]);
            assert(f[e - 1] != '\r');
        }
        assert(line_end(f, a, e) == e);
        lemma_joined_spans_from(ls, k + 1);
    } else {
        assert(line_offset(ls, k) >= f.len());
    }
}

/// The line spans of joined plain lines are the lines themselves.
pub proof fn lemma_joined_spans(ls: Seq<Seq<char>>)
    requires
        forall|j: int| 0 <= j < ls.len() ==> plain_line(#[trigger] ls[j]),
    ensures
        line_spans(joined_lines(ls), 0) =~= Seq::new(
            ls.len(),
            |j: int| (line_offset(ls, j), line_offset(ls, j) + ls[j].len()),
        ),
{
    lemma_joined_spans_from(ls, 0);
}

/// `scan` stops at `j` when nothing before it passes the test and `j` does.
pub proof fn lemma_scan_is_at(s: Seq<char>, i: int, j: int, to: int, p: spec_fn(char) -> bool)
    requires
        i <= j <= to,
        forall|k: int| i <= k < j ==> !p(#[trigger] s[k]),
        j < to ==> p(s[j]),
    ensures
        scan(s, i, to, p) == j,
    decreases j - i,
{
    if i < j {
        lemma_scan_is_at(s, i + 1, j, to, p);
    }
}

} // verus!
