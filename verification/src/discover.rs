//! Finding a run's inputs: the movies listed in a directory, and for each
//! the places its savestate and input file may lie, tried in order.
use vstd::prelude::*;
use crate::cache::{join_path, join_spec};
use crate::compare::push_str;
use crate::orchestrate::{extension_is, extension_of, file_stem, file_stem_of};
use crate::strorder::{sort_names, sorted_names, views};
use crate::text::string_of;

verus! {

/// Names whose extension is `ext`.
pub open spec fn has_ext(ext: Seq<char>) -> spec_fn(Seq<char>) -> bool {
    |n: Seq<char>| extension_of(n) == Some(ext)
}

/// The stem of a name.
pub open spec fn stem_fn() -> spec_fn(Seq<char>) -> Seq<char> {
    |n: Seq<char>| file_stem(n)
}

/// `r` holds the stems of the names with extension `ext`, taken in the
/// sorted order of the names (repeats kept).
pub open spec fn stems_listed(names: Seq<Seq<char>>, ext: Seq<char>, r: Seq<Seq<char>>) -> bool {
    exists|q: Seq<Seq<char>>|
        #![trigger q.map_values(stem_fn())]
        sorted_names(q) && q.to_multiset() == names.filter(has_ext(ext)).to_multiset() && r == q.map_values(stem_fn())
}

/// The stems of the directory entries `names` that carry extension `ext`,
/// in the order of the sorted names.
pub fn listed_stems(names: &[String], ext: &str) -> (r: Vec<String>)
    ensures
        stems_listed(views(names@), ext@, views(r@)),
{
    let ghost vn = views(names@);
    let ghost pred = has_ext(ext@);
    let mut kept: Vec<String> = Vec::new();
    let mut i: usize = 0;
    assert(vn.take(0) =~= Seq::<Seq<char>>::empty());
    assert(views(kept@) =~= vn.take(0).filter(pred)) by {
        reveal(Seq::filter);
    }
    while i < names.len()
        invariant
            i <= names.len(),
            vn == views(names@),
            pred == has_ext(ext@),
            views(kept@) == vn.take(i as int).filter(pred),
        decreases names.len() - i,
    {
        let ghost before = views(kept@);
        assert(vn.take(i as int + 1).drop_last() =~= vn.take(i as int));
        assert(vn.take(i as int + 1).last() == vn[i as int]);
        reveal(Seq::filter);
        if extension_is(names[i].as_str(), ext) {
            kept.push(names[i].clone());
            assert(views(kept@) =~= before.push(vn[i as int]));
        }
        i = i + 1;
    }
    assert(vn.take(names.len() as int) =~= vn);
    let sorted = sort_names(kept.as_slice());
    let ghost q = views(sorted@);
    let mut out: Vec<String> = Vec::new();
    let mut k: usize = 0;
    while k < sorted.len()
        invariant
            k <= sorted.len(),
            q == views(sorted@),
            views(out@) == q.take(k as int).map_values(stem_fn()),
        decreases sorted.len() - k,
    {
        let st = file_stem_of(sorted[k].as_str());
        let ghost prev = views(out@);
        let ghost sv = st@;
        out.push(st);
        assert(views(out@) =~= prev.push(sv));
        assert(sv == stem_fn()(q[k as int]));
        assert(q.take(k as int + 1) =~= q.take(k as int).push(q[k as int]));
        assert(views(out@) =~= q.take(k as int + 1).map_values(stem_fn()));
        k = k + 1;
    }
    assert(q.take(sorted.len() as int) =~= q);
    assert(views(out@) == q.map_values(stem_fn()));
    out
}

/// `<dir>/<stem>.<ext>`.
pub open spec fn flat_file_spec(dir: Seq<char>, stem: Seq<char>, ext: Seq<char>) -> Seq<char> {
    join_spec(dir, stem + seq!['.'] + ext)
}

/// The file `<stem>.<ext>` in `dir`.
pub fn flat_file(dir: &str, stem: &str, ext: &str) -> (r: String)
    ensures
        r@ == flat_file_spec(dir@, stem@, ext@),
{
    let mut name: Vec<char> = Vec::new();
    push_str(&mut name, stem);
    name.push('.');
    push_str(&mut name, ext);
    let n = string_of(name.as_slice());
    join_path(dir, n.as_str())
}

/// The movie directory of a demos tree: `<root>/bk2`.
pub fn bk2_dir(demos_root: &str) -> (r: String)
    ensures
        r@ == join_spec(demos_root@, "bk2"@),
{
    join_path(demos_root, "bk2")
}

/// Where a movie's savestate may lie, in the order tried: in its folder
/// `<dir>/<stem>/state.ss`, `.ss1`, `.ss2`, then beside it `<dir>/<stem>.ss`,
/// `.ss1`, `.ss2`.
pub open spec fn state_candidates_spec(dir: Seq<char>, stem: Seq<char>) -> Seq<Seq<char>> {
    let folder = join_spec(dir, stem);
    seq![
        join_spec(folder, "state.ss"@),
        join_spec(folder, "state.ss1"@),
        join_spec(folder, "state.ss2"@),
        flat_file_spec(dir, stem, "ss"@),
        flat_file_spec(dir, stem, "ss1"@),
        flat_file_spec(dir, stem, "ss2"@),
    ]
}

/// The places a movie's savestate is looked for, in order.
pub fn state_candidates(dir: &str, stem: &str) -> (r: Vec<String>)
    ensures
        views(r@) == state_candidates_spec(dir@, stem@),
{
    let folder = join_path(dir, stem);
    let mut r: Vec<String> = Vec::new();
    r.push(join_path(folder.as_str(), "state.ss"));
    r.push(join_path(folder.as_str(), "state.ss1"));
    r.push(join_path(folder.as_str(), "state.ss2"));
    r.push(flat_file(dir, stem, "ss"));
    r.push(flat_file(dir, stem, "ss1"));
    r.push(flat_file(dir, stem, "ss2"));
    assert(views(r@) =~= state_candidates_spec(dir@, stem@));
    r
}

/// Where a movie's input file may lie, in the order tried: in its folder
/// `<dir>/<stem>/inputs.input`, then beside it `<dir>/<stem>.input`.
pub open spec fn input_candidates_spec(dir: Seq<char>, stem: Seq<char>) -> Seq<Seq<char>> {
    seq![join_spec(join_spec(dir, stem), "inputs.input"@), flat_file_spec(dir, stem, "input"@)]
}

/// The places a movie's input file is looked for, in order.
pub fn input_candidates(dir: &str, stem: &str) -> (r: Vec<String>)
    ensures
        views(r@) == input_candidates_spec(dir@, stem@),
{
    let folder = join_path(dir, stem);
    let mut r: Vec<String> = Vec::new();
    r.push(join_path(folder.as_str(), "inputs.input"));
    r.push(flat_file(dir, stem, "input"));
    assert(views(r@) =~= input_candidates_spec(dir@, stem@));
    r
}

/// The candidate named by the first yes among the answers `found` (one
/// answer per candidate, in order), or none when no answer is yes.
pub open spec fn first_marked_spec(candidates: Seq<Seq<char>>, found: Seq<bool>) -> Option<Seq<char>>
    decreases found.len(),
{
    if found.len() == 0 || candidates.len() == 0 {
        None
    } else if found[0] {
        Some(candidates[0])
    } else {
        first_marked_spec(candidates.drop_first(), found.drop_first())
    }
}

/// The candidate of the first yes among `found`, the answers for the
/// candidates in order (as many as were asked).
pub fn first_marked(candidates: &[String], found: &[bool]) -> (r: Option<String>)
    ensures
        match first_marked_spec(views(candidates@), found@) {
            Some(p) => r matches Some(s) && s@ == p,
            None => r is None,
        },
{
    let ghost cv = views(candidates@);
    let mut i: usize = 0;
    assert(cv.skip(0) =~= cv);
    assert(found@.skip(0) =~= found@);
    while i < found.len() && i < candidates.len()
        invariant
            i <= found.len(),
            i <= candidates.len(),
            cv == views(candidates@),
            first_marked_spec(cv, found@) == first_marked_spec(cv.skip(i as int), found@.skip(i as int)),
        decreases found.len() - i,
    {
        let ghost cs = cv.skip(i as int);
        let ghost fs = found@.skip(i as int);
        assert(cs.drop_first() =~= cv.skip(i as int + 1));
        assert(fs.drop_first() =~= found@.skip(i as int + 1));
        if found[i] {
            assert(fs[0] == found@[i as int]);
            assert(cs[0] == cv[i as int]);
            return Some(candidates[i].clone());
        }
        i = i + 1;
    }
    None
}

/// Frames in an input file of `len` bytes: one 4-byte record each.
pub fn input_frame_count(len: u64) -> (n: u64)
    ensures
        n == len / 4,
{
    len / 4
}

} // verus!
