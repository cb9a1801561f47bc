//! Record-output cache for the bk2 verification workflow.
//!
//! Recording depends only on the original ROM, the bk2 input and the target
//! functions, so its output is cached per function:
//!
//! ```text
//! <cache_dir>/<orig_rom_sha>/<bk2_sha>/<fn_name>/NNNN.entry.bin
//!                                              /NNNN.exit.delta.bin
//! ```
//!
//! A function's directory existing means its slot was considered by an
//! earlier record pass (pair files, or the `.recorded` marker for a target
//! that never fired).
use vstd::prelude::*;
use crate::compare::push_str;
use crate::digests::{sha1_digest, sha1_of};
use crate::hex::{hex_chars, hex_lower, is_hex_lower, lemma_hex_chars};
use crate::text::{chars_of, string_of};

verus! {

/// `Path::join` on Unix paths: an absolute `b` replaces `a`; otherwise `b`
/// follows `a`, with a `/` between unless `a` is empty or ends in one.
pub open spec fn join_spec(a: Seq<char>, b: Seq<char>) -> Seq<char> {
    if b.len() > 0 && b[0] == '/' {
        b
    } else if a.len() == 0 || a.last() == '/' {
        a + b
    } else {
        a + seq!['/'] + b
    }
}

/// Joins two path strings as `Path::join` does.
pub fn join_path(a: &str, b: &str) -> (r: String)
    ensures
        r@ == join_spec(a@, b@),
{
    let ac = chars_of(a);
    let bc = chars_of(b);
    if bc.len() > 0 && bc[0] == '/' {
        return string_of(bc.as_slice());
    }
    let mut out = ac;
    if out.len() > 0 && out[out.len() - 1] != '/' {
        out.push('/');
    }
    let ghost before = out@;
    let mut i: usize = 0;
    while i < bc.len()
        invariant
            i <= bc.len(),
            out@ == before + bc@.take(i as int),
        decreases bc.len() - i,
    {
        out.push(bc[i]);
        assert(bc@.take(i as int + 1) =~= bc@.take(i as int).push(bc@[i as int]));
        i = i + 1;
    }
    assert(bc@.take(bc.len() as int) =~= bc@);
    string_of(out.as_slice())
}

/// Calls `Path::exists`. What it returns depends on the file system at the
/// time of the call, so nothing is promised of it.
#[verifier::external_body]
pub(crate) fn path_exists(p: &str) -> (r: bool) {
    std::path::Path::new(p).exists()
}

/// Locator for one bk2's slice of the cache.
pub struct Bk2CacheDir {
    pub root: String,
}

impl Bk2CacheDir {
    /// The slice of `cache_dir` for one original ROM and one bk2 input:
    /// `<cache_dir>/<orig_rom_sha>/<bk2_sha>` (the caller creates it).
    pub fn new(cache_dir: &str, orig_rom_sha: &str, bk2_sha: &str) -> (c: Bk2CacheDir)
        ensures
            c.root@ == join_spec(join_spec(cache_dir@, orig_rom_sha@), bk2_sha@),
    {
        let first = join_path(cache_dir, orig_rom_sha);
        Bk2CacheDir { root: join_path(first.as_str(), bk2_sha) }
    }

    /// Per-function cache directory.
    pub fn fn_dir(&self, fn_name: &str) -> (d: String)
        ensures
            d@ == join_spec(self.root@, fn_name@),
    {
        join_path(self.root.as_str(), fn_name)
    }

    /// Whether this function's slot was considered by a prior record pass:
    /// its directory exists.
    pub fn is_fn_cached(&self, fn_name: &str) -> (b: bool) {
        let d = self.fn_dir(fn_name);
        path_exists(d.as_str())
    }

    /// The marker stamped into a considered slot that got no pairs.
    pub fn marker_path(&self, fn_name: &str) -> (p: String)
        ensures
            p@ == join_spec(join_spec(self.root@, fn_name@), ".recorded"@),
    {
        let d = self.fn_dir(fn_name);
        join_path(d.as_str(), ".recorded")
    }

    /// Where the bk2's forward call graph is kept.
    pub fn callgraph_path(&self) -> (p: String)
        ensures
            p@ == join_spec(self.root@, "callgraph.txt"@),
    {
        join_path(self.root.as_str(), "callgraph.txt")
    }

    /// Where the radii of the last green replays are kept.
    pub fn pair_pass_path(&self) -> (p: String)
        ensures
            p@ == join_spec(self.root@, "pair_pass.txt"@),
    {
        join_path(self.root.as_str(), "pair_pass.txt")
    }
}

/// SHA-1 of a file's contents as a cache key: the first 6 digest bytes in
/// lower-case hex (12 characters, 48 bits).
pub fn sha1_file_short(contents: &[u8]) -> (s: String)
    ensures
        s@ == hex_chars(sha1_digest(contents@).take(6)),
        s@.len() == 12,
        forall|k: int| 0 <= k < 12 ==> is_hex_lower(#[trigger] s@[k]),
{
    let digest = sha1_of(contents);
    let mut head: Vec<u8> = Vec::new();
    let mut j: usize = 0;
    while j < 6
        invariant
            j <= 6,
            digest@.len() == 20,
            head@ == digest@.take(j as int),
        decreases 6 - j,
    {
        head.push(digest[j]);
        assert(digest@.take(j as int + 1) =~= digest@.take(j as int).push(digest@[j as int]));
        j = j + 1;
    }
    proof {
        lemma_hex_chars(head@);
    }
    hex_lower(head.as_slice())
}

} // verus!
