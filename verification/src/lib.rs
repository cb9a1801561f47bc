//! Pure, verified core of the bn6f validation tooling.
pub mod bios;
pub mod cache;
pub mod cache_run;
pub mod compare;
pub mod discover;
pub mod digests;
pub mod emu;
pub mod entries;
pub mod fleet;
pub mod fleet_run;
pub mod frames;
pub mod hex;
pub mod isolate;
mod seq_facts;
pub mod screenshot;
pub mod sorting;
pub mod strorder;
pub mod summary;
pub mod symbols;
pub mod symtab;
pub mod num;
pub mod orchestrate;
pub mod pilot;
pub mod radius;
pub mod record;
pub mod replay;
pub mod report;
pub mod text;
pub mod tracker;
pub mod verdict;

use vstd::prelude::*;

verus! {

/// FNV-1a 64-bit offset basis.
pub const FNV_OFFSET_BASIS: u64 = 0xcbf2_9ce4_8422_2325;

/// FNV-1a 64-bit prime.
pub const FNV_PRIME: u64 = 0x0000_0100_0000_01b3;

/// One FNV-1a round: xor in the byte, then multiply by the prime modulo 2^64.
pub open spec fn fnv1a64_round(h: u64, b: u8) -> u64 {
    vstd::wrapping::u64_specs::wrapping_mul(h ^ (b as u64), FNV_PRIME)
}

/// FNV-1a 64 of a byte sequence: the rounds folded left over the bytes,
/// starting from the offset basis.
pub open spec fn fnv1a64_spec(data: Seq<u8>) -> u64
    decreases data.len(),
{
    if data.len() == 0 {
        FNV_OFFSET_BASIS
    } else {
        fnv1a64_round(fnv1a64_spec(data.drop_last()), data.last())
    }
}

/// FNV-1a 64-bit. Deterministic across runs and processes, no
/// dependencies; used for state fingerprints.
pub fn fnv1a64(data: &[u8]) -> (h: u64)
    ensures
        h == fnv1a64_spec(data@),
{
    let mut h: u64 = FNV_OFFSET_BASIS;
    let mut i: usize = 0;
    while i < data.len()
        invariant
            i <= data.len(),
            h == fnv1a64_spec(data@.subrange(0, i as int)),
        decreases data.len() - i,
    {
        assert(data@.subrange(0, i as int + 1).drop_last() =~= data@.subrange(0, i as int));
        h = (h ^ (data[i] as u64)).wrapping_mul(FNV_PRIME);
        i = i + 1;
    }
    assert(data@.subrange(0, data.len() as int) =~= data@);
    h
}

} // verus!
