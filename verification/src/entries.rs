//! Function-entry lookup tables used on the tracker's per-instruction path:
//! a bitset over 2-byte-aligned ROM slots, and the table of each entry's
//! (exclusive) body end.
use vstd::prelude::*;
use std::collections::HashMap;

verus! {

broadcast use vstd::std_specs::hash::group_hash_axioms;

/// Base address of cartridge ROM on the GBA bus.
pub const ROM_BASE: u32 = 0x0800_0000;

/// Slot of an address in the ROM window (2-byte stride).
pub open spec fn rom_slot(a: u32) -> int {
    (a - ROM_BASE) / 2
}

/// True if some in-ROM address of `addrs` shares `pc`'s slot.
pub open spec fn slot_listed(addrs: Seq<u32>, pc: u32) -> bool {
    pc >= ROM_BASE && exists|i: int|
        0 <= i < addrs.len() && addrs[i] >= ROM_BASE && #[trigger] rom_slot(addrs[i]) == rom_slot(pc)
}

/// Bit `j` of a packed little-bit-first bitset.
pub open spec fn bit_at(bits: Seq<u64>, j: int) -> bool {
    (bits[j / 64] >> ((j % 64) as u64)) & 1 == 1
}

/// Bitset over instruction-aligned ROM addresses answering "is this PC a
/// known function entry?" in O(1). Indexed by `(pc - base) >> 1`.
pub struct EntryBitset {
    base: u32,
    /// Number of valid slot positions.
    capacity: u32,
    bits: Vec<u64>,
}

impl EntryBitset {
    #[verifier::type_invariant]
    closed spec fn inv(self) -> bool {
        &&& self.base == ROM_BASE
        &&& self.capacity as int <= self.bits@.len() * 64
    }

    /// Membership as the bitset answers it.
    pub closed spec fn spec_contains(self, pc: u32) -> bool {
        &&& pc >= self.base
        &&& (pc - self.base) / 2 < self.capacity
        &&& bit_at(self.bits@, (pc - self.base) / 2)
    }

    /// The empty set: contains nothing.
    pub fn empty() -> (s: Self)
        ensures
            forall|pc: u32| !s.spec_contains(pc),
    {
        EntryBitset { base: ROM_BASE, capacity: 0, bits: Vec::new() }
    }

    /// Build from a list of addresses. Addresses below the ROM window are
    /// dropped; an address answers for its whole 2-byte slot.
    pub fn from_addrs(addrs: &[u32]) -> (s: Self)
        ensures
            forall|pc: u32| s.spec_contains(pc) <==> slot_listed(addrs@, pc),
    {
        let mut max_in_rom: u32 = ROM_BASE;
        let mut i: usize = 0;
        while i < addrs.len()
            invariant
                i <= addrs.len(),
                ROM_BASE <= max_in_rom,
                forall|k: int| 0 <= k < i && addrs@[k] >= ROM_BASE ==> addrs@[k] <= max_in_rom,
            decreases addrs.len() - i,
        {
            if addrs[i] >= ROM_BASE && addrs[i] > max_in_rom {
                max_in_rom = addrs[i];
            }
            i = i + 1;
        }
        let span_bytes = max_in_rom - ROM_BASE + 4;
        let slot_count = (span_bytes / 2) + 1;
        let words = ((slot_count + 63) / 64) as usize;
        let mut bits: Vec<u64> = Vec::new();
        while bits.len() < words
            invariant
                bits.len() <= words,
                forall|k: int| 0 <= k < bits@.len() ==> bits@[k] == 0u64,
            decreases words - bits.len(),
        {
            bits.push(0u64);
        }
        assert forall|j: int| 0 <= j < slot_count implies !bit_at(bits@, j) by {
            let w = bits@[j / 64];
            let t = (j % 64) as u64;
            assert(w == 0u64);
            assert((0u64 >> t) & 1 == 0) by (bit_vector);
        }
        let mut i: usize = 0;
        while i < addrs.len()
            invariant
                i <= addrs.len(),
                bits@.len() == words,
                slot_count as int <= words as int * 64,
                slot_count == (max_in_rom - ROM_BASE + 4) / 2 + 1,
                forall|k: int| 0 <= k < addrs@.len() && addrs@[k] >= ROM_BASE ==> addrs@[k] <= max_in_rom,
                forall|j: int|
                    0 <= j < slot_count ==> (bit_at(bits@, j) <==> exists|k: int|
                        0 <= k < i && addrs@[k] >= ROM_BASE && #[trigger] rom_slot(addrs@[k]) == j),
            decreases addrs.len() - i,
        {
            let a = addrs[i];
            if a >= ROM_BASE {
                let d = a - ROM_BASE;
                let idx = d >> 1;
                assert(idx == d / 2) by (bit_vector)
                    requires
                        idx == d >> 1,
                ;
                if idx < slot_count {
                    let w = (idx >> 6) as usize;
                    let s = idx & 63;
                    assert(w == idx / 64 && s == idx % 64) by (bit_vector)
                        requires
                            w == idx >> 6,
                            s == idx & 63,
                    ;
                    let ghost old_bits = bits@;
                    let old_word = bits[w];
                    bits[w] = old_word | (1u64 << s);
                    assert forall|j: int|
                        #![trigger bit_at(bits@, j)]
                        0 <= j < slot_count implies (bit_at(bits@, j) <==> (bit_at(old_bits, j) || j
                            == idx)) by {
                        let t = (j % 64) as u64;
                        if j / 64 == w as int {
                            let x = old_word;
                            let s64 = s as u64;
                            assert(s64 < 64 && t < 64);
                            assert((((x | (1u64 << s64)) >> t) & 1 == 1) <==> (((x >> t) & 1 == 1)
                                || t == s64)) by (bit_vector)
                                requires
                                    s64 < 64,
                                    t < 64,
                            ;
                            assert(bits@[j / 64] == x | (1u64 << s64));
                            assert(j == idx <==> t == s64);
                        } else {
                            assert(bits@[j / 64] == old_bits[j / 64]);
                            assert(j != idx);
                        }
                    }
                    assert forall|j: int| 0 <= j < slot_count implies (bit_at(bits@, j) <==> exists|
                        k: int,
                    | 0 <= k < i + 1 && addrs@[k] >= ROM_BASE && #[trigger] rom_slot(addrs@[k])
                        == j) by {
                        assert(rom_slot(addrs@[i as int]) == idx);
                        if j == idx {
                            assert(bit_at(bits@, j));
                            assert(0 <= i < i + 1 && addrs@[i as int] >= ROM_BASE);
                            assert(exists|k: int|
                                0 <= k < i + 1 && addrs@[k] >= ROM_BASE && #[trigger] rom_slot(addrs@[k])
                                    == j);
                        } else if bit_at(bits@, j) {
                            assert(bit_at(old_bits, j));
                            let k = choose|k: int|
                                0 <= k < i && addrs@[k] >= ROM_BASE && #[trigger] rom_slot(addrs@[k]) == j;
                            assert(0 <= k < i + 1);
                        } else {
                            assert(!bit_at(old_bits, j));
                            if exists|k: int|
                                0 <= k < i + 1 && addrs@[k] >= ROM_BASE && #[trigger] rom_slot(addrs@[k])
                                    == j {
                                let k = choose|k: int|
                                    0 <= k < i + 1 && addrs@[k] >= ROM_BASE && #[trigger] rom_slot(
                                        addrs@[k],
                                    ) == j;
                                assert(k != i);
                                assert(0 <= k < i);
                            }
                        }
                    }
                } else {
                    assert(rom_slot(a) <= (max_in_rom - ROM_BASE) / 2);
                    assert(false);
                }
            }
            i = i + 1;
        }
        let s = EntryBitset { base: ROM_BASE, capacity: slot_count, bits };
        assert forall|pc: u32| s.spec_contains(pc) <==> slot_listed(addrs@, pc) by {
            if pc >= ROM_BASE && slot_listed(addrs@, pc) {
                let k = choose|k: int|
                    0 <= k < addrs@.len() && addrs@[k] >= ROM_BASE && #[trigger] rom_slot(addrs@[k])
                        == rom_slot(pc);
                assert(rom_slot(addrs@[k]) <= (max_in_rom - ROM_BASE) / 2);
            }
        }
        s
    }

    /// Is `pc` a listed function entry (by slot)?
    #[inline(always)]
    pub fn contains(&self, pc: u32) -> (r: bool)
        ensures
            r == self.spec_contains(pc),
    {
        proof {
            use_type_invariant(self);
        }
        if pc < self.base {
            return false;
        }
        let d = pc - self.base;
        let idx = d >> 1;
        assert(idx == d / 2) by (bit_vector)
            requires
                idx == d >> 1,
        ;
        if idx >= self.capacity {
            return false;
        }
        let w = (idx >> 6) as usize;
        let s = idx & 63;
        assert(w == idx / 64 && s == idx % 64) by (bit_vector)
            requires
                w == idx >> 6,
                s == idx & 63,
        ;
        let word = self.bits[w];
        let s64 = s as u64;
        assert(((word >> s64) & 1 != 0) <==> ((word >> s64) & 1 == 1)) by (bit_vector);
        (word >> s64) & 1 != 0
    }
}

} // verus!

verus! {

/// Every element strictly smaller than every later one.
pub open spec fn strictly_increasing(s: Seq<u32>) -> bool {
    forall|i: int, j: int| 0 <= i < j < s.len() ==> s[i] < s[j]
}

/// The ascending, duplicate-free list of the values in `v`.
pub fn sorted_unique(v: &[u32]) -> (r: Vec<u32>)
    ensures
        strictly_increasing(r@),
        forall|x: u32| r@.contains(x) <==> v@.contains(x),
{
    let mut r: Vec<u32> = Vec::new();
    let mut i: usize = 0;
    while i < v.len()
        invariant
            i <= v.len(),
            strictly_increasing(r@),
            forall|x: u32| r@.contains(x) <==> v@.subrange(0, i as int).contains(x),
        decreases v.len() - i,
    {
        let x = v[i];
        let mut p: usize = 0;
        while p < r.len() && r[p] < x
            invariant
                p <= r.len(),
                forall|k: int| 0 <= k < p ==> r@[k] < x,
            decreases r.len() - p,
        {
            p = p + 1;
        }
        let ghost old_r = r@;
        if p < r.len() && r[p] == x {
            proof {
                assert forall|y: u32| r@.contains(y) <==> v@.subrange(0, i as int + 1).contains(y) by {
                    assert(v@.subrange(0, i as int + 1) =~= v@.subrange(0, i as int).push(x));
                    if y == x {
                        assert(r@[p as int] == x);
                    }
                }
            }
        } else {
            r.insert(p, x);
            proof {
                assert(r@ =~= old_r.subrange(0, p as int).push(x) + old_r.subrange(
                    p as int,
                    old_r.len() as int,
                ));
                assert(p < old_r.len() ==> x < old_r[p as int]);
                assert forall|a: int, b: int| 0 <= a < b < r@.len() implies r@[a] < r@[b] by {
                    if b <= p {
                    } else if a < p {
                        assert(old_r[a] < x);
                        assert(old_r[p as int] <= old_r[b - 1]);
                    } else if a == p {
                        assert(old_r[p as int] <= old_r[b - 1]);
                    } else {
                        assert(old_r[a - 1] < old_r[b - 1]);
                    }
                }
                assert forall|y: u32| r@.contains(y) <==> v@.subrange(0, i as int + 1).contains(y) by {
                    assert(v@.subrange(0, i as int + 1) =~= v@.subrange(0, i as int).push(x));
                    if r@.contains(y) {
                        let k = choose|k: int| 0 <= k < r@.len() && r@[k] == y;
                        if y != x {
                            if k < p {
                                assert(old_r[k] == y);
                            } else {
                                assert(k != p);
                                assert(old_r[k - 1] == y);
                            }
                            assert(old_r.contains(y));
                            assert(v@.subrange(0, i as int).contains(y));
                            let j = choose|j: int| 0 <= j < i && v@.subrange(0, i as int)[j] == y;
                            assert(v@.subrange(0, i as int + 1)[j] == y);
                        } else {
                            assert(v@.subrange(0, i as int + 1)[i as int] == x);
                        }
                    }
                    if v@.subrange(0, i as int + 1).contains(y) {
                        if y == x {
                            assert(r@[p as int] == x);
                        } else {
                            assert(v@.subrange(0, i as int).contains(y));
                            assert(old_r.contains(y));
                            let k = choose|k: int| 0 <= k < old_r.len() && old_r[k] == y;
                            if k < p {
                                assert(r@[k] == y);
                            } else {
                                assert(r@[k + 1] == y);
                            }
                        }
                    }
                }
            }
        }
        i = i + 1;
    }
    assert(v@.subrange(0, v.len() as int) =~= v@);
    r
}

/// `e` is the (exclusive) end of the body starting at `a`: the least listed
/// address above `a`, or `u32::MAX` when `a` is the highest.
pub open spec fn is_body_end(addrs: Seq<u32>, a: u32, e: u32) -> bool {
    if exists|b: u32| addrs.contains(b) && b > a {
        &&& addrs.contains(e)
        &&& e > a
        &&& forall|b: u32| addrs.contains(b) && b > a ==> e <= b
    } else {
        e == u32::MAX
    }
}

/// For each listed entry, the address where its body ends: the next entry
/// in sorted order, or `u32::MAX` for the last one.
pub fn fn_end_table(addrs: &[u32]) -> (m: HashMap<u32, u32>)
    ensures
        forall|a: u32| m@.contains_key(a) <==> addrs@.contains(a),
        forall|a: u32| #[trigger] m@.contains_key(a) ==> is_body_end(addrs@, a, m@[a]),
{
    let sorted = sorted_unique(addrs);
    let mut m: HashMap<u32, u32> = HashMap::new();
    let n = sorted.len();
    let mut k: usize = 0;
    while k < n
        invariant
            n == sorted@.len(),
            k <= n,
            strictly_increasing(sorted@),
            forall|x: u32| sorted@.contains(x) <==> addrs@.contains(x),
            forall|a: u32| m@.contains_key(a) <==> sorted@.subrange(0, k as int).contains(a),
            forall|a: u32| #[trigger] m@.contains_key(a) ==> is_body_end(addrs@, a, m@[a]),
        decreases n - k,
    {
        let a = sorted[k];
        let e: u32 = if k + 1 < n { sorted[k + 1] } else { u32::MAX };
        proof {
            if k + 1 < n {
                assert(addrs@.contains(e)) by {
                    assert(sorted@.contains(e));
                }
                assert forall|b: u32| addrs@.contains(b) && b > a implies e <= b by {
                    assert(sorted@.contains(b));
                    let j = choose|j: int| 0 <= j < n && sorted@[j] == b;
                    if j <= k {
                        if j < k {
                            assert(sorted@[j] < sorted@[k as int]);
                        }
                    } else if j > k + 1 {
                        assert(sorted@[k as int + 1] < sorted@[j]);
                    }
                }
                assert(is_body_end(addrs@, a, e));
            } else {
                assert forall|b: u32| addrs@.contains(b) implies !(b > a) by {
                    assert(sorted@.contains(b));
                    let j = choose|j: int| 0 <= j < n && sorted@[j] == b;
                    if j < k {
                        assert(sorted@[j] < sorted@[k as int]);
                    }
                }
                assert(is_body_end(addrs@, a, e));
            }
        }
        let ghost m_before = m@;
        m.insert(a, e);
        proof {
            assert(m@ == m_before.insert(a, e));
            assert forall|x: u32| m@.contains_key(x) <==> sorted@.subrange(0, k as int + 1).contains(x) by {
                assert(sorted@.subrange(0, k as int + 1) =~= sorted@.subrange(0, k as int).push(a));
                assert(m_before.contains_key(x) <==> sorted@.subrange(0, k as int).contains(x));
                if x == a {
                    assert(sorted@.subrange(0, k as int + 1)[k as int] == a);
                }
            }
            assert forall|x: u32| #[trigger] m@.contains_key(x) implies is_body_end(addrs@, x, m@[x]) by {
                if x != a {
                    assert(m_before.contains_key(x));
                    assert(m@[x] == m_before[x]);
                }
            }
        }
        k = k + 1;
    }
    assert(sorted@.subrange(0, n as int) =~= sorted@);
    m
}

} // verus!
