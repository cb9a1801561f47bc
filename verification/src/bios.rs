//! The never-HLE gate: only the official GBA BIOS image is accepted.
//!
//! Identity check = size 16384 + IEEE CRC32 0x81977335.
use vstd::prelude::*;

verus! {

/// Size in bytes of the official GBA BIOS image.
pub const GBA_BIOS_SIZE: usize = 16384;

/// IEEE CRC32 of the official GBA BIOS image.
pub const GBA_BIOS_CRC32: u32 = 0x8197_7335;

/// Reflected IEEE CRC32 polynomial.
pub const CRC32_POLY: u32 = 0xEDB8_8320;

/// One bit of the reflected CRC32 shift register.
pub open spec fn crc32_bit(c: u32) -> u32 {
    if c & 1 == 1 {
        (c >> 1) ^ CRC32_POLY
    } else {
        c >> 1
    }
}

/// `crc32_bit` applied `n` times.
pub open spec fn crc32_bits(c: u32, n: nat) -> u32
    decreases n,
{
    if n == 0 {
        c
    } else {
        crc32_bit(crc32_bits(c, (n - 1) as nat))
    }
}

/// The register after feeding one byte: xor it in, then eight bit steps.
pub open spec fn crc32_byte(c: u32, b: u8) -> u32 {
    crc32_bits(c ^ (b as u32), 8)
}

/// The CRC32 register after all of `data`, starting from 0xFFFFFFFF.
pub open spec fn crc32_register(data: Seq<u8>) -> u32
    decreases data.len(),
{
    if data.len() == 0 {
        0xFFFF_FFFFu32
    } else {
        crc32_byte(crc32_register(data.drop_last()), data.last())
    }
}

/// IEEE CRC32 (reflected, init and xorout 0xFFFFFFFF) of `data`.
pub open spec fn crc32_spec(data: Seq<u8>) -> u32 {
    !crc32_register(data)
}

proof fn lemma_crc32_bit_exec(c: u32)
    ensures
        (c >> 1) ^ (CRC32_POLY & 0u32.wrapping_sub(c & 1)) == crc32_bit(c),
{
    let m = c & 1;
    assert(m == 0 || m == 1) by (bit_vector)
        requires
            m == c & 1,
    ;
    if m == 1 {
        assert((c >> 1) ^ (0xEDB8_8320u32 & 0xFFFF_FFFFu32) == (c >> 1) ^ 0xEDB8_8320u32)
            by (bit_vector);
    } else {
        assert((c >> 1) ^ (0xEDB8_8320u32 & 0u32) == c >> 1) by (bit_vector);
    }
}

/// IEEE CRC32 (reflected, init/xorout 0xFFFFFFFF), bitwise, no table.
pub fn crc32(data: &[u8]) -> (crc: u32)
    ensures
        crc == crc32_spec(data@),
{
    let mut crc: u32 = 0xFFFF_FFFF;
    let mut i: usize = 0;
    while i < data.len()
        invariant
            i <= data.len(),
            crc == crc32_register(data@.subrange(0, i as int)),
        decreases data.len() - i,
    {
        assert(data@.subrange(0, i as int + 1).drop_last() =~= data@.subrange(0, i as int));
        let b = data[i];
        crc = crc ^ (b as u32);
        let ghost start = crc;
        let mut k: u32 = 0;
        while k < 8
            invariant
                k <= 8,
                crc == crc32_bits(start, k as nat),
            decreases 8 - k,
        {
            proof {
                lemma_crc32_bit_exec(crc);
            }
            let mask = 0u32.wrapping_sub(crc & 1);
            crc = (crc >> 1) ^ (CRC32_POLY & mask);
            k = k + 1;
        }
        i = i + 1;
    }
    assert(data@.subrange(0, data.len() as int) =~= data@);
    !crc
}

/// Why an image was refused by the never-HLE gate.
#[derive(Debug, PartialEq, Eq, Clone, Copy)]
pub enum BiosRejection {
    /// The image does not have the official size.
    WrongSize { size: usize },
    /// The image has the official size but the wrong CRC32.
    WrongCrc { crc: u32 },
}

/// Whether an image is accepted, and if not, why.
pub open spec fn bios_verdict(image: Seq<u8>) -> Result<(), BiosRejection> {
    if image.len() != GBA_BIOS_SIZE {
        Err(BiosRejection::WrongSize { size: image.len() as usize })
    } else if crc32_spec(image) != GBA_BIOS_CRC32 {
        Err(BiosRejection::WrongCrc { crc: crc32_spec(image) })
    } else {
        Ok(())
    }
}

/// Verify that `image` is the official GBA BIOS: size first, then CRC32.
/// Accepted exactly when the size is 16384 and the CRC32 is 0x81977335.
pub fn verify(image: &[u8]) -> (r: Result<(), BiosRejection>)
    ensures
        r == bios_verdict(image@),
        r is Ok <==> (image@.len() == GBA_BIOS_SIZE && crc32_spec(image@) == GBA_BIOS_CRC32),
{
    if image.len() != GBA_BIOS_SIZE {
        return Err(BiosRejection::WrongSize { size: image.len() });
    }
    let crc = crc32(image);
    if crc != GBA_BIOS_CRC32 {
        return Err(BiosRejection::WrongCrc { crc });
    }
    Ok(())
}

} // verus!
