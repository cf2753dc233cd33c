//! The CRC-24 checksum of RFC 4880, section 6.1.

use vstd::prelude::*;

verus! {

/// The value the checksum register starts with.
pub const CRC24_INIT: u32 = 0xB704CE;

/// The generator polynomial, with its leading bit 24.
pub const CRC24_POLY: u32 = 0x1864CFB;

/// A checksum of 24 bits.
pub type Crc24 = usize;

/// One shift of the register: move left by one bit and reduce by the
/// polynomial when bit 24 comes to be set.
pub open spec fn crc24_shift(crc: u32) -> u32 {
    let shifted = crc << 1;
    if shifted & 0x1000000 != 0 {
        shifted ^ CRC24_POLY
    } else {
        shifted
    }
}

/// The register after one more octet: the octet is added into the top eight
/// of the 24 bits, then the register is shifted eight times.
pub open spec fn crc24_step(crc: u32, octet: u8) -> u32 {
    let c0 = crc ^ ((octet as u32) << 16);
    crc24_shift(
        crc24_shift(
            crc24_shift(
                crc24_shift(crc24_shift(crc24_shift(crc24_shift(crc24_shift(c0))))),
            ),
        ),
    )
}

/// The register after all of `octets`, taken from left to right.
pub open spec fn crc24_register(octets: Seq<u8>) -> u32
    decreases octets.len(),
{
    if octets.len() == 0 {
        CRC24_INIT
    } else {
        crc24_step(crc24_register(octets.drop_last()), octets.last())
    }
}

/// The CRC-24 of `octets`: the low 24 bits of the register.
pub open spec fn crc24(octets: Seq<u8>) -> u32 {
    crc24_register(octets) & 0xFFFFFF
}

proof fn lemma_shift_fits(crc: u32)
    by (bit_vector)
    requires
        crc < 0x1000000,
    ensures
        crc24_shift(crc) < 0x1000000,
{
}

proof fn lemma_add_octet_fits(crc: u32, octet: u8)
    by (bit_vector)
    requires
        crc < 0x1000000,
    ensures
        crc ^ ((octet as u32) << 16) < 0x1000000,
{
}

proof fn lemma_mask_of_small(crc: u32)
    by (bit_vector)
    requires
        crc < 0x1000000,
    ensures
        crc & 0xFFFFFF == crc,
        crc & 0xFF000000 == 0,
{
}

/// A register that fits in 24 bits still does so after one more octet.
pub proof fn lemma_step_fits(crc: u32, octet: u8)
    requires
        crc < 0x1000000,
    ensures
        crc24_step(crc, octet) < 0x1000000,
{
    let c0 = crc ^ ((octet as u32) << 16);
    lemma_add_octet_fits(crc, octet);
    let c1 = crc24_shift(c0);
    lemma_shift_fits(c0);
    let c2 = crc24_shift(c1);
    lemma_shift_fits(c1);
    let c3 = crc24_shift(c2);
    lemma_shift_fits(c2);
    let c4 = crc24_shift(c3);
    lemma_shift_fits(c3);
    let c5 = crc24_shift(c4);
    lemma_shift_fits(c4);
    let c6 = crc24_shift(c5);
    lemma_shift_fits(c5);
    let c7 = crc24_shift(c6);
    lemma_shift_fits(c6);
    lemma_shift_fits(c7);
}

/// The register never leaves the 24-bit range.
pub proof fn lemma_register_fits(octets: Seq<u8>)
    ensures
        crc24_register(octets) < 0x1000000,
    decreases octets.len(),
{
    if octets.len() > 0 {
        lemma_register_fits(octets.drop_last());
        lemma_step_fits(crc24_register(octets.drop_last()), octets.last());
    }
}

/// The checksum of any octets lies in the 24-bit range: its top eight bits
/// are zero, and masking the register changes nothing.
pub proof fn lemma_crc24_range(octets: Seq<u8>)
    ensures
        crc24(octets) & 0xFF000000 == 0,
        crc24(octets) < 0x1000000,
        crc24(octets) == crc24_register(octets),
{
    lemma_register_fits(octets);
    lemma_mask_of_small(crc24_register(octets));
}

/// The checksum of no octets is the initial value of the register.
pub proof fn lemma_crc24_empty()
    ensures
        crc24(Seq::<u8>::empty()) == 0xB704CE,
{
    lemma_crc24_range(Seq::<u8>::empty());
}

/// The checksum of `octets ++ [octet]` comes from that of `octets` by one step.
pub proof fn lemma_crc24_push(octets: Seq<u8>, octet: u8)
    ensures
        crc24(octets.push(octet)) == crc24_step(crc24(octets), octet),
{
    assert(octets.push(octet).drop_last() =~= octets);
    lemma_crc24_range(octets);
    lemma_crc24_range(octets.push(octet));
}

fn shift_register(crc: u32) -> (r: u32)
    requires
        crc < 0x1000000,
    ensures
        r == crc24_shift(crc),
        r < 0x1000000,
{
    proof {
        lemma_shift_fits(crc);
    }
    let shifted = crc << 1;
    if shifted & 0x1000000 != 0 {
        shifted ^ CRC24_POLY
    } else {
        shifted
    }
}

/// Computes the CRC-24 of `octets`.
pub fn crc_octets(octets: &[u8]) -> (crc: Crc24)
    ensures
        crc == crc24(octets@),
        crc < 0x1000000,
{
    let mut crc: u32 = CRC24_INIT;
    let mut i: usize = 0;
    while i < octets.len()
        invariant
            i <= octets.len(),
            crc == crc24_register(octets@.take(i as int)),
            crc < 0x1000000,
        decreases octets.len() - i,
    {
        let octet = octets[i];
        proof {
            lemma_add_octet_fits(crc, octet);
            assert(octets@.take(i + 1).drop_last() =~= octets@.take(i as int));
            lemma_step_fits(crc, octet);
        }
        crc = crc ^ ((octet as u32) << 16);
        crc = shift_register(crc);
        crc = shift_register(crc);
        crc = shift_register(crc);
        crc = shift_register(crc);
        crc = shift_register(crc);
        crc = shift_register(crc);
        crc = shift_register(crc);
        crc = shift_register(crc);
        i = i + 1;
    }
    proof {
        assert(octets@.take(i as int) =~= octets@);
        lemma_crc24_range(octets@);
    }
    crc as usize
}

} // verus!
