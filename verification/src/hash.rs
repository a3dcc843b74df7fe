use vstd::prelude::*;

verus! {

/// The value of a fingerprint hash built from an anchor frequency field, a
/// target frequency field and a time-difference field: the two frequency
/// fields keep their low 10 bits, the time field its low 12 bits, and they
/// are laid out as `anchor | target | dt` from the high bits down.
pub open spec fn spec_pack_hash(anchor_bits: u32, target_bits: u32, dt_bits: u32) -> int {
    (anchor_bits % 1024) * 4194304 + (target_bits % 1024) * 4096 + (dt_bits % 4096)
}

/// Packs the three quantised fields of a peak pair into a 32-bit hash.
pub fn pack_hash(anchor_bits: u32, target_bits: u32, dt_bits: u32) -> (h: u32)
    ensures
        h == spec_pack_hash(anchor_bits, target_bits, dt_bits),
{
    let a = anchor_bits & 0x3ff;
    let t = target_bits & 0x3ff;
    let d = dt_bits & 0xfff;
    let h = (a << 22) | (t << 12) | d;
    assert(h == (anchor_bits % 1024) * 4194304 + (target_bits % 1024) * 4096 + (dt_bits % 4096))
        by (bit_vector)
        requires
            a == anchor_bits & 0x3ff,
            t == target_bits & 0x3ff,
            d == dt_bits & 0xfff,
            h == (a << 22) | (t << 12) | d,
    ;
    h
}

/// Two hashes are equal exactly when their three fields are: no two
/// different (anchor, target, dt) field triples share a hash.
pub proof fn lemma_pack_hash_injective(a1: u32, t1: u32, d1: u32, a2: u32, t2: u32, d2: u32)
    ensures
        spec_pack_hash(a1, t1, d1) == spec_pack_hash(a2, t2, d2) <==> (a1 % 1024 == a2 % 1024
            && t1 % 1024 == t2 % 1024 && d1 % 4096 == d2 % 4096),
{
}

/// Every 32-bit value is the hash of exactly the fields read back from it:
/// the high 10 bits, the next 10 bits and the low 12 bits.
pub proof fn lemma_pack_hash_fields(h: u32)
    ensures
        spec_pack_hash(h >> 22, (h >> 12) & 0x3ff, h & 0xfff) == h,
        0 <= spec_pack_hash(h >> 22, (h >> 12) & 0x3ff, h & 0xfff) <= u32::MAX,
{
    assert(((h >> 22) % 1024) * 4194304 + (((h >> 12) & 0x3ff) % 1024) * 4096 + ((h & 0xfff) % 4096) == h)
        by (bit_vector);
}

} // verus!
