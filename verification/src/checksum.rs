use vstd::prelude::*;

verus! {

/// The seed of the CHKS record checksum.
pub const CHKS_SEED: u32 = 0x3FAC7125;

/// A byte read as a signed 8-bit number and widened to 32 bits.
pub open spec fn sign_extend(b: u8) -> u32 {
    if b < 128 {
        b as u32
    } else {
        (b + 0xFFFF_FF00) as u32
    }
}

/// One round of the one-at-a-time hash for byte `b`.
pub open spec fn jooat_mix(v: u32, b: u8) -> u32 {
    let a = v.wrapping_add(sign_extend(b));
    let c = a.wrapping_add(a.wrapping_shl(10));
    c ^ (c >> 6u32)
}

/// The one-at-a-time hash state after feeding all of `data` to state `v`.
pub open spec fn jooat_fold(v: u32, data: Seq<u8>) -> u32
    decreases data.len(),
{
    if data.len() == 0 {
        v
    } else {
        jooat_mix(jooat_fold(v, data.drop_last()), data.last())
    }
}

/// The final avalanche of the one-at-a-time hash.
pub open spec fn digest_finish(v: u32) -> u32 {
    let a = v.wrapping_add(v.wrapping_shl(3));
    let b = a ^ (a >> 11u32);
    b.wrapping_add(b.wrapping_shl(15))
}

/// The seeded checksum that RSAV CHKS records store.
pub open spec fn jooat_spec(data: Seq<u8>) -> u32 {
    digest_finish(jooat_fold(CHKS_SEED, data))
}

/// The final avalanche step.
pub fn digest_step(value: u32) -> (res: u32)
    ensures
        res == digest_finish(value),
{
    let a = value.wrapping_add(value.wrapping_shl(3));
    let b = a ^ (a >> 11u32);
    b.wrapping_add(b.wrapping_shl(15))
}

/// Feeds `data` to the hash state `value`.
pub fn jooat_update(value: u32, data: &[u8]) -> (res: u32)
    ensures
        res == jooat_fold(value, data@),
{
    let mut state = value;
    let mut i: usize = 0;
    while i < data.len()
        invariant
            i <= data@.len(),
            state == jooat_fold(value, data@.take(i as int)),
        decreases data@.len() - i,
    {
        let byte = data[i];
        let signed: u32 = if byte < 128 { byte as u32 } else { byte as u32 + 0xFFFF_FF00 };
        let a = state.wrapping_add(signed);
        let c = a.wrapping_add(a.wrapping_shl(10));
        state = c ^ (c >> 6u32);
        assert(data@.take(i + 1).drop_last() =~= data@.take(i as int));
        i = i + 1;
    }
    assert(data@.take(data@.len() as int) =~= data@);
    state
}

/// The seeded CHKS checksum of `data`.
pub fn jooat(data: &[u8]) -> (res: u32)
    ensures
        res == jooat_spec(data@),
{
    digest_step(jooat_update(CHKS_SEED, data))
}

} // verus!
