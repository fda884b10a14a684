//! The 64-bit content checksum the container stores per entry (FNV-1a).

use vstd::prelude::*;

verus! {

/// FNV-1a offset basis for 64-bit checksums.
pub const FNV64_OFFSET: u64 = 0xcbf29ce484222325;

/// FNV-1a prime for 64-bit checksums.
pub const FNV64_PRIME: u64 = 0x100000001b3;

/// One FNV-1a step: fold one byte into the running checksum.
pub open spec fn spec_fnv64_step(h: u64, b: u8) -> u64 {
    vstd::wrapping::u64_specs::wrapping_mul(h ^ (b as u64), FNV64_PRIME)
}

/// The checksum state after folding all of `s` into `h`.
pub open spec fn spec_fnv64_from(h: u64, s: Seq<u8>) -> u64
    decreases s.len(),
{
    if s.len() == 0 {
        h
    } else {
        spec_fnv64_from(spec_fnv64_step(h, s[0]), s.skip(1))
    }
}

/// The FNV-1a checksum of a byte sequence.
pub open spec fn spec_fnv64(s: Seq<u8>) -> u64 {
    spec_fnv64_from(FNV64_OFFSET, s)
}

/// Fold a byte slice into a running checksum state.
pub fn fnv64_update(h0: u64, data: &[u8]) -> (r: u64)
    ensures
        r == spec_fnv64_from(h0, data@),
{
    let mut h: u64 = h0;
    let mut i: usize = 0;
    proof {
        assert(data@.skip(0) =~= data@);
    }
    while i < data.len()
        invariant
            i <= data@.len(),
            spec_fnv64_from(h0, data@) == spec_fnv64_from(h, data@.skip(i as int)),
        decreases data@.len() - i,
    {
        proof {
            assert(data@.skip(i as int).skip(1) =~= data@.skip(i as int + 1));
            assert(data@.skip(i as int)[0] == data@[i as int]);
        }
        h = (h ^ (data[i] as u64)).wrapping_mul(FNV64_PRIME);
        i = i + 1;
    }
    proof {
        assert(data@.skip(i as int) =~= Seq::<u8>::empty());
    }
    h
}

/// The FNV-1a checksum of a byte slice.
pub fn fnv64(data: &[u8]) -> (r: u64)
    ensures
        r == spec_fnv64(data@),
{
    fnv64_update(FNV64_OFFSET, data)
}

} // verus!
