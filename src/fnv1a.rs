use vstd::prelude::*;
use vstd::utf8::encode_utf8;

verus! {

/// Offset basis of the 64-bit FNV-1a hash.
pub const FNV1A_OFFSET_64: u64 = 0xcbf29ce484222325;

/// Prime of the 64-bit FNV-1a hash.
pub const FNV1A_PRIME_64: u64 = 0x100000001b3;

/// One FNV-1a round: mix a byte into the state, then multiply modulo 2^64.
pub open spec fn fnv1a_step(h: u64, b: u8) -> u64 {
    ((((h ^ (b as u64)) as int) * (FNV1A_PRIME_64 as int)) % 0x10000000000000000) as u64
}

/// FNV-1a 64 of a byte sequence, folding from the first byte.
pub open spec fn fnv1a_spec(s: Seq<u8>) -> u64
    decreases s.len(),
{
    if s.len() == 0 {
        FNV1A_OFFSET_64
    } else {
        fnv1a_step(fnv1a_spec(s.drop_last()), s.last())
    }
}

/// 64-bit FNV-1a hash of `buf`.
pub fn fnv1a_64(buf: &[u8]) -> (r: u64)
    ensures
        r == fnv1a_spec(buf@),
{
    let mut hash: u64 = FNV1A_OFFSET_64;
    let mut i: usize = 0;
    while i < buf.len()
        invariant
            i <= buf@.len(),
            hash == fnv1a_spec(buf@.subrange(0, i as int)),
        decreases buf@.len() - i,
    {
        proof {
            let s = buf@.subrange(0, i as int + 1);
            assert(s.drop_last() =~= buf@.subrange(0, i as int));
        }
        hash = (hash ^ (buf[i] as u64)).wrapping_mul(FNV1A_PRIME_64);
        i = i + 1;
    }
    proof {
        assert(buf@.subrange(0, i as int) =~= buf@);
    }
    hash
}

} // verus!

verus! {

/// Fingerprint of a path: FNV-1a 64 of its UTF-8 bytes.
pub open spec fn path_hash(path: Seq<char>) -> u64 {
    fnv1a_spec(encode_utf8(path))
}

} // verus!
