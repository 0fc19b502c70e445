//! A hash of byte strings that is the same in every process, for tables keyed
//! by an integer.

use vstd::prelude::*;

verus! {

/// The digest of `s`, starting from `seed`.
pub open spec fn digest(seed: u64, s: Seq<u8>) -> u64
    decreases s.len(),
{
    if s.len() == 0 {
        seed
    } else {
        digest(seed, s.drop_last()).wrapping_mul(1099511628211).wrapping_add(s.last() as u64)
    }
}

/// Computes `digest`.
pub fn digest_of(seed: u64, s: &[u8]) -> (h: u64)
    ensures
        h == digest(seed, s@),
{
    let mut h: u64 = seed;
    let mut i: usize = 0;
    assert(s@.take(0) =~= Seq::<u8>::empty());
    while i < s.len()
        invariant
            i <= s.len(),
            h == digest(seed, s@.take(i as int)),
        decreases s.len() - i,
    {
        assert(s@.take(i + 1).drop_last() =~= s@.take(i as int));
        h = h.wrapping_mul(1099511628211).wrapping_add(s[i] as u64);
        i = i + 1;
    }
    assert(s@.take(i as int) =~= s@);
    h
}

} // verus!
