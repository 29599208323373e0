//! The match's random numbers: a scrambled seed, a 64-bit xorshift generator, and
//! the shuffle that hands out start corners.

use vstd::prelude::*;

verus! {

/// A raw seed scrambled into a well-mixed, odd generator state.
pub open spec fn spec_mix_seed(z: u64) -> u64 {
    let a = z.wrapping_add(0x9E37_79B9_7F4A_7C15);
    let b = (a ^ (a >> 30u64)).wrapping_mul(0xBF58_476D_1CE4_E5B9);
    let c = (b ^ (b >> 27u64)).wrapping_mul(0x94D0_49BB_1331_11EB);
    (c ^ (c >> 31u64)) | 1
}

/// A raw seed scrambled into a well-mixed, odd generator state. Without it the
/// first numbers drawn from small seeds would be tiny and correlated.
#[verifier::when_used_as_spec(spec_mix_seed)]
pub fn mix_seed(z: u64) -> (r: u64)
    ensures
        r == spec_mix_seed(z),
{
    let a: u64 = z.wrapping_add(0x9E37_79B9_7F4A_7C15);
    let b: u64 = (a ^ (a >> 30u64)).wrapping_mul(0xBF58_476D_1CE4_E5B9);
    let c: u64 = (b ^ (b >> 27u64)).wrapping_mul(0x94D0_49BB_1331_11EB);
    (c ^ (c >> 31u64)) | 1
}

/// The generator's next state, which is also the number drawn.
pub open spec fn spec_xorshift(x: u64) -> u64 {
    let a = x ^ (x << 13u64);
    let b = a ^ (a >> 7u64);
    b ^ (b << 17u64)
}

/// The generator's next state, which is also the number drawn.
#[verifier::when_used_as_spec(spec_xorshift)]
pub fn xorshift(x: u64) -> (r: u64)
    ensures
        r == spec_xorshift(x),
{
    let a: u64 = x ^ (x << 13u64);
    let b: u64 = a ^ (a >> 7u64);
    b ^ (b << 17u64)
}

/// The top 24 bits of a draw: a fraction of 2^24.
pub open spec fn spec_frac24(x: u64) -> u32 {
    (x >> 40u64) as u32
}

/// The top 24 bits of a draw: a fraction of 2^24.
#[verifier::when_used_as_spec(spec_frac24)]
pub fn frac24(x: u64) -> (r: u32)
    ensures
        r == spec_frac24(x),
        r < 0x100_0000,
{
    assert(x >> 40u64 < 0x100_0000u64) by (bit_vector);
    (x >> 40u64) as u32
}

/// A scrambled seed is odd, and so never the generator's dead state.
pub proof fn mixed_seed_is_odd(z: u64)
    ensures
        mix_seed(z) % 2 == 1,
        mix_seed(z) != 0,
{
    let a = z.wrapping_add(0x9E37_79B9_7F4A_7C15);
    let b = (a ^ (a >> 30u64)).wrapping_mul(0xBF58_476D_1CE4_E5B9);
    let c = (b ^ (b >> 27u64)).wrapping_mul(0x94D0_49BB_1331_11EB);
    let d = c ^ (c >> 31u64);
    assert((d | 1u64) % 2 == 1u64) by (bit_vector);
}

/// The generator never falls into its dead state, and never merges two states:
/// two streams that differ keep differing.
pub proof fn xorshift_is_injective(x: u64, y: u64)
    ensures
        x != 0 ==> xorshift(x) != 0,
        xorshift(x) == xorshift(y) ==> x == y,
{
    assert(forall|p: u64, q: u64| (p ^ (p << 13u64)) == (q ^ (q << 13u64)) ==> p == q) by (bit_vector);
    assert(forall|p: u64, q: u64| (p ^ (p >> 7u64)) == (q ^ (q >> 7u64)) ==> p == q) by (bit_vector);
    assert(forall|p: u64, q: u64| (p ^ (p << 17u64)) == (q ^ (q << 17u64)) ==> p == q) by (bit_vector);
    let z = 0u64;
    assert(z ^ (z << 13u64) == 0 && z ^ (z >> 7u64) == 0 && z ^ (z << 17u64) == 0) by (bit_vector)
        requires
            z == 0u64,
    ;
    assert(xorshift(0) == 0);
    let a = x ^ (x << 13u64);
    let b = a ^ (a >> 7u64);
    let c = y ^ (y << 13u64);
    let d = c ^ (c >> 7u64);
}

/// Exchanges two entries.
pub open spec fn swapped(s: Seq<usize>, i: int, j: int) -> Seq<usize> {
    s.update(i, s[j]).update(j, s[i])
}

/// The start corner of each faction, and the generator state after drawing them.
/// A duel keeps its diagonal; with three or more factions the four corners are
/// shuffled, from the last place down.
pub open spec fn slots_of(rng: u64, factions: int) -> (Seq<usize>, u64) {
    if factions < 3 {
        (seq![0usize, 1usize, 2usize, 3usize], rng)
    } else {
        let r3 = xorshift(rng);
        let r2 = xorshift(r3);
        let r1 = xorshift(r2);
        let s3 = swapped(seq![0usize, 1usize, 2usize, 3usize], 3, (r3 % 4) as int);
        let s2 = swapped(s3, 2, (r2 % 3) as int);
        (swapped(s2, 1, (r1 % 2) as int), r1)
    }
}

/// Hands out the start corners.
pub fn start_slots(rng: u64, factions: usize) -> (r: ([usize; 4], u64))
    ensures
        r.0@ == slots_of(rng, factions as int).0,
        r.1 == slots_of(rng, factions as int).1,
{
    let mut slot: [usize; 4] = [0, 1, 2, 3];
    let mut x: u64 = rng;
    proof {
        assert(slot@ =~= seq![0usize, 1usize, 2usize, 3usize]);
    }
    if factions < 3 {
        return (slot, x);
    }
    x = xorshift(x);
    let j3: usize = (x % 4) as usize;
    let a: usize = slot[3];
    slot[3] = slot[j3];
    slot[j3] = a;
    x = xorshift(x);
    let j2: usize = (x % 3) as usize;
    let b: usize = slot[2];
    slot[2] = slot[j2];
    slot[j2] = b;
    x = xorshift(x);
    let j1: usize = (x % 2) as usize;
    let c: usize = slot[1];
    slot[1] = slot[j1];
    slot[j1] = c;
    (slot, x)
}

/// Whatever is drawn, every corner goes to exactly one slot.
pub proof fn slots_are_a_permutation(rng: u64, factions: int)
    ensures
        ({
            let s = slots_of(rng, factions).0;
            &&& s.len() == 4
            &&& s.no_duplicates()
            &&& forall|i: int| 0 <= i < 4 ==> #[trigger] s[i] < 4
        }),
{
    let s0 = seq![0usize, 1usize, 2usize, 3usize];
    assert(s0.no_duplicates());
    if factions >= 3 {
        let r3 = xorshift(rng);
        let r2 = xorshift(r3);
        let r1 = xorshift(r2);
        let s3 = swapped(s0, 3, (r3 % 4) as int);
        assert(s3.no_duplicates());
        let s2 = swapped(s3, 2, (r2 % 3) as int);
        assert(s2.no_duplicates());
        let s1 = swapped(s2, 1, (r1 % 2) as int);
        assert(s1.no_duplicates());
    }
}

} // verus!
