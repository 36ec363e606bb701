//! A mixer for keys that are a single `u64`.

use vstd::prelude::*;

verus! {

/// SplitMix64 finalizer (Stafford's Mix13), for keys that are a single `u64`.
pub struct U64Mixer(u64);

/// `x` with its upper bits folded onto its lower ones.
pub open spec fn folded(x: u64, shift: u64) -> u64 {
    x ^ (x >> shift)
}

/// The mix of a key.
pub open spec fn mixed(n: u64) -> u64 {
    let x = folded(n, 30).wrapping_mul(0xbf58476d1ce4e5b9);
    let y = folded(x, 27).wrapping_mul(0x94d049bb133111eb);
    folded(y, 31)
}

impl Default for U64Mixer {
    fn default() -> (r: Self)
        ensures
            r.state() == 0,
    {
        U64Mixer(0)
    }
}

impl U64Mixer {
    /// The mix of the last key written, 0 before the first.
    pub closed spec fn state(self) -> u64 {
        self.0
    }

    pub fn write_u64(&mut self, n: u64)
        ensures
            final(self).state() == mixed(n),
    {
        let mut x = n;
        x = x ^ (x >> 30);
        x = x.wrapping_mul(0xbf58476d1ce4e5b9);
        x = x ^ (x >> 27);
        x = x.wrapping_mul(0x94d049bb133111eb);
        x = x ^ (x >> 31);
        self.0 = x;
    }

    pub fn finish(&self) -> (r: u64)
        ensures
            r == self.state(),
    {
        self.0
    }
}

/// Folding loses nothing.
proof fn lemma_folded(a: u64, b: u64)
    ensures
        folded(a, 30) == folded(b, 30) ==> a == b,
        folded(a, 27) == folded(b, 27) ==> a == b,
        folded(a, 31) == folded(b, 31) ==> a == b,
{
    assert(a ^ (a >> 30) == b ^ (b >> 30) ==> a == b) by (bit_vector);
    assert(a ^ (a >> 27) == b ^ (b >> 27) ==> a == b) by (bit_vector);
    assert(a ^ (a >> 31) == b ^ (b >> 31) ==> a == b) by (bit_vector);
}

/// Multiplying by a number that has an inverse loses nothing.
proof fn lemma_scaled(a: u64, b: u64, k: u64, inverse: u64)
    requires
        (k * inverse) % 0x1_0000_0000_0000_0000 == 1,
        a.wrapping_mul(k) == b.wrapping_mul(k),
    ensures
        a == b,
{
    let m: int = 0x1_0000_0000_0000_0000;
    assert((a * k) % m == (b * k) % m);
    lemma_unscaled(a, k, inverse);
    lemma_unscaled(b, k, inverse);
}

/// Multiplying by the inverse undoes multiplying.
proof fn lemma_unscaled(x: u64, k: u64, inverse: u64)
    requires
        (k * inverse) % 0x1_0000_0000_0000_0000 == 1,
    ensures
        (((x * k) % 0x1_0000_0000_0000_0000) * inverse) % 0x1_0000_0000_0000_0000 == x,
{
    let m: int = 0x1_0000_0000_0000_0000;
    vstd::arithmetic::div_mod::lemma_mul_mod_noop_left(x * k, inverse as int, m);
    assert((x * k) * inverse == x * (k * inverse)) by (nonlinear_arith);
    vstd::arithmetic::div_mod::lemma_mul_mod_noop_right(x as int, k * inverse, m);
}

/// Keys that differ have mixes that differ.
pub proof fn law_mixing_is_injective(a: u64, b: u64)
    requires
        mixed(a) == mixed(b),
    ensures
        a == b,
{
    let x = folded(a, 30).wrapping_mul(0xbf58476d1ce4e5b9);
    let y = folded(b, 30).wrapping_mul(0xbf58476d1ce4e5b9);
    let v = folded(x, 27).wrapping_mul(0x94d049bb133111eb);
    let w = folded(y, 27).wrapping_mul(0x94d049bb133111eb);
    lemma_folded(v, w);
    assert((0x94d049bb133111ebu64 * 0x319642b2d24d8ec3u64) % 0x1_0000_0000_0000_0000 == 1)
        by (nonlinear_arith);
    lemma_scaled(folded(x, 27), folded(y, 27), 0x94d049bb133111eb, 0x319642b2d24d8ec3);
    lemma_folded(x, y);
    assert((0xbf58476d1ce4e5b9u64 * 0x96de1b173f119089u64) % 0x1_0000_0000_0000_0000 == 1)
        by (nonlinear_arith);
    lemma_scaled(folded(a, 30), folded(b, 30), 0xbf58476d1ce4e5b9, 0x96de1b173f119089);
    lemma_folded(a, b);
}

} // verus!
