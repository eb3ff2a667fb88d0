//! A hasher for keys that hash as a single 8-byte write, such as `u64`: the
//! hash is the key itself.
use vstd::prelude::*;

verus! {

/// Little-endian value of the first `n` bytes of `b`.
pub open spec fn le_value(b: Seq<u8>, n: int) -> int
    decreases n,
{
    if n <= 0 {
        0
    } else {
        le_value(b, n - 1) + b[n - 1] as int * pow256(n - 1)
    }
}

pub open spec fn pow256(n: int) -> int
    decreases n,
{
    if n <= 0 {
        1
    } else {
        256 * pow256(n - 1)
    }
}

/// Hasher whose state is the last 8-byte word written to it.
#[derive(Debug, Default)]
pub struct Hash128to64 {
    state: u64,
}

/// Builds `Hash128to64` hashers with a zero state.
#[derive(Debug, Default, Clone)]
pub struct BuildHash128to64;

/// Little-endian value of `bytes[0..8]`, the missing bytes of a shorter
/// slice read as zero.
fn word_of(bytes: &[u8]) -> (r: u64)
    ensures
        r as int == le_value(bytes@, if bytes@.len() < 8 { bytes@.len() as int } else { 8 }),
{
    let mut r: u64 = 0;
    let mut i: usize = 0;
    let n: usize = if bytes.len() < 8 { bytes.len() } else { 8 };
    while i < n
        invariant
            0 <= i <= n <= 8,
            n <= bytes@.len(),
            bytes@.len() >= 8 ==> n == 8,
            r as int == le_value(bytes@, i as int),
            le_value(bytes@, i as int) < pow256(i as int),
        decreases n - i,
    {
        proof {
            lemma_le_step(bytes@, i as int);
        }
        r = r + (bytes[i] as u64) * pow_exec(i);
        i = i + 1;
    }
    r
}

proof fn lemma_le_step(b: Seq<u8>, i: int)
    requires
        0 <= i < 8,
        i < b.len(),
        le_value(b, i) < pow256(i),
    ensures
        le_value(b, i + 1) == le_value(b, i) + b[i] as int * pow256(i),
        le_value(b, i + 1) < pow256(i + 1),
        pow256(i + 1) <= 0x1_0000_0000_0000_0000,
{
    lemma_pow8();
    lemma_pow_mono(i + 1, 8);
    assert(b[i] as int * pow256(i) <= 255 * pow256(i)) by (nonlinear_arith)
        requires 0 <= b[i] <= 255, pow256(i) >= 0;
}

proof fn lemma_pow8()
    ensures
        pow256(8) == 0x1_0000_0000_0000_0000,
        pow256(7) == 0x100_0000_0000_0000,
{
    reveal_with_fuel(pow256, 9);
}

proof fn lemma_pow_mono(a: int, b: int)
    requires
        0 <= a <= b,
    ensures
        1 <= pow256(a) <= pow256(b),
    decreases b - a,
{
    if a < b {
        lemma_pow_mono(a, b - 1);
        assert(pow256(b) == 256 * pow256(b - 1));
    } else {
        lemma_pow_pos(a);
    }
}

proof fn lemma_pow_pos(a: int)
    ensures
        pow256(a) >= 1,
    decreases a,
{
    if a > 0 {
        lemma_pow_pos(a - 1);
    }
}

fn pow_exec(i: usize) -> (r: u64)
    requires
        i < 8,
    ensures
        r as int == pow256(i as int),
{
    let mut r: u64 = 1;
    let mut k: usize = 0;
    while k < i
        invariant
            0 <= k <= i < 8,
            r as int == pow256(k as int),
        decreases i - k,
    {
        proof {
            lemma_pow_mono(k as int + 1, 7);
            lemma_pow8();
        }
        r = r * 256;
        k = k + 1;
    }
    r
}

impl Hash128to64 {
    /// The word the hasher holds.
    pub closed spec fn state(&self) -> u64 {
        self.state
    }
}

impl std::hash::Hasher for Hash128to64 {
    /// Takes the little-endian word of the first 8 bytes as the state; a
    /// shorter slice reads as if padded with zero bytes.
    fn write(&mut self, bytes: &[u8])
        ensures
            final(self).state() as int == le_value(bytes@, if bytes@.len() < 8 { bytes@.len() as int } else { 8 }),
    {
        self.state = word_of(bytes);
    }

    /// The word last written.
    fn finish(&self) -> (r: u64)
        ensures
            r == self.state(),
    {
        self.state
    }
}

impl std::hash::BuildHasher for BuildHash128to64 {
    type Hasher = Hash128to64;

    fn build_hasher(&self) -> (r: Hash128to64)
        ensures
            r.state() == 0,
    {
        Hash128to64 { state: 0 }
    }
}

} // verus!
