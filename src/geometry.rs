//! Lattice points and the integer distance used as search cost.
use vstd::prelude::*;

verus! {

/// A lattice point `(x, z)`.
pub type GridPos = (isize, isize);

/// Largest absolute coordinate that a query point may have.
pub const MAX_COORD: isize = 100_000_000;

/// Both coordinates of `p` lie in `[-MAX_COORD, MAX_COORD]`.
pub open spec fn in_range(p: GridPos) -> bool {
    -MAX_COORD <= p.0 <= MAX_COORD && -MAX_COORD <= p.1 <= MAX_COORD
}

/// Both coordinates of `p` lie strictly inside `(-MAX_COORD, MAX_COORD)`, so
/// that every 8-neighbour of `p` is `in_range`.
pub open spec fn cell_in_range(p: GridPos) -> bool {
    -MAX_COORD < p.0 < MAX_COORD && -MAX_COORD < p.1 < MAX_COORD
}

/// Squared Euclidean distance between `a` and `b`, both scaled by 10.
pub open spec fn scaled_sq_dist(a: GridPos, b: GridPos) -> nat {
    let dx = 10 * (b.0 - a.0);
    let dz = 10 * (b.1 - a.1);
    (dx * dx + dz * dz) as nat
}

/// `r` is the integer square root of `n`, rounded down.
pub open spec fn is_floor_sqrt(r: nat, n: nat) -> bool {
    r * r <= n && n < (r + 1) * (r + 1)
}

pub open spec fn floor_sqrt(n: nat) -> nat {
    choose|r: nat| is_floor_sqrt(r, n)
}

/// `floor(sqrt(dx² + dz²))` with both deltas scaled by 10.
pub open spec fn dist(a: GridPos, b: GridPos) -> nat {
    floor_sqrt(scaled_sq_dist(a, b))
}

/// The rounded-down square root is unique, so `floor_sqrt` names it.
pub proof fn lemma_floor_sqrt_unique(r: nat, n: nat)
    requires
        is_floor_sqrt(r, n),
    ensures
        floor_sqrt(n) == r,
{
    let s = floor_sqrt(n);
    assert(is_floor_sqrt(s, n));
    if s < r {
        assert((s + 1) * (s + 1) <= r * r) by (nonlinear_arith)
            requires s + 1 <= r;
    } else if r < s {
        assert((r + 1) * (r + 1) <= s * s) by (nonlinear_arith)
            requires r + 1 <= s;
    }
}

/// Whether `a` and `b` are the same point.
pub(crate) fn same_pos(a: GridPos, b: GridPos) -> (r: bool)
    ensures
        r == (a == b),
{
    a.0 == b.0 && a.1 == b.1
}

/// Rounded-down square root of `n`.
fn floor_sqrt_exec(n: u64) -> (r: u32)
    ensures
        is_floor_sqrt(r as nat, n as nat),
{
    let n: u128 = n as u128;
    let mut lo: u128 = 0;
    let mut hi: u128 = 0x1_0000_0000;
    assert(hi * hi == 0x1_0000_0000_0000_0000) by (nonlinear_arith)
        requires hi == 0x1_0000_0000;
    while lo + 1 < hi
        invariant
            lo < hi <= 0x1_0000_0000,
            lo * lo <= n,
            n < hi * hi,
        decreases hi - lo,
    {
        let mid = lo + (hi - lo) / 2;
        assert(mid * mid <= 0x1_0000_0000_0000_0000) by (nonlinear_arith)
            requires mid <= 0x1_0000_0000;
        if mid * mid <= n {
            lo = mid;
        } else {
            hi = mid;
        }
    }
    assert(hi == lo + 1);
    lo as u32
}

/// Integer proxy for the Euclidean distance between `a` and `b`:
/// `floor(sqrt((10·Δx)² + (10·Δz)²))`.
pub fn distance(a: GridPos, b: GridPos) -> (r: usize)
    requires
        in_range(a),
        in_range(b),
    ensures
        r == dist(a, b),
{
    let dx: i64 = 10 * (b.0 as i64 - a.0 as i64);
    let dz: i64 = 10 * (b.1 as i64 - a.1 as i64);
    assert(dx * dx <= 4_000_000_000_000_000_000) by (nonlinear_arith)
        requires -2_000_000_000 <= dx <= 2_000_000_000;
    assert(dz * dz <= 4_000_000_000_000_000_000) by (nonlinear_arith)
        requires -2_000_000_000 <= dz <= 2_000_000_000;
    assert(dx * dx >= 0 && dz * dz >= 0) by (nonlinear_arith);
    let sq: u64 = ((dx * dx) as u64) + ((dz * dz) as u64);
    let r = floor_sqrt_exec(sq);
    proof {
        lemma_floor_sqrt_unique(r as nat, sq as nat);
    }
    r as usize
}

} // verus!
