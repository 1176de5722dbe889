//! Chunk coordinates and the distances between them.

use vstd::prelude::*;

verus! {

/// Integer index of a square terrain chunk: `x` counts chunks along the
/// world's x axis, `z` along its z axis.
#[derive(Clone, Copy, Debug, PartialEq, Eq, Structural, Hash)]
pub struct ChunkCoord {
    pub x: i32,
    pub z: i32,
}

/// Distance between two indices on one axis.
pub open spec fn axis_gap(a: i32, b: i32) -> int {
    if a >= b {
        a - b
    } else {
        b - a
    }
}

/// The chunk index that holds world position `pos` on one axis:
/// the largest `c` with `c * chunk_size <= pos`.
pub open spec fn spec_chunk_index(pos: i32, chunk_size: u32) -> int
    recommends
        chunk_size > 0,
{
    pos as int / chunk_size as int
}

impl ChunkCoord {
    /// Chebyshev distance: the larger of the two axis gaps.
    pub open spec fn chebyshev(self, other: ChunkCoord) -> int {
        let dx = axis_gap(self.x, other.x);
        let dz = axis_gap(self.z, other.z);
        if dx >= dz {
            dx
        } else {
            dz
        }
    }

    /// Squared Euclidean distance.
    pub open spec fn dist_sq(self, other: ChunkCoord) -> int {
        axis_gap(self.x, other.x) * axis_gap(self.x, other.x) + axis_gap(self.z, other.z)
            * axis_gap(self.z, other.z)
    }

    /// Whether `self` lies in the square of Chebyshev radius `radius` around
    /// `center`.
    pub open spec fn within(self, center: ChunkCoord, radius: int) -> bool {
        self.chebyshev(center) <= radius
    }

    /// The coordinate with indices `x` and `z`.
    pub fn new(x: i32, z: i32) -> (c: ChunkCoord)
        ensures
            c.x == x,
            c.z == z,
    {
        ChunkCoord { x, z }
    }

    /// Finds the chunk that holds the world position `(pos_x, pos_z)`,
    /// given in whole units: on each axis the position divided by the
    /// chunk size, rounded towards negative infinity. A position between
    /// two whole ones lies in the chunk of the lower one, so a caller may
    /// round it down first.
    pub fn containing(pos_x: i32, pos_z: i32, chunk_size: u32) -> (c: ChunkCoord)
        requires
            chunk_size > 0,
        ensures
            c.x == spec_chunk_index(pos_x, chunk_size),
            c.z == spec_chunk_index(pos_z, chunk_size),
            c.x * chunk_size <= pos_x < (c.x + 1) * chunk_size,
            c.z * chunk_size <= pos_z < (c.z + 1) * chunk_size,
    {
        ChunkCoord { x: chunk_index(pos_x, chunk_size), z: chunk_index(pos_z, chunk_size) }
    }

    /// Computes the Chebyshev distance to `other`.
    pub fn chebyshev_distance(&self, other: &ChunkCoord) -> (d: u32)
        ensures
            d == self.chebyshev(*other),
    {
        let dx: u32 = gap(self.x, other.x);
        let dz: u32 = gap(self.z, other.z);
        if dx >= dz {
            dx
        } else {
            dz
        }
    }

    /// Computes the squared Euclidean distance to `other`.
    pub fn distance_squared(&self, other: &ChunkCoord) -> (d: u128)
        ensures
            d == self.dist_sq(*other),
    {
        let dx: u128 = gap(self.x, other.x) as u128;
        let dz: u128 = gap(self.z, other.z) as u128;
        assert(dx * dx <= 0xffff_ffff * 0xffff_ffff) by (nonlinear_arith)
            requires
                dx <= 0xffff_ffff,
        ;
        assert(dz * dz <= 0xffff_ffff * 0xffff_ffff) by (nonlinear_arith)
            requires
                dz <= 0xffff_ffff,
        ;
        dx * dx + dz * dz
    }

    /// Tells whether `self` lies within Chebyshev distance `radius` of
    /// `center`. No chunk lies within a negative radius.
    pub fn is_within(&self, center: &ChunkCoord, radius: i32) -> (b: bool)
        ensures
            b == self.within(*center, radius as int),
    {
        if radius < 0 {
            false
        } else {
            self.chebyshev_distance(center) <= radius as u32
        }
    }

    /// One unsigned number per coordinate: the two indices, each shifted to be
    /// non-negative, side by side in the upper and lower 32 bits.
    pub open spec fn spec_key(self) -> u64 {
        ((self.x + 0x8000_0000) * 0x1_0000_0000 + (self.z + 0x8000_0000)) as u64
    }

    /// Computes the key of this coordinate.
    pub fn key(&self) -> (k: u64)
        ensures
            k == self.spec_key(),
    {
        let hi: u64 = (self.x as i64 + 0x8000_0000) as u64;
        let lo: u64 = (self.z as i64 + 0x8000_0000) as u64;
        hi * 0x1_0000_0000 + lo
    }

    /// The coordinate that has key `k`.
    pub open spec fn of_key(k: u64) -> ChunkCoord {
        ChunkCoord {
            x: (k / 0x1_0000_0000 - 0x8000_0000) as i32,
            z: (k % 0x1_0000_0000 - 0x8000_0000) as i32,
        }
    }

    /// Keys and coordinates correspond one to one.
    pub proof fn lemma_key_round_trip(c: ChunkCoord, k: u64)
        ensures
            ChunkCoord::of_key(c.spec_key()) == c,
            ChunkCoord::of_key(k).spec_key() == k,
    {
        let hi = c.x + 0x8000_0000;
        let lo = c.z + 0x8000_0000;
        assert(0 <= hi * 0x1_0000_0000 + lo <= 0xffff_ffff_ffff_ffff) by (nonlinear_arith)
            requires
                0 <= hi <= 0xffff_ffff,
                0 <= lo <= 0xffff_ffff,
        ;
        vstd::arithmetic::div_mod::lemma_fundamental_div_mod_converse(
            hi * 0x1_0000_0000 + lo,
            0x1_0000_0000,
            hi,
            lo,
        );
        let kk = k as int;
        vstd::arithmetic::div_mod::lemma_fundamental_div_mod(kk, 0x1_0000_0000);
        vstd::arithmetic::div_mod::lemma_mod_bound(kk, 0x1_0000_0000);
        assert(0 <= kk / 0x1_0000_0000 <= 0xffff_ffff) by (nonlinear_arith)
            requires
                0 <= kk <= 0xffff_ffff_ffff_ffff,
                kk == 0x1_0000_0000 * (kk / 0x1_0000_0000) + kk % 0x1_0000_0000,
                0 <= kk % 0x1_0000_0000 < 0x1_0000_0000,
        ;
    }

    /// Distinct coordinates have distinct keys.
    pub proof fn lemma_key_injective(a: ChunkCoord, b: ChunkCoord)
        ensures
            a.spec_key() == b.spec_key() <==> a == b,
    {
        let ah = a.x + 0x8000_0000;
        let al = a.z + 0x8000_0000;
        let bh = b.x + 0x8000_0000;
        let bl = b.z + 0x8000_0000;
        if ah < bh {
            assert(ah * 0x1_0000_0000 + al < bh * 0x1_0000_0000 + bl) by (nonlinear_arith)
                requires
                    ah + 1 <= bh,
                    0 <= al < 0x1_0000_0000,
                    0 <= bl,
            ;
        } else if bh < ah {
            assert(bh * 0x1_0000_0000 + bl < ah * 0x1_0000_0000 + al) by (nonlinear_arith)
                requires
                    bh + 1 <= ah,
                    0 <= bl < 0x1_0000_0000,
                    0 <= al,
            ;
        }
    }
}

/// Computes the distance between two indices on one axis.
pub fn gap(a: i32, b: i32) -> (d: u32)
    ensures
        d == axis_gap(a, b),
{
    if a >= b {
        (a as i64 - b as i64) as u32
    } else {
        (b as i64 - a as i64) as u32
    }
}

/// Computes the index of the chunk that holds world position `pos` on one
/// axis, rounding towards negative infinity.
pub fn chunk_index(pos: i32, chunk_size: u32) -> (c: i32)
    requires
        chunk_size > 0,
    ensures
        c == spec_chunk_index(pos, chunk_size),
        c * chunk_size <= pos < (c + 1) * chunk_size,
{
    let size: i64 = chunk_size as i64;
    let p: i64 = pos as i64;
    if p >= 0 {
        let q: i64 = p / size;
        proof {
            lemma_floor_bounds(p as int, size as int);
        }
        q as i32
    } else {
        // -p - 1 >= 0, and floor(p / s) == -((-p - 1) / s) - 1
        let m: i64 = -p - 1;
        let q: i64 = m / size;
        proof {
            lemma_floor_bounds(m as int, size as int);
            assert((-(q as int) - 1) * size == -((q + 1) * size)) by (nonlinear_arith);
            assert((-(q as int) - 1 + 1) * size == -(q * size)) by (nonlinear_arith);
            lemma_floor_unique(p as int, size as int, -(q as int) - 1);
        }
        (-q - 1) as i32
    }
}

/// Floor division brackets its dividend.
pub proof fn lemma_floor_bounds(p: int, s: int)
    requires
        s > 0,
    ensures
        (p / s) * s <= p < (p / s + 1) * s,
        p >= 0 ==> 0 <= p / s <= p,
{
    vstd::arithmetic::div_mod::lemma_fundamental_div_mod(p, s);
    vstd::arithmetic::div_mod::lemma_mod_bound(p, s);
    assert((p / s + 1) * s == (p / s) * s + s) by (nonlinear_arith);
    assert(s * (p / s) == (p / s) * s) by (nonlinear_arith);
    if p >= 0 {
        vstd::arithmetic::div_mod::lemma_div_pos_is_pos(p, s);
        vstd::arithmetic::div_mod::lemma_div_is_ordered_by_denominator(p, 1, s);
        vstd::arithmetic::div_mod::lemma_div_basics(p);
    }
}

/// Only one integer brackets `p` between consecutive multiples of `s`.
pub proof fn lemma_floor_unique(p: int, s: int, c: int)
    requires
        s > 0,
        c * s <= p < (c + 1) * s,
    ensures
        c == p / s,
{
    lemma_floor_bounds(p, s);
    let q = p / s;
    if c < q {
        assert((c + 1) * s <= q * s) by (nonlinear_arith)
            requires
                c + 1 <= q,
                s > 0,
        ;
    } else if c > q {
        assert((q + 1) * s <= c * s) by (nonlinear_arith)
            requires
                q + 1 <= c,
                s > 0,
        ;
    }
}

} // verus!
