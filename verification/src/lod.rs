//! Level of detail: the resolution a chunk is built with, by its distance
//! from the observer.
//!
//! The selector itself takes a distance. A caller that measures in
//! fractions of the unit rounds the distance up first: for a whole
//! threshold `t`, a distance exceeds `t` exactly if the rounded distance
//! does. For an observer at a whole position the distance to a chunk's
//! centre need not be measured at all: whether it exceeds a threshold is
//! decided on squares, exactly.

use crate::config::TerrainConfig;
use crate::config::MAX_RESOLUTION;
use crate::coord::ChunkCoord;
use vstd::prelude::*;

verus! {

/// What a chunk at some distance is built with.
#[derive(Clone, Copy, Debug, PartialEq, Eq, Structural)]
pub struct LodChoice {
    /// Cells along the chunk's edge.
    pub resolution: u32,
    /// Whether the chunk gets a collision shape.
    pub create_collider: bool,
}

/// Twice the offset, on one axis, from position `pos` to the centre of
/// the chunk with index `c`. Doubled, the half chunk that lies between a
/// chunk's corner and its centre is whole for every chunk size.
pub open spec fn center_offset(c: i32, pos: i32, chunk_size: u32) -> int {
    2 * (c * chunk_size) + chunk_size - 2 * pos
}

/// Four times the square of the distance from an observer at
/// `(pos_x, pos_z)` to the centre of chunk `coord`.
pub open spec fn center_dist_sq(coord: ChunkCoord, pos_x: i32, pos_z: i32, chunk_size: u32) -> int {
    center_offset(coord.x, pos_x, chunk_size) * center_offset(coord.x, pos_x, chunk_size)
        + center_offset(coord.z, pos_z, chunk_size) * center_offset(coord.z, pos_z, chunk_size)
}

/// Whether the centre of chunk `coord` lies farther than `threshold` from
/// an observer at `(pos_x, pos_z)`.
pub open spec fn farther_than(
    coord: ChunkCoord,
    pos_x: i32,
    pos_z: i32,
    chunk_size: u32,
    threshold: u32,
) -> bool {
    center_dist_sq(coord, pos_x, pos_z, chunk_size) > 4 * (threshold * threshold)
}

/// Whether `dist` is the distance whose fourfold square is `dist_sq`,
/// rounded up to a whole number.
pub open spec fn rounds_up(dist: u32, dist_sq: int) -> bool {
    &&& dist_sq <= 4 * (dist * dist)
    &&& dist > 0 ==> 4 * ((dist - 1) * (dist - 1)) < dist_sq
}

/// Decides whether the centre of chunk `coord` lies farther than
/// `threshold` from an observer at `(pos_x, pos_z)`.
pub fn is_farther_than(
    coord: &ChunkCoord,
    pos_x: i32,
    pos_z: i32,
    chunk_size: u32,
    threshold: u32,
) -> (far: bool)
    ensures
        far == farther_than(*coord, pos_x, pos_z, chunk_size, threshold),
{
    let ax: u128 = offset_size(coord.x, pos_x, chunk_size);
    let az: u128 = offset_size(coord.z, pos_z, chunk_size);
    let t: u128 = threshold as u128;
    proof {
        assert(4 * (t * t) < 0x4_0000_0000_0000_0000) by (nonlinear_arith)
            requires
                0 <= t <= 0xffff_ffff,
        ;
        assert(az * az >= 0 && ax * ax >= 0) by (nonlinear_arith);
    }
    if ax >= 0x2_0000_0000 || az >= 0x2_0000_0000 {
        proof {
            if ax >= 0x2_0000_0000 {
                assert(ax * ax >= 0x4_0000_0000_0000_0000) by (nonlinear_arith)
                    requires
                        ax >= 0x2_0000_0000,
                ;
            } else {
                assert(az * az >= 0x4_0000_0000_0000_0000) by (nonlinear_arith)
                    requires
                        az >= 0x2_0000_0000,
                ;
            }
        }
        true
    } else {
        proof {
            assert(ax * ax < 0x4_0000_0000_0000_0000) by (nonlinear_arith)
                requires
                    0 <= ax < 0x2_0000_0000,
            ;
            assert(az * az < 0x4_0000_0000_0000_0000) by (nonlinear_arith)
                requires
                    0 <= az < 0x2_0000_0000,
            ;
        }
        ax * ax + az * az > 4 * (t * t)
    }
}

/// Computes the size of [`center_offset`].
fn offset_size(c: i32, pos: i32, chunk_size: u32) -> (a: u128)
    ensures
        a * a == center_offset(c, pos, chunk_size) * center_offset(c, pos, chunk_size),
        a == center_offset(c, pos, chunk_size) || a == -center_offset(c, pos, chunk_size),
        a < 0x4_0000_0000_0000_0000,
{
    proof {
        assert(-0x8000_0000 * 0xffff_ffff <= c * chunk_size <= 0x7fff_ffff * 0xffff_ffff)
            by (nonlinear_arith)
            requires
                -0x8000_0000 <= c <= 0x7fff_ffff,
                0 <= chunk_size <= 0xffff_ffff,
        ;
    }
    let o: i128 = 2 * (c as i128 * chunk_size as i128) + chunk_size as i128 - 2 * (pos as i128);
    let a: u128 = if o >= 0 {
        o as u128
    } else {
        (-o) as u128
    };
    proof {
        assert(a * a == o * o) by (nonlinear_arith)
            requires
                a == o || a == -o,
        ;
    }
    a
}

/// A distance rounded up exceeds a whole threshold exactly if the distance
/// does.
pub proof fn lemma_exceeds(dist: u32, dist_sq: int, threshold: u32)
    requires
        rounds_up(dist, dist_sq),
    ensures
        dist > threshold <==> dist_sq > 4 * (threshold * threshold),
{
    let d = dist as int;
    let t = threshold as int;
    if d > t {
        assert(4 * ((d - 1) * (d - 1)) >= 4 * (t * t)) by (nonlinear_arith)
            requires
                d - 1 >= t,
                t >= 0,
        ;
    } else {
        assert(4 * (d * d) <= 4 * (t * t)) by (nonlinear_arith)
            requires
                0 <= d <= t,
        ;
    }
}

impl TerrainConfig {
    /// Resolution of chunk `coord` for an observer at `(pos_x, pos_z)`.
    pub open spec fn resolution_for(&self, coord: ChunkCoord, pos_x: i32, pos_z: i32) -> u32 {
        if farther_than(coord, pos_x, pos_z, self.chunk_size, self.lod_far_distance) {
            self.lod_far_resolution
        } else if farther_than(coord, pos_x, pos_z, self.chunk_size, self.lod_mid_distance) {
            self.lod_mid_resolution
        } else {
            self.resolution
        }
    }

    /// Selects resolution and collider eligibility for chunk `coord` and
    /// an observer at `(pos_x, pos_z)`.
    pub fn select_lod_for(&self, coord: &ChunkCoord, pos_x: i32, pos_z: i32) -> (lod: LodChoice)
        ensures
            lod.resolution == self.resolution_for(*coord, pos_x, pos_z),
            lod.create_collider == (lod.resolution != self.lod_far_resolution),
    {
        let resolution: u32 = if is_farther_than(
            coord,
            pos_x,
            pos_z,
            self.chunk_size,
            self.lod_far_distance,
        ) {
            self.lod_far_resolution
        } else if is_farther_than(coord, pos_x, pos_z, self.chunk_size, self.lod_mid_distance) {
            self.lod_mid_resolution
        } else {
            self.resolution
        };
        LodChoice { resolution, create_collider: resolution != self.lod_far_resolution }
    }

    /// Deciding on squares is selecting by distance: the resolution of a
    /// chunk is the one that the selector gives for the distance to its
    /// centre, rounded up.
    pub proof fn lemma_resolution_for(&self, coord: ChunkCoord, pos_x: i32, pos_z: i32, dist: u32)
        requires
            rounds_up(dist, center_dist_sq(coord, pos_x, pos_z, self.chunk_size)),
        ensures
            self.resolution_for(coord, pos_x, pos_z) == self.resolution_at(dist),
    {
        let d4 = center_dist_sq(coord, pos_x, pos_z, self.chunk_size);
        lemma_exceeds(dist, d4, self.lod_far_distance);
        lemma_exceeds(dist, d4, self.lod_mid_distance);
    }

    /// Of two chunks, the one whose centre lies farther from the observer
    /// never gets the finer resolution.
    pub proof fn lemma_resolution_for_monotone(
        &self,
        near: ChunkCoord,
        far: ChunkCoord,
        pos_x: i32,
        pos_z: i32,
    )
        requires
            self.tiers_ordered(),
            center_dist_sq(near, pos_x, pos_z, self.chunk_size) <= center_dist_sq(
                far,
                pos_x,
                pos_z,
                self.chunk_size,
            ),
        ensures
            self.resolution_for(near, pos_x, pos_z) >= self.resolution_for(far, pos_x, pos_z),
    {
    }

    /// Resolution of a chunk whose centre is `dist` away from the observer.
    pub open spec fn resolution_at(&self, dist: u32) -> u32 {
        if dist > self.lod_far_distance {
            self.lod_far_resolution
        } else if dist > self.lod_mid_distance {
            self.lod_mid_resolution
        } else {
            self.resolution
        }
    }

    /// Whether a chunk `dist` away gets a collision shape: every chunk but
    /// those built at the far resolution.
    pub open spec fn collider_at(&self, dist: u32) -> bool {
        self.resolution_at(dist) != self.lod_far_resolution
    }

    /// Selects resolution and collider eligibility for a chunk whose centre
    /// is `dist` away from the observer.
    pub fn select_lod(&self, dist: u32) -> (lod: LodChoice)
        ensures
            lod.resolution == self.resolution_at(dist),
            lod.create_collider == self.collider_at(dist),
    {
        let resolution: u32 = if dist > self.lod_far_distance {
            self.lod_far_resolution
        } else if dist > self.lod_mid_distance {
            self.lod_mid_resolution
        } else {
            self.resolution
        };
        LodChoice { resolution, create_collider: resolution != self.lod_far_resolution }
    }

    /// A chunk farther away never gets a finer resolution than a nearer
    /// one.
    pub proof fn lemma_resolution_monotone(&self, d1: u32, d2: u32)
        requires
            self.tiers_ordered(),
            d1 < d2,
        ensures
            self.resolution_at(d1) >= self.resolution_at(d2),
    {
    }

    /// In a well-formed configuration a chunk that gets a collider keeps
    /// it when it comes nearer.
    pub proof fn lemma_collider_monotone(&self, d1: u32, d2: u32)
        requires
            self.well_formed(),
            d1 < d2,
            self.collider_at(d2),
        ensures
            self.collider_at(d1),
    {
    }

    /// In a well-formed configuration every selected resolution is
    /// positive and no larger than [`MAX_RESOLUTION`].
    pub proof fn lemma_resolution_in_range(&self, dist: u32)
        requires
            self.well_formed(),
        ensures
            0 < self.resolution_at(dist) <= MAX_RESOLUTION,
    {
    }
}

} // verus!
