//! Static configuration of the terrain engine.
//!
//! Lengths are whole numbers of a unit that the caller chooses: world
//! units, or a fraction of one where positions are to be told apart more
//! finely. Chunk size, thresholds and positions share the unit.

use vstd::prelude::*;

verus! {

/// Largest number of cells along a chunk's edge: the vertex count
/// `(resolution + 1)^2` of such a chunk still fits a 32-bit index.
pub const MAX_RESOLUTION: u32 = 65534;

/// Immutable snapshot of the options that drive streaming.
#[derive(Clone, Copy, Debug, PartialEq, Eq, Structural)]
pub struct TerrainConfig {
    /// Edge length of a chunk.
    pub chunk_size: u32,
    /// Cells along the edge of a chunk near the observer.
    pub resolution: u32,
    /// Chebyshev radius, in chunks, of the square kept resident.
    pub view_radius_chunks: i32,
    /// Most builds submitted in one cycle.
    pub max_spawn_per_frame: usize,
    /// Distance beyond which a chunk gets the middle resolution.
    pub lod_mid_distance: u32,
    /// Distance beyond which a chunk gets the far resolution.
    pub lod_far_distance: u32,
    /// Cells along the edge of a chunk at middle distance.
    pub lod_mid_resolution: u32,
    /// Cells along the edge of a chunk far away.
    pub lod_far_resolution: u32,
}

impl TerrainConfig {
    /// The three resolutions do not grow with distance.
    pub open spec fn tiers_ordered(&self) -> bool {
        self.resolution >= self.lod_mid_resolution >= self.lod_far_resolution
    }

    /// The ordering a configuration must have: a positive chunk size, a
    /// radius that is not negative, resolutions that fall strictly with
    /// distance down to a positive one, and a far threshold beyond the
    /// middle one.
    pub open spec fn well_formed(&self) -> bool {
        &&& self.chunk_size > 0
        &&& self.view_radius_chunks >= 0
        &&& MAX_RESOLUTION >= self.resolution > self.lod_mid_resolution
            > self.lod_far_resolution > 0
        &&& self.lod_far_distance > self.lod_mid_distance
    }

    /// Checks the ordering of [`TerrainConfig::well_formed`].
    pub fn is_well_formed(&self) -> (ok: bool)
        ensures
            ok == self.well_formed(),
    {
        self.chunk_size > 0 && self.view_radius_chunks >= 0 && self.resolution <= MAX_RESOLUTION
            && self.resolution > self.lod_mid_resolution && self.lod_mid_resolution
            > self.lod_far_resolution && self.lod_far_resolution > 0 && self.lod_far_distance
            > self.lod_mid_distance
    }

    /// Tells whether replacing this configuration by `next` makes the
    /// resident chunks stale, so that the registry has to be emptied: it
    /// does when the view radius changes.
    pub fn invalidated_by(&self, next: &TerrainConfig) -> (stale: bool)
        ensures
            stale == (self.view_radius_chunks != next.view_radius_chunks),
    {
        self.view_radius_chunks != next.view_radius_chunks
    }
}

impl Default for TerrainConfig {
    /// Chunks 160 units wide at 96, 48 and 24 cells per edge, the coarser
    /// ones beyond 512 and 800 units; six chunks of view radius; sixteen
    /// builds per cycle.
    fn default() -> (cfg: TerrainConfig)
        ensures
            cfg == (TerrainConfig {
                chunk_size: 160,
                resolution: 96,
                view_radius_chunks: 6,
                max_spawn_per_frame: 16,
                lod_mid_distance: 512,
                lod_far_distance: 800,
                lod_mid_resolution: 48,
                lod_far_resolution: 24,
            }),
            cfg.well_formed(),
    {
        TerrainConfig {
            chunk_size: 160,
            resolution: 96,
            view_radius_chunks: 6,
            max_spawn_per_frame: 16,
            lod_mid_distance: 512,
            lod_far_distance: 800,
            lod_mid_resolution: 48,
            lod_far_resolution: 24,
        }
    }
}

} // verus!
