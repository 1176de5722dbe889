use vibe_golf::config::{TerrainConfig, MAX_RESOLUTION};
use vibe_golf::lod::{is_farther_than, LodChoice};
use vibe_golf::coord::ChunkCoord;
use vibe_golf::streaming::BuildRequest;

#[test]
fn default_configuration() {
    let cfg = TerrainConfig::default();
    assert_eq!(cfg.chunk_size, 160);
    assert_eq!(cfg.resolution, 96);
    assert_eq!(cfg.view_radius_chunks, 6);
    assert_eq!(cfg.max_spawn_per_frame, 16);
    assert_eq!(cfg.lod_mid_distance, 512);
    assert_eq!(cfg.lod_far_distance, 800);
    assert_eq!(cfg.lod_mid_resolution, 48);
    assert_eq!(cfg.lod_far_resolution, 24);
    assert!(cfg.is_well_formed());
}

#[test]
fn resolution_by_distance() {
    let cfg = TerrainConfig::default();
    assert_eq!(cfg.select_lod(0), LodChoice { resolution: 96, create_collider: true });
    assert_eq!(cfg.select_lod(512), LodChoice { resolution: 96, create_collider: true });
    assert_eq!(cfg.select_lod(513), LodChoice { resolution: 48, create_collider: true });
    assert_eq!(cfg.select_lod(800), LodChoice { resolution: 48, create_collider: true });
    assert_eq!(cfg.select_lod(801), LodChoice { resolution: 24, create_collider: false });
    assert_eq!(cfg.select_lod(u32::MAX), LodChoice { resolution: 24, create_collider: false });
}

#[test]
fn resolution_never_grows_with_distance() {
    let cfg = TerrainConfig::default();
    let mut last = cfg.select_lod(0).resolution;
    for d in 1..2000u32 {
        let r = cfg.select_lod(d).resolution;
        assert!(r <= last);
        last = r;
    }
}

#[test]
fn collider_goes_with_every_resolution_but_the_far_one() {
    let cfg = TerrainConfig { lod_far_resolution: 48, lod_mid_resolution: 48, ..TerrainConfig::default() };
    assert_eq!(cfg.select_lod(600), LodChoice { resolution: 48, create_collider: false });
    assert_eq!(cfg.select_lod(900), LodChoice { resolution: 48, create_collider: false });
    assert_eq!(cfg.select_lod(10), LodChoice { resolution: 96, create_collider: true });
}

#[test]
fn ill_ordered_configurations_are_told_apart() {
    let ok = TerrainConfig::default();
    assert!(!TerrainConfig { chunk_size: 0, ..ok }.is_well_formed());
    assert!(!TerrainConfig { view_radius_chunks: -1, ..ok }.is_well_formed());
    assert!(!TerrainConfig { lod_far_resolution: 0, ..ok }.is_well_formed());
    assert!(!TerrainConfig { lod_mid_resolution: 96, ..ok }.is_well_formed());
    assert!(!TerrainConfig { lod_far_resolution: 48, ..ok }.is_well_formed());
    assert!(!TerrainConfig { lod_far_distance: 512, ..ok }.is_well_formed());
    assert!(!TerrainConfig { resolution: MAX_RESOLUTION + 1, ..ok }.is_well_formed());
    assert!(TerrainConfig { resolution: MAX_RESOLUTION, ..ok }.is_well_formed());
    assert!(TerrainConfig { view_radius_chunks: 0, lod_mid_distance: 0, ..ok }.is_well_formed());
}

#[test]
fn a_changed_view_radius_invalidates() {
    let cfg = TerrainConfig::default();
    assert!(!cfg.invalidated_by(&cfg));
    assert!(cfg.invalidated_by(&TerrainConfig { view_radius_chunks: 7, ..cfg }));
    assert!(!cfg.invalidated_by(&TerrainConfig { max_spawn_per_frame: 4, resolution: 64, ..cfg }));
}

#[test]
fn distance_to_the_centre_is_compared_on_squares() {
    let c = ChunkCoord::new(0, 0);
    // the centre lies at (80, 80): at distance 0 from itself
    assert!(!is_farther_than(&c, 80, 80, 160, 0));
    assert!(is_farther_than(&c, 81, 80, 160, 0));
    assert!(!is_farther_than(&c, 81, 80, 160, 1));
    // from the corner the centre is 113.13.. away
    assert!(is_farther_than(&c, 0, 0, 160, 113));
    assert!(!is_farther_than(&c, 0, 0, 160, 114));
}

#[test]
fn the_centre_of_an_odd_chunk_lies_between_whole_positions() {
    let c = ChunkCoord::new(0, 0);
    // the centre lies at (2.5, 2.5), 3.53.. away from the corner
    assert!(is_farther_than(&c, 0, 0, 5, 3));
    assert!(!is_farther_than(&c, 0, 0, 5, 4));
    // and half a unit away from (2, 2.5) on the x axis alone
    assert!(is_farther_than(&ChunkCoord::new(0, 0), 2, 2, 5, 0));
    assert!(!is_farther_than(&ChunkCoord::new(0, 0), 2, 2, 5, 1));
}

#[test]
fn distances_at_the_ends_of_the_range() {
    let far = ChunkCoord::new(i32::MAX, i32::MAX);
    assert!(is_farther_than(&far, i32::MIN, i32::MIN, u32::MAX, u32::MAX));
    let low = ChunkCoord::new(i32::MIN, i32::MIN);
    assert!(is_farther_than(&low, i32::MAX, i32::MAX, u32::MAX, u32::MAX));
    assert!(is_farther_than(&ChunkCoord::new(i32::MAX, 0), 0, 0, 2, u32::MAX - 1));
    assert!(!is_farther_than(&ChunkCoord::new(1 << 30, 0), 0, 1, 2, u32::MAX));
    assert!(!is_farther_than(&ChunkCoord::new(0, 0), 0, 0, 0, 0));
}

#[test]
fn resolution_goes_by_the_distance_to_the_chunk_centre() {
    let cfg = TerrainConfig::default();
    let near = LodChoice { resolution: 96, create_collider: true };
    let mid = LodChoice { resolution: 48, create_collider: true };
    let far = LodChoice { resolution: 24, create_collider: false };
    // observer at the centre of chunk (0, 0)
    assert_eq!(cfg.select_lod_for(&ChunkCoord::new(0, 0), 80, 80), near);
    assert_eq!(cfg.select_lod_for(&ChunkCoord::new(3, 0), 80, 80), near); // 480 away
    assert_eq!(cfg.select_lod_for(&ChunkCoord::new(4, 0), 80, 80), mid); // 640 away
    assert_eq!(cfg.select_lod_for(&ChunkCoord::new(5, 0), 80, 80), mid); // 800 away
    assert_eq!(cfg.select_lod_for(&ChunkCoord::new(6, 0), 80, 80), far); // 960 away
    assert_eq!(cfg.select_lod_for(&ChunkCoord::new(-6, 0), 80, 80), far);
    assert_eq!(cfg.select_lod_for(&ChunkCoord::new(3, 2), 80, 80), mid); // 576.8.. away
    assert_eq!(cfg.select_lod_for(&ChunkCoord::new(0, -5), 80, 80), mid);
    assert_eq!(cfg.select_lod_for(&ChunkCoord::new(4, 4), 80, 80), far); // 905.0.. away
}

#[test]
fn squares_agree_with_the_rounded_distance() {
    let cfg = TerrainConfig::default();
    for cx in -8..=8 {
        for cz in -8..=8 {
            for (px, pz) in [(0, 0), (80, 80), (-13, 977), (159, -1)] {
                let coord = ChunkCoord::new(cx, cz);
                let dx = (cx * 160 + 80 - px) as f64;
                let dz = (cz * 160 + 80 - pz) as f64;
                let dist = (dx * dx + dz * dz).sqrt().ceil() as u32;
                assert_eq!(cfg.select_lod_for(&coord, px, pz), cfg.select_lod(dist));
            }
        }
    }
}

#[test]
fn build_request_for_an_observer() {
    let cfg = TerrainConfig::default();
    let coord = ChunkCoord::new(6, 0);
    assert_eq!(
        BuildRequest::for_observer(&cfg, coord, 80, 80),
        BuildRequest { coord, resolution: 24, create_collider: false }
    );
    let coord = ChunkCoord::new(1, 1);
    let near = BuildRequest::for_observer(&cfg, coord, 80, 80);
    assert_eq!(near, BuildRequest { coord, resolution: 96, create_collider: true });
    let rec = near.completed(42);
    assert_eq!(rec.coord, coord);
    assert_eq!(rec.res, 96);
    assert_eq!(rec.entity, 42);
    assert!(rec.has_collider);
}
