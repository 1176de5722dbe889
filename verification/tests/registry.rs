use vibe_golf::coord::ChunkCoord;
use vibe_golf::registry::{ChunkRecord, ChunkRegistry, ChunkState, InProgressChunks, LoadedChunks};

fn record(x: i32, z: i32, entity: u64) -> ChunkRecord {
    ChunkRecord { coord: ChunkCoord::new(x, z), res: 48, entity, has_collider: false }
}

#[test]
fn every_coordinate_starts_not_present() {
    let registry = ChunkRegistry::new();
    assert_eq!(registry.state_of(&ChunkCoord::new(0, 0)), ChunkState::NotPresent);
    assert_eq!(registry.state_of(&ChunkCoord::new(i32::MIN, i32::MAX)), ChunkState::NotPresent);
    assert_eq!(registry.loaded_count(), 0);
    assert_eq!(registry.pending_count(), 0);
}

#[test]
fn a_chunk_goes_through_its_life_cycle() {
    let mut registry = ChunkRegistry::new();
    let c = ChunkCoord::new(3, -7);
    assert!(registry.submit(c));
    assert_eq!(registry.state_of(&c), ChunkState::Pending);
    assert_eq!(registry.record(&c), None);
    assert!(registry.finalize(record(3, -7, 11)));
    assert_eq!(registry.state_of(&c), ChunkState::Loaded);
    assert_eq!(registry.record(&c), Some(record(3, -7, 11)));
    let gone = registry.evict_outside(&ChunkCoord::new(100, 100), 2);
    assert_eq!(gone, vec![record(3, -7, 11)]);
    assert_eq!(registry.state_of(&c), ChunkState::NotPresent);
    assert!(registry.submit(c));
    assert_eq!(registry.state_of(&c), ChunkState::Pending);
}

#[test]
fn duplicate_submission_is_refused() {
    let mut registry = ChunkRegistry::new();
    let c = ChunkCoord::new(1, 1);
    assert!(registry.submit(c));
    assert!(!registry.submit(c));
    assert_eq!(registry.pending_count(), 1);
    assert!(registry.finalize(record(1, 1, 5)));
    assert!(!registry.submit(c));
    assert_eq!(registry.state_of(&c), ChunkState::Loaded);
    assert_eq!(registry.pending_count(), 0);
    assert_eq!(registry.loaded_count(), 1);
}

#[test]
fn a_build_nobody_waits_for_is_refused() {
    let mut registry = ChunkRegistry::new();
    assert!(!registry.finalize(record(2, 2, 9)));
    assert_eq!(registry.state_of(&ChunkCoord::new(2, 2)), ChunkState::NotPresent);
    assert!(registry.submit(ChunkCoord::new(2, 2)));
    assert!(registry.finalize(record(2, 2, 9)));
    assert!(!registry.finalize(record(2, 2, 10)));
    assert_eq!(registry.record(&ChunkCoord::new(2, 2)), Some(record(2, 2, 9)));
}

#[test]
fn no_coordinate_is_loaded_and_pending() {
    let mut registry = ChunkRegistry::new();
    let coords: Vec<ChunkCoord> =
        (-3..=3).flat_map(|x| (-3..=3).map(move |z| ChunkCoord::new(x, z))).collect();
    for (i, c) in coords.iter().enumerate() {
        assert!(registry.submit(*c));
        if i % 3 == 0 {
            assert!(registry.finalize(record(c.x, c.z, i as u64)));
        }
        if i % 5 == 1 {
            registry.abandon(c);
        }
    }
    registry.evict_outside(&ChunkCoord::new(1, 1), 2);
    let mut loaded = 0;
    let mut pending = 0;
    for c in coords.iter() {
        match registry.state_of(c) {
            ChunkState::Loaded => {
                loaded += 1;
                assert!(c.is_within(&ChunkCoord::new(1, 1), 2));
                assert!(registry.record(c).is_some());
            }
            ChunkState::Pending => {
                pending += 1;
                assert!(registry.record(c).is_none());
            }
            ChunkState::NotPresent => assert!(registry.record(c).is_none()),
        }
    }
    assert_eq!(loaded, registry.loaded_count());
    assert_eq!(pending, registry.pending_count());
}

#[test]
fn abandoned_build_can_be_submitted_again() {
    let mut registry = ChunkRegistry::new();
    let c = ChunkCoord::new(-4, 4);
    assert!(!registry.abandon(&c));
    assert!(registry.submit(c));
    assert!(registry.abandon(&c));
    assert_eq!(registry.state_of(&c), ChunkState::NotPresent);
    assert!(!registry.finalize(record(-4, 4, 1)));
    assert!(registry.submit(c));
}

#[test]
fn eviction_keeps_what_is_within_the_radius() {
    let mut registry = ChunkRegistry::new();
    for x in 0..10 {
        assert!(registry.submit(ChunkCoord::new(x, 0)));
        assert!(registry.finalize(record(x, 0, x as u64)));
    }
    let mut gone = registry.evict_outside(&ChunkCoord::new(5, 0), 2);
    gone.sort_by_key(|r| r.coord.x);
    let xs: Vec<i32> = gone.iter().map(|r| r.coord.x).collect();
    assert_eq!(xs, vec![0, 1, 2, 8, 9]);
    for r in gone.iter() {
        assert_eq!(r.entity, r.coord.x as u64);
    }
    assert_eq!(registry.loaded_count(), 5);
    for x in 3..=7 {
        assert_eq!(registry.state_of(&ChunkCoord::new(x, 0)), ChunkState::Loaded);
    }
    assert!(registry.evict_outside(&ChunkCoord::new(5, 0), 2).is_empty());
}

#[test]
fn eviction_leaves_pending_builds_alone() {
    let mut registry = ChunkRegistry::new();
    assert!(registry.submit(ChunkCoord::new(50, 50)));
    assert!(registry.evict_outside(&ChunkCoord::new(0, 0), 1).is_empty());
    assert_eq!(registry.state_of(&ChunkCoord::new(50, 50)), ChunkState::Pending);
}

#[test]
fn negative_radius_evicts_everything() {
    let mut registry = ChunkRegistry::new();
    assert!(registry.submit(ChunkCoord::new(0, 0)));
    assert!(registry.finalize(record(0, 0, 1)));
    let gone = registry.evict_outside(&ChunkCoord::new(0, 0), -1);
    assert_eq!(gone, vec![record(0, 0, 1)]);
}

#[test]
fn invalidation_empties_both_registries() {
    let mut registry = ChunkRegistry::new();
    for x in 0..4 {
        assert!(registry.submit(ChunkCoord::new(x, x)));
    }
    assert!(registry.finalize(record(0, 0, 100)));
    assert!(registry.finalize(record(1, 1, 101)));
    let mut dropped = registry.invalidate();
    dropped.sort_by_key(|r| r.entity);
    assert_eq!(dropped, vec![record(0, 0, 100), record(1, 1, 101)]);
    assert_eq!(registry.loaded_count(), 0);
    assert_eq!(registry.pending_count(), 0);
    for x in 0..4 {
        assert_eq!(registry.state_of(&ChunkCoord::new(x, x)), ChunkState::NotPresent);
    }
    assert!(!registry.finalize(record(2, 2, 102)));
}

#[test]
fn loaded_chunks_behave_as_a_map() {
    let mut loaded = LoadedChunks::new();
    assert_eq!(loaded.len(), 0);
    loaded.insert(record(1, 2, 7));
    loaded.insert(record(-1, 2, 8));
    loaded.insert(record(1, 2, 9));
    assert_eq!(loaded.len(), 2);
    assert!(loaded.contains(&ChunkCoord::new(1, 2)));
    assert!(!loaded.contains(&ChunkCoord::new(2, 1)));
    assert_eq!(loaded.get(&ChunkCoord::new(1, 2)), Some(record(1, 2, 9)));
    assert_eq!(loaded.get(&ChunkCoord::new(2, 1)), None);
    assert_eq!(loaded.remove(&ChunkCoord::new(1, 2)), Some(record(1, 2, 9)));
    assert_eq!(loaded.remove(&ChunkCoord::new(1, 2)), None);
    assert_eq!(loaded.outside(&ChunkCoord::new(0, 0), 0), vec![record(-1, 2, 8)]);
    assert!(loaded.outside(&ChunkCoord::new(0, 0), 2).is_empty());
}

#[test]
fn in_progress_chunks_behave_as_a_set() {
    let mut pending = InProgressChunks::new();
    assert!(pending.insert(ChunkCoord::new(0, 1)));
    assert!(!pending.insert(ChunkCoord::new(0, 1)));
    assert!(pending.insert(ChunkCoord::new(1, 0)));
    assert_eq!(pending.len(), 2);
    assert!(pending.contains(&ChunkCoord::new(1, 0)));
    assert!(pending.remove(&ChunkCoord::new(1, 0)));
    assert!(!pending.remove(&ChunkCoord::new(1, 0)));
    assert!(!pending.contains(&ChunkCoord::new(1, 0)));
    assert_eq!(pending.len(), 1);
}
