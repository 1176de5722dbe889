use vibe_golf::coord::{chunk_index, gap, ChunkCoord};
use vibe_golf::desired::is_no_later;

#[test]
fn chunk_index_rounds_towards_negative_infinity() {
    assert_eq!(chunk_index(0, 160), 0);
    assert_eq!(chunk_index(159, 160), 0);
    assert_eq!(chunk_index(160, 160), 1);
    assert_eq!(chunk_index(-1, 160), -1);
    assert_eq!(chunk_index(-160, 160), -1);
    assert_eq!(chunk_index(-161, 160), -2);
    assert_eq!(chunk_index(801, 160), 5);
}

#[test]
fn chunk_index_at_the_ends_of_the_range() {
    assert_eq!(chunk_index(i32::MAX, 1), i32::MAX);
    assert_eq!(chunk_index(i32::MIN, 1), i32::MIN);
    assert_eq!(chunk_index(i32::MIN, u32::MAX), -1);
    assert_eq!(chunk_index(i32::MAX, u32::MAX), 0);
    assert_eq!(chunk_index(i32::MIN, 2), -(1 << 30));
}

#[test]
fn chunk_index_agrees_with_euclidean_division() {
    for size in [1u32, 2, 3, 7, 160, 1000] {
        for pos in -2100..2100 {
            assert_eq!(chunk_index(pos, size) as i64, (pos as i64).div_euclid(size as i64));
        }
    }
}

#[test]
fn observer_chunk_is_taken_per_axis() {
    assert_eq!(ChunkCoord::containing(0, 0, 160), ChunkCoord::new(0, 0));
    assert_eq!(ChunkCoord::containing(800, -1, 160), ChunkCoord::new(5, -1));
    assert_eq!(ChunkCoord::containing(-320, 319, 160), ChunkCoord::new(-2, 1));
}

#[test]
fn gap_is_the_absolute_difference() {
    assert_eq!(gap(3, 10), 7);
    assert_eq!(gap(10, 3), 7);
    assert_eq!(gap(-4, -4), 0);
    assert_eq!(gap(i32::MIN, i32::MAX), u32::MAX);
    assert_eq!(gap(i32::MAX, i32::MIN), u32::MAX);
}

#[test]
fn chebyshev_distance_is_the_larger_gap() {
    let a = ChunkCoord::new(1, 1);
    assert_eq!(a.chebyshev_distance(&ChunkCoord::new(4, 2)), 3);
    assert_eq!(a.chebyshev_distance(&ChunkCoord::new(0, -6)), 7);
    assert_eq!(a.chebyshev_distance(&a), 0);
    assert_eq!(
        ChunkCoord::new(i32::MIN, 0).chebyshev_distance(&ChunkCoord::new(i32::MAX, 0)),
        u32::MAX
    );
}

#[test]
fn distance_squared_does_not_overflow() {
    let a = ChunkCoord::new(0, 0);
    assert_eq!(a.distance_squared(&ChunkCoord::new(3, -4)), 25);
    let lo = ChunkCoord::new(i32::MIN, i32::MIN);
    let hi = ChunkCoord::new(i32::MAX, i32::MAX);
    let side = u32::MAX as u128;
    assert_eq!(lo.distance_squared(&hi), 2 * side * side);
}

#[test]
fn within_uses_chebyshev_distance() {
    let center = ChunkCoord::new(5, 0);
    assert!(ChunkCoord::new(7, 2).is_within(&center, 2));
    assert!(ChunkCoord::new(3, -2).is_within(&center, 2));
    assert!(!ChunkCoord::new(8, 0).is_within(&center, 2));
    assert!(!ChunkCoord::new(5, 3).is_within(&center, 2));
    assert!(center.is_within(&center, 0));
    assert!(!center.is_within(&center, -1));
}

#[test]
fn keys_tell_coordinates_apart() {
    let coords = [
        ChunkCoord::new(0, 0),
        ChunkCoord::new(0, 1),
        ChunkCoord::new(1, 0),
        ChunkCoord::new(-1, 0),
        ChunkCoord::new(0, -1),
        ChunkCoord::new(i32::MIN, i32::MIN),
        ChunkCoord::new(i32::MAX, i32::MAX),
        ChunkCoord::new(i32::MIN, i32::MAX),
        ChunkCoord::new(i32::MAX, i32::MIN),
    ];
    for (i, a) in coords.iter().enumerate() {
        for (j, b) in coords.iter().enumerate() {
            assert_eq!(a.key() == b.key(), i == j);
        }
    }
    assert_eq!(ChunkCoord::new(i32::MIN, i32::MIN).key(), 0);
    assert_eq!(ChunkCoord::new(i32::MAX, i32::MAX).key(), u64::MAX);
    assert_eq!(ChunkCoord::new(0, 0).key(), 0x8000_0000_8000_0000);
}

#[test]
fn serve_order_breaks_ties_by_row_then_column() {
    let center = ChunkCoord::new(0, 0);
    let near = ChunkCoord::new(1, 0);
    let far = ChunkCoord::new(1, 1);
    assert!(is_no_later(&near, &far, &center));
    assert!(!is_no_later(&far, &near, &center));
    assert!(is_no_later(&near, &near, &center));
    // equally far: the lower row first
    assert!(is_no_later(&ChunkCoord::new(0, -1), &ChunkCoord::new(-1, 0), &center));
    assert!(!is_no_later(&ChunkCoord::new(-1, 0), &ChunkCoord::new(0, -1), &center));
    // equally far, same row: the lower column first
    assert!(is_no_later(&ChunkCoord::new(-1, 0), &ChunkCoord::new(1, 0), &center));
    assert!(!is_no_later(&ChunkCoord::new(1, 0), &ChunkCoord::new(-1, 0), &center));
}
