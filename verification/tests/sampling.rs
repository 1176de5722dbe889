use vibe_golf::coord::ChunkCoord;
use vibe_golf::grid::{chunk_origin, grid_indices, neighbors, vertex_count, vertex_index};
use vibe_golf::heightmap::Heightmap;
use vibe_golf::range::{bits_of_level, level_of_bits, HeightRange, Span};

const WORLD_SIZE: f32 = 2000.0;
const MAX_HEIGHT: f32 = 200.0;
const AMPLITUDE: f32 = 1.0;

// Bilinear height over a raster that spans the world from -WORLD_SIZE / 2
// to +WORLD_SIZE / 2 on both axes; flat void outside.
fn height(map: &Heightmap, x: f32, z: f32) -> f32 {
    let nx = x / WORLD_SIZE + 0.5;
    let nz = z / WORLD_SIZE + 0.5;
    if nx < 0.0 || nx > 1.0 || nz < 0.0 || nz > 1.0 {
        return 0.0;
    }
    let u = nx * (map.width() - 1) as f32;
    let v = nz * (map.height() - 1) as f32;
    let (x0, z0) = (u.floor(), v.floor());
    let c = match map.corners(x0 as i64, z0 as i64) {
        Some(c) => c,
        None => return 0.0,
    };
    let (tx, tz) = (u - x0, v - z0);
    let a = c.r00 as f32 + (c.r10 as f32 - c.r00 as f32) * tx;
    let b = c.r01 as f32 + (c.r11 as f32 - c.r01 as f32) * tx;
    (a + (b - a) * tz) / 255.0 * MAX_HEIGHT * AMPLITUDE
}

fn raster(width: u32, height: u32, red: &[u8]) -> Heightmap {
    let mut raw: Vec<u8> = Vec::new();
    for r in red {
        raw.extend_from_slice(&[*r, 0, 0]);
    }
    Heightmap::from_rgb8(width, height, &raw).unwrap()
}

#[test]
fn full_intensity_is_the_maximum_height() {
    let map = raster(2, 2, &[255, 255, 255, 255]);
    for (x, z) in [(0.0, 0.0), (-1000.0, -1000.0), (1000.0, 1000.0), (-3.5, 812.25)] {
        assert!((height(&map, x, z) - 200.0).abs() < 1e-3);
    }
}

#[test]
fn height_outside_the_extent_is_zero() {
    let map = raster(2, 2, &[255, 255, 255, 255]);
    assert_eq!(height(&map, 1000.5, 0.0), 0.0);
    assert_eq!(height(&map, 0.0, -1000.5), 0.0);
    assert_eq!(height(&map, 1.0e9, 1.0e9), 0.0);
}

#[test]
fn height_is_the_blend_of_the_four_samples_around() {
    // 3 x 3 samples, one every 1000 units
    let map = raster(3, 3, &[0, 51, 102, 51, 102, 153, 102, 153, 204]);
    assert!((height(&map, -1000.0, -1000.0) - 0.0).abs() < 1e-3);
    assert!((height(&map, 0.0, -1000.0) - 40.0).abs() < 1e-3);
    assert!((height(&map, 0.0, 0.0) - 80.0).abs() < 1e-3);
    assert!((height(&map, 1000.0, 1000.0) - 160.0).abs() < 1e-3);
    // halfway between (0, 0) and (1000, 0): between 102 and 153
    assert!((height(&map, 500.0, 0.0) - 100.0).abs() < 1e-3);
    // in the middle of the cell with the corners 0, 51, 51, 102
    assert!((height(&map, -500.0, -500.0) - 40.0).abs() < 1e-3);
    // a quarter along x, three quarters along z
    let expected = {
        let a = 0.0 + 51.0 * 0.25;
        let b = 51.0 + 51.0 * 0.25;
        (a + (b - a) * 0.75) / 255.0 * 200.0
    };
    assert!((height(&map, -750.0, -250.0) - expected).abs() < 1e-3);
}

#[test]
fn a_chunk_is_built_on_the_grid_layout() {
    let map = raster(3, 3, &[0, 51, 102, 51, 102, 153, 102, 153, 204]);
    let res = 4u32;
    let chunk_size = 160u32;
    let coord = ChunkCoord::new(-1, 2);
    let step = chunk_size as f32 / res as f32;
    let origin = chunk_origin(&coord, chunk_size);
    assert_eq!(origin, (-160, 320));

    let mut heights: Vec<f32> = Vec::new();
    for j in 0..=res {
        for i in 0..=res {
            let x = origin.0 as f32 + i as f32 * step;
            let z = origin.1 as f32 + j as f32 * step;
            assert_eq!(heights.len(), vertex_index(i, j, res) as usize);
            heights.push(height(&map, x, z));
        }
    }
    assert_eq!(heights.len(), vertex_count(res) as usize);

    // the height rises along both axes, so every normal leans back
    for j in 0..=res {
        for i in 0..=res {
            let near = neighbors(i, j, res);
            let dx = heights[near.left as usize] - heights[near.right as usize];
            let dz = heights[near.down as usize] - heights[near.up as usize];
            assert!(dx < 0.0 && dz < 0.0);
            let len = (dx * dx + 4.0 * step * step + dz * dz).sqrt();
            let n = [dx / len, 2.0 * step / len, dz / len];
            let unit = n[0] * n[0] + n[1] * n[1] + n[2] * n[2];
            assert!((unit - 1.0).abs() < 1e-5);
        }
    }

    let indices = grid_indices(res);
    assert_eq!(indices.len(), 6 * 16);
    assert!(indices.iter().all(|&v| (v as usize) < heights.len()));

    let levels: Vec<i32> = heights.iter().map(|h| level_of_bits(h.to_bits())).collect();
    let span = Span::of(&levels).unwrap();
    let lowest = heights.iter().cloned().fold(f32::MAX, f32::min);
    let highest = heights.iter().cloned().fold(f32::MIN, f32::max);
    assert_eq!(f32::from_bits(bits_of_level(span.min)), lowest);
    assert_eq!(f32::from_bits(bits_of_level(span.max)), highest);

    let mut range = HeightRange::new();
    range.absorb(span.min, span.max);
    range.absorb(level_of_bits(0.0_f32.to_bits()), level_of_bits(1.0_f32.to_bits()));
    let bounds = range.bounds.unwrap();
    assert_eq!(f32::from_bits(bits_of_level(bounds.min)), 0.0);
    assert_eq!(f32::from_bits(bits_of_level(bounds.max)), highest);
}

#[test]
fn flat_terrain_has_upright_normals() {
    let map = raster(2, 2, &[100, 100, 100, 100]);
    let res = 3u32;
    let step = 10.0_f32;
    let mut heights: Vec<f32> = Vec::new();
    for j in 0..=res {
        for i in 0..=res {
            heights.push(height(&map, i as f32 * step, j as f32 * step));
        }
    }
    for j in 0..=res {
        for i in 0..=res {
            let near = neighbors(i, j, res);
            assert_eq!(heights[near.left as usize] - heights[near.right as usize], 0.0);
            assert_eq!(heights[near.down as usize] - heights[near.up as usize], 0.0);
        }
    }
}
