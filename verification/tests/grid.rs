use vibe_golf::config::MAX_RESOLUTION;
use vibe_golf::coord::ChunkCoord;
use vibe_golf::grid::{
    chunk_origin, grid_indices, heightfield_dims, neighbors, vertex_count, vertex_index, Neighbors,
};

#[test]
fn vertex_count_is_the_square_of_the_edge() {
    assert_eq!(vertex_count(0), 1);
    assert_eq!(vertex_count(1), 4);
    assert_eq!(vertex_count(24), 625);
    assert_eq!(vertex_count(96), 9409);
    assert_eq!(vertex_count(MAX_RESOLUTION), 65535 * 65535);
}

#[test]
fn vertices_are_numbered_row_by_row() {
    assert_eq!(vertex_index(0, 0, 4), 0);
    assert_eq!(vertex_index(4, 0, 4), 4);
    assert_eq!(vertex_index(0, 1, 4), 5);
    assert_eq!(vertex_index(3, 2, 4), 13);
    assert_eq!(vertex_index(4, 4, 4), 24);
    assert_eq!(
        vertex_index(MAX_RESOLUTION, MAX_RESOLUTION, MAX_RESOLUTION),
        65535 * 65535 - 1
    );
}

#[test]
fn neighbours_inside_the_grid() {
    assert_eq!(neighbors(2, 1, 4), Neighbors { left: 6, right: 8, down: 2, up: 12 });
}

#[test]
fn neighbours_are_clamped_at_the_border() {
    assert_eq!(neighbors(0, 0, 4), Neighbors { left: 0, right: 1, down: 0, up: 5 });
    assert_eq!(neighbors(4, 4, 4), Neighbors { left: 23, right: 24, down: 19, up: 24 });
    assert_eq!(neighbors(0, 4, 4), Neighbors { left: 20, right: 21, down: 15, up: 20 });
    assert_eq!(neighbors(0, 0, 0), Neighbors { left: 0, right: 0, down: 0, up: 0 });
}

#[test]
fn one_cell_gives_two_triangles() {
    assert_eq!(grid_indices(1), vec![0, 2, 1, 1, 2, 3]);
}

#[test]
fn cells_are_taken_row_by_row() {
    assert_eq!(
        grid_indices(2),
        vec![
            0, 3, 1, 1, 3, 4, //
            1, 4, 2, 2, 4, 5, //
            3, 6, 4, 4, 6, 7, //
            4, 7, 5, 5, 7, 8,
        ]
    );
}

#[test]
fn no_cell_gives_no_triangle() {
    assert!(grid_indices(0).is_empty());
}

#[test]
fn index_buffer_matches_the_nested_loops() {
    for res in [3u32, 24, 48, 96] {
        let mut expected: Vec<u32> = Vec::new();
        for j in 0..res {
            for i in 0..res {
                let row = res + 1;
                let i0 = j * row + i;
                let i1 = i0 + 1;
                let i2 = i0 + row;
                let i3 = i2 + 1;
                expected.extend_from_slice(&[i0, i2, i1, i1, i2, i3]);
            }
        }
        let got = grid_indices(res);
        assert_eq!(got.len(), (res * res * 6) as usize);
        assert_eq!(got, expected);
        assert!(got.iter().all(|&v| v < vertex_count(res)));
    }
}

#[test]
fn every_triangle_is_wound_the_same_way() {
    let res = 5u32;
    let idx = grid_indices(res);
    let col = |v: u32| (v % (res + 1)) as i64;
    let row = |v: u32| (v / (res + 1)) as i64;
    for t in idx.chunks(3) {
        let (a, b, c) = (t[0], t[1], t[2]);
        let area2 = (col(b) - col(a)) * (row(c) - row(a)) - (row(b) - row(a)) * (col(c) - col(a));
        assert_eq!(area2, -1);
    }
}

#[test]
fn heightfield_has_a_height_for_each_vertex() {
    assert_eq!(heightfield_dims(96), (97, 97));
    assert_eq!(heightfield_dims(24), (25, 25));
    assert_eq!(heightfield_dims(0), (1, 1));
}

#[test]
fn chunk_origin_is_the_coordinate_times_the_size() {
    assert_eq!(chunk_origin(&ChunkCoord::new(0, 0), 160), (0, 0));
    assert_eq!(chunk_origin(&ChunkCoord::new(5, -3), 160), (800, -480));
    assert_eq!(
        chunk_origin(&ChunkCoord::new(i32::MIN, i32::MAX), u32::MAX),
        (i32::MIN as i64 * u32::MAX as i64, i32::MAX as i64 * u32::MAX as i64)
    );
}
