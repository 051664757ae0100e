use merkhyl_world::coords::{
    chunk_and_local_from_global, global_from_chunk_and_local, hex_distance_between, is_chunk_in_radius,
    ChunkPos, GlobalPos, TilePos,
};

#[test]
fn negative_coordinate_maps_to_previous_chunk() {
    let (chunk, local) = chunk_and_local_from_global(GlobalPos { q: -1, r: 31 });
    assert_eq!(chunk, ChunkPos { x: -1, y: 0 });
    assert_eq!(local, TilePos { x: 31, y: 31 });
    assert_eq!(global_from_chunk_and_local(chunk, local), GlobalPos { q: -1, r: 31 });
}

#[test]
fn chunk_boundaries() {
    assert_eq!(chunk_and_local_from_global(GlobalPos { q: 0, r: 0 }), (ChunkPos { x: 0, y: 0 }, TilePos { x: 0, y: 0 }));
    assert_eq!(chunk_and_local_from_global(GlobalPos { q: 32, r: -32 }), (ChunkPos { x: 1, y: -1 }, TilePos { x: 0, y: 0 }));
    assert_eq!(chunk_and_local_from_global(GlobalPos { q: -33, r: 63 }), (ChunkPos { x: -2, y: 1 }, TilePos { x: 31, y: 31 }));
}

#[test]
fn round_trip_over_many_coordinates() {
    let samples = [i32::MIN, i32::MIN + 1, -1025, -64, -33, -32, -31, -1, 0, 1, 31, 32, 33, 1000, i32::MAX - 1, i32::MAX];
    for &q in samples.iter() {
        for &r in samples.iter() {
            let g = GlobalPos { q, r };
            let (chunk, local) = chunk_and_local_from_global(g);
            assert!(local.x < 32 && local.y < 32);
            assert_eq!(global_from_chunk_and_local(chunk, local), g);
        }
    }
}

#[test]
fn chebyshev_radius() {
    let origin = ChunkPos { x: 0, y: 0 };
    assert!(is_chunk_in_radius(origin, ChunkPos { x: 3, y: 3 }, 3));
    assert!(is_chunk_in_radius(origin, ChunkPos { x: -3, y: -3 }, 3));
    assert!(!is_chunk_in_radius(origin, ChunkPos { x: 4, y: 0 }, 3));
    assert!(!is_chunk_in_radius(origin, ChunkPos { x: 0, y: 0 }, -1));
    assert!(is_chunk_in_radius(ChunkPos { x: i32::MAX, y: i32::MIN }, ChunkPos { x: i32::MAX, y: i32::MIN }, i32::MAX));
}

#[test]
fn hex_distances() {
    assert_eq!(hex_distance_between(0, 0, 0, 0), 0);
    assert_eq!(hex_distance_between(0, 0, 5, 0), 5);
    assert_eq!(hex_distance_between(0, 0, 2, 1), 2);
    assert_eq!(hex_distance_between(0, 0, 0, 4), 4);
    assert_eq!(hex_distance_between(0, 0, -1, -1), 1);
    assert_eq!(hex_distance_between(3, -2, 3, 2), 4);
}
