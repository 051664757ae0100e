use merkhyl_world::coords::ChunkPos;
use merkhyl_world::terrain::{derive_chunk_seed, generate_chunk, TileKind, TileWeights, WeightsError, WorldSeed};

#[test]
fn zero_seed_origin_chunk_fixture() {
    let seed = WorldSeed { seed: [0; 32] };
    let weights = TileWeights::standard();
    let grid = generate_chunk(&seed, &weights, ChunkPos { x: 0, y: 0 });
    let villages = [111, 136, 180, 190, 276, 316, 339, 381, 435, 440, 583, 591, 609, 694, 798, 808, 838, 916, 941, 976, 1008, 1020];
    assert_eq!(grid.len(), 1024);
    for (i, kind) in grid.iter().enumerate() {
        let expected = if villages.contains(&i) { TileKind::Village } else { TileKind::Empty };
        assert_eq!(*kind, expected, "tile {}", i);
    }
}

#[test]
fn generation_is_deterministic() {
    let seed = WorldSeed { seed: [7; 32] };
    let weights = TileWeights::standard();
    for pos in [ChunkPos { x: 0, y: 0 }, ChunkPos { x: -5, y: 12 }, ChunkPos { x: i32::MIN, y: i32::MAX }] {
        assert_eq!(generate_chunk(&seed, &weights, pos), generate_chunk(&seed, &weights, pos));
    }
    let a = generate_chunk(&seed, &weights, ChunkPos { x: 1, y: 0 });
    let b = generate_chunk(&seed, &weights, ChunkPos { x: 0, y: 1 });
    assert_ne!(a, b);
}

#[test]
fn chunk_seed_carries_coordinates() {
    let mut bytes = [9u8; 32];
    bytes[0] = 1;
    let seed = WorldSeed { seed: bytes };
    let derived = derive_chunk_seed(&seed, ChunkPos { x: 0x0403_0201, y: -1 });
    assert_eq!(&derived[..24], &bytes[..24]);
    assert_eq!(&derived[24..28], &[1, 2, 3, 4]);
    assert_eq!(&derived[28..32], &[255, 255, 255, 255]);
}

#[test]
fn seed_from_bytes_clears_suffix() {
    let seed = WorldSeed::from_bytes([0xAB; 32]);
    assert_eq!(&seed.seed[..24], &[0xAB; 24]);
    assert_eq!(&seed.seed[24..], &[0; 8]);
    let random = WorldSeed::default();
    assert_eq!(&random.seed[24..], &[0; 8]);
}

#[test]
fn single_kind_table_gives_only_that_kind() {
    let weights = TileWeights::new(&vec![(TileKind::Empty, 0), (TileKind::Village, 3)]).unwrap();
    assert_eq!(weights.total_weight(), 3);
    let grid = generate_chunk(&WorldSeed { seed: [3; 32] }, &weights, ChunkPos { x: 2, y: -2 });
    assert!(grid.iter().all(|k| *k == TileKind::Village));
}

#[test]
fn weight_table_errors() {
    assert_eq!(TileWeights::new(&vec![]).err(), Some(WeightsError::NoItem));
    assert_eq!(TileWeights::new(&vec![(TileKind::Empty, 0), (TileKind::Village, 0)]).err(), Some(WeightsError::AllWeightsZero));
    assert_eq!(TileWeights::new(&vec![(TileKind::Empty, u32::MAX), (TileKind::Village, 1)]).err(), Some(WeightsError::TooLarge));
    assert_eq!(TileWeights::new(&vec![(TileKind::Empty, 200), (TileKind::Village, 5)]).map(|w| w.total_weight()).ok(), Some(205));
    assert_eq!(TileWeights::standard().total_weight(), 205);
}

#[test]
fn tile_kind_texture_indices() {
    assert_eq!(TileKind::Empty.texture_index(), 1);
    assert_eq!(TileKind::Village.texture_index(), 2);
}
