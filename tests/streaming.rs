use merkhyl_world::coords::{ChunkPos, GlobalPos};
use merkhyl_world::observers::{ObserverKind, Observers, PlayerObserver};
use merkhyl_world::terrain::{generate_chunk, TileKind, TileWeights, WorldSeed};
use merkhyl_world::world::{ChunkWorld, Tile, TileVisibility};

fn world() -> ChunkWorld {
    ChunkWorld::new(WorldSeed { seed: [0; 32] }, TileWeights::standard())
}

fn player_at(q: i32, r: i32) -> PlayerObserver {
    PlayerObserver { pos: GlobalPos { q, r }, chart_range: 5 }
}

fn observers(players: Vec<PlayerObserver>, camera: Option<ChunkPos>, npcs: Vec<GlobalPos>) -> Observers {
    Observers { players, camera, npcs }
}

fn kinds(tiles: &[Tile]) -> Vec<TileKind> {
    tiles.iter().map(|t| t.kind).collect()
}

#[test]
fn player_load_and_unload_scenario() {
    let mut w = world();
    w.tick(&observers(vec![player_at(0, 0)], None, vec![]));
    assert!(w.is_loaded(ChunkPos { x: 3, y: 3 }));
    assert!(w.is_loaded(ChunkPos { x: -3, y: -3 }));
    assert!(!w.is_loaded(ChunkPos { x: 6, y: 0 }));
    assert!(!w.is_loaded(ChunkPos { x: 4, y: 0 }));
    assert_eq!(w.loaded_chunks().len(), 49);

    w.tick(&observers(vec![player_at(320, 0)], None, vec![]));
    for x in -3..=3 {
        for y in -3..=3 {
            assert!(!w.is_loaded(ChunkPos { x, y }), "({}, {}) still loaded", x, y);
        }
    }
    assert!(w.is_loaded(ChunkPos { x: 10, y: 0 }));
    assert!(w.is_loaded(ChunkPos { x: 13, y: -3 }));
    assert_eq!(w.loaded_chunks().len(), 49);
    assert!(w.is_generated(ChunkPos { x: 0, y: 0 }));
}

#[test]
fn reload_reproduces_terrain() {
    let mut w = world();
    let origin = ChunkPos { x: 0, y: 0 };
    w.tick(&observers(vec![player_at(0, 0)], None, vec![]));
    let first = kinds(&w.chunk_tiles(origin).unwrap());
    w.tick(&observers(vec![player_at(3200, 3200)], None, vec![]));
    assert!(w.chunk_tiles(origin).is_none());
    w.tick(&observers(vec![player_at(0, 0)], None, vec![]));
    let again = kinds(&w.chunk_tiles(origin).unwrap());
    assert_eq!(first, again);
    assert_eq!(first, generate_chunk(&WorldSeed { seed: [0; 32] }, &TileWeights::standard(), origin));
}

#[test]
fn hysteresis_keeps_chunk_loaded_by_other_observer() {
    for kind in [ObserverKind::Player, ObserverKind::Camera, ObserverKind::Npc] {
        assert!(0 <= kind.load_distance() && kind.load_distance() < kind.unload_distance());
    }
    let mut w = world();
    // An NPC in chunk (4, 0) loads chunk (4, 0), which lies just outside the
    // player's load radius.
    w.tick(&observers(vec![player_at(0, 0)], None, vec![GlobalPos { q: 4 * 32, r: 0 }]));
    assert!(w.is_loaded(ChunkPos { x: 4, y: 0 }));
    assert!(w.is_loaded(ChunkPos { x: 5, y: 1 }));
    // The NPC leaves: the chunk stays, as it is inside the player's unload radius.
    w.tick(&observers(vec![player_at(0, 0)], None, vec![]));
    assert!(w.is_loaded(ChunkPos { x: 4, y: 0 }));
    assert!(w.is_loaded(ChunkPos { x: 5, y: 1 }));
    // A player alone does not load it.
    let mut fresh = world();
    fresh.tick(&observers(vec![player_at(0, 0)], None, vec![]));
    assert!(!fresh.is_loaded(ChunkPos { x: 4, y: 0 }));
}

#[test]
fn npc_unload_radius() {
    let mut w = world();
    w.tick(&observers(vec![], None, vec![GlobalPos { q: 0, r: 0 }]));
    assert_eq!(w.loaded_chunks().len(), 9);
    // Moved by two chunks: chunk (-1, 0) is at distance 3 and goes.
    w.tick(&observers(vec![], None, vec![GlobalPos { q: 64, r: 0 }]));
    assert!(!w.is_loaded(ChunkPos { x: -1, y: 0 }));
    assert!(w.is_loaded(ChunkPos { x: 0, y: 0 }));
    assert!(w.is_loaded(ChunkPos { x: 3, y: 1 }));
}

#[test]
fn camera_loads_and_missing_camera_asks_nothing() {
    let mut w = world();
    w.tick(&observers(vec![], Some(ChunkPos { x: -20, y: 7 }), vec![]));
    assert!(w.is_loaded(ChunkPos { x: -17, y: 10 }));
    assert_eq!(w.loaded_chunks().len(), 49);
    w.tick(&observers(vec![], None, vec![]));
    assert!(w.loaded_chunks().is_empty());
}

#[test]
fn charting_marks_range_and_never_forgets() {
    let mut w = world();
    let origin = ChunkPos { x: 0, y: 0 };
    w.tick(&observers(vec![player_at(0, 0)], None, vec![]));
    let tiles = w.chunk_tiles(origin).unwrap();
    // Tile k of a chunk is at local x = k / 32, y = k % 32.
    assert_eq!(tiles[0].visibility, TileVisibility::Visible);
    assert_eq!(tiles[5 * 32].visibility, TileVisibility::Visible);
    assert_eq!(tiles[6 * 32].visibility, TileVisibility::Unknown);
    assert_eq!(tiles[5].visibility, TileVisibility::Visible);
    assert_eq!(tiles[6].visibility, TileVisibility::Unknown);
    let visible = tiles.iter().filter(|t| t.visibility == TileVisibility::Visible).count();
    assert!(visible > 0 && visible <= 91);

    // The player moves three chunks away; chunk (0, 0) stays resident.
    w.tick(&observers(vec![player_at(96, 0)], None, vec![]));
    let later = w.chunk_tiles(origin).unwrap();
    assert_eq!(later[0].visibility, TileVisibility::Charted);
    for (before, after) in tiles.iter().zip(later.iter()) {
        if before.visibility != TileVisibility::Unknown {
            assert_ne!(after.visibility, TileVisibility::Unknown);
        }
        assert_eq!(before.kind, after.kind);
    }
}

#[test]
fn npc_only_chunk_stays_unknown() {
    let mut w = world();
    let far = ChunkPos { x: 20, y: 20 };
    w.tick(&observers(vec![player_at(0, 0)], None, vec![GlobalPos { q: 20 * 32 + 5, r: 20 * 32 + 5 }]));
    let tiles = w.chunk_tiles(far).unwrap();
    assert!(tiles.iter().all(|t| t.visibility == TileVisibility::Unknown));
    assert!(tiles.iter().all(|t| t.texture_index() == 0));
}

#[test]
fn tile_texture_index_follows_visibility() {
    let seen = Tile { kind: TileKind::Village, visibility: TileVisibility::Visible };
    let dim = Tile { kind: TileKind::Empty, visibility: TileVisibility::Charted };
    let unseen = Tile { kind: TileKind::Village, visibility: TileVisibility::Unknown };
    assert_eq!(seen.texture_index(), 2);
    assert_eq!(dim.texture_index(), 1);
    assert_eq!(unseen.texture_index(), 0);
}

#[test]
fn load_chunk_uses_cache() {
    let mut w = world();
    let p = ChunkPos { x: 7, y: -7 };
    assert!(!w.is_generated(p));
    assert!(w.load_chunk(p));
    assert!(!w.load_chunk(p));
    assert!(w.is_generated(p));
    let tiles = w.chunk_tiles(p).unwrap();
    assert_eq!(tiles.len(), 1024);
    assert!(tiles.iter().all(|t| t.visibility == TileVisibility::Unknown));
    assert_eq!(w.world_seed().seed, [0; 32]);
}

#[test]
fn reloaded_chunk_keeps_its_charting() {
    let mut w = world();
    let origin = ChunkPos { x: 0, y: 0 };
    w.tick(&observers(vec![player_at(0, 0)], None, vec![]));
    let first = w.chunk_tiles(origin).unwrap();
    assert_eq!(first[0].visibility, TileVisibility::Visible);
    w.tick(&observers(vec![player_at(3200, 0)], None, vec![]));
    assert!(!w.is_loaded(origin));
    // Back within load range but far from tile (0, 0): it is remembered as charted.
    w.tick(&observers(vec![player_at(96, 0)], None, vec![]));
    let again = w.chunk_tiles(origin).unwrap();
    assert_eq!(again[0].visibility, TileVisibility::Charted);
    for (before, after) in first.iter().zip(again.iter()) {
        assert_eq!(before.kind, after.kind);
        match before.visibility {
            TileVisibility::Unknown => assert_eq!(after.visibility, TileVisibility::Unknown),
            _ => assert_eq!(after.visibility, TileVisibility::Charted),
        }
    }
}

#[test]
fn npc_reloads_charted_chunk_without_showing_it() {
    let mut w = world();
    let origin = ChunkPos { x: 0, y: 0 };
    w.tick(&observers(vec![player_at(0, 0)], None, vec![]));
    // The player leaves; an NPC stays at the origin and keeps the chunk.
    w.tick(&observers(vec![player_at(3200, 0)], None, vec![GlobalPos { q: 0, r: 0 }]));
    let kept = w.chunk_tiles(origin).unwrap();
    assert_eq!(kept[0].visibility, TileVisibility::Charted);
    // The NPC leaves too, then comes back alone: tiles are charted or unknown, never visible.
    w.tick(&observers(vec![player_at(3200, 0)], None, vec![]));
    assert!(!w.is_loaded(origin));
    w.tick(&observers(vec![player_at(3200, 0)], None, vec![GlobalPos { q: 0, r: 0 }]));
    let tiles = w.chunk_tiles(origin).unwrap();
    assert_eq!(tiles[0].visibility, TileVisibility::Charted);
    assert!(tiles.iter().all(|t| t.visibility != TileVisibility::Visible));
    assert!(tiles.iter().any(|t| t.visibility == TileVisibility::Unknown));
}
