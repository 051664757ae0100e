//! The things that keep chunks resident: player vehicles, the camera and
//! NPCs, each class with its own load and unload radius.

use vstd::prelude::*;
use crate::coords::{chunk_and_local_from_global, chunk_of, in_radius, is_chunk_in_radius, lemma_chunk_of_bounds, ChunkPos, GlobalPos};

verus! {

/// Load radius of a player vehicle, in chunks.
pub const PLAYER_CHUNK_LOAD_DISTANCE: i32 = 3;
/// Unload radius of a player vehicle, in chunks.
pub const PLAYER_CHUNK_UNLOAD_DISTANCE: i32 = 5;
/// Load radius of the camera, in chunks.
pub const CAMERA_CHUNK_LOAD_DISTANCE: i32 = 3;
/// Unload radius of the camera, in chunks.
pub const CAMERA_CHUNK_UNLOAD_DISTANCE: i32 = 5;
/// Load radius of an NPC, in chunks.
pub const NPC_CHUNK_LOAD_DISTANCE: i32 = 1;
/// Unload radius of an NPC, in chunks.
pub const NPC_CHUNK_UNLOAD_DISTANCE: i32 = 2;

/// A class of observer.
#[derive(Clone, Copy, Debug, PartialEq, Eq, Hash, Structural)]
pub enum ObserverKind {
    Player,
    Camera,
    Npc,
}

/// The Chebyshev radius within which an observer of class `k` loads chunks.
pub open spec fn load_radius(k: ObserverKind) -> int {
    match k {
        ObserverKind::Player => PLAYER_CHUNK_LOAD_DISTANCE as int,
        ObserverKind::Camera => CAMERA_CHUNK_LOAD_DISTANCE as int,
        ObserverKind::Npc => NPC_CHUNK_LOAD_DISTANCE as int,
    }
}

/// The Chebyshev radius within which an observer of class `k` keeps chunks.
pub open spec fn unload_radius(k: ObserverKind) -> int {
    match k {
        ObserverKind::Player => PLAYER_CHUNK_UNLOAD_DISTANCE as int,
        ObserverKind::Camera => CAMERA_CHUNK_UNLOAD_DISTANCE as int,
        ObserverKind::Npc => NPC_CHUNK_UNLOAD_DISTANCE as int,
    }
}

impl ObserverKind {
    pub fn load_distance(self) -> (r: i32)
        ensures
            r == load_radius(self),
    {
        match self {
            ObserverKind::Player => PLAYER_CHUNK_LOAD_DISTANCE,
            ObserverKind::Camera => CAMERA_CHUNK_LOAD_DISTANCE,
            ObserverKind::Npc => NPC_CHUNK_LOAD_DISTANCE,
        }
    }

    pub fn unload_distance(self) -> (r: i32)
        ensures
            r == unload_radius(self),
    {
        match self {
            ObserverKind::Player => PLAYER_CHUNK_UNLOAD_DISTANCE,
            ObserverKind::Camera => CAMERA_CHUNK_UNLOAD_DISTANCE,
            ObserverKind::Npc => NPC_CHUNK_UNLOAD_DISTANCE,
        }
    }
}

/// A player vehicle: where it is, and the hex radius within which it sees
/// tiles.
#[derive(Clone, Copy, Debug, PartialEq, Eq, Structural)]
pub struct PlayerObserver {
    pub pos: GlobalPos,
    pub chart_range: u32,
}

/// Everything that drives loading during one tick. The camera may be
/// missing (early in start-up); it then asks for nothing.
pub struct Observers {
    pub players: Vec<PlayerObserver>,
    pub camera: Option<ChunkPos>,
    pub npcs: Vec<GlobalPos>,
}

/// Whether some center of `centers` lies within Chebyshev distance
/// `radius` of `c`.
pub open spec fn near_any(centers: Seq<ChunkPos>, c: ChunkPos, radius: int) -> bool {
    exists|i: int| 0 <= i < centers.len() && in_radius(#[trigger] centers[i], c, radius)
}

/// The chunks of the player vehicles.
pub open spec fn player_chunks(players: Seq<PlayerObserver>) -> Seq<ChunkPos> {
    players.map_values(|p: PlayerObserver| chunk_of(p.pos))
}

/// The chunks of the NPCs.
pub open spec fn npc_chunks(npcs: Seq<GlobalPos>) -> Seq<ChunkPos> {
    npcs.map_values(|g: GlobalPos| chunk_of(g))
}

/// The chunk of the camera, as a sequence of at most one center.
pub open spec fn camera_chunks(camera: Option<ChunkPos>) -> Seq<ChunkPos> {
    match camera {
        Some(c) => seq![c],
        None => Seq::empty(),
    }
}

impl Observers {
    /// Whether some observer wants chunk `c` loaded: it lies within the load
    /// radius of that observer's class.
    pub open spec fn load_demand(&self, c: ChunkPos) -> bool {
        near_any(player_chunks(self.players@), c, load_radius(ObserverKind::Player))
            || near_any(camera_chunks(self.camera), c, load_radius(ObserverKind::Camera))
            || near_any(npc_chunks(self.npcs@), c, load_radius(ObserverKind::Npc))
    }

    /// Whether some observer keeps chunk `c`: it lies within the unload
    /// radius of that observer's class.
    pub open spec fn keep_demand(&self, c: ChunkPos) -> bool {
        near_any(player_chunks(self.players@), c, unload_radius(ObserverKind::Player))
            || near_any(camera_chunks(self.camera), c, unload_radius(ObserverKind::Camera))
            || near_any(npc_chunks(self.npcs@), c, unload_radius(ObserverKind::Npc))
    }

    /// The camera's square of chunks fits in the coordinate range.
    pub open spec fn camera_fits(&self) -> bool {
        match self.camera {
            Some(c) => i32::MIN + CAMERA_CHUNK_UNLOAD_DISTANCE <= c.x <= i32::MAX - CAMERA_CHUNK_UNLOAD_DISTANCE
                && i32::MIN + CAMERA_CHUNK_UNLOAD_DISTANCE <= c.y <= i32::MAX - CAMERA_CHUNK_UNLOAD_DISTANCE,
            None => true,
        }
    }
}

/// Whether some center of `centers` lies within Chebyshev distance
/// `radius` of `c`.
pub fn is_near_any(centers: &Vec<ChunkPos>, c: ChunkPos, radius: i32) -> (r: bool)
    ensures
        r == near_any(centers@, c, radius as int),
{
    let mut i: usize = 0;
    while i < centers.len()
        invariant
            i <= centers@.len(),
            forall|j: int| 0 <= j < i ==> !in_radius(#[trigger] centers@[j], c, radius as int),
        decreases centers@.len() - i,
    {
        if is_chunk_in_radius(centers[i], c, radius) {
            return true;
        }
        i = i + 1;
    }
    false
}

/// The chunks that hold the given tiles, in order.
pub fn chunks_of(tiles: &Vec<GlobalPos>) -> (r: Vec<ChunkPos>)
    ensures
        r@ == tiles@.map_values(|g: GlobalPos| chunk_of(g)),
        forall|j: int| 0 <= j < r@.len() ==> {
            &&& -0x400_0000 <= (#[trigger] r@[j]).x <= 0x400_0000
            &&& -0x400_0000 <= r@[j].y <= 0x400_0000
        },
{
    let mut centers: Vec<ChunkPos> = Vec::new();
    let mut i: usize = 0;
    while i < tiles.len()
        invariant
            i <= tiles@.len(),
            centers@ == tiles@.map_values(|g: GlobalPos| chunk_of(g)).subrange(0, i as int),
            forall|j: int| 0 <= j < centers@.len() ==> {
                &&& -0x400_0000 <= (#[trigger] centers@[j]).x <= 0x400_0000
                &&& -0x400_0000 <= centers@[j].y <= 0x400_0000
            },
        decreases tiles@.len() - i,
    {
        let (chunk, _) = chunk_and_local_from_global(tiles[i]);
        proof { lemma_chunk_of_bounds(tiles@[i as int]); }
        centers.push(chunk);
        i = i + 1;
        proof {
            assert(centers@ =~= tiles@.map_values(|g: GlobalPos| chunk_of(g)).subrange(0, i as int));
        }
    }
    proof {
        assert(centers@ =~= tiles@.map_values(|g: GlobalPos| chunk_of(g)));
    }
    centers
}

/// The chunks of the player vehicles, in order.
pub fn player_centers(players: &Vec<PlayerObserver>) -> (r: Vec<ChunkPos>)
    ensures
        r@ == player_chunks(players@),
        forall|j: int| 0 <= j < r@.len() ==> {
            &&& -0x400_0000 <= (#[trigger] r@[j]).x <= 0x400_0000
            &&& -0x400_0000 <= r@[j].y <= 0x400_0000
        },
{
    let mut positions: Vec<GlobalPos> = Vec::new();
    let mut i: usize = 0;
    while i < players.len()
        invariant
            i <= players@.len(),
            positions@ == players@.map_values(|p: PlayerObserver| p.pos).subrange(0, i as int),
        decreases players@.len() - i,
    {
        positions.push(players[i].pos);
        i = i + 1;
        proof {
            assert(positions@ =~= players@.map_values(|p: PlayerObserver| p.pos).subrange(0, i as int));
        }
    }
    let r = chunks_of(&positions);
    proof {
        assert(positions@ =~= players@.map_values(|p: PlayerObserver| p.pos));
        assert(r@ =~= player_chunks(players@));
    }
    r
}

/// The camera's chunk, as a vector of at most one center.
pub fn camera_centers(camera: Option<ChunkPos>) -> (r: Vec<ChunkPos>)
    ensures
        r@ == camera_chunks(camera),
{
    let mut centers: Vec<ChunkPos> = Vec::new();
    match camera {
        Some(c) => centers.push(c),
        None => {},
    }
    proof {
        assert(centers@ =~= camera_chunks(camera));
    }
    centers
}

/// Every class of observer unloads strictly farther out than it loads, and
/// a chunk just outside an observer's load radius is still inside its
/// unload radius: such a chunk is not loaded by it, and not dropped on its
/// account either.
pub proof fn lemma_hysteresis(k: ObserverKind, origin: ChunkPos, target: ChunkPos)
    ensures
        0 <= load_radius(k) < unload_radius(k),
        in_radius(origin, target, load_radius(k)) ==> in_radius(origin, target, unload_radius(k)),
        ({
            let dx = target.x - origin.x;
            let dy = target.y - origin.y;
            let dist = if dx < 0 { -dx } else { dx };
            let dist = if dist < (if dy < 0 { -dy } else { dy }) { if dy < 0 { -dy } else { dy } } else { dist };
            dist == load_radius(k) + 1 ==> !in_radius(origin, target, load_radius(k)) && in_radius(origin, target, unload_radius(k))
        }),
{
}

/// Every chunk that some observer loads, some observer also keeps.
pub proof fn lemma_load_within_keep(obs: &Observers, c: ChunkPos)
    ensures
        obs.load_demand(c) ==> obs.keep_demand(c),
{
    let pc = player_chunks(obs.players@);
    let cc = camera_chunks(obs.camera);
    let nc = npc_chunks(obs.npcs@);
    if near_any(pc, c, load_radius(ObserverKind::Player)) {
        let i = choose|i: int| 0 <= i < pc.len() && in_radius(#[trigger] pc[i], c, load_radius(ObserverKind::Player));
        assert(in_radius(pc[i], c, unload_radius(ObserverKind::Player)));
    }
    if near_any(cc, c, load_radius(ObserverKind::Camera)) {
        let i = choose|i: int| 0 <= i < cc.len() && in_radius(#[trigger] cc[i], c, load_radius(ObserverKind::Camera));
        assert(in_radius(cc[i], c, unload_radius(ObserverKind::Camera)));
    }
    if near_any(nc, c, load_radius(ObserverKind::Npc)) {
        let i = choose|i: int| 0 <= i < nc.len() && in_radius(#[trigger] nc[i], c, load_radius(ObserverKind::Npc));
        assert(in_radius(nc[i], c, unload_radius(ObserverKind::Npc)));
    }
}

} // verus!
