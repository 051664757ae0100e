//! The streamed world: a cache that remembers every chunk generated so far
//! (its terrain, and what the player had charted of it when it was last
//! unloaded), and the set of chunks currently materialized, each with
//! per-tile kind and visibility.

use std::collections::{HashMap, HashSet};
use vstd::prelude::*;
use crate::coords::{chunk_key, chunk_key_of, lemma_chunk_key, hex_distance, hex_distance_between, in_radius, ChunkPos, GlobalPos, CHUNK_EDGE, CHUNK_TILES};
use crate::observers::{
    camera_centers, camera_chunks, chunks_of, lemma_load_within_keep, is_near_any, load_radius, near_any, npc_chunks, player_centers,
    player_chunks, ObserverKind, Observers, PlayerObserver, CAMERA_CHUNK_LOAD_DISTANCE,
    CAMERA_CHUNK_UNLOAD_DISTANCE, NPC_CHUNK_LOAD_DISTANCE, NPC_CHUNK_UNLOAD_DISTANCE, PLAYER_CHUNK_LOAD_DISTANCE,
    PLAYER_CHUNK_UNLOAD_DISTANCE,
};
use crate::terrain::{chunk_terrain, generate_chunk, valid_weights, TileKind, TileWeights, WorldSeed};


verus! {

broadcast use vstd::std_specs::hash::group_hash_axioms;

/// How visible a tile is to the player.
#[derive(Clone, Copy, Debug, PartialEq, Eq, Hash, Structural)]
pub enum TileVisibility {
    /// Within the player's chart range now.
    Visible,
    /// Seen before, out of range now.
    Charted,
    /// Never seen.
    Unknown,
}

/// One materialized tile.
#[derive(Clone, Copy, Debug, PartialEq, Eq, Structural)]
pub struct Tile {
    pub kind: TileKind,
    pub visibility: TileVisibility,
}

impl Tile {
    /// Index of the picture to draw: 0 while the tile is unknown, else the
    /// kind's own picture.
    pub fn texture_index(&self) -> (r: u32)
        ensures
            r == (if self.visibility == TileVisibility::Unknown { 0 } else { self.kind.spec_texture_index() }),
    {
        match self.visibility {
            TileVisibility::Unknown => 0,
            _ => self.kind.texture_index(),
        }
    }
}

/// A chunk that is resident, with its tiles in order `x * CHUNK_EDGE + y`.
pub struct LoadedChunk {
    pub pos: ChunkPos,
    pub tiles: Vec<Tile>,
}

/// The tiles of a chunk as the cache keeps them once the chunk is
/// unloaded: what was visible is now only charted.
pub open spec fn dimmed(tiles: Seq<Tile>) -> Seq<Tile> {
    tiles.map_values(
        |t: Tile| Tile {
            kind: t.kind,
            visibility: if t.visibility == TileVisibility::Visible { TileVisibility::Charted } else { t.visibility },
        },
    )
}

/// A stored set of tiles once the chunks of `loaded` outside `keep` have been
/// put back into it, dimmed.
pub open spec fn stash_map(
    stored: Map<ChunkPos, Seq<Tile>>,
    loaded: Map<ChunkPos, Seq<Tile>>,
    keep: spec_fn(ChunkPos) -> bool,
) -> Map<ChunkPos, Seq<Tile>> {
    Map::new(
        |c: ChunkPos| stored.contains_key(c),
        |c: ChunkPos| if loaded.contains_key(c) && !keep(c) { dimmed(loaded[c]) } else { stored[c] },
    )
}

/// Storing a chunk keeps every tile's kind, never makes a tile visible, and
/// never takes a tile back to unknown.
pub proof fn lemma_dimmed(tiles: Seq<Tile>, k: int)
    requires
        0 <= k < tiles.len(),
    ensures
        dimmed(tiles).len() == tiles.len(),
        kinds_of(dimmed(tiles)) == kinds_of(tiles),
        dimmed(tiles)[k].visibility != TileVisibility::Visible,
        tiles[k].visibility != TileVisibility::Unknown ==> dimmed(tiles)[k].visibility != TileVisibility::Unknown,
{
    assert(kinds_of(dimmed(tiles)) =~= kinds_of(tiles));
}

fn copy_tiles(v: &Vec<Tile>) -> (r: Vec<Tile>)
    ensures
        r@ == v@,
{
    let mut r: Vec<Tile> = Vec::new();
    let mut k: usize = 0;
    while k < v.len()
        invariant
            k <= v@.len(),
            r@ == v@.subrange(0, k as int),
        decreases v@.len() - k,
    {
        r.push(v[k]);
        k = k + 1;
        proof {
            assert(r@ =~= v@.subrange(0, k as int));
        }
    }
    proof {
        assert(r@ =~= v@);
    }
    r
}

fn dim_tiles(v: &Vec<Tile>) -> (r: Vec<Tile>)
    ensures
        r@ == dimmed(v@),
{
    let mut r: Vec<Tile> = Vec::new();
    let mut k: usize = 0;
    while k < v.len()
        invariant
            k <= v@.len(),
            r@ == dimmed(v@).subrange(0, k as int),
        decreases v@.len() - k,
    {
        let t = v[k];
        let visibility = match t.visibility {
            TileVisibility::Visible => TileVisibility::Charted,
            other => other,
        };
        r.push(Tile { kind: t.kind, visibility });
        k = k + 1;
        proof {
            assert(r@ =~= dimmed(v@).subrange(0, k as int));
        }
    }
    proof {
        assert(r@ =~= dimmed(v@));
    }
    r
}

fn fresh_from(kinds: &Vec<TileKind>) -> (r: Vec<Tile>)
    ensures
        r@ == fresh_tiles(kinds@),
{
    let mut r: Vec<Tile> = Vec::new();
    let mut k: usize = 0;
    while k < kinds.len()
        invariant
            k <= kinds@.len(),
            r@ == fresh_tiles(kinds@).subrange(0, k as int),
        decreases kinds@.len() - k,
    {
        r.push(Tile { kind: kinds[k], visibility: TileVisibility::Unknown });
        k = k + 1;
        proof {
            assert(r@ =~= fresh_tiles(kinds@).subrange(0, k as int));
        }
    }
    proof {
        assert(r@ =~= fresh_tiles(kinds@));
    }
    r
}

/// The tiles of a chunk as it is first materialized: the given kinds, none
/// of them seen yet.
pub open spec fn fresh_tiles(kinds: Seq<TileKind>) -> Seq<Tile> {
    kinds.map_values(|k: TileKind| Tile { kind: k, visibility: TileVisibility::Unknown })
}

/// The kinds of a sequence of tiles.
pub open spec fn kinds_of(tiles: Seq<Tile>) -> Seq<TileKind> {
    tiles.map_values(|t: Tile| t.kind)
}

/// The visibility of a tile after a charting step: seen tiles become
/// visible, visible tiles that are no longer seen become charted, and
/// everything else stays as it was.
pub open spec fn next_visibility(v: TileVisibility, seen: bool) -> TileVisibility {
    if seen {
        TileVisibility::Visible
    } else if v == TileVisibility::Visible {
        TileVisibility::Charted
    } else {
        v
    }
}

/// A charting step never takes a tile back to unknown.
pub proof fn lemma_visibility_monotone(v: TileVisibility, seen: bool)
    ensures
        v != TileVisibility::Unknown ==> next_visibility(v, seen) != TileVisibility::Unknown,
        next_visibility(v, seen) == TileVisibility::Visible <==> seen,
{
}

/// Charting never forgets: a tile of a resident chunk that is not unknown
/// before a charting step is not unknown after it, and a charting step
/// leaves the tile's kind alone.
pub proof fn lemma_chart_monotone(m: Map<ChunkPos, Seq<Tile>>, players: Seq<PlayerObserver>, c: ChunkPos, k: int)
    requires
        m.contains_key(c),
        0 <= k < m[c].len(),
    ensures
        chart_result(m, players).contains_key(c),
        chart_result(m, players)[c][k].kind == m[c][k].kind,
        m[c][k].visibility != TileVisibility::Unknown ==> chart_result(m, players)[c][k].visibility != TileVisibility::Unknown,
{
}

/// NPCs disclose nothing: a chunk that loading for NPCs brings in comes
/// with tiles that are unknown or charted (the cache never holds a visible
/// tile), and charting for the players turns a tile visible only where
/// some player sees it; so a tile of such a chunk that no player sees is
/// unknown or charted after charting.
pub proof fn lemma_npc_non_disclosure(before: ChunkWorld, npcs: Seq<GlobalPos>, players: Seq<PlayerObserver>, c: ChunkPos)
    requires
        before.wf(),
        !before.loaded().contains_key(c),
        near_any(npc_chunks(npcs), c, load_radius(ObserverKind::Npc)),
    ensures
        ({
            let after = chart_result(
                before.load_result(|p: ChunkPos| near_any(npc_chunks(npcs), p, load_radius(ObserverKind::Npc))),
                players,
            );
            &&& after.contains_key(c)
            &&& forall|k: int| 0 <= k < after[c].len() && !seen_by(players, tile_q(c, k), tile_r(c, k))
                ==> #[trigger] after[c][k].visibility != TileVisibility::Visible
        }),
{
}

/// Global `q` of tile `k` of chunk `c`.
pub open spec fn tile_q(c: ChunkPos, k: int) -> int {
    c.x * CHUNK_EDGE + k / CHUNK_EDGE as int
}

/// Global `r` of tile `k` of chunk `c`.
pub open spec fn tile_r(c: ChunkPos, k: int) -> int {
    c.y * CHUNK_EDGE + k % CHUNK_EDGE as int
}

/// Whether some player sees the tile `(q, r)`: it lies within that
/// player's chart range, counted in hex steps.
pub open spec fn seen_by(players: Seq<PlayerObserver>, q: int, r: int) -> bool {
    exists|i: int| 0 <= i < players.len()
        && hex_distance(q, r, (#[trigger] players[i]).pos.q as int, players[i].pos.r as int) <= players[i].chart_range
}

/// The tiles of chunk `c` after a charting step for `players`.
pub open spec fn charted_tiles(tiles: Seq<Tile>, c: ChunkPos, players: Seq<PlayerObserver>) -> Seq<Tile> {
    Seq::new(
        tiles.len(),
        |k: int| Tile {
            kind: tiles[k].kind,
            visibility: next_visibility(tiles[k].visibility, seen_by(players, tile_q(c, k), tile_r(c, k))),
        },
    )
}

/// A resident set after a charting step for `players`.
pub open spec fn chart_result(m: Map<ChunkPos, Seq<Tile>>, players: Seq<PlayerObserver>) -> Map<ChunkPos, Seq<Tile>> {
    Map::new(|c: ChunkPos| m.contains_key(c), |c: ChunkPos| charted_tiles(m[c], c, players))
}

/// A resident set once every chunk outside `keep` is dropped.
pub open spec fn unload_map(m: Map<ChunkPos, Seq<Tile>>, keep: spec_fn(ChunkPos) -> bool) -> Map<ChunkPos, Seq<Tile>> {
    Map::new(|c: ChunkPos| m.contains_key(c) && keep(c), |c: ChunkPos| m[c])
}

fn seen_by_exec(players: &Vec<PlayerObserver>, q: i64, r: i64) -> (b: bool)
    requires
        -0x20_0000_0000 <= q <= 0x20_0000_0000,
        -0x20_0000_0000 <= r <= 0x20_0000_0000,
    ensures
        b == seen_by(players@, q as int, r as int),
{
    let mut i: usize = 0;
    while i < players.len()
        invariant
            i <= players@.len(),
            -0x20_0000_0000 <= q <= 0x20_0000_0000,
            -0x20_0000_0000 <= r <= 0x20_0000_0000,
            forall|j: int| 0 <= j < i ==> hex_distance(q as int, r as int, (#[trigger] players@[j]).pos.q as int,
                players@[j].pos.r as int) > players@[j].chart_range,
        decreases players@.len() - i,
    {
        let p = players[i];
        let d = hex_distance_between(q, r, p.pos.q as i64, p.pos.r as i64);
        if d <= p.chart_range as i64 {
            return true;
        }
        i = i + 1;
    }
    false
}

fn chart_chunk(chunk: &LoadedChunk, players: &Vec<PlayerObserver>) -> (r: LoadedChunk)
    requires
        chunk.tiles@.len() == CHUNK_TILES,
    ensures
        r.pos == chunk.pos,
        r.tiles@ == charted_tiles(chunk.tiles@, chunk.pos, players@),
{
    let mut tiles: Vec<Tile> = Vec::new();
    let mut k: usize = 0;
    let base_q: i64 = chunk.pos.x as i64 * CHUNK_EDGE as i64;
    let base_r: i64 = chunk.pos.y as i64 * CHUNK_EDGE as i64;
    while k < CHUNK_TILES
        invariant
            k <= CHUNK_TILES,
            chunk.tiles@.len() == CHUNK_TILES,
            base_q == chunk.pos.x * CHUNK_EDGE,
            base_r == chunk.pos.y * CHUNK_EDGE,
            tiles@ == charted_tiles(chunk.tiles@, chunk.pos, players@).subrange(0, k as int),
        decreases CHUNK_TILES - k,
    {
        let t = chunk.tiles[k];
        let q = base_q + (k / 32) as i64;
        let r = base_r + (k % 32) as i64;
        let seen = seen_by_exec(players, q, r);
        let visibility = if seen {
            TileVisibility::Visible
        } else {
            match t.visibility {
                TileVisibility::Visible => TileVisibility::Charted,
                other => other,
            }
        };
        tiles.push(Tile { kind: t.kind, visibility });
        k = k + 1;
        proof {
            assert(tiles@ =~= charted_tiles(chunk.tiles@, chunk.pos, players@).subrange(0, k as int));
        }
    }
    proof {
        assert(tiles@ =~= charted_tiles(chunk.tiles@, chunk.pos, players@));
    }
    LoadedChunk { pos: chunk.pos, tiles }
}

spec fn loaded_has(s: Seq<LoadedChunk>, p: ChunkPos) -> bool {
    exists|i: int| 0 <= i < s.len() && (#[trigger] s[i]).pos == p
}

spec fn loaded_at(s: Seq<LoadedChunk>, p: ChunkPos) -> int {
    choose|i: int| 0 <= i < s.len() && (#[trigger] s[i]).pos == p
}

spec fn loaded_map(s: Seq<LoadedChunk>) -> Map<ChunkPos, Seq<Tile>> {
    Map::new(|p: ChunkPos| loaded_has(s, p), |p: ChunkPos| s[loaded_at(s, p)].tiles@)
}

spec fn loaded_unique(s: Seq<LoadedChunk>) -> bool {
    forall|i: int, j: int| 0 <= i < s.len() && 0 <= j < s.len() && (#[trigger] s[i]).pos == (#[trigger] s[j]).pos ==> i == j
}

proof fn lemma_loaded_entry(s: Seq<LoadedChunk>, i: int)
    requires
        loaded_unique(s),
        0 <= i < s.len(),
    ensures
        loaded_map(s).contains_key(s[i].pos),
        loaded_map(s)[s[i].pos] == s[i].tiles@,
{
    assert(loaded_has(s, s[i].pos));
    let j = loaded_at(s, s[i].pos);
    assert(s[j].pos == s[i].pos);
}

proof fn lemma_loaded_push(s: Seq<LoadedChunk>, c: LoadedChunk)
    requires
        loaded_unique(s),
        !loaded_has(s, c.pos),
    ensures
        loaded_unique(s.push(c)),
        loaded_map(s.push(c)) == loaded_map(s).insert(c.pos, c.tiles@),
        forall|q: ChunkPos| loaded_has(s.push(c), q) <==> loaded_has(s, q) || q == c.pos,
{
    let t = s.push(c);
    assert forall|i: int, j: int| 0 <= i < t.len() && 0 <= j < t.len() && (#[trigger] t[i]).pos == (#[trigger] t[j]).pos implies i == j by {
        if i < s.len() {
            assert(t[i] == s[i]);
        }
        if j < s.len() {
            assert(t[j] == s[j]);
        }
    }
    assert forall|q: ChunkPos| loaded_has(t, q) <==> loaded_has(s, q) || q == c.pos by {
        if loaded_has(s, q) {
            let i = choose|i: int| 0 <= i < s.len() && (#[trigger] s[i]).pos == q;
            assert(t[i] == s[i]);
        }
        if q == c.pos {
            assert(t[s.len() as int] == c);
        }
        if loaded_has(t, q) {
            let i = choose|i: int| 0 <= i < t.len() && (#[trigger] t[i]).pos == q;
            if i < s.len() {
                assert(t[i] == s[i]);
            }
        }
    }
    assert forall|q: ChunkPos| #[trigger] loaded_has(t, q) implies loaded_map(t)[q] == loaded_map(s).insert(c.pos, c.tiles@)[q] by {
        let i = loaded_at(t, q);
        lemma_loaded_entry(t, i);
        if q != c.pos {
            assert(i < s.len());
            assert(t[i] == s[i]);
            lemma_loaded_entry(s, i);
        } else {
            assert(t[s.len() as int] == c);
        }
    }
    assert(loaded_map(t) =~= loaded_map(s).insert(c.pos, c.tiles@));
}

fn keeps(obs: &Observers, pc: &Vec<ChunkPos>, cc: &Vec<ChunkPos>, nc: &Vec<ChunkPos>, c: ChunkPos) -> (r: bool)
    requires
        pc@ == player_chunks(obs.players@),
        cc@ == camera_chunks(obs.camera),
        nc@ == npc_chunks(obs.npcs@),
    ensures
        r == obs.keep_demand(c),
{
    is_near_any(pc, c, PLAYER_CHUNK_UNLOAD_DISTANCE) || is_near_any(cc, c, CAMERA_CHUNK_UNLOAD_DISTANCE)
        || is_near_any(nc, c, NPC_CHUNK_UNLOAD_DISTANCE)
}

/// Picks out the chunks whose position `obs` keeps; `idx` gives, for each
/// chunk picked, its index in `v`.
fn split_kept(v: Vec<LoadedChunk>, obs: &Observers, pc: &Vec<ChunkPos>, cc: &Vec<ChunkPos>, nc: &Vec<ChunkPos>)
    -> (r: (Vec<LoadedChunk>, Ghost<Seq<int>>))
    requires
        pc@ == player_chunks(obs.players@),
        cc@ == camera_chunks(obs.camera),
        nc@ == npc_chunks(obs.npcs@),
    ensures
        r.1@.len() == r.0@.len(),
        forall|i: int| 0 <= i < r.0@.len() ==> 0 <= #[trigger] r.1@[i] < v@.len() && r.0@[i] == v@[r.1@[i]]
            && obs.keep_demand(v@[r.1@[i]].pos),
        forall|i: int, k: int| 0 <= i < r.0@.len() && 0 <= k < r.0@.len() && #[trigger] r.1@[i] == #[trigger] r.1@[k] ==> i == k,
        forall|j: int| 0 <= j < v@.len() && obs.keep_demand(#[trigger] v@[j].pos)
            ==> exists|i: int| 0 <= i < r.0@.len() && r.1@[i] == j,
{
    let ghost s0 = v@;
    let mut rest = v;
    let mut kept: Vec<LoadedChunk> = Vec::new();
    let ghost mut idx: Seq<int> = Seq::empty();
    while rest.len() > 0
        invariant
            pc@ == player_chunks(obs.players@),
            cc@ == camera_chunks(obs.camera),
            nc@ == npc_chunks(obs.npcs@),
            rest@.len() <= s0.len(),
            rest@ == s0.subrange(0, rest@.len() as int),
            idx.len() == kept@.len(),
            forall|i: int| 0 <= i < kept@.len() ==> rest@.len() <= #[trigger] idx[i] < s0.len()
                && kept@[i] == s0[idx[i]] && obs.keep_demand(s0[idx[i]].pos),
            forall|i: int, k: int| 0 <= i < kept@.len() && 0 <= k < kept@.len() && #[trigger] idx[i] == #[trigger] idx[k] ==> i == k,
            forall|j: int| rest@.len() <= j < s0.len() && obs.keep_demand(#[trigger] s0[j].pos)
                ==> exists|i: int| 0 <= i < kept@.len() && idx[i] == j,
        decreases rest@.len(),
    {
        let ghost n = rest@.len() - 1;
        let ghost idx0 = idx;
        let ghost kept0 = kept@;
        match rest.pop() {
            Some(chunk) => {
                let keep = keeps(obs, pc, cc, nc, chunk.pos);
                proof {
                    assert(chunk == s0[n]);
                    assert(rest@ =~= s0.subrange(0, rest@.len() as int));
                }
                if keep {
                    kept.push(chunk);
                    proof {
                        idx = idx0.push(n);
                        assert forall|i: int| 0 <= i < kept@.len() implies rest@.len() <= #[trigger] idx[i] < s0.len()
                            && kept@[i] == s0[idx[i]] && obs.keep_demand(s0[idx[i]].pos) by {
                            if i < kept0.len() {
                                assert(kept@[i] == kept0[i]);
                                assert(idx[i] == idx0[i]);
                            }
                        }
                        assert forall|i: int, k: int| 0 <= i < kept@.len() && 0 <= k < kept@.len() && #[trigger] idx[i] == #[trigger] idx[k] implies i == k by {
                            if i < kept0.len() && k < kept0.len() {
                                assert(idx[i] == idx0[i] && idx[k] == idx0[k]);
                            } else if i < kept0.len() {
                                assert(idx[i] == idx0[i]);
                            } else if k < kept0.len() {
                                assert(idx[k] == idx0[k]);
                            }
                        }
                        assert forall|j: int| rest@.len() <= j < s0.len() && obs.keep_demand(#[trigger] s0[j].pos)
                            implies exists|i: int| 0 <= i < kept@.len() && idx[i] == j by {
                            if j == n {
                                assert(idx[kept@.len() - 1] == j);
                            } else {
                                let i = choose|i: int| 0 <= i < kept0.len() && idx0[i] == j;
                                assert(idx[i] == j);
                            }
                        }
                    }
                } else {
                    proof {
                        assert forall|j: int| rest@.len() <= j < s0.len() && obs.keep_demand(#[trigger] s0[j].pos)
                            implies exists|i: int| 0 <= i < kept@.len() && idx[i] == j by {
                            assert(j != n);
                        }
                    }
                }
            },
            None => {},
        }
    }
    (kept, Ghost(idx))
}

/// The chunks picked from `s0` by `split_kept` form the part of `s0` that
/// `keep` holds.
proof fn lemma_kept_map(s0: Seq<LoadedChunk>, k: Seq<LoadedChunk>, idx: Seq<int>, keep: spec_fn(ChunkPos) -> bool)
    requires
        loaded_unique(s0),
        idx.len() == k.len(),
        forall|i: int| 0 <= i < k.len() ==> 0 <= #[trigger] idx[i] < s0.len() && k[i] == s0[idx[i]] && keep(s0[idx[i]].pos),
        forall|i: int, j: int| 0 <= i < k.len() && 0 <= j < k.len() && #[trigger] idx[i] == #[trigger] idx[j] ==> i == j,
        forall|j: int| 0 <= j < s0.len() && keep(#[trigger] s0[j].pos) ==> exists|i: int| 0 <= i < k.len() && idx[i] == j,
    ensures
        loaded_unique(k),
        loaded_map(k) == Map::new(|c: ChunkPos| loaded_map(s0).contains_key(c) && keep(c), |c: ChunkPos| loaded_map(s0)[c]),
{
    assert forall|i: int, j: int| 0 <= i < k.len() && 0 <= j < k.len() && (#[trigger] k[i]).pos == (#[trigger] k[j]).pos implies i == j by {
        assert(s0[idx[i]].pos == s0[idx[j]].pos);
        assert(idx[i] == idx[j]);
    }
    assert forall|c: ChunkPos| loaded_has(k, c) <==> loaded_has(s0, c) && keep(c) by {
        if loaded_has(k, c) {
            let i = choose|i: int| 0 <= i < k.len() && (#[trigger] k[i]).pos == c;
            assert(s0[idx[i]].pos == c);
        }
        if loaded_has(s0, c) && keep(c) {
            let j = choose|j: int| 0 <= j < s0.len() && (#[trigger] s0[j]).pos == c;
            let i = choose|i: int| 0 <= i < k.len() && idx[i] == j;
            assert(k[i].pos == c);
        }
    }
    assert forall|c: ChunkPos| #[trigger] loaded_has(k, c) implies loaded_map(k)[c] == loaded_map(s0)[c] by {
        let i = loaded_at(k, c);
        lemma_loaded_entry(k, i);
        lemma_loaded_entry(s0, idx[i]);
    }
    assert(loaded_map(k) =~= Map::new(|c: ChunkPos| loaded_map(s0).contains_key(c) && keep(c), |c: ChunkPos| loaded_map(s0)[c]));
}

/// The keys of the chunks of `v`.
fn resident_keys(v: &Vec<LoadedChunk>) -> (r: HashSet<i64>)
    ensures
        forall|c: ChunkPos| #![trigger r@.contains(chunk_key(c) as i64)] #![trigger loaded_has(v@, c)]
            r@.contains(chunk_key(c) as i64) <==> loaded_has(v@, c),
{
    let mut r: HashSet<i64> = HashSet::new();
    let mut i: usize = 0;
    while i < v.len()
        invariant
            i <= v@.len(),
            forall|c: ChunkPos| #![trigger r@.contains(chunk_key(c) as i64)]
                r@.contains(chunk_key(c) as i64) <==> loaded_has(v@.subrange(0, i as int), c),
        decreases v@.len() - i,
    {
        let pos = v[i].pos;
        let ghost r0 = r@;
        r.insert(chunk_key_of(pos));
        proof {
            let prev = v@.subrange(0, i as int);
            let next = v@.subrange(0, i + 1);
            assert forall|c: ChunkPos| #![trigger r@.contains(chunk_key(c) as i64)]
                r@.contains(chunk_key(c) as i64) <==> loaded_has(next, c) by {
                lemma_chunk_key(c, pos);
                lemma_chunk_key(c, c);
                lemma_chunk_key(pos, pos);
                assert(r0.contains(chunk_key(c) as i64) <==> loaded_has(prev, c));
                if loaded_has(next, c) {
                    let j = choose|j: int| 0 <= j < i + 1 && (#[trigger] next[j]).pos == c;
                    if j < i {
                        assert(prev[j] == next[j]);
                    }
                }
                if loaded_has(prev, c) {
                    let j = choose|j: int| 0 <= j < i && (#[trigger] prev[j]).pos == c;
                    assert(next[j] == prev[j]);
                }
                if c == pos {
                    assert(next[i as int].pos == pos);
                }
            }
        }
        i = i + 1;
    }
    proof {
        assert(v@.subrange(0, v@.len() as int) == v@);
    }
    r
}

/// The world as the streaming core sees it: seed and weight table, the cache
/// of generated chunks (keyed by `chunk_key`), and the chunks that are
/// resident now: their tiles in a vector, which every tick walks whole, and
/// their keys in a set, which answers whether a chunk is resident.
pub struct ChunkWorld {
    seed: WorldSeed,
    weights: TileWeights,
    cache: HashMap<i64, Vec<Tile>>,
    loaded: Vec<LoadedChunk>,
    resident: HashSet<i64>,
}

impl ChunkWorld {
    /// The world seed.
    pub closed spec fn seed(self) -> Seq<u8> {
        self.seed.seed@
    }

    /// The kinds of the weight table.
    pub closed spec fn table_kinds(self) -> Seq<TileKind> {
        self.weights.kinds()
    }

    /// The weights of the weight table.
    pub closed spec fn table_weights(self) -> Seq<u32> {
        self.weights.weights()
    }

    /// The terrain that this world generates for chunk `c`.
    pub open spec fn terrain(self, c: ChunkPos) -> Seq<TileKind> {
        chunk_terrain(self.seed(), self.table_kinds(), self.table_weights(), c)
    }

    /// The resident chunks and their tiles.
    pub closed spec fn loaded(self) -> Map<ChunkPos, Seq<Tile>> {
        loaded_map(self.loaded@)
    }

    /// The cache: every chunk generated so far, with its tiles as they were
    /// generated or, for a chunk unloaded since, as they were when it was
    /// last unloaded (dimmed).
    pub closed spec fn stored(self) -> Map<ChunkPos, Seq<Tile>> {
        Map::new(
            |c: ChunkPos| self.cache@.contains_key(chunk_key(c) as i64),
            |c: ChunkPos| self.cache@[chunk_key(c) as i64]@,
        )
    }

    /// The terrain of every chunk generated so far.
    pub open spec fn generated(self) -> Map<ChunkPos, Seq<TileKind>> {
        Map::new(|c: ChunkPos| self.stored().contains_key(c), |c: ChunkPos| kinds_of(self.stored()[c]))
    }

    /// The tiles chunk `c` gets when it is loaded: the stored ones if it was
    /// generated before, else its terrain with every tile unknown.
    pub open spec fn restored(self, c: ChunkPos) -> Seq<Tile> {
        if self.stored().contains_key(c) {
            self.stored()[c]
        } else {
            fresh_tiles(self.terrain(c))
        }
    }

    /// What the world holds of chunk `c`: its tiles if it is resident, else
    /// the tiles it would be loaded with.
    pub open spec fn knowledge(self, c: ChunkPos) -> Seq<Tile> {
        if self.loaded().contains_key(c) {
            self.loaded()[c]
        } else {
            self.restored(c)
        }
    }

    /// Both worlds have the same seed and weight table, hence the same
    /// terrain for every chunk.
    pub open spec fn same_source(self, other: ChunkWorld) -> bool {
        self.seed() == other.seed() && self.table_kinds() == other.table_kinds()
            && self.table_weights() == other.table_weights()
    }

    /// The resident set after every chunk of `area` has been loaded: chunks
    /// already resident keep their tiles; the others come from the cache,
    /// or fresh from their terrain, all unknown.
    pub open spec fn load_result(self, area: spec_fn(ChunkPos) -> bool) -> Map<ChunkPos, Seq<Tile>> {
        Map::new(|c: ChunkPos| self.loaded().contains_key(c) || area(c), |c: ChunkPos| self.knowledge(c))
    }

    /// The cache after every chunk of `area` has been loaded: what was cached
    /// before, and the fresh tiles of every chunk of `area` generated now.
    pub open spec fn store_result(self, area: spec_fn(ChunkPos) -> bool) -> Map<ChunkPos, Seq<Tile>> {
        Map::new(|c: ChunkPos| self.stored().contains_key(c) || area(c), |c: ChunkPos| self.restored(c))
    }

    /// The resident set once every chunk outside `keep` is dropped; the
    /// chunks that stay keep their tiles.
    pub open spec fn unload_result(self, keep: spec_fn(ChunkPos) -> bool) -> Map<ChunkPos, Seq<Tile>> {
        Map::new(|c: ChunkPos| self.loaded().contains_key(c) && keep(c), |c: ChunkPos| self.loaded()[c])
    }

    /// The world's invariant: one entry per resident chunk, every resident
    /// chunk also cached, and every chunk's tiles of the kinds that
    /// generation gives for it.
    pub closed spec fn wf(self) -> bool {
        &&& valid_weights(self.weights.weights())
        &&& self.weights.kinds().len() == self.weights.weights().len()
        &&& loaded_unique(self.loaded@)
        &&& forall|c: ChunkPos| #![trigger self.resident@.contains(chunk_key(c) as i64)] #![trigger loaded_has(self.loaded@, c)]
            self.resident@.contains(chunk_key(c) as i64) <==> loaded_has(self.loaded@, c)
        &&& forall|c: ChunkPos| #[trigger] self.stored().contains_key(c) ==> self.stored()[c].len() == CHUNK_TILES
            && kinds_of(self.stored()[c]) == self.terrain(c)
        &&& forall|i: int| 0 <= i < self.loaded@.len() ==> {
            &&& (#[trigger] self.loaded@[i]).tiles@.len() == CHUNK_TILES
            &&& kinds_of(self.loaded@[i].tiles@) == self.terrain(self.loaded@[i].pos)
            &&& self.stored().contains_key(self.loaded@[i].pos)
        }
    }

    /// Every cached and every resident chunk has the terrain that generation
    /// gives for it, and every resident chunk is cached.
    pub proof fn lemma_wf(self)
        requires
            self.wf(),
        ensures
            valid_weights(self.table_weights()),
            forall|c: ChunkPos| #[trigger] self.stored().contains_key(c) ==> self.stored()[c].len() == CHUNK_TILES
                && kinds_of(self.stored()[c]) == self.terrain(c),
            forall|c: ChunkPos| #[trigger] self.generated().contains_key(c) ==> self.generated()[c] == self.terrain(c),
            forall|c: ChunkPos| #[trigger] self.loaded().contains_key(c) ==> kinds_of(self.loaded()[c]) == self.terrain(c)
                && self.loaded()[c].len() == CHUNK_TILES && self.stored().contains_key(c),
    {
        assert forall|c: ChunkPos| #[trigger] self.loaded().contains_key(c) implies kinds_of(self.loaded()[c]) == self.terrain(c)
            && self.loaded()[c].len() == CHUNK_TILES && self.stored().contains_key(c) by {
            let i = loaded_at(self.loaded@, c);
            lemma_loaded_entry(self.loaded@, i);
        }
    }

    /// An empty world: nothing generated, nothing resident.
    pub fn new(seed: WorldSeed, weights: TileWeights) -> (r: ChunkWorld)
        ensures
            r.wf(),
            r.seed() == seed.seed@,
            r.table_kinds() == weights.kinds(),
            r.table_weights() == weights.weights(),
            r.loaded() == Map::<ChunkPos, Seq<Tile>>::empty(),
            r.stored() == Map::<ChunkPos, Seq<Tile>>::empty(),
    {
        // Reading the total brings in the table's invariant: its weights are valid.
        let _total = weights.total_weight();
        let r = ChunkWorld { seed, weights, cache: HashMap::new(), loaded: Vec::new(), resident: HashSet::new() };
        proof {
            assert(r.loaded() =~= Map::<ChunkPos, Seq<Tile>>::empty());
            assert(r.stored() =~= Map::<ChunkPos, Seq<Tile>>::empty());
        }
        r
    }

    fn find_loaded(&self, p: ChunkPos) -> (r: Option<usize>)
        ensures
            match r {
                Some(i) => i < self.loaded@.len() && self.loaded@[i as int].pos == p,
                None => !loaded_has(self.loaded@, p),
            },
    {
        let mut i: usize = 0;
        while i < self.loaded.len()
            invariant
                i <= self.loaded@.len(),
                forall|j: int| 0 <= j < i ==> (#[trigger] self.loaded@[j]).pos != p,
            decreases self.loaded@.len() - i,
        {
            if self.loaded[i].pos == p {
                return Some(i);
            }
            i = i + 1;
        }
        None
    }

    /// Whether chunk `p` is resident.
    pub fn is_loaded(&self, p: ChunkPos) -> (r: bool)
        requires
            self.wf(),
        ensures
            r == self.loaded().contains_key(p),
    {
        proof { lemma_chunk_key(p, p); }
        self.resident.contains(&chunk_key_of(p))
    }

    /// Materializes chunk `p` unless it is resident already. Its tiles come
    /// from the cache, as they were when the chunk was last unloaded; on a
    /// miss the terrain is generated, stored, and every tile starts unknown.
    /// Returns whether the chunk was newly materialized.
    pub fn load_chunk(&mut self, p: ChunkPos) -> (r: bool)
        requires
            old(self).wf(),
        ensures
            final(self).wf(),
            final(self).same_source(*old(self)),
            r == !old(self).loaded().contains_key(p),
            final(self).loaded() == old(self).load_result(|c: ChunkPos| c == p),
            final(self).stored() == old(self).store_result(|c: ChunkPos| c == p),
    {
        proof {
            self.lemma_wf();
            lemma_chunk_key(p, p);
        }
        let key = chunk_key_of(p);
        if self.resident.contains(&key) {
            proof {
                assert(self.loaded() =~= self.load_result(|c: ChunkPos| c == p));
                assert(self.stored() =~= self.store_result(|c: ChunkPos| c == p));
            }
            false
        } else {
                let ghost w0 = *self;
                proof {
                    assert(!self.loaded().contains_key(p));
                }
                let found: Option<Vec<Tile>> = match self.cache.get(&key) {
                    Some(v) => Some(copy_tiles(v)),
                    None => None,
                };
                let tiles = match found {
                    Some(t) => {
                        proof {
                            assert(w0.stored().contains_key(p));
                            assert(self.stored() =~= w0.store_result(|c: ChunkPos| c == p));
                        }
                        t
                    },
                    None => {
                        proof {
                            assert(!w0.stored().contains_key(p));
                        }
                        let kinds = generate_chunk(&self.seed, &self.weights, p);
                        let fresh = fresh_from(&kinds);
                        let stored_copy = copy_tiles(&fresh);
                        self.cache.insert(key, stored_copy);
                        proof {
                            assert forall|c: ChunkPos| #[trigger] self.stored().contains_key(c) == w0.store_result(|c: ChunkPos| c == p).contains_key(c)
                                && (self.stored().contains_key(c) ==> self.stored()[c] == w0.store_result(|c: ChunkPos| c == p)[c]) by {
                                lemma_chunk_key(c, p);
                                lemma_chunk_key(c, c);
                            }
                            assert(self.stored() =~= w0.store_result(|c: ChunkPos| c == p));
                        }
                        fresh
                    },
                };
                proof {
                    assert(tiles@ == w0.restored(p));
                    assert(kinds_of(tiles@) =~= w0.terrain(p)) by {
                        if !w0.stored().contains_key(p) {
                            assert(kinds_of(fresh_tiles(w0.terrain(p))) =~= w0.terrain(p));
                        }
                    }
                }
                let ghost before = self.loaded@;
                let chunk = LoadedChunk { pos: p, tiles };
                self.loaded.push(chunk);
                self.resident.insert(key);
                proof {
                    lemma_loaded_push(before, chunk);
                    assert forall|c: ChunkPos| #![trigger self.resident@.contains(chunk_key(c) as i64)] #![trigger loaded_has(self.loaded@, c)]
                        self.resident@.contains(chunk_key(c) as i64) <==> loaded_has(self.loaded@, c) by {
                        lemma_chunk_key(c, p);
                        lemma_chunk_key(c, c);
                        assert(w0.resident@.contains(chunk_key(c) as i64) <==> loaded_has(before, c));
                    }
                    assert(self.loaded@ == before.push(chunk));
                    assert forall|i: int| 0 <= i < self.loaded@.len() implies {
                        &&& (#[trigger] self.loaded@[i]).tiles@.len() == CHUNK_TILES
                        &&& kinds_of(self.loaded@[i].tiles@) == self.terrain(self.loaded@[i].pos)
                        &&& self.stored().contains_key(self.loaded@[i].pos)
                    } by {
                        if i < before.len() {
                            assert(self.loaded@[i] == before[i]);
                        } else {
                            assert(kinds_of(tiles@).len() == tiles@.len());
                        }
                    }
                    assert(self.loaded() =~= w0.load_result(|c: ChunkPos| c == p));
                }
                true
        }
    }

    /// Loads every chunk within Chebyshev distance `radius` of `center`.
    pub fn load_around(&mut self, center: ChunkPos, radius: i32)
        requires
            old(self).wf(),
            0 <= radius,
            i32::MIN <= center.x - radius,
            center.x + radius <= i32::MAX,
            i32::MIN <= center.y - radius,
            center.y + radius <= i32::MAX,
        ensures
            final(self).wf(),
            final(self).same_source(*old(self)),
            final(self).loaded() == old(self).load_result(|c: ChunkPos| in_radius(center, c, radius as int)),
            final(self).stored() == old(self).store_result(|c: ChunkPos| in_radius(center, c, radius as int)),
    {
        let ghost w0 = *self;
        let cx = center.x as i64;
        let cy = center.y as i64;
        let rad = radius as i64;
        let mut x: i64 = cx - rad;
        proof {
            assert(self.loaded() =~= w0.load_result(|c: ChunkPos| in_radius(center, c, radius as int) && c.x < x));
            assert(self.stored() =~= w0.store_result(|c: ChunkPos| in_radius(center, c, radius as int) && c.x < x));
        }
        while x <= cx + rad
            invariant
                self.wf(),
                w0.wf(),
                self.same_source(w0),
                cx == center.x,
                cy == center.y,
                rad == radius,
                0 <= radius,
                i32::MIN <= center.x - radius,
                center.x + radius <= i32::MAX,
                i32::MIN <= center.y - radius,
                center.y + radius <= i32::MAX,
                cx - rad <= x <= cx + rad + 1,
                self.loaded() == w0.load_result(|c: ChunkPos| in_radius(center, c, radius as int) && c.x < x),
                self.stored() == w0.store_result(|c: ChunkPos| in_radius(center, c, radius as int) && c.x < x),
            decreases cx + rad + 1 - x,
        {
            let mut y: i64 = cy - rad;
            proof {
                assert(self.loaded() =~= w0.load_result(|c: ChunkPos| in_radius(center, c, radius as int) && (c.x < x || (c.x == x && c.y < y))));
                assert(self.stored() =~= w0.store_result(|c: ChunkPos| in_radius(center, c, radius as int) && (c.x < x || (c.x == x && c.y < y))));
            }
            while y <= cy + rad
                invariant
                    self.wf(),
                    w0.wf(),
                    self.same_source(w0),
                    cx == center.x,
                    cy == center.y,
                    rad == radius,
                    0 <= radius,
                    i32::MIN <= center.y - radius,
                    center.y + radius <= i32::MAX,
                    cx - rad <= x <= cx + rad,
                    i32::MIN <= x <= i32::MAX,
                    cy - rad <= y <= cy + rad + 1,
                    self.loaded() == w0.load_result(|c: ChunkPos| in_radius(center, c, radius as int) && (c.x < x || (c.x == x && c.y < y))),
                    self.stored() == w0.store_result(|c: ChunkPos| in_radius(center, c, radius as int) && (c.x < x || (c.x == x && c.y < y))),
                decreases cy + rad + 1 - y,
            {
                let p = ChunkPos { x: x as i32, y: y as i32 };
                self.load_chunk(p);
                proof {
                    w0.lemma_wf();
                    assert(self.loaded() =~= w0.load_result(|c: ChunkPos| in_radius(center, c, radius as int) && (c.x < x || (c.x == x && c.y < y + 1))));
                    assert(self.stored() =~= w0.store_result(|c: ChunkPos| in_radius(center, c, radius as int) && (c.x < x || (c.x == x && c.y < y + 1))));
                }
                y = y + 1;
            }
            proof {
                assert(self.loaded() =~= w0.load_result(|c: ChunkPos| in_radius(center, c, radius as int) && c.x < x + 1));
                assert(self.stored() =~= w0.store_result(|c: ChunkPos| in_radius(center, c, radius as int) && c.x < x + 1));
            }
            x = x + 1;
        }
        proof {
            assert(self.loaded() =~= w0.load_result(|c: ChunkPos| in_radius(center, c, radius as int)));
            assert(self.stored() =~= w0.store_result(|c: ChunkPos| in_radius(center, c, radius as int)));
        }
    }

    /// Loading `a` and then `b` leaves what loading both at once leaves.
    proof fn lemma_load_compose(w0: ChunkWorld, w1: ChunkWorld, a: spec_fn(ChunkPos) -> bool, b: spec_fn(ChunkPos) -> bool)
        requires
            w0.wf(),
            w1.same_source(w0),
            w1.loaded() == w0.load_result(a),
            w1.stored() == w0.store_result(a),
        ensures
            w1.load_result(b) == w0.load_result(|c: ChunkPos| a(c) || b(c)),
            w1.store_result(b) == w0.store_result(|c: ChunkPos| a(c) || b(c)),
    {
        assert(w1.load_result(b) =~= w0.load_result(|c: ChunkPos| a(c) || b(c)));
        assert(w1.store_result(b) =~= w0.store_result(|c: ChunkPos| a(c) || b(c)));
    }

    /// Loads every chunk within Chebyshev distance `radius` of some center.
    fn load_all(&mut self, centers: &Vec<ChunkPos>, radius: i32)
        requires
            old(self).wf(),
            0 <= radius,
            forall|i: int| 0 <= i < centers@.len() ==> {
                &&& i32::MIN <= (#[trigger] centers@[i]).x - radius
                &&& centers@[i].x + radius <= i32::MAX
                &&& i32::MIN <= centers@[i].y - radius
                &&& centers@[i].y + radius <= i32::MAX
            },
        ensures
            final(self).wf(),
            final(self).same_source(*old(self)),
            final(self).loaded() == old(self).load_result(|c: ChunkPos| near_any(centers@, c, radius as int)),
            final(self).stored() == old(self).store_result(|c: ChunkPos| near_any(centers@, c, radius as int)),
    {
        let ghost w0 = *self;
        let mut i: usize = 0;
        proof {
            assert(self.loaded() =~= w0.load_result(|c: ChunkPos| near_any(centers@.subrange(0, 0), c, radius as int)));
            assert(self.stored() =~= w0.store_result(|c: ChunkPos| near_any(centers@.subrange(0, 0), c, radius as int)));
        }
        while i < centers.len()
            invariant
                self.wf(),
                w0.wf(),
                self.same_source(w0),
                0 <= radius,
                i <= centers@.len(),
                forall|j: int| 0 <= j < centers@.len() ==> {
                    &&& i32::MIN <= (#[trigger] centers@[j]).x - radius
                    &&& centers@[j].x + radius <= i32::MAX
                    &&& i32::MIN <= centers@[j].y - radius
                    &&& centers@[j].y + radius <= i32::MAX
                },
                self.loaded() == w0.load_result(|c: ChunkPos| near_any(centers@.subrange(0, i as int), c, radius as int)),
                self.stored() == w0.store_result(|c: ChunkPos| near_any(centers@.subrange(0, i as int), c, radius as int)),
            decreases centers@.len() - i,
        {
            let center = centers[i];
            let ghost w1 = *self;
            self.load_around(center, radius);
            proof {
                let a = |c: ChunkPos| near_any(centers@.subrange(0, i as int), c, radius as int);
                let b = |c: ChunkPos| in_radius(center, c, radius as int);
                Self::lemma_load_compose(w0, w1, a, b);
                let next = centers@.subrange(0, i + 1);
                assert forall|c: ChunkPos| near_any(next, c, radius as int) <==> (a(c) || b(c)) by {
                    let prev = centers@.subrange(0, i as int);
                    if near_any(prev, c, radius as int) {
                        let j = choose|j: int| 0 <= j < prev.len() && in_radius(#[trigger] prev[j], c, radius as int);
                        assert(next[j] == prev[j]);
                    }
                    if b(c) {
                        assert(next[i as int] == center);
                    }
                    if near_any(next, c, radius as int) {
                        let j = choose|j: int| 0 <= j < next.len() && in_radius(#[trigger] next[j], c, radius as int);
                        if j < i {
                            assert(next[j] == prev[j]);
                        }
                    }
                }
                assert(self.loaded() =~= w0.load_result(|c: ChunkPos| near_any(next, c, radius as int)));
                assert(self.stored() =~= w0.store_result(|c: ChunkPos| near_any(next, c, radius as int)));
            }
            i = i + 1;
        }
        proof {
            assert(centers@.subrange(0, centers@.len() as int) == centers@);
        }
    }

    /// Loads every chunk within the player load radius of some player vehicle.
    pub fn load_chunks_player(&mut self, players: &Vec<PlayerObserver>)
        requires
            old(self).wf(),
        ensures
            final(self).wf(),
            final(self).same_source(*old(self)),
            final(self).loaded() == old(self).load_result(
                |c: ChunkPos| near_any(player_chunks(players@), c, load_radius(ObserverKind::Player)),
            ),
            final(self).stored() == old(self).store_result(
                |c: ChunkPos| near_any(player_chunks(players@), c, load_radius(ObserverKind::Player)),
            ),
    {
        let centers = player_centers(players);
        self.load_all(&centers, PLAYER_CHUNK_LOAD_DISTANCE);
    }

    /// Loads every chunk within the NPC load radius of some NPC.
    pub fn load_chunks_npc(&mut self, npcs: &Vec<GlobalPos>)
        requires
            old(self).wf(),
        ensures
            final(self).wf(),
            final(self).same_source(*old(self)),
            final(self).loaded() == old(self).load_result(
                |c: ChunkPos| near_any(npc_chunks(npcs@), c, load_radius(ObserverKind::Npc)),
            ),
            final(self).stored() == old(self).store_result(
                |c: ChunkPos| near_any(npc_chunks(npcs@), c, load_radius(ObserverKind::Npc)),
            ),
    {
        let centers = chunks_of(npcs);
        self.load_all(&centers, NPC_CHUNK_LOAD_DISTANCE);
    }

    /// Loads every chunk within the camera load radius of the camera, if
    /// there is one.
    pub fn load_chunks_camera(&mut self, camera: Option<ChunkPos>)
        requires
            old(self).wf(),
            match camera {
                Some(c) => i32::MIN + CAMERA_CHUNK_LOAD_DISTANCE <= c.x <= i32::MAX - CAMERA_CHUNK_LOAD_DISTANCE
                    && i32::MIN + CAMERA_CHUNK_LOAD_DISTANCE <= c.y <= i32::MAX - CAMERA_CHUNK_LOAD_DISTANCE,
                None => true,
            },
        ensures
            final(self).wf(),
            final(self).same_source(*old(self)),
            final(self).loaded() == old(self).load_result(
                |c: ChunkPos| near_any(camera_chunks(camera), c, load_radius(ObserverKind::Camera)),
            ),
            final(self).stored() == old(self).store_result(
                |c: ChunkPos| near_any(camera_chunks(camera), c, load_radius(ObserverKind::Camera)),
            ),
    {
        let centers = camera_centers(camera);
        self.load_all(&centers, CAMERA_CHUNK_LOAD_DISTANCE);
    }

    /// Stores in the cache, dimmed, every resident chunk that no observer
    /// keeps; the resident set is left as it is.
    fn stash_dropped(&mut self, obs: &Observers, pc: &Vec<ChunkPos>, cc: &Vec<ChunkPos>, nc: &Vec<ChunkPos>)
        requires
            old(self).wf(),
            pc@ == player_chunks(obs.players@),
            cc@ == camera_chunks(obs.camera),
            nc@ == npc_chunks(obs.npcs@),
        ensures
            final(self).wf(),
            final(self).same_source(*old(self)),
            final(self).loaded == old(self).loaded,
            final(self).stored() == stash_map(old(self).stored(), old(self).loaded(), |c: ChunkPos| obs.keep_demand(c)),
    {
        let ghost w0 = *self;
        let ghost s0 = self.loaded@;
        proof {
            w0.lemma_wf();
            assert(self.stored() =~= Map::new(
                |c: ChunkPos| w0.stored().contains_key(c),
                |c: ChunkPos| if loaded_has(s0.subrange(0, 0), c) && !obs.keep_demand(c) { dimmed(w0.loaded()[c]) } else { w0.stored()[c] },
            ));
        }
        let mut i: usize = 0;
        while i < self.loaded.len()
            invariant
                w0.wf(),
                s0 == w0.loaded@,
                self.loaded == w0.loaded,
                self.resident == w0.resident,
                self.seed == w0.seed,
                self.weights == w0.weights,
                i <= s0.len(),
                pc@ == player_chunks(obs.players@),
                cc@ == camera_chunks(obs.camera),
                nc@ == npc_chunks(obs.npcs@),
                self.stored() == Map::new(
                    |c: ChunkPos| w0.stored().contains_key(c),
                    |c: ChunkPos| if loaded_has(s0.subrange(0, i as int), c) && !obs.keep_demand(c) { dimmed(w0.loaded()[c]) } else { w0.stored()[c] },
                ),
            decreases s0.len() - i,
        {
            let pos = self.loaded[i].pos;
            let ghost before = self.stored();
            let ghost cache0 = self.cache@;
            let keep = keeps(obs, pc, cc, nc, pos);
            if !keep {
                let dim = dim_tiles(&self.loaded[i].tiles);
                let key = chunk_key_of(pos);
                self.cache.insert(key, dim);
            }
            proof {
                lemma_loaded_entry(s0, i as int);
                let prev = s0.subrange(0, i as int);
                let next = s0.subrange(0, i + 1);
                assert forall|c: ChunkPos| loaded_has(next, c) <==> loaded_has(prev, c) || c == pos by {
                    if loaded_has(next, c) {
                        let j = choose|j: int| 0 <= j < i + 1 && (#[trigger] next[j]).pos == c;
                        if j < i {
                            assert(prev[j] == s0[j]);
                        }
                    }
                    if loaded_has(prev, c) {
                        let j = choose|j: int| 0 <= j < i && (#[trigger] prev[j]).pos == c;
                        assert(next[j] == s0[j]);
                    }
                    if c == pos {
                        assert(next[i as int] == s0[i as int]);
                    }
                }
                let target = Map::new(
                    |c: ChunkPos| w0.stored().contains_key(c),
                    |c: ChunkPos| if loaded_has(next, c) && !obs.keep_demand(c) { dimmed(w0.loaded()[c]) } else { w0.stored()[c] },
                );
                assert forall|c: ChunkPos| #[trigger] self.stored().contains_key(c) == target.contains_key(c)
                    && (self.stored().contains_key(c) ==> self.stored()[c] == target[c]) by {
                    lemma_chunk_key(c, pos);
                    lemma_chunk_key(c, c);
                    lemma_chunk_key(pos, pos);
                    assert(before.contains_key(c) == w0.stored().contains_key(c));
                    if c == pos {
                        assert(w0.stored().contains_key(c));
                        if !keep {
                            assert(self.cache@ == cache0.insert(chunk_key(pos) as i64, self.cache@[chunk_key(pos) as i64]));
                            assert(self.stored()[c] == dimmed(s0[i as int].tiles@));
                        } else {
                            assert(self.cache@ == cache0);
                        }
                    } else {
                        assert(chunk_key(c) as i64 != chunk_key(pos) as i64);
                        if self.stored().contains_key(c) {
                            assert(self.stored()[c] == before[c]);
                        }
                    }
                }
                assert(self.stored() =~= target);
            }
            i = i + 1;
        }
        proof {
            assert(s0.subrange(0, s0.len() as int) == s0);
            assert(self.stored() =~= stash_map(w0.stored(), w0.loaded(), |c: ChunkPos| obs.keep_demand(c)));
            assert forall|c: ChunkPos| #[trigger] self.stored().contains_key(c) implies self.stored()[c].len() == CHUNK_TILES
                && kinds_of(self.stored()[c]) == self.terrain(c) by {
                if w0.loaded().contains_key(c) && !obs.keep_demand(c) {
                    assert(kinds_of(dimmed(w0.loaded()[c])) =~= kinds_of(w0.loaded()[c]));
                }
            }
        }
    }

    /// Drops every resident chunk that no observer keeps, that is, every
    /// chunk outside the unload radius of every observer. The cache keeps
    /// everything.
    pub fn chunk_unload(&mut self, obs: &Observers)
        requires
            old(self).wf(),
        ensures
            final(self).wf(),
            final(self).same_source(*old(self)),
            final(self).loaded() == old(self).unload_result(|c: ChunkPos| obs.keep_demand(c)),
            final(self).stored() == stash_map(old(self).stored(), old(self).loaded(), |c: ChunkPos| obs.keep_demand(c)),
    {
        let pc = player_centers(&obs.players);
        let cc = camera_centers(obs.camera);
        let nc = chunks_of(&obs.npcs);
        self.stash_dropped(obs, &pc, &cc, &nc);
        let ghost w0 = *self;
        let ghost s0 = self.loaded@;
        let mut taken: Vec<LoadedChunk> = Vec::new();
        std::mem::swap(&mut taken, &mut self.loaded);
        let (kept, Ghost(idx)) = split_kept(taken, obs, &pc, &cc, &nc);
        proof {
            lemma_kept_map(s0, kept@, idx, |c: ChunkPos| obs.keep_demand(c));
            assert(loaded_map(kept@) =~= w0.unload_result(|c: ChunkPos| obs.keep_demand(c)));
        }
        self.loaded = kept;
        self.resident = resident_keys(&self.loaded);
        proof {
            assert forall|i: int| 0 <= i < self.loaded@.len() implies {
                &&& (#[trigger] self.loaded@[i]).tiles@.len() == CHUNK_TILES
                &&& kinds_of(self.loaded@[i].tiles@) == self.terrain(self.loaded@[i].pos)
                &&& self.stored().contains_key(self.loaded@[i].pos)
            } by {
                assert(self.loaded@[i] == s0[idx[i]]);
            }
        }
    }

    /// Charts the resident tiles for `players`: a tile within some player's
    /// chart range becomes visible; a visible tile out of every range becomes
    /// charted; other tiles stay as they were. NPCs take no part in this.
    pub fn chart_map(&mut self, players: &Vec<PlayerObserver>)
        requires
            old(self).wf(),
        ensures
            final(self).wf(),
            final(self).same_source(*old(self)),
            final(self).loaded() == chart_result(old(self).loaded(), players@),
            final(self).stored() == old(self).stored(),
    {
        let ghost w0 = *self;
        let ghost s0 = self.loaded@;
        let mut taken: Vec<LoadedChunk> = Vec::new();
        std::mem::swap(&mut taken, &mut self.loaded);
        let mut charted: Vec<LoadedChunk> = Vec::new();
        let mut i: usize = 0;
        while i < taken.len()
            invariant
                w0.wf(),
                s0 == w0.loaded@,
                taken@ == s0,
                i <= s0.len(),
                charted@.len() == i,
                forall|j: int| 0 <= j < i ==> (#[trigger] charted@[j]).pos == s0[j].pos
                    && charted@[j].tiles@ == charted_tiles(s0[j].tiles@, s0[j].pos, players@),
            decreases s0.len() - i,
        {
            let c = chart_chunk(&taken[i], players);
            charted.push(c);
            i = i + 1;
        }
        proof {
            let k = charted@;
            assert forall|i: int, j: int| 0 <= i < k.len() && 0 <= j < k.len() && (#[trigger] k[i]).pos == (#[trigger] k[j]).pos implies i == j by {
                assert(s0[i].pos == s0[j].pos);
            }
            assert forall|c: ChunkPos| loaded_has(k, c) <==> loaded_has(s0, c) by {
                if loaded_has(k, c) {
                    let i = choose|i: int| 0 <= i < k.len() && (#[trigger] k[i]).pos == c;
                    assert(s0[i].pos == c);
                }
                if loaded_has(s0, c) {
                    let i = choose|i: int| 0 <= i < s0.len() && (#[trigger] s0[i]).pos == c;
                    assert(k[i].pos == c);
                }
            }
            assert forall|c: ChunkPos| #[trigger] loaded_has(k, c) implies loaded_map(k)[c] == charted_tiles(loaded_map(s0)[c], c, players@) by {
                let i = loaded_at(k, c);
                lemma_loaded_entry(k, i);
                lemma_loaded_entry(s0, i);
            }
            assert(loaded_map(k) =~= chart_result(w0.loaded(), players@));
        }
        self.loaded = charted;
        proof {
            assert(self.stored() =~= w0.stored());
            assert forall|c: ChunkPos| #![trigger self.resident@.contains(chunk_key(c) as i64)] #![trigger loaded_has(self.loaded@, c)]
                self.resident@.contains(chunk_key(c) as i64) <==> loaded_has(self.loaded@, c) by {
                assert(w0.resident@.contains(chunk_key(c) as i64) <==> loaded_has(s0, c));
            }
            assert forall|i: int| 0 <= i < self.loaded@.len() implies {
                &&& (#[trigger] self.loaded@[i]).tiles@.len() == CHUNK_TILES
                &&& kinds_of(self.loaded@[i].tiles@) == self.terrain(self.loaded@[i].pos)
                &&& self.stored().contains_key(self.loaded@[i].pos)
            } by {
                assert(kinds_of(self.loaded@[i].tiles@) =~= kinds_of(s0[i].tiles@));
                assert(self.loaded@[i].pos == s0[i].pos);
                assert(w0.stored().contains_key(s0[i].pos));
            }
        }
    }

    /// What a tick leaves in each resident chunk: its terrain, and tiles
    /// visible exactly where some player sees them.
    proof fn lemma_tick_tiles(w0: ChunkWorld, w3: ChunkWorld, w4: ChunkWorld, w5: ChunkWorld, obs: &Observers)
        requires
            w0.wf(),
            w5.wf(),
            w3.same_source(w0),
            w5.same_source(w0),
            w3.loaded() == w0.load_result(|c: ChunkPos| obs.load_demand(c)),
            w4.loaded() == unload_map(w3.loaded(), |c: ChunkPos| obs.keep_demand(c)),
            w5.loaded() == chart_result(w4.loaded(), obs.players@),
        ensures
            forall|c: ChunkPos, k: int| #[trigger] w5.loaded().contains_key(c) && 0 <= k < CHUNK_TILES ==> {
                let t = #[trigger] w5.loaded()[c][k];
                &&& w5.loaded()[c].len() == CHUNK_TILES
                &&& t.kind == w5.terrain(c)[k]
                &&& (t.visibility == TileVisibility::Visible <==> seen_by(obs.players@, tile_q(c, k), tile_r(c, k)))
            },
    {
        w5.lemma_wf();
        assert forall|c: ChunkPos, k: int| #[trigger] w5.loaded().contains_key(c) && 0 <= k < CHUNK_TILES implies {
            let t = #[trigger] w5.loaded()[c][k];
            &&& w5.loaded()[c].len() == CHUNK_TILES
            &&& t.kind == w5.terrain(c)[k]
            &&& (t.visibility == TileVisibility::Visible <==> seen_by(obs.players@, tile_q(c, k), tile_r(c, k)))
        } by {
            assert(w5.loaded()[c] == charted_tiles(w4.loaded()[c], c, obs.players@));
            assert(kinds_of(w5.loaded()[c])[k] == w5.loaded()[c][k].kind);
        }
    }

    /// What a tick does to each chunk's tiles, as far as charting goes: a
    /// tile once seen is never unknown again.
    proof fn lemma_tick_knowledge(w0: ChunkWorld, w3: ChunkWorld, w4: ChunkWorld, w5: ChunkWorld, obs: &Observers)
        requires
            w0.wf(),
            w3.same_source(w0),
            w5.same_source(w0),
            w3.loaded() == w0.load_result(|c: ChunkPos| obs.load_demand(c)),
            w3.stored() == w0.store_result(|c: ChunkPos| obs.load_demand(c)),
            w4.loaded() == unload_map(w3.loaded(), |c: ChunkPos| obs.keep_demand(c)),
            w5.loaded() == chart_result(w4.loaded(), obs.players@),
            w5.stored() == stash_map(w3.stored(), w3.loaded(), |c: ChunkPos| obs.keep_demand(c)),
        ensures
            forall|c: ChunkPos, k: int| 0 <= k < w0.knowledge(c).len()
                && (#[trigger] w0.knowledge(c)[k]).visibility != TileVisibility::Unknown ==> {
                &&& w5.knowledge(c).len() == w0.knowledge(c).len()
                &&& w5.knowledge(c)[k].visibility != TileVisibility::Unknown
            },
    {
        assert forall|c: ChunkPos, k: int| 0 <= k < w0.knowledge(c).len()
            && (#[trigger] w0.knowledge(c)[k]).visibility != TileVisibility::Unknown implies {
            &&& w5.knowledge(c).len() == w0.knowledge(c).len()
            &&& w5.knowledge(c)[k].visibility != TileVisibility::Unknown
        } by {
            if w5.loaded().contains_key(c) {
                assert(w5.loaded()[c] == charted_tiles(w4.loaded()[c], c, obs.players@));
                assert(w4.loaded()[c] == w3.loaded()[c]);
                assert(w3.loaded()[c] == w0.knowledge(c));
            } else if w3.loaded().contains_key(c) {
                assert(!obs.keep_demand(c));
                assert(w3.loaded()[c] == w0.knowledge(c));
                assert(w5.stored()[c] == dimmed(w3.loaded()[c]));
                lemma_dimmed(w3.loaded()[c], k);
            } else if w3.stored().contains_key(c) {
                assert(w5.stored()[c] == w3.stored()[c]);
                assert(w3.stored()[c] == w0.restored(c));
                assert(!w0.loaded().contains_key(c));
            } else {
                assert(!w5.stored().contains_key(c));
                assert(!w0.stored().contains_key(c));
                assert(!w0.loaded().contains_key(c));
            }
        }
    }

    /// One tick of streaming: loading for the players, then the camera, then
    /// the NPCs; unloading of every chunk no observer keeps; charting for
    /// the players.
    pub fn tick(&mut self, obs: &Observers)
        requires
            old(self).wf(),
            obs.camera_fits(),
        ensures
            final(self).wf(),
            final(self).same_source(*old(self)),
            final(self).loaded() == chart_result(
                unload_map(old(self).load_result(|c: ChunkPos| obs.load_demand(c)), |c: ChunkPos| obs.keep_demand(c)),
                obs.players@,
            ),
            final(self).stored() == stash_map(
                old(self).store_result(|c: ChunkPos| obs.load_demand(c)),
                old(self).load_result(|c: ChunkPos| obs.load_demand(c)),
                |c: ChunkPos| obs.keep_demand(c),
            ),
            forall|c: ChunkPos| #[trigger] final(self).loaded().contains_key(c)
                <==> (old(self).loaded().contains_key(c) || obs.load_demand(c)) && obs.keep_demand(c),
            forall|c: ChunkPos| obs.load_demand(c) ==> #[trigger] final(self).loaded().contains_key(c),
            forall|c: ChunkPos, k: int| #[trigger] final(self).loaded().contains_key(c) && 0 <= k < CHUNK_TILES ==> {
                let t = #[trigger] final(self).loaded()[c][k];
                &&& final(self).loaded()[c].len() == CHUNK_TILES
                &&& t.kind == final(self).terrain(c)[k]
                &&& (t.visibility == TileVisibility::Visible <==> seen_by(obs.players@, tile_q(c, k), tile_r(c, k)))
            },
            forall|c: ChunkPos, k: int| 0 <= k < old(self).knowledge(c).len()
                && (#[trigger] old(self).knowledge(c)[k]).visibility != TileVisibility::Unknown ==> {
                &&& final(self).knowledge(c).len() == old(self).knowledge(c).len()
                &&& final(self).knowledge(c)[k].visibility != TileVisibility::Unknown
            },
    {
        let ghost w0 = *self;
        proof { w0.lemma_wf(); }
        self.load_chunks_player(&obs.players);
        let ghost w1 = *self;
        self.load_chunks_camera(obs.camera);
        let ghost w2 = *self;
        self.load_chunks_npc(&obs.npcs);
        let ghost w3 = *self;
        let ghost a = |c: ChunkPos| near_any(player_chunks(obs.players@), c, load_radius(ObserverKind::Player));
        let ghost b = |c: ChunkPos| near_any(camera_chunks(obs.camera), c, load_radius(ObserverKind::Camera));
        let ghost d = |c: ChunkPos| near_any(npc_chunks(obs.npcs@), c, load_radius(ObserverKind::Npc));
        proof {
            Self::lemma_load_compose(w0, w1, a, b);
            let ab = |c: ChunkPos| a(c) || b(c);
            Self::lemma_load_compose(w0, w2, ab, d);
            assert(w3.loaded() =~= w0.load_result(|c: ChunkPos| obs.load_demand(c)));
            assert(w3.stored() =~= w0.store_result(|c: ChunkPos| obs.load_demand(c)));
        }
        self.chunk_unload(obs);
        let ghost w4 = *self;
        proof {
            assert(w4.loaded() =~= unload_map(w3.loaded(), |c: ChunkPos| obs.keep_demand(c)));
        }
        self.chart_map(&obs.players);
        proof {
            w0.lemma_wf();
            self.lemma_wf();
            assert forall|c: ChunkPos| obs.load_demand(c) implies #[trigger] self.loaded().contains_key(c) by {
                lemma_load_within_keep(obs, c);
            }
            Self::lemma_tick_tiles(w0, w3, w4, *self, obs);
            Self::lemma_tick_knowledge(w0, w3, w4, *self, obs);
        }
    }

    /// Positions of the resident chunks, each once.
    pub fn loaded_chunks(&self) -> (r: Vec<ChunkPos>)
        requires
            self.wf(),
        ensures
            r@.no_duplicates(),
            forall|c: ChunkPos| self.loaded().contains_key(c) <==> r@.contains(c),
    {
        let mut r: Vec<ChunkPos> = Vec::new();
        let mut i: usize = 0;
        while i < self.loaded.len()
            invariant
                loaded_unique(self.loaded@),
                i <= self.loaded@.len(),
                r@.len() == i,
                forall|j: int| 0 <= j < i ==> #[trigger] r@[j] == self.loaded@[j].pos,
            decreases self.loaded@.len() - i,
        {
            r.push(self.loaded[i].pos);
            i = i + 1;
        }
        proof {
            assert forall|c: ChunkPos| self.loaded().contains_key(c) <==> r@.contains(c) by {
                if r@.contains(c) {
                    let j = choose|j: int| 0 <= j < r@.len() && r@[j] == c;
                    assert(self.loaded@[j].pos == c);
                }
                if self.loaded().contains_key(c) {
                    let j = choose|j: int| 0 <= j < self.loaded@.len() && (#[trigger] self.loaded@[j]).pos == c;
                    assert(r@[j] == c);
                }
            }
        }
        r
    }

    /// A copy of the tiles of chunk `p`, if it is resident.
    pub fn chunk_tiles(&self, p: ChunkPos) -> (r: Option<Vec<Tile>>)
        requires
            self.wf(),
        ensures
            match r {
                Some(v) => self.loaded().contains_key(p) && v@ == self.loaded()[p],
                None => !self.loaded().contains_key(p),
            },
    {
        match self.find_loaded(p) {
            Some(i) => {
                proof { lemma_loaded_entry(self.loaded@, i as int); }
                let mut v: Vec<Tile> = Vec::new();
                let mut k: usize = 0;
                while k < self.loaded[i].tiles.len()
                    invariant
                        i < self.loaded@.len(),
                        k <= self.loaded@[i as int].tiles@.len(),
                        v@ == self.loaded@[i as int].tiles@.subrange(0, k as int),
                    decreases self.loaded@[i as int].tiles@.len() - k,
                {
                    v.push(self.loaded[i].tiles[k]);
                    k = k + 1;
                    proof {
                        assert(v@ =~= self.loaded@[i as int].tiles@.subrange(0, k as int));
                    }
                }
                proof {
                    assert(v@ =~= self.loaded@[i as int].tiles@);
                }
                Some(v)
            },
            None => None,
        }
    }

    /// Whether the terrain of chunk `p` has been generated and cached.
    pub fn is_generated(&self, p: ChunkPos) -> (r: bool)
        ensures
            r == self.generated().contains_key(p),
    {
        proof { lemma_chunk_key(p, p); }
        self.cache.contains_key(&chunk_key_of(p))
    }

    /// The world seed.
    pub fn world_seed(&self) -> (r: WorldSeed)
        ensures
            r.seed@ == self.seed(),
    {
        self.seed
    }

    /// Generation is deterministic: two worlds with the same seed and weight
    /// table hold the same terrain for every chunk that both have generated,
    /// whatever else happened to either of them, and it is the terrain that
    /// generation gives for that chunk.
    pub proof fn lemma_generation_deterministic(w1: ChunkWorld, w2: ChunkWorld, c: ChunkPos)
        requires
            w1.wf(),
            w2.wf(),
            w1.same_source(w2),
            w1.generated().contains_key(c),
            w2.generated().contains_key(c),
        ensures
            w1.generated()[c] == w2.generated()[c],
            w1.generated()[c] == w1.terrain(c),
    {
        w1.lemma_wf();
        w2.lemma_wf();
    }

    /// Reloading a chunk reproduces its terrain: a chunk resident in two
    /// states of a world (say before it was unloaded and after it was loaded
    /// again) has the same tile kinds in both.
    pub proof fn lemma_reload_identical(w1: ChunkWorld, w2: ChunkWorld, c: ChunkPos)
        requires
            w1.wf(),
            w2.wf(),
            w1.same_source(w2),
            w1.loaded().contains_key(c),
            w2.loaded().contains_key(c),
        ensures
            kinds_of(w1.loaded()[c]) == kinds_of(w2.loaded()[c]),
            kinds_of(w1.loaded()[c]) == w1.terrain(c),
    {
        w1.lemma_wf();
        w2.lemma_wf();
    }
}

} // verus!
