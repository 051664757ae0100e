//! Deterministic terrain generation: every chunk's tiles are drawn from a
//! weighted distribution with a generator seeded from the world seed and
//! the chunk's coordinate.

use vstd::prelude::*;
use rand::distributions::{Distribution, WeightedIndex};
use rand::rngs::SmallRng;
use rand::SeedableRng;
use crate::coords::{ChunkPos, CHUNK_TILES};

verus! {

/// What kind of tile a hex is.
#[derive(Clone, Copy, Debug, PartialEq, Eq, Hash, Structural)]
pub enum TileKind {
    Empty,
    Village,
}

impl TileKind {
    /// Index of the tile's picture in the map tile sheet (0 is kept for
    /// tiles that have not been seen).
    pub open spec fn spec_texture_index(self) -> u32 {
        match self {
            TileKind::Empty => 1,
            TileKind::Village => 2,
        }
    }

    pub fn texture_index(self) -> (r: u32)
        ensures
            r == self.spec_texture_index(),
    {
        match self {
            TileKind::Empty => 1,
            TileKind::Village => 2,
        }
    }
}

/// Sum of a sequence of weights.
pub open spec fn weight_sum(w: Seq<u32>) -> int
    decreases w.len(),
{
    if w.len() == 0 {
        0
    } else {
        weight_sum(w.drop_last()) + w.last() as int
    }
}

/// A weight table that a weighted draw accepts: at least one entry, a
/// positive total, and a total that fits in `u32`.
pub open spec fn valid_weights(w: Seq<u32>) -> bool {
    w.len() > 0 && 0 < weight_sum(w) <= u32::MAX
}

/// The indices drawn, one per slot, by a weighted draw over `weights` from a
/// small generator seeded with `seed`.
pub uninterp spec fn weighted_draws(seed: Seq<u8>, weights: Seq<u32>, count: nat) -> Seq<nat>;

/// Relies on rand's `SmallRng::from_seed`, `WeightedIndex::new` and
/// `Distribution::sample_iter`: the generator is a fixed algorithm of its
/// seed (this seed size exists only for the 64-bit variant), and each draw
/// takes one uniform value `v` in `[0, total)` and returns the first index
/// whose cumulative weight exceeds `v`, so an index of weight zero never
/// comes out. `WeightedIndex::new` accepts any table with a positive total
/// that does not overflow.
#[verifier::external_body]
fn draw_weighted_indices(seed: [u8; 32], weights: &Vec<u32>, count: usize) -> (r: Vec<usize>)
    requires
        valid_weights(weights@),
    ensures
        r@.len() == count,
        forall|i: int| 0 <= i < count ==> #[trigger] r@[i] < weights@.len() && weights@[r@[i] as int] > 0,
        r@.map_values(|d: usize| d as nat) == weighted_draws(seed@, weights@, count as nat),
{
    let dist = WeightedIndex::new(weights).unwrap();
    (&dist).sample_iter(SmallRng::from_seed(seed)).take(count).collect()
}

/// Why a weight table was refused.
#[derive(Clone, Copy, Debug, PartialEq, Eq, Structural)]
pub enum WeightsError {
    /// The table has no entry.
    NoItem,
    /// Every weight is zero.
    AllWeightsZero,
    /// The weights add up to more than `u32::MAX`.
    TooLarge,
}

/// Relative weights of the tile kinds that generation draws from.
pub struct TileWeights {
    kinds: Vec<TileKind>,
    weights: Vec<u32>,
    total: u32,
}

impl TileWeights {
    #[verifier::type_invariant]
    pub closed spec fn inv(self) -> bool {
        self.kinds@.len() == self.weights@.len() && valid_weights(self.weights@) && self.total == weight_sum(self.weights@)
    }

    /// The kind of each entry, in order.
    pub closed spec fn kinds(self) -> Seq<TileKind> {
        self.kinds@
    }

    /// The weight of each entry, in order.
    pub closed spec fn weights(self) -> Seq<u32> {
        self.weights@
    }

    /// The sum of the table's weights.
    pub fn total_weight(&self) -> (r: u32)
        ensures
            r as int == weight_sum(self.weights()),
            valid_weights(self.weights()),
            self.kinds().len() == self.weights().len(),
    {
        proof { use_type_invariant(self); }
        self.total
    }

    /// Builds a table from `(kind, weight)` entries; refuses a table without
    /// entries, one whose weights are all zero, and one whose total does not
    /// fit in `u32`.
    pub fn new(entries: &Vec<(TileKind, u32)>) -> (r: Result<TileWeights, WeightsError>)
        ensures
            match r {
                Ok(w) => w.kinds() == entries@.map_values(|e: (TileKind, u32)| e.0)
                    && w.weights() == entries@.map_values(|e: (TileKind, u32)| e.1),
                Err(e) => e == (if entries@.len() == 0 {
                    WeightsError::NoItem
                } else if weight_sum(entries@.map_values(|e: (TileKind, u32)| e.1)) == 0 {
                    WeightsError::AllWeightsZero
                } else {
                    WeightsError::TooLarge
                }),
            },
            r is Ok <==> (entries@.len() > 0 && valid_weights(entries@.map_values(|e: (TileKind, u32)| e.1))),
    {
        let ghost ws = entries@.map_values(|e: (TileKind, u32)| e.1);
        let mut kinds: Vec<TileKind> = Vec::new();
        let mut weights: Vec<u32> = Vec::new();
        let mut total: u64 = 0;
        let mut i: usize = 0;
        while i < entries.len()
            invariant
                i <= entries@.len(),
                ws == entries@.map_values(|e: (TileKind, u32)| e.1),
                kinds@ == entries@.subrange(0, i as int).map_values(|e: (TileKind, u32)| e.0),
                weights@ == ws.subrange(0, i as int),
                weight_sum(weights@) <= u32::MAX ==> total == weight_sum(weights@),
                weight_sum(weights@) > u32::MAX ==> total > u32::MAX,
                total <= 2 * (u32::MAX as int),
            decreases entries@.len() - i,
        {
            let (k, w) = entries[i];
            proof {
                assert(weights@.push(w).drop_last() == weights@);
                assert(ws.subrange(0, i + 1) == ws.subrange(0, i as int).push(w));
                assert(entries@.subrange(0, i + 1) == entries@.subrange(0, i as int).push(entries@[i as int]));
            }
            kinds.push(k);
            weights.push(w);
            if total <= u32::MAX as u64 {
                total = total + w as u64;
            }
            i = i + 1;
        }
        proof {
            assert(ws.subrange(0, ws.len() as int) == ws);
            assert(entries@.subrange(0, entries@.len() as int) == entries@);
        }
        if entries.len() == 0 {
            Err(WeightsError::NoItem)
        } else if total == 0 {
            Err(WeightsError::AllWeightsZero)
        } else if total > u32::MAX as u64 {
            Err(WeightsError::TooLarge)
        } else {
            Ok(TileWeights { kinds, weights, total: total as u32 })
        }
    }

    /// The table the world is generated with: mostly empty land, with a
    /// village now and then (`Empty: 200`, `Village: 5`).
    pub fn standard() -> (r: TileWeights)
        ensures
            r.kinds() == seq![TileKind::Empty, TileKind::Village],
            r.weights() == seq![200u32, 5u32],
    {
        let kinds: Vec<TileKind> = vec![TileKind::Empty, TileKind::Village];
        let weights: Vec<u32> = vec![200, 5];
        proof {
            assert(weights@.drop_last() =~= seq![200u32]);
            assert(seq![200u32].drop_last() =~= Seq::<u32>::empty());
            reveal_with_fuel(weight_sum, 3);
            assert(weight_sum(weights@) == 205);
            assert(kinds@ == seq![TileKind::Empty, TileKind::Village]);
            assert(weights@ == seq![200u32, 5u32]);
        }
        TileWeights { kinds, weights, total: 205 }
    }
}

/// The world's 32-byte seed, fixed for the life of a world.
#[derive(Clone, Copy, Debug, PartialEq, Eq)]
pub struct WorldSeed {
    pub seed: [u8; 32],
}

/// Relies on rand's `random`: 32 bytes from the thread-local generator;
/// nothing is known of them.
#[verifier::external_body]
fn random_seed_bytes() -> (r: [u8; 32]) {
    rand::random()
}

impl WorldSeed {
    /// A world seed made of `bytes`, with its last eight bytes cleared: those
    /// are the bytes that each chunk overwrites with its coordinate.
    pub fn from_bytes(bytes: [u8; 32]) -> (r: WorldSeed)
        ensures
            r.seed@ == bytes@.subrange(0, 24) + Seq::new(8, |_i: int| 0u8),
    {
        let mut seed: [u8; 32] = bytes;
        let mut k: usize = 24;
        while k < 32
            invariant
                24 <= k <= 32,
                seed@.len() == 32,
                forall|j: int| 0 <= j < 24 ==> seed@[j] == bytes@[j],
                forall|j: int| 24 <= j < k ==> seed@[j] == 0u8,
            decreases 32 - k,
        {
            seed[k] = 0;
            k = k + 1;
        }
        proof {
            assert(seed@ =~= bytes@.subrange(0, 24) + Seq::new(8, |_i: int| 0u8));
        }
        WorldSeed { seed }
    }
}

impl Default for WorldSeed {
    /// A fresh random world seed, with its last eight bytes cleared.
    fn default() -> (r: WorldSeed)
        ensures
            r.seed@.subrange(24, 32) == Seq::new(8, |_i: int| 0u8),
    {
        let r = WorldSeed::from_bytes(random_seed_bytes());
        proof {
            assert(r.seed@.subrange(24, 32) =~= Seq::new(8, |_i: int| 0u8));
        }
        r
    }
}

/// Little-endian bytes of a 32-bit value.
pub open spec fn le_bytes(v: u32) -> Seq<u8> {
    seq![(v % 256) as u8, ((v / 256) % 256) as u8, ((v / 65536) % 256) as u8, ((v / 16777216) % 256) as u8]
}

/// The two's complement bit pattern of a 32-bit signed value.
pub open spec fn bits_of(v: i32) -> u32 {
    (if v >= 0 { v as int } else { v as int + 0x1_0000_0000 }) as u32
}

/// The seed of one chunk: the world seed with its last eight bytes replaced
/// by the chunk's `x` and `y`, each in little-endian order.
pub open spec fn chunk_seed(seed: Seq<u8>, c: ChunkPos) -> Seq<u8> {
    seed.subrange(0, 24) + le_bytes(bits_of(c.x)) + le_bytes(bits_of(c.y))
}

/// The terrain of chunk `c`: one weighted draw per tile, in tile order.
pub open spec fn chunk_terrain(seed: Seq<u8>, kinds: Seq<TileKind>, weights: Seq<u32>, c: ChunkPos) -> Seq<TileKind> {
    weighted_draws(chunk_seed(seed, c), weights, CHUNK_TILES as nat).map_values(|d: nat| kinds[d as int])
}

fn bits_of_exec(v: i32) -> (r: u32)
    ensures
        r == bits_of(v),
{
    if v >= 0 {
        v as u32
    } else {
        let w: i64 = v as i64 + 0x1_0000_0000i64;
        w as u32
    }
}

fn le_byte(v: u32, k: u32) -> (r: u8)
    requires
        k < 4,
    ensures
        k == 0 ==> r == (v % 256) as u8,
        k == 1 ==> r == ((v / 256) % 256) as u8,
        k == 2 ==> r == ((v / 65536) % 256) as u8,
        k == 3 ==> r == ((v / 16777216) % 256) as u8,
{
    let shifted: u32 = v >> (8 * k);
    proof {
        assert(k == 0 ==> v >> (8 * k) == v) by (bit_vector);
        assert(k == 1 ==> v >> (8 * k) == v / 256) by (bit_vector);
        assert(k == 2 ==> v >> (8 * k) == v / 65536) by (bit_vector);
        assert(k == 3 ==> v >> (8 * k) == v / 16777216) by (bit_vector);
    }
    (shifted % 256) as u8
}

/// Builds the seed of chunk `pos` from the world seed.
pub fn derive_chunk_seed(world_seed: &WorldSeed, pos: ChunkPos) -> (r: [u8; 32])
    ensures
        r@ == chunk_seed(world_seed.seed@, pos),
{
    let mut s: [u8; 32] = world_seed.seed;
    let bx = bits_of_exec(pos.x);
    let by = bits_of_exec(pos.y);
    let mut k: u32 = 0;
    while k < 4
        invariant
            k <= 4,
            s@.len() == 32,
            forall|j: int| 0 <= j < 24 ==> s@[j] == world_seed.seed@[j],
            forall|j: int| 0 <= j < k ==> s@[24 + j] == le_bytes(bx)[j] && s@[28 + j] == le_bytes(by)[j],
        decreases 4 - k,
    {
        let a = le_byte(bx, k);
        let b = le_byte(by, k);
        s[24 + k as usize] = a;
        s[28 + k as usize] = b;
        k = k + 1;
    }
    proof {
        assert(s@ =~= chunk_seed(world_seed.seed@, pos));
    }
    s
}

/// Generates the terrain of chunk `chunk_pos`; the result depends on the
/// seed, the weight table and the coordinate alone.
pub fn generate_chunk(world_seed: &WorldSeed, weights: &TileWeights, chunk_pos: ChunkPos) -> (r: Vec<TileKind>)
    ensures
        r@ == chunk_terrain(world_seed.seed@, weights.kinds(), weights.weights(), chunk_pos),
        r@.len() == CHUNK_TILES,
{
    proof { use_type_invariant(weights); }
    let seed = derive_chunk_seed(world_seed, chunk_pos);
    let draws = draw_weighted_indices(seed, &weights.weights, CHUNK_TILES);
    let ghost nat_draws = draws@.map_values(|d: usize| d as nat);
    let mut grid: Vec<TileKind> = Vec::new();
    let mut i: usize = 0;
    while i < CHUNK_TILES
        invariant
            i <= CHUNK_TILES,
            draws@.len() == CHUNK_TILES,
            weights.kinds@.len() == weights.weights@.len(),
            forall|j: int| 0 <= j < CHUNK_TILES ==> #[trigger] draws@[j] < weights.weights@.len(),
            grid@.len() == i,
            forall|j: int| 0 <= j < i ==> grid@[j] == weights.kinds@[draws@[j] as int],
        decreases CHUNK_TILES - i,
    {
        let d = draws[i];
        grid.push(weights.kinds[d]);
        i = i + 1;
    }
    proof {
        assert(grid@ =~= nat_draws.map_values(|d: nat| weights.kinds@[d as int]));
    }
    grid
}

} // verus!
