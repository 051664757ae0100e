//! Mapping between global tile coordinates, chunk coordinates and the
//! position of a tile inside its chunk.

use vstd::prelude::*;

verus! {

/// Number of tiles along each edge of a (square) chunk.
pub const CHUNK_EDGE: i32 = 32;

/// Number of tiles held by one chunk.
pub const CHUNK_TILES: usize = 1024;

/// Coordinate of a chunk in the infinite lattice of chunks.
#[derive(Clone, Copy, Debug, PartialEq, Eq, Hash, Structural)]
pub struct ChunkPos {
    pub x: i32,
    pub y: i32,
}

/// Global coordinate of a hex tile (row-even offset layout).
#[derive(Clone, Copy, Debug, PartialEq, Eq, Hash, Structural)]
pub struct GlobalPos {
    pub q: i32,
    pub r: i32,
}

/// Position of a tile inside its chunk; both parts lie in `[0, CHUNK_EDGE)`.
#[derive(Clone, Copy, Debug, PartialEq, Eq, Hash, Structural)]
pub struct TilePos {
    pub x: u32,
    pub y: u32,
}

impl ChunkPos {
    pub fn new(x: i32, y: i32) -> (r: ChunkPos)
        ensures
            r.x == x,
            r.y == y,
    {
        ChunkPos { x, y }
    }
}

impl TilePos {
    pub open spec fn in_chunk(self) -> bool {
        self.x < CHUNK_EDGE && self.y < CHUNK_EDGE
    }
}

/// The chunk that holds the tile `g` (floor division on each axis).
pub open spec fn chunk_of(g: GlobalPos) -> ChunkPos {
    ChunkPos { x: (g.q as int / CHUNK_EDGE as int) as i32, y: (g.r as int / CHUNK_EDGE as int) as i32 }
}

/// The position of the tile `g` inside its chunk (Euclidean remainder on each axis).
pub open spec fn local_of(g: GlobalPos) -> TilePos {
    TilePos { x: (g.q as int % CHUNK_EDGE as int) as u32, y: (g.r as int % CHUNK_EDGE as int) as u32 }
}

/// The global value `chunk * CHUNK_EDGE + local` on one axis.
pub open spec fn global_axis(chunk: i32, local: u32) -> int {
    chunk as int * CHUNK_EDGE as int + local as int
}

pub open spec fn global_fits(c: ChunkPos, l: TilePos) -> bool {
    i32::MIN <= global_axis(c.x, l.x) <= i32::MAX && i32::MIN <= global_axis(c.y, l.y) <= i32::MAX
}

/// The tile at position `l` of chunk `c`.
pub open spec fn global_of(c: ChunkPos, l: TilePos) -> GlobalPos {
    GlobalPos { q: global_axis(c.x, l.x) as i32, r: global_axis(c.y, l.y) as i32 }
}

proof fn lemma_axis_split(v: i32)
    ensures
        i32::MIN <= (v as int) / 32 <= i32::MAX,
        0 <= (v as int) % 32 < 32,
        ((v as int) / 32) * 32 + (v as int) % 32 == v,
{
    vstd::arithmetic::div_mod::lemma_fundamental_div_mod(v as int, CHUNK_EDGE as int);
}

/// Splits a global tile coordinate into its chunk and its position inside
/// that chunk, flooring towards negative infinity on each axis.
pub fn chunk_and_local_from_global(global_pos: GlobalPos) -> (r: (ChunkPos, TilePos))
    ensures
        r.0 == chunk_of(global_pos),
        r.1 == local_of(global_pos),
        r.1.in_chunk(),
{
    proof {
        lemma_axis_split(global_pos.q);
        lemma_axis_split(global_pos.r);
    }
    let cx = match global_pos.q.checked_div_euclid(CHUNK_EDGE) { Some(v) => v, None => 0 };
    let cy = match global_pos.r.checked_div_euclid(CHUNK_EDGE) { Some(v) => v, None => 0 };
    let lx = match global_pos.q.checked_rem_euclid(CHUNK_EDGE) { Some(v) => v, None => 0 };
    let ly = match global_pos.r.checked_rem_euclid(CHUNK_EDGE) { Some(v) => v, None => 0 };
    (ChunkPos { x: cx, y: cy }, TilePos { x: lx as u32, y: ly as u32 })
}

/// Rebuilds the global coordinate of the tile at `local` in chunk `chunk`.
pub fn global_from_chunk_and_local(chunk: ChunkPos, local: TilePos) -> (r: GlobalPos)
    requires
        global_fits(chunk, local),
    ensures
        r == global_of(chunk, local),
{
    let q = chunk.x as i64 * CHUNK_EDGE as i64 + local.x as i64;
    let r = chunk.y as i64 * CHUNK_EDGE as i64 + local.y as i64;
    GlobalPos { q: q as i32, r: r as i32 }
}

/// The chunk of a tile is its coordinates floored by `CHUNK_EDGE`, and
/// lies well inside the range of `i32`.
pub proof fn lemma_chunk_of_bounds(g: GlobalPos)
    ensures
        chunk_of(g).x == g.q as int / CHUNK_EDGE as int,
        chunk_of(g).y == g.r as int / CHUNK_EDGE as int,
        -0x400_0000 <= chunk_of(g).x <= 0x400_0000,
        -0x400_0000 <= chunk_of(g).y <= 0x400_0000,
{
    lemma_axis_split(g.q);
    lemma_axis_split(g.r);
}

/// Splitting a global coordinate and joining the parts again gives the
/// coordinate back, for every coordinate, negative ones included.
pub proof fn lemma_round_trip(g: GlobalPos)
    ensures
        local_of(g).in_chunk(),
        global_fits(chunk_of(g), local_of(g)),
        global_of(chunk_of(g), local_of(g)) == g,
{
    lemma_axis_split(g.q);
    lemma_axis_split(g.r);
}

/// A single integer that identifies chunk `c`: `x` in the high 32 bits,
/// `y` shifted to be non-negative in the low 32 bits.
pub open spec fn chunk_key(c: ChunkPos) -> int {
    c.x as int * 0x1_0000_0000 + (c.y as int + 0x8000_0000)
}

/// The key of a chunk fits in `i64`, and two chunks share a key only if
/// they are the same chunk.
pub proof fn lemma_chunk_key(a: ChunkPos, b: ChunkPos)
    ensures
        i64::MIN <= chunk_key(a) <= i64::MAX,
        chunk_key(a) == chunk_key(b) ==> a == b,
{
    let ya = a.y as int + 0x8000_0000;
    let yb = b.y as int + 0x8000_0000;
    assert(0 <= ya < 0x1_0000_0000 && 0 <= yb < 0x1_0000_0000);
    if chunk_key(a) == chunk_key(b) {
        assert(a.x == b.x) by (nonlinear_arith)
            requires
                a.x as int * 0x1_0000_0000 + ya == b.x as int * 0x1_0000_0000 + yb,
                0 <= ya < 0x1_0000_0000,
                0 <= yb < 0x1_0000_0000,
        {
        }
    }
    assert(i64::MIN <= chunk_key(a) <= i64::MAX) by (nonlinear_arith)
        requires
            i32::MIN <= a.x <= i32::MAX,
            0 <= ya < 0x1_0000_0000,
            chunk_key(a) == a.x as int * 0x1_0000_0000 + ya,
    {
    }
}

/// The key of chunk `c`.
pub fn chunk_key_of(c: ChunkPos) -> (k: i64)
    ensures
        k == chunk_key(c),
{
    proof { lemma_chunk_key(c, c); }
    c.x as i64 * 0x1_0000_0000i64 + (c.y as i64 + 0x8000_0000i64)
}

/// Whether `target` lies in the square of chunks of half-width `radius`
/// around `origin` (a Chebyshev distance test).
pub open spec fn in_radius(origin: ChunkPos, target: ChunkPos, radius: int) -> bool {
    origin.x - radius <= target.x <= origin.x + radius
        && origin.y - radius <= target.y <= origin.y + radius
}

/// Whether `target` lies within Chebyshev distance `radius` of `origin`.
pub fn is_chunk_in_radius(origin: ChunkPos, target: ChunkPos, radius: i32) -> (r: bool)
    ensures
        r == in_radius(origin, target, radius as int),
{
    let ox = origin.x as i64;
    let oy = origin.y as i64;
    let rad = radius as i64;
    ox - rad <= target.x as i64 && target.x as i64 <= ox + rad
        && oy - rad <= target.y as i64 && target.y as i64 <= oy + rad
}

/// Half of `r`, rounded away from zero: the shift of row `r` in the
/// row-even layout.
pub open spec fn ceil_half(r: int) -> int {
    if r < 0 {
        -((1 - r) / 2)
    } else {
        (r + 1) / 2
    }
}

pub open spec fn abs(x: int) -> int {
    if x < 0 {
        -x
    } else {
        x
    }
}

/// Number of steps between tiles `(aq, ar)` and `(bq, br)` of the
/// row-even layout: the tiles are taken to axial coordinates, and the
/// distance is the largest of the three cube components of their
/// difference.
pub open spec fn hex_distance(aq: int, ar: int, bq: int, br: int) -> int {
    let dq = (aq - ceil_half(ar)) - (bq - ceil_half(br));
    let dr = ar - br;
    let m = if abs(dq) < abs(dr) { abs(dr) } else { abs(dq) };
    if m < abs(dq + dr) {
        abs(dq + dr)
    } else {
        m
    }
}

/// Coordinate bound under which hex distances are computed without overflow.
pub open spec fn hex_bounded(v: int) -> bool {
    -0x100_0000_0000 <= v <= 0x100_0000_0000
}

fn ceil_half_exec(r: i64) -> (h: i64)
    requires
        hex_bounded(r as int),
    ensures
        h == ceil_half(r as int),
{
    if r < 0 {
        let u: u64 = (1 - r) as u64;
        -((u / 2) as i64)
    } else {
        let u: u64 = (r + 1) as u64;
        (u / 2) as i64
    }
}

fn abs_exec(x: i64) -> (r: i64)
    requires
        x > i64::MIN,
    ensures
        r == abs(x as int),
{
    if x < 0 {
        -x
    } else {
        x
    }
}

/// Number of steps between tiles `(aq, ar)` and `(bq, br)`.
pub fn hex_distance_between(aq: i64, ar: i64, bq: i64, br: i64) -> (d: i64)
    requires
        hex_bounded(aq as int),
        hex_bounded(ar as int),
        hex_bounded(bq as int),
        hex_bounded(br as int),
    ensures
        d == hex_distance(aq as int, ar as int, bq as int, br as int),
{
    let dq = (aq - ceil_half_exec(ar)) - (bq - ceil_half_exec(br));
    let dr = ar - br;
    let adq = abs_exec(dq);
    let adr = abs_exec(dr);
    let ads = abs_exec(dq + dr);
    let m = if adq < adr { adr } else { adq };
    if m < ads {
        ads
    } else {
        m
    }
}

} // verus!
