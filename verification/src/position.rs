//! Integer coordinate spaces: absolute block coordinates and chunk
//! coordinates, related by `block = chunk * 16 + local_offset` with
//! floor division so that negative coordinates resolve correctly.
use vstd::prelude::*;

verus! {

/// A triple of integer coordinates.
#[derive(Debug, Clone, Copy, PartialEq, Eq, Structural, Hash)]
pub struct IVec3 {
    pub x: i32,
    pub y: i32,
    pub z: i32,
}

impl IVec3 {
    pub fn new(x: i32, y: i32, z: i32) -> (v: IVec3)
        ensures
            v == (IVec3 { x, y, z }),
    {
        IVec3 { x, y, z }
    }
}

/// Thousandths of a block: the fixed-point scale continuous positions
/// are measured in.
pub const MILLIS_PER_BLOCK: i64 = 1000;

/// A continuous position or displacement in fixed-point coordinates,
/// each component counting thousandths of a block.
#[derive(Debug, Clone, Copy, PartialEq, Eq, Structural)]
pub struct MilliVec3 {
    pub x: i64,
    pub y: i64,
    pub z: i64,
}

impl MilliVec3 {
    pub fn new(x: i64, y: i64, z: i64) -> (v: MilliVec3)
        ensures
            v == (MilliVec3 { x, y, z }),
    {
        MilliVec3 { x, y, z }
    }
}

/// Division rounding toward negative infinity; in specifications `/` on
/// `int` is Euclidean division, which agrees with floor division for a
/// positive divisor.
fn div_floor_16(lhs: i32) -> (q: i32)
    ensures
        q == lhs as int / 16,
{
    let d = lhs / 16;
    let r = lhs % 16;
    if r < 0 {
        d - 1
    } else {
        d
    }
}

/// Position of a chunk in the grid of chunks.
#[derive(Debug, Clone, Copy, PartialEq, Eq, Structural, Hash)]
pub struct ChunkPosition {
    pub index: IVec3,
}

/// Position of a block in absolute block coordinates.
#[derive(Debug, Clone, Copy, PartialEq, Eq, Structural, Hash)]
pub struct BlockPosition {
    pub index: IVec3,
}

impl ChunkPosition {
    pub fn from_chunk_index(index: IVec3) -> (p: ChunkPosition)
        ensures
            p.index == index,
    {
        ChunkPosition { index }
    }

    /// The chunk indices whose block origin stays within `i32`.
    pub open spec fn origin_in_range(self) -> bool {
        &&& i32::MIN <= self.index.x * 16 <= i32::MAX
        &&& i32::MIN <= self.index.y * 16 <= i32::MAX
        &&& i32::MIN <= self.index.z * 16 <= i32::MAX
    }

    /// The absolute block position of this chunk's origin corner.
    pub fn block(self) -> (p: BlockPosition)
        requires
            self.origin_in_range(),
        ensures
            p.index.x == self.index.x * 16,
            p.index.y == self.index.y * 16,
            p.index.z == self.index.z * 16,
    {
        BlockPosition {
            index: IVec3 {
                x: self.index.x * 16,
                y: self.index.y * 16,
                z: self.index.z * 16,
            },
        }
    }

    pub fn index(self) -> (v: IVec3)
        ensures
            v == self.index,
    {
        self.index
    }

    /// The chunk `direction` steps away, with wrapping arithmetic at
    /// the edge of the coordinate space.
    pub open spec fn spec_plus(self, dx: i32, dy: i32, dz: i32) -> ChunkPosition {
        ChunkPosition {
            index: IVec3 {
                x: vstd::wrapping::i32_specs::wrapping_add(self.index.x, dx),
                y: vstd::wrapping::i32_specs::wrapping_add(self.index.y, dy),
                z: vstd::wrapping::i32_specs::wrapping_add(self.index.z, dz),
            },
        }
    }

    #[must_use]
    pub fn plus(self, direction: IVec3) -> (p: ChunkPosition)
        ensures
            p == self.spec_plus(direction.x, direction.y, direction.z),
    {
        ChunkPosition {
            index: IVec3 {
                x: self.index.x.wrapping_add(direction.x),
                y: self.index.y.wrapping_add(direction.y),
                z: self.index.z.wrapping_add(direction.z),
            },
        }
    }

    /// What `normalize` returns: the chunk shifted by the whole
    /// chunks the offset drifted, and the offset folded back into
    /// `[0, 16)` blocks.
    pub open spec fn spec_normalize(self, relative: MilliVec3) -> (ChunkPosition, MilliVec3) {
        (
            self.spec_plus(
                (relative.x as int / 16000) as i32,
                (relative.y as int / 16000) as i32,
                (relative.z as int / 16000) as i32,
            ),
            MilliVec3 {
                x: (relative.x as int % 16000) as i64,
                y: (relative.y as int % 16000) as i64,
                z: (relative.z as int % 16000) as i64,
            },
        )
    }

    /// Re-anchors a continuous offset that drifted outside this
    /// chunk: the returned chunk absorbs whole multiples of 16
    /// blocks, and the returned offset lies within `[0, 16)` blocks
    /// again. This keeps the player's local position numerically
    /// small however far from the origin it travels.
    pub fn normalize(self, relative: MilliVec3) -> (r: (ChunkPosition, MilliVec3))
        requires
            -100_000_000 <= relative.x <= 100_000_000,
            -100_000_000 <= relative.y <= 100_000_000,
            -100_000_000 <= relative.z <= 100_000_000,
        ensures
            r == self.spec_normalize(relative),
            0 <= r.1.x < 16000,
            0 <= r.1.y < 16000,
            0 <= r.1.z < 16000,
    {
        let ox = floor_div_16000(relative.x);
        let oy = floor_div_16000(relative.y);
        let oz = floor_div_16000(relative.z);
        proof {
            lemma_mod_16000(relative.x as int, ox as int);
            lemma_mod_16000(relative.y as int, oy as int);
            lemma_mod_16000(relative.z as int, oz as int);
        }
        let chunk = self.plus(IVec3 { x: ox as i32, y: oy as i32, z: oz as i32 });
        let offset = MilliVec3 {
            x: relative.x - 16000 * ox,
            y: relative.y - 16000 * oy,
            z: relative.z - 16000 * oz,
        };
        (chunk, offset)
    }
}

impl BlockPosition {
    pub fn new(index: IVec3) -> (p: BlockPosition)
        ensures
            p.index == index,
    {
        BlockPosition { index }
    }

    pub fn index(self) -> (v: IVec3)
        ensures
            v == self.index,
    {
        self.index
    }

    /// The chunk containing this block.
    pub open spec fn spec_chunk(self) -> ChunkPosition {
        ChunkPosition {
            index: IVec3 {
                x: (self.index.x as int / 16) as i32,
                y: (self.index.y as int / 16) as i32,
                z: (self.index.z as int / 16) as i32,
            },
        }
    }

    /// The offset of this block within its chunk, each component in
    /// `0..16`.
    pub open spec fn spec_local(self) -> (int, int, int) {
        (
            self.index.x - (self.index.x as int / 16) * 16,
            self.index.y - (self.index.y as int / 16) * 16,
            self.index.z - (self.index.z as int / 16) * 16,
        )
    }

    /// The block `direction` steps away, with wrapping arithmetic at
    /// the edge of the coordinate space.
    pub open spec fn spec_plus(self, dx: i32, dy: i32, dz: i32) -> BlockPosition {
        BlockPosition {
            index: IVec3 {
                x: vstd::wrapping::i32_specs::wrapping_add(self.index.x, dx),
                y: vstd::wrapping::i32_specs::wrapping_add(self.index.y, dy),
                z: vstd::wrapping::i32_specs::wrapping_add(self.index.z, dz),
            },
        }
    }

    #[must_use]
    pub fn plus(self, direction: IVec3) -> (p: BlockPosition)
        ensures
            p == self.spec_plus(direction.x, direction.y, direction.z),
    {
        BlockPosition {
            index: IVec3 {
                x: self.index.x.wrapping_add(direction.x),
                y: self.index.y.wrapping_add(direction.y),
                z: self.index.z.wrapping_add(direction.z),
            },
        }
    }

    /// The chunk containing this block: each axis floor-divided by 16.
    pub fn chunk(self) -> (c: ChunkPosition)
        ensures
            c == self.spec_chunk(),
            c.index.x == self.index.x as int / 16,
            c.index.y == self.index.y as int / 16,
            c.index.z == self.index.z as int / 16,
            c.origin_in_range(),
    {
        let c = ChunkPosition {
            index: IVec3 {
                x: div_floor_16(self.index.x),
                y: div_floor_16(self.index.y),
                z: div_floor_16(self.index.z),
            },
        };
        proof {
            lemma_div16_origin_in_range(self.index.x);
            lemma_div16_origin_in_range(self.index.y);
            lemma_div16_origin_in_range(self.index.z);
        }
        c
    }
}

proof fn lemma_div16_origin_in_range(v: i32)
    ensures
        i32::MIN <= (v as int / 16) * 16 <= i32::MAX,
{
    assert(i32::MIN <= (v as int / 16) * 16 <= i32::MAX) by (nonlinear_arith)
        requires
            i32::MIN <= v <= i32::MAX,
    ;
}

/// Every block position lies inside the 16-block extent of its chunk:
/// `p.chunk().block() <= p < p.chunk().block() + 16` on every axis.
pub proof fn lemma_block_chunk_round_trip(p: BlockPosition)
    ensures
        (p.index.x as int / 16) * 16 <= p.index.x < (p.index.x as int / 16) * 16 + 16,
        (p.index.y as int / 16) * 16 <= p.index.y < (p.index.y as int / 16) * 16 + 16,
        (p.index.z as int / 16) * 16 <= p.index.z < (p.index.z as int / 16) * 16 + 16,
{
    lemma_floor_div16_bounds(p.index.x as int);
    lemma_floor_div16_bounds(p.index.y as int);
    lemma_floor_div16_bounds(p.index.z as int);
}

proof fn lemma_floor_div16_bounds(v: int)
    ensures
        (v / 16) * 16 <= v < (v / 16) * 16 + 16,
{
    assert((v / 16) * 16 <= v < (v / 16) * 16 + 16) by (nonlinear_arith);
}

/// Truncating division (toward zero) by a positive divisor, as the
/// hardware computes it.
pub open spec fn spec_trunc_div(a: int, d: int) -> int {
    if a >= 0 {
        a / d
    } else {
        -((-a) / d)
    }
}

pub fn trunc_div(a: i64, d: i64) -> (r: i64)
    requires
        d > 0,
        -100_000_000_000_000 <= a <= 100_000_000_000_000,
    ensures
        r == spec_trunc_div(a as int, d as int),
        a >= 0 ==> 0 <= r <= a,
        a < 0 ==> a <= r <= 0,
{
    if a >= 0 {
        let q = (a as u64 / d as u64) as i64;
        proof {
            assert(a as int / d as int <= a) by (nonlinear_arith)
                requires
                    a >= 0,
                    d > 0,
            ;
        }
        q
    } else {
        let q = ((-a) as u64 / d as u64) as i64;
        proof {
            assert((-a) as int / d as int <= -a) by (nonlinear_arith)
                requires
                    a < 0,
                    d > 0,
            ;
        }
        -q
    }
}

/// Flooring division by 1000: the block coordinate of a fixed-point
/// coordinate.
pub fn floor_div_1000(a: i64) -> (r: i64)
    requires
        -1_000_000_000_000 <= a <= 1_000_000_000_000,
    ensures
        r == a as int / 1000,
        -1_000_000_000 <= r <= 1_000_000_000,
{
    if a >= 0 {
        (a as u64 / 1000) as i64
    } else {
        let b = ((((-a) as u64) + 999) / 1000) as i64;
        proof {
            let q = a as int / 1000;
            let m = a as int % 1000;
            assert(a == 1000 * q + m && 0 <= m < 1000) by (nonlinear_arith)
                requires
                    q == a as int / 1000,
                    m == a as int % 1000,
            ;
            assert(((-a) as int + 999) / 1000 == -q) by (nonlinear_arith)
                requires
                    a < 0,
                    a == 1000 * q + m,
                    0 <= m < 1000,
            ;
        }
        -b
    }
}


/// Flooring division by 16000: the chunk coordinate of a fixed-point
/// coordinate relative to a chunk origin.
pub fn floor_div_16000(a: i64) -> (r: i64)
    requires
        -1_000_000_000_000 <= a <= 1_000_000_000_000,
    ensures
        r == a as int / 16000,
        -1_000_000_000 <= r <= 1_000_000_000,
{
    if a >= 0 {
        (a as u64 / 16000) as i64
    } else {
        let b = ((((-a) as u64) + 15999) / 16000) as i64;
        proof {
            let q = a as int / 16000;
            let m = a as int % 16000;
            assert(a == 16000 * q + m && 0 <= m < 16000) by (nonlinear_arith)
                requires
                    q == a as int / 16000,
                    m == a as int % 16000,
            ;
            assert(((-a) as int + 15999) / 16000 == -q) by (nonlinear_arith)
                requires
                    a < 0,
                    a == 16000 * q + m,
                    0 <= m < 16000,
            ;
        }
        -b
    }
}

/// The remainder matching a flooring division by 16000.
proof fn lemma_mod_16000(v: int, q: int)
    requires
        q == v / 16000,
    ensures
        v - 16000 * q == v % 16000,
        0 <= v - 16000 * q < 16000,
        -0x8000_0000 <= q <= 0x7FFF_FFFF || !(-100_000_000 <= v <= 100_000_000),
{
    assert(v - 16000 * (v / 16000) == v % 16000 && 0 <= v % 16000 < 16000) by (nonlinear_arith);
    if -100_000_000 <= v <= 100_000_000 {
        assert(-0x8000_0000 <= v / 16000 <= 0x7FFF_FFFF) by (nonlinear_arith)
            requires
                -100_000_000 <= v <= 100_000_000,
        ;
    }
}

} // verus!
