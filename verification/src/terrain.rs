//! The deterministic terrain generator: a per-world permutation table
//! drives continent-scale height noise, a per-chunk permutation table
//! perturbs the density field, and the density classifies every voxel
//! into stone, sand, dirt, water or air. Every byte of the result is
//! a function of the world seed and the chunk position alone, so any
//! generator, on any thread, fills a chunk identically.
use crate::chunk::Block;
use crate::chunk::Chunk;
use crate::chunk::count_non_air;
use crate::noise::ImprovedNoise;
use crate::noise::identity_bytes;
use crate::noise::shuffle_of;
use crate::noise::spec_abs;
use crate::noise::spec_noise;
use crate::noise::spec_noise_2d;
use crate::position::ChunkPosition;
use crate::position::spec_trunc_div;
use crate::position::trunc_div;
use crate::statistics::ChunkInfo;
use vstd::prelude::*;

verus! {

/// The seed the whole world is derived from.
#[derive(Debug, Clone, Copy, PartialEq, Eq, Structural)]
pub struct WorldSeed(pub u64);

/// The usage tag mixed into a derived random seed, so that the
/// world-scale table and the per-chunk tables draw from independent
/// streams.
pub const USAGE_FILL_CHUNK: u8 = 0;

pub const USAGE_FILL_WORLD: u8 = 1;

/// The value of an `i32` reinterpreted as an unsigned 32-bit value.
pub open spec fn spec_u32_of_i32(v: i32) -> u32 {
    if v >= 0 {
        v as u32
    } else {
        (v + 0x1_0000_0000) as u32
    }
}

fn u32_of_i32(v: i32) -> (r: u32)
    ensures
        r == spec_u32_of_i32(v),
{
    if v >= 0 {
        v as u32
    } else {
        ((v as i64) + 0x1_0000_0000) as u32
    }
}

/// The 32-byte generator seed derived from the world seed, a block
/// origin and a usage tag: the fields laid out little-endian, zero
/// padded, every byte XORed with 0xA5 to balance the bits around the
/// world origin.
pub open spec fn spec_random_seed(ws: u64, x: i32, y: i32, z: i32, usage: u8) -> Seq<u8> {
    let raw = vstd::bytes::spec_u64_to_le_bytes(ws) + vstd::bytes::spec_u32_to_le_bytes(
        spec_u32_of_i32(x),
    ) + vstd::bytes::spec_u32_to_le_bytes(spec_u32_of_i32(y))
        + vstd::bytes::spec_u32_to_le_bytes(spec_u32_of_i32(z)) + seq![usage] + Seq::new(
        11,
        |i: int| 0u8,
    );
    Seq::new(32, |i: int| raw[i] ^ 0xA5)
}

fn random_seed(ws: u64, x: i32, y: i32, z: i32, usage: u8) -> (r: Vec<u8>)
    ensures
        r@ == spec_random_seed(ws, x, y, z, usage),
        r@.len() == 32,
{
    proof {
        vstd::bytes::lemma_auto_spec_u64_to_from_le_bytes();
        vstd::bytes::lemma_auto_spec_u32_to_from_le_bytes();
    }
    let mut raw = vstd::bytes::u64_to_le_bytes(ws);
    let mut bx = vstd::bytes::u32_to_le_bytes(u32_of_i32(x));
    let mut by = vstd::bytes::u32_to_le_bytes(u32_of_i32(y));
    let mut bz = vstd::bytes::u32_to_le_bytes(u32_of_i32(z));
    raw.append(&mut bx);
    raw.append(&mut by);
    raw.append(&mut bz);
    raw.push(usage);
    let mut i: usize = 0;
    while i < 11
        invariant
            i <= 11,
            raw@.len() == 21 + i,
            raw@.take(21) == (vstd::bytes::spec_u64_to_le_bytes(ws)
                + vstd::bytes::spec_u32_to_le_bytes(spec_u32_of_i32(x))
                + vstd::bytes::spec_u32_to_le_bytes(spec_u32_of_i32(y))
                + vstd::bytes::spec_u32_to_le_bytes(spec_u32_of_i32(z)) + seq![usage]),
            forall|k: int| 21 <= k < raw@.len() ==> raw@[k] == 0u8,
        decreases 11 - i,
    {
        raw.push(0);
        proof {
            assert(raw@.take(21) =~= raw@.drop_last().take(21));
        }
        i = i + 1;
    }
    let ghost raw0 = raw@;
    let mut out: Vec<u8> = Vec::new();
    let mut j: usize = 0;
    while j < 32
        invariant
            j <= 32,
            raw@ == raw0,
            raw0.len() == 32,
            out@.len() == j,
            forall|k: int| 0 <= k < j ==> out@[k] == raw0[k] ^ 0xA5,
        decreases 32 - j,
    {
        let b = raw[j];
        out.push(b ^ 0xA5);
        j = j + 1;
    }
    proof {
        assert(out@ =~= spec_random_seed(ws, x, y, z, usage)) by {
            assert forall|k: int| 0 <= k < 32 implies out@[k] == spec_random_seed(
                ws,
                x,
                y,
                z,
                usage,
            )[k] by {
                if k < 21 {
                    assert(raw0[k] == raw0.take(21)[k]);
                }
            }
        }
    }
    out
}

/// The height field at a column: four octaves of two-dimensional
/// noise, amplitude halving and frequency doubling per octave, in
/// thousandths of a block. Coordinates are absolute block
/// coordinates.
pub open spec fn spec_height(p: Seq<u8>, x: int, z: int) -> int {
    spec_noise_2d(p, 5 * x, 5 * z) + spec_trunc_div(spec_noise_2d(p, 10 * x, 10 * z), 2)
        + spec_trunc_div(spec_noise_2d(p, 20 * x, 20 * z), 4) + spec_trunc_div(
        spec_noise_2d(p, 40 * x, 40 * z),
        8,
    )
}

/// The signed density value at a voxel: the height surplus over the
/// voxel, scaled down, then pushed away from zero by the magnitude of
/// a three-dimensional noise sample.
pub open spec fn spec_density(base: int, n: int) -> int {
    let m = (spec_abs(base) * (1000 + spec_abs(n))) / 1000;
    if base >= 0 {
        m
    } else {
        -m
    }
}

/// The block generated at absolute block coordinates, from the world
/// permutation table `g` and the chunk permutation table `c`.
#[verifier::opaque]
pub open spec fn spec_block_for(g: Seq<u8>, c: Seq<u8>, bx: int, by: int, bz: int) -> Block {
    let gh = 40 * spec_height(g, bx, bz);
    let delta = gh - 1000 * by;
    let base = spec_trunc_div(delta, 127);
    let n = spec_noise(c, 100 * bx, 100 * by, 100 * bz);
    let density = spec_density(base, n);
    if density > 0 || by < 0 {
        if density > 100 {
            Block::Stone
        } else if density > 0 {
            if by < 1 {
                Block::Sand
            } else {
                Block::Dirt
            }
        } else {
            Block::Water
        }
    } else {
        Block::Air
    }
}

/// The per-chunk permutation table for the chunk whose block origin
/// is `(ox, oy, oz)`.
pub open spec fn spec_chunk_table(ws: u64, ox: i32, oy: i32, oz: i32) -> Seq<u8> {
    shuffle_of(identity_bytes(), spec_random_seed(ws, ox, oy, oz, USAGE_FILL_CHUNK))
}

/// Every block of the chunk at block origin `(ox, oy, oz)`, flat in
/// `x * 256 + y * 16 + z` order.
pub open spec fn spec_fill_blocks(ws: u64, g: Seq<u8>, ox: int, oy: int, oz: int) -> Seq<Block> {
    let c = spec_chunk_table(ws, ox as i32, oy as i32, oz as i32);
    Seq::new(
        4096,
        |k: int| spec_block_for(g, c, ox + k / 256, oy + (k / 16) % 16, oz + k % 16),
    )
}

/// The deterministic per-world terrain generator.
pub struct TerrainGenerator {
    pub world_seed: WorldSeed,
    pub global_noise: ImprovedNoise,
}

/// The block data any well-formed generator for `seed` fills the
/// chunk at `position` with.
pub open spec fn spec_generated_blocks(seed: u64, position: ChunkPosition) -> Seq<Block> {
    spec_fill_blocks(
        seed,
        shuffle_of(identity_bytes(), spec_random_seed(seed, 0, 0, 0, USAGE_FILL_WORLD)),
        position.index.x * 16,
        position.index.y * 16,
        position.index.z * 16,
    )
}

impl TerrainGenerator {
    /// The world table is the one derived from the world seed at the
    /// origin.
    pub open spec fn wf(self) -> bool {
        &&& self.global_noise.wf()
        &&& self.global_noise.permutation@ == shuffle_of(
            identity_bytes(),
            spec_random_seed(self.world_seed.0, 0, 0, 0, USAGE_FILL_WORLD),
        )
    }

    pub fn new(world_seed: WorldSeed) -> (r: TerrainGenerator)
        ensures
            r.wf(),
            r.world_seed == world_seed,
    {
        let seed = random_seed(world_seed.0, 0, 0, 0, USAGE_FILL_WORLD);
        let global_noise = ImprovedNoise::new(&seed);
        TerrainGenerator { world_seed, global_noise }
    }

    fn height(&self, x: i64, z: i64) -> (r: i64)
        requires
            self.wf(),
            -3_000_000_000 <= x <= 3_000_000_000,
            -3_000_000_000 <= z <= 3_000_000_000,
        ensures
            r == spec_height(self.global_noise.permutation@, x as int, z as int),
            -26_000_000 <= r <= 26_000_000,
    {
        let n1 = self.global_noise.noise_2d(5 * x, 5 * z);
        let n2 = self.global_noise.noise_2d(10 * x, 10 * z);
        let n3 = self.global_noise.noise_2d(20 * x, 20 * z);
        let n4 = self.global_noise.noise_2d(40 * x, 40 * z);
        n1 + trunc_div(n2, 2) + trunc_div(n3, 4) + trunc_div(n4, 8)
    }

    /// The block at absolute block coordinates, using the already
    /// derived per-chunk table.
    fn block_for(&self, chunk_noise: &ImprovedNoise, bx: i64, by: i64, bz: i64) -> (r: Block)
        requires
            self.wf(),
            chunk_noise.wf(),
            -3_000_000_000 <= bx <= 3_000_000_000,
            -3_000_000_000 <= by <= 3_000_000_000,
            -3_000_000_000 <= bz <= 3_000_000_000,
        ensures
            r == spec_block_for(
                self.global_noise.permutation@,
                chunk_noise.permutation@,
                bx as int,
                by as int,
                bz as int,
            ),
    {
        proof {
            reveal(spec_block_for);
        }
        let h = self.height(bx, bz);
        let gh = 40 * h;
        let delta = gh - 1000 * by;
        let base = trunc_div(delta, 127);
        let n = chunk_noise.noise(100 * bx, 100 * by, 100 * bz);
        let abs_base: i64 = if base >= 0 {
            base
        } else {
            -base
        };
        let abs_n: i64 = if n >= 0 {
            n
        } else {
            -n
        };
        proof {
            assert(0 <= abs_base as i128 * ((1000 + abs_n) as i128) <= 0x7FFF_FFFF_FFFF_FFFF_FFFF)
                by (nonlinear_arith)
                requires
                    0 <= abs_base <= 100_000_000_000,
                    0 <= abs_n <= 600_000_000,
            ;
        }
        let magnitude: i128 = ((abs_base as i128 * ((1000 + abs_n) as i128)) as u128
            / 1000) as i128;
        let density: i128 = if base >= 0 {
            magnitude
        } else {
            -magnitude
        };
        proof {
            assert(density == spec_density(base as int, n as int));
        }
        if density > 0 || by < 0 {
            if density > 100 {
                Block::Stone
            } else if density > 0 {
                if by < 1 {
                    Block::Sand
                } else {
                    Block::Dirt
                }
            } else {
                Block::Water
            }
        } else {
            Block::Air
        }
    }

    /// Fills the chunk at `position`. Returns `None` when the chunk
    /// came out all Air (the store represents it by the shared air
    /// chunk instead); otherwise the chunk comes back with its
    /// occupancy counter and transparency mask already in order.
    pub fn fill_chunk(&self, position: ChunkPosition) -> (r: (Option<Chunk>, ChunkInfo))
        requires
            self.wf(),
            position.origin_in_range(),
        ensures
            ({
                let blocks = spec_generated_blocks(self.world_seed.0, position);
                &&& r.1.non_air_block_count == count_non_air(blocks)
                &&& r.0 is None <==> count_non_air(blocks) == 0
                &&& r.0 matches Some(c) ==> {
                    &&& c.wf()
                    &&& c.transparency_accurate()
                    &&& c.transparency == crate::chunk::spec_transparency_byte(blocks)
                    &&& c.blocks@ == blocks
                    &&& c.non_air_block_count == count_non_air(blocks)
                    &&& c.in_mesh_queue == false
                }
            }),
    {
        let origin = position.block();
        let seed = random_seed(
            self.world_seed.0,
            origin.index.x,
            origin.index.y,
            origin.index.z,
            USAGE_FILL_CHUNK,
        );
        let chunk_noise = ImprovedNoise::new(&seed);
        let ghost blocks = spec_generated_blocks(self.world_seed.0, position);
        let mut result = Chunk::new();
        let mut t: usize = 0;
        while t < 4096
            invariant
                self.wf(),
                chunk_noise.wf(),
                chunk_noise.permutation@ == spec_chunk_table(
                    self.world_seed.0,
                    (position.index.x * 16) as i32,
                    (position.index.y * 16) as i32,
                    (position.index.z * 16) as i32,
                ),
                position.origin_in_range(),
                origin.index.x == position.index.x * 16,
                origin.index.y == position.index.y * 16,
                origin.index.z == position.index.z * 16,
                blocks == spec_generated_blocks(self.world_seed.0, position),
                t <= 4096,
                result.wf(),
                result.in_mesh_queue == false,
                result.transparency == 0,
                forall|k: int| 0 <= k < t ==> result.blocks@[k] == blocks[k],
                forall|k: int| t <= k < 4096 ==> (#[trigger] result.blocks@[k]).is_air(),
            decreases 4096 - t,
        {
            let x = t / 256;
            let y = (t / 16) % 16;
            let z = t % 16;
            proof {
                assert(x < 16 && y < 16 && z < 16 && x * 256 + y * 16 + z == t)
                    by (nonlinear_arith)
                    requires
                        t < 4096,
                        x == t as int / 256,
                        y == (t as int / 16) % 16,
                        z == t as int % 16,
                ;
            }
            let bx = origin.index.x as i64 + x as i64;
            let by = origin.index.y as i64 + y as i64;
            let bz = origin.index.z as i64 + z as i64;
            let block = self.block_for(&chunk_noise, bx, by, bz);
            result.set_block_local(x, y, z, block);
            proof {
                assert(block == blocks[t as int]);
            }
            t = t + 1;
        }
        proof {
            assert(result.blocks@ =~= blocks);
        }
        let info = ChunkInfo { non_air_block_count: result.non_air_block_count };
        if result.non_air_block_count == 0 {
            proof {
                assert(count_non_air(blocks) == 0);
            }
            (None, info)
        } else {
            result.compute_transparency();
            (Some(result), info)
        }
    }
}

/// Determinism: two well-formed generators for the same world seed
/// fill any chunk with byte-identical block data, whichever actor
/// runs them and in whatever order the chunks are asked for.
pub proof fn lemma_fill_chunk_deterministic(
    g1: TerrainGenerator,
    g2: TerrainGenerator,
    position: ChunkPosition,
)
    requires
        g1.wf(),
        g2.wf(),
        g1.world_seed == g2.world_seed,
    ensures
        spec_generated_blocks(g1.world_seed.0, position) == spec_generated_blocks(
            g2.world_seed.0,
            position,
        ),
{
}

} // verus!
