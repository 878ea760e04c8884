//! A chunk: a 16 x 16 x 16 cube of blocks stored as one flat buffer,
//! with a cached per-face transparency bitmask and an occupancy counter
//! that is maintained incrementally on every write.
use vstd::prelude::*;

verus! {

/// Number of blocks in a chunk.
pub const MAX_BLOCK_COUNT: u16 = 4096;

/// One voxel. Air and Water, the non-solid blocks, are transparent;
/// every solid block is opaque. Every block but Air counts toward a
/// chunk's occupancy, so occupancy and opacity are distinct
/// properties: a chunk full of water is fully occupied yet lets
/// light through every face.
#[derive(Debug, Clone, Copy, PartialEq, Eq, Structural, Hash)]
pub enum Block {
    Air,
    Dirt,
    Stone,
    Sand,
    Water,
    Button,
}

impl Block {
    pub open spec fn is_air(self) -> bool {
        self matches Block::Air
    }

    pub open spec fn is_transparent(self) -> bool {
        self == Block::Air || self == Block::Water
    }

    pub fn transparent(&self) -> (r: bool)
        ensures
            r == self.is_transparent(),
    {
        match self {
            Block::Air => true,
            Block::Dirt => false,
            Block::Stone => false,
            Block::Sand => false,
            Block::Water => true,
            Block::Button => false,
        }
    }

    /// Whether this block is Air, as a plain test; occupancy counts
    /// every other block, transparent or not.
    pub fn air(&self) -> (r: bool)
        ensures
            r == self.is_air(),
    {
        match self {
            Block::Air => true,
            _ => false,
        }
    }

    /// The identifier this block travels as in serialized chunk data.
    pub open spec fn spec_id(self) -> u8 {
        match self {
            Block::Air => 0,
            Block::Dirt => 1,
            Block::Stone => 2,
            Block::Sand => 3,
            Block::Water => 4,
            Block::Button => 5,
        }
    }

    pub fn id(&self) -> (r: u8)
        ensures
            r == self.spec_id(),
    {
        match self {
            Block::Air => 0,
            Block::Dirt => 1,
            Block::Stone => 2,
            Block::Sand => 3,
            Block::Water => 4,
            Block::Button => 5,
        }
    }

    pub open spec fn spec_from_id(id: u8) -> Option<Block> {
        match id {
            0u8 => Some(Block::Air),
            1u8 => Some(Block::Dirt),
            2u8 => Some(Block::Stone),
            3u8 => Some(Block::Sand),
            4u8 => Some(Block::Water),
            5u8 => Some(Block::Button),
            _ => None,
        }
    }

    pub fn from_id(id: u8) -> (r: Option<Block>)
        ensures
            r == Block::spec_from_id(id),
    {
        match id {
            0u8 => Some(Block::Air),
            1u8 => Some(Block::Dirt),
            2u8 => Some(Block::Stone),
            3u8 => Some(Block::Sand),
            4u8 => Some(Block::Water),
            5u8 => Some(Block::Button),
            _ => None,
        }
    }
}

/// A face of a chunk, or the marker recording that the transparency
/// mask has been computed at all. Each variant owns one bit of the
/// mask.
#[derive(Debug, Clone, Copy, PartialEq, Eq, Structural)]
pub enum Transparency {
    PosX,
    NegX,
    PosY,
    NegY,
    PosZ,
    NegZ,
    Computed,
}

impl Transparency {
    /// The bit of the transparency mask owned by this variant.
    pub open spec fn spec_mask(self) -> u8 {
        match self {
            Transparency::PosX => 0x01,
            Transparency::NegX => 0x02,
            Transparency::PosY => 0x04,
            Transparency::NegY => 0x08,
            Transparency::PosZ => 0x10,
            Transparency::NegZ => 0x20,
            Transparency::Computed => 0x40,
        }
    }

    pub fn mask(self) -> (r: u8)
        ensures
            r == self.spec_mask(),
    {
        match self {
            Transparency::PosX => 0x01,
            Transparency::NegX => 0x02,
            Transparency::PosY => 0x04,
            Transparency::NegY => 0x08,
            Transparency::PosZ => 0x10,
            Transparency::NegZ => 0x20,
            Transparency::Computed => 0x40,
        }
    }
}

/// Whether the bit for `direction` is set in a transparency mask.
pub open spec fn mask_bit(mask: u8, direction: Transparency) -> bool {
    mask & direction.spec_mask() != 0
}

/// The exact mask byte `compute_transparency` produces for the given
/// block data.
pub open spec fn spec_transparency_byte(s: Seq<Block>) -> u8 {
    if count_non_air(s) == 0 {
        0xFF
    } else {
        0x40u8 | (if face_transparent(s, Transparency::PosX) {
            0x01u8
        } else {
            0u8
        }) | (if face_transparent(s, Transparency::NegX) {
            0x02u8
        } else {
            0u8
        }) | (if face_transparent(s, Transparency::PosY) {
            0x04u8
        } else {
            0u8
        }) | (if face_transparent(s, Transparency::NegY) {
            0x08u8
        } else {
            0u8
        }) | (if face_transparent(s, Transparency::PosZ) {
            0x10u8
        } else {
            0u8
        }) | (if face_transparent(s, Transparency::NegZ) {
            0x20u8
        } else {
            0u8
        })
    }
}

/// The flat index of local block coordinates.
pub open spec fn spec_block_index(x: int, y: int, z: int) -> int {
    x * 256 + y * 16 + z
}

/// The block at local coordinates in a flat block buffer.
pub open spec fn block_at(s: Seq<Block>, x: int, y: int, z: int) -> Block {
    s[spec_block_index(x, y, z)]
}

/// Whether the boundary cell `(i, j)` of the given face is transparent.
/// `Computed` names no face and holds of no cell.
pub open spec fn face_cell_transparent(s: Seq<Block>, f: Transparency, i: int, j: int) -> bool {
    match f {
        Transparency::PosX => block_at(s, 15, i, j).is_transparent(),
        Transparency::NegX => block_at(s, 0, i, j).is_transparent(),
        Transparency::PosY => block_at(s, i, 15, j).is_transparent(),
        Transparency::NegY => block_at(s, i, 0, j).is_transparent(),
        Transparency::PosZ => block_at(s, i, j, 15).is_transparent(),
        Transparency::NegZ => block_at(s, i, j, 0).is_transparent(),
        Transparency::Computed => false,
    }
}

/// Whether the 16 x 16 boundary layer of the given face contains at
/// least one transparent block: the brute-force reading of one bit of
/// the transparency mask.
pub open spec fn face_transparent(s: Seq<Block>, f: Transparency) -> bool {
    exists|i: int, j: int|
        0 <= i < 16 && 0 <= j < 16 && #[trigger] face_cell_transparent(s, f, i, j)
}

/// Number of entries of `s` that are not Air.
pub open spec fn count_non_air(s: Seq<Block>) -> int
    decreases s.len(),
{
    if s.len() == 0 {
        0
    } else {
        count_non_air(s.drop_last()) + if s.last().is_air() {
            0int
        } else {
            1int
        }
    }
}

pub proof fn lemma_count_non_air_bounds(s: Seq<Block>)
    ensures
        0 <= count_non_air(s) <= s.len(),
    decreases s.len(),
{
    if s.len() > 0 {
        lemma_count_non_air_bounds(s.drop_last());
    }
}

/// How one write moves the occupancy count.
pub proof fn lemma_count_non_air_update(s: Seq<Block>, i: int, b: Block)
    requires
        0 <= i < s.len(),
    ensures
        count_non_air(s.update(i, b)) == count_non_air(s) - (if s[i].is_air() {
            0int
        } else {
            1int
        }) + (if b.is_air() {
            0int
        } else {
            1int
        }),
    decreases s.len(),
{
    let t = s.update(i, b);
    if i == s.len() - 1 {
        assert(t.drop_last() =~= s.drop_last());
    } else {
        assert(t.drop_last() =~= s.drop_last().update(i, b));
        lemma_count_non_air_update(s.drop_last(), i, b);
    }
}

/// A chunk with no occupancy is all Air; one with full occupancy has no
/// Air anywhere.
pub proof fn lemma_count_non_air_extremes(s: Seq<Block>)
    ensures
        count_non_air(s) == 0 ==> forall|i: int| 0 <= i < s.len() ==> s[i].is_air(),
        count_non_air(s) == s.len() ==> forall|i: int| 0 <= i < s.len() ==> !s[i].is_air(),
    decreases s.len(),
{
    if s.len() > 0 {
        lemma_count_non_air_extremes(s.drop_last());
        lemma_count_non_air_bounds(s.drop_last());
        assert(forall|i: int| 0 <= i < s.len() - 1 ==> s[i] == s.drop_last()[i]);
    }
}

/// A 16 x 16 x 16 cube of blocks: the unit of storage, generation and
/// meshing. Blocks are stored flat, `x * 256 + y * 16 + z`.
#[derive(Debug, Clone)]
pub struct Chunk {
    pub blocks: Vec<Block>,
    pub transparency: u8,
    pub in_mesh_queue: bool,
    pub non_air_block_count: u16,
}

impl Chunk {
    /// Well-formed: the buffer holds exactly one chunk of blocks and
    /// the occupancy counter agrees with the buffer.
    pub open spec fn wf(self) -> bool {
        &&& self.blocks@.len() == 4096
        &&& self.non_air_block_count == count_non_air(self.blocks@)
    }

    /// The cached transparency mask has been computed and still agrees
    /// with the block data.
    pub open spec fn transparency_accurate(self) -> bool {
        &&& mask_bit(self.transparency, Transparency::Computed)
        &&& forall|f: Transparency|
            f != Transparency::Computed ==> #[trigger] mask_bit(self.transparency, f)
                == face_transparent(self.blocks@, f)
    }

    /// A fresh all-Air chunk with no transparency information.
    pub fn new() -> (c: Chunk)
        ensures
            c.wf(),
            c.blocks@.len() == 4096,
            forall|i: int| 0 <= i < 4096 ==> c.blocks@[i].is_air(),
            c.transparency == 0,
            c.in_mesh_queue == false,
            c.non_air_block_count == 0,
    {
        let mut blocks: Vec<Block> = Vec::new();
        let mut i: usize = 0;
        while i < 4096
            invariant
                i <= 4096,
                blocks@.len() == i,
                forall|k: int| 0 <= k < i ==> blocks@[k].is_air(),
            decreases 4096 - i,
        {
            blocks.push(Block::Air);
            i = i + 1;
        }
        proof {
            lemma_all_air_count(blocks@);
        }
        Chunk { blocks, transparency: 0, in_mesh_queue: false, non_air_block_count: 0 }
    }

    /// The flat index of local block coordinates.
    pub fn index_of(x: usize, y: usize, z: usize) -> (r: usize)
        requires
            x < 16,
            y < 16,
            z < 16,
        ensures
            r == spec_block_index(x as int, y as int, z as int),
            r < 4096,
    {
        x * 256 + y * 16 + z
    }

    /// The block at local coordinates.
    pub fn get_block(&self, x: usize, y: usize, z: usize) -> (b: Block)
        requires
            self.blocks@.len() == 4096,
            x < 16,
            y < 16,
            z < 16,
        ensures
            b == block_at(self.blocks@, x as int, y as int, z as int),
    {
        self.blocks[Chunk::index_of(x, y, z)]
    }

    /// Writes one block, keeping the occupancy counter in step with
    /// the buffer; returns the previous block.
    pub fn set_block_local(&mut self, x: usize, y: usize, z: usize, b: Block) -> (previous: Block)
        requires
            old(self).wf(),
            x < 16,
            y < 16,
            z < 16,
        ensures
            final(self).wf(),
            previous == block_at(old(self).blocks@, x as int, y as int, z as int),
            final(self).blocks@ == old(self).blocks@.update(
                spec_block_index(x as int, y as int, z as int),
                b,
            ),
            final(self).transparency == old(self).transparency,
            final(self).in_mesh_queue == old(self).in_mesh_queue,
    {
        let i = Chunk::index_of(x, y, z);
        let previous = self.blocks[i];
        proof {
            lemma_count_non_air_update(self.blocks@, i as int, b);
            lemma_count_non_air_bounds(self.blocks@);
            lemma_count_non_air_extremes(self.blocks@);
        }
        self.blocks.set(i, b);
        if previous.air() && !b.air() {
            self.non_air_block_count = self.non_air_block_count + 1;
        }
        if !previous.air() && b.air() {
            self.non_air_block_count = self.non_air_block_count - 1;
        }
        previous
    }

    /// Whether the cached mask records a transparent boundary block in
    /// the given direction (or, for `Computed`, that the mask is
    /// known at all).
    pub fn get_transparency(&self, direction: Transparency) -> (r: bool)
        ensures
            r == mask_bit(self.transparency, direction),
    {
        (self.transparency & direction.mask()) != 0
    }

    /// Recomputes the transparency mask from the block data. Only the
    /// six 16 x 16 boundary layers are scanned, and an all-Air chunk
    /// is answered from the occupancy counter alone; the resulting
    /// mask always agrees with a brute-force scan of every boundary
    /// layer. A fully occupied chunk is scanned like any other, since
    /// occupancy does not imply opacity: water occupies but shows
    /// its faces.
    pub fn compute_transparency(&mut self)
        requires
            old(self).wf(),
        ensures
            final(self).wf(),
            final(self).blocks == old(self).blocks,
            final(self).non_air_block_count == old(self).non_air_block_count,
            final(self).in_mesh_queue == old(self).in_mesh_queue,
            final(self).transparency_accurate(),
            final(self).transparency == spec_transparency_byte(old(self).blocks@),
            old(self).non_air_block_count == 0 ==> final(self).transparency == 0xFF,
    {
        if self.non_air_block_count == 0 {
            self.transparency = 0xFF;
            proof {
                lemma_count_non_air_extremes(self.blocks@);
                assert forall|f: Transparency| f != Transparency::Computed implies #[trigger]
                    mask_bit(self.transparency, f) == face_transparent(self.blocks@, f) by {
                    lemma_face_cell_index(f, 0, 0);
                    assert(face_cell_transparent(self.blocks@, f, 0, 0));
                    lemma_mask_bits_of_literal(f);
                }
                assert(0xFFu8 & 0x40u8 != 0) by (bit_vector);
            }
            return ;
        }
        let px = scan_face(&self.blocks, Transparency::PosX);
        let nx = scan_face(&self.blocks, Transparency::NegX);
        let py = scan_face(&self.blocks, Transparency::PosY);
        let ny = scan_face(&self.blocks, Transparency::NegY);
        let pz = scan_face(&self.blocks, Transparency::PosZ);
        let nz = scan_face(&self.blocks, Transparency::NegZ);
        let b0: u8 = if px {
            0x01
        } else {
            0
        };
        let b1: u8 = if nx {
            0x02
        } else {
            0
        };
        let b2: u8 = if py {
            0x04
        } else {
            0
        };
        let b3: u8 = if ny {
            0x08
        } else {
            0
        };
        let b4: u8 = if pz {
            0x10
        } else {
            0
        };
        let b5: u8 = if nz {
            0x20
        } else {
            0
        };
        let mask: u8 = 0x40 | b0 | b1 | b2 | b3 | b4 | b5;
        proof {
            lemma_assembled_mask(mask, b0, b1, b2, b3, b4, b5);
        }
        self.transparency = mask;
    }
}

/// Computing a mask bit of the two literal shortcut masks.
proof fn lemma_mask_bits_of_literal(f: Transparency)
    ensures
        !mask_bit(0x40, f) || f == Transparency::Computed,
        mask_bit(0xFF, f),
        mask_bit(0x40, Transparency::Computed),
{
    let m = f.spec_mask();
    assert(m == 1 || m == 2 || m == 4 || m == 8 || m == 0x10 || m == 0x20 || m == 0x40);
    assert(0x40u8 & 1u8 == 0 && 0x40u8 & 2u8 == 0 && 0x40u8 & 4u8 == 0 && 0x40u8 & 8u8 == 0
        && 0x40u8 & 0x10u8 == 0 && 0x40u8 & 0x20u8 == 0 && 0x40u8 & 0x40u8 != 0) by (bit_vector);
    assert(0xFFu8 & 1u8 != 0 && 0xFFu8 & 2u8 != 0 && 0xFFu8 & 4u8 != 0 && 0xFFu8 & 8u8 != 0
        && 0xFFu8 & 0x10u8 != 0 && 0xFFu8 & 0x20u8 != 0 && 0xFFu8 & 0x40u8 != 0) by (bit_vector);
}

/// Reading each bit back out of the mask assembled from the six face
/// scans.
proof fn lemma_assembled_mask(mask: u8, b0: u8, b1: u8, b2: u8, b3: u8, b4: u8, b5: u8)
    requires
        b0 == 0 || b0 == 0x01,
        b1 == 0 || b1 == 0x02,
        b2 == 0 || b2 == 0x04,
        b3 == 0 || b3 == 0x08,
        b4 == 0 || b4 == 0x10,
        b5 == 0 || b5 == 0x20,
        mask == 0x40 | b0 | b1 | b2 | b3 | b4 | b5,
    ensures
        (mask & 0x01 != 0) == (b0 == 0x01),
        (mask & 0x02 != 0) == (b1 == 0x02),
        (mask & 0x04 != 0) == (b2 == 0x04),
        (mask & 0x08 != 0) == (b3 == 0x08),
        (mask & 0x10 != 0) == (b4 == 0x10),
        (mask & 0x20 != 0) == (b5 == 0x20),
        mask & 0x40 != 0,
{
    assert((mask & 0x01 != 0) == (b0 == 0x01) && (mask & 0x02 != 0) == (b1 == 0x02) && (mask & 0x04
        != 0) == (b2 == 0x04) && (mask & 0x08 != 0) == (b3 == 0x08) && (mask & 0x10 != 0) == (b4
        == 0x10) && (mask & 0x20 != 0) == (b5 == 0x20) && mask & 0x40 != 0) by (bit_vector)
        requires
            b0 == 0 || b0 == 0x01,
            b1 == 0 || b1 == 0x02,
            b2 == 0 || b2 == 0x04,
            b3 == 0 || b3 == 0x08,
            b4 == 0 || b4 == 0x10,
            b5 == 0 || b5 == 0x20,
            mask == 0x40 | b0 | b1 | b2 | b3 | b4 | b5,
    ;
}

/// The flat index of a face cell is in range.
proof fn lemma_face_cell_index(f: Transparency, i: int, j: int)
    requires
        0 <= i < 16,
        0 <= j < 16,
    ensures
        match f {
            Transparency::PosX => 0 <= spec_block_index(15, i, j) < 4096,
            Transparency::NegX => 0 <= spec_block_index(0, i, j) < 4096,
            Transparency::PosY => 0 <= spec_block_index(i, 15, j) < 4096,
            Transparency::NegY => 0 <= spec_block_index(i, 0, j) < 4096,
            Transparency::PosZ => 0 <= spec_block_index(i, j, 15) < 4096,
            Transparency::NegZ => 0 <= spec_block_index(i, j, 0) < 4096,
            Transparency::Computed => true,
        },
{
}

/// Scans one 16 x 16 boundary layer, stopping at the first transparent
/// block.
fn scan_face(blocks: &Vec<Block>, f: Transparency) -> (r: bool)
    requires
        blocks@.len() == 4096,
        f != Transparency::Computed,
    ensures
        r == face_transparent(blocks@, f),
{
    let mut i: usize = 0;
    while i < 16
        invariant
            blocks@.len() == 4096,
            f != Transparency::Computed,
            i <= 16,
            forall|i2: int, j2: int|
                0 <= i2 < i && 0 <= j2 < 16 ==> !#[trigger] face_cell_transparent(
                    blocks@,
                    f,
                    i2,
                    j2,
                ),
        decreases 16 - i,
    {
        let mut j: usize = 0;
        while j < 16
            invariant
                blocks@.len() == 4096,
                f != Transparency::Computed,
                i < 16,
                j <= 16,
                forall|i2: int, j2: int|
                    0 <= i2 < i && 0 <= j2 < 16 ==> !#[trigger] face_cell_transparent(
                        blocks@,
                        f,
                        i2,
                        j2,
                    ),
                forall|j2: int|
                    0 <= j2 < j ==> !#[trigger] face_cell_transparent(blocks@, f, i as int, j2),
            decreases 16 - j,
        {
            let b = match f {
                Transparency::PosX => blocks[Chunk::index_of(15, i, j)],
                Transparency::NegX => blocks[Chunk::index_of(0, i, j)],
                Transparency::PosY => blocks[Chunk::index_of(i, 15, j)],
                Transparency::NegY => blocks[Chunk::index_of(i, 0, j)],
                Transparency::PosZ => blocks[Chunk::index_of(i, j, 15)],
                Transparency::NegZ => blocks[Chunk::index_of(i, j, 0)],
                Transparency::Computed => Block::Air,
            };
            if b.transparent() {
                assert(face_cell_transparent(blocks@, f, i as int, j as int));
                return true;
            }
            j = j + 1;
        }
        i = i + 1;
    }
    false
}

/// For a chunk with no blocks or with every block solid, the cached
/// mask agrees with a full brute-force scan of all six boundary
/// layers: every face shows transparent blocks in an all-Air chunk,
/// and no face does in an all-solid one. (The first clause is the
/// general statement: the mask always equals the brute-force scan.)
pub proof fn lemma_transparency_matches_brute_force(c: Chunk)
    requires
        c.wf(),
        c.transparency_accurate(),
    ensures
        forall|f: Transparency|
            f != Transparency::Computed ==> #[trigger] mask_bit(c.transparency, f)
                == face_transparent(c.blocks@, f),
        c.non_air_block_count == 0 ==> forall|f: Transparency|
            f != Transparency::Computed ==> #[trigger] face_transparent(c.blocks@, f),
        (forall|i: int| 0 <= i < 4096 ==> !(#[trigger] c.blocks@[i]).is_transparent())
            ==> forall|f: Transparency|
            f != Transparency::Computed ==> !#[trigger] face_transparent(c.blocks@, f),
{
    lemma_count_non_air_extremes(c.blocks@);
    if c.non_air_block_count == 0 {
        assert forall|f: Transparency| f != Transparency::Computed implies #[trigger] face_transparent(
            c.blocks@,
            f,
        ) by {
            lemma_face_cell_index(f, 0, 0);
            assert(face_cell_transparent(c.blocks@, f, 0, 0));
        }
    }
    if forall|i: int| 0 <= i < 4096 ==> !(#[trigger] c.blocks@[i]).is_transparent() {
        assert forall|f: Transparency| f != Transparency::Computed implies !#[trigger] face_transparent(
            c.blocks@,
            f,
        ) by {
            assert forall|i: int, j: int|
                0 <= i < 16 && 0 <= j < 16 implies !#[trigger] face_cell_transparent(
                c.blocks@,
                f,
                i,
                j,
            ) by {
                lemma_face_cell_index(f, i, j);
            }
        }
    }
}

/// Flat indices agree exactly when the coordinates do.
pub proof fn lemma_block_index_injective(x1: int, y1: int, z1: int, x2: int, y2: int, z2: int)
    requires
        0 <= x1 < 16,
        0 <= y1 < 16,
        0 <= z1 < 16,
        0 <= x2 < 16,
        0 <= y2 < 16,
        0 <= z2 < 16,
        spec_block_index(x1, y1, z1) == spec_block_index(x2, y2, z2),
    ensures
        x1 == x2 && y1 == y2 && z1 == z2,
{
}

/// Writing an interior block (no coordinate 0 or 15) leaves every
/// boundary layer, and so the brute-force transparency of every face,
/// unchanged.
pub proof fn lemma_interior_update_preserves_faces(s: Seq<Block>, x: int, y: int, z: int, b: Block)
    requires
        s.len() == 4096,
        1 <= x <= 14,
        1 <= y <= 14,
        1 <= z <= 14,
    ensures
        forall|f: Transparency|
            #[trigger] face_transparent(s.update(spec_block_index(x, y, z), b), f)
                == face_transparent(s, f),
{
    let t = s.update(spec_block_index(x, y, z), b);
    assert forall|f: Transparency| #[trigger] face_transparent(t, f) == face_transparent(s, f) by {
        assert forall|i: int, j: int|
            0 <= i < 16 && 0 <= j < 16 implies #[trigger] face_cell_transparent(t, f, i, j)
            == face_cell_transparent(s, f, i, j) by {
            match f {
                Transparency::PosX => lemma_cell_untouched(s, x, y, z, b, 15, i, j),
                Transparency::NegX => lemma_cell_untouched(s, x, y, z, b, 0, i, j),
                Transparency::PosY => lemma_cell_untouched(s, x, y, z, b, i, 15, j),
                Transparency::NegY => lemma_cell_untouched(s, x, y, z, b, i, 0, j),
                Transparency::PosZ => lemma_cell_untouched(s, x, y, z, b, i, j, 15),
                Transparency::NegZ => lemma_cell_untouched(s, x, y, z, b, i, j, 0),
                Transparency::Computed => {},
            }
        }
        if face_transparent(s, f) {
            let (i, j) = choose|i: int, j: int|
                0 <= i < 16 && 0 <= j < 16 && #[trigger] face_cell_transparent(s, f, i, j);
            assert(face_cell_transparent(t, f, i, j));
        }
        if face_transparent(t, f) {
            let (i, j) = choose|i: int, j: int|
                0 <= i < 16 && 0 <= j < 16 && #[trigger] face_cell_transparent(t, f, i, j);
            assert(face_cell_transparent(s, f, i, j));
        }
    }
}

/// A cell with a coordinate pinned to a boundary is not the interior
/// cell that was written.
proof fn lemma_cell_untouched(
    s: Seq<Block>,
    x: int,
    y: int,
    z: int,
    b: Block,
    cx: int,
    cy: int,
    cz: int,
)
    requires
        s.len() == 4096,
        1 <= x <= 14,
        1 <= y <= 14,
        1 <= z <= 14,
        0 <= cx < 16,
        0 <= cy < 16,
        0 <= cz < 16,
        cx == 0 || cx == 15 || cy == 0 || cy == 15 || cz == 0 || cz == 15,
    ensures
        block_at(s.update(spec_block_index(x, y, z), b), cx, cy, cz) == block_at(s, cx, cy, cz),
{
    if spec_block_index(cx, cy, cz) == spec_block_index(x, y, z) {
        lemma_block_index_injective(cx, cy, cz, x, y, z);
    }
}

/// An all-Air buffer counts zero.
proof fn lemma_all_air_count(s: Seq<Block>)
    requires
        forall|i: int| 0 <= i < s.len() ==> s[i].is_air(),
    ensures
        count_non_air(s) == 0,
    decreases s.len(),
{
    if s.len() > 0 {
        lemma_all_air_count(s.drop_last());
    }
}

} // verus!
