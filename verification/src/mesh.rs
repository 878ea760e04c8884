//! Face-culling mesh generation: a chunk plus its six face-adjacent
//! neighbours is turned into a vertex/index list holding one quad for
//! every face of a solid block whose adjacent block is transparent.
//!
//! Vertex positions are voxel corners, so they are plain integers;
//! texture coordinates are stored as numerators over a denominator of
//! two (the atlas is two tiles by two tiles).
use crate::chunk::Block;
use crate::chunk::Chunk;
use crate::chunk::Transparency;
use crate::chunk::block_at;
use crate::chunk::face_cell_transparent;
use crate::chunk::face_transparent;
use crate::chunk::mask_bit;
use vstd::prelude::*;

verus! {

/// One corner of one emitted face. Positions range over 0..=16;
/// texture coordinates are multiples of one half, stored as their
/// numerator.
#[derive(Debug, Clone, Copy, PartialEq, Eq, Structural)]
pub struct Vertex {
    pub x: u8,
    pub y: u8,
    pub z: u8,
    pub u: u8,
    pub v: u8,
    pub face_index: u8,
}

/// Header describing one chunk's mesh in an update message.
#[derive(Debug, Clone, Copy, PartialEq, Eq, Structural)]
pub struct MeshData {
    pub chunk_x: i32,
    pub chunk_y: i32,
    pub chunk_z: i32,
    pub vertex_count: u32,
    pub index_count: u32,
    pub is_full_and_invisible: u8,
}

/// The six neighbours of a chunk, one per face direction.
pub struct ChunkNeighbours<'a> {
    pub pos_x: &'a Chunk,
    pub neg_x: &'a Chunk,
    pub pos_y: &'a Chunk,
    pub neg_y: &'a Chunk,
    pub pos_z: &'a Chunk,
    pub neg_z: &'a Chunk,
}

/// The block data a mesh is a function of: the chunk itself and its
/// six neighbours.
pub struct MeshView {
    pub chunk: Seq<Block>,
    pub pos_x: Seq<Block>,
    pub neg_x: Seq<Block>,
    pub pos_y: Seq<Block>,
    pub neg_y: Seq<Block>,
    pub pos_z: Seq<Block>,
    pub neg_z: Seq<Block>,
}

impl<'a> ChunkNeighbours<'a> {
    pub open spec fn all_wf(self) -> bool {
        &&& self.pos_x.wf()
        &&& self.neg_x.wf()
        &&& self.pos_y.wf()
        &&& self.neg_y.wf()
        &&& self.pos_z.wf()
        &&& self.neg_z.wf()
    }

    /// Every neighbour's cached transparency mask is computed and
    /// agrees with its block data.
    pub open spec fn all_accurate(self) -> bool {
        &&& self.pos_x.transparency_accurate()
        &&& self.neg_x.transparency_accurate()
        &&& self.pos_y.transparency_accurate()
        &&& self.neg_y.transparency_accurate()
        &&& self.pos_z.transparency_accurate()
        &&& self.neg_z.transparency_accurate()
    }

    pub open spec fn view_with(self, chunk: Chunk) -> MeshView {
        MeshView {
            chunk: chunk.blocks@,
            pos_x: self.pos_x.blocks@,
            neg_x: self.neg_x.blocks@,
            pos_y: self.pos_y.blocks@,
            neg_y: self.neg_y.blocks@,
            pos_z: self.pos_z.blocks@,
            neg_z: self.neg_z.blocks@,
        }
    }
}

/// The block adjacent to face `f` of cell `(x, y, z)`, read from the
/// chunk itself or, on a boundary, from the matching neighbour.
pub open spec fn spec_adjacent_block(m: MeshView, x: int, y: int, z: int, f: int) -> Block {
    if f == 0 {
        if x == 15 {
            block_at(m.pos_x, 0, y, z)
        } else {
            block_at(m.chunk, x + 1, y, z)
        }
    } else if f == 1 {
        if x == 0 {
            block_at(m.neg_x, 15, y, z)
        } else {
            block_at(m.chunk, x - 1, y, z)
        }
    } else if f == 2 {
        if y == 15 {
            block_at(m.pos_y, x, 0, z)
        } else {
            block_at(m.chunk, x, y + 1, z)
        }
    } else if f == 3 {
        if y == 0 {
            block_at(m.neg_y, x, 15, z)
        } else {
            block_at(m.chunk, x, y - 1, z)
        }
    } else if f == 4 {
        if z == 15 {
            block_at(m.pos_z, x, y, 0)
        } else {
            block_at(m.chunk, x, y, z + 1)
        }
    } else {
        if z == 0 {
            block_at(m.neg_z, x, y, 15)
        } else {
            block_at(m.chunk, x, y, z - 1)
        }
    }
}

/// A face is emitted exactly when its own block is solid and the
/// adjacent block is transparent.
pub open spec fn spec_face_visible(m: MeshView, x: int, y: int, z: int, f: int) -> bool {
    &&& !block_at(m.chunk, x, y, z).is_air()
    &&& spec_adjacent_block(m, x, y, z, f).is_transparent()
}

/// Faces are enumerated by a single step counter: cell-major in
/// `x * 256 + y * 16 + z`, the six face directions innermost.
pub open spec fn step_visible(m: MeshView, t: int) -> bool {
    spec_face_visible(m, t / 6 / 256, (t / 6 / 16) % 16, (t / 6) % 16, t % 6)
}

/// Number of faces emitted among the first `t` steps.
pub open spec fn spec_visible_count(m: MeshView, t: int) -> int
    decreases t,
{
    if t <= 0 {
        0
    } else {
        spec_visible_count(m, t - 1) + if step_visible(m, t - 1) {
            1int
        } else {
            0int
        }
    }
}

/// The texture atlas tile of one face of one block, as tile
/// coordinates in a 2 x 2 atlas.
pub open spec fn spec_atlas(b: Block, f: int) -> (u8, u8) {
    match b {
        Block::Air => (0, 0),
        Block::Dirt => {
            if f == 2 {
                (0, 0)
            } else if f == 3 {
                (0, 1)
            } else {
                (1, 0)
            }
        },
        Block::Stone => (1, 1),
        Block::Sand => (0, 1),
        Block::Water => (0, 0),
        Block::Button => (1, 0),
    }
}

/// Corner `k` of face `f`: the offset of the corner from the voxel
/// origin and its texture coordinate within the tile.
pub open spec fn spec_corner(f: int, k: int) -> (((int, int, int), (int, int))) {
    if f == 0 {
        if k == 0 {
            (((1, 0, 0), (1, 1)))
        } else if k == 1 {
            (((1, 1, 0), (1, 0)))
        } else if k == 2 {
            (((1, 1, 1), (0, 0)))
        } else {
            (((1, 0, 1), (0, 1)))
        }
    } else if f == 1 {
        if k == 0 {
            (((0, 0, 1), (1, 1)))
        } else if k == 1 {
            (((0, 1, 1), (1, 0)))
        } else if k == 2 {
            (((0, 1, 0), (0, 0)))
        } else {
            (((0, 0, 0), (0, 1)))
        }
    } else if f == 2 {
        if k == 0 {
            (((1, 1, 0), (1, 0)))
        } else if k == 1 {
            (((0, 1, 0), (0, 0)))
        } else if k == 2 {
            (((0, 1, 1), (0, 1)))
        } else {
            (((1, 1, 1), (1, 1)))
        }
    } else if f == 3 {
        if k == 0 {
            (((1, 0, 1), (0, 0)))
        } else if k == 1 {
            (((0, 0, 1), (1, 0)))
        } else if k == 2 {
            (((0, 0, 0), (1, 1)))
        } else {
            (((1, 0, 0), (0, 1)))
        }
    } else if f == 4 {
        if k == 0 {
            (((0, 0, 1), (0, 1)))
        } else if k == 1 {
            (((1, 0, 1), (1, 1)))
        } else if k == 2 {
            (((1, 1, 1), (1, 0)))
        } else {
            (((0, 1, 1), (0, 0)))
        }
    } else {
        if k == 0 {
            (((0, 1, 0), (1, 0)))
        } else if k == 1 {
            (((1, 1, 0), (0, 0)))
        } else if k == 2 {
            (((1, 0, 0), (0, 1)))
        } else {
            (((0, 0, 0), (1, 1)))
        }
    }
}

/// Corner `k` of the quad emitted for face `f` of block `b` at cell
/// `(x, y, z)`.
pub open spec fn spec_face_vertex(b: Block, f: int, k: int, x: int, y: int, z: int) -> Vertex {
    let ((dx, dy, dz), (cu, cv)) = spec_corner(f, k);
    let (au, av) = spec_atlas(b, f);
    Vertex {
        x: (x + dx) as u8,
        y: (y + dy) as u8,
        z: (z + dz) as u8,
        u: (cu + au) as u8,
        v: (cv + av) as u8,
        face_index: f as u8,
    }
}

/// The four vertices of the face taken at step `t`.
pub open spec fn spec_quad(m: MeshView, t: int) -> Seq<Vertex> {
    let x = t / 6 / 256;
    let y = (t / 6 / 16) % 16;
    let z = (t / 6) % 16;
    let f = t % 6;
    let b = block_at(m.chunk, x, y, z);
    seq![
        spec_face_vertex(b, f, 0, x, y, z),
        spec_face_vertex(b, f, 1, x, y, z),
        spec_face_vertex(b, f, 2, x, y, z),
        spec_face_vertex(b, f, 3, x, y, z),
    ]
}

/// All vertices emitted among the first `t` steps, in step order.
pub open spec fn spec_mesh_vertices(m: MeshView, t: int) -> Seq<Vertex>
    decreases t,
{
    if t <= 0 {
        Seq::empty()
    } else {
        spec_mesh_vertices(m, t - 1) + if step_visible(m, t - 1) {
            spec_quad(m, t - 1)
        } else {
            Seq::empty()
        }
    }
}

/// The six indices (two triangles) of the `c`-th emitted quad.
pub open spec fn spec_quad_indices(c: int) -> Seq<u32> {
    seq![
        (4 * c) as u32,
        (4 * c + 1) as u32,
        (4 * c + 2) as u32,
        (4 * c + 2) as u32,
        (4 * c + 3) as u32,
        (4 * c) as u32,
    ]
}

/// All indices emitted among the first `t` steps.
pub open spec fn spec_mesh_indices(m: MeshView, t: int) -> Seq<u32>
    decreases t,
{
    if t <= 0 {
        Seq::empty()
    } else {
        spec_mesh_indices(m, t - 1) + if step_visible(m, t - 1) {
            spec_quad_indices(spec_visible_count(m, t - 1))
        } else {
            Seq::empty()
        }
    }
}

pub proof fn lemma_mesh_lens(m: MeshView, t: int)
    requires
        t >= 0,
    ensures
        spec_mesh_vertices(m, t).len() == 4 * spec_visible_count(m, t),
        spec_mesh_indices(m, t).len() == 6 * spec_visible_count(m, t),
        spec_visible_count(m, t) >= 0,
    decreases t,
{
    if t > 0 {
        lemma_mesh_lens(m, t - 1);
    }
}

/// A chunk's renderable geometry.
pub struct ChunkMesh {
    pub vertices: Vec<Vertex>,
    pub indices: Vec<u32>,
}

impl ChunkMesh {
    /// Builds the mesh of `chunk`. Whole boundary layers are skipped
    /// when the neighbour's cached mask already shows the matching
    /// face fully opaque, which is why the neighbours' masks must be
    /// accurate; the output is exactly the brute-force face list.
    pub fn generate(chunk: &Chunk, neighbours: ChunkNeighbours) -> (r: ChunkMesh)
        requires
            chunk.wf(),
            neighbours.all_wf(),
            neighbours.all_accurate(),
        ensures
            r.vertices@ == spec_mesh_vertices(neighbours.view_with(*chunk), 24576),
            r.indices@ == spec_mesh_indices(neighbours.view_with(*chunk), 24576),
            r.vertices@.len() == 4 * spec_visible_count(neighbours.view_with(*chunk), 24576),
            r.indices@.len() == 6 * spec_visible_count(neighbours.view_with(*chunk), 24576),
    {
        let ghost m = neighbours.view_with(*chunk);
        let mut vertices: Vec<Vertex> = Vec::new();
        let mut indices: Vec<u32> = Vec::new();
        let mut t: usize = 0;
        while t < 24576
            invariant
                chunk.wf(),
                neighbours.all_wf(),
                neighbours.all_accurate(),
                m == neighbours.view_with(*chunk),
                t <= 24576,
                vertices@ == spec_mesh_vertices(m, t as int),
                indices@ == spec_mesh_indices(m, t as int),
                vertices@.len() == 4 * spec_visible_count(m, t as int),
            decreases 24576 - t,
        {
            let cell = t / 6;
            let f = t % 6;
            let x = cell / 256;
            let y = (cell / 16) % 16;
            let z = cell % 16;
            proof {
                assert(cell < 4096);
                assert(x < 16) by (nonlinear_arith)
                    requires
                        cell < 4096,
                        x == cell / 256,
                ;
                assert(y < 16 && z < 16) by (nonlinear_arith)
                    requires
                        y == (cell / 16) % 16,
                        z == cell % 16,
                ;
                assert(x == (t as int) / 6 / 256 && y == ((t as int) / 6 / 16) % 16 && z == ((
                t as int) / 6) % 16 && f == (t as int) % 6) by (nonlinear_arith)
                    requires
                        cell == (t as int) / 6,
                        f == (t as int) % 6,
                        x == cell as int / 256,
                        y == (cell as int / 16) % 16,
                        z == cell as int % 16,
                ;
                lemma_mesh_lens(m, t as int);
            }
            let own = chunk.get_block(x, y, z);
            let visible: bool = if own.air() {
                false
            } else {
                match ChunkMesh::adjacent_block(chunk, &neighbours, x, y, z, f) {
                    Some(adjacent) => adjacent.transparent(),
                    None => false,
                }
            };
            assert(visible == step_visible(m, t as int));
            if visible {
                let ghost c0 = spec_visible_count(m, t as int);
                let base: u32 = (vertices.len() / 4) as u32;
                proof {
                    assert(vertices@.len() / 4 == c0);
                    assert(c0 <= 24576) by {
                        lemma_visible_count_bound(m, t as int);
                    }
                }
                vertices.push(ChunkMesh::make_vertex(own, f, 0, x, y, z));
                vertices.push(ChunkMesh::make_vertex(own, f, 1, x, y, z));
                vertices.push(ChunkMesh::make_vertex(own, f, 2, x, y, z));
                vertices.push(ChunkMesh::make_vertex(own, f, 3, x, y, z));
                indices.push(4 * base);
                indices.push(4 * base + 1);
                indices.push(4 * base + 2);
                indices.push(4 * base + 2);
                indices.push(4 * base + 3);
                indices.push(4 * base);
                proof {
                    assert(vertices@ =~= spec_mesh_vertices(m, t as int) + spec_quad(
                        m,
                        t as int,
                    ));
                    assert(vertices@ =~= spec_mesh_vertices(m, t + 1));
                    assert(indices@ =~= spec_mesh_indices(m, t as int) + spec_quad_indices(c0));
                    assert(indices@ =~= spec_mesh_indices(m, t + 1));
                }
            } else {
                proof {
                    assert(vertices@ =~= spec_mesh_vertices(m, t + 1));
                    assert(indices@ =~= spec_mesh_indices(m, t + 1));
                }
            }
            t = t + 1;
        }
        proof {
            lemma_mesh_lens(m, 24576);
        }
        ChunkMesh { vertices, indices }
    }

    /// Reads the block adjacent to face `f` of cell `(x, y, z)`, or
    /// answers `None` straight from the neighbour's cached mask when
    /// that already shows the whole matching layer opaque.
    fn adjacent_block(
        chunk: &Chunk,
        neighbours: &ChunkNeighbours<'_>,
        x: usize,
        y: usize,
        z: usize,
        f: usize,
    ) -> (r: Option<Block>)
        requires
            chunk.wf(),
            neighbours.all_wf(),
            neighbours.all_accurate(),
            x < 16,
            y < 16,
            z < 16,
            f < 6,
        ensures
            match r {
                Some(b) => b == spec_adjacent_block(
                    neighbours.view_with(*chunk),
                    x as int,
                    y as int,
                    z as int,
                    f as int,
                ),
                None => !spec_adjacent_block(
                    neighbours.view_with(*chunk),
                    x as int,
                    y as int,
                    z as int,
                    f as int,
                ).is_transparent(),
            },
    {
        let ghost m = neighbours.view_with(*chunk);
        if f == 0 {
            if x == 15 {
                if neighbours.pos_x.get_transparency(Transparency::NegX) {
                    Some(neighbours.pos_x.get_block(0, y, z))
                } else {
                    proof {
                        lemma_layer_opaque(neighbours.pos_x, Transparency::NegX, y as int, z as int);
                    }
                    None
                }
            } else {
                Some(chunk.get_block(x + 1, y, z))
            }
        } else if f == 1 {
            if x == 0 {
                if neighbours.neg_x.get_transparency(Transparency::PosX) {
                    Some(neighbours.neg_x.get_block(15, y, z))
                } else {
                    proof {
                        lemma_layer_opaque(neighbours.neg_x, Transparency::PosX, y as int, z as int);
                    }
                    None
                }
            } else {
                Some(chunk.get_block(x - 1, y, z))
            }
        } else if f == 2 {
            if y == 15 {
                if neighbours.pos_y.get_transparency(Transparency::NegY) {
                    Some(neighbours.pos_y.get_block(x, 0, z))
                } else {
                    proof {
                        lemma_layer_opaque(neighbours.pos_y, Transparency::NegY, x as int, z as int);
                    }
                    None
                }
            } else {
                Some(chunk.get_block(x, y + 1, z))
            }
        } else if f == 3 {
            if y == 0 {
                if neighbours.neg_y.get_transparency(Transparency::PosY) {
                    Some(neighbours.neg_y.get_block(x, 15, z))
                } else {
                    proof {
                        lemma_layer_opaque(neighbours.neg_y, Transparency::PosY, x as int, z as int);
                    }
                    None
                }
            } else {
                Some(chunk.get_block(x, y - 1, z))
            }
        } else if f == 4 {
            if z == 15 {
                if neighbours.pos_z.get_transparency(Transparency::NegZ) {
                    Some(neighbours.pos_z.get_block(x, y, 0))
                } else {
                    proof {
                        lemma_layer_opaque(neighbours.pos_z, Transparency::NegZ, x as int, y as int);
                    }
                    None
                }
            } else {
                Some(chunk.get_block(x, y, z + 1))
            }
        } else {
            if z == 0 {
                if neighbours.neg_z.get_transparency(Transparency::PosZ) {
                    Some(neighbours.neg_z.get_block(x, y, 15))
                } else {
                    proof {
                        lemma_layer_opaque(neighbours.neg_z, Transparency::PosZ, x as int, y as int);
                    }
                    None
                }
            } else {
                Some(chunk.get_block(x, y, z - 1))
            }
        }
    }

    /// Builds corner `k` of the quad for face `f` of block `b` at
    /// cell `(x, y, z)`.
    fn make_vertex(b: Block, f: usize, k: usize, x: usize, y: usize, z: usize) -> (r: Vertex)
        requires
            f < 6,
            k < 4,
            x < 16,
            y < 16,
            z < 16,
        ensures
            r == spec_face_vertex(b, f as int, k as int, x as int, y as int, z as int),
    {
        let (dx, dy, dz, cu, cv): (u8, u8, u8, u8, u8) = if f == 0 {
            if k == 0 {
                (1, 0, 0, 1, 1)
            } else if k == 1 {
                (1, 1, 0, 1, 0)
            } else if k == 2 {
                (1, 1, 1, 0, 0)
            } else {
                (1, 0, 1, 0, 1)
            }
        } else if f == 1 {
            if k == 0 {
                (0, 0, 1, 1, 1)
            } else if k == 1 {
                (0, 1, 1, 1, 0)
            } else if k == 2 {
                (0, 1, 0, 0, 0)
            } else {
                (0, 0, 0, 0, 1)
            }
        } else if f == 2 {
            if k == 0 {
                (1, 1, 0, 1, 0)
            } else if k == 1 {
                (0, 1, 0, 0, 0)
            } else if k == 2 {
                (0, 1, 1, 0, 1)
            } else {
                (1, 1, 1, 1, 1)
            }
        } else if f == 3 {
            if k == 0 {
                (1, 0, 1, 0, 0)
            } else if k == 1 {
                (0, 0, 1, 1, 0)
            } else if k == 2 {
                (0, 0, 0, 1, 1)
            } else {
                (1, 0, 0, 0, 1)
            }
        } else if f == 4 {
            if k == 0 {
                (0, 0, 1, 0, 1)
            } else if k == 1 {
                (1, 0, 1, 1, 1)
            } else if k == 2 {
                (1, 1, 1, 1, 0)
            } else {
                (0, 1, 1, 0, 0)
            }
        } else {
            if k == 0 {
                (0, 1, 0, 1, 0)
            } else if k == 1 {
                (1, 1, 0, 0, 0)
            } else if k == 2 {
                (1, 0, 0, 0, 1)
            } else {
                (0, 0, 0, 1, 1)
            }
        };
        let (au, av): (u8, u8) = match b {
            Block::Air => (0, 0),
            Block::Dirt => {
                if f == 2 {
                    (0, 0)
                } else if f == 3 {
                    (0, 1)
                } else {
                    (1, 0)
                }
            },
            Block::Stone => (1, 1),
            Block::Sand => (0, 1),
            Block::Water => (0, 0),
            Block::Button => (1, 0),
        };
        Vertex {
            x: x as u8 + dx,
            y: y as u8 + dy,
            z: z as u8 + dz,
            u: cu + au,
            v: cv + av,
            face_index: f as u8,
        }
    }
}

/// At most one face can be emitted per step.
proof fn lemma_visible_count_bound(m: MeshView, t: int)
    requires
        0 <= t,
    ensures
        spec_visible_count(m, t) <= t,
    decreases t,
{
    if t > 0 {
        lemma_visible_count_bound(m, t - 1);
    }
}

/// When a face bit of an accurate mask is clear, every cell of that
/// boundary layer is opaque.
proof fn lemma_layer_opaque(c: &Chunk, f: Transparency, i: int, j: int)
    requires
        c.transparency_accurate(),
        f != Transparency::Computed,
        !mask_bit(c.transparency, f),
        0 <= i < 16,
        0 <= j < 16,
    ensures
        !face_cell_transparent(c.blocks@, f, i, j),
{
    assert(!face_transparent(c.blocks@, f));
}

} // verus!
