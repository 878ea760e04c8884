//! The authoritative chunk store: a dense array of chunks plus a
//! position-to-index map, a generation queue ordered by squared
//! horizontal distance from the origin, and a remesh queue. Index 0
//! of the chunk array is one shared immutable all-Air chunk, reused
//! for every never-written air chunk; a write into it copies it into
//! a fresh slot first.
use crate::chunk::Block;
use crate::chunk::Chunk;
use crate::chunk::MAX_BLOCK_COUNT;
use crate::chunk::Transparency;
use crate::chunk::block_at;
use crate::chunk::count_non_air;
use crate::chunk::lemma_count_non_air_extremes;
use crate::chunk::lemma_interior_update_preserves_faces;
use crate::chunk::mask_bit;
use crate::chunk::spec_block_index;
use crate::mesh::ChunkMesh;
use crate::mesh::ChunkNeighbours;
use crate::mesh::MeshData;
use crate::mesh::MeshView;
use crate::mesh::Vertex;
use crate::mesh::spec_mesh_indices;
use crate::mesh::spec_mesh_vertices;
use crate::mesh::spec_visible_count;
use crate::position::BlockPosition;
use crate::position::ChunkPosition;
use crate::position::IVec3;
use crate::position::MILLIS_PER_BLOCK;
use crate::position::floor_div_1000;
use crate::position::spec_trunc_div;
use crate::position::trunc_div;
use crate::position::MilliVec3;
use std::collections::HashMap;
use std::collections::VecDeque;
use vstd::pervasive::VecAdditionalExecFns;
use vstd::prelude::*;

verus! {

/// A chunk position packed into one integer, the key of the
/// position-to-index map.
pub open spec fn spec_pack(p: ChunkPosition) -> u128 {
    (((p.index.x + 0x8000_0000) * 0x1_0000_0000_0000_0000) + ((p.index.y + 0x8000_0000)
        * 0x1_0000_0000) + (p.index.z + 0x8000_0000)) as u128
}

pub fn pack(p: ChunkPosition) -> (r: u128)
    ensures
        r == spec_pack(p),
{
    let x: u128 = (p.index.x as i64 + 0x8000_0000) as u128;
    let y: u128 = (p.index.y as i64 + 0x8000_0000) as u128;
    let z: u128 = (p.index.z as i64 + 0x8000_0000) as u128;
    x * 0x1_0000_0000_0000_0000 + y * 0x1_0000_0000 + z
}

/// Packing is injective, so the map keys stand for positions.
pub proof fn lemma_pack_injective(p1: ChunkPosition, p2: ChunkPosition)
    requires
        spec_pack(p1) == spec_pack(p2),
    ensures
        p1.index == p2.index,
{
    let x1 = p1.index.x + 0x8000_0000;
    let y1 = p1.index.y + 0x8000_0000;
    let z1 = p1.index.z + 0x8000_0000;
    let x2 = p2.index.x + 0x8000_0000;
    let y2 = p2.index.y + 0x8000_0000;
    let z2 = p2.index.z + 0x8000_0000;
    assert(x1 * 0x1_0000_0000_0000_0000 + y1 * 0x1_0000_0000 + z1 == x2
        * 0x1_0000_0000_0000_0000 + y2 * 0x1_0000_0000 + z2);
    assert(x1 == x2 && y1 == y2 && z1 == z2) by (nonlinear_arith)
        requires
            0 <= x1 < 0x1_0000_0000,
            0 <= y1 < 0x1_0000_0000,
            0 <= z1 < 0x1_0000_0000,
            0 <= x2 < 0x1_0000_0000,
            0 <= y2 < 0x1_0000_0000,
            0 <= z2 < 0x1_0000_0000,
            x1 * 0x1_0000_0000_0000_0000 + y1 * 0x1_0000_0000 + z1 == x2
                * 0x1_0000_0000_0000_0000 + y2 * 0x1_0000_0000 + z2,
    ;
}

/// The squared distance between two chunk positions.
pub open spec fn spec_distance_squared(a: ChunkPosition, b: ChunkPosition) -> int {
    (a.index.x - b.index.x) * (a.index.x - b.index.x) + (a.index.y - b.index.y) * (a.index.y
        - b.index.y) + (a.index.z - b.index.z) * (a.index.z - b.index.z)
}

pub fn distance_squared(a: ChunkPosition, b: ChunkPosition) -> (r: i128)
    ensures
        r == spec_distance_squared(a, b),
{
    let dx: i128 = a.index.x as i128 - b.index.x as i128;
    let dy: i128 = a.index.y as i128 - b.index.y as i128;
    let dz: i128 = a.index.z as i128 - b.index.z as i128;
    proof {
        assert(dx * dx <= 0x1_0000_0000_0000_0000 && dy * dy <= 0x1_0000_0000_0000_0000 && dz * dz
            <= 0x1_0000_0000_0000_0000 && dx * dx >= 0 && dy * dy >= 0 && dz * dz >= 0)
            by (nonlinear_arith)
            requires
                -0x1_0000_0000 <= dx <= 0x1_0000_0000,
                -0x1_0000_0000 <= dy <= 0x1_0000_0000,
                -0x1_0000_0000 <= dz <= 0x1_0000_0000,
        ;
    }
    dx * dx + dy * dy + dz * dz
}

/// Two chunks hold the same world data; the pending-work flag is
/// allowed to differ.
pub open spec fn same_chunk_data(a: Chunk, b: Chunk) -> bool {
    &&& a.blocks@ == b.blocks@
    &&& a.transparency == b.transparency
    &&& a.non_air_block_count == b.non_air_block_count
}

/// The queue holds the column `(x, z)` at the given height.
pub open spec fn has_column(q: Seq<(i32, i32, i32)>, x: int, highest: i32, z: int) -> bool {
    exists|i: int| 0 <= i < q.len() && #[trigger] q[i] == (x as i32, highest, z as i32)
}

/// The key of the generation queue ordering: squared horizontal
/// distance from the world origin.
pub open spec fn spec_column_key(e: (i32, i32, i32)) -> int {
    e.0 * e.0 + e.2 * e.2
}

pub struct World {
    pub view_distance: u16,
    pub highest_generated_chunk: i32,
    pub lowest_generated_chunk: i32,
    pub chunks: Vec<Chunk>,
    pub position_to_index: HashMap<u128, u32>,
    pub positions: Vec<ChunkPosition>,
    pub generation_queue: VecDeque<(i32, i32, i32)>,
    pub mesh_queue: VecDeque<ChunkPosition>,
}

impl World {
    /// A position with a resident chunk (possibly the shared air
    /// chunk).
    pub open spec fn resident(self, p: ChunkPosition) -> bool {
        self.position_to_index@.contains_key(spec_pack(p))
    }

    pub open spec fn chunk_index_of(self, p: ChunkPosition) -> int {
        self.position_to_index@[spec_pack(p)] as int
    }

    /// The chunk stored for a resident position.
    pub open spec fn chunk_at(self, p: ChunkPosition) -> Chunk {
        self.chunks@[self.chunk_index_of(p)]
    }

    /// A resident position still backed by the shared all-Air chunk.
    pub open spec fn is_shared_air(self, p: ChunkPosition) -> bool {
        self.resident(p) && self.chunk_index_of(p) == 0
    }

    #[verifier::opaque]
    pub open spec fn wf(self) -> bool {
        &&& 1 <= self.chunks@.len() <= u32::MAX
        &&& self.chunks@[0].wf()
        &&& self.chunks@[0].non_air_block_count == 0
        &&& self.chunks@[0].transparency == 0xFF
        &&& self.chunks@[0].in_mesh_queue == false
        &&& forall|i: int|
            0 <= i < self.chunks@.len() ==> (#[trigger] self.chunks@[i]).wf()
                && self.chunks@[i].transparency_accurate()
        &&& forall|k: u128| #[trigger]
            self.position_to_index@.contains_key(k) ==> 0 <= self.position_to_index@[k]
                < self.chunks@.len()
        &&& forall|k1: u128, k2: u128|
            #[trigger] self.position_to_index@.contains_key(k1)
                && #[trigger] self.position_to_index@.contains_key(k2) && k1 != k2
                && self.position_to_index@[k1] == self.position_to_index@[k2]
                ==> self.position_to_index@[k1] == 0
        &&& forall|i: int|
            0 <= i < self.positions@.len() ==> self.position_to_index@.contains_key(
                spec_pack(#[trigger] self.positions@[i]),
            )
        &&& forall|k: u128| #[trigger]
            self.position_to_index@.contains_key(k) ==> exists|i: int|
                0 <= i < self.positions@.len() && spec_pack(#[trigger] self.positions@[i]) == k
        &&& forall|i: int, j: int|
            0 <= i < j < self.positions@.len() ==> spec_pack(#[trigger] self.positions@[i])
                != spec_pack(#[trigger] self.positions@[j])
        &&& forall|i: int|
            0 <= i < self.mesh_queue@.len() ==> self.resident(#[trigger] self.mesh_queue@[i])
                && !self.is_shared_air(self.mesh_queue@[i])
        &&& forall|i: int, j: int|
            0 <= i < j < self.mesh_queue@.len() ==> spec_pack(#[trigger] self.mesh_queue@[i])
                != spec_pack(#[trigger] self.mesh_queue@[j])
        &&& forall|p: ChunkPosition| #[trigger]
            self.resident(p) && !self.is_shared_air(p) ==> (self.chunk_at(p).in_mesh_queue
                <==> positions_contain(self.mesh_queue@, p))
    }

    /// The chunk array of `b` holds the same world data as that of
    /// `a`, slot by slot; pending-work flags are free to differ.
    pub open spec fn same_chunk_array(a: World, b: World) -> bool {
        &&& b.chunks@.len() == a.chunks@.len()
        &&& forall|i: int|
            0 <= i < a.chunks@.len() ==> same_chunk_data(#[trigger] a.chunks@[i], b.chunks@[i])
    }

    /// A new world with one shared air chunk and a generation queue
    /// holding one entry per column within the view distance, ordered
    /// by squared horizontal distance from the origin.
    pub fn new(view_distance: u16, height: u16) -> (w: World)
        requires
            view_distance <= 1000,
        ensures
            w.wf(),
            w.chunks@.len() == 1,
            w.view_distance == view_distance,
            w.lowest_generated_chunk == -(height as int / 2),
            w.highest_generated_chunk == w.lowest_generated_chunk + height - 1,
            w.position_to_index@ == Map::<u128, u32>::empty(),
            w.positions@.len() == 0,
            w.mesh_queue@.len() == 0,
            w.generation_queue@.len() == (2 * view_distance + 1) * (2 * view_distance + 1),
            forall|i: int, j: int|
                0 <= i <= j < w.generation_queue@.len() ==> spec_column_key(
                    #[trigger] w.generation_queue@[i],
                ) <= spec_column_key(#[trigger] w.generation_queue@[j]),
            forall|i: int|
                0 <= i < w.generation_queue@.len() ==> {
                    let e = #[trigger] w.generation_queue@[i];
                    &&& -(view_distance as int) <= e.0 <= view_distance as int
                    &&& e.1 == w.highest_generated_chunk
                    &&& -(view_distance as int) <= e.2 <= view_distance as int
                },
            forall|x: int, z: int|
                -(view_distance as int) <= x <= view_distance && -(view_distance as int) <= z
                    <= view_distance ==> #[trigger] has_column(
                    w.generation_queue@,
                    x,
                    w.highest_generated_chunk,
                    z,
                ),
            forall|i: int, j: int|
                0 <= i < j < w.generation_queue@.len() ==> #[trigger] w.generation_queue@[i]
                    != #[trigger] w.generation_queue@[j],
    {
        proof {
            reveal(World::wf);
        }
        let mut air = Chunk::new();
        air.compute_transparency();
        assert(air.transparency == 0xFF);

        // 2 -> -1..=0, 3 -> -1..=1, 4 -> -2..=1, 5 -> -2..=2
        let lowest_generated_chunk = -((height as i32) / 2);
        let highest_generated_chunk = lowest_generated_chunk + height as i32 - 1;

        let generation_queue = sorted_columns(view_distance, highest_generated_chunk);

        let mut chunks: Vec<Chunk> = Vec::new();
        chunks.push(air);

        World {
            view_distance,
            highest_generated_chunk,
            lowest_generated_chunk,
            chunks,
            position_to_index: HashMap::new(),
            positions: Vec::new(),
            generation_queue,
            mesh_queue: VecDeque::new(),
        }
    }

    /// The next column the generator should fill, farthest-first
    /// never: nearest-first.
    pub fn next_column_to_generate(&mut self) -> (r: Option<(i32, i32)>)
        ensures
            old(self).generation_queue@.len() == 0 ==> r is None
                && final(self).generation_queue@ == old(self).generation_queue@,
            old(self).generation_queue@.len() > 0 ==> {
                &&& r == Some(
                    (old(self).generation_queue@[0].0, old(self).generation_queue@[0].2),
                )
                &&& final(self).generation_queue@ == old(self).generation_queue@.drop_first()
            },
            final(self).chunks == old(self).chunks,
            final(self).position_to_index == old(self).position_to_index,
            final(self).positions == old(self).positions,
            final(self).mesh_queue == old(self).mesh_queue,
            final(self).view_distance == old(self).view_distance,
            final(self).highest_generated_chunk == old(self).highest_generated_chunk,
            final(self).lowest_generated_chunk == old(self).lowest_generated_chunk,
    {
        proof {
            reveal(World::wf);
        }
        match self.generation_queue.pop_front() {
            Some((x, _, z)) => Some((x, z)),
            None => None,
        }
    }

    /// A shared reference to the chunk at a position, if resident.
    pub fn get_chunk(&self, position: ChunkPosition) -> (r: Option<&Chunk>)
        requires
            self.wf(),
        ensures
            match r {
                Some(c) => self.resident(position) && *c == self.chunk_at(position),
                None => !self.resident(position),
            },
    {
        proof {
            reveal(World::wf);
        }
        let key = pack(position);
        match self.position_to_index.get(&key) {
            Some(index) => Some(&self.chunks[*index as usize]),
            None => None,
        }
    }

    /// Installs a generated chunk and queues the chunk itself and its
    /// six neighbours for remeshing. When the store cannot take one
    /// more chunk the call is ignored.
    pub fn add_chunk(&mut self, position: ChunkPosition, chunk: Chunk)
        requires
            old(self).wf(),
            chunk.wf(),
            chunk.transparency_accurate(),
        ensures
            final(self).wf(),
            old(self).chunks@.len() < u32::MAX || (old(self).resident(position) && !old(
                self,
            ).is_shared_air(position)) ==> {
                &&& final(self).resident(position)
                &&& same_chunk_data(final(self).chunk_at(position), chunk)
                &&& final(self).position_to_index@.dom() == old(self).position_to_index@.dom().insert(
                    spec_pack(position),
                )
                &&& forall|q: ChunkPosition|
                    #[trigger] old(self).resident(q) && spec_pack(q) != spec_pack(position)
                        ==> final(self).resident(q)
                        && final(self).chunk_index_of(q) == old(self).chunk_index_of(q)
                        && same_chunk_data(final(self).chunk_at(q), old(self).chunk_at(q))
            },
            old(self).chunks@.len() == u32::MAX && (!old(self).resident(position) || old(
                self,
            ).is_shared_air(position)) ==> *final(self) == *old(self),
            final(self).chunks@.len() <= old(self).chunks@.len() + 1,
            queue_extended(old(self).mesh_queue@, final(self).mesh_queue@, position),
            pending_work_queued(*old(self), *final(self)),
            old(self).chunks@.len() < u32::MAX || (old(self).resident(position) && !old(
                self,
            ).is_shared_air(position)) ==> neighbour_flagged(*old(self), *final(self), position)
                && neighbour_flagged(
                *old(self),
                *final(self),
                position.spec_plus(1i32, 0i32, 0i32),
            ) && neighbour_flagged(
                *old(self),
                *final(self),
                position.spec_plus(-1i32, 0i32, 0i32),
            ) && neighbour_flagged(
                *old(self),
                *final(self),
                position.spec_plus(0i32, 1i32, 0i32),
            ) && neighbour_flagged(
                *old(self),
                *final(self),
                position.spec_plus(0i32, -1i32, 0i32),
            ) && neighbour_flagged(
                *old(self),
                *final(self),
                position.spec_plus(0i32, 0i32, 1i32),
            ) && neighbour_flagged(
                *old(self),
                *final(self),
                position.spec_plus(0i32, 0i32, -1i32),
            ),
            final(self).generation_queue == old(self).generation_queue,
            final(self).view_distance == old(self).view_distance,
            final(self).highest_generated_chunk == old(self).highest_generated_chunk,
            final(self).lowest_generated_chunk == old(self).lowest_generated_chunk,
    {
        proof {
            reveal(World::wf);
        }
        let key = pack(position);
        let resident_index: Option<u32> = match self.position_to_index.get(&key) {
            Some(index) => Some(*index),
            None => None,
        };
        match resident_index {
            Some(index) => {
                if index != 0 {
                    // overwrite in place; a stale generation reply for a
                    // position that was regenerated lands here
                    let mut chunk = chunk;
                    chunk.in_mesh_queue = self.chunks[index as usize].in_mesh_queue;
                    self.chunks.set(index as usize, chunk);
                    proof {
                        assert(self.position_to_index@.dom() =~= old(
                            self,
                        ).position_to_index@.dom().insert(spec_pack(position)));
                        assert forall|k: u128| #[trigger]
                            self.position_to_index@.contains_key(k) implies exists|i: int|
                            0 <= i < self.positions@.len() && spec_pack(self.positions@[i])
                                == k by {
                            assert(old(self).position_to_index@.contains_key(k));
                            let i = choose|i: int|
                                0 <= i < old(self).positions@.len() && spec_pack(
                                    old(self).positions@[i],
                                ) == k;
                            assert(spec_pack(self.positions@[i]) == k);
                        }
                    }
                } else {
                    if self.chunks.len() < u32::MAX as usize {
                        let index = self.chunks.len() as u32;
                        let mut chunk = chunk;
                        chunk.in_mesh_queue = false;
                        self.chunks.push(chunk);
                        self.position_to_index.insert(key, index);
                        proof {
                            assert(self.position_to_index@.dom() =~= old(
                                self,
                            ).position_to_index@.dom().insert(spec_pack(position)));
                            assert forall|k: u128| #[trigger]
                                self.position_to_index@.contains_key(k) implies exists|i: int|
                                0 <= i < self.positions@.len() && spec_pack(self.positions@[i])
                                    == k by {
                                assert(old(self).position_to_index@.contains_key(k));
                                let i = choose|i: int|
                                    0 <= i < old(self).positions@.len() && spec_pack(
                                        old(self).positions@[i],
                                    ) == k;
                                assert(spec_pack(self.positions@[i]) == k);
                            }
                        }
                    } else {
                        proof {
                            assert(self.mesh_queue@.is_prefix_of(self.mesh_queue@)) by {
                                assert(self.mesh_queue@ =~= self.mesh_queue@.take(
                                    self.mesh_queue@.len() as int,
                                ));
                            }
                        }
                        return ;
                    }
                }
            },
            None => {
                if self.chunks.len() < u32::MAX as usize {
                    let index = self.chunks.len() as u32;
                    let mut chunk = chunk;
                    chunk.in_mesh_queue = false;
                    self.chunks.push(chunk);
                    self.position_to_index.insert(key, index);
                    self.positions.push(position);
                    proof {
                        assert(self.position_to_index@.dom() =~= old(
                            self,
                        ).position_to_index@.dom().insert(spec_pack(position)));
                        assert forall|k: u128| #[trigger]
                            self.position_to_index@.contains_key(k) implies exists|i: int|
                            0 <= i < self.positions@.len() && spec_pack(self.positions@[i])
                                == k by {
                            if k == spec_pack(position) {
                                assert(spec_pack(
                                    self.positions@[self.positions@.len() - 1],
                                ) == k);
                            } else {
                                assert(old(self).position_to_index@.contains_key(k));
                                let i = choose|i: int|
                                    0 <= i < old(self).positions@.len() && spec_pack(
                                        old(self).positions@[i],
                                    ) == k;
                                assert(spec_pack(self.positions@[i]) == k);
                            }
                        }
                    }
                } else {
                    proof {
                        assert(self.mesh_queue@.is_prefix_of(self.mesh_queue@)) by {
                            assert(self.mesh_queue@ =~= self.mesh_queue@.take(
                                self.mesh_queue@.len() as int,
                            ));
                        }
                    }
                    return ;
                }
            },
        }
        let ghost mid = *self;
        proof {
            assert(mid.mesh_queue@ == old(self).mesh_queue@);
            assert forall|i: int|
                0 <= i < mid.mesh_queue@.len() implies mid.resident(
                #[trigger] mid.mesh_queue@[i],
            ) && !mid.is_shared_air(mid.mesh_queue@[i]) by {
                let e = mid.mesh_queue@[i];
                assert(old(self).resident(e) && !old(self).is_shared_air(e));
            }
            assert forall|p: ChunkPosition| #[trigger]
                mid.resident(p) && !mid.is_shared_air(p) implies (mid.chunk_at(p).in_mesh_queue
                <==> positions_contain(mid.mesh_queue@, p)) by {
                if spec_pack(p) == spec_pack(position) {
                    if old(self).resident(p) && !old(self).is_shared_air(p) {
                        assert(mid.chunk_at(p).in_mesh_queue == old(self).chunk_at(
                            p,
                        ).in_mesh_queue);
                    } else {
                        assert(!mid.chunk_at(p).in_mesh_queue);
                        if positions_contain(mid.mesh_queue@, p) {
                            let i = choose|i: int|
                                0 <= i < mid.mesh_queue@.len() && spec_pack(
                                    #[trigger] mid.mesh_queue@[i],
                                ) == spec_pack(p);
                            assert(old(self).resident(mid.mesh_queue@[i]) && !old(
                                self,
                            ).is_shared_air(mid.mesh_queue@[i]));
                            assert(false);
                        }
                    }
                } else {
                    assert(old(self).resident(p) && !old(self).is_shared_air(p));
                    assert(mid.chunk_at(p) == old(self).chunk_at(p));
                }
            }
            assert(mid.wf());
            assert(mid.resident(position));
            assert(same_chunk_data(mid.chunk_at(position), chunk));
            assert forall|q: ChunkPosition| #[trigger]
                old(self).resident(q) && !old(self).is_shared_air(q) implies mid.resident(q)
                && mid.chunk_index_of(q) == old(self).chunk_index_of(q) && mid.chunk_at(
                q,
            ).in_mesh_queue == old(self).chunk_at(q).in_mesh_queue by {
                if spec_pack(q) != spec_pack(position) {
                    assert(mid.chunk_at(q) == old(self).chunk_at(q));
                }
            }
            assert(pending_work_queued(*old(self), mid));
            assert(resident_slots_stable(*old(self), mid));
            assert forall|q: ChunkPosition|
                #[trigger] old(self).resident(q) && spec_pack(q) != spec_pack(
                    position,
                ) implies mid.resident(q) && same_chunk_data(
                mid.chunk_at(q),
                old(self).chunk_at(q),
            ) by {
                assert(mid.chunk_index_of(q) == old(self).chunk_index_of(q));
                if mid.chunk_index_of(q) != mid.chunk_index_of(position) {
                    assert(mid.chunk_at(q) == old(self).chunk_at(q));
                }
            }
        }
        self.request_mesh_update(position);
        let ghost s1 = *self;
        let ghost qb = self.mesh_queue@;
        proof {
            lemma_pending_step(*old(self), mid, s1, position);
        }
        self.request_neighbour_mesh_updates(position);
        proof {
            lemma_pending_compose(*old(self), s1, *self);
            assert(neighbour_flagged(*old(self), *self, position)) by {
                if old(self).resident(position) && !old(self).is_shared_air(position) {
                    assert(s1.chunk_at(position).in_mesh_queue);
                }
            }
            assert(mid.mesh_queue@ == old(self).mesh_queue@);
            assert(mid.mesh_queue@.is_prefix_of(mid.mesh_queue@)) by {
                assert(mid.mesh_queue@ =~= mid.mesh_queue@.take(mid.mesh_queue@.len() as int));
            }
            lemma_queue_step(mid.mesh_queue@, mid.mesh_queue@, qb, position, position);
            lemma_queue_extended_trans(mid.mesh_queue@, qb, self.mesh_queue@, position);
            assert forall|i: int| 0 <= i < mid.chunks@.len() implies same_chunk_data(
                #[trigger] mid.chunks@[i],
                self.chunks@[i],
            ) by {
                assert(same_chunk_data(mid.chunks@[i], s1.chunks@[i]));
                assert(same_chunk_data(s1.chunks@[i], self.chunks@[i]));
            }
            assert(same_chunk_data(self.chunk_at(position), chunk));
            assert forall|q: ChunkPosition|
                #[trigger] old(self).resident(q) && spec_pack(q) != spec_pack(
                    position,
                ) implies self.resident(q) && same_chunk_data(
                self.chunk_at(q),
                old(self).chunk_at(q),
            ) by {
                assert(same_chunk_data(mid.chunk_at(q), old(self).chunk_at(q)));
                assert(self.chunk_index_of(q) == mid.chunk_index_of(q));
                assert(same_chunk_data(mid.chunks@[mid.chunk_index_of(q)], self.chunks@[mid.chunk_index_of(q)]));
            }
        }
    }

    /// Records a position as generated-and-empty by pointing it at
    /// the shared air chunk, and queues the six neighbours (a newly
    /// revealed air chunk can change what they cull).
    pub fn add_air_chunk(&mut self, position: ChunkPosition)
        requires
            old(self).wf(),
        ensures
            final(self).wf(),
            old(self).resident(position) ==> *final(self) == *old(self),
            !old(self).resident(position) ==> {
                &&& final(self).resident(position)
                &&& final(self).is_shared_air(position)
                &&& final(self).position_to_index@.dom() == old(self).position_to_index@.dom().insert(
                    spec_pack(position),
                )
                &&& forall|q: ChunkPosition|
                    #[trigger] old(self).resident(q) ==> final(self).resident(q)
                        && final(self).chunk_index_of(q) == old(self).chunk_index_of(q)
                        && same_chunk_data(final(self).chunk_at(q), old(self).chunk_at(q))
            },
            final(self).chunks@.len() == old(self).chunks@.len(),
            queue_extended(old(self).mesh_queue@, final(self).mesh_queue@, position),
            queue_extended_neighbours(old(self).mesh_queue@, final(self).mesh_queue@, position),
            forall|i: int|
                old(self).mesh_queue@.len() <= i < final(self).mesh_queue@.len() ==> #[trigger]
                    final(self).mesh_queue@[i] != position,
            pending_work_queued(*old(self), *final(self)),
            !old(self).resident(position) ==> neighbour_flagged(
                *old(self),
                *final(self),
                position.spec_plus(1i32, 0i32, 0i32),
            ) && neighbour_flagged(
                *old(self),
                *final(self),
                position.spec_plus(-1i32, 0i32, 0i32),
            ) && neighbour_flagged(
                *old(self),
                *final(self),
                position.spec_plus(0i32, 1i32, 0i32),
            ) && neighbour_flagged(
                *old(self),
                *final(self),
                position.spec_plus(0i32, -1i32, 0i32),
            ) && neighbour_flagged(
                *old(self),
                *final(self),
                position.spec_plus(0i32, 0i32, 1i32),
            ) && neighbour_flagged(
                *old(self),
                *final(self),
                position.spec_plus(0i32, 0i32, -1i32),
            ),
            final(self).generation_queue == old(self).generation_queue,
            final(self).view_distance == old(self).view_distance,
            final(self).highest_generated_chunk == old(self).highest_generated_chunk,
            final(self).lowest_generated_chunk == old(self).lowest_generated_chunk,
    {
        proof {
            reveal(World::wf);
        }
        let key = pack(position);
        if self.position_to_index.get(&key).is_some() {
            // already resident: a stale generation reply, a no-op
            proof {
                assert(self.mesh_queue@.is_prefix_of(self.mesh_queue@)) by {
                    assert(self.mesh_queue@ =~= self.mesh_queue@.take(
                        self.mesh_queue@.len() as int,
                    ));
                }
            }
            return ;
        }
        self.position_to_index.insert(key, 0);
        self.positions.push(position);
        proof {
            assert(self.position_to_index@.dom() =~= old(
                self,
            ).position_to_index@.dom().insert(spec_pack(position)));
            assert forall|k: u128| #[trigger]
                self.position_to_index@.contains_key(k) implies exists|i: int|
                0 <= i < self.positions@.len() && spec_pack(self.positions@[i]) == k by {
                if k == spec_pack(position) {
                    assert(spec_pack(self.positions@[self.positions@.len() - 1]) == k);
                } else {
                    assert(old(self).position_to_index@.contains_key(k));
                    let i = choose|i: int|
                        0 <= i < old(self).positions@.len() && spec_pack(old(self).positions@[i])
                            == k;
                    assert(spec_pack(self.positions@[i]) == k);
                }
            }
        }
        let ghost mid = *self;
        proof {
            assert forall|q: ChunkPosition| #[trigger]
                old(self).resident(q) && !old(self).is_shared_air(q) implies mid.resident(q)
                && mid.chunk_index_of(q) == old(self).chunk_index_of(q) && mid.chunk_at(
                q,
            ).in_mesh_queue == old(self).chunk_at(q).in_mesh_queue by {
                assert(spec_pack(q) != spec_pack(position));
            }
            assert(pending_work_queued(*old(self), mid));
            assert(resident_slots_stable(*old(self), mid));
            assert(mid.mesh_queue@ == old(self).mesh_queue@);
            assert forall|i: int|
                0 <= i < mid.mesh_queue@.len() implies mid.resident(
                #[trigger] mid.mesh_queue@[i],
            ) && !mid.is_shared_air(mid.mesh_queue@[i]) by {
                let e = mid.mesh_queue@[i];
                assert(old(self).resident(e) && !old(self).is_shared_air(e));
                assert(spec_pack(e) != spec_pack(position));
            }
            assert forall|p: ChunkPosition| #[trigger]
                mid.resident(p) && !mid.is_shared_air(p) implies (mid.chunk_at(p).in_mesh_queue
                <==> positions_contain(mid.mesh_queue@, p)) by {
                assert(spec_pack(p) != spec_pack(position));
                assert(old(self).resident(p) && !old(self).is_shared_air(p));
                assert(mid.chunk_at(p) == old(self).chunk_at(p));
            }
            assert(mid.wf());
        }
        self.request_neighbour_mesh_updates(position);
        proof {
            lemma_pending_compose(*old(self), mid, *self);
            assert forall|i: int|
                old(self).mesh_queue@.len() <= i < self.mesh_queue@.len() implies #[trigger]
                self.mesh_queue@[i] != position by {
                lemma_adjacent_is_not_self(self.mesh_queue@[i], position);
            }
            assert(mid.mesh_queue@ == old(self).mesh_queue@);
            assert forall|q: ChunkPosition| #[trigger] old(self).resident(q) implies self.resident(
                q,
            ) && same_chunk_data(self.chunk_at(q), old(self).chunk_at(q)) by {
                assert(mid.chunk_at(q) == old(self).chunk_at(q));
                assert(self.chunk_index_of(q) == mid.chunk_index_of(q));
                assert(same_chunk_data(mid.chunks@[mid.chunk_index_of(q)], self.chunks@[mid.chunk_index_of(q)]));
            }
            assert(same_chunk_data(mid.chunks@[0], self.chunks@[0]));
        }
    }

    /// A reference to each of the six face-adjacent chunks, when all
    /// of them are resident.
    pub fn neighbours(&self, position: ChunkPosition) -> (r: Option<ChunkNeighbours<'_>>)
        requires
            self.wf(),
        ensures
            match r {
                Some(n) => {
                    &&& self.resident(position.spec_plus(1i32, 0i32, 0i32))
                    &&& self.resident(position.spec_plus(-1i32, 0i32, 0i32))
                    &&& self.resident(position.spec_plus(0i32, 1i32, 0i32))
                    &&& self.resident(position.spec_plus(0i32, -1i32, 0i32))
                    &&& self.resident(position.spec_plus(0i32, 0i32, 1i32))
                    &&& self.resident(position.spec_plus(0i32, 0i32, -1i32))
                    &&& *n.pos_x == self.chunk_at(position.spec_plus(1i32, 0i32, 0i32))
                    &&& *n.neg_x == self.chunk_at(position.spec_plus(-1i32, 0i32, 0i32))
                    &&& *n.pos_y == self.chunk_at(position.spec_plus(0i32, 1i32, 0i32))
                    &&& *n.neg_y == self.chunk_at(position.spec_plus(0i32, -1i32, 0i32))
                    &&& *n.pos_z == self.chunk_at(position.spec_plus(0i32, 0i32, 1i32))
                    &&& *n.neg_z == self.chunk_at(position.spec_plus(0i32, 0i32, -1i32))
                },
                None => {
                    ||| !self.resident(position.spec_plus(1i32, 0i32, 0i32))
                    ||| !self.resident(position.spec_plus(-1i32, 0i32, 0i32))
                    ||| !self.resident(position.spec_plus(0i32, 1i32, 0i32))
                    ||| !self.resident(position.spec_plus(0i32, -1i32, 0i32))
                    ||| !self.resident(position.spec_plus(0i32, 0i32, 1i32))
                    ||| !self.resident(position.spec_plus(0i32, 0i32, -1i32))
                },
            },
    {
        proof {
            reveal(World::wf);
        }
        let pos_x = match self.get_chunk(position.plus(IVec3::new(1, 0, 0))) {
            Some(c) => c,
            None => {
                return None;
            },
        };
        let neg_x = match self.get_chunk(position.plus(IVec3::new(-1, 0, 0))) {
            Some(c) => c,
            None => {
                return None;
            },
        };
        let pos_y = match self.get_chunk(position.plus(IVec3::new(0, 1, 0))) {
            Some(c) => c,
            None => {
                return None;
            },
        };
        let neg_y = match self.get_chunk(position.plus(IVec3::new(0, -1, 0))) {
            Some(c) => c,
            None => {
                return None;
            },
        };
        let pos_z = match self.get_chunk(position.plus(IVec3::new(0, 0, 1))) {
            Some(c) => c,
            None => {
                return None;
            },
        };
        let neg_z = match self.get_chunk(position.plus(IVec3::new(0, 0, -1))) {
            Some(c) => c,
            None => {
                return None;
            },
        };
        Some(ChunkNeighbours { pos_x, neg_x, pos_y, neg_y, pos_z, neg_z })
    }

    /// Point-in-solid-block test; an absent chunk counts as solid, so
    /// nothing can move into unloaded space.
    pub fn collide(&self, chunk: ChunkPosition, offset: MilliVec3) -> (r: bool)
        requires
            self.wf(),
            offset.x < 16 * MILLIS_PER_BLOCK,
            offset.y < 16 * MILLIS_PER_BLOCK,
            offset.z < 16 * MILLIS_PER_BLOCK,
        ensures
            r == spec_collide(*self, chunk, offset),
    {
        proof {
            reveal(World::wf);
        }
        match self.get_chunk(chunk) {
            Some(c) => {
                let x = clamp_block_coordinate(offset.x);
                let y = clamp_block_coordinate(offset.y);
                let z = clamp_block_coordinate(offset.z);
                !c.get_block(x, y, z).transparent()
            },
            None => true,
        }
    }

    /// A write of `block` at `position` lands somewhere: the chunk is
    /// resident, and either already has its own storage or can be
    /// given some because the write is not Air.
    pub open spec fn set_block_applies(w: World, position: BlockPosition, block: Block) -> bool {
        &&& w.resident(position.spec_chunk())
        &&& (!w.is_shared_air(position.spec_chunk()) || (!block.is_air() && w.chunks@.len()
            < u32::MAX))
    }

    /// Writes one voxel, keeping the occupancy count and the cached
    /// transparency mask in step, and queues every chunk touching the
    /// written block for remeshing. Returns the block previously
    /// there; `None` says the write went nowhere: the chunk is not
    /// resident, or Air was written into the shared air chunk (or the
    /// store was full when a first write needed a fresh slot).
    #[verifier::rlimit(100)]
    pub fn set_block(&mut self, position: BlockPosition, block: Block) -> (r: Option<Block>)
        requires
            old(self).wf(),
        ensures
            final(self).wf(),
            !World::set_block_applies(*old(self), position, block) ==> r is None
                && *final(self) == *old(self),
            World::set_block_applies(*old(self), position, block) ==> {
                let cp = position.spec_chunk();
                let (lx, ly, lz) = position.spec_local();
                &&& r == Some(block_at(old(self).chunk_at(cp).blocks@, lx, ly, lz))
                &&& final(self).resident(cp)
                &&& final(self).chunk_at(cp).blocks@ == old(self).chunk_at(cp).blocks@.update(
                    spec_block_index(lx, ly, lz),
                    block,
                )
                &&& final(self).position_to_index@.dom() == old(self).position_to_index@.dom()
                &&& forall|q: ChunkPosition|
                    #[trigger] old(self).resident(q) && spec_pack(q) != spec_pack(cp)
                        ==> final(self).resident(q) && same_chunk_data(
                        final(self).chunk_at(q),
                        old(self).chunk_at(q),
                    )
            },
            final(self).chunks@.len() <= old(self).chunks@.len() + 1,
            block_queue_extended(old(self).mesh_queue@, final(self).mesh_queue@, position),
            pending_work_queued(*old(self), *final(self)),
            World::set_block_applies(*old(self), position, block) && block_at(
                old(self).chunk_at(position.spec_chunk()).blocks@,
                position.spec_local().0,
                position.spec_local().1,
                position.spec_local().2,
            ) != block ==> neighbour_flagged(
                *old(self),
                *final(self),
                position.spec_plus(1i32, 0i32, 0i32).spec_chunk(),
            ) && neighbour_flagged(
                *old(self),
                *final(self),
                position.spec_plus(-1i32, 0i32, 0i32).spec_chunk(),
            ) && neighbour_flagged(
                *old(self),
                *final(self),
                position.spec_plus(0i32, 1i32, 0i32).spec_chunk(),
            ) && neighbour_flagged(
                *old(self),
                *final(self),
                position.spec_plus(0i32, -1i32, 0i32).spec_chunk(),
            ) && neighbour_flagged(
                *old(self),
                *final(self),
                position.spec_plus(0i32, 0i32, 1i32).spec_chunk(),
            ) && neighbour_flagged(
                *old(self),
                *final(self),
                position.spec_plus(0i32, 0i32, -1i32).spec_chunk(),
            ),
            World::set_block_applies(*old(self), position, block) && block_at(
                old(self).chunk_at(position.spec_chunk()).blocks@,
                position.spec_local().0,
                position.spec_local().1,
                position.spec_local().2,
            ) == block ==> final(self).mesh_queue@ == old(self).mesh_queue@
                && final(self).chunks@.len() == old(self).chunks@.len()
                && final(self).chunk_at(position.spec_chunk()).transparency == old(
                self,
            ).chunk_at(position.spec_chunk()).transparency,
            final(self).generation_queue == old(self).generation_queue,
            final(self).positions == old(self).positions,
            final(self).view_distance == old(self).view_distance,
            final(self).highest_generated_chunk == old(self).highest_generated_chunk,
            final(self).lowest_generated_chunk == old(self).lowest_generated_chunk,
    {
        proof {
            reveal(World::wf);
        }
        proof {
            lemma_queue_refl(self.mesh_queue@);
        }
        let cp = position.chunk();
        let key = pack(cp);
        let found: Option<u32> = match self.position_to_index.get(&key) {
            Some(index) => Some(*index),
            None => None,
        };
        let index: u32 = match found {
            Some(0u32) => {
                if block.air() {
                    // writing Air into the shared air chunk changes nothing
                    return None;
                }
                if self.chunks.len() >= u32::MAX as usize {
                    return None;
                }
                // copy-on-first-write: give this position its own chunk
                let mut fresh = Chunk::new();
                fresh.transparency = 0xFF;
                let index = self.chunks.len() as u32;
                proof {
                    lemma_count_non_air_extremes(self.chunks@[0].blocks@);
                    assert(fresh.blocks@ =~= self.chunks@[0].blocks@);
                    assert(fresh.transparency_accurate()) by {
                        assert(self.chunks@[0].transparency_accurate());
                        assert(fresh.transparency == self.chunks@[0].transparency);
                        assert(fresh.blocks@ == self.chunks@[0].blocks@);
                    }
                }
                self.chunks.push(fresh);
                self.position_to_index.insert(key, index);
                proof {
                    let o = *old(self);
                    assert(self.position_to_index@.dom() =~= o.position_to_index@.dom());
                    assert forall|k: u128| #[trigger]
                        self.position_to_index@.contains_key(k) implies exists|i: int|
                        0 <= i < self.positions@.len() && spec_pack(self.positions@[i]) == k by {
                        assert(o.position_to_index@.contains_key(k));
                        let i = choose|i: int|
                            0 <= i < o.positions@.len() && spec_pack(o.positions@[i]) == k;
                        assert(spec_pack(self.positions@[i]) == k);
                    }
                }
                index
            },
            Some(index) => index,
            None => {
                return None;
            },
        };
        let ghost pre = *self;
        proof {
            assert(pre.mesh_queue@ == old(self).mesh_queue@);
            assert forall|i: int|
                0 <= i < pre.mesh_queue@.len() implies pre.resident(
                #[trigger] pre.mesh_queue@[i],
            ) && !pre.is_shared_air(pre.mesh_queue@[i]) by {
                let e = pre.mesh_queue@[i];
                assert(old(self).resident(e) && !old(self).is_shared_air(e));
                assert(spec_pack(e) != spec_pack(cp) || !old(self).is_shared_air(cp));
            }
            assert forall|p: ChunkPosition| #[trigger]
                pre.resident(p) && !pre.is_shared_air(p) implies (pre.chunk_at(p).in_mesh_queue
                <==> positions_contain(pre.mesh_queue@, p)) by {
                if spec_pack(p) == spec_pack(cp) && old(self).is_shared_air(cp) {
                    assert(!pre.chunk_at(p).in_mesh_queue);
                    if positions_contain(pre.mesh_queue@, p) {
                        let i = choose|i: int|
                            0 <= i < pre.mesh_queue@.len() && spec_pack(
                                #[trigger] pre.mesh_queue@[i],
                            ) == spec_pack(p);
                        assert(!old(self).is_shared_air(pre.mesh_queue@[i]));
                        assert(false);
                    }
                } else {
                    assert(old(self).resident(p) && !old(self).is_shared_air(p));
                    assert(pre.chunk_index_of(p) == old(self).chunk_index_of(p));
                    assert(pre.chunk_at(p) == old(self).chunk_at(p));
                }
            }
            assert(pre.wf());
            assert(same_chunk_data(pre.chunk_at(cp), old(self).chunk_at(cp)));
        }
        let rel_x = (position.index.x - cp.index.x * 16) as usize;
        let rel_y = (position.index.y - cp.index.y * 16) as usize;
        let rel_z = (position.index.z - cp.index.z * 16) as usize;
        proof {
            crate::position::lemma_block_chunk_round_trip(position);
        }
        let mut c = Chunk {
            blocks: Vec::new(),
            transparency: 0,
            in_mesh_queue: false,
            non_air_block_count: 0,
        };
        self.chunks.set_and_swap(index as usize, &mut c);
        let previous = c.set_block_local(rel_x, rel_y, rel_z, block);
        let changed = previous.id() != block.id();
        if changed {
            let boundary = rel_x == 0 || rel_y == 0 || rel_z == 0 || rel_x == 15 || rel_y == 15
                || rel_z == 15;
            if boundary {
                c.compute_transparency();
            } else {
                proof {
                    lemma_interior_update_preserves_faces(
                        pre.chunk_at(cp).blocks@,
                        rel_x as int,
                        rel_y as int,
                        rel_z as int,
                        block,
                    );
                }
            }
        } else {
            proof {
                assert(c.blocks@ =~= pre.chunk_at(cp).blocks@);
            }
        }
        self.chunks.set(index as usize, c);
        proof {
            let o = *old(self);
            assert forall|i: int| 0 <= i < self.chunks@.len() implies (
            #[trigger] self.chunks@[i]).wf() && self.chunks@[i].transparency_accurate() by {
                if i != index as int {
                    assert(self.chunks@[i] == pre.chunks@[i]);
                }
            }
            assert forall|k: u128| #[trigger]
                self.position_to_index@.contains_key(k) implies exists|i: int|
                0 <= i < self.positions@.len() && spec_pack(self.positions@[i]) == k by {
                assert(pre.position_to_index@.contains_key(k));
                let i = choose|i: int|
                    0 <= i < pre.positions@.len() && spec_pack(pre.positions@[i]) == k;
                assert(spec_pack(self.positions@[i]) == k);
            }
            assert(self.chunks@[0] == pre.chunks@[0]);
        }
        let ghost mid = *self;
        proof {
            assert(mid.mesh_queue@ == old(self).mesh_queue@);
            assert forall|i: int|
                0 <= i < mid.mesh_queue@.len() implies mid.resident(
                #[trigger] mid.mesh_queue@[i],
            ) && !mid.is_shared_air(mid.mesh_queue@[i]) by {
                let e = mid.mesh_queue@[i];
                assert(old(self).resident(e) && !old(self).is_shared_air(e));
                assert(spec_pack(e) != spec_pack(cp) || !old(self).is_shared_air(cp));
            }
            assert forall|p: ChunkPosition| #[trigger]
                mid.resident(p) && !mid.is_shared_air(p) implies (mid.chunk_at(p).in_mesh_queue
                <==> positions_contain(mid.mesh_queue@, p)) by {
                if spec_pack(p) == spec_pack(cp) {
                    if old(self).is_shared_air(cp) {
                        assert(!mid.chunk_at(p).in_mesh_queue);
                        if positions_contain(mid.mesh_queue@, p) {
                            let i = choose|i: int|
                                0 <= i < mid.mesh_queue@.len() && spec_pack(
                                    #[trigger] mid.mesh_queue@[i],
                                ) == spec_pack(p);
                            assert(!old(self).is_shared_air(mid.mesh_queue@[i]));
                            assert(false);
                        }
                    } else {
                        assert(mid.chunk_index_of(p) == old(self).chunk_index_of(p));
                        assert(mid.chunk_at(p).in_mesh_queue == old(self).chunk_at(
                            p,
                        ).in_mesh_queue);
                        assert(old(self).resident(p) && !old(self).is_shared_air(p));
                    }
                } else {
                    assert(mid.chunk_index_of(p) == old(self).chunk_index_of(p));
                    assert(mid.chunk_index_of(p) != index as int);
                    assert(mid.chunk_at(p).in_mesh_queue == old(self).chunk_at(p).in_mesh_queue);
                    assert(old(self).resident(p) && !old(self).is_shared_air(p));
                }
            }
            assert(mid.wf());
            assert forall|q: ChunkPosition|
                #[trigger] old(self).resident(q) && spec_pack(q) != spec_pack(cp) implies mid.resident(
                q,
            ) && same_chunk_data(mid.chunk_at(q), old(self).chunk_at(q)) by {
                assert(mid.chunk_index_of(q) == pre.chunk_index_of(q));
                if mid.chunk_index_of(q) != index as int {
                    assert(mid.chunk_at(q) == pre.chunk_at(q));
                }
            }
            assert forall|q: ChunkPosition| #[trigger]
                old(self).resident(q) && !old(self).is_shared_air(q) implies mid.resident(q)
                && mid.chunk_index_of(q) == old(self).chunk_index_of(q) && mid.chunk_at(
                q,
            ).in_mesh_queue == old(self).chunk_at(q).in_mesh_queue by {
                if mid.chunk_index_of(q) != index as int {
                    assert(mid.chunk_at(q) == pre.chunk_at(q));
                }
            }
            assert(pending_work_queued(*old(self), mid));
            assert(resident_slots_stable(*old(self), mid));
        }
        if changed {
            self.queue_block_neighbours(position);
            proof {
                lemma_queue_refl(mid.mesh_queue@);
                lemma_pending_compose(*old(self), mid, *self);
            }
        } else {
            proof {
                assert(pending_work_queued(*old(self), *self));
            }
        }
        proof {
            assert(self.chunk_index_of(cp) == mid.chunk_index_of(cp));
            assert(same_chunk_data(mid.chunks@[mid.chunk_index_of(cp)], self.chunks@[mid.chunk_index_of(cp)]));
            assert forall|q: ChunkPosition|
                #[trigger] old(self).resident(q) && spec_pack(q) != spec_pack(
                    cp,
                ) implies self.resident(q) && same_chunk_data(
                self.chunk_at(q),
                old(self).chunk_at(q),
            ) by {
                assert(same_chunk_data(mid.chunk_at(q), old(self).chunk_at(q)));
                assert(self.chunk_index_of(q) == mid.chunk_index_of(q));
                assert(same_chunk_data(mid.chunks@[mid.chunk_index_of(q)], self.chunks@[mid.chunk_index_of(q)]));
            }
        }
        Some(previous)
    }

    /// Queues the chunks of the six blocks adjacent to a written
    /// block: the chunk itself and, when the block sits on a chunk
    /// face, the chunks sharing it.
    fn queue_block_neighbours(&mut self, position: BlockPosition)
        requires
            old(self).wf(),
        ensures
            final(self).wf(),
            final(self).chunks@.len() == old(self).chunks@.len(),
            World::same_chunk_array(*old(self), *final(self)),
            final(self).position_to_index == old(self).position_to_index,
            final(self).positions == old(self).positions,
            block_queue_extended(old(self).mesh_queue@, final(self).mesh_queue@, position),
            pending_work_queued(*old(self), *final(self)),
            resident_slots_stable(*old(self), *final(self)),
            neighbour_flagged(*old(self), *final(self), position.spec_plus(1i32, 0i32, 0i32).spec_chunk()),
            neighbour_flagged(*old(self), *final(self), position.spec_plus(-1i32, 0i32, 0i32).spec_chunk()),
            neighbour_flagged(*old(self), *final(self), position.spec_plus(0i32, 1i32, 0i32).spec_chunk()),
            neighbour_flagged(*old(self), *final(self), position.spec_plus(0i32, -1i32, 0i32).spec_chunk()),
            neighbour_flagged(*old(self), *final(self), position.spec_plus(0i32, 0i32, 1i32).spec_chunk()),
            neighbour_flagged(*old(self), *final(self), position.spec_plus(0i32, 0i32, -1i32).spec_chunk()),
            old(self).mesh_queue@.is_prefix_of(final(self).mesh_queue@),
            final(self).generation_queue == old(self).generation_queue,
            final(self).view_distance == old(self).view_distance,
            final(self).highest_generated_chunk == old(self).highest_generated_chunk,
            final(self).lowest_generated_chunk == old(self).lowest_generated_chunk,
    {
        proof {
            reveal(World::wf);
        }
        let ghost w0 = *self;
        let ghost q0 = self.mesh_queue@;
        proof {
            lemma_queue_refl(q0);
        }
        self.request_mesh_update(position.plus(IVec3::new(1, 0, 0)).chunk());
        proof {
            lemma_block_queue_step(
                q0,
                q0,
                self.mesh_queue@,
                position,
                position.spec_plus(1i32, 0i32, 0i32).spec_chunk(),
            );
            lemma_pending_step(w0, w0, *self, position.spec_plus(1i32, 0i32, 0i32).spec_chunk());
        }
        let ghost w1 = *self;
        let ghost q1 = self.mesh_queue@;
        self.request_mesh_update(position.plus(IVec3::new(-1, 0, 0)).chunk());
        proof {
            lemma_block_queue_step(
                q0,
                q1,
                self.mesh_queue@,
                position,
                position.spec_plus(-1i32, 0i32, 0i32).spec_chunk(),
            );
            lemma_pending_step(w0, w1, *self, position.spec_plus(-1i32, 0i32, 0i32).spec_chunk());
        }
        let ghost w2 = *self;
        let ghost q2 = self.mesh_queue@;
        self.request_mesh_update(position.plus(IVec3::new(0, 1, 0)).chunk());
        proof {
            lemma_block_queue_step(
                q0,
                q2,
                self.mesh_queue@,
                position,
                position.spec_plus(0i32, 1i32, 0i32).spec_chunk(),
            );
            lemma_pending_step(w0, w2, *self, position.spec_plus(0i32, 1i32, 0i32).spec_chunk());
        }
        let ghost w3 = *self;
        let ghost q3 = self.mesh_queue@;
        self.request_mesh_update(position.plus(IVec3::new(0, -1, 0)).chunk());
        proof {
            lemma_block_queue_step(
                q0,
                q3,
                self.mesh_queue@,
                position,
                position.spec_plus(0i32, -1i32, 0i32).spec_chunk(),
            );
            lemma_pending_step(w0, w3, *self, position.spec_plus(0i32, -1i32, 0i32).spec_chunk());
        }
        let ghost w4 = *self;
        let ghost q4 = self.mesh_queue@;
        self.request_mesh_update(position.plus(IVec3::new(0, 0, 1)).chunk());
        proof {
            lemma_block_queue_step(
                q0,
                q4,
                self.mesh_queue@,
                position,
                position.spec_plus(0i32, 0i32, 1i32).spec_chunk(),
            );
            lemma_pending_step(w0, w4, *self, position.spec_plus(0i32, 0i32, 1i32).spec_chunk());
        }
        let ghost w5 = *self;
        let ghost q5 = self.mesh_queue@;
        self.request_mesh_update(position.plus(IVec3::new(0, 0, -1)).chunk());
        proof {
            lemma_block_queue_step(
                q0,
                q5,
                self.mesh_queue@,
                position,
                position.spec_plus(0i32, 0i32, -1i32).spec_chunk(),
            );
            lemma_pending_step(w0, w5, *self, position.spec_plus(0i32, 0i32, -1i32).spec_chunk());
        }
    }

    /// Evicts every resident chunk whose squared distance from the
    /// player chunk exceeds the squared view distance, and returns
    /// exactly the evicted positions, for downstream removal
    /// notifications.
    #[verifier::rlimit(100)]
    pub fn crop(&mut self, player_chunk: ChunkPosition) -> (removed: Vec<ChunkPosition>)
        requires
            old(self).wf(),
        ensures
            final(self).wf(),
            final(self).chunks == old(self).chunks,
            final(self).mesh_queue@ == spec_surviving_queue(
                old(self).mesh_queue@,
                final(self).position_to_index@,
            ),
            final(self).generation_queue == old(self).generation_queue,
            final(self).view_distance == old(self).view_distance,
            final(self).highest_generated_chunk == old(self).highest_generated_chunk,
            final(self).lowest_generated_chunk == old(self).lowest_generated_chunk,
            forall|p: ChunkPosition| #[trigger]
                final(self).resident(p) ==> old(self).resident(p) && final(self).chunk_at(p) == old(
                    self,
                ).chunk_at(p) && spec_distance_squared(p, player_chunk) <= old(self).view_distance
                    * old(self).view_distance,
            forall|p: ChunkPosition| #[trigger]
                old(self).resident(p) && spec_distance_squared(p, player_chunk) <= old(
                    self,
                ).view_distance * old(self).view_distance ==> final(self).resident(p),
            forall|i: int|
                0 <= i < removed@.len() ==> old(self).resident(#[trigger] removed@[i])
                    && spec_distance_squared(removed@[i], player_chunk) > old(self).view_distance
                    * old(self).view_distance && !final(self).resident(removed@[i]),
            forall|p: ChunkPosition| #[trigger]
                old(self).resident(p) && spec_distance_squared(p, player_chunk) > old(
                    self,
                ).view_distance * old(self).view_distance ==> positions_contain(removed@, p),
            forall|i: int, j: int|
                0 <= i < j < removed@.len() ==> spec_pack(#[trigger] removed@[i]) != spec_pack(
                    #[trigger] removed@[j],
                ),
    {
        proof {
            reveal(World::wf);
        }
        let ghost om = old(self).position_to_index@;
        let ghost op = old(self).positions@;
        proof {
            let a = self.view_distance as int;
            assert(a * a < 0x1_0000_0000) by (nonlinear_arith)
                requires
                    0 <= a < 0x1_0000,
            ;
        }
        let v2: i128 = self.view_distance as i128 * self.view_distance as i128;
        let mut kept: Vec<ChunkPosition> = Vec::new();
        let mut removed: Vec<ChunkPosition> = Vec::new();
        let n = self.positions.len();
        proof {
            assert forall|k: u128| #[trigger]
                self.position_to_index@.contains_key(k) implies exists|j: int|
                0 <= j < op.len() && spec_pack(#[trigger] op[j]) == k by {
                let i0 = choose|i0: int|
                    0 <= i0 < old(self).positions@.len() && spec_pack(
                        #[trigger] old(self).positions@[i0],
                    ) == k;
                assert(spec_pack(op[i0]) == k);
            }
        }
        let mut i: usize = 0;
        while i < n
            invariant
                old(self).wf(),
                v2 == old(self).view_distance * old(self).view_distance,
                n == op.len(),
                i <= n,
                self.chunks == old(self).chunks,
                self.positions == old(self).positions,
                self.mesh_queue == old(self).mesh_queue,
                self.generation_queue == old(self).generation_queue,
                self.view_distance == old(self).view_distance,
                self.highest_generated_chunk == old(self).highest_generated_chunk,
                self.lowest_generated_chunk == old(self).lowest_generated_chunk,
                op == old(self).positions@,
                om == old(self).position_to_index@,
                crop_inv(
                    om,
                    op,
                    self.position_to_index@,
                    kept@,
                    removed@,
                    i as int,
                    player_chunk,
                    v2 as int,
                ),
            decreases n - i,
        {
            proof {
                reveal(World::wf);
            }
            let p = self.positions[i];
            let d2 = distance_squared(p, player_chunk);
            let ghost m0 = self.position_to_index@;
            let ghost removed0 = removed@;
            let ghost kept0 = kept@;
            if d2 > v2 {
                let key = pack(p);
                self.position_to_index.remove(&key);
                removed.push(p);
                proof {
                    assert(removed@.drop_last() =~= removed0);
                    lemma_crop_step_removed(
                        om,
                        op,
                        m0,
                        self.position_to_index@,
                        kept@,
                        removed0,
                        removed@,
                        i as int,
                        player_chunk,
                        v2 as int,
                    );
                }
            } else {
                kept.push(p);
                proof {
                    assert(kept@.drop_last() =~= kept0);
                    lemma_crop_step_kept(
                        om,
                        op,
                        self.position_to_index@,
                        kept0,
                        kept@,
                        removed@,
                        i as int,
                        player_chunk,
                        v2 as int,
                    );
                }
            }
            i = i + 1;
        }
        self.positions = kept;
        // stale queue entries for evicted positions go with them, so
        // the pending-work flags keep their meaning
        let ghost q_old = self.mesh_queue@;
        let ghost m_final = self.position_to_index@;
        let mut surviving: VecDeque<ChunkPosition> = VecDeque::new();
        let ghost mut done: int = 0;
        proof {
            assert(q_old.take(0) =~= Seq::<ChunkPosition>::empty());
            assert(self.mesh_queue@ =~= q_old.subrange(0, q_old.len() as int));
        }
        let ghost frame = *self;
        loop
            invariant
                0 <= done <= q_old.len(),
                m_final == self.position_to_index@,
                self.chunks == frame.chunks,
                self.positions == frame.positions,
                self.position_to_index == frame.position_to_index,
                self.generation_queue == frame.generation_queue,
                self.view_distance == frame.view_distance,
                self.highest_generated_chunk == frame.highest_generated_chunk,
                self.lowest_generated_chunk == frame.lowest_generated_chunk,
                self.mesh_queue@ == q_old.subrange(done, q_old.len() as int),
                surviving@ == spec_surviving_queue(q_old.take(done), m_final),
            ensures
                surviving@ == spec_surviving_queue(q_old, m_final),
                self.chunks == frame.chunks,
                self.positions == frame.positions,
                self.position_to_index == frame.position_to_index,
                self.generation_queue == frame.generation_queue,
                self.view_distance == frame.view_distance,
                self.highest_generated_chunk == frame.highest_generated_chunk,
                self.lowest_generated_chunk == frame.lowest_generated_chunk,
            decreases self.mesh_queue@.len(),
        {
            proof {
                reveal(World::wf);
            }
            let entry = match self.mesh_queue.pop_front() {
                Some(entry) => entry,
                None => {
                    proof {
                        assert(q_old.take(done) =~= q_old);
                    }
                    break ;
                },
            };
            proof {
                assert(entry == q_old[done]);
                assert(q_old.take(done + 1).drop_last() =~= q_old.take(done));
                assert(q_old.take(done + 1).last() == entry);
            }
            let key = pack(entry);
            if self.position_to_index.get(&key).is_some() {
                surviving.push_back(entry);
                proof {
                    assert(surviving@ =~= spec_surviving_queue(q_old.take(done + 1), m_final));
                }
            } else {
                proof {
                    assert(surviving@ =~= spec_surviving_queue(q_old.take(done + 1), m_final));
                }
            }
            proof {
                done = done + 1;
                assert(self.mesh_queue@ =~= q_old.subrange(done, q_old.len() as int));
            }
        }
        self.mesh_queue = surviving;
        proof {
            assert(q_old == old(self).mesh_queue@);
            assert(self.chunks == old(self).chunks);
            assert forall|k: u128| #[trigger]
                self.position_to_index@.contains_key(k) implies old(
                self,
            ).position_to_index@.contains_key(k) && self.position_to_index@[k] == old(
                self,
            ).position_to_index@[k] by {
                assert(om.contains_key(k) && m_final[k] == om[k]);
            }
            lemma_crop_queue_invariant(*old(self), *self, q_old);
        }
        proof {
            let f = *self;
            assert forall|k: u128| #[trigger]
                f.position_to_index@.contains_key(k) implies exists|m: int|
                0 <= m < f.positions@.len() && spec_pack(f.positions@[m]) == k by {
                assert(positions_cover(kept@, k));
                let mm = choose|mm: int|
                    0 <= mm < kept@.len() && spec_pack(#[trigger] kept@[mm]) == k;
                assert(spec_pack(f.positions@[mm]) == k);
            }
            assert forall|p: ChunkPosition| #[trigger]
                f.resident(p) implies old(self).resident(p) && f.chunk_at(p) == old(self).chunk_at(
                p,
            ) && spec_distance_squared(p, player_chunk) <= v2 by {
                assert(om.contains_key(spec_pack(p)));
                let j = choose|j: int|
                    0 <= j < op.len() && spec_pack(#[trigger] op[j]) == spec_pack(p);
                lemma_pack_injective(op[j], p);
                if spec_distance_squared(op[j], player_chunk) > v2 {
                    assert(!f.position_to_index@.contains_key(spec_pack(op[j])));
                }
            }
            assert forall|p: ChunkPosition| #[trigger]
                old(self).resident(p) && spec_distance_squared(p, player_chunk)
                    <= v2 implies f.resident(p) by {
                let j = choose|j: int|
                    0 <= j < op.len() && spec_pack(#[trigger] op[j]) == spec_pack(p);
                lemma_pack_injective(op[j], p);
            }
            assert forall|p: ChunkPosition| #[trigger]
                old(self).resident(p) && spec_distance_squared(p, player_chunk)
                    > v2 implies positions_contain(removed@, p) by {
                let j = choose|j: int|
                    0 <= j < op.len() && spec_pack(#[trigger] op[j]) == spec_pack(p);
                lemma_pack_injective(op[j], p);
            }
            assert forall|i2: int|
                0 <= i2 < removed@.len() implies old(self).resident(#[trigger] removed@[i2])
                && spec_distance_squared(removed@[i2], player_chunk) > v2 && !f.resident(
                removed@[i2],
            ) by {
                assert(om.contains_key(spec_pack(removed@[i2])));
                assert(!f.position_to_index@.contains_key(spec_pack(removed@[i2])));
            }
        }
        removed
    }

    /// Drains the remesh queue. Each drained position that is still
    /// resident yields one update: an empty mesh for an all-Air
    /// chunk, a "fully solid and invisible" marker for a full chunk
    /// enclosed by fully opaque neighbour faces, or the real
    /// geometry; positions missing a neighbour (or no longer
    /// resident) yield nothing.
    #[verifier::rlimit(100)]
    pub fn get_updated_meshes(&mut self) -> (r: Vec<MeshUpdate>)
        requires
            old(self).wf(),
        ensures
            final(self).wf(),
            final(self).mesh_queue@.len() == 0,
            final(self).chunks@.len() == old(self).chunks@.len(),
            World::same_chunk_array(*old(self), *final(self)),
            final(self).position_to_index == old(self).position_to_index,
            final(self).positions == old(self).positions,
            final(self).generation_queue == old(self).generation_queue,
            final(self).view_distance == old(self).view_distance,
            final(self).highest_generated_chunk == old(self).highest_generated_chunk,
            final(self).lowest_generated_chunk == old(self).lowest_generated_chunk,
            forall|i: int|
                0 <= i < old(self).chunks@.len() && (#[trigger] final(self).chunks@[i]).in_mesh_queue
                    ==> old(self).chunks@[i].in_mesh_queue,
            forall|p: ChunkPosition| #[trigger]
                final(self).resident(p) && !final(self).is_shared_air(p) ==> !final(self).chunk_at(
                    p,
                ).in_mesh_queue,
            updates_match(r@, spec_mesh_updates(*old(self), old(self).mesh_queue@)),
    {
        proof {
            reveal(World::wf);
        }
        let ghost w0 = *old(self);
        let ghost q0 = old(self).mesh_queue@;
        let mut result: Vec<MeshUpdate> = Vec::new();
        let ghost mut done: Seq<(MeshData, Seq<Vertex>, Seq<u32>)> = Seq::empty();
        proof {
            assert(done + spec_mesh_updates(w0, self.mesh_queue@) =~= spec_mesh_updates(w0, q0));
        }
        loop
            invariant
                w0.wf(),
                self.wf(),
                self.chunks@.len() == w0.chunks@.len(),
                World::same_chunk_array(w0, *self),
                self.position_to_index == w0.position_to_index,
                self.positions == w0.positions,
                self.generation_queue == w0.generation_queue,
                self.view_distance == w0.view_distance,
                self.highest_generated_chunk == w0.highest_generated_chunk,
                self.lowest_generated_chunk == w0.lowest_generated_chunk,
                forall|i: int|
                    0 <= i < w0.chunks@.len() && (#[trigger] self.chunks@[i]).in_mesh_queue
                        ==> w0.chunks@[i].in_mesh_queue,
                updates_match(result@, done),
                done + spec_mesh_updates(w0, self.mesh_queue@) == spec_mesh_updates(w0, q0),
            ensures
                self.mesh_queue@.len() == 0,
                updates_match(result@, done),
                done + spec_mesh_updates(w0, self.mesh_queue@) == spec_mesh_updates(w0, q0),
            decreases self.mesh_queue@.len(),
        {
            proof {
                reveal(World::wf);
            }
            let ghost pre_it = *self;
            let ghost q_pre = self.mesh_queue@;
            let position = match self.mesh_queue.pop_front() {
                Some(position) => position,
                None => {
                    proof {
                        assert(self.mesh_queue@ == pre_it.mesh_queue@);
                        assert(self.chunks == pre_it.chunks);
                        assert(self.position_to_index == pre_it.position_to_index);
                        assert(self.positions == pre_it.positions);
                        assert forall|p: ChunkPosition| #[trigger]
                            self.resident(p) && !self.is_shared_air(p) implies (self.chunk_at(
                            p,
                        ).in_mesh_queue <==> positions_contain(self.mesh_queue@, p)) by {
                            assert(pre_it.resident(p) && !pre_it.is_shared_air(p));
                            assert(pre_it.chunk_at(p).in_mesh_queue <==> positions_contain(
                                pre_it.mesh_queue@,
                                p,
                            ));
                        }
                        assert(self.wf());
                    }
                    break ;
                },
            };
            proof {
                assert(pre_it.resident(position) && !pre_it.is_shared_air(position));
            }
            proof {
                assert(q_pre == seq![position] + self.mesh_queue@) by {
                    assert(q_pre =~= seq![position] + q_pre.subrange(1, q_pre.len() as int));
                }
                assert(spec_mesh_updates(w0, q_pre) == spec_step_updates(w0, position)
                    + spec_mesh_updates(w0, self.mesh_queue@)) by {
                    assert(q_pre.drop_first() == self.mesh_queue@) by {
                        assert(q_pre.drop_first() =~= self.mesh_queue@);
                    }
                }
            }
            let key = pack(position);
            let index: u32 = match self.position_to_index.get(&key) {
                Some(index) => *index,
                None => {
                    proof {
                        assert(false);
                    }
                    continue ;
                },
            };
            proof {
                assert(index as int == pre_it.chunk_index_of(position));
                assert(index != 0);
            }
            if index != 0 {
                // the drained chunk is no longer pending
                let mut c = Chunk {
                    blocks: Vec::new(),
                    transparency: 0,
                    in_mesh_queue: false,
                    non_air_block_count: 0,
                };
                self.chunks.set_and_swap(index as usize, &mut c);
                c.in_mesh_queue = false;
                self.chunks.set(index as usize, c);
                proof {
                    assert forall|i: int|
                        0 <= i < pre_it.chunks@.len() && i != pre_it.chunk_index_of(
                            position,
                        ) implies #[trigger] self.chunks@[i] == pre_it.chunks@[i] by {}
                    assert(same_chunk_data(
                        pre_it.chunks@[index as int],
                        self.chunks@[index as int],
                    ));
                    assert(self.chunks@[index as int].wf() && self.chunks@[
                        index as int
                    ].transparency_accurate()) by {
                        assert(pre_it.chunks@[index as int].wf() && pre_it.chunks@[
                            index as int
                        ].transparency_accurate());
                        assert(self.chunks@[index as int].blocks@ == pre_it.chunks@[
                            index as int
                        ].blocks@);
                        assert(self.chunks@[index as int].transparency == pre_it.chunks@[
                            index as int
                        ].transparency);
                        assert(self.chunks@[index as int].non_air_block_count == pre_it.chunks@[
                            index as int
                        ].non_air_block_count);
                    }
                    lemma_drain_pop(pre_it, *self, position);
                    assert(self.wf());
                }
            }
            proof {
                assert(self.wf());
            }
            proof {
                assert(self.resident(position) && w0.resident(position));
                assert(self.chunk_index_of(position) == w0.chunk_index_of(position));
                assert(same_chunk_data(w0.chunk_at(position), self.chunk_at(position)));
            }
            let chunk = match self.get_chunk(position) {
                Some(chunk) => chunk,
                None => {
                    proof {
                        assert(false);
                    }
                    continue ;
                },
            };
            if chunk.non_air_block_count == 0 {
                let data = MeshData {
                    chunk_x: position.index.x,
                    chunk_y: position.index.y,
                    chunk_z: position.index.z,
                    vertex_count: 0,
                    index_count: 0,
                    is_full_and_invisible: 0,
                };
                result.push(
                    MeshUpdate { data, mesh: ChunkMesh { vertices: Vec::new(), indices: Vec::new() } },
                );
                proof {
                    assert(w0.chunk_at(position).non_air_block_count == 0);
                    assert(spec_step_updates(w0, position) =~= seq![
                        (data, Seq::<Vertex>::empty(), Seq::<u32>::empty()),
                    ]);
                    done = done.push((data, Seq::<Vertex>::empty(), Seq::<u32>::empty()));
                    assert(done + spec_mesh_updates(w0, self.mesh_queue@) =~= spec_mesh_updates(
                        w0,
                        q0,
                    ));
                }
                continue ;
            }
            let neighbours = match self.neighbours(position) {
                Some(neighbours) => neighbours,
                None => {
                    // we can't build a mesh without all six neighbours
                    proof {
                        assert(!all_neighbours_resident(w0, position));
                        assert(spec_step_updates(w0, position) =~= Seq::empty());
                        assert(done + spec_mesh_updates(w0, self.mesh_queue@)
                            =~= spec_mesh_updates(w0, q0));
                    }
                    continue ;
                },
            };
            proof {
                lemma_neighbour_data(w0, *self, position);
            }
            if chunk.non_air_block_count == MAX_BLOCK_COUNT && !neighbours.pos_x.get_transparency(
                Transparency::NegX,
            ) && !neighbours.neg_x.get_transparency(Transparency::PosX)
                && !neighbours.pos_y.get_transparency(Transparency::NegY)
                && !neighbours.neg_y.get_transparency(Transparency::PosY)
                && !neighbours.pos_z.get_transparency(Transparency::NegZ)
                && !neighbours.neg_z.get_transparency(Transparency::PosZ) {
                let data = MeshData {
                    chunk_x: position.index.x,
                    chunk_y: position.index.y,
                    chunk_z: position.index.z,
                    vertex_count: 0,
                    index_count: 0,
                    is_full_and_invisible: 1,
                };
                result.push(
                    MeshUpdate { data, mesh: ChunkMesh { vertices: Vec::new(), indices: Vec::new() } },
                );
                proof {
                    assert(spec_step_updates(w0, position) =~= seq![
                        (data, Seq::<Vertex>::empty(), Seq::<u32>::empty()),
                    ]);
                    done = done.push((data, Seq::<Vertex>::empty(), Seq::<u32>::empty()));
                    assert(done + spec_mesh_updates(w0, self.mesh_queue@) =~= spec_mesh_updates(
                        w0,
                        q0,
                    ));
                }
                continue ;
            }
            let mesh = ChunkMesh::generate(chunk, neighbours);
            proof {
                let m = spec_mesh_view_at(w0, position);
                assert(m == ChunkNeighbours::view_with(neighbours, *chunk));
                crate::mesh::lemma_mesh_lens(m, 24576);
                lemma_visible_count_total(m);
                assert(mesh.vertices@.len() <= 98304);
                assert(mesh.indices@.len() <= 147456);
            }
            let data = MeshData {
                chunk_x: position.index.x,
                chunk_y: position.index.y,
                chunk_z: position.index.z,
                vertex_count: mesh.vertices.len() as u32,
                index_count: mesh.indices.len() as u32,
                is_full_and_invisible: 0,
            };
            proof {
                let m = spec_mesh_view_at(w0, position);
                assert(data.vertex_count == mesh.vertices@.len());
                assert(data.index_count == mesh.indices@.len());
                assert(spec_step_updates(w0, position) =~= seq![
                    (data, spec_mesh_vertices(m, 24576), spec_mesh_indices(m, 24576)),
                ]);
                done = done.push((data, spec_mesh_vertices(m, 24576), spec_mesh_indices(m, 24576)));
            }
            result.push(MeshUpdate { data, mesh });
            proof {
                assert(done + spec_mesh_updates(w0, self.mesh_queue@) =~= spec_mesh_updates(
                    w0,
                    q0,
                ));
            }
        }
        proof {
            assert(spec_mesh_updates(w0, self.mesh_queue@) =~= Seq::empty());
            assert(done =~= spec_mesh_updates(w0, q0));
            assert forall|p: ChunkPosition| #[trigger]
                self.resident(p) && !self.is_shared_air(p) implies !self.chunk_at(
                p,
            ).in_mesh_queue by {
                if self.chunk_at(p).in_mesh_queue {
                    assert(positions_contain(self.mesh_queue@, p));
                    let i = choose|i: int|
                        0 <= i < self.mesh_queue@.len() && spec_pack(
                            #[trigger] self.mesh_queue@[i],
                        ) == spec_pack(p);
                    assert(false);
                }
            }
        }
        result
    }

    /// Fixed-step ray march: from `offset` (relative to the origin of
    /// `start_chunk`, in thousandths of a block) along `direction`,
    /// in steps of one hundredth of a block, until a solid block is
    /// hit. Returns the last transparent and first solid block
    /// positions straddling the hit, or `(None, None)` when the ray
    /// is degenerate or nothing is hit within `max_distance` blocks.
    #[verifier::rlimit(100)]
    pub fn find_nearest_block_on_ray(
        &self,
        start_chunk: ChunkPosition,
        offset: MilliVec3,
        direction: MilliVec3,
        max_distance: usize,
    ) -> (r: (Option<BlockPosition>, Option<BlockPosition>))
        requires
            self.wf(),
            start_chunk.origin_in_range(),
            -100_000_000 <= offset.x <= 100_000_000,
            -100_000_000 <= offset.y <= 100_000_000,
            -100_000_000 <= offset.z <= 100_000_000,
            -1_000_000 <= direction.x <= 1_000_000,
            -1_000_000 <= direction.y <= 1_000_000,
            -1_000_000 <= direction.z <= 1_000_000,
            max_distance <= 1000,
        ensures
            direction.x == 0 && direction.y == 0 && direction.z == 0 ==> r == (
                None::<BlockPosition>,
                None::<BlockPosition>,
            ),
            !(direction.x == 0 && direction.y == 0 && direction.z == 0) ==> r == spec_ray_march(
                *self,
                start_chunk,
                offset,
                spec_norm_dir(direction),
                0,
                max_distance as int * 100,
                None,
            ),
    {
        proof {
            reveal(World::wf);
        }
        proof {
            assert(direction.x * direction.x <= 1_000_000_000_000 && direction.x * direction.x
                >= 0 && direction.y * direction.y <= 1_000_000_000_000 && direction.y * direction.y
                >= 0 && direction.z * direction.z <= 1_000_000_000_000 && direction.z * direction.z
                >= 0) by (nonlinear_arith)
                requires
                    -1_000_000 <= direction.x <= 1_000_000,
                    -1_000_000 <= direction.y <= 1_000_000,
                    -1_000_000 <= direction.z <= 1_000_000,
            ;
        }
        let len2: i64 = direction.x * direction.x + direction.y * direction.y + direction.z
            * direction.z;
        if len2 == 0 {
            proof {
                assert(direction.x * direction.x >= 0 && direction.y * direction.y >= 0
                    && direction.z * direction.z >= 0 && (direction.x != 0 ==> direction.x
                    * direction.x > 0) && (direction.y != 0 ==> direction.y * direction.y > 0) && (
                direction.z != 0 ==> direction.z * direction.z > 0)) by (nonlinear_arith)
                ;
            }
            return (None, None);
        }
        proof {
            assert(!(direction.x == 0 && direction.y == 0 && direction.z == 0));
        }
        let len = isqrt(len2 as u64);
        proof {
            lemma_norm_component_bound(direction.x as int, len2 as int, len as int);
            lemma_norm_component_bound(direction.y as int, len2 as int, len as int);
            lemma_norm_component_bound(direction.z as int, len2 as int, len as int);
        }
        let ndx = trunc_div(direction.x * 1000, len as i64);
        let ndy = trunc_div(direction.y * 1000, len as i64);
        let ndz = trunc_div(direction.z * 1000, len as i64);
        let ghost nd = spec_norm_dir(direction);
        proof {
            assert(nd == (ndx as int, ndy as int, ndz as int));
        }
        let steps: usize = max_distance * 100;
        let mut previous: Option<BlockPosition> = None;
        let mut i: usize = 0;
        while i < steps
            invariant
                self.wf(),
                start_chunk.origin_in_range(),
                -100_000_000 <= offset.x <= 100_000_000,
                -100_000_000 <= offset.y <= 100_000_000,
                -100_000_000 <= offset.z <= 100_000_000,
                nd == (ndx as int, ndy as int, ndz as int),
                nd == spec_norm_dir(direction),
                !(direction.x == 0 && direction.y == 0 && direction.z == 0),
                -1000 <= ndx <= 1000,
                -1000 <= ndy <= 1000,
                -1000 <= ndz <= 1000,
                steps == max_distance * 100,
                steps <= 100_000,
                i <= steps,
                spec_ray_march(*self, start_chunk, offset, nd, 0, steps as int, None)
                    == spec_ray_march(
                    *self,
                    start_chunk,
                    offset,
                    nd,
                    i as int,
                    steps as int,
                    previous,
                ),
            decreases steps - i,
        {
            proof {
                reveal(World::wf);
                assert(-100_000_000 <= i * ndx <= 100_000_000 && -100_000_000 <= i * ndy
                    <= 100_000_000 && -100_000_000 <= i * ndz <= 100_000_000) by (nonlinear_arith)
                    requires
                        0 <= i <= 100_000,
                        -1000 <= ndx <= 1000,
                        -1000 <= ndy <= 1000,
                        -1000 <= ndz <= 1000,
                ;
            }
            let px = offset.x + trunc_div(i as i64 * ndx, 100);
            let py = offset.y + trunc_div(i as i64 * ndy, 100);
            let pz = offset.z + trunc_div(i as i64 * ndz, 100);
            let dx = floor_div_1000(px);
            let dy = floor_div_1000(py);
            let dz = floor_div_1000(pz);
            let position = start_chunk.block().plus(
                IVec3::new(dx as i32, dy as i32, dz as i32),
            );
            proof {
                assert(position == spec_ray_sample(start_chunk, offset, nd, i as int));
            }
            let ghost prev0 = previous;
            let same = match previous {
                Some(p) => p == position,
                None => false,
            };
            if !same {
                let cp = position.chunk();
                match self.get_chunk(cp) {
                    Some(chunk) => {
                        let rel_x = (position.index.x - cp.index.x * 16) as usize;
                        let rel_y = (position.index.y - cp.index.y * 16) as usize;
                        let rel_z = (position.index.z - cp.index.z * 16) as usize;
                        proof {
                            crate::position::lemma_block_chunk_round_trip(position);
                        }
                        if !chunk.get_block(rel_x, rel_y, rel_z).transparent() {
                            proof {
                                assert(spec_ray_march(
                                    *self,
                                    start_chunk,
                                    offset,
                                    nd,
                                    i as int,
                                    steps as int,
                                    previous,
                                ) == (previous, Some(position)));
                            }
                            return (previous, Some(position));
                        }
                    },
                    None => {},
                }
                previous = Some(position);
            }
            proof {
                assert(spec_ray_march(
                    *self,
                    start_chunk,
                    offset,
                    nd,
                    i as int,
                    steps as int,
                    prev0,
                ) == spec_ray_march(
                    *self,
                    start_chunk,
                    offset,
                    nd,
                    i + 1,
                    steps as int,
                    previous,
                ));
            }
            i = i + 1;
        }
        proof {
            assert(spec_ray_march(
                *self,
                start_chunk,
                offset,
                nd,
                steps as int,
                steps as int,
                previous,
            ) == (None::<BlockPosition>, None::<BlockPosition>));
        }
        (None, None)
    }

    /// Queues the six face-adjacent chunks for remeshing.
    fn request_neighbour_mesh_updates(&mut self, position: ChunkPosition)
        requires
            old(self).wf(),
        ensures
            final(self).wf(),
            final(self).chunks@.len() == old(self).chunks@.len(),
            World::same_chunk_array(*old(self), *final(self)),
            final(self).position_to_index == old(self).position_to_index,
            final(self).positions == old(self).positions,
            queue_extended(old(self).mesh_queue@, final(self).mesh_queue@, position),
            queue_extended_neighbours(old(self).mesh_queue@, final(self).mesh_queue@, position),
            pending_work_queued(*old(self), *final(self)),
            resident_slots_stable(*old(self), *final(self)),
            neighbour_flagged(*old(self), *final(self), position.spec_plus(1i32, 0i32, 0i32)),
            neighbour_flagged(*old(self), *final(self), position.spec_plus(-1i32, 0i32, 0i32)),
            neighbour_flagged(*old(self), *final(self), position.spec_plus(0i32, 1i32, 0i32)),
            neighbour_flagged(*old(self), *final(self), position.spec_plus(0i32, -1i32, 0i32)),
            neighbour_flagged(*old(self), *final(self), position.spec_plus(0i32, 0i32, 1i32)),
            neighbour_flagged(*old(self), *final(self), position.spec_plus(0i32, 0i32, -1i32)),
            forall|i: int|
                0 <= i < old(self).chunks@.len() && (#[trigger] old(self).chunks@[i]).in_mesh_queue
                    ==> final(self).chunks@[i].in_mesh_queue,
            final(self).generation_queue == old(self).generation_queue,
            final(self).view_distance == old(self).view_distance,
            final(self).highest_generated_chunk == old(self).highest_generated_chunk,
            final(self).lowest_generated_chunk == old(self).lowest_generated_chunk,
    {
        proof {
            reveal(World::wf);
        }
        let ghost w0 = *self;
        let ghost q0 = self.mesh_queue@;
        self.request_mesh_update(position.plus(IVec3::new(1, 0, 0)));
        proof {
            assert(q0.is_prefix_of(q0)) by {
                assert(q0 =~= q0.take(q0.len() as int));
            }
            lemma_queue_step(q0, q0, self.mesh_queue@, position, position.spec_plus(1i32, 0i32, 0i32));
            lemma_queue_step_neighbours(q0, q0, self.mesh_queue@, position, position.spec_plus(1i32, 0i32, 0i32));
            lemma_pending_step(w0, w0, *self, position.spec_plus(1i32, 0i32, 0i32));
        }
        let ghost w1 = *self;
        let ghost q1 = self.mesh_queue@;
        self.request_mesh_update(position.plus(IVec3::new(-1, 0, 0)));
        proof {
            lemma_queue_step(q0, q1, self.mesh_queue@, position, position.spec_plus(-1i32, 0i32, 0i32));
            lemma_queue_step_neighbours(q0, q1, self.mesh_queue@, position, position.spec_plus(-1i32, 0i32, 0i32));
            lemma_pending_step(w0, w1, *self, position.spec_plus(-1i32, 0i32, 0i32));
        }
        let ghost w2 = *self;
        let ghost q2 = self.mesh_queue@;
        self.request_mesh_update(position.plus(IVec3::new(0, 1, 0)));
        proof {
            lemma_queue_step(q0, q2, self.mesh_queue@, position, position.spec_plus(0i32, 1i32, 0i32));
            lemma_queue_step_neighbours(q0, q2, self.mesh_queue@, position, position.spec_plus(0i32, 1i32, 0i32));
            lemma_pending_step(w0, w2, *self, position.spec_plus(0i32, 1i32, 0i32));
        }
        let ghost w3 = *self;
        let ghost q3 = self.mesh_queue@;
        self.request_mesh_update(position.plus(IVec3::new(0, -1, 0)));
        proof {
            lemma_queue_step(q0, q3, self.mesh_queue@, position, position.spec_plus(0i32, -1i32, 0i32));
            lemma_queue_step_neighbours(q0, q3, self.mesh_queue@, position, position.spec_plus(0i32, -1i32, 0i32));
            lemma_pending_step(w0, w3, *self, position.spec_plus(0i32, -1i32, 0i32));
        }
        let ghost w4 = *self;
        let ghost q4 = self.mesh_queue@;
        self.request_mesh_update(position.plus(IVec3::new(0, 0, 1)));
        proof {
            lemma_queue_step(q0, q4, self.mesh_queue@, position, position.spec_plus(0i32, 0i32, 1i32));
            lemma_queue_step_neighbours(q0, q4, self.mesh_queue@, position, position.spec_plus(0i32, 0i32, 1i32));
            lemma_pending_step(w0, w4, *self, position.spec_plus(0i32, 0i32, 1i32));
        }
        let ghost w5 = *self;
        let ghost q5 = self.mesh_queue@;
        self.request_mesh_update(position.plus(IVec3::new(0, 0, -1)));
        proof {
            lemma_queue_step(q0, q5, self.mesh_queue@, position, position.spec_plus(0i32, 0i32, -1i32));
            lemma_queue_step_neighbours(q0, q5, self.mesh_queue@, position, position.spec_plus(0i32, 0i32, -1i32));
            lemma_pending_step(w0, w5, *self, position.spec_plus(0i32, 0i32, -1i32));
        }
    }

    /// Queues one chunk for remeshing unless it is absent, pure air,
    /// or already queued: the pending-work flag prevents a duplicate
    /// entry, and the shared air chunk holds nothing to draw.
    fn request_mesh_update(&mut self, position: ChunkPosition)
        requires
            old(self).wf(),
        ensures
            final(self).wf(),
            final(self).chunks@.len() == old(self).chunks@.len(),
            World::same_chunk_array(*old(self), *final(self)),
            final(self).position_to_index == old(self).position_to_index,
            final(self).positions == old(self).positions,
            old(self).mesh_queue@.is_prefix_of(final(self).mesh_queue@),
            (old(self).resident(position) && !old(self).is_shared_air(position)
                && !old(self).chunk_at(position).in_mesh_queue)
                <==> final(self).mesh_queue@ == old(self).mesh_queue@.push(position),
            !(old(self).resident(position) && !old(self).is_shared_air(position)
                && !old(self).chunk_at(position).in_mesh_queue) ==> *final(self) == *old(self),
            old(self).resident(position) && !old(self).is_shared_air(position)
                ==> final(self).chunk_at(position).in_mesh_queue,
            forall|i: int|
                0 <= i < old(self).chunks@.len() && !(old(self).resident(position) && i == old(
                    self,
                ).chunk_index_of(position)) ==> (#[trigger] final(self).chunks@[i]).in_mesh_queue
                    == old(self).chunks@[i].in_mesh_queue,
            final(self).generation_queue == old(self).generation_queue,
            final(self).view_distance == old(self).view_distance,
            final(self).highest_generated_chunk == old(self).highest_generated_chunk,
            final(self).lowest_generated_chunk == old(self).lowest_generated_chunk,
    {
        proof {
            reveal(World::wf);
        }
        let key = pack(position);
        let index: u32 = match self.position_to_index.get(&key) {
            Some(index) => *index,
            None => {
                proof {
                    assert(self.mesh_queue@.is_prefix_of(self.mesh_queue@)) by {
                        assert(self.mesh_queue@ =~= self.mesh_queue@.take(
                            self.mesh_queue@.len() as int,
                        ));
                    }
                }
                return ;
            },
        };
        if index == 0 {
            // the shared air chunk holds nothing to draw
            proof {
                assert(self.mesh_queue@.is_prefix_of(self.mesh_queue@)) by {
                    assert(self.mesh_queue@ =~= self.mesh_queue@.take(
                        self.mesh_queue@.len() as int,
                    ));
                }
            }
            return ;
        }
        let flagged = self.chunks[index as usize].in_mesh_queue;
        if !flagged {
            let mut c = Chunk {
                blocks: Vec::new(),
                transparency: 0,
                in_mesh_queue: false,
                non_air_block_count: 0,
            };
            self.chunks.set_and_swap(index as usize, &mut c);
            c.in_mesh_queue = true;
            self.chunks.set(index as usize, c);
            self.mesh_queue.push_back(position);
            proof {
                let o = *old(self);
                assert(self.chunks@.len() == o.chunks@.len());
                assert forall|i: int| 0 <= i < self.chunks@.len() implies (
                #[trigger] self.chunks@[i]).wf() && self.chunks@[i].transparency_accurate() by {
                    if i != index as int {
                        assert(self.chunks@[i] == o.chunks@[i]);
                    } else {
                        assert(o.chunks@[i].wf() && o.chunks@[i].transparency_accurate());
                        assert(self.chunks@[i].blocks@ == o.chunks@[i].blocks@);
                        assert(self.chunks@[i].transparency == o.chunks@[i].transparency);
                        assert(self.chunks@[i].non_air_block_count == o.chunks@[
                            i
                        ].non_air_block_count);
                    }
                }
                assert(self.chunks@[0] == o.chunks@[0]);
                assert forall|i: int| 0 <= i < o.chunks@.len() implies same_chunk_data(
                    #[trigger] o.chunks@[i],
                    self.chunks@[i],
                ) by {
                    if i != index as int {
                        assert(self.chunks@[i] == o.chunks@[i]);
                    }
                }
                assert(self.mesh_queue@ == o.mesh_queue@.push(position));
                assert(o.mesh_queue@.is_prefix_of(self.mesh_queue@)) by {
                    assert(o.mesh_queue@ =~= self.mesh_queue@.take(o.mesh_queue@.len() as int));
                }
                assert forall|k: u128| #[trigger]
                    self.position_to_index@.contains_key(k) implies exists|i: int|
                    0 <= i < self.positions@.len() && spec_pack(self.positions@[i]) == k by {
                    assert(o.position_to_index@.contains_key(k));
                    let i = choose|i: int|
                        0 <= i < o.positions@.len() && spec_pack(o.positions@[i]) == k;
                    assert(spec_pack(self.positions@[i]) == k);
                }
                // the remesh-queue invariant: the pushed position is
                // fresh (its flag was clear), and only its slot's flag
                // rose
                assert(!positions_contain(o.mesh_queue@, position));
                assert forall|i: int|
                    0 <= i < self.mesh_queue@.len() implies self.resident(
                    #[trigger] self.mesh_queue@[i],
                ) && !self.is_shared_air(self.mesh_queue@[i]) by {
                    if i < o.mesh_queue@.len() {
                        assert(self.mesh_queue@[i] == o.mesh_queue@[i]);
                    } else {
                        assert(self.mesh_queue@[i] == position);
                    }
                }
                assert forall|i: int, j: int|
                    0 <= i < j < self.mesh_queue@.len() implies spec_pack(
                    #[trigger] self.mesh_queue@[i],
                ) != spec_pack(#[trigger] self.mesh_queue@[j]) by {
                    if j == o.mesh_queue@.len() {
                        assert(self.mesh_queue@[j] == position);
                        if spec_pack(self.mesh_queue@[i]) == spec_pack(position) {
                            assert(spec_pack(o.mesh_queue@[i]) == spec_pack(position));
                            assert(positions_contain(o.mesh_queue@, position));
                        }
                    } else {
                        assert(self.mesh_queue@[i] == o.mesh_queue@[i]);
                        assert(self.mesh_queue@[j] == o.mesh_queue@[j]);
                    }
                }
                assert forall|p: ChunkPosition| #[trigger]
                    self.resident(p) && !self.is_shared_air(p) implies (self.chunk_at(
                    p,
                ).in_mesh_queue <==> positions_contain(self.mesh_queue@, p)) by {
                    lemma_contain_push(o.mesh_queue@, position, p);
                    assert(o.resident(p) && !o.is_shared_air(p));
                    assert(o.chunk_at(p).in_mesh_queue <==> positions_contain(o.mesh_queue@, p));
                    if spec_pack(p) == spec_pack(position) {
                        assert(self.chunk_at(p) == self.chunks@[index as int]);
                        assert(self.chunk_at(p).in_mesh_queue);
                        assert(positions_contain(self.mesh_queue@, p));
                    } else {
                        assert(o.position_to_index@[spec_pack(p)] != o.position_to_index@[
                            spec_pack(position)
                        ] || o.position_to_index@[spec_pack(p)] == 0);
                        assert(o.chunk_index_of(p) != index as int);
                        assert(self.chunk_at(p).in_mesh_queue == o.chunk_at(p).in_mesh_queue);
                        assert(positions_contain(self.mesh_queue@, p) == positions_contain(
                            o.mesh_queue@,
                            p,
                        ));
                    }
                }
            }
        }
    }
}

/// Appending one entry adds exactly that position to the queue's
/// membership.
proof fn lemma_contain_push(q: Seq<ChunkPosition>, e: ChunkPosition, p: ChunkPosition)
    ensures
        positions_contain(q.push(e), p) <==> (positions_contain(q, p) || spec_pack(e)
            == spec_pack(p)),
{
    if positions_contain(q, p) {
        let i = choose|i: int| 0 <= i < q.len() && spec_pack(#[trigger] q[i]) == spec_pack(p);
        assert(spec_pack(q.push(e)[i]) == spec_pack(p));
    }
    if spec_pack(e) == spec_pack(p) {
        assert(spec_pack(q.push(e)[q.len() as int]) == spec_pack(p));
    }
    if positions_contain(q.push(e), p) && spec_pack(e) != spec_pack(p) {
        let i = choose|i: int|
            0 <= i < q.push(e).len() && spec_pack(#[trigger] q.push(e)[i]) == spec_pack(p);
        assert(i < q.len());
        assert(spec_pack(q[i]) == spec_pack(p));
    }
}

/// Popping the head removes exactly that position from the queue's
/// membership (the head being distinct from the rest).
proof fn lemma_contain_drop_first(q: Seq<ChunkPosition>, p: ChunkPosition)
    requires
        q.len() > 0,
    ensures
        positions_contain(q, p) && spec_pack(q[0]) != spec_pack(p) ==> positions_contain(
            q.drop_first(),
            p,
        ),
        positions_contain(q.drop_first(), p) ==> positions_contain(q, p),
{
    if positions_contain(q, p) && spec_pack(q[0]) != spec_pack(p) {
        let i = choose|i: int| 0 <= i < q.len() && spec_pack(#[trigger] q[i]) == spec_pack(p);
        assert(i >= 1);
        assert(spec_pack(q.drop_first()[i - 1]) == spec_pack(p));
    }
    if positions_contain(q.drop_first(), p) {
        let i = choose|i: int|
            0 <= i < q.drop_first().len() && spec_pack(#[trigger] q.drop_first()[i]) == spec_pack(
                p,
            );
        assert(spec_pack(q[i + 1]) == spec_pack(p));
    }
}

/// Every chunk whose pending-work flag rose between `w0` and `w`
/// stands in `w`'s remesh queue: a raised flag is never an empty
/// promise.
pub open spec fn pending_work_queued(w0: World, w: World) -> bool {
    forall|q: ChunkPosition| #[trigger]
        w0.resident(q) && !w0.is_shared_air(q) && !w0.chunk_at(q).in_mesh_queue && w.chunk_at(
            q,
        ).in_mesh_queue ==> positions_contain(w.mesh_queue@, q)
}

/// The chunk at `n`, if resident and materialized in `w0`, has its
/// pending-work flag set in `w`.
pub open spec fn neighbour_flagged(w0: World, w: World, n: ChunkPosition) -> bool {
    w0.resident(n) && !w0.is_shared_air(n) ==> w.chunk_at(n).in_mesh_queue
}

/// Residency and chunk slots of materialized chunks survive from
/// `w0` into `w` unchanged.
pub open spec fn resident_slots_stable(w0: World, w: World) -> bool {
    forall|q: ChunkPosition| #[trigger]
        w0.resident(q) && !w0.is_shared_air(q) ==> w.resident(q) && w.chunk_index_of(q)
            == w0.chunk_index_of(q)
}

/// One remesh request keeps the raised-flags-are-queued promise: the
/// only flag it can raise belongs to the chunk it also pushes.
proof fn lemma_pending_step(w0: World, wa: World, wb: World, e: ChunkPosition)
    requires
        wa.wf(),
        pending_work_queued(w0, wa),
        resident_slots_stable(w0, wa),
        wb.position_to_index == wa.position_to_index,
        wb.chunks@.len() == wa.chunks@.len(),
        wa.mesh_queue@.is_prefix_of(wb.mesh_queue@),
        (wa.resident(e) && !wa.is_shared_air(e) && !wa.chunk_at(e).in_mesh_queue)
            <==> wb.mesh_queue@ == wa.mesh_queue@.push(e),
        !(wa.resident(e) && !wa.is_shared_air(e) && !wa.chunk_at(e).in_mesh_queue) ==> wb == wa,
        wa.resident(e) && !wa.is_shared_air(e) ==> wb.chunk_at(e).in_mesh_queue,
        forall|i: int|
            0 <= i < wa.chunks@.len() && !(wa.resident(e) && i == wa.chunk_index_of(e)) ==> (
            #[trigger] wb.chunks@[i]).in_mesh_queue == wa.chunks@[i].in_mesh_queue,
    ensures
        pending_work_queued(w0, wb),
        resident_slots_stable(w0, wb),
        forall|i: int|
            0 <= i < wa.chunks@.len() && (#[trigger] wa.chunks@[i]).in_mesh_queue
                ==> wb.chunks@[i].in_mesh_queue,
{
    reveal(World::wf);
    if wb != wa {
        assert forall|q: ChunkPosition| #[trigger]
            w0.resident(q) && !w0.is_shared_air(q) && !w0.chunk_at(q).in_mesh_queue
                && wb.chunk_at(q).in_mesh_queue implies positions_contain(wb.mesh_queue@, q) by {
            assert(wa.resident(q) && wa.chunk_index_of(q) == w0.chunk_index_of(q));
            if wb.chunk_at(q).in_mesh_queue == wa.chunk_at(q).in_mesh_queue {
                assert(positions_contain(wa.mesh_queue@, q));
                let i = choose|i: int|
                    0 <= i < wa.mesh_queue@.len() && spec_pack(#[trigger] wa.mesh_queue@[i])
                        == spec_pack(q);
                assert(spec_pack(wb.mesh_queue@[i]) == spec_pack(q));
            } else {
                assert(wa.resident(e) && wa.chunk_index_of(q) == wa.chunk_index_of(e));
                assert(wa.chunk_index_of(q) != 0);
                if spec_pack(q) != spec_pack(e) {
                    assert(wa.position_to_index@[spec_pack(q)] == 0);
                    assert(false);
                }
                lemma_pack_injective(q, e);
                assert(q == e);
                if wa.chunk_at(e).in_mesh_queue {
                    assert(positions_contain(wa.mesh_queue@, q));
                    let i = choose|i: int|
                        0 <= i < wa.mesh_queue@.len() && spec_pack(#[trigger] wa.mesh_queue@[i])
                            == spec_pack(q);
                    assert(spec_pack(wb.mesh_queue@[i]) == spec_pack(q));
                } else {
                    assert(wb.mesh_queue@ == wa.mesh_queue@.push(e));
                    assert(spec_pack(wb.mesh_queue@[wb.mesh_queue@.len() - 1]) == spec_pack(q));
                }
            }
        }
        assert forall|i: int|
            0 <= i < wa.chunks@.len() && (#[trigger] wa.chunks@[i]).in_mesh_queue implies wb.chunks@[i].in_mesh_queue by {
            if wa.resident(e) && i == wa.chunk_index_of(e) {
                assert(wb.chunks@[i] == wb.chunk_at(e));
            }
        }
    }
}

/// Raised-flags-are-queued composes across two stages whose queues
/// only grow.
proof fn lemma_pending_compose(w0: World, wm: World, w1: World)
    requires
        pending_work_queued(w0, wm),
        pending_work_queued(wm, w1),
        resident_slots_stable(w0, wm),
        resident_slots_stable(wm, w1),
        wm.mesh_queue@.is_prefix_of(w1.mesh_queue@),
    ensures
        pending_work_queued(w0, w1),
        resident_slots_stable(w0, w1),
{
    reveal(World::wf);
    assert forall|q: ChunkPosition| #[trigger]
        w0.resident(q) && !w0.is_shared_air(q) && !w0.chunk_at(q).in_mesh_queue && w1.chunk_at(
            q,
        ).in_mesh_queue implies positions_contain(w1.mesh_queue@, q) by {
        assert(wm.resident(q) && wm.chunk_index_of(q) == w0.chunk_index_of(q));
        assert(!wm.is_shared_air(q));
        if wm.chunk_at(q).in_mesh_queue {
            assert(positions_contain(wm.mesh_queue@, q));
            let i = choose|i: int|
                0 <= i < wm.mesh_queue@.len() && spec_pack(#[trigger] wm.mesh_queue@[i])
                    == spec_pack(q);
            assert(spec_pack(w1.mesh_queue@[i]) == spec_pack(q));
        }
    }
}

/// The queue was only extended, and only with the given position or
/// one of its six face neighbours.
pub open spec fn queue_extended(
    old_q: Seq<ChunkPosition>,
    new_q: Seq<ChunkPosition>,
    p: ChunkPosition,
) -> bool {
    &&& old_q.is_prefix_of(new_q)
    &&& forall|i: int| old_q.len() <= i < new_q.len() ==> near_position(#[trigger] new_q[i], p)
}

/// Chains one more push-at-most step onto an already-extended queue.
proof fn lemma_queue_step(
    q0: Seq<ChunkPosition>,
    q1: Seq<ChunkPosition>,
    q2: Seq<ChunkPosition>,
    p: ChunkPosition,
    e: ChunkPosition,
)
    requires
        queue_extended(q0, q1, p),
        near_position(e, p),
        q2 == q1 || q2 == q1.push(e),
    ensures
        queue_extended(q0, q2, p),
{
    if q1 != q2 {
        assert(q0.is_prefix_of(q2)) by {
            assert(q0 =~= q2.take(q0.len() as int));
        }
        assert forall|i: int| q0.len() <= i < q2.len() implies near_position(
            #[trigger] q2[i],
            p,
        ) by {
            if i < q1.len() {
                assert(q2[i] == q1[i]);
            } else {
                assert(q2[i] == e);
            }
        }
    }
}

/// Two extensions in a row are one extension.
proof fn lemma_queue_extended_trans(
    q0: Seq<ChunkPosition>,
    q1: Seq<ChunkPosition>,
    q2: Seq<ChunkPosition>,
    p: ChunkPosition,
)
    requires
        queue_extended(q0, q1, p),
        queue_extended(q1, q2, p),
    ensures
        queue_extended(q0, q2, p),
{
    assert(q0.is_prefix_of(q2)) by {
        assert(q0 =~= q2.take(q0.len() as int));
    }
    assert forall|i: int| q0.len() <= i < q2.len() implies near_position(#[trigger] q2[i], p) by {
        if i < q1.len() {
            assert(q2[i] == q1[i]);
        }
    }
}

/// `q` is one of the six face-adjacent neighbours of `p` (and never
/// `p` itself).
pub open spec fn adjacent_position(q: ChunkPosition, p: ChunkPosition) -> bool {
    ||| q == p.spec_plus(1i32, 0i32, 0i32)
    ||| q == p.spec_plus(-1i32, 0i32, 0i32)
    ||| q == p.spec_plus(0i32, 1i32, 0i32)
    ||| q == p.spec_plus(0i32, -1i32, 0i32)
    ||| q == p.spec_plus(0i32, 0i32, 1i32)
    ||| q == p.spec_plus(0i32, 0i32, -1i32)
}

/// A face-adjacent neighbour is a different position: one step of
/// wrapping addition never comes back around.
pub proof fn lemma_adjacent_is_not_self(q: ChunkPosition, p: ChunkPosition)
    requires
        adjacent_position(q, p),
    ensures
        q != p,
{
}

/// The queue was only extended, and only with face-adjacent
/// neighbours of `p`; in particular never with `p` itself.
pub open spec fn queue_extended_neighbours(
    old_q: Seq<ChunkPosition>,
    new_q: Seq<ChunkPosition>,
    p: ChunkPosition,
) -> bool {
    &&& old_q.is_prefix_of(new_q)
    &&& forall|i: int|
        old_q.len() <= i < new_q.len() ==> adjacent_position(#[trigger] new_q[i], p)
}

/// Chains one more push-at-most step onto a neighbour-extended queue.
proof fn lemma_queue_step_neighbours(
    q0: Seq<ChunkPosition>,
    q1: Seq<ChunkPosition>,
    q2: Seq<ChunkPosition>,
    p: ChunkPosition,
    e: ChunkPosition,
)
    requires
        queue_extended_neighbours(q0, q1, p),
        adjacent_position(e, p),
        q2 == q1 || q2 == q1.push(e),
    ensures
        queue_extended_neighbours(q0, q2, p),
{
    if q1 != q2 {
        assert(q0.is_prefix_of(q2)) by {
            assert(q0 =~= q2.take(q0.len() as int));
        }
        assert forall|i: int| q0.len() <= i < q2.len() implies adjacent_position(
            #[trigger] q2[i],
            p,
        ) by {
            if i < q1.len() {
                assert(q2[i] == q1[i]);
            } else {
                assert(q2[i] == e);
            }
        }
    }
}

/// `q` is `p` or one of its six face-adjacent neighbours.
pub open spec fn near_position(q: ChunkPosition, p: ChunkPosition) -> bool {
    ||| q == p
    ||| q == p.spec_plus(1i32, 0i32, 0i32)
    ||| q == p.spec_plus(-1i32, 0i32, 0i32)
    ||| q == p.spec_plus(0i32, 1i32, 0i32)
    ||| q == p.spec_plus(0i32, -1i32, 0i32)
    ||| q == p.spec_plus(0i32, 0i32, 1i32)
    ||| q == p.spec_plus(0i32, 0i32, -1i32)
}

/// One drained mesh update and the chunk geometry it carries.
pub struct MeshUpdate {
    pub data: MeshData,
    pub mesh: ChunkMesh,
}

/// All six face-adjacent chunks are resident.
pub open spec fn all_neighbours_resident(w: World, p: ChunkPosition) -> bool {
    &&& w.resident(p.spec_plus(1i32, 0i32, 0i32))
    &&& w.resident(p.spec_plus(-1i32, 0i32, 0i32))
    &&& w.resident(p.spec_plus(0i32, 1i32, 0i32))
    &&& w.resident(p.spec_plus(0i32, -1i32, 0i32))
    &&& w.resident(p.spec_plus(0i32, 0i32, 1i32))
    &&& w.resident(p.spec_plus(0i32, 0i32, -1i32))
}

/// Every neighbour's face toward `p` is cached as fully opaque, so a
/// full chunk at `p` cannot be seen at all.
pub open spec fn spec_enclosed(w: World, p: ChunkPosition) -> bool {
    &&& !mask_bit(w.chunk_at(p.spec_plus(1i32, 0i32, 0i32)).transparency, Transparency::NegX)
    &&& !mask_bit(w.chunk_at(p.spec_plus(-1i32, 0i32, 0i32)).transparency, Transparency::PosX)
    &&& !mask_bit(w.chunk_at(p.spec_plus(0i32, 1i32, 0i32)).transparency, Transparency::NegY)
    &&& !mask_bit(w.chunk_at(p.spec_plus(0i32, -1i32, 0i32)).transparency, Transparency::PosY)
    &&& !mask_bit(w.chunk_at(p.spec_plus(0i32, 0i32, 1i32)).transparency, Transparency::NegZ)
    &&& !mask_bit(w.chunk_at(p.spec_plus(0i32, 0i32, -1i32)).transparency, Transparency::PosZ)
}

/// The block data the mesh of `p` is built from.
pub open spec fn spec_mesh_view_at(w: World, p: ChunkPosition) -> MeshView {
    MeshView {
        chunk: w.chunk_at(p).blocks@,
        pos_x: w.chunk_at(p.spec_plus(1i32, 0i32, 0i32)).blocks@,
        neg_x: w.chunk_at(p.spec_plus(-1i32, 0i32, 0i32)).blocks@,
        pos_y: w.chunk_at(p.spec_plus(0i32, 1i32, 0i32)).blocks@,
        neg_y: w.chunk_at(p.spec_plus(0i32, -1i32, 0i32)).blocks@,
        pos_z: w.chunk_at(p.spec_plus(0i32, 0i32, 1i32)).blocks@,
        neg_z: w.chunk_at(p.spec_plus(0i32, 0i32, -1i32)).blocks@,
    }
}

/// What one drained position contributes to the update list.
pub open spec fn spec_step_updates(w: World, p: ChunkPosition) -> Seq<
    (MeshData, Seq<Vertex>, Seq<u32>),
> {
    let zero_data = MeshData {
        chunk_x: p.index.x,
        chunk_y: p.index.y,
        chunk_z: p.index.z,
        vertex_count: 0,
        index_count: 0,
        is_full_and_invisible: 0,
    };
    if !w.resident(p) {
        Seq::empty()
    } else if w.chunk_at(p).non_air_block_count == 0 {
        seq![(zero_data, Seq::<Vertex>::empty(), Seq::<u32>::empty())]
    } else if !all_neighbours_resident(w, p) {
        Seq::empty()
    } else if w.chunk_at(p).non_air_block_count == MAX_BLOCK_COUNT && spec_enclosed(w, p) {
        seq![
            (
                MeshData { is_full_and_invisible: 1, ..zero_data },
                Seq::<Vertex>::empty(),
                Seq::<u32>::empty(),
            ),
        ]
    } else {
        let m = spec_mesh_view_at(w, p);
        let vc = spec_visible_count(m, 24576);
        seq![
            (
                MeshData {
                    vertex_count: (4 * vc) as u32,
                    index_count: (6 * vc) as u32,
                    ..zero_data
                },
                spec_mesh_vertices(m, 24576),
                spec_mesh_indices(m, 24576),
            ),
        ]
    }
}

/// The updates produced by draining the queue `q` against the world
/// `w`, in queue order.
pub open spec fn spec_mesh_updates(w: World, q: Seq<ChunkPosition>) -> Seq<
    (MeshData, Seq<Vertex>, Seq<u32>),
>
    decreases q.len(),
{
    if q.len() == 0 {
        Seq::empty()
    } else {
        spec_step_updates(w, q[0]) + spec_mesh_updates(w, q.drop_first())
    }
}

/// Two worlds that agree on residency and on every resident chunk's
/// data (pending-work flags aside) produce identical update lists
/// for any queue.
pub proof fn lemma_mesh_updates_agree(w1: World, w2: World, q: Seq<ChunkPosition>)
    requires
        w1.wf(),
        w1.position_to_index == w2.position_to_index,
        w2.chunks@.len() == w1.chunks@.len(),
        World::same_chunk_array(w1, w2),
    ensures
        spec_mesh_updates(w1, q) == spec_mesh_updates(w2, q),
    decreases q.len(),
{
    reveal(World::wf);
    assert forall|n: ChunkPosition| #[trigger] w1.resident(n) implies same_chunk_data(
        w1.chunk_at(n),
        w2.chunk_at(n),
    ) by {
        assert(0 <= w1.chunk_index_of(n) < w1.chunks@.len());
        assert(same_chunk_data(
            w1.chunks@[w1.chunk_index_of(n)],
            w2.chunks@[w1.chunk_index_of(n)],
        ));
    }
    if q.len() > 0 {
        lemma_mesh_updates_agree(w1, w2, q.drop_first());
        let p = q[0];
        assert(spec_step_updates(w1, p) =~= spec_step_updates(w2, p));
        assert(spec_mesh_updates(w1, q) =~= spec_mesh_updates(w2, q));
    } else {
        assert(spec_mesh_updates(w1, q) =~= spec_mesh_updates(w2, q));
    }
}

/// The produced vector carries exactly the specified updates.
pub open spec fn updates_match(
    r: Seq<MeshUpdate>,
    l: Seq<(MeshData, Seq<Vertex>, Seq<u32>)>,
) -> bool {
    &&& r.len() == l.len()
    &&& forall|i: int|
        0 <= i < r.len() ==> (#[trigger] r[i]).data == l[i].0 && r[i].mesh.vertices@ == l[i].1
            && r[i].mesh.indices@ == l[i].2
}

/// There are only so many candidate faces.
proof fn lemma_visible_count_total(m: MeshView)
    ensures
        0 <= spec_visible_count(m, 24576) <= 24576,
    decreases 24576int,
{
    lemma_visible_count_upto(m, 24576);
}

proof fn lemma_visible_count_upto(m: MeshView, t: int)
    requires
        t >= 0,
    ensures
        0 <= spec_visible_count(m, t) <= t,
    decreases t,
{
    if t > 0 {
        lemma_visible_count_upto(m, t - 1);
    }
}

/// In a well-formed world every neighbour chunk is well-formed with
/// an accurate mask, and the current state reads the same data as
/// `w0`.
#[verifier::rlimit(100)]
proof fn lemma_neighbour_data(w0: World, w: World, p: ChunkPosition)
    requires
        w0.wf(),
        w.wf(),
        w.position_to_index == w0.position_to_index,
        w.chunks@.len() == w0.chunks@.len(),
        World::same_chunk_array(w0, w),
        all_neighbours_resident(w, p),
    ensures
        all_neighbours_resident(w0, p),
        same_chunk_data(
            w0.chunk_at(p.spec_plus(1i32, 0i32, 0i32)),
            w.chunk_at(p.spec_plus(1i32, 0i32, 0i32)),
        ),
        same_chunk_data(
            w0.chunk_at(p.spec_plus(-1i32, 0i32, 0i32)),
            w.chunk_at(p.spec_plus(-1i32, 0i32, 0i32)),
        ),
        same_chunk_data(
            w0.chunk_at(p.spec_plus(0i32, 1i32, 0i32)),
            w.chunk_at(p.spec_plus(0i32, 1i32, 0i32)),
        ),
        same_chunk_data(
            w0.chunk_at(p.spec_plus(0i32, -1i32, 0i32)),
            w.chunk_at(p.spec_plus(0i32, -1i32, 0i32)),
        ),
        same_chunk_data(
            w0.chunk_at(p.spec_plus(0i32, 0i32, 1i32)),
            w.chunk_at(p.spec_plus(0i32, 0i32, 1i32)),
        ),
        same_chunk_data(
            w0.chunk_at(p.spec_plus(0i32, 0i32, -1i32)),
            w.chunk_at(p.spec_plus(0i32, 0i32, -1i32)),
        ),
{
    reveal(World::wf);
}

/// Small displacements from one block position land on distinct
/// blocks: the wrapping addition cannot wrap two nearby offsets onto
/// each other.
pub proof fn lemma_block_plus_injective(
    t: BlockPosition,
    d1: (int, int, int),
    d2: (int, int, int),
)
    requires
        -64 <= d1.0 <= 64,
        -64 <= d1.1 <= 64,
        -64 <= d1.2 <= 64,
        -64 <= d2.0 <= 64,
        -64 <= d2.1 <= 64,
        -64 <= d2.2 <= 64,
        t.spec_plus(d1.0 as i32, d1.1 as i32, d1.2 as i32) == t.spec_plus(
            d2.0 as i32,
            d2.1 as i32,
            d2.2 as i32,
        ),
    ensures
        d1 == d2,
{
}

/// Two distinct block positions inside the same chunk occupy
/// distinct cells of its flat buffer.
pub proof fn lemma_same_chunk_distinct_local(p: BlockPosition, q: BlockPosition)
    requires
        p != q,
        p.spec_chunk() == q.spec_chunk(),
    ensures
        ({
            let (px, py, pz) = p.spec_local();
            let (qx, qy, qz) = q.spec_local();
            spec_block_index(px, py, pz) != spec_block_index(qx, qy, qz)
        }),
{
    crate::position::lemma_block_chunk_round_trip(p);
    crate::position::lemma_block_chunk_round_trip(q);
    let (px, py, pz) = p.spec_local();
    let (qx, qy, qz) = q.spec_local();
    if spec_block_index(px, py, pz) == spec_block_index(qx, qy, qz) {
        crate::chunk::lemma_block_index_injective(px, py, pz, qx, qy, qz);
        assert(p.index.x == p.spec_chunk().index.x * 16 + px);
        assert(q.index.x == q.spec_chunk().index.x * 16 + qx);
        assert(p.index == q.index);
    }
}

/// Some entry of `s` is the position `p` (as the packed key states).
pub open spec fn positions_contain(s: Seq<ChunkPosition>, p: ChunkPosition) -> bool {
    exists|i: int| 0 <= i < s.len() && spec_pack(#[trigger] s[i]) == spec_pack(p)
}

/// Some entry of `s` packs to the key `k`.
pub open spec fn positions_cover(s: Seq<ChunkPosition>, k: u128) -> bool {
    exists|i: int| 0 <= i < s.len() && spec_pack(#[trigger] s[i]) == k
}

/// `e` is one of the first `i` positions, and within the view
/// distance of the player.
pub open spec fn kept_from(
    e: ChunkPosition,
    op: Seq<ChunkPosition>,
    i: int,
    player_chunk: ChunkPosition,
    v2: int,
) -> bool {
    exists|j: int|
        0 <= j < i && (#[trigger] op[j]) == e && spec_distance_squared(op[j], player_chunk) <= v2
}

/// The queue entries whose positions are still in the map, in their
/// original order: what eviction leaves of the remesh queue.
pub open spec fn spec_surviving_queue(q: Seq<ChunkPosition>, m: Map<u128, u32>) -> Seq<
    ChunkPosition,
>
    decreases q.len(),
{
    if q.len() == 0 {
        Seq::empty()
    } else {
        spec_surviving_queue(q.drop_last(), m) + if m.contains_key(spec_pack(q.last())) {
            seq![q.last()]
        } else {
            Seq::empty()
        }
    }
}

/// Filtering a distinct queue by survival keeps it distinct and
/// keeps exactly the surviving members.
proof fn lemma_surviving_queue_facts(q: Seq<ChunkPosition>, m: Map<u128, u32>)
    requires
        forall|i: int, j: int|
            0 <= i < j < q.len() ==> spec_pack(#[trigger] q[i]) != spec_pack(#[trigger] q[j]),
    ensures
        forall|i: int, j: int|
            0 <= i < j < spec_surviving_queue(q, m).len() ==> spec_pack(
                #[trigger] spec_surviving_queue(q, m)[i],
            ) != spec_pack(#[trigger] spec_surviving_queue(q, m)[j]),
        forall|p: ChunkPosition| #[trigger]
            positions_contain(spec_surviving_queue(q, m), p) <==> (positions_contain(q, p)
                && m.contains_key(spec_pack(p))),
    decreases q.len(),
{
    let r = spec_surviving_queue(q, m);
    if q.len() == 0 {
        assert forall|p: ChunkPosition| #[trigger]
            positions_contain(r, p) implies (positions_contain(q, p) && m.contains_key(
            spec_pack(p),
        )) by {
            let i = choose|i: int| 0 <= i < r.len() && spec_pack(#[trigger] r[i]) == spec_pack(p);
        }
    } else {
        let qd = q.drop_last();
        let e = q.last();
        assert forall|i: int, j: int| 0 <= i < j < qd.len() implies spec_pack(#[trigger] qd[i])
            != spec_pack(#[trigger] qd[j]) by {
            assert(qd[i] == q[i] && qd[j] == q[j]);
        }
        lemma_surviving_queue_facts(qd, m);
        let rd = spec_surviving_queue(qd, m);
        assert(!positions_contain(qd, e)) by {
            if positions_contain(qd, e) {
                let i = choose|i: int|
                    0 <= i < qd.len() && spec_pack(#[trigger] qd[i]) == spec_pack(e);
                assert(spec_pack(q[i]) == spec_pack(q[q.len() - 1]));
            }
        }
        assert forall|p: ChunkPosition| #[trigger]
            positions_contain(q, p) implies positions_contain(qd, p) || spec_pack(p) == spec_pack(
            e,
        ) by {
            let i = choose|i: int| 0 <= i < q.len() && spec_pack(#[trigger] q[i]) == spec_pack(p);
            if i < q.len() - 1 {
                assert(spec_pack(qd[i]) == spec_pack(p));
            }
        }
        assert forall|p: ChunkPosition| #[trigger]
            positions_contain(qd, p) implies positions_contain(q, p) by {
            let i = choose|i: int|
                0 <= i < qd.len() && spec_pack(#[trigger] qd[i]) == spec_pack(p);
            assert(spec_pack(q[i]) == spec_pack(p));
        }
        assert(positions_contain(q, e)) by {
            assert(spec_pack(q[q.len() - 1]) == spec_pack(e));
        }
        if m.contains_key(spec_pack(e)) {
            assert(r == rd.push(e)) by {
                assert(r =~= rd.push(e));
            }
            assert forall|p: ChunkPosition| #[trigger]
                positions_contain(r, p) <==> (positions_contain(q, p) && m.contains_key(
                spec_pack(p),
            )) by {
                lemma_contain_push(rd, e, p);
            }
            assert forall|i: int, j: int| 0 <= i < j < r.len() implies spec_pack(
                #[trigger] r[i],
            ) != spec_pack(#[trigger] r[j]) by {
                if j == r.len() - 1 {
                    assert(r[j] == e);
                    assert(r[i] == rd[i]);
                    if spec_pack(rd[i]) == spec_pack(e) {
                        assert(positions_contain(rd, e));
                        assert(positions_contain(qd, e));
                    }
                } else {
                    assert(r[i] == rd[i] && r[j] == rd[j]);
                }
            }
        } else {
            assert(r == rd) by {
                assert(r =~= rd);
            }
        }
    }
}

/// Draining one queue entry keeps the world well-formed: the popped
/// chunk's flag is cleared together with its entry, and nothing else
/// moves.
#[verifier::rlimit(100)]
proof fn lemma_drain_pop(pre: World, post: World, e: ChunkPosition)
    requires
        pre.wf(),
        pre.mesh_queue@.len() > 0,
        e == pre.mesh_queue@[0],
        post.position_to_index == pre.position_to_index,
        post.positions == pre.positions,
        post.mesh_queue@ == pre.mesh_queue@.drop_first(),
        post.chunks@.len() == pre.chunks@.len(),
        forall|i: int|
            0 <= i < pre.chunks@.len() && i != pre.chunk_index_of(e) ==> #[trigger] post.chunks@[i]
                == pre.chunks@[i],
        same_chunk_data(
            pre.chunks@[pre.chunk_index_of(e)],
            post.chunks@[pre.chunk_index_of(e)],
        ),
        post.chunks@[pre.chunk_index_of(e)].in_mesh_queue == false,
        post.chunks@[pre.chunk_index_of(e)].wf(),
        post.chunks@[pre.chunk_index_of(e)].transparency_accurate(),
    ensures
        post.wf(),
{
    reveal(World::wf);
    assert(pre.resident(e) && !pre.is_shared_air(e));
    let idx = pre.chunk_index_of(e);
    assert(idx != 0);
    assert(post.chunks@[0] == pre.chunks@[0]);
    assert forall|i: int| 0 <= i < post.chunks@.len() implies (#[trigger] post.chunks@[i]).wf()
        && post.chunks@[i].transparency_accurate() by {
        if i != idx {
            assert(post.chunks@[i] == pre.chunks@[i]);
        }
    }
    assert forall|k: u128| #[trigger]
        post.position_to_index@.contains_key(k) implies exists|i: int|
        0 <= i < post.positions@.len() && spec_pack(post.positions@[i]) == k by {
        let i = choose|i: int|
            0 <= i < pre.positions@.len() && spec_pack(#[trigger] pre.positions@[i]) == k;
        assert(spec_pack(post.positions@[i]) == k);
    }
    assert forall|i: int|
        0 <= i < post.mesh_queue@.len() implies post.resident(#[trigger] post.mesh_queue@[i])
        && !post.is_shared_air(post.mesh_queue@[i]) by {
        assert(post.mesh_queue@[i] == pre.mesh_queue@[i + 1]);
        assert(pre.resident(pre.mesh_queue@[i + 1]) && !pre.is_shared_air(
            pre.mesh_queue@[i + 1],
        ));
    }
    assert forall|i: int, j: int|
        0 <= i < j < post.mesh_queue@.len() implies spec_pack(#[trigger] post.mesh_queue@[i])
        != spec_pack(#[trigger] post.mesh_queue@[j]) by {
        assert(post.mesh_queue@[i] == pre.mesh_queue@[i + 1]);
        assert(post.mesh_queue@[j] == pre.mesh_queue@[j + 1]);
    }
    assert forall|p: ChunkPosition| #[trigger]
        post.resident(p) && !post.is_shared_air(p) implies (post.chunk_at(p).in_mesh_queue
        <==> positions_contain(post.mesh_queue@, p)) by {
        lemma_contain_drop_first(pre.mesh_queue@, p);
        assert(pre.resident(p) && !pre.is_shared_air(p));
        assert(pre.chunk_at(p).in_mesh_queue <==> positions_contain(pre.mesh_queue@, p));
        if spec_pack(p) == spec_pack(e) {
            assert(post.chunk_index_of(p) == idx);
            assert(!post.chunk_at(p).in_mesh_queue);
            if positions_contain(post.mesh_queue@, p) {
                let i = choose|i: int|
                    0 <= i < post.mesh_queue@.len() && spec_pack(
                        #[trigger] post.mesh_queue@[i],
                    ) == spec_pack(p);
                assert(post.mesh_queue@[i] == pre.mesh_queue@[i + 1]);
                assert(spec_pack(pre.mesh_queue@[i + 1]) != spec_pack(pre.mesh_queue@[0]));
                assert(false);
            }
        } else {
            assert(post.chunk_index_of(p) != idx || pre.position_to_index@[spec_pack(p)] == 0);
            assert(post.chunk_at(p).in_mesh_queue == pre.chunk_at(p).in_mesh_queue);
            if positions_contain(pre.mesh_queue@, p) {
                assert(spec_pack(pre.mesh_queue@[0]) != spec_pack(p));
                assert(positions_contain(post.mesh_queue@, p));
            }
        }
    }
}

/// Purging the queue of evicted positions restores the flag-queue
/// correspondence: survivors keep their (unchanged) flags and their
/// entries, the evicted take their entries with them.
#[verifier::rlimit(100)]
proof fn lemma_crop_queue_invariant(w0: World, f: World, q_old: Seq<ChunkPosition>)
    requires
        w0.wf(),
        q_old == w0.mesh_queue@,
        f.chunks == w0.chunks,
        f.mesh_queue@ == spec_surviving_queue(q_old, f.position_to_index@),
        forall|k: u128| #[trigger]
            f.position_to_index@.contains_key(k) ==> w0.position_to_index@.contains_key(k)
                && f.position_to_index@[k] == w0.position_to_index@[k],
    ensures
        forall|i: int|
            0 <= i < f.mesh_queue@.len() ==> f.resident(#[trigger] f.mesh_queue@[i])
                && !f.is_shared_air(f.mesh_queue@[i]),
        forall|i: int, j: int|
            0 <= i < j < f.mesh_queue@.len() ==> spec_pack(#[trigger] f.mesh_queue@[i])
                != spec_pack(#[trigger] f.mesh_queue@[j]),
        forall|p: ChunkPosition| #[trigger]
            f.resident(p) && !f.is_shared_air(p) ==> (f.chunk_at(p).in_mesh_queue
                <==> positions_contain(f.mesh_queue@, p)),
{
    reveal(World::wf);
    let m_final = f.position_to_index@;
    lemma_surviving_queue_facts(q_old, m_final);
    assert forall|i: int|
        0 <= i < f.mesh_queue@.len() implies f.resident(#[trigger] f.mesh_queue@[i])
        && !f.is_shared_air(f.mesh_queue@[i]) by {
        let e = f.mesh_queue@[i];
        assert(spec_pack(f.mesh_queue@[i]) == spec_pack(e));
        assert(positions_contain(f.mesh_queue@, e));
        assert(positions_contain(q_old, e) && m_final.contains_key(spec_pack(e)));
        let j = choose|j: int|
            0 <= j < q_old.len() && spec_pack(#[trigger] q_old[j]) == spec_pack(e);
        assert(w0.resident(q_old[j]) && !w0.is_shared_air(q_old[j]));
        assert(m_final[spec_pack(e)] == w0.position_to_index@[spec_pack(e)]);
    }
    assert forall|p: ChunkPosition| #[trigger]
        f.resident(p) && !f.is_shared_air(p) implies (f.chunk_at(p).in_mesh_queue
        <==> positions_contain(f.mesh_queue@, p)) by {
        assert(m_final[spec_pack(p)] == w0.position_to_index@[spec_pack(p)]);
        assert(w0.resident(p) && !w0.is_shared_air(p));
        assert(f.chunk_index_of(p) == w0.chunk_index_of(p));
        assert(f.chunk_at(p) == w0.chunk_at(p));
        assert(w0.chunk_at(p).in_mesh_queue <==> positions_contain(q_old, p));
    }
}

/// The eviction loop's bookkeeping after the first `i` positions
/// have been processed: `m` is the map so far, `kept` and `removed`
/// partition the processed positions by distance.
pub open spec fn crop_inv(
    om: Map<u128, u32>,
    op: Seq<ChunkPosition>,
    m: Map<u128, u32>,
    kept: Seq<ChunkPosition>,
    removed: Seq<ChunkPosition>,
    i: int,
    player_chunk: ChunkPosition,
    v2: int,
) -> bool {
    &&& forall|k: u128| #[trigger] m.contains_key(k) ==> om.contains_key(k) && m[k] == om[k]
    &&& forall|j: int|
        0 <= j < i && spec_distance_squared(#[trigger] op[j], player_chunk) > v2
            ==> !m.contains_key(spec_pack(op[j])) && positions_contain(removed, op[j])
    &&& forall|j: int|
        0 <= j < i && spec_distance_squared(#[trigger] op[j], player_chunk) <= v2
            ==> m.contains_key(spec_pack(op[j])) && positions_contain(kept, op[j])
    &&& forall|j: int| i <= j < op.len() ==> m.contains_key(spec_pack(#[trigger] op[j]))
    &&& forall|mm: int|
        0 <= mm < kept.len() ==> m.contains_key(spec_pack(#[trigger] kept[mm])) && kept_from(
            kept[mm],
            op,
            i,
            player_chunk,
            v2,
        )
    &&& forall|mm: int|
        0 <= mm < removed.len() ==> om.contains_key(spec_pack(#[trigger] removed[mm]))
            && !m.contains_key(spec_pack(removed[mm])) && spec_distance_squared(
            removed[mm],
            player_chunk,
        ) > v2
    &&& forall|m1: int, m2: int|
        0 <= m1 < m2 < kept.len() ==> spec_pack(#[trigger] kept[m1]) != spec_pack(
            #[trigger] kept[m2],
        )
    &&& forall|m1: int, m2: int|
        0 <= m1 < m2 < removed.len() ==> spec_pack(#[trigger] removed[m1]) != spec_pack(
            #[trigger] removed[m2],
        )
    &&& forall|k: u128| #[trigger]
        m.contains_key(k) ==> positions_cover(kept, k) || exists|j: int|
            i <= j < op.len() && spec_pack(#[trigger] op[j]) == k
}

/// One eviction step: the position at `i` was removed from the map
/// and appended to `removed`.
#[verifier::rlimit(100)]
proof fn lemma_crop_step_removed(
    om: Map<u128, u32>,
    op: Seq<ChunkPosition>,
    m0: Map<u128, u32>,
    m1: Map<u128, u32>,
    kept: Seq<ChunkPosition>,
    removed0: Seq<ChunkPosition>,
    removed: Seq<ChunkPosition>,
    i: int,
    player_chunk: ChunkPosition,
    v2: int,
)
    requires
        0 <= i < op.len(),
        forall|i1: int, i2: int|
            0 <= i1 < i2 < op.len() ==> spec_pack(#[trigger] op[i1]) != spec_pack(
                #[trigger] op[i2],
            ),
        spec_distance_squared(op[i], player_chunk) > v2,
        removed == removed0.push(op[i]),
        m1 == m0.remove(spec_pack(op[i])),
        crop_inv(om, op, m0, kept, removed0, i, player_chunk, v2),
    ensures
        crop_inv(om, op, m1, kept, removed, i + 1, player_chunk, v2),
{
    assert forall|j: int|
        0 <= j < i + 1 && spec_distance_squared(#[trigger] op[j], player_chunk)
            > v2 implies !m1.contains_key(spec_pack(op[j])) && positions_contain(
        removed,
        op[j],
    ) by {
        if j < i {
            assert(positions_contain(removed0, op[j]));
            let mm = choose|mm: int|
                0 <= mm < removed0.len() && spec_pack(#[trigger] removed0[mm]) == spec_pack(op[j]);
            assert(spec_pack(removed[mm]) == spec_pack(op[j]));
        } else {
            assert(spec_pack(removed[removed.len() - 1]) == spec_pack(op[i]));
        }
    }
    assert forall|j: int|
        0 <= j < i + 1 && spec_distance_squared(#[trigger] op[j], player_chunk)
            <= v2 implies m1.contains_key(spec_pack(op[j])) && positions_contain(kept, op[j]) by {
        assert(j < i);
        assert(spec_pack(op[j]) != spec_pack(op[i]));
    }
    assert forall|mm: int| 0 <= mm < removed.len() implies om.contains_key(
        spec_pack(#[trigger] removed[mm]),
    ) && !m1.contains_key(spec_pack(removed[mm])) && spec_distance_squared(
        removed[mm],
        player_chunk,
    ) > v2 by {
        if mm < removed0.len() {
            assert(removed[mm] == removed0[mm]);
        } else {
            assert(removed[mm] == op[i]);
        }
    }
    assert forall|mm: int| 0 <= mm < kept.len() implies m1.contains_key(
        spec_pack(#[trigger] kept[mm]),
    ) && kept_from(kept[mm], op, i + 1, player_chunk, v2) by {
        let j = choose|j: int|
            0 <= j < i && (#[trigger] op[j]) == kept[mm] && spec_distance_squared(
                op[j],
                player_chunk,
            ) <= v2;
        assert(0 <= j < i + 1 && op[j] == kept[mm] && spec_distance_squared(
            op[j],
            player_chunk,
        ) <= v2);
        assert(spec_pack(op[j]) != spec_pack(op[i]));
    }
    assert forall|m1i: int, m2i: int| 0 <= m1i < m2i < removed.len() implies spec_pack(
        #[trigger] removed[m1i],
    ) != spec_pack(#[trigger] removed[m2i]) by {
        if m2i < removed0.len() {
            assert(removed[m1i] == removed0[m1i] && removed[m2i] == removed0[m2i]);
        } else {
            assert(removed[m2i] == op[i]);
            assert(removed[m1i] == removed0[m1i]);
            assert(!m0.contains_key(spec_pack(removed0[m1i])));
            assert(m0.contains_key(spec_pack(op[i])));
        }
    }
    assert forall|k: u128| #[trigger] m1.contains_key(k) implies positions_cover(kept, k) || exists|
        j: int,
    | i + 1 <= j < op.len() && spec_pack(#[trigger] op[j]) == k by {
        assert(m0.contains_key(k));
        if !positions_cover(kept, k) {
            let j = choose|j: int| i <= j < op.len() && spec_pack(#[trigger] op[j]) == k;
            assert(j != i);
        }
    }
}

/// One keep step: the position at `i` stays and was appended to
/// `kept`.
#[verifier::rlimit(100)]
proof fn lemma_crop_step_kept(
    om: Map<u128, u32>,
    op: Seq<ChunkPosition>,
    m: Map<u128, u32>,
    kept0: Seq<ChunkPosition>,
    kept: Seq<ChunkPosition>,
    removed: Seq<ChunkPosition>,
    i: int,
    player_chunk: ChunkPosition,
    v2: int,
)
    requires
        0 <= i < op.len(),
        forall|i1: int, i2: int|
            0 <= i1 < i2 < op.len() ==> spec_pack(#[trigger] op[i1]) != spec_pack(
                #[trigger] op[i2],
            ),
        spec_distance_squared(op[i], player_chunk) <= v2,
        kept == kept0.push(op[i]),
        crop_inv(om, op, m, kept0, removed, i, player_chunk, v2),
    ensures
        crop_inv(om, op, m, kept, removed, i + 1, player_chunk, v2),
{
    assert forall|j: int|
        0 <= j < i + 1 && spec_distance_squared(#[trigger] op[j], player_chunk)
            <= v2 implies m.contains_key(spec_pack(op[j])) && positions_contain(kept, op[j]) by {
        if j < i {
            assert(positions_contain(kept0, op[j]));
            let mm = choose|mm: int|
                0 <= mm < kept0.len() && spec_pack(#[trigger] kept0[mm]) == spec_pack(op[j]);
            assert(spec_pack(kept[mm]) == spec_pack(op[j]));
        } else {
            assert(spec_pack(kept[kept.len() - 1]) == spec_pack(op[i]));
        }
    }
    assert forall|mm: int| 0 <= mm < kept.len() implies m.contains_key(
        spec_pack(#[trigger] kept[mm]),
    ) && kept_from(kept[mm], op, i + 1, player_chunk, v2) by {
        if mm < kept0.len() {
            assert(kept[mm] == kept0[mm]);
            let j = choose|j: int|
                0 <= j < i && (#[trigger] op[j]) == kept0[mm] && spec_distance_squared(
                    op[j],
                    player_chunk,
                ) <= v2;
            assert(0 <= j < i + 1 && op[j] == kept[mm] && spec_distance_squared(
                op[j],
                player_chunk,
            ) <= v2);
        } else {
            assert(kept[mm] == op[i]);
            assert(0 <= i < i + 1 && op[i] == kept[mm] && spec_distance_squared(
                op[i],
                player_chunk,
            ) <= v2);
        }
    }

    assert forall|m1i: int, m2i: int| 0 <= m1i < m2i < kept.len() implies spec_pack(
        #[trigger] kept[m1i],
    ) != spec_pack(#[trigger] kept[m2i]) by {
        if m2i < kept0.len() {
            assert(kept[m1i] == kept0[m1i] && kept[m2i] == kept0[m2i]);
        } else {
            assert(kept[m2i] == op[i]);
            assert(kept[m1i] == kept0[m1i]);
            let j = choose|j: int|
                0 <= j < i && (#[trigger] op[j]) == kept0[m1i] && spec_distance_squared(
                    op[j],
                    player_chunk,
                ) <= v2;
            assert(spec_pack(op[j]) != spec_pack(op[i]));
        }
    }
    assert forall|k: u128| #[trigger] m.contains_key(k) implies positions_cover(kept, k) || exists|
        j: int,
    | i + 1 <= j < op.len() && spec_pack(#[trigger] op[j]) == k by {
        if positions_cover(kept0, k) {
            let mm = choose|mm: int| 0 <= mm < kept0.len() && spec_pack(#[trigger] kept0[mm]) == k;
            assert(spec_pack(kept[mm]) == k);
        } else {
            let j = choose|j: int| i <= j < op.len() && spec_pack(#[trigger] op[j]) == k;
            if j == i {
                assert(spec_pack(kept[kept.len() - 1]) == k);
            }
        }
    }
}

/// The largest integer whose square does not exceed `n`.
pub open spec fn spec_isqrt(n: int) -> int
    decreases n,
{
    if n <= 0 {
        0
    } else {
        let p = spec_isqrt(n - 1);
        if (p + 1) * (p + 1) <= n {
            p + 1
        } else {
            p
        }
    }
}

pub proof fn lemma_isqrt_bounds(n: int)
    requires
        n >= 0,
    ensures
        0 <= spec_isqrt(n),
        spec_isqrt(n) * spec_isqrt(n) <= n,
        n < (spec_isqrt(n) + 1) * (spec_isqrt(n) + 1),
    decreases n,
{
    if n > 0 {
        lemma_isqrt_bounds(n - 1);
        let p = spec_isqrt(n - 1);
        if (p + 1) * (p + 1) <= n {
            assert(n < (p + 1 + 1) * (p + 1 + 1)) by (nonlinear_arith)
                requires
                    p >= 0,
                    n - 1 < (p + 1) * (p + 1),
                    (p + 1) * (p + 1) <= n,
            ;
        }
    }
}

/// Any integer with the square-root bracketing property is the
/// integer square root.
pub proof fn lemma_isqrt_unique(n: int, r: int)
    requires
        n >= 0,
        r >= 0,
        r * r <= n,
        n < (r + 1) * (r + 1),
    ensures
        r == spec_isqrt(n),
{
    lemma_isqrt_bounds(n);
    let s = spec_isqrt(n);
    assert(r == s) by (nonlinear_arith)
        requires
            r >= 0,
            s >= 0,
            r * r <= n,
            n < (r + 1) * (r + 1),
            s * s <= n,
            n < (s + 1) * (s + 1),
    ;
}

fn isqrt(n: u64) -> (r: u64)
    requires
        n <= 4_000_000_000_000,
    ensures
        r == spec_isqrt(n as int),
        r * r <= n < (r + 1) * (r + 1),
        r <= 2_000_000,
{
    let mut r: u64 = 0;
    loop
        invariant_except_break
            n <= 4_000_000_000_000,
            r * r <= n,
            r <= 2_000_000,
            r <= n,
        ensures
            r * r <= n,
            n < (r + 1) * (r + 1),
            r <= 2_000_000,
        decreases n - r,
    {
        proof {
            assert((r + 1) * (r + 1) < 0x7FFF_FFFF_FFFF_FFFF) by (nonlinear_arith)
                requires
                    r <= 2_000_000,
            ;
        }
        let next = (r + 1) * (r + 1);
        if next > n {
            break ;
        }
        proof {
            assert(r + 1 <= 2_000_000 && r + 1 <= n) by (nonlinear_arith)
                requires
                    (r + 1) * (r + 1) <= n,
                    n <= 4_000_000_000_000,
            ;
        }
        r = r + 1;
    }
    proof {
        lemma_isqrt_unique(n as int, r as int);
    }
    r
}

/// A normalized component is at most the scale.
proof fn lemma_norm_component_bound(x: int, len2: int, len: int)
    requires
        -1_000_000 <= x <= 1_000_000,
        x * x <= len2,
        len2 > 0,
        len >= 0,
        len * len <= len2 < (len + 1) * (len + 1),
    ensures
        len >= 1,
        -1000 <= spec_trunc_div(x * 1000, len) <= 1000,
        -1_000_000_000 <= x * 1000 <= 1_000_000_000,
    {
    assert(len >= 1) by (nonlinear_arith)
        requires
            len >= 0,
            len2 > 0,
            len2 < (len + 1) * (len + 1),
    ;
    assert(x <= len && -x <= len) by (nonlinear_arith)
        requires
            x * x <= len2,
            len2 < (len + 1) * (len + 1),
            len >= 0,
    ;
    if x >= 0 {
        assert(x * 1000 / len <= 1000) by (nonlinear_arith)
            requires
                0 <= x <= len,
                len >= 1,
        ;
        assert(x * 1000 >= 0) by (nonlinear_arith)
            requires
                x >= 0,
        ;
        assert(x * 1000 / len >= 0) by (nonlinear_arith)
            requires
                x * 1000 >= 0,
                len >= 1,
        ;
    } else {
        assert((-x) * 1000 / len <= 1000 && (-x) * 1000 / len >= 0 && -(x * 1000) == (-x) * 1000)
            by (nonlinear_arith)
            requires
                x < 0,
                -x <= len,
                len >= 1,
        ;
    }
}

/// The direction scaled so that its length is one block (1000
/// thousandths), each component truncated toward zero.
pub open spec fn spec_norm_dir(direction: MilliVec3) -> (int, int, int) {
    let len = spec_isqrt(
        direction.x * direction.x + direction.y * direction.y + direction.z * direction.z,
    );
    (
        spec_trunc_div(direction.x * 1000, len),
        spec_trunc_div(direction.y * 1000, len),
        spec_trunc_div(direction.z * 1000, len),
    )
}

/// The block position sampled at step `i` of a ray march.
pub open spec fn spec_ray_sample(
    start_chunk: ChunkPosition,
    offset: MilliVec3,
    nd: (int, int, int),
    i: int,
) -> BlockPosition {
    let px = offset.x + spec_trunc_div(i * nd.0, 100);
    let py = offset.y + spec_trunc_div(i * nd.1, 100);
    let pz = offset.z + spec_trunc_div(i * nd.2, 100);
    let base = BlockPosition {
        index: IVec3 {
            x: (start_chunk.index.x * 16) as i32,
            y: (start_chunk.index.y * 16) as i32,
            z: (start_chunk.index.z * 16) as i32,
        },
    };
    base.spec_plus((px / 1000) as i32, (py / 1000) as i32, (pz / 1000) as i32)
}

/// The march itself: step until a solid block is found, carrying the
/// previously sampled (transparent or unloaded) block position.
pub open spec fn spec_ray_march(
    w: World,
    start_chunk: ChunkPosition,
    offset: MilliVec3,
    nd: (int, int, int),
    i: int,
    steps: int,
    previous: Option<BlockPosition>,
) -> (Option<BlockPosition>, Option<BlockPosition>)
    decreases steps - i,
{
    if i < 0 || i >= steps {
        (None, None)
    } else {
        let position = spec_ray_sample(start_chunk, offset, nd, i);
        if previous == Some(position) {
            spec_ray_march(w, start_chunk, offset, nd, i + 1, steps, previous)
        } else {
            let cp = position.spec_chunk();
            let (lx, ly, lz) = position.spec_local();
            if w.resident(cp) && !block_at(w.chunk_at(cp).blocks@, lx, ly, lz).is_transparent() {
                (previous, Some(position))
            } else {
                spec_ray_march(w, start_chunk, offset, nd, i + 1, steps, Some(position))
            }
        }
    }
}

/// Whether the point `offset` inside a resident chunk sits in a
/// solid block; an absent chunk is treated as solid. Negative
/// components are clamped to the chunk's low corner.
pub open spec fn spec_collide(w: World, chunk: ChunkPosition, offset: MilliVec3) -> bool {
    if !w.resident(chunk) {
        true
    } else {
        !block_at(
            w.chunk_at(chunk).blocks@,
            spec_clamped_block(offset.x),
            spec_clamped_block(offset.y),
            spec_clamped_block(offset.z),
        ).is_transparent()
    }
}

/// A fixed-point coordinate turned into a block coordinate, negative
/// values clamped to zero.
pub open spec fn spec_clamped_block(v: i64) -> int {
    if v < 0 {
        0
    } else {
        v as int / 1000
    }
}

fn clamp_block_coordinate(v: i64) -> (r: usize)
    requires
        v < 16 * MILLIS_PER_BLOCK,
    ensures
        r == spec_clamped_block(v),
        r < 16,
{
    if v < 0 {
        0
    } else {
        (v / 1000) as usize
    }
}

/// The queue was only extended, and only with chunks touching the
/// written block.
pub open spec fn block_queue_extended(
    old_q: Seq<ChunkPosition>,
    new_q: Seq<ChunkPosition>,
    p: BlockPosition,
) -> bool {
    &&& old_q.is_prefix_of(new_q)
    &&& forall|i: int|
        old_q.len() <= i < new_q.len() ==> near_block_position(#[trigger] new_q[i], p)
}

/// `q` is the chunk of one of the six blocks adjacent to `p`.
pub open spec fn near_block_position(q: ChunkPosition, p: BlockPosition) -> bool {
    ||| q == p.spec_plus(1i32, 0i32, 0i32).spec_chunk()
    ||| q == p.spec_plus(-1i32, 0i32, 0i32).spec_chunk()
    ||| q == p.spec_plus(0i32, 1i32, 0i32).spec_chunk()
    ||| q == p.spec_plus(0i32, -1i32, 0i32).spec_chunk()
    ||| q == p.spec_plus(0i32, 0i32, 1i32).spec_chunk()
    ||| q == p.spec_plus(0i32, 0i32, -1i32).spec_chunk()
}

/// A sequence is an extension of itself.
proof fn lemma_queue_refl(q: Seq<ChunkPosition>)
    ensures
        q.is_prefix_of(q),
{
    assert(q =~= q.take(q.len() as int));
}

/// Chains one more push-at-most step onto a block-extended queue.
proof fn lemma_block_queue_step(
    q0: Seq<ChunkPosition>,
    q1: Seq<ChunkPosition>,
    q2: Seq<ChunkPosition>,
    p: BlockPosition,
    e: ChunkPosition,
)
    requires
        block_queue_extended(q0, q1, p),
        near_block_position(e, p),
        q2 == q1 || q2 == q1.push(e),
    ensures
        block_queue_extended(q0, q2, p),
{
    if q1 != q2 {
        assert(q0.is_prefix_of(q2)) by {
            assert(q0 =~= q2.take(q0.len() as int));
        }
        assert forall|i: int| q0.len() <= i < q2.len() implies near_block_position(
            #[trigger] q2[i],
            p,
        ) by {
            if i < q1.len() {
                assert(q2[i] == q1[i]);
            } else {
                assert(q2[i] == e);
            }
        }
    }
}

/// Builds the initial generation queue: every column within the view
/// distance, nearest first. Columns are appended in rounds of equal
/// squared distance, so the result is sorted without a sorting pass.
fn sorted_columns(view_distance: u16, highest: i32) -> (q: VecDeque<(i32, i32, i32)>)
    requires
        view_distance <= 1000,
    ensures
        q@.len() == (2 * view_distance + 1) * (2 * view_distance + 1),
        forall|i: int, j: int|
            0 <= i <= j < q@.len() ==> spec_column_key(#[trigger] q@[i]) <= spec_column_key(
                #[trigger] q@[j],
            ),
        forall|i: int|
            0 <= i < q@.len() ==> {
                let e = #[trigger] q@[i];
                &&& -(view_distance as int) <= e.0 <= view_distance as int
                &&& e.1 == highest
                &&& -(view_distance as int) <= e.2 <= view_distance as int
            },
        forall|x: int, z: int|
            -(view_distance as int) <= x <= view_distance && -(view_distance as int) <= z
                <= view_distance ==> #[trigger] has_column(q@, x, highest, z),
        forall|i: int, j: int| 0 <= i < j < q@.len() ==> #[trigger] q@[i] != #[trigger] q@[j],
{
    let v = view_distance as i64;
    let mut q: VecDeque<(i32, i32, i32)> = VecDeque::new();
    let mut d2: i64 = 0;
    proof {
        lemma_square_bound(v as int, v as int, v as int);
    }
    let vv: i64 = v * v;
    let max_d2: i64 = 2 * vv;
    while d2 <= max_d2
        invariant
            view_distance <= 1000,
            v == view_distance as int,
            max_d2 == 2 * (v * v),
            0 <= max_d2 <= 2_000_000,
            0 <= d2 <= max_d2 + 1,
            forall|i: int|
                0 <= i < q@.len() ==> {
                    let e = #[trigger] q@[i];
                    &&& -v <= e.0 <= v
                    &&& e.1 == highest
                    &&& -v <= e.2 <= v
                    &&& spec_column_key(e) < d2
                },
            forall|i: int, j: int|
                0 <= i <= j < q@.len() ==> spec_column_key(#[trigger] q@[i]) <= spec_column_key(
                    #[trigger] q@[j],
                ),
            forall|x: int, z: int|
                -v <= x <= v && -v <= z <= v && 0 <= x * x + z * z < d2 ==> #[trigger] has_column(
                    q@,
                    x,
                    highest,
                    z,
                ),
            forall|i: int, j: int| 0 <= i < j < q@.len() ==> #[trigger] q@[i] != #[trigger] q@[j],
        decreases max_d2 + 1 - d2,
    {
        let mut x: i64 = -v;
        while x <= v
            invariant
                view_distance <= 1000,
                v == view_distance as int,
                max_d2 == 2 * (v * v),
                0 <= max_d2 <= 2_000_000,
                0 <= d2 <= max_d2,
                -v <= x <= v + 1,
                forall|i: int|
                    0 <= i < q@.len() ==> {
                        let e = #[trigger] q@[i];
                        &&& -v <= e.0 <= v
                        &&& e.1 == highest
                        &&& -v <= e.2 <= v
                        &&& spec_column_key(e) <= d2
                    },
                forall|i: int, j: int|
                    0 <= i <= j < q@.len() ==> spec_column_key(#[trigger] q@[i]) <= spec_column_key(
                        #[trigger] q@[j],
                    ),
                forall|x2: int, z2: int|
                    -v <= x2 <= v && -v <= z2 <= v && 0 <= x2 * x2 + z2 * z2 < d2 ==> #[trigger] has_column(
                        q@,
                        x2,
                        highest,
                        z2,
                    ),
                forall|i: int|
                    0 <= i < q@.len() && spec_column_key(#[trigger] q@[i]) == d2 ==> (
                    #[trigger] q@[i]).0 < x,
                forall|x2: int, z2: int|
                    -v <= x2 < x && -v <= z2 <= v && x2 * x2 + z2 * z2 == d2 ==> #[trigger] has_column(
                        q@,
                        x2,
                        highest,
                        z2,
                    ),
                forall|i: int, j: int| 0 <= i < j < q@.len() ==> #[trigger] q@[i] != #[trigger] q@[j],
            decreases v + 1 - x,
        {
            let mut z: i64 = -v;
            while z <= v
                invariant
                    view_distance <= 1000,
                    v == view_distance as int,
                    max_d2 == 2 * (v * v),
                    0 <= max_d2 <= 2_000_000,
                    0 <= d2 <= max_d2,
                    -v <= x <= v,
                    -v <= z <= v + 1,
                    forall|i: int|
                        0 <= i < q@.len() ==> {
                            let e = #[trigger] q@[i];
                            &&& -v <= e.0 <= v
                            &&& e.1 == highest
                            &&& -v <= e.2 <= v
                            &&& spec_column_key(e) <= d2
                        },
                    forall|i: int, j: int|
                        0 <= i <= j < q@.len() ==> spec_column_key(#[trigger] q@[i])
                            <= spec_column_key(#[trigger] q@[j]),
                    forall|x2: int, z2: int|
                        -v <= x2 <= v && -v <= z2 <= v && 0 <= x2 * x2 + z2 * z2 < d2 ==> #[trigger] has_column(
                            q@,
                            x2,
                            highest,
                            z2,
                        ),
                    forall|i: int|
                        0 <= i < q@.len() && spec_column_key(#[trigger] q@[i]) == d2 ==> (
                        #[trigger] q@[i]).0 < x || ((#[trigger] q@[i]).0 == x && (
                        #[trigger] q@[i]).2 < z),
                    forall|x2: int, z2: int|
                        -v <= x2 < x && -v <= z2 <= v && x2 * x2 + z2 * z2 == d2 ==> #[trigger] has_column(
                            q@,
                            x2,
                            highest,
                            z2,
                        ),
                    forall|z2: int|
                        -v <= z2 < z && (x as int) * (x as int) + z2 * z2 == d2 ==> #[trigger] has_column(
                            q@,
                            x as int,
                            highest,
                            z2,
                        ),
                    forall|i: int, j: int|
                        0 <= i < j < q@.len() ==> #[trigger] q@[i] != #[trigger] q@[j],
                decreases v + 1 - z,
            {
                proof {
                    lemma_square_bound(x as int, z as int, v as int);
                }
                if x * x + z * z == d2 {
                    let e = (x as i32, highest, z as i32);
                    let ghost before = q@;
                    q.push_back(e);
                    proof {
                        assert(e.0 as int == x && e.2 as int == z);
                        assert(spec_column_key(e) == d2);
                        lemma_columns_appended(before, q@, e, v as int, highest, d2 as int);
                    }
                }
                z = z + 1;
            }
            x = x + 1;
        }
        d2 = d2 + 1;
    }
    proof {
        assert forall|x: int, z: int|
            -(view_distance as int) <= x <= view_distance && -(view_distance as int) <= z
                <= view_distance implies #[trigger] has_column(q@, x, highest, z) by {
            lemma_square_bound(x, z, v as int);
        }
        lemma_column_count(q@, v as int, highest);
    }
    q
}

/// Squares of coordinates within the view distance are small.
proof fn lemma_square_bound(x: int, z: int, v: int)
    requires
        0 <= v <= 1000,
        -v <= x <= v,
        -v <= z <= v,
    ensures
        0 <= x * x <= 1_000_000,
        0 <= z * z <= 1_000_000,
        0 <= x * x + z * z <= 2 * (v * v),
        2 * (v * v) <= 2_000_000,
{
    assert(0 <= x * x <= v * v && 0 <= z * z <= v * v && v * v <= 1_000_000) by (nonlinear_arith)
        requires
            0 <= v <= 1000,
            -v <= x <= v,
            -v <= z <= v,
    ;
}

/// Pushing one column keeps every membership fact and adds the new
/// one.
proof fn lemma_columns_appended(
    before: Seq<(i32, i32, i32)>,
    after: Seq<(i32, i32, i32)>,
    e: (i32, i32, i32),
    v: int,
    highest: i32,
    d2: int,
)
    requires
        after == before.push(e),
        e.1 == highest,
    ensures
        forall|x2: int, z2: int|
            has_column(before, x2, highest, z2) ==> #[trigger] has_column(after, x2, highest, z2),
        has_column(after, e.0 as int, highest, e.2 as int),
{
    assert forall|x2: int, z2: int| has_column(before, x2, highest, z2) implies #[trigger] has_column(
        after,
        x2,
        highest,
        z2,
    ) by {
        let i = choose|i: int|
            0 <= i < before.len() && #[trigger] before[i] == (x2 as i32, highest, z2 as i32);
        assert(after[i] == before[i]);
    }
    assert(after[after.len() - 1] == e);
    assert(e == (e.0, highest, e.2));
    assert((e.0 as int) as i32 == e.0 && (e.2 as int) as i32 == e.2);
}

/// A distinct family of columns covering the whole square has exactly
/// the square's cardinality.
proof fn lemma_column_count(q: Seq<(i32, i32, i32)>, v: int, highest: i32)
    requires
        0 <= v <= 1000,
        forall|i: int|
            0 <= i < q.len() ==> {
                let e = #[trigger] q[i];
                &&& -v <= e.0 <= v
                &&& e.1 == highest
                &&& -v <= e.2 <= v
            },
        forall|x: int, z: int|
            -v <= x <= v && -v <= z <= v ==> #[trigger] has_column(q, x, highest, z),
        forall|i: int, j: int| 0 <= i < j < q.len() ==> #[trigger] q[i] != #[trigger] q[j],
    ensures
        q.len() == (2 * v + 1) * (2 * v + 1),
{
    let side = 2 * v + 1;
    let f = |e: (i32, i32, i32)| (e.0 + v) * side + (e.2 + v);
    let mapped = q.map_values(f);
    assert forall|i: int, j: int| 0 <= i < j < mapped.len() implies #[trigger] mapped[i]
        != #[trigger] mapped[j] by {
        let a = q[i];
        let b = q[j];
        assert(a != b);
        assert(a.1 == b.1);
        if f(a) == f(b) {
            assert((a.0 + v) * side + (a.2 + v) == (b.0 + v) * side + (b.2 + v));
            assert(a.0 == b.0 && a.2 == b.2) by (nonlinear_arith)
                requires
                    side == 2 * v + 1,
                    0 <= a.0 + v <= 2 * v,
                    0 <= a.2 + v <= 2 * v,
                    0 <= b.0 + v <= 2 * v,
                    0 <= b.2 + v <= 2 * v,
                    (a.0 + v) * side + (a.2 + v) == (b.0 + v) * side + (b.2 + v),
            ;
            assert(false);
        }
    }
    assert forall|i: int| 0 <= i < mapped.len() implies 0 <= #[trigger] mapped[i] < side
        * side by {
        let a = q[i];
        assert(0 <= (a.0 + v) * side + (a.2 + v) < side * side) by (nonlinear_arith)
            requires
                side == 2 * v + 1,
                0 <= a.0 + v <= 2 * v,
                0 <= a.2 + v <= 2 * v,
        ;
    }
    assert forall|k: int| 0 <= k < side * side implies #[trigger] seq_covers(mapped, k) by {
        let x = k / side - v;
        let z = k % side - v;
        assert(-v <= x <= v && -v <= z <= v && (x + v) * side + (z + v) == k) by (nonlinear_arith)
            requires
                side == 2 * v + 1,
                v >= 0,
                0 <= k < side * side,
                x == k / side - v,
                z == k % side - v,
        ;
        assert(has_column(q, x, highest, z));
        let i = choose|i: int| 0 <= i < q.len() && (#[trigger] q[i]) == (x as i32, highest, z as i32);
        assert(mapped[i] == f(q[i]));
        assert(q[i].0 as int == x && q[i].2 as int == z);
        assert(mapped[i] == k);
    }
    lemma_distinct_cover_len(mapped, side * side);
}

/// `s` holds the value `k` somewhere.
spec fn seq_covers(s: Seq<int>, k: int) -> bool {
    exists|i: int| 0 <= i < s.len() && #[trigger] s[i] == k
}

/// A sequence of distinct values drawn from `0..n` that covers all of
/// `0..n` has length `n`.
proof fn lemma_distinct_cover_len(s: Seq<int>, n: int)
    requires
        n >= 0,
        forall|i: int| 0 <= i < s.len() ==> 0 <= #[trigger] s[i] < n,
        forall|i: int, j: int| 0 <= i < j < s.len() ==> #[trigger] s[i] != #[trigger] s[j],
        forall|k: int| 0 <= k < n ==> #[trigger] seq_covers(s, k),
    ensures
        s.len() == n,
    decreases n,
{
    if n == 0 {
        if s.len() > 0 {
            assert(0 <= s[0] < n);
            assert(false);
        }
    } else {
        assert(seq_covers(s, n - 1));
        let i0 = choose|i: int| 0 <= i < s.len() && #[trigger] s[i] == n - 1;
        let t = s.remove(i0);
        assert forall|i: int| 0 <= i < t.len() implies 0 <= #[trigger] t[i] < n - 1 by {
            let j = if i < i0 {
                i
            } else {
                i + 1
            };
            assert(t[i] == s[j]);
            assert(s[j] != s[i0] || j == i0);
        }
        assert forall|i: int, j: int| 0 <= i < j < t.len() implies #[trigger] t[i]
            != #[trigger] t[j] by {
            let i2 = if i < i0 {
                i
            } else {
                i + 1
            };
            let j2 = if j < i0 {
                j
            } else {
                j + 1
            };
            assert(t[i] == s[i2] && t[j] == s[j2]);
        }
        assert forall|k: int| 0 <= k < n - 1 implies #[trigger] seq_covers(t, k) by {
            assert(seq_covers(s, k));
            let i = choose|i: int| 0 <= i < s.len() && #[trigger] s[i] == k;
            assert(i != i0);
            if i < i0 {
                assert(t[i] == k);
            } else {
                assert(t[i - 1] == k);
            }
        }
        lemma_distinct_cover_len(t, n - 1);
    }
}

} // verus!
