//! The simulation actor: it owns the world store, fans column
//! generation out to its generator children round-robin, folds their
//! replies back into the store, resolves player commands and
//! movement, and periodically evicts far-away chunks and drains the
//! remesh queue into `MeshData` updates for the renderer.
use crate::chunk::Block;
use crate::chunk::block_at;
use crate::noise::spec_abs;
use crate::position::BlockPosition;
use crate::chunk::Chunk;
use crate::generator::ByteReader;
use crate::generator::spec_i32_field;
use crate::generator::u32_of_i32_exec;
use crate::generator::write_u32;
use crate::mesh::MeshData;
use crate::world::MeshUpdate;
use crate::position::ChunkPosition;
use crate::position::IVec3;
use crate::position::MilliVec3;
use crate::terrain::WorldSeed;
use crate::terrain::spec_u32_of_i32;
use crate::world::World;
use crate::world::spec_collide;
use crate::world::spec_distance_squared;
use crate::worker::MessageTag;
use crate::worker::OutboundMessage;
use crate::worker::ProtocolError;
use crate::worker::WorkerId;
use crate::worker::WorkerMessage;
use crate::worker::spec_message_tag;
use vstd::prelude::*;

verus! {

/// A place-or-break request: where the player stands, where it aims,
/// and the diameter of the sphere to fill (positive: place dirt;
/// negative: break).
#[derive(Debug, Clone, Copy, PartialEq, Eq, Structural)]
pub struct PlayerCommand {
    pub player_chunk: IVec3,
    pub position: MilliVec3,
    pub direction: MilliVec3,
    pub diameter: i32,
}

/// A requested displacement of the player.
#[derive(Debug, Clone, Copy, PartialEq, Eq, Structural)]
pub struct MovementCommand {
    pub direction: MilliVec3,
}

/// Where the player actually ended up.
#[derive(Debug, Clone, Copy, PartialEq, Eq, Structural)]
pub struct MovementCommandReply {
    pub player_chunk: IVec3,
    pub position: MilliVec3,
}

/// The bytes of a `GenerateColumn` request.
pub open spec fn spec_column_request_bytes(x: i32, z: i32) -> Seq<u8> {
    vstd::bytes::spec_u32_to_le_bytes(spec_u32_of_i32(x)) + vstd::bytes::spec_u32_to_le_bytes(
        spec_u32_of_i32(z),
    ) + seq![MessageTag::GenerateColumn.spec_byte()]
}

/// The bytes of an `InitGenerator` message: the world seed and the
/// vertical chunk range.
pub open spec fn spec_init_generator_bytes(seed: u64, highest: i32, lowest: i32) -> Seq<u8> {
    vstd::bytes::spec_u64_to_le_bytes(seed) + vstd::bytes::spec_u32_to_le_bytes(
        spec_u32_of_i32(highest),
    ) + vstd::bytes::spec_u32_to_le_bytes(spec_u32_of_i32(lowest)) + seq![
        MessageTag::InitGenerator.spec_byte(),
    ]
}

/// The bytes of a movement reply.
pub open spec fn spec_movement_reply_bytes(chunk: IVec3, position: MilliVec3) -> Seq<u8> {
    vstd::bytes::spec_u32_to_le_bytes(spec_u32_of_i32(chunk.x)) + vstd::bytes::spec_u32_to_le_bytes(
        spec_u32_of_i32(chunk.y),
    ) + vstd::bytes::spec_u32_to_le_bytes(spec_u32_of_i32(chunk.z))
        + vstd::bytes::spec_u32_to_le_bytes(spec_u32_of_i32(position.x as i32))
        + vstd::bytes::spec_u32_to_le_bytes(spec_u32_of_i32(position.y as i32))
        + vstd::bytes::spec_u32_to_le_bytes(spec_u32_of_i32(position.z as i32)) + seq![
        MessageTag::MovementCommandReply.spec_byte(),
    ]
}

/// The simulation role's state.
pub struct SimulationState {
    pub seed: WorldSeed,
    pub world: World,
    pub worker_count: u32,
    pub next_worker_index: u32,
    pub player_chunk: ChunkPosition,
    pub player_position: MilliVec3,
    pub last_world_cropping_player_chunk: ChunkPosition,
}

impl SimulationState {
    pub open spec fn wf(self) -> bool {
        &&& self.world.wf()
        &&& self.worker_count >= 1
        &&& self.next_worker_index < self.worker_count
        &&& 0 <= self.player_position.x < 16000
        &&& 0 <= self.player_position.y < 16000
        &&& 0 <= self.player_position.z < 16000
    }

    /// Reads an `InitSimulation` payload (the world seed), builds the
    /// world, and emits one `InitGenerator` message per available
    /// generator child followed by every column request, round-robin
    /// over the children nearest-column-first.
    pub fn initialize(message: &WorkerMessage, parallelism: u32) -> (r: Result<
        (SimulationState, Vec<OutboundMessage>),
        ProtocolError,
    >)
        requires
            parallelism >= 1,
        ensures
            r is Ok <==> message.bytes@.len() == 9 && spec_message_tag(message.bytes@) == Some(
                MessageTag::InitSimulation,
            ),
            r matches Ok(p) ==> {
                &&& p.0.wf()
                &&& p.0.seed == WorldSeed(
                    vstd::bytes::spec_u64_from_le_bytes(message.bytes@.subrange(0, 8)),
                )
                &&& p.0.world.generation_queue@.len() == 0
                &&& p.1@.len() == parallelism + 625
                &&& forall|i: int|
                    0 <= i < parallelism ==> (#[trigger] p.1@[i]).to == WorkerId::Child(i as u32)
                        && p.1@[i].bytes@ == spec_init_generator_bytes(
                        p.0.seed.0,
                        p.0.world.highest_generated_chunk,
                        p.0.world.lowest_generated_chunk,
                    )
                &&& forall|i: int|
                    parallelism <= i < p.1@.len() ==> (#[trigger] p.1@[i]).to == WorkerId::Child(
                        (((i - parallelism) % (parallelism as int)) as u32),
                    ) && p.1@[i].bytes@.len() == 9 && spec_message_tag(p.1@[i].bytes@) == Some(
                        MessageTag::GenerateColumn,
                    )
            },
    {
        if message.bytes.len() != 9 {
            return Err(ProtocolError {});
        }
        match message.tag() {
            Some(MessageTag::InitSimulation) => {},
            _ => {
                return Err(ProtocolError {});
            },
        }
        let mut reader = ByteReader::start();
        let seed = match reader.u64(&message.bytes) {
            Ok(v) => WorldSeed(v),
            Err(e) => {
                return Err(e);
            },
        };
        let world = World::new(12, 16);
        let highest = world.highest_generated_chunk;
        let lowest = world.lowest_generated_chunk;

        let mut messages: Vec<OutboundMessage> = Vec::new();
        let mut i: u32 = 0;
        while i < parallelism
            invariant
                i <= parallelism,
                messages@.len() == i,
                forall|j: int|
                    0 <= j < i ==> (#[trigger] messages@[j]).to == WorkerId::Child(j as u32)
                        && messages@[j].bytes@ == spec_init_generator_bytes(
                        seed.0,
                        highest,
                        lowest,
                    ),
            decreases parallelism - i,
        {
            proof {
                vstd::bytes::lemma_auto_spec_u64_to_from_le_bytes();
                vstd::bytes::lemma_auto_spec_u32_to_from_le_bytes();
            }
            let mut bytes = crate::generator::write_u64(Vec::new(), seed.0);
            bytes = write_u32(bytes, u32_of_i32_exec(highest));
            bytes = write_u32(bytes, u32_of_i32_exec(lowest));
            bytes.push(MessageTag::InitGenerator.byte());
            proof {
                assert(bytes@ =~= spec_init_generator_bytes(seed.0, highest, lowest));
            }
            messages.push(OutboundMessage { to: WorkerId::Child(i), bytes });
            i = i + 1;
        }

        let player_chunk = ChunkPosition { index: IVec3 { x: 0, y: 3, z: 0 } };
        let mut state = SimulationState {
            seed,
            world,
            worker_count: parallelism,
            next_worker_index: 0,
            player_chunk,
            player_position: MilliVec3 { x: 6000, y: 6000, z: 6000 },
            last_world_cropping_player_chunk: player_chunk,
        };
        let ghost base = messages@;
        proof {
            assert((2 * 12 + 1) * (2 * 12 + 1) == 625) by (nonlinear_arith);
        }
        let mut requests = state.send_commands_to_workers();
        proof {
            assert(requests@.len() == 625);
            assert(base.len() + requests@.len() == parallelism + 625);
            vstd::bytes::lemma_auto_spec_u32_to_from_le_bytes();
            assert forall|j: int| 0 <= j < requests@.len() implies (#[trigger] requests@[j]).to
                == WorkerId::Child(((j % (parallelism as int)) as u32)) && requests@[j].bytes@.len()
                == 9 && spec_message_tag(requests@[j].bytes@) == Some(
                MessageTag::GenerateColumn,
            ) by {
                assert((0 + j) % (parallelism as int) == j % (parallelism as int));
                assert(requests@[j].bytes@.last() == MessageTag::GenerateColumn.spec_byte());
            }
        }
        let mut k: usize = 0;
        let n = requests.len();
        while k < n
            invariant
                n == requests@.len(),
                k <= n,
                messages@.len() == base.len() + k,
                base.len() == parallelism,
                forall|j: int| 0 <= j < base.len() ==> messages@[j] == base[j],
                forall|j: int|
                    0 <= j < base.len() ==> (#[trigger] messages@[j]).to == WorkerId::Child(
                        j as u32,
                    ) && messages@[j].bytes@ == spec_init_generator_bytes(
                        state.seed.0,
                        state.world.highest_generated_chunk,
                        state.world.lowest_generated_chunk,
                    ),
                forall|j: int|
                    0 <= j < n ==> (#[trigger] requests@[j]).to == WorkerId::Child(
                        ((j % (parallelism as int)) as u32),
                    ) && requests@[j].bytes@.len() == 9 && spec_message_tag(requests@[j].bytes@)
                        == Some(MessageTag::GenerateColumn),
                forall|j: int|
                    base.len() <= j < messages@.len() ==> (#[trigger] messages@[j]).to
                        == WorkerId::Child((((j - base.len()) % (parallelism as int)) as u32))
                        && messages@[j].bytes@.len() == 9 && spec_message_tag(messages@[j].bytes@)
                        == Some(MessageTag::GenerateColumn),
            decreases n - k,
        {
            let m = OutboundMessage {
                to: requests[k].to,
                bytes: clone_bytes(&requests[k].bytes),
            };
            messages.push(m);
            k = k + 1;
        }
        Ok((state, messages))
    }

    /// Drains the generation queue into one `GenerateColumn` request
    /// per column, dealt round-robin over the generator children.
    pub fn send_commands_to_workers(&mut self) -> (msgs: Vec<OutboundMessage>)
        requires
            old(self).wf(),
        ensures
            final(self).wf(),
            final(self).world.generation_queue@.len() == 0,
            msgs@.len() == old(self).world.generation_queue@.len(),
            forall|i: int|
                0 <= i < msgs@.len() ==> {
                    let e = old(self).world.generation_queue@[i];
                    &&& (#[trigger] msgs@[i]).bytes@ == spec_column_request_bytes(e.0, e.2)
                    &&& msgs@[i].to == WorkerId::Child(
                        (((old(self).next_worker_index + i) % (
                        old(self).worker_count as int)) as u32),
                    )
                },
            final(self).world.chunks == old(self).world.chunks,
            final(self).world.position_to_index == old(self).world.position_to_index,
            final(self).world.positions == old(self).world.positions,
            final(self).world.mesh_queue == old(self).world.mesh_queue,
            final(self).world.view_distance == old(self).world.view_distance,
            final(self).world.highest_generated_chunk == old(
                self,
            ).world.highest_generated_chunk,
            final(self).world.lowest_generated_chunk == old(self).world.lowest_generated_chunk,
            final(self).seed == old(self).seed,
            final(self).worker_count == old(self).worker_count,
            final(self).player_chunk == old(self).player_chunk,
            final(self).player_position == old(self).player_position,
            final(self).last_world_cropping_player_chunk == old(
                self,
            ).last_world_cropping_player_chunk,
    {
        let ghost q0 = self.world.generation_queue@;
        let mut msgs: Vec<OutboundMessage> = Vec::new();
        proof {
            let base_idx = old(self).next_worker_index as int;
            let count = old(self).worker_count as int;
            assert(base_idx % count == base_idx) by (nonlinear_arith)
                requires
                    0 <= base_idx < count,
            ;
            assert(self.world.generation_queue@ =~= q0.subrange(0, q0.len() as int));
        }
        loop
            invariant
                self.wf(),
                msgs@.len() <= q0.len(),
                self.world.generation_queue@ == q0.subrange(msgs@.len() as int, q0.len() as int),
                forall|i: int|
                    0 <= i < msgs@.len() ==> {
                        let e = q0[i];
                        &&& (#[trigger] msgs@[i]).bytes@ == spec_column_request_bytes(e.0, e.2)
                        &&& msgs@[i].to == WorkerId::Child(
                            (((old(self).next_worker_index + i) % (
                            old(self).worker_count as int)) as u32),
                        )
                    },
                self.worker_count == old(self).worker_count,
                self.next_worker_index as int == (old(self).next_worker_index + msgs@.len()) % (
                old(self).worker_count as int),
                self.world.chunks == old(self).world.chunks,
                self.world.position_to_index == old(self).world.position_to_index,
                self.world.positions == old(self).world.positions,
                self.world.mesh_queue == old(self).world.mesh_queue,
                self.world.view_distance == old(self).world.view_distance,
                self.world.highest_generated_chunk == old(self).world.highest_generated_chunk,
                self.world.lowest_generated_chunk == old(self).world.lowest_generated_chunk,
                self.seed == old(self).seed,
                self.player_chunk == old(self).player_chunk,
                self.player_position == old(self).player_position,
                self.last_world_cropping_player_chunk == old(
                    self,
                ).last_world_cropping_player_chunk,
            ensures
                self.world.generation_queue@.len() == 0,
                msgs@.len() == q0.len(),
            decreases self.world.generation_queue@.len(),
        {
            let ghost pre_it = *self;
            let ghost qpre = self.world.generation_queue@;
            let (x, z) = match self.world.next_column_to_generate() {
                Some(pair) => pair,
                None => {
                    proof {
                        lemma_wf_untouched(pre_it.world, self.world);
                    }
                    break ;
                },
            };
            proof {
                lemma_wf_untouched(pre_it.world, self.world);
            }
            let mut bytes = write_u32(Vec::new(), u32_of_i32_exec(x));
            bytes = write_u32(bytes, u32_of_i32_exec(z));
            bytes.push(MessageTag::GenerateColumn.byte());
            let to = WorkerId::Child(self.next_worker_index);
            msgs.push(OutboundMessage { to, bytes });
            self.next_worker_index = self.next_worker_index + 1;
            if self.next_worker_index >= self.worker_count {
                self.next_worker_index = 0;
            }
            proof {
                assert(self.world.generation_queue@ =~= q0.subrange(
                    msgs@.len() as int,
                    q0.len() as int,
                ));
                assert(qpre[0] == q0[msgs@.len() - 1]);
                let base_idx = old(self).next_worker_index as int;
                let count = old(self).worker_count as int;
                let written = msgs@.len() as int;
                assert((base_idx + (written - 1)) % count + 1 == (base_idx + written) % count || (
                (base_idx + (written - 1)) % count + 1 == count && (base_idx + written) % count
                    == 0)) by (nonlinear_arith)
                    requires
                        count >= 1,
                        written >= 1,
                        base_idx >= 0,
                ;
            }
        }
        msgs
    }
}

/// The displacement of probe point `k` around a movement candidate:
/// the eight diagonal offsets, three tenths of a block sideways and
/// six tenths vertically.
pub open spec fn spec_probe_delta(k: int) -> (int, int, int) {
    (
        if k % 2 == 0 {
            -300int
        } else {
            300int
        },
        if (k / 2) % 2 == 0 {
            -600int
        } else {
            600int
        },
        if (k / 4) % 2 == 0 {
            -300int
        } else {
            300int
        },
    )
}

/// Probe point `k` around the candidate position is free of solid
/// blocks.
pub open spec fn spec_probe_clear(
    w: World,
    candidate_chunk: ChunkPosition,
    candidate_position: MilliVec3,
    k: int,
) -> bool {
    let (dx, dy, dz) = spec_probe_delta(k);
    let probe = candidate_chunk.spec_normalize(
        MilliVec3 {
            x: (candidate_position.x + dx) as i64,
            y: (candidate_position.y + dy) as i64,
            z: (candidate_position.z + dz) as i64,
        },
    );
    !spec_collide(w, probe.0, probe.1)
}

/// The normalized position a displacement asks for.
pub open spec fn spec_movement_candidate(s: SimulationState, direction: MilliVec3) -> (
    ChunkPosition,
    MilliVec3,
) {
    s.player_chunk.spec_normalize(
        MilliVec3 {
            x: (s.player_position.x + direction.x) as i64,
            y: (s.player_position.y + direction.y) as i64,
            z: (s.player_position.z + direction.z) as i64,
        },
    )
}

/// The candidate position is free of solid blocks and so are all
/// eight probe points around it: the displacement goes through
/// unhindered, on the first try.
pub open spec fn movement_unobstructed(s: SimulationState, direction: MilliVec3) -> bool {
    let (nc, np) = spec_movement_candidate(s, direction);
    &&& !spec_collide(s.world, nc, np)
    &&& forall|k: int| 0 <= k < 8 ==> #[trigger] spec_probe_clear(s.world, nc, np, k)
}

impl SimulationState {
    /// Applies one displacement request: the candidate position is
    /// tried, corrective nudges away from colliding probe points are
    /// accumulated for a bounded number of retries, and the player
    /// either commits to a non-colliding normalized position or stays
    /// exactly where it was. Never panics, never teleports into a
    /// solid block.
    pub fn resolve_movement(&mut self, direction: MilliVec3)
        requires
            old(self).wf(),
            -16_000_000 <= direction.x <= 16_000_000,
            -16_000_000 <= direction.y <= 16_000_000,
            -16_000_000 <= direction.z <= 16_000_000,
        ensures
            final(self).wf(),
            final(self).world == old(self).world,
            final(self).seed == old(self).seed,
            final(self).worker_count == old(self).worker_count,
            final(self).next_worker_index == old(self).next_worker_index,
            final(self).last_world_cropping_player_chunk == old(
                self,
            ).last_world_cropping_player_chunk,
            (final(self).player_chunk == old(self).player_chunk && final(self).player_position
                == old(self).player_position) || !spec_collide(
                final(self).world,
                final(self).player_chunk,
                final(self).player_position,
            ),
            movement_unobstructed(*old(self), direction) ==> final(self).player_chunk
                == spec_movement_candidate(*old(self), direction).0 && final(self).player_position
                == spec_movement_candidate(*old(self), direction).1,
    {
        let mut fm = direction;
        let mut it: usize = 0;
        while it < 10
            invariant_except_break
                self.wf(),
                *self == *old(self),
                it <= 10,
                it == 0 ==> fm == direction,
                it > 0 ==> !movement_unobstructed(*old(self), direction),
                -16_000_000 - 480 * it <= fm.x <= 16_000_000 + 480 * it,
                -16_000_000 - 480 * it <= fm.y <= 16_000_000 + 480 * it,
                -16_000_000 - 480 * it <= fm.z <= 16_000_000 + 480 * it,
            ensures
                self.wf(),
                self.world == old(self).world,
                self.seed == old(self).seed,
                self.worker_count == old(self).worker_count,
                self.next_worker_index == old(self).next_worker_index,
                self.last_world_cropping_player_chunk == old(
                    self,
                ).last_world_cropping_player_chunk,
                (self.player_chunk == old(self).player_chunk && self.player_position == old(
                    self,
                ).player_position) || !spec_collide(
                    self.world,
                    self.player_chunk,
                    self.player_position,
                ),
                movement_unobstructed(*old(self), direction) ==> self.player_chunk
                    == spec_movement_candidate(*old(self), direction).0 && self.player_position
                    == spec_movement_candidate(*old(self), direction).1,
            decreases 10 - it,
        {
            let relative = MilliVec3 {
                x: self.player_position.x + fm.x,
                y: self.player_position.y + fm.y,
                z: self.player_position.z + fm.z,
            };
            let (new_chunk, new_position) = self.player_chunk.normalize(relative);
            proof {
                if it == 0 {
                    assert((new_chunk, new_position) == spec_movement_candidate(
                        *old(self),
                        direction,
                    ));
                }
            }
            if self.world.collide(new_chunk, new_position) {
                // the candidate is inside a block: give up, stay put
                proof {
                    assert(!movement_unobstructed(*old(self), direction));
                }
                break ;
            }
            let mut adjust_x: i64 = 0;
            let mut adjust_y: i64 = 0;
            let mut adjust_z: i64 = 0;
            let mut any: bool = false;
            let mut p: usize = 0;
            while p < 8
                invariant
                    self.wf(),
                    *self == *old(self),
                    p <= 8,
                    0 <= new_position.x < 16000,
                    0 <= new_position.y < 16000,
                    0 <= new_position.z < 16000,
                    -30 * p <= adjust_x <= 30 * p,
                    -60 * p <= adjust_y <= 60 * p,
                    -30 * p <= adjust_z <= 30 * p,
                    (forall|k: int|
                        0 <= k < p ==> #[trigger] spec_probe_clear(
                            self.world,
                            new_chunk,
                            new_position,
                            k,
                        )) ==> !any,
                decreases 8 - p,
            {
                let dx: i64 = if p % 2 == 0 {
                    -1
                } else {
                    1
                };
                let dy: i64 = if (p / 2) % 2 == 0 {
                    -2
                } else {
                    2
                };
                let dz: i64 = if (p / 4) % 2 == 0 {
                    -1
                } else {
                    1
                };
                let probe = MilliVec3 {
                    x: new_position.x + dx * 300,
                    y: new_position.y + dy * 300,
                    z: new_position.z + dz * 300,
                };
                let (probe_chunk, probe_position) = new_chunk.normalize(probe);
                let hit = self.world.collide(probe_chunk, probe_position);
                proof {
                    assert(spec_probe_delta(p as int) == (
                        (dx * 300) as int,
                        (dy * 300) as int,
                        (dz * 300) as int,
                    ));
                    assert(hit == !spec_probe_clear(self.world, new_chunk, new_position, p as int));
                }
                if hit {
                    adjust_x = adjust_x - dx * 30;
                    adjust_y = adjust_y - dy * 30;
                    adjust_z = adjust_z - dz * 30;
                    any = true;
                }
                p = p + 1;
            }
            proof {
                if it == 0 && movement_unobstructed(*old(self), direction) {
                    assert(!any);
                }
            }
            if any {
                proof {
                    assert(!movement_unobstructed(*old(self), direction));
                }
                fm = MilliVec3 {
                    x: fm.x + adjust_x,
                    y: fm.y + adjust_y,
                    z: fm.z + adjust_z,
                };
            } else {
                self.player_chunk = new_chunk;
                self.player_position = new_position;
                break ;
            }
            it = it + 1;
        }
    }

    /// Handles one inbound message, or a periodic tick when there is
    /// none. Returns the messages to deliver and an optional re-poll
    /// delay in milliseconds; a message that breaks the wire protocol
    /// is an error, which aborts the actor.
    #[verifier::rlimit(100)]
    pub fn update(&mut self, message: Option<&WorkerMessage>) -> (r: Result<
        (Vec<OutboundMessage>, Option<u64>),
        ProtocolError,
    >)
        requires
            old(self).wf(),
        ensures
            final(self).wf(),
            message matches Some(m) ==> (spec_message_tag(m.bytes@) is None ==> r is Err),
            message matches Some(m) ==> (spec_message_tag(m.bytes@) == Some(MessageTag::ChunkInfo)
                ==> (r matches Ok(p) ==> p.0@.len() == 1 && p.0@[0].to == WorkerId::Parent
                && p.0@[0].bytes@ == m.bytes@ && p.1 is None && *final(self) == *old(self))),
            message matches Some(m) ==> (spec_message_tag(m.bytes@) == Some(MessageTag::ChunkInfo)
                ==> r is Ok),
            message matches Some(m) ==> (spec_message_tag(m.bytes@) == Some(
                MessageTag::MovementCommand,
            ) ==> (r matches Ok(p) ==> {
                &&& p.0@.len() == 1
                &&& p.0@[0].to == WorkerId::Parent
                &&& p.0@[0].bytes@ == spec_movement_reply_bytes(
                    final(self).player_chunk.index,
                    final(self).player_position,
                )
                &&& p.1 == Some(0u64)
                &&& final(self).world == old(self).world
                &&& ((final(self).player_chunk == old(self).player_chunk
                    && final(self).player_position == old(self).player_position) || !spec_collide(
                    final(self).world,
                    final(self).player_chunk,
                    final(self).player_position,
                ))
                &&& (movement_unobstructed(*old(self), spec_movement_direction(m.bytes@))
                    ==> final(self).player_chunk == spec_movement_candidate(
                    *old(self),
                    spec_movement_direction(m.bytes@),
                ).0 && final(self).player_position == spec_movement_candidate(
                    *old(self),
                    spec_movement_direction(m.bytes@),
                ).1)
            })),
            message matches Some(m) ==> (spec_message_tag(m.bytes@) == Some(
                MessageTag::MovementCommand,
            ) ==> (r is Err <==> !movement_command_well_formed(m.bytes@))),
            message matches Some(m) ==> (spec_message_tag(m.bytes@) == Some(
                MessageTag::PlayerCommand,
            ) ==> (r is Err <==> m.bytes@.len() != 41 || spec_i32_field(m.bytes@, 36) > 64
                || spec_i32_field(m.bytes@, 36) < -64)),
            message matches Some(m) ==> ((spec_message_tag(m.bytes@) matches Some(t)
                && simulation_rejects(t)) ==> r is Err),
            message matches Some(m) ==> (spec_message_tag(m.bytes@) == Some(
                MessageTag::GenerateColumnReply,
            ) ==> {
                &&& (r is Ok ==> spec_column_reply_well_formed(
                    m.bytes@,
                    old(self).world.highest_generated_chunk as int,
                    old(self).world.lowest_generated_chunk as int,
                ))
                &&& (old(self).world.chunks@.len() + (old(self).world.highest_generated_chunk
                    - old(self).world.lowest_generated_chunk + 1) < u32::MAX
                    && spec_column_reply_well_formed(
                    m.bytes@,
                    old(self).world.highest_generated_chunk as int,
                    old(self).world.lowest_generated_chunk as int,
                ) ==> r is Ok)
                &&& (r is Ok && spec_distance_squared(
                    old(self).player_chunk,
                    old(self).last_world_cropping_player_chunk,
                ) < 4 ==> forall|i: int|
                    0 <= i <= old(self).world.highest_generated_chunk - old(
                        self,
                    ).world.lowest_generated_chunk ==> #[trigger] column_level_installed(
                        old(self).world,
                        final(self).world,
                        m.bytes@,
                        spec_i32_field(m.bytes@, 0),
                        spec_i32_field(m.bytes@, 4),
                        old(self).world.highest_generated_chunk as int,
                        i,
                    ))
            }),
            message matches Some(m) ==> (spec_message_tag(m.bytes@) == Some(
                MessageTag::PlayerCommand,
            ) ==> (r is Ok && spec_distance_squared(
                old(self).player_chunk,
                old(self).last_world_cropping_player_chunk,
            ) < 4 && command_in_range(m.bytes@) ==> {
                let d = spec_abs(spec_i32_field(m.bytes@, 36) as int);
                let radius = d / 2;
                let b = spec_command_block(m.bytes@);
                spec_command_target(old(self).world, m.bytes@) matches Some(t) ==> ((b
                    == Block::Air || old(self).world.chunks@.len() + d * d * d < u32::MAX)
                    ==> forall|sx: int, sy: int, sz: int|
                    0 <= sx < d && 0 <= sy < d && 0 <= sz < d && (sx - radius) * (sx - radius) + (
                    sy - radius) * (sy - radius) + (sz - radius) * (sz - radius) <= radius * radius
                        ==> #[trigger] ball_voxel_holds(
                        old(self).world,
                        final(self).world,
                        t,
                        sx - radius,
                        sy - radius,
                        sz - radius,
                        b,
                    ))
            })),
            message is None ==> r is Ok,
            message is None && spec_distance_squared(
                old(self).player_chunk,
                old(self).last_world_cropping_player_chunk,
            ) >= 4 ==> forall|p: ChunkPosition| #[trigger]
                old(self).world.resident(p) && spec_distance_squared(p, old(self).player_chunk)
                    <= old(self).world.view_distance * old(self).world.view_distance
                    ==> final(self).world.resident(p),
            message is None && spec_distance_squared(
                old(self).player_chunk,
                old(self).last_world_cropping_player_chunk,
            ) >= 4 ==> final(self).last_world_cropping_player_chunk == old(self).player_chunk
                && (forall|p: ChunkPosition| #[trigger]
                final(self).world.resident(p) ==> spec_distance_squared(p, old(self).player_chunk)
                    <= old(self).world.view_distance * old(self).world.view_distance),
            message is None && spec_distance_squared(
                old(self).player_chunk,
                old(self).last_world_cropping_player_chunk,
            ) >= 4 && (exists|p: ChunkPosition| #[trigger]
                old(self).world.resident(p) && spec_distance_squared(p, old(self).player_chunk)
                    > old(self).world.view_distance * old(self).world.view_distance) ==> (
            r matches Ok(pair) ==> exists|i: int|
                0 <= i < pair.0@.len() && (#[trigger] pair.0@[i]).to == WorkerId::Parent
                    && spec_message_tag(pair.0@[i].bytes@) == Some(MessageTag::ChunkRemoval)),
            message is None && spec_distance_squared(
                old(self).player_chunk,
                old(self).last_world_cropping_player_chunk,
            ) < 4 ==> final(self).last_world_cropping_player_chunk == old(
                self,
            ).last_world_cropping_player_chunk
                && final(self).world.position_to_index@.dom() == old(
                self,
            ).world.position_to_index@.dom(),
            message is None && spec_distance_squared(
                old(self).player_chunk,
                old(self).last_world_cropping_player_chunk,
            ) < 4 && crate::world::spec_mesh_updates(
                old(self).world,
                old(self).world.mesh_queue@,
            ).len() > 0 ==> (r matches Ok(pair) ==> exists|i: int|
                0 <= i < pair.0@.len() && (#[trigger] pair.0@[i]).to == WorkerId::Parent
                    && spec_message_tag(pair.0@[i].bytes@) == Some(MessageTag::MeshData)),
    {
        let ghost mut column_applied: bool = false;
        let ghost mut player_applied: bool = false;
        let ghost mut after_apply: World = self.world;
        let has_message = message.is_some();
        if has_message {
            let m = match message {
                Some(m) => m,
                None => {
                    return Err(ProtocolError {});
                },
            };
            let tag = match m.tag() {
                Some(tag) => tag,
                None => {
                    return Err(ProtocolError {});
                },
            };
            match tag {
                MessageTag::ChunkInfo => {
                    let mut out: Vec<OutboundMessage> = Vec::new();
                    out.push(
                        OutboundMessage { to: WorkerId::Parent, bytes: clone_bytes(&m.bytes) },
                    );
                    return Ok((out, None));
                },
                MessageTag::MovementCommand => {
                    if m.bytes.len() != 13 {
                        return Err(ProtocolError {});
                    }
                    let mut reader = ByteReader::start();
                    let mx = match reader.i32(&m.bytes) {
                        Ok(v) => v,
                        Err(e) => {
                            return Err(e);
                        },
                    };
                    let my = match reader.i32(&m.bytes) {
                        Ok(v) => v,
                        Err(e) => {
                            return Err(e);
                        },
                    };
                    let mz = match reader.i32(&m.bytes) {
                        Ok(v) => v,
                        Err(e) => {
                            return Err(e);
                        },
                    };
                    if !(-16_000_000 <= mx && mx <= 16_000_000 && -16_000_000 <= my && my
                        <= 16_000_000 && -16_000_000 <= mz && mz <= 16_000_000) {
                        return Err(ProtocolError {});
                    }
                    let direction = MilliVec3 { x: mx as i64, y: my as i64, z: mz as i64 };
                    proof {
                        assert(direction == spec_movement_direction(m.bytes@));
                    }
                    self.resolve_movement(direction);
                    let mut bytes = write_u32(
                        Vec::new(),
                        u32_of_i32_exec(self.player_chunk.index.x),
                    );
                    bytes = write_u32(bytes, u32_of_i32_exec(self.player_chunk.index.y));
                    bytes = write_u32(bytes, u32_of_i32_exec(self.player_chunk.index.z));
                    bytes = write_u32(bytes, u32_of_i32_exec(self.player_position.x as i32));
                    bytes = write_u32(bytes, u32_of_i32_exec(self.player_position.y as i32));
                    bytes = write_u32(bytes, u32_of_i32_exec(self.player_position.z as i32));
                    bytes.push(MessageTag::MovementCommandReply.byte());
                    let mut out: Vec<OutboundMessage> = Vec::new();
                    out.push(OutboundMessage { to: WorkerId::Parent, bytes });
                    return Ok((out, Some(0)));
                },
                MessageTag::GenerateColumnReply => {
                    if self.apply_column_reply(m).is_err() {
                        return Err(ProtocolError {});
                    }
                    proof {
                        column_applied = true;
                        after_apply = self.world;
                    }
                },
                MessageTag::PlayerCommand => {
                    if self.apply_player_command(m).is_err() {
                        return Err(ProtocolError {});
                    }
                    proof {
                        player_applied = true;
                        after_apply = self.world;
                    }
                },
                _ => {
                    // an initialization or renderer-bound tag has no
                    // business arriving here
                    return Err(ProtocolError {});
                },
            }
        }
        let mut out = self.send_commands_to_workers();
        let ghost mut cropped_world: World = self.world;
        let ghost pre_crop_world: World = self.world;
        let ghost crop_player = self.player_chunk;
        let moved = crate::world::distance_squared(
            self.player_chunk,
            self.last_world_cropping_player_chunk,
        );
        let ghost mut removal_message_index: int = 0;
        let ghost mut removal_reported: bool = false;
        if moved >= 4 {
            self.last_world_cropping_player_chunk = self.player_chunk;
            let removed = self.world.crop(self.player_chunk);
            proof {
                cropped_world = self.world;
            }
            if removed.len() > 0 {
                let mut bytes: Vec<u8> = Vec::new();
                let mut i: usize = 0;
                let n = removed.len();
                while i < n
                    invariant
                        n == removed@.len(),
                        i <= n,
                    decreases n - i,
                {
                    bytes = write_u32(bytes, u32_of_i32_exec(removed[i].index.x));
                    bytes = write_u32(bytes, u32_of_i32_exec(removed[i].index.y));
                    bytes = write_u32(bytes, u32_of_i32_exec(removed[i].index.z));
                    i = i + 1;
                }
                bytes.push(MessageTag::ChunkRemoval.byte());
                proof {
                    removal_message_index = out@.len() as int;
                    removal_reported = true;
                }
                out.push(OutboundMessage { to: WorkerId::Parent, bytes });
                proof {
                    assert(out@[removal_message_index].to == WorkerId::Parent);
                    assert(spec_message_tag(out@[removal_message_index].bytes@) == Some(
                        MessageTag::ChunkRemoval,
                    ));
                }
            } else {
                proof {
                    if !has_message && exists|p: ChunkPosition| #[trigger]
                        old(self).world.resident(p) && spec_distance_squared(
                        p,
                        old(self).player_chunk,
                    ) > old(self).world.view_distance * old(self).world.view_distance {
                        let p = choose|p: ChunkPosition| #[trigger]
                            old(self).world.resident(p) && spec_distance_squared(
                                p,
                                old(self).player_chunk,
                            ) > old(self).world.view_distance * old(self).world.view_distance;
                        assert(pre_crop_world.resident(p));
                        assert(crate::world::positions_contain(removed@, p));
                        assert(false);
                    }
                }
            }
        }
        let ghost pre_drain_world = self.world;
        let ghost mut mesh_message_index: int = 0;
        let ghost mut mesh_reported: bool = false;
        let meshes = self.world.get_updated_meshes();
        if meshes.len() > 0 {
            let mut bytes: Vec<u8> = Vec::new();
            let mut i: usize = 0;
            let n = meshes.len();
            while i < n
                invariant
                    n == meshes@.len(),
                    i <= n,
                decreases n - i,
            {
                bytes = encode_mesh_update(bytes, &meshes[i]);
                i = i + 1;
            }
            bytes.push(MessageTag::MeshData.byte());
            proof {
                mesh_message_index = out@.len() as int;
                mesh_reported = true;
            }
            out.push(OutboundMessage { to: WorkerId::Parent, bytes });
            proof {
                assert(out@[mesh_message_index].to == WorkerId::Parent);
                assert(spec_message_tag(out@[mesh_message_index].bytes@) == Some(
                    MessageTag::MeshData,
                ));
            }
        } else {
            proof {
                if !has_message && spec_distance_squared(
                    old(self).player_chunk,
                    old(self).last_world_cropping_player_chunk,
                ) < 4 {
                    crate::world::lemma_mesh_updates_agree(
                        pre_drain_world,
                        old(self).world,
                        pre_drain_world.mesh_queue@,
                    );
                    assert(crate::world::spec_mesh_updates(
                        old(self).world,
                        old(self).world.mesh_queue@,
                    ).len() == 0);
                }
            }
        }
        proof {
            if !has_message && spec_distance_squared(
                old(self).player_chunk,
                old(self).last_world_cropping_player_chunk,
            ) < 4 && crate::world::spec_mesh_updates(
                old(self).world,
                old(self).world.mesh_queue@,
            ).len() > 0 {
                assert(mesh_reported);
                assert(out@[mesh_message_index].to == WorkerId::Parent);
                assert(spec_message_tag(out@[mesh_message_index].bytes@) == Some(
                    MessageTag::MeshData,
                ));
            }
            if !has_message && spec_distance_squared(
                old(self).player_chunk,
                old(self).last_world_cropping_player_chunk,
            ) >= 4 && exists|p: ChunkPosition| #[trigger]
                old(self).world.resident(p) && spec_distance_squared(p, old(self).player_chunk)
                    > old(self).world.view_distance * old(self).world.view_distance {
                assert(removal_reported);
                assert(out@[removal_message_index].to == WorkerId::Parent);
                assert(spec_message_tag(out@[removal_message_index].bytes@) == Some(
                    MessageTag::ChunkRemoval,
                ));
            }
            if !has_message && spec_distance_squared(
                old(self).player_chunk,
                old(self).last_world_cropping_player_chunk,
            ) >= 4 {
                assert forall|p: ChunkPosition| #[trigger]
                    self.world.resident(p) implies spec_distance_squared(
                    p,
                    old(self).player_chunk,
                ) <= old(self).world.view_distance * old(self).world.view_distance by {
                    assert(cropped_world.resident(p));
                }
                assert forall|p: ChunkPosition| #[trigger]
                    old(self).world.resident(p) && spec_distance_squared(
                    p,
                    old(self).player_chunk,
                ) <= old(self).world.view_distance * old(
                    self,
                ).world.view_distance implies self.world.resident(p) by {
                    assert(pre_crop_world.resident(p));
                    assert(cropped_world.resident(p));
                }
            }
            if player_applied && spec_distance_squared(
                old(self).player_chunk,
                old(self).last_world_cropping_player_chunk,
            ) < 4 {
                let m = message.unwrap();
                let bytes = m.bytes@;
                if command_in_range(bytes) {
                    let d = spec_abs(spec_i32_field(bytes, 36) as int);
                    let radius = d / 2;
                    let b = spec_command_block(bytes);
                    assert(player_command_applied(old(self).world, after_apply, bytes));
                    lemma_transfer_ball(old(self).world, after_apply, self.world, bytes);
                }
            }
            if column_applied && spec_distance_squared(
                old(self).player_chunk,
                old(self).last_world_cropping_player_chunk,
            ) < 4 {
                let m = message.unwrap();
                let y_hi = old(self).world.highest_generated_chunk as int;
                let y_lo = old(self).world.lowest_generated_chunk as int;
                let fx = spec_i32_field(m.bytes@, 0);
                let fz = spec_i32_field(m.bytes@, 4);
                lemma_transfer_column(
                    old(self).world,
                    after_apply,
                    self.world,
                    m.bytes@,
                    fx,
                    fz,
                    y_hi,
                    y_lo,
                );
            }
        }
        Ok((out, None))
    }

    /// Folds one serialized chunk column into the store: a present
    /// record becomes a fresh chunk (its mask recomputed rather than
    /// trusted), a cleared record becomes a shared-air entry for a
    /// position not yet resident, and a stale record for an already
    /// resident position overwrites it (present) or changes nothing
    /// (cleared). Accepts a reply exactly when it parses, provided
    /// the store has room for the column.
    fn apply_column_reply(&mut self, m: &WorkerMessage) -> (r: Result<(), ProtocolError>)
        requires
            old(self).wf(),
        ensures
            final(self).wf(),
            final(self).seed == old(self).seed,
            final(self).worker_count == old(self).worker_count,
            final(self).next_worker_index == old(self).next_worker_index,
            final(self).player_chunk == old(self).player_chunk,
            final(self).player_position == old(self).player_position,
            final(self).last_world_cropping_player_chunk == old(
                self,
            ).last_world_cropping_player_chunk,
            r is Ok ==> spec_column_reply_well_formed(
                m.bytes@,
                old(self).world.highest_generated_chunk as int,
                old(self).world.lowest_generated_chunk as int,
            ),
            old(self).world.chunks@.len() + (old(self).world.highest_generated_chunk - old(
                self,
            ).world.lowest_generated_chunk + 1) < u32::MAX && spec_column_reply_well_formed(
                m.bytes@,
                old(self).world.highest_generated_chunk as int,
                old(self).world.lowest_generated_chunk as int,
            ) ==> r is Ok,
            r is Ok ==> forall|i: int|
                0 <= i <= old(self).world.highest_generated_chunk - old(
                    self,
                ).world.lowest_generated_chunk ==> #[trigger] column_level_installed(
                    old(self).world,
                    final(self).world,
                    m.bytes@,
                    spec_i32_field(m.bytes@, 0),
                    spec_i32_field(m.bytes@, 4),
                    old(self).world.highest_generated_chunk as int,
                    i,
                ),
    {
        if m.bytes.len() < 9 {
            return Err(ProtocolError {});
        }
        let mut reader = ByteReader::start();
        let x = match reader.i32(&m.bytes) {
            Ok(v) => v,
            Err(e) => {
                return Err(e);
            },
        };
        let z = match reader.i32(&m.bytes) {
            Ok(v) => v,
            Err(e) => {
                return Err(e);
            },
        };
        let mut pos: usize = reader.pos;
        let mut y: i64 = self.world.highest_generated_chunk as i64;
        let ghost y_hi = self.world.highest_generated_chunk as int;
        let ghost y_lo = self.world.lowest_generated_chunk as int;
        let ghost bytes = m.bytes@;
        while y >= self.world.lowest_generated_chunk as i64
            invariant
                self.wf(),
                old(self).wf(),
                y_hi == self.world.highest_generated_chunk as int,
                y_lo == self.world.lowest_generated_chunk as int,
                y_hi == old(self).world.highest_generated_chunk as int,
                y_lo == old(self).world.lowest_generated_chunk as int,
                bytes == m.bytes@,
                x == spec_i32_field(bytes, 0),
                z == spec_i32_field(bytes, 4),
                y_lo - 1 <= y <= y_hi || (y == y_hi && y_hi < y_lo),
                pos <= bytes.len(),
                bytes.len() <= usize::MAX,
                bytes.len() >= 9,
                pos as int == spec_level_pos(bytes, y_hi - y),
                spec_records_well_formed(bytes, 8, y_hi - y_lo + 1) == spec_records_well_formed(
                    bytes,
                    pos as int,
                    y - y_lo + 1,
                ),
                self.world.chunks@.len() <= old(self).world.chunks@.len() + (y_hi - y),
                forall|i: int|
                    0 <= i < y_hi - y ==> #[trigger] column_level_installed(
                        old(self).world,
                        self.world,
                        bytes,
                        x,
                        z,
                        y_hi,
                        i,
                    ),
                forall|y2: int|
                    y_lo <= y2 <= y ==> (#[trigger] self.world.resident(
                        ChunkPosition { index: IVec3 { x, y: y2 as i32, z } },
                    ) == old(self).world.resident(
                        ChunkPosition { index: IVec3 { x, y: y2 as i32, z } },
                    )),
                self.seed == old(self).seed,
                self.worker_count == old(self).worker_count,
                self.next_worker_index == old(self).next_worker_index,
                self.player_chunk == old(self).player_chunk,
                self.player_position == old(self).player_position,
                self.last_world_cropping_player_chunk == old(
                    self,
                ).last_world_cropping_player_chunk,
                self.world.generation_queue == old(self).world.generation_queue,
            decreases y - self.world.lowest_generated_chunk + 1,
        {
            let position = ChunkPosition { index: IVec3 { x, y: y as i32, z } };
            let ghost done = y_hi - y;
            if pos >= m.bytes.len() {
                proof {
                    assert(!spec_records_well_formed(bytes, pos as int, y - y_lo + 1));
                }
                return Err(ProtocolError {});
            }
            let ghost before_add = self.world;
            let flag = m.bytes[pos];
            if flag == 1 {
                if m.bytes.len() - pos < 4 + 4096 {
                    proof {
                        assert(!spec_records_well_formed(bytes, pos as int, y - y_lo + 1));
                    }
                    return Err(ProtocolError {});
                }
                let mut chunk = Chunk::new();
                let mut k: usize = 0;
                while k < 4096
                    invariant
                        self.wf(),
                        bytes == m.bytes@,
                        bytes.len() <= usize::MAX,
                        y_lo <= y <= y_hi,
                        y_hi == self.world.highest_generated_chunk as int,
                        y_lo == self.world.lowest_generated_chunk as int,
                        y_hi == old(self).world.highest_generated_chunk as int,
                        y_lo == old(self).world.lowest_generated_chunk as int,
                        old(self).wf(),
                        self.world.chunks@.len() <= old(self).world.chunks@.len() + (y_hi - y),
                        bytes.len() >= 9,
                        k <= 4096,
                        chunk.wf(),
                        chunk.in_mesh_queue == false,
                        pos + 4 + 4096 <= bytes.len(),
                        bytes[pos as int] == 1,
                        spec_records_well_formed(bytes, 8, y_hi - y_lo + 1)
                            == spec_records_well_formed(bytes, pos as int, y - y_lo + 1),
                        forall|j: int|
                            0 <= j < k ==> chunk.blocks@[j] == spec_block_of_id(
                                #[trigger] bytes[pos + 4 + j],
                            ) && Block::spec_from_id(bytes[pos + 4 + j]) is Some,
                        forall|j: int| k <= j < 4096 ==> (#[trigger] chunk.blocks@[j]).is_air(),
                        self.seed == old(self).seed,
                        self.worker_count == old(self).worker_count,
                        self.next_worker_index == old(self).next_worker_index,
                        self.player_chunk == old(self).player_chunk,
                        self.player_position == old(self).player_position,
                        self.last_world_cropping_player_chunk == old(
                            self,
                        ).last_world_cropping_player_chunk,
                    decreases 4096 - k,
                {
                    let id = m.bytes[pos + 4 + k];
                    let block = match Block::from_id(id) {
                        Some(block) => block,
                        None => {
                            proof {
                                assert(!spec_records_well_formed(
                                    bytes,
                                    pos as int,
                                    y - y_lo + 1,
                                ));
                            }
                            return Err(ProtocolError {});
                        },
                    };
                    let cx = k / 256;
                    let cy = (k / 16) % 16;
                    let cz = k % 16;
                    proof {
                        assert(cx < 16 && cy < 16 && cz < 16 && cx * 256 + cy * 16 + cz == k)
                            by (nonlinear_arith)
                            requires
                                k < 4096,
                                cx == k as int / 256,
                                cy == (k as int / 16) % 16,
                                cz == k as int % 16,
                        ;
                    }
                    chunk.set_block_local(cx, cy, cz, block);
                    k = k + 1;
                }
                proof {
                    assert(chunk.blocks@ =~= spec_record_blocks(bytes, pos as int));
                }
                chunk.compute_transparency();
                if self.world.chunks.len() >= u32::MAX as usize {
                    // the store is full; treat the reply as unusable
                    proof {
                        if old(self).world.chunks@.len() + (y_hi - y_lo + 1) < u32::MAX {
                            assert(false);
                        }
                    }
                    return Err(ProtocolError {});
                }
                let ghost prev_pos = pos as int;
                self.world.add_chunk(position, chunk);
                proof {
                    lemma_add_preserves_residency(before_add, self.world, position);
                    assert(self.world.chunk_at(position).blocks@ == spec_record_blocks(
                        bytes,
                        prev_pos,
                    ));
                }
                pos = pos + 4 + 4096;
                proof {
                    assert(spec_level_pos(bytes, done + 1) == prev_pos + 4100);
                }
            } else if flag == 0 {
                if m.bytes.len() - pos < 2 {
                    proof {
                        assert(!spec_records_well_formed(bytes, pos as int, y - y_lo + 1));
                    }
                    return Err(ProtocolError {});
                }
                let ghost prev_pos = pos as int;
                self.world.add_air_chunk(position);
                proof {
                    lemma_add_preserves_residency(before_add, self.world, position);
                    if !old(self).world.resident(position) {
                        assert(!before_add.resident(position));
                        assert(self.world.is_shared_air(position));
                    }
                }
                pos = pos + 2;
                proof {
                    assert(spec_level_pos(bytes, done + 1) == prev_pos + 2);
                }
            } else {
                proof {
                    assert(!spec_records_well_formed(bytes, pos as int, y - y_lo + 1));
                }
                return Err(ProtocolError {});
            }
            proof {
                assert(self.world.resident(position));
                assert(pos as int == spec_level_pos(bytes, done + 1));
                assert forall|i: int| 0 <= i < done + 1 implies #[trigger] column_level_installed(
                    old(self).world,
                    self.world,
                    bytes,
                    x,
                    z,
                    y_hi,
                    i,
                ) by {
                    let rp = spec_level_pos(bytes, i);
                    let cp = ChunkPosition { index: IVec3 { x, y: (y_hi - i) as i32, z } };
                    if i == done {
                        assert(cp == position);
                        assert(rp == spec_level_pos(bytes, done));
                    } else {
                        assert(column_level_installed(
                            old(self).world,
                            before_add,
                            bytes,
                            x,
                            z,
                            y_hi,
                            i,
                        ));
                        if crate::world::spec_pack(cp) == crate::world::spec_pack(position) {
                            crate::world::lemma_pack_injective(cp, position);
                            assert((y_hi - i) as i32 == y as i32);
                            assert(false);
                        }
                        assert(before_add.resident(cp));
                    }
                }
                assert forall|y2: int| y_lo <= y2 <= y - 1 implies (
                #[trigger] self.world.resident(
                    ChunkPosition { index: IVec3 { x, y: y2 as i32, z } },
                ) == old(self).world.resident(
                    ChunkPosition { index: IVec3 { x, y: y2 as i32, z } },
                )) by {
                    let cp = ChunkPosition { index: IVec3 { x, y: y2 as i32, z } };
                    if crate::world::spec_pack(cp) == crate::world::spec_pack(position) {
                        crate::world::lemma_pack_injective(cp, position);
                        assert(y2 as i32 == y as i32);
                        assert(false);
                    }
                    assert(before_add.resident(cp) == old(self).world.resident(cp));
                    assert(self.world.resident(cp) == before_add.resident(cp));
                }
            }
            y = y - 1;
        }
        if m.bytes.len() - pos != 1 {
            proof {
                assert(y - y_lo + 1 <= 0 || y_hi < y_lo);
                assert(!spec_records_well_formed(bytes, pos as int, y - y_lo + 1));
            }
            return Err(ProtocolError {});
        }
        proof {
            assert(spec_records_well_formed(bytes, pos as int, y - y_lo + 1));
            assert(spec_column_reply_well_formed(bytes, y_hi, y_lo));
        }
        Ok(())
    }

    /// Carries out a place-or-break command: a ray march from the
    /// player's aim finds the struck block, and a sphere of the given
    /// diameter around it is filled with dirt (place) or air (break),
    /// as far as the touched chunks are resident.
    fn apply_player_command(&mut self, m: &WorkerMessage) -> (r: Result<(), ProtocolError>)
        requires
            old(self).wf(),
        ensures
            final(self).wf(),
            r is Err <==> m.bytes@.len() != 41 || spec_i32_field(m.bytes@, 36) > 64
                || spec_i32_field(m.bytes@, 36) < -64,
            r is Ok ==> player_command_applied(old(self).world, final(self).world, m.bytes@),
            final(self).seed == old(self).seed,
            final(self).worker_count == old(self).worker_count,
            final(self).next_worker_index == old(self).next_worker_index,
            final(self).player_chunk == old(self).player_chunk,
            final(self).player_position == old(self).player_position,
            final(self).last_world_cropping_player_chunk == old(
                self,
            ).last_world_cropping_player_chunk,
    {
        proof {
            reveal(World::wf);
        }
        if m.bytes.len() != 41 {
            return Err(ProtocolError {});
        }
        let mut reader = ByteReader::start();
        let cx = match reader.i32(&m.bytes) {
            Ok(v) => v,
            Err(e) => {
                return Err(e);
            },
        };
        let cy = match reader.i32(&m.bytes) {
            Ok(v) => v,
            Err(e) => {
                return Err(e);
            },
        };
        let cz = match reader.i32(&m.bytes) {
            Ok(v) => v,
            Err(e) => {
                return Err(e);
            },
        };
        let px = match reader.i32(&m.bytes) {
            Ok(v) => v,
            Err(e) => {
                return Err(e);
            },
        };
        let py = match reader.i32(&m.bytes) {
            Ok(v) => v,
            Err(e) => {
                return Err(e);
            },
        };
        let pz = match reader.i32(&m.bytes) {
            Ok(v) => v,
            Err(e) => {
                return Err(e);
            },
        };
        let dx = match reader.i32(&m.bytes) {
            Ok(v) => v,
            Err(e) => {
                return Err(e);
            },
        };
        let dy = match reader.i32(&m.bytes) {
            Ok(v) => v,
            Err(e) => {
                return Err(e);
            },
        };
        let dz = match reader.i32(&m.bytes) {
            Ok(v) => v,
            Err(e) => {
                return Err(e);
            },
        };
        let diameter = match reader.i32(&m.bytes) {
            Ok(v) => v,
            Err(e) => {
                return Err(e);
            },
        };
        if diameter < -64 || diameter > 64 {
            return Err(ProtocolError {});
        }
        if !(-0x7FF_FFFF <= cx && cx <= 0x7FF_FFFF && -0x7FF_FFFF <= cy && cy <= 0x7FF_FFFF
            && -0x7FF_FFFF <= cz && cz <= 0x7FF_FFFF) {
            // an aim from outside the coordinate space hits nothing
            return Ok(());
        }
        if !(-100_000_000 <= px && px <= 100_000_000 && -100_000_000 <= py && py <= 100_000_000
            && -100_000_000 <= pz && pz <= 100_000_000 && -1_000_000 <= dx && dx <= 1_000_000
            && -1_000_000 <= dy && dy <= 1_000_000 && -1_000_000 <= dz && dz <= 1_000_000) {
            return Ok(());
        }
        if dx == 0 && dy == 0 && dz == 0 {
            return Ok(());
        }
        let ghost bytes = m.bytes@;
        let ghost w0 = self.world;
        let start = ChunkPosition { index: IVec3 { x: cx, y: cy, z: cz } };
        let offset = MilliVec3 { x: px as i64, y: py as i64, z: pz as i64 };
        let direction = MilliVec3 { x: dx as i64, y: dy as i64, z: dz as i64 };
        let hit = self.world.find_nearest_block_on_ray(start, offset, direction, 200);
        let (target, block) = if diameter > 0 {
            (hit.0, Block::Dirt)
        } else {
            (hit.1, Block::Air)
        };
        proof {
            assert(command_in_range(bytes));
            assert(if diameter > 0 {
                target == spec_command_target(w0, bytes)
            } else {
                target == spec_command_target(w0, bytes)
            });
            assert(block == spec_command_block(bytes));
        }
        let target = match target {
            Some(target) => target,
            None => {
                return Ok(());
            },
        };
        let d = if diameter >= 0 {
            diameter
        } else {
            -diameter
        };
        let radius = d / 2;
        proof {
            assert(d as int == spec_abs(spec_i32_field(bytes, 36) as int));
            assert(radius as int == d as int / 2);
        }
        let mut sx: i32 = 0;
        while sx < d
            invariant
                self.wf(),
                old(self).wf(),
                w0 == old(self).world,
                0 <= d <= 64,
                radius as int == d as int / 2,
                0 <= radius <= 32,
                0 <= sx <= d,
                block == spec_command_block(bytes),
                self.world.position_to_index@.dom() == w0.position_to_index@.dom(),
                self.world.chunks@.len() <= w0.chunks@.len() + sx * d * d,
                (block == Block::Air || w0.chunks@.len() + d * d * d < u32::MAX)
                    ==> forall|x2: int, y2: int, z2: int|
                    0 <= x2 < sx && 0 <= y2 < d && 0 <= z2 < d && (x2 - radius) * (x2 - radius) + (
                    y2 - radius) * (y2 - radius) + (z2 - radius) * (z2 - radius) <= radius
                        * radius ==> #[trigger] ball_voxel_holds(
                        w0,
                        self.world,
                        target,
                        x2 - radius,
                        y2 - radius,
                        z2 - radius,
                        block,
                    ),
                self.seed == old(self).seed,
                self.worker_count == old(self).worker_count,
                self.next_worker_index == old(self).next_worker_index,
                self.player_chunk == old(self).player_chunk,
                self.player_position == old(self).player_position,
                self.last_world_cropping_player_chunk == old(
                    self,
                ).last_world_cropping_player_chunk,
            decreases d - sx,
        {
            let ghost len_outer = self.world.chunks@.len();
            let mut sy: i32 = 0;
            while sy < d
                invariant
                    self.wf(),
                    old(self).wf(),
                    w0 == old(self).world,
                    0 <= d <= 64,
                    radius as int == d as int / 2,
                    0 <= radius <= 32,
                    0 <= sx < d,
                    0 <= sy <= d,
                    block == spec_command_block(bytes),
                    self.world.position_to_index@.dom() == w0.position_to_index@.dom(),
                    self.world.chunks@.len() <= w0.chunks@.len() + sx * d * d + sy * d,
                    (block == Block::Air || w0.chunks@.len() + d * d * d < u32::MAX)
                        ==> forall|x2: int, y2: int, z2: int|
                        0 <= x2 < d && 0 <= y2 < d && 0 <= z2 < d && (x2 < sx || (x2 == sx && y2
                            < sy)) && (x2 - radius) * (x2 - radius) + (y2 - radius) * (y2 - radius)
                            + (z2 - radius) * (z2 - radius) <= radius * radius
                            ==> #[trigger] ball_voxel_holds(
                            w0,
                            self.world,
                            target,
                            x2 - radius,
                            y2 - radius,
                            z2 - radius,
                            block,
                        ),
                    self.seed == old(self).seed,
                    self.worker_count == old(self).worker_count,
                    self.next_worker_index == old(self).next_worker_index,
                    self.player_chunk == old(self).player_chunk,
                    self.player_position == old(self).player_position,
                    self.last_world_cropping_player_chunk == old(
                        self,
                    ).last_world_cropping_player_chunk,
                decreases d - sy,
            {
                let mut sz: i32 = 0;
                while sz < d
                    invariant
                        self.wf(),
                        old(self).wf(),
                        w0 == old(self).world,
                        0 <= d <= 64,
                        radius as int == d as int / 2,
                        0 <= radius <= 32,
                        0 <= sx < d,
                        0 <= sy < d,
                        0 <= sz <= d,
                        block == spec_command_block(bytes),
                        self.world.position_to_index@.dom() == w0.position_to_index@.dom(),
                        self.world.chunks@.len() <= w0.chunks@.len() + sx * d * d + sy * d + sz,
                        (block == Block::Air || w0.chunks@.len() + d * d * d < u32::MAX)
                            ==> forall|x2: int, y2: int, z2: int|
                            0 <= x2 < d && 0 <= y2 < d && 0 <= z2 < d && (x2 < sx || (x2 == sx
                                && y2 < sy) || (x2 == sx && y2 == sy && z2 < sz)) && (x2 - radius)
                                * (x2 - radius) + (y2 - radius) * (y2 - radius) + (z2 - radius) * (
                            z2 - radius) <= radius * radius ==> #[trigger] ball_voxel_holds(
                                w0,
                                self.world,
                                target,
                                x2 - radius,
                                y2 - radius,
                                z2 - radius,
                                block,
                            ),
                        self.seed == old(self).seed,
                        self.worker_count == old(self).worker_count,
                        self.next_worker_index == old(self).next_worker_index,
                        self.player_chunk == old(self).player_chunk,
                        self.player_position == old(self).player_position,
                        self.last_world_cropping_player_chunk == old(
                            self,
                        ).last_world_cropping_player_chunk,
                    decreases d - sz,
                {
                    let ex = sx - radius;
                    let ey = sy - radius;
                    let ez = sz - radius;
                    proof {
                        reveal(World::wf);
                        assert(-4096 <= ex * ex <= 4096 && -4096 <= ey * ey <= 4096 && -4096 <= ez
                            * ez <= 4096 && 0 <= radius * radius <= 4096) by (nonlinear_arith)
                            requires
                                -64 <= ex <= 64,
                                -64 <= ey <= 64,
                                -64 <= ez <= 64,
                                0 <= radius <= 32,
                        ;
                    }
                    let ghost pre = self.world;
                    proof {
                        assert(sx * d * d + sy * d + sz < d * d * d) by (nonlinear_arith)
                            requires
                                0 <= sx < d,
                                0 <= sy < d,
                                0 <= sz < d,
                        ;
                    }
                    if ex * ex + ey * ey + ez * ez <= radius * radius {
                        let p = target.plus(IVec3 { x: ex, y: ey, z: ez });
                        self.world.set_block(p, block);
                        proof {
                            let cp = p.spec_chunk();
                            if (block == Block::Air || w0.chunks@.len() + d * d * d < u32::MAX)
                                && w0.resident(cp) {
                                assert(pre.resident(cp));
                                if World::set_block_applies(pre, p, block) {
                                    crate::position::lemma_block_chunk_round_trip(p);
                                    assert(ball_voxel_holds(
                                        w0,
                                        self.world,
                                        target,
                                        ex as int,
                                        ey as int,
                                        ez as int,
                                        block,
                                    ));
                                } else {
                                    assert(pre.is_shared_air(cp));
                                    if block == Block::Air {
                                        assert(self.world == pre);
                                        crate::chunk::lemma_count_non_air_extremes(
                                            pre.chunks@[0].blocks@,
                                        );
                                        crate::position::lemma_block_chunk_round_trip(p);
                                        assert(ball_voxel_holds(
                                            w0,
                                            self.world,
                                            target,
                                            ex as int,
                                            ey as int,
                                            ez as int,
                                            block,
                                        ));
                                    } else {
                                        assert(pre.chunks@.len() < u32::MAX);
                                        assert(false);
                                    }
                                }
                            }
                        }
                    }
                    proof {
                        assert(self.world.position_to_index@.dom()
                            == w0.position_to_index@.dom());
                        if block == Block::Air || w0.chunks@.len() + d * d * d < u32::MAX {
                            assert forall|x2: int, y2: int, z2: int|
                                0 <= x2 < d && 0 <= y2 < d && 0 <= z2 < d && (x2 < sx || (x2 == sx
                                    && y2 < sy) || (x2 == sx && y2 == sy && z2 < sz + 1)) && (x2
                                    - radius) * (x2 - radius) + (y2 - radius) * (y2 - radius) + (
                                z2 - radius) * (z2 - radius) <= radius
                                    * radius implies #[trigger] ball_voxel_holds(
                                w0,
                                self.world,
                                target,
                                x2 - radius,
                                y2 - radius,
                                z2 - radius,
                                block,
                            ) by {
                                if x2 == sx && y2 == sy && z2 == sz {
                                } else {
                                    lemma_ball_preserved(
                                        w0,
                                        pre,
                                        self.world,
                                        target,
                                        block,
                                        x2 - radius,
                                        y2 - radius,
                                        z2 - radius,
                                        ex as int,
                                        ey as int,
                                        ez as int,
                                    );
                                }
                            }
                        }
                    }
                    sz = sz + 1;
                }
                proof {
                    assert(sx * d * d + sy * d + d == sx * d * d + (sy + 1) * d)
                        by (nonlinear_arith);
                }
                sy = sy + 1;
            }
            proof {
                assert(sx * d * d + d * d == (sx + 1) * d * d) by (nonlinear_arith);
            }
            sx = sx + 1;
        }
        proof {
            if block == Block::Air || w0.chunks@.len() + d * d * d < u32::MAX {
                assert forall|x2: int, y2: int, z2: int|
                    0 <= x2 < d && 0 <= y2 < d && 0 <= z2 < d && (x2 - radius) * (x2 - radius) + (
                    y2 - radius) * (y2 - radius) + (z2 - radius) * (z2 - radius) <= radius
                        * radius implies #[trigger] ball_voxel_holds(
                    w0,
                    self.world,
                    target,
                    x2 - radius,
                    y2 - radius,
                    z2 - radius,
                    block,
                ) by {
                    assert(x2 < d || (x2 == d && y2 < d) || (x2 == d && y2 == d && z2 < d));
                }
            }
        }
        Ok(())
    }
}

/// The displacement a movement command carries.
pub open spec fn spec_movement_direction(bytes: Seq<u8>) -> MilliVec3 {
    MilliVec3 {
        x: spec_i32_field(bytes, 0) as i64,
        y: spec_i32_field(bytes, 4) as i64,
        z: spec_i32_field(bytes, 8) as i64,
    }
}

/// A movement command is thirteen bytes, with each displacement
/// component within a thousand chunks.
pub open spec fn movement_command_well_formed(bytes: Seq<u8>) -> bool {
    &&& bytes.len() == 13
    &&& -16_000_000 <= spec_i32_field(bytes, 0) <= 16_000_000
    &&& -16_000_000 <= spec_i32_field(bytes, 4) <= 16_000_000
    &&& -16_000_000 <= spec_i32_field(bytes, 8) <= 16_000_000
}

/// The aim parameters of a player command stay inside the
/// coordinate space and name a direction at all.
pub open spec fn command_in_range(bytes: Seq<u8>) -> bool {
    &&& -0x7FF_FFFF <= spec_i32_field(bytes, 0) <= 0x7FF_FFFF
    &&& -0x7FF_FFFF <= spec_i32_field(bytes, 4) <= 0x7FF_FFFF
    &&& -0x7FF_FFFF <= spec_i32_field(bytes, 8) <= 0x7FF_FFFF
    &&& -100_000_000 <= spec_i32_field(bytes, 12) <= 100_000_000
    &&& -100_000_000 <= spec_i32_field(bytes, 16) <= 100_000_000
    &&& -100_000_000 <= spec_i32_field(bytes, 20) <= 100_000_000
    &&& -1_000_000 <= spec_i32_field(bytes, 24) <= 1_000_000
    &&& -1_000_000 <= spec_i32_field(bytes, 28) <= 1_000_000
    &&& -1_000_000 <= spec_i32_field(bytes, 32) <= 1_000_000
    &&& !(spec_i32_field(bytes, 24) == 0 && spec_i32_field(bytes, 28) == 0 && spec_i32_field(
        bytes,
        32,
    ) == 0)
}

/// The block a command struck: the last transparent sample before
/// the hit when placing, the hit itself when breaking.
pub open spec fn spec_command_target(w: World, bytes: Seq<u8>) -> Option<BlockPosition> {
    let start = ChunkPosition {
        index: IVec3 {
            x: spec_i32_field(bytes, 0),
            y: spec_i32_field(bytes, 4),
            z: spec_i32_field(bytes, 8),
        },
    };
    let offset = MilliVec3 {
        x: spec_i32_field(bytes, 12) as i64,
        y: spec_i32_field(bytes, 16) as i64,
        z: spec_i32_field(bytes, 20) as i64,
    };
    let direction = MilliVec3 {
        x: spec_i32_field(bytes, 24) as i64,
        y: spec_i32_field(bytes, 28) as i64,
        z: spec_i32_field(bytes, 32) as i64,
    };
    let hit = crate::world::spec_ray_march(
        w,
        start,
        offset,
        crate::world::spec_norm_dir(direction),
        0,
        20000,
        None,
    );
    if spec_i32_field(bytes, 36) > 0 {
        hit.0
    } else {
        hit.1
    }
}

/// The block a command writes: dirt when placing, air when breaking.
pub open spec fn spec_command_block(bytes: Seq<u8>) -> Block {
    if spec_i32_field(bytes, 36) > 0 {
        Block::Dirt
    } else {
        Block::Air
    }
}

/// One voxel of the command's sphere has been written: if its chunk
/// was resident, it now reads the command's block.
pub open spec fn ball_voxel_holds(
    w0: World,
    w: World,
    t: BlockPosition,
    dx: int,
    dy: int,
    dz: int,
    b: Block,
) -> bool {
    let p = t.spec_plus(dx as i32, dy as i32, dz as i32);
    let cp = p.spec_chunk();
    w0.resident(cp) ==> w.resident(cp) && {
        let (lx, ly, lz) = p.spec_local();
        block_at(w.chunk_at(cp).blocks@, lx, ly, lz) == b
    }
}

/// What a well-formed player command does to the world: out-of-range
/// aims and misses change nothing; a hit writes the command's block
/// into every voxel of the sphere whose chunk is resident (for a
/// placement, provided the store has room for the copies the writes
/// may need).
pub open spec fn player_command_applied(w0: World, w: World, bytes: Seq<u8>) -> bool {
    let d = spec_abs(spec_i32_field(bytes, 36) as int);
    let radius = d / 2;
    let b = spec_command_block(bytes);
    if !command_in_range(bytes) {
        w == w0
    } else {
        match spec_command_target(w0, bytes) {
            None => w == w0,
            Some(t) => (b == Block::Air || w0.chunks@.len() + d * d * d < u32::MAX)
                ==> forall|sx: int, sy: int, sz: int|
                0 <= sx < d && 0 <= sy < d && 0 <= sz < d && (sx - radius) * (sx - radius) + (sy
                    - radius) * (sy - radius) + (sz - radius) * (sz - radius) <= radius * radius
                    ==> #[trigger] ball_voxel_holds(
                    w0,
                    w,
                    t,
                    sx - radius,
                    sy - radius,
                    sz - radius,
                    b,
                ),
        }
    }
}

/// A block identifier decoded; an unknown identifier reads as Air
/// (well-formedness rules unknown identifiers out separately).
pub open spec fn spec_block_of_id(id: u8) -> Block {
    match Block::spec_from_id(id) {
        Some(b) => b,
        None => Block::Air,
    }
}

/// The 4096 blocks of a present column record starting at `pos`.
pub open spec fn spec_record_blocks(bytes: Seq<u8>, pos: int) -> Seq<Block> {
    Seq::new(4096, |k: int| spec_block_of_id(bytes[pos + 4 + k]))
}

/// The offset of the record for level `n` of a column reply (level 0
/// is the highest chunk), found by walking the records before it.
pub open spec fn spec_level_pos(bytes: Seq<u8>, n: int) -> int
    decreases n,
{
    if n <= 0 {
        8
    } else {
        let p = spec_level_pos(bytes, n - 1);
        if 0 <= p < bytes.len() && bytes[p] == 1 {
            p + 4100
        } else {
            p + 2
        }
    }
}

/// The records of a column reply parse from `pos` for `levels` more
/// chunks: every record fits, carries a valid flag, a present record
/// carries only known block identifiers, and after the last record
/// exactly the trailing tag byte remains.
pub open spec fn spec_records_well_formed(bytes: Seq<u8>, pos: int, levels: int) -> bool
    decreases levels,
{
    if levels <= 0 {
        pos == bytes.len() - 1
    } else if pos >= bytes.len() {
        false
    } else if bytes[pos] == 1 {
        &&& pos + 4100 <= bytes.len()
        &&& forall|k: int| 0 <= k < 4096 ==> Block::spec_from_id(#[trigger] bytes[pos + 4 + k]) is Some
        &&& spec_records_well_formed(bytes, pos + 4100, levels - 1)
    } else if bytes[pos] == 0 {
        &&& pos + 2 <= bytes.len()
        &&& spec_records_well_formed(bytes, pos + 2, levels - 1)
    } else {
        false
    }
}

/// A whole column reply is well-formed for the given chunk range.
pub open spec fn spec_column_reply_well_formed(bytes: Seq<u8>, y_hi: int, y_lo: int) -> bool {
    &&& bytes.len() >= 9
    &&& spec_records_well_formed(bytes, 8, y_hi - y_lo + 1)
}

/// Level `i` of a column reply has been folded into the world `w` as
/// its record says: the position is resident, a present record's
/// blocks are stored unchanged, and a cleared record left a position
/// that was not yet resident pointing at the shared air chunk.
pub open spec fn column_level_installed(
    w0: World,
    w: World,
    bytes: Seq<u8>,
    x: i32,
    z: i32,
    y_hi: int,
    i: int,
) -> bool {
    let rp = spec_level_pos(bytes, i);
    let cp = ChunkPosition { index: IVec3 { x, y: (y_hi - i) as i32, z } };
    &&& w.resident(cp)
    &&& (0 <= rp < bytes.len() && bytes[rp] == 1 ==> w.chunk_at(cp).blocks@ == spec_record_blocks(
        bytes,
        rp,
    ))
    &&& (0 <= rp < bytes.len() && bytes[rp] == 0 && !w0.resident(cp) ==> w.is_shared_air(cp))
}

/// A voxel already written keeps its block across one more write of
/// the sphere: the later write either changed nothing, hit another
/// chunk, or hit another cell of the same chunk.
#[verifier::rlimit(100)]
#[verifier::spinoff_prover]
proof fn lemma_ball_preserved(
    w0: World,
    pre: World,
    post: World,
    t: BlockPosition,
    b: Block,
    qx: int,
    qy: int,
    qz: int,
    ex: int,
    ey: int,
    ez: int,
)
    requires
        -64 <= qx <= 64,
        -64 <= qy <= 64,
        -64 <= qz <= 64,
        -64 <= ex <= 64,
        -64 <= ey <= 64,
        -64 <= ez <= 64,
        (qx, qy, qz) != (ex, ey, ez),
        ({
            let cp = t.spec_plus(ex as i32, ey as i32, ez as i32).spec_chunk();
            pre.resident(cp) ==> pre.chunk_at(cp).blocks@.len() == 4096
        }),
        ball_voxel_holds(w0, pre, t, qx, qy, qz, b),
        post.position_to_index@.dom() == pre.position_to_index@.dom(),
        post == pre || ({
            let p = t.spec_plus(ex as i32, ey as i32, ez as i32);
            let cp = p.spec_chunk();
            let (lx, ly, lz) = p.spec_local();
            &&& pre.resident(cp)
            &&& post.resident(cp)
            &&& post.chunk_at(cp).blocks@ == pre.chunk_at(cp).blocks@.update(
                crate::chunk::spec_block_index(lx, ly, lz),
                b,
            )
            &&& forall|q: ChunkPosition|
                #[trigger] pre.resident(q) && crate::world::spec_pack(q)
                    != crate::world::spec_pack(cp) ==> post.resident(q)
                    && crate::world::same_chunk_data(post.chunk_at(q), pre.chunk_at(q))
        }),
    ensures
        ball_voxel_holds(w0, post, t, qx, qy, qz, b),
{
    if post != pre {
        let p = t.spec_plus(ex as i32, ey as i32, ez as i32);
        let cp = p.spec_chunk();
        let p2 = t.spec_plus(qx as i32, qy as i32, qz as i32);
        let cp2 = p2.spec_chunk();
        if w0.resident(cp2) {
            assert(pre.resident(cp2));
            if crate::world::spec_pack(cp2) == crate::world::spec_pack(cp) {
                crate::world::lemma_pack_injective(cp2, cp);
                assert(cp2 == cp);
                if p2 == p {
                    crate::world::lemma_block_plus_injective(t, (qx, qy, qz), (ex, ey, ez));
                    assert(false);
                }
                assert(p2 != p);
                crate::world::lemma_same_chunk_distinct_local(p2, p);
                crate::position::lemma_block_chunk_round_trip(p2);
                crate::position::lemma_block_chunk_round_trip(p);
            } else {
                assert(crate::world::same_chunk_data(post.chunk_at(cp2), pre.chunk_at(cp2)));
            }
        }
    }
}

/// The six bytes of one serialized vertex record.
pub open spec fn spec_vertex_bytes(v: crate::mesh::Vertex) -> Seq<u8> {
    seq![v.x, v.y, v.z, v.u, v.v, v.face_index]
}

/// The vertex records of a mesh, flattened in order.
pub open spec fn spec_vertices_bytes(vs: Seq<crate::mesh::Vertex>) -> Seq<u8>
    decreases vs.len(),
{
    if vs.len() == 0 {
        Seq::empty()
    } else {
        spec_vertices_bytes(vs.drop_last()) + spec_vertex_bytes(vs.last())
    }
}

/// The index records of a mesh, each four bytes little-endian.
pub open spec fn spec_indices_bytes(is: Seq<u32>) -> Seq<u8>
    decreases is.len(),
{
    if is.len() == 0 {
        Seq::empty()
    } else {
        spec_indices_bytes(is.drop_last()) + vstd::bytes::spec_u32_to_le_bytes(is.last())
    }
}

/// The bytes one mesh update contributes to a `MeshData` message:
/// the header (chunk coordinates, vertex and index counts, the
/// fully-solid-and-invisible flag), the vertex records, the index
/// records.
pub open spec fn spec_mesh_update_bytes(data: MeshData, vs: Seq<crate::mesh::Vertex>, is: Seq<u32>) -> Seq<u8> {
    vstd::bytes::spec_u32_to_le_bytes(spec_u32_of_i32(data.chunk_x))
        + vstd::bytes::spec_u32_to_le_bytes(spec_u32_of_i32(data.chunk_y))
        + vstd::bytes::spec_u32_to_le_bytes(spec_u32_of_i32(data.chunk_z))
        + vstd::bytes::spec_u32_to_le_bytes(data.vertex_count) + vstd::bytes::spec_u32_to_le_bytes(
        data.index_count,
    ) + seq![data.is_full_and_invisible] + spec_vertices_bytes(vs) + spec_indices_bytes(is)
}

/// The tags the simulation refuses outright: initializations must
/// come first and exactly once, and renderer-bound payloads must not
/// loop back.
pub open spec fn simulation_rejects(t: MessageTag) -> bool {
    ||| t == MessageTag::InitSimulation
    ||| t == MessageTag::InitGenerator
    ||| t == MessageTag::GenerateColumn
    ||| t == MessageTag::MeshData
    ||| t == MessageTag::ChunkRemoval
    ||| t == MessageTag::MovementCommandReply
}

/// Serializes one mesh update: the header, the vertex records (six
/// bytes each), the index records (four bytes each).
fn encode_mesh_update(bytes: Vec<u8>, update: &MeshUpdate) -> (r: Vec<u8>)
    ensures
        r@ == bytes@ + spec_mesh_update_bytes(
            update.data,
            update.mesh.vertices@,
            update.mesh.indices@,
        ),
{
    let ghost prefix = bytes@;
    let mut bytes = write_u32(bytes, u32_of_i32_exec(update.data.chunk_x));
    bytes = write_u32(bytes, u32_of_i32_exec(update.data.chunk_y));
    bytes = write_u32(bytes, u32_of_i32_exec(update.data.chunk_z));
    bytes = write_u32(bytes, update.data.vertex_count);
    bytes = write_u32(bytes, update.data.index_count);
    bytes.push(update.data.is_full_and_invisible);
    let ghost header = bytes@;
    let mut i: usize = 0;
    let nv = update.mesh.vertices.len();
    while i < nv
        invariant
            nv == update.mesh.vertices@.len(),
            i <= nv,
            bytes@ == header + spec_vertices_bytes(update.mesh.vertices@.take(i as int)),
        decreases nv - i,
    {
        let v = update.mesh.vertices[i];
        bytes.push(v.x);
        bytes.push(v.y);
        bytes.push(v.z);
        bytes.push(v.u);
        bytes.push(v.v);
        bytes.push(v.face_index);
        proof {
            assert(update.mesh.vertices@.take(i + 1).drop_last() =~= update.mesh.vertices@.take(
                i as int,
            ));
            assert(bytes@ =~= header + spec_vertices_bytes(update.mesh.vertices@.take(i + 1)));
        }
        i = i + 1;
    }
    proof {
        assert(update.mesh.vertices@.take(nv as int) =~= update.mesh.vertices@);
    }
    let ghost mid = bytes@;
    let mut j: usize = 0;
    let ni = update.mesh.indices.len();
    while j < ni
        invariant
            ni == update.mesh.indices@.len(),
            j <= ni,
            bytes@ == mid + spec_indices_bytes(update.mesh.indices@.take(j as int)),
        decreases ni - j,
    {
        bytes = write_u32(bytes, update.mesh.indices[j]);
        proof {
            assert(update.mesh.indices@.take(j + 1).drop_last() =~= update.mesh.indices@.take(
                j as int,
            ));
            assert(bytes@ =~= mid + spec_indices_bytes(update.mesh.indices@.take(j + 1)));
        }
        j = j + 1;
    }
    proof {
        assert(update.mesh.indices@.take(ni as int) =~= update.mesh.indices@);
        assert(bytes@ =~= prefix + spec_mesh_update_bytes(
            update.data,
            update.mesh.vertices@,
            update.mesh.indices@,
        ));
    }
    bytes
}

/// The sphere written by a player command survives the rest of the
/// step, which touches pending-work flags and queues but no block.
#[verifier::rlimit(100)]
proof fn lemma_transfer_ball(w0: World, wa: World, wb: World, bytes: Seq<u8>)
    requires
        wa.wf(),
        command_in_range(bytes),
        ({
            let d = spec_abs(spec_i32_field(bytes, 36) as int);
            let radius = d / 2;
            let b = spec_command_block(bytes);
            spec_command_target(w0, bytes) matches Some(t) ==> ((b == Block::Air
                || w0.chunks@.len() + d * d * d < u32::MAX) ==> forall|sx: int, sy: int, sz: int|
                0 <= sx < d && 0 <= sy < d && 0 <= sz < d && (sx - radius) * (sx - radius) + (sy
                    - radius) * (sy - radius) + (sz - radius) * (sz - radius) <= radius * radius
                    ==> #[trigger] ball_voxel_holds(w0, wa, t, sx - radius, sy - radius, sz
                    - radius, b))
        }),
        wb.position_to_index == wa.position_to_index,
        wb.chunks@.len() == wa.chunks@.len(),
        World::same_chunk_array(wa, wb),
    ensures
        ({
            let d = spec_abs(spec_i32_field(bytes, 36) as int);
            let radius = d / 2;
            let b = spec_command_block(bytes);
            spec_command_target(w0, bytes) matches Some(t) ==> ((b == Block::Air
                || w0.chunks@.len() + d * d * d < u32::MAX) ==> forall|sx: int, sy: int, sz: int|
                0 <= sx < d && 0 <= sy < d && 0 <= sz < d && (sx - radius) * (sx - radius) + (sy
                    - radius) * (sy - radius) + (sz - radius) * (sz - radius) <= radius * radius
                    ==> #[trigger] ball_voxel_holds(w0, wb, t, sx - radius, sy - radius, sz
                    - radius, b))
        }),
{
    reveal(World::wf);
    let d = spec_abs(spec_i32_field(bytes, 36) as int);
    let radius = d / 2;
    let b = spec_command_block(bytes);
    match spec_command_target(w0, bytes) {
        None => {},
        Some(t) => if b == Block::Air || w0.chunks@.len() + d * d * d < u32::MAX {
            assert forall|sx: int, sy: int, sz: int|
                0 <= sx < d && 0 <= sy < d && 0 <= sz < d && (sx - radius) * (sx - radius) + (sy
                - radius) * (sy - radius) + (sz - radius) * (sz - radius) <= radius
                * radius implies #[trigger] ball_voxel_holds(
                w0,
                wb,
                t,
                sx - radius,
                sy - radius,
                sz - radius,
                b,
            ) by {
                assert(ball_voxel_holds(w0, wa, t, sx - radius, sy - radius, sz - radius, b));
                let p = t.spec_plus((sx - radius) as i32, (sy - radius) as i32, (sz
                    - radius) as i32);
                let cp = p.spec_chunk();
                if wa.resident(cp) {
                    assert(0 <= wa.chunk_index_of(cp) < wa.chunks@.len());
                    assert(crate::world::same_chunk_data(
                        wa.chunks@[wa.chunk_index_of(cp)],
                        wb.chunks@[wa.chunk_index_of(cp)],
                    ));
                }
                assert(same_chunk_data_link(wa, wb, cp));
            }
        },
    }
}

/// The chunks a column reply installed survive the rest of the
/// step, which touches pending-work flags and queues but no block.
#[verifier::rlimit(100)]
proof fn lemma_transfer_column(
    w0: World,
    wa: World,
    wb: World,
    bytes: Seq<u8>,
    fx: i32,
    fz: i32,
    y_hi: int,
    y_lo: int,
)
    requires
        wa.wf(),
        forall|i: int|
            0 <= i <= y_hi - y_lo ==> #[trigger] column_level_installed(
                w0,
                wa,
                bytes,
                fx,
                fz,
                y_hi,
                i,
            ),
        wb.position_to_index == wa.position_to_index,
        wb.chunks@.len() == wa.chunks@.len(),
        World::same_chunk_array(wa, wb),
    ensures
        forall|i: int|
            0 <= i <= y_hi - y_lo ==> #[trigger] column_level_installed(
                w0,
                wb,
                bytes,
                fx,
                fz,
                y_hi,
                i,
            ),
{
    reveal(World::wf);
    assert forall|i: int| 0 <= i <= y_hi - y_lo implies #[trigger] column_level_installed(
        w0,
        wb,
        bytes,
        fx,
        fz,
        y_hi,
        i,
    ) by {
        assert(column_level_installed(w0, wa, bytes, fx, fz, y_hi, i));
        let cp = ChunkPosition { index: IVec3 { x: fx, y: (y_hi - i) as i32, z: fz } };
        if wa.resident(cp) {
            assert(0 <= wa.chunk_index_of(cp) < wa.chunks@.len());
            assert(crate::world::same_chunk_data(
                wa.chunks@[wa.chunk_index_of(cp)],
                wb.chunks@[wa.chunk_index_of(cp)],
            ));
        }
        assert(same_chunk_data_link(wa, wb, cp));
    }
}

/// Well-formedness carries over unchanged store fields (only the
/// generation queue, which it does not mention, may differ).
proof fn lemma_wf_untouched(a: World, b: World)
    requires
        a.wf(),
        b.chunks == a.chunks,
        b.position_to_index == a.position_to_index,
        b.positions == a.positions,
        b.mesh_queue == a.mesh_queue,
    ensures
        b.wf(),
{
    reveal(World::wf);
    assert forall|p: ChunkPosition| #[trigger]
        b.resident(p) && !b.is_shared_air(p) implies (b.chunk_at(p).in_mesh_queue
        <==> crate::world::positions_contain(b.mesh_queue@, p)) by {
        assert(a.resident(p) && !a.is_shared_air(p));
        assert(a.chunk_at(p).in_mesh_queue <==> crate::world::positions_contain(
            a.mesh_queue@,
            p,
        ));
    }
}

/// With the map untouched and the chunk array's data preserved slot
/// by slot, a resident position reads the same chunk data.
pub open spec fn same_chunk_data_link(a: World, b: World, p: ChunkPosition) -> bool {
    a.resident(p) ==> b.resident(p) && b.chunk_index_of(p) == a.chunk_index_of(p)
        && b.chunk_at(p).blocks@ == a.chunk_at(p).blocks@
}

/// Whatever installing a chunk does, the already-resident positions
/// stay resident.
proof fn lemma_add_preserves_residency(before: World, after: World, position: ChunkPosition)
    requires
        after.position_to_index@.dom() == before.position_to_index@.dom() || after.position_to_index@.dom()
            == before.position_to_index@.dom().insert(crate::world::spec_pack(position)),
    ensures
        forall|q: ChunkPosition| #[trigger] before.resident(q) ==> after.resident(q),
{
}

fn clone_bytes(bytes: &Vec<u8>) -> (r: Vec<u8>)
    ensures
        r@ == bytes@,
{
    let mut out: Vec<u8> = Vec::new();
    let mut i: usize = 0;
    let n = bytes.len();
    while i < n
        invariant
            n == bytes@.len(),
            i <= n,
            out@ == bytes@.take(i as int),
        decreases n - i,
    {
        out.push(bytes[i]);
        proof {
            assert(out@ =~= bytes@.take(i + 1));
        }
        i = i + 1;
    }
    proof {
        assert(out@ =~= bytes@);
    }
    out
}

} // verus!
