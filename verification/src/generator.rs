//! The generator actor: initialized with the world seed and the
//! vertical generation range, it answers each `GenerateColumn` request
//! with one serialized chunk column, highest chunk first, plus a
//! bookkeeping message for statistics.
use crate::chunk::count_non_air;
use crate::position::ChunkPosition;
use crate::position::IVec3;
use crate::terrain::TerrainGenerator;
use crate::terrain::WorldSeed;
use crate::terrain::spec_generated_blocks;
use crate::terrain::spec_u32_of_i32;
use crate::chunk::spec_transparency_byte;
use crate::worker::MessageTag;
use crate::worker::OutboundMessage;
use crate::worker::ProtocolError;
use crate::worker::WorkerId;
use crate::worker::WorkerMessage;
use crate::worker::spec_message_tag;
use vstd::prelude::*;
use vstd::slice::slice_subrange;

verus! {

/// One serialized chunk of a column reply: a presence flag, the
/// transparency mask, the occupancy count and the 4096 block
/// identifiers, or a cleared flag plus one alignment byte for an
/// all-Air chunk.
#[derive(Debug, Clone, PartialEq, Eq)]
pub struct ChunkColumnElement {
    pub is_some: u8,
    pub transparency: u8,
    pub non_air_block_count: u16,
    pub blocks: Vec<u8>,
}

/// The statistics record serialized per generated chunk: how long
/// generation took and how many blocks came out solid. This library
/// does not measure time, so the time fields are zero.
#[derive(Debug, Clone, Copy, PartialEq, Eq, Structural)]
pub struct ChunkInfoBytes {
    pub time_secs: u64,
    pub time_subsec_nanos: u32,
    pub non_air_block_count: u16,
    pub padding: u16,
}

/// The bytes one chunk contributes to a column reply.
pub open spec fn spec_column_element_bytes(seed: u64, x: i32, y: i32, z: i32) -> Seq<u8> {
    let blocks = spec_generated_blocks(
        seed,
        ChunkPosition { index: IVec3 { x, y, z } },
    );
    if count_non_air(blocks) == 0 {
        seq![0u8, 0u8]
    } else {
        seq![1u8, spec_transparency_byte(blocks)] + vstd::bytes::spec_u16_to_le_bytes(
            count_non_air(blocks) as u16,
        ) + Seq::new(4096, |k: int| blocks[k].spec_id())
    }
}

/// The records of a whole column, highest chunk first.
pub open spec fn spec_column_records(seed: u64, x: i32, z: i32, y_hi: int, y_lo: int) -> Seq<u8>
    decreases y_hi - y_lo + 1,
{
    if y_hi < y_lo {
        Seq::empty()
    } else {
        spec_column_element_bytes(seed, x, y_hi as i32, z) + spec_column_records(
            seed,
            x,
            z,
            y_hi - 1,
            y_lo,
        )
    }
}

/// A whole column reply: the column coordinates, the records, the
/// tag.
pub open spec fn spec_column_reply_bytes(seed: u64, x: i32, z: i32, y_hi: int, y_lo: int) -> Seq<
    u8,
> {
    vstd::bytes::spec_u32_to_le_bytes(spec_u32_of_i32(x)) + vstd::bytes::spec_u32_to_le_bytes(
        spec_u32_of_i32(z),
    ) + spec_column_records(seed, x, z, y_hi, y_lo) + seq![
        MessageTag::GenerateColumnReply.spec_byte(),
    ]
}

/// The per-chunk statistics record (time fields zero here).
pub open spec fn spec_info_record(seed: u64, x: i32, y: i32, z: i32) -> Seq<u8> {
    let blocks = spec_generated_blocks(
        seed,
        ChunkPosition { index: IVec3 { x, y, z } },
    );
    vstd::bytes::spec_u64_to_le_bytes(0) + vstd::bytes::spec_u32_to_le_bytes(0)
        + vstd::bytes::spec_u16_to_le_bytes(count_non_air(blocks) as u16)
        + vstd::bytes::spec_u16_to_le_bytes(0)
}

/// All statistics records of a column, highest chunk first, plus the
/// tag.
pub open spec fn spec_info_records(seed: u64, x: i32, z: i32, y_hi: int, y_lo: int) -> Seq<u8>
    decreases y_hi - y_lo + 1,
{
    if y_hi < y_lo {
        Seq::empty()
    } else {
        spec_info_record(seed, x, y_hi as i32, z) + spec_info_records(seed, x, z, y_hi - 1, y_lo)
    }
}

/// The generator role's state.
pub struct GeneratorState {
    pub generator: TerrainGenerator,
    pub highest_generated_chunk: i32,
    pub lowest_generated_chunk: i32,
}

impl GeneratorState {
    pub open spec fn wf(self) -> bool {
        &&& self.generator.wf()
        &&& -0x800 <= self.lowest_generated_chunk <= self.highest_generated_chunk <= 0x800
    }

    /// Reads an `InitGenerator` payload: the world seed and the
    /// vertical range of chunks to generate. The range is bounded so
    /// chunk origins stay far inside the coordinate space.
    pub fn initialize(message: &WorkerMessage) -> (r: Result<GeneratorState, ProtocolError>)
        ensures
            r is Ok <==> message.bytes@.len() == 17 && spec_message_tag(message.bytes@) == Some(
                MessageTag::InitGenerator,
            ) && {
                let hi = spec_i32_field(message.bytes@, 8);
                let lo = spec_i32_field(message.bytes@, 12);
                -0x800 <= lo <= hi <= 0x800
            },
            r matches Ok(s) ==> {
                &&& s.wf()
                &&& s.generator.world_seed == WorldSeed(
                    vstd::bytes::spec_u64_from_le_bytes(message.bytes@.subrange(0, 8)),
                )
                &&& s.highest_generated_chunk == spec_i32_field(message.bytes@, 8)
                &&& s.lowest_generated_chunk == spec_i32_field(message.bytes@, 12)
            },
    {
        if message.bytes.len() != 17 {
            return Err(ProtocolError {});
        }
        match message.tag() {
            Some(MessageTag::InitGenerator) => {},
            _ => {
                return Err(ProtocolError {});
            },
        }
        let mut reader = ByteReader::start();
        let seed = match reader.u64(&message.bytes) {
            Ok(v) => v,
            Err(e) => {
                return Err(e);
            },
        };
        let highest = match reader.i32(&message.bytes) {
            Ok(v) => v,
            Err(e) => {
                return Err(e);
            },
        };
        let lowest = match reader.i32(&message.bytes) {
            Ok(v) => v,
            Err(e) => {
                return Err(e);
            },
        };
        if !(-0x800 <= lowest && lowest <= highest && highest <= 0x800) {
            return Err(ProtocolError {});
        }
        Ok(
            GeneratorState {
                generator: TerrainGenerator::new(WorldSeed(seed)),
                highest_generated_chunk: highest,
                lowest_generated_chunk: lowest,
            },
        )
    }

    /// Handles one message: a `GenerateColumn` request produces the
    /// serialized column and its statistics record, both addressed to
    /// the parent; any other known tag is ignored. A malformed
    /// request or an unknown tag is a protocol error.
    pub fn update(&self, message: &WorkerMessage) -> (r: Result<
        Vec<OutboundMessage>,
        ProtocolError,
    >)
        requires
            self.wf(),
        ensures
            spec_message_tag(message.bytes@) is None ==> r is Err,
            spec_message_tag(message.bytes@) == Some(MessageTag::GenerateColumn)
                && message.bytes@.len() == 9 && column_in_range(message.bytes@) ==> {
                let x = spec_i32_field(message.bytes@, 0);
                let z = spec_i32_field(message.bytes@, 4);
                &&& r is Ok
                &&& (r matches Ok(msgs) ==> msgs@.len() == 2 && msgs@[0].to == WorkerId::Parent
                    && msgs@[0].bytes@ == spec_column_reply_bytes(
                    self.generator.world_seed.0,
                    x,
                    z,
                    self.highest_generated_chunk as int,
                    self.lowest_generated_chunk as int,
                ) && msgs@[1].to == WorkerId::Parent && msgs@[1].bytes@ == spec_info_records(
                    self.generator.world_seed.0,
                    x,
                    z,
                    self.highest_generated_chunk as int,
                    self.lowest_generated_chunk as int,
                ) + seq![MessageTag::ChunkInfo.spec_byte()])
            },
            spec_message_tag(message.bytes@) == Some(MessageTag::GenerateColumn) && !(
            message.bytes@.len() == 9 && column_in_range(message.bytes@)) ==> r is Err,
            (spec_message_tag(message.bytes@) matches Some(t) && t != MessageTag::GenerateColumn)
                ==> (r matches Ok(msgs) && msgs@.len() == 0),
    {
        let tag = match message.tag() {
            Some(tag) => tag,
            None => {
                return Err(ProtocolError {});
            },
        };
        match tag {
            MessageTag::GenerateColumn => {},
            _ => {
                return Ok(Vec::new());
            },
        }
        if message.bytes.len() != 9 {
            return Err(ProtocolError {});
        }
        let mut reader = ByteReader::start();
        let x = match reader.i32(&message.bytes) {
            Ok(v) => v,
            Err(e) => {
                return Err(e);
            },
        };
        let z = match reader.i32(&message.bytes) {
            Ok(v) => v,
            Err(e) => {
                return Err(e);
            },
        };
        if !(-0x7FF_FFFF <= x && x <= 0x7FF_FFFF && -0x7FF_FFFF <= z && z <= 0x7FF_FFFF) {
            // a column this far out would overflow block coordinates
            return Err(ProtocolError {});
        }

        let ghost seed = self.generator.world_seed.0;
        let ghost y_hi = self.highest_generated_chunk as int;
        let ghost y_lo = self.lowest_generated_chunk as int;
        let mut reply: Vec<u8> = write_u32(Vec::new(), u32_of_i32_exec(x));
        reply = write_u32(reply, u32_of_i32_exec(z));
        let ghost header = reply@;
        let mut info: Vec<u8> = Vec::new();
        let mut y = self.highest_generated_chunk;
        proof {
            assert(reply@ + spec_column_records(seed, x, z, y as int, y_lo) =~= header
                + spec_column_records(seed, x, z, y_hi, y_lo));
            assert(info@ + spec_info_records(seed, x, z, y as int, y_lo) =~= spec_info_records(
                seed,
                x,
                z,
                y_hi,
                y_lo,
            ));
        }
        while y >= self.lowest_generated_chunk
            invariant
                self.wf(),
                seed == self.generator.world_seed.0,
                y_hi == self.highest_generated_chunk as int,
                y_lo == self.lowest_generated_chunk as int,
                -0x7FF_FFFF <= x <= 0x7FF_FFFF,
                -0x7FF_FFFF <= z <= 0x7FF_FFFF,
                y_lo - 1 <= y <= y_hi,
                reply@ + spec_column_records(seed, x, z, y as int, y_lo) == header
                    + spec_column_records(seed, x, z, y_hi, y_lo),
                info@ + spec_info_records(seed, x, z, y as int, y_lo) == spec_info_records(
                    seed,
                    x,
                    z,
                    y_hi,
                    y_lo,
                ),
            decreases y - self.lowest_generated_chunk + 1,
        {
            let position = ChunkPosition { index: IVec3 { x, y, z } };
            proof {
                assert(position.origin_in_range()) by (nonlinear_arith)
                    requires
                        position.index.x == x,
                        position.index.y == y,
                        position.index.z == z,
                        -0x7FF_FFFF <= x <= 0x7FF_FFFF,
                        -0x800 <= y <= 0x800,
                        -0x7FF_FFFF <= z <= 0x7FF_FFFF,
                ;
            }
            let (chunk, chunk_info) = self.generator.fill_chunk(position);
            let ghost pre_reply = reply@;
            let ghost pre_info = info@;
            match chunk {
                Some(chunk) => {
                    reply.push(1);
                    reply.push(chunk.transparency);
                    reply = write_u16(reply, chunk.non_air_block_count);
                    let mut k: usize = 0;
                    let ghost before_blocks = reply@;
                    while k < 4096
                        invariant
                            k <= 4096,
                            chunk.blocks@.len() == 4096,
                            chunk.blocks@ == spec_generated_blocks(seed, position),
                            reply@ == before_blocks + Seq::new(
                                k as nat,
                                |j: int| chunk.blocks@[j].spec_id(),
                            ),
                        decreases 4096 - k,
                    {
                        let b = chunk.blocks[k].id();
                        reply.push(b);
                        proof {
                            assert(reply@ =~= before_blocks + Seq::new(
                                (k + 1) as nat,
                                |j: int| chunk.blocks@[j].spec_id(),
                            ));
                        }
                        k = k + 1;
                    }
                    proof {
                        assert(Seq::new(4096, |j: int| chunk.blocks@[j].spec_id()) =~= Seq::new(
                            4096,
                            |j: int|
                                spec_generated_blocks(seed, position)[j].spec_id(),
                        ));
                        assert(reply@ =~= pre_reply + spec_column_element_bytes(seed, x, y, z));
                    }
                },
                None => {
                    reply.push(0);
                    reply.push(0);
                    proof {
                        assert(reply@ =~= pre_reply + spec_column_element_bytes(seed, x, y, z));
                    }
                },
            }
            info = write_u64(info, 0);
            info = write_u32(info, 0);
            info = write_u16(info, chunk_info.non_air_block_count);
            info = write_u16(info, 0);
            proof {
                assert(info@ =~= pre_info + spec_info_record(seed, x, y, z));
                assert(reply@ + spec_column_records(seed, x, z, y - 1, y_lo) =~= pre_reply
                    + spec_column_records(seed, x, z, y as int, y_lo));
                assert(info@ + spec_info_records(seed, x, z, y - 1, y_lo) =~= pre_info
                    + spec_info_records(seed, x, z, y as int, y_lo));
            }
            y = y - 1;
        }
        proof {
            assert(reply@ =~= reply@ + spec_column_records(seed, x, z, y as int, y_lo));
            assert(info@ =~= info@ + spec_info_records(seed, x, z, y as int, y_lo));
            assert(reply@ + seq![MessageTag::GenerateColumnReply.spec_byte()]
                =~= spec_column_reply_bytes(seed, x, z, y_hi, y_lo));
        }
        reply.push(MessageTag::GenerateColumnReply.byte());
        info.push(MessageTag::ChunkInfo.byte());
        let mut out: Vec<OutboundMessage> = Vec::new();
        out.push(OutboundMessage { to: WorkerId::Parent, bytes: reply });
        out.push(OutboundMessage { to: WorkerId::Parent, bytes: info });
        Ok(out)
    }
}

/// The requested column's block origin stays within the coordinate
/// space.
pub open spec fn column_in_range(bytes: Seq<u8>) -> bool {
    &&& -0x7FF_FFFF <= spec_i32_field(bytes, 0) <= 0x7FF_FFFF
    &&& -0x7FF_FFFF <= spec_i32_field(bytes, 4) <= 0x7FF_FFFF
}

/// A checked cursor over a message's bytes: every read names its
/// width, advances the cursor, and refuses to read past the end, so
/// each tagged payload is decoded by the same discipline.
pub struct ByteReader {
    pub pos: usize,
}

impl ByteReader {
    pub fn start() -> (r: ByteReader)
        ensures
            r.pos == 0,
    {
        ByteReader { pos: 0 }
    }

    pub fn u64(&mut self, bytes: &Vec<u8>) -> (r: Result<u64, ProtocolError>)
        ensures
            old(self).pos + 8 <= bytes@.len() ==> r == Ok::<u64, ProtocolError>(
                vstd::bytes::spec_u64_from_le_bytes(
                    bytes@.subrange(old(self).pos as int, old(self).pos + 8),
                ),
            ) && final(self).pos == old(self).pos + 8,
            old(self).pos + 8 > bytes@.len() ==> r is Err && final(self).pos == old(self).pos,
    {
        if bytes.len() >= 8 && self.pos <= bytes.len() - 8 {
            let v = read_u64(bytes, self.pos);
            self.pos = self.pos + 8;
            Ok(v)
        } else {
            Err(ProtocolError {})
        }
    }

    pub fn u32(&mut self, bytes: &Vec<u8>) -> (r: Result<u32, ProtocolError>)
        ensures
            old(self).pos + 4 <= bytes@.len() ==> r == Ok::<u32, ProtocolError>(
                vstd::bytes::spec_u32_from_le_bytes(
                    bytes@.subrange(old(self).pos as int, old(self).pos + 4),
                ),
            ) && final(self).pos == old(self).pos + 4,
            old(self).pos + 4 > bytes@.len() ==> r is Err && final(self).pos == old(self).pos,
    {
        if bytes.len() >= 4 && self.pos <= bytes.len() - 4 {
            let v = read_u32(bytes, self.pos);
            self.pos = self.pos + 4;
            Ok(v)
        } else {
            Err(ProtocolError {})
        }
    }

    pub fn i32(&mut self, bytes: &Vec<u8>) -> (r: Result<i32, ProtocolError>)
        ensures
            old(self).pos + 4 <= bytes@.len() ==> r == Ok::<i32, ProtocolError>(
                spec_i32_field(bytes@, old(self).pos as int),
            ) && final(self).pos == old(self).pos + 4,
            old(self).pos + 4 > bytes@.len() ==> r is Err && final(self).pos == old(self).pos,
    {
        if bytes.len() >= 4 && self.pos <= bytes.len() - 4 {
            let v = read_i32(bytes, self.pos);
            self.pos = self.pos + 4;
            Ok(v)
        } else {
            Err(ProtocolError {})
        }
    }
}

/// The signed 32-bit field at byte offset `i`, little-endian.
pub open spec fn spec_i32_field(bytes: Seq<u8>, i: int) -> i32 {
    spec_i32_of_u32(vstd::bytes::spec_u32_from_le_bytes(bytes.subrange(i, i + 4)))
}

/// The signed reading of an unsigned 32-bit value.
pub open spec fn spec_i32_of_u32(v: u32) -> i32 {
    if v < 0x8000_0000 {
        v as i32
    } else {
        (v - 0x1_0000_0000) as i32
    }
}

fn read_u64(bytes: &Vec<u8>, i: usize) -> (r: u64)
    requires
        i + 8 <= bytes@.len(),
    ensures
        r == vstd::bytes::spec_u64_from_le_bytes(bytes@.subrange(i as int, i + 8)),
{
    let n = bytes.len();
    let s = slice_range(bytes, i, i + 8);
    vstd::bytes::u64_from_le_bytes(s)
}

fn read_u32(bytes: &Vec<u8>, i: usize) -> (r: u32)
    requires
        i + 4 <= bytes@.len(),
    ensures
        r == vstd::bytes::spec_u32_from_le_bytes(bytes@.subrange(i as int, i + 4)),
{
    let n = bytes.len();
    let s = slice_range(bytes, i, i + 4);
    vstd::bytes::u32_from_le_bytes(s)
}

fn read_i32(bytes: &Vec<u8>, i: usize) -> (r: i32)
    requires
        i + 4 <= bytes@.len(),
    ensures
        r == spec_i32_field(bytes@, i as int),
{
    let v = read_u32(bytes, i);
    if v < 0x8000_0000 {
        v as i32
    } else {
        ((v as i64) - 0x1_0000_0000) as i32
    }
}

fn slice_range(bytes: &Vec<u8>, lo: usize, hi: usize) -> (r: &[u8])
    requires
        lo <= hi <= bytes@.len(),
    ensures
        r@ == bytes@.subrange(lo as int, hi as int),
{
    let s = bytes.as_slice();
    slice_subrange(s, lo, hi)
}

pub fn write_u64(bytes: Vec<u8>, v: u64) -> (r: Vec<u8>)
    ensures
        r@ == bytes@ + vstd::bytes::spec_u64_to_le_bytes(v),
{
    let mut bytes = bytes;
    let mut piece = vstd::bytes::u64_to_le_bytes(v);
    bytes.append(&mut piece);
    bytes
}

pub fn write_u32(bytes: Vec<u8>, v: u32) -> (r: Vec<u8>)
    ensures
        r@ == bytes@ + vstd::bytes::spec_u32_to_le_bytes(v),
{
    let mut bytes = bytes;
    let mut piece = vstd::bytes::u32_to_le_bytes(v);
    bytes.append(&mut piece);
    bytes
}

pub fn write_u16(bytes: Vec<u8>, v: u16) -> (r: Vec<u8>)
    ensures
        r@ == bytes@ + vstd::bytes::spec_u16_to_le_bytes(v),
{
    let mut bytes = bytes;
    let mut piece = vstd::bytes::u16_to_le_bytes(v);
    bytes.append(&mut piece);
    bytes
}

pub fn u32_of_i32_exec(v: i32) -> (r: u32)
    ensures
        r == spec_u32_of_i32(v),
{
    if v >= 0 {
        v as u32
    } else {
        ((v as i64) + 0x1_0000_0000) as u32
    }
}

pub fn i32_of_u32_exec(v: u32) -> (r: i32)
    ensures
        r == spec_i32_of_u32(v),
{
    if v < 0x8000_0000 {
        v as i32
    } else {
        ((v as i64) - 0x1_0000_0000) as i32
    }
}

} // verus!
