//! The actor protocol: every message between the renderer, the
//! simulation and the generators is a flat byte buffer whose final
//! byte is a tag naming the payload layout. This module holds the
//! tags, the actor addresses, and the message envelope.
use vstd::prelude::*;

verus! {

/// The address of another actor: the parent that spawned this one,
/// or one of this actor's children by index.
#[derive(Debug, Clone, Copy, PartialEq, Eq, Structural)]
pub enum WorkerId {
    Parent,
    Child(u32),
}

/// The trailing discriminant of a message buffer.
#[derive(Debug, Clone, Copy, PartialEq, Eq, Structural)]
pub enum MessageTag {
    InitSimulation,
    InitGenerator,
    GenerateColumn,
    GenerateColumnReply,
    MeshData,
    ChunkRemoval,
    ChunkInfo,
    PlayerCommand,
    MovementCommand,
    MovementCommandReply,
}

impl MessageTag {
    pub open spec fn spec_byte(self) -> u8 {
        match self {
            MessageTag::InitSimulation => 0,
            MessageTag::InitGenerator => 1,
            MessageTag::GenerateColumn => 2,
            MessageTag::GenerateColumnReply => 3,
            MessageTag::MeshData => 4,
            MessageTag::ChunkRemoval => 5,
            MessageTag::ChunkInfo => 6,
            MessageTag::PlayerCommand => 7,
            MessageTag::MovementCommand => 8,
            MessageTag::MovementCommandReply => 9,
        }
    }

    pub fn byte(self) -> (r: u8)
        ensures
            r == self.spec_byte(),
    {
        match self {
            MessageTag::InitSimulation => 0,
            MessageTag::InitGenerator => 1,
            MessageTag::GenerateColumn => 2,
            MessageTag::GenerateColumnReply => 3,
            MessageTag::MeshData => 4,
            MessageTag::ChunkRemoval => 5,
            MessageTag::ChunkInfo => 6,
            MessageTag::PlayerCommand => 7,
            MessageTag::MovementCommand => 8,
            MessageTag::MovementCommandReply => 9,
        }
    }

    pub open spec fn spec_from_byte(b: u8) -> Option<MessageTag> {
        match b {
            0u8 => Some(MessageTag::InitSimulation),
            1u8 => Some(MessageTag::InitGenerator),
            2u8 => Some(MessageTag::GenerateColumn),
            3u8 => Some(MessageTag::GenerateColumnReply),
            4u8 => Some(MessageTag::MeshData),
            5u8 => Some(MessageTag::ChunkRemoval),
            6u8 => Some(MessageTag::ChunkInfo),
            7u8 => Some(MessageTag::PlayerCommand),
            8u8 => Some(MessageTag::MovementCommand),
            9u8 => Some(MessageTag::MovementCommandReply),
            _ => None,
        }
    }

    pub fn from_byte(b: u8) -> (r: Option<MessageTag>)
        ensures
            r == MessageTag::spec_from_byte(b),
    {
        match b {
            0u8 => Some(MessageTag::InitSimulation),
            1u8 => Some(MessageTag::InitGenerator),
            2u8 => Some(MessageTag::GenerateColumn),
            3u8 => Some(MessageTag::GenerateColumnReply),
            4u8 => Some(MessageTag::MeshData),
            5u8 => Some(MessageTag::ChunkRemoval),
            6u8 => Some(MessageTag::ChunkInfo),
            7u8 => Some(MessageTag::PlayerCommand),
            8u8 => Some(MessageTag::MovementCommand),
            9u8 => Some(MessageTag::MovementCommandReply),
            _ => None,
        }
    }
}

/// An inbound message: who sent it, and its bytes (payload followed
/// by the tag byte).
pub struct WorkerMessage {
    pub sender: WorkerId,
    pub bytes: Vec<u8>,
}

impl WorkerMessage {
    /// The tag named by the final byte, if the buffer is non-empty
    /// and the byte names one.
    pub fn tag(&self) -> (r: Option<MessageTag>)
        ensures
            r == spec_message_tag(self.bytes@),
    {
        if self.bytes.len() == 0 {
            None
        } else {
            MessageTag::from_byte(self.bytes[self.bytes.len() - 1])
        }
    }
}

/// The tag of a raw buffer.
pub open spec fn spec_message_tag(bytes: Seq<u8>) -> Option<MessageTag> {
    if bytes.len() == 0 {
        None
    } else {
        MessageTag::spec_from_byte(bytes.last())
    }
}

/// A message this actor wants delivered.
pub struct OutboundMessage {
    pub to: WorkerId,
    pub bytes: Vec<u8>,
}

/// A violation of the wire protocol: an unknown or unexpected tag, or
/// a payload too short for its layout. These indicate a build
/// mismatch between actors and abort the actor.
#[derive(Debug, Clone, Copy, PartialEq, Eq, Structural)]
pub struct ProtocolError {}

} // verus!
