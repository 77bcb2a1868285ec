//! Messages, fragments and acknowledgments, and the bytes that stand for
//! them.

use crate::error::SerializationError;
use crate::wire::{
    be16, varint_bytes, varint_len, varint_size, write_bytes, write_u16, write_u8, write_varint,
};
use vstd::prelude::*;

verus! {

/// Identifier of a channel, as it is written into packets.
pub type ChannelId = u16;

/// Largest payload of a fragment, and of a message that is sent whole.
pub const FRAGMENT_SIZE: usize = 1100;

/// Identifier of a message whose delivery is acknowledged.
#[derive(Clone, Copy, Debug, PartialEq, Eq, Structural)]
pub struct MessageId(pub u16);

/// Records that a message, or one fragment of it, was put into a packet.
#[derive(Clone, Copy, Debug, PartialEq, Eq, Structural)]
pub struct MessageAck {
    pub message_id: MessageId,
    pub fragment_id: Option<u8>,
}

/// One message that is sent whole.
#[derive(Clone, Debug, PartialEq, Eq)]
pub struct SingleData {
    pub id: Option<MessageId>,
    pub bytes: Vec<u8>,
}

/// What a `SingleData` holds, as plain values.
pub struct SingleView {
    pub id: Option<MessageId>,
    pub bytes: Seq<u8>,
}

impl SingleView {
    /// The message is short enough to be sent whole.
    pub open spec fn wf(self) -> bool {
        self.bytes.len() <= FRAGMENT_SIZE
    }

    /// The serialized message: whether it has an id, the id, the payload's
    /// length, the payload.
    pub open spec fn encoding(self) -> Seq<u8> {
        (match self.id {
            Some(id) => seq![1u8] + be16(id.0),
            None => seq![0u8],
        }) + varint_bytes(self.bytes.len() as u64) + self.bytes
    }

    /// Number of bytes in the serialized message.
    pub open spec fn encoded_len(self) -> nat {
        (if self.id is Some {
            3nat
        } else {
            1nat
        }) + varint_size(self.bytes.len() as u64) + self.bytes.len()
    }

    /// The acknowledgment that the message asks for, if it has an id.
    pub open spec fn ack(self) -> Option<MessageAck> {
        match self.id {
            Some(id) => Some(MessageAck { message_id: id, fragment_id: None }),
            None => None,
        }
    }

    /// The encoding has the encoded length, which is small for a message that
    /// can be sent whole.
    pub proof fn lemma_encoded_len(self)
        ensures
            self.encoding().len() == self.encoded_len(),
            self.wf() ==> 2 <= self.encoded_len() <= FRAGMENT_SIZE + 5,
    {
    }
}

impl View for SingleData {
    type V = SingleView;

    open spec fn view(&self) -> SingleView {
        SingleView { id: self.id, bytes: self.bytes@ }
    }
}

impl SingleData {
    /// A message with the given identifier and payload.
    pub fn new(id: Option<MessageId>, bytes: Vec<u8>) -> (m: Self)
        ensures
            m.id == id,
            m.bytes == bytes,
    {
        SingleData { id, bytes }
    }

    /// Whether the message is short enough to be sent whole.
    pub fn is_wf(&self) -> (b: bool)
        ensures
            b == self@.wf(),
    {
        self.bytes.len() <= FRAGMENT_SIZE
    }

    /// Number of bytes that `to_bytes` appends.
    pub fn len(&self) -> (n: usize)
        requires
            self@.wf(),
        ensures
            n == self@.encoded_len(),
    {
        let prefix: usize = if self.id.is_some() {
            3
        } else {
            1
        };
        prefix + varint_len(self.bytes.len() as u64) + self.bytes.len()
    }

    /// Appends the serialized message to `buf`.
    pub fn to_bytes(&self, buf: &mut Vec<u8>) -> (r: Result<(), SerializationError>)
        requires
            self@.wf(),
        ensures
            r is Ok,
            final(buf)@ == old(buf)@ + self@.encoding(),
    {
        match self.id {
            Some(id) => {
                write_u8(buf, 1)?;
                write_u16(buf, id.0)?;
            },
            None => {
                write_u8(buf, 0)?;
            },
        }
        write_varint(buf, self.bytes.len() as u64)?;
        write_bytes(buf, &self.bytes);
        Ok(())
    }
}

/// One slice of a message that is too long to be sent whole.
#[derive(Clone, Debug, PartialEq, Eq)]
pub struct FragmentData {
    pub message_id: MessageId,
    pub fragment_id: u8,
    pub num_fragments: u8,
    pub bytes: Vec<u8>,
}

/// What a `FragmentData` holds, as plain values.
pub struct FragmentView {
    pub message_id: MessageId,
    pub fragment_id: u8,
    pub num_fragments: u8,
    pub bytes: Seq<u8>,
}

impl FragmentView {
    /// The slice is no longer than a fragment may be, and its index is one of
    /// its message's.
    pub open spec fn wf(self) -> bool {
        &&& self.bytes.len() <= FRAGMENT_SIZE
        &&& self.fragment_id < self.num_fragments
    }

    /// Whether this is the last slice of its message.
    pub open spec fn is_last_fragment(self) -> bool {
        self.fragment_id == self.num_fragments - 1
    }

    /// The serialized fragment: message id, index, number of fragments, the
    /// payload's length, the payload.
    pub open spec fn encoding(self) -> Seq<u8> {
        be16(self.message_id.0) + seq![self.fragment_id, self.num_fragments] + varint_bytes(
            self.bytes.len() as u64,
        ) + self.bytes
    }

    /// Number of bytes in the serialized fragment.
    pub open spec fn encoded_len(self) -> nat {
        4 + varint_size(self.bytes.len() as u64) + self.bytes.len()
    }

    /// The acknowledgment that the fragment asks for.
    pub open spec fn ack(self) -> MessageAck {
        MessageAck { message_id: self.message_id, fragment_id: Some(self.fragment_id) }
    }

    /// The encoding has the encoded length, which is bounded for a well-formed
    /// fragment.
    pub proof fn lemma_encoded_len(self)
        ensures
            self.encoding().len() == self.encoded_len(),
            self.wf() ==> 5 <= self.encoded_len() <= FRAGMENT_SIZE + 6,
    {
    }
}

impl View for FragmentData {
    type V = FragmentView;

    open spec fn view(&self) -> FragmentView {
        FragmentView {
            message_id: self.message_id,
            fragment_id: self.fragment_id,
            num_fragments: self.num_fragments,
            bytes: self.bytes@,
        }
    }
}

impl FragmentData {
    /// Whether this is the last slice of its message.
    pub fn is_last_fragment(&self) -> (b: bool)
        requires
            self@.wf(),
        ensures
            b == self@.is_last_fragment(),
    {
        self.fragment_id == self.num_fragments - 1
    }

    /// Whether the fragment is well formed.
    pub fn is_wf(&self) -> (b: bool)
        ensures
            b == self@.wf(),
    {
        self.bytes.len() <= FRAGMENT_SIZE && self.fragment_id < self.num_fragments
    }

    /// Number of bytes that `to_bytes` appends.
    pub fn len(&self) -> (n: usize)
        requires
            self@.wf(),
        ensures
            n == self@.encoded_len(),
    {
        4 + varint_len(self.bytes.len() as u64) + self.bytes.len()
    }

    /// Appends the serialized fragment to `buf`.
    pub fn to_bytes(&self, buf: &mut Vec<u8>) -> (r: Result<(), SerializationError>)
        requires
            self@.wf(),
        ensures
            r is Ok,
            final(buf)@ == old(buf)@ + self@.encoding(),
    {
        write_u16(buf, self.message_id.0)?;
        write_u8(buf, self.fragment_id)?;
        write_u8(buf, self.num_fragments)?;
        write_varint(buf, self.bytes.len() as u64)?;
        write_bytes(buf, &self.bytes);
        Ok(())
    }
}

/// What the messages of a queue hold, as plain values.
pub open spec fn queue_views(queue: Seq<SingleData>) -> Seq<SingleView> {
    queue.map_values(|m: SingleData| m@)
}

/// What the messages hold, as plain values.
pub open spec fn single_views(messages: Seq<&SingleData>) -> Seq<SingleView> {
    messages.map_values(|m: &SingleData| m@)
}

/// What the fragments of a queue hold, as plain values.
pub open spec fn fragment_views(queue: Seq<FragmentData>) -> Seq<FragmentView> {
    queue.map_values(|f: FragmentData| f@)
}

} // verus!
