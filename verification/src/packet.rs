//! What travels between replicas.
use vstd::prelude::*;

verus! {

/// The index of a node within its domain.
pub type LocalNodeIndex = u32;

/// The number under which a key comparison is filed: two key comparisons are equal exactly when
/// their numbers are.
pub type KeyComparison = u64;

/// The number under which an open connection is filed.
pub type ConnectionId = u64;

/// The number under which a socket address is filed: two socket addresses are equal exactly when
/// their numbers are.
pub type SocketId = u64;

/// The address of one replica of one shard of a domain.
#[derive(Clone, Copy, Debug, PartialEq, Eq, Hash, Structural)]
pub struct ReplicaAddress {
    pub domain_index: usize,
    pub shard: usize,
    pub replica: usize,
}

/// Names the connection that a packet came by, and the packet among those of that connection.
#[derive(Clone, Copy, Debug, PartialEq, Eq, Hash, Structural)]
pub struct SourceChannelIdentifier {
    pub token: u64,
    pub tag: u32,
}

/// A link between two nodes of a domain.
#[derive(Clone, Copy, Debug, PartialEq, Eq, Hash, Structural)]
pub struct Link {
    pub src: LocalNodeIndex,
    pub dst: LocalNodeIndex,
}

/// The encoded body of what a base table is sent.
#[derive(Debug, PartialEq, Eq)]
pub enum PacketPayload {
    Input(Vec<u8>),
    Timestamp(Vec<u8>),
}

/// What a base table is sent.
#[derive(Debug, PartialEq, Eq)]
pub struct PacketData {
    pub data: PacketPayload,
}

/// A value, with the tag under which its sender expects the answer.
#[derive(Debug, PartialEq, Eq)]
pub struct Tagged<T> {
    pub v: T,
    pub tag: u32,
}

/// A packet that a domain handles.
#[derive(Debug, PartialEq, Eq)]
pub enum Packet {
    /// Rows for a base table, to be acknowledged to their source.
    Input { inner: PacketData, src: SourceChannelIdentifier },
    /// A timestamp for a base table, to be acknowledged to its source.
    Timestamp { link: Option<Link>, src: SourceChannelIdentifier, timestamp: PacketData },
    /// Asks for the replay of some keys of a reader.
    RequestReaderReplay {
        node: LocalNodeIndex,
        cols: Vec<usize>,
        keys: Vec<KeyComparison>,
    },
    /// Any other packet, in its encoded form.
    Other(Vec<u8>),
}

} // verus!
