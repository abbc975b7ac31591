//! Incoming connections, from their first byte to the packets that they carry.
use vstd::prelude::*;

use crate::packet::{Packet, PacketData, PacketPayload, SourceChannelIdentifier, Tagged};
use crate::token::{next_token, nth_token};

verus! {

/// How many bytes are buffered for reading from another domain.
pub const READ_BUFFER_CAPACITY: usize = 2097152;

/// How many bytes are buffered for writing to another domain.
pub const WRITE_BUFFER_CAPACITY: usize = 4096;

/// What has to be done with an accepted connection before packets are read from it.
#[derive(Clone, Copy, Debug, PartialEq, Eq, Structural)]
pub enum Upgrade {
    /// The peer writes to a base table: what it sends is upgraded by [`upgrade_packet`].
    FromBase,
    /// The peer is another domain, which sends packets as they are.
    FromDomain { read_capacity: usize, write_capacity: usize },
}

/// The packet that a base table is sent, as it came by the connection `token` with the tag `tag`.
pub open spec fn upgraded(token: u64, tag: u32, input: PacketData) -> Packet {
    let src = SourceChannelIdentifier { token, tag };
    match input.data {
        PacketPayload::Input(_) => Packet::Input { inner: input, src },
        PacketPayload::Timestamp(_) => Packet::Timestamp { link: None, src, timestamp: input },
    }
}

/// Turns what came from a base connection into a packet for the domain, marked with where it came
/// from.
pub fn upgrade_packet(token: u64, message: Tagged<PacketData>) -> (packet: Packet)
    ensures
        packet == upgraded(token, message.tag, message.v),
        message.v.data is Input ==> packet == (Packet::Input {
            inner: message.v,
            src: SourceChannelIdentifier { token, tag: message.tag },
        }),
        message.v.data is Timestamp ==> packet == (Packet::Timestamp {
            link: None,
            src: SourceChannelIdentifier { token, tag: message.tag },
            timestamp: message.v,
        }),
{
    let Tagged { v: input, tag } = message;
    let src = SourceChannelIdentifier { token, tag };
    let is_input: bool = match &input.data {
        PacketPayload::Input(_) => true,
        PacketPayload::Timestamp(_) => false,
    };
    if is_input {
        Packet::Input { inner: input, src }
    } else {
        // The link values propagated to the base table are not used.
        Packet::Timestamp { link: None, src, timestamp: input }
    }
}

/// Determines from the first byte of a connection whether it is from a base node, which
/// `from_base` marks, and draws a unique token for the connection.
///
/// A connection whose first byte could not be read is given up, and draws no token.
pub fn handle_new_connection<E>(
    first_byte: Result<u8, E>,
    from_base: u8,
    counter: &mut u64,
) -> (established: Result<(u64, Upgrade), E>)
    ensures
        match first_byte {
            Ok(byte) => {
                &&& established == Ok::<(u64, Upgrade), E>((
                    *old(counter),
                    if byte == from_base {
                        Upgrade::FromBase
                    } else {
                        Upgrade::FromDomain {
                            read_capacity: READ_BUFFER_CAPACITY,
                            write_capacity: WRITE_BUFFER_CAPACITY,
                        }
                    },
                ))
                &&& *final(counter) == nth_token(*old(counter), 1)
            },
            Err(error) => {
                &&& established == Err::<(u64, Upgrade), E>(error)
                &&& *final(counter) == *old(counter)
            },
        },
{
    let tag: u8 = match first_byte {
        Ok(byte) => byte,
        Err(error) => {
            return Err(error);
        },
    };
    let is_base = tag == from_base;
    let token: u64 = next_token(counter);
    let upgrade = if is_base {
        Upgrade::FromBase
    } else {
        Upgrade::FromDomain {
            read_capacity: READ_BUFFER_CAPACITY,
            write_capacity: WRITE_BUFFER_CAPACITY,
        }
    };
    Ok((token, upgrade))
}

/// The kind of a packet is the kind of its payload, whatever the payload holds: input becomes an
/// input packet and a timestamp becomes a timestamp packet, each with the data as it came, and each
/// with the token of its connection and its own tag as the source.
pub proof fn packets_keep_the_kind_of_their_payload(
    token: u64,
    message: Tagged<PacketData>,
    packet: Packet,
)
    requires
        call_ensures(upgrade_packet, (token, message), packet),
    ensures
        packet is Input <==> message.v.data is Input,
        packet is Timestamp <==> message.v.data is Timestamp,
        packet matches Packet::Input { inner, src } ==> inner == message.v && src.token == token
            && src.tag == message.tag,
        packet matches Packet::Timestamp { link, src, timestamp } ==> link is None && timestamp
            == message.v && src.token == token && src.tag == message.tag,
        packet == upgraded(token, message.tag, message.v),
{
}

/// What a payload of each kind is upgraded to, whatever it holds.
pub proof fn the_payload_decides_the_kind(token: u64, tag: u32, body: Vec<u8>)
    ensures
        upgraded(token, tag, PacketData { data: PacketPayload::Input(body) }) == (Packet::Input {
            inner: PacketData { data: PacketPayload::Input(body) },
            src: SourceChannelIdentifier { token, tag },
        }),
        upgraded(token, tag, PacketData { data: PacketPayload::Timestamp(body) }) == (
        Packet::Timestamp {
            link: None,
            src: SourceChannelIdentifier { token, tag },
            timestamp: PacketData { data: PacketPayload::Timestamp(body) },
        }),
{
}

/// What comes over different connections, or with different tags over one, has different sources.
pub proof fn sources_are_told_apart(
    token: u64,
    tag: u32,
    input: PacketData,
    other_token: u64,
    other_tag: u32,
    other_input: PacketData,
)
    requires
        upgraded(token, tag, input) == upgraded(other_token, other_tag, other_input),
    ensures
        token == other_token,
        tag == other_tag,
        input == other_input,
{
}

/// A connection is established exactly if its first byte could be read, and its first byte alone
/// says what it is: it is upgraded if that byte marks a base node, and buffered, two mebibytes for
/// reading and four kibibytes for writing, if it does not. It gets the token that the counter
/// stands at, and the counter moves on by one. A connection that failed draws no token.
pub proof fn connections_are_told_by_their_first_byte<E>(
    first_byte: Result<u8, E>,
    from_base: u8,
    counter: &mut u64,
    established: Result<(u64, Upgrade), E>,
)
    requires
        call_ensures(
            handle_new_connection::<E>,
            (first_byte, from_base, counter),
            established,
        ),
    ensures
        established is Ok <==> first_byte is Ok,
        first_byte matches Err(error) ==> established == Err::<(u64, Upgrade), E>(error)
            && *final(counter) == *old(counter),
        established matches Ok((token, upgrade)) ==> {
            &&& token == *old(counter)
            &&& upgrade is FromBase <==> first_byte == Ok::<u8, E>(from_base)
            &&& upgrade matches Upgrade::FromDomain { read_capacity, write_capacity }
                ==> read_capacity == 2 * 1024 * 1024 && write_capacity == 4 * 1024
            &&& token < u64::MAX ==> *final(counter) == token + 1
            &&& token == u64::MAX ==> *final(counter) == 0
        },
{
}

} // verus!
