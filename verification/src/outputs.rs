//! The connections over which packets are delivered.
use ahash::{AHashMap, RandomState};
use vstd::prelude::*;

use crate::ahash_map::AddressKey;
use crate::packet::{ConnectionId, ReplicaAddress};

verus! {

/// What a map of connections holds: the number of a connection by the key of the replica that it
/// leads to.
pub uninterp spec fn connection_map(
    map: AHashMap<(usize, usize, usize), u64, RandomState>,
) -> Map<(usize, usize, usize), u64>;

/// [`AHashMap::default`]: a map without entries.
#[verifier::external_body]
fn connection_map_default() -> (map: AHashMap<AddressKey, ConnectionId>)
    ensures
        connection_map(map).is_empty(),
{
    AHashMap::default()
}

/// [`AHashMap::get`]: the connection that the key maps to, if any.
#[verifier::external_body]
fn connection_map_get(map: &AHashMap<AddressKey, ConnectionId>, key: &AddressKey) -> (connection:
    Option<ConnectionId>)
    ensures
        connection == if connection_map(*map).contains_key(*key) {
            Some(connection_map(*map)[*key])
        } else {
            None
        },
{
    map.get(key).copied()
}

/// [`AHashMap::insert`]: the key then maps to the given connection and every other key to what it
/// did. Returns the connection that the key had before, if any.
#[verifier::external_body]
fn connection_map_insert(
    map: &mut AHashMap<AddressKey, ConnectionId>,
    key: AddressKey,
    connection: ConnectionId,
) -> (before: Option<ConnectionId>)
    ensures
        connection_map(*final(map)) == connection_map(*old(map)).insert(key, connection),
        before == if connection_map(*old(map)).contains_key(key) {
            Some(connection_map(*old(map))[key])
        } else {
            None
        },
{
    map.insert(key, connection)
}

/// [`AHashMap::remove`]: the key is then without an entry and every other key maps to what it did.
/// Returns the connection that the key had, if any.
#[verifier::external_body]
fn connection_map_remove(map: &mut AHashMap<AddressKey, ConnectionId>, key: &AddressKey) -> (before:
    Option<ConnectionId>)
    ensures
        connection_map(*final(map)) == connection_map(*old(map)).remove(*key),
        before == if connection_map(*old(map)).contains_key(*key) {
            Some(connection_map(*old(map))[*key])
        } else {
            None
        },
{
    map.remove(key)
}

/// `clear` of the `HashMap` that an [`AHashMap`] dereferences to: leaves a map without entries.
#[verifier::external_body]
fn connection_map_clear(map: &mut AHashMap<AddressKey, ConnectionId>)
    ensures
        connection_map(*final(map)).is_empty(),
{
    map.clear()
}

/// A change to the socket addresses of replicas, as its broadcast tells of it.
#[derive(Clone, Copy, Debug, PartialEq, Eq, Structural)]
pub enum ChannelChange {
    /// The socket address of this replica has changed.
    Replica(ReplicaAddress),
    /// Changes were missed, of any replicas.
    Lagged,
}

/// A cache of established connections to the replicas that packets are delivered to.
pub struct Outputs {
    connections: AHashMap<AddressKey, ConnectionId>,
}

/// The connection to `address`, if one is cached.
pub open spec fn connection_to(
    outputs: Map<ReplicaAddress, ConnectionId>,
    address: ReplicaAddress,
) -> Option<ConnectionId> {
    if outputs.contains_key(address) {
        Some(outputs[address])
    } else {
        None
    }
}

/// The connections that are still valid after `change`: a connection leads to the socket address
/// that the replica had when it was established.
pub open spec fn after_change(
    outputs: Map<ReplicaAddress, ConnectionId>,
    change: ChannelChange,
) -> Map<ReplicaAddress, ConnectionId> {
    match change {
        ChannelChange::Replica(address) => outputs.remove(address),
        ChannelChange::Lagged => Map::empty(),
    }
}

/// Which connections [`Outputs::apply_change`] gave up.
#[derive(Clone, Copy, Debug, PartialEq, Eq, Structural)]
pub enum GivenUp {
    /// This one, if any.
    One(Option<ConnectionId>),
    /// All of them.
    All,
}

impl View for Outputs {
    type V = Map<ReplicaAddress, ConnectionId>;

    closed spec fn view(&self) -> Map<ReplicaAddress, ConnectionId> {
        Map::new(
            |address: ReplicaAddress|
                connection_map(self.connections).contains_key(address.as_key()),
            |address: ReplicaAddress| connection_map(self.connections)[address.as_key()],
        )
    }
}

impl Outputs {
    /// A cache without connections.
    pub fn new() -> (outputs: Self)
        ensures
            outputs@.is_empty(),
    {
        let outputs = Outputs { connections: connection_map_default() };
        assert(outputs@.dom() =~= Set::empty());
        outputs
    }

    /// The connection to `address`, if one is cached.
    pub fn get(&self, address: &ReplicaAddress) -> (connection: Option<ConnectionId>)
        ensures
            connection == connection_to(self@, *address),
    {
        connection_map_get(&self.connections, &address.to_key())
    }

    /// Caches `connection` as the one to `address`.
    pub fn insert(&mut self, address: ReplicaAddress, connection: ConnectionId)
        ensures
            final(self)@ == old(self)@.insert(address, connection),
    {
        connection_map_insert(&mut self.connections, address.to_key(), connection);
        proof {
            assert forall|a: ReplicaAddress| a.as_key() == address.as_key() implies a
                == address by {}
            assert(self@ =~= old(self)@.insert(address, connection));
        }
    }

    /// Forgets the connection to `address`, and tells which one that was.
    pub fn remove(&mut self, address: &ReplicaAddress) -> (connection: Option<ConnectionId>)
        ensures
            final(self)@ == old(self)@.remove(*address),
            connection == connection_to(old(self)@, *address),
    {
        let connection = connection_map_remove(&mut self.connections, &address.to_key());
        proof {
            assert forall|a: ReplicaAddress| a.as_key() == address.as_key() implies a
                == *address by {}
            assert(self@ =~= old(self)@.remove(*address));
        }
        connection
    }

    /// Forgets all connections.
    pub fn clear(&mut self)
        ensures
            final(self)@.is_empty(),
    {
        connection_map_clear(&mut self.connections);
        assert(self@.dom() =~= Set::empty());
    }

    /// Forgets the connections that `change` makes invalid, so that the next packets for those
    /// replicas go over new ones, and tells which connections those are.
    pub fn apply_change(&mut self, change: ChannelChange) -> (given_up: GivenUp)
        ensures
            final(self)@ == after_change(old(self)@, change),
            given_up == match change {
                ChannelChange::Replica(address) => GivenUp::One(connection_to(old(self)@, address)),
                ChannelChange::Lagged => GivenUp::All,
            },
    {
        match change {
            ChannelChange::Replica(address) => GivenUp::One(self.remove(&address)),
            ChannelChange::Lagged => {
                self.clear();
                GivenUp::All
            },
        }
    }
}

/// The cache answers with the connection that is cached for the very address that was asked for,
/// and with none if there is none.
pub proof fn the_cache_answers_by_address(
    outputs: &Outputs,
    address: &ReplicaAddress,
    connection: Option<ConnectionId>,
)
    requires
        call_ensures(Outputs::get, (outputs, address), connection),
    ensures
        connection is Some <==> outputs@.dom().contains(*address),
        connection matches Some(c) ==> c == outputs@[*address],
{
}

/// Caching a connection concerns the address that it leads to, and no other.
pub proof fn caching_concerns_one_address(
    outputs: &mut Outputs,
    address: ReplicaAddress,
    connection: ConnectionId,
    done: (),
)
    requires
        call_ensures(Outputs::insert, (outputs, address, connection), done),
    ensures
        final(outputs)@.dom().contains(address),
        final(outputs)@[address] == connection,
        forall|a: ReplicaAddress|
            a != address ==> (#[trigger] final(outputs)@.dom().contains(a) <==> old(
                outputs,
            )@.dom().contains(a)) && (old(outputs)@.dom().contains(a) ==> final(outputs)@[a]
                == old(outputs)@[a]),
{
}

/// Forgetting a connection concerns the address that it leads to, and no other; it is told which
/// connection that was.
pub proof fn forgetting_concerns_one_address(
    outputs: &mut Outputs,
    address: &ReplicaAddress,
    connection: Option<ConnectionId>,
)
    requires
        call_ensures(Outputs::remove, (outputs, address), connection),
    ensures
        !final(outputs)@.dom().contains(*address),
        connection is Some <==> old(outputs)@.dom().contains(*address),
        connection matches Some(c) ==> c == old(outputs)@[*address],
        forall|a: ReplicaAddress|
            a != *address ==> (#[trigger] final(outputs)@.dom().contains(a) <==> old(
                outputs,
            )@.dom().contains(a)) && (old(outputs)@.dom().contains(a) ==> final(outputs)@[a]
                == old(outputs)@[a]),
{
}

/// After the change of one replica just the connection to that replica is gone, and it is told
/// which one that was; after changes were missed all connections are.
pub proof fn changed_replicas_are_reconnected_to(
    outputs: &mut Outputs,
    change: ChannelChange,
    given_up: GivenUp,
)
    requires
        call_ensures(Outputs::apply_change, (outputs, change), given_up),
    ensures
        forall|a: ReplicaAddress| #[trigger]
            final(outputs)@.dom().contains(a) <==> old(outputs)@.dom().contains(a) && change
                != ChannelChange::Lagged && change != ChannelChange::Replica(a),
        forall|a: ReplicaAddress| #[trigger]
            final(outputs)@.dom().contains(a) ==> final(outputs)@[a] == old(outputs)@[a],
        given_up is All <==> change is Lagged,
        change matches ChannelChange::Replica(address) ==> given_up == GivenUp::One(
            if old(outputs)@.dom().contains(address) {
                Some(old(outputs)@[address])
            } else {
                None
            },
        ),
{
}

} // verus!
