//! The hash map type of the `ahash` crate, and the key by which replica addresses are stored in it.
use vstd::prelude::*;

use crate::packet::ReplicaAddress;

verus! {

/// [`ahash::AHashMap`]: nothing is known of a value of it but what the operations on it say.
#[verifier::external_type_specification]
#[verifier::external_body]
#[verifier::reject_recursive_types(K)]
#[verifier::reject_recursive_types(V)]
#[verifier::reject_recursive_types(S)]
pub struct ExAHashMap<K, V, S>(ahash::AHashMap<K, V, S>);

/// [`ahash::RandomState`]: the hasher of such a map.
#[verifier::external_type_specification]
#[verifier::external_body]
pub struct ExRandomState(ahash::RandomState);

/// A replica address as a tuple: domain index, shard, replica.
pub type AddressKey = (usize, usize, usize);

impl ReplicaAddress {
    /// The tuple that stands for this address.
    pub open spec fn as_key(self) -> AddressKey {
        (self.domain_index, self.shard, self.replica)
    }

    /// The address that a tuple stands for.
    pub open spec fn of_key(key: AddressKey) -> ReplicaAddress {
        ReplicaAddress { domain_index: key.0, shard: key.1, replica: key.2 }
    }

    /// The tuple that stands for this address.
    pub(crate) fn to_key(&self) -> (key: AddressKey)
        ensures
            key == self.as_key(),
            ReplicaAddress::of_key(key) == *self,
    {
        (self.domain_index, self.shard, self.replica)
    }

    /// The address that a tuple stands for.
    pub(crate) fn from_key(key: AddressKey) -> (address: ReplicaAddress)
        ensures
            address == ReplicaAddress::of_key(key),
            address.as_key() == key,
    {
        ReplicaAddress { domain_index: key.0, shard: key.1, replica: key.2 }
    }
}

} // verus!
