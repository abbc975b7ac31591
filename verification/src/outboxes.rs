//! Packets that wait to be delivered to other domains.
use std::collections::VecDeque;

use ahash::{AHashMap, RandomState};
use vstd::prelude::*;

use crate::ahash_map::AddressKey;
use crate::packet::{Packet, ReplicaAddress};

verus! {

/// What a map of packet queues holds: the packets of each queue, in their order, by the key of the
/// queue.
pub uninterp spec fn queue_map(
    map: AHashMap<(usize, usize, usize), VecDeque<Packet>, RandomState>,
) -> Map<(usize, usize, usize), Seq<Packet>>;

/// [`AHashMap::default`]: a map without entries.
#[verifier::external_body]
fn queue_map_default() -> (map: AHashMap<AddressKey, VecDeque<Packet>>)
    ensures
        queue_map(map).is_empty(),
{
    AHashMap::default()
}

/// [`AHashMap::insert`]: the key then maps to the given queue and every other key to what it did.
/// Returns the queue that the key had before, if any.
#[verifier::external_body]
fn queue_map_insert(
    map: &mut AHashMap<AddressKey, VecDeque<Packet>>,
    key: AddressKey,
    queue: VecDeque<Packet>,
) -> (before: Option<VecDeque<Packet>>)
    ensures
        queue_map(*final(map)) == queue_map(*old(map)).insert(key, queue@),
        before is Some <==> queue_map(*old(map)).contains_key(key),
        before matches Some(b) ==> b@ == queue_map(*old(map))[key],
{
    map.insert(key, queue)
}

/// [`AHashMap::remove`]: the key is then without an entry and every other key maps to what it did.
/// Returns the queue that the key had, if any.
#[verifier::external_body]
fn queue_map_remove(
    map: &mut AHashMap<AddressKey, VecDeque<Packet>>,
    key: &AddressKey,
) -> (queue: Option<VecDeque<Packet>>)
    ensures
        queue_map(*final(map)) == queue_map(*old(map)).remove(*key),
        queue is Some <==> queue_map(*old(map)).contains_key(*key),
        queue matches Some(q) ==> q@ == queue_map(*old(map))[*key],
{
    map.remove(key)
}

/// `is_empty` of the `HashMap` that an [`AHashMap`] dereferences to: whether there is no entry.
#[verifier::external_body]
fn queue_map_is_empty(map: &AHashMap<AddressKey, VecDeque<Packet>>) -> (empty: bool)
    ensures
        empty == queue_map(*map).is_empty(),
{
    map.is_empty()
}

/// `drain` of the `HashMap` that an [`AHashMap`] dereferences to, collected: hands out every entry
/// once, in an order that is left open, and leaves a map without entries.
#[verifier::external_body]
fn queue_map_drain(map: &mut AHashMap<AddressKey, VecDeque<Packet>>) -> (entries: Vec<
    (AddressKey, VecDeque<Packet>),
>)
    ensures
        queue_map(*final(map)).is_empty(),
        forall|i: int, j: int|
            0 <= i < j < entries@.len() ==> (#[trigger] entries@[i]).0 != (
            #[trigger] entries@[j]).0,
        forall|i: int|
            0 <= i < entries@.len() ==> queue_map(*old(map)).contains_key(
                (#[trigger] entries@[i]).0,
            ) && entries@[i].1@ == queue_map(*old(map))[entries@[i].0],
        forall|key: (usize, usize, usize)| #[trigger]
            queue_map(*old(map)).contains_key(key) ==> exists|i: int|
                0 <= i < entries@.len() && (#[trigger] entries@[i]).0 == key,
{
    map.drain().collect()
}

/// Stores pending outgoing packets, by the replica that they are for.
pub struct Outboxes {
    /// Packets for other domains.
    domains: AHashMap<AddressKey, VecDeque<Packet>>,
}

/// Whether `batches` holds each queue of `boxes` once, under its destination, and nothing else.
pub open spec fn are_batches_of(
    batches: Seq<(ReplicaAddress, VecDeque<Packet>)>,
    boxes: Map<ReplicaAddress, Seq<Packet>>,
) -> bool {
    &&& forall|i: int, j: int|
        0 <= i < j < batches.len() ==> (#[trigger] batches[i]).0 != (#[trigger] batches[j]).0
    &&& forall|i: int|
        0 <= i < batches.len() ==> boxes.contains_key((#[trigger] batches[i]).0)
            && batches[i].1@ == boxes[batches[i].0]
    &&& forall|dest: ReplicaAddress| #[trigger]
        boxes.contains_key(dest) ==> exists|i: int|
            0 <= i < batches.len() && (#[trigger] batches[i]).0 == dest
}

/// The packets for `dest`, oldest first.
pub open spec fn queue_for(
    boxes: Map<ReplicaAddress, Seq<Packet>>,
    dest: ReplicaAddress,
) -> Seq<Packet> {
    if boxes.contains_key(dest) {
        boxes[dest]
    } else {
        Seq::empty()
    }
}

/// The outboxes after `packet` was sent to `dest`.
pub open spec fn with_packet(
    boxes: Map<ReplicaAddress, Seq<Packet>>,
    dest: ReplicaAddress,
    packet: Packet,
) -> Map<ReplicaAddress, Seq<Packet>> {
    boxes.insert(dest, queue_for(boxes, dest).push(packet))
}

impl View for Outboxes {
    type V = Map<ReplicaAddress, Seq<Packet>>;

    closed spec fn view(&self) -> Map<ReplicaAddress, Seq<Packet>> {
        Map::new(
            |dest: ReplicaAddress| queue_map(self.domains).contains_key(dest.as_key()),
            |dest: ReplicaAddress| queue_map(self.domains)[dest.as_key()],
        )
    }
}

impl Outboxes {
    /// Outboxes that hold no packet.
    pub fn new() -> (boxes: Self)
        ensures
            boxes@.is_empty(),
    {
        let boxes = Outboxes { domains: queue_map_default() };
        assert(boxes@.dom() =~= Set::empty());
        boxes
    }

    /// Puts `m` behind the packets that wait for `dest`.
    pub fn send(&mut self, dest: ReplicaAddress, m: Packet)
        ensures
            final(self)@ == with_packet(old(self)@, dest, m),
    {
        let key = dest.to_key();
        let mut queue = match queue_map_remove(&mut self.domains, &key) {
            Some(queue) => queue,
            None => VecDeque::new(),
        };
        queue.push_back(m);
        queue_map_insert(&mut self.domains, key, queue);
        proof {
            assert(queue@ =~= queue_for(old(self)@, dest).push(m));
            assert forall|a: ReplicaAddress| a.as_key() == key implies a == dest by {}
            assert(self@ =~= with_packet(old(self)@, dest, m));
        }
    }

    /// Whether no packet waits.
    pub fn is_empty(&self) -> (empty: bool)
        ensures
            empty == self@.is_empty(),
    {
        let empty = queue_map_is_empty(&self.domains);
        proof {
            let keys = queue_map(self.domains);
            if self@.is_empty() {
                assert forall|key: AddressKey| !keys.contains_key(key) by {
                    let dest = ReplicaAddress::of_key(key);
                    assert(dest.as_key() == key);
                    assert(!self@.contains_key(dest));
                }
                assert(keys.dom() =~= Set::empty());
            } else if keys.is_empty() {
                assert(self@.dom() =~= Set::empty());
            }
        }
        empty
    }

    /// Takes all packets out, as one batch for each destination. The order of the batches is open.
    pub fn take_batches(&mut self) -> (batches: Vec<(ReplicaAddress, VecDeque<Packet>)>)
        ensures
            final(self)@.is_empty(),
            are_batches_of(batches@, old(self)@),
    {
        let mut entries = queue_map_drain(&mut self.domains);
        let ghost all = entries@;
        let mut batches: Vec<(ReplicaAddress, VecDeque<Packet>)> = Vec::new();
        while entries.len() > 0
            invariant
                entries@ == all.take(entries@.len() as int),
                entries@.len() + batches@.len() == all.len(),
                entries@.len() <= all.len(),
                forall|i: int|
                    0 <= i < batches@.len() ==> (#[trigger] batches@[i]).0.as_key() == all[all.len()
                        - 1 - i].0 && batches@[i].1 == all[all.len() - 1 - i].1,
            decreases entries@.len(),
        {
            if let Some((key, queue)) = entries.pop() {
                batches.push((ReplicaAddress::from_key(key), queue));
            }
        }
        proof {
            assert forall|i: int, j: int| 0 <= i < j < batches@.len() implies (
            #[trigger] batches@[i]).0 != (#[trigger] batches@[j]).0 by {
                assert(all[all.len() - 1 - j].0 != all[all.len() - 1 - i].0);
            }
            assert forall|dest: ReplicaAddress| #[trigger]
                old(self)@.contains_key(dest) implies exists|i: int|
                0 <= i < batches@.len() && (#[trigger] batches@[i]).0 == dest by {
                assert(queue_map(old(self).domains).contains_key(dest.as_key()));
                let i = choose|i: int| 0 <= i < all.len() && (#[trigger] all[i]).0 == dest.as_key();
                let j = all.len() - 1 - i;
                assert(batches@[j].0.as_key() == dest.as_key());
                assert(batches@[j].0 == dest);
            }
            assert(self@.dom() =~= Set::empty());
        }
        batches
    }
}

/// The outboxes after some packets were sent, each to its destination, one after the other.
pub open spec fn with_packets(
    boxes: Map<ReplicaAddress, Seq<Packet>>,
    sent: Seq<(ReplicaAddress, Packet)>,
) -> Map<ReplicaAddress, Seq<Packet>>
    decreases sent.len(),
{
    if sent.len() == 0 {
        boxes
    } else {
        with_packet(with_packets(boxes, sent.drop_last()), sent.last().0, sent.last().1)
    }
}

/// The packets among `sent` that were sent to `dest`, in their order.
pub open spec fn sent_to(sent: Seq<(ReplicaAddress, Packet)>, dest: ReplicaAddress) -> Seq<Packet> {
    sent.filter_map(
        |s: (ReplicaAddress, Packet)|
            if s.0 == dest {
                Some(s.1)
            } else {
                None
            },
    )
}

/// Every destination gets the packets that were sent to it, all of them, no others, and in the
/// order in which they were sent.
pub proof fn packets_wait_in_order(
    boxes: Map<ReplicaAddress, Seq<Packet>>,
    sent: Seq<(ReplicaAddress, Packet)>,
    dest: ReplicaAddress,
)
    ensures
        queue_for(with_packets(boxes, sent), dest) == queue_for(boxes, dest) + sent_to(sent, dest),
    decreases sent.len(),
{
    if sent.len() > 0 {
        packets_wait_in_order(boxes, sent.drop_last(), dest);
        assert(queue_for(with_packets(boxes, sent), dest) =~= queue_for(boxes, dest) + sent_to(
            sent,
            dest,
        ));
    } else {
        assert(queue_for(boxes, dest) =~= queue_for(boxes, dest) + sent_to(sent, dest));
    }
}

/// Only destinations that packets wait for have a queue: none is empty.
pub open spec fn no_empty_queue(boxes: Map<ReplicaAddress, Seq<Packet>>) -> bool {
    forall|dest: ReplicaAddress| #[trigger] boxes.contains_key(dest) ==> boxes[dest].len() > 0
}

/// New outboxes have no empty queue, and neither have they after packets were sent; so each batch
/// that is taken out holds a packet.
pub proof fn batches_are_not_empty(
    boxes: Map<ReplicaAddress, Seq<Packet>>,
    sent: Seq<(ReplicaAddress, Packet)>,
    batches: Seq<(ReplicaAddress, VecDeque<Packet>)>,
)
    requires
        boxes.is_empty() || no_empty_queue(boxes),
        are_batches_of(batches, with_packets(boxes, sent)),
    ensures
        no_empty_queue(with_packets(boxes, sent)),
        forall|i: int| 0 <= i < batches.len() ==> (#[trigger] batches[i]).1@.len() > 0,
{
    lemma_no_empty_queue(boxes, sent);
}

/// Sending packets leaves no queue empty.
proof fn lemma_no_empty_queue(
    boxes: Map<ReplicaAddress, Seq<Packet>>,
    sent: Seq<(ReplicaAddress, Packet)>,
)
    requires
        boxes.is_empty() || no_empty_queue(boxes),
    ensures
        no_empty_queue(with_packets(boxes, sent)),
    decreases sent.len(),
{
    if sent.len() > 0 {
        lemma_no_empty_queue(boxes, sent.drop_last());
    }
}

/// The packets that wait for a destination are all in one batch, in their order.
pub proof fn batches_hold_all_packets(
    batches: Seq<(ReplicaAddress, VecDeque<Packet>)>,
    boxes: Map<ReplicaAddress, Seq<Packet>>,
    dest: ReplicaAddress,
)
    requires
        are_batches_of(batches, boxes),
        queue_for(boxes, dest).len() > 0,
    ensures
        exists|i: int|
            0 <= i < batches.len() && (#[trigger] batches[i]).0 == dest && batches[i].1@
                == queue_for(boxes, dest) && forall|j: int|
                0 <= j < batches.len() && j != i ==> (#[trigger] batches[j]).0 != dest,
{
    let i = choose|i: int| 0 <= i < batches.len() && (#[trigger] batches[i]).0 == dest;
    assert forall|j: int| 0 <= j < batches.len() && j != i implies (#[trigger] batches[j]).0
        != dest by {
        if j < i {
            assert(batches[j].0 != batches[i].0);
        } else {
            assert(batches[i].0 != batches[j].0);
        }
    }
    assert(batches[i].0 == dest);
}

/// A packet that is sent is the last of those that wait for its destination, behind all that waited
/// before; no other destination gets or loses a packet.
pub proof fn a_packet_waits_behind_those_before_it(
    boxes: &mut Outboxes,
    dest: ReplicaAddress,
    m: Packet,
    sent: (),
)
    requires
        call_ensures(Outboxes::send, (boxes, dest, m), sent),
    ensures
        final(boxes)@.dom() == old(boxes)@.dom().insert(dest),
        final(boxes)@[dest].last() == m,
        final(boxes)@[dest].drop_last() == if old(boxes)@.dom().contains(dest) {
            old(boxes)@[dest]
        } else {
            Seq::empty()
        },
        forall|a: ReplicaAddress|
            a != dest && #[trigger] old(boxes)@.dom().contains(a) ==> final(boxes)@[a] == old(
                boxes,
            )@[a],
{
    let queue = final(boxes)@[dest];
    assert(queue.drop_last() =~= queue_for(old(boxes)@, dest));
}

/// Outboxes are empty exactly if no packet waits for any destination.
pub proof fn empty_outboxes_have_no_destination(boxes: &Outboxes, empty: bool)
    requires
        call_ensures(Outboxes::is_empty, (boxes,), empty),
    ensures
        empty <==> forall|dest: ReplicaAddress| !#[trigger] boxes@.dom().contains(dest),
{
    if forall|dest: ReplicaAddress| !#[trigger] boxes@.dom().contains(dest) {
        assert(boxes@.dom() =~= Set::empty());
    }
}

/// What is taken out is all that waited, by destination and in its order, and nothing waits after
/// it: from the batches, the outboxes as they were can be told.
pub proof fn taking_batches_empties_the_outboxes(
    boxes: &mut Outboxes,
    batches: Vec<(ReplicaAddress, VecDeque<Packet>)>,
)
    requires
        call_ensures(Outboxes::take_batches, (boxes,), batches),
    ensures
        forall|dest: ReplicaAddress| !#[trigger] final(boxes)@.dom().contains(dest),
        forall|dest: ReplicaAddress| #[trigger]
            old(boxes)@.dom().contains(dest) <==> exists|i: int|
                0 <= i < batches@.len() && (#[trigger] batches@[i]).0 == dest,
        forall|i: int|
            0 <= i < batches@.len() ==> (#[trigger] batches@[i]).1@ == old(
                boxes,
            )@[batches@[i].0],
        forall|i: int, j: int|
            0 <= i < batches@.len() && 0 <= j < batches@.len() && (#[trigger] batches@[i]).0 == (
            #[trigger] batches@[j]).0 ==> i == j,
{
    assert forall|i: int, j: int|
        0 <= i < batches@.len() && 0 <= j < batches@.len() && (#[trigger] batches@[i]).0 == (
        #[trigger] batches@[j]).0 implies i == j by {
        if i < j {
            assert(batches@[i].0 != batches@[j].0);
        } else if j < i {
            assert(batches@[j].0 != batches@[i].0);
        }
    }
    assert forall|dest: ReplicaAddress|
        (exists|i: int| 0 <= i < batches@.len() && (#[trigger] batches@[i]).0 == dest) implies
        #[trigger] old(boxes)@.dom().contains(dest) by {
        let i = choose|i: int| 0 <= i < batches@.len() && (#[trigger] batches@[i]).0 == dest;
        assert(old(boxes)@.contains_key(batches@[i].0));
    }
}

} // verus!
