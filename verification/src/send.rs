//! Delivering packets to other domains.
use std::collections::HashSet;
use std::collections::VecDeque;

use vstd::prelude::*;

use crate::outboxes::{are_batches_of, queue_for};
use crate::outputs::Outputs;
use crate::packet::{ConnectionId, Packet, ReplicaAddress, SocketId};

verus! {

broadcast use vstd::std_specs::hash::group_hash_axioms;

/// What happened to a sender.
pub enum SendEvent<E> {
    /// The socket address of the replica that was looked up, if it has one.
    Addr(Option<SocketId>),
    /// The connection was established, or could not be.
    Connected(Result<ConnectionId, E>),
    /// The message was fed to its connection, or (`false`) feeding it failed.
    Fed(bool),
    /// The connection was flushed, or (`false`) flushing it failed.
    Flushed(bool),
    /// The connection was dropped.
    Discarded,
    /// The channel was removed from the channel coordinator.
    Unregistered,
}

/// What a sender needs next.
pub enum SendAction<E> {
    /// Look up the socket address of a replica.
    Lookup(ReplicaAddress),
    /// Establish a connection to a replica.
    Connect(ReplicaAddress),
    /// Feed a message to a connection.
    Feed { connection: ConnectionId, message: Packet },
    /// Flush a connection.
    Flush { connection: ConnectionId },
    /// Drop a connection.
    Discard { connection: ConnectionId },
    /// Remove the channel of a replica from the local channel coordinator.
    Unregister(ReplicaAddress),
    /// Return.
    Return(Result<(), E>),
}

/// Where a sender is, and what it has left to send to the destination at hand.
enum Phase {
    Resolving { address: ReplicaAddress, messages: VecDeque<Packet> },
    Connecting { address: ReplicaAddress, messages: VecDeque<Packet> },
    Feeding { address: ReplicaAddress, connection: ConnectionId, messages: VecDeque<Packet> },
    Flushing { address: ReplicaAddress, connection: ConnectionId },
    Discarding { address: ReplicaAddress },
    Reporting { address: ReplicaAddress },
    Unregistering { address: ReplicaAddress },
    Finished,
}

/// Delivers batches of packets, one destination after the other.
pub struct Sender {
    rest: VecDeque<(ReplicaAddress, VecDeque<Packet>)>,
    phase: Phase,
}

/// Where a sender is.
pub enum SendPhase {
    /// Wants to know the socket address of a destination without a connection.
    Resolving { address: ReplicaAddress, messages: Seq<Packet> },
    /// Wants a connection to the destination.
    Connecting { address: ReplicaAddress, messages: Seq<Packet> },
    /// A message is being fed, and those in `messages` are to follow it.
    Feeding { address: ReplicaAddress, connection: ConnectionId, messages: Seq<Packet> },
    /// All messages were fed, and the connection is being flushed.
    Flushing { address: ReplicaAddress, connection: ConnectionId },
    /// The connection failed and is being dropped.
    Discarding { address: ReplicaAddress },
    /// Wants to know the socket address that failed.
    Reporting { address: ReplicaAddress },
    /// The failed destination is being removed from the channel coordinator.
    Unregistering { address: ReplicaAddress },
    /// Has returned.
    Finished,
}

/// A sender as it is specified: where it is, and the batches that it has not looked at yet.
pub struct SenderView {
    pub rest: Seq<(ReplicaAddress, Seq<Packet>)>,
    pub phase: SendPhase,
}

impl SenderView {
    /// A sender never asks for an address or a connection without a message to send.
    pub open spec fn well_formed(self) -> bool {
        match self.phase {
            SendPhase::Resolving { messages, .. } => messages.len() > 0,
            SendPhase::Connecting { messages, .. } => messages.len() > 0,
            _ => true,
        }
    }
}

/// A sender, with the connections and the failed addresses that it knows of.
pub struct SendState {
    pub sender: SenderView,
    pub outputs: Map<ReplicaAddress, ConnectionId>,
    pub failed: Set<SocketId>,
}

/// The batches with their packets as sequences.
pub open spec fn batch_views(batches: Seq<(ReplicaAddress, VecDeque<Packet>)>) -> Seq<
    (ReplicaAddress, Seq<Packet>),
> {
    batches.map_values(|batch: (ReplicaAddress, VecDeque<Packet>)| (batch.0, batch.1@))
}

impl Phase {
    spec fn view(self) -> SendPhase {
        match self {
            Phase::Resolving { address, messages } => SendPhase::Resolving {
                address,
                messages: messages@,
            },
            Phase::Connecting { address, messages } => SendPhase::Connecting {
                address,
                messages: messages@,
            },
            Phase::Feeding { address, connection, messages } => SendPhase::Feeding {
                address,
                connection,
                messages: messages@,
            },
            Phase::Flushing { address, connection } => SendPhase::Flushing { address, connection },
            Phase::Discarding { address } => SendPhase::Discarding { address },
            Phase::Reporting { address } => SendPhase::Reporting { address },
            Phase::Unregistering { address } => SendPhase::Unregistering { address },
            Phase::Finished => SendPhase::Finished,
        }
    }
}

impl View for Sender {
    type V = SenderView;

    closed spec fn view(&self) -> SenderView {
        SenderView { rest: batch_views(self.rest@), phase: self.phase.view() }
    }
}

/// Whether a sender in `phase` can be told of `event`: it is what its last action asked for.
pub open spec fn awaits_answer<E>(phase: SendPhase, event: SendEvent<E>) -> bool {
    match phase {
        SendPhase::Resolving { .. } => event is Addr,
        SendPhase::Connecting { .. } => event is Connected,
        SendPhase::Feeding { .. } => event is Fed,
        SendPhase::Flushing { .. } => event is Flushed,
        SendPhase::Discarding { .. } => event is Discarded,
        SendPhase::Reporting { .. } => event is Addr,
        SendPhase::Unregistering { .. } => event is Unregistered,
        SendPhase::Finished => false,
    }
}

/// Turns to the first of the batches that is not empty: feeds its first message if there is a
/// connection to its destination, and looks up the address of the destination otherwise. Returns
/// when there is no such batch.
pub open spec fn turn_to_next<E>(
    rest: Seq<(ReplicaAddress, Seq<Packet>)>,
    outputs: Map<ReplicaAddress, ConnectionId>,
) -> (SenderView, SendAction<E>)
    decreases rest.len(),
{
    if rest.len() == 0 {
        (SenderView { rest, phase: SendPhase::Finished }, SendAction::Return(Ok(())))
    } else {
        let (address, messages) = rest.first();
        if messages.len() == 0 {
            turn_to_next(rest.drop_first(), outputs)
        } else if outputs.contains_key(address) {
            feed_first(rest.drop_first(), address, outputs[address], messages)
        } else {
            (
                SenderView {
                    rest: rest.drop_first(),
                    phase: SendPhase::Resolving { address, messages },
                },
                SendAction::Lookup(address),
            )
        }
    }
}

/// Feeds the first of `messages`, with the others to follow.
pub open spec fn feed_first<E>(
    rest: Seq<(ReplicaAddress, Seq<Packet>)>,
    address: ReplicaAddress,
    connection: ConnectionId,
    messages: Seq<Packet>,
) -> (SenderView, SendAction<E>) {
    (
        SenderView {
            rest,
            phase: SendPhase::Feeding { address, connection, messages: messages.drop_first() },
        },
        SendAction::Feed { connection, message: messages.first() },
    )
}

/// What a sender does on `event`, and what then holds.
pub open spec fn send_step<E>(pre: SendState, event: SendEvent<E>) -> (SendState, SendAction<E>) {
    let SendState { sender, outputs, failed } = pre;
    let rest = sender.rest;
    match (sender.phase, event) {
        (SendPhase::Resolving { address, messages }, SendEvent::Addr(Some(socket))) => {
            if failed.contains(socket) {
                // The domain may have failed: its packets are dropped.
                let (sender, action) = turn_to_next(rest, outputs);
                (SendState { sender, outputs, failed }, action)
            } else {
                let phase = SendPhase::Connecting { address, messages };
                let sender = SenderView { rest, phase };
                (SendState { sender, outputs, failed }, SendAction::Connect(address))
            }
        },
        (SendPhase::Connecting { address, messages }, SendEvent::Connected(Ok(connection))) => {
            let outputs = outputs.insert(address, connection);
            let (sender, action) = feed_first(rest, address, connection, messages);
            (SendState { sender, outputs, failed }, action)
        },
        (SendPhase::Connecting { .. }, SendEvent::Connected(Err(error))) => {
            let sender = SenderView { rest: Seq::empty(), phase: SendPhase::Finished };
            (SendState { sender, outputs, failed }, SendAction::Return(Err(error)))
        },
        (SendPhase::Feeding { address, connection, messages }, SendEvent::Fed(true)) => {
            if messages.len() > 0 {
                let (sender, action) = feed_first(rest, address, connection, messages);
                (SendState { sender, outputs, failed }, action)
            } else {
                let phase = SendPhase::Flushing { address, connection };
                let sender = SenderView { rest, phase };
                (SendState { sender, outputs, failed }, SendAction::Flush { connection })
            }
        },
        (SendPhase::Feeding { address, connection, .. }, SendEvent::Fed(false)) => {
            give_up(pre, address, connection)
        },
        (SendPhase::Flushing { address, connection }, SendEvent::Flushed(false)) => {
            give_up(pre, address, connection)
        },
        (SendPhase::Discarding { address }, _) => {
            let sender = SenderView { rest, phase: SendPhase::Reporting { address } };
            (SendState { sender, outputs, failed }, SendAction::Lookup(address))
        },
        (SendPhase::Reporting { address }, SendEvent::Addr(Some(socket))) => {
            let sender = SenderView { rest, phase: SendPhase::Unregistering { address } };
            let failed = failed.insert(socket);
            (SendState { sender, outputs, failed }, SendAction::Unregister(address))
        },
        // The destination has no address, was served, or was given up: on to the next one.
        _ => {
            let (sender, action) = turn_to_next(rest, outputs);
            (SendState { sender, outputs, failed }, action)
        },
    }
}

/// Gives up a connection that failed, and the messages that were to follow over it.
pub open spec fn give_up<E>(
    pre: SendState,
    address: ReplicaAddress,
    connection: ConnectionId,
) -> (SendState, SendAction<E>) {
    (
        SendState {
            sender: SenderView {
                rest: pre.sender.rest,
                phase: SendPhase::Discarding { address },
            },
            outputs: pre.outputs.remove(address),
            failed: pre.failed,
        },
        SendAction::Discard { connection },
    )
}

/// Starts to deliver the batches, in their order.
pub fn send_packets<E>(
    to_send: Vec<(ReplicaAddress, VecDeque<Packet>)>,
    outputs: &Outputs,
) -> (started: (Sender, SendAction<E>))
    ensures
        (started.0@, started.1) == turn_to_next::<E>(batch_views(to_send@), outputs@),
        started.0@.well_formed(),
{
    let ghost all = to_send@;
    let mut to_send = to_send;
    let mut rest: VecDeque<(ReplicaAddress, VecDeque<Packet>)> = VecDeque::new();
    assert(to_send@ + rest@ =~= all);
    while to_send.len() > 0
        invariant
            to_send@ + rest@ == all,
        decreases to_send@.len(),
    {
        if let Some(batch) = to_send.pop() {
            rest.push_front(batch);
            assert(to_send@ + rest@ =~= all);
        }
    }
    assert(rest@ =~= all);
    let mut sender = Sender { rest, phase: Phase::Finished };
    let action = sender.turn(outputs);
    (sender, action)
}

impl Sender {
    /// Turns to the next batch that is not empty.
    fn turn<E>(&mut self, outputs: &Outputs) -> (action: SendAction<E>)
        ensures
            (final(self)@, action) == turn_to_next::<E>(old(self)@.rest, outputs@),
            final(self)@.well_formed(),
    {
        loop
            invariant
                turn_to_next::<E>(self@.rest, outputs@) == turn_to_next::<E>(
                    old(self)@.rest,
                    outputs@,
                ),
            decreases self.rest@.len(),
        {
            let ghost before = self@.rest;
            match self.rest.pop_front() {
                None => {
                    self.phase = Phase::Finished;
                    assert(self@.rest =~= before);
                    return SendAction::Return(Ok(()));
                },
                Some((address, messages)) => {
                    assert(self@.rest =~= before.drop_first());
                    assert(before.first() == (address, messages@));
                    if messages.len() > 0 {
                        return match outputs.get(&address) {
                            Some(connection) => self.feed(address, connection, messages),
                            None => {
                                self.phase = Phase::Resolving { address, messages };
                                SendAction::Lookup(address)
                            },
                        };
                    }
                },
            }
        }
    }

    /// Feeds the first message.
    fn feed<E>(
        &mut self,
        address: ReplicaAddress,
        connection: ConnectionId,
        messages: VecDeque<Packet>,
    ) -> (action: SendAction<E>)
        requires
            messages@.len() > 0,
        ensures
            (final(self)@, action) == feed_first::<E>(
                old(self)@.rest,
                address,
                connection,
                messages@,
            ),
    {
        let ghost all = messages@;
        let mut messages = messages;
        match messages.pop_front() {
            Some(message) => {
                assert(messages@ =~= all.drop_first());
                self.phase = Phase::Feeding { address, connection, messages };
                SendAction::Feed { connection, message }
            },
            // There is a first message.
            None => SendAction::Flush { connection },
        }
    }

    /// Gives up a connection that failed.
    fn give_up<E>(
        &mut self,
        outputs: &mut Outputs,
        address: ReplicaAddress,
        connection: ConnectionId,
    ) -> (action: SendAction<E>)
        ensures
            final(self)@ == (SenderView {
                rest: old(self)@.rest,
                phase: SendPhase::Discarding { address },
            }),
            final(outputs)@ == old(outputs)@.remove(address),
            action == (SendAction::<E>::Discard { connection }),
    {
        outputs.remove(&address);
        self.phase = Phase::Discarding { address };
        SendAction::Discard { connection }
    }

    /// Tells the sender what happened, and learns what it needs next.
    ///
    /// The messages of a batch are fed in their order to the connection to their destination,
    /// which is then flushed. A destination without a connection gets one, unless its address is
    /// unknown or has failed: then its messages are dropped. If feeding or flushing fails, the
    /// connection is given up with the messages that are left, the address of the destination
    /// counts as failed, and the channel of the destination is removed from the local channel
    /// coordinator.
    pub fn step<E>(
        &mut self,
        outputs: &mut Outputs,
        failed: &mut HashSet<SocketId>,
        event: SendEvent<E>,
    ) -> (action: SendAction<E>)
        requires
            awaits_answer(old(self)@.phase, event),
            old(self)@.well_formed(),
        ensures
            (
                SendState {
                    sender: final(self)@,
                    outputs: final(outputs)@,
                    failed: final(failed)@,
                },
                action,
            ) == send_step(
                SendState { sender: old(self)@, outputs: old(outputs)@, failed: old(failed)@ },
                event,
            ),
            final(self)@.well_formed(),
    {
        let mut phase = Phase::Finished;
        std::mem::swap(&mut phase, &mut self.phase);
        match (phase, event) {
            (Phase::Resolving { address, messages }, SendEvent::Addr(Some(socket))) => {
                if failed.contains(&socket) {
                    self.turn(outputs)
                } else {
                    self.phase = Phase::Connecting { address, messages };
                    SendAction::Connect(address)
                }
            },
            (Phase::Connecting { address, messages }, SendEvent::Connected(Ok(connection))) => {
                outputs.insert(address, connection);
                self.feed(address, connection, messages)
            },
            (Phase::Connecting { .. }, SendEvent::Connected(Err(error))) => {
                self.rest.clear();
                assert(self@.rest =~= Seq::empty());
                SendAction::Return(Err(error))
            },
            (Phase::Feeding { address, connection, messages }, SendEvent::Fed(true)) => {
                if messages.len() > 0 {
                    self.feed(address, connection, messages)
                } else {
                    self.phase = Phase::Flushing { address, connection };
                    SendAction::Flush { connection }
                }
            },
            (Phase::Feeding { address, connection, .. }, SendEvent::Fed(false)) => {
                self.give_up(outputs, address, connection)
            },
            (Phase::Flushing { address, connection }, SendEvent::Flushed(false)) => {
                self.give_up(outputs, address, connection)
            },
            (Phase::Discarding { address }, _) => {
                self.phase = Phase::Reporting { address };
                SendAction::Lookup(address)
            },
            (Phase::Reporting { address }, SendEvent::Addr(Some(socket))) => {
                failed.insert(socket);
                self.phase = Phase::Unregistering { address };
                SendAction::Unregister(address)
            },
            _ => self.turn(outputs),
        }
    }
}

/// The messages of all batches, one batch after the other.
pub open spec fn all_messages(rest: Seq<(ReplicaAddress, Seq<Packet>)>) -> Seq<Packet>
    decreases rest.len(),
{
    if rest.len() == 0 {
        Seq::empty()
    } else {
        rest.first().1 + all_messages(rest.drop_first())
    }
}

/// The messages for the destination at hand that are not fed yet.
pub open spec fn current_messages(phase: SendPhase) -> Seq<Packet> {
    match phase {
        SendPhase::Resolving { messages, .. } => messages,
        SendPhase::Connecting { messages, .. } => messages,
        SendPhase::Feeding { messages, .. } => messages,
        _ => Seq::empty(),
    }
}

/// The messages that a sender has not fed yet.
pub open spec fn unsent(sender: SenderView) -> Seq<Packet> {
    current_messages(sender.phase) + all_messages(sender.rest)
}

/// The message that an action feeds, if it feeds one.
pub open spec fn fed_by<E>(action: SendAction<E>) -> Seq<Packet> {
    match action {
        SendAction::Feed { message, .. } => seq![message],
        _ => Seq::empty(),
    }
}

/// The messages that are dropped when a sender is told of `event`: those for a destination that
/// has no address, or a failed one, those that were to follow over a connection that failed, and
/// all of them if a connection could not be established.
pub open spec fn dropped_on<E>(pre: SendState, event: SendEvent<E>) -> Seq<Packet> {
    match (pre.sender.phase, event) {
        (SendPhase::Resolving { messages, .. }, SendEvent::Addr(None)) => messages,
        (SendPhase::Resolving { messages, .. }, SendEvent::Addr(Some(socket))) => {
            if pre.failed.contains(socket) {
                messages
            } else {
                Seq::empty()
            }
        },
        (SendPhase::Connecting { .. }, SendEvent::Connected(Err(_))) => unsent(pre.sender),
        (SendPhase::Feeding { messages, .. }, SendEvent::Fed(false)) => messages,
        _ => Seq::empty(),
    }
}

/// Turning to the next batch loses no message and keeps their order.
proof fn lemma_turn_keeps_messages<E>(
    rest: Seq<(ReplicaAddress, Seq<Packet>)>,
    outputs: Map<ReplicaAddress, ConnectionId>,
)
    ensures
        ({
            let (sender, action) = turn_to_next::<E>(rest, outputs);
            all_messages(rest) == fed_by(action) + unsent(sender)
        }),
    decreases rest.len(),
{
    if rest.len() > 0 {
        let (address, messages) = rest.first();
        if messages.len() == 0 {
            lemma_turn_keeps_messages::<E>(rest.drop_first(), outputs);
            assert(all_messages(rest) =~= all_messages(rest.drop_first()));
        } else if outputs.contains_key(address) {
            assert(messages =~= seq![messages.first()] + messages.drop_first());
            let (sender, action) = turn_to_next::<E>(rest, outputs);
            assert(all_messages(rest) =~= fed_by(action) + unsent(sender));
        } else {
            let (sender, action) = turn_to_next::<E>(rest, outputs);
            assert(all_messages(rest) =~= fed_by(action) + unsent(sender));
        }
    } else {
        let (sender, action) = turn_to_next::<E>(rest, outputs);
        assert(all_messages(rest) =~= fed_by(action) + unsent(sender));
    }
}

/// With each step, what was unsent is what is dropped, then what is fed, then what is unsent after
/// it: messages are fed in the order of the batches, none twice, and none is lost but those that
/// [`dropped_on`] names.
pub proof fn messages_are_conserved<E>(pre: SendState, event: SendEvent<E>)
    requires
        awaits_answer(pre.sender.phase, event),
        pre.sender.well_formed(),
    ensures
        ({
            let (post, action) = send_step(pre, event);
            unsent(pre.sender) == dropped_on(pre, event) + fed_by(action) + unsent(post.sender)
        }),
{
    let (post, action) = send_step(pre, event);
    let rest = pre.sender.rest;
    lemma_turn_keeps_messages::<E>(rest, pre.outputs);
    match (pre.sender.phase, event) {
        (SendPhase::Connecting { messages, .. }, SendEvent::Connected(Ok(_))) => {
            assert(messages =~= seq![messages.first()] + messages.drop_first());
        },
        (SendPhase::Feeding { messages, .. }, SendEvent::Fed(true)) => {
            if messages.len() > 0 {
                assert(messages =~= seq![messages.first()] + messages.drop_first());
            }
        },
        _ => {},
    }
    assert(unsent(pre.sender) =~= dropped_on(pre, event) + fed_by(action) + unsent(post.sender));
}

/// Where a delivery of `batches` is after `events`, and the messages that were fed until then.
pub open spec fn send_run<E>(start: SendState, events: Seq<SendEvent<E>>) -> (
    SendState,
    Seq<Packet>,
)
    decreases events.len(),
{
    if events.len() == 0 {
        let (sender, action) = turn_to_next::<E>(start.sender.rest, start.outputs);
        (SendState { sender, ..start }, fed_by(action))
    } else {
        let (pre, fed) = send_run(start, events.drop_last());
        let (post, action) = send_step(pre, events.last());
        (post, fed + fed_by(action))
    }
}

/// Whether each of `events` is what the delivery asked for before it, and no message is dropped on
/// account of it.
pub open spec fn all_goes_well<E>(start: SendState, events: Seq<SendEvent<E>>) -> bool {
    forall|i: int|
        0 <= i < events.len() ==> {
            let pre = send_run(start, events.take(i)).0;
            awaits_answer(pre.sender.phase, #[trigger] events[i]) && dropped_on(pre, events[i])
                == Seq::<Packet>::empty()
        }
}

/// As long as all goes well, what was fed and what is unsent make up the batches, in their order;
/// so once the delivery has returned, every message of every batch was fed.
pub proof fn all_messages_are_fed<E>(start: SendState, events: Seq<SendEvent<E>>)
    requires
        all_goes_well(start, events),
    ensures
        ({
            let (post, fed) = send_run(start, events);
            &&& all_messages(start.sender.rest) == fed + unsent(post.sender)
            &&& post.sender.well_formed()
            &&& post.sender.phase is Finished ==> fed == all_messages(start.sender.rest)
        }),
    decreases events.len(),
{
    let (post, fed) = send_run(start, events);
    if events.len() == 0 {
        lemma_turn_keeps_messages::<E>(start.sender.rest, start.outputs);
        lemma_turn_is_well_formed::<E>(start.sender.rest, start.outputs);
    } else {
        let before = events.drop_last();
        assert forall|i: int| 0 <= i < before.len() implies {
            let pre = send_run(start, before.take(i)).0;
            awaits_answer(pre.sender.phase, #[trigger] before[i]) && dropped_on(pre, before[i])
                == Seq::<Packet>::empty()
        } by {
            assert(before.take(i) =~= events.take(i));
            assert(before[i] == events[i]);
        }
        all_messages_are_fed(start, before);
        let (pre, fed_before) = send_run(start, before);
        assert(events.take(events.len() - 1) =~= before);
        assert(awaits_answer(pre.sender.phase, events[events.len() - 1]));
        messages_are_conserved(pre, events.last());
        lemma_turn_is_well_formed::<E>(pre.sender.rest, pre.outputs);
        assert(all_messages(start.sender.rest) =~= fed + unsent(post.sender));
    }
    lemma_finished_has_nothing_left(start, events);
    if post.sender.phase is Finished {
        assert(unsent(post.sender) =~= Seq::empty());
    }
}

/// The messages of one batch are among those of all batches, in one piece.
proof fn lemma_batch_in_one_piece(rest: Seq<(ReplicaAddress, Seq<Packet>)>, i: int)
    requires
        0 <= i < rest.len(),
    ensures
        all_messages(rest) == all_messages(rest.take(i)) + rest[i].1 + all_messages(
            rest.skip(i + 1),
        ),
    decreases rest.len(),
{
    if i == 0 {
        assert(rest.take(0) =~= Seq::empty());
        assert(rest.skip(1) =~= rest.drop_first());
        assert(all_messages(rest) =~= all_messages(rest.take(i)) + rest[i].1 + all_messages(
            rest.skip(i + 1),
        ));
    } else {
        let tail = rest.drop_first();
        lemma_batch_in_one_piece(tail, i - 1);
        assert(rest.take(i).drop_first() =~= tail.take(i - 1));
        assert(rest.take(i).first() == rest.first());
        assert(rest.skip(i + 1) =~= tail.skip(i));
        assert(all_messages(rest) =~= all_messages(rest.take(i)) + rest[i].1 + all_messages(
            rest.skip(i + 1),
        ));
    }
}

/// When a delivery of all that was in the outboxes has returned and all went well, the packets that
/// waited for a destination were fed in one piece and in the order in which they were sent.
pub proof fn queues_are_fed_whole<E>(
    start: SendState,
    events: Seq<SendEvent<E>>,
    batches: Seq<(ReplicaAddress, VecDeque<Packet>)>,
    boxes: Map<ReplicaAddress, Seq<Packet>>,
    dest: ReplicaAddress,
)
    requires
        are_batches_of(batches, boxes),
        start.sender.rest == batch_views(batches),
        all_goes_well(start, events),
        send_run(start, events).0.sender.phase is Finished,
    ensures
        exists|before: Seq<Packet>, after: Seq<Packet>|
            send_run(start, events).1 == #[trigger] (before + queue_for(boxes, dest) + after),
{
    let fed = send_run(start, events).1;
    let rest = start.sender.rest;
    let none = Seq::<Packet>::empty();
    all_messages_are_fed(start, events);
    if boxes.contains_key(dest) {
        let i = choose|i: int| 0 <= i < batches.len() && (#[trigger] batches[i]).0 == dest;
        lemma_batch_in_one_piece(rest, i);
        assert(rest[i].1 == queue_for(boxes, dest));
        let before = all_messages(rest.take(i));
        let after = all_messages(rest.skip(i + 1));
        assert(fed == before + queue_for(boxes, dest) + after);
    } else {
        assert(fed =~= none + queue_for(boxes, dest) + fed);
    }
}

/// A sender that turned to the next batch is well formed, and has no batch left if it returns.
proof fn lemma_turn_is_well_formed<E>(
    rest: Seq<(ReplicaAddress, Seq<Packet>)>,
    outputs: Map<ReplicaAddress, ConnectionId>,
)
    ensures
        turn_to_next::<E>(rest, outputs).0.well_formed(),
        turn_to_next::<E>(rest, outputs).0.phase is Finished ==> turn_to_next::<E>(
            rest,
            outputs,
        ).0.rest.len() == 0,
    decreases rest.len(),
{
    if rest.len() > 0 && rest.first().1.len() == 0 {
        lemma_turn_is_well_formed::<E>(rest.drop_first(), outputs);
    }
}

/// A delivery that has returned has no batch left.
proof fn lemma_finished_has_nothing_left<E>(start: SendState, events: Seq<SendEvent<E>>)
    requires
        all_goes_well(start, events),
    ensures
        send_run(start, events).0.sender.phase is Finished ==> send_run(
            start,
            events,
        ).0.sender.rest.len() == 0,
{
    if events.len() == 0 {
        lemma_turn_is_well_formed::<E>(start.sender.rest, start.outputs);
    } else {
        let pre = send_run(start, events.drop_last()).0;
        assert(events.take(events.len() - 1) =~= events.drop_last());
        assert(awaits_answer(pre.sender.phase, events[events.len() - 1]));
        lemma_turn_is_well_formed::<E>(pre.sender.rest, pre.outputs);
    }
}

/// Whether the connection that a sender uses is the one that is cached for the destination.
pub open spec fn uses_cached_connection(state: SendState) -> bool {
    match state.sender.phase {
        SendPhase::Feeding { address, connection, .. } => {
            state.outputs.contains_key(address) && state.outputs[address] == connection
        },
        SendPhase::Flushing { address, connection } => {
            state.outputs.contains_key(address) && state.outputs[address] == connection
        },
        SendPhase::Discarding { address } => !state.outputs.contains_key(address),
        SendPhase::Reporting { address } => !state.outputs.contains_key(address),
        SendPhase::Unregistering { address } => !state.outputs.contains_key(address),
        _ => true,
    }
}

/// Whether what a sender feeds or flushes is the connection to the destination that it is at.
pub open spec fn concerns_current<E>(turn: (SenderView, SendAction<E>)) -> bool {
    match turn.1 {
        SendAction::Feed { connection, .. } => {
            turn.0.phase is Feeding && turn.0.phase->Feeding_connection == connection
        },
        SendAction::Flush { connection } => {
            turn.0.phase is Flushing && turn.0.phase->Flushing_connection == connection
        },
        _ => true,
    }
}

/// Turning to the next batch picks the cached connection.
proof fn lemma_turn_uses_cached_connection<E>(
    rest: Seq<(ReplicaAddress, Seq<Packet>)>,
    outputs: Map<ReplicaAddress, ConnectionId>,
    failed: Set<SocketId>,
)
    ensures
        uses_cached_connection(
            SendState { sender: turn_to_next::<E>(rest, outputs).0, outputs, failed },
        ),
        concerns_current(turn_to_next::<E>(rest, outputs)),
    decreases rest.len(),
{
    if rest.len() > 0 && rest.first().1.len() == 0 {
        lemma_turn_uses_cached_connection::<E>(rest.drop_first(), outputs, failed);
    }
}

/// A sender feeds and flushes only the connection that is cached for the destination, and a
/// connection that failed is no longer cached. This holds from the start of a delivery, and every
/// step keeps it.
pub proof fn cached_connections_are_used<E>(pre: SendState, event: SendEvent<E>)
    ensures
        uses_cached_connection(
            SendState {
                sender: turn_to_next::<E>(pre.sender.rest, pre.outputs).0,
                outputs: pre.outputs,
                failed: pre.failed,
            },
        ),
        uses_cached_connection(pre) && awaits_answer(pre.sender.phase, event)
            ==> uses_cached_connection(send_step(pre, event).0),
        concerns_current((send_step(pre, event).0.sender, send_step(pre, event).1)),
{
    lemma_turn_uses_cached_connection::<E>(pre.sender.rest, pre.outputs, pre.failed);
}

/// The channels that the channel coordinator knows of once an action was done.
pub open spec fn channels_after<E>(
    channels: Map<ReplicaAddress, SocketId>,
    action: SendAction<E>,
) -> Map<ReplicaAddress, SocketId> {
    match action {
        SendAction::Unregister(address) => channels.remove(address),
        _ => channels,
    }
}

/// The destination that a sender feeds or flushes a connection to.
pub open spec fn destination(phase: SendPhase) -> Option<(ReplicaAddress, ConnectionId)> {
    match phase {
        SendPhase::Feeding { address, connection, .. } => Some((address, connection)),
        SendPhase::Flushing { address, connection } => Some((address, connection)),
        _ => None,
    }
}

/// If feeding or flushing fails, the connection is dropped and no longer cached, the address that
/// the coordinator has for the destination is added to the failed ones, the channel of the
/// destination is removed from the coordinator, and its remaining packets are skipped: the sender
/// goes on with the next batch. No other channel is removed.
pub proof fn failed_destinations_are_unregistered<E>(
    pre: SendState,
    failure: SendEvent<E>,
    channels: Map<ReplicaAddress, SocketId>,
)
    requires
        awaits_answer(pre.sender.phase, failure),
        failure == SendEvent::<E>::Fed(false) || failure == SendEvent::<E>::Flushed(false),
        destination(pre.sender.phase) matches Some((address, _)) && channels.contains_key(address),
    ensures
        ({
            let (address, connection) = destination(pre.sender.phase)->0;
            let (dropping, drop) = send_step(pre, failure);
            let (reporting, lookup) = send_step(dropping, SendEvent::<E>::Discarded);
            let (removing, remove) = send_step(
                reporting,
                SendEvent::<E>::Addr(Some(channels[address])),
            );
            let (next, action) = send_step(removing, SendEvent::<E>::Unregistered);
            let channels_left = channels_after(
                channels_after(channels_after(channels, drop), lookup),
                remove,
            );
            &&& drop == SendAction::<E>::Discard { connection }
            &&& lookup == SendAction::<E>::Lookup(address)
            &&& remove == SendAction::<E>::Unregister(address)
            &&& next.outputs == pre.outputs.remove(address)
            &&& next.failed == pre.failed.insert(channels[address])
            &&& channels_left == channels.remove(address)
            &&& (next.sender, action) == turn_to_next::<E>(pre.sender.rest, next.outputs)
        }),
{
}

/// The channel of a destination is removed from the coordinator only when its address has just
/// been added to the failed ones.
pub proof fn only_failed_destinations_are_unregistered<E>(pre: SendState, event: SendEvent<E>)
    requires
        awaits_answer(pre.sender.phase, event),
    ensures
        send_step(pre, event).1 is Unregister <==> pre.sender.phase is Reporting
            && event->Addr_0 is Some,
        send_step(pre, event).1 is Unregister ==> {
            &&& send_step(pre, event).1 == SendAction::<E>::Unregister(
                pre.sender.phase->Reporting_address,
            )
            &&& send_step(pre, event).0.failed.contains(event->Addr_0->0)
        },
{
    lemma_turn_unregisters_nothing::<E>(pre.sender.rest, pre.outputs);
}

/// Where a delivery is after `events`, and the channels that the coordinator then knows of.
pub open spec fn coordinated_run<E>(
    start: SendState,
    channels: Map<ReplicaAddress, SocketId>,
    events: Seq<SendEvent<E>>,
) -> (SendState, Map<ReplicaAddress, SocketId>)
    decreases events.len(),
{
    if events.len() == 0 {
        let (sender, action) = turn_to_next::<E>(start.sender.rest, start.outputs);
        (SendState { sender, ..start }, channels_after(channels, action))
    } else {
        let (pre, known) = coordinated_run(start, channels, events.drop_last());
        let (post, action) = send_step(pre, events.last());
        (post, channels_after(known, action))
    }
}

/// Whether `event` answers a sender in `phase`, with the address that the coordinator knows if the
/// sender asked for one.
pub open spec fn answers_truly<E>(
    phase: SendPhase,
    channels: Map<ReplicaAddress, SocketId>,
    event: SendEvent<E>,
) -> bool {
    &&& awaits_answer(phase, event)
    &&& match (phase, event) {
        (SendPhase::Resolving { address, .. }, SendEvent::Addr(found)) => found == channel_of(
            channels,
            address,
        ),
        (SendPhase::Reporting { address }, SendEvent::Addr(found)) => found == channel_of(
            channels,
            address,
        ),
        _ => true,
    }
}

/// The socket address that the coordinator has for a replica.
pub open spec fn channel_of(
    channels: Map<ReplicaAddress, SocketId>,
    address: ReplicaAddress,
) -> Option<SocketId> {
    if channels.contains_key(address) {
        Some(channels[address])
    } else {
        None
    }
}

/// Whether each of `events` answers the delivery truly.
pub open spec fn is_coordinated<E>(
    start: SendState,
    channels: Map<ReplicaAddress, SocketId>,
    events: Seq<SendEvent<E>>,
) -> bool {
    forall|i: int|
        0 <= i < events.len() ==> {
            let (pre, known) = coordinated_run(start, channels, events.take(i));
            answers_truly(pre.sender.phase, known, #[trigger] events[i])
        }
}

/// When a delivery has returned in which feeding or flushing failed for a destination that the
/// coordinator had an address for, that address is among the failed ones, and the coordinator no
/// longer has a channel for the destination.
pub proof fn failures_outlast_the_delivery<E>(
    start: SendState,
    channels: Map<ReplicaAddress, SocketId>,
    events: Seq<SendEvent<E>>,
    i: int,
    address: ReplicaAddress,
    connection: ConnectionId,
    socket: SocketId,
)
    requires
        is_coordinated(start, channels, events),
        fails_at(start, channels, events, i, address, connection, socket),
        coordinated_run(start, channels, events).0.sender.phase is Finished,
    ensures
        coordinated_run(start, channels, events).0.failed.contains(socket),
        !coordinated_run(start, channels, events).1.contains_key(address),
{
    lemma_after_failure(start, channels, events, i, address, connection, socket);
}

/// Whether the event `i` is that feeding or flushing failed for the destination `address`, for
/// which the coordinator then has the address `socket`.
pub open spec fn fails_at<E>(
    start: SendState,
    channels: Map<ReplicaAddress, SocketId>,
    events: Seq<SendEvent<E>>,
    i: int,
    address: ReplicaAddress,
    connection: ConnectionId,
    socket: SocketId,
) -> bool {
    let (pre, known) = coordinated_run(start, channels, events.take(i));
    &&& 0 <= i < events.len()
    &&& events[i] == SendEvent::<E>::Fed(false) || events[i] == SendEvent::<E>::Flushed(false)
    &&& destination(pre.sender.phase) == Some((address, connection))
    &&& channel_of(known, address) == Some(socket)
}

/// How far a sender is with giving up the destination `address`, which the coordinator had the
/// address `socket` for when it failed: `steps` counts the steps since.
spec fn gives_up_in(
    steps: int,
    state: SendState,
    known: Map<ReplicaAddress, SocketId>,
    address: ReplicaAddress,
    socket: SocketId,
) -> bool {
    if steps == 1 {
        state.sender.phase == (SendPhase::Discarding { address }) && channel_of(known, address)
            == Some(socket)
    } else if steps == 2 {
        state.sender.phase == (SendPhase::Reporting { address }) && channel_of(known, address)
            == Some(socket)
    } else {
        state.failed.contains(socket) && !known.contains_key(address)
    }
}

/// Each step brings the sender further with giving up a destination.
proof fn lemma_gives_up_further<E>(
    steps: int,
    pre: SendState,
    known: Map<ReplicaAddress, SocketId>,
    event: SendEvent<E>,
    address: ReplicaAddress,
    socket: SocketId,
)
    requires
        steps >= 1,
        gives_up_in(steps, pre, known, address, socket),
        answers_truly(pre.sender.phase, known, event),
    ensures
        ({
            let (post, action) = send_step(pre, event);
            gives_up_in(steps + 1, post, channels_after(known, action), address, socket)
        }),
{
    if steps > 2 {
        failures_are_remembered(pre, event);
    }
}

/// All events but the last make up a shorter delivery of the same kind.
proof fn lemma_shorter_delivery<E>(
    start: SendState,
    channels: Map<ReplicaAddress, SocketId>,
    events: Seq<SendEvent<E>>,
)
    requires
        is_coordinated(start, channels, events),
        events.len() > 0,
    ensures
        is_coordinated(start, channels, events.drop_last()),
        ({
            let (pre, known) = coordinated_run(start, channels, events.drop_last());
            answers_truly(pre.sender.phase, known, events.last())
        }),
{
    let before = events.drop_last();
    assert(events.take(events.len() - 1) =~= before);
    assert(events.last() == events[events.len() - 1]);
    assert forall|j: int| 0 <= j < before.len() implies {
        let (state, then) = coordinated_run(start, channels, before.take(j));
        answers_truly(state.sender.phase, then, #[trigger] before[j])
    } by {
        assert(before.take(j) =~= events.take(j));
        assert(before[j] == events[j]);
    }
}

/// What holds after a failure, step by step.
proof fn lemma_after_failure<E>(
    start: SendState,
    channels: Map<ReplicaAddress, SocketId>,
    events: Seq<SendEvent<E>>,
    i: int,
    address: ReplicaAddress,
    connection: ConnectionId,
    socket: SocketId,
)
    requires
        is_coordinated(start, channels, events),
        fails_at(start, channels, events, i, address, connection, socket),
    ensures
        gives_up_in(
            events.len() - i,
            coordinated_run(start, channels, events).0,
            coordinated_run(start, channels, events).1,
            address,
            socket,
        ),
    decreases events.len(),
{
    let before = events.drop_last();
    let (pre, known) = coordinated_run(start, channels, before);
    lemma_shorter_delivery(start, channels, events);
    if events.len() == i + 1 {
        assert(events.take(i) =~= before);
        assert(events.last() == events[i]);
    } else {
        assert(before.take(i) =~= events.take(i));
        assert(before[i] == events[i]);
        lemma_after_failure(start, channels, before, i, address, connection, socket);
        lemma_gives_up_further(
            events.len() - 1 - i,
            pre,
            known,
            events.last(),
            address,
            socket,
        );
    }
}

/// Turning to the next batch removes no channel.
proof fn lemma_turn_unregisters_nothing<E>(
    rest: Seq<(ReplicaAddress, Seq<Packet>)>,
    outputs: Map<ReplicaAddress, ConnectionId>,
)
    ensures
        !(turn_to_next::<E>(rest, outputs).1 is Unregister),
    decreases rest.len(),
{
    if rest.len() > 0 && rest.first().1.len() == 0 {
        lemma_turn_unregisters_nothing::<E>(rest.drop_first(), outputs);
    }
}

/// A destination whose connection failed counts as failed by the address that it has then: as long
/// as it keeps that address no connection to it is established, and one is as soon as it has an
/// address that has not failed.
pub proof fn failed_destinations_are_skipped_until_repaired<E>(
    failing: SendState,
    socket: SocketId,
    later: SendState,
    found: SocketId,
)
    requires
        failing.sender.phase is Reporting,
        later.sender.phase is Resolving,
        send_step(failing, SendEvent::<E>::Addr(Some(socket))).0.failed.subset_of(later.failed),
    ensures
        send_step(later, SendEvent::<E>::Addr(Some(socket))) == ({
            let (sender, action) = turn_to_next::<E>(later.sender.rest, later.outputs);
            (SendState { sender, ..later }, action)
        }),
        !later.failed.contains(found) ==> send_step(later, SendEvent::<E>::Addr(Some(found))).1
            == SendAction::<E>::Connect(later.sender.phase->Resolving_address),
{
    assert(failing.failed.insert(socket).contains(socket));
}

/// Addresses that failed stay failed, whatever happens.
pub proof fn failures_are_remembered<E>(pre: SendState, event: SendEvent<E>)
    ensures
        pre.failed.subset_of(send_step(pre, event).0.failed),
{
}

/// How many steps a batch takes at most.
pub open spec fn steps_left_in(rest: Seq<(ReplicaAddress, Seq<Packet>)>) -> nat
    decreases rest.len(),
{
    if rest.len() == 0 {
        0
    } else {
        rest.first().1.len() + 7 + steps_left_in(rest.drop_first())
    }
}

/// How many steps a delivery takes at most.
pub open spec fn steps_left(sender: SenderView) -> nat {
    steps_left_in(sender.rest) + match sender.phase {
        SendPhase::Resolving { messages, .. } => messages.len() + 6,
        SendPhase::Connecting { messages, .. } => messages.len() + 5,
        SendPhase::Feeding { messages, .. } => messages.len() + 5,
        SendPhase::Flushing { .. } => 4,
        SendPhase::Discarding { .. } => 3,
        SendPhase::Reporting { .. } => 2,
        SendPhase::Unregistering { .. } => 1,
        SendPhase::Finished => 0,
    }
}

/// Turning to the next batch takes a step off that batch.
proof fn lemma_turn_takes_steps_off<E>(
    rest: Seq<(ReplicaAddress, Seq<Packet>)>,
    outputs: Map<ReplicaAddress, ConnectionId>,
)
    ensures
        steps_left(turn_to_next::<E>(rest, outputs).0) <= steps_left_in(rest),
    decreases rest.len(),
{
    if rest.len() > 0 && rest.first().1.len() == 0 {
        lemma_turn_takes_steps_off::<E>(rest.drop_first(), outputs);
    }
}

/// Every delivery returns: each step leaves fewer steps to take, whatever happens.
pub proof fn deliveries_return<E>(pre: SendState, event: SendEvent<E>)
    requires
        awaits_answer(pre.sender.phase, event),
        pre.sender.well_formed(),
    ensures
        steps_left(send_step(pre, event).0.sender) < steps_left(pre.sender),
{
    lemma_turn_takes_steps_off::<E>(pre.sender.rest, pre.outputs);
}

/// The first batch that is not empty is the one that is turned to.
proof fn lemma_first_batch_is_next<E>(
    rest: Seq<(ReplicaAddress, Seq<Packet>)>,
    outputs: Map<ReplicaAddress, ConnectionId>,
    k: int,
)
    requires
        0 <= k < rest.len(),
        rest[k].1.len() > 0,
        forall|j: int| 0 <= j < k ==> (#[trigger] rest[j]).1.len() == 0,
    ensures
        ({
            let (sender, action) = turn_to_next::<E>(rest, outputs);
            let (address, messages) = rest[k];
            &&& sender.rest == rest.skip(k + 1)
            &&& outputs.dom().contains(address) ==> {
                &&& action == SendAction::<E>::Feed {
                    connection: outputs[address],
                    message: messages[0],
                }
                &&& sender.phase matches SendPhase::Feeding {
                    address: at,
                    connection,
                    messages: left,
                } && at == address && connection == outputs[address] && left == messages.skip(1)
            }
            &&& !outputs.dom().contains(address) ==> {
                &&& action == SendAction::<E>::Lookup(address)
                &&& sender.phase matches SendPhase::Resolving { address: at, messages: left } && at
                    == address && left == messages
            }
        }),
    decreases rest.len(),
{
    if k > 0 {
        assert(rest[0].1.len() == 0);
        let tail = rest.drop_first();
        assert forall|j: int| 0 <= j < k - 1 implies (#[trigger] tail[j]).1.len() == 0 by {
            assert(rest[j + 1].1.len() == 0);
        }
        lemma_first_batch_is_next::<E>(tail, outputs, k - 1);
        assert(rest.skip(k + 1) =~= tail.skip(k));
    } else {
        assert(rest.skip(1) =~= rest.drop_first());
        assert(rest[0].1.skip(1) =~= rest[0].1.drop_first());
    }
}

/// The delivery returns if all batches are empty, and only then.
proof fn lemma_empty_batches_are_passed_over<E>(
    rest: Seq<(ReplicaAddress, Seq<Packet>)>,
    outputs: Map<ReplicaAddress, ConnectionId>,
)
    ensures
        (forall|j: int| 0 <= j < rest.len() ==> (#[trigger] rest[j]).1.len() == 0)
            <==> turn_to_next::<E>(rest, outputs).1 is Return,
        turn_to_next::<E>(rest, outputs).1 is Return ==> turn_to_next::<E>(rest, outputs).1
            == SendAction::<E>::Return(Ok(())),
        turn_to_next::<E>(rest, outputs).1 is Return <==> turn_to_next::<E>(
            rest,
            outputs,
        ).0.phase is Finished,
    decreases rest.len(),
{
    if rest.len() > 0 {
        let tail = rest.drop_first();
        if rest[0].1.len() == 0 {
            lemma_empty_batches_are_passed_over::<E>(tail, outputs);
            if forall|j: int| 0 <= j < rest.len() ==> (#[trigger] rest[j]).1.len() == 0 {
                assert forall|j: int| 0 <= j < tail.len() implies (#[trigger] tail[j]).1.len()
                    == 0 by {
                    assert(rest[j + 1].1.len() == 0);
                }
            }
            if forall|j: int| 0 <= j < tail.len() ==> (#[trigger] tail[j]).1.len() == 0 {
                assert forall|j: int| 0 <= j < rest.len() implies (#[trigger] rest[j]).1.len()
                    == 0 by {
                    if j > 0 {
                        assert(tail[j - 1].1.len() == 0);
                    }
                }
            }
        }
    }
}

/// A delivery starts with the first batch that is not empty: the first message of that batch goes
/// over the connection that is cached for the very address that the batch is for, or, without such
/// a connection, that address is looked up. The batches behind it are left as they are. A delivery
/// without a message returns at once.
pub proof fn a_delivery_starts_with_its_first_message<E>(
    to_send: Vec<(ReplicaAddress, VecDeque<Packet>)>,
    outputs: &Outputs,
    started: (Sender, SendAction<E>),
    k: int,
)
    requires
        call_ensures(send_packets::<E>, (to_send, outputs), started),
        0 <= k <= to_send@.len(),
        forall|j: int| 0 <= j < k ==> (#[trigger] to_send@[j]).1@.len() == 0,
        k < to_send@.len() ==> to_send@[k].1@.len() > 0,
    ensures
        k == to_send@.len() ==> started.1 == SendAction::<E>::Return(Ok(())),
        k < to_send@.len() ==> {
            let (address, messages) = (to_send@[k].0, to_send@[k].1@);
            let sender = started.0@;
            &&& outputs@.dom().contains(address) ==> {
                &&& started.1 == SendAction::<E>::Feed {
                    connection: outputs@[address],
                    message: messages[0],
                }
                &&& sender.phase matches SendPhase::Feeding {
                    address: at,
                    connection,
                    messages: left,
                } && at == address && connection == outputs@[address] && left == messages.skip(1)
            }
            &&& !outputs@.dom().contains(address) ==> {
                &&& started.1 == SendAction::<E>::Lookup(address)
                &&& sender.phase matches SendPhase::Resolving { address: at, messages: left } && at
                    == address && left == messages
            }
            &&& sender.rest.len() == to_send@.len() - k - 1
            &&& forall|j: int|
                0 <= j < sender.rest.len() ==> (#[trigger] sender.rest[j]).0 == to_send@[k + 1
                    + j].0 && sender.rest[j].1 == to_send@[k + 1 + j].1@
        },
{
    let rest = batch_views(to_send@);
    assert forall|j: int| 0 <= j < k implies (#[trigger] rest[j]).1.len() == 0 by {
        assert(to_send@[j].1@.len() == 0);
    }
    if k < to_send@.len() {
        lemma_first_batch_is_next::<E>(rest, outputs@, k);
    } else {
        lemma_empty_batches_are_passed_over::<E>(rest, outputs@);
    }
}

/// A destination is left behind when its connection was flushed, when it has no address or a failed
/// one, or when it was given up. The sender then turns to the first batch behind it that is not
/// empty: the first message of that batch goes over the connection that is cached for the very
/// address that the batch is for, or that address is looked up. Without such a batch it returns.
pub proof fn a_destination_is_followed_by_the_next<E>(
    sender: &mut Sender,
    outputs: &mut Outputs,
    failed: &mut HashSet<SocketId>,
    event: SendEvent<E>,
    action: SendAction<E>,
    k: int,
)
    requires
        call_ensures(Sender::step::<E>, (sender, outputs, failed, event), action),
        match (old(sender)@.phase, event) {
            (SendPhase::Resolving { .. }, SendEvent::Addr(None)) => true,
            (SendPhase::Resolving { .. }, SendEvent::Addr(Some(socket))) => old(
                failed,
            )@.contains(socket),
            (SendPhase::Flushing { .. }, SendEvent::Flushed(true)) => true,
            (SendPhase::Reporting { .. }, SendEvent::Addr(None)) => true,
            (SendPhase::Unregistering { .. }, SendEvent::Unregistered) => true,
            _ => false,
        },
        0 <= k <= old(sender)@.rest.len(),
        forall|j: int| 0 <= j < k ==> (#[trigger] old(sender)@.rest[j]).1.len() == 0,
        k < old(sender)@.rest.len() ==> old(sender)@.rest[k].1.len() > 0,
    ensures
        final(outputs)@ == old(outputs)@,
        final(failed)@ == old(failed)@,
        k == old(sender)@.rest.len() ==> action == SendAction::<E>::Return(Ok(())),
        k < old(sender)@.rest.len() ==> {
            let (address, messages) = old(sender)@.rest[k];
            let connections = old(outputs)@;
            &&& final(sender)@.rest == old(sender)@.rest.skip(k + 1)
            &&& connections.dom().contains(address) ==> {
                &&& action == SendAction::<E>::Feed {
                    connection: connections[address],
                    message: messages[0],
                }
                &&& final(sender)@.phase matches SendPhase::Feeding {
                    address: at,
                    connection,
                    messages: left,
                } && at == address && connection == connections[address] && left
                    == messages.skip(1)
            }
            &&& !connections.dom().contains(address) ==> {
                &&& action == SendAction::<E>::Lookup(address)
                &&& final(sender)@.phase matches SendPhase::Resolving {
                    address: at,
                    messages: left,
                } && at == address && left == messages
            }
        },
{
    let rest = old(sender)@.rest;
    if k < rest.len() {
        lemma_first_batch_is_next::<E>(rest, old(outputs)@, k);
    } else {
        lemma_empty_batches_are_passed_over::<E>(rest, old(outputs)@);
    }
}

/// As long as a sender is at a destination, all that it does concerns the address of that
/// destination and the connection to it. An address that has not failed is connected to; the
/// messages then go over that connection, one after the other, and after the last of them it is
/// flushed. If feeding or flushing fails, the connection is dropped, the address is looked up once
/// more, and the destination is unregistered by it. The batches behind it are left as they are. If
/// no connection can be established the delivery fails with that error.
pub proof fn a_destination_is_stayed_with<E>(
    sender: &mut Sender,
    outputs: &mut Outputs,
    failed: &mut HashSet<SocketId>,
    event: SendEvent<E>,
    action: SendAction<E>,
)
    requires
        call_ensures(Sender::step::<E>, (sender, outputs, failed, event), action),
        old(sender)@.well_formed(),
        awaits_answer(old(sender)@.phase, event),
    ensures
        match (old(sender)@.phase, event) {
            (SendPhase::Resolving { address, messages }, SendEvent::Addr(Some(socket))) => !old(
                failed,
            )@.contains(socket) ==> {
                &&& action == SendAction::<E>::Connect(address)
                &&& final(sender)@.phase == SendPhase::Connecting { address, messages }
                &&& final(sender)@.rest == old(sender)@.rest
            },
            (SendPhase::Connecting { address, messages }, SendEvent::Connected(Ok(connection))) => {
                &&& action == SendAction::<E>::Feed { connection, message: messages[0] }
                &&& final(sender)@.phase matches SendPhase::Feeding {
                    address: at,
                    connection: over,
                    messages: left,
                } && at == address && over == connection && left == messages.skip(1)
                &&& final(sender)@.rest == old(sender)@.rest
            },
            (SendPhase::Connecting { .. }, SendEvent::Connected(Err(error))) => action
                == SendAction::<E>::Return(Err(error)),
            (SendPhase::Feeding { address, connection, messages }, SendEvent::Fed(true)) => {
                &&& final(sender)@.rest == old(sender)@.rest
                &&& messages.len() > 0 ==> {
                    &&& action == SendAction::<E>::Feed { connection, message: messages[0] }
                    &&& final(sender)@.phase matches SendPhase::Feeding {
                        address: at,
                        connection: over,
                        messages: left,
                    } && at == address && over == connection && left == messages.skip(1)
                }
                &&& messages.len() == 0 ==> {
                    &&& action == SendAction::<E>::Flush { connection }
                    &&& final(sender)@.phase == SendPhase::Flushing { address, connection }
                }
            },
            (SendPhase::Feeding { address, connection, .. }, SendEvent::Fed(false)) => {
                &&& action == SendAction::<E>::Discard { connection }
                &&& final(sender)@.phase == SendPhase::Discarding { address }
                &&& final(sender)@.rest == old(sender)@.rest
            },
            (SendPhase::Flushing { address, connection }, SendEvent::Flushed(false)) => {
                &&& action == SendAction::<E>::Discard { connection }
                &&& final(sender)@.phase == SendPhase::Discarding { address }
                &&& final(sender)@.rest == old(sender)@.rest
            },
            (SendPhase::Discarding { address }, SendEvent::Discarded) => {
                &&& action == SendAction::<E>::Lookup(address)
                &&& final(sender)@.phase == SendPhase::Reporting { address }
                &&& final(sender)@.rest == old(sender)@.rest
            },
            (SendPhase::Reporting { address }, SendEvent::Addr(Some(_))) => {
                &&& action == SendAction::<E>::Unregister(address)
                &&& final(sender)@.phase == SendPhase::Unregistering { address }
                &&& final(sender)@.rest == old(sender)@.rest
            },
            _ => true,
        },
{
    match old(sender)@.phase {
        SendPhase::Connecting { messages, .. } => {
            assert(messages.skip(1) =~= messages.drop_first());
        },
        SendPhase::Feeding { messages, .. } => {
            assert(messages.skip(1) =~= messages.drop_first());
        },
        _ => {},
    }
}

/// A connection is cached for the address that it was established to, and for no other, and a
/// connection that failed is forgotten for the address that it led to, and for no other. An address
/// counts as failed once it is found to be that of a connection that failed, and on no other
/// account. Nothing else changes what is cached or has failed.
pub proof fn a_step_changes_what_is_known_of_its_destination<E>(
    sender: &mut Sender,
    outputs: &mut Outputs,
    failed: &mut HashSet<SocketId>,
    event: SendEvent<E>,
    action: SendAction<E>,
    socket: SocketId,
)
    requires
        call_ensures(Sender::step::<E>, (sender, outputs, failed, event), action),
        awaits_answer(old(sender)@.phase, event),
    ensures
        final(failed)@.contains(socket) <==> old(failed)@.contains(socket) || (old(sender)@.phase
            is Reporting && event == SendEvent::<E>::Addr(Some(socket))),
        final(outputs)@ == match (old(sender)@.phase, event) {
            (SendPhase::Connecting { address, .. }, SendEvent::Connected(Ok(connection))) => old(
                outputs,
            )@.insert(address, connection),
            (SendPhase::Feeding { address, .. }, SendEvent::Fed(false)) => old(outputs)@.remove(
                address,
            ),
            (SendPhase::Flushing { address, .. }, SendEvent::Flushed(false)) => old(
                outputs,
            )@.remove(address),
            _ => old(outputs)@,
        },
{
}

/// A sender is where its action says: it can be told of whatever the action may bring about, and of
/// nothing once it has returned. It returns an error just if a connection could not be established,
/// and success only when no message is left in the batches behind.
pub proof fn what_a_sender_asks_for_it_can_be_told<E>(
    sender: &mut Sender,
    outputs: &mut Outputs,
    failed: &mut HashSet<SocketId>,
    event: SendEvent<E>,
    action: SendAction<E>,
    answer: SendEvent<E>,
)
    requires
        call_ensures(Sender::step::<E>, (sender, outputs, failed, event), action),
        awaits_answer(old(sender)@.phase, event),
    ensures
        awaits_answer(final(sender)@.phase, answer) <==> match action {
            SendAction::Lookup(_) => answer is Addr,
            SendAction::Connect(_) => answer is Connected,
            SendAction::Feed { .. } => answer is Fed,
            SendAction::Flush { .. } => answer is Flushed,
            SendAction::Discard { .. } => answer is Discarded,
            SendAction::Unregister(_) => answer is Unregistered,
            SendAction::Return(_) => false,
        },
        action is Return <==> final(sender)@.phase is Finished,
        event matches SendEvent::Connected(Err(error)) ==> action == SendAction::<E>::Return(
            Err(error),
        ),
        action matches SendAction::Return(Err(error)) ==> event == SendEvent::<E>::Connected(
            Err(error),
        ),
        action == SendAction::<E>::Return(Ok(())) ==> forall|j: int|
            0 <= j < old(sender)@.rest.len() ==> (#[trigger] old(sender)@.rest[j]).1.len() == 0,
{
    lemma_empty_batches_are_passed_over::<E>(old(sender)@.rest, old(outputs)@);
    lemma_turn_asks_for_its_phase::<E>(old(sender)@.rest, old(outputs)@);
}

/// The same holds of a delivery that has just started.
pub proof fn what_a_delivery_asks_for_first_can_be_told<E>(
    to_send: Vec<(ReplicaAddress, VecDeque<Packet>)>,
    outputs: &Outputs,
    started: (Sender, SendAction<E>),
    answer: SendEvent<E>,
)
    requires
        call_ensures(send_packets::<E>, (to_send, outputs), started),
    ensures
        started.1 is Lookup || started.1 is Feed || started.1 is Return,
        started.1 is Lookup ==> (awaits_answer(started.0@.phase, answer) <==> answer is Addr),
        started.1 is Feed ==> (awaits_answer(started.0@.phase, answer) <==> answer is Fed),
        started.1 is Return ==> !awaits_answer(started.0@.phase, answer),
        started.0@.well_formed(),
{
    lemma_turn_asks_for_its_phase::<E>(batch_views(to_send@), outputs@);
}

/// Turning to the next batch looks up its destination, feeds a message, or returns.
proof fn lemma_turn_asks_for_its_phase<E>(
    rest: Seq<(ReplicaAddress, Seq<Packet>)>,
    outputs: Map<ReplicaAddress, ConnectionId>,
)
    ensures
        ({
            let (sender, action) = turn_to_next::<E>(rest, outputs);
            match action {
                SendAction::Lookup(_) => sender.phase is Resolving,
                SendAction::Feed { .. } => sender.phase is Feeding,
                SendAction::Return(_) => sender.phase is Finished,
                _ => false,
            }
        }),
    decreases rest.len(),
{
    if rest.len() > 0 && rest.first().1.len() == 0 {
        lemma_turn_asks_for_its_phase::<E>(rest.drop_first(), outputs);
    }
}

/// The messages of all batches, one batch after the other, each message with the address that its
/// batch is for.
pub open spec fn addressed(rest: Seq<(ReplicaAddress, Seq<Packet>)>) -> Seq<
    (ReplicaAddress, Packet),
> {
    rest.map_values(
        |batch: (ReplicaAddress, Seq<Packet>)| batch.1.map_values(|m: Packet| (batch.0, m)),
    ).flatten()
}

/// The messages that a sender has not fed yet, each with its destination.
pub open spec fn unsent_to(sender: SenderView) -> Seq<(ReplicaAddress, Packet)> {
    match sender.phase {
        SendPhase::Resolving { address, messages } => messages.map_values(|m: Packet| (address, m))
            + addressed(sender.rest),
        SendPhase::Connecting { address, messages } => messages.map_values(|m: Packet| (address, m))
            + addressed(sender.rest),
        SendPhase::Feeding { address, messages, .. } => messages.map_values(
            |m: Packet| (address, m),
        ) + addressed(sender.rest),
        _ => addressed(sender.rest),
    }
}

/// The message that is fed, if one is, with the address whose connection it is fed to.
pub open spec fn fed_to<E>(
    outputs: Map<ReplicaAddress, ConnectionId>,
    sender: SenderView,
    action: SendAction<E>,
) -> Seq<(ReplicaAddress, Packet)> {
    match (sender.phase, action) {
        (
            SendPhase::Feeding { address, .. },
            SendAction::Feed { connection, message },
        ) if outputs.contains_key(address) && outputs[address] == connection => seq![
            (address, message),
        ],
        _ => Seq::empty(),
    }
}

/// The first batch comes first.
proof fn lemma_addressed_first(rest: Seq<(ReplicaAddress, Seq<Packet>)>)
    requires
        rest.len() > 0,
    ensures
        addressed(rest) == rest[0].1.map_values(|m: Packet| (rest[0].0, m)) + addressed(
            rest.drop_first(),
        ),
{
    let each = |batch: (ReplicaAddress, Seq<Packet>)|
        batch.1.map_values(|m: Packet| (batch.0, m));
    assert(rest.map_values(each).drop_first() =~= rest.drop_first().map_values(each));
}

/// Turning to the next batch keeps every message with its destination.
proof fn lemma_turn_keeps_destinations<E>(
    rest: Seq<(ReplicaAddress, Seq<Packet>)>,
    outputs: Map<ReplicaAddress, ConnectionId>,
)
    ensures
        ({
            let (sender, action) = turn_to_next::<E>(rest, outputs);
            addressed(rest) == fed_to(outputs, sender, action) + unsent_to(sender)
        }),
    decreases rest.len(),
{
    let (sender, action) = turn_to_next::<E>(rest, outputs);
    if rest.len() > 0 {
        let (address, messages) = rest[0];
        lemma_addressed_first(rest);
        if messages.len() == 0 {
            lemma_turn_keeps_destinations::<E>(rest.drop_first(), outputs);
            assert(addressed(rest) =~= addressed(rest.drop_first()));
        } else {
            assert(addressed(rest) =~= fed_to(outputs, sender, action) + unsent_to(sender));
        }
    } else {
        assert(addressed(rest) =~= fed_to(outputs, sender, action) + unsent_to(sender));
    }
}

/// No message changes its destination: with each step on which no message is dropped, what was
/// unsent is what is fed, over the connection that is cached for the address that its batch is for,
/// and then what is unsent after it.
pub proof fn messages_keep_their_destination<E>(pre: SendState, event: SendEvent<E>)
    requires
        awaits_answer(pre.sender.phase, event),
        pre.sender.well_formed(),
        uses_cached_connection(pre),
        match (pre.sender.phase, event) {
            (SendPhase::Resolving { .. }, SendEvent::Addr(found)) => found is Some
                && !pre.failed.contains(found->0),
            (SendPhase::Connecting { .. }, SendEvent::Connected(result)) => result is Ok,
            (SendPhase::Feeding { .. }, SendEvent::Fed(fed)) => fed,
            _ => true,
        },
    ensures
        ({
            let (post, action) = send_step(pre, event);
            unsent_to(pre.sender) == fed_to(post.outputs, post.sender, action) + unsent_to(
                post.sender,
            )
        }),
{
    let (post, action) = send_step(pre, event);
    lemma_turn_keeps_destinations::<E>(pre.sender.rest, pre.outputs);
    cached_connections_are_used(pre, event);
    assert(unsent_to(pre.sender) =~= fed_to(post.outputs, post.sender, action) + unsent_to(
        post.sender,
    ));
}

/// If a destination is given up, just the messages for it are dropped: every message behind them
/// keeps its destination.
pub proof fn dropped_messages_leave_the_others_alone<E>(pre: SendState, event: SendEvent<E>)
    requires
        match (pre.sender.phase, event) {
            (SendPhase::Resolving { .. }, SendEvent::Addr(None)) => true,
            (SendPhase::Resolving { .. }, SendEvent::Addr(Some(socket))) => pre.failed.contains(
                socket,
            ),
            (SendPhase::Feeding { .. }, SendEvent::Fed(fed)) => !fed,
            _ => false,
        },
    ensures
        ({
            let (post, action) = send_step(pre, event);
            addressed(pre.sender.rest) == fed_to(post.outputs, post.sender, action) + unsent_to(
                post.sender,
            )
        }),
{
    let (post, action) = send_step(pre, event);
    lemma_turn_keeps_destinations::<E>(pre.sender.rest, pre.outputs);
    if pre.sender.phase is Feeding {
        assert(addressed(pre.sender.rest) =~= fed_to(post.outputs, post.sender, action)
            + unsent_to(post.sender));
    }
}

/// The messages that were fed in a delivery, each with the address whose connection it was fed to.
pub open spec fn delivered<E>(start: SendState, events: Seq<SendEvent<E>>) -> Seq<
    (ReplicaAddress, Packet),
>
    decreases events.len(),
{
    if events.len() == 0 {
        let (sender, action) = turn_to_next::<E>(start.sender.rest, start.outputs);
        fed_to(start.outputs, sender, action)
    } else {
        let pre = send_run(start, events.drop_last()).0;
        let (post, action) = send_step(pre, events.last());
        delivered(start, events.drop_last()) + fed_to(post.outputs, post.sender, action)
    }
}

/// When a delivery has returned and all went well, each message of each batch was fed, in the order
/// of the batches, over the connection that was cached for the address that its batch was given
/// with; so the messages that went over the connection to a destination are those of the batches
/// for that destination, and no others.
pub proof fn messages_reach_their_destination<E>(
    start: SendState,
    events: Seq<SendEvent<E>>,
    dest: ReplicaAddress,
)
    requires
        all_goes_well(start, events),
        send_run(start, events).0.sender.phase is Finished,
    ensures
        delivered(start, events) == start.sender.rest.map_values(
            |batch: (ReplicaAddress, Seq<Packet>)| batch.1.map_values(|m: Packet| (batch.0, m)),
        ).flatten(),
        delivered(start, events).filter(|fed: (ReplicaAddress, Packet)| fed.0 == dest).map_values(
            |fed: (ReplicaAddress, Packet)| fed.1,
        ) == start.sender.rest.filter(
            |batch: (ReplicaAddress, Seq<Packet>)| batch.0 == dest,
        ).map_values(|batch: (ReplicaAddress, Seq<Packet>)| batch.1).flatten(),
{
    lemma_delivered_so_far(start, events);
    lemma_finished_has_nothing_left(start, events);
    let sender = send_run(start, events).0.sender;
    assert(sender.rest.map_values(
        |batch: (ReplicaAddress, Seq<Packet>)| batch.1.map_values(|m: Packet| (batch.0, m)),
    ) =~= Seq::empty());
    assert(unsent_to(sender) =~= Seq::empty());
    assert(delivered(start, events) =~= addressed(start.sender.rest));
    lemma_addressed_to(start.sender.rest, dest);
}

/// As long as all goes well, what was delivered and what is unsent make up the batches.
proof fn lemma_delivered_so_far<E>(start: SendState, events: Seq<SendEvent<E>>)
    requires
        all_goes_well(start, events),
    ensures
        ({
            let post = send_run(start, events).0;
            &&& addressed(start.sender.rest) == delivered(start, events) + unsent_to(post.sender)
            &&& post.sender.well_formed()
            &&& uses_cached_connection(post)
        }),
    decreases events.len(),
{
    if events.len() == 0 {
        lemma_turn_keeps_destinations::<E>(start.sender.rest, start.outputs);
        lemma_turn_is_well_formed::<E>(start.sender.rest, start.outputs);
        lemma_turn_uses_cached_connection::<E>(start.sender.rest, start.outputs, start.failed);
    } else {
        let before = events.drop_last();
        assert forall|i: int| 0 <= i < before.len() implies {
            let pre = send_run(start, before.take(i)).0;
            awaits_answer(pre.sender.phase, #[trigger] before[i]) && dropped_on(pre, before[i])
                == Seq::<Packet>::empty()
        } by {
            assert(before.take(i) =~= events.take(i));
            assert(before[i] == events[i]);
        }
        lemma_delivered_so_far(start, before);
        let pre = send_run(start, before).0;
        assert(events.take(events.len() - 1) =~= before);
        let event = events[events.len() - 1];
        assert(awaits_answer(pre.sender.phase, event));
        assert(dropped_on(pre, event) == Seq::<Packet>::empty());
        cached_connections_are_used(pre, event);
        lemma_turn_is_well_formed::<E>(pre.sender.rest, pre.outputs);
        lemma_step_delivers(pre, event);
        let (post, action) = send_step(pre, event);
        assert(addressed(start.sender.rest) =~= delivered(start, events) + unsent_to(post.sender));
    }
}

/// One step on which no message is dropped.
proof fn lemma_step_delivers<E>(pre: SendState, event: SendEvent<E>)
    requires
        awaits_answer(pre.sender.phase, event),
        pre.sender.well_formed(),
        uses_cached_connection(pre),
        dropped_on(pre, event) == Seq::<Packet>::empty(),
    ensures
        ({
            let (post, action) = send_step(pre, event);
            unsent_to(pre.sender) == fed_to(post.outputs, post.sender, action) + unsent_to(
                post.sender,
            )
        }),
{
    let (post, action) = send_step(pre, event);
    match (pre.sender.phase, event) {
        // The last message was being fed when the connection failed: none was to follow it.
        (SendPhase::Feeding { address, messages, .. }, SendEvent::Fed(false)) => {
            dropped_messages_leave_the_others_alone(pre, event);
            assert(unsent_to(pre.sender) =~= addressed(pre.sender.rest));
        },
        (SendPhase::Connecting { messages, .. }, SendEvent::Connected(Err(_))) => {
            assert(unsent(pre.sender).len() >= messages.len());
        },
        _ => {
            messages_keep_their_destination(pre, event);
        },
    }
}

/// The messages for one destination are those of the batches for it.
proof fn lemma_addressed_to(rest: Seq<(ReplicaAddress, Seq<Packet>)>, dest: ReplicaAddress)
    ensures
        addressed(rest).filter(|fed: (ReplicaAddress, Packet)| fed.0 == dest).map_values(
            |fed: (ReplicaAddress, Packet)| fed.1,
        ) == rest.filter(|batch: (ReplicaAddress, Seq<Packet>)| batch.0 == dest).map_values(
            |batch: (ReplicaAddress, Seq<Packet>)| batch.1,
        ).flatten(),
    decreases rest.len(),
{
    let to_dest = |fed: (ReplicaAddress, Packet)| fed.0 == dest;
    let message = |fed: (ReplicaAddress, Packet)| fed.1;
    let for_dest = |batch: (ReplicaAddress, Seq<Packet>)| batch.0 == dest;
    let messages = |batch: (ReplicaAddress, Seq<Packet>)| batch.1;
    if rest.len() == 0 {
        reveal(Seq::filter);
        assert(addressed(rest) =~= Seq::empty());
        assert(addressed(rest).filter(to_dest).map_values(message) =~= Seq::empty());
        assert(rest.filter(for_dest).map_values(messages) =~= Seq::empty());
    } else {
        let tail = rest.drop_first();
        let first = rest[0].1.map_values(|m: Packet| (rest[0].0, m));
        lemma_addressed_to(tail, dest);
        lemma_addressed_first(rest);
        Seq::filter_distributes_over_add(first, addressed(tail), to_dest);
        lemma_filter_all_or_none(first, to_dest, rest[0].0 == dest);
        assert(rest =~= seq![rest[0]] + tail);
        Seq::filter_distributes_over_add(seq![rest[0]], tail, for_dest);
        lemma_filter_all_or_none(seq![rest[0]], for_dest, rest[0].0 == dest);
        if rest[0].0 == dest {
            let mapped = rest.filter(for_dest).map_values(messages);
            assert(mapped.drop_first() =~= tail.filter(for_dest).map_values(messages));
            assert(mapped[0] == rest[0].1);
            assert(addressed(rest).filter(to_dest).map_values(message) =~= rest[0].1 + addressed(
                tail,
            ).filter(to_dest).map_values(message));
        } else {
            assert(rest.filter(for_dest) =~= tail.filter(for_dest));
            assert(addressed(rest).filter(to_dest) =~= addressed(tail).filter(to_dest));
        }
    }
}

/// A filter that decides alike on all elements keeps all of them, or none.
proof fn lemma_filter_all_or_none<A>(s: Seq<A>, pred: spec_fn(A) -> bool, keep: bool)
    requires
        forall|i: int| 0 <= i < s.len() ==> pred(#[trigger] s[i]) == keep,
    ensures
        s.filter(pred) == if keep {
            s
        } else {
            Seq::empty()
        },
    decreases s.len(),
{
    reveal(Seq::filter);
    if s.len() > 0 {
        lemma_filter_all_or_none(s.drop_last(), pred, keep);
        assert(s =~= s.drop_last().push(s.last()));
    } else {
        assert(s =~= Seq::empty());
    }
}

} // verus!
