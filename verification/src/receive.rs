//! Receiving packets from local and remote connections.
use std::collections::VecDeque;

use vstd::prelude::*;

use crate::packet::Packet;

verus! {

/// How many packets one call receives before it stops looking for more.
pub const MAX_PACKETS_PER_CALL: usize = 64;

/// Where a receiver is.
#[derive(Clone, Copy, Debug, PartialEq, Eq, Structural)]
pub enum ReceivePhase {
    /// Waits for the first packet, local or remote.
    Waiting,
    /// Waits for the first packet, which can only be local: there is no remote connection.
    WaitingLocal,
    /// Takes what else the local connection has ready.
    Local,
    /// Takes what else the remote connections have ready.
    Remote,
    /// Has returned.
    Finished,
}

/// What happened to a receiver.
pub enum ReceiveEvent<E> {
    /// The local connection yielded a packet, or is closed.
    Local(Option<Packet>),
    /// A remote connection yielded a packet or failed, or there is no remote connection.
    Remote(Option<Result<Packet, E>>),
    /// What was polled has nothing ready.
    NotReady,
}

/// What a receiver needs next.
pub enum ReceiveAction<E> {
    /// Wait until the local connection or a remote one yields something.
    WaitAny,
    /// Wait until the local connection yields something.
    WaitLocal,
    /// See whether the local connection has something ready.
    PollLocal,
    /// See whether a remote connection has something ready.
    PollRemote,
    /// Return: the packets, or nothing if the local connection is closed.
    Return(Result<Option<VecDeque<Packet>>, E>),
}

/// Receives a batch of packets from one source.
pub struct Receiver {
    phase: ReceivePhase,
    packets: VecDeque<Packet>,
}

/// A receiver as it is specified: where it is, and what it has received.
#[verifier::ext_equal]
pub struct ReceiverView {
    pub phase: ReceivePhase,
    pub packets: Seq<Packet>,
}

/// A [`ReceiveAction`] as it is specified.
pub enum ReceiveActionView<E> {
    WaitAny,
    WaitLocal,
    PollLocal,
    PollRemote,
    Return(Result<Option<Seq<Packet>>, E>),
}

impl<E> View for ReceiveAction<E> {
    type V = ReceiveActionView<E>;

    open spec fn view(&self) -> ReceiveActionView<E> {
        match *self {
            ReceiveAction::WaitAny => ReceiveActionView::WaitAny,
            ReceiveAction::WaitLocal => ReceiveActionView::WaitLocal,
            ReceiveAction::PollLocal => ReceiveActionView::PollLocal,
            ReceiveAction::PollRemote => ReceiveActionView::PollRemote,
            ReceiveAction::Return(Ok(Some(packets))) => ReceiveActionView::Return(
                Ok(Some(packets@)),
            ),
            ReceiveAction::Return(Ok(None)) => ReceiveActionView::Return(Ok(None)),
            ReceiveAction::Return(Err(error)) => ReceiveActionView::Return(Err(error)),
        }
    }
}

/// Whether a receiver in `phase` can be told of `event`: it is what its last action asked for.
pub open spec fn awaits<E>(phase: ReceivePhase, event: ReceiveEvent<E>) -> bool {
    match (phase, event) {
        (ReceivePhase::Waiting, ReceiveEvent::NotReady) => false,
        (ReceivePhase::Waiting, _) => true,
        (ReceivePhase::WaitingLocal, ReceiveEvent::Local(_)) => true,
        (ReceivePhase::WaitingLocal, _) => false,
        (ReceivePhase::Local, ReceiveEvent::Remote(_)) => false,
        (ReceivePhase::Local, _) => true,
        (ReceivePhase::Remote, ReceiveEvent::Local(_)) => false,
        (ReceivePhase::Remote, _) => true,
        (ReceivePhase::Finished, _) => false,
    }
}

/// The receiver once it has returned.
pub open spec fn returned() -> ReceiverView {
    ReceiverView { phase: ReceivePhase::Finished, packets: Seq::empty() }
}

/// What a receiver does on `event`, and where it then is.
pub open spec fn receive_step<E>(pre: ReceiverView, event: ReceiveEvent<E>) -> (
    ReceiverView,
    ReceiveActionView<E>,
) {
    match event {
        ReceiveEvent::Local(None) => (returned(), ReceiveActionView::Return(Ok(None))),
        ReceiveEvent::Local(Some(packet)) => {
            let packets = pre.packets.push(packet);
            if pre.phase == ReceivePhase::Local && packets.len() >= MAX_PACKETS_PER_CALL {
                (returned(), ReceiveActionView::Return(Ok(Some(packets))))
            } else {
                (
                    ReceiverView { phase: ReceivePhase::Local, packets },
                    ReceiveActionView::PollLocal,
                )
            }
        },
        ReceiveEvent::Remote(Some(Err(error))) => (
            returned(),
            ReceiveActionView::Return(Err(error)),
        ),
        ReceiveEvent::Remote(Some(Ok(packet))) => {
            let packets = pre.packets.push(packet);
            if pre.phase == ReceivePhase::Remote && packets.len() > MAX_PACKETS_PER_CALL {
                (returned(), ReceiveActionView::Return(Ok(Some(packets))))
            } else {
                (
                    ReceiverView { phase: ReceivePhase::Remote, packets },
                    ReceiveActionView::PollRemote,
                )
            }
        },
        ReceiveEvent::Remote(None) => {
            if pre.phase == ReceivePhase::Waiting {
                (
                    ReceiverView { phase: ReceivePhase::WaitingLocal, ..pre },
                    ReceiveActionView::WaitLocal,
                )
            } else {
                (returned(), ReceiveActionView::Return(Ok(Some(pre.packets))))
            }
        },
        ReceiveEvent::NotReady => (
            returned(),
            ReceiveActionView::Return(Ok(Some(pre.packets))),
        ),
    }
}

impl View for Receiver {
    type V = ReceiverView;

    closed spec fn view(&self) -> ReceiverView {
        ReceiverView { phase: self.phase, packets: self.packets@ }
    }
}

/// The receiver at the start of a call: it has received nothing, and waits for any packet.
pub open spec fn call_start() -> ReceiverView {
    ReceiverView { phase: ReceivePhase::Waiting, packets: Seq::empty() }
}

/// Starts to receive packets from local and remote connections.
pub fn receive_packets<E>() -> (started: (Receiver, ReceiveAction<E>))
    ensures
        started.0@ == call_start(),
        started.1@ == ReceiveActionView::<E>::WaitAny,
{
    let packets = VecDeque::with_capacity(MAX_PACKETS_PER_CALL);
    (Receiver { phase: ReceivePhase::Waiting, packets }, ReceiveAction::WaitAny)
}

impl Receiver {
    /// Where the receiver is.
    pub fn phase(&self) -> (phase: ReceivePhase)
        ensures
            phase == self@.phase,
    {
        self.phase
    }

    /// Ends the call with the packets that were received.
    fn finish<E>(&mut self) -> (action: ReceiveAction<E>)
        ensures
            final(self)@ == returned(),
            action@ == ReceiveActionView::<E>::Return(Ok(Some(old(self)@.packets))),
    {
        let mut packets: VecDeque<Packet> = VecDeque::new();
        packets.append(&mut self.packets);
        self.phase = ReceivePhase::Finished;
        assert(packets@ =~= old(self)@.packets);
        ReceiveAction::Return(Ok(Some(packets)))
    }

    /// Tells the receiver what happened, and learns what it needs next.
    ///
    /// Packets of one source are taken without waiting once the first has come, up to a limit.
    /// A local connection that is closed, and a remote one that fails, end the call at once:
    /// packets received before in that call are dropped.
    pub fn step<E>(&mut self, event: ReceiveEvent<E>) -> (action: ReceiveAction<E>)
        requires
            awaits(old(self)@.phase, event),
        ensures
            (final(self)@, action@) == receive_step(old(self)@, event),
    {
        match event {
            ReceiveEvent::Local(None) => {
                self.phase = ReceivePhase::Finished;
                self.packets.clear();
                ReceiveAction::Return(Ok(None))
            },
            ReceiveEvent::Local(Some(packet)) => {
                self.packets.push_back(packet);
                if self.phase == ReceivePhase::Local && self.packets.len()
                    >= MAX_PACKETS_PER_CALL {
                    self.finish()
                } else {
                    self.phase = ReceivePhase::Local;
                    ReceiveAction::PollLocal
                }
            },
            ReceiveEvent::Remote(Some(Err(error))) => {
                self.phase = ReceivePhase::Finished;
                self.packets.clear();
                ReceiveAction::Return(Err(error))
            },
            ReceiveEvent::Remote(Some(Ok(packet))) => {
                self.packets.push_back(packet);
                if self.phase == ReceivePhase::Remote && self.packets.len()
                    > MAX_PACKETS_PER_CALL {
                    self.finish()
                } else {
                    self.phase = ReceivePhase::Remote;
                    ReceiveAction::PollRemote
                }
            },
            ReceiveEvent::Remote(None) => {
                if self.phase == ReceivePhase::Waiting {
                    self.phase = ReceivePhase::WaitingLocal;
                    ReceiveAction::WaitLocal
                } else {
                    self.finish()
                }
            },
            ReceiveEvent::NotReady => self.finish(),
        }
    }
}

/// Where a call is after `events`, and what it then asks for.
pub open spec fn receive_run<E>(events: Seq<ReceiveEvent<E>>) -> (
    ReceiverView,
    ReceiveActionView<E>,
)
    decreases events.len(),
{
    if events.len() == 0 {
        (call_start(), ReceiveActionView::WaitAny)
    } else {
        receive_step(receive_run(events.drop_last()).0, events.last())
    }
}

/// Whether each of `events` is what the call asked for before it.
pub open spec fn answers_call<E>(events: Seq<ReceiveEvent<E>>) -> bool {
    forall|i: int|
        0 <= i < events.len() ==> awaits(
            receive_run(events.take(i)).0.phase,
            #[trigger] events[i],
        )
}

/// The events by which `packets` come from the local connection.
pub open spec fn local_events<E>(packets: Seq<Packet>) -> Seq<ReceiveEvent<E>> {
    packets.map_values(|p: Packet| ReceiveEvent::<E>::Local(Some(p)))
}

/// The events by which `packets` come from remote connections.
pub open spec fn remote_events<E>(packets: Seq<Packet>) -> Seq<ReceiveEvent<E>> {
    packets.map_values(|p: Packet| ReceiveEvent::<E>::Remote(Some(Ok(p))))
}

/// Packets from the local connection are collected in the order in which they come, and returned
/// all together as soon as there are as many as the limit.
pub proof fn local_packets_are_batched<E>(packets: Seq<Packet>)
    requires
        1 <= packets.len() <= MAX_PACKETS_PER_CALL,
    ensures
        receive_run(local_events::<E>(packets)) == if packets.len() < MAX_PACKETS_PER_CALL {
            (
                ReceiverView { phase: ReceivePhase::Local, packets },
                ReceiveActionView::<E>::PollLocal,
            )
        } else {
            (returned(), ReceiveActionView::Return(Ok(Some(packets))))
        },
        answers_call(local_events::<E>(packets)),
    decreases packets.len(),
{
    let events = local_events::<E>(packets);
    let fewer = packets.drop_last();
    assert(events.drop_last() =~= local_events::<E>(fewer));
    assert(fewer.push(packets.last()) =~= packets);
    if packets.len() > 1 {
        local_packets_are_batched::<E>(fewer);
        lemma_answers_call_push(local_events::<E>(fewer), events.last());
        assert(local_events::<E>(fewer).push(events.last()) =~= events);
    } else {
        assert(events.drop_last() =~= Seq::empty());
        lemma_answers_call_push(Seq::<ReceiveEvent<E>>::empty(), events.last());
        assert(Seq::<ReceiveEvent<E>>::empty().push(events.last()) =~= events);
    }
}

/// Packets from remote connections are collected in the order in which they come, and returned all
/// together as soon as there is one more than the limit.
pub proof fn remote_packets_are_batched<E>(packets: Seq<Packet>)
    requires
        1 <= packets.len() <= MAX_PACKETS_PER_CALL + 1,
    ensures
        receive_run(remote_events::<E>(packets)) == if packets.len() <= MAX_PACKETS_PER_CALL {
            (
                ReceiverView { phase: ReceivePhase::Remote, packets },
                ReceiveActionView::<E>::PollRemote,
            )
        } else {
            (returned(), ReceiveActionView::Return(Ok(Some(packets))))
        },
        answers_call(remote_events::<E>(packets)),
    decreases packets.len(),
{
    let events = remote_events::<E>(packets);
    let fewer = packets.drop_last();
    assert(events.drop_last() =~= remote_events::<E>(fewer));
    assert(fewer.push(packets.last()) =~= packets);
    if packets.len() > 1 {
        remote_packets_are_batched::<E>(fewer);
        lemma_answers_call_push(remote_events::<E>(fewer), events.last());
        assert(remote_events::<E>(fewer).push(events.last()) =~= events);
    } else {
        assert(events.drop_last() =~= Seq::empty());
        lemma_answers_call_push(Seq::<ReceiveEvent<E>>::empty(), events.last());
        assert(Seq::<ReceiveEvent<E>>::empty().push(events.last()) =~= events);
    }
}

/// One more event answers the call if it is what the call then asks for.
proof fn lemma_answers_call_push<E>(events: Seq<ReceiveEvent<E>>, event: ReceiveEvent<E>)
    requires
        answers_call(events),
        awaits(receive_run(events).0.phase, event),
    ensures
        answers_call(events.push(event)),
{
    let more = events.push(event);
    assert forall|i: int| 0 <= i < more.len() implies awaits(
        receive_run(more.take(i)).0.phase,
        #[trigger] more[i],
    ) by {
        assert(more.take(i) =~= events.take(i));
        if i < events.len() {
            assert(awaits(receive_run(events.take(i)).0.phase, events[i]));
        } else {
            assert(events.take(i) =~= events);
        }
    }
}

/// The packets among `events`, in the order in which they came.
pub open spec fn packets_of<E>(events: Seq<ReceiveEvent<E>>) -> Seq<Packet> {
    events.filter_map(
        |event: ReceiveEvent<E>|
            match event {
                ReceiveEvent::Local(Some(packet)) => Some(packet),
                ReceiveEvent::Remote(Some(Ok(packet))) => Some(packet),
                _ => None,
            },
    )
}

/// Whatever happens in a call, it holds just the packets that came, in their order, until it
/// returns; what it returns is all of them, or nothing once the local connection is closed, or the
/// error that a remote connection failed with. It never returns more than one packet above the
/// limit, nor an empty batch.
pub proof fn no_packet_is_lost_or_reordered<E>(events: Seq<ReceiveEvent<E>>)
    requires
        answers_call(events),
    ensures
        ({
            let (receiver, action) = receive_run(events);
            let packets = packets_of(events);
            &&& receiver.phase != ReceivePhase::Finished ==> receiver.packets == packets
            &&& match receiver.phase {
                ReceivePhase::Waiting => packets.len() == 0,
                ReceivePhase::WaitingLocal => packets.len() == 0,
                ReceivePhase::Local => 1 <= packets.len() < MAX_PACKETS_PER_CALL,
                ReceivePhase::Remote => 1 <= packets.len() <= MAX_PACKETS_PER_CALL,
                ReceivePhase::Finished => packets.len() <= MAX_PACKETS_PER_CALL + 1,
            }
            &&& receiver.phase == ReceivePhase::Finished <==> action is Return
            &&& action matches ReceiveActionView::Return(result) ==> match result {
                Ok(Some(batch)) => batch == packets && batch.len() >= 1,
                Ok(None) => events.last() == ReceiveEvent::<E>::Local(None),
                Err(error) => events.last() == ReceiveEvent::<E>::Remote(Some(Err(error))),
            }
        }),
    decreases events.len(),
{
    if events.len() > 0 {
        let before = events.drop_last();
        assert forall|i: int| 0 <= i < before.len() implies awaits(
            receive_run(before.take(i)).0.phase,
            #[trigger] before[i],
        ) by {
            assert(before.take(i) =~= events.take(i));
            assert(before[i] == events[i]);
        }
        no_packet_is_lost_or_reordered(before);
        assert(events.take(events.len() - 1) =~= before);
        assert(awaits(receive_run(before).0.phase, events[events.len() - 1]));
        let packets = packets_of(events);
        match events.last() {
            ReceiveEvent::Local(Some(packet)) => {
                assert(packets =~= packets_of(before).push(packet));
            },
            ReceiveEvent::Remote(Some(Ok(packet))) => {
                assert(packets =~= packets_of(before).push(packet));
            },
            _ => {
                assert(packets == packets_of(before));
            },
        }
    }
}

/// Whether a packet came with `event`.
pub open spec fn brings_packet<E>(event: ReceiveEvent<E>) -> bool {
    event matches ReceiveEvent::Local(Some(_)) || event matches ReceiveEvent::Remote(Some(Ok(_)))
}

/// A call waits only for its first packet. Before anything happened it waits for any packet; if all
/// that happened is that there is no remote connection, it waits for a local one. Once a packet has
/// come it never waits again: until it returns, it polls the source that the packet came from, and
/// every packet of the call comes from that one source.
pub proof fn a_call_waits_only_for_its_first_packet<E>(events: Seq<ReceiveEvent<E>>)
    requires
        answers_call(events),
    ensures
        receive_run(events).1 is WaitAny <==> events.len() == 0,
        receive_run(events).1 is WaitLocal <==> events.len() == 1 && events[0]
            == ReceiveEvent::<E>::Remote(None),
        (exists|i: int| 0 <= i < events.len() && brings_packet(#[trigger] events[i]))
            ==> receive_run(events).1 is PollLocal || receive_run(events).1 is PollRemote
            || receive_run(events).1 is Return,
        receive_run(events).1 is PollLocal ==> events.last() matches ReceiveEvent::Local(Some(_)),
        receive_run(events).1 is PollRemote ==> events.last() matches ReceiveEvent::Remote(
            Some(Ok(_)),
        ),
        receive_run(events).1 is PollLocal ==> forall|i: int|
            0 <= i < events.len() && brings_packet(#[trigger] events[i]) ==> events[i] is Local,
        receive_run(events).1 is PollRemote ==> forall|i: int|
            0 <= i < events.len() ==> brings_packet(#[trigger] events[i]) && events[i] is Remote,
{
    lemma_source_so_far(events);
    let action = receive_run(events).1;
    if action is WaitLocal {
        assert(!brings_packet(events[0]));
    }
}

/// Where a call is tells what happened in it so far.
proof fn lemma_source_so_far<E>(events: Seq<ReceiveEvent<E>>)
    requires
        answers_call(events),
    ensures
        match receive_run(events) {
            (receiver, action) => match receiver.phase {
                ReceivePhase::Waiting => events.len() == 0 && action is WaitAny,
                ReceivePhase::WaitingLocal => events.len() == 1 && events[0] == ReceiveEvent::<
                    E,
                >::Remote(None) && action is WaitLocal,
                ReceivePhase::Local => {
                    &&& action is PollLocal
                    &&& events.len() > 0
                    &&& events.last() is Local
                    &&& brings_packet(events.last())
                    &&& forall|i: int|
                        0 <= i < events.len() && brings_packet(#[trigger] events[i])
                            ==> events[i] is Local
                },
                ReceivePhase::Remote => {
                    &&& action is PollRemote
                    &&& events.len() > 0
                    &&& forall|i: int|
                        0 <= i < events.len() ==> brings_packet(#[trigger] events[i])
                            && events[i] is Remote
                },
                ReceivePhase::Finished => action is Return && events.len() > 0,
            },
        },
    decreases events.len(),
{
    if events.len() > 0 {
        let before = events.drop_last();
        assert forall|i: int| 0 <= i < before.len() implies awaits(
            receive_run(before.take(i)).0.phase,
            #[trigger] before[i],
        ) by {
            assert(before.take(i) =~= events.take(i));
            assert(before[i] == events[i]);
        }
        lemma_source_so_far(before);
        assert(events.take(events.len() - 1) =~= before);
        assert(awaits(receive_run(before).0.phase, events[events.len() - 1]));
        assert(forall|i: int| 0 <= i < before.len() ==> #[trigger] events[i] == before[i]);
    }
}

/// What one step does with what came. A packet joins those received before it, as the last of
/// them, and then either all of them are returned or more are polled for at its source: they are
/// returned with the 64th of a local batch and with the 65th of a remote one. Without a packet the
/// call ends, or goes on to wait for a local one if it has none yet and there is no remote
/// connection: a source that has nothing ready ends it with what was received, a local connection
/// that is closed ends it with nothing, and a remote one that failed with its error.
pub proof fn a_packet_is_kept_or_returned<E>(
    receiver: &mut Receiver,
    event: ReceiveEvent<E>,
    action: ReceiveAction<E>,
)
    requires
        call_ensures(Receiver::step::<E>, (receiver, event), action),
    ensures
        event matches ReceiveEvent::Local(Some(packet)) ==> {
            let full = old(receiver)@.phase is Local && old(receiver)@.packets.len() >= 63;
            &&& full <==> action is Return
            &&& !full ==> action is PollLocal && final(receiver)@.packets == old(
                receiver,
            )@.packets.push(packet)
            &&& full ==> (action matches ReceiveAction::Return(Ok(Some(batch))) && batch@ == old(
                receiver,
            )@.packets.push(packet))
        },
        event matches ReceiveEvent::Remote(Some(Ok(packet))) ==> {
            let full = old(receiver)@.phase is Remote && old(receiver)@.packets.len() >= 64;
            &&& full <==> action is Return
            &&& !full ==> action is PollRemote && final(receiver)@.packets == old(
                receiver,
            )@.packets.push(packet)
            &&& full ==> (action matches ReceiveAction::Return(Ok(Some(batch))) && batch@ == old(
                receiver,
            )@.packets.push(packet))
        },
        event is NotReady ==> (action matches ReceiveAction::Return(Ok(Some(batch))) && batch@
            == old(receiver)@.packets),
        event == ReceiveEvent::<E>::Local(None) <==> action == ReceiveAction::<E>::Return(Ok(None)),
        event matches ReceiveEvent::Remote(Some(Err(error))) ==> action == ReceiveAction::<
            E,
        >::Return(Err(error)),
        action matches ReceiveAction::Return(Err(error)) ==> event == ReceiveEvent::<E>::Remote(
            Some(Err(error)),
        ),
        event == ReceiveEvent::<E>::Remote(None) && old(receiver)@.phase is Waiting <==> action
            is WaitLocal,
        action is WaitLocal ==> final(receiver)@.packets == old(receiver)@.packets,
        event == ReceiveEvent::<E>::Remote(None) && !(old(receiver)@.phase is Waiting) ==> (
        action matches ReceiveAction::Return(Ok(Some(batch))) && batch@ == old(receiver)@.packets),
        !(action is WaitAny),
{
}

/// A receiver is where its action says: it can be told of whatever the action may bring about, and
/// of nothing once it has returned.
pub proof fn what_a_receiver_asks_for_it_can_be_told<E>(
    receiver: &mut Receiver,
    event: ReceiveEvent<E>,
    action: ReceiveAction<E>,
    answer: ReceiveEvent<E>,
)
    requires
        call_ensures(Receiver::step::<E>, (receiver, event), action),
    ensures
        action is WaitLocal ==> final(receiver)@.phase is WaitingLocal && (awaits(
            final(receiver)@.phase,
            answer,
        ) <==> answer is Local),
        action is PollLocal ==> final(receiver)@.phase is Local && (awaits(
            final(receiver)@.phase,
            answer,
        ) <==> answer is Local || answer is NotReady),
        action is PollRemote ==> final(receiver)@.phase is Remote && (awaits(
            final(receiver)@.phase,
            answer,
        ) <==> answer is Remote || answer is NotReady),
        action is Return ==> final(receiver)@.phase is Finished && !awaits(
            final(receiver)@.phase,
            answer,
        ),
{
}

/// A call starts with nothing received, and waits for anything that a connection yields.
pub proof fn a_call_starts_with_nothing<E>(
    started: (Receiver, ReceiveAction<E>),
    answer: ReceiveEvent<E>,
)
    requires
        call_ensures(receive_packets::<E>, (), started),
    ensures
        started.1 is WaitAny,
        started.0@.packets.len() == 0,
        started.0@.phase is Waiting,
        awaits(started.0@.phase, answer) <==> answer is Local || answer is Remote,
{
}

} // verus!
