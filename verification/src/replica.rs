//! The event loop of a replica.
use std::collections::VecDeque;

use vstd::prelude::*;

use crate::connection::upgraded;
use crate::outboxes::{are_batches_of, Outboxes};
use crate::outputs::ChannelChange;
use crate::packet::{KeyComparison, LocalNodeIndex, Packet, PacketData, ReplicaAddress};
use crate::replay::{
    batched_request_is_the_only_one, batching_asks_for_nothing_new, batching_keeps_plain_packets,
    batching_keeps_requested_keys, is_replay_of, lemma_keys_by_their_parts,
    lemma_requested_keys_prepend, merge_reader_replays, merges_replays, plain_packets,
    replay_keys, requested_keys, without_repeats,
};

verus! {

/// How often the domain updates its state sizes, in milliseconds.
pub const REFRESH_SIZES_MILLIS: u64 = 500;

/// How long the replica sleeps at most when the domain has nothing scheduled, in seconds.
pub const IDLE_SLEEP_SECS: u64 = 3600;

/// A domain request wrapped together with the sender to which to send the processing result.
pub struct WrappedDomainRequest<R, T> {
    pub req: R,
    pub done_tx: T,
}

/// The state that a node of the domain is initialised with.
pub struct MaterializedState<S> {
    pub node: LocalNodeIndex,
    pub state: S,
}

/// What happened to a replica: one of the things that it waits for, or the outcome of the last
/// action.
pub enum RunEvent<R, T, S, E> {
    /// An incoming connection was accepted, or accepting one failed.
    Accepted(Result<(), E>),
    /// An accepted connection was upgraded and has drawn this token, or (`None`) was given up.
    Established(Option<u64>),
    /// The addresses of replicas have changed.
    ChannelChanged(ChannelChange),
    /// A domain request came, or there will be none any more.
    Request(Option<WrappedDomainRequest<R, T>>),
    /// State for a node came, or there will be none any more.
    InitState(Option<MaterializedState<S>>),
    /// Packets came, or receiving them failed, or there will be none any more. The tokens are those
    /// of the connections that are open.
    Packets { received: Result<Option<VecDeque<Packet>>, E>, connections: Vec<u64> },
    /// The delivery of packets returned.
    Sent(Result<(), E>),
    /// It is time to update the state sizes.
    RefreshSizes,
    /// The sleep is over.
    Timeout,
    /// The outcome of the last action.
    Done(Result<(), E>),
}

/// What a replica needs next.
pub enum RunAction<R, T, S, E> {
    /// Wait until something happens.
    Select,
    /// Read the first byte of the accepted connection, and upgrade it.
    Preprocess,
    /// Receive packets from the upgraded connection, too.
    Register { token: u64 },
    /// Forget the connections that the change makes invalid.
    Forget(ChannelChange),
    /// Have the domain process the request, and answer it.
    ProcessRequest(WrappedDomainRequest<R, T>),
    /// Have the domain process the state.
    ProcessState(MaterializedState<S>),
    /// Have the domain update its state sizes.
    UpdateStateSizes,
    /// Have the domain handle its timeout.
    HandleTimeout,
    /// Have the domain handle the packet.
    Handle(Packet),
    /// Acknowledge the packet with this tag over the connection with this token.
    Ack { token: u64, tag: u32 },
    /// Start to deliver the packets.
    StartSend(Vec<(ReplicaAddress, VecDeque<Packet>)>),
    /// Return.
    Return(Result<(), E>),
}

/// Where a replica is, with the packets that it has received and not handled.
enum Phase {
    Selecting,
    Acting,
    Handling { rest: VecDeque<Packet>, ack: Option<(u64, u32)>, connections: Vec<u64> },
    Acking { rest: VecDeque<Packet>, connections: Vec<u64> },
    Starting,
    Finished,
}

/// A replica handles the communication and coordination of a domain.
pub struct Replica {
    /// Stores pending outgoing packets.
    out: Outboxes,
    /// Whether a delivery is under way.
    sending: bool,
    phase: Phase,
}

/// Where a replica is.
pub enum RunPhase {
    /// Waits for something to happen.
    Selecting,
    /// Waits for the outcome of an action, which ends the turn of the loop.
    Acting,
    /// Waits for the domain to handle a packet, to be acknowledged if `ack` is given; the packets
    /// in `rest` are next.
    Handling { rest: Seq<Packet>, ack: Option<(u64, u32)>, connections: Seq<u64> },
    /// Waits for a packet to be acknowledged; the packets in `rest` are next.
    Acking { rest: Seq<Packet>, connections: Seq<u64> },
    /// Waits for a delivery to be started.
    Starting,
    /// Has returned.
    Finished,
}

/// A replica as it is specified: its outgoing packets, whether a delivery is under way, and where
/// it is.
pub struct ReplicaView {
    pub out: Map<ReplicaAddress, Seq<Packet>>,
    pub sending: bool,
    pub phase: RunPhase,
}

impl Phase {
    spec fn view(self) -> RunPhase {
        match self {
            Phase::Selecting => RunPhase::Selecting,
            Phase::Acting => RunPhase::Acting,
            Phase::Handling { rest, ack, connections } => RunPhase::Handling {
                rest: rest@,
                ack,
                connections: connections@,
            },
            Phase::Acking { rest, connections } => RunPhase::Acking {
                rest: rest@,
                connections: connections@,
            },
            Phase::Starting => RunPhase::Starting,
            Phase::Finished => RunPhase::Finished,
        }
    }
}

impl View for Replica {
    type V = ReplicaView;

    closed spec fn view(&self) -> ReplicaView {
        ReplicaView { out: self.out@, sending: self.sending, phase: self.phase.view() }
    }
}

/// Whether a replica in `phase` can be told of `event`.
pub open spec fn expects<R, T, S, E>(
    phase: RunPhase,
    sending: bool,
    event: RunEvent<R, T, S, E>,
) -> bool {
    match phase {
        RunPhase::Selecting => !(event is Done) && (event is Sent ==> sending),
        RunPhase::Finished => false,
        _ => event is Done,
    }
}

/// To which connection a packet has to be acknowledged once it is handled, and with which tag:
/// input and timestamps are, to the connection that they came by, if that is still open.
pub open spec fn ack_for(packet: Packet, connections: Seq<u64>) -> Option<(u64, u32)> {
    match packet {
        Packet::Input { src, .. } => {
            if connections.contains(src.token) {
                Some((src.token, src.tag))
            } else {
                None
            }
        },
        Packet::Timestamp { src, .. } => {
            if connections.contains(src.token) {
                Some((src.token, src.tag))
            } else {
                None
            }
        },
        _ => None,
    }
}

/// The end of a turn of the loop: if no delivery is under way and packets wait for one, all of
/// them are taken out for a delivery, which is started; then the replica waits for something to
/// happen.
pub open spec fn ends_turn<R, T, S, E>(
    pre: ReplicaView,
    post: ReplicaView,
    action: RunAction<R, T, S, E>,
) -> bool {
    if !pre.sending && !pre.out.is_empty() {
        &&& post.out.is_empty()
        &&& post.sending
        &&& post.phase == RunPhase::Starting
        &&& action matches RunAction::StartSend(batches) && are_batches_of(batches@, pre.out)
    } else {
        &&& post == (ReplicaView { phase: RunPhase::Selecting, ..pre })
        &&& action == RunAction::<R, T, S, E>::Select
    }
}

/// The first of the received packets, batched with those behind it, is handed to the domain; when
/// there is none left the turn ends.
pub open spec fn handles_next<R, T, S, E>(
    pre: ReplicaView,
    rest: Seq<Packet>,
    connections: Seq<u64>,
    post: ReplicaView,
    action: RunAction<R, T, S, E>,
) -> bool {
    if rest.len() == 0 {
        ends_turn(pre, post, action)
    } else {
        &&& post.out == pre.out
        &&& post.sending == pre.sending
        &&& action is Handle
        &&& post.phase is Handling
        &&& post.phase->ack == ack_for(rest.first(), connections)
        &&& post.phase->Handling_connections == connections
        &&& merges_replays(
            rest.first(),
            rest.drop_first(),
            action->Handle_0,
            post.phase->Handling_rest,
        )
    }
}

/// The replica returns `result`.
pub open spec fn loop_returns<R, T, S, E>(
    pre: ReplicaView,
    result: Result<(), E>,
    post: ReplicaView,
    action: RunAction<R, T, S, E>,
) -> bool {
    &&& post == (ReplicaView { phase: RunPhase::Finished, ..pre })
    &&& action == RunAction::<R, T, S, E>::Return(result)
}

/// The replica acts, and waits for the outcome.
pub open spec fn acts<R, T, S, E>(
    pre: ReplicaView,
    wanted: RunAction<R, T, S, E>,
    post: ReplicaView,
    action: RunAction<R, T, S, E>,
) -> bool {
    &&& post == (ReplicaView { phase: RunPhase::Acting, ..pre })
    &&& action == wanted
}

/// Whether a replica in `pre` that is told of `event` is then in `post`, and needs `action`.
pub open spec fn run_step<R, T, S, E>(
    pre: ReplicaView,
    event: RunEvent<R, T, S, E>,
    post: ReplicaView,
    action: RunAction<R, T, S, E>,
) -> bool {
    match event {
        RunEvent::Accepted(Ok(_)) => acts(pre, RunAction::Preprocess, post, action),
        RunEvent::Accepted(Err(error)) => loop_returns(pre, Err(error), post, action),
        RunEvent::Established(Some(token)) => acts(
            pre,
            RunAction::Register { token },
            post,
            action,
        ),
        // Connections that were given up do not matter; not even the turn is ended.
        RunEvent::Established(None) => post == pre && action == RunAction::<R, T, S, E>::Select,
        RunEvent::ChannelChanged(change) => acts(pre, RunAction::Forget(change), post, action),
        RunEvent::Request(Some(request)) => acts(
            pre,
            RunAction::ProcessRequest(request),
            post,
            action,
        ),
        RunEvent::Request(None) => loop_returns(pre, Ok(()), post, action),
        RunEvent::InitState(Some(state)) => acts(
            pre,
            RunAction::ProcessState(state),
            post,
            action,
        ),
        RunEvent::InitState(None) => loop_returns(pre, Ok(()), post, action),
        RunEvent::Packets { received: Ok(Some(packets)), connections } => handles_next(
            pre,
            packets@,
            connections@,
            post,
            action,
        ),
        RunEvent::Packets { received: Ok(None), .. } => loop_returns(pre, Ok(()), post, action),
        RunEvent::Packets { received: Err(error), .. } => loop_returns(
            pre,
            Err(error),
            post,
            action,
        ),
        RunEvent::Sent(Ok(_)) => ends_turn(ReplicaView { sending: false, ..pre }, post, action),
        RunEvent::Sent(Err(error)) => loop_returns(
            ReplicaView { sending: false, ..pre },
            Err(error),
            post,
            action,
        ),
        RunEvent::RefreshSizes => acts(pre, RunAction::UpdateStateSizes, post, action),
        RunEvent::Timeout => acts(pre, RunAction::HandleTimeout, post, action),
        RunEvent::Done(Err(error)) => loop_returns(pre, Err(error), post, action),
        RunEvent::Done(Ok(_)) => match pre.phase {
            RunPhase::Handling { rest, ack: Some((token, tag)), connections } => {
                &&& post == (ReplicaView { phase: RunPhase::Acking { rest, connections }, ..pre })
                &&& action == (RunAction::<R, T, S, E>::Ack { token, tag })
            },
            RunPhase::Handling { rest, ack: None, connections } => handles_next(
                pre,
                rest,
                connections,
                post,
                action,
            ),
            RunPhase::Acking { rest, connections } => handles_next(
                pre,
                rest,
                connections,
                post,
                action,
            ),
            RunPhase::Starting => {
                &&& post == (ReplicaView { phase: RunPhase::Selecting, ..pre })
                &&& action == RunAction::<R, T, S, E>::Select
            },
            _ => ends_turn(pre, post, action),
        },
    }
}

/// Whether a token is among those of the open connections.
fn is_open(connections: &Vec<u64>, token: u64) -> (open: bool)
    ensures
        open == connections@.contains(token),
{
    let mut i: usize = 0;
    while i < connections.len()
        invariant
            i <= connections@.len(),
            forall|j: int| 0 <= j < i ==> connections@[j] != token,
        decreases connections@.len() - i,
    {
        if connections[i] == token {
            return true;
        }
        i = i + 1;
    }
    false
}

/// To which connection a packet has to be acknowledged once it is handled, and with which tag.
pub fn ack_target(packet: &Packet, connections: &Vec<u64>) -> (ack: Option<(u64, u32)>)
    ensures
        ack == ack_for(*packet, connections@),
{
    match packet {
        Packet::Timestamp { src, .. } => {
            if is_open(connections, src.token) {
                Some((src.token, src.tag))
            } else {
                None
            }
        },
        Packet::Input { src, .. } => {
            if is_open(connections, src.token) {
                Some((src.token, src.tag))
            } else {
                None
            }
        },
        _ => None,
    }
}

/// How long the replica sleeps before it has the domain handle its timeout, in seconds and
/// nanoseconds: until the domain wants to be polled next, or the longest sleep if it does not.
pub fn sleep_time(next_poll: Option<(u64, u32)>) -> (sleep: (u64, u32))
    ensures
        sleep == match next_poll {
            Some(duration) => duration,
            None => (IDLE_SLEEP_SECS, 0u32),
        },
{
    match next_poll {
        Some(duration) => duration,
        None => (IDLE_SLEEP_SECS, 0),
    }
}

impl Replica {
    /// A replica without packets to deliver, which waits for something to happen.
    pub fn new() -> (replica: Self)
        ensures
            replica@.out.is_empty(),
            !replica@.sending,
            replica@.phase == RunPhase::Selecting,
            settled(replica@),
    {
        Replica { out: Outboxes::new(), sending: false, phase: Phase::Selecting }
    }

    /// The pending outgoing packets: what the domain sends while it acts goes there.
    pub fn outboxes(&mut self) -> (out: &mut Outboxes)
        ensures
            out@ == old(self)@.out,
            final(self)@ == (ReplicaView { out: final(out)@, ..old(self)@ }),
    {
        &mut self.out
    }

    /// Ends a turn of the loop.
    fn end_turn<R, T, S, E>(&mut self) -> (action: RunAction<R, T, S, E>)
        ensures
            ends_turn(old(self)@, final(self)@, action),
    {
        if !self.sending && !self.out.is_empty() {
            let to_send = self.out.take_batches();
            self.sending = true;
            self.phase = Phase::Starting;
            RunAction::StartSend(to_send)
        } else {
            self.phase = Phase::Selecting;
            RunAction::Select
        }
    }

    /// Hands the first of the received packets to the domain.
    fn handle_next<R, T, S, E>(
        &mut self,
        rest: VecDeque<Packet>,
        connections: Vec<u64>,
    ) -> (action: RunAction<R, T, S, E>)
        ensures
            handles_next(old(self)@, rest@, connections@, final(self)@, action),
    {
        let ghost all = rest@;
        let mut rest = rest;
        match rest.pop_front() {
            None => self.end_turn(),
            Some(packet) => {
                assert(rest@ =~= all.drop_first());
                let ack = ack_target(&packet, &connections);
                let packet = merge_reader_replays(packet, &mut rest);
                self.phase = Phase::Handling { rest, ack, connections };
                RunAction::Handle(packet)
            },
        }
    }

    /// Returns from the loop.
    fn finish<R, T, S, E>(&mut self, result: Result<(), E>) -> (action: RunAction<R, T, S, E>)
        ensures
            loop_returns(old(self)@, result, final(self)@, action),
    {
        self.phase = Phase::Finished;
        RunAction::Return(result)
    }

    /// Tells the replica what happened, and learns what it needs next.
    pub fn run<R, T, S, E>(&mut self, event: RunEvent<R, T, S, E>) -> (action: RunAction<
        R,
        T,
        S,
        E,
    >)
        requires
            expects(old(self)@.phase, old(self)@.sending, event),
        ensures
            run_step(old(self)@, event, final(self)@, action),
    {
        let mut phase = Phase::Acting;
        std::mem::swap(&mut phase, &mut self.phase);
        match event {
            RunEvent::Accepted(Ok(_)) => RunAction::Preprocess,
            RunEvent::Accepted(Err(error)) => self.finish(Err(error)),
            RunEvent::Established(Some(token)) => RunAction::Register { token },
            RunEvent::Established(None) => {
                self.phase = Phase::Selecting;
                RunAction::Select
            },
            RunEvent::ChannelChanged(change) => RunAction::Forget(change),
            RunEvent::Request(Some(request)) => RunAction::ProcessRequest(request),
            RunEvent::Request(None) => self.finish(Ok(())),
            RunEvent::InitState(Some(state)) => RunAction::ProcessState(state),
            RunEvent::InitState(None) => self.finish(Ok(())),
            RunEvent::Packets { received: Ok(Some(packets)), connections } => {
                self.handle_next(packets, connections)
            },
            RunEvent::Packets { received: Ok(None), .. } => self.finish(Ok(())),
            RunEvent::Packets { received: Err(error), .. } => self.finish(Err(error)),
            RunEvent::Sent(Ok(_)) => {
                self.sending = false;
                self.end_turn()
            },
            RunEvent::Sent(Err(error)) => {
                self.sending = false;
                self.finish(Err(error))
            },
            RunEvent::RefreshSizes => RunAction::UpdateStateSizes,
            RunEvent::Timeout => RunAction::HandleTimeout,
            RunEvent::Done(Err(error)) => self.finish(Err(error)),
            RunEvent::Done(Ok(_)) => match phase {
                Phase::Handling { rest, ack: Some((token, tag)), connections } => {
                    self.phase = Phase::Acking { rest, connections };
                    RunAction::Ack { token, tag }
                },
                Phase::Handling { rest, ack: None, connections } => {
                    self.handle_next(rest, connections)
                },
                Phase::Acking { rest, connections } => self.handle_next(rest, connections),
                Phase::Starting => {
                    self.phase = Phase::Selecting;
                    RunAction::Select
                },
                _ => self.end_turn(),
            },
        }
    }
}

/// Input and timestamps from a base connection are acknowledged over that very connection, with
/// the tag that they came with, as long as the connection is open.
pub proof fn acks_go_back_to_the_source(
    token: u64,
    tag: u32,
    input: PacketData,
    connections: Seq<u64>,
)
    ensures
        ack_for(upgraded(token, tag, input), connections) == if connections.contains(token) {
            Some((token, tag))
        } else {
            None
        },
{
}

/// There is never more than one delivery under way: one is started only if none is, or the one
/// that was has just returned, and one that is under way goes on until it returns.
pub proof fn one_delivery_at_a_time<R, T, S, E>(
    pre: ReplicaView,
    event: RunEvent<R, T, S, E>,
    post: ReplicaView,
    action: RunAction<R, T, S, E>,
)
    requires
        expects(pre.phase, pre.sending, event),
        run_step(pre, event, post, action),
    ensures
        action is StartSend ==> post.sending && (pre.sending ==> event is Sent),
        pre.sending && !(event is Sent) ==> post.sending,
        !pre.sending && post.sending ==> action is StartSend,
{
}

/// Whether no packet waits without a delivery under way while the replica waits.
pub open spec fn settled(replica: ReplicaView) -> bool {
    match replica.phase {
        RunPhase::Selecting => replica.sending || replica.out.is_empty(),
        RunPhase::Starting => replica.sending,
        _ => true,
    }
}

/// While a replica waits for something to happen, every packet that was sent is being delivered, or
/// a delivery is under way and the packet is taken up after it: nothing is left lying. A new
/// replica is settled, every step keeps it so, and so does what the domain sends as it acts.
pub proof fn nothing_is_left_lying<R, T, S, E>(
    pre: ReplicaView,
    event: RunEvent<R, T, S, E>,
    post: ReplicaView,
    action: RunAction<R, T, S, E>,
    out: Map<ReplicaAddress, Seq<Packet>>,
)
    requires
        expects(pre.phase, pre.sending, event),
        run_step(pre, event, post, action),
    ensures
        settled(pre) ==> settled(post),
        settled(post) && !(post.phase is Selecting) ==> settled(ReplicaView { out, ..post }),
{
}

/// No step drops a packet that waits for delivery: it still waits after the step, or is in a batch
/// of the delivery that the step starts.
pub proof fn outgoing_packets_are_kept<R, T, S, E>(
    pre: ReplicaView,
    event: RunEvent<R, T, S, E>,
    post: ReplicaView,
    action: RunAction<R, T, S, E>,
)
    requires
        expects(pre.phase, pre.sending, event),
        run_step(pre, event, post, action),
    ensures
        match action {
            RunAction::StartSend(batches) => post.out.is_empty() && are_batches_of(
                batches@,
                pre.out,
            ),
            _ => post.out == pre.out,
        },
{
}

/// The loop returns on three occasions without an error: when there will be no more domain
/// requests, no more state, or no more local packets. It returns with an error exactly when it is
/// told of one.
pub proof fn when_the_loop_returns<R, T, S, E>(
    pre: ReplicaView,
    event: RunEvent<R, T, S, E>,
    post: ReplicaView,
    action: RunAction<R, T, S, E>,
)
    requires
        expects(pre.phase, pre.sending, event),
        run_step(pre, event, post, action),
    ensures
        action == RunAction::<R, T, S, E>::Return(Ok(())) <==> match event {
            RunEvent::Request(None) => true,
            RunEvent::InitState(None) => true,
            RunEvent::Packets { received: Ok(None), .. } => true,
            _ => false,
        },
        forall|error: E| #[trigger]
            error_of(event) == Some(error) <==> action == RunAction::<R, T, S, E>::Return(
                Err(error),
            ),
        action is Return <==> post.phase is Finished,
{
}

/// The error that an event tells of, if any.
pub open spec fn error_of<R, T, S, E>(event: RunEvent<R, T, S, E>) -> Option<E> {
    match event {
        RunEvent::Accepted(Err(error)) => Some(error),
        RunEvent::Packets { received: Err(error), .. } => Some(error),
        RunEvent::Sent(Err(error)) => Some(error),
        RunEvent::Done(Err(error)) => Some(error),
        _ => None,
    }
}

/// One step of a replica.
pub struct Turn<R, T, S, E> {
    pub pre: ReplicaView,
    pub event: RunEvent<R, T, S, E>,
    pub post: ReplicaView,
    pub action: RunAction<R, T, S, E>,
}

/// Whether `turns` are the steps in which a replica handles the packets `batch`: it is told of the
/// packets, and then that each action was done. In between the domain may send packets.
pub open spec fn handles_batch<R, T, S, E>(
    turns: Seq<Turn<R, T, S, E>>,
    batch: Seq<Packet>,
    connections: Seq<u64>,
) -> bool {
    &&& turns.len() > 0
    &&& match turns[0].event {
        RunEvent::Packets { received: Ok(Some(p)), connections: c } => p@ == batch && c@
            == connections,
        _ => false,
    }
    &&& forall|i: int|
        0 < i < turns.len() ==> (#[trigger] turns[i]).event == RunEvent::<R, T, S, E>::Done(Ok(()))
            && turns[i].pre.phase == turns[i - 1].post.phase
    &&& forall|i: int|
        0 <= i < turns.len() ==> {
            let turn = #[trigger] turns[i];
            expects(turn.pre.phase, turn.pre.sending, turn.event) && run_step(
                turn.pre,
                turn.event,
                turn.post,
                turn.action,
            )
        }
}

/// The packet that an action hands to the domain, unless it is a replay request.
pub open spec fn handled_by<R, T, S, E>(action: RunAction<R, T, S, E>) -> Seq<Packet> {
    match action {
        RunAction::Handle(packet) => plain_packets(seq![packet]),
        _ => Seq::empty(),
    }
}

/// The acknowledgement that an action sends.
pub open spec fn acked_by<R, T, S, E>(action: RunAction<R, T, S, E>) -> Seq<(u64, u32)> {
    match action {
        RunAction::Ack { token, tag } => seq![(token, tag)],
        _ => Seq::empty(),
    }
}

/// The packets that the domain was handed in some steps, in their order.
pub open spec fn handled<R, T, S, E>(turns: Seq<Turn<R, T, S, E>>) -> Seq<Packet>
    decreases turns.len(),
{
    if turns.len() == 0 {
        Seq::empty()
    } else {
        match turns.last().action {
            RunAction::Handle(packet) => handled(turns.drop_last()).push(packet),
            _ => handled(turns.drop_last()),
        }
    }
}

/// Whether the domain is handed `packet` in place of `received`, one of the packets of `batch`: the
/// packet itself, or, for a replay request, one for the same columns of the same reader with all
/// the keys that the batch asks of them, each once.
pub open spec fn stands_for(packet: Packet, received: Packet, batch: Seq<Packet>) -> bool {
    match received {
        Packet::RequestReaderReplay { node, cols, .. } => {
            &&& is_replay_of(packet, node, cols@)
            &&& replay_keys(packet).no_duplicates()
            &&& replay_keys(packet).to_set() == requested_keys(batch, node, cols@)
        },
        _ => packet == received,
    }
}

/// Whether what was handled stands for the first packets of the batch, repeated replay requests
/// aside, and what is unhandled is the rest of them.
pub open spec fn keeps_order(
    handled: Seq<Packet>,
    unhandled: Seq<Packet>,
    batch: Seq<Packet>,
) -> bool {
    let order = without_repeats(batch);
    &&& handled.len() <= order.len()
    &&& without_repeats(unhandled) == order.skip(handled.len() as int)
    &&& forall|i: int|
        0 <= i < handled.len() ==> stands_for(#[trigger] handled[i], order[i], batch)
}

/// The packets, other than replay requests, that the domain was handed in some steps.
pub open spec fn handled_plain<R, T, S, E>(turns: Seq<Turn<R, T, S, E>>) -> Seq<Packet>
    decreases turns.len(),
{
    if turns.len() == 0 {
        Seq::empty()
    } else {
        handled_plain(turns.drop_last()) + handled_by(turns.last().action)
    }
}

/// The acknowledgements that were sent in some steps.
pub open spec fn acks_sent<R, T, S, E>(turns: Seq<Turn<R, T, S, E>>) -> Seq<(u64, u32)>
    decreases turns.len(),
{
    if turns.len() == 0 {
        Seq::empty()
    } else {
        acks_sent(turns.drop_last()) + acked_by(turns.last().action)
    }
}

/// The acknowledgement that a packet calls for.
pub open spec fn ack_due(packet: Packet, connections: Seq<u64>) -> Seq<(u64, u32)> {
    match ack_for(packet, connections) {
        Some(ack) => seq![ack],
        None => Seq::empty(),
    }
}

/// The acknowledgements that some packets call for, in their order.
pub open spec fn acks_due(packets: Seq<Packet>, connections: Seq<u64>) -> Seq<(u64, u32)>
    decreases packets.len(),
{
    if packets.len() == 0 {
        Seq::empty()
    } else {
        acks_due(packets.drop_last(), connections) + ack_due(packets.last(), connections)
    }
}

/// The received packets that are not handed to the domain yet.
pub open spec fn unhandled(phase: RunPhase) -> Seq<Packet> {
    match phase {
        RunPhase::Handling { rest, .. } => rest,
        RunPhase::Acking { rest, .. } => rest,
        _ => Seq::empty(),
    }
}

/// The acknowledgement that is to be sent once the packet at hand is handled.
pub open spec fn ack_at_hand(phase: RunPhase) -> Seq<(u64, u32)> {
    match phase {
        RunPhase::Handling { ack: Some(ack), .. } => seq![ack],
        _ => Seq::empty(),
    }
}

/// Replay requests call for no acknowledgement.
proof fn lemma_acks_due_of_plain(packets: Seq<Packet>, connections: Seq<u64>)
    ensures
        acks_due(plain_packets(packets), connections) == acks_due(packets, connections),
    decreases packets.len(),
{
    reveal(Seq::filter);
    if packets.len() > 0 {
        let plain = |p: Packet| !(p is RequestReaderReplay);
        let fewer = packets.drop_last();
        lemma_acks_due_of_plain(fewer, connections);
        assert(packets =~= fewer.push(packets.last()));
        fewer.lemma_filter_push(packets.last(), plain);
        if plain(packets.last()) {
            assert(plain_packets(packets).drop_last() =~= plain_packets(fewer));
        } else {
            assert(acks_due(packets, connections) =~= acks_due(fewer, connections));
        }
    }
}

/// The packet in front calls for its acknowledgement first.
proof fn lemma_acks_due_prepend(packet: Packet, packets: Seq<Packet>, connections: Seq<u64>)
    ensures
        acks_due(seq![packet] + packets, connections) == ack_due(packet, connections) + acks_due(
            packets,
            connections,
        ),
    decreases packets.len(),
{
    let all = seq![packet] + packets;
    if packets.len() == 0 {
        assert(all.drop_last() =~= Seq::empty());
        assert(all.last() == packet);
        assert(acks_due(all.drop_last(), connections) =~= Seq::empty());
        assert(acks_due(packets, connections) =~= Seq::empty());
    } else {
        let fewer = packets.drop_last();
        lemma_acks_due_prepend(packet, fewer, connections);
        assert(all.drop_last() =~= seq![packet] + fewer);
        assert(all.last() == packets.last());
        assert(acks_due(all, connections) == acks_due(seq![packet] + fewer, connections) + ack_due(
            packets.last(),
            connections,
        ));
    }
    assert(acks_due(all, connections) =~= ack_due(packet, connections) + acks_due(
        packets,
        connections,
    ));
}

/// What one packet that is handed to the domain leaves.
proof fn lemma_handles_next<R, T, S, E>(
    pre: ReplicaView,
    rest: Seq<Packet>,
    connections: Seq<u64>,
    post: ReplicaView,
    action: RunAction<R, T, S, E>,
)
    requires
        handles_next(pre, rest, connections, post, action),
    ensures
        plain_packets(rest) == handled_by(action) + plain_packets(unhandled(post.phase)),
        acks_due(rest, connections) == ack_at_hand(post.phase) + acks_due(
            unhandled(post.phase),
            connections,
        ),
        !(action is Ack),
        post.phase is Handling ==> post.phase->Handling_connections == connections,
        !(post.phase is Acking),
        !(post.phase is Acting),
{
    reveal(Seq::filter);
    let plain = |p: Packet| !(p is RequestReaderReplay);
    if rest.len() == 0 {
        assert(plain_packets(rest) =~= Seq::empty());
        assert(acks_due(rest, connections) =~= Seq::empty());
        assert(unhandled(post.phase) =~= Seq::empty());
        assert(plain_packets(unhandled(post.phase)) =~= Seq::empty());
    } else {
        let packet = rest.first();
        let behind = rest.drop_first();
        let merged = action->Handle_0;
        let left = unhandled(post.phase);
        assert(rest =~= seq![packet] + behind);
        batching_keeps_plain_packets(packet, behind, merged, left);
        lemma_acks_due_prepend(packet, behind, connections);
        lemma_acks_due_of_plain(behind, connections);
        lemma_acks_due_of_plain(left, connections);
        left.lemma_filter_prepend(merged, plain);
        Seq::<Packet>::empty().lemma_filter_prepend(merged, plain);
        assert(seq![merged] + Seq::<Packet>::empty() =~= seq![merged]);
        assert(plain_packets(rest) =~= plain_packets(seq![merged]) + plain_packets(left));
        assert(ack_at_hand(post.phase) == ack_due(packet, connections));
    }
}

/// The packets of a batch, replay requests aside, are handed to the domain one by one, in the order
/// in which they were received, none twice and none left out; and each is acknowledged, once, after
/// it was handled and in that order, if it calls for it. A batched replay request is handed to the
/// domain where the first of the requests that it stands for was received. What is not handled yet
/// is still to come, and once the replica waits again everything was handled and acknowledged.
pub proof fn batches_are_handled_in_order<R, T, S, E>(
    turns: Seq<Turn<R, T, S, E>>,
    batch: Seq<Packet>,
    connections: Seq<u64>,
)
    requires
        handles_batch(turns, batch, connections),
    ensures
        ({
            let phase = turns.last().post.phase;
            &&& plain_packets(batch) == handled_plain(turns) + plain_packets(unhandled(phase))
            &&& acks_due(batch, connections) == acks_sent(turns) + (ack_at_hand(phase) + acks_due(
                unhandled(phase),
                connections,
            ))
            &&& phase is Selecting ==> handled_plain(turns) == plain_packets(batch) && acks_sent(
                turns,
            ) == acks_due(batch, connections)
            &&& keeps_order(handled(turns), unhandled(phase), batch)
            &&& phase is Selecting ==> handled(turns).len() == without_repeats(batch).len()
        }),
{
    lemma_batch_so_far(turns, batch, connections);
    lemma_order_so_far(turns, batch, connections);
    let phase = turns.last().post.phase;
    if phase is Selecting {
        reveal(Seq::filter);
        assert(plain_packets(unhandled(phase)) =~= Seq::empty());
        assert(acks_due(unhandled(phase), connections) =~= Seq::empty());
        assert(handled_plain(turns) =~= plain_packets(batch));
        assert(acks_sent(turns) =~= acks_due(batch, connections));
    }
}

/// Whether a replica that is in the middle of a batch goes by the connections `connections`.
spec fn goes_by(phase: RunPhase, connections: Seq<u64>) -> bool {
    match phase {
        RunPhase::Acting => false,
        RunPhase::Handling { connections: c, .. } => c == connections,
        RunPhase::Acking { connections: c, .. } => c == connections,
        _ => true,
    }
}

/// What one step in the middle of a batch hands to the domain and acknowledges.
proof fn lemma_batch_step<R, T, S, E>(turn: Turn<R, T, S, E>, connections: Seq<u64>)
    requires
        goes_by(turn.pre.phase, connections),
        turn.event == RunEvent::<R, T, S, E>::Done(Ok(())),
        expects(turn.pre.phase, turn.pre.sending, turn.event),
        run_step(turn.pre, turn.event, turn.post, turn.action),
    ensures
        goes_by(turn.post.phase, connections),
        plain_packets(unhandled(turn.pre.phase)) == handled_by(turn.action) + plain_packets(
            unhandled(turn.post.phase),
        ),
        ack_at_hand(turn.pre.phase) + acks_due(unhandled(turn.pre.phase), connections) == acked_by(
            turn.action,
        ) + (ack_at_hand(turn.post.phase) + acks_due(unhandled(turn.post.phase), connections)),
{
    let none = Seq::<(u64, u32)>::empty();
    match turn.pre.phase {
        RunPhase::Handling { rest, ack: None, .. } => {
            lemma_handles_next(turn.pre, rest, connections, turn.post, turn.action);
        },
        RunPhase::Handling { rest, ack: Some(ack), .. } => {
            assert(plain_packets(rest) =~= handled_by(turn.action) + plain_packets(rest));
            assert(none + acks_due(rest, connections) =~= acks_due(rest, connections));
        },
        RunPhase::Acking { rest, .. } => {
            lemma_handles_next(turn.pre, rest, connections, turn.post, turn.action);
        },
        _ => {
            assert(unhandled(turn.post.phase) =~= unhandled(turn.pre.phase));
            assert(handled_by(turn.action) =~= Seq::empty());
            assert(plain_packets(unhandled(turn.pre.phase)) =~= handled_by(turn.action)
                + plain_packets(unhandled(turn.post.phase)));
        },
    }
    assert(ack_at_hand(turn.pre.phase) + acks_due(unhandled(turn.pre.phase), connections)
        =~= acked_by(turn.action) + (ack_at_hand(turn.post.phase) + acks_due(
        unhandled(turn.post.phase),
        connections,
    )));
}

/// What was handed to the domain and acknowledged, and what is still to come, make up the batch.
proof fn lemma_batch_so_far<R, T, S, E>(
    turns: Seq<Turn<R, T, S, E>>,
    batch: Seq<Packet>,
    connections: Seq<u64>,
)
    requires
        handles_batch(turns, batch, connections),
    ensures
        goes_by(turns.last().post.phase, connections),
        plain_packets(batch) == handled_plain(turns) + plain_packets(
            unhandled(turns.last().post.phase),
        ),
        acks_due(batch, connections) == acks_sent(turns) + (ack_at_hand(turns.last().post.phase)
            + acks_due(unhandled(turns.last().post.phase), connections)),
    decreases turns.len(),
{
    let turn = turns.last();
    let before = turns.drop_last();
    let phase = turn.post.phase;
    assert(turn == turns[turns.len() - 1]);
    if turns.len() == 1 {
        assert(before =~= Seq::empty());
        lemma_handles_next(turn.pre, batch, connections, turn.post, turn.action);
        assert(handled_plain(before) =~= Seq::empty());
        assert(acks_sent(before) =~= Seq::empty());
    } else {
        lemma_shorter_batch(turns, batch, connections);
        lemma_batch_so_far(before, batch, connections);
        lemma_batch_step(turn, connections);
    }
    assert(plain_packets(batch) =~= handled_plain(turns) + plain_packets(unhandled(phase)));
    assert(acks_due(batch, connections) =~= acks_sent(turns) + (ack_at_hand(phase) + acks_due(
        unhandled(phase),
        connections,
    )));
}

/// All steps but the last handle the same batch.
proof fn lemma_shorter_batch<R, T, S, E>(
    turns: Seq<Turn<R, T, S, E>>,
    batch: Seq<Packet>,
    connections: Seq<u64>,
)
    requires
        handles_batch(turns, batch, connections),
        turns.len() > 1,
    ensures
        handles_batch(turns.drop_last(), batch, connections),
        turns.last().pre.phase == turns.drop_last().last().post.phase,
        turns.last().event == RunEvent::<R, T, S, E>::Done(Ok(())),
{
    let before = turns.drop_last();
    assert(turns.last() == turns[turns.len() - 1]);
    assert forall|i: int| 0 < i < before.len() implies (#[trigger] before[i]).event == RunEvent::<
        R,
        T,
        S,
        E,
    >::Done(Ok(())) && before[i].pre.phase == before[i - 1].post.phase by {
        assert(before[i] == turns[i]);
        assert(before[i - 1] == turns[i - 1]);
    }
    assert forall|i: int| 0 <= i < before.len() implies {
        let turn = #[trigger] before[i];
        expects(turn.pre.phase, turn.pre.sending, turn.event) && run_step(
            turn.pre,
            turn.event,
            turn.post,
            turn.action,
        )
    } by {
        assert(before[i] == turns[i]);
    }
}

/// How many actions a turn of the loop takes at most from here on.
pub open spec fn actions_left(phase: RunPhase) -> nat {
    match phase {
        RunPhase::Selecting => 0,
        RunPhase::Acting => 2,
        RunPhase::Handling { rest, .. } => 2 * rest.len() + 3,
        RunPhase::Acking { rest, .. } => 2 * rest.len() + 2,
        RunPhase::Starting => 1,
        RunPhase::Finished => 0,
    }
}

/// Every turn of the loop ends: each action that is done leaves fewer to do, until the replica
/// waits again or has returned.
pub proof fn turns_end<R, T, S, E>(
    pre: ReplicaView,
    outcome: Result<(), E>,
    post: ReplicaView,
    action: RunAction<R, T, S, E>,
)
    requires
        expects(pre.phase, pre.sending, RunEvent::<R, T, S, E>::Done(outcome)),
        run_step(pre, RunEvent::<R, T, S, E>::Done(outcome), post, action),
    ensures
        actions_left(post.phase) < actions_left(pre.phase),
{
    let rest = unhandled(pre.phase);
    if action is Handle {
        batching_keeps_plain_packets(
            rest.first(),
            rest.drop_first(),
            action->Handle_0,
            unhandled(post.phase),
        );
    }
}

/// The keys of the columns `cols` of the reader `node` that an action asks the domain for.
pub open spec fn asked_by<R, T, S, E>(
    action: RunAction<R, T, S, E>,
    node: LocalNodeIndex,
    cols: Seq<usize>,
) -> Set<KeyComparison> {
    match action {
        RunAction::Handle(packet) => requested_keys(seq![packet], node, cols),
        _ => Set::empty(),
    }
}

/// The keys of the columns `cols` of the reader `node` that the domain was asked for in some steps.
pub open spec fn asked_for<R, T, S, E>(
    turns: Seq<Turn<R, T, S, E>>,
    node: LocalNodeIndex,
    cols: Seq<usize>,
) -> Set<KeyComparison>
    decreases turns.len(),
{
    if turns.len() == 0 {
        Set::empty()
    } else {
        asked_for(turns.drop_last(), node, cols).union(asked_by(turns.last().action, node, cols))
    }
}

/// Whether an action asks the domain for a replay of the columns `cols` of the reader `node`.
pub open spec fn asks<R, T, S, E>(
    action: RunAction<R, T, S, E>,
    node: LocalNodeIndex,
    cols: Seq<usize>,
) -> bool {
    match action {
        RunAction::Handle(packet) => is_replay_of(packet, node, cols),
        _ => false,
    }
}

/// How often the domain was asked for a replay of the columns `cols` of the reader `node`.
pub open spec fn times_asked<R, T, S, E>(
    turns: Seq<Turn<R, T, S, E>>,
    node: LocalNodeIndex,
    cols: Seq<usize>,
) -> nat
    decreases turns.len(),
{
    if turns.len() == 0 {
        0
    } else {
        times_asked(turns.drop_last(), node, cols) + if asks(turns.last().action, node, cols) {
            1nat
        } else {
            0nat
        }
    }
}

/// Whether one of `packets` asks for a replay of the columns `cols` of the reader `node`.
pub open spec fn has_request(packets: Seq<Packet>, node: LocalNodeIndex, cols: Seq<usize>) -> bool {
    exists|i: int| 0 <= i < packets.len() && is_replay_of(#[trigger] packets[i], node, cols)
}

/// What one packet that is handed to the domain asks for.
proof fn lemma_next_asks<R, T, S, E>(
    pre: ReplicaView,
    rest: Seq<Packet>,
    connections: Seq<u64>,
    post: ReplicaView,
    action: RunAction<R, T, S, E>,
    node: LocalNodeIndex,
    cols: Seq<usize>,
)
    requires
        handles_next(pre, rest, connections, post, action),
    ensures
        requested_keys(rest, node, cols) == asked_by(action, node, cols).union(
            requested_keys(unhandled(post.phase), node, cols),
        ),
        asks(action, node, cols) ==> has_request(rest, node, cols) && !has_request(
            unhandled(post.phase),
            node,
            cols,
        ),
        has_request(rest, node, cols) <==> asks(action, node, cols) || has_request(
            unhandled(post.phase),
            node,
            cols,
        ),
        !asks(action, node, cols) ==> requested_keys(unhandled(post.phase), node, cols)
            == requested_keys(rest, node, cols),
{
    let left = unhandled(post.phase);
    if rest.len() == 0 {
        assert(left =~= Seq::empty());
        assert(requested_keys(rest, node, cols) =~= asked_by(action, node, cols).union(
            requested_keys(left, node, cols),
        ));
    } else {
        let packet = rest.first();
        let behind = rest.drop_first();
        let merged = action->Handle_0;
        assert(rest =~= seq![packet] + behind);
        batching_keeps_requested_keys(packet, behind, merged, left, node, cols);
        lemma_requested_keys_prepend(merged, left, node, cols);
        lemma_requested_keys_prepend(merged, Seq::empty(), node, cols);
        assert(seq![merged] + Seq::<Packet>::empty() =~= seq![merged]);
        assert(requested_keys(Seq::<Packet>::empty(), node, cols) =~= Set::empty());
        assert(requested_keys(rest, node, cols) =~= asked_by(action, node, cols).union(
            requested_keys(left, node, cols),
        ));
        batching_asks_for_nothing_new(packet, behind, merged, left, node, cols);
        if is_replay_of(merged, node, cols) {
            assert(rest[0] == packet);
            batched_request_is_the_only_one(packet, behind, merged, left, node, cols);
        }
        if has_request(left, node, cols) {
            let i = choose|i: int|
                0 <= i < left.len() && is_replay_of(#[trigger] left[i], node, cols);
            assert(behind.contains(left[i]));
            let j = choose|j: int| 0 <= j < behind.len() && behind[j] == left[i];
            assert(rest[j + 1] == behind[j]);
        }
        if has_request(rest, node, cols) && !is_replay_of(packet, node, cols) {
            let i = choose|i: int|
                0 <= i < rest.len() && is_replay_of(#[trigger] rest[i], node, cols);
            assert(behind[i - 1] == rest[i]);
            assert(left.contains(behind[i - 1]));
            let j = choose|j: int| 0 <= j < left.len() && left[j] == behind[i - 1];
            assert(is_replay_of(left[j], node, cols));
        }
    }
}

/// What one step in the middle of a batch asks for.
proof fn lemma_step_asks<R, T, S, E>(
    turn: Turn<R, T, S, E>,
    connections: Seq<u64>,
    node: LocalNodeIndex,
    cols: Seq<usize>,
)
    requires
        goes_by(turn.pre.phase, connections),
        turn.event == RunEvent::<R, T, S, E>::Done(Ok(())),
        expects(turn.pre.phase, turn.pre.sending, turn.event),
        run_step(turn.pre, turn.event, turn.post, turn.action),
    ensures
        requested_keys(unhandled(turn.pre.phase), node, cols) == asked_by(
            turn.action,
            node,
            cols,
        ).union(requested_keys(unhandled(turn.post.phase), node, cols)),
        asks(turn.action, node, cols) ==> has_request(unhandled(turn.pre.phase), node, cols)
            && !has_request(unhandled(turn.post.phase), node, cols),
        has_request(unhandled(turn.pre.phase), node, cols) <==> asks(turn.action, node, cols)
            || has_request(unhandled(turn.post.phase), node, cols),
        !asks(turn.action, node, cols) ==> requested_keys(
            unhandled(turn.post.phase),
            node,
            cols,
        ) == requested_keys(unhandled(turn.pre.phase), node, cols),
{
    match turn.pre.phase {
        RunPhase::Handling { rest, ack: None, .. } => {
            lemma_next_asks(turn.pre, rest, connections, turn.post, turn.action, node, cols);
        },
        RunPhase::Acking { rest, .. } => {
            lemma_next_asks(turn.pre, rest, connections, turn.post, turn.action, node, cols);
        },
        _ => {
            assert(unhandled(turn.post.phase) =~= unhandled(turn.pre.phase));
            assert(requested_keys(unhandled(turn.pre.phase), node, cols) =~= asked_by(
                turn.action,
                node,
                cols,
            ).union(requested_keys(unhandled(turn.post.phase), node, cols)));
        },
    }
}

/// In one batch, the domain is asked at most once for a replay of the same columns of the same
/// reader, and it is asked for all the keys that the batch asks for and for no others. What it was
/// not asked for yet is still to come, and once the replica waits again it was asked for all: just
/// once if the batch holds a request for these columns, with or without keys, and never otherwise.
pub proof fn replays_are_requested_once<R, T, S, E>(
    turns: Seq<Turn<R, T, S, E>>,
    batch: Seq<Packet>,
    connections: Seq<u64>,
    node: LocalNodeIndex,
    cols: Seq<usize>,
)
    requires
        handles_batch(turns, batch, connections),
    ensures
        ({
            let left = unhandled(turns.last().post.phase);
            &&& requested_keys(batch, node, cols) == asked_for(turns, node, cols).union(
                requested_keys(left, node, cols),
            )
            &&& times_asked(turns, node, cols) <= 1
            &&& times_asked(turns, node, cols) == 1 ==> !has_request(left, node, cols)
            &&& has_request(batch, node, cols) <==> times_asked(turns, node, cols) == 1
                || has_request(left, node, cols)
            &&& has_request(left, node, cols) ==> requested_keys(left, node, cols)
                == requested_keys(batch, node, cols)
            &&& turns.last().post.phase is Selecting ==> asked_for(turns, node, cols)
                == requested_keys(batch, node, cols)
            &&& turns.last().post.phase is Selecting ==> times_asked(turns, node, cols)
                == if has_request(batch, node, cols) {
                1nat
            } else {
                0nat
            }
        }),
    decreases turns.len(),
{
    let turn = turns.last();
    let before = turns.drop_last();
    let left = unhandled(turn.post.phase);
    assert(turn == turns[turns.len() - 1]);
    if turns.len() == 1 {
        assert(before =~= Seq::empty());
        lemma_next_asks(turn.pre, batch, connections, turn.post, turn.action, node, cols);
        assert(times_asked(before, node, cols) == 0);
        assert(asked_for(before, node, cols) =~= Set::empty());
    } else {
        lemma_shorter_batch(turns, batch, connections);
        lemma_batch_so_far(before, batch, connections);
        replays_are_requested_once(before, batch, connections, node, cols);
        lemma_step_asks(turn, connections, node, cols);
    }
    assert(requested_keys(batch, node, cols) =~= asked_for(turns, node, cols).union(
        requested_keys(left, node, cols),
    ));
    if turn.post.phase is Selecting {
        assert(requested_keys(left, node, cols) =~= Set::empty());
        assert(asked_for(turns, node, cols) =~= requested_keys(batch, node, cols));
    }
}

/// A packet that is handed to the domain stands for the next one of the batch.
proof fn lemma_next_keeps_order<R, T, S, E>(
    pre: ReplicaView,
    rest: Seq<Packet>,
    connections: Seq<u64>,
    post: ReplicaView,
    action: RunAction<R, T, S, E>,
    before: Seq<Packet>,
    batch: Seq<Packet>,
)
    requires
        handles_next(pre, rest, connections, post, action),
        keeps_order(before, rest, batch),
        forall|node: LocalNodeIndex, cols: Seq<usize>| #[trigger]
            has_request(rest, node, cols) ==> requested_keys(rest, node, cols) == requested_keys(
                batch,
                node,
                cols,
            ),
    ensures
        match action {
            RunAction::Handle(packet) => keeps_order(
                before.push(packet),
                unhandled(post.phase),
                batch,
            ),
            _ => keeps_order(before, unhandled(post.phase), batch),
        },
{
    let order = without_repeats(batch);
    let left = unhandled(post.phase);
    if rest.len() == 0 {
        assert(left =~= rest);
    } else {
        let packet = rest.first();
        let behind = rest.drop_first();
        let merged = action->Handle_0;
        assert(rest =~= seq![packet] + behind);
        assert(without_repeats(rest) == seq![packet] + without_repeats(left));
        let done = before.len() as int;
        assert(order.skip(done)[0] == packet);
        assert(order.skip(done).len() == order.len() - done);
        assert(order.skip(done + 1) =~= order.skip(done).drop_first());
        assert((seq![packet] + without_repeats(left)).drop_first() =~= without_repeats(left));
        assert(order[done] == packet);
        match packet {
            Packet::RequestReaderReplay { node, cols, .. } => {
                assert(is_replay_of(rest[0], node, cols@));
                assert(has_request(rest, node, cols@));
                lemma_requested_keys_prepend(packet, behind, node, cols@);
            },
            _ => {},
        }
        assert(stands_for(merged, packet, batch));
        let after = before.push(merged);
        assert forall|i: int| 0 <= i < after.len() implies stands_for(
            #[trigger] after[i],
            order[i],
            batch,
        ) by {
            if i < before.len() {
                assert(after[i] == before[i]);
            }
        }
    }
}

/// What was handed to the domain stands for the first packets of the batch.
proof fn lemma_order_so_far<R, T, S, E>(
    turns: Seq<Turn<R, T, S, E>>,
    batch: Seq<Packet>,
    connections: Seq<u64>,
)
    requires
        handles_batch(turns, batch, connections),
    ensures
        keeps_order(handled(turns), unhandled(turns.last().post.phase), batch),
    decreases turns.len(),
{
    let turn = turns.last();
    let before = turns.drop_last();
    assert(turn == turns[turns.len() - 1]);
    if turns.len() == 1 {
        assert(before =~= Seq::empty());
        assert(handled(before) =~= Seq::empty());
        assert(without_repeats(batch).skip(0) =~= without_repeats(batch));
        lemma_next_keeps_order(
            turn.pre,
            batch,
            connections,
            turn.post,
            turn.action,
            handled(before),
            batch,
        );
    } else {
        lemma_shorter_batch(turns, batch, connections);
        lemma_batch_so_far(before, batch, connections);
        lemma_order_so_far(before, batch, connections);
        let rest = unhandled(turn.pre.phase);
        assert forall|node: LocalNodeIndex, cols: Seq<usize>| #[trigger]
            has_request(rest, node, cols) implies requested_keys(rest, node, cols)
            == requested_keys(batch, node, cols) by {
            replays_are_requested_once(before, batch, connections, node, cols);
        }
        match turn.pre.phase {
            RunPhase::Handling { ack: None, .. } => {
                lemma_next_keeps_order(
                    turn.pre,
                    rest,
                    connections,
                    turn.post,
                    turn.action,
                    handled(before),
                    batch,
                );
            },
            RunPhase::Acking { .. } => {
                lemma_next_keeps_order(
                    turn.pre,
                    rest,
                    connections,
                    turn.post,
                    turn.action,
                    handled(before),
                    batch,
                );
            },
            _ => {
                assert(unhandled(turn.post.phase) =~= rest);
            },
        }
    }
}

/// What a replica is told of it acts on, whatever else is under way, and it acts on nothing else: a
/// domain request is processed, the request itself; and so is state for a node. A connection that
/// was accepted is read from, one that was upgraded is registered with its own token, a change of
/// addresses makes connections be forgotten, and the domain updates its state sizes and handles its
/// timeout when it is time to.
pub proof fn each_event_is_acted_on<R, T, S, E>(
    replica: &mut Replica,
    event: RunEvent<R, T, S, E>,
    action: RunAction<R, T, S, E>,
)
    requires
        call_ensures(Replica::run::<R, T, S, E>, (replica, event), action),
    ensures
        event matches RunEvent::Request(Some(request)) ==> action == RunAction::<
            R,
            T,
            S,
            E,
        >::ProcessRequest(request),
        action matches RunAction::ProcessRequest(request) ==> event == RunEvent::<
            R,
            T,
            S,
            E,
        >::Request(Some(request)),
        event matches RunEvent::InitState(Some(state)) ==> action == RunAction::<
            R,
            T,
            S,
            E,
        >::ProcessState(state),
        action matches RunAction::ProcessState(state) ==> event == RunEvent::<
            R,
            T,
            S,
            E,
        >::InitState(Some(state)),
        event matches RunEvent::Established(Some(token)) ==> action == (RunAction::<
            R,
            T,
            S,
            E,
        >::Register { token }),
        action matches RunAction::Register { token } ==> event == RunEvent::<
            R,
            T,
            S,
            E,
        >::Established(Some(token)),
        event matches RunEvent::ChannelChanged(change) ==> action == RunAction::<
            R,
            T,
            S,
            E,
        >::Forget(change),
        action matches RunAction::Forget(change) ==> event == RunEvent::<
            R,
            T,
            S,
            E,
        >::ChannelChanged(change),
        event matches RunEvent::Accepted(Ok(_)) <==> action is Preprocess,
        event is RefreshSizes <==> action is UpdateStateSizes,
        event is Timeout <==> action is HandleTimeout,
        event == RunEvent::<R, T, S, E>::Established(None) ==> action is Select && final(replica)@
            == old(replica)@,
{
}

/// Over any number of steps, the domain processes just the requests that came, each once and in the
/// order in which they came; and so with the state for its nodes.
pub proof fn requests_are_processed_as_they_come<R, T, S, E>(turns: Seq<Turn<R, T, S, E>>)
    requires
        forall|i: int|
            0 <= i < turns.len() ==> {
                let turn = #[trigger] turns[i];
                run_step(turn.pre, turn.event, turn.post, turn.action)
            },
    ensures
        turns.filter_map(
            |turn: Turn<R, T, S, E>|
                match turn.action {
                    RunAction::ProcessRequest(request) => Some(request),
                    _ => None,
                },
        ) == turns.filter_map(
            |turn: Turn<R, T, S, E>|
                match turn.event {
                    RunEvent::Request(request) => request,
                    _ => None,
                },
        ),
        turns.filter_map(
            |turn: Turn<R, T, S, E>|
                match turn.action {
                    RunAction::ProcessState(state) => Some(state),
                    _ => None,
                },
        ) == turns.filter_map(
            |turn: Turn<R, T, S, E>|
                match turn.event {
                    RunEvent::InitState(state) => state,
                    _ => None,
                },
        ),
    decreases turns.len(),
{
    if turns.len() > 0 {
        let fewer = turns.drop_last();
        assert forall|i: int| 0 <= i < fewer.len() implies {
            let turn = #[trigger] fewer[i];
            run_step(turn.pre, turn.event, turn.post, turn.action)
        } by {
            assert(fewer[i] == turns[i]);
        }
        requests_are_processed_as_they_come(fewer);
        let turn = turns[turns.len() - 1];
        assert(run_step(turn.pre, turn.event, turn.post, turn.action));
    }
}

/// A replica is where its action says: while it waits it can be told of anything but the outcome of
/// an action, of a delivery only if one is under way; of the outcome of its action otherwise; and
/// of nothing once it has returned. A delivery is under way from when it is started until it
/// returns.
pub proof fn what_a_replica_asks_for_it_can_be_told<R, T, S, E>(
    replica: &mut Replica,
    event: RunEvent<R, T, S, E>,
    action: RunAction<R, T, S, E>,
    answer: RunEvent<R, T, S, E>,
)
    requires
        call_ensures(Replica::run::<R, T, S, E>, (replica, event), action),
        expects(old(replica)@.phase, old(replica)@.sending, event),
    ensures
        expects(final(replica)@.phase, final(replica)@.sending, answer) <==> match action {
            RunAction::Select => !(answer is Done) && (answer is Sent ==> final(replica)@.sending),
            RunAction::Return(_) => false,
            _ => answer is Done,
        },
        final(replica)@.sending <==> action is StartSend || (old(replica)@.sending && !(event
            is Sent)),
        action is Select <==> final(replica)@.phase is Selecting,
        action is Handle <==> final(replica)@.phase is Handling,
        action is Ack <==> final(replica)@.phase is Acking,
        action is StartSend <==> final(replica)@.phase is Starting,
        action is Return <==> final(replica)@.phase is Finished,
{
}

/// A new replica waits, with nothing to deliver, and can be told of anything that it may wait for.
pub proof fn a_new_replica_waits<R, T, S, E>(replica: Replica, event: RunEvent<R, T, S, E>)
    requires
        call_ensures(Replica::new, (), replica),
    ensures
        forall|dest: ReplicaAddress| !#[trigger] replica@.out.dom().contains(dest),
        !replica@.sending,
        expects(replica@.phase, replica@.sending, event) <==> !(event is Done) && !(event is Sent),
{
}

/// At the end of a turn, when an action was done, a delivery has returned, or no received packet is
/// left, the packets that wait are all taken out for a delivery, each queue whole and with the
/// address that it waits for, unless none waits or a delivery is under way: then the replica waits.
pub proof fn a_turn_ends_with_a_delivery<R, T, S, E>(
    replica: &mut Replica,
    event: RunEvent<R, T, S, E>,
    action: RunAction<R, T, S, E>,
    dest: ReplicaAddress,
)
    requires
        call_ensures(Replica::run::<R, T, S, E>, (replica, event), action),
        match (event, old(replica)@.phase) {
            (RunEvent::Sent(Ok(_)), _) => true,
            (RunEvent::Packets { received: Ok(Some(packets)), .. }, _) => packets@.len() == 0,
            (RunEvent::Done(Ok(_)), RunPhase::Acting) => true,
            (RunEvent::Done(Ok(_)), RunPhase::Handling { rest, ack, .. }) => rest.len() == 0
                && ack is None,
            (RunEvent::Done(Ok(_)), RunPhase::Acking { rest, .. }) => rest.len() == 0,
            _ => false,
        },
    ensures
        ({
            let waits = exists|a: ReplicaAddress| #[trigger] old(replica)@.out.dom().contains(a);
            let free = !old(replica)@.sending || event is Sent;
            &&& action is StartSend <==> waits && free
            &&& action is Select <==> !(waits && free)
        }),
        action is Select ==> final(replica)@.out == old(replica)@.out,
        action matches RunAction::StartSend(batches) ==> {
            &&& !final(replica)@.out.dom().contains(dest)
            &&& old(replica)@.out.dom().contains(dest) <==> exists|i: int|
                0 <= i < batches@.len() && (#[trigger] batches@[i]).0 == dest
            &&& forall|i: int|
                0 <= i < batches@.len() && (#[trigger] batches@[i]).0 == dest ==> batches@[i].1@
                    == old(replica)@.out[dest]
            &&& forall|i: int, j: int|
                0 <= i < j < batches@.len() ==> (#[trigger] batches@[i]).0 != (
                #[trigger] batches@[j]).0
        },
{
    let out = old(replica)@.out;
    if !(exists|a: ReplicaAddress| #[trigger] out.dom().contains(a)) {
        assert(out.dom() =~= Set::empty());
    } else {
        let a = choose|a: ReplicaAddress| #[trigger] out.dom().contains(a);
        assert(!(out.dom() =~= Set::empty()));
    }
    if let RunAction::StartSend(batches) = action {
        assert forall|i: int|
            0 <= i < batches@.len() && (#[trigger] batches@[i]).0 == dest implies batches@[i].1@
            == out[dest] && out.dom().contains(dest) by {
            assert(out.contains_key(batches@[i].0));
        }
    }
}

/// Once a delivery has started the replica waits; and no other step takes out a packet.
pub proof fn a_started_delivery_is_left_alone<R, T, S, E>(
    replica: &mut Replica,
    event: RunEvent<R, T, S, E>,
    action: RunAction<R, T, S, E>,
)
    requires
        call_ensures(Replica::run::<R, T, S, E>, (replica, event), action),
    ensures
        old(replica)@.phase is Starting && event == RunEvent::<R, T, S, E>::Done(Ok(()))
            ==> action is Select,
        !(action is StartSend) ==> final(replica)@.out == old(replica)@.out,
        action is StartSend ==> match event {
            RunEvent::Sent(Ok(_)) => true,
            RunEvent::Packets { received: Ok(Some(_)), .. } => true,
            RunEvent::Done(Ok(_)) => true,
            _ => false,
        },
{
}

/// The first of the received packets is what the domain handles next, and the packets behind it
/// follow in their order. A replay request takes over the keys of those behind it that ask for the
/// same columns of the same reader, and these do not follow. Input and timestamps are to be
/// acknowledged to the connection that they came by, with the tag that they came with, if it is
/// open, and no other packet is.
pub proof fn the_first_packet_is_handled_next<R, T, S, E>(
    replica: &mut Replica,
    event: RunEvent<R, T, S, E>,
    action: RunAction<R, T, S, E>,
    received: Seq<Packet>,
    open: Seq<u64>,
    key: KeyComparison,
)
    requires
        call_ensures(Replica::run::<R, T, S, E>, (replica, event), action),
        received.len() > 0,
        match (event, old(replica)@.phase) {
            (RunEvent::Packets { received: Ok(Some(packets)), connections }, _) => packets@
                == received && connections@ == open,
            (RunEvent::Done(Ok(_)), RunPhase::Handling { rest, ack, connections }) => rest
                == received && connections == open && ack is None,
            (RunEvent::Done(Ok(_)), RunPhase::Acking { rest, connections }) => rest == received
                && connections == open,
            _ => false,
        },
    ensures
        action is Handle,
        final(replica)@.phase is Handling,
        final(replica)@.phase->Handling_connections == open,
        !(received[0] is RequestReaderReplay) ==> action->Handle_0 == received[0],
        !(received[0] is RequestReaderReplay) ==> final(replica)@.phase->Handling_rest
            == received.skip(1),
        received[0] matches Packet::RequestReaderReplay { node: n, cols: c, .. } ==> {
            &&& action->Handle_0 matches Packet::RequestReaderReplay { node, cols, keys } && {
                &&& node == n
                &&& cols@ == c@
                &&& keys@.no_duplicates()
                &&& keys@.contains(key) <==> exists|i: int|
                    0 <= i < received.len() && (#[trigger] received[i] matches
                        Packet::RequestReaderReplay { node: m, cols: d, keys: more } && m == n
                        && d@ == c@ && more@.contains(key))
            }
            &&& final(replica)@.phase->Handling_rest == received.skip(1).filter(
                |p: Packet|
                    match p {
                        Packet::RequestReaderReplay { node, cols, .. } => node != n || cols@ != c@,
                        _ => true,
                    },
            )
        },
        final(replica)@.phase->ack == match received[0] {
            Packet::Input { src, .. } if open.contains(src.token) => Some((src.token, src.tag)),
            Packet::Timestamp { src, .. } if open.contains(src.token) => Some((src.token, src.tag)),
            _ => None,
        },
{
    let behind = received.drop_first();
    assert(behind =~= received.skip(1));
    if let Packet::RequestReaderReplay { node: n, cols: c, keys: own } = received[0] {
        lemma_keys_by_their_parts(behind, n, c@, key);
        assert((|p: Packet| !is_replay_of(p, n, c@)) =~= (|p: Packet|
            match p {
                Packet::RequestReaderReplay { node, cols, .. } => node != n || cols@ != c@,
                _ => true,
            }));
        let keys = replay_keys(action->Handle_0);
        assert(keys.to_set().contains(key) <==> own@.to_set().contains(key) || requested_keys(
            behind,
            n,
            c@,
        ).contains(key));
        assert(received =~= seq![received[0]] + behind);
        lemma_requested_keys_prepend(received[0], behind, n, c@);
        lemma_keys_by_their_parts(received, n, c@, key);
    }
}

/// A packet that is to be acknowledged is, once the domain has handled it and before the next one:
/// to the connection and with the tag that were kept for it.
pub proof fn a_handled_packet_is_acknowledged<R, T, S, E>(
    replica: &mut Replica,
    event: RunEvent<R, T, S, E>,
    action: RunAction<R, T, S, E>,
)
    requires
        call_ensures(Replica::run::<R, T, S, E>, (replica, event), action),
    ensures
        event == RunEvent::<R, T, S, E>::Done(Ok(())) ==> (old(replica)@.phase matches
            RunPhase::Handling { rest, ack: Some((token, tag)), connections } ==> action == (
        RunAction::<R, T, S, E>::Ack { token, tag }) && final(replica)@.phase
            == RunPhase::Acking { rest, connections }),
        action matches RunAction::Ack { token, tag } ==> (event matches RunEvent::Done(Ok(_))) && (
        old(replica)@.phase matches RunPhase::Handling { ack: Some((t, g)), .. } && t == token
            && g == tag),
{
}

/// Input and timestamps are acknowledged to the connection that they came by, with the tag that
/// they came with, if it is open, and no other packet is.
pub proof fn packets_are_acknowledged_to_their_source(
    packet: &Packet,
    connections: &Vec<u64>,
    ack: Option<(u64, u32)>,
)
    requires
        call_ensures(ack_target, (packet, connections), ack),
    ensures
        ack == match *packet {
            Packet::Input { src, .. } if connections@.contains(src.token) => Some(
                (src.token, src.tag),
            ),
            Packet::Timestamp { src, .. } if connections@.contains(src.token) => Some(
                (src.token, src.tag),
            ),
            _ => None,
        },
{
}

/// The replica sleeps for as long as the domain wants, and for an hour if it does not say.
pub proof fn the_domain_says_how_long_to_sleep(next_poll: Option<(u64, u32)>, sleep: (u64, u32))
    requires
        call_ensures(sleep_time, (next_poll,), sleep),
    ensures
        next_poll matches Some(duration) ==> sleep == duration,
        next_poll is None ==> sleep.0 == 60 * 60 && sleep.1 == 0,
{
}

/// The loop ends with success when there will be no more domain requests, no more state or no more
/// packets, and with an error when accepting a connection, receiving packets, delivering them or an
/// action failed: with that very error. It ends on no other occasion.
pub proof fn the_loop_ends_with_its_sources_and_errors<R, T, S, E>(
    replica: &mut Replica,
    event: RunEvent<R, T, S, E>,
    action: RunAction<R, T, S, E>,
)
    requires
        call_ensures(Replica::run::<R, T, S, E>, (replica, event), action),
        expects(old(replica)@.phase, old(replica)@.sending, event),
    ensures
        match event {
            RunEvent::Request(None) => action == RunAction::<R, T, S, E>::Return(Ok(())),
            RunEvent::InitState(None) => action == RunAction::<R, T, S, E>::Return(Ok(())),
            RunEvent::Packets { received: Ok(None), .. } => action == RunAction::<
                R,
                T,
                S,
                E,
            >::Return(Ok(())),
            RunEvent::Accepted(Err(error)) => action == RunAction::<R, T, S, E>::Return(Err(error)),
            RunEvent::Packets { received: Err(error), .. } => action == RunAction::<
                R,
                T,
                S,
                E,
            >::Return(Err(error)),
            RunEvent::Sent(Err(error)) => action == RunAction::<R, T, S, E>::Return(Err(error)),
            RunEvent::Done(Err(error)) => action == RunAction::<R, T, S, E>::Return(Err(error)),
            _ => !(action is Return),
        },
{
}

} // verus!
