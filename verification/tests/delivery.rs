use std::collections::{HashMap, HashSet, VecDeque};

use readyset_core::connection::upgrade_packet;
use readyset_core::outputs::{ChannelChange, Outputs};
use readyset_core::packet::{Packet, PacketData, PacketPayload, ReplicaAddress, Tagged};
use readyset_core::replica::{
    ack_target, sleep_time, MaterializedState, Replica, RunAction, RunEvent, WrappedDomainRequest,
};
use readyset_core::send::{send_packets, SendAction, SendEvent};

fn address(shard: usize) -> ReplicaAddress {
    ReplicaAddress {
        domain_index: 0,
        shard,
        replica: 0,
    }
}

fn other(byte: u8) -> Packet {
    Packet::Other(vec![byte])
}

fn queue(bytes: &[u8]) -> VecDeque<Packet> {
    bytes.iter().map(|b| other(*b)).collect()
}

/// The world around a sender.
#[derive(Default)]
struct World {
    /// The sockets of replicas.
    sockets: HashMap<usize, u64>,
    /// The replica that no connection can be established to.
    unreachable: Option<usize>,
    /// The message that cannot be fed.
    poison: Option<Packet>,
    /// The connections that cannot be flushed.
    clogged: HashSet<u64>,
    next_connection: u64,
    log: Vec<String>,
}

impl World {
    fn deliver(
        &mut self,
        batches: Vec<(ReplicaAddress, VecDeque<Packet>)>,
        outputs: &mut Outputs,
        failed: &mut HashSet<u64>,
    ) -> Result<(), String> {
        let (mut sender, mut action) = send_packets::<String>(batches, outputs);
        loop {
            let event = match action {
                SendAction::Lookup(a) => {
                    self.log.push(format!("lookup {}", a.shard));
                    SendEvent::Addr(self.sockets.get(&a.shard).copied())
                }
                SendAction::Connect(a) => {
                    self.log.push(format!("connect {}", a.shard));
                    if self.unreachable == Some(a.shard) {
                        SendEvent::Connected(Err("unreachable".to_string()))
                    } else {
                        self.next_connection += 1;
                        SendEvent::Connected(Ok(self.next_connection))
                    }
                }
                SendAction::Feed {
                    connection,
                    message,
                } => {
                    let ok = self.poison.as_ref() != Some(&message);
                    match message {
                        Packet::Other(bytes) => {
                            self.log.push(format!("feed {} {}", connection, bytes[0]))
                        }
                        p => panic!("Unexpected packet {:?}", p),
                    }
                    SendEvent::Fed(ok)
                }
                SendAction::Flush { connection } => {
                    self.log.push(format!("flush {}", connection));
                    SendEvent::Flushed(!self.clogged.contains(&connection))
                }
                SendAction::Discard { connection } => {
                    self.log.push(format!("discard {}", connection));
                    SendEvent::Discarded
                }
                SendAction::Unregister(a) => {
                    self.log.push(format!("unregister {}", a.shard));
                    self.sockets.remove(&a.shard);
                    SendEvent::Unregistered
                }
                SendAction::Return(result) => return result,
            };
            action = sender.step(outputs, failed, event);
        }
    }
}

#[test]
fn batches_are_delivered_in_order() {
    let mut world = World {
        sockets: HashMap::from([(1, 101), (2, 102)]),
        ..World::default()
    };
    let mut outputs = Outputs::new();
    outputs.insert(address(2), 50);
    let mut failed = HashSet::new();
    let batches = vec![
        (address(1), queue(&[1, 2])),
        (address(3), queue(&[])),
        (address(2), queue(&[3])),
    ];
    assert_eq!(world.deliver(batches, &mut outputs, &mut failed), Ok(()));
    assert_eq!(
        world.log,
        vec![
            "lookup 1", "connect 1", "feed 1 1", "feed 1 2", "flush 1", "feed 50 3", "flush 50",
        ]
    );
    assert_eq!(outputs.get(&address(1)), Some(1));
    assert!(failed.is_empty());
    // The connections are used again.
    world.log.clear();
    let batches = vec![(address(1), queue(&[4]))];
    assert_eq!(world.deliver(batches, &mut outputs, &mut failed), Ok(()));
    assert_eq!(world.log, vec!["feed 1 4", "flush 1"]);
}

#[test]
fn an_empty_delivery_returns_at_once() {
    let mut world = World::default();
    let mut outputs = Outputs::new();
    let batches = vec![(address(1), queue(&[]))];
    assert_eq!(
        world.deliver(batches, &mut outputs, &mut HashSet::new()),
        Ok(())
    );
    assert!(world.log.is_empty());
}

#[test]
fn unknown_and_failed_destinations_are_skipped() {
    let mut world = World {
        sockets: HashMap::from([(2, 102), (3, 103)]),
        ..World::default()
    };
    let mut outputs = Outputs::new();
    let mut failed = HashSet::from([102]);
    let batches = vec![
        (address(1), queue(&[1])),
        (address(2), queue(&[2])),
        (address(3), queue(&[3])),
    ];
    assert_eq!(world.deliver(batches, &mut outputs, &mut failed), Ok(()));
    assert_eq!(
        world.log,
        vec!["lookup 1", "lookup 2", "lookup 3", "connect 3", "feed 1 3", "flush 1"]
    );
}

#[test]
fn a_feed_that_fails_gives_up_the_connection() {
    let mut world = World {
        sockets: HashMap::from([(1, 101), (2, 102)]),
        poison: Some(other(2)),
        ..World::default()
    };
    let mut outputs = Outputs::new();
    let mut failed = HashSet::new();
    let batches = vec![
        (address(1), queue(&[1, 2, 3])),
        (address(2), queue(&[4])),
    ];
    assert_eq!(world.deliver(batches, &mut outputs, &mut failed), Ok(()));
    assert_eq!(
        world.log,
        vec![
            "lookup 1", "connect 1", "feed 1 1", "feed 1 2", "discard 1", "lookup 1",
            "unregister 1", "lookup 2", "connect 2", "feed 2 4", "flush 2",
        ]
    );
    assert_eq!(outputs.get(&address(1)), None);
    assert_eq!(failed, HashSet::from([101]));
    // The coordinator has no channel for the destination any more, and still has the other one.
    assert_eq!(world.sockets, HashMap::from([(2, 102)]));
    world.log.clear();
    let batches = vec![(address(1), queue(&[5]))];
    assert_eq!(world.deliver(batches, &mut outputs, &mut failed), Ok(()));
    assert_eq!(world.log, vec!["lookup 1"]);
    // The destination is skipped if it comes back with the address that failed.
    world.sockets.insert(1, 101);
    world.log.clear();
    let batches = vec![(address(1), queue(&[5]))];
    assert_eq!(world.deliver(batches, &mut outputs, &mut failed), Ok(()));
    assert_eq!(world.log, vec!["lookup 1"]);
    // Once repaired it is connected to again.
    world.sockets.insert(1, 111);
    world.log.clear();
    let batches = vec![(address(1), queue(&[6]))];
    assert_eq!(world.deliver(batches, &mut outputs, &mut failed), Ok(()));
    assert_eq!(
        world.log,
        vec!["lookup 1", "connect 1", "feed 3 6", "flush 3"]
    );
}

#[test]
fn a_flush_that_fails_gives_up_the_connection() {
    let mut world = World {
        clogged: HashSet::from([9]),
        ..World::default()
    };
    let mut outputs = Outputs::new();
    outputs.insert(address(1), 9);
    let mut failed = HashSet::new();
    let batches = vec![(address(1), queue(&[1]))];
    assert_eq!(world.deliver(batches, &mut outputs, &mut failed), Ok(()));
    assert_eq!(
        world.log,
        vec!["feed 9 1", "flush 9", "discard 9", "lookup 1"]
    );
    assert_eq!(outputs.get(&address(1)), None);
    // A destination without an address cannot be remembered as failed.
    assert!(failed.is_empty());
}

#[test]
fn a_flush_that_fails_removes_the_channel_of_the_destination() {
    let mut world = World {
        sockets: HashMap::from([(1, 101)]),
        clogged: HashSet::from([9]),
        ..World::default()
    };
    let mut outputs = Outputs::new();
    outputs.insert(address(1), 9);
    let mut failed = HashSet::new();
    let batches = vec![(address(1), queue(&[1]))];
    assert_eq!(world.deliver(batches, &mut outputs, &mut failed), Ok(()));
    assert_eq!(
        world.log,
        vec!["feed 9 1", "flush 9", "discard 9", "lookup 1", "unregister 1"]
    );
    assert_eq!(outputs.get(&address(1)), None);
    assert_eq!(failed, HashSet::from([101]));
    assert!(world.sockets.is_empty());
}

#[test]
fn a_connection_that_cannot_be_built_ends_the_delivery() {
    let mut world = World {
        sockets: HashMap::from([(1, 101), (2, 102)]),
        unreachable: Some(1),
        ..World::default()
    };
    let mut outputs = Outputs::new();
    let batches = vec![(address(1), queue(&[1])), (address(2), queue(&[2]))];
    assert_eq!(
        world.deliver(batches, &mut outputs, &mut HashSet::new()),
        Err("unreachable".to_string())
    );
    assert_eq!(world.log, vec!["lookup 1", "connect 1"]);
    assert_eq!(outputs.get(&address(1)), None);
}

type Event = RunEvent<u8, u8, u8, String>;
type Action = RunAction<u8, u8, u8, String>;

fn done() -> Event {
    RunEvent::Done(Ok(()))
}

fn packets(packets: Vec<Packet>, connections: Vec<u64>) -> Event {
    RunEvent::Packets {
        received: Ok(Some(packets.into_iter().collect())),
        connections,
    }
}

fn input(token: u64, tag: u32) -> Packet {
    upgrade_packet(
        token,
        Tagged {
            v: PacketData {
                data: PacketPayload::Input(vec![]),
            },
            tag,
        },
    )
}

fn timestamp(token: u64, tag: u32) -> Packet {
    upgrade_packet(
        token,
        Tagged {
            v: PacketData {
                data: PacketPayload::Timestamp(vec![]),
            },
            tag,
        },
    )
}

#[test]
fn packets_from_open_base_connections_are_acknowledged() {
    let open = vec![3, 7];
    assert_eq!(ack_target(&input(7, 30), &open), Some((7, 30)));
    assert_eq!(ack_target(&timestamp(3, 31), &open), Some((3, 31)));
    assert_eq!(ack_target(&input(4, 32), &open), None);
    assert_eq!(ack_target(&other(1), &open), None);
}

#[test]
fn a_batch_is_handled_and_acknowledged_in_order() {
    let mut replica = Replica::new();
    let replay = |keys: Vec<u64>| Packet::RequestReaderReplay {
        node: 1,
        cols: vec![0],
        keys,
    };
    let batch = vec![
        input(7, 30),
        replay(vec![1, 2]),
        timestamp(8, 31),
        replay(vec![2, 3]),
        timestamp(7, 32),
    ];
    let mut log = Vec::new();
    let mut action: Action = replica.run(packets(batch, vec![7]));
    loop {
        match action {
            RunAction::Handle(Packet::Input { src, .. }) => log.push(format!("input {}", src.tag)),
            RunAction::Handle(Packet::Timestamp { src, .. }) => {
                log.push(format!("timestamp {}", src.tag))
            }
            RunAction::Handle(Packet::RequestReaderReplay { mut keys, .. }) => {
                keys.sort();
                log.push(format!("replay {:?}", keys))
            }
            RunAction::Ack { token, tag } => log.push(format!("ack {} {}", token, tag)),
            RunAction::Select => break,
            _ => panic!("unexpected action"),
        }
        action = replica.run(done());
    }
    assert_eq!(
        log,
        vec![
            "input 30",
            "ack 7 30",
            "replay [1, 2, 3]",
            "timestamp 31",
            "timestamp 32",
            "ack 7 32",
        ]
    );
}

#[test]
fn batched_replays_take_the_place_of_the_first_request() {
    let mut replica = Replica::new();
    let replay = |node: u32, keys: Vec<u64>| Packet::RequestReaderReplay {
        node,
        cols: vec![0],
        keys,
    };
    let batch = vec![
        replay(1, vec![]),
        other(1),
        replay(2, vec![4]),
        replay(1, vec![5]),
        replay(3, vec![]),
        replay(2, vec![4]),
    ];
    let mut handled = Vec::new();
    let mut action: Action = replica.run(packets(batch, vec![]));
    while let RunAction::Handle(packet) = action {
        handled.push(packet);
        action = replica.run(done());
    }
    assert!(matches!(action, RunAction::Select));
    assert_eq!(
        handled,
        vec![
            replay(1, vec![5]),
            other(1),
            replay(2, vec![4]),
            replay(3, vec![]),
        ]
    );
}

#[test]
fn one_delivery_is_under_way_at_a_time() {
    let mut replica = Replica::new();
    let action: Action = replica.run(RunEvent::Timeout);
    assert!(matches!(action, RunAction::HandleTimeout));
    replica.outboxes().send(address(1), other(1));
    match replica.run::<u8, u8, u8, String>(done()) {
        RunAction::StartSend(batches) => {
            assert_eq!(batches, vec![(address(1), queue(&[1]))])
        }
        _ => panic!("no delivery"),
    }
    let action: Action = replica.run(done());
    assert!(matches!(action, RunAction::Select));
    // What is sent in the meantime waits for the delivery to return.
    let action: Action = replica.run(RunEvent::RefreshSizes);
    assert!(matches!(action, RunAction::UpdateStateSizes));
    replica.outboxes().send(address(2), other(2));
    let action: Action = replica.run(done());
    assert!(matches!(action, RunAction::Select));
    match replica.run::<u8, u8, u8, String>(RunEvent::Sent(Ok(()))) {
        RunAction::StartSend(batches) => {
            assert_eq!(batches, vec![(address(2), queue(&[2]))])
        }
        _ => panic!("no delivery"),
    }
    assert!(replica.outboxes().is_empty());
}

#[test]
fn a_connection_that_was_given_up_does_not_end_the_turn() {
    let mut replica = Replica::new();
    replica.outboxes().send(address(1), other(1));
    let action: Action = replica.run(RunEvent::Established(None));
    assert!(matches!(action, RunAction::Select));
    let action: Action = replica.run(RunEvent::Established(Some(4)));
    assert!(matches!(action, RunAction::Register { token: 4 }));
    let action: Action = replica.run(done());
    assert!(matches!(action, RunAction::StartSend(_)));
}

#[test]
fn events_ask_for_their_actions() {
    let mut replica = Replica::new();
    let action: Action = replica.run(RunEvent::Accepted(Ok(())));
    assert!(matches!(action, RunAction::Preprocess));
    replica.run::<u8, u8, u8, String>(done());
    let change = ChannelChange::Replica(address(3));
    match replica.run::<u8, u8, u8, String>(RunEvent::ChannelChanged(change)) {
        RunAction::Forget(c) => assert_eq!(c, change),
        _ => panic!("unexpected action"),
    }
    replica.run::<u8, u8, u8, String>(done());
    let action: Action = replica.run(RunEvent::Request(Some(WrappedDomainRequest {
        req: 1,
        done_tx: 2,
    })));
    assert!(matches!(
        action,
        RunAction::ProcessRequest(WrappedDomainRequest { req: 1, done_tx: 2 })
    ));
    replica.run::<u8, u8, u8, String>(done());
    let action: Action =
        replica.run(RunEvent::InitState(Some(MaterializedState { node: 5, state: 6 })));
    assert!(matches!(
        action,
        RunAction::ProcessState(MaterializedState { node: 5, state: 6 })
    ));
    let action: Action = replica.run(done());
    assert!(matches!(action, RunAction::Select));
}

#[test]
fn the_loop_returns_when_a_stream_ends() {
    let ends: Vec<Event> = vec![
        RunEvent::Request(None),
        RunEvent::InitState(None),
        RunEvent::Packets {
            received: Ok(None),
            connections: vec![],
        },
    ];
    for end in ends {
        let action = Replica::new().run(end);
        assert!(matches!(action, RunAction::Return(Ok(()))));
    }
}

#[test]
fn the_loop_returns_the_errors_it_is_told_of() {
    let failure = || "failure".to_string();
    let failures: Vec<Event> = vec![
        RunEvent::Accepted(Err(failure())),
        RunEvent::Packets {
            received: Err(failure()),
            connections: vec![],
        },
    ];
    for event in failures {
        match Replica::new().run(event) {
            RunAction::Return(Err(error)) => assert_eq!(error, "failure"),
            _ => panic!("no error"),
        }
    }
    // A packet that could not be handled is not acknowledged.
    let mut replica = Replica::new();
    let action: Action = replica.run(packets(vec![input(1, 2)], vec![1]));
    assert!(matches!(action, RunAction::Handle(_)));
    match replica.run::<u8, u8, u8, String>(RunEvent::Done(Err(failure()))) {
        RunAction::Return(Err(error)) => assert_eq!(error, "failure"),
        _ => panic!("no error"),
    }
    // A delivery that fails ends the loop, too.
    let mut replica = Replica::new();
    replica.run::<u8, u8, u8, String>(RunEvent::Timeout);
    replica.outboxes().send(address(1), other(1));
    replica.run::<u8, u8, u8, String>(done());
    replica.run::<u8, u8, u8, String>(done());
    match replica.run::<u8, u8, u8, String>(RunEvent::Sent(Err(failure()))) {
        RunAction::Return(Err(error)) => assert_eq!(error, "failure"),
        _ => panic!("no error"),
    }
}

#[test]
fn sleeps_until_the_domain_wants_to_be_polled() {
    assert_eq!(sleep_time(Some((2, 5))), (2, 5));
    assert_eq!(sleep_time(None), (3600, 0));
}
