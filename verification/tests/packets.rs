use std::collections::{HashSet, VecDeque};

use readyset_core::connection::{handle_new_connection, upgrade_packet, Upgrade};
use readyset_core::outboxes::Outboxes;
use readyset_core::outputs::{ChannelChange, GivenUp, Outputs};
use readyset_core::packet::{
    Packet, PacketData, PacketPayload, ReplicaAddress, SourceChannelIdentifier, Tagged,
};
use readyset_core::receive::{receive_packets, ReceiveAction, ReceiveEvent, ReceivePhase};
use readyset_core::replay::{flatten_request_reader_replay, merge_reader_replays};
use readyset_core::token::next_token;

fn address(domain_index: usize, shard: usize, replica: usize) -> ReplicaAddress {
    ReplicaAddress {
        domain_index,
        shard,
        replica,
    }
}

fn other(byte: u8) -> Packet {
    Packet::Other(vec![byte])
}

fn replay(node: u32, cols: Vec<usize>, keys: Vec<u64>) -> Packet {
    Packet::RequestReaderReplay { node, cols, keys }
}

fn sorted_keys(packet: Packet) -> Vec<u64> {
    match packet {
        Packet::RequestReaderReplay { mut keys, .. } => {
            keys.sort();
            keys
        }
        p => panic!("Unexpected packet {:?}", p),
    }
}

#[test]
fn tokens_count_up_and_start_over() {
    let mut counter = 0;
    assert_eq!(next_token(&mut counter), 0);
    assert_eq!(next_token(&mut counter), 1);
    assert_eq!(next_token(&mut counter), 2);
    assert_eq!(counter, 3);
    counter = u64::MAX;
    assert_eq!(next_token(&mut counter), u64::MAX);
    assert_eq!(next_token(&mut counter), 0);
}

#[test]
fn outboxes_keep_the_packets_of_each_destination_in_order() {
    let (a, b) = (address(0, 0, 0), address(0, 1, 0));
    let mut out = Outboxes::new();
    assert!(out.is_empty());
    out.send(a, other(1));
    out.send(b, other(2));
    out.send(a, other(3));
    assert!(!out.is_empty());
    let mut batches = out.take_batches();
    batches.sort_by_key(|(address, _)| address.shard);
    assert_eq!(
        batches,
        vec![
            (a, VecDeque::from(vec![other(1), other(3)])),
            (b, VecDeque::from(vec![other(2)])),
        ]
    );
    assert!(out.is_empty());
    assert_eq!(out.take_batches(), vec![]);
}

#[test]
fn outboxes_tell_all_parts_of_an_address_apart() {
    let mut out = Outboxes::new();
    for (i, dest) in [address(1, 0, 0), address(0, 1, 0), address(0, 0, 1)]
        .into_iter()
        .enumerate()
    {
        out.send(dest, other(i as u8));
    }
    let batches = out.take_batches();
    assert_eq!(batches.len(), 3);
    for (dest, queue) in batches {
        let i = if dest.domain_index == 1 {
            0
        } else if dest.shard == 1 {
            1
        } else {
            2
        };
        assert_eq!(queue, VecDeque::from(vec![other(i)]));
    }
}

#[test]
fn outputs_cache_connections() {
    let (a, b) = (address(1, 2, 3), address(1, 2, 4));
    let mut outputs = Outputs::new();
    assert_eq!(outputs.get(&a), None);
    outputs.insert(a, 10);
    outputs.insert(b, 11);
    assert_eq!(outputs.get(&a), Some(10));
    outputs.insert(a, 12);
    assert_eq!(outputs.get(&a), Some(12));
    assert_eq!(outputs.remove(&a), Some(12));
    assert_eq!(outputs.remove(&a), None);
    assert_eq!(outputs.get(&b), Some(11));
    outputs.clear();
    assert_eq!(outputs.get(&b), None);
}

#[test]
fn changed_replicas_lose_their_connection() {
    let (a, b) = (address(1, 2, 3), address(1, 2, 4));
    let mut outputs = Outputs::new();
    outputs.insert(a, 10);
    outputs.insert(b, 11);
    assert_eq!(
        outputs.apply_change(ChannelChange::Replica(a)),
        GivenUp::One(Some(10))
    );
    assert_eq!(
        outputs.apply_change(ChannelChange::Replica(a)),
        GivenUp::One(None)
    );
    assert_eq!(outputs.get(&b), Some(11));
    assert_eq!(
        outputs.apply_change(ChannelChange::Lagged),
        GivenUp::All
    );
    assert_eq!(outputs.get(&b), None);
}

#[test]
fn flatten_takes_out_the_matching_requests() {
    let mut packets = VecDeque::from(vec![
        replay(1, vec![0, 2], vec![3, 4]),
        other(1),
        replay(2, vec![0, 2], vec![5]),
        replay(1, vec![0, 2], vec![4, 6]),
        replay(1, vec![2, 0], vec![7]),
        replay(1, vec![0], vec![8]),
    ]);
    let mut keys: HashSet<u64> = HashSet::from([9]);
    flatten_request_reader_replay(1, &[0, 2], &mut keys, &mut packets);
    assert_eq!(keys, HashSet::from([9, 3, 4, 6]));
    assert_eq!(
        packets,
        VecDeque::from(vec![
            other(1),
            replay(2, vec![0, 2], vec![5]),
            replay(1, vec![2, 0], vec![7]),
            replay(1, vec![0], vec![8]),
        ])
    );
    let before = HashSet::from([9, 3, 4, 6]);
    flatten_request_reader_replay(1, &[0, 2], &mut keys, &mut packets);
    assert_eq!(keys, before);
    assert_eq!(packets.len(), 4);
}

#[test]
fn merging_replays_keeps_each_key_once() {
    let mut behind = VecDeque::from(vec![
        other(1),
        replay(7, vec![1], vec![2, 5]),
        replay(8, vec![1], vec![2]),
        replay(7, vec![1], vec![5, 6]),
    ]);
    let merged = merge_reader_replays(replay(7, vec![1], vec![5, 5, 4]), &mut behind);
    assert!(matches!(
        &merged,
        Packet::RequestReaderReplay { node: 7, cols, .. } if *cols == vec![1]
    ));
    assert_eq!(sorted_keys(merged), vec![2, 4, 5, 6]);
    assert_eq!(
        behind,
        VecDeque::from(vec![other(1), replay(8, vec![1], vec![2])])
    );
}

#[test]
fn merging_leaves_other_packets_alone() {
    let mut behind = VecDeque::from(vec![replay(7, vec![1], vec![5])]);
    assert_eq!(merge_reader_replays(other(3), &mut behind), other(3));
    assert_eq!(behind.len(), 1);
}

#[test]
fn base_connections_are_told_by_their_first_byte() {
    let mut counter = 41;
    assert_eq!(
        handle_new_connection::<String>(Ok(1), 1, &mut counter),
        Ok((41, Upgrade::FromBase))
    );
    assert_eq!(
        handle_new_connection::<String>(Ok(2), 1, &mut counter),
        Ok((
            42,
            Upgrade::FromDomain {
                read_capacity: 2 * 1024 * 1024,
                write_capacity: 4 * 1024,
            }
        ))
    );
    assert_eq!(counter, 43);
}

#[test]
fn failed_connections_draw_no_token() {
    let mut counter = 41;
    assert_eq!(
        handle_new_connection(Err("eof".to_string()), 1, &mut counter),
        Err("eof".to_string())
    );
    assert_eq!(counter, 41);
}

#[test]
fn base_packets_are_marked_with_their_source() {
    let src = SourceChannelIdentifier { token: 5, tag: 6 };
    let input = || PacketData {
        data: PacketPayload::Input(vec![1, 2]),
    };
    let timestamp = || PacketData {
        data: PacketPayload::Timestamp(vec![3]),
    };
    assert_eq!(
        upgrade_packet(5, Tagged { v: input(), tag: 6 }),
        Packet::Input {
            inner: input(),
            src
        }
    );
    assert_eq!(
        upgrade_packet(
            5,
            Tagged {
                v: timestamp(),
                tag: 6
            }
        ),
        Packet::Timestamp {
            link: None,
            src,
            timestamp: timestamp()
        }
    );
}

type Event = ReceiveEvent<String>;

/// Receives packets for as long as there are events, and returns the last action.
fn receive(events: Vec<Event>) -> ReceiveAction<String> {
    let (mut receiver, mut action) = receive_packets::<String>();
    assert!(matches!(action, ReceiveAction::WaitAny));
    for event in events {
        assert!(receiver.phase() != ReceivePhase::Finished);
        action = receiver.step(event);
    }
    action
}

fn local(n: u8) -> Event {
    ReceiveEvent::Local(Some(other(n)))
}

fn remote(n: u8) -> Event {
    ReceiveEvent::Remote(Some(Ok(other(n))))
}

fn batch(action: ReceiveAction<String>) -> Vec<Packet> {
    match action {
        ReceiveAction::Return(Ok(Some(packets))) => packets.into_iter().collect(),
        _ => panic!("no batch"),
    }
}

#[test]
fn receiving_ends_when_nothing_is_ready() {
    let local_batch = receive(vec![local(1), local(2), ReceiveEvent::NotReady]);
    assert_eq!(batch(local_batch), vec![other(1), other(2)]);
    let remote_batch = receive(vec![remote(1), remote(2), ReceiveEvent::NotReady]);
    assert_eq!(batch(remote_batch), vec![other(1), other(2)]);
    let drained = receive(vec![remote(3), ReceiveEvent::Remote(None)]);
    assert_eq!(batch(drained), vec![other(3)]);
}

#[test]
fn receiving_polls_the_source_of_the_first_packet() {
    assert!(matches!(receive(vec![local(1)]), ReceiveAction::PollLocal));
    assert!(matches!(
        receive(vec![remote(1)]),
        ReceiveAction::PollRemote
    ));
}

#[test]
fn local_batches_end_at_the_limit() {
    let almost: Vec<Event> = (0..63).map(local).collect();
    assert!(matches!(receive(almost), ReceiveAction::PollLocal));
    let full: Vec<Event> = (0..64).map(local).collect();
    let expected: Vec<Packet> = (0..64).map(other).collect();
    assert_eq!(batch(receive(full)), expected);
}

#[test]
fn remote_batches_end_one_above_the_limit() {
    let almost: Vec<Event> = (0..64).map(remote).collect();
    assert!(matches!(receive(almost), ReceiveAction::PollRemote));
    let full: Vec<Event> = (0..65).map(remote).collect();
    let expected: Vec<Packet> = (0..65).map(other).collect();
    assert_eq!(batch(receive(full)), expected);
}

#[test]
fn a_closed_local_connection_ends_receiving() {
    assert!(matches!(
        receive(vec![ReceiveEvent::Local(None)]),
        ReceiveAction::Return(Ok(None))
    ));
    assert!(matches!(
        receive(vec![local(1), local(2), ReceiveEvent::Local(None)]),
        ReceiveAction::Return(Ok(None))
    ));
}

#[test]
fn a_failing_remote_connection_ends_receiving() {
    for before in [vec![], vec![remote(1), remote(2)]] {
        let mut events = before;
        events.push(ReceiveEvent::Remote(Some(Err("reset".to_string()))));
        match receive(events) {
            ReceiveAction::Return(Err(error)) => assert_eq!(error, "reset"),
            _ => panic!("no error"),
        }
    }
}

#[test]
fn without_remote_connections_only_the_local_one_is_awaited() {
    assert!(matches!(
        receive(vec![ReceiveEvent::Remote(None)]),
        ReceiveAction::WaitLocal
    ));
    let packets = receive(vec![
        ReceiveEvent::Remote(None),
        local(4),
        ReceiveEvent::NotReady,
    ]);
    assert_eq!(batch(packets), vec![other(4)]);
}
