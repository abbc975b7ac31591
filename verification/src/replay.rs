//! Batching of reader replay requests.
use std::collections::HashSet;
use std::collections::VecDeque;

use vstd::prelude::*;
use vstd::std_specs::iter::IteratorSpec;

use crate::packet::{KeyComparison, LocalNodeIndex, Packet};

verus! {

broadcast use vstd::std_specs::hash::group_hash_axioms;

/// Whether `packet` asks for a replay of the columns `cols` of the reader `node`.
pub open spec fn is_replay_of(packet: Packet, node: LocalNodeIndex, cols: Seq<usize>) -> bool {
    match packet {
        Packet::RequestReaderReplay { node: n, cols: c, .. } => n == node && c@ == cols,
        _ => false,
    }
}

/// The keys that a packet asks to have replayed.
pub open spec fn replay_keys(packet: Packet) -> Seq<KeyComparison> {
    match packet {
        Packet::RequestReaderReplay { keys, .. } => keys@,
        _ => Seq::empty(),
    }
}

/// The packets that do not ask for a replay of `cols` of `node`, in their order.
pub open spec fn other_packets(
    packets: Seq<Packet>,
    node: LocalNodeIndex,
    cols: Seq<usize>,
) -> Seq<Packet> {
    packets.filter(|p: Packet| !is_replay_of(p, node, cols))
}

/// The keys of all packets that ask for a replay of `cols` of `node`.
pub open spec fn requested_keys(
    packets: Seq<Packet>,
    node: LocalNodeIndex,
    cols: Seq<usize>,
) -> Set<KeyComparison> {
    Set::new(
        |key: KeyComparison|
            exists|i: int|
                0 <= i < packets.len() && is_replay_of(#[trigger] packets[i], node, cols)
                    && replay_keys(packets[i]).contains(key),
    )
}

/// Whether two lists of columns are the same.
fn same_columns(left: &[usize], right: &[usize]) -> (same: bool)
    ensures
        same == (left@ == right@),
{
    if left.len() != right.len() {
        return false;
    }
    let mut i: usize = 0;
    while i < left.len()
        invariant
            left@.len() == right@.len(),
            i <= left@.len(),
            forall|j: int| 0 <= j < i ==> left@[j] == right@[j],
        decreases left@.len() - i,
    {
        if left[i] != right[i] {
            return false;
        }
        i = i + 1;
    }
    assert(left@ =~= right@);
    true
}

/// Adds every key of a list to a set.
fn add_keys(set: &mut HashSet<KeyComparison>, keys: &Vec<KeyComparison>)
    ensures
        final(set)@ == old(set)@.union(keys@.to_set()),
{
    let mut i: usize = 0;
    assert(keys@.take(0).to_set() =~= Set::empty());
    assert(set@ =~= old(set)@.union(keys@.take(0).to_set()));
    while i < keys.len()
        invariant
            i <= keys@.len(),
            set@ == old(set)@.union(keys@.take(i as int).to_set()),
        decreases keys@.len() - i,
    {
        set.insert(keys[i]);
        proof {
            assert(keys@.take(i + 1) =~= keys@.take(i as int).push(keys@[i as int]));
            keys@.take(i as int).lemma_push_to_set_commute(keys@[i as int]);
            assert(set@ =~= old(set)@.union(keys@.take(i + 1).to_set()));
        }
        i = i + 1;
    }
    assert(keys@.take(i as int) =~= keys@);
}

/// Merges the requests for a replay of the columns `c` of the reader `n`: takes them out of
/// `packets`, and adds their keys to `unique_keys`.
pub fn flatten_request_reader_replay(
    n: LocalNodeIndex,
    c: &[usize],
    unique_keys: &mut HashSet<KeyComparison>,
    packets: &mut VecDeque<Packet>,
)
    ensures
        final(packets)@ == other_packets(old(packets)@, n, c@),
        final(unique_keys)@ == old(unique_keys)@.union(requested_keys(old(packets)@, n, c@)),
{
    let ghost all = packets@;
    let ghost other = |p: Packet| !is_replay_of(p, n, c@);
    let ghost mut seen: int = 0;
    let mut i: usize = 0;
    assert(all.take(0).filter(other) =~= Seq::empty());
    assert(all.skip(0) =~= all);
    assert(requested_keys(all.take(0), n, c@) =~= Set::empty());
    assert(packets@ =~= all.take(0).filter(other) + all.skip(0));
    assert(unique_keys@ =~= old(unique_keys)@.union(requested_keys(all.take(0), n, c@)));
    while i < packets.len()
        invariant
            all == old(packets)@,
            other == (|p: Packet| !is_replay_of(p, n, c@)),
            0 <= seen <= all.len(),
            i == all.take(seen).filter(other).len(),
            packets@ == all.take(seen).filter(other) + all.skip(seen),
            unique_keys@ == old(unique_keys)@.union(requested_keys(all.take(seen), n, c@)),
        decreases all.len() - seen,
    {
        let hit: bool = match &packets[i] {
            Packet::RequestReaderReplay { node, cols, .. } => {
                *node == n && same_columns(cols.as_slice(), c)
            },
            _ => false,
        };
        proof {
            assert(seen < all.len());
            assert(packets@[i as int] == all[seen]);
            assert(hit == is_replay_of(all[seen], n, c@));
            assert(all.take(seen + 1) =~= all.take(seen).push(all[seen]));
            all.take(seen).lemma_filter_push(all[seen], other);
            assert(all.skip(seen) =~= seq![all[seen]] + all.skip(seen + 1));
            lemma_requested_keys_push(all.take(seen), all[seen], n, c@);
        }
        if hit {
            let removed = packets.remove(i);
            proof {
                assert(packets@ =~= all.take(seen + 1).filter(other) + all.skip(seen + 1));
            }
            if let Some(Packet::RequestReaderReplay { keys, .. }) = removed {
                add_keys(unique_keys, &keys);
            }
            proof {
                assert(unique_keys@ =~= old(unique_keys)@.union(
                    requested_keys(all.take(seen + 1), n, c@),
                ));
            }
        } else {
            i = i + 1;
            proof {
                assert(packets@ =~= all.take(seen + 1).filter(other) + all.skip(seen + 1));
            }
        }
        proof {
            seen = seen + 1;
        }
    }
    proof {
        assert(all.skip(seen).len() == 0);
        assert(all.take(seen) =~= all);
        assert(packets@ =~= all.filter(other));
    }
}

/// What becomes of a packet, and of those behind it, when replay requests are batched: a replay
/// request takes over the keys of every request behind it for the same columns of the same reader,
/// each key once, and those requests are gone. Any other packet stays as it is.
pub open spec fn merges_replays(
    packet: Packet,
    behind: Seq<Packet>,
    merged: Packet,
    left: Seq<Packet>,
) -> bool {
    match packet {
        Packet::RequestReaderReplay { node, cols, keys } => {
            &&& left == other_packets(behind, node, cols@)
            &&& is_replay_of(merged, node, cols@)
            &&& replay_keys(merged).no_duplicates()
            &&& replay_keys(merged).to_set() == keys@.to_set().union(
                requested_keys(behind, node, cols@),
            )
        },
        _ => merged == packet && left == behind,
    }
}

/// The packets without the replay requests that repeat one before them: a request is left out if
/// one in front of it asks for the same columns of the same reader, whatever its keys.
pub open spec fn without_repeats(packets: Seq<Packet>) -> Seq<Packet>
    decreases packets.len(),
{
    if packets.len() == 0 {
        packets
    } else {
        let behind = packets.drop_first();
        match packets.first() {
            Packet::RequestReaderReplay { node, cols, .. } => {
                proof {
                    behind.lemma_filter_len(|p: Packet| !is_replay_of(p, node, cols@));
                }
                seq![packets.first()] + without_repeats(other_packets(behind, node, cols@))
            },
            _ => seq![packets.first()] + without_repeats(behind),
        }
    }
}

/// Lists the keys of a set, each once, in no particular order.
fn list_keys(set: &HashSet<KeyComparison>) -> (keys: Vec<KeyComparison>)
    ensures
        keys@.no_duplicates(),
        keys@.to_set() == set@,
{
    let mut keys: Vec<KeyComparison> = Vec::new();
    let ghost order = IteratorSpec::remaining(
        &vstd::std_specs::hash::spec_hash_keys_iter(set),
    ).unref();
    for key in it: set.iter()
        invariant
            it.seq().unref() == order,
            keys@ == order.take(it.index()),
    {
        proof {
            assert(order.take(it.index() + 1) =~= order.take(it.index()).push(*key));
        }
        keys.push(*key);
    }
    assert(order.take(order.len() as int) =~= order);
    keys
}

/// Batches a replay request with those behind it which ask for the same columns of the same
/// reader, so that the domain replays each key once. Any other packet is handed back as it is.
pub fn merge_reader_replays(packet: Packet, packets: &mut VecDeque<Packet>) -> (merged: Packet)
    ensures
        merges_replays(packet, old(packets)@, merged, final(packets)@),
{
    match packet {
        Packet::RequestReaderReplay { node, cols, keys } => {
            let mut unique_keys: HashSet<KeyComparison> = HashSet::new();
            add_keys(&mut unique_keys, &keys);
            assert(unique_keys@ =~= keys@.to_set());
            flatten_request_reader_replay(node, cols.as_slice(), &mut unique_keys, packets);
            let keys = list_keys(&unique_keys);
            Packet::RequestReaderReplay { node, cols, keys }
        },
        packet => packet,
    }
}

/// One more packet adds its keys if it asks for the replay in question, and none otherwise.
proof fn lemma_requested_keys_push(
    packets: Seq<Packet>,
    packet: Packet,
    node: LocalNodeIndex,
    cols: Seq<usize>,
)
    ensures
        requested_keys(packets.push(packet), node, cols) == if is_replay_of(packet, node, cols) {
            requested_keys(packets, node, cols).union(replay_keys(packet).to_set())
        } else {
            requested_keys(packets, node, cols)
        },
{
    let longer = packets.push(packet);
    let before = requested_keys(packets, node, cols);
    let after = requested_keys(longer, node, cols);
    assert forall|key: KeyComparison| before.contains(key) implies after.contains(key) by {
        let i = choose|i: int|
            0 <= i < packets.len() && is_replay_of(#[trigger] packets[i], node, cols)
                && replay_keys(packets[i]).contains(key);
        assert(longer[i] == packets[i]);
    }
    assert forall|key: KeyComparison|
        after.contains(key) && !before.contains(key) implies is_replay_of(packet, node, cols)
        && replay_keys(packet).contains(key) by {
        let i = choose|i: int|
            0 <= i < longer.len() && is_replay_of(#[trigger] longer[i], node, cols)
                && replay_keys(longer[i]).contains(key);
        if i < packets.len() {
            assert(packets[i] == longer[i]);
        }
    }
    if is_replay_of(packet, node, cols) {
        assert(longer[packets.len() as int] == packet);
        assert(after =~= before.union(replay_keys(packet).to_set()));
    } else {
        assert(after =~= before);
    }
}

/// The packets that ask for no replay, in their order.
pub open spec fn plain_packets(packets: Seq<Packet>) -> Seq<Packet> {
    packets.filter(|p: Packet| !(p is RequestReaderReplay))
}

/// Taking out some replay requests takes out no other packet.
proof fn lemma_others_keep_plain(packets: Seq<Packet>, node: LocalNodeIndex, cols: Seq<usize>)
    ensures
        plain_packets(other_packets(packets, node, cols)) == plain_packets(packets),
    decreases packets.len(),
{
    reveal(Seq::filter);
    if packets.len() > 0 {
        let fewer = packets.drop_last();
        lemma_others_keep_plain(fewer, node, cols);
        assert(packets =~= fewer.push(packets.last()));
        fewer.lemma_filter_push(packets.last(), |p: Packet| !is_replay_of(p, node, cols));
        fewer.lemma_filter_push(packets.last(), |p: Packet| !(p is RequestReaderReplay));
        other_packets(fewer, node, cols).lemma_filter_push(
            packets.last(),
            |p: Packet| !(p is RequestReaderReplay),
        );
    }
}

/// What is asked of another reader or other columns stays as it was.
proof fn lemma_others_keep_keys(
    packets: Seq<Packet>,
    node: LocalNodeIndex,
    cols: Seq<usize>,
    n: LocalNodeIndex,
    c: Seq<usize>,
)
    ensures
        requested_keys(other_packets(packets, node, cols), n, c) == if n == node && c == cols {
            Set::empty()
        } else {
            requested_keys(packets, n, c)
        },
    decreases packets.len(),
{
    reveal(Seq::filter);
    let other = |p: Packet| !is_replay_of(p, node, cols);
    if packets.len() == 0 {
        assert(requested_keys(packets, n, c) =~= Set::empty());
        assert(other_packets(packets, node, cols) =~= packets);
    } else {
        let fewer = packets.drop_last();
        lemma_others_keep_keys(fewer, node, cols, n, c);
        assert(packets =~= fewer.push(packets.last()));
        fewer.lemma_filter_push(packets.last(), other);
        lemma_requested_keys_push(fewer, packets.last(), n, c);
        lemma_requested_keys_push(other_packets(fewer, node, cols), packets.last(), n, c);
    }
}

/// A packet in front adds its keys if it asks for the replay in question, and none otherwise.
pub(crate) proof fn lemma_requested_keys_prepend(
    packet: Packet,
    packets: Seq<Packet>,
    node: LocalNodeIndex,
    cols: Seq<usize>,
)
    ensures
        requested_keys(seq![packet] + packets, node, cols) == if is_replay_of(packet, node, cols) {
            replay_keys(packet).to_set().union(requested_keys(packets, node, cols))
        } else {
            requested_keys(packets, node, cols)
        },
{
    let longer = seq![packet] + packets;
    let behind = requested_keys(packets, node, cols);
    let all = requested_keys(longer, node, cols);
    assert forall|key: KeyComparison| behind.contains(key) implies all.contains(key) by {
        let i = choose|i: int|
            0 <= i < packets.len() && is_replay_of(#[trigger] packets[i], node, cols)
                && replay_keys(packets[i]).contains(key);
        assert(longer[i + 1] == packets[i]);
    }
    assert forall|key: KeyComparison|
        all.contains(key) && !behind.contains(key) implies is_replay_of(packet, node, cols)
        && replay_keys(packet).contains(key) by {
        let i = choose|i: int|
            0 <= i < longer.len() && is_replay_of(#[trigger] longer[i], node, cols)
                && replay_keys(longer[i]).contains(key);
        if i > 0 {
            assert(packets[i - 1] == longer[i]);
        }
    }
    if is_replay_of(packet, node, cols) {
        assert(longer[0] == packet);
        assert(all =~= replay_keys(packet).to_set().union(behind));
    } else {
        assert(all =~= behind);
    }
}

/// Batching loses no packet that asks for no replay, and keeps their order.
pub proof fn batching_keeps_plain_packets(
    packet: Packet,
    behind: Seq<Packet>,
    merged: Packet,
    left: Seq<Packet>,
)
    requires
        merges_replays(packet, behind, merged, left),
    ensures
        plain_packets(seq![merged] + left) == plain_packets(seq![packet] + behind),
        plain_packets(left) == plain_packets(behind),
        left.len() <= behind.len(),
{
    let plain = |p: Packet| !(p is RequestReaderReplay);
    match packet {
        Packet::RequestReaderReplay { node, cols, .. } => {
            lemma_others_keep_plain(behind, node, cols@);
            behind.lemma_filter_len(|p: Packet| !is_replay_of(p, node, cols@));
        },
        _ => {},
    }
    behind.lemma_filter_prepend(packet, plain);
    left.lemma_filter_prepend(merged, plain);
}

/// Batching loses no key that a reader was asked for and makes none up: for all columns of all
/// readers, the same keys are asked for before and after.
pub proof fn batching_keeps_requested_keys(
    packet: Packet,
    behind: Seq<Packet>,
    merged: Packet,
    left: Seq<Packet>,
    node: LocalNodeIndex,
    cols: Seq<usize>,
)
    requires
        merges_replays(packet, behind, merged, left),
    ensures
        requested_keys(seq![merged] + left, node, cols) == requested_keys(
            seq![packet] + behind,
            node,
            cols,
        ),
{
    match packet {
        Packet::RequestReaderReplay { node: n, cols: c, keys } => {
            lemma_others_keep_keys(behind, n, c@, node, cols);
            lemma_requested_keys_prepend(packet, behind, node, cols);
            lemma_requested_keys_prepend(merged, left, node, cols);
            assert(requested_keys(seq![merged] + left, node, cols) =~= requested_keys(
                seq![packet] + behind,
                node,
                cols,
            ));
        },
        _ => {},
    }
}

/// Once a replay request was batched, no packet behind it asks for the same columns of the same
/// reader: the domain is asked once.
pub proof fn batched_request_is_the_only_one(
    packet: Packet,
    behind: Seq<Packet>,
    merged: Packet,
    left: Seq<Packet>,
    node: LocalNodeIndex,
    cols: Seq<usize>,
)
    requires
        merges_replays(packet, behind, merged, left),
        is_replay_of(packet, node, cols),
    ensures
        forall|i: int| 0 <= i < left.len() ==> !is_replay_of(#[trigger] left[i], node, cols),
{
    let other = |p: Packet| !is_replay_of(p, node, cols);
    assert forall|i: int| 0 <= i < left.len() implies !is_replay_of(
        #[trigger] left[i],
        node,
        cols,
    ) by {
        behind.lemma_filter_pred(other, i);
    }
}

/// Batching makes no packet ask for another replay than it did: the batched request asks for what
/// it asked for before, those that are left were there, and those that ask for another replay are
/// left.
pub proof fn batching_asks_for_nothing_new(
    packet: Packet,
    behind: Seq<Packet>,
    merged: Packet,
    left: Seq<Packet>,
    node: LocalNodeIndex,
    cols: Seq<usize>,
)
    requires
        merges_replays(packet, behind, merged, left),
    ensures
        is_replay_of(merged, node, cols) == is_replay_of(packet, node, cols),
        forall|i: int| 0 <= i < left.len() ==> behind.contains(#[trigger] left[i]),
        forall|i: int|
            0 <= i < behind.len() && is_replay_of(#[trigger] behind[i], node, cols)
                && !is_replay_of(packet, node, cols) ==> left.contains(behind[i]),
{
    match packet {
        Packet::RequestReaderReplay { node: n, cols: c, .. } => {
            let other = |p: Packet| !is_replay_of(p, n, c@);
            assert forall|i: int|
                0 <= i < behind.len() && is_replay_of(#[trigger] behind[i], node, cols)
                    && !is_replay_of(packet, node, cols) implies left.contains(behind[i]) by {
                assert(other(behind[i]));
                behind.lemma_filter_contains(other, i);
            }
            assert forall|i: int| 0 <= i < left.len() implies behind.contains(
                #[trigger] left[i],
            ) by {
                behind.lemma_filter_contains_rev(other, left[i]);
            }
        },
        _ => {},
    }
}

/// Merging again finds nothing more to merge.
pub proof fn flattening_is_idempotent(packets: Seq<Packet>, node: LocalNodeIndex, cols: Seq<usize>)
    ensures
        other_packets(other_packets(packets, node, cols), node, cols) == other_packets(
            packets,
            node,
            cols,
        ),
        requested_keys(other_packets(packets, node, cols), node, cols).is_empty(),
    decreases packets.len(),
{
    reveal(Seq::filter);
    lemma_others_keep_keys(packets, node, cols, node, cols);
    if packets.len() > 0 {
        let other = |p: Packet| !is_replay_of(p, node, cols);
        let fewer = packets.drop_last();
        flattening_is_idempotent(fewer, node, cols);
        assert(packets =~= fewer.push(packets.last()));
        fewer.lemma_filter_push(packets.last(), other);
        other_packets(fewer, node, cols).lemma_filter_push(packets.last(), other);
    }
}

/// Flattening takes out of the packets just the requests for these columns of this reader, and
/// leaves the others in their order; of the keys, those of the requests that were taken out come to
/// the ones that were there before, and no others.
pub proof fn flattening_takes_out_requests_and_keeps_their_keys(
    n: LocalNodeIndex,
    c: &[usize],
    unique_keys: &mut HashSet<KeyComparison>,
    packets: &mut VecDeque<Packet>,
    done: (),
    key: KeyComparison,
)
    requires
        call_ensures(flatten_request_reader_replay, (n, c, unique_keys, packets), done),
    ensures
        final(packets)@ == old(packets)@.filter(
            |p: Packet|
                match p {
                    Packet::RequestReaderReplay { node, cols, .. } => node != n || cols@ != c@,
                    _ => true,
                },
        ),
        final(unique_keys)@.contains(key) <==> old(unique_keys)@.contains(key) || exists|i: int|
            0 <= i < old(packets)@.len() && (#[trigger] old(packets)@[i] matches
                Packet::RequestReaderReplay { node, cols, keys } && node == n && cols@ == c@
                && keys@.contains(key)),
{
    lemma_keys_by_their_parts(old(packets)@, n, c@, key);
    assert((|p: Packet| !is_replay_of(p, n, c@)) =~= (|p: Packet|
        match p {
            Packet::RequestReaderReplay { node, cols, .. } => node != n || cols@ != c@,
            _ => true,
        }));
}

/// Which keys are requested, by the parts of the packets.
pub(crate) proof fn lemma_keys_by_their_parts(
    packets: Seq<Packet>,
    n: LocalNodeIndex,
    c: Seq<usize>,
    key: KeyComparison,
)
    ensures
        requested_keys(packets, n, c).contains(key) <==> exists|i: int|
            0 <= i < packets.len() && (#[trigger] packets[i] matches Packet::RequestReaderReplay {
                node,
                cols,
                keys,
            } && node == n && cols@ == c && keys@.contains(key)),
{
    if requested_keys(packets, n, c).contains(key) {
        let i = choose|i: int|
            0 <= i < packets.len() && is_replay_of(#[trigger] packets[i], n, c) && replay_keys(
                packets[i],
            ).contains(key);
        assert(packets[i] matches Packet::RequestReaderReplay { node, cols, keys } && node == n
            && cols@ == c && keys@.contains(key));
    }
    if exists|i: int|
        0 <= i < packets.len() && (#[trigger] packets[i] matches Packet::RequestReaderReplay {
            node,
            cols,
            keys,
        } && node == n && cols@ == c && keys@.contains(key)) {
        let i = choose|i: int|
            0 <= i < packets.len() && (#[trigger] packets[i] matches Packet::RequestReaderReplay {
                node,
                cols,
                keys,
            } && node == n && cols@ == c && keys@.contains(key));
        assert(is_replay_of(packets[i], n, c) && replay_keys(packets[i]).contains(key));
    }
}

/// A packet that asks for no replay comes through as it is, and so do those behind it. A request
/// stays a request for the same columns of the same reader. It then lists, each once, the keys that
/// it had itself and those of the requests behind it for the same columns of the same reader; of
/// the packets behind it just those requests are gone.
pub proof fn a_merged_request_asks_for_all_its_keys(
    packet: Packet,
    packets: &mut VecDeque<Packet>,
    merged: Packet,
    key: KeyComparison,
)
    requires
        call_ensures(merge_reader_replays, (packet, packets), merged),
    ensures
        !(packet is RequestReaderReplay) ==> merged == packet && final(packets)@ == old(packets)@,
        packet matches Packet::RequestReaderReplay { node: n, cols: c, keys: own } ==> {
            &&& merged matches Packet::RequestReaderReplay { node, cols, keys } && {
                &&& node == n
                &&& cols@ == c@
                &&& keys@.no_duplicates()
                &&& keys@.contains(key) <==> own@.contains(key) || exists|i: int|
                    0 <= i < old(packets)@.len() && (#[trigger] old(packets)@[i] matches
                        Packet::RequestReaderReplay { node: m, cols: d, keys: more } && m == n
                        && d@ == c@ && more@.contains(key))
            }
            &&& final(packets)@ == old(packets)@.filter(
                |p: Packet|
                    match p {
                        Packet::RequestReaderReplay { node, cols, .. } => node != n || cols@ != c@,
                        _ => true,
                    },
            )
        },
{
    if let Packet::RequestReaderReplay { node: n, cols: c, keys: own } = packet {
        lemma_keys_by_their_parts(old(packets)@, n, c@, key);
        assert((|p: Packet| !is_replay_of(p, n, c@)) =~= (|p: Packet|
            match p {
                Packet::RequestReaderReplay { node, cols, .. } => node != n || cols@ != c@,
                _ => true,
            }));
        assert(replay_keys(merged).to_set().contains(key) <==> own@.to_set().contains(key)
            || requested_keys(old(packets)@, n, c@).contains(key));
    }
}

/// Whether a packet is a repeat can be told when it comes: it is one exactly if a request for the
/// same columns of the same reader came before it. What comes after it does not matter.
pub proof fn repeats_follow_a_request(packets: Seq<Packet>, packet: Packet)
    ensures
        without_repeats(packets.push(packet)) == match packet {
            Packet::RequestReaderReplay { node: n, cols: c, .. } if exists|i: int|
                0 <= i < packets.len() && (#[trigger] packets[i] matches
                    Packet::RequestReaderReplay { node, cols, .. } && node == n && cols@
                    == c@) => without_repeats(packets),
            _ => without_repeats(packets).push(packet),
        },
{
    lemma_repeats_push(packets, packet);
    if let Packet::RequestReaderReplay { node: n, cols: c, .. } = packet {
        if exists|i: int| 0 <= i < packets.len() && is_replay_of(#[trigger] packets[i], n, c@) {
            let i = choose|i: int|
                0 <= i < packets.len() && is_replay_of(#[trigger] packets[i], n, c@);
            assert(packets[i] matches Packet::RequestReaderReplay { node, cols, .. } && node == n
                && cols@ == c@);
        }
        assert forall|i: int|
            0 <= i < packets.len() && (#[trigger] packets[i] matches Packet::RequestReaderReplay {
                node,
                cols,
                ..
            } && node == n && cols@ == c@) implies is_replay_of(packets[i], n, c@) by {}
    }
}

/// One more packet is left out if it repeats a request.
proof fn lemma_repeats_push(packets: Seq<Packet>, packet: Packet)
    ensures
        without_repeats(packets.push(packet)) == match packet {
            Packet::RequestReaderReplay { node, cols, .. } if exists|i: int|
                0 <= i < packets.len() && is_replay_of(
                    #[trigger] packets[i],
                    node,
                    cols@,
                ) => without_repeats(packets),
            _ => without_repeats(packets).push(packet),
        },
    decreases packets.len(),
{
    let longer = packets.push(packet);
    if packets.len() == 0 {
        assert(longer.first() == packet);
        assert(longer.drop_first() =~= Seq::empty());
        if let Packet::RequestReaderReplay { node, cols, .. } = packet {
            reveal(Seq::filter);
            assert(other_packets(longer.drop_first(), node, cols@) =~= Seq::empty());
        }
        assert(without_repeats(Seq::empty()) =~= Seq::empty());
        assert(without_repeats(longer) =~= without_repeats(packets).push(packet));
    } else {
        let first = packets.first();
        let behind = packets.drop_first();
        assert(longer.first() == first);
        assert(longer.drop_first() =~= behind.push(packet));
        match first {
            Packet::RequestReaderReplay { node: n, cols: c, .. } => {
                let other = |p: Packet| !is_replay_of(p, n, c@);
                let left = other_packets(behind, n, c@);
                behind.lemma_filter_push(packet, other);
                behind.lemma_filter_len(other);
                assert(is_replay_of(packets[0], n, c@));
                if is_replay_of(packet, n, c@) {
                    assert(without_repeats(longer) =~= without_repeats(packets));
                } else {
                    lemma_repeats_push(left, packet);
                    if let Packet::RequestReaderReplay { node, cols, .. } = packet {
                        if exists|i: int|
                            0 <= i < left.len() && is_replay_of(#[trigger] left[i], node, cols@) {
                            let i = choose|i: int|
                                0 <= i < left.len() && is_replay_of(
                                    #[trigger] left[i],
                                    node,
                                    cols@,
                                );
                            assert(left.contains(left[i]));
                            behind.lemma_filter_contains_rev(other, left[i]);
                            let j = choose|j: int| 0 <= j < behind.len() && behind[j] == left[i];
                            assert(packets[j + 1] == left[i]);
                        }
                        if exists|i: int|
                            0 <= i < packets.len() && is_replay_of(
                                #[trigger] packets[i],
                                node,
                                cols@,
                            ) {
                            let i = choose|i: int|
                                0 <= i < packets.len() && is_replay_of(
                                    #[trigger] packets[i],
                                    node,
                                    cols@,
                                );
                            assert(behind[i - 1] == packets[i]);
                            behind.lemma_filter_contains(other, i - 1);
                            let j = choose|j: int| 0 <= j < left.len() && left[j] == packets[i];
                            assert(is_replay_of(left[j], node, cols@));
                        }
                    }
                    assert(seq![first] + without_repeats(left).push(packet) =~= (seq![first]
                        + without_repeats(left)).push(packet));
                }
            },
            _ => {
                lemma_repeats_push(behind, packet);
                if let Packet::RequestReaderReplay { node, cols, .. } = packet {
                    assert forall|i: int|
                        0 <= i < packets.len() && is_replay_of(
                            #[trigger] packets[i],
                            node,
                            cols@,
                        ) implies is_replay_of(behind[i - 1], node, cols@) by {
                        assert(behind[i - 1] == packets[i]);
                    }
                    assert forall|i: int|
                        0 <= i < behind.len() && is_replay_of(
                            #[trigger] behind[i],
                            node,
                            cols@,
                        ) implies is_replay_of(packets[i + 1], node, cols@) by {
                        assert(behind[i] == packets[i + 1]);
                    }
                }
                assert(seq![first] + without_repeats(behind).push(packet) =~= (seq![first]
                    + without_repeats(behind)).push(packet));
            },
        }
    }
}

} // verus!
