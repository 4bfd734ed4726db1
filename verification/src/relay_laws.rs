//! What the relay engine promises as a whole.

use crate::error::RelayError;
use crate::fragment::{
    is_free, lemma_frames_fit, reassemble, slice_count, slice_limit, split_frames, tracks,
    OutcomeView, MAX_FRAGMENTS,
};
use crate::fragment_laws::{
    concat_payloads, feed, is_order_of, law_slices_in_any_order_complete,
    law_split_preserves_payload, slices_in_order,
};
use crate::port::FrameAddr;
use crate::proto::{
    frame_bytes, law_decoded_is_valid, law_frame_round_trip, parse_message, Fragment, MessageView,
    MsgKind, ProtoError, Transport, BROADCAST_ADDR, DEFAULT_TTL, MAX_FRAME, MAX_PAYLOAD,
};
use crate::receivers::{
    law_listed, law_observation, law_observation_needs_room, listed, row_of, via_of,
    with_observation,
};
use crate::relay::{
    as_planned, dedup_key, frames_on, id_after, Destination, EmissionView, EmitAction, IngestView,
    PlannedView, RelayView, SEEN_CAPACITY,
};
use crate::search::first_index;
use crate::seen::remember;
use vstd::prelude::*;

verus! {

// ---------------------------------------------------------------------------
// Ids
// ---------------------------------------------------------------------------

/// The ids that a relay hands out are all different, until it has handed out
/// every number there is.
pub proof fn law_ids_are_fresh(first: u32, i: nat, j: nat)
    requires
        i < j,
        j - i < 0x1_0000_0000,
    ensures
        id_after(first, i) != id_after(first, j),
{
    let m = 0x1_0000_0000int;
    if (first + i) % m == (first + j) % m {
        assert((first + j) - (first + i) == m * ((first + j) / m - (first + i) / m));
    }
}

/// Ids increase from one to the next, up to the largest number there is.
pub proof fn law_ids_increase(first: u32, i: nat, j: nat)
    requires
        i < j,
        first + j <= u32::MAX,
    ensures
        id_after(first, i) < id_after(first, j),
{
}

/// Two relays whose ids start far enough apart never hand out the same id:
/// not while the lower one has taken no more ids than the distance between
/// them, and the higher one no more than are left behind it.
pub proof fn law_id_bases_keep_ids_apart(low: u32, high: u32, i: nat, j: nat)
    requires
        low < high,
        i < high - low,
        j < 0x1_0000_0000 - (high - low),
    ensures
        id_after(low, i) != id_after(high, j),
{
    let m = 0x1_0000_0000int;
    if (low + i) % m == (high + j) % m {
        assert((high + j) - (low + i) == m * ((high + j) / m - (low + i) / m));
    }
}

/// Handing out one id moves on to the next number, and to zero behind the
/// largest; nothing else changes.
pub proof fn law_ids_taken(v: RelayView, n: nat)
    ensures
        v.ids_taken(0) == v,
        v.ids_taken(n + 1) == v.ids_taken(n).ids_taken(1),
        v.ids_taken(1).next_id == if v.next_id == u32::MAX {
            0
        } else {
            v.next_id + 1
        },
        v.ids_taken(n).self_addr == v.self_addr,
        v.ids_taken(n).rows == v.rows,
        v.ids_taken(n).slots == v.slots,
        v.ids_taken(n).seen == v.seen,
        v.ids_taken(n).ports == v.ports,
{
}

// ---------------------------------------------------------------------------
// Duplicates
// ---------------------------------------------------------------------------

/// The relay after some messages arrived one after the other.
pub open spec fn ingest_messages(
    v: RelayView,
    arrivals: Seq<(Transport, MessageView)>,
    max_peers: nat,
    per_slot: nat,
) -> RelayView
    decreases arrivals.len(),
{
    if arrivals.len() == 0 {
        v
    } else {
        let (source, m) = arrivals.last();
        ingest_messages(v, arrivals.drop_last(), max_peers, per_slot).ingest_message(
            source,
            m,
            max_peers,
            per_slot,
        ).0
    }
}

/// Whether `key` is among the `age` most recent of `seen`.
pub open spec fn recent(seen: Seq<u32>, key: u32, age: nat) -> bool {
    exists|i: int| 0 <= i < seen.len() && seen.len() - i <= age && #[trigger] seen[i] == key
}

/// Recording one more id makes the others one older.
pub proof fn lemma_recent_ages(seen: Seq<u32>, key: u32, age: nat, next: u32)
    requires
        recent(seen, key, age),
        age < SEEN_CAPACITY,
        seen.len() <= SEEN_CAPACITY,
    ensures
        recent(remember(seen, next, SEEN_CAPACITY as nat), key, age + 1),
        remember(seen, next, SEEN_CAPACITY as nat).len() <= SEEN_CAPACITY,
{
    let i = choose|i: int|
        0 <= i < seen.len() && seen.len() - i <= age && #[trigger] seen[i] == key;
    let after = remember(seen, next, SEEN_CAPACITY as nat);
    if seen.len() < SEEN_CAPACITY {
        assert(after[i] == key);
    } else {
        assert(after[i - 1] == key);
    }
}

proof fn lemma_still_recent(
    v: RelayView,
    key: u32,
    arrivals: Seq<(Transport, MessageView)>,
    max_peers: nat,
    per_slot: nat,
)
    requires
        recent(v.seen, key, 1),
        v.seen.len() <= SEEN_CAPACITY,
        arrivals.len() < SEEN_CAPACITY,
    ensures
        recent(ingest_messages(v, arrivals, max_peers, per_slot).seen, key, arrivals.len() + 1),
        ingest_messages(v, arrivals, max_peers, per_slot).seen.len() <= SEEN_CAPACITY,
    decreases arrivals.len(),
{
    if arrivals.len() > 0 {
        let front = arrivals.drop_last();
        lemma_still_recent(v, key, front, max_peers, per_slot);
        let before = ingest_messages(v, front, max_peers, per_slot);
        let (source, m) = arrivals.last();
        if before.seen.contains(dedup_key(m)) {
            let i = choose|i: int|
                0 <= i < before.seen.len() && before.seen.len() - i <= front.len() + 1
                    && #[trigger] before.seen[i] == key;
            assert(recent(before.seen, key, arrivals.len() + 1));
        } else {
            lemma_recent_ages(before.seen, key, front.len() + 1, dedup_key(m));
        }
    }
}

/// A frame that was taken in is a duplicate when it arrives again, over
/// whatever transport, as long as fewer than [`SEEN_CAPACITY`] other frames
/// arrived in between.
pub proof fn law_repeated_frame_is_duplicate(
    v: RelayView,
    source: Transport,
    m: MessageView,
    between: Seq<(Transport, MessageView)>,
    again: Transport,
    max_peers: nat,
    per_slot: nat,
)
    requires
        v.seen.len() <= SEEN_CAPACITY,
        v.ingest_message(source, m, max_peers, per_slot).1 != IngestView::Duplicate,
        between.len() < SEEN_CAPACITY,
    ensures
        ({
            let first = v.ingest_message(source, m, max_peers, per_slot).0;
            let later = ingest_messages(first, between, max_peers, per_slot);
            later.ingest_message(again, m, max_peers, per_slot).1 == IngestView::Duplicate
        }),
{
    let first = v.ingest_message(source, m, max_peers, per_slot).0;
    let later = ingest_messages(first, between, max_peers, per_slot);
    assert(!v.seen.contains(dedup_key(m)));
    assert(first.seen.last() == dedup_key(m));
    assert(recent(first.seen, dedup_key(m), 1));
    lemma_still_recent(first, dedup_key(m), between, max_peers, per_slot);
    assert(later.seen.contains(dedup_key(m)));
}

/// A duplicate changes nothing but, at most, what is known of its sender.
pub proof fn law_duplicate_changes_nothing(
    v: RelayView,
    source: Transport,
    m: MessageView,
    max_peers: nat,
    per_slot: nat,
)
    requires
        v.seen.contains(dedup_key(m)),
    ensures
        v.ingest_message(source, m, max_peers, per_slot) == (
            RelayView { rows: v.rows_after(m.from, source, max_peers), ..v },
            IngestView::Duplicate,
        ),
{
}

/// The slices of one message are told apart: two frames with the same id and
/// different positions are never duplicates of each other.
pub proof fn law_slices_are_told_apart(a: MessageView, b: MessageView)
    requires
        a.id == b.id,
        a.frag is Some,
        b.frag is Some,
        a.frag->0.seq != b.frag->0.seq,
    ensures
        dedup_key(a) != dedup_key(b),
{
    let (id, x, y) = (a.id, a.frag->0.seq, b.frag->0.seq);
    assert(x != y ==> id ^ ((x as u32) << 16) != id ^ ((y as u32) << 16)) by (bit_vector);
}

/// Frames of messages whose ids differ in their low 16 bits are never taken for
/// each other, be they slices or whole. Whole messages, and slices at the same
/// position, are told apart by their ids alone, and slices of one message by
/// their positions alone: nothing else about a frame makes a difference.
pub proof fn law_messages_are_told_apart(a: MessageView, b: MessageView)
    ensures
        a.id % 0x1_0000 != b.id % 0x1_0000 ==> dedup_key(a) != dedup_key(b),
        a.frag is None && b.frag is None ==> (dedup_key(a) == dedup_key(b) <==> a.id == b.id),
        a.frag is Some && b.frag is Some && a.frag->0.seq == b.frag->0.seq ==> (dedup_key(a)
            == dedup_key(b) <==> a.id == b.id),
        a.frag is Some && b.frag is Some && a.id == b.id ==> (dedup_key(a) == dedup_key(b)
            <==> a.frag->0.seq == b.frag->0.seq),
{
    let (x, y) = (a.id, b.id);
    let p = if a.frag is Some {
        a.frag->0.seq
    } else {
        0
    };
    let q = if b.frag is Some {
        b.frag->0.seq
    } else {
        0
    };
    lemma_key_of(a, p);
    lemma_key_of(b, q);
    assert(x % 0x1_0000 != y % 0x1_0000 ==> x ^ ((p as u32) << 16) != y ^ ((q as u32) << 16))
        by (bit_vector);
    assert(x != y ==> x ^ ((p as u32) << 16) != y ^ ((p as u32) << 16)) by (bit_vector);
    assert(p != q ==> x ^ ((p as u32) << 16) != x ^ ((q as u32) << 16)) by (bit_vector);
}

/// A whole message has the key of a first slice.
proof fn lemma_key_of(m: MessageView, seq: u16)
    requires
        m.frag matches Some(f) ==> seq == f.seq,
        m.frag is None ==> seq == 0,
    ensures
        dedup_key(m) == m.id ^ ((seq as u32) << 16),
{
    let id = m.id;
    assert(id ^ (0u32 << 16) == id) by (bit_vector);
}

/// A frame is called a duplicate only if a frame like it arrived before: one of
/// a message with the same id in its low 16 bits, and of one with the same id
/// and at the same position if there is any choice.
pub proof fn law_duplicate_had_a_first(
    v: RelayView,
    arrivals: Seq<(Transport, MessageView)>,
    source: Transport,
    m: MessageView,
    max_peers: nat,
    per_slot: nat,
)
    requires
        v.seen.len() == 0,
        ingest_messages(v, arrivals, max_peers, per_slot).ingest_message(
            source,
            m,
            max_peers,
            per_slot,
        ).1 == IngestView::Duplicate,
    ensures
        exists|i: int|
            0 <= i < arrivals.len() && dedup_key((#[trigger] arrivals[i]).1) == dedup_key(m)
                && arrivals[i].1.id % 0x1_0000 == m.id % 0x1_0000,
{
    let now = ingest_messages(v, arrivals, max_peers, per_slot);
    assert(now.seen.contains(dedup_key(m)));
    lemma_seen_arrived(v, arrivals, max_peers, per_slot, dedup_key(m));
    let i = choose|i: int|
        0 <= i < arrivals.len() && dedup_key((#[trigger] arrivals[i]).1) == dedup_key(m);
    law_messages_are_told_apart(arrivals[i].1, m);
}

proof fn lemma_seen_arrived(
    v: RelayView,
    arrivals: Seq<(Transport, MessageView)>,
    max_peers: nat,
    per_slot: nat,
    key: u32,
)
    requires
        ingest_messages(v, arrivals, max_peers, per_slot).seen.contains(key),
        !v.seen.contains(key),
    ensures
        exists|i: int| 0 <= i < arrivals.len() && dedup_key((#[trigger] arrivals[i]).1) == key,
    decreases arrivals.len(),
{
    if arrivals.len() > 0 {
        let front = arrivals.drop_last();
        let before = ingest_messages(v, front, max_peers, per_slot);
        let (_, m) = arrivals.last();
        if dedup_key(m) == key {
            assert(dedup_key(arrivals[arrivals.len() - 1].1) == key);
        } else {
            lemma_remembered_before(before.seen, dedup_key(m), key);
            lemma_seen_arrived(v, front, max_peers, per_slot, key);
            let i = choose|i: int|
                0 <= i < front.len() && dedup_key((#[trigger] front[i]).1) == key;
            assert(arrivals[i] == front[i]);
        }
    }
}

/// Recording one id adds no other.
proof fn lemma_remembered_before(seen: Seq<u32>, next: u32, key: u32)
    requires
        remember(seen, next, SEEN_CAPACITY as nat).contains(key) || seen.contains(key),
        key != next,
    ensures
        seen.contains(key),
{
    if !seen.contains(key) {
        let after = remember(seen, next, SEEN_CAPACITY as nat);
        let k = choose|k: int| 0 <= k < after.len() && after[k] == key;
        let all = seen.push(next);
        let at = if all.len() > SEEN_CAPACITY {
            k + 1
        } else {
            k
        };
        assert(all[at] == key);
        assert(seen[at] == key);
    }
}

/// What comes of a message that is no slice: if one with its id is remembered
/// it is a duplicate, otherwise it is handed out as it came, for this node if it
/// is for this node or for every node. It does not touch the groups under
/// assembly.
pub proof fn law_whole_message(
    v: RelayView,
    source: Transport,
    m: MessageView,
    max_peers: nat,
    per_slot: nat,
)
    requires
        m.frag is None,
    ensures
        ({
            let (after, outcome) = v.ingest_message(source, m, max_peers, per_slot);
            &&& v.seen.contains(m.id) ==> outcome == IngestView::Duplicate
            &&& !v.seen.contains(m.id) && (m.to == v.self_addr || m.to == BROADCAST_ADDR)
                ==> outcome == IngestView::Complete(m)
            &&& !v.seen.contains(m.id) && m.to != v.self_addr && m.to != BROADCAST_ADDR
                ==> outcome == IngestView::NotForMe(m)
            &&& after.slots == v.slots
        }),
{
}

/// What comes of a slice that is new: what the reassembler makes of it, handed
/// out as for this node if the message is for this node or for every node.
pub proof fn law_new_slice(
    v: RelayView,
    source: Transport,
    m: MessageView,
    max_peers: nat,
    per_slot: nat,
)
    requires
        m.frag is Some,
        !v.seen.contains(dedup_key(m)),
    ensures
        ({
            let (after, outcome) = v.ingest_message(source, m, max_peers, per_slot);
            let (slots, report) = reassemble(v.slots, m, per_slot);
            &&& after.slots == slots
            &&& outcome != IngestView::Duplicate
            &&& outcome == IngestView::Buffered <==> report == OutcomeView::Buffered
            &&& report matches OutcomeView::Dropped(r) ==> outcome == IngestView::Dropped(r)
            &&& report matches OutcomeView::Complete(w) ==> outcome == if w.to == v.self_addr
                || w.to == BROADCAST_ADDR {
                IngestView::Complete(w)
            } else {
                IngestView::NotForMe(w)
            }
        }),
{
    match reassemble(v.slots, m, per_slot).1 {
        OutcomeView::Passthrough(_) => {},
        OutcomeView::Buffered => {},
        OutcomeView::Complete(_) => {},
        OutcomeView::Dropped(_) => {},
    }
}

/// Taking in a frame changes what the relay has learned, remembered and put
/// together, and nothing else. Bytes that are no message change nothing.
pub proof fn law_ingest_leaves_the_rest(
    v: RelayView,
    source: Transport,
    frame: Seq<u8>,
    max_peers: nat,
    per_slot: nat,
)
    ensures
        ({
            let (after, result) = v.ingest_frame(source, frame, max_peers, per_slot);
            &&& after.self_addr == v.self_addr
            &&& after.next_id == v.next_id
            &&& after.ports == v.ports
            &&& result is Ok <==> parse_message(frame) is Some
            &&& result matches Err(e) ==> e == RelayError::Protocol(ProtoError::Decode) && after
                == v
        }),
{
}

/// Frames that hold the same message are treated the same, however they were
/// encoded and whatever follows the message in them.
pub proof fn law_equal_frames(
    v: RelayView,
    source: Transport,
    frame: Seq<u8>,
    m: MessageView,
    max_peers: nat,
    per_slot: nat,
)
    requires
        parse_message(frame) == Some(m),
    ensures
        v.ingest_frame(source, frame, max_peers, per_slot) == v.ingest_frame(
            source,
            frame_bytes(m),
            max_peers,
            per_slot,
        ),
{
    law_decoded_is_valid(frame);
}

// ---------------------------------------------------------------------------
// Learning
// ---------------------------------------------------------------------------

/// Whoever sends a frame is then known on the transport it arrived over, if it
/// is another node and either already known or the table has room; nothing
/// changes for anyone else.
pub proof fn law_senders_are_learned(
    v: RelayView,
    source: Transport,
    m: MessageView,
    max_peers: nat,
    groups: nat,
    per_slot: nat,
    other: [u8; 6],
)
    requires
        v.valid(max_peers, groups, per_slot),
    ensures
        ({
            let rows = v.ingest_message(source, m, max_peers, per_slot).0.rows;
            &&& (m.from == BROADCAST_ADDR || m.from == v.self_addr) ==> rows == v.rows
            &&& m.from != BROADCAST_ADDR && m.from != v.self_addr && (v.rows.len() < max_peers
                || exists|i: int| 0 <= i < v.rows.len() && (#[trigger] v.rows[i]).addr == m.from)
                ==> via_of(rows, m.from) == via_of(v.rows, m.from).insert(source)
            &&& v.rows.len() >= max_peers && (forall|i: int|
                0 <= i < v.rows.len() ==> (#[trigger] v.rows[i]).addr != m.from) ==> rows
                == v.rows
            &&& other != m.from ==> via_of(rows, other) == via_of(v.rows, other)
        }),
{
    law_observation_needs_room(v.rows, m.from, source, max_peers);
    if with_observation(v.rows, m.from, source, max_peers) is Some {
        law_observation(v.rows, m.from, source, max_peers, other);
    }
}

// ---------------------------------------------------------------------------
// Plans
// ---------------------------------------------------------------------------

/// A broadcast goes out on exactly the registered transports, a unicast on
/// exactly those registered transports on which the peer is known, and neither
/// goes out on none.
pub proof fn law_targets(v: RelayView, dest: Destination, t: Transport)
    ensures
        v.targets(dest) matches Ok(targets) ==> {
            &&& targets.contains(t) <==> v.ports.contains(t) && (dest matches Destination::Unicast(
                a,
            ) ==> via_of(v.rows, a).contains(t))
            &&& 0 < targets.len() <= 3
            &&& targets.no_duplicates()
        },
{
    if let Ok(targets) = v.targets(dest) {
        let via = match dest {
            Destination::Broadcast => v.ports,
            Destination::Unicast(a) => via_of(v.rows, a).intersect(v.ports),
        };
        law_listed(via);
        assert(targets == listed(via));
        if listed(via).len() == 0 {
            assert forall|u: Transport| !via.contains(u) by {
                assert(!listed(via).contains(u));
            }
            assert(via =~= Set::empty());
        }
    }
}

/// Without a registered transport nothing goes out.
pub proof fn law_no_ports(v: RelayView, dest: Destination)
    ensures
        (forall|t: Transport| !v.ports.contains(t)) <==> v.targets(dest) == Err::<
            Seq<Transport>,
            RelayError,
        >(RelayError::NoPortsRegistered),
{
    if forall|t: Transport| !v.ports.contains(t) {
        assert(v.ports =~= Set::empty());
    } else {
        assert(v.ports != Set::<Transport>::empty());
    }
}

/// With a transport registered a broadcast always goes out. A unicast to a peer
/// that is not in the receiver table is refused as to an unknown receiver, one
/// to a peer that is there but on no registered transport for want of a port,
/// and any other goes out.
pub proof fn law_refused_targets(v: RelayView, dest: Destination)
    ensures
        match (v.targets(dest), dest) {
            (Err(RelayError::NoPortsRegistered), _) => v.ports == Set::<Transport>::empty(),
            (Err(RelayError::UnknownReceiver), Destination::Unicast(a)) => row_of(
                v.rows,
                a,
            ) is None,
            (Err(RelayError::NoSuchPort), Destination::Unicast(a)) => row_of(v.rows, a) is Some
                && forall|t: Transport| #[trigger]
                via_of(v.rows, a).contains(t) ==> !v.ports.contains(t),
            (Err(_), _) => false,
            (Ok(_), Destination::Unicast(a)) => row_of(v.rows, a) is Some && exists|t: Transport|
                #[trigger]
                via_of(v.rows, a).contains(t) && v.ports.contains(t),
            (Ok(_), Destination::Broadcast) => v.ports != Set::<Transport>::empty(),
        },
{
    if let Destination::Unicast(a) = dest {
        let via = via_of(v.rows, a);
        let reachable = via.intersect(v.ports);
        if exists|t: Transport| #[trigger] via.contains(t) && v.ports.contains(t) {
            let t = choose|t: Transport| #[trigger] via.contains(t) && v.ports.contains(t);
            assert(reachable.contains(t));
        } else {
            assert(reachable =~= Set::empty());
        }
    }
}

/// The messages that a plan puts on one transport, in order.
pub open spec fn messages_on(plan: Seq<PlannedView>, t: Transport) -> Seq<MessageView>
    decreases plan.len(),
{
    if plan.len() == 0 {
        Seq::empty()
    } else {
        let front = messages_on(plan.drop_last(), t);
        if plan.last().transport == t {
            front.push(plan.last().message)
        } else {
            front
        }
    }
}

/// The messages of two plans joined are those of the one and then those of
/// the other.
pub proof fn lemma_messages_on_concat(a: Seq<PlannedView>, b: Seq<PlannedView>, t: Transport)
    ensures
        messages_on(a + b, t) == messages_on(a, t) + messages_on(b, t),
    decreases b.len(),
{
    if b.len() == 0 {
        assert(a + b =~= a);
        assert(messages_on(a, t) + messages_on(b, t) =~= messages_on(a, t));
    } else {
        lemma_messages_on_concat(a, b.drop_last(), t);
        assert((a + b).drop_last() =~= a + b.drop_last());
        assert((a + b).last() == b.last());
        assert(messages_on(a + b, t) =~= messages_on(a, t) + messages_on(b, t));
    }
}

/// A plan without frames for a transport puts no messages on it.
pub proof fn lemma_messages_on_none(plan: Seq<PlannedView>, t: Transport)
    requires
        forall|i: int| 0 <= i < plan.len() ==> (#[trigger] plan[i]).transport != t,
    ensures
        messages_on(plan, t) == Seq::<MessageView>::empty(),
    decreases plan.len(),
{
    if plan.len() > 0 {
        lemma_messages_on_none(plan.drop_last(), t);
    }
}

proof fn lemma_messages_on_block(
    plan: Seq<PlannedView>,
    frames: Seq<MessageView>,
    u: Transport,
    addr: FrameAddr,
    t: Transport,
)
    ensures
        messages_on(plan + as_planned(frames, u, addr), t) == messages_on(plan, t) + if u == t {
            frames
        } else {
            Seq::empty()
        },
    decreases frames.len(),
{
    let block = as_planned(frames, u, addr);
    if frames.len() > 0 {
        let front = frames.drop_last();
        lemma_messages_on_block(plan, front, u, addr, t);
        assert((plan + block).drop_last() =~= plan + as_planned(front, u, addr));
        assert(frames =~= front.push(frames.last()));
        assert((plan + block).last() == block.last());
        if u == t {
            assert(messages_on(plan + block, t) =~= messages_on(plan, t) + frames);
        }
    } else {
        assert(plan + block =~= plan);
        assert(messages_on(plan, t) + frames =~= messages_on(plan, t));
        assert(messages_on(plan, t) + Seq::<MessageView>::empty() =~= messages_on(plan, t));
    }
}

/// The messages of frames that are all for one transport.
pub proof fn lemma_messages_of_block(frames: Seq<MessageView>, t: Transport, addr: FrameAddr)
    ensures
        messages_on(as_planned(frames, t, addr), t) == frames,
{
    let plan = as_planned(frames, t, addr);
    lemma_messages_on_block(Seq::empty(), frames, t, addr, t);
    assert(Seq::<PlannedView>::empty() + plan =~= plan);
    assert(Seq::<MessageView>::empty() + frames =~= frames);
}

proof fn lemma_messages_of_plan(
    v: RelayView,
    targets: Seq<Transport>,
    n: nat,
    kind: MsgKind,
    payload: Seq<u8>,
    dest: Destination,
    k: int,
)
    requires
        targets.no_duplicates(),
        n <= targets.len(),
        0 <= k < targets.len(),
    ensures
        messages_on(v.frames_to(targets, n, kind, payload, dest), targets[k]) == if k < n {
            split_frames(
                v.outgoing(v.next_id, kind, payload, dest, targets[k]),
                slice_limit(targets[k]),
                id_after(v.next_id, (k + 1) as nat),
            )->0
        } else {
            Seq::empty()
        },
    decreases n,
{
    if n > 0 {
        let p = (n - 1) as nat;
        let u = targets[p as int];
        lemma_messages_of_plan(v, targets, p, kind, payload, dest, k);
        let plan = v.frames_to(targets, p, kind, payload, dest);
        let m = v.outgoing(v.next_id, kind, payload, dest, u);
        let frames = split_frames(m, slice_limit(u), id_after(v.next_id, n))->0;
        lemma_messages_on_block(plan, frames, u, dest.addr(), targets[k]);
        if k == p {
            assert(Seq::<MessageView>::empty() + frames =~= frames);
        } else {
            assert(u != targets[k]);
            let had = messages_on(plan, targets[k]);
            assert(had + Seq::<MessageView>::empty() =~= had);
        }
    }
}

/// A plan puts the whole payload on each of its transports: as frames that fit
/// the transport, that say who sent them, to whom and under which id, with a
/// full hop budget, and whose payloads joined are the payload.
pub proof fn law_plan_carries_payload(
    v: RelayView,
    kind: MsgKind,
    payload: Seq<u8>,
    dest: Destination,
    t: Transport,
)
    requires
        v.send_plan(kind, payload, dest).1 is Ok,
        v.targets(dest)->Ok_0.contains(t),
    ensures
        ({
            let frames = messages_on(v.send_plan(kind, payload, dest).1->Ok_0, t);
            &&& frames.len() > 0
            &&& concat_payloads(frames) == payload
            &&& forall|i: int|
                0 <= i < frames.len() ==> {
                    let f = #[trigger] frames[i];
                    &&& f.payload.len() <= t.max_payload_spec()
                    &&& f.id == v.next_id
                    &&& f.ttl == DEFAULT_TTL
                    &&& f.from == v.self_addr
                    &&& f.to == match dest {
                        Destination::Unicast(a) => a,
                        Destination::Broadcast => BROADCAST_ADDR,
                    }
                    &&& f.kind == kind
                    &&& f.origin == t
                }
        }),
{
    let targets = v.targets(dest)->Ok_0;
    law_targets(v, dest, t);
    let k = choose|k: int| 0 <= k < targets.len() && targets[k] == t;
    lemma_messages_of_plan(v, targets, targets.len(), kind, payload, dest, k);
    let m = v.outgoing(v.next_id, kind, payload, dest, t);
    let group_id = id_after(v.next_id, (k + 1) as nat);
    lemma_split_works(m, t, group_id);
    law_split_preserves_payload(m, slice_limit(t), group_id);
}

/// Where a send goes: a broadcast to every registered transport, a unicast to
/// every registered transport on which the peer is known.
pub open spec fn goes_to(v: RelayView, dest: Destination, t: Transport) -> bool {
    &&& v.ports.contains(t)
    &&& dest matches Destination::Unicast(a) ==> via_of(v.rows, a).contains(t)
}

/// The transports that a send goes to are its targets, and a send that goes
/// anywhere has targets.
proof fn lemma_goes_to_targets(v: RelayView, dest: Destination, t: Transport)
    requires
        goes_to(v, dest, t),
    ensures
        v.targets(dest) is Ok,
        v.targets(dest)->Ok_0.contains(t),
{
    assert(v.ports != Set::<Transport>::empty());
    if let Destination::Unicast(a) = dest {
        assert(via_of(v.rows, a).intersect(v.ports).contains(t));
    }
    law_targets(v, dest, t);
}

/// A send that goes anywhere is planned unless its payload is too large, and
/// then the whole payload is on every transport that it goes to, addressed to
/// its destination.
pub proof fn law_send_reaches_every_target(
    v: RelayView,
    kind: MsgKind,
    payload: Seq<u8>,
    dest: Destination,
    t: Transport,
)
    requires
        goes_to(v, dest, t),
    ensures
        payload.len() > MAX_PAYLOAD ==> v.send_plan(kind, payload, dest).1 == Err::<
            Seq<PlannedView>,
            RelayError,
        >(RelayError::Protocol(ProtoError::PayloadTooLarge)),
        payload.len() <= MAX_PAYLOAD ==> {
            let plan = v.send_plan(kind, payload, dest).1;
            &&& plan is Ok
            &&& messages_on(plan->Ok_0, t).len() > 0
            &&& concat_payloads(messages_on(plan->Ok_0, t)) == payload
        },
{
    lemma_goes_to_targets(v, dest, t);
    if payload.len() <= MAX_PAYLOAD {
        law_plan_carries_payload(v, kind, payload, dest, t);
    }
}

/// A send that goes nowhere is refused: for want of any port, because the peer
/// is not in the receiver table, or because it is there on no registered
/// transport. Nothing changes then, not even the next id.
pub proof fn law_send_is_refused(v: RelayView, kind: MsgKind, payload: Seq<u8>, dest: Destination)
    requires
        forall|t: Transport| !#[trigger] goes_to(v, dest, t),
    ensures
        v.send_plan(kind, payload, dest).0 == v,
        v.send_plan(kind, payload, dest).1 == Err::<Seq<PlannedView>, RelayError>(
            if forall|t: Transport| !v.ports.contains(t) {
                RelayError::NoPortsRegistered
            } else if row_of(v.rows, dest.to()) is None {
                RelayError::UnknownReceiver
            } else {
                RelayError::NoSuchPort
            },
        ),
{
    law_no_ports(v, dest);
    law_refused_targets(v, dest);
    if exists|t: Transport| v.ports.contains(t) {
        let t = choose|t: Transport| v.ports.contains(t);
        assert(!goes_to(v, dest, t));
    }
    if let Ok(targets) = v.targets(dest) {
        let t = targets[0];
        law_targets(v, dest, t);
        assert(targets.contains(t));
        assert(goes_to(v, dest, t));
    }
}

/// What a send uses up: the message has the next id, the slices on each
/// transport have a group id of their own, and none of these is handed out
/// again next. Nothing but the next id changes.
pub proof fn law_send_uses_fresh_ids(
    v: RelayView,
    kind: MsgKind,
    payload: Seq<u8>,
    dest: Destination,
    i: int,
    j: int,
)
    requires
        v.send_plan(kind, payload, dest).1 is Ok,
        0 <= i < v.send_plan(kind, payload, dest).1->Ok_0.len(),
        0 <= j < v.send_plan(kind, payload, dest).1->Ok_0.len(),
    ensures
        ({
            let (after, plan) = v.send_plan(kind, payload, dest);
            let (a, b) = (plan->Ok_0[i], plan->Ok_0[j]);
            &&& after == (RelayView { next_id: after.next_id, ..v })
            &&& a.message.id == v.next_id
            &&& after.next_id != v.next_id
            &&& a.message.frag matches Some(f) ==> f.group_id != v.next_id && f.group_id
                != after.next_id
            &&& a.message.frag is Some && b.message.frag is Some ==> (a.message.frag->0.group_id
                == b.message.frag->0.group_id <==> a.transport == b.transport)
        }),
{
    let targets = v.targets(dest)->Ok_0;
    law_targets(v, dest, Transport::Lora);
    let n = targets.len();
    let k = lemma_frame_of_target(v, targets, n, kind, payload, dest, i);
    let l = lemma_frame_of_target(v, targets, n, kind, payload, dest, j);
    law_ids_are_fresh(v.next_id, 0, n + 1);
    law_ids_are_fresh(v.next_id, 0, (k + 1) as nat);
    law_ids_are_fresh(v.next_id, (k + 1) as nat, n + 1);
    if k < l {
        law_ids_are_fresh(v.next_id, (k + 1) as nat, (l + 1) as nat);
    } else if l < k {
        law_ids_are_fresh(v.next_id, (l + 1) as nat, (k + 1) as nat);
    }
}

/// The target that a frame of a plan is for.
proof fn lemma_frame_of_target(
    v: RelayView,
    targets: Seq<Transport>,
    n: nat,
    kind: MsgKind,
    payload: Seq<u8>,
    dest: Destination,
    i: int,
) -> (k: int)
    requires
        n <= targets.len(),
        payload.len() <= MAX_PAYLOAD,
        0 <= i < v.frames_to(targets, n, kind, payload, dest).len(),
    ensures
        0 <= k < n,
        ({
            let frame = v.frames_to(targets, n, kind, payload, dest)[i];
            &&& frame.transport == targets[k]
            &&& frame.message.id == v.next_id
            &&& frame.message.frag matches Some(f) ==> f.group_id == id_after(
                v.next_id,
                (k + 1) as nat,
            )
        }),
    decreases n,
{
    let p = (n - 1) as nat;
    let before = v.frames_to(targets, p, kind, payload, dest);
    if i < before.len() {
        lemma_frame_of_target(v, targets, p, kind, payload, dest, i)
    } else {
        let t = targets[p as int];
        let m = v.outgoing(v.next_id, kind, payload, dest, t);
        let group_id = id_after(v.next_id, n);
        lemma_split_works(m, t, group_id);
        law_split_preserves_payload(m, slice_limit(t), group_id);
        p as int
    }
}

/// How many ids a send takes: one for the message and one for each transport
/// that it goes to, or the one alone if the payload is too large.
pub proof fn law_ids_used_by_send(v: RelayView, kind: MsgKind, payload: Seq<u8>, dest: Destination)
    requires
        exists|t: Transport| #[trigger] goes_to(v, dest, t),
    ensures
        ({
            let one = |t: Transport|
                if goes_to(v, dest, t) {
                    1nat
                } else {
                    0
                };
            v.send_plan(kind, payload, dest).0 == if payload.len() > MAX_PAYLOAD {
                v.ids_taken(1)
            } else {
                v.ids_taken(
                    1 + one(Transport::Lora) + one(Transport::Mqtt) + one(Transport::EspNow),
                )
            }
        }),
{
    let t = choose|t: Transport| #[trigger] goes_to(v, dest, t);
    lemma_goes_to_targets(v, dest, t);
}

/// A plan lists its frames by transport, in the order of [`Transport::ALL`].
pub proof fn law_plan_is_in_order(
    v: RelayView,
    kind: MsgKind,
    payload: Seq<u8>,
    dest: Destination,
    i: int,
    j: int,
)
    requires
        v.send_plan(kind, payload, dest).1 is Ok,
        0 <= i <= j < v.send_plan(kind, payload, dest).1->Ok_0.len(),
    ensures
        ({
            let plan = v.send_plan(kind, payload, dest).1->Ok_0;
            transport_rank(plan[i].transport) <= transport_rank(plan[j].transport)
        }),
{
    let targets = v.targets(dest)->Ok_0;
    let via = match dest {
        Destination::Broadcast => v.ports,
        Destination::Unicast(a) => via_of(v.rows, a).intersect(v.ports),
    };
    law_listed(via);
    lemma_frames_in_order(v, targets, targets.len(), kind, payload, dest, i, j);
}

/// The place of a transport in [`Transport::ALL`].
pub open spec fn transport_rank(t: Transport) -> int {
    match t {
        Transport::Lora => 0,
        Transport::Mqtt => 1,
        Transport::EspNow => 2,
    }
}

proof fn lemma_frames_in_order(
    v: RelayView,
    targets: Seq<Transport>,
    n: nat,
    kind: MsgKind,
    payload: Seq<u8>,
    dest: Destination,
    i: int,
    j: int,
)
    requires
        n <= targets.len(),
        0 <= i <= j < v.frames_to(targets, n, kind, payload, dest).len(),
        forall|a: int, b: int|
            0 <= a < b < targets.len() ==> (#[trigger] targets[a]).index_spec() < (
            #[trigger] targets[b]).index_spec(),
    ensures
        ({
            let frames = v.frames_to(targets, n, kind, payload, dest);
            transport_rank(frames[i].transport) <= transport_rank(frames[j].transport)
        }),
        exists|a: int|
            0 <= a < n && #[trigger] targets[a] == v.frames_to(
                targets,
                n,
                kind,
                payload,
                dest,
            )[j].transport,
    decreases n,
{
    let p = (n - 1) as nat;
    let before = v.frames_to(targets, p, kind, payload, dest);
    let frames = v.frames_to(targets, n, kind, payload, dest);
    if j < before.len() {
        lemma_frames_in_order(v, targets, p, kind, payload, dest, i, j);
    } else {
        assert(frames[j].transport == targets[p as int]);
        if i < before.len() {
            lemma_frames_in_order(v, targets, p, kind, payload, dest, i, i);
            let a = choose|a: int| 0 <= a < p && #[trigger] targets[a] == before[i].transport;
            assert(frames[i] == before[i]);
            assert(targets[a].index_spec() < targets[p as int].index_spec());
        } else {
            assert(frames[i].transport == targets[p as int]);
        }
    }
}

/// Nothing is planned for a transport that is not a target.
pub proof fn law_plan_stays_on_targets(
    v: RelayView,
    kind: MsgKind,
    payload: Seq<u8>,
    dest: Destination,
    i: int,
)
    requires
        v.send_plan(kind, payload, dest).1 is Ok,
        0 <= i < v.send_plan(kind, payload, dest).1->Ok_0.len(),
    ensures
        ({
            let frame = v.send_plan(kind, payload, dest).1->Ok_0[i];
            &&& goes_to(v, dest, frame.transport)
            &&& v.targets(dest)->Ok_0.contains(frame.transport)
            &&& frame.addr == match dest {
                Destination::Unicast(a) => FrameAddr::Unicast(a),
                Destination::Broadcast => FrameAddr::Broadcast,
            }
        }),
{
    let targets = v.targets(dest)->Ok_0;
    lemma_frames_on_targets(v, targets, targets.len(), kind, payload, dest, i);
    law_targets(v, dest, v.send_plan(kind, payload, dest).1->Ok_0[i].transport);
}

proof fn lemma_frames_on_targets(
    v: RelayView,
    targets: Seq<Transport>,
    n: nat,
    kind: MsgKind,
    payload: Seq<u8>,
    dest: Destination,
    i: int,
)
    requires
        n <= targets.len(),
        0 <= i < v.frames_to(targets, n, kind, payload, dest).len(),
    ensures
        ({
            let frame = v.frames_to(targets, n, kind, payload, dest)[i];
            targets.contains(frame.transport) && frame.addr == dest.addr()
        }),
    decreases n,
{
    if n > 0 {
        let before = v.frames_to(targets, (n - 1) as nat, kind, payload, dest);
        if i < before.len() {
            lemma_frames_on_targets(v, targets, (n - 1) as nat, kind, payload, dest, i);
        }
    }
}

/// What a message can hold can be split for every transport, if it is no slice
/// already.
pub proof fn lemma_split_works(m: MessageView, t: Transport, group_id: u32)
    requires
        m.valid(),
        m.frag is None || m.payload.len() <= slice_limit(t),
    ensures
        180 <= slice_limit(t) <= t.max_payload_spec(),
        split_frames(m, slice_limit(t), group_id) is Some,
        slice_limit(t) < m.payload.len() ==> slice_count(m.payload.len(), slice_limit(t))
            <= MAX_FRAGMENTS,
{
    let mtu = slice_limit(t) as int;
    let len = m.payload.len() as int;
    assert((len + mtu - 1) / mtu <= 32) by (nonlinear_arith)
        requires
            180 <= mtu,
            0 <= len <= 200,
    ;
}

/// A forwarded message has one hop less than before, and one without hops left
/// is not forwarded at all. Otherwise it is the message, in frames that fit the
/// target; only what already is a slice and does not fit is an error.
pub proof fn law_forward_spends_a_hop(v: RelayView, m: MessageView, target: Transport)
    requires
        m.valid(),
    ensures
        m.ttl == 0 ==> v.forward_plan(m, target).1 == Ok::<Seq<PlannedView>, RelayError>(
            Seq::empty(),
        ),
        v.forward_plan(m, target).1 is Err <==> m.ttl > 0 && m.frag is Some && m.payload.len()
            > target.max_payload_spec(),
        v.forward_plan(m, target).1 matches Err(e) ==> e == RelayError::PayloadUnfragmentable,
        v.forward_plan(m, target).1 matches Ok(plan) ==> {
            &&& m.ttl > 0 ==> plan.len() > 0
            &&& forall|i: int|
                0 <= i < plan.len() ==> {
                    let frame = #[trigger] plan[i];
                    &&& frame.message.payload.len() <= target.max_payload_spec()
                    &&& frame.message.ttl == m.ttl - 1
                    &&& frame.message.id == m.id
                    &&& frame.message.origin == m.origin
                    &&& frame.message.from == m.from
                    &&& frame.message.to == m.to
                    &&& frame.message.kind == m.kind
                    &&& frame.transport == target
                    &&& frame.addr == if m.to == BROADCAST_ADDR {
                        FrameAddr::Broadcast
                    } else {
                        FrameAddr::Unicast(m.to)
                    }
                }
            &&& m.ttl > 0 ==> concat_payloads(messages_on(plan, target)) == m.payload
            &&& messages_on(plan, target).len() == plan.len()
            &&& plan.len() == 1 ==> plan[0].message.frag == m.frag
            &&& plan.len() > 1 ==> forall|i: int|
                0 <= i < plan.len() ==> (#[trigger] plan[i]).message.frag == Some(
                    Fragment { group_id: v.next_id, seq: i as u16, total: plan.len() as u16 },
                )
        },
{
    if let Some(relayed) = m.relayed() {
        if relayed.frag is None || relayed.payload.len() <= slice_limit(target) {
            lemma_split_works(relayed, target, v.next_id);
        }
        if let Some(frames) = split_frames(relayed, slice_limit(target), v.next_id) {
            let addr = FrameAddr::of_bytes(m.to);
            lemma_messages_of_block(frames, target, addr);
            lemma_frames_fit(relayed, slice_limit(target), v.next_id);
            if m.frag is None {
                law_split_preserves_payload(relayed, slice_limit(target), v.next_id);
            } else {
                assert(frames.drop_last() =~= Seq::empty());
                reveal_with_fuel(concat_payloads, 2);
                assert(Seq::<u8>::empty() + m.payload =~= m.payload);
            }
        }
    }
}

// ---------------------------------------------------------------------------
// One port
// ---------------------------------------------------------------------------

/// Sending on one port emits what a plan for that transport alone would hold.
pub proof fn law_send_agrees_with_plan(
    v: RelayView,
    target: Transport,
    kind: MsgKind,
    payload: Seq<u8>,
    dest: Destination,
)
    requires
        v.targets(dest) == Ok::<Seq<Transport>, RelayError>(seq![target]),
    ensures
        v.send_plan(kind, payload, dest).0 == v.send_on(target, kind, payload, dest).0,
        match (v.send_plan(kind, payload, dest).1, v.send_on(target, kind, payload, dest).1) {
            (Ok(plan), Ok(emission)) => plan == as_planned(emission.frames, target, emission.addr)
                && emission.sent == 0,
            (Err(a), Err(b)) => a == b,
            _ => false,
        },
{
    let targets = seq![target];
    assert(targets[0] == target);
    reveal_with_fuel(RelayView::frames_to, 2);
    if payload.len() <= MAX_PAYLOAD {
        let m = v.outgoing(v.next_id, kind, payload, dest, target);
        let frames = frames_on(m, target, id_after(v.next_id, 1), dest.addr());
        assert(Seq::<PlannedView>::empty() + frames =~= frames);
    }
}

/// A send on one port goes out on that port alone, if it would go there at all:
/// in frames that fit, that join to the payload, under the next id and with a
/// full hop budget. Otherwise it is refused and nothing changes, unless only
/// the payload is too large.
pub proof fn law_send_on_one_port(
    v: RelayView,
    target: Transport,
    kind: MsgKind,
    payload: Seq<u8>,
    dest: Destination,
)
    ensures
        ({
            let (after, emission) = v.send_on(target, kind, payload, dest);
            &&& after == (RelayView { next_id: after.next_id, ..v })
            &&& !goes_to(v, dest, target) ==> after == v && emission == Err::<
                EmissionView,
                RelayError,
            >(
                if forall|t: Transport| !v.ports.contains(t) {
                    RelayError::NoPortsRegistered
                } else if dest is Unicast && row_of(v.rows, dest.to()) is None {
                    RelayError::UnknownReceiver
                } else {
                    RelayError::NoSuchPort
                },
            )
            &&& goes_to(v, dest, target) && payload.len() > MAX_PAYLOAD ==> emission == Err::<
                EmissionView,
                RelayError,
            >(RelayError::Protocol(ProtoError::PayloadTooLarge))
            &&& goes_to(v, dest, target) && payload.len() > MAX_PAYLOAD ==> after == v.ids_taken(1)
            &&& goes_to(v, dest, target) && payload.len() <= MAX_PAYLOAD ==> after == v.ids_taken(
                2,
            )
            &&& goes_to(v, dest, target) && payload.len() <= MAX_PAYLOAD ==> {
                &&& emission is Ok
                &&& after.next_id != v.next_id
                &&& emission->Ok_0.sent == 0
                &&& emission->Ok_0.addr == match dest {
                    Destination::Unicast(a) => FrameAddr::Unicast(a),
                    Destination::Broadcast => FrameAddr::Broadcast,
                }
                &&& emission->Ok_0.frames.len() > 0
                &&& concat_payloads(emission->Ok_0.frames) == payload
                &&& forall|i: int|
                    0 <= i < emission->Ok_0.frames.len() ==> {
                        let f = #[trigger] emission->Ok_0.frames[i];
                        &&& f.payload.len() <= target.max_payload_spec()
                        &&& f.id == v.next_id
                        &&& f.ttl == DEFAULT_TTL
                        &&& f.origin == target
                        &&& f.from == v.self_addr
                        &&& f.kind == kind
                        &&& f.to == match dest {
                            Destination::Unicast(a) => a,
                            Destination::Broadcast => BROADCAST_ADDR,
                        }
                    }
            }
        }),
{
    law_no_ports(v, dest);
    law_refused_targets(v, dest);
    law_targets(v, dest, target);
    if goes_to(v, dest, target) {
        lemma_goes_to_targets(v, dest, target);
        if payload.len() <= MAX_PAYLOAD {
            let m = v.outgoing(v.next_id, kind, payload, dest, target);
            let group_id = id_after(v.next_id, 1);
            lemma_split_works(m, target, group_id);
            law_split_preserves_payload(m, slice_limit(target), group_id);
            law_ids_are_fresh(v.next_id, 0, 2);
        }
    }
}

/// Forwarding on one port emits exactly what a forward plan for that transport
/// holds, and leaves the relay in the same state.
pub proof fn law_forward_agrees_with_plan(v: RelayView, m: MessageView, target: Transport)
    ensures
        v.forward_on(target, m).0 == v.forward_plan(m, target).0,
        match (v.forward_plan(m, target).1, v.forward_on(target, m).1) {
            (Ok(plan), Ok(emission)) => plan == as_planned(emission.frames, target, emission.addr)
                && messages_on(plan, target) == emission.frames && emission.sent == 0,
            (Err(a), Err(b)) => a == b,
            _ => false,
        },
{
    let addr = FrameAddr::of_bytes(m.to);
    match m.relayed() {
        None => {
            let none = Seq::<MessageView>::empty();
            assert(as_planned(none, target, addr) =~= Seq::empty());
        },
        Some(relayed) => {
            if let Some(frames) = split_frames(relayed, slice_limit(target), v.next_id) {
                lemma_messages_of_block(frames, target, addr);
            }
        },
    }
}

/// Forwarding on one port spends one hop: every frame that is emitted has one
/// hop less than the message and is otherwise like it, the frames fit the
/// target and join to the payload, and a message without hops left is not
/// emitted at all. The only state that changes is the next id.
pub proof fn law_forward_on_one_port(v: RelayView, m: MessageView, target: Transport)
    requires
        m.valid(),
    ensures
        ({
            let (after, emission) = v.forward_on(target, m);
            &&& after == (RelayView { next_id: after.next_id, ..v })
            &&& emission is Err <==> m.ttl > 0 && m.frag is Some && m.payload.len()
                > target.max_payload_spec()
            &&& emission matches Ok(e) ==> {
                &&& e.sent == 0
                &&& e.frames.len() == 0 <==> m.ttl == 0
                &&& m.to == BROADCAST_ADDR ==> e.addr == FrameAddr::Broadcast
                &&& m.to != BROADCAST_ADDR ==> e.addr == FrameAddr::Unicast(m.to)
                &&& m.ttl > 0 ==> concat_payloads(e.frames) == m.payload
                &&& forall|i: int|
                    0 <= i < e.frames.len() ==> {
                        let f = #[trigger] e.frames[i];
                        &&& f.ttl == m.ttl - 1
                        &&& f.payload.len() <= target.max_payload_spec()
                        &&& f.id == m.id
                        &&& f.origin == m.origin
                        &&& f.from == m.from
                        &&& f.to == m.to
                        &&& f.kind == m.kind
                        &&& m.frag is Some ==> f.frag == m.frag
                    }
            }
        }),
{
    law_forward_agrees_with_plan(v, m, target);
    law_forward_spends_a_hop(v, m, target);
    if let Ok(e) = v.forward_on(target, m).1 {
        let plan = as_planned(e.frames, target, e.addr);
        assert forall|i: int| 0 <= i < e.frames.len() implies #[trigger] e.frames[i]
            == plan[i].message by {}
    }
}

/// What an emission of a forwarded message uses up: one id, which is not handed
/// out again next, if there is anything to emit.
pub proof fn law_forward_uses_fresh_id(v: RelayView, m: MessageView, target: Transport)
    ensures
        v.forward_plan(m, target).0 == if m.ttl > 0 {
            v.ids_taken(1)
        } else {
            v
        },
        v.ids_taken(1).next_id != v.next_id,
{
    law_ids_are_fresh(v.next_id, 0, 1);
}

/// One step of an emission with whatever buffer: as long as frames are left the
/// next one is to be sent, addressed as the emission says, if the buffer has
/// room for it, and otherwise the emission ends with an error. Once all frames
/// are sent it ends with their number. A frame that went out is counted and
/// changes nothing else.
pub proof fn law_emission_step(e: EmissionView, room: nat)
    requires
        e.frames.len() <= MAX_FRAGMENTS,
        forall|i: int| 0 <= i < e.frames.len() ==> (#[trigger] e.frames[i]).valid(),
    ensures
        ({
            let (action, bytes) = e.next_action(room);
            &&& e.sent >= e.frames.len() ==> action == EmitAction::Done(Ok(e.sent as usize))
            &&& e.sent < e.frames.len() ==> {
                &&& parse_message(bytes) == Some(e.frames[e.sent as int])
                &&& bytes.len() <= room ==> action == (EmitAction::Send {
                    addr: e.addr,
                    len: bytes.len() as usize,
                })
                &&& bytes.len() > room ==> action == EmitAction::Done(
                    Err(RelayError::Protocol(ProtoError::BufferTooSmall)),
                )
            }
        }),
        e.one_sent().sent == e.sent + 1,
        e.one_sent().frames == e.frames,
        e.one_sent().addr == e.addr,
{
    if e.sent < e.frames.len() {
        law_frame_round_trip(e.frames[e.sent as int]);
    }
}

/// An emission whose frames all go out hands them to the port one after the
/// other, encoded, and then reports how many they were.
pub proof fn law_emission_sends_all(e: EmissionView, k: nat)
    requires
        k <= e.frames.len() <= MAX_FRAGMENTS,
        forall|i: int| 0 <= i < e.frames.len() ==> (#[trigger] e.frames[i]).valid(),
    ensures
        (EmissionView { sent: k, ..e }).next_action(MAX_FRAME as nat) == if k < e.frames.len() {
            (
                EmitAction::Send {
                    addr: e.addr,
                    len: frame_bytes(e.frames[k as int]).len() as usize,
                },
                frame_bytes(e.frames[k as int]),
            )
        } else {
            (EmitAction::Done(Ok(e.frames.len() as usize)), Seq::empty())
        },
{
    if k < e.frames.len() {
        law_frame_round_trip(e.frames[k as int]);
    }
}

// ---------------------------------------------------------------------------
// Delivery
// ---------------------------------------------------------------------------

/// The relay after some frames arrived over `source` one after the other, and
/// what came of each.
pub open spec fn ingest_frames(
    v: RelayView,
    source: Transport,
    frames: Seq<Seq<u8>>,
    max_peers: nat,
    per_slot: nat,
) -> (RelayView, Seq<Result<IngestView, RelayError>>)
    decreases frames.len(),
{
    if frames.len() == 0 {
        (v, Seq::empty())
    } else {
        let (before, outcomes) = ingest_frames(
            v,
            source,
            frames.drop_last(),
            max_peers,
            per_slot,
        );
        let (after, outcome) = before.ingest_frame(source, frames.last(), max_peers, per_slot);
        (after, outcomes.push(outcome))
    }
}

/// The bytes of some messages.
pub open spec fn encoded(messages: Seq<MessageView>) -> Seq<Seq<u8>> {
    Seq::new(messages.len(), |i: int| frame_bytes(messages[i]))
}

/// Whether every key in `after` is one of `before` or one of the messages'.
spec fn only_new_keys(before: Seq<u32>, after: Seq<u32>, messages: Seq<MessageView>) -> bool {
    forall|key: u32| #[trigger]
        after.contains(key) ==> before.contains(key) || exists|i: int|
            0 <= i < messages.len() && dedup_key(#[trigger] messages[i]) == key
}

/// A frame that was not seen before goes through to the reassembler, and its
/// key is remembered.
proof fn lemma_frame_reaches_reassembler(
    v: RelayView,
    source: Transport,
    m: MessageView,
    max_peers: nat,
    per_slot: nat,
)
    requires
        m.valid(),
        !v.seen.contains(dedup_key(m)),
    ensures
        ({
            let (after, outcome) = v.ingest_frame(source, frame_bytes(m), max_peers, per_slot);
            let (slots, report) = reassemble(v.slots, m, per_slot);
            &&& after.slots == slots
            &&& after.self_addr == v.self_addr
            &&& after.seen == remember(v.seen, dedup_key(m), SEEN_CAPACITY as nat)
            &&& outcome == Ok::<IngestView, RelayError>(v.report(report))
        }),
{
    law_frame_round_trip(m);
}

/// Remembering the key of the last message keeps to the keys of the messages.
proof fn lemma_one_more_key(before: Seq<u32>, now: Seq<u32>, messages: Seq<MessageView>)
    requires
        messages.len() > 0,
        only_new_keys(before, now, messages.drop_last()),
    ensures
        only_new_keys(
            before,
            remember(now, dedup_key(messages.last()), SEEN_CAPACITY as nat),
            messages,
        ),
{
    let front = messages.drop_last();
    let next = dedup_key(messages.last());
    let after = remember(now, next, SEEN_CAPACITY as nat);
    assert forall|key: u32| #[trigger] after.contains(key) implies before.contains(key)
        || exists|i: int|
        0 <= i < messages.len() && dedup_key(#[trigger] messages[i]) == key by {
        if key == next {
            assert(dedup_key(messages[messages.len() - 1]) == key);
        } else {
            lemma_remembered_before(now, next, key);
            if !before.contains(key) {
                let i = choose|i: int|
                    0 <= i < front.len() && dedup_key(#[trigger] front[i]) == key;
                assert(messages[i] == front[i]);
            }
        }
    }
}

/// Whether some frames have gone through to the reassembler.
#[verifier::opaque]
spec fn gone_through(
    v: RelayView,
    source: Transport,
    messages: Seq<MessageView>,
    max_peers: nat,
    per_slot: nat,
) -> bool {
    let (after, outcomes) = ingest_frames(v, source, encoded(messages), max_peers, per_slot);
    let (slots, reports) = feed(v.slots, messages, per_slot);
    &&& after.slots == slots
    &&& after.self_addr == v.self_addr
    &&& outcomes.len() == reports.len() == messages.len()
    &&& forall|i: int|
        0 <= i < messages.len() ==> #[trigger] outcomes[i] == Ok::<IngestView, RelayError>(
            v.report(reports[i]),
        )
    &&& only_new_keys(v.seen, after.seen, messages)
}

/// Whether all messages are valid and have keys of their own that are new.
spec fn all_fresh(seen: Seq<u32>, messages: Seq<MessageView>) -> bool {
    &&& forall|i: int|
        0 <= i < messages.len() ==> {
            let m = #[trigger] messages[i];
            m.valid() && !seen.contains(dedup_key(m))
        }
    &&& forall|i: int, j: int|
        0 <= i < j < messages.len() ==> dedup_key(#[trigger] messages[i]) != dedup_key(
            #[trigger] messages[j],
        )
}

proof fn lemma_front_is_fresh(seen: Seq<u32>, messages: Seq<MessageView>)
    requires
        all_fresh(seen, messages),
        messages.len() > 0,
    ensures
        all_fresh(seen, messages.drop_last()),
        messages.last().valid(),
        forall|now: Seq<u32>|
            only_new_keys(seen, now, messages.drop_last()) ==> !(#[trigger] now.contains(
                dedup_key(messages.last()),
            )),
{
    let front = messages.drop_last();
    let key = dedup_key(messages.last());
    assert(messages[messages.len() - 1] == messages.last());
    assert forall|i: int| 0 <= i < front.len() implies {
        let m = #[trigger] front[i];
        m.valid() && !seen.contains(dedup_key(m)) && dedup_key(m) != key
    } by {
        assert(front[i] == messages[i]);
    }
    assert forall|i: int, j: int| 0 <= i < j < front.len() implies dedup_key(#[trigger] front[i])
        != dedup_key(#[trigger] front[j]) by {
        assert(front[i] == messages[i] && front[j] == messages[j]);
    }
}

/// One more frame goes through.
proof fn lemma_one_more_frame(
    v: RelayView,
    source: Transport,
    messages: Seq<MessageView>,
    max_peers: nat,
    per_slot: nat,
)
    requires
        messages.len() > 0,
        all_fresh(v.seen, messages),
        gone_through(v, source, messages.drop_last(), max_peers, per_slot),
    ensures
        gone_through(v, source, messages, max_peers, per_slot),
{
    reveal(gone_through);
    let front = messages.drop_last();
    let (before, outcomes) = ingest_frames(v, source, encoded(front), max_peers, per_slot);
    lemma_front_is_fresh(v.seen, messages);
    assert(!before.seen.contains(dedup_key(messages.last())));
    lemma_last_frame(v, source, messages, max_peers, per_slot, before, outcomes);
    lemma_one_more_key(v.seen, before.seen, messages);
}

proof fn lemma_frames_go_through(
    v: RelayView,
    source: Transport,
    messages: Seq<MessageView>,
    max_peers: nat,
    per_slot: nat,
)
    requires
        all_fresh(v.seen, messages),
    ensures
        gone_through(v, source, messages, max_peers, per_slot),
    decreases messages.len(),
{
    if messages.len() == 0 {
        reveal(gone_through);
    } else {
        lemma_front_is_fresh(v.seen, messages);
        lemma_frames_go_through(v, source, messages.drop_last(), max_peers, per_slot);
        lemma_one_more_frame(v, source, messages, max_peers, per_slot);
    }
}

/// Frames that were not seen before go through to the reassembler.
proof fn lemma_frames_reach_reassembler(
    v: RelayView,
    source: Transport,
    messages: Seq<MessageView>,
    max_peers: nat,
    per_slot: nat,
)
    requires
        all_fresh(v.seen, messages),
    ensures
        ({
            let (after, outcomes) = ingest_frames(
                v,
                source,
                encoded(messages),
                max_peers,
                per_slot,
            );
            let (slots, reports) = feed(v.slots, messages, per_slot);
            &&& after.slots == slots
            &&& after.self_addr == v.self_addr
            &&& outcomes.len() == reports.len() == messages.len()
            &&& forall|i: int|
                0 <= i < messages.len() ==> #[trigger] outcomes[i] == Ok::<IngestView, RelayError>(
                    v.report(reports[i]),
                )
            &&& only_new_keys(v.seen, after.seen, messages)
        }),
{
    lemma_frames_go_through(v, source, messages, max_peers, per_slot);
    reveal(gone_through);
}

/// The last of some frames, when those before it have gone through.
proof fn lemma_last_frame(
    v: RelayView,
    source: Transport,
    messages: Seq<MessageView>,
    max_peers: nat,
    per_slot: nat,
    before: RelayView,
    outcomes: Seq<Result<IngestView, RelayError>>,
)
    requires
        messages.len() > 0,
        messages.last().valid(),
        (before, outcomes) == ingest_frames(
            v,
            source,
            encoded(messages.drop_last()),
            max_peers,
            per_slot,
        ),
        before.slots == feed(v.slots, messages.drop_last(), per_slot).0,
        before.self_addr == v.self_addr,
        !before.seen.contains(dedup_key(messages.last())),
    ensures
        ({
            let (after, all) = ingest_frames(v, source, encoded(messages), max_peers, per_slot);
            let (slots, report) = reassemble(before.slots, messages.last(), per_slot);
            let reports = feed(v.slots, messages.drop_last(), per_slot).1;
            &&& after.slots == slots
            &&& after.self_addr == v.self_addr
            &&& after.seen == remember(
                before.seen,
                dedup_key(messages.last()),
                SEEN_CAPACITY as nat,
            )
            &&& all == outcomes.push(Ok(v.report(report)))
            &&& feed(v.slots, messages, per_slot) == (slots, reports.push(report))
        }),
{
    let front = messages.drop_last();
    let m = messages.last();
    assert(encoded(messages).drop_last() =~= encoded(front));
    assert(encoded(messages).last() == frame_bytes(m));
    lemma_frame_reaches_reassembler(before, source, m, max_peers, per_slot);
    let report = reassemble(before.slots, m, per_slot).1;
    assert(before.report(report) == v.report(report));
}

/// What is sent on a transport in the frames that carry it there, a relay that
/// receives all the frames, over whatever transport and in any order, gets as
/// the message that was sent, with the last of the frames. It must not have seen the frames before, and a
/// message in several slices needs a free slot of sufficient size whose group
/// is not taken.
pub proof fn law_delivery(
    m: MessageView,
    receiver: RelayView,
    t: Transport,
    source: Transport,
    group_id: u32,
    order: Seq<int>,
    max_peers: nat,
    per_slot: nat,
)
    requires
        m.valid(),
        m.frag is None,
        ({
            let frames = split_frames(m, slice_limit(t), group_id)->0;
            &&& is_order_of(order, frames.len())
            &&& forall|i: int|
                0 <= i < frames.len() ==> !receiver.seen.contains(dedup_key(#[trigger] frames[i]))
            &&& frames.len() > 1 ==> {
                &&& frames.len() <= per_slot
                &&& first_index(receiver.slots, is_free()) is Some
                &&& first_index(receiver.slots, tracks(group_id, frames.len() as u16)) is None
            }
        }),
    ensures
        ({
            let frames = split_frames(m, slice_limit(t), group_id)->0;
            let arriving = Seq::new(order.len(), |i: int| frames[order[i]]);
            let (after, outcomes) = ingest_frames(
                receiver,
                source,
                encoded(arriving),
                max_peers,
                per_slot,
            );
            &&& outcomes.len() == frames.len() > 0
            &&& forall|i: int|
                0 <= i < outcomes.len() - 1 ==> #[trigger] outcomes[i] == Ok::<
                    IngestView,
                    RelayError,
                >(IngestView::Buffered)
            &&& outcomes.last() == Ok::<IngestView, RelayError>(
                if m.to == receiver.self_addr || m.to == BROADCAST_ADDR {
                    IngestView::Complete(m)
                } else {
                    IngestView::NotForMe(m)
                },
            )
            &&& after.slots == receiver.slots
            &&& after.self_addr == receiver.self_addr
            &&& forall|key: u32| #[trigger]
                after.seen.contains(key) ==> receiver.seen.contains(key) || exists|i: int|
                    0 <= i < frames.len() && dedup_key(#[trigger] frames[i]) == key
        }),
{
    let mtu = slice_limit(t);
    lemma_split_works(m, t, group_id);
    let frames = split_frames(m, mtu, group_id)->0;
    let arriving = Seq::new(order.len(), |i: int| frames[order[i]]);
    law_split_preserves_payload(m, mtu, group_id);
    assert forall|i: int| 0 <= i < arriving.len() implies {
        let a = #[trigger] arriving[i];
        a.valid() && !receiver.seen.contains(dedup_key(a))
    } by {
        assert(arriving[i] == frames[order[i]]);
    }
    assert forall|i: int, j: int| 0 <= i < j < arriving.len() implies dedup_key(
        #[trigger] arriving[i],
    ) != dedup_key(#[trigger] arriving[j]) by {
        assert(order[i] != order[j]);
        let (a, b) = (frames[order[i]], frames[order[j]]);
        if frames.len() > 1 {
            law_slices_are_told_apart(a, b);
        }
    }
    lemma_frames_reach_reassembler(receiver, source, arriving, max_peers, per_slot);
    let after = ingest_frames(receiver, source, encoded(arriving), max_peers, per_slot).0;
    assert forall|key: u32| #[trigger] after.seen.contains(key) implies receiver.seen.contains(key)
        || exists|i: int| 0 <= i < frames.len() && dedup_key(#[trigger] frames[i]) == key by {
        if !receiver.seen.contains(key) {
            let i = choose|i: int|
                0 <= i < arriving.len() && dedup_key(#[trigger] arriving[i]) == key;
            assert(dedup_key(frames[order[i]]) == key);
        }
    }
    if m.payload.len() <= mtu {
        assert(order[0] == 0);
        assert(arriving =~= seq![m]);
        reveal_with_fuel(feed, 2);
        assert(arriving.drop_last() =~= Seq::empty());
        assert(arriving.last() == m);
    } else {
        if frames.len() == 1 {
            assert(frames[0].payload.len() <= mtu);
        }
        law_slices_in_any_order_complete(receiver.slots, per_slot, m, mtu, group_id, order);
        assert(arriving =~= slices_in_order(m, mtu, group_id, order));
    }
}

/// What a relay plans to send arrives: a peer that gets the frames planned for
/// one transport, over whatever transport and in any order, is handed the
/// message with the last of them. The conditions are those of [`law_delivery`].
pub proof fn law_planned_send_is_delivered(
    sender: RelayView,
    receiver: RelayView,
    kind: MsgKind,
    payload: Seq<u8>,
    dest: Destination,
    t: Transport,
    source: Transport,
    order: Seq<int>,
    max_peers: nat,
    per_slot: nat,
)
    requires
        sender.send_plan(kind, payload, dest).1 is Ok,
        sender.targets(dest)->Ok_0.contains(t),
        dest.to() == receiver.self_addr || dest.to() == BROADCAST_ADDR,
        ({
            let frames = messages_on(sender.send_plan(kind, payload, dest).1->Ok_0, t);
            &&& is_order_of(order, frames.len())
            &&& forall|i: int|
                0 <= i < frames.len() ==> !receiver.seen.contains(dedup_key(#[trigger] frames[i]))
            &&& frames.len() > 1 ==> {
                &&& frames.len() <= per_slot
                &&& first_index(receiver.slots, is_free()) is Some
                &&& first_index(
                    receiver.slots,
                    tracks(frames[0].frag->0.group_id, frames.len() as u16),
                ) is None
            }
        }),
    ensures
        ({
            let frames = messages_on(sender.send_plan(kind, payload, dest).1->Ok_0, t);
            let arriving = Seq::new(order.len(), |i: int| frames[order[i]]);
            let (after, outcomes) = ingest_frames(
                receiver,
                source,
                encoded(arriving),
                max_peers,
                per_slot,
            );
            &&& outcomes.len() == frames.len() > 0
            &&& forall|i: int|
                0 <= i < outcomes.len() - 1 ==> #[trigger] outcomes[i] == Ok::<
                    IngestView,
                    RelayError,
                >(IngestView::Buffered)
            &&& outcomes.last() == Ok::<IngestView, RelayError>(
                IngestView::Complete(sender.outgoing(sender.next_id, kind, payload, dest, t)),
            )
            &&& after.slots == receiver.slots
        }),
{
    let targets = sender.targets(dest)->Ok_0;
    law_targets(sender, dest, t);
    let k = choose|k: int| 0 <= k < targets.len() && targets[k] == t;
    lemma_messages_of_plan(sender, targets, targets.len(), kind, payload, dest, k);
    let m = sender.outgoing(sender.next_id, kind, payload, dest, t);
    let group_id = id_after(sender.next_id, (k + 1) as nat);
    lemma_split_works(m, t, group_id);
    law_split_preserves_payload(m, slice_limit(t), group_id);
    law_delivery(m, receiver, t, source, group_id, order, max_peers, per_slot);
}

/// What a relay forwards arrives: a peer that gets the frames planned for the
/// target, over whatever transport and in any order, is handed the message,
/// with one hop less, with the last of them. The conditions are those of
/// [`law_delivery`].
pub proof fn law_forwarded_message_is_delivered(
    relay: RelayView,
    receiver: RelayView,
    m: MessageView,
    target: Transport,
    source: Transport,
    order: Seq<int>,
    max_peers: nat,
    per_slot: nat,
)
    requires
        m.valid(),
        m.frag is None,
        m.ttl > 0,
        ({
            let frames = messages_on(relay.forward_plan(m, target).1->Ok_0, target);
            &&& is_order_of(order, frames.len())
            &&& forall|i: int|
                0 <= i < frames.len() ==> !receiver.seen.contains(dedup_key(#[trigger] frames[i]))
            &&& frames.len() > 1 ==> {
                &&& frames.len() <= per_slot
                &&& first_index(receiver.slots, is_free()) is Some
                &&& first_index(
                    receiver.slots,
                    tracks(relay.next_id, frames.len() as u16),
                ) is None
            }
        }),
    ensures
        relay.forward_plan(m, target).1 is Ok,
        ({
            let frames = messages_on(relay.forward_plan(m, target).1->Ok_0, target);
            let arriving = Seq::new(order.len(), |i: int| frames[order[i]]);
            let (after, outcomes) = ingest_frames(
                receiver,
                source,
                encoded(arriving),
                max_peers,
                per_slot,
            );
            &&& outcomes.len() == frames.len() > 0
            &&& forall|i: int|
                0 <= i < outcomes.len() - 1 ==> #[trigger] outcomes[i] == Ok::<
                    IngestView,
                    RelayError,
                >(IngestView::Buffered)
            &&& outcomes.last() == Ok::<IngestView, RelayError>(
                if m.to == receiver.self_addr || m.to == BROADCAST_ADDR {
                    IngestView::Complete(m.with_ttl((m.ttl - 1) as u8))
                } else {
                    IngestView::NotForMe(m.with_ttl((m.ttl - 1) as u8))
                },
            )
            &&& after.slots == receiver.slots
        }),
{
    let relayed = m.relayed()->0;
    lemma_split_works(relayed, target, relay.next_id);
    let frames = split_frames(relayed, slice_limit(target), relay.next_id)->0;
    lemma_messages_of_block(frames, target, FrameAddr::of_bytes(m.to));
    law_delivery(
        relayed,
        receiver,
        target,
        source,
        relay.next_id,
        order,
        max_peers,
        per_slot,
    );
}

/// The frames of a second message go through where those of another did: a
/// relay that gets all frames of one message and then all frames of another,
/// each in any order, is handed first the one and then the other, if their ids
/// differ in the low 16 bits. The conditions are those of [`law_delivery`], for
/// both.
pub proof fn law_two_messages_are_delivered(
    a: MessageView,
    b: MessageView,
    receiver: RelayView,
    t: Transport,
    source: Transport,
    group_a: u32,
    group_b: u32,
    order_a: Seq<int>,
    order_b: Seq<int>,
    max_peers: nat,
    per_slot: nat,
)
    requires
        a.valid(),
        a.frag is None,
        b.valid(),
        b.frag is None,
        a.id % 0x1_0000 != b.id % 0x1_0000,
        a.to == receiver.self_addr || a.to == BROADCAST_ADDR,
        b.to == receiver.self_addr || b.to == BROADCAST_ADDR,
        per_slot >= MAX_FRAGMENTS,
        first_index(receiver.slots, is_free()) is Some,
        forall|n: u16| first_index(receiver.slots, #[trigger] tracks(group_a, n)) is None,
        forall|n: u16| first_index(receiver.slots, #[trigger] tracks(group_b, n)) is None,
        ({
            let first = split_frames(a, slice_limit(t), group_a)->0;
            let second = split_frames(b, slice_limit(t), group_b)->0;
            &&& is_order_of(order_a, first.len())
            &&& is_order_of(order_b, second.len())
            &&& forall|i: int|
                0 <= i < first.len() ==> !receiver.seen.contains(dedup_key(#[trigger] first[i]))
            &&& forall|i: int|
                0 <= i < second.len() ==> !receiver.seen.contains(dedup_key(#[trigger] second[i]))
        }),
    ensures
        ({
            let first = split_frames(a, slice_limit(t), group_a)->0;
            let second = split_frames(b, slice_limit(t), group_b)->0;
            let arriving_a = Seq::new(order_a.len(), |i: int| first[order_a[i]]);
            let arriving_b = Seq::new(order_b.len(), |i: int| second[order_b[i]]);
            let (mid, outcomes_a) = ingest_frames(
                receiver,
                source,
                encoded(arriving_a),
                max_peers,
                per_slot,
            );
            let (_, outcomes_b) = ingest_frames(
                mid,
                source,
                encoded(arriving_b),
                max_peers,
                per_slot,
            );
            &&& outcomes_a.last() == Ok::<IngestView, RelayError>(IngestView::Complete(a))
            &&& outcomes_b.last() == Ok::<IngestView, RelayError>(IngestView::Complete(b))
            &&& forall|i: int|
                0 <= i < outcomes_b.len() - 1 ==> #[trigger] outcomes_b[i] == Ok::<
                    IngestView,
                    RelayError,
                >(IngestView::Buffered)
        }),
{
    let first = split_frames(a, slice_limit(t), group_a)->0;
    let second = split_frames(b, slice_limit(t), group_b)->0;
    lemma_split_works(a, t, group_a);
    lemma_split_works(b, t, group_b);
    law_split_preserves_payload(a, slice_limit(t), group_a);
    law_split_preserves_payload(b, slice_limit(t), group_b);
    law_delivery(a, receiver, t, source, group_a, order_a, max_peers, per_slot);
    let arriving_a = Seq::new(order_a.len(), |i: int| first[order_a[i]]);
    let mid = ingest_frames(receiver, source, encoded(arriving_a), max_peers, per_slot).0;
    assert forall|i: int| 0 <= i < second.len() implies !mid.seen.contains(
        dedup_key(#[trigger] second[i]),
    ) by {
        let key = dedup_key(second[i]);
        if mid.seen.contains(key) {
            let j = choose|j: int| 0 <= j < first.len() && dedup_key(#[trigger] first[j]) == key;
            law_messages_are_told_apart(first[j], second[i]);
        }
    }
    law_delivery(b, mid, t, source, group_b, order_b, max_peers, per_slot);
}

} // verus!
