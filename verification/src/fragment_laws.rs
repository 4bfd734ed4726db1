//! What fragmentation and reassembly promise together.

use crate::fragment::{
    good_header, is_free, joined, lemma_slice_bounds, lemma_slice_count, reassemble, slice_count,
    slice_of, slice_payload, slices_of, slot_for, split_frames, tracks, tracks_id, used_slots,
    valid_slots, Group, OutcomeView, RejectReason, MAX_FRAGMENTS,
};
use crate::proto::{Fragment, MessageView};
use crate::search::{
    first_index, is_first, lemma_first_absent, lemma_first_exists, lemma_first_found,
};
use vstd::prelude::*;
use vstd::set_lib::{lemma_int_range, lemma_subset_equality, set_int_range};

verus! {

/// The payloads of some frames, one behind the other.
pub open spec fn concat_payloads(frames: Seq<MessageView>) -> Seq<u8>
    decreases frames.len(),
{
    if frames.len() == 0 {
        Seq::empty()
    } else {
        concat_payloads(frames.drop_last()) + frames.last().payload
    }
}

/// The bytes in front of slice number `i`.
spec fn bytes_before(payload: Seq<u8>, mtu: nat, i: int) -> Seq<u8> {
    if i < slice_count(payload.len(), mtu) {
        payload.take(i * mtu)
    } else {
        payload
    }
}

/// Appending a slice to what comes before it gives what comes before the next.
proof fn lemma_bytes_before(payload: Seq<u8>, mtu: nat, i: int)
    requires
        mtu > 0,
        0 <= i < slice_count(payload.len(), mtu),
    ensures
        bytes_before(payload, mtu, i) + slice_payload(payload, mtu, i) == bytes_before(
            payload,
            mtu,
            i + 1,
        ),
{
    lemma_slice_bounds(payload.len(), mtu, i);
    assert(bytes_before(payload, mtu, i) + slice_payload(payload, mtu, i) =~= bytes_before(
        payload,
        mtu,
        i + 1,
    ));
}

proof fn lemma_concat_slices(m: MessageView, mtu: nat, group_id: u32, n: int)
    requires
        mtu > 0,
        m.payload.len() > 0,
        0 <= n <= slice_count(m.payload.len(), mtu),
    ensures
        concat_payloads(slices_of(m, mtu, group_id).take(n)) == bytes_before(m.payload, mtu, n),
    decreases n,
{
    let frames = slices_of(m, mtu, group_id);
    lemma_slice_count(m.payload.len(), mtu);
    if n > 0 {
        lemma_concat_slices(m, mtu, group_id, n - 1);
        lemma_bytes_before(m.payload, mtu, n - 1);
        assert(frames.take(n).drop_last() =~= frames.take(n - 1));
    } else {
        assert(0 * mtu == 0) by (nonlinear_arith);
        assert(bytes_before(m.payload, mtu, 0) =~= Seq::empty());
    }
}

/// The frames that a message is split into carry its payload, in order and
/// without loss: there is at least one and at most [`MAX_FRAGMENTS`], none
/// carries more than `mtu` bytes, and where there are several, each says which
/// slice of how many it is and is otherwise like the message.
pub proof fn law_split_preserves_payload(m: MessageView, mtu: nat, group_id: u32)
    requires
        m.frag is None,
        split_frames(m, mtu, group_id) is Some,
    ensures
        ({
            let frames = split_frames(m, mtu, group_id)->0;
            &&& 1 <= frames.len() <= MAX_FRAGMENTS
            &&& concat_payloads(frames) == m.payload
            &&& forall|i: int|
                0 <= i < frames.len() ==> (#[trigger] frames[i]).payload.len() <= mtu
            &&& frames.len() == 1 ==> frames[0] == m
            &&& frames.len() > 1 ==> forall|i: int|
                0 <= i < frames.len() ==> (#[trigger] frames[i]).payload.len() > 0 && frames[i]
                    == (MessageView {
                    payload: frames[i].payload,
                    frag: Some(
                        Fragment { group_id, seq: i as u16, total: frames.len() as u16 },
                    ),
                    ..m
                })
        }),
{
    let frames = split_frames(m, mtu, group_id)->0;
    if m.payload.len() <= mtu {
        assert(frames.drop_last() =~= Seq::empty());
        assert(concat_payloads(frames) =~= m.payload) by {
            reveal_with_fuel(concat_payloads, 2);
        }
    } else {
        let n = slice_count(m.payload.len(), mtu);
        lemma_slice_count(m.payload.len(), mtu);
        lemma_concat_slices(m, mtu, group_id, n as int);
        assert(frames.take(n as int) =~= frames);
        if n == 1 {
            assert(1 * mtu == mtu) by (nonlinear_arith);
        }
        assert forall|i: int| 0 <= i < frames.len() implies 0 < (
        #[trigger] frames[i]).payload.len() <= mtu by {
            lemma_slice_bounds(m.payload.len(), mtu, i);
        }
    }
}

// ---------------------------------------------------------------------------
// Slices in any order
// ---------------------------------------------------------------------------

/// The slots after some frames were handed to the reassembler one after the
/// other, and what was reported for each.
pub open spec fn feed(slots: Seq<Option<Group>>, frames: Seq<MessageView>, per_slot: nat) -> (
    Seq<Option<Group>>,
    Seq<OutcomeView>,
)
    decreases frames.len(),
{
    if frames.len() == 0 {
        (slots, Seq::empty())
    } else {
        let (before, outcomes) = feed(slots, frames.drop_last(), per_slot);
        let (after, outcome) = reassemble(before, frames.last(), per_slot);
        (after, outcomes.push(outcome))
    }
}

/// Whether `order` names each of the first `n` numbers exactly once.
pub open spec fn is_order_of(order: Seq<int>, n: nat) -> bool {
    &&& order.len() == n
    &&& order.no_duplicates()
    &&& forall|i: int| 0 <= i < n ==> 0 <= #[trigger] order[i] < n
}

/// The slices of a message in the given order.
pub open spec fn slices_in_order(
    m: MessageView,
    mtu: nat,
    group_id: u32,
    order: Seq<int>,
) -> Seq<MessageView> {
    Seq::new(order.len(), |i: int| slice_of(m, mtu, group_id, order[i]))
}

/// The group of a message of which the slices at `received` have arrived.
spec fn partial(m: MessageView, mtu: nat, group_id: u32, received: Seq<int>) -> Group {
    Group {
        group_id,
        total: slice_count(m.payload.len(), mtu) as u16,
        slices: Map::new(
            |i: int| received.contains(i),
            |i: int| slice_payload(m.payload, mtu, i),
        ),
        template: MessageView { payload: Seq::empty(), frag: None, ..m },
    }
}

proof fn lemma_joined_slices(m: MessageView, mtu: nat, slices: Map<int, Seq<u8>>, n: nat)
    requires
        mtu > 0,
        m.payload.len() > 0,
        n <= slice_count(m.payload.len(), mtu),
        forall|i: int|
            0 <= i < slice_count(m.payload.len(), mtu) ==> #[trigger] slices[i] == slice_payload(
                m.payload,
                mtu,
                i,
            ),
    ensures
        joined(slices, n) == bytes_before(m.payload, mtu, n as int),
    decreases n,
{
    lemma_slice_count(m.payload.len(), mtu);
    if n > 0 {
        lemma_joined_slices(m, mtu, slices, (n - 1) as nat);
        lemma_bytes_before(m.payload, mtu, n - 1);
        assert(slices[n - 1] == slice_payload(m.payload, mtu, n - 1));
    } else {
        assert(0 * mtu == 0) by (nonlinear_arith);
        assert(bytes_before(m.payload, mtu, 0) =~= Seq::empty());
    }
}

/// Taking in one more slice of a partly received message.
proof fn lemma_accept_slice(m: MessageView, mtu: nat, group_id: u32, order: Seq<int>, k: int)
    requires
        m.frag is None,
        m.valid(),
        0 < mtu < m.payload.len(),
        slice_count(m.payload.len(), mtu) <= MAX_FRAGMENTS,
        is_order_of(order, slice_count(m.payload.len(), mtu)),
        0 <= k < order.len(),
    ensures
        partial(m, mtu, group_id, order.take(k)).accept(
            order[k],
            slice_payload(m.payload, mtu, order[k]),
        ) == if k + 1 < order.len() {
            (Some(partial(m, mtu, group_id, order.take(k + 1))), OutcomeView::Buffered)
        } else {
            (None, OutcomeView::Complete(m))
        },
{
    let n = slice_count(m.payload.len(), mtu);
    let group = partial(m, mtu, group_id, order.take(k));
    let payload = slice_payload(m.payload, mtu, order[k]);
    let next = partial(m, mtu, group_id, order.take(k + 1));
    let slices = group.slices.insert(order[k], payload);
    assert(!order.take(k).contains(order[k]));
    assert(order.take(k + 1) =~= order.take(k).push(order[k]));
    assert forall|i: int| order.take(k + 1).contains(i) == (order.take(k).contains(i) || i
        == order[k]) by {
        let s = order.take(k).push(order[k]);
        if order.take(k).contains(i) {
            let j = choose|j: int| 0 <= j < k && order.take(k)[j] == i;
            assert(s[j] == i);
        }
        if i == order[k] {
            assert(s[k] == i);
        }
    }
    assert(slices =~= next.slices);
    let received = order.take(k + 1);
    received.unique_seq_to_set();
    assert(slices.dom() =~= received.to_set());
    lemma_int_range(0, n as int);
    assert(slices.dom().subset_of(set_int_range(0, n as int)));
    if k + 1 < order.len() {
        assert(slices.dom().len() != set_int_range(0, n as int).len());
    } else {
        lemma_subset_equality(slices.dom(), set_int_range(0, n as int));
        assert forall|i: int| 0 <= i < n implies #[trigger] slices[i] == slice_payload(
            m.payload,
            mtu,
            i,
        ) by {
            assert(set_int_range(0, n as int).contains(i));
            assert(slices.dom().contains(i));
        }
        lemma_joined_slices(m, mtu, slices, n);
    }
}

proof fn lemma_feed_prefix(
    slots: Seq<Option<Group>>,
    per_slot: nat,
    m: MessageView,
    mtu: nat,
    group_id: u32,
    order: Seq<int>,
    k: nat,
)
    requires
        m.frag is None,
        m.valid(),
        0 < mtu < m.payload.len(),
        slice_count(m.payload.len(), mtu) <= MAX_FRAGMENTS,
        slice_count(m.payload.len(), mtu) <= per_slot,
        first_index(slots, tracks(group_id, slice_count(m.payload.len(), mtu) as u16)) is None,
        first_index(slots, is_free()) is Some,
        is_order_of(order, slice_count(m.payload.len(), mtu)),
        k <= order.len(),
    ensures
        ({
            let (after, outcomes) = feed(
                slots,
                slices_in_order(m, mtu, group_id, order).take(k as int),
                per_slot,
            );
            let at = first_index(slots, is_free())->0;
            &&& outcomes.len() == k
            &&& forall|i: int| 0 <= i < k && i + 1 < order.len() ==> #[trigger] outcomes[i]
                == OutcomeView::Buffered
            &&& k == order.len() ==> outcomes[k - 1] == OutcomeView::Complete(m)
            &&& after == if 0 < k < order.len() {
                slots.update(at, Some(partial(m, mtu, group_id, order.take(k as int))))
            } else {
                slots
            }
        }),
    decreases k,
{
    let n = slice_count(m.payload.len(), mtu);
    lemma_slice_count(m.payload.len(), mtu);
    let frames = slices_in_order(m, mtu, group_id, order);
    let at = first_index(slots, is_free())->0;
    let track = tracks(group_id, n as u16);
    assert(is_first(slots, is_free(), at));
    if k > 0 {
        let p = (k - 1) as nat;
        lemma_feed_prefix(slots, per_slot, m, mtu, group_id, order, p);
        assert(frames.take(k as int).drop_last() =~= frames.take(p as int));
        let (before, outcomes) = feed(slots, frames.take(p as int), per_slot);
        let frame = frames[p as int];
        let f = frame.frag->0;
        assert(good_header(f, per_slot));
        let group = partial(m, mtu, group_id, order.take(p as int));
        if p == 0 {
            assert(order.take(0) =~= Seq::empty());
            assert(Group::opened(group_id, n as u16, frame).slices =~= group.slices);
            assert(Group::opened(group_id, n as u16, frame) == group);
        } else {
            assert forall|j: int| 0 <= j < at implies !track(#[trigger] before[j]) by {
                if track(slots[j]) {
                    lemma_first_exists(slots, track, j);
                }
            }
            assert(is_first(before, track, at));
            lemma_first_found(before, track, at);
        }
        assert(slot_for(before, group_id, n as u16) == Some(at));
        lemma_accept_slice(m, mtu, group_id, order, p as int);
        let (after, outcome) = reassemble(before, frame, per_slot);
        assert(before.len() == slots.len());
        if k < n {
            assert(after =~= slots.update(
                at,
                Some(partial(m, mtu, group_id, order.take(k as int))),
            ));
        } else {
            assert(slots[at] is None);
            assert(after =~= slots);
        }
    }
}

/// The slices of a message, handed in any order to a reassembler that has a
/// free slot and does not track their group, give the message back with the
/// last slice and not before, and leave the slots as they were.
pub proof fn law_slices_in_any_order_complete(
    slots: Seq<Option<Group>>,
    per_slot: nat,
    m: MessageView,
    mtu: nat,
    group_id: u32,
    order: Seq<int>,
)
    requires
        m.frag is None,
        m.valid(),
        0 < mtu < m.payload.len(),
        slice_count(m.payload.len(), mtu) <= MAX_FRAGMENTS,
        slice_count(m.payload.len(), mtu) <= per_slot,
        first_index(slots, tracks(group_id, slice_count(m.payload.len(), mtu) as u16)) is None,
        first_index(slots, is_free()) is Some,
        is_order_of(order, slice_count(m.payload.len(), mtu)),
    ensures
        ({
            let (after, outcomes) = feed(
                slots,
                slices_in_order(m, mtu, group_id, order),
                per_slot,
            );
            &&& after == slots
            &&& outcomes.len() == order.len()
            &&& forall|i: int| 0 <= i < outcomes.len() - 1 ==> #[trigger] outcomes[i]
                == OutcomeView::Buffered
            &&& outcomes.last() == OutcomeView::Complete(m)
        }),
{
    let frames = slices_in_order(m, mtu, group_id, order);
    lemma_feed_prefix(slots, per_slot, m, mtu, group_id, order, order.len());
    assert(frames.take(order.len() as int) =~= frames);
    lemma_slice_count(m.payload.len(), mtu);
}

// ---------------------------------------------------------------------------
// Slices among other traffic
// ---------------------------------------------------------------------------

/// Whether a message is a slice of the group with this id and number of
/// slices.
pub open spec fn belongs(m: MessageView, group_id: u32, total: u16) -> bool {
    m.frag matches Some(f) && f.group_id == group_id && f.total == total
}

/// The slices of one group among other traffic, in order.
pub open spec fn slices_among(traffic: Seq<MessageView>, group_id: u32, total: u16) -> Seq<
    MessageView,
>
    decreases traffic.len(),
{
    if traffic.len() == 0 {
        Seq::empty()
    } else {
        let front = slices_among(traffic.drop_last(), group_id, total);
        if belongs(traffic.last(), group_id, total) {
            front.push(traffic.last())
        } else {
            front
        }
    }
}

/// Reading on in the traffic only adds slices.
proof fn lemma_slices_among_prefix(traffic: Seq<MessageView>, group_id: u32, total: u16, n: int)
    requires
        0 <= n <= traffic.len(),
    ensures
        slices_among(traffic.take(n), group_id, total).is_prefix_of(
            slices_among(traffic, group_id, total),
        ),
    decreases traffic.len(),
{
    if n < traffic.len() {
        lemma_slices_among_prefix(traffic.drop_last(), group_id, total, n);
        assert(traffic.drop_last().take(n) =~= traffic.take(n));
    } else {
        assert(traffic.take(n) =~= traffic);
    }
}

/// Traffic that is not of a group leaves the slots alone that track it, and
/// claims none for it.
proof fn lemma_other_traffic(
    slots: Seq<Option<Group>>,
    m: MessageView,
    per_slot: nat,
    group_id: u32,
    total: u16,
    j: int,
)
    requires
        !belongs(m, group_id, total),
        0 <= j < slots.len(),
    ensures
        reassemble(slots, m, per_slot).0.len() == slots.len(),
        tracks(group_id, total)(slots[j]) ==> reassemble(slots, m, per_slot).0[j] == slots[j],
        !tracks(group_id, total)(slots[j]) ==> !tracks(group_id, total)(
            reassemble(slots, m, per_slot).0[j],
        ),
{
    if let Some(f) = m.frag {
        if let Some(i) = slot_for(slots, f.group_id, f.total) {
            let track = tracks(f.group_id, f.total);
            if first_index(slots, track) is Some {
                assert(is_first(slots, track, i));
            } else {
                assert(is_first(slots, is_free(), i));
            }
        }
    }
}

/// The slots and reports after the first `k` messages of traffic that holds
/// the slices of `m` and starts with one of them.
proof fn lemma_interleaved(
    slots: Seq<Option<Group>>,
    per_slot: nat,
    m: MessageView,
    mtu: nat,
    group_id: u32,
    order: Seq<int>,
    traffic: Seq<MessageView>,
    k: nat,
)
    requires
        m.frag is None,
        m.valid(),
        0 < mtu < m.payload.len(),
        slice_count(m.payload.len(), mtu) <= MAX_FRAGMENTS,
        slice_count(m.payload.len(), mtu) <= per_slot,
        first_index(slots, tracks(group_id, slice_count(m.payload.len(), mtu) as u16)) is None,
        first_index(slots, is_free()) is Some,
        is_order_of(order, slice_count(m.payload.len(), mtu)),
        traffic.len() > 0,
        belongs(traffic[0], group_id, slice_count(m.payload.len(), mtu) as u16),
        slices_among(traffic, group_id, slice_count(m.payload.len(), mtu) as u16)
            == slices_in_order(m, mtu, group_id, order),
        1 <= k <= traffic.len(),
    ensures
        ({
            let total = slice_count(m.payload.len(), mtu) as u16;
            let track = tracks(group_id, total);
            let at = first_index(slots, is_free())->0;
            let (after, outcomes) = feed(slots, traffic.take(k as int), per_slot);
            let got = slices_among(traffic.take(k as int), group_id, total).len();
            &&& after.len() == slots.len()
            &&& 0 <= at < slots.len()
            &&& outcomes.len() == k
            &&& 0 < got <= order.len()
            &&& got < order.len() ==> after[at] == Some(
                partial(m, mtu, group_id, order.take(got as int)),
            )
            &&& forall|j: int|
                0 <= j < after.len() && (j != at || got == order.len()) ==> !track(
                    #[trigger] after[j],
                )
            &&& forall|p: int|
                0 <= p < k && belongs(traffic[p], group_id, total) ==> #[trigger] outcomes[p]
                    == report_of(m, traffic, p, group_id, total)
        }),
    decreases k,
{
    let n = slice_count(m.payload.len(), mtu);
    let total = n as u16;
    let track = tracks(group_id, total);
    let at = first_index(slots, is_free())->0;
    lemma_slice_count(m.payload.len(), mtu);
    assert(is_first(slots, is_free(), at));
    assert forall|j: int| 0 <= j < slots.len() implies !track(#[trigger] slots[j]) by {
        if track(slots[j]) {
            lemma_first_exists(slots, track, j);
        }
    }
    let p = (k - 1) as nat;
    let now = traffic.take(k as int);
    let x = traffic[p as int];
    assert(now.drop_last() =~= traffic.take(p as int));
    assert(now.last() == x);
    lemma_slices_among_prefix(traffic, group_id, total, k as int);
    let got = slices_among(now, group_id, total).len();
    let had = slices_among(traffic.take(p as int), group_id, total).len();
    let (before, outcomes) = feed(slots, traffic.take(p as int), per_slot);
    let (after, outcome) = reassemble(before, x, per_slot);
    if p == 0 {
        assert(traffic.take(0) =~= Seq::empty());
        assert(had == 0);
    } else {
        lemma_interleaved(slots, per_slot, m, mtu, group_id, order, traffic, p);
    }
    if belongs(x, group_id, total) {
        let all = slices_in_order(m, mtu, group_id, order);
        assert(slices_among(now, group_id, total)[had as int] == x);
        assert(all[had as int] == x);
        assert(x == slice_of(m, mtu, group_id, order[had as int]));
        let f = x.frag->0;
        assert(good_header(f, per_slot));
        if p == 0 {
            assert(order.take(0) =~= Seq::empty());
            let group = partial(m, mtu, group_id, order.take(0));
            assert(Group::opened(group_id, total, x).slices =~= group.slices);
            assert(Group::opened(group_id, total, x) == group);
        } else {
            assert(is_first(before, track, at));
            lemma_first_found(before, track, at);
        }
        assert(slot_for(before, group_id, total) == Some(at));
        lemma_accept_slice(m, mtu, group_id, order, had as int);
        assert(outcome == report_of(m, traffic, p as int, group_id, total));
    } else {
        assert forall|j: int| 0 <= j < after.len() && (j != at || got == order.len()) implies !track(
            #[trigger] after[j],
        ) by {
            lemma_other_traffic(before, x, per_slot, group_id, total, j);
        }
        lemma_other_traffic(before, x, per_slot, group_id, total, at);
    }
}

/// What is reported for a slice of `m` at position `p` of the traffic: the
/// message if it is the last of its slices, and that it was buffered if not.
pub open spec fn report_of(
    m: MessageView,
    traffic: Seq<MessageView>,
    p: int,
    group_id: u32,
    total: u16,
) -> OutcomeView {
    if slices_among(traffic.take(p + 1), group_id, total).len() < total {
        OutcomeView::Buffered
    } else {
        OutcomeView::Complete(m)
    }
}

/// Feeding two runs of traffic is feeding the one and then the other.
proof fn lemma_feed_concat(
    slots: Seq<Option<Group>>,
    a: Seq<MessageView>,
    b: Seq<MessageView>,
    per_slot: nat,
)
    ensures
        ({
            let (mid, first) = feed(slots, a, per_slot);
            let (last, second) = feed(mid, b, per_slot);
            &&& feed(slots, a + b, per_slot) == (last, first + second)
            &&& first.len() == a.len()
        }),
    decreases a.len() + b.len(),
{
    if b.len() > 0 {
        lemma_feed_concat(slots, a, b.drop_last(), per_slot);
        assert((a + b).drop_last() =~= a + b.drop_last());
        assert((a + b).last() == b.last());
        let (mid, first) = feed(slots, a, per_slot);
        let (_, second) = feed(mid, b.drop_last(), per_slot);
        let outcome = feed(mid, b, per_slot).1.last();
        assert((first + second).push(outcome) =~= first + second.push(outcome));
    } else {
        assert(a + b =~= a);
        let (mid, first) = feed(slots, a, per_slot);
        assert(first + Seq::<OutcomeView>::empty() =~= first);
        if a.len() > 0 {
            lemma_feed_concat(slots, a.drop_last(), b, per_slot);
        }
    }
}

/// The slices among two runs of traffic are those among the one and then those
/// among the other.
proof fn lemma_slices_among_concat(
    a: Seq<MessageView>,
    b: Seq<MessageView>,
    group_id: u32,
    total: u16,
)
    ensures
        slices_among(a + b, group_id, total) == slices_among(a, group_id, total) + slices_among(
            b,
            group_id,
            total,
        ),
    decreases b.len(),
{
    if b.len() > 0 {
        lemma_slices_among_concat(a, b.drop_last(), group_id, total);
        assert((a + b).drop_last() =~= a + b.drop_last());
        assert((a + b).last() == b.last());
        assert(slices_among(a + b, group_id, total) =~= slices_among(a, group_id, total)
            + slices_among(b, group_id, total));
    } else {
        assert(a + b =~= a);
        assert(slices_among(a, group_id, total) + slices_among(b, group_id, total)
            =~= slices_among(a, group_id, total));
    }
}

/// Traffic without slices of a group that is not tracked leaves it untracked.
proof fn lemma_stays_untracked(
    slots: Seq<Option<Group>>,
    traffic: Seq<MessageView>,
    per_slot: nat,
    group_id: u32,
    total: u16,
)
    requires
        first_index(slots, tracks(group_id, total)) is None,
        forall|i: int|
            0 <= i < traffic.len() ==> !belongs(#[trigger] traffic[i], group_id, total),
    ensures
        first_index(feed(slots, traffic, per_slot).0, tracks(group_id, total)) is None,
        slices_among(traffic, group_id, total).len() == 0,
    decreases traffic.len(),
{
    if traffic.len() > 0 {
        let front = traffic.drop_last();
        assert forall|i: int| 0 <= i < front.len() implies !belongs(
            #[trigger] front[i],
            group_id,
            total,
        ) by {
            assert(front[i] == traffic[i]);
        }
        lemma_stays_untracked(slots, front, per_slot, group_id, total);
        let track = tracks(group_id, total);
        let before = feed(slots, front, per_slot).0;
        let x = traffic[traffic.len() - 1];
        assert(x == traffic.last());
        let after = reassemble(before, x, per_slot).0;
        assert forall|j: int| 0 <= j < after.len() implies !track(#[trigger] after[j]) by {
            lemma_reassemble_len(before, x, per_slot);
            if track(before[j]) {
                lemma_first_exists(before, track, j);
            }
            lemma_other_traffic(before, x, per_slot, group_id, total, j);
        }
        lemma_first_absent(after, track);
    }
}

/// The number of slots never changes.
proof fn lemma_reassemble_len(slots: Seq<Option<Group>>, m: MessageView, per_slot: nat)
    ensures
        reassemble(slots, m, per_slot).0.len() == slots.len(),
{
}

/// The slices of a message come through whatever else arrives before, between
/// and behind them: if there is a free slot when the first of them arrives, at
/// position `q`, the message is handed out with the last of them, in whatever
/// order they come, and every slice before that is buffered. Afterwards the
/// group is not tracked any more.
pub proof fn law_slices_complete_among_other_traffic(
    slots: Seq<Option<Group>>,
    per_slot: nat,
    m: MessageView,
    mtu: nat,
    group_id: u32,
    order: Seq<int>,
    traffic: Seq<MessageView>,
    q: int,
    p: int,
)
    requires
        m.frag is None,
        m.valid(),
        0 < mtu < m.payload.len(),
        slice_count(m.payload.len(), mtu) <= MAX_FRAGMENTS,
        slice_count(m.payload.len(), mtu) <= per_slot,
        is_order_of(order, slice_count(m.payload.len(), mtu)),
        slices_among(traffic, group_id, slice_count(m.payload.len(), mtu) as u16)
            == slices_in_order(m, mtu, group_id, order),
        first_index(slots, tracks(group_id, slice_count(m.payload.len(), mtu) as u16)) is None,
        0 <= q < traffic.len(),
        belongs(traffic[q], group_id, slice_count(m.payload.len(), mtu) as u16),
        forall|i: int|
            0 <= i < q ==> !belongs(
                #[trigger] traffic[i],
                group_id,
                slice_count(m.payload.len(), mtu) as u16,
            ),
        first_index(feed(slots, traffic.take(q), per_slot).0, is_free()) is Some,
        0 <= p < traffic.len(),
        belongs(traffic[p], group_id, slice_count(m.payload.len(), mtu) as u16),
    ensures
        feed(slots, traffic, per_slot).1[p] == report_of(
            m,
            traffic,
            p,
            group_id,
            slice_count(m.payload.len(), mtu) as u16,
        ),
        first_index(
            feed(slots, traffic, per_slot).0,
            tracks(group_id, slice_count(m.payload.len(), mtu) as u16),
        ) is None,
{
    let total = slice_count(m.payload.len(), mtu) as u16;
    let (a, b) = (traffic.take(q), traffic.skip(q));
    assert(a + b =~= traffic);
    lemma_feed_concat(slots, a, b, per_slot);
    lemma_slices_among_concat(a, b, group_id, total);
    assert forall|i: int| 0 <= i < a.len() implies !belongs(#[trigger] a[i], group_id, total) by {
        assert(a[i] == traffic[i]);
    }
    lemma_stays_untracked(slots, a, per_slot, group_id, total);
    let none = Seq::<MessageView>::empty();
    assert(slices_among(a, group_id, total) =~= none);
    assert(none + slices_among(b, group_id, total) =~= slices_among(b, group_id, total));
    let mid = feed(slots, a, per_slot).0;
    assert(b[0] == traffic[q]);
    lemma_interleaved(mid, per_slot, m, mtu, group_id, order, b, b.len());
    assert(b.take(b.len() as int) =~= b);
    let track = tracks(group_id, total);
    lemma_first_absent(feed(mid, b, per_slot).0, track);
    if p < q {
        assert(!belongs(traffic[p], group_id, total));
    }
    assert(b[p - q] == traffic[p]);
    assert(traffic.take(p + 1) =~= a + b.take(p - q + 1));
    lemma_slices_among_concat(a, b.take(p - q + 1), group_id, total);
    let so_far = slices_among(b.take(p - q + 1), group_id, total);
    assert(none + so_far =~= so_far);
}

// ---------------------------------------------------------------------------
// Slices that change nothing
// ---------------------------------------------------------------------------

/// A slice that was buffered is a duplicate when it arrives again, and then
/// changes nothing.
pub proof fn law_buffered_slice_is_kept(slots: Seq<Option<Group>>, m: MessageView, per_slot: nat)
    requires
        reassemble(slots, m, per_slot).1 == OutcomeView::Buffered,
    ensures
        ({
            let after = reassemble(slots, m, per_slot).0;
            reassemble(after, m, per_slot) == (
                after,
                OutcomeView::Dropped(RejectReason::DuplicateSlice),
            )
        }),
{
    let f = m.frag->0;
    let track = tracks(f.group_id, f.total);
    let i = slot_for(slots, f.group_id, f.total)->0;
    let after = reassemble(slots, m, per_slot).0;
    if first_index(slots, track) is Some {
        assert(is_first(slots, track, i));
    } else {
        assert(is_first(slots, is_free(), i));
        assert forall|j: int| 0 <= j < slots.len() implies !track(#[trigger] slots[j]) by {
            if track(slots[j]) {
                lemma_first_exists(slots, track, j);
            }
        }
    }
    assert(track(after[i]));
    assert(is_first(after, track, i)) by {
        assert forall|j: int| 0 <= j < i implies !track(#[trigger] after[j]) by {
            assert(after[j] == slots[j]);
        }
    }
    lemma_first_found(after, track, i);
    assert(reassemble(after, m, per_slot).0 =~= after);
}

/// A rejected slice changes nothing, unless it made the payload too large;
/// then its group is given up.
pub proof fn law_rejected_slice_changes_nothing(
    slots: Seq<Option<Group>>,
    m: MessageView,
    per_slot: nat,
)
    ensures
        reassemble(slots, m, per_slot).1 matches OutcomeView::Dropped(reason) ==> reason
            != RejectReason::PayloadTooLarge ==> reassemble(slots, m, per_slot).0 == slots,
{
    if let Some(f) = m.frag {
        if good_header(f, per_slot) {
            if let Some(i) = slot_for(slots, f.group_id, f.total) {
                let track = tracks(f.group_id, f.total);
                if first_index(slots, track) is Some {
                    assert(is_first(slots, track, i));
                } else {
                    assert(is_first(slots, is_free(), i));
                }
                assert(slots.update(i, slots[i]) =~= slots);
            }
        }
    }
}

/// A slice touches no slot but that of its own group.
pub proof fn law_groups_are_independent(
    slots: Seq<Option<Group>>,
    m: MessageView,
    per_slot: nat,
    j: int,
)
    requires
        0 <= j < slots.len(),
        slots[j] is Some,
        m.frag matches Some(f) ==> !tracks(f.group_id, f.total)(slots[j]),
    ensures
        reassemble(slots, m, per_slot).0.len() == slots.len(),
        reassemble(slots, m, per_slot).0[j] == slots[j],
{
    if let Some(f) = m.frag {
        if let Some(i) = slot_for(slots, f.group_id, f.total) {
            let track = tracks(f.group_id, f.total);
            if first_index(slots, track) is Some {
                assert(is_first(slots, track, i));
            } else {
                assert(is_first(slots, is_free(), i));
            }
        }
    }
}

// ---------------------------------------------------------------------------
// Slots in use
// ---------------------------------------------------------------------------

/// Emptying a slot in use leaves one slot less in use.
proof fn lemma_used_after_freeing(slots: Seq<Option<Group>>, i: int)
    requires
        0 <= i < slots.len(),
        slots[i] is Some,
    ensures
        used_slots(slots.update(i, None)) + 1 == used_slots(slots),
    decreases slots.len(),
{
    let freed = slots.update(i, None);
    if i == slots.len() - 1 {
        assert(freed.drop_last() =~= slots.drop_last());
    } else {
        lemma_used_after_freeing(slots.drop_last(), i);
        assert(freed.drop_last() =~= slots.drop_last().update(i, None));
    }
}

/// Evicting a tracked group frees exactly one slot.
pub proof fn law_evict_frees_one_slot(slots: Seq<Option<Group>>, group_id: u32)
    requires
        first_index(slots, tracks_id(group_id)) is Some,
    ensures
        ({
            let i = first_index(slots, tracks_id(group_id))->0;
            used_slots(slots.update(i, None)) + 1 == used_slots(slots)
        }),
{
    let i = first_index(slots, tracks_id(group_id))->0;
    assert(is_first(slots, tracks_id(group_id), i));
    lemma_used_after_freeing(slots, i);
}

/// The slots in use are counted: there are none where every slot is free, and
/// filling a free slot makes one more.
pub proof fn law_used_slots(slots: Seq<Option<Group>>, i: int, group: Group)
    ensures
        (forall|j: int| 0 <= j < slots.len() ==> (#[trigger] slots[j]) is None) ==> used_slots(
            slots,
        ) == 0,
        0 <= i < slots.len() && slots[i] is None ==> used_slots(slots.update(i, Some(group)))
            == used_slots(slots) + 1,
        used_slots(slots) <= slots.len(),
    decreases slots.len(),
{
    if slots.len() > 0 {
        law_used_slots(slots.drop_last(), i, group);
        if 0 <= i < slots.len() && slots[i] is None {
            let filled = slots.update(i, Some(group));
            lemma_used_after_freeing(filled, i);
            assert(filled.update(i, None) =~= slots);
        }
    }
}

/// Evicting finds a group exactly if some slot tracks one with that id.
pub proof fn law_evict_finds_group(slots: Seq<Option<Group>>, group_id: u32)
    ensures
        first_index(slots, tracks_id(group_id)) is Some <==> exists|j: int|
            0 <= j < slots.len() && (#[trigger] slots[j]) is Some && slots[j]->0.group_id
                == group_id,
        first_index(slots, tracks_id(group_id)) matches Some(i) ==> {
            &&& 0 <= i < slots.len()
            &&& slots[i] is Some
            &&& slots[i]->0.group_id == group_id
        },
{
    let p = tracks_id(group_id);
    if let Some(i) = first_index(slots, p) {
        assert(is_first(slots, p, i));
        assert(slots[i] is Some && slots[i]->0.group_id == group_id);
    }
    if exists|j: int|
        0 <= j < slots.len() && (#[trigger] slots[j]) is Some && slots[j]->0.group_id
            == group_id {
        let j = choose|j: int|
            0 <= j < slots.len() && (#[trigger] slots[j]) is Some && slots[j]->0.group_id
                == group_id;
        lemma_first_exists(slots, p, j);
    }
}

// ---------------------------------------------------------------------------
// When a message can be split
// ---------------------------------------------------------------------------

/// A message can be carried exactly if it fits into one frame, or if it is no
/// slice yet and fits into [`MAX_FRAGMENTS`] of them. It is cut only where it
/// has to be, and then every slice but the last is full.
pub proof fn law_split_works(m: MessageView, mtu: nat, group_id: u32)
    ensures
        split_frames(m, mtu, group_id) is Some <==> mtu > 0 && (m.payload.len() <= mtu || (m.frag
            is None && m.payload.len() <= 32 * mtu)),
        split_frames(m, mtu, group_id) matches Some(frames) ==> {
            &&& m.payload.len() <= mtu ==> frames == seq![m]
            &&& m.payload.len() > mtu ==> frames.len() > 1
            &&& forall|i: int|
                0 <= i < frames.len() - 1 ==> (#[trigger] frames[i]).payload.len() == mtu
        },
{
    let len = m.payload.len();
    if mtu > 0 && len > mtu {
        let n = slice_count(len, mtu) as int;
        lemma_slice_count(len, mtu);
        assert(n <= 32 <==> len <= 32 * mtu) by (nonlinear_arith)
            requires
                (n - 1) * mtu < len,
                len <= n * mtu,
                mtu > 0,
        ;
        if n == 1 {
            assert(1 * mtu == mtu) by (nonlinear_arith);
        }
        if let Some(frames) = split_frames(m, mtu, group_id) {
            assert forall|i: int| 0 <= i < frames.len() - 1 implies (
            #[trigger] frames[i]).payload.len() == mtu by {
                lemma_slice_bounds(len, mtu, i);
            }
        }
    }
}

// ---------------------------------------------------------------------------
// What becomes of one slice
// ---------------------------------------------------------------------------

/// A message that is no slice passes through. A slice is refused for its header
/// exactly if that has no slices, has a position behind the last, or has more
/// slices than a group can have.
pub proof fn law_headers(slots: Seq<Option<Group>>, m: MessageView, per_slot: nat)
    ensures
        m.frag is None ==> reassemble(slots, m, per_slot) == (slots, OutcomeView::Passthrough(m)),
        m.frag matches Some(f) ==> {
            &&& !(reassemble(slots, m, per_slot).1 is Passthrough)
            &&& reassemble(slots, m, per_slot).1 == OutcomeView::Dropped(RejectReason::BadHeader)
                <==> f.total == 0 || f.seq >= f.total || f.total > 64 || f.total > per_slot
        },
{
}

/// The slice of a group that is not tracked, with a good header. It is refused
/// exactly if every slot is taken. Otherwise one free slot tracks its group
/// from now on, unless it is the only slice of its group: then the message is
/// complete.
pub proof fn law_slice_of_new_group(slots: Seq<Option<Group>>, m: MessageView, per_slot: nat)
    requires
        m.valid(),
        m.frag matches Some(f) && 0 < f.total <= 64 && f.seq < f.total <= per_slot && forall|j: int|
            0 <= j < slots.len() && (#[trigger] slots[j]) is Some ==> slots[j]->0.group_id
                != f.group_id || slots[j]->0.total != f.total,
    ensures
        ({
            let f = m.frag->0;
            let (after, outcome) = reassemble(slots, m, per_slot);
            let free = exists|j: int| 0 <= j < slots.len() && (#[trigger] slots[j]) is None;
            &&& outcome == OutcomeView::Dropped(RejectReason::NoSlot) <==> !free
            &&& !free ==> after == slots
            &&& free && f.total == 1 ==> after == slots && outcome == OutcomeView::Complete(
                MessageView { frag: None, ..m },
            )
            &&& free && f.total > 1 ==> outcome == OutcomeView::Buffered && exists|i: int|
                0 <= i < slots.len() && (#[trigger] slots[i]) is None && after == slots.update(
                    i,
                    Some(
                        Group {
                            group_id: f.group_id,
                            total: f.total,
                            slices: Map::empty().insert(f.seq as int, m.payload),
                            template: MessageView { payload: Seq::empty(), frag: None, ..m },
                        },
                    ),
                )
        }),
{
    let f = m.frag->0;
    let (after, outcome) = reassemble(slots, m, per_slot);
    lemma_first_absent(slots, tracks(f.group_id, f.total));
    if exists|j: int| 0 <= j < slots.len() && (#[trigger] slots[j]) is None {
        let j = choose|j: int| 0 <= j < slots.len() && (#[trigger] slots[j]) is None;
        lemma_first_exists(slots, is_free(), j);
        let i = first_index(slots, is_free())->0;
        let slices = Map::<int, Seq<u8>>::empty().insert(f.seq as int, m.payload);
        let all = set_int_range(0, f.total as int);
        if f.total == 1 {
            assert(slices.dom() =~= all);
            reveal_with_fuel(joined, 2);
            assert(joined(slices, 1) =~= m.payload);
            assert(after =~= slots);
        } else {
            let other: int = if f.seq == 0 {
                1
            } else {
                0
            };
            assert(all.contains(other) && !slices.dom().contains(other));
            assert(slots[i] is None);
        }
    } else {
        assert forall|j: int| 0 <= j < slots.len() implies !is_free()(#[trigger] slots[j]) by {}
        lemma_first_absent(slots, is_free());
    }
}

/// The slice of a tracked group, with a good header. One that the group has
/// already is refused. Any other is kept as long as some slice is still
/// missing; the last one frees the slot, and the message is complete if its
/// payload is not too large: the slices in the order of their positions, under
/// the header of the group.
pub proof fn law_slice_of_known_group(
    slots: Seq<Option<Group>>,
    m: MessageView,
    per_slot: nat,
    j: int,
)
    requires
        valid_slots(slots, per_slot),
        0 <= j < slots.len(),
        slots[j] is Some,
        m.frag matches Some(f) && 0 < f.total <= 64 && f.seq < f.total <= per_slot
            && slots[j]->0.group_id == f.group_id && slots[j]->0.total == f.total,
    ensures
        ({
            let seq = m.frag->0.seq as int;
            let group = slots[j]->0;
            let (after, outcome) = reassemble(slots, m, per_slot);
            let missing = exists|s: int|
                0 <= s < group.total && s != seq && !#[trigger] group.slices.contains_key(s);
            let slices = group.slices.insert(seq, m.payload);
            let whole = joined(slices, group.total as nat);
            &&& group.slices.contains_key(seq) <==> outcome == OutcomeView::Dropped(
                RejectReason::DuplicateSlice,
            )
            &&& group.slices.contains_key(seq) ==> after == slots
            &&& !group.slices.contains_key(seq) && missing ==> outcome == OutcomeView::Buffered
                && after == slots.update(j, Some(Group { slices, ..group }))
            &&& !group.slices.contains_key(seq) && !missing ==> after == slots.update(j, None)
                && outcome == if whole.len() <= 200 {
                OutcomeView::Complete(MessageView { payload: whole, ..group.template })
            } else {
                OutcomeView::Dropped(RejectReason::PayloadTooLarge)
            }
        }),
{
    let f = m.frag->0;
    let seq = f.seq as int;
    let group = slots[j]->0;
    let track = tracks(f.group_id, f.total);
    assert forall|i: int| 0 <= i < j implies !track(#[trigger] slots[i]) by {
        assert(slots[j] is Some);
    }
    assert(is_first(slots, track, j));
    lemma_first_found(slots, track, j);
    let slices = group.slices.insert(seq, m.payload);
    let all = set_int_range(0, f.total as int);
    assert(group.valid(per_slot));
    if group.slices.contains_key(seq) {
        assert(slots.update(j, slots[j]) =~= slots);
    } else if exists|s: int|
        0 <= s < group.total && s != seq && !#[trigger] group.slices.contains_key(s) {
        let s = choose|s: int|
            0 <= s < group.total && s != seq && !#[trigger] group.slices.contains_key(s);
        assert(all.contains(s) && !slices.dom().contains(s));
    } else {
        assert forall|s: int| all.contains(s) implies slices.dom().contains(s) by {
            if s != seq {
                assert(group.slices.contains_key(s));
            }
        }
        assert(slices.dom() =~= all);
    }
}

// ---------------------------------------------------------------------------
// Slices of any sizes
// ---------------------------------------------------------------------------

/// Some parts, one behind the other.
pub open spec fn join(parts: Seq<Seq<u8>>) -> Seq<u8>
    decreases parts.len(),
{
    if parts.len() == 0 {
        Seq::empty()
    } else {
        join(parts.drop_last()) + parts.last()
    }
}

/// Whether `frames` are the slices of one group that hold `parts`, and arrive in
/// the given order.
pub open spec fn slices_holding(
    frames: Seq<MessageView>,
    group_id: u32,
    parts: Seq<Seq<u8>>,
    order: Seq<int>,
) -> bool {
    &&& frames.len() == parts.len()
    &&& is_order_of(order, parts.len())
    &&& forall|i: int|
        0 <= i < frames.len() ==> (#[trigger] frames[i]).payload == parts[order[i]]
            && frames[i].frag == Some(
            Fragment { group_id, seq: order[i] as u16, total: parts.len() as u16 },
        )
}

/// What is known of a group after some of its slices arrived.
spec fn gathered(
    frames: Seq<MessageView>,
    group_id: u32,
    parts: Seq<Seq<u8>>,
    received: Seq<int>,
) -> Group {
    Group {
        group_id,
        total: parts.len() as u16,
        slices: Map::new(|i: int| received.contains(i), |i: int| parts[i]),
        template: MessageView { payload: Seq::empty(), frag: None, ..frames[0] },
    }
}

proof fn lemma_joined_parts(parts: Seq<Seq<u8>>, slices: Map<int, Seq<u8>>)
    requires
        forall|i: int| 0 <= i < parts.len() ==> #[trigger] slices[i] == parts[i],
    ensures
        joined(slices, parts.len()) == join(parts),
    decreases parts.len(),
{
    if parts.len() > 0 {
        let front = parts.drop_last();
        assert forall|i: int| 0 <= i < front.len() implies #[trigger] slices[i] == front[i] by {}
        lemma_joined_parts(front, slices);
        assert(slices[parts.len() - 1] == parts.last());
    }
}

/// What comes of the last slice of a group.
pub open spec fn outcome_of_all(first: MessageView, parts: Seq<Seq<u8>>) -> OutcomeView {
    if join(parts).len() <= 200 {
        OutcomeView::Complete(MessageView { payload: join(parts), frag: None, ..first })
    } else {
        OutcomeView::Dropped(RejectReason::PayloadTooLarge)
    }
}

proof fn lemma_accept_part(
    frames: Seq<MessageView>,
    group_id: u32,
    parts: Seq<Seq<u8>>,
    order: Seq<int>,
    k: int,
)
    requires
        0 < parts.len() <= 64,
        slices_holding(frames, group_id, parts, order),
        0 <= k < order.len(),
    ensures
        gathered(frames, group_id, parts, order.take(k)).accept(order[k], parts[order[k]]) == if k
            + 1 < order.len() {
            (
                Some(gathered(frames, group_id, parts, order.take(k + 1))),
                OutcomeView::Buffered,
            )
        } else {
            (None, outcome_of_all(frames[0], parts))
        },
{
    let n = parts.len();
    let group = gathered(frames, group_id, parts, order.take(k));
    let next = gathered(frames, group_id, parts, order.take(k + 1));
    let slices = group.slices.insert(order[k], parts[order[k]]);
    assert(!order.take(k).contains(order[k]));
    assert(order.take(k + 1) =~= order.take(k).push(order[k]));
    assert forall|i: int| order.take(k + 1).contains(i) == (order.take(k).contains(i) || i
        == order[k]) by {
        let s = order.take(k).push(order[k]);
        if order.take(k).contains(i) {
            let j = choose|j: int| 0 <= j < k && order.take(k)[j] == i;
            assert(s[j] == i);
        }
        if i == order[k] {
            assert(s[k] == i);
        }
    }
    assert(slices =~= next.slices);
    let received = order.take(k + 1);
    received.unique_seq_to_set();
    assert(slices.dom() =~= received.to_set());
    lemma_int_range(0, n as int);
    assert(slices.dom().subset_of(set_int_range(0, n as int)));
    if k + 1 < order.len() {
        assert(slices.dom().len() != set_int_range(0, n as int).len());
    } else {
        lemma_subset_equality(slices.dom(), set_int_range(0, n as int));
        assert forall|i: int| 0 <= i < n implies #[trigger] slices[i] == parts[i] by {
            assert(set_int_range(0, n as int).contains(i));
            assert(slices.dom().contains(i));
        }
        lemma_joined_parts(parts, slices);
    }
}

proof fn lemma_gather(
    slots: Seq<Option<Group>>,
    per_slot: nat,
    frames: Seq<MessageView>,
    group_id: u32,
    parts: Seq<Seq<u8>>,
    order: Seq<int>,
    k: nat,
)
    requires
        0 < parts.len() <= 64,
        parts.len() <= per_slot,
        slices_holding(frames, group_id, parts, order),
        first_index(slots, tracks(group_id, parts.len() as u16)) is None,
        first_index(slots, is_free()) is Some,
        k <= order.len(),
    ensures
        ({
            let (after, outcomes) = feed(slots, frames.take(k as int), per_slot);
            let at = first_index(slots, is_free())->0;
            &&& outcomes.len() == k
            &&& forall|i: int| 0 <= i < k && i + 1 < order.len() ==> #[trigger] outcomes[i]
                == OutcomeView::Buffered
            &&& k == order.len() ==> outcomes[k - 1] == outcome_of_all(frames[0], parts)
            &&& after == if 0 < k < order.len() {
                slots.update(at, Some(gathered(frames, group_id, parts, order.take(k as int))))
            } else {
                slots
            }
        }),
    decreases k,
{
    let n = parts.len();
    let at = first_index(slots, is_free())->0;
    let track = tracks(group_id, n as u16);
    assert(is_first(slots, is_free(), at));
    if k > 0 {
        let p = (k - 1) as nat;
        lemma_gather(slots, per_slot, frames, group_id, parts, order, p);
        assert(frames.take(k as int).drop_last() =~= frames.take(p as int));
        let (before, outcomes) = feed(slots, frames.take(p as int), per_slot);
        let frame = frames[p as int];
        let f = frame.frag->0;
        assert(0 <= order[p as int] < n);
        assert(good_header(f, per_slot));
        let group = gathered(frames, group_id, parts, order.take(p as int));
        if p == 0 {
            assert(order.take(0) =~= Seq::empty());
            assert(Group::opened(group_id, n as u16, frame).slices =~= group.slices);
            assert(Group::opened(group_id, n as u16, frame) == group);
        } else {
            assert forall|j: int| 0 <= j < at implies !track(#[trigger] before[j]) by {
                if track(slots[j]) {
                    lemma_first_exists(slots, track, j);
                }
            }
            assert(is_first(before, track, at));
            lemma_first_found(before, track, at);
        }
        assert(slot_for(before, group_id, n as u16) == Some(at));
        lemma_accept_part(frames, group_id, parts, order, p as int);
        let (after, outcome) = reassemble(before, frame, per_slot);
        assert(before.len() == slots.len());
        if k < n {
            assert(after =~= slots.update(
                at,
                Some(gathered(frames, group_id, parts, order.take(k as int))),
            ));
        } else {
            assert(slots[at] is None);
            assert(after =~= slots);
        }
    }
}

/// Slices of whatever sizes, up to 64 of them, in whatever order: all but the
/// last to arrive are kept, and the last completes a message with the header of
/// the first to arrive, whose payload is the slices in the order of their
/// positions. If that is too large for a message it is dropped. Either way the
/// slot is free again.
pub proof fn law_slices_of_any_size_complete(
    slots: Seq<Option<Group>>,
    per_slot: nat,
    frames: Seq<MessageView>,
    group_id: u32,
    parts: Seq<Seq<u8>>,
    order: Seq<int>,
)
    requires
        0 < parts.len() <= 64,
        parts.len() <= per_slot,
        slices_holding(frames, group_id, parts, order),
        forall|j: int|
            0 <= j < slots.len() && (#[trigger] slots[j]) is Some ==> slots[j]->0.group_id
                != group_id || slots[j]->0.total != parts.len(),
        exists|j: int| 0 <= j < slots.len() && (#[trigger] slots[j]) is None,
    ensures
        ({
            let (after, outcomes) = feed(slots, frames, per_slot);
            &&& after == slots
            &&& outcomes.len() == frames.len()
            &&& forall|i: int| 0 <= i < outcomes.len() - 1 ==> #[trigger] outcomes[i]
                == OutcomeView::Buffered
            &&& join(parts).len() <= 200 ==> outcomes.last() == OutcomeView::Complete(
                MessageView { payload: join(parts), frag: None, ..frames[0] },
            )
            &&& join(parts).len() > 200 ==> outcomes.last() == OutcomeView::Dropped(
                RejectReason::PayloadTooLarge,
            )
        }),
{
    let j = choose|j: int| 0 <= j < slots.len() && (#[trigger] slots[j]) is None;
    lemma_first_exists(slots, is_free(), j);
    lemma_first_absent(slots, tracks(group_id, parts.len() as u16));
    lemma_gather(slots, per_slot, frames, group_id, parts, order, order.len());
    assert(frames.take(order.len() as int) =~= frames);
}

} // verus!
