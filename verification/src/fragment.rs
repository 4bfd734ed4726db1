//! Automatic fragmentation and reassembly.
//!
//! The [`Fragmenter`] cuts a large payload into a sequence of [`Message`]s
//! whose payloads fit the target transport. The [`Reassembler`] does the
//! inverse on the receive side: it collects slices into complete messages,
//! with a bounded number of concurrently-tracked groups and a per-group cap.
//!
//! Both are pure logic: they perform no I/O.

use crate::bounded::BoundedVec;
use crate::error::RelayError;
use crate::proto::{Fragment, Message, MessageView, MsgKind, ProtoError, Transport, MAX_PAYLOAD};
use crate::search::{first_index, lemma_first_absent, lemma_first_found};
use vstd::arithmetic::div_mod::lemma_fundamental_div_mod;
use vstd::prelude::*;
use vstd::set_lib::{lemma_int_range, lemma_len_subset, lemma_subset_equality, set_int_range};

verus! {

/// Absolute upper bound on slices per logical message.
///
/// Chosen so that a big payload can be split across LoRa with headroom, and so
/// that per-group state stays tiny in firmware.
pub const MAX_FRAGMENTS: usize = 32;

// ---------------------------------------------------------------------------
// Splitting
// ---------------------------------------------------------------------------

/// What the messages of a sequence say.
pub open spec fn views(messages: Seq<Message>) -> Seq<MessageView> {
    Seq::new(messages.len(), |i: int| messages[i]@)
}

/// The most payload bytes that one frame on `target` carries: bounded by the
/// transport and by what a message can hold.
pub open spec fn slice_limit(target: Transport) -> nat {
    if target.max_payload_spec() <= MAX_PAYLOAD {
        target.max_payload_spec() as nat
    } else {
        MAX_PAYLOAD as nat
    }
}

/// How many slices of at most `mtu` bytes `len` bytes take.
pub open spec fn slice_count(len: nat, mtu: nat) -> nat
    recommends
        mtu > 0,
{
    ((len + mtu - 1) / (mtu as int)) as nat
}

/// The bytes of slice number `i`.
pub open spec fn slice_payload(payload: Seq<u8>, mtu: nat, i: int) -> Seq<u8> {
    let end = if (i + 1) * mtu <= payload.len() {
        (i + 1) * mtu
    } else {
        payload.len() as int
    };
    payload.subrange(i * mtu, end)
}

/// Slice number `i` of a message, as a message of its own.
pub open spec fn slice_of(m: MessageView, mtu: nat, group_id: u32, i: int) -> MessageView {
    MessageView {
        payload: slice_payload(m.payload, mtu, i),
        frag: Some(
            Fragment {
                group_id,
                seq: i as u16,
                total: slice_count(m.payload.len(), mtu) as u16,
            },
        ),
        ..m
    }
}

/// All slices of a message.
pub open spec fn slices_of(m: MessageView, mtu: nat, group_id: u32) -> Seq<MessageView> {
    Seq::new(slice_count(m.payload.len(), mtu), |i: int| slice_of(m, mtu, group_id, i))
}

/// The frames that carry a message: the message itself where it fits,
/// otherwise its slices, unless they would be too many. What already is a slice
/// is not cut again.
pub open spec fn split_frames(m: MessageView, mtu: nat, group_id: u32) -> Option<Seq<MessageView>> {
    if mtu == 0 {
        None
    } else if m.payload.len() <= mtu {
        Some(seq![m])
    } else if m.frag is Some || slice_count(m.payload.len(), mtu) > MAX_FRAGMENTS {
        None
    } else {
        Some(slices_of(m, mtu, group_id))
    }
}

/// The slices before the last are full and the last one is not empty.
pub proof fn lemma_slice_count(len: nat, mtu: nat)
    requires
        mtu > 0,
        len > 0,
    ensures
        slice_count(len, mtu) > 0,
        (slice_count(len, mtu) - 1) * mtu < len,
        len <= slice_count(len, mtu) * mtu,
{
    let x = len + mtu - 1;
    let q = x / (mtu as int);
    lemma_fundamental_div_mod(x, mtu as int);
    assert(q * mtu == mtu * q) by (nonlinear_arith);
    assert((q - 1) * mtu == q * mtu - mtu) by (nonlinear_arith);
    if q <= 0 {
        assert(q * mtu <= 0) by (nonlinear_arith)
            requires
                q <= 0,
                mtu > 0,
        ;
    }
}

/// Every slice lies within the payload and holds between one and `mtu` bytes.
pub proof fn lemma_slice_bounds(len: nat, mtu: nat, i: int)
    requires
        mtu > 0,
        0 <= i < slice_count(len, mtu),
    ensures
        0 <= i * mtu < len,
        (i + 1) * mtu == i * mtu + mtu,
        i + 1 < slice_count(len, mtu) ==> (i + 1) * mtu < len,
        i + 1 == slice_count(len, mtu) ==> len <= (i + 1) * mtu,
{
    if len == 0 {
        assert((mtu - 1) / (mtu as int) == 0) by (nonlinear_arith)
            requires
                mtu > 0,
        ;
    }
    lemma_slice_count(len, mtu);
    let n = slice_count(len, mtu) as int;
    assert(0 <= i * mtu <= (n - 1) * mtu) by (nonlinear_arith)
        requires
            0 <= i <= n - 1,
    ;
    assert((i + 1) * mtu == i * mtu + mtu) by (nonlinear_arith);
    if i + 1 < n {
        assert((i + 1) * mtu <= (n - 1) * mtu) by (nonlinear_arith)
            requires
                i + 1 <= n - 1,
        ;
    }
}

/// No frame carries more than `mtu` bytes.
pub proof fn lemma_frames_fit(m: MessageView, mtu: nat, group_id: u32)
    ensures
        split_frames(m, mtu, group_id) matches Some(frames) ==> forall|i: int|
            0 <= i < frames.len() ==> (#[trigger] frames[i]).payload.len() <= mtu,
{
    if let Some(frames) = split_frames(m, mtu, group_id) {
        assert forall|i: int| 0 <= i < frames.len() implies (#[trigger] frames[i]).payload.len()
            <= mtu by {
            if m.payload.len() > mtu {
                lemma_slice_bounds(m.payload.len(), mtu, i);
            }
        }
    }
}

/// Splits a logical [`Message`] into one or more transport-sized frames.
///
/// There is always at least one frame. When the payload fits in a single
/// frame, that frame is the input message.
pub struct Fragmenter;

impl Fragmenter {
    /// Split `msg` into frames that each fit inside `target.max_payload()`.
    ///
    /// The `group_id` correlates the slices on the receiver. A message that is
    /// no slice yet can be split for each of the known transports.
    ///
    /// # Errors
    /// Returns [`RelayError::PayloadUnfragmentable`] when `msg` already is a
    /// slice and too long for the target.
    pub fn split(msg: Message, target: Transport, group_id: u32) -> (r: Result<
        BoundedVec<Message, MAX_FRAGMENTS>,
        RelayError,
    >)
        ensures
            r is Ok <==> split_frames(msg@, slice_limit(target), group_id) is Some,
            r is Ok ==> Some(views(r->Ok_0@)) == split_frames(msg@, slice_limit(target), group_id),
            r is Ok ==> 1 <= r->Ok_0@.len() <= MAX_FRAGMENTS,
            r is Ok ==> forall|i: int|
                0 <= i < r->Ok_0@.len() ==> (#[trigger] r->Ok_0@[i])@.payload.len()
                    <= target.max_payload_spec(),
            r is Err <==> msg@.frag is Some && msg@.payload.len() > target.max_payload_spec(),
            r is Err ==> r->Err_0 == RelayError::PayloadUnfragmentable,
    {
        let limit = target.max_payload();
        let mtu: usize = if limit <= MAX_PAYLOAD {
            limit
        } else {
            MAX_PAYLOAD
        };
        let len = msg.payload.len();
        proof {
            if len > mtu {
                assert((len + mtu - 1) / (mtu as int) <= MAX_FRAGMENTS) by (nonlinear_arith)
                    requires
                        180 <= mtu,
                        len <= 200,
                        MAX_FRAGMENTS == 32,
                ;
            }
            lemma_frames_fit(msg@, mtu as nat, group_id);
        }
        let r = Self::split_for_mtu(msg, mtu, group_id);
        proof {
            if r is Ok {
                let frames = r->Ok_0@;
                assert forall|i: int| 0 <= i < frames.len() implies (
                #[trigger] frames[i])@.payload.len() <= target.max_payload_spec() by {
                    assert(views(frames)[i] == frames[i]@);
                }
            }
        }
        r
    }

    /// Split `msg` into frames of at most `mtu` payload bytes.
    ///
    /// # Errors
    /// Returns [`RelayError::PayloadUnfragmentable`] when the payload does not
    /// fit and cannot be split within [`MAX_FRAGMENTS`] slices, because they
    /// would be too many or `msg` already is a slice, or when `mtu` is zero.
    pub fn split_for_mtu(msg: Message, mtu: usize, group_id: u32) -> (r: Result<
        BoundedVec<Message, MAX_FRAGMENTS>,
        RelayError,
    >)
        ensures
            r is Ok <==> split_frames(msg@, mtu as nat, group_id) is Some,
            r is Ok ==> Some(views(r->Ok_0@)) == split_frames(msg@, mtu as nat, group_id),
            r is Ok ==> 1 <= r->Ok_0@.len() <= MAX_FRAGMENTS,
            r is Err ==> r->Err_0 == RelayError::PayloadUnfragmentable,
    {
        if mtu == 0 {
            return Err(RelayError::PayloadUnfragmentable);
        }
        let mut out: BoundedVec<Message, MAX_FRAGMENTS> = BoundedVec::new();
        let len = msg.payload.len();
        let ghost m = msg@;
        if len <= mtu {
            let _ = out.push(msg);
            assert(views(out@) == seq![m]);
            return Ok(out);
        }
        if msg.frag.is_some() {
            return Err(RelayError::PayloadUnfragmentable);
        }
        proof {
            lemma_slice_count(len as nat, mtu as nat);
            lemma_fundamental_div_mod(len as int, mtu as int);
            lemma_ceil(len as nat, mtu as nat);
        }
        let total: usize = if len % mtu == 0 {
            len / mtu
        } else {
            len / mtu + 1
        };
        if total > MAX_FRAGMENTS {
            return Err(RelayError::PayloadUnfragmentable);
        }
        let mut seq: usize = 0;
        let mut start: usize = 0;
        while seq < total
            invariant
                seq <= total,
                total <= MAX_FRAGMENTS,
                0 < mtu < len,
                len == m.payload.len(),
                m == msg@,
                total == slice_count(len as nat, mtu as nat),
                seq < total ==> start == seq * mtu,
                out@.len() == seq,
                forall|i: int|
                    0 <= i < seq ==> (#[trigger] out@[i])@ == slice_of(m, mtu as nat, group_id, i),
            decreases total - seq,
        {
            proof {
                lemma_slice_bounds(len as nat, mtu as nat, seq as int);
            }
            let end: usize = if len - start > mtu {
                start + mtu
            } else {
                len
            };
            let mut payload: BoundedVec<u8, MAX_PAYLOAD> = BoundedVec::new();
            let bytes = vstd::slice::slice_subrange(msg.payload.as_slice(), start, end);
            let _ = payload.extend_from_slice(bytes);
            assert(payload@ == slice_payload(m.payload, mtu as nat, seq as int));
            let frame = Message {
                id: msg.id,
                ttl: msg.ttl,
                origin: msg.origin,
                from: msg.from,
                to: msg.to,
                kind: msg.kind,
                payload,
                frag: Some(Fragment { group_id, seq: seq as u16, total: total as u16 }),
            };
            let _ = out.push(frame);
            start = end;
            seq += 1;
        }
        assert(views(out@) == slices_of(m, mtu as nat, group_id));
        Ok(out)
    }

    /// Build a not-yet-fragmented [`Message`].
    ///
    /// # Errors
    /// Returns [`RelayError::Protocol`] with [`ProtoError::PayloadTooLarge`]
    /// if the payload exceeds what a single message can hold.
    pub fn prepare(
        id: u32,
        ttl: u8,
        origin: Transport,
        from: [u8; 6],
        to: [u8; 6],
        kind: MsgKind,
        payload: &[u8],
    ) -> (r: Result<Message, RelayError>)
        ensures
            r is Ok <==> payload@.len() <= MAX_PAYLOAD,
            r is Ok ==> r->Ok_0@ == (MessageView {
                id,
                ttl,
                origin,
                from,
                to,
                kind,
                payload: payload@,
                frag: None,
            }),
            r is Err ==> r->Err_0 == RelayError::Protocol(ProtoError::PayloadTooLarge),
    {
        match BoundedVec::from_slice(payload) {
            Ok(payload) => Ok(Message { id, ttl, origin, from, to, kind, payload, frag: None }),
            Err(_) => Err(RelayError::Protocol(ProtoError::PayloadTooLarge)),
        }
    }
}

/// Rounding up: one more than the quotient unless the division is exact.
proof fn lemma_ceil(len: nat, mtu: nat)
    requires
        mtu > 0,
        len > 0,
    ensures
        slice_count(len, mtu) == if len % mtu == 0 {
            len / mtu
        } else {
            len / mtu + 1
        },
{
    let q = len as int / (mtu as int);
    let r = len as int % (mtu as int);
    lemma_fundamental_div_mod(len as int, mtu as int);
    if r == 0 {
        assert((len + mtu - 1) / (mtu as int) == q) by (nonlinear_arith)
            requires
                len == mtu * q,
                mtu > 0,
        ;
    } else {
        assert((len + mtu - 1) / (mtu as int) == q + 1) by (nonlinear_arith)
            requires
                len == mtu * q + r,
                0 < r < mtu,
        ;
    }
}

// ---------------------------------------------------------------------------
// Reassembly: what it does
// ---------------------------------------------------------------------------

/// A group of slices that is being collected.
#[verifier::ext_equal]
pub struct Group {
    pub group_id: u32,
    /// Number of slices in the group.
    pub total: u16,
    /// The payloads received so far, by position.
    pub slices: Map<int, Seq<u8>>,
    /// The message under assembly, still without its payload.
    pub template: MessageView,
}

/// What came of a message that was handed to the reassembler.
#[verifier::ext_equal]
pub enum OutcomeView {
    Passthrough(MessageView),
    Buffered,
    Complete(MessageView),
    Dropped(RejectReason),
}

/// The payloads at the first `n` positions, one behind the other.
pub open spec fn joined(slices: Map<int, Seq<u8>>, n: nat) -> Seq<u8>
    decreases n,
{
    if n == 0 {
        Seq::empty()
    } else {
        joined(slices, (n - 1) as nat) + slices[n - 1]
    }
}

impl Group {
    /// A group of which nothing was received yet; `m` is one of its slices.
    pub open spec fn opened(group_id: u32, total: u16, m: MessageView) -> Group {
        Group {
            group_id,
            total,
            slices: Map::empty(),
            template: MessageView { payload: Seq::empty(), frag: None, ..m },
        }
    }

    /// The slices fit the header, and some are still missing.
    pub open spec fn valid(self, per_slot: nat) -> bool {
        &&& 1 <= self.total <= 64
        &&& self.total <= per_slot
        &&& self.slices.dom().subset_of(set_int_range(0, self.total as int))
        &&& self.slices.dom() != set_int_range(0, self.total as int)
        &&& forall|i: int| #[trigger]
            self.slices.contains_key(i) ==> self.slices[i].len() <= MAX_PAYLOAD
        &&& self.template.payload == Seq::<u8>::empty()
        &&& self.template.frag is None
    }

    /// What becomes of the group, and what is reported, when the slice at
    /// position `seq` arrives.
    pub open spec fn accept(self, seq: int, payload: Seq<u8>) -> (Option<Group>, OutcomeView) {
        let slices = self.slices.insert(seq, payload);
        let whole = joined(slices, self.total as nat);
        if self.slices.contains_key(seq) {
            (Some(self), OutcomeView::Dropped(RejectReason::DuplicateSlice))
        } else if slices.dom() != set_int_range(0, self.total as int) {
            (Some(Group { slices, ..self }), OutcomeView::Buffered)
        } else if whole.len() > MAX_PAYLOAD {
            (None, OutcomeView::Dropped(RejectReason::PayloadTooLarge))
        } else {
            (None, OutcomeView::Complete(MessageView { payload: whole, ..self.template }))
        }
    }
}

/// Whether a slot tracks the group with this id and number of slices.
pub open spec fn tracks(group_id: u32, total: u16) -> spec_fn(Option<Group>) -> bool {
    |slot: Option<Group>| slot is Some && slot->0.group_id == group_id && slot->0.total == total
}

/// Whether a slot is free.
pub open spec fn is_free() -> spec_fn(Option<Group>) -> bool {
    |slot: Option<Group>| slot is None
}

/// The slot that a slice belongs into: the one that tracks its group, or else
/// the first free one.
pub open spec fn slot_for(slots: Seq<Option<Group>>, group_id: u32, total: u16) -> Option<int> {
    match first_index(slots, tracks(group_id, total)) {
        Some(i) => Some(i),
        None => first_index(slots, is_free()),
    }
}

/// Whether a fragment header makes sense to a reassembler with room for
/// `per_slot` slices in a group.
pub open spec fn good_header(f: Fragment, per_slot: nat) -> bool {
    0 < f.total <= 64 && f.seq < f.total && f.total <= per_slot
}

/// The slots after a message was handed to the reassembler, and what is
/// reported.
pub open spec fn reassemble(slots: Seq<Option<Group>>, m: MessageView, per_slot: nat) -> (
    Seq<Option<Group>>,
    OutcomeView,
) {
    match m.frag {
        None => (slots, OutcomeView::Passthrough(m)),
        Some(f) => if !good_header(f, per_slot) {
            (slots, OutcomeView::Dropped(RejectReason::BadHeader))
        } else {
            match slot_for(slots, f.group_id, f.total) {
                None => (slots, OutcomeView::Dropped(RejectReason::NoSlot)),
                Some(i) => {
                    let group = match slots[i] {
                        Some(g) => g,
                        None => Group::opened(f.group_id, f.total, m),
                    };
                    let (left, outcome) = group.accept(f.seq as int, m.payload);
                    (slots.update(i, left), outcome)
                },
            }
        },
    }
}

/// How many slots are in use.
pub open spec fn used_slots(slots: Seq<Option<Group>>) -> nat
    decreases slots.len(),
{
    if slots.len() == 0 {
        0
    } else {
        used_slots(slots.drop_last()) + if slots.last() is Some {
            1nat
        } else {
            0
        }
    }
}

/// Whether a slot tracks a group with this id.
pub open spec fn tracks_id(group_id: u32) -> spec_fn(Option<Group>) -> bool {
    |slot: Option<Group>| slot is Some && slot->0.group_id == group_id
}

/// Every group is valid, and no two slots track the same group.
pub open spec fn valid_slots(slots: Seq<Option<Group>>, per_slot: nat) -> bool {
    &&& forall|i: int|
        0 <= i < slots.len() && (#[trigger] slots[i]) is Some ==> slots[i]->0.valid(per_slot)
    &&& forall|i: int, j: int|
        0 <= i < j < slots.len() && (#[trigger] slots[i]) is Some && (#[trigger] slots[j]) is Some
            ==> !(slots[i]->0.group_id == slots[j]->0.group_id && slots[i]->0.total
            == slots[j]->0.total)
}

// ---------------------------------------------------------------------------
// Reassembly: how it is done
// ---------------------------------------------------------------------------

/// The outcome of ingesting a single (possibly fragmented) message.
pub enum ReassembleOutcome {
    /// The message was no slice; it is returned as it came.
    Passthrough(Message),
    /// A slice was buffered; more slices are still needed.
    Buffered,
    /// All slices have been received; the reassembled message is returned.
    Complete(Message),
    /// The slice was rejected (see [`RejectReason`] for why).
    Dropped(RejectReason),
}

impl Clone for ReassembleOutcome {
    fn clone(&self) -> (r: Self)
        ensures
            r@ == self@,
    {
        match self {
            ReassembleOutcome::Passthrough(m) => ReassembleOutcome::Passthrough(m.clone()),
            ReassembleOutcome::Buffered => ReassembleOutcome::Buffered,
            ReassembleOutcome::Complete(m) => ReassembleOutcome::Complete(m.clone()),
            ReassembleOutcome::Dropped(r) => ReassembleOutcome::Dropped(*r),
        }
    }
}

impl PartialEq for ReassembleOutcome {
    fn eq(&self, other: &Self) -> (r: bool) {
        match (self, other) {
            (ReassembleOutcome::Passthrough(a), ReassembleOutcome::Passthrough(b)) => *a == *b,
            (ReassembleOutcome::Buffered, ReassembleOutcome::Buffered) => true,
            (ReassembleOutcome::Complete(a), ReassembleOutcome::Complete(b)) => *a == *b,
            (ReassembleOutcome::Dropped(a), ReassembleOutcome::Dropped(b)) => *a == *b,
            _ => false,
        }
    }
}

impl vstd::std_specs::cmp::PartialEqSpecImpl for ReassembleOutcome {
    open spec fn obeys_eq_spec() -> bool {
        true
    }

    open spec fn eq_spec(&self, other: &Self) -> bool {
        self@ == other@
    }
}

impl Eq for ReassembleOutcome {

}

impl View for ReassembleOutcome {
    type V = OutcomeView;

    open spec fn view(&self) -> OutcomeView {
        match self {
            ReassembleOutcome::Passthrough(m) => OutcomeView::Passthrough(m@),
            ReassembleOutcome::Buffered => OutcomeView::Buffered,
            ReassembleOutcome::Complete(m) => OutcomeView::Complete(m@),
            ReassembleOutcome::Dropped(r) => OutcomeView::Dropped(*r),
        }
    }
}

/// Why a slice was dropped by [`Reassembler::ingest`].
#[derive(Debug, Clone, Copy, PartialEq, Eq, Structural)]
#[non_exhaustive]
pub enum RejectReason {
    /// Not enough free assembly slots to track a new group.
    NoSlot,
    /// The header is inconsistent, or announces more slices than can be kept.
    BadHeader,
    /// The slice at this position is already there.
    DuplicateSlice,
    /// The concatenated payload would exceed [`MAX_PAYLOAD`].
    PayloadTooLarge,
}

/// Fixed-capacity reassembly buffer.
///
/// `SLOTS` is the number of concurrent groups that can be tracked; `PER_SLOT`
/// is the upper bound of slices per group. Its view is the sequence of its
/// slots.
#[verifier::reject_recursive_types(PER_SLOT)]
pub struct Reassembler<const SLOTS: usize, const PER_SLOT: usize> {
    slots: BoundedVec<Slot<PER_SLOT>, SLOTS>,
}

struct Slot<const PER_SLOT: usize> {
    in_use: bool,
    group_id: u32,
    total: u16,
    received: u16,
    seen_mask: u64,
    fragments: BoundedVec<BoundedVec<u8, MAX_PAYLOAD>, PER_SLOT>,
    template: Option<Message>,
}

/// Whether bit `i` is set.
spec fn has_bit(mask: u64, i: int) -> bool {
    mask & (1u64 << (i as u64)) != 0
}

proof fn lemma_no_bits(i: int)
    requires
        0 <= i < 64,
    ensures
        !has_bit(0, i),
{
    let k = i as u64;
    assert(0u64 & (1u64 << k) == 0) by (bit_vector);
}

proof fn lemma_set_bit(mask: u64, k: int, i: int)
    requires
        0 <= i < 64,
        0 <= k < 64,
    ensures
        has_bit(mask | (1u64 << (k as u64)), i) == (i == k || has_bit(mask, i)),
{
    let a = i as u64;
    let b = k as u64;
    assert(((mask | (1u64 << b)) & (1u64 << a) != 0) == (a == b || mask & (1u64 << a) != 0))
        by (bit_vector)
        requires
            a < 64,
            b < 64,
    ;
}

impl<const PER_SLOT: usize> Slot<PER_SLOT> {
    spec fn slices(&self) -> Map<int, Seq<u8>> {
        Map::new(
            |i: int| 0 <= i < self.total && has_bit(self.seen_mask, i),
            |i: int| self.fragments@[i]@,
        )
    }

    spec fn group(&self) -> Option<Group> {
        if self.in_use {
            Some(
                Group {
                    group_id: self.group_id,
                    total: self.total,
                    slices: self.slices(),
                    template: self.template->0@,
                },
            )
        } else {
            None
        }
    }

    spec fn wf(&self) -> bool {
        &&& self.fragments@.len() == PER_SLOT
        &&& forall|i: int| 0 <= i < PER_SLOT ==> (#[trigger] self.fragments@[i])@.len() <= MAX_PAYLOAD
        &&& self.in_use ==> {
            &&& self.template is Some
            &&& self.group()->0.valid(PER_SLOT as nat)
            &&& self.received == self.slices().dom().len()
        }
    }

    fn new() -> (s: Self)
        ensures
            s.wf(),
            s.group() is None,
    {
        let mut fragments: BoundedVec<BoundedVec<u8, MAX_PAYLOAD>, PER_SLOT> = BoundedVec::new();
        let mut i: usize = 0;
        while i < PER_SLOT
            invariant
                i <= PER_SLOT,
                fragments@.len() == i,
                forall|j: int| 0 <= j < i ==> (#[trigger] fragments@[j])@.len() <= MAX_PAYLOAD,
            decreases PER_SLOT - i,
        {
            let _ = fragments.push(BoundedVec::new());
            i += 1;
        }
        Slot {
            in_use: false,
            group_id: 0,
            total: 0,
            received: 0,
            seen_mask: 0,
            fragments,
            template: None,
        }
    }

    /// Back to an unused slot.
    fn reset(&mut self)
        requires
            old(self).fragments@.len() == PER_SLOT,
        ensures
            final(self).wf(),
            final(self).group() is None,
    {
        self.in_use = false;
        self.group_id = 0;
        self.total = 0;
        self.received = 0;
        self.seen_mask = 0;
        let mut i: usize = 0;
        while i < PER_SLOT
            invariant
                i <= PER_SLOT,
                self.fragments@.len() == PER_SLOT,
                !self.in_use,
                forall|j: int| 0 <= j < i ==> (#[trigger] self.fragments@[j])@.len() <= MAX_PAYLOAD,
            decreases PER_SLOT - i,
        {
            self.fragments.get_mut(i).clear();
            i += 1;
        }
        self.template = None;
    }

    /// Start tracking the group of which `msg` is a slice.
    fn claim(&mut self, group_id: u32, total: u16, msg: &Message)
        requires
            old(self).wf(),
            1 <= total <= 64,
            total <= PER_SLOT,
        ensures
            final(self).wf(),
            final(self).group() == Some(Group::opened(group_id, total, msg@)),
    {
        self.in_use = true;
        self.group_id = group_id;
        self.total = total;
        self.received = 0;
        self.seen_mask = 0;
        self.template = Some(
            Message {
                id: msg.id,
                ttl: msg.ttl,
                origin: msg.origin,
                from: msg.from,
                to: msg.to,
                kind: msg.kind,
                payload: BoundedVec::new(),
                frag: None,
            },
        );
        proof {
            assert forall|i: int| 0 <= i < total implies !has_bit(self.seen_mask, i) by {
                lemma_no_bits(i);
            }
            assert(self.slices() =~= Map::empty());
            assert(set_int_range(0, total as int).contains(0));
            assert(self.slices().dom() != set_int_range(0, total as int));
        }
    }

    /// Take in the slice at position `seq` of the group that the slot tracks.
    fn accept(&mut self, seq: u16, msg: &Message) -> (r: ReassembleOutcome)
        requires
            old(self).wf(),
            old(self).in_use,
            seq < old(self).total,
        ensures
            final(self).wf(),
            (final(self).group(), r@) == old(self).group()->0.accept(seq as int, msg@.payload),
    {
        let ghost before = *self;
        let ghost k = seq as int;
        let bit = 1u64 << (seq as u64);
        if self.seen_mask & bit != 0 {
            assert(has_bit(self.seen_mask, k));
            assert(self.slices().contains_key(k));
            return ReassembleOutcome::Dropped(RejectReason::DuplicateSlice);
        }
        assert(!self.slices().contains_key(k));
        let bytes = msg.payload.as_slice();
        let bucket = self.fragments.get_mut(seq as usize);
        bucket.clear();
        assert(bucket@ + bytes@ =~= bytes@);
        if bucket.extend_from_slice(bytes).is_err() {
            self.reset();
            return ReassembleOutcome::Dropped(RejectReason::PayloadTooLarge);
        }
        self.seen_mask = self.seen_mask | bit;
        proof {
            assert forall|i: int| 0 <= i < self.total implies has_bit(self.seen_mask, i) == (i == k
                || has_bit(before.seen_mask, i)) by {
                lemma_set_bit(before.seen_mask, k, i);
            }
            assert(self.slices() =~= before.slices().insert(k, msg@.payload));
            let all = set_int_range(0, self.total as int);
            lemma_int_range(0, self.total as int);
            assert(self.slices().dom().subset_of(all));
            lemma_len_subset(self.slices().dom(), all);
            lemma_len_subset(before.slices().dom(), all);
            if self.slices().dom().len() == all.len() {
                lemma_subset_equality(self.slices().dom(), all);
            }
        }
        self.received += 1;
        if self.received < self.total {
            return ReassembleOutcome::Buffered;
        }
        let mut assembled: BoundedVec<u8, MAX_PAYLOAD> = BoundedVec::new();
        let mut i: u16 = 0;
        let ghost slices = self.slices();
        while i < self.total
            invariant
                i <= self.total,
                self.total <= PER_SLOT,
                self.fragments@.len() == PER_SLOT,
                forall|j: int|
                    0 <= j < self.total ==> (#[trigger] self.fragments@[j])@ == slices[j],
                before == *old(self),
                before.wf(),
                before.in_use,
                self.total == before.total,
                self.template == before.template,
                assembled@ == joined(slices, i as nat),
                assembled@.len() <= MAX_PAYLOAD,
                slices == before.slices().insert(k, msg@.payload),
                k == seq,
                slices.dom() == set_int_range(0, self.total as int),
                !before.slices().contains_key(k),
            decreases self.total - i,
        {
            let part = &self.fragments.as_slice()[i as usize];
            if assembled.extend_from_slice(part.as_slice()).is_err() {
                proof {
                    lemma_joined_grows(slices, (i + 1) as nat, self.total as nat);
                }
                self.reset();
                return ReassembleOutcome::Dropped(RejectReason::PayloadTooLarge);
            }
            i += 1;
        }
        let template = self.template.take();
        self.reset();
        let t = match template {
            Some(t) => t,
            None => msg.clone(),
        };
        ReassembleOutcome::Complete(
            Message {
                id: t.id,
                ttl: t.ttl,
                origin: t.origin,
                from: t.from,
                to: t.to,
                kind: t.kind,
                payload: assembled,
                frag: None,
            },
        )
    }
}

/// Joining more slices gives no fewer bytes.
proof fn lemma_joined_grows(slices: Map<int, Seq<u8>>, few: nat, many: nat)
    requires
        few <= many,
    ensures
        joined(slices, few).len() <= joined(slices, many).len(),
    decreases many,
{
    if few < many {
        lemma_joined_grows(slices, few, (many - 1) as nat);
    }
}

impl<const SLOTS: usize, const PER_SLOT: usize> View for Reassembler<SLOTS, PER_SLOT> {
    type V = Seq<Option<Group>>;

    closed spec fn view(&self) -> Seq<Option<Group>> {
        Seq::new(self.slots@.len(), |i: int| self.slots@[i].group())
    }
}

impl<const SLOTS: usize, const PER_SLOT: usize> Reassembler<SLOTS, PER_SLOT> {
    /// All slots are there and consistent.
    pub closed spec fn wf(&self) -> bool {
        &&& self.slots@.len() == SLOTS
        &&& forall|i: int| 0 <= i < SLOTS ==> (#[trigger] self.slots@[i]).wf()
        &&& valid_slots(self@, PER_SLOT as nat)
    }

    /// What a well-formed reassembler promises of its slots.
    pub proof fn lemma_wf(&self)
        requires
            self.wf(),
        ensures
            self@.len() == SLOTS,
            valid_slots(self@, PER_SLOT as nat),
    {
    }

    /// Create an empty reassembler.
    pub fn new() -> (r: Self)
        ensures
            r.wf(),
            r@ == Seq::new(SLOTS as nat, |i: int| None::<Group>),
    {
        let mut slots: BoundedVec<Slot<PER_SLOT>, SLOTS> = BoundedVec::new();
        let mut i: usize = 0;
        while i < SLOTS
            invariant
                i <= SLOTS,
                slots@.len() == i,
                forall|j: int|
                    0 <= j < i ==> (#[trigger] slots@[j]).wf() && slots@[j].group() is None,
            decreases SLOTS - i,
        {
            let _ = slots.push(Slot::new());
            i += 1;
        }
        let r = Reassembler { slots };
        assert(r@ =~= Seq::new(SLOTS as nat, |i: int| None::<Group>));
        r
    }

    /// Ingest a message. If it is not a slice, returns
    /// [`ReassembleOutcome::Passthrough`]. Otherwise buffers and, when the
    /// group is complete, returns [`ReassembleOutcome::Complete`] with the
    /// reassembled message.
    pub fn ingest(&mut self, msg: Message) -> (r: ReassembleOutcome)
        requires
            old(self).wf(),
        ensures
            final(self).wf(),
            (final(self)@, r@) == reassemble(old(self)@, msg@, PER_SLOT as nat),
    {
        let frag = match msg.frag {
            None => return ReassembleOutcome::Passthrough(msg),
            Some(f) => f,
        };
        if frag.total == 0 || frag.seq >= frag.total || frag.total as usize > PER_SLOT || frag.total
            > 64 {
            return ReassembleOutcome::Dropped(RejectReason::BadHeader);
        }
        let ghost before = self@;
        let idx = match self.find_or_claim(frag.group_id, frag.total, &msg) {
            Some(i) => i,
            None => return ReassembleOutcome::Dropped(RejectReason::NoSlot),
        };
        let ghost claimed = self@;
        let outcome = self.slots.get_mut(idx).accept(frag.seq, &msg);
        proof {
            let (left, _) = claimed[idx as int]->0.accept(frag.seq as int, msg@.payload);
            assert(self@ =~= claimed.update(idx as int, left));
            assert(self@ =~= before.update(idx as int, left));
        }
        outcome
    }

    fn find_or_claim(&mut self, group_id: u32, total: u16, msg: &Message) -> (r: Option<usize>)
        requires
            old(self).wf(),
            1 <= total <= 64,
            total <= PER_SLOT,
        ensures
            final(self).wf(),
            match (slot_for(old(self)@, group_id, total), r) {
                (None, None) => *final(self) == *old(self),
                (Some(i), Some(k)) => i == k && 0 <= i < SLOTS && final(self)@
                    == if old(self)@[i] is Some {
                    old(self)@
                } else {
                    old(self)@.update(i, Some(Group::opened(group_id, total, msg@)))
                } && final(self)@[i] is Some && final(self)@[i]->0.group_id == group_id
                    && final(self)@[i]->0.total == total,
                _ => false,
            },
    {
        let ghost before = self@;
        let mut i: usize = 0;
        while i < SLOTS
            invariant
                i <= SLOTS,
                self.wf(),
                self@ == before,
                *self == *old(self),
                forall|j: int| 0 <= j < i ==> !tracks(group_id, total)(#[trigger] before[j]),
            decreases SLOTS - i,
        {
            let slot = &self.slots.as_slice()[i];
            assert(before[i as int] == slot.group());
            if slot.in_use && slot.group_id == group_id && slot.total == total {
                proof {
                    lemma_first_found(before, tracks(group_id, total), i as int);
                }
                return Some(i);
            }
            i += 1;
        }
        proof {
            lemma_first_absent(before, tracks(group_id, total));
        }
        i = 0;
        while i < SLOTS
            invariant
                i <= SLOTS,
                self.wf(),
                self@ == before,
                *self == *old(self),
                1 <= total <= 64,
                total <= PER_SLOT,
                forall|j: int|
                    0 <= j < SLOTS ==> !tracks(group_id, total)(#[trigger] before[j]),
                first_index(before, tracks(group_id, total)) is None,
                forall|j: int| 0 <= j < i ==> !is_free()(#[trigger] before[j]),
            decreases SLOTS - i,
        {
            assert(before[i as int] == self.slots@[i as int].group());
            if !self.slots.as_slice()[i].in_use {
                self.slots.get_mut(i).claim(group_id, total, msg);
                proof {
                    lemma_first_found(before, is_free(), i as int);
                    let g = Group::opened(group_id, total, msg@);
                    assert(self@ =~= before.update(i as int, Some(g)));
                    assert forall|a: int, b: int|
                        0 <= a < b < SLOTS && (#[trigger] self@[a]) is Some && (
                        #[trigger] self@[b]) is Some implies !(self@[a]->0.group_id
                        == self@[b]->0.group_id && self@[a]->0.total == self@[b]->0.total) by {
                        assert(!tracks(group_id, total)(before[a]));
                        assert(!tracks(group_id, total)(before[b]));
                    }
                }
                return Some(i);
            }
            i += 1;
        }
        proof {
            lemma_first_absent(before, is_free());
        }
        None
    }

    /// Explicitly drop the first group tracked under `group_id`, if any.
    /// Useful for timeout handling driven by an external timer.
    pub fn evict(&mut self, group_id: u32) -> (r: bool)
        requires
            old(self).wf(),
        ensures
            final(self).wf(),
            match first_index(old(self)@, tracks_id(group_id)) {
                Some(i) => r && final(self)@ == old(self)@.update(i, None),
                None => !r && final(self)@ == old(self)@,
            },
    {
        let ghost before = self@;
        let mut i: usize = 0;
        while i < SLOTS
            invariant
                i <= SLOTS,
                self.wf(),
                self@ == before,
                before == old(self)@,
                forall|j: int| 0 <= j < i ==> !tracks_id(group_id)(#[trigger] before[j]),
            decreases SLOTS - i,
        {
            let slot = &self.slots.as_slice()[i];
            assert(before[i as int] == slot.group());
            if slot.in_use && slot.group_id == group_id {
                self.slots.get_mut(i).reset();
                proof {
                    lemma_first_found(before, tracks_id(group_id), i as int);
                    assert(self@ =~= before.update(i as int, None));
                }
                return true;
            }
            i += 1;
        }
        proof {
            lemma_first_absent(before, tracks_id(group_id));
        }
        false
    }

    /// Number of assembly slots currently in use.
    pub fn in_flight(&self) -> (n: usize)
        requires
            self.wf(),
        ensures
            n == used_slots(self@),
            n <= SLOTS,
    {
        let slots = self.slots.as_slice();
        let mut n: usize = 0;
        let mut i: usize = 0;
        while i < slots.len()
            invariant
                i <= slots.len(),
                slots@ == self.slots@,
                slots@.len() == SLOTS,
                n <= i,
                n == used_slots(self@.take(i as int)),
            decreases slots.len() - i,
        {
            assert(self@.take(i + 1).drop_last() =~= self@.take(i as int));
            assert(self@[i as int] == slots@[i as int].group());
            if slots[i].in_use {
                n += 1;
            }
            i += 1;
        }
        assert(self@.take(i as int) =~= self@);
        n
    }
}

impl<const SLOTS: usize, const PER_SLOT: usize> Default for Reassembler<SLOTS, PER_SLOT> {
    fn default() -> (r: Self)
        ensures
            r.wf(),
            r@ == Seq::new(SLOTS as nat, |i: int| None::<Group>),
    {
        Self::new()
    }
}

} // verus!
