//! The byte format of a frame.
//!
//! A frame is a flat record in the `postcard` format: unsigned integers wider
//! than a byte are written in groups of seven bits, low group first, with the
//! high bit of a byte telling that another group follows; single bytes and
//! byte arrays stand for themselves; a byte string is preceded by its length;
//! an optional part is preceded by `0` or `1`.

use vstd::prelude::*;

verus! {

/// `postcard::Error`. Opaque.
#[verifier::external_type_specification]
#[verifier::external_body]
pub struct ExPostcardError(postcard::Error);

/// The fields of a frame in wire order: id, hop budget, index of the origin
/// transport, source address, destination address, index of the payload kind,
/// payload, and the fragment header if there is one.
pub type Fields<'a> = (u32, u8, u32, [u8; 6], [u8; 6], u32, &'a [u8], Option<(u32, u16, u16)>);

/// What a frame says, field by field.
#[verifier::ext_equal]
pub struct Record {
    pub id: u32,
    pub ttl: u8,
    pub origin: u32,
    pub from: [u8; 6],
    pub to: [u8; 6],
    pub kind: u32,
    pub payload: Seq<u8>,
    pub frag: Option<(u32, u16, u16)>,
}

/// The record that a tuple of fields stands for.
pub open spec fn record_of(f: Fields<'_>) -> Record {
    Record {
        id: f.0,
        ttl: f.1,
        origin: f.2,
        from: f.3,
        to: f.4,
        kind: f.5,
        payload: f.6@,
        frag: f.7,
    }
}

// ---------------------------------------------------------------------------
// Writing
// ---------------------------------------------------------------------------

/// `n` in groups of seven bits, low group first.
pub open spec fn varint(n: nat) -> Seq<u8>
    decreases n,
{
    if n < 128 {
        seq![n as u8]
    } else {
        seq![(n % 128 + 128) as u8] + varint(n / 128)
    }
}

/// The fragment header of a frame.
pub open spec fn frag_bytes(frag: Option<(u32, u16, u16)>) -> Seq<u8> {
    match frag {
        None => seq![0u8],
        Some(h) => seq![1u8] + varint(h.0 as nat) + varint(h.1 as nat) + varint(h.2 as nat),
    }
}

/// The bytes of a frame.
pub open spec fn record_bytes(r: Record) -> Seq<u8> {
    varint(r.id as nat) + seq![r.ttl] + varint(r.origin as nat) + r.from@ + r.to@ + varint(
        r.kind as nat,
    ) + varint(r.payload.len()) + r.payload + frag_bytes(r.frag)
}

// ---------------------------------------------------------------------------
// Reading
// ---------------------------------------------------------------------------

/// Reads seven-bit groups from the front of `b`, at most `groups` of them:
/// the number they make and what follows them.
pub open spec fn take_groups(b: Seq<u8>, groups: nat) -> Option<(nat, Seq<u8>)>
    decreases groups,
{
    if groups == 0 || b.len() == 0 {
        None
    } else if b[0] < 128 {
        Some((b[0] as nat, b.skip(1)))
    } else {
        match take_groups(b.skip(1), (groups - 1) as nat) {
            None => None,
            Some((high, rest)) => Some(((b[0] - 128 + 128 * high) as nat, rest)),
        }
    }
}

/// Reads a number of at most `bits` bits and `max` from the front of `b`.
pub open spec fn take_varint(b: Seq<u8>, bits: nat, max: nat) -> Option<(nat, Seq<u8>)> {
    match take_groups(b, (bits + 6) / 7) {
        None => None,
        Some((n, rest)) => if n <= max {
            Some((n, rest))
        } else {
            None
        },
    }
}

/// Splits `n` bytes off the front of `b`.
pub open spec fn take_bytes(b: Seq<u8>, n: nat) -> Option<(Seq<u8>, Seq<u8>)> {
    if n <= b.len() {
        Some((b.take(n as int), b.skip(n as int)))
    } else {
        None
    }
}

/// The address made of six bytes.
pub open spec fn addr_of(s: Seq<u8>) -> [u8; 6] {
    [s[0], s[1], s[2], s[3], s[4], s[5]]
}

/// Reads a fragment header; what follows it is of no interest.
pub open spec fn take_frag(b: Seq<u8>) -> Option<Option<(u32, u16, u16)>> {
    if b.len() == 0 {
        None
    } else if b[0] == 0 {
        Some(None)
    } else if b[0] == 1 {
        match take_varint(b.skip(1), 32, u32::MAX as nat) {
            None => None,
            Some((group, b1)) => match take_varint(b1, 16, u16::MAX as nat) {
                None => None,
                Some((seq, b2)) => match take_varint(b2, 16, u16::MAX as nat) {
                    None => None,
                    Some((total, _)) => Some(Some((group as u32, seq as u16, total as u16))),
                },
            },
        }
    } else {
        None
    }
}

/// The part of a frame from its payload on.
pub open spec fn take_tail(b: Seq<u8>) -> Option<(Seq<u8>, Option<(u32, u16, u16)>)> {
    match take_varint(b, usize::BITS as nat, usize::MAX as nat) {
        None => None,
        Some((len, b1)) => match take_bytes(b1, len) {
            None => None,
            Some((payload, b2)) => match take_frag(b2) {
                None => None,
                Some(frag) => Some((payload, frag)),
            },
        },
    }
}

/// The front of a frame: id, hop budget and origin.
pub open spec fn take_head(b: Seq<u8>) -> Option<((u32, u8, u32), Seq<u8>)> {
    match take_varint(b, 32, u32::MAX as nat) {
        None => None,
        Some((id, b1)) => match take_bytes(b1, 1) {
            None => None,
            Some((ttl, b2)) => match take_varint(b2, 32, u32::MAX as nat) {
                None => None,
                Some((origin, b3)) => Some(((id as u32, ttl[0], origin as u32), b3)),
            },
        },
    }
}

/// The middle of a frame: source, destination and kind.
pub open spec fn take_route(b: Seq<u8>) -> Option<(([u8; 6], [u8; 6], u32), Seq<u8>)> {
    match take_bytes(b, 6) {
        None => None,
        Some((from, b1)) => match take_bytes(b1, 6) {
            None => None,
            Some((to, b2)) => match take_varint(b2, 32, u32::MAX as nat) {
                None => None,
                Some((kind, b3)) => Some(((addr_of(from), addr_of(to), kind as u32), b3)),
            },
        },
    }
}

/// The record that the bytes of a frame hold, if they hold one. Bytes behind
/// the record are ignored.
pub open spec fn parse_record(b: Seq<u8>) -> Option<Record> {
    match take_head(b) {
        None => None,
        Some((head, b1)) => match take_route(b1) {
            None => None,
            Some((route, b2)) => match take_tail(b2) {
                None => None,
                Some((payload, frag)) => Some(
                    Record {
                        id: head.0,
                        ttl: head.1,
                        origin: head.2,
                        from: route.0,
                        to: route.1,
                        kind: route.2,
                        payload,
                        frag,
                    },
                ),
            },
        },
    }
}

// ---------------------------------------------------------------------------
// The calls into postcard
// ---------------------------------------------------------------------------

/// Whether a buffer went from `before` to `after` by writing a front part of
/// `bytes`, or all of them, to its front.
pub open spec fn partly_written(before: Seq<u8>, after: Seq<u8>, bytes: Seq<u8>) -> bool {
    exists|k: int|
        0 <= k <= before.len() && k <= bytes.len() && after == #[trigger] bytes.take(k)
            + before.skip(k)
}

/// Calls `postcard::to_slice` on a tuple of fields: the frame's bytes are
/// written to the front of `buf` and that front is handed back, or the call
/// fails because they do not fit; then some of them may have been written.
#[verifier::external_body]
pub(crate) fn to_slice<'a>(fields: &Fields<'_>, buf: &'a mut [u8]) -> (r: Result<
    &'a mut [u8],
    postcard::Error,
>)
    ensures
        r is Ok <==> record_bytes(record_of(*fields)).len() <= old(buf)@.len(),
        r is Ok ==> r->Ok_0@ == record_bytes(record_of(*fields)),
        r is Ok ==> final(buf)@ == final(r->Ok_0)@ + old(buf)@.skip(
            record_bytes(record_of(*fields)).len() as int,
        ),
        r is Err ==> partly_written(old(buf)@, final(buf)@, record_bytes(record_of(*fields))),
        final(buf)@.len() == old(buf)@.len(),
{
    postcard::to_slice(fields, buf)
}

/// Calls `postcard::from_bytes` for a tuple of fields: the record at the front
/// of `bytes`, or an error when there is none.
#[verifier::external_body]
pub(crate) fn from_bytes<'a>(bytes: &'a [u8]) -> (r: Result<Fields<'a>, postcard::Error>)
    ensures
        r is Ok <==> parse_record(bytes@) is Some,
        r is Ok ==> record_of(r->Ok_0) == parse_record(bytes@)->0,
{
    postcard::from_bytes(bytes)
}

// ---------------------------------------------------------------------------
// Reading back what was written
// ---------------------------------------------------------------------------

/// How many numbers `groups` seven-bit groups can tell apart.
pub open spec fn group_range(groups: nat) -> nat
    decreases groups,
{
    if groups == 0 {
        1
    } else {
        128 * group_range((groups - 1) as nat)
    }
}

proof fn lemma_group_range_grows(few: nat, many: nat)
    requires
        few <= many,
    ensures
        group_range(few) <= group_range(many),
    decreases many,
{
    if few < many {
        lemma_group_range_grows(few, (many - 1) as nat);
    }
}

/// A number is read back from its groups, with what follows it untouched.
pub proof fn lemma_groups_round_trip(n: nat, groups: nat, rest: Seq<u8>)
    requires
        groups > 0,
        n < group_range(groups),
    ensures
        take_groups(varint(n) + rest, groups) == Some((n, rest)),
    decreases groups,
{
    let b = varint(n) + rest;
    if n < 128 {
        assert(b.skip(1) == rest);
    } else {
        if groups == 1 {
            reveal_with_fuel(group_range, 2);
        }
        let low = (n % 128 + 128) as u8;
        assert(b.skip(1) == varint(n / 128) + rest);
        lemma_groups_round_trip(n / 128, (groups - 1) as nat, rest);
        assert(b[0] == low);
    }
}

/// A number of at most `max` is read back as it was written, with what
/// follows it untouched.
pub proof fn lemma_varint_round_trip(n: nat, bits: nat, max: nat, rest: Seq<u8>)
    requires
        n <= max,
        bits > 0,
        max < group_range((bits + 6) / 7),
    ensures
        take_varint(varint(n) + rest, bits, max) == Some((n, rest)),
{
    lemma_groups_round_trip(n, (bits + 6) / 7, rest);
}

proof fn lemma_take_bytes(front: Seq<u8>, rest: Seq<u8>)
    ensures
        take_bytes(front + rest, front.len()) == Some((front, rest)),
{
    assert((front + rest).take(front.len() as int) == front);
    assert((front + rest).skip(front.len() as int) == rest);
}

/// How far the numbers reach that the format uses.
pub proof fn lemma_group_ranges()
    ensures
        group_range(5) == 0x8_0000_0000,
        group_range(4) == 0x1000_0000,
        group_range(3) == 0x20_0000,
        200 < group_range((usize::BITS as nat + 6) / 7),
{
    reveal_with_fuel(group_range, 6);
    lemma_group_range_grows(2, (usize::BITS as nat + 6) / 7);
}

proof fn lemma_frag_round_trip(frag: Option<(u32, u16, u16)>)
    ensures
        take_frag(frag_bytes(frag)) == Some(frag),
{
    if let Some(h) = frag {
        lemma_group_ranges();
        let total = varint(h.2 as nat);
        let seq = varint(h.1 as nat) + total;
        assert(frag_bytes(frag).skip(1) == varint(h.0 as nat) + seq);
        assert(total == total + Seq::<u8>::empty());
        lemma_varint_round_trip(h.0 as nat, 32, u32::MAX as nat, seq);
        lemma_varint_round_trip(h.1 as nat, 16, u16::MAX as nat, total);
        lemma_varint_round_trip(h.2 as nat, 16, u16::MAX as nat, Seq::empty());
    }
}

proof fn lemma_tail_round_trip(payload: Seq<u8>, frag: Option<(u32, u16, u16)>)
    requires
        payload.len() <= 200,
    ensures
        take_tail(varint(payload.len()) + (payload + frag_bytes(frag))) == Some((payload, frag)),
{
    lemma_group_ranges();
    lemma_groups_round_trip(
        payload.len(),
        (usize::BITS as nat + 6) / 7,
        payload + frag_bytes(frag),
    );
    lemma_take_bytes(payload, frag_bytes(frag));
    lemma_frag_round_trip(frag);
}

proof fn lemma_head_round_trip(id: u32, ttl: u8, origin: u32, rest: Seq<u8>)
    ensures
        take_head(varint(id as nat) + (seq![ttl] + (varint(origin as nat) + rest))) == Some(
            ((id, ttl, origin), rest),
        ),
{
    lemma_group_ranges();
    let b2 = varint(origin as nat) + rest;
    lemma_varint_round_trip(id as nat, 32, u32::MAX as nat, seq![ttl] + b2);
    lemma_take_bytes(seq![ttl], b2);
    lemma_varint_round_trip(origin as nat, 32, u32::MAX as nat, rest);
}

proof fn lemma_route_round_trip(from: [u8; 6], to: [u8; 6], kind: u32, rest: Seq<u8>)
    ensures
        take_route(from@ + (to@ + (varint(kind as nat) + rest))) == Some(((from, to, kind), rest)),
{
    lemma_group_ranges();
    let b2 = varint(kind as nat) + rest;
    lemma_take_bytes(from@, to@ + b2);
    lemma_take_bytes(to@, b2);
    lemma_varint_round_trip(kind as nat, 32, u32::MAX as nat, rest);
    assert(addr_of(from@) =~= from);
    assert(addr_of(to@) =~= to);
}

/// Parts one behind the other, grouped from the right.
proof fn lemma_nested(a: Seq<u8>, b: Seq<u8>, c: Seq<u8>, rest: Seq<u8>)
    ensures
        a + b + c + rest == a + (b + (c + rest)),
{
}

/// A record is read back from the bytes of its frame.
pub proof fn lemma_record_round_trip(r: Record)
    requires
        r.payload.len() <= 200,
    ensures
        parse_record(record_bytes(r)) == Some(r),
{
    let (a, b, c) = (varint(r.id as nat), seq![r.ttl], varint(r.origin as nat));
    let (d, e, f) = (r.from@, r.to@, varint(r.kind as nat));
    let (g, h, i) = (varint(r.payload.len()), r.payload, frag_bytes(r.frag));
    lemma_nested(a + b + c + d + e + f, g, h, i);
    lemma_nested(a + b + c, d, e, f);
    lemma_nested(a, b, c, d + (e + f));
    let tail = g + (h + i);
    let route = d + (e + (f + tail));
    assert(record_bytes(r) == a + (b + (c + route)));
    lemma_head_round_trip(r.id, r.ttl, r.origin, route);
    lemma_route_round_trip(r.from, r.to, r.kind, tail);
    lemma_tail_round_trip(r.payload, r.frag);
}

// ---------------------------------------------------------------------------
// How long a frame gets
// ---------------------------------------------------------------------------

proof fn lemma_varint_len(n: nat, groups: nat)
    requires
        groups > 0,
        n < group_range(groups),
    ensures
        0 < varint(n).len() <= groups,
    decreases groups,
{
    if n >= 128 {
        if groups == 1 {
            reveal_with_fuel(group_range, 2);
        }
        lemma_varint_len(n / 128, (groups - 1) as nat);
    }
}

/// A frame takes at most 35 bytes beside its payload.
pub proof fn lemma_record_len(r: Record)
    requires
        r.payload.len() <= 200,
        r.origin < 128,
        r.kind < 128,
    ensures
        record_bytes(r).len() <= 35 + r.payload.len(),
{
    lemma_group_ranges();
    reveal_with_fuel(group_range, 3);
    lemma_varint_len(r.id as nat, 5);
    lemma_varint_len(r.payload.len(), 2);
    if let Some(h) = r.frag {
        lemma_varint_len(h.0 as nat, 5);
        lemma_varint_len(h.1 as nat, 3);
        lemma_varint_len(h.2 as nat, 3);
    }
}

} // verus!
