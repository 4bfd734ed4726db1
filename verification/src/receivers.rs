//! Receiver tracking: which peers are reachable on which transports.
//!
//! To send a unicast to a node, the relay consults the [`ReceiverTable`] to
//! decide which transports to fan out on. Entries can be added explicitly
//! ([`ReceiverTable::add`]) or learned from the arrival transport of incoming
//! frames ([`ReceiverTable::learn`]).

use crate::bounded::BoundedVec;
use crate::error::RelayError;
use crate::proto::{addr_eq, Transport};
use crate::search::{first_index, is_first, lemma_first_absent, lemma_first_exists, lemma_first_found};
use vstd::prelude::*;

verus! {

/// Number of transports tracked per receiver.
pub const MAX_TRANSPORTS: usize = 3;

/// What a row of the table says: a peer and where it was observed.
#[verifier::ext_equal]
pub struct Row {
    pub addr: [u8; 6],
    pub via: Set<Transport>,
}

/// The transports of a set, in the order of [`Transport::ALL`].
pub open spec fn listed(via: Set<Transport>) -> Seq<Transport> {
    let lora = if via.contains(Transport::Lora) {
        seq![Transport::Lora]
    } else {
        Seq::empty()
    };
    let mqtt = if via.contains(Transport::Mqtt) {
        seq![Transport::Mqtt]
    } else {
        Seq::empty()
    };
    let espnow = if via.contains(Transport::EspNow) {
        seq![Transport::EspNow]
    } else {
        Seq::empty()
    };
    lora + mqtt + espnow
}

/// Whether a row is about a peer.
pub open spec fn is_about(addr: [u8; 6]) -> spec_fn(Row) -> bool {
    |row: Row| row.addr == addr
}

/// The position of the row about a peer.
pub open spec fn row_of(rows: Seq<Row>, addr: [u8; 6]) -> Option<int> {
    first_index(rows, is_about(addr))
}

/// Where a peer was observed; nowhere if it is unknown.
pub open spec fn via_of(rows: Seq<Row>, addr: [u8; 6]) -> Set<Transport> {
    match row_of(rows, addr) {
        Some(i) => rows[i].via,
        None => Set::empty(),
    }
}

/// No peer has two rows, and none has an empty one.
pub open spec fn valid_rows(rows: Seq<Row>) -> bool {
    &&& forall|i: int, j: int|
        0 <= i < j < rows.len() ==> (#[trigger] rows[i]).addr != (#[trigger] rows[j]).addr
    &&& forall|i: int|
        0 <= i < rows.len() ==> (#[trigger] rows[i]).via != Set::<Transport>::empty()
}

/// `rows` without row `i`, whose place the last row takes.
pub open spec fn without_row(rows: Seq<Row>, i: int) -> Seq<Row> {
    rows.update(i, rows.last()).drop_last()
}

/// The table after a peer was observed on a transport, or nothing if it has
/// no room for a new row.
pub open spec fn with_observation(
    rows: Seq<Row>,
    addr: [u8; 6],
    t: Transport,
    capacity: nat,
) -> Option<Seq<Row>> {
    match row_of(rows, addr) {
        Some(i) => Some(rows.update(i, Row { addr, via: rows[i].via.insert(t) })),
        None => if rows.len() < capacity {
            Some(rows.push(Row { addr, via: Set::empty().insert(t) }))
        } else {
            None
        },
    }
}

/// The table after a peer was lost on a transport.
pub open spec fn without_observation(rows: Seq<Row>, addr: [u8; 6], t: Transport) -> Seq<Row> {
    match row_of(rows, addr) {
        Some(i) => if rows[i].via.remove(t) == Set::<Transport>::empty() {
            without_row(rows, i)
        } else {
            rows.update(i, Row { addr, via: rows[i].via.remove(t) })
        },
        None => rows,
    }
}

/// The table after a peer was removed.
pub open spec fn without_peer(rows: Seq<Row>, addr: [u8; 6]) -> Seq<Row> {
    match row_of(rows, addr) {
        Some(i) => without_row(rows, i),
        None => rows,
    }
}

// ---------------------------------------------------------------------------
// Rows
// ---------------------------------------------------------------------------

#[derive(Debug, Clone, Copy, PartialEq, Eq)]
struct TransportBitmap(u8);

proof fn lemma_bits(b: u8, x: u8, y: u8)
    by (bit_vector)
    requires
        x == 1 || x == 2 || x == 4,
        y == 1 || y == 2 || y == 4,
    ensures
        ((b | x) & y != 0) == (x == y || b & y != 0),
        ((b & !x) & y != 0) == (x != y && b & y != 0),
        b < 8 ==> (b | x) < 8 && (b & !x) < 8,
        b < 8 ==> ((b == 0) == (b & 1 == 0 && b & 2 == 0 && b & 4 == 0)),
        0u8 & x == 0,
{
}

impl TransportBitmap {
    spec fn bit_spec(t: Transport) -> u8 {
        match t {
            Transport::Lora => 1,
            Transport::Mqtt => 2,
            Transport::EspNow => 4,
        }
    }

    spec fn set(self) -> Set<Transport> {
        Set::new(|t: Transport| self.0 & Self::bit_spec(t) != 0)
    }

    spec fn wf(self) -> bool {
        self.0 < 8
    }

    fn bit(t: Transport) -> (b: u8)
        ensures
            b == Self::bit_spec(t),
    {
        match t {
            Transport::Lora => 1,
            Transport::Mqtt => 2,
            Transport::EspNow => 4,
        }
    }

    fn empty() -> (b: Self)
        ensures
            b.wf(),
            b.set() == Set::<Transport>::empty(),
    {
        let b = TransportBitmap(0);
        proof {
            assert forall|t: Transport| !b.set().contains(t) by {
                lemma_bits(0, Self::bit_spec(t), 1);
            }
            assert(b.set() =~= Set::empty());
        }
        b
    }

    fn insert(&mut self, t: Transport) -> (new: bool)
        requires
            old(self).wf(),
        ensures
            final(self).wf(),
            final(self).set() == old(self).set().insert(t),
            new == !old(self).set().contains(t),
    {
        let ghost before = *self;
        let b = Self::bit(t);
        let was = self.0 & b != 0;
        self.0 = self.0 | b;
        proof {
            assert forall|u: Transport| self.set().contains(u) == before.set().insert(t).contains(
                u,
            ) by {
                lemma_bits(before.0, b, Self::bit_spec(u));
            }
            lemma_bits(before.0, b, 1);
            assert(self.set() =~= before.set().insert(t));
        }
        !was
    }

    fn remove(&mut self, t: Transport) -> (was: bool)
        requires
            old(self).wf(),
        ensures
            final(self).wf(),
            final(self).set() == old(self).set().remove(t),
            was == old(self).set().contains(t),
    {
        let ghost before = *self;
        let b = Self::bit(t);
        let was = self.0 & b != 0;
        self.0 = self.0 & !b;
        proof {
            assert forall|u: Transport| self.set().contains(u) == before.set().remove(t).contains(
                u,
            ) by {
                lemma_bits(before.0, b, Self::bit_spec(u));
            }
            lemma_bits(before.0, b, 1);
            assert(self.set() =~= before.set().remove(t));
        }
        was
    }

    fn contains(self, t: Transport) -> (r: bool)
        ensures
            r == self.set().contains(t),
    {
        self.0 & Self::bit(t) != 0
    }

    fn is_empty(self) -> (r: bool)
        requires
            self.wf(),
        ensures
            r == (self.set() == Set::<Transport>::empty()),
    {
        proof {
            lemma_bits(self.0, 1, 1);
            if self.0 == 0 {
                assert(self.set() =~= Set::empty());
            } else {
                assert(self.set().contains(Transport::Lora) || self.set().contains(Transport::Mqtt)
                    || self.set().contains(Transport::EspNow));
            }
        }
        self.0 == 0
    }

    /// The transports in the bitmap, in the order of [`Transport::ALL`].
    fn list(self) -> (out: BoundedVec<Transport, MAX_TRANSPORTS>)
        ensures
            out@ == listed(self.set()),
    {
        let mut out: BoundedVec<Transport, MAX_TRANSPORTS> = BoundedVec::new();
        if self.contains(Transport::Lora) {
            let _ = out.push(Transport::Lora);
        }
        if self.contains(Transport::Mqtt) {
            let _ = out.push(Transport::Mqtt);
        }
        if self.contains(Transport::EspNow) {
            let _ = out.push(Transport::EspNow);
        }
        assert(out@ =~= listed(self.set()));
        out
    }
}

/// A single row of the [`ReceiverTable`].
#[derive(Debug, Clone, Copy, PartialEq, Eq)]
pub struct Receiver {
    /// 6-byte node address (MAC-like).
    pub addr: [u8; 6],
    /// Bitmap of transports on which this peer is reachable.
    transports: TransportBitmap,
}

impl View for Receiver {
    type V = Row;

    closed spec fn view(&self) -> Row {
        Row { addr: self.addr, via: self.transports.set() }
    }
}

impl Receiver {
    /// The transports this receiver is reachable on, in the order of
    /// [`Transport::ALL`].
    pub fn transports(&self) -> (out: BoundedVec<Transport, MAX_TRANSPORTS>)
        ensures
            out@ == listed(self@.via),
    {
        self.transports.list()
    }

    /// Returns `true` if this receiver has been observed on `t`.
    pub fn reachable_via(&self, t: Transport) -> (r: bool)
        ensures
            r == self@.via.contains(t),
    {
        self.transports.contains(t)
    }
}

// ---------------------------------------------------------------------------
// The table
// ---------------------------------------------------------------------------

/// Fixed-capacity table mapping node addresses to the set of transports they
/// have been observed on.
///
/// `N` is the maximum number of tracked peers. Its view is the sequence of its
/// rows.
pub struct ReceiverTable<const N: usize> {
    entries: BoundedVec<Receiver, N>,
}

impl<const N: usize> View for ReceiverTable<N> {
    type V = Seq<Row>;

    closed spec fn view(&self) -> Seq<Row> {
        Seq::new(self.entries@.len(), |i: int| self.entries@[i]@)
    }
}

impl<const N: usize> ReceiverTable<N> {
    /// At most `N` rows; no peer twice; no row without a transport.
    pub closed spec fn wf(&self) -> bool {
        &&& self.entries@.len() <= N
        &&& forall|i: int| 0 <= i < self.entries@.len() ==> (#[trigger] self.entries@[i]).transports.wf()
        &&& valid_rows(self@)
    }

    /// What a well-formed table promises of its rows.
    pub proof fn lemma_wf(&self)
        requires
            self.wf(),
        ensures
            self@.len() <= N,
            valid_rows(self@),
    {
    }

    /// Create an empty table.
    pub fn new() -> (t: Self)
        ensures
            t.wf(),
            t@ == Seq::<Row>::empty(),
    {
        let t = ReceiverTable { entries: BoundedVec::new() };
        assert(t@ =~= Seq::empty());
        t
    }

    /// Number of tracked peers.
    pub fn len(&self) -> (n: usize)
        ensures
            n == self@.len(),
    {
        self.entries.len()
    }

    /// Returns `true` when no peers are tracked.
    pub fn is_empty(&self) -> (b: bool)
        ensures
            b == (self@.len() == 0),
    {
        self.entries.is_empty()
    }

    /// All tracked receivers.
    pub fn iter(&self) -> (rows: &[Receiver])
        ensures
            Seq::new(rows@.len(), |i: int| rows@[i]@) == self@,
    {
        self.entries.as_slice()
    }

    /// The position of the row about `addr`.
    fn position(&self, addr: [u8; 6]) -> (r: Option<usize>)
        requires
            self.wf(),
        ensures
            match (row_of(self@, addr), r) {
                (Some(i), Some(k)) => i == k && 0 <= i < self.entries@.len() && self@[i].addr
                    == addr,
                (None, None) => true,
                _ => false,
            },
    {
        let rows = self.entries.as_slice();
        let mut i: usize = 0;
        while i < rows.len()
            invariant
                i <= rows.len(),
                rows@ == self.entries@,
                forall|j: int| 0 <= j < i ==> !is_about(addr)(#[trigger] self@[j]),
            decreases rows.len() - i,
        {
            assert(self@[i as int].addr == rows@[i as int].addr);
            if addr_eq(&rows[i].addr, &addr) {
                proof {
                    lemma_first_found(self@, is_about(addr), i as int);
                }
                return Some(i);
            }
            i += 1;
        }
        proof {
            lemma_first_absent(self@, is_about(addr));
        }
        None
    }

    /// Look up the row for `addr`.
    pub fn lookup(&self, addr: [u8; 6]) -> (r: Option<&Receiver>)
        requires
            self.wf(),
        ensures
            match (row_of(self@, addr), r) {
                (Some(i), Some(row)) => row@ == self@[i] && row@.addr == addr,
                (None, None) => true,
                _ => false,
            },
    {
        match self.position(addr) {
            Some(i) => Some(&self.entries.as_slice()[i]),
            None => None,
        }
    }

    /// Record that `addr` is reachable via `t`, creating a new row if needed.
    ///
    /// Returns `Ok(true)` if `t` was newly added (for either an existing or a
    /// new row), `Ok(false)` if `t` was already known for this address.
    ///
    /// # Errors
    /// Returns [`RelayError::ReceiverTableFull`] if the address is new and the
    /// table is at capacity.
    pub fn add(&mut self, addr: [u8; 6], t: Transport) -> (r: Result<bool, RelayError>)
        requires
            old(self).wf(),
        ensures
            final(self).wf(),
            match with_observation(old(self)@, addr, t, N as nat) {
                Some(rows) => r is Ok && final(self)@ == rows && r->Ok_0 == !via_of(
                    old(self)@,
                    addr,
                ).contains(t),
                None => r is Err && r->Err_0 == RelayError::ReceiverTableFull && final(self)@ == old(
                    self,
                )@,
            },
    {
        let ghost before = self@;
        if let Some(i) = self.position(addr) {
            let new = self.entries.get_mut(i).transports.insert(t);
            proof {
                let after = before.update(
                    i as int,
                    Row { addr, via: before[i as int].via.insert(t) },
                );
                assert(self@ =~= after);
                assert(before[i as int].via.insert(t).contains(t));
            }
            return Ok(new);
        }
        let mut bitmap = TransportBitmap::empty();
        let _ = bitmap.insert(t);
        let row = Receiver { addr, transports: bitmap };
        match self.entries.push(row) {
            Ok(()) => {
                proof {
                    assert(self@ =~= before.push(row@));
                    assert(row@.via.contains(t));
                    assert forall|j: int| 0 <= j < before.len() implies (#[trigger] before[j]).addr
                        != addr by {
                        if before[j].addr == addr {
                            lemma_first_exists(before, is_about(addr), j);
                        }
                    }
                }
                Ok(true)
            },
            Err(_) => {
                assert(self@ =~= before);
                Err(RelayError::ReceiverTableFull)
            },
        }
    }

    /// Learn from an inbound frame. Like [`Self::add`], but a full table only
    /// means that nothing new is learned.
    pub fn learn(&mut self, addr: [u8; 6], t: Transport) -> (r: bool)
        requires
            old(self).wf(),
        ensures
            final(self).wf(),
            match with_observation(old(self)@, addr, t, N as nat) {
                Some(rows) => final(self)@ == rows && r == !via_of(old(self)@, addr).contains(t),
                None => !r && final(self)@ == old(self)@,
            },
    {
        match self.add(addr, t) {
            Ok(new) => new,
            Err(_) => false,
        }
    }

    /// Drop row `i`, whose place the last row takes.
    fn drop_row(&mut self, i: usize)
        requires
            old(self).entries@.len() <= N,
            i < old(self).entries@.len(),
            forall|k: int| 0 <= k < old(self).entries@.len() ==> (#[trigger] old(self).entries@[k]).transports.wf(),
            forall|a: int, b: int|
                0 <= a < b < old(self)@.len() ==> (#[trigger] old(self)@[a]).addr != (#[trigger] old(
                    self,
                )@[b]).addr,
            forall|k: int|
                0 <= k < old(self)@.len() && k != i ==> (#[trigger] old(self)@[k]).via != Set::<
                    Transport,
                >::empty(),
        ensures
            final(self).wf(),
            final(self)@ == without_row(old(self)@, i as int),
    {
        let ghost before = self@;
        let _ = self.entries.swap_remove(i);
        assert(self@ =~= without_row(before, i as int));
    }

    /// Remove `t` from the row for `addr`. If the row becomes empty, it is
    /// dropped entirely. Returns `true` if a change was made.
    pub fn remove_transport(&mut self, addr: [u8; 6], t: Transport) -> (r: bool)
        requires
            old(self).wf(),
        ensures
            final(self).wf(),
            final(self)@ == without_observation(old(self)@, addr, t),
            r == via_of(old(self)@, addr).contains(t),
    {
        let ghost before = self@;
        let i = match self.position(addr) {
            Some(i) => i,
            None => return false,
        };
        let row = self.entries.get_mut(i);
        let changed = row.transports.remove(t);
        let now_empty = row.transports.is_empty();
        let ghost left = Row { addr, via: before[i as int].via.remove(t) };
        assert(self@ =~= before.update(i as int, left));
        if now_empty {
            self.drop_row(i);
            assert(self@ =~= without_row(before, i as int));
        }
        changed
    }

    /// Remove every trace of `addr` from the table. Returns `true` if the
    /// entry existed.
    pub fn remove(&mut self, addr: [u8; 6]) -> (r: bool)
        requires
            old(self).wf(),
        ensures
            final(self).wf(),
            final(self)@ == without_peer(old(self)@, addr),
            r == (row_of(old(self)@, addr) is Some),
    {
        if let Some(i) = self.position(addr) {
            self.drop_row(i);
            return true;
        }
        false
    }

    /// Clear the whole table.
    pub fn clear(&mut self)
        ensures
            final(self).wf(),
            final(self)@ == Seq::<Row>::empty(),
    {
        self.entries.clear();
        assert(self@ =~= Seq::empty());
    }

    /// The transports on which `addr` was observed, in the order of
    /// [`Transport::ALL`]. Returns `None` if `addr` is unknown.
    pub fn transports_for(&self, addr: [u8; 6]) -> (r: Option<BoundedVec<Transport, MAX_TRANSPORTS>>)
        requires
            self.wf(),
        ensures
            r is Some <==> row_of(self@, addr) is Some,
            r is Some ==> r->0@ == listed(via_of(self@, addr)) && r->0@.len() > 0,
    {
        match self.lookup(addr) {
            Some(row) => {
                let out = row.transports();
                proof {
                    let i = row_of(self@, addr)->0;
                    assert(is_first(self@, is_about(addr), i));
                    law_listed(row@.via);
                    assert(row@.via =~= Set::empty() || exists|t: Transport| row@.via.contains(t));
                }
                Some(out)
            },
            None => None,
        }
    }
}

impl<const N: usize> Default for ReceiverTable<N> {
    fn default() -> (t: Self)
        ensures
            t.wf(),
            t@ == Seq::<Row>::empty(),
    {
        Self::new()
    }
}

// ---------------------------------------------------------------------------
// Laws
// ---------------------------------------------------------------------------

/// The list of a set of transports holds each of them exactly once, in the
/// order of [`Transport::ALL`].
pub proof fn law_listed(via: Set<Transport>)
    ensures
        forall|t: Transport| #[trigger] listed(via).contains(t) <==> via.contains(t),
        listed(via).len() <= MAX_TRANSPORTS,
        forall|i: int, j: int|
            0 <= i < j < listed(via).len() ==> (#[trigger] listed(via)[i]).index_spec() < (
            #[trigger] listed(via)[j]).index_spec(),
{
    let l = listed(via);
    assert forall|t: Transport| #[trigger] l.contains(t) <==> via.contains(t) by {
        let a = if via.contains(Transport::Lora) {
            1int
        } else {
            0
        };
        let b = if via.contains(Transport::Mqtt) {
            1int
        } else {
            0
        };
        if via.contains(t) {
            match t {
                Transport::Lora => assert(l[0] == t),
                Transport::Mqtt => assert(l[a] == t),
                Transport::EspNow => assert(l[a + b] == t),
            }
        }
    }
}

/// What the table knows of a peer is what the row about it says.
proof fn lemma_via_of_row(rows: Seq<Row>, i: int)
    requires
        valid_rows(rows),
        0 <= i < rows.len(),
    ensures
        row_of(rows, rows[i].addr) == Some(i),
        via_of(rows, rows[i].addr) == rows[i].via,
{
    assert(is_first(rows, is_about(rows[i].addr), i));
    lemma_first_found(rows, is_about(rows[i].addr), i);
}

/// Without a row about it, a peer is unknown.
proof fn lemma_no_row(rows: Seq<Row>, addr: [u8; 6])
    requires
        forall|i: int| 0 <= i < rows.len() ==> (#[trigger] rows[i]).addr != addr,
    ensures
        row_of(rows, addr) is None,
        via_of(rows, addr) == Set::<Transport>::empty(),
{
    lemma_first_absent(rows, is_about(addr));
}

/// A peer is known exactly if it was observed somewhere.
pub proof fn law_known_peers_are_reachable(rows: Seq<Row>, addr: [u8; 6])
    requires
        valid_rows(rows),
    ensures
        row_of(rows, addr) is Some <==> via_of(rows, addr) != Set::<Transport>::empty(),
{
    if let Some(i) = row_of(rows, addr) {
        assert(is_first(rows, is_about(addr), i));
    }
}

/// After an observation the peer is known on that transport and on those
/// where it was known before; nothing changes for any other peer.
pub proof fn law_observation(
    rows: Seq<Row>,
    addr: [u8; 6],
    t: Transport,
    capacity: nat,
    other: [u8; 6],
)
    requires
        valid_rows(rows),
        with_observation(rows, addr, t, capacity) is Some,
    ensures
        ({
            let after = with_observation(rows, addr, t, capacity)->0;
            &&& valid_rows(after)
            &&& via_of(after, addr) == via_of(rows, addr).insert(t)
            &&& other != addr ==> via_of(after, other) == via_of(rows, other)
            &&& via_of(rows, addr).contains(t) ==> after == rows
        }),
{
    let after = with_observation(rows, addr, t, capacity)->0;
    match row_of(rows, addr) {
        Some(i) => {
            assert(is_first(rows, is_about(addr), i));
            assert(rows[i].via.insert(t).contains(t));
            assert(valid_rows(after));
            lemma_via_of_row(after, i);
            if rows[i].via.contains(t) {
                assert(rows[i].via.insert(t) =~= rows[i].via);
                assert(after =~= rows);
            }
        },
        None => {
            assert forall|j: int| 0 <= j < rows.len() implies (#[trigger] rows[j]).addr != addr by {
                if rows[j].addr == addr {
                    lemma_first_exists(rows, is_about(addr), j);
                }
            }
            assert(after.last().via.contains(t));
            assert(valid_rows(after));
            lemma_via_of_row(after, after.len() - 1);
        },
    }
    if other != addr {
        assert forall|k: int| 0 <= k < rows.len() && (#[trigger] rows[k]).addr == other implies exists|
            j: int,
        | 0 <= j < after.len() && #[trigger] after[j] == rows[k] by {
            assert(after[k] == rows[k]);
        }
        lemma_other_peer(rows, after, other);
    }
}

/// If two tables hold the same row about a peer, or none, they know the same
/// of it.
proof fn lemma_other_peer(rows: Seq<Row>, after: Seq<Row>, addr: [u8; 6])
    requires
        valid_rows(rows),
        valid_rows(after),
        forall|i: int|
            0 <= i < rows.len() && (#[trigger] rows[i]).addr == addr ==> exists|j: int|
                0 <= j < after.len() && #[trigger] after[j] == rows[i],
        forall|j: int|
            0 <= j < after.len() && (#[trigger] after[j]).addr == addr ==> exists|i: int|
                0 <= i < rows.len() && #[trigger] rows[i] == after[j],
    ensures
        via_of(after, addr) == via_of(rows, addr),
{
    if exists|i: int| 0 <= i < rows.len() && (#[trigger] rows[i]).addr == addr {
        let i = choose|i: int| 0 <= i < rows.len() && (#[trigger] rows[i]).addr == addr;
        let j = choose|j: int| 0 <= j < after.len() && #[trigger] after[j] == rows[i];
        lemma_via_of_row(rows, i);
        lemma_via_of_row(after, j);
    } else {
        lemma_no_row(rows, addr);
        assert forall|j: int| 0 <= j < after.len() implies (#[trigger] after[j]).addr != addr by {
            if after[j].addr == addr {
                let i = choose|i: int| 0 <= i < rows.len() && #[trigger] rows[i] == after[j];
                assert(rows[i].addr == addr);
            }
        }
        lemma_no_row(after, addr);
    }
}

/// Dropping a row forgets its peer and nobody else.
proof fn lemma_without_row(rows: Seq<Row>, i: int, other: [u8; 6])
    requires
        valid_rows(rows),
        0 <= i < rows.len(),
    ensures
        valid_rows(without_row(rows, i)),
        row_of(without_row(rows, i), rows[i].addr) is None,
        via_of(without_row(rows, i), rows[i].addr) == Set::<Transport>::empty(),
        other != rows[i].addr ==> via_of(without_row(rows, i), other) == via_of(rows, other),
{
    let after = without_row(rows, i);
    assert(valid_rows(after));
    lemma_no_row(after, rows[i].addr);
    if other != rows[i].addr {
        assert forall|k: int| 0 <= k < rows.len() && (#[trigger] rows[k]).addr == other implies exists|
            j: int,
        | 0 <= j < after.len() && #[trigger] after[j] == rows[k] by {
            let j = if k == rows.len() - 1 {
                i
            } else {
                k
            };
            assert(after[j] == rows[k]);
        }
        assert forall|j: int|
            0 <= j < after.len() && (#[trigger] after[j]).addr == other implies exists|k: int|
            0 <= k < rows.len() && #[trigger] rows[k] == after[j] by {
            let k = if j == i {
                rows.len() - 1
            } else {
                j
            };
            assert(rows[k] == after[j]);
        }
        lemma_other_peer(rows, after, other);
    }
}

/// After a peer was lost on a transport it is known on the others only, and
/// not at all if there are none; nothing changes for any other peer.
pub proof fn law_lost_transport(rows: Seq<Row>, addr: [u8; 6], t: Transport, other: [u8; 6])
    requires
        valid_rows(rows),
    ensures
        valid_rows(without_observation(rows, addr, t)),
        via_of(without_observation(rows, addr, t), addr) == via_of(rows, addr).remove(t),
        other != addr ==> via_of(without_observation(rows, addr, t), other) == via_of(rows, other),
{
    let after = without_observation(rows, addr, t);
    match row_of(rows, addr) {
        Some(i) => {
            assert(is_first(rows, is_about(addr), i));
            if rows[i].via.remove(t) == Set::<Transport>::empty() {
                lemma_without_row(rows, i, other);
            } else {
                assert(valid_rows(after));
                lemma_via_of_row(after, i);
                if other != addr {
                    assert forall|k: int|
                        0 <= k < rows.len() && (#[trigger] rows[k]).addr == other implies exists|
                        j: int,
                    | 0 <= j < after.len() && #[trigger] after[j] == rows[k] by {
                        assert(after[k] == rows[k]);
                    }
                    lemma_other_peer(rows, after, other);
                }
            }
        },
        None => {
            assert(Set::<Transport>::empty().remove(t) =~= Set::empty());
        },
    }
}

/// A removed peer is unknown; nothing changes for any other peer.
pub proof fn law_removed_peer(rows: Seq<Row>, addr: [u8; 6], other: [u8; 6])
    requires
        valid_rows(rows),
    ensures
        valid_rows(without_peer(rows, addr)),
        row_of(without_peer(rows, addr), addr) is None,
        other != addr ==> via_of(without_peer(rows, addr), other) == via_of(rows, other),
{
    if let Some(i) = row_of(rows, addr) {
        assert(is_first(rows, is_about(addr), i));
        lemma_without_row(rows, i, other);
    }
}

/// A peer has a row exactly if some row is about it, and the row that is found
/// is about that peer.
pub proof fn law_row_of(rows: Seq<Row>, addr: [u8; 6])
    ensures
        row_of(rows, addr) is Some <==> exists|i: int|
            0 <= i < rows.len() && (#[trigger] rows[i]).addr == addr,
        row_of(rows, addr) matches Some(i) ==> 0 <= i < rows.len() && rows[i].addr == addr
            && via_of(rows, addr) == rows[i].via,
        row_of(rows, addr) is None ==> forall|t: Transport| !via_of(rows, addr).contains(t),
{
    if let Some(i) = row_of(rows, addr) {
        assert(is_first(rows, is_about(addr), i));
        assert(rows[i].addr == addr);
    }
    if exists|i: int| 0 <= i < rows.len() && (#[trigger] rows[i]).addr == addr {
        let i = choose|i: int| 0 <= i < rows.len() && (#[trigger] rows[i]).addr == addr;
        lemma_first_exists(rows, is_about(addr), i);
    }
}

/// An observation fails exactly if the peer is unknown and the table is full.
/// It adds a row for a peer that was unknown and none for any other.
pub proof fn law_observation_needs_room(
    rows: Seq<Row>,
    addr: [u8; 6],
    t: Transport,
    capacity: nat,
)
    ensures
        with_observation(rows, addr, t, capacity) is None <==> rows.len() >= capacity && forall|
            i: int,
        |
            0 <= i < rows.len() ==> (#[trigger] rows[i]).addr != addr,
        with_observation(rows, addr, t, capacity) matches Some(after) ==> after.len()
            == rows.len() + if row_of(rows, addr) is None {
            1int
        } else {
            0
        },
{
    law_row_of(rows, addr);
}

/// Losing a transport on which the peer was not known changes nothing. Losing
/// any other drops the row of the peer exactly if that was the only one;
/// removing a peer drops its row.
pub proof fn law_dropped_rows(rows: Seq<Row>, addr: [u8; 6], t: Transport)
    requires
        valid_rows(rows),
    ensures
        !via_of(rows, addr).contains(t) ==> without_observation(rows, addr, t) == rows,
        via_of(rows, addr).contains(t) ==> without_observation(rows, addr, t).len() == rows.len()
            - if forall|u: Transport| via_of(rows, addr).contains(u) ==> u == t {
            1int
        } else {
            0
        },
        without_peer(rows, addr).len() == rows.len() - if row_of(rows, addr) is Some {
            1int
        } else {
            0
        },
{
    law_row_of(rows, addr);
    if let Some(i) = row_of(rows, addr) {
        let left = rows[i].via.remove(t);
        if left == Set::<Transport>::empty() {
            assert forall|u: Transport| rows[i].via.contains(u) implies u == t by {
                if u != t {
                    assert(left.contains(u));
                }
            }
            if !rows[i].via.contains(t) {
                assert(rows[i].via =~= Set::empty());
            }
        } else {
            if forall|u: Transport| rows[i].via.contains(u) ==> u == t {
                assert(left =~= Set::empty());
            }
            if !rows[i].via.contains(t) {
                assert(left =~= rows[i].via);
                assert(rows.update(i, Row { addr, via: left }) =~= rows);
            }
        }
    }
}

/// Rows stay where they are when a peer is observed, and a new one comes last.
/// When a row is dropped, the last one takes its place.
pub proof fn law_row_order(rows: Seq<Row>, addr: [u8; 6], t: Transport, capacity: nat, k: int)
    requires
        0 <= k < rows.len(),
    ensures
        with_observation(rows, addr, t, capacity) matches Some(after) ==> {
            &&& after[k].addr == rows[k].addr
            &&& row_of(rows, addr) is None ==> after[k] == rows[k] && after.last().addr == addr
        },
        row_of(rows, addr) matches Some(i) ==> k < rows.len() - 1 ==> without_peer(rows, addr)[k]
            == if k == i {
            rows.last()
        } else {
            rows[k]
        },
{
    law_row_of(rows, addr);
}

} // verus!
