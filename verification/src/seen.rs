//! Loop prevention: a ring of recently-seen message ids.

use vstd::arithmetic::div_mod::{lemma_mod_self_0, lemma_small_mod};
use vstd::prelude::*;

verus! {

/// Fixed-capacity ring cache of recently-seen message ids for loop prevention.
///
/// A simple overwriting ring without allocation. Its view is the sequence of
/// remembered ids, oldest first.
pub struct SeenCache<const N: usize> {
    ids: [u32; N],
    /// `true` for slots that hold a valid id.
    valid: [bool; N],
    next: usize,
}

/// `ids` with `id` added at the end, and the oldest dropped if that makes more
/// than `capacity`.
pub open spec fn remember(ids: Seq<u32>, id: u32, capacity: nat) -> Seq<u32> {
    let all = ids.push(id);
    if all.len() > capacity {
        all.drop_first()
    } else {
        all
    }
}

/// `ids` after each of `more` was recorded in turn.
pub open spec fn remember_all(ids: Seq<u32>, more: Seq<u32>, capacity: nat) -> Seq<u32>
    decreases more.len(),
{
    if more.len() == 0 {
        ids
    } else {
        remember(remember_all(ids, more.drop_last(), capacity), more.last(), capacity)
    }
}

impl<const N: usize> View for SeenCache<N> {
    type V = Seq<u32>;

    closed spec fn view(&self) -> Seq<u32> {
        if N > 0 && self.valid@[N - 1] {
            self.ids@.skip(self.next as int) + self.ids@.take(self.next as int)
        } else {
            self.ids@.take(self.next as int)
        }
    }
}

impl<const N: usize> SeenCache<N> {
    /// Slots fill from the front; `next` is the slot to write, and once the
    /// last slot is filled all of them are.
    pub closed spec fn wf(&self) -> bool {
        &&& self.next <= N
        &&& N > 0 ==> self.next < N
        &&& forall|i: int|
            0 <= i < N ==> #[trigger] self.valid@[i] == (i < self.next || self.valid@[N - 1])
    }

    /// A well-formed cache holds at most `N` ids.
    pub proof fn lemma_wf(&self)
        requires
            self.wf(),
        ensures
            self@.len() <= N,
    {
    }

    /// An empty cache.
    pub fn new() -> (c: Self)
        ensures
            c.wf(),
            c@ == Seq::<u32>::empty(),
    {
        SeenCache { ids: [0; N], valid: [false; N], next: 0 }
    }

    /// Returns `true` if `id` is already present in the cache.
    pub fn contains(&self, id: u32) -> (b: bool)
        requires
            self.wf(),
        ensures
            b == self@.contains(id),
    {
        let mut i: usize = 0;
        while i < N
            invariant
                i <= N,
                self.wf(),
                forall|j: int| 0 <= j < i ==> !(self.valid@[j] && self.ids@[j] == id),
            decreases N - i,
        {
            if self.valid[i] && self.ids[i] == id {
                proof {
                    if self.valid@[N - 1] {
                        let k = if i >= self.next {
                            i - self.next
                        } else {
                            i - self.next + N
                        };
                        assert(self@[k] == id);
                    } else {
                        assert(self@[i as int] == id);
                    }
                }
                return true;
            }
            i += 1;
        }
        assert forall|k: int| 0 <= k < self@.len() implies self@[k] != id by {
            if N > 0 && self.valid@[N - 1] {
                let j = if k < N - self.next {
                    self.next + k
                } else {
                    k - (N - self.next)
                };
                assert(self.valid@[j]);
            }
        }
        false
    }

    /// Record `id`, evicting the oldest entry if the cache is full.
    pub fn insert(&mut self, id: u32)
        requires
            old(self).wf(),
            N > 0,
        ensures
            final(self).wf(),
            final(self)@ == remember(old(self)@, id, N as nat),
    {
        let ghost before = *self;
        self.ids[self.next] = id;
        self.valid[self.next] = true;
        self.next = (self.next + 1) % N;
        proof {
            if before.next + 1 < N {
                lemma_small_mod((before.next + 1) as nat, N as nat);
            } else {
                lemma_mod_self_0(N as int);
            }
            assert(self@ =~= remember(before@, id, N as nat));
        }
    }

    /// Combined check and record. Returns `true` if the id is new (not seen
    /// before), `false` if it was a duplicate. New ids are recorded.
    pub fn check_and_insert(&mut self, id: u32) -> (b: bool)
        requires
            old(self).wf(),
            N > 0,
        ensures
            final(self).wf(),
            b == !old(self)@.contains(id),
            b ==> final(self)@ == remember(old(self)@, id, N as nat),
            !b ==> *final(self) == *old(self),
    {
        if self.contains(id) {
            false
        } else {
            self.insert(id);
            true
        }
    }
}

impl<const N: usize> Default for SeenCache<N> {
    fn default() -> (c: Self)
        ensures
            c.wf(),
            c@ == Seq::<u32>::empty(),
    {
        Self::new()
    }
}

/// The cache holds exactly the most recent ids, at most `capacity` of them.
pub proof fn law_remembers_most_recent(ids: Seq<u32>, more: Seq<u32>, capacity: nat)
    requires
        capacity > 0,
        ids.len() <= capacity,
    ensures
        ({
            let all = ids + more;
            let kept = remember_all(ids, more, capacity);
            if all.len() <= capacity {
                kept == all
            } else {
                kept == all.skip(all.len() - capacity)
            }
        }),
    decreases more.len(),
{
    if more.len() > 0 {
        law_remembers_most_recent(ids, more.drop_last(), capacity);
        let all = ids + more;
        let kept = remember_all(ids, more, capacity);
        assert(all == (ids + more.drop_last()).push(more.last()));
        if all.len() <= capacity {
            assert(kept =~= all);
        } else {
            assert(kept =~= all.skip(all.len() - capacity));
        }
    } else {
        assert(ids + more =~= ids);
    }
}

/// An id that was just recorded is still known after fewer than `capacity`
/// further ids were recorded.
pub proof fn law_recent_id_is_known(ids: Seq<u32>, id: u32, later: Seq<u32>, capacity: nat)
    requires
        capacity > 0,
        ids.len() <= capacity,
        later.len() < capacity,
    ensures
        remember_all(remember(ids, id, capacity), later, capacity).contains(id),
{
    let start = remember(ids, id, capacity);
    law_remembers_most_recent(start, later, capacity);
    let all = start + later;
    let kept = remember_all(start, later, capacity);
    assert(all[start.len() - 1] == id);
    if all.len() <= capacity {
        assert(kept[start.len() - 1] == id);
    } else {
        assert(kept[start.len() - 1 - (all.len() - capacity)] == id);
    }
}

/// Once `capacity` other ids were recorded after it, an id is forgotten.
pub proof fn law_old_id_is_forgotten(ids: Seq<u32>, id: u32, later: Seq<u32>, capacity: nat)
    requires
        capacity > 0,
        ids.len() <= capacity,
        later.len() >= capacity,
        !later.contains(id),
    ensures
        !remember_all(ids, later, capacity).contains(id),
{
    law_remembers_most_recent(ids, later, capacity);
    let all = ids + later;
    let kept = remember_all(ids, later, capacity);
    if kept.contains(id) {
        let k = choose|k: int| 0 <= k < kept.len() && kept[k] == id;
        if all.len() <= capacity {
            assert(later[k - ids.len()] == id);
        } else {
            assert(later[k + (all.len() - capacity) - ids.len()] == id);
        }
    }
}

} // verus!
