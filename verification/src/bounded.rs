//! Fixed-capacity collections: vectors, strings and queues that never allocate.
//!
//! Each type pairs a collection of the `heapless` crate with a ghost model of
//! what it holds. Both fields are private to this module, and the only code
//! that touches them is the short methods marked `external_body` below; their
//! contracts are what the rest of the library knows of `heapless`. Everything
//! else in this file is proved from those contracts.

use vstd::prelude::*;
use vstd::utf8::encode_utf8;

verus! {

// ---------------------------------------------------------------------------
// Vectors
// ---------------------------------------------------------------------------

/// `heapless::Vec`, a vector with room for `N` items. Opaque.
#[verifier::external_type_specification]
#[verifier::external_body]
#[verifier::reject_recursive_types(T)]
pub struct ExHeaplessVec<T, const N: usize>(heapless::Vec<T, N>);

/// A vector of at most `N` items. Its view is the sequence of its items.
#[verifier::reject_recursive_types(T)]
pub struct BoundedVec<T, const N: usize> {
    inner: heapless::Vec<T, N>,
    items: Ghost<Seq<T>>,
}

impl<T, const N: usize> View for BoundedVec<T, N> {
    type V = Seq<T>;

    closed spec fn view(&self) -> Seq<T> {
        self.items@
    }
}

impl<T, const N: usize> BoundedVec<T, N> {
    /// No more items than the capacity.
    #[verifier::type_invariant]
    pub closed spec fn fits(&self) -> bool {
        self.items@.len() <= N
    }

    /// Calls `heapless::Vec::new`: the new vector is empty.
    #[verifier::external_body]
    pub(crate) fn new() -> (v: Self)
        ensures
            v@ == Seq::<T>::empty(),
    {
        BoundedVec { inner: heapless::Vec::new(), items: Ghost(Seq::empty()) }
    }

    /// Calls `heapless::Vec::push`: the item goes to the end, or comes back
    /// when the vector is full, which then stays as it was.
    #[verifier::external_body]
    pub(crate) fn push(&mut self, item: T) -> (r: Result<(), T>)
        ensures
            r is Ok <==> old(self)@.len() < N,
            r is Ok ==> final(self)@ == old(self)@.push(item),
            r is Err ==> r->Err_0 == item && final(self)@ == old(self)@,
    {
        self.inner.push(item)
    }

    /// Calls `heapless::Vec::as_slice`: the items, in order.
    #[verifier::external_body]
    pub(crate) fn contents(&self) -> (s: &[T])
        ensures
            s@ == self@,
    {
        self.inner.as_slice()
    }

    /// Calls `heapless::Vec::as_mut_slice` and hands out one item of the
    /// slice to be changed in place.
    #[verifier::external_body]
    pub(crate) fn get_mut(&mut self, index: usize) -> (item: &mut T)
        requires
            index < old(self)@.len(),
        ensures
            *item == old(self)@[index as int],
            final(self)@ == old(self)@.update(index as int, *final(item)),
    {
        &mut self.inner.as_mut_slice()[index]
    }

    /// Calls `heapless::Vec::swap_remove`: the item at `index` is handed out
    /// and the last item takes its place.
    #[verifier::external_body]
    pub(crate) fn swap_remove(&mut self, index: usize) -> (item: T)
        requires
            index < old(self)@.len(),
        ensures
            item == old(self)@[index as int],
            final(self)@ == old(self)@.update(index as int, old(self)@.last()).drop_last(),
    {
        self.inner.swap_remove(index)
    }

    /// Calls `heapless::Vec::clear`: no items are left.
    #[verifier::external_body]
    pub(crate) fn clear(&mut self)
        ensures
            final(self)@ == Seq::<T>::empty(),
    {
        self.inner.clear()
    }

    /// The items as a slice.
    pub fn as_slice(&self) -> (s: &[T])
        ensures
            s@ == self@,
            s@.len() <= N,
    {
        proof {
            use_type_invariant(self);
        }
        self.contents()
    }

    /// Number of items.
    pub fn len(&self) -> (n: usize)
        ensures
            n == self@.len(),
            n <= N,
    {
        proof {
            use_type_invariant(self);
        }
        self.contents().len()
    }

    /// Whether there are no items.
    pub fn is_empty(&self) -> (b: bool)
        ensures
            b == (self@.len() == 0),
    {
        self.contents().len() == 0
    }
}

impl<const N: usize> BoundedVec<u8, N> {
    /// Calls `heapless::Vec::from_slice`: a vector of exactly these bytes,
    /// or an error when they are more than the capacity.
    #[verifier::external_body]
    pub(crate) fn from_slice(bytes: &[u8]) -> (r: Result<Self, ()>)
        ensures
            r is Ok <==> bytes@.len() <= N,
            r is Ok ==> r->Ok_0@ == bytes@,
    {
        let inner = heapless::Vec::from_slice(bytes)?;
        Ok(BoundedVec { inner, items: Ghost(bytes@) })
    }

    /// Calls `heapless::Vec::extend_from_slice`: all the bytes are appended,
    /// or none of them when they do not all fit.
    #[verifier::external_body]
    pub(crate) fn extend_from_slice(&mut self, bytes: &[u8]) -> (r: Result<(), ()>)
        ensures
            r is Ok <==> old(self)@.len() + bytes@.len() <= N,
            r is Ok ==> final(self)@ == old(self)@ + bytes@,
            r is Err ==> final(self)@ == old(self)@,
    {
        self.inner.extend_from_slice(bytes)
    }
}

impl<const N: usize> Clone for BoundedVec<u8, N> {
    fn clone(&self) -> (r: Self)
        ensures
            r@ == self@,
    {
        match BoundedVec::from_slice(self.as_slice()) {
            Ok(v) => v,
            Err(_) => BoundedVec::new(),
        }
    }
}

/// Whether two byte slices hold the same bytes.
pub(crate) fn bytes_eq(a: &[u8], b: &[u8]) -> (r: bool)
    ensures
        r == (a@ == b@),
{
    if a.len() != b.len() {
        return false;
    }
    let mut i: usize = 0;
    while i < a.len()
        invariant
            i <= a.len(),
            a@.len() == b@.len(),
            a@.take(i as int) == b@.take(i as int),
        decreases a.len() - i,
    {
        if a[i] != b[i] {
            return false;
        }
        assert(a@.take(i + 1) == a@.take(i as int).push(a@[i as int]));
        assert(b@.take(i + 1) == b@.take(i as int).push(b@[i as int]));
        i += 1;
    }
    assert(a@.take(i as int) == a@ && b@.take(i as int) == b@);
    true
}

impl<const N: usize> PartialEq for BoundedVec<u8, N> {
    fn eq(&self, other: &Self) -> (r: bool) {
        bytes_eq(self.contents(), other.contents())
    }
}

impl<const N: usize> vstd::std_specs::cmp::PartialEqSpecImpl for BoundedVec<u8, N> {
    open spec fn obeys_eq_spec() -> bool {
        true
    }

    open spec fn eq_spec(&self, other: &Self) -> bool {
        self@ == other@
    }
}

impl<const N: usize> Eq for BoundedVec<u8, N> {

}

// ---------------------------------------------------------------------------
// Strings
// ---------------------------------------------------------------------------

/// `heapless::String`, a string with room for `N` bytes of UTF-8. Opaque.
#[verifier::external_type_specification]
#[verifier::external_body]
pub struct ExHeaplessString<const N: usize>(heapless::String<N>);

/// A string of at most `N` bytes of UTF-8. Its view is the sequence of its
/// characters.
pub struct BoundedString<const N: usize> {
    inner: heapless::String<N>,
    text: Ghost<Seq<char>>,
}

impl<const N: usize> View for BoundedString<N> {
    type V = Seq<char>;

    closed spec fn view(&self) -> Seq<char> {
        self.text@
    }
}

/// Whether `text` takes at most `capacity` bytes as UTF-8.
pub open spec fn text_fits(text: Seq<char>, capacity: nat) -> bool {
    encode_utf8(text).len() <= capacity
}

impl<const N: usize> BoundedString<N> {
    /// No more bytes than the capacity.
    #[verifier::type_invariant]
    pub closed spec fn fits(&self) -> bool {
        text_fits(self.text@, N as nat)
    }

    /// Calls `heapless::String::new`: the new string is empty.
    #[verifier::external_body]
    pub(crate) fn new() -> (s: Self)
        ensures
            s@ == Seq::<char>::empty(),
    {
        BoundedString { inner: heapless::String::new(), text: Ghost(Seq::empty()) }
    }

    /// Calls `heapless::String::push`: the character is appended when its
    /// bytes still fit; otherwise the string stays as it was.
    #[verifier::external_body]
    pub(crate) fn push(&mut self, c: char) -> (r: Result<(), ()>)
        ensures
            r is Ok <==> text_fits(old(self)@.push(c), N as nat),
            r is Ok ==> final(self)@ == old(self)@.push(c),
            r is Err ==> final(self)@ == old(self)@,
    {
        self.inner.push(c)
    }

    /// Calls `heapless::String::push_str`: the text is appended when all its
    /// bytes still fit; otherwise the string stays as it was.
    #[verifier::external_body]
    pub(crate) fn push_str(&mut self, s: &str) -> (r: Result<(), ()>)
        ensures
            r is Ok <==> text_fits(old(self)@ + s@, N as nat),
            r is Ok ==> final(self)@ == old(self)@ + s@,
            r is Err ==> final(self)@ == old(self)@,
    {
        self.inner.push_str(s)
    }

    /// Calls `heapless::String::pop`: the last character is removed and
    /// handed out, if there is one.
    #[verifier::external_body]
    pub(crate) fn pop(&mut self) -> (r: Option<char>)
        ensures
            r is Some <==> old(self)@.len() > 0,
            r is Some ==> r->0 == old(self)@.last() && final(self)@ == old(self)@.drop_last(),
            r is None ==> final(self)@ == old(self)@,
    {
        self.inner.pop()
    }

    /// Calls `heapless::String::clear`: no characters are left.
    #[verifier::external_body]
    pub(crate) fn clear(&mut self)
        ensures
            final(self)@ == Seq::<char>::empty(),
    {
        self.inner.clear()
    }

    /// Calls `heapless::String::as_str`: the characters, in order.
    #[verifier::external_body]
    pub(crate) fn contents(&self) -> (s: &str)
        ensures
            s@ == self@,
    {
        self.inner.as_str()
    }

    /// The characters as a string slice.
    pub fn as_str(&self) -> (s: &str)
        ensures
            s@ == self@,
            text_fits(s@, N as nat),
    {
        proof {
            use_type_invariant(self);
        }
        self.contents()
    }

    /// Whether there are no characters.
    pub fn is_empty(&self) -> (b: bool)
        ensures
            b == (self@.len() == 0),
    {
        self.contents().is_empty()
    }
}

impl<const N: usize> Clone for BoundedString<N> {
    fn clone(&self) -> (r: Self)
        ensures
            r@ == self@,
    {
        let mut copy = BoundedString::new();
        let text = self.as_str();
        assert(Seq::<char>::empty() + text@ == text@);
        let _ = copy.push_str(text);
        copy
    }
}

// ---------------------------------------------------------------------------
// Queues
// ---------------------------------------------------------------------------

/// `heapless::Deque`, a double-ended queue with room for `N` items. Opaque.
#[verifier::external_type_specification]
#[verifier::external_body]
#[verifier::reject_recursive_types(T)]
pub struct ExHeaplessDeque<T, const N: usize>(heapless::Deque<T, N>);

/// A queue of at most `N` items. Its view is the sequence of its items, front
/// first.
#[verifier::reject_recursive_types(T)]
pub struct BoundedDeque<T, const N: usize> {
    inner: heapless::Deque<T, N>,
    items: Ghost<Seq<T>>,
}

impl<T, const N: usize> View for BoundedDeque<T, N> {
    type V = Seq<T>;

    closed spec fn view(&self) -> Seq<T> {
        self.items@
    }
}

impl<T, const N: usize> BoundedDeque<T, N> {
    /// No more items than the capacity.
    #[verifier::type_invariant]
    pub closed spec fn fits(&self) -> bool {
        self.items@.len() <= N
    }

    /// Calls `heapless::Deque::new`: the new queue is empty. A queue without
    /// room for anything cannot be built.
    #[verifier::external_body]
    pub(crate) fn new() -> (q: Self)
        requires
            N > 0,
        ensures
            q@ == Seq::<T>::empty(),
    {
        BoundedDeque { inner: heapless::Deque::new(), items: Ghost(Seq::empty()) }
    }

    /// Calls `heapless::Deque::is_full`.
    #[verifier::external_body]
    pub(crate) fn is_full(&self) -> (b: bool)
        ensures
            b == (self@.len() == N),
    {
        self.inner.is_full()
    }

    /// Calls `heapless::Deque::pop_front`: the front item is removed and
    /// handed out, if there is one.
    #[verifier::external_body]
    pub(crate) fn pop_front(&mut self) -> (r: Option<T>)
        ensures
            r is Some <==> old(self)@.len() > 0,
            r is Some ==> r->0 == old(self)@.first() && final(self)@ == old(self)@.drop_first(),
            r is None ==> final(self)@ == old(self)@,
    {
        self.inner.pop_front()
    }

    /// Calls `heapless::Deque::push_back`: the item goes to the back, or
    /// comes back when the queue is full, which then stays as it was.
    #[verifier::external_body]
    pub(crate) fn push_back(&mut self, item: T) -> (r: Result<(), T>)
        ensures
            r is Ok <==> old(self)@.len() < N,
            r is Ok ==> final(self)@ == old(self)@.push(item),
            r is Err ==> r->Err_0 == item && final(self)@ == old(self)@,
    {
        self.inner.push_back(item)
    }

    /// Calls `heapless::Deque::as_slices`: two slices that hold the items in
    /// order, one after the other.
    #[verifier::external_body]
    pub(crate) fn as_slices(&self) -> (r: (&[T], &[T]))
        ensures
            r.0@ + r.1@ == self@,
    {
        self.inner.as_slices()
    }
}

} // verus!
