//! The first item of a sequence that has a property.

use vstd::prelude::*;

verus! {

/// Whether `i` is the least index whose item has property `p`.
pub open spec fn is_first<A>(s: Seq<A>, p: spec_fn(A) -> bool, i: int) -> bool {
    &&& 0 <= i < s.len()
    &&& p(s[i])
    &&& forall|j: int| 0 <= j < i ==> !p(#[trigger] s[j])
}

/// The least index whose item has property `p`, if any has it.
pub open spec fn first_index<A>(s: Seq<A>, p: spec_fn(A) -> bool) -> Option<int> {
    if exists|i: int| is_first(s, p, i) {
        Some(choose|i: int| is_first(s, p, i))
    } else {
        None
    }
}

/// An index that is the first is the one that [`first_index`] gives.
pub proof fn lemma_first_found<A>(s: Seq<A>, p: spec_fn(A) -> bool, i: int)
    requires
        is_first(s, p, i),
    ensures
        first_index(s, p) == Some(i),
{
    let k = choose|k: int| is_first(s, p, k);
    assert(is_first(s, p, k));
    if k < i {
        assert(!p(s[k]));
    } else if i < k {
        assert(!p(s[i]));
    }
}

/// Without an item that has the property there is no first one.
pub proof fn lemma_first_absent<A>(s: Seq<A>, p: spec_fn(A) -> bool)
    requires
        forall|i: int| 0 <= i < s.len() ==> !p(#[trigger] s[i]),
    ensures
        first_index(s, p) == None::<int>,
{
}

/// Where some item has the property there is a first one.
pub proof fn lemma_first_exists<A>(s: Seq<A>, p: spec_fn(A) -> bool, k: int)
    requires
        0 <= k < s.len(),
        p(s[k]),
    ensures
        first_index(s, p) is Some,
        is_first(s, p, first_index(s, p)->0),
        first_index(s, p)->0 <= k,
    decreases k,
{
    if forall|j: int| 0 <= j < k ==> !p(#[trigger] s[j]) {
        assert(is_first(s, p, k));
        lemma_first_found(s, p, k);
    } else {
        let j = choose|j: int| 0 <= j < k && p(#[trigger] s[j]);
        lemma_first_exists(s, p, j);
    }
}

/// What the search for the first item finds: an item with the property and
/// none before it, or nothing if no item has it.
pub proof fn law_first_index<A>(s: Seq<A>, p: spec_fn(A) -> bool)
    ensures
        match first_index(s, p) {
            Some(i) => 0 <= i < s.len() && p(s[i]) && forall|j: int|
                0 <= j < i ==> !p(#[trigger] s[j]),
            None => forall|j: int| 0 <= j < s.len() ==> !p(#[trigger] s[j]),
        },
{
    match first_index(s, p) {
        Some(i) => {
            assert(is_first(s, p, i));
        },
        None => {
            assert forall|j: int| 0 <= j < s.len() implies !p(#[trigger] s[j]) by {
                if p(s[j]) {
                    lemma_first_exists(s, p, j);
                }
            }
        },
    }
}

} // verus!
