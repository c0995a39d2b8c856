//! A law of the nested notation: in a store where no doublet contains itself
//! the depth to which the notation is expanded cuts nothing off.

use crate::link::Link;
use crate::link_storage::StoreState;
use vstd::prelude::*;

verus! {

/// `rank` shows that no doublet contains itself: each side of a doublet that
/// refers to another doublet refers to one of lower rank.
pub open spec fn ranks(store: StoreState, rank: spec_fn(u32) -> nat) -> bool {
    forall|k: u32| #[trigger]
        store.links.contains_key(k) ==> {
            &&& refers_down(store, rank, k, store.links[k].source)
            &&& refers_down(store, rank, k, store.links[k].target)
        }
}

/// A reference of the doublet at `k` to another doublet goes to one of lower
/// rank.
pub open spec fn refers_down(
    store: StoreState,
    rank: spec_fn(u32) -> nat,
    k: u32,
    reference: u32,
) -> bool {
    reference != k && store.links.contains_key(reference) ==> rank(reference) < rank(k)
}

/// The doublets of lower rank than the doublet at `k`.
pub open spec fn below(store: StoreState, rank: spec_fn(u32) -> nat, k: u32) -> Set<u32> {
    store.links.dom().filter(|j: u32| rank(j) < rank(k))
}

/// A doublet of lower rank has fewer doublets below it.
proof fn lemma_below_shrinks(store: StoreState, rank: spec_fn(u32) -> nat, k: u32, r: u32)
    requires
        store.links.dom().finite(),
        store.links.contains_key(r),
        rank(r) < rank(k),
    ensures
        below(store, rank, r).len() < below(store, rank, k).len(),
        below(store, rank, k).finite(),
{
    let lower = below(store, rank, r);
    let upper = below(store, rank, k);
    vstd::set_lib::lemma_set_subset_finite(store.links.dom(), upper);
    vstd::set_lib::lemma_set_subset_finite(store.links.dom(), lower);
    vstd::set_lib::lemma_len_subset(lower.insert(r), upper);
}

/// Fewer doublets are below a doublet than the store holds.
proof fn lemma_below_bound(store: StoreState, rank: spec_fn(u32) -> nat, k: u32)
    requires
        store.links.dom().finite(),
        store.links.contains_key(k),
    ensures
        below(store, rank, k).len() < store.links.len(),
{
    let lower = below(store, rank, k);
    vstd::set_lib::lemma_set_subset_finite(store.links.dom(), lower);
    vstd::set_lib::lemma_len_subset(lower.insert(k), store.links.dom());
}

/// One side of a doublet is written the same at every depth that is not
/// below the number of doublets of lower rank.
proof fn lemma_side_settled(
    store: StoreState,
    rank: spec_fn(u32) -> nat,
    link: Link,
    reference: u32,
    first: nat,
    second: nat,
)
    requires
        store.wf(),
        store.links.dom().finite(),
        ranks(store, rank),
        store.links.contains_key(link.index),
        store.links[link.index] == link,
        reference == link.source || reference == link.target,
        first >= below(store, rank, link.index).len(),
        second >= below(store, rank, link.index).len(),
    ensures
        store.side(link, reference, first) == store.side(link, reference, second),
    decreases first, 0nat,
{
    if reference != link.index && store.links.contains_key(reference) {
        lemma_below_shrinks(store, rank, link.index, reference);
        let inner = store.links[reference];
        lemma_structure_settled(
            store,
            rank,
            inner,
            false,
            (first - 1) as nat,
            (second - 1) as nat,
        );
    }
}

/// The nested notation of a doublet is the same at every depth that is not
/// below the number of doublets of lower rank.
proof fn lemma_structure_settled(
    store: StoreState,
    rank: spec_fn(u32) -> nat,
    link: Link,
    is_root: bool,
    first: nat,
    second: nat,
)
    requires
        store.wf(),
        store.links.dom().finite(),
        ranks(store, rank),
        store.links.contains_key(link.index),
        store.links[link.index] == link,
        first >= below(store, rank, link.index).len(),
        second >= below(store, rank, link.index).len(),
    ensures
        store.structure(link, is_root, first) == store.structure(link, is_root, second),
    decreases first, 1nat,
{
    if !(link.spec_is_full_point() && !is_root) {
        lemma_side_settled(store, rank, link, link.source, first, second);
        lemma_side_settled(store, rank, link, link.target, first, second);
    }
}

/// In a store where no doublet contains itself, the nested notation of a
/// doublet is complete at the depth of the number of doublets: a greater
/// depth changes nothing.
pub proof fn lemma_structure_complete(
    store: StoreState,
    rank: spec_fn(u32) -> nat,
    id: u32,
    depth: nat,
)
    requires
        store.wf(),
        store.links.dom().finite(),
        ranks(store, rank),
        store.links.contains_key(id),
        depth >= store.links.len(),
    ensures
        store.structure(store.links[id], true, depth) == store.structure(
            store.links[id],
            true,
            store.links.len(),
        ),
{
    lemma_below_bound(store, rank, id);
    lemma_structure_settled(store, rank, store.links[id], true, depth, store.links.len());
}

} // verus!
