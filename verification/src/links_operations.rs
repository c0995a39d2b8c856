//! A small store of links in memory, for use where no file is at hand.

use crate::order::{lemma_sorted_distinct, sort_ascending, strictly_ascending};
use std::collections::HashMap;
use vstd::prelude::*;
use vstd::std_specs::iter::IteratorSpec;

verus! {

/// A link: an identifier and two references.
#[derive(Debug, Clone, Copy, PartialEq, Eq, Structural)]
pub struct Link {
    pub id: u64,
    pub source: u64,
    pub target: u64,
}

/// What a store holds, as plain values.
pub ghost struct LinksState {
    /// The links, by identifier.
    pub links: Map<u64, Link>,
    /// The identifier that the next new link gets.
    pub next_id: u64,
}

impl LinksState {
    /// Every link is filed under its own identifier, below the next free one.
    pub open spec fn wf(self) -> bool {
        &&& self.next_id >= 1
        &&& forall|k: u64|
            self.links.contains_key(k) ==> (#[trigger] self.links[k]).id == k && k < self.next_id
    }

    /// The store without links.
    pub open spec fn empty() -> LinksState {
        LinksState { links: Map::empty(), next_id: 1 }
    }

    /// Whether a new link can still get an identifier.
    pub open spec fn has_room(self) -> bool {
        self.next_id < u64::MAX
    }

    /// A new link at the next free identifier.
    pub open spec fn create_link(self, source: u64, target: u64) -> LinksState {
        LinksState {
            links: self.links.insert(self.next_id, Link { id: self.next_id, source, target }),
            next_id: (self.next_id + 1) as u64,
        }
    }

    /// The link at `id` with a new source and target, where it exists.
    pub open spec fn update_link(self, id: u64, source: u64, target: u64) -> LinksState {
        if self.links.contains_key(id) {
            LinksState { links: self.links.insert(id, Link { id, source, target }), ..self }
        } else {
            self
        }
    }

    /// Without the link at `id`.
    pub open spec fn delete_link(self, id: u64) -> LinksState {
        LinksState { links: self.links.remove(id), ..self }
    }

    /// `listing` holds the links that `keep` selects, each once, in ascending
    /// order of identifier.
    pub open spec fn lists(self, listing: Seq<Link>, keep: spec_fn(Link) -> bool) -> bool {
        &&& forall|i: int, j: int|
            0 <= i < j < listing.len() ==> (#[trigger] listing[i]).id < (#[trigger] listing[j]).id
        &&& forall|i: int|
            0 <= i < listing.len() ==> self.links.contains_key((#[trigger] listing[i]).id)
                && self.links[listing[i].id] == listing[i] && keep(listing[i])
        &&& forall|k: u64| #[trigger]
            self.links.contains_key(k) && keep(self.links[k]) ==> exists|i: int|
                0 <= i < listing.len() && (#[trigger] listing[i]).id == k
    }

    /// The link at `id` has this source and this target.
    pub open spec fn joins(self, id: u64, source: u64, target: u64) -> bool {
        self.links.contains_key(id) && self.links[id].source == source && self.links[id].target
            == target
    }

    /// `id` is the lowest identifier of a link with this source and target.
    pub open spec fn is_first_match(self, id: u64, source: u64, target: u64) -> bool {
        self.joins(id, source, target) && forall|k: u64| #[trigger]
            self.joins(k, source, target) ==> id <= k
    }

    /// All links in ascending order of identifier.
    pub open spec fn listing(self) -> Seq<Link> {
        choose|listing: Seq<Link>| self.lists(listing, every_link())
    }

    /// The link with this source and target that has the lowest identifier.
    pub open spec fn find_link(self, source: u64, target: u64) -> Option<Link> {
        if exists|id: u64| self.is_first_match(id, source, target) {
            Some(self.links[choose|id: u64| self.is_first_match(id, source, target)])
        } else {
            None
        }
    }

    /// Without any link; the next free identifier stays.
    pub open spec fn delete_all(self) -> LinksState {
        LinksState { links: Map::empty(), ..self }
    }

    /// Two lists of the same selection in ascending order are the same list.
    pub proof fn lemma_lists_unique(self, a: Seq<Link>, b: Seq<Link>, keep: spec_fn(Link) -> bool)
        requires
            self.lists(a, keep),
            self.lists(b, keep),
        ensures
            a == b,
        decreases a.len(),
    {
        if a.len() == 0 {
            if b.len() > 0 {
                assert(self.links.contains_key(b[0].id) && keep(self.links[b[0].id]));
            }
        } else {
            let m = choose|m: int| 0 <= m < a.len() && (#[trigger] a[m]).id == b[0].id;
            let rest = LinksState { links: self.links.remove(a[0].id), ..self };
            let at = a.skip(1);
            let bt = b.skip(1);
            assert(rest.lists(at, keep)) by {
                assert forall|i: int, j: int| 0 <= i < j < at.len() implies (#[trigger] at[i]).id < (
                #[trigger] at[j]).id by {}
                assert forall|i: int| 0 <= i < at.len() implies rest.links.contains_key(
                    (#[trigger] at[i]).id,
                ) && rest.links[at[i].id] == at[i] && keep(at[i]) by {}
                assert forall|x: u64| #[trigger]
                    rest.links.contains_key(x) && keep(rest.links[x]) implies exists|i: int|
                    0 <= i < at.len() && (#[trigger] at[i]).id == x by {
                    let i = choose|i: int| 0 <= i < a.len() && (#[trigger] a[i]).id == x;
                    assert(at[i - 1].id == x);
                }
            }
            assert(rest.lists(bt, keep)) by {
                assert forall|i: int, j: int| 0 <= i < j < bt.len() implies (#[trigger] bt[i]).id < (
                #[trigger] bt[j]).id by {}
                assert forall|i: int| 0 <= i < bt.len() implies rest.links.contains_key(
                    (#[trigger] bt[i]).id,
                ) && rest.links[bt[i].id] == bt[i] && keep(bt[i]) by {}
                assert forall|x: u64| #[trigger]
                    rest.links.contains_key(x) && keep(rest.links[x]) implies exists|i: int|
                    0 <= i < bt.len() && (#[trigger] bt[i]).id == x by {
                    let i = choose|i: int| 0 <= i < b.len() && (#[trigger] b[i]).id == x;
                    assert(bt[i - 1].id == x);
                }
            }
            rest.lemma_lists_unique(at, bt, keep);
            assert(a =~= seq![a[0]] + at);
        }
    }

    /// A list of all links in ascending order is the listing.
    pub proof fn lemma_listing(self, listing: Seq<Link>)
        requires
            self.lists(listing, every_link()),
        ensures
            listing == self.listing(),
    {
        self.lemma_lists_unique(listing, self.listing(), every_link());
    }

    /// Creating a link keeps the store well-formed.
    pub proof fn lemma_create_link_wf(self, source: u64, target: u64)
        requires
            self.wf(),
            self.has_room(),
        ensures
            self.create_link(source, target).wf(),
    {
        let after = self.create_link(source, target);
        assert forall|k: u64| after.links.contains_key(k) implies (#[trigger] after.links[k]).id
            == k && k < after.next_id by {
            if k != self.next_id {
                assert(self.links[k].id == k);
            }
        }
    }

    /// Updating a link keeps the store well-formed.
    pub proof fn lemma_update_link_wf(self, id: u64, source: u64, target: u64)
        requires
            self.wf(),
        ensures
            self.update_link(id, source, target).wf(),
    {
        let after = self.update_link(id, source, target);
        if self.links.contains_key(id) {
            assert(self.links[id].id == id);
            assert forall|k: u64| after.links.contains_key(k) implies (#[trigger] after.links[k]).id
                == k && k < after.next_id by {}
        }
    }

    /// Deleting a link keeps the store well-formed.
    pub proof fn lemma_delete_link_wf(self, id: u64)
        requires
            self.wf(),
        ensures
            self.delete_link(id).wf(),
    {
        let after = self.delete_link(id);
        assert forall|k: u64| after.links.contains_key(k) implies (#[trigger] after.links[k]).id
            == k && k < after.next_id by {
            assert(self.links[k].id == k);
        }
    }
}

/// Every link.
pub open spec fn every_link() -> spec_fn(Link) -> bool {
    |link: Link| true
}

/// The links with this source.
pub open spec fn from_source(source: u64) -> spec_fn(Link) -> bool {
    |link: Link| link.source == source
}

/// The links with this target.
pub open spec fn to_target(target: u64) -> spec_fn(Link) -> bool {
    |link: Link| link.target == target
}

/// The links with this source and this target.
pub open spec fn from_source_to_target(source: u64, target: u64) -> spec_fn(Link) -> bool {
    |link: Link| link.source == source && link.target == target
}

/// A store of links in memory.
pub struct LinksStorage {
    links: HashMap<u64, Link>,
    next_id: u64,
}

impl View for LinksStorage {
    type V = LinksState;

    closed spec fn view(&self) -> LinksState {
        LinksState { links: self.links@, next_id: self.next_id }
    }
}

impl LinksStorage {
    /// The invariant of the store.
    pub open spec fn wf(&self) -> bool {
        self@.wf()
    }

    /// An empty store.
    pub fn new() -> (storage: LinksStorage)
        ensures
            storage.wf(),
            storage@ == LinksState::empty(),
    {
        LinksStorage { links: HashMap::new(), next_id: 1 }
    }

    /// Whether a new link can still get an identifier.
    pub fn has_room(&self) -> (r: bool)
        ensures
            r == self@.has_room(),
    {
        self.next_id < u64::MAX
    }

    /// Creates a link at the next free identifier and returns the identifier.
    pub fn create_link(&mut self, source: u64, target: u64) -> (id: u64)
        requires
            old(self).wf(),
            old(self)@.has_room(),
        ensures
            final(self).wf(),
            final(self)@ == old(self)@.create_link(source, target),
            id == old(self)@.next_id,
    {
        let id = self.next_id;
        self.next_id = self.next_id + 1;
        self.links.insert(id, Link { id, source, target });
        proof {
            old(self)@.lemma_create_link_wf(source, target);
        }
        id
    }

    /// Gives the link at `id` a new source and target; says whether the link
    /// exists.
    pub fn update_link(&mut self, id: u64, source: u64, target: u64) -> (r: bool)
        requires
            old(self).wf(),
        ensures
            final(self).wf(),
            final(self)@ == old(self)@.update_link(id, source, target),
            r == old(self)@.links.contains_key(id),
    {
        proof {
            old(self)@.lemma_update_link_wf(id, source, target);
        }
        if self.links.contains_key(&id) {
            self.links.insert(id, Link { id, source, target });
            true
        } else {
            false
        }
    }

    /// Removes the link at `id`; says whether there was one.
    pub fn delete_link(&mut self, id: u64) -> (r: bool)
        requires
            old(self).wf(),
        ensures
            final(self).wf(),
            final(self)@ == old(self)@.delete_link(id),
            r == old(self)@.links.contains_key(id),
    {
        proof {
            old(self)@.lemma_delete_link_wf(id);
        }
        self.links.remove(&id).is_some()
    }

    /// The link at `id`.
    pub fn get_link(&self, id: u64) -> (r: Option<&Link>)
        ensures
            match r {
                Some(link) => self@.links.contains_key(id) && self@.links[id] == *link,
                None => !self@.links.contains_key(id),
            },
    {
        self.links.get(&id)
    }

    /// The link with this source and target that has the lowest identifier.
    pub fn find_link(&self, source: u64, target: u64) -> (r: Option<&Link>)
        requires
            self.wf(),
        ensures
            match r {
                Some(link) => self@.is_first_match(link.id, source, target) && self@.links[link.id]
                    == *link && self@.find_link(source, target) == Some(*link),
                None => (forall|k: u64| !self@.joins(k, source, target)) && self@.find_link(
                    source,
                    target,
                ) is None,
            },
    {
        let found = self.get_links_by_source_and_target(source, target);
        if found.len() == 0 {
            assert forall|k: u64| !self@.joins(k, source, target) by {}
            None
        } else {
            let first = found[0];
            proof {
                let listing = found@.unref();
                assert(listing[0] == *first);
                assert forall|k: u64| #[trigger] self@.joins(k, source, target) implies first.id
                    <= k by {}
                assert(self@.is_first_match(first.id, source, target));
            }
            Some(first)
        }
    }

    /// All links in ascending order of identifier.
    pub fn get_all_links(&self) -> (listing: Vec<Link>)
        requires
            self.wf(),
        ensures
            self@.lists(listing@, every_link()),
            listing@ == self@.listing(),
    {
        let ghost keep = every_link();
        let ids = self.sorted_ids();
        let mut listing: Vec<Link> = Vec::new();
        let mut i: usize = 0;
        while i < ids.len()
            invariant
                i <= ids.len(),
                self.wf(),
                strictly_ascending(ids@),
                forall|k: u64| ids@.contains(k) <==> self@.links.contains_key(k),
                listing@.len() == i,
                forall|a: int|
                    0 <= a < i ==> (#[trigger] listing@[a]).id == ids@[a] && self@.links[ids@[a]]
                        == listing@[a],
            decreases ids.len() - i,
        {
            assert(ids@.contains(ids@[i as int]));
            let link = *self.links.get(&ids[i]).unwrap();
            listing.push(link);
            i += 1;
        }
        proof {
            assert forall|k: u64| #[trigger]
                self@.links.contains_key(k) && keep(self@.links[k]) implies exists|a: int|
                0 <= a < listing@.len() && (#[trigger] listing@[a]).id == k by {
                assert(ids@.contains(k));
                let a = choose|a: int| 0 <= a < ids@.len() && ids@[a] == k;
                assert(listing@[a].id == k);
            }
            assert forall|a: int| 0 <= a < listing@.len() implies self@.links.contains_key(
                (#[trigger] listing@[a]).id,
            ) && self@.links[listing@[a].id] == listing@[a] && keep(listing@[a]) by {
                assert(ids@.contains(ids@[a]));
            }
            self@.lemma_listing(listing@);
        }
        listing
    }

    /// Removes all links; the identifiers that were given out stay taken.
    pub fn delete_all(&mut self)
        requires
            old(self).wf(),
        ensures
            final(self).wf(),
            final(self)@ == old(self)@.delete_all(),
    {
        self.links.clear();
    }

    /// Removes all links; identifiers start again at 1.
    pub fn clear(&mut self)
        ensures
            final(self).wf(),
            final(self)@ == LinksState::empty(),
    {
        self.links.clear();
        self.next_id = 1;
    }

    /// The number of links.
    pub fn count(&self) -> (n: usize)
        ensures
            n == self@.links.len(),
    {
        self.links.len()
    }

    /// Whether a link at `id` exists.
    pub fn has_link(&self, id: u64) -> (r: bool)
        ensures
            r == self@.links.contains_key(id),
    {
        self.links.contains_key(&id)
    }

    /// The links with this source, in ascending order of identifier.
    pub fn get_links_by_source(&self, source: u64) -> (found: Vec<&Link>)
        requires
            self.wf(),
        ensures
            self@.lists(found@.unref(), from_source(source)),
    {
        let ghost keep = from_source(source);
        let ids = self.sorted_ids();
        let mut found: Vec<&Link> = Vec::new();
        let mut i: usize = 0;
        while i < ids.len()
            invariant
                i <= ids.len(),
                self.wf(),
                keep == from_source(source),
                strictly_ascending(ids@),
                forall|k: u64| ids@.contains(k) <==> self@.links.contains_key(k),
                picked(self@, ids@, i as int, found@.unref(), keep),
            decreases ids.len() - i,
        {
            assert(ids@.contains(ids@[i as int]));
            let link = self.links.get(&ids[i]).unwrap();
            let ghost before = found@.unref();
            if link.source == source {
                found.push(link);
                proof {
                    assert(found@.unref() =~= before.push(*link));
                    lemma_pick(self@, ids@, i as int, before, keep);
                }
            } else {
                proof {
                    lemma_pass(self@, ids@, i as int, before, keep);
                }
            }
            i += 1;
        }
        proof {
            lemma_picked_all(self@, ids@, found@.unref(), keep);
        }
        found
    }

    /// The links with this target, in ascending order of identifier.
    pub fn get_links_by_target(&self, target: u64) -> (found: Vec<&Link>)
        requires
            self.wf(),
        ensures
            self@.lists(found@.unref(), to_target(target)),
    {
        let ghost keep = to_target(target);
        let ids = self.sorted_ids();
        let mut found: Vec<&Link> = Vec::new();
        let mut i: usize = 0;
        while i < ids.len()
            invariant
                i <= ids.len(),
                self.wf(),
                keep == to_target(target),
                strictly_ascending(ids@),
                forall|k: u64| ids@.contains(k) <==> self@.links.contains_key(k),
                picked(self@, ids@, i as int, found@.unref(), keep),
            decreases ids.len() - i,
        {
            assert(ids@.contains(ids@[i as int]));
            let link = self.links.get(&ids[i]).unwrap();
            let ghost before = found@.unref();
            if link.target == target {
                found.push(link);
                proof {
                    assert(found@.unref() =~= before.push(*link));
                    lemma_pick(self@, ids@, i as int, before, keep);
                }
            } else {
                proof {
                    lemma_pass(self@, ids@, i as int, before, keep);
                }
            }
            i += 1;
        }
        proof {
            lemma_picked_all(self@, ids@, found@.unref(), keep);
        }
        found
    }

    /// The links with this source and target, in ascending order of
    /// identifier.
    pub fn get_links_by_source_and_target(&self, source: u64, target: u64) -> (found: Vec<&Link>)
        requires
            self.wf(),
        ensures
            self@.lists(found@.unref(), from_source_to_target(source, target)),
    {
        let ghost keep = from_source_to_target(source, target);
        let ids = self.sorted_ids();
        let mut found: Vec<&Link> = Vec::new();
        let mut i: usize = 0;
        while i < ids.len()
            invariant
                i <= ids.len(),
                self.wf(),
                keep == from_source_to_target(source, target),
                strictly_ascending(ids@),
                forall|k: u64| ids@.contains(k) <==> self@.links.contains_key(k),
                picked(self@, ids@, i as int, found@.unref(), keep),
            decreases ids.len() - i,
        {
            assert(ids@.contains(ids@[i as int]));
            let link = self.links.get(&ids[i]).unwrap();
            let ghost before = found@.unref();
            if link.source == source && link.target == target {
                found.push(link);
                proof {
                    assert(found@.unref() =~= before.push(*link));
                    lemma_pick(self@, ids@, i as int, before, keep);
                }
            } else {
                proof {
                    lemma_pass(self@, ids@, i as int, before, keep);
                }
            }
            i += 1;
        }
        proof {
            lemma_picked_all(self@, ids@, found@.unref(), keep);
        }
        found
    }

    /// The identifiers of the links in ascending order.
    fn sorted_ids(&self) -> (ids: Vec<u64>)
        requires
            self.wf(),
        ensures
            strictly_ascending(ids@),
            forall|k: u64| ids@.contains(k) <==> self@.links.contains_key(k),
    {
        let mut ids: Vec<u64> = Vec::new();
        let ghost keys: Seq<&u64> = self.links.keys().remaining();
        for k in it: self.links.keys()
            invariant
                it.seq() == keys,
                keys.unref().to_set() == self.links@.dom(),
                keys.no_duplicates(),
                ids@.len() == it.index(),
                forall|i: int| 0 <= i < ids@.len() ==> ids@[i] == *keys[i],
        {
            ids.push(*k);
        }
        proof {
            assert(ids@ =~= keys.unref());
            assert(ids@.no_duplicates()) by {
                assert forall|i: int, j: int|
                    0 <= i < ids@.len() && 0 <= j < ids@.len() && i != j implies ids@[i]
                    != ids@[j] by {}
            }
        }
        let ghost unsorted = ids@;
        sort_ascending(&mut ids);
        proof {
            lemma_sorted_distinct(unsorted, ids@);
        }
        ids
    }
}

/// `found` holds the links, among those of the first `n` identifiers, that
/// `keep` selects, in the order of the identifiers.
spec fn picked(
    state: LinksState,
    ids: Seq<u64>,
    n: int,
    found: Seq<Link>,
    keep: spec_fn(Link) -> bool,
) -> bool {
    &&& forall|i: int, j: int|
        0 <= i < j < found.len() ==> (#[trigger] found[i]).id < (#[trigger] found[j]).id
    &&& forall|i: int|
        0 <= i < found.len() ==> state.links.contains_key((#[trigger] found[i]).id)
            && state.links[found[i].id] == found[i] && keep(found[i]) && exists|a: int|
            0 <= a < n && ids[a] == found[i].id
    &&& forall|a: int|
        0 <= a < n && keep(state.links[#[trigger] ids[a]]) ==> exists|i: int|
            0 <= i < found.len() && (#[trigger] found[i]).id == ids[a]
}

proof fn lemma_pick(
    state: LinksState,
    ids: Seq<u64>,
    n: int,
    found: Seq<Link>,
    keep: spec_fn(Link) -> bool,
)
    requires
        0 <= n < ids.len(),
        strictly_ascending(ids),
        state.links.contains_key(ids[n]),
        state.links[ids[n]].id == ids[n],
        keep(state.links[ids[n]]),
        picked(state, ids, n, found, keep),
    ensures
        picked(state, ids, n + 1, found.push(state.links[ids[n]]), keep),
{
    let grown = found.push(state.links[ids[n]]);
    assert forall|i: int, j: int| 0 <= i < j < grown.len() implies (#[trigger] grown[i]).id < (
    #[trigger] grown[j]).id by {}
    assert forall|i: int| 0 <= i < grown.len() implies state.links.contains_key(
        (#[trigger] grown[i]).id,
    ) && state.links[grown[i].id] == grown[i] && keep(grown[i]) && exists|a: int|
        0 <= a < n + 1 && ids[a] == grown[i].id by {}
    assert forall|a: int| 0 <= a < n + 1 && keep(state.links[#[trigger] ids[a]]) implies exists|
        i: int,
    | 0 <= i < grown.len() && (#[trigger] grown[i]).id == ids[a] by {
        if a < n {
            let i = choose|i: int| 0 <= i < found.len() && (#[trigger] found[i]).id == ids[a];
            assert(grown[i].id == ids[a]);
        } else {
            assert(grown[found.len() as int].id == ids[a]);
        }
    }
}

proof fn lemma_pass(
    state: LinksState,
    ids: Seq<u64>,
    n: int,
    found: Seq<Link>,
    keep: spec_fn(Link) -> bool,
)
    requires
        0 <= n < ids.len(),
        !keep(state.links[ids[n]]),
        picked(state, ids, n, found, keep),
    ensures
        picked(state, ids, n + 1, found, keep),
{
    assert forall|i: int| 0 <= i < found.len() implies state.links.contains_key(
        (#[trigger] found[i]).id,
    ) && state.links[found[i].id] == found[i] && keep(found[i]) && exists|a: int|
        0 <= a < n + 1 && ids[a] == found[i].id by {}
}

proof fn lemma_picked_all(
    state: LinksState,
    ids: Seq<u64>,
    found: Seq<Link>,
    keep: spec_fn(Link) -> bool,
)
    requires
        forall|k: u64| ids.contains(k) <==> state.links.contains_key(k),
        picked(state, ids, ids.len() as int, found, keep),
    ensures
        state.lists(found, keep),
{
    assert forall|k: u64| #[trigger]
        state.links.contains_key(k) && keep(state.links[k]) implies exists|i: int|
        0 <= i < found.len() && (#[trigger] found[i]).id == k by {
        assert(ids.contains(k));
    }
}

} // verus!
