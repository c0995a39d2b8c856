//! The doublet store: doublets by index, and names for some of them.

use crate::error::LinkError;
use crate::link::Link;
use crate::order::{lemma_sorted_distinct, sort_ascending, strictly_ascending};
use crate::text::{decimal, decimal_string, same_text};
use std::collections::HashMap;
use vstd::prelude::*;
use vstd::std_specs::iter::IteratorSpec;
use vstd::string::StringExecFns;

verus! {

/// What a store holds, as plain values.
pub ghost struct StoreState {
    /// The doublets, by index.
    pub links: Map<u32, Link>,
    /// The names, by the index of the doublet that each denotes.
    pub names: Map<u32, Seq<char>>,
    /// The index that the next new doublet gets.
    pub next_id: u32,
}

impl StoreState {
    /// Every doublet is filed under its own index, which is above 0 and below
    /// the next free index; every name denotes a doublet, and no name denotes
    /// two.
    pub open spec fn wf(self) -> bool {
        &&& self.next_id >= 1
        &&& forall|k: u32|
            self.links.contains_key(k) ==> (#[trigger] self.links[k]).index == k && 0 < k
                < self.next_id
        &&& forall|k: u32| #[trigger] self.names.contains_key(k) ==> self.links.contains_key(k)
        &&& forall|a: u32, b: u32|
            self.names.contains_key(a) && self.names.contains_key(b) && #[trigger] self.names[a]
                == #[trigger] self.names[b] ==> a == b
    }

    /// The store without doublets and names.
    pub open spec fn empty() -> StoreState {
        StoreState { links: Map::empty(), names: Map::empty(), next_id: 1 }
    }

    /// Whether a new doublet can still get an index.
    pub open spec fn has_room(self) -> bool {
        self.next_id < u32::MAX
    }

    /// Whether a doublet at `id` exists.
    pub open spec fn has_link(self, id: u32) -> bool {
        self.links.contains_key(id)
    }

    /// The doublet at `id`.
    pub open spec fn get(self, id: u32) -> Option<Link> {
        if self.links.contains_key(id) {
            Some(self.links[id])
        } else {
            None
        }
    }

    /// The doublet at `id` has this source and this target.
    pub open spec fn joins(self, id: u32, source: u32, target: u32) -> bool {
        self.links.contains_key(id) && self.links[id].source == source && self.links[id].target
            == target
    }

    /// `id` is the lowest index of a doublet with this source and this target.
    pub open spec fn is_first_match(self, id: u32, source: u32, target: u32) -> bool {
        self.joins(id, source, target) && forall|k: u32| #[trigger]
            self.joins(k, source, target) ==> id <= k
    }

    /// The lowest index of a doublet with this source and this target.
    pub open spec fn search(self, source: u32, target: u32) -> Option<u32> {
        if exists|id: u32| self.is_first_match(id, source, target) {
            Some(choose|id: u32| self.is_first_match(id, source, target))
        } else {
            None
        }
    }

    /// `id` carries the name `name`.
    pub open spec fn is_named(self, id: u32, name: Seq<char>) -> bool {
        self.names.contains_key(id) && self.names[id] == name
    }

    /// The index of the doublet that `name` denotes.
    pub open spec fn get_by_name(self, name: Seq<char>) -> Option<u32> {
        if exists|id: u32| self.is_named(id, name) {
            Some(choose|id: u32| self.is_named(id, name))
        } else {
            None
        }
    }

    /// The name of the doublet at `id`.
    pub open spec fn get_name(self, id: u32) -> Option<Seq<char>> {
        if self.names.contains_key(id) {
            Some(self.names[id])
        } else {
            None
        }
    }

    /// A new doublet at the next free index.
    pub open spec fn create(self, source: u32, target: u32) -> StoreState {
        StoreState {
            links: self.links.insert(self.next_id, Link { index: self.next_id, source, target }),
            next_id: (self.next_id + 1) as u32,
            ..self
        }
    }

    /// A doublet `(id, 0, 0)` at `id`, where `id` is not below the next free
    /// index; otherwise nothing changes.
    pub open spec fn ensure_created(self, id: u32) -> StoreState {
        if self.links.contains_key(id) || id < self.next_id {
            self
        } else {
            StoreState {
                links: self.links.insert(id, Link { index: id, source: 0, target: 0 }),
                next_id: (id + 1) as u32,
                ..self
            }
        }
    }

    /// The doublet at `id` with a new source and target.
    pub open spec fn update(self, id: u32, source: u32, target: u32) -> StoreState {
        StoreState { links: self.links.insert(id, Link { index: id, source, target }), ..self }
    }

    /// Without the doublet at `id` and without its name.
    pub open spec fn delete(self, id: u32) -> StoreState {
        StoreState { links: self.links.remove(id), names: self.names.remove(id), ..self }
    }

    /// Without the name of `id`.
    pub open spec fn remove_name(self, id: u32) -> StoreState {
        StoreState { names: self.names.remove(id), ..self }
    }

    /// With `name` for `id`, and for no other doublet.
    pub open spec fn set_name(self, id: u32, name: Seq<char>) -> StoreState {
        let freed = match self.get_by_name(name) {
            Some(holder) => self.names.remove(holder),
            None => self.names,
        };
        StoreState { names: freed.insert(id, name), ..self }
    }

    /// A new point that carries `name`.
    pub open spec fn create_named(self, name: Seq<char>) -> StoreState {
        StoreState {
            links: self.links.insert(
                self.next_id,
                Link { index: self.next_id, source: self.next_id, target: self.next_id },
            ),
            names: self.names.insert(self.next_id, name),
            next_id: (self.next_id + 1) as u32,
        }
    }

    /// With `link` under its own index, whether or not the index held a
    /// doublet, and with the name for it where one is given. The next free
    /// index moves behind the doublet.
    pub open spec fn put(self, link: Link, name: Option<Seq<char>>) -> StoreState {
        let put = StoreState {
            links: self.links.insert(link.index, link),
            next_id: if self.next_id <= link.index {
                (link.index + 1) as u32
            } else {
                self.next_id
            },
            ..self
        };
        match name {
            Some(name) => put.set_name(link.index, name),
            None => put,
        }
    }

    /// Putting a doublet under its index keeps the store well-formed.
    pub proof fn lemma_put_wf(self, link: Link, name: Option<Seq<char>>)
        requires
            self.wf(),
            0 < link.index < u32::MAX,
        ensures
            self.put(link, name).wf(),
    {
        let put = StoreState {
            links: self.links.insert(link.index, link),
            next_id: if self.next_id <= link.index {
                (link.index + 1) as u32
            } else {
                self.next_id
            },
            ..self
        };
        assert forall|k: u32| put.links.contains_key(k) implies (#[trigger] put.links[k]).index == k
            && 0 < k < put.next_id by {
            if k != link.index {
                assert(self.links[k].index == k);
            }
        }
        match name {
            Some(name) => {
                put.lemma_set_name_wf(link.index, name);
            },
            None => {},
        }
    }

    /// Finds the doublet with this source and target, or creates it.
    pub open spec fn get_or_create(self, source: u32, target: u32) -> (StoreState, u32) {
        match self.search(source, target) {
            Some(id) => (self, id),
            None => (self.create(source, target), self.next_id),
        }
    }

    /// Finds the doublet that `name` denotes, or creates a point for it.
    pub open spec fn get_or_create_named(self, name: Seq<char>) -> (StoreState, u32) {
        match self.get_by_name(name) {
            Some(id) => (self, id),
            None => (self.create_named(name), self.next_id),
        }
    }

    /// `listing` holds every doublet of the store once, in ascending order of
    /// index.
    pub open spec fn lists(self, listing: Seq<Link>) -> bool {
        &&& forall|i: int, j: int|
            0 <= i < j < listing.len() ==> (#[trigger] listing[i]).index < (
            #[trigger] listing[j]).index
        &&& forall|i: int|
            0 <= i < listing.len() ==> self.links.contains_key((#[trigger] listing[i]).index)
                && self.links[listing[i].index] == listing[i]
        &&& forall|k: u32| #[trigger]
            self.links.contains_key(k) ==> exists|i: int|
                0 <= i < listing.len() && (#[trigger] listing[i]).index == k
    }

    /// The name of `id` where it has one, else its number.
    pub open spec fn label(self, id: u32) -> Seq<char> {
        if self.names.contains_key(id) {
            self.names[id]
        } else {
            decimal(id as nat)
        }
    }

    /// A doublet as `(index source target)`, with names in place of indices
    /// where they are known.
    pub open spec fn format(self, link: Link) -> Seq<char> {
        seq!['('] + self.label(link.index) + seq![' '] + self.label(link.source) + seq![' ']
            + self.label(link.target) + seq![')']
    }

    /// One side of a doublet in its nested notation: the doublet's own label
    /// where the side refers to the doublet itself, the nested notation of the
    /// doublet that it refers to where that exists and `depth` allows, else
    /// the number.
    pub open spec fn side(self, link: Link, reference: u32, depth: nat) -> Seq<char>
        decreases depth, 0nat,
    {
        if reference == link.index {
            self.label(link.index)
        } else if self.links.contains_key(reference) && depth > 0 {
            self.structure(self.links[reference], false, (depth - 1) as nat)
        } else {
            decimal(reference as nat)
        }
    }

    /// The nested notation of a doublet: `(source target)`, each side expanded
    /// in turn until a point or an unknown reference is reached, at most
    /// `depth` levels deep.
    pub open spec fn structure(self, link: Link, is_root: bool, depth: nat) -> Seq<char>
        decreases depth, 1nat,
    {
        if link.spec_is_full_point() && !is_root {
            self.label(link.index)
        } else {
            seq!['('] + self.side(link, link.source, depth) + seq![' '] + self.side(
                link,
                link.target,
                depth,
            ) + seq![')']
        }
    }

    /// A transition as `(before) (after)`; an absent side is left empty.
    pub open spec fn format_change(self, before: Option<Link>, after: Option<Link>) -> Seq<char> {
        seq!['('] + (match before {
            Some(link) => self.format(link),
            None => Seq::empty(),
        }) + seq![')', ' ', '('] + (match after {
            Some(link) => self.format(link),
            None => Seq::empty(),
        }) + seq![')']
    }

    /// Two lists of all doublets in ascending order are the same list.
    pub proof fn lemma_lists_unique(self, a: Seq<Link>, b: Seq<Link>)
        requires
            self.lists(a),
            self.lists(b),
        ensures
            a == b,
        decreases a.len(),
    {
        if a.len() == 0 {
            if b.len() > 0 {
                assert(self.links.contains_key(b[0].index));
            }
        } else {
            let m = choose|m: int| 0 <= m < a.len() && (#[trigger] a[m]).index == b[0].index;
            let rest = StoreState { links: self.links.remove(a[0].index), ..self };
            let at = a.skip(1);
            let bt = b.skip(1);
            assert(rest.lists(at)) by {
                assert forall|i: int, j: int| 0 <= i < j < at.len() implies (#[trigger] at[i]).index
                    < (#[trigger] at[j]).index by {}
                assert forall|i: int| 0 <= i < at.len() implies rest.links.contains_key(
                    (#[trigger] at[i]).index,
                ) && rest.links[at[i].index] == at[i] by {}
                assert forall|x: u32| #[trigger] rest.links.contains_key(x) implies exists|i: int|
                    0 <= i < at.len() && (#[trigger] at[i]).index == x by {
                    let i = choose|i: int| 0 <= i < a.len() && (#[trigger] a[i]).index == x;
                    assert(at[i - 1].index == x);
                }
            }
            assert(rest.lists(bt)) by {
                assert forall|i: int, j: int| 0 <= i < j < bt.len() implies (#[trigger] bt[i]).index
                    < (#[trigger] bt[j]).index by {}
                assert forall|i: int| 0 <= i < bt.len() implies rest.links.contains_key(
                    (#[trigger] bt[i]).index,
                ) && rest.links[bt[i].index] == bt[i] by {}
                assert forall|x: u32| #[trigger] rest.links.contains_key(x) implies exists|i: int|
                    0 <= i < bt.len() && (#[trigger] bt[i]).index == x by {
                    let i = choose|i: int| 0 <= i < b.len() && (#[trigger] b[i]).index == x;
                    assert(bt[i - 1].index == x);
                }
            }
            rest.lemma_lists_unique(at, bt);
            assert(a =~= seq![a[0]] + at);
        }
    }

    /// The next free index holds neither a doublet nor a name.
    pub proof fn lemma_next_is_free(self)
        requires
            self.wf(),
        ensures
            !self.links.contains_key(self.next_id),
            !self.names.contains_key(self.next_id),
    {
        if self.links.contains_key(self.next_id) {
            assert(self.links[self.next_id].index == self.next_id);
        }
    }

    /// Creating a doublet keeps the store well-formed.
    pub proof fn lemma_create_wf(self, source: u32, target: u32)
        requires
            self.wf(),
            self.has_room(),
        ensures
            self.create(source, target).wf(),
    {
        let after = self.create(source, target);
        assert forall|k: u32| after.links.contains_key(k) implies (#[trigger] after.links[k]).index
            == k && 0 < k < after.next_id by {
            if k != self.next_id {
                assert(self.links[k].index == k);
            }
        }
    }

    /// Making sure that a doublet exists keeps the store well-formed.
    pub proof fn lemma_ensure_created_wf(self, id: u32)
        requires
            self.wf(),
            id < u32::MAX,
        ensures
            self.ensure_created(id).wf(),
    {
        let after = self.ensure_created(id);
        if !self.links.contains_key(id) && id >= self.next_id {
            assert forall|k: u32| after.links.contains_key(k) implies (
            #[trigger] after.links[k]).index == k && 0 < k < after.next_id by {}
        }
    }

    /// Updating a doublet keeps the store well-formed.
    pub proof fn lemma_update_wf(self, id: u32, source: u32, target: u32)
        requires
            self.wf(),
            self.links.contains_key(id),
        ensures
            self.update(id, source, target).wf(),
    {
        let after = self.update(id, source, target);
        assert(self.links[id].index == id);
        assert forall|k: u32| after.links.contains_key(k) implies (#[trigger] after.links[k]).index
            == k && 0 < k < after.next_id by {}
    }

    /// Deleting a doublet keeps the store well-formed.
    pub proof fn lemma_delete_wf(self, id: u32)
        requires
            self.wf(),
        ensures
            self.delete(id).wf(),
    {
        let after = self.delete(id);
        assert forall|k: u32| after.links.contains_key(k) implies (#[trigger] after.links[k]).index
            == k && 0 < k < after.next_id by {
            assert(self.links[k].index == k);
        }
        assert forall|a: u32, b: u32|
            after.names.contains_key(a) && after.names.contains_key(b) && #[trigger] after.names[a]
                == #[trigger] after.names[b] implies a == b by {}
    }

    /// Taking a name away keeps the store well-formed.
    pub proof fn lemma_remove_name_wf(self, id: u32)
        requires
            self.wf(),
        ensures
            self.remove_name(id).wf(),
    {
        let after = self.remove_name(id);
        assert forall|a: u32, b: u32|
            after.names.contains_key(a) && after.names.contains_key(b) && #[trigger] after.names[a]
                == #[trigger] after.names[b] implies a == b by {}
    }

    /// Naming a doublet keeps the store well-formed.
    pub proof fn lemma_set_name_wf(self, id: u32, name: Seq<char>)
        requires
            self.wf(),
            self.links.contains_key(id),
        ensures
            self.set_name(id, name).wf(),
    {
        let after = self.set_name(id, name);
        self.lemma_get_by_name(name);
        assert forall|a: u32, b: u32|
            after.names.contains_key(a) && after.names.contains_key(b) && #[trigger] after.names[a]
                == #[trigger] after.names[b] implies a == b by {
            if a != id && b == id {
                assert(self.is_named(a, name));
            } else if a == id && b != id {
                assert(self.is_named(b, name));
            }
        }
    }

    /// Creating a point for a new name keeps the store well-formed.
    pub proof fn lemma_create_named_wf(self, name: Seq<char>)
        requires
            self.wf(),
            self.has_room(),
            self.get_by_name(name) is None,
        ensures
            self.create_named(name).wf(),
    {
        let after = self.create_named(name);
        self.lemma_get_by_name(name);
        assert forall|k: u32| after.links.contains_key(k) implies (#[trigger] after.links[k]).index
            == k && 0 < k < after.next_id by {}
        assert forall|a: u32, b: u32|
            after.names.contains_key(a) && after.names.contains_key(b) && #[trigger] after.names[a]
                == #[trigger] after.names[b] implies a == b by {
            if a != self.next_id && b == self.next_id {
                assert(self.is_named(a, name));
            } else if a == self.next_id && b != self.next_id {
                assert(self.is_named(b, name));
            }
        }
    }

    /// The lowest match always exists where a match exists.
    pub proof fn lemma_search(self, source: u32, target: u32)
        ensures
            match self.search(source, target) {
                Some(id) => self.is_first_match(id, source, target),
                None => forall|k: u32| !self.joins(k, source, target),
            },
    {
        if !(exists|id: u32| self.is_first_match(id, source, target)) {
            if exists|k: u32| self.joins(k, source, target) {
                let k = choose|k: u32| self.joins(k, source, target);
                self.lemma_lowest(k, source, target);
            }
        }
    }

    proof fn lemma_lowest(self, k: u32, source: u32, target: u32)
        requires
            self.joins(k, source, target),
        ensures
            exists|id: u32| self.is_first_match(id, source, target),
        decreases k,
    {
        if exists|j: u32| j < k && self.joins(j, source, target) {
            let j = choose|j: u32| j < k && self.joins(j, source, target);
            self.lemma_lowest(j, source, target);
        } else {
            assert(self.is_first_match(k, source, target));
        }
    }

    /// A name denotes the doublet that carries it, and no other.
    pub proof fn lemma_get_by_name(self, name: Seq<char>)
        requires
            self.wf(),
        ensures
            match self.get_by_name(name) {
                Some(id) => self.is_named(id, name),
                None => forall|k: u32| !self.is_named(k, name),
            },
            forall|k: u32| self.is_named(k, name) ==> self.get_by_name(name) == Some(k),
    {
    }

    /// The lowest match is the only index that is one.
    pub proof fn lemma_first_match_unique(self, a: u32, b: u32, source: u32, target: u32)
        requires
            self.is_first_match(a, source, target),
            self.is_first_match(b, source, target),
        ensures
            a == b,
    {
    }
}

/// The names of a store, each as its characters.
pub open spec fn name_views(names: Map<u32, String>) -> Map<u32, Seq<char>> {
    Map::new(|k: u32| names.contains_key(k), |k: u32| names[k]@)
}

/// A store of doublets, some of which carry a name.
pub struct LinkStorage {
    links: HashMap<u32, Link>,
    names: HashMap<u32, String>,
    next_id: u32,
    db_path: String,
    trace: bool,
}

impl View for LinkStorage {
    type V = StoreState;

    closed spec fn view(&self) -> StoreState {
        StoreState {
            links: self.links@,
            names: name_views(self.names@),
            next_id: self.next_id,
        }
    }
}

impl LinkStorage {
    /// The invariant of the store.
    pub open spec fn wf(&self) -> bool {
        self@.wf()
    }

    /// The path that the store was made with.
    pub closed spec fn spec_db_path(&self) -> Seq<char> {
        self.db_path@
    }

    /// Whether the store was made with tracing on.
    pub closed spec fn spec_trace(&self) -> bool {
        self.trace
    }

    /// An empty store that remembers where it is kept.
    pub fn new(db_path: &str, trace: bool) -> (storage: LinkStorage)
        ensures
            storage.wf(),
            storage@ == StoreState::empty(),
            storage.spec_db_path() == db_path@,
            storage.spec_trace() == trace,
    {
        let storage = LinkStorage {
            links: HashMap::new(),
            names: HashMap::new(),
            next_id: 1,
            db_path: db_path.to_owned(),
            trace,
        };
        assert(storage@.names =~= Map::empty());
        storage
    }

    /// The path that the store was made with.
    pub fn db_path(&self) -> (path: &str)
        ensures
            path@ == self.spec_db_path(),
    {
        self.db_path.as_str()
    }

    /// Whether the store was made with tracing on.
    pub fn is_trace_enabled(&self) -> (r: bool)
        ensures
            r == self.spec_trace(),
    {
        self.trace
    }

    /// Whether a new doublet can still get an index.
    pub fn has_room(&self) -> (r: bool)
        ensures
            r == self@.has_room(),
    {
        self.next_id < u32::MAX
    }

    /// Puts `link` under its own index, whether or not the index holds a
    /// doublet, gives it the name where one is given, and moves the next free
    /// index behind it.
    pub fn put(&mut self, link: Link, name: Option<&str>)
        requires
            old(self).wf(),
            0 < link.index < u32::MAX,
        ensures
            final(self).wf(),
            final(self)@ == old(self)@.put(
                link,
                match name {
                    Some(name) => Some(name@),
                    None => None,
                },
            ),
            final(self).spec_db_path() == old(self).spec_db_path(),
            final(self).spec_trace() == old(self).spec_trace(),
    {
        proof {
            old(self)@.lemma_put_wf(
                link,
                match name {
                    Some(name) => Some(name@),
                    None => None,
                },
            );
            old(self)@.lemma_put_wf(link, None);
        }
        self.links.insert(link.index, link);
        if self.next_id <= link.index {
            self.next_id = link.index + 1;
        }
        match name {
            Some(name) => {
                self.set_name(link.index, name);
            },
            None => {},
        }
    }

    /// Creates a doublet at the next free index and returns that index.
    pub fn create(&mut self, source: u32, target: u32) -> (id: u32)
        requires
            old(self).wf(),
            old(self)@.has_room(),
        ensures
            final(self).wf(),
            final(self)@ == old(self)@.create(source, target),
            id == old(self)@.next_id,
            final(self).spec_db_path() == old(self).spec_db_path(),
            final(self).spec_trace() == old(self).spec_trace(),
    {
        let id = self.next_id;
        self.next_id = self.next_id + 1;
        self.links.insert(id, Link::new(id, source, target));
        proof {
            old(self)@.lemma_create_wf(source, target);
        }
        id
    }

    /// Makes sure that a doublet at `id` exists, where `id` has not been given
    /// out yet: the doublet is then `(id, 0, 0)`, and the indices up to `id`
    /// count as given out. An index that was given out before and holds no
    /// doublet is left empty.
    pub fn ensure_created(&mut self, id: u32) -> (r: u32)
        requires
            old(self).wf(),
            id < u32::MAX,
        ensures
            final(self).wf(),
            final(self)@ == old(self)@.ensure_created(id),
            r == id,
            final(self).spec_db_path() == old(self).spec_db_path(),
            final(self).spec_trace() == old(self).spec_trace(),
    {
        if self.links.contains_key(&id) {
            return id;
        }
        if self.next_id <= id {
            self.next_id = id + 1;
            self.links.insert(id, Link::new(id, 0, 0));
        }
        proof {
            old(self)@.lemma_ensure_created_wf(id);
        }
        id
    }

    /// The doublet at `id`.
    pub fn get(&self, id: u32) -> (r: Option<&Link>)
        ensures
            match r {
                Some(link) => self@.get(id) == Some(*link),
                None => self@.get(id) is None,
            },
    {
        self.links.get(&id)
    }

    /// Whether a doublet at `id` exists.
    pub fn has_link(&self, id: u32) -> (r: bool)
        ensures
            r == self@.has_link(id),
    {
        self.links.contains_key(&id)
    }

    /// Gives the doublet at `id` a new source and target and returns the
    /// doublet as it was.
    pub fn update(&mut self, id: u32, source: u32, target: u32) -> (r: Result<Link, LinkError>)
        requires
            old(self).wf(),
        ensures
            final(self).wf(),
            final(self).spec_db_path() == old(self).spec_db_path(),
            final(self).spec_trace() == old(self).spec_trace(),
            match r {
                Ok(before) => old(self)@.get(id) == Some(before) && final(self)@ == old(self)@.update(
                    id,
                    source,
                    target,
                ),
                Err(e) => old(self)@.get(id) is None && final(self)@ == old(self)@ && e
                    == LinkError::NotFound(id),
            },
    {
        let before = match self.links.get(&id) {
            Some(link) => *link,
            None => {
                return Err(LinkError::NotFound(id));
            },
        };
        self.links.insert(id, Link::new(id, source, target));
        proof {
            old(self)@.lemma_update_wf(id, source, target);
        }
        Ok(before)
    }

    /// Removes the doublet at `id`, and its name, and returns the doublet.
    pub fn delete(&mut self, id: u32) -> (r: Result<Link, LinkError>)
        requires
            old(self).wf(),
        ensures
            final(self).wf(),
            final(self).spec_db_path() == old(self).spec_db_path(),
            final(self).spec_trace() == old(self).spec_trace(),
            match r {
                Ok(removed) => old(self)@.get(id) == Some(removed) && final(self)@
                    == old(self)@.delete(id),
                Err(e) => old(self)@.get(id) is None && final(self)@ == old(self)@ && e
                    == LinkError::NotFound(id),
            },
    {
        self.names.remove(&id);
        assert(self@.names =~= old(self)@.names.remove(id));
        proof {
            old(self)@.lemma_delete_wf(id);
            old(self)@.lemma_remove_name_wf(id);
        }
        match self.links.remove(&id) {
            Some(link) => Ok(link),
            None => {
                assert(self@.links =~= old(self)@.links);
                assert(self@.names =~= old(self)@.names);
                Err(LinkError::NotFound(id))
            },
        }
    }

    /// The doublets of the store in ascending order of index.
    pub fn all(&self) -> (listing: Vec<&Link>)
        requires
            self.wf(),
        ensures
            self@.lists(listing@.unref()),
    {
        let mut indices: Vec<u64> = Vec::new();
        let ghost keys: Seq<&u32> = self.links.keys().remaining();
        for k in it: self.links.keys()
            invariant
                it.seq() == keys,
                keys.unref().to_set() == self.links@.dom(),
                keys.no_duplicates(),
                indices@.len() == it.index(),
                forall|i: int| 0 <= i < indices@.len() ==> indices@[i] == *keys[i],
        {
            indices.push(*k as u64);
        }
        proof {
            assert(indices@.no_duplicates()) by {
                assert forall|i: int, j: int|
                    0 <= i < indices@.len() && 0 <= j < indices@.len() && i != j implies indices@[i]
                    != indices@[j] by {
                    assert(keys[i] != keys[j]);
                }
            }
            assert forall|k: u64| indices@.contains(k) <==> (k <= u32::MAX
                && self.links@.contains_key(k as u32)) by {
                if indices@.contains(k) {
                    let i = choose|i: int| 0 <= i < indices@.len() && indices@[i] == k;
                    assert(keys.unref()[i] == *keys[i]);
                }
            }
        }
        let ghost unsorted = indices@;
        sort_ascending(&mut indices);
        proof {
            lemma_sorted_distinct(unsorted, indices@);
        }
        let mut listing: Vec<&Link> = Vec::new();
        let mut i: usize = 0;
        while i < indices.len()
            invariant
                i <= indices.len(),
                listing@.len() == i,
                strictly_ascending(indices@),
                forall|k: u64| indices@.contains(k) <==> (k <= u32::MAX && self.links@.contains_key(
                    k as u32,
                )),
                self.wf(),
                forall|a: int|
                    0 <= a < i ==> (#[trigger] listing@[a]).index == indices@[a] && self.links@[indices@[a] as u32]
                        == *listing@[a],
            decreases indices.len() - i,
        {
            assert(indices@.contains(indices@[i as int]));
            let index = indices[i] as u32;
            assert(self@.links.contains_key(index));
            let link = self.links.get(&index).unwrap();
            listing.push(link);
            i += 1;
        }
        proof {
            let out = listing@.unref();
            assert forall|k: u32| #[trigger] self@.links.contains_key(k) implies exists|a: int|
                0 <= a < out.len() && (#[trigger] out[a]).index == k by {
                assert(indices@.contains(k as u64));
                let a = choose|a: int| 0 <= a < indices@.len() && indices@[a] == k as u64;
                assert(out[a].index == k);
            }
            assert forall|a: int, b: int| 0 <= a < b < out.len() implies (#[trigger] out[a]).index
                < (#[trigger] out[b]).index by {}
            assert forall|a: int| 0 <= a < out.len() implies self@.links.contains_key(
                (#[trigger] out[a]).index,
            ) && self@.links[out[a].index] == out[a] by {
                assert(indices@.contains(indices@[a]));
            }
        }
        listing
    }

    /// The doublets that have the given index, source and target, where one is
    /// given, in ascending order of index.
    pub fn query(&self, index: Option<u32>, source: Option<u32>, target: Option<u32>) -> (found:
        Vec<&Link>)
        requires
            self.wf(),
        ensures
            exists|listing: Seq<Link>| #[trigger]
                self@.lists(listing) && found@.unref() == listing.filter(
                    selects(index, source, target),
                ),
    {
        let listing = self.all();
        let mut found: Vec<&Link> = Vec::new();
        let mut i: usize = 0;
        while i < listing.len()
            invariant
                i <= listing.len(),
                found@.unref() == listing@.unref().take(i as int).filter(
                    selects(index, source, target),
                ),
            decreases listing.len() - i,
        {
            let link = listing[i];
            let ghost before = found@.unref();
            proof {
                listing@.unref().lemma_take_succ_push(i as int);
                listing@.unref().take(i as int).lemma_filter_push(
                    *link,
                    selects(index, source, target),
                );
            }
            let pass_index = match index {
                Some(wanted) => wanted == link.index,
                None => true,
            };
            let pass_source = match source {
                Some(wanted) => wanted == link.source,
                None => true,
            };
            let pass_target = match target {
                Some(wanted) => wanted == link.target,
                None => true,
            };
            if pass_index && pass_source && pass_target {
                found.push(link);
            }
            i += 1;
        }
        proof {
            listing@.unref().lemma_take_len();
        }
        found
    }

    /// The lowest index of a doublet with this source and target.
    pub fn search(&self, source: u32, target: u32) -> (r: Option<u32>)
        requires
            self.wf(),
        ensures
            r == self@.search(source, target),
    {
        let mut best: Option<u32> = None;
        let ghost all: Seq<&Link> = self.links.values().remaining();
        for link in it: self.links.values()
            invariant
                it.seq() == all,
                it.seq().unref().to_set() == self.links@.values(),
                self.wf(),
                match best {
                    Some(b) => self@.joins(b, source, target) && forall|j: int|
                        0 <= j < it.index() && (#[trigger] it.seq()[j]).source == source
                            && it.seq()[j].target == target ==> b <= it.seq()[j].index,
                    None => forall|j: int|
                        0 <= j < it.index() ==> !((#[trigger] it.seq()[j]).source == source
                            && it.seq()[j].target == target),
                },
        {
            proof {
                let v = *link;
                assert(it.seq().unref().to_set().contains(v));
            }
            if link.source == source && link.target == target {
                match best {
                    Some(b) => {
                        if link.index < b {
                            best = Some(link.index);
                        }
                    },
                    None => {
                        best = Some(link.index);
                    },
                }
            }
        }
        proof {
            assert forall|k: u32| self@.joins(k, source, target) implies exists|j: int|
                0 <= j < all.len() && *all[j] == #[trigger] self@.links[k] by {
                assert(self.links@.values().contains(self.links@[k]));
            }
            self@.lemma_search(source, target);
            match best {
                Some(b) => {
                    assert forall|k: u32| #[trigger] self@.joins(k, source, target) implies b
                        <= k by {}
                },
                None => {
                    assert forall|k: u32| !self@.joins(k, source, target) by {}
                },
            }
        }
        best
    }

    /// Finds the doublet with this source and target, or creates it.
    pub fn get_or_create(&mut self, source: u32, target: u32) -> (id: u32)
        requires
            old(self).wf(),
            old(self)@.search(source, target) is Some || old(self)@.has_room(),
        ensures
            final(self).wf(),
            (final(self)@, id) == old(self)@.get_or_create(source, target),
            final(self).spec_db_path() == old(self).spec_db_path(),
            final(self).spec_trace() == old(self).spec_trace(),
    {
        match self.search(source, target) {
            Some(id) => id,
            None => self.create(source, target),
        }
    }

    /// The name of the doublet at `id`.
    pub fn get_name(&self, id: u32) -> (r: Option<&String>)
        ensures
            match r {
                Some(name) => self@.get_name(id) == Some(name@),
                None => self@.get_name(id) is None,
            },
    {
        self.names.get(&id)
    }

    /// The index of the doublet that `name` denotes.
    pub fn get_by_name(&self, name: &str) -> (r: Option<u32>)
        requires
            self.wf(),
        ensures
            r == self@.get_by_name(name@),
    {
        let ghost all: Seq<(&u32, &String)> = self.names.iter().remaining();
        for entry in it: self.names.iter()
            invariant
                it.seq() == all,
                self.wf(),
                forall|k: u32| #[trigger]
                    self.names@.contains_key(k) ==> all.contains((&k, &self.names@[k])),
                forall|i: int|
                    0 <= i < all.len() ==> self.names@.contains_key(*(#[trigger] all[i]).0)
                        && self.names@[*all[i].0] == *all[i].1,
                forall|j: int| 0 <= j < it.index() ==> (#[trigger] it.seq()[j]).1@ != name@,
        {
            let id = entry.0;
            let held = entry.1;
            if same_text(held.as_str(), name) {
                proof {
                    assert(self@.is_named(*id, name@));
                    self@.lemma_get_by_name(name@);
                }
                return Some(*id);
            }
        }
        proof {
            self@.lemma_get_by_name(name@);
            assert forall|k: u32| !self@.is_named(k, name@) by {}
        }
        None
    }

    /// Gives `name` to the doublet at `id`, and takes it from the doublet that
    /// had it.
    pub fn set_name(&mut self, id: u32, name: &str)
        requires
            old(self).wf(),
            old(self)@.has_link(id),
        ensures
            final(self).wf(),
            final(self)@ == old(self)@.set_name(id, name@),
            final(self).spec_db_path() == old(self).spec_db_path(),
            final(self).spec_trace() == old(self).spec_trace(),
    {
        match self.get_by_name(name) {
            Some(holder) => {
                self.names.remove(&holder);
                assert(self@.names =~= old(self)@.names.remove(holder));
            },
            None => {},
        }
        let ghost freed = self@.names;
        self.names.insert(id, name.to_owned());
        proof {
            assert(self@.names =~= freed.insert(id, name@));
            old(self)@.lemma_set_name_wf(id, name@);
        }
    }

    /// Takes the name from the doublet at `id`.
    pub fn remove_name(&mut self, id: u32)
        requires
            old(self).wf(),
        ensures
            final(self).wf(),
            final(self)@ == old(self)@.remove_name(id),
            final(self).spec_db_path() == old(self).spec_db_path(),
            final(self).spec_trace() == old(self).spec_trace(),
    {
        self.names.remove(&id);
        proof {
            assert(self@.names =~= old(self)@.names.remove(id));
            old(self)@.lemma_remove_name_wf(id);
        }
    }

    /// Finds the doublet that `name` denotes, or creates a point for it.
    pub fn get_or_create_named(&mut self, name: &str) -> (id: u32)
        requires
            old(self).wf(),
            old(self)@.get_by_name(name@) is Some || old(self)@.has_room(),
        ensures
            final(self).wf(),
            (final(self)@, id) == old(self)@.get_or_create_named(name@),
            final(self).spec_db_path() == old(self).spec_db_path(),
            final(self).spec_trace() == old(self).spec_trace(),
    {
        match self.get_by_name(name) {
            Some(id) => id,
            None => {
                let id = self.next_id;
                self.next_id = self.next_id + 1;
                self.links.insert(id, Link::new(id, id, id));
                self.names.insert(id, name.to_owned());
                proof {
                    assert(self@.names =~= old(self)@.names.insert(id, name@));
                    old(self)@.lemma_create_named_wf(name@);
                }
                id
            },
        }
    }

    /// The name of `id` where it has one, else its number.
    fn label(&self, id: u32) -> (text: String)
        ensures
            text@ == self@.label(id),
    {
        match self.names.get(&id) {
            Some(name) => name.clone(),
            None => decimal_string(id),
        }
    }

    /// A doublet as `(index source target)`, with names in place of indices
    /// where they are known.
    pub fn format(&self, link: &Link) -> (text: String)
        ensures
            text@ == self@.format(*link),
    {
        let mut text = String::new();
        text.push('(');
        text.append(self.label(link.index).as_str());
        text.push(' ');
        text.append(self.label(link.source).as_str());
        text.push(' ');
        text.append(self.label(link.target).as_str());
        text.push(')');
        text
    }

    /// A transition as `(before) (after)`; an absent side is left empty.
    pub fn format_change(&self, before: &Option<Link>, after: &Option<Link>) -> (text: String)
        ensures
            text@ == self@.format_change(*before, *after),
    {
        let mut text = String::new();
        text.push('(');
        match before {
            Some(link) => {
                text.append(self.format(link).as_str());
            },
            None => {},
        }
        text.push(')');
        text.push(' ');
        text.push('(');
        match after {
            Some(link) => {
                text.append(self.format(link).as_str());
            },
            None => {},
        }
        text.push(')');
        text
    }

    /// The nested notation of the doublet at `id`: its source and its target,
    /// each expanded in turn until a point or an unknown reference is
    /// reached. The expansion goes as deep as the store has doublets, which
    /// is enough wherever no doublet contains itself.
    pub fn format_structure(&self, id: u32) -> (r: Result<String, LinkError>)
        ensures
            match r {
                Ok(text) => self@.links.contains_key(id) && text@ == self@.structure(
                    self@.links[id],
                    true,
                    self@.links.len(),
                ),
                Err(e) => !self@.links.contains_key(id) && e == LinkError::NotFound(id),
            },
    {
        match self.links.get(&id) {
            Some(link) => Ok(self.format_structure_recursive(link, true, self.links.len())),
            None => Err(LinkError::NotFound(id)),
        }
    }

    fn format_side(&self, link: &Link, reference: u32, depth: usize) -> (text: String)
        ensures
            text@ == self@.side(*link, reference, depth as nat),
        decreases depth, 0nat,
    {
        if reference == link.index {
            self.label(link.index)
        } else {
            match self.links.get(&reference) {
                Some(inner) => {
                    if depth > 0 {
                        self.format_structure_recursive(inner, false, depth - 1)
                    } else {
                        decimal_string(reference)
                    }
                },
                None => decimal_string(reference),
            }
        }
    }

    fn format_structure_recursive(&self, link: &Link, is_root: bool, depth: usize) -> (text: String)
        ensures
            text@ == self@.structure(*link, is_root, depth as nat),
        decreases depth, 1nat,
    {
        if link.is_full_point() && !is_root {
            return self.label(link.index);
        }
        let mut text = String::new();
        text.push('(');
        text.append(self.format_side(link, link.source, depth).as_str());
        text.push(' ');
        text.append(self.format_side(link, link.target, depth).as_str());
        text.push(')');
        text
    }
}

impl Clone for LinkStorage {
    /// A store that holds what this one holds.
    fn clone(&self) -> (copy: LinkStorage)
        ensures
            copy@ == self@,
            copy.spec_db_path() == self.spec_db_path(),
            copy.spec_trace() == self.spec_trace(),
    {
        let copy = LinkStorage {
            links: self.links.clone(),
            names: self.names.clone(),
            next_id: self.next_id,
            db_path: self.db_path.clone(),
            trace: self.trace,
        };
        copy
    }
}

/// The doublets that have the given index, source and target, where one is
/// given.
pub open spec fn selects(index: Option<u32>, source: Option<u32>, target: Option<u32>) -> spec_fn(
    Link,
) -> bool {
    |link: Link|
        (index is None || index == Some(link.index)) && (source is None || source == Some(
            link.source,
        )) && (target is None || target == Some(link.target))
}

} // verus!
