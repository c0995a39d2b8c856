//! The query processor: reads a query and applies it to a store.

use crate::changes_simplifier::{simplify_changes, Change};
use crate::error::LinkError;
use crate::link::Link;
use crate::link_storage::{LinkStorage, StoreState};
use crate::lino_link::{id_view, is_star, patterns, starts_with_dollar, LinoLink, Pattern};
use crate::parser::{parse_text, Parser};
use crate::query_model::{
    all_ids, any, apply_each, apply_id, assign_variable, bind_each, bind_pattern,
    children_by_id, create_each, delete_each, delete_recorded, insert_child_ids, insert_id,
    insert_side_ids, is_not_update, is_update, join, links_by_id, lookup_id, materialize,
    number, resolve_id, resolve_link_id, resolve_name, resolve_slot, rewrite, run_query,
    simplifies_list, text_lt, text_lt_from, to_doublet_link, updates, Fault, Outcome,
    Transition,
};
use crate::text::{is_number, parse_number, same_text, texts, to_chars};
use vstd::hash_map::StringHashMap;
use vstd::prelude::*;
use vstd::string::{StrSliceExecFns, StringExecFns};

verus! {

/// A query and how it shall be run.
pub struct QueryOptions {
    pub query: String,
    pub trace: bool,
}

impl QueryOptions {
    /// The options for this query.
    pub fn new(query: &str, trace: bool) -> (options: QueryOptions)
        ensures
            options.query@ == query@,
            options.trace == trace,
    {
        QueryOptions { query: query.to_owned(), trace }
    }
}

/// Whether the error `e` reports the fault `fault`.
pub open spec fn reports(e: LinkError, fault: Fault) -> bool {
    match fault {
        Fault::NotFound(index) => e == LinkError::NotFound(index),
        Fault::InvalidFormat => e is InvalidFormat,
        Fault::Exhausted => e is StorageError,
        Fault::Malformed => e is ParseError,
    }
}

/// Whether a step of a query ended as its description says: with this store,
/// and with this value or with an error that reports the fault.
pub open spec fn agrees<T>(
    r: Result<T, LinkError>,
    state: StoreState,
    run: (StoreState, Result<T, Fault>),
) -> bool {
    state == run.0 && match run.1 {
        Ok(value) => r == Ok::<T, LinkError>(value),
        Err(fault) => r is Err && reports(r->Err_0, fault),
    }
}

/// Whether a list of steps ended as its description says.
pub open spec fn agrees_list(
    r: Result<Vec<Transition>, LinkError>,
    state: StoreState,
    run: (StoreState, Result<Seq<Transition>, Fault>),
) -> bool {
    state == run.0 && match run.1 {
        Ok(changes) => r is Ok && r->Ok_0@ == changes,
        Err(fault) => r is Err && reports(r->Err_0, fault),
    }
}

/// The error for a store in which no index is left: a storage error that
/// says so.
fn exhausted() -> (e: LinkError)
    ensures
        e is StorageError,
        e->StorageError_0@ == "No index is left for a new link"@,
{
    LinkError::StorageError(String::from_str("No index is left for a new link"))
}

/// Processes queries against a store.
pub struct QueryProcessor {
    trace: bool,
}

impl QueryProcessor {
    /// Whether the processor was made with tracing on.
    pub closed spec fn spec_trace(&self) -> bool {
        self.trace
    }

    /// A processor, with tracing on or off.
    pub fn new(trace: bool) -> (processor: QueryProcessor)
        ensures
            processor.spec_trace() == trace,
    {
        QueryProcessor { trace }
    }

    /// Whether the processor was made with tracing on.
    pub fn is_trace_enabled(&self) -> (r: bool)
        ensures
            r == self.spec_trace(),
    {
        self.trace
    }

    /// The index that `name` denotes; where it denotes none, a new point is
    /// created for it.
    pub fn resolve_name(&self, storage: &mut LinkStorage, name: &str) -> (r: Result<u32, LinkError>)
        requires
            old(storage).wf(),
        ensures
            final(storage).wf(),
            final(storage).spec_db_path() == old(storage).spec_db_path(),
            final(storage).spec_trace() == old(storage).spec_trace(),
            agrees(r, final(storage)@, resolve_name(old(storage)@, name@)),
    {
        match storage.get_by_name(name) {
            Some(id) => Ok(id),
            None => {
                if storage.has_room() {
                    Ok(storage.get_or_create_named(name))
                } else {
                    Err(exhausted())
                }
            },
        }
    }

    /// The reference that an identifier denotes: the default for the empty
    /// identifier and for a variable that is not bound, the wildcard value
    /// for `*`, the bound value for a bound variable, the number for a
    /// numeric token, and for any other token the index of the doublet of
    /// that name, which is created where the name is new.
    pub fn resolve_id(
        &self,
        storage: &mut LinkStorage,
        id: &str,
        variable_assignments: &StringHashMap<u32>,
        default_value: u32,
    ) -> (r: Result<u32, LinkError>)
        requires
            old(storage).wf(),
        ensures
            final(storage).wf(),
            final(storage).spec_db_path() == old(storage).spec_db_path(),
            final(storage).spec_trace() == old(storage).spec_trace(),
            agrees(
                r,
                final(storage)@,
                resolve_id(old(storage)@, id@, variable_assignments@, default_value),
            ),
    {
        if id.unicode_len() == 0 {
            return Ok(default_value);
        }
        if is_star(id) {
            return Ok(u32::MAX);
        }
        if starts_with_dollar(id) {
            return match variable_assignments.get(id) {
                Some(value) => Ok(*value),
                None => Ok(default_value),
            };
        }
        match parse_number(id) {
            Some(value) => Ok(value),
            None => self.resolve_name(storage, id),
        }
    }

    /// The index that the identifier of a node stands for, 0 where it has no
    /// identifier or the identifier stands for no index. Nothing is created.
    pub fn resolve_link_id(&self, storage: &LinkStorage, lino_link: &LinoLink) -> (r: u32)
        requires
            storage.wf(),
        ensures
            r == resolve_link_id(storage@, lino_link@),
    {
        proof {
            lino_link.lemma_view_values();
        }
        match &lino_link.id {
            Some(id) => match self.lookup_id(storage, id.as_str()) {
                Some(index) => index,
                None => 0,
            },
            None => 0,
        }
    }

    /// The doublet that joins `source` and `target` under the identifier
    /// `id`: at that index, of that name, or, without an identifier, the
    /// doublet that has this source and target already.
    pub fn join(&self, storage: &mut LinkStorage, id: &Option<String>, source: u32, target: u32) -> (r:
        Result<u32, LinkError>)
        requires
            old(storage).wf(),
        ensures
            final(storage).wf(),
            final(storage).spec_db_path() == old(storage).spec_db_path(),
            final(storage).spec_trace() == old(storage).spec_trace(),
            agrees(r, final(storage)@, join(old(storage)@, id_view(*id), source, target)),
    {
        match id {
            Some(id) => {
                match parse_number(id.as_str()) {
                    Some(index) => {
                        if index == 0 {
                            return Err(LinkError::NotFound(0));
                        }
                        if index == u32::MAX {
                            return Err(exhausted());
                        }
                        storage.put(Link::new(index, source, target), None);
                        Ok(index)
                    },
                    None => {
                        match storage.get_by_name(id.as_str()) {
                            Some(index) => {
                                match storage.update(index, source, target) {
                                    Ok(_) => Ok(index),
                                    Err(e) => Err(e),
                                }
                            },
                            None => {
                                if !storage.has_room() {
                                    return Err(exhausted());
                                }
                                let index = storage.create(source, target);
                                storage.set_name(index, id.as_str());
                                Ok(index)
                            },
                        }
                    },
                }
            },
            None => {
                match storage.search(source, target) {
                    Some(index) => Ok(index),
                    None => {
                        if !storage.has_room() {
                            return Err(exhausted());
                        }
                        Ok(storage.create(source, target))
                    },
                }
            },
        }
    }

    /// Makes sure that what a node describes exists, and gives its index.
    ///
    /// A node without children denotes what its identifier resolves to. A
    /// node with two children has both of them materialized, source first,
    /// and is the doublet that joins them: two nodes of the same structure
    /// and without identifier are the same doublet. A node with any other
    /// number of children is refused.
    pub fn ensure_link_created(
        &self,
        storage: &mut LinkStorage,
        lino_link: &LinoLink,
        variable_assignments: &StringHashMap<u32>,
    ) -> (r: Result<u32, LinkError>)
        requires
            old(storage).wf(),
        ensures
            final(storage).wf(),
            final(storage).spec_db_path() == old(storage).spec_db_path(),
            final(storage).spec_trace() == old(storage).spec_trace(),
            agrees(
                r,
                final(storage)@,
                materialize(old(storage)@, lino_link@, variable_assignments@),
            ),
        decreases lino_link,
    {
        proof {
            lino_link.lemma_view_values();
        }
        if !lino_link.has_values() {
            return match &lino_link.id {
                Some(id) => self.resolve_id(storage, id.as_str(), variable_assignments, 0),
                None => Ok(0),
            };
        }
        if lino_link.values_count() != 2 {
            return Err(LinkError::InvalidFormat(String::from_str("Invalid link structure")));
        }
        let values = match &lino_link.values {
            Some(values) => values,
            None => {
                return Ok(0);
            },
        };
        let source = match self.ensure_link_created(storage, &values[0], variable_assignments) {
            Ok(source) => source,
            Err(e) => {
                return Err(e);
            },
        };
        let target = match self.ensure_link_created(storage, &values[1], variable_assignments) {
            Ok(target) => target,
            Err(e) => {
                return Err(e);
            },
        };
        self.join(storage, &lino_link.id, source, target)
    }

    /// The nodes of one side of a query, by identifier: its children, and the
    /// side itself where it carries an identifier. A later node replaces an
    /// earlier one of the same identifier.
    pub fn build_links_by_id(&self, lino_link: &LinoLink) -> (by_id: StringHashMap<LinoLink>)
        ensures
            pattern_map(by_id@) == links_by_id(lino_link@),
    {
        proof {
            lino_link.lemma_view_values();
        }
        let mut by_id: StringHashMap<LinoLink> = StringHashMap::new();
        match &lino_link.values {
            Some(values) => {
                let mut i: usize = 0;
                while i < values.len()
                    invariant
                        i <= values.len(),
                        pattern_map(by_id@) == children_by_id(patterns(values@), i as int),
                    decreases values.len() - i,
                {
                    let value = &values[i];
                    proof {
                        value.lemma_view_values();
                    }
                    let ghost before = by_id@;
                    match &value.id {
                        Some(id) => {
                            by_id.insert(id.clone(), value.clone());
                        },
                        None => {},
                    }
                    i += 1;
                }
            },
            None => {},
        }
        let ghost before = by_id@;
        match &lino_link.id {
            Some(id) => {
                by_id.insert(id.clone(), lino_link.clone());
            },
            None => {},
        }
        by_id
    }

    /// Binds `id` to `value` where `id` is a variable and `value` is not 0.
    pub fn assign_variable(
        &self,
        id: &Option<String>,
        value: u32,
        assignments: &mut StringHashMap<u32>,
    )
        ensures
            final(assignments)@ == assign_variable(old(assignments)@, id_view(*id), value),
    {
        match id {
            Some(id) => {
                if starts_with_dollar(id.as_str()) && value != 0 {
                    assignments.insert(id.clone(), value);
                }
            },
            None => {},
        }
    }

    /// The index that an identifier stands for without creating anything:
    /// the number of a numeric token, and the index of the doublet that a
    /// name denotes.
    pub fn lookup_id(&self, storage: &LinkStorage, id: &str) -> (r: Option<u32>)
        requires
            storage.wf(),
        ensures
            r == lookup_id(storage@, id@),
    {
        if id.unicode_len() == 0 || is_star(id) || starts_with_dollar(id) {
            return None;
        }
        match parse_number(id) {
            Some(value) => Some(value),
            None => storage.get_by_name(id),
        }
    }

    /// Resolves a part of a query that is a number or a name: a name
    /// denotes its doublet, which is created where the name is new.
    pub fn resolve_part(&self, storage: &mut LinkStorage, part: &str) -> (r: Result<u32, LinkError>)
        requires
            old(storage).wf(),
        ensures
            final(storage).wf(),
            final(storage).spec_db_path() == old(storage).spec_db_path(),
            final(storage).spec_trace() == old(storage).spec_trace(),
            agrees(
                r,
                final(storage)@,
                if is_number(part@) {
                    (old(storage)@, Ok(number(part@)))
                } else {
                    resolve_name(old(storage)@, part@)
                },
            ),
    {
        match parse_number(part) {
            Some(id) => Ok(id),
            None => self.resolve_name(storage, part),
        }
    }

    /// Binds the variables of one restriction node from the doublet that its
    /// identifier stands for.
    fn bind_variables(
        &self,
        storage: &LinkStorage,
        lino_link: &LinoLink,
        assignments: &mut StringHashMap<u32>,
    )
        requires
            storage.wf(),
        ensures
            final(assignments)@ == bind_pattern(storage@, lino_link@, old(assignments)@),
    {
        proof {
            lino_link.lemma_view_values();
        }
        if lino_link.values_count() != 2 {
            return ;
        }
        let values = match &lino_link.values {
            Some(values) => values,
            None => {
                return ;
            },
        };
        let id = match &lino_link.id {
            Some(id) => id,
            None => {
                return ;
            },
        };
        let index = match self.lookup_id(storage, id.as_str()) {
            Some(index) => index,
            None => {
                return ;
            },
        };
        let actual = match storage.get(index) {
            Some(link) => *link,
            None => {
                return ;
            },
        };
        proof {
            values[0].lemma_view_values();
            values[1].lemma_view_values();
        }
        self.assign_variable(&values[0].id, actual.source, assignments);
        self.assign_variable(&values[1].id, actual.target, assignments);
    }

    /// The identifier of a node as a reference, the default where it has
    /// none.
    fn resolve_slot(
        &self,
        storage: &mut LinkStorage,
        id: &Option<String>,
        variable_assignments: &StringHashMap<u32>,
        default_value: u32,
    ) -> (r: Result<u32, LinkError>)
        requires
            old(storage).wf(),
        ensures
            final(storage).wf(),
            final(storage).spec_db_path() == old(storage).spec_db_path(),
            final(storage).spec_trace() == old(storage).spec_trace(),
            agrees(
                r,
                final(storage)@,
                resolve_slot(old(storage)@, id_view(*id), variable_assignments@, default_value),
            ),
    {
        match id {
            Some(id) => self.resolve_id(storage, id.as_str(), variable_assignments, default_value),
            None => Ok(default_value),
        }
    }

    /// The doublet that a node describes: its identifier as the index, and
    /// the identifiers of its first two children as source and target. What
    /// the node does not say is the wildcard value on the restriction side
    /// and 0 on the substitution side.
    pub fn to_doublet_link(
        &self,
        storage: &mut LinkStorage,
        lino_link: &LinoLink,
        variable_assignments: &StringHashMap<u32>,
        use_any_default: bool,
    ) -> (r: Result<Link, LinkError>)
        requires
            old(storage).wf(),
        ensures
            final(storage).wf(),
            final(storage).spec_db_path() == old(storage).spec_db_path(),
            final(storage).spec_trace() == old(storage).spec_trace(),
            agrees(
                r,
                final(storage)@,
                to_doublet_link(
                    old(storage)@,
                    lino_link@,
                    variable_assignments@,
                    if use_any_default {
                        any()
                    } else {
                        0
                    },
                ),
            ),
    {
        proof {
            lino_link.lemma_view_values();
        }
        let default_value = if use_any_default {
            u32::MAX
        } else {
            0
        };
        let index = match self.resolve_slot(
            storage,
            &lino_link.id,
            variable_assignments,
            default_value,
        ) {
            Ok(index) => index,
            Err(e) => {
                return Err(e);
            },
        };
        let mut source = default_value;
        let mut target = default_value;
        match &lino_link.values {
            Some(values) => {
                if values.len() >= 2 {
                    proof {
                        values[0].lemma_view_values();
                        values[1].lemma_view_values();
                    }
                    source =
                    match self.resolve_slot(
                        storage,
                        &values[0].id,
                        variable_assignments,
                        default_value,
                    ) {
                        Ok(source) => source,
                        Err(e) => {
                            return Err(e);
                        },
                    };
                    target =
                    match self.resolve_slot(
                        storage,
                        &values[1].id,
                        variable_assignments,
                        default_value,
                    ) {
                        Ok(target) => target,
                        Err(e) => {
                            return Err(e);
                        },
                    };
                }
            },
            None => {},
        }
        Ok(Link::new(index, source, target))
    }

    /// Splits the updates from a list of transitions, simplifies them, and
    /// puts them behind the creations and deletions.
    pub fn simplify_changes_list(&self, changes: &Vec<Transition>) -> (result: Vec<Transition>)
        ensures
            simplifies_list(changes@, result@),
    {
        let mut to_simplify: Vec<Change> = Vec::new();
        let mut result: Vec<Transition> = Vec::new();
        let mut i: usize = 0;
        while i < changes.len()
            invariant
                i <= changes.len(),
                to_simplify@ == updates(changes@.take(i as int)),
                result@ == changes@.take(i as int).filter(is_not_update()),
            decreases changes.len() - i,
        {
            let t = changes[i];
            let ghost seen = changes@.take(i as int);
            proof {
                changes@.lemma_take_succ_push(i as int);
                seen.lemma_filter_push(t, is_update());
                seen.lemma_filter_push(t, is_not_update());
            }
            match (t.0, t.1) {
                (Some(before), Some(after)) => {
                    to_simplify.push((before, after));
                },
                _ => {
                    result.push(t);
                },
            }
            i += 1;
        }
        proof {
            changes@.lemma_take_len();
        }
        let simplified = simplify_changes(to_simplify);
        let ghost kept = result@;
        let mut k: usize = 0;
        while k < simplified.len()
            invariant
                k <= simplified.len(),
                result@ == kept + simplified@.take(k as int).map_values(
                    |c: Change| (Some(c.0), Some(c.1)),
                ),
            decreases simplified.len() - k,
        {
            let c = simplified[k];
            result.push((Some(c.0), Some(c.1)));
            proof {
                simplified@.lemma_take_succ_push(k as int);
                assert(result@ =~= kept + simplified@.take(k + 1).map_values(
                    |c: Change| (Some(c.0), Some(c.1)),
                ));
            }
            k += 1;
        }
        proof {
            simplified@.lemma_take_len();
        }
        result
    }

    /// Materializes the children of the substitution, one after the other,
    /// and records each creation.
    fn create_all(&self, storage: &mut LinkStorage, substitution: &LinoLink) -> (r: Result<
        Vec<Transition>,
        LinkError,
    >)
        requires
            old(storage).wf(),
            substitution@.values is Some,
        ensures
            final(storage).wf(),
            final(storage).spec_db_path() == old(storage).spec_db_path(),
            final(storage).spec_trace() == old(storage).spec_trace(),
            agrees_list(
                r,
                final(storage)@,
                create_each(
                    old(storage)@,
                    substitution@.values->Some_0,
                    0,
                    Map::empty(),
                    Seq::empty(),
                ),
            ),
    {
        proof {
            substitution.lemma_view_values();
        }
        let no_variables: StringHashMap<u32> = StringHashMap::new();
        let mut changes: Vec<Transition> = Vec::new();
        let values = match &substitution.values {
            Some(values) => values,
            None => {
                return Ok(changes);
            },
        };
        let ghost items = patterns(values@);
        let ghost goal = create_each(old(storage)@, items, 0, Map::empty(), Seq::empty());
        let mut i: usize = 0;
        while i < values.len()
            invariant
                i <= values.len(),
                items == patterns(values@),
                no_variables@ == Map::<Seq<char>, u32>::empty(),
                storage.wf(),
                storage.spec_db_path() == old(storage).spec_db_path(),
                storage.spec_trace() == old(storage).spec_trace(),
                items == substitution@.values->Some_0,
                goal == create_each(old(storage)@, items, 0, Map::empty(), Seq::empty()),
                create_each(storage@, items, i as int, Map::empty(), changes@) == goal,
            decreases values.len() - i,
        {
            let ghost at = storage@;
            let created = match self.ensure_link_created(storage, &values[i], &no_variables) {
                Ok(created) => created,
                Err(e) => {
                    return Err(e);
                },
            };
            match storage.get(created) {
                Some(link) => {
                    changes.push((None, Some(*link)));
                },
                None => {},
            }
            i += 1;
        }
        Ok(changes)
    }

    /// Deletes what the children of the restriction stand for, one after the
    /// other, and records each deletion. What does not exist is passed over.
    fn delete_all(&self, storage: &mut LinkStorage, restriction: &LinoLink) -> (changes: Vec<
        Transition,
    >)
        requires
            old(storage).wf(),
            restriction@.values is Some,
        ensures
            final(storage).wf(),
            final(storage).spec_db_path() == old(storage).spec_db_path(),
            final(storage).spec_trace() == old(storage).spec_trace(),
            (final(storage)@, changes@) == delete_each(
                old(storage)@,
                restriction@.values->Some_0,
                0,
                Seq::empty(),
            ),
    {
        proof {
            restriction.lemma_view_values();
        }
        let mut changes: Vec<Transition> = Vec::new();
        let values = match &restriction.values {
            Some(values) => values,
            None => {
                return changes;
            },
        };
        let ghost items = patterns(values@);
        let ghost goal = delete_each(old(storage)@, items, 0, Seq::empty());
        let mut i: usize = 0;
        while i < values.len()
            invariant
                i <= values.len(),
                items == patterns(values@),
                storage.wf(),
                storage.spec_db_path() == old(storage).spec_db_path(),
                storage.spec_trace() == old(storage).spec_trace(),
                delete_each(storage@, items, i as int, changes@) == goal,
            decreases values.len() - i,
        {
            let delete_id = self.resolve_link_id(storage, &values[i]);
            self.delete_recorded(storage, delete_id, &mut changes);
            i += 1;
        }
        changes
    }

    /// Deletes the doublet at `id` and records it. The index 0 and an index
    /// without a doublet are passed over.
    fn delete_recorded(&self, storage: &mut LinkStorage, id: u32, changes: &mut Vec<Transition>)
        requires
            old(storage).wf(),
        ensures
            final(storage).wf(),
            final(storage).spec_db_path() == old(storage).spec_db_path(),
            final(storage).spec_trace() == old(storage).spec_trace(),
            (final(storage)@, final(changes)@) == delete_recorded(old(storage)@, old(changes)@, id),
    {
        if id != 0 && storage.has_link(id) {
            match storage.delete(id) {
                Ok(before) => {
                    changes.push((Some(before), None));
                },
                Err(_) => {},
            }
        }
    }

    /// Applies what one identifier of a query asks for: an update where both
    /// sides have it, a deletion where only the restriction has it, a
    /// creation where only the substitution has it.
    fn apply_id(
        &self,
        storage: &mut LinkStorage,
        restriction_links: &StringHashMap<LinoLink>,
        substitution_links: &StringHashMap<LinoLink>,
        variable_assignments: &StringHashMap<u32>,
        id: &str,
        changes: &mut Vec<Transition>,
    ) -> (r: Result<(), LinkError>)
        requires
            old(storage).wf(),
        ensures
            final(storage).wf(),
            final(storage).spec_db_path() == old(storage).spec_db_path(),
            final(storage).spec_trace() == old(storage).spec_trace(),
            ({
                let run = apply_id(
                    old(storage)@,
                    pattern_map(restriction_links@),
                    pattern_map(substitution_links@),
                    variable_assignments@,
                    id@,
                    old(changes)@,
                );
                &&& final(storage)@ == run.0
                &&& match run.1 {
                    Ok(recorded) => r is Ok && final(changes)@ == recorded,
                    Err(fault) => r is Err && reports(r->Err_0, fault),
                }
            }),
    {
        match (restriction_links.get(id), substitution_links.get(id)) {
            (Some(restriction_lino), Some(substitution_lino)) => {
                let matched = match self.to_doublet_link(
                    storage,
                    restriction_lino,
                    variable_assignments,
                    true,
                ) {
                    Ok(matched) => matched,
                    Err(e) => {
                        return Err(e);
                    },
                };
                let wanted = match self.to_doublet_link(
                    storage,
                    substitution_lino,
                    variable_assignments,
                    false,
                ) {
                    Ok(wanted) => wanted,
                    Err(e) => {
                        return Err(e);
                    },
                };
                if matched.index != 0 && storage.has_link(matched.index) {
                    match storage.update(matched.index, wanted.source, wanted.target) {
                        Ok(before) => {
                            match storage.get(matched.index) {
                                Some(after) => {
                                    changes.push((Some(before), Some(*after)));
                                },
                                None => {},
                            }
                        },
                        Err(_) => {},
                    }
                }
                Ok(())
            },
            (Some(restriction_lino), None) => {
                let matched = match self.to_doublet_link(
                    storage,
                    restriction_lino,
                    variable_assignments,
                    true,
                ) {
                    Ok(matched) => matched,
                    Err(e) => {
                        return Err(e);
                    },
                };
                self.delete_recorded(storage, matched.index, changes);
                Ok(())
            },
            (None, Some(substitution_lino)) => {
                let created = match self.ensure_link_created(
                    storage,
                    substitution_lino,
                    variable_assignments,
                ) {
                    Ok(created) => created,
                    Err(e) => {
                        return Err(e);
                    },
                };
                match storage.get(created) {
                    Some(link) => {
                        changes.push((None, Some(*link)));
                    },
                    None => {},
                }
                Ok(())
            },
            (None, None) => Ok(()),
        }
    }

    /// Rewrites the store by a query whose two sides both have children.
    fn rewrite(&self, storage: &mut LinkStorage, restriction: &LinoLink, substitution: &LinoLink) -> (r:
        Result<Vec<Transition>, LinkError>)
        requires
            old(storage).wf(),
        ensures
            final(storage).wf(),
            final(storage).spec_db_path() == old(storage).spec_db_path(),
            final(storage).spec_trace() == old(storage).spec_trace(),
            agrees_list(r, final(storage)@, rewrite(old(storage)@, restriction@, substitution@)),
    {
        let restriction_links = self.build_links_by_id(restriction);
        let substitution_links = self.build_links_by_id(substitution);
        let mut all_ids: Vec<String> = Vec::new();
        assert(texts(all_ids@) =~= Seq::<Seq<char>>::empty());
        add_side_ids(&mut all_ids, restriction);
        add_side_ids(&mut all_ids, substitution);
        let ghost ids = texts(all_ids@);
        let ghost by_restriction = pattern_map(restriction_links@);
        let ghost by_substitution = pattern_map(substitution_links@);

        let mut variable_assignments: StringHashMap<u32> = StringHashMap::new();
        let mut i: usize = 0;
        while i < all_ids.len()
            invariant
                i <= all_ids.len(),
                storage.wf(),
                ids == texts(all_ids@),
                by_restriction == pattern_map(restriction_links@),
                bind_each(storage@, by_restriction, ids, i as int, variable_assignments@) == bind_each(
                    storage@,
                    by_restriction,
                    ids,
                    0,
                    Map::empty(),
                ),
            decreases all_ids.len() - i,
        {
            match restriction_links.get(all_ids[i].as_str()) {
                Some(lino_link) => {
                    self.bind_variables(storage, lino_link, &mut variable_assignments);
                },
                None => {},
            }
            i += 1;
        }
        let ghost vars = variable_assignments@;
        let ghost goal = apply_each(
            old(storage)@,
            by_restriction,
            by_substitution,
            vars,
            ids,
            0,
            Seq::empty(),
        );
        let mut changes: Vec<Transition> = Vec::new();
        let mut k: usize = 0;
        while k < all_ids.len()
            invariant
                k <= all_ids.len(),
                ids == texts(all_ids@),
                by_restriction == pattern_map(restriction_links@),
                by_substitution == pattern_map(substitution_links@),
                vars == variable_assignments@,
                storage.wf(),
                storage.spec_db_path() == old(storage).spec_db_path(),
                storage.spec_trace() == old(storage).spec_trace(),
                goal == rewrite(old(storage)@, restriction@, substitution@),
                apply_each(
                    storage@,
                    by_restriction,
                    by_substitution,
                    vars,
                    ids,
                    k as int,
                    changes@,
                ) == goal,
            decreases all_ids.len() - k,
        {
            let ghost at = storage@;
            let ghost recorded = changes@;
            match self.apply_id(
                storage,
                &restriction_links,
                &substitution_links,
                &variable_assignments,
                all_ids[k].as_str(),
                &mut changes,
            ) {
                Ok(_) => {},
                Err(e) => {
                    assert(apply_each(
                        at,
                        by_restriction,
                        by_substitution,
                        vars,
                        ids,
                        k as int,
                        recorded,
                    ).1 is Err);
                    return Err(e);
                },
            }
            k += 1;
        }
        Ok(changes)
    }

    /// Applies a query to the store and returns the transitions that it made.
    ///
    /// An empty text is no query and changes nothing. Any other text must
    /// hold one node with two children, the restriction and the
    /// substitution. Where only the substitution has children they are
    /// created; where only the restriction has, they are deleted; where both
    /// have, the doublets are rewritten and the transitions simplified. A
    /// query that fails leaves the store as it was.
    pub fn process_query(&self, storage: &mut LinkStorage, query: &str) -> (r: Result<
        Vec<Transition>,
        LinkError,
    >)
        requires
            old(storage).wf(),
        ensures
            final(storage).wf(),
            final(storage).spec_db_path() == old(storage).spec_db_path(),
            final(storage).spec_trace() == old(storage).spec_trace(),
            answers(old(storage)@, query@, r, final(storage)@),
    {
        let parser = Parser::new();
        let parsed_links = match parser.parse(query) {
            Ok(parsed_links) => parsed_links,
            Err(e) => {
                return Err(e);
            },
        };
        if parsed_links.len() == 0 {
            return Ok(Vec::new());
        }
        if parsed_links.len() != 1 || parsed_links[0].values_count() != 2 {
            return Err(
                LinkError::InvalidFormat(
                    String::from_str("Expected one link of a restriction and a substitution"),
                ),
            );
        }
        let outer_link = &parsed_links[0];
        proof {
            outer_link.lemma_view_values();
        }
        let outer_values = match &outer_link.values {
            Some(outer_values) => outer_values,
            None => {
                return Ok(Vec::new());
            },
        };
        let restriction_link = &outer_values[0];
        let substitution_link = &outer_values[1];
        proof {
            restriction_link.lemma_view_values();
            substitution_link.lemma_view_values();
        }
        if restriction_link.values_count() == 0 && substitution_link.values_count() == 0 {
            return Ok(Vec::new());
        }
        let backup = storage.clone();
        let outcome = if restriction_link.values_count() == 0 {
            self.create_all(storage, substitution_link)
        } else if substitution_link.values_count() == 0 {
            Ok(self.delete_all(storage, restriction_link))
        } else {
            match self.rewrite(storage, restriction_link, substitution_link) {
                Ok(changes) => Ok(self.simplify_changes_list(&changes)),
                Err(e) => Err(e),
            }
        };
        match outcome {
            Ok(changes) => Ok(changes),
            Err(e) => {
                *storage = backup;
                Err(e)
            },
        }
    }
}

/// Whether `process_query` answered the query `text` as the rules say: with
/// the store and the transitions that the query makes, or, where the text is
/// malformed or the query fails, with the error for it and the store as it
/// was.
pub open spec fn answers(
    before: StoreState,
    text: Seq<char>,
    r: Result<Vec<Transition>, LinkError>,
    after: StoreState,
) -> bool {
    match parse_text(text) {
        None => r is Err && r->Err_0 is ParseError && after == before,
        Some(nodes) => match run_query(before, nodes) {
            Outcome::Done { store, changes, simplify } => {
                &&& r is Ok
                &&& after == store
                &&& if simplify {
                    simplifies_list(changes, r->Ok_0@)
                } else {
                    r->Ok_0@ == changes
                }
            },
            Outcome::Failed { fault } => r is Err && reports(r->Err_0, fault) && after == before,
        },
    }
}

/// Where every element of a list from `at` on is above `id`, putting `id` at
/// its place touches only the part before `at`.
proof fn lemma_insert_id_before(ids: Seq<Seq<char>>, id: Seq<char>, at: int)
    requires
        0 <= at <= ids.len(),
        forall|k: int| at <= k < ids.len() ==> ids[k] != id && !text_lt(ids[k], id),
    ensures
        insert_id(ids, id) == insert_id(ids.take(at), id) + ids.skip(at),
    decreases ids.len() - at,
{
    if at == ids.len() {
        assert(ids.take(at) =~= ids);
    } else {
        let shorter = ids.drop_last();
        lemma_insert_id_before(shorter, id, at);
        assert(shorter.take(at) =~= ids.take(at));
        assert((insert_id(ids.take(at), id) + shorter.skip(at)).push(ids.last()) =~= insert_id(
            ids.take(at),
            id,
        ) + ids.skip(at));
    }
}

/// Whether `a` comes before `b` in lexicographic order.
fn text_less(a: &str, b: &str) -> (r: bool)
    ensures
        r == text_lt(a@, b@),
{
    let left = to_chars(a);
    let right = to_chars(b);
    let mut i: usize = 0;
    loop
        invariant
            left@ == a@,
            right@ == b@,
            i <= left.len(),
            i <= right.len(),
            text_lt_from(a@, b@, i as int) == text_lt(a@, b@),
        decreases left.len() - i,
    {
        if i >= right.len() {
            return false;
        }
        if i >= left.len() {
            return true;
        }
        if left[i] != right[i] {
            return left[i] < right[i];
        }
        i += 1;
    }
}

/// Puts `id` at its place in an ascending list, unless the list holds it.
fn add_id(ids: &mut Vec<String>, id: &str)
    ensures
        texts(final(ids)@) == insert_id(texts(old(ids)@), id@),
{
    let ghost before = texts(ids@);
    let mut at: usize = ids.len();
    while at > 0 && !same_text(ids[at - 1].as_str(), id) && !text_less(
        ids[at - 1].as_str(),
        id,
    )
        invariant
            at <= ids.len(),
            *ids == *old(ids),
            before == texts(ids@),
            forall|k: int| at <= k < before.len() ==> before[k] != id@ && !text_lt(before[k], id@),
        decreases at,
    {
        at -= 1;
    }
    proof {
        lemma_insert_id_before(before, id@, at as int);
    }
    if at > 0 && same_text(ids[at - 1].as_str(), id) {
        return ;
    }
    ids.insert(at, id.to_owned());
}

/// Adds the identifiers of one side of a query to an ascending list.
fn add_side_ids(ids: &mut Vec<String>, side: &LinoLink)
    ensures
        texts(final(ids)@) == insert_side_ids(texts(old(ids)@), side@),
{
    proof {
        side.lemma_view_values();
    }
    match &side.values {
        Some(values) => {
            let mut i: usize = 0;
            while i < values.len()
                invariant
                    i <= values.len(),
                    texts(ids@) == insert_child_ids(texts(old(ids)@), patterns(values@), i as int),
                decreases values.len() - i,
            {
                proof {
                    values[i as int].lemma_view_values();
                }
                match &values[i].id {
                    Some(id) => {
                        add_id(ids, id.as_str());
                    },
                    None => {},
                }
                i += 1;
            }
        },
        None => {},
    }
    match &side.id {
        Some(id) => {
            add_id(ids, id.as_str());
        },
        None => {},
    }
}

/// What each node of a map holds.
pub open spec fn pattern_map(nodes: Map<Seq<char>, LinoLink>) -> Map<Seq<char>, Pattern> {
    Map::new(|id: Seq<char>| nodes.contains_key(id), |id: Seq<char>| nodes[id]@)
}

} // verus!
