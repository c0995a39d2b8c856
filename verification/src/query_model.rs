//! What a query does to a store, as functions on plain values.
//!
//! A query is one composite of two children: the restriction says what must
//! exist, the substitution what shall exist afterwards.

use crate::changes_simplifier::{simplifies_to, Change};
use crate::link::Link;
use crate::link_storage::StoreState;
use crate::lino_link::{is_variable_name, Pattern};
use crate::text::{digits_value, is_number};
use vstd::prelude::*;

verus! {

/// One unit of change: a doublet before and after, where each side may be
/// absent.
pub type Transition = (Option<Link>, Option<Link>);

/// The values that the variables of a query are bound to.
pub type Bindings = Map<Seq<char>, u32>;

/// Why a query cannot be carried out.
pub ghost enum Fault {
    /// No doublet has this index.
    NotFound(u32),
    /// The query does not have the shape that is asked for.
    InvalidFormat,
    /// No index is left for a new doublet.
    Exhausted,
    /// The text is not well-formed notation.
    Malformed,
}

/// The reference that matches anything.
pub open spec fn any() -> u32 {
    u32::MAX
}

/// The number that a numeric token denotes.
pub open spec fn number(id: Seq<char>) -> u32 {
    digits_value(id) as u32
}

/// The index that `name` denotes; where it denotes none, a new point is
/// created for it.
pub open spec fn resolve_name(store: StoreState, name: Seq<char>) -> (StoreState, Result<u32, Fault>) {
    match store.get_by_name(name) {
        Some(id) => (store, Ok(id)),
        None => if store.has_room() {
            (store.create_named(name), Ok(store.next_id))
        } else {
            (store, Err(Fault::Exhausted))
        },
    }
}

/// The reference that an identifier denotes: the default for the empty
/// identifier and for a variable that is not bound, the wildcard value for
/// `*`, the bound value for a bound variable, the number for a numeric token,
/// and for any other token the index of the doublet of that name.
pub open spec fn resolve_id(store: StoreState, id: Seq<char>, vars: Bindings, default: u32) -> (
    StoreState,
    Result<u32, Fault>,
) {
    if id.len() == 0 {
        (store, Ok(default))
    } else if id == seq!['*'] {
        (store, Ok(any()))
    } else if is_variable_name(id) {
        if vars.contains_key(id) {
            (store, Ok(vars[id]))
        } else {
            (store, Ok(default))
        }
    } else if is_number(id) {
        (store, Ok(number(id)))
    } else {
        resolve_name(store, id)
    }
}

/// The doublet that joins `source` and `target` under the identifier `id`.
///
/// With a number, the doublet at that index is created or overwritten. The
/// index 0 stands for no doublet, and the highest index is not taken, since
/// behind it no index would be free. With
/// a name, the doublet of that name is overwritten, or a new doublet gets the
/// name. Without an identifier, the doublet with this source and target is
/// looked up, and only created where there is none.
pub open spec fn join(store: StoreState, id: Option<Seq<char>>, source: u32, target: u32) -> (
    StoreState,
    Result<u32, Fault>,
) {
    match id {
        Some(id) => if is_number(id) {
            let index = number(id);
            if index == 0 {
                (store, Err(Fault::NotFound(0)))
            } else if index == u32::MAX {
                (store, Err(Fault::Exhausted))
            } else {
                (store.put(Link { index, source, target }, None), Ok(index))
            }
        } else {
            match store.get_by_name(id) {
                Some(index) => if store.has_link(index) {
                    (store.update(index, source, target), Ok(index))
                } else {
                    (store, Err(Fault::NotFound(index)))
                },
                None => if store.has_room() {
                    (store.create(source, target).set_name(store.next_id, id), Ok(store.next_id))
                } else {
                    (store, Err(Fault::Exhausted))
                },
            }
        },
        None => match store.search(source, target) {
            Some(index) => (store, Ok(index)),
            None => if store.has_room() {
                (store.create(source, target), Ok(store.next_id))
            } else {
                (store, Err(Fault::Exhausted))
            },
        },
    }
}

/// Makes sure that what `pattern` describes exists, and gives its index.
///
/// A node without children denotes what its identifier resolves to. A node
/// with two children has both of them materialized, source first, and is the
/// doublet that joins them. Any other number of children is refused.
pub open spec fn materialize(store: StoreState, pattern: Pattern, vars: Bindings) -> (
    StoreState,
    Result<u32, Fault>,
)
    decreases pattern,
{
    if !pattern.has_values() {
        match pattern.id {
            Some(id) => resolve_id(store, id, vars, 0),
            None => (store, Ok(0)),
        }
    } else if pattern.values_count() == 2 {
        let (after_source, source) = materialize(store, pattern.values->Some_0[0], vars);
        match source {
            Ok(source) => {
                let (after_target, target) = materialize(
                    after_source,
                    pattern.values->Some_0[1],
                    vars,
                );
                match target {
                    Ok(target) => join(after_target, pattern.id, source, target),
                    Err(fault) => (after_target, Err(fault)),
                }
            },
            Err(fault) => (after_source, Err(fault)),
        }
    } else {
        (store, Err(Fault::InvalidFormat))
    }
}

/// The record of a creation: nothing before, the doublet at `id` after. An
/// index without a doublet leaves no record.
pub open spec fn record_created(store: StoreState, changes: Seq<Transition>, id: u32) -> Seq<
    Transition,
> {
    if store.has_link(id) {
        changes.push((None, Some(store.links[id])))
    } else {
        changes
    }
}

/// Materializes the patterns from position `i` on, one after the other, and
/// records each creation.
pub open spec fn create_each(
    store: StoreState,
    items: Seq<Pattern>,
    i: int,
    vars: Bindings,
    changes: Seq<Transition>,
) -> (StoreState, Result<Seq<Transition>, Fault>)
    decreases items.len() - i,
{
    if i < 0 || i >= items.len() {
        (store, Ok(changes))
    } else {
        let (next, made) = materialize(store, items[i], vars);
        match made {
            Ok(id) => create_each(next, items, i + 1, vars, record_created(next, changes, id)),
            Err(fault) => (next, Err(fault)),
        }
    }
}

/// The index that the identifier of a pattern stands for, 0 where it has no
/// identifier or the identifier stands for no index. Nothing is created.
pub open spec fn resolve_link_id(store: StoreState, pattern: Pattern) -> u32 {
    match pattern.id {
        Some(id) => match lookup_id(store, id) {
            Some(index) => index,
            None => 0,
        },
        None => 0,
    }
}

/// Deletes the doublet at `id` and records it. The index 0 and an index
/// without a doublet are passed over.
pub open spec fn delete_recorded(store: StoreState, changes: Seq<Transition>, id: u32) -> (
    StoreState,
    Seq<Transition>,
) {
    if id != 0 && store.has_link(id) {
        (store.delete(id), changes.push((Some(store.links[id]), None)))
    } else {
        (store, changes)
    }
}

/// Deletes what the patterns from position `i` on stand for, one after the
/// other. A pattern that stands for no doublet is passed over.
pub open spec fn delete_each(
    store: StoreState,
    items: Seq<Pattern>,
    i: int,
    changes: Seq<Transition>,
) -> (StoreState, Seq<Transition>)
    decreases items.len() - i,
{
    if i < 0 || i >= items.len() {
        (store, changes)
    } else {
        let (after, recorded) = delete_recorded(store, changes, resolve_link_id(store, items[i]));
        delete_each(after, items, i + 1, recorded)
    }
}

/// The first `n` children of a side that carry an identifier, by identifier;
/// a later child replaces an earlier one of the same identifier.
pub open spec fn children_by_id(values: Seq<Pattern>, n: int) -> Map<Seq<char>, Pattern>
    decreases n,
{
    if n <= 0 || n > values.len() {
        Map::empty()
    } else {
        let before = children_by_id(values, n - 1);
        match values[n - 1].id {
            Some(id) => before.insert(id, values[n - 1]),
            None => before,
        }
    }
}

/// The patterns of one side of a query, by identifier: its children, and the
/// side itself where it carries an identifier.
pub open spec fn links_by_id(side: Pattern) -> Map<Seq<char>, Pattern> {
    let children = match side.values {
        Some(values) => children_by_id(values, values.len() as int),
        None => Map::empty(),
    };
    match side.id {
        Some(id) => children.insert(id, side),
        None => children,
    }
}

/// Order of identifiers: character by character from position `i` on, and a
/// text before each of its extensions.
pub open spec fn text_lt_from(a: Seq<char>, b: Seq<char>, i: int) -> bool
    decreases a.len() - i,
{
    if i < 0 || i >= b.len() {
        false
    } else if i >= a.len() {
        true
    } else if a[i] != b[i] {
        a[i] < b[i]
    } else {
        text_lt_from(a, b, i + 1)
    }
}

/// Lexicographic order of identifiers.
pub open spec fn text_lt(a: Seq<char>, b: Seq<char>) -> bool {
    text_lt_from(a, b, 0)
}

/// An ascending list of identifiers with `id` put at its place, unless the
/// list holds it already.
pub open spec fn insert_id(ids: Seq<Seq<char>>, id: Seq<char>) -> Seq<Seq<char>>
    decreases ids.len(),
{
    if ids.len() == 0 {
        seq![id]
    } else if ids.last() == id {
        ids
    } else if text_lt(ids.last(), id) {
        ids.push(id)
    } else {
        insert_id(ids.drop_last(), id).push(ids.last())
    }
}

/// The identifiers of the first `n` children, added to `ids`.
pub open spec fn insert_child_ids(ids: Seq<Seq<char>>, values: Seq<Pattern>, n: int) -> Seq<
    Seq<char>,
>
    decreases n,
{
    if n <= 0 || n > values.len() {
        ids
    } else {
        let before = insert_child_ids(ids, values, n - 1);
        match values[n - 1].id {
            Some(id) => insert_id(before, id),
            None => before,
        }
    }
}

/// The identifiers of one side of a query, added to `ids`.
pub open spec fn insert_side_ids(ids: Seq<Seq<char>>, side: Pattern) -> Seq<Seq<char>> {
    let children = match side.values {
        Some(values) => insert_child_ids(ids, values, values.len() as int),
        None => ids,
    };
    match side.id {
        Some(id) => insert_id(children, id),
        None => children,
    }
}

/// The identifiers that occur on either side of a query, each once, in
/// ascending order.
pub open spec fn all_ids(restriction: Pattern, substitution: Pattern) -> Seq<Seq<char>> {
    insert_side_ids(insert_side_ids(Seq::empty(), restriction), substitution)
}

/// Binds `id` to `value` where `id` is a variable and `value` is not 0.
pub open spec fn assign_variable(vars: Bindings, id: Option<Seq<char>>, value: u32) -> Bindings {
    match id {
        Some(id) => if is_variable_name(id) && value != 0 {
            vars.insert(id, value)
        } else {
            vars
        },
        None => vars,
    }
}

/// The index that an identifier stands for without creating anything: the
/// number of a numeric token, and the index of the doublet that a name
/// denotes. The empty identifier, the wildcard, a variable and a name that
/// denotes nothing stand for none.
pub open spec fn lookup_id(store: StoreState, id: Seq<char>) -> Option<u32> {
    if id.len() == 0 || id == seq!['*'] || is_variable_name(id) {
        None
    } else if is_number(id) {
        Some(number(id))
    } else {
        store.get_by_name(id)
    }
}

/// Binds the variables of one restriction pattern: where the pattern has two
/// children and its identifier stands for a doublet that exists, the
/// identifiers of the children are bound to the source and the target of
/// that doublet.
pub open spec fn bind_pattern(store: StoreState, pattern: Pattern, vars: Bindings) -> Bindings {
    if pattern.values_count() == 2 && pattern.id is Some && lookup_id(store, pattern.id->Some_0)
        is Some && store.has_link(lookup_id(store, pattern.id->Some_0)->Some_0) {
        let link = store.links[lookup_id(store, pattern.id->Some_0)->Some_0];
        assign_variable(
            assign_variable(vars, pattern.values->Some_0[0].id, link.source),
            pattern.values->Some_0[1].id,
            link.target,
        )
    } else {
        vars
    }
}

/// Binds the variables of the restriction patterns whose identifiers stand
/// in `ids` from position `i` on.
pub open spec fn bind_each(
    store: StoreState,
    restriction: Map<Seq<char>, Pattern>,
    ids: Seq<Seq<char>>,
    i: int,
    vars: Bindings,
) -> Bindings
    decreases ids.len() - i,
{
    if i < 0 || i >= ids.len() {
        vars
    } else if restriction.contains_key(ids[i]) {
        bind_each(store, restriction, ids, i + 1, bind_pattern(store, restriction[ids[i]], vars))
    } else {
        bind_each(store, restriction, ids, i + 1, vars)
    }
}

/// The identifier of a pattern as a reference, the default where it has
/// none.
pub open spec fn resolve_slot(store: StoreState, id: Option<Seq<char>>, vars: Bindings, default: u32) -> (
    StoreState,
    Result<u32, Fault>,
) {
    match id {
        Some(id) => resolve_id(store, id, vars, default),
        None => (store, Ok(default)),
    }
}

/// The doublet that a pattern describes: its identifier as the index, and the
/// identifiers of its first two children as source and target, where it has
/// at least two. What is not said is the default.
pub open spec fn to_doublet_link(store: StoreState, pattern: Pattern, vars: Bindings, default: u32) -> (
    StoreState,
    Result<Link, Fault>,
) {
    let (s1, index) = resolve_slot(store, pattern.id, vars, default);
    match index {
        Err(fault) => (s1, Err(fault)),
        Ok(index) => if pattern.values_count() >= 2 {
            let (s2, source) = resolve_slot(s1, pattern.values->Some_0[0].id, vars, default);
            match source {
                Err(fault) => (s2, Err(fault)),
                Ok(source) => {
                    let (s3, target) = resolve_slot(s2, pattern.values->Some_0[1].id, vars, default);
                    match target {
                        Err(fault) => (s3, Err(fault)),
                        Ok(target) => (s3, Ok(Link { index, source, target })),
                    }
                },
            }
        } else {
            (s1, Ok(Link { index, source: default, target: default }))
        },
    }
}

/// What one identifier of a query asks for. An identifier on both sides is
/// an update, one on the restriction side only a deletion, one on the
/// substitution side only a creation.
pub open spec fn apply_id(
    store: StoreState,
    restriction: Map<Seq<char>, Pattern>,
    substitution: Map<Seq<char>, Pattern>,
    vars: Bindings,
    id: Seq<char>,
    changes: Seq<Transition>,
) -> (StoreState, Result<Seq<Transition>, Fault>) {
    if restriction.contains_key(id) && substitution.contains_key(id) {
        let (s1, matched) = to_doublet_link(store, restriction[id], vars, any());
        match matched {
            Err(fault) => (s1, Err(fault)),
            Ok(matched) => {
                let (s2, wanted) = to_doublet_link(s1, substitution[id], vars, 0);
                match wanted {
                    Err(fault) => (s2, Err(fault)),
                    Ok(wanted) => if matched.index != 0 && s2.has_link(matched.index) {
                        let after = s2.update(matched.index, wanted.source, wanted.target);
                        (
                            after,
                            Ok(
                                changes.push(
                                    (Some(s2.links[matched.index]), Some(after.links[matched.index])),
                                ),
                            ),
                        )
                    } else {
                        (s2, Ok(changes))
                    },
                }
            },
        }
    } else if restriction.contains_key(id) {
        let (s1, matched) = to_doublet_link(store, restriction[id], vars, any());
        match matched {
            Err(fault) => (s1, Err(fault)),
            Ok(matched) => {
                let (after, recorded) = delete_recorded(s1, changes, matched.index);
                (after, Ok(recorded))
            },
        }
    } else if substitution.contains_key(id) {
        let (s1, made) = materialize(store, substitution[id], vars);
        match made {
            Err(fault) => (s1, Err(fault)),
            Ok(made) => (s1, Ok(record_created(s1, changes, made))),
        }
    } else {
        (store, Ok(changes))
    }
}

/// Applies the identifiers in `ids` from position `i` on, one after the
/// other.
pub open spec fn apply_each(
    store: StoreState,
    restriction: Map<Seq<char>, Pattern>,
    substitution: Map<Seq<char>, Pattern>,
    vars: Bindings,
    ids: Seq<Seq<char>>,
    i: int,
    changes: Seq<Transition>,
) -> (StoreState, Result<Seq<Transition>, Fault>)
    decreases ids.len() - i,
{
    if i < 0 || i >= ids.len() {
        (store, Ok(changes))
    } else {
        let (next, applied) = apply_id(store, restriction, substitution, vars, ids[i], changes);
        match applied {
            Ok(recorded) => apply_each(next, restriction, substitution, vars, ids, i + 1, recorded),
            Err(fault) => (next, Err(fault)),
        }
    }
}

/// The transitions with both sides.
pub open spec fn is_update() -> spec_fn(Transition) -> bool {
    |t: Transition| t.0 is Some && t.1 is Some
}

/// The transitions that lack a side: creations and deletions.
pub open spec fn is_not_update() -> spec_fn(Transition) -> bool {
    |t: Transition| !(t.0 is Some && t.1 is Some)
}

/// The updates of a list of transitions, each with both of its sides.
pub open spec fn updates(changes: Seq<Transition>) -> Seq<Change> {
    changes.filter(is_update()).map_values(|t: Transition| (t.0->Some_0, t.1->Some_0))
}

/// `result` is `changes` simplified: the creations and deletions as they
/// came, followed by the updates, simplified.
pub open spec fn simplifies_list(changes: Seq<Transition>, result: Seq<Transition>) -> bool {
    exists|simplified: Seq<Change>| #[trigger]
        simplifies_to(updates(changes), simplified) && result == changes.filter(is_not_update())
            + simplified.map_values(|c: Change| (Some(c.0), Some(c.1)))
}

/// What a query of restriction and substitution does where both have
/// children: the variables are bound from the restriction, and every
/// identifier of either side is applied in ascending order.
pub open spec fn rewrite(store: StoreState, restriction: Pattern, substitution: Pattern) -> (
    StoreState,
    Result<Seq<Transition>, Fault>,
) {
    let ids = all_ids(restriction, substitution);
    let vars = bind_each(store, links_by_id(restriction), ids, 0, Map::empty());
    apply_each(
        store,
        links_by_id(restriction),
        links_by_id(substitution),
        vars,
        ids,
        0,
        Seq::empty(),
    )
}

/// How a query ends.
pub ghost enum Outcome {
    /// The store after the query and the transitions before simplification;
    /// `simplify` says whether they are simplified before they are returned.
    Done { store: StoreState, changes: Seq<Transition>, simplify: bool },
    /// The query failed and the store is as it was.
    Failed { fault: Fault },
}

/// The outcome of a run of steps: done with its store and transitions, or
/// failed.
pub open spec fn outcome_of(run: (StoreState, Result<Seq<Transition>, Fault>), simplify: bool) -> Outcome {
    match run.1 {
        Ok(changes) => Outcome::Done { store: run.0, changes, simplify },
        Err(fault) => Outcome::Failed { fault },
    }
}

/// What the query that `nodes` were parsed from does to `store`.
///
/// No node at all is no query, and changes nothing. Otherwise the text must
/// hold exactly one node with exactly two children, the restriction and the
/// substitution. Where neither has children nothing happens; where only the
/// substitution has, its children are created; where only the restriction
/// has, its children are deleted; where both have, the doublets are
/// rewritten.
pub open spec fn run_query(store: StoreState, nodes: Seq<Pattern>) -> Outcome {
    if nodes.len() == 0 {
        Outcome::Done { store, changes: Seq::empty(), simplify: false }
    } else if nodes.len() != 1 || nodes[0].values_count() != 2 {
        Outcome::Failed { fault: Fault::InvalidFormat }
    } else {
        let restriction = nodes[0].values->Some_0[0];
        let substitution = nodes[0].values->Some_0[1];
        if restriction.values_count() == 0 && substitution.values_count() == 0 {
            Outcome::Done { store, changes: Seq::empty(), simplify: false }
        } else if restriction.values_count() == 0 {
            outcome_of(
                create_each(store, substitution.values->Some_0, 0, Map::empty(), Seq::empty()),
                false,
            )
        } else if substitution.values_count() == 0 {
            let deleted = delete_each(store, restriction.values->Some_0, 0, Seq::empty());
            Outcome::Done { store: deleted.0, changes: deleted.1, simplify: false }
        } else {
            outcome_of(rewrite(store, restriction, substitution), true)
        }
    }
}

} // verus!
