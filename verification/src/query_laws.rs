//! Laws of queries: what was materialized once is found again, and the
//! identifiers of a query are applied in ascending order.

use crate::link_storage::StoreState;
use crate::lino_link::Pattern;
use crate::query_model::{
    all_ids, children_by_id, insert_child_ids, insert_id, insert_side_ids, join, links_by_id,
    materialize, resolve_id, resolve_name, text_lt, text_lt_from, Bindings,
};
use vstd::prelude::*;

verus! {

/// No composite of the pattern carries an identifier, and each has two
/// children.
pub open spec fn is_anonymous(pattern: Pattern) -> bool
    decreases pattern,
{
    if !pattern.has_values() {
        true
    } else {
        &&& pattern.id is None
        &&& pattern.values_count() == 2
        &&& is_anonymous(pattern.values->Some_0[0])
        &&& is_anonymous(pattern.values->Some_0[1])
    }
}

/// Two copies of `pattern`, joined without an identifier.
pub open spec fn twice(pattern: Pattern) -> Pattern {
    Pattern { id: None, values: Some(seq![pattern, pattern]) }
}

/// `later` holds every doublet and every name of `earlier` unchanged, and
/// whatever else it holds has an index that was free in `earlier`.
pub open spec fn extends(earlier: StoreState, later: StoreState) -> bool {
    &&& earlier.next_id <= later.next_id
    &&& forall|k: u32| #[trigger]
        earlier.links.contains_key(k) ==> later.links.contains_key(k) && later.links[k]
            == earlier.links[k]
    &&& forall|k: u32| #[trigger]
        later.links.contains_key(k) && !earlier.links.contains_key(k) ==> k >= earlier.next_id
    &&& forall|k: u32| #[trigger]
        earlier.names.contains_key(k) ==> later.names.contains_key(k) && later.names[k]
            == earlier.names[k]
}

/// An extension of an extension is an extension.
pub proof fn lemma_extends_transitive(a: StoreState, b: StoreState, c: StoreState)
    requires
        extends(a, b),
        extends(b, c),
    ensures
        extends(a, c),
{
    assert forall|k: u32| #[trigger] c.links.contains_key(k) && !a.links.contains_key(k) implies k
        >= a.next_id by {
        if !b.links.contains_key(k) {
            assert(k >= b.next_id);
        }
    }
}

/// The doublet that a search finds is found in every extension of the store.
pub proof fn lemma_search_stable(
    earlier: StoreState,
    later: StoreState,
    source: u32,
    target: u32,
)
    requires
        earlier.wf(),
        later.wf(),
        extends(earlier, later),
        earlier.search(source, target) is Some,
    ensures
        later.search(source, target) == earlier.search(source, target),
{
    earlier.lemma_search(source, target);
    later.lemma_search(source, target);
    let found = earlier.search(source, target)->Some_0;
    assert(earlier.links.contains_key(found));
    assert(later.joins(found, source, target));
    assert forall|k: u32| #[trigger] later.joins(k, source, target) implies found <= k by {
        if earlier.links.contains_key(k) {
            assert(earlier.joins(k, source, target));
        } else {
            assert(later.links.contains_key(k) && !earlier.links.contains_key(k));
            assert(earlier.links[found].index == found);
        }
    }
    assert(later.is_first_match(found, source, target));
    later.lemma_first_match_unique(found, later.search(source, target)->Some_0, source, target);
}

/// The doublet that a name denotes is denoted by it in every extension of
/// the store.
pub proof fn lemma_name_stable(earlier: StoreState, later: StoreState, name: Seq<char>)
    requires
        earlier.wf(),
        later.wf(),
        extends(earlier, later),
        earlier.get_by_name(name) is Some,
    ensures
        later.get_by_name(name) == earlier.get_by_name(name),
{
    earlier.lemma_get_by_name(name);
    later.lemma_get_by_name(name);
    let found = earlier.get_by_name(name)->Some_0;
    assert(earlier.names.contains_key(found));
    assert(later.is_named(found, name));
}

/// Resolving an identifier keeps the store well-formed and only extends it,
/// and what it resolved to is what the identifier resolves to in every
/// extension.
pub proof fn lemma_resolve_id_settles(
    store: StoreState,
    id: Seq<char>,
    vars: Bindings,
    default: u32,
    later: StoreState,
)
    requires
        store.wf(),
    ensures
        resolve_id(store, id, vars, default).0.wf(),
        extends(store, resolve_id(store, id, vars, default).0),
        resolve_id(store, id, vars, default).1 is Ok && later.wf() && extends(
            resolve_id(store, id, vars, default).0,
            later,
        ) ==> resolve_id(later, id, vars, default) == (later, resolve_id(store, id, vars, default).1),
{
    let (after, found) = resolve_id(store, id, vars, default);
    if resolve_id(store, id, vars, default) == resolve_name(store, id) {
        store.lemma_get_by_name(id);
        if store.get_by_name(id) is None && store.has_room() {
            store.lemma_create_named_wf(id);
            assert(after == store.create_named(id));
            store.lemma_next_is_free();
            assert(extends(store, after));
            assert(after.is_named(store.next_id, id));
            after.lemma_get_by_name(id);
        }
        if found is Ok && later.wf() && extends(after, later) {
            after.lemma_get_by_name(id);
            lemma_name_stable(after, later, id);
        }
    }
}

/// Joining two references without an identifier keeps the store well-formed
/// and only extends it, and the doublet that joins them is found again in
/// every extension.
pub proof fn lemma_join_settles(store: StoreState, source: u32, target: u32, later: StoreState)
    requires
        store.wf(),
    ensures
        join(store, None, source, target).0.wf(),
        extends(store, join(store, None, source, target).0),
        join(store, None, source, target).1 is Ok && later.wf() && extends(
            join(store, None, source, target).0,
            later,
        ) ==> join(later, None, source, target) == (later, join(store, None, source, target).1),
        join(store, None, source, target).1 is Ok ==> join(store, None, source, target).0.joins(
            join(store, None, source, target).1->Ok_0,
            source,
            target,
        ),
{
    let (after, made) = join(store, None, source, target);
    store.lemma_search(source, target);
    if store.search(source, target) is None && store.has_room() {
        store.lemma_create_wf(source, target);
        let index = store.next_id;
        store.lemma_next_is_free();
        assert(after.joins(index, source, target));
        assert forall|k: u32| #[trigger] after.joins(k, source, target) implies index <= k by {
            if k != index {
                assert(store.joins(k, source, target));
            }
        }
        assert(after.is_first_match(index, source, target));
        after.lemma_search(source, target);
        after.lemma_first_match_unique(
            index,
            after.search(source, target)->Some_0,
            source,
            target,
        );
    }
    if made is Ok && later.wf() && extends(after, later) {
        lemma_search_stable(after, later, source, target);
    }
}

/// Materializing a pattern without identified composites keeps the store
/// well-formed and only extends it.
pub proof fn lemma_materialize_extends(store: StoreState, pattern: Pattern, vars: Bindings)
    requires
        store.wf(),
        is_anonymous(pattern),
    ensures
        materialize(store, pattern, vars).0.wf(),
        extends(store, materialize(store, pattern, vars).0),
    decreases pattern,
{
    if !pattern.has_values() {
        match pattern.id {
            Some(id) => {
                lemma_resolve_id_settles(store, id, vars, 0, store);
            },
            None => {},
        }
    } else {
        let first = pattern.values->Some_0[0];
        let second = pattern.values->Some_0[1];
        lemma_materialize_extends(store, first, vars);
        let (s1, source) = materialize(store, first, vars);
        if source is Ok {
            lemma_materialize_extends(s1, second, vars);
            let (s2, target) = materialize(s1, second, vars);
            lemma_extends_transitive(store, s1, s2);
            if target is Ok {
                lemma_join_settles(s2, source->Ok_0, target->Ok_0, s2);
                lemma_extends_transitive(store, s2, join(s2, None, source->Ok_0, target->Ok_0).0);
            }
        }
    }
}

/// What a pattern without identified composites was materialized to is what
/// it is materialized to in every extension of the resulting store, and the
/// extension is left as it is.
pub proof fn lemma_materialize_settles(
    store: StoreState,
    pattern: Pattern,
    vars: Bindings,
    later: StoreState,
)
    requires
        store.wf(),
        is_anonymous(pattern),
        materialize(store, pattern, vars).1 is Ok,
        later.wf(),
        extends(materialize(store, pattern, vars).0, later),
    ensures
        materialize(later, pattern, vars) == (later, materialize(store, pattern, vars).1),
    decreases pattern,
{
    if !pattern.has_values() {
        match pattern.id {
            Some(id) => {
                lemma_resolve_id_settles(store, id, vars, 0, later);
            },
            None => {},
        }
    } else {
        let first = pattern.values->Some_0[0];
        let second = pattern.values->Some_0[1];
        let (s1, source) = materialize(store, first, vars);
        let (s2, target) = materialize(s1, second, vars);
        let (s3, made) = join(s2, None, source->Ok_0, target->Ok_0);
        lemma_materialize_extends(store, first, vars);
        lemma_materialize_extends(s1, second, vars);
        lemma_join_settles(s2, source->Ok_0, target->Ok_0, later);
        lemma_extends_transitive(s2, s3, later);
        lemma_extends_transitive(s1, s2, later);
        lemma_materialize_settles(store, first, vars, later);
        lemma_materialize_settles(s1, second, vars, later);
    }
}

/// Materializing a pattern a second time gives the doublet of the first
/// time and leaves the store as the first time left it.
pub proof fn lemma_materialize_again(store: StoreState, pattern: Pattern, vars: Bindings)
    requires
        store.wf(),
        is_anonymous(pattern),
        materialize(store, pattern, vars).1 is Ok,
    ensures
        materialize(materialize(store, pattern, vars).0, pattern, vars) == materialize(
            store,
            pattern,
            vars,
        ),
{
    lemma_materialize_extends(store, pattern, vars);
    lemma_materialize_settles(store, pattern, vars, materialize(store, pattern, vars).0);
}

/// Two nodes of the same structure are one doublet: the doublet that joins
/// two copies of a pattern has what the pattern was materialized to as its
/// source and as its target, and the second copy adds nothing to the store.
pub proof fn lemma_same_structure_same_doublet(store: StoreState, pattern: Pattern, vars: Bindings)
    requires
        store.wf(),
        is_anonymous(pattern),
        materialize(store, twice(pattern), vars).1 is Ok,
    ensures
        ({
            let (once, part) = materialize(store, pattern, vars);
            let (both, whole) = materialize(store, twice(pattern), vars);
            &&& part is Ok
            &&& materialize(once, pattern, vars) == (once, part)
            &&& both.links.contains_key(whole->Ok_0)
            &&& both.links[whole->Ok_0].source == part->Ok_0
            &&& both.links[whole->Ok_0].target == part->Ok_0
            &&& (both, whole) == join(once, None, part->Ok_0, part->Ok_0)
        }),
{
    let (once, part) = materialize(store, pattern, vars);
    assert(twice(pattern).values->Some_0[0] == pattern);
    assert(twice(pattern).values_count() == 2);
    lemma_materialize_extends(store, pattern, vars);
    lemma_materialize_again(store, pattern, vars);
    lemma_join_settles(once, part->Ok_0, part->Ok_0, once);
}

/// Of two different texts that agree before position `i`, one comes before
/// the other.
proof fn lemma_text_lt_total(a: Seq<char>, b: Seq<char>, i: int)
    requires
        0 <= i <= a.len(),
        i <= b.len(),
        forall|k: int| 0 <= k < i ==> a[k] == b[k],
    ensures
        a == b || text_lt_from(a, b, i) || text_lt_from(b, a, i),
    decreases a.len() - i,
{
    if i >= b.len() {
        if i >= a.len() {
            assert(a =~= b);
        }
    } else if i < a.len() && a[i] == b[i] {
        lemma_text_lt_total(a, b, i + 1);
    }
}

/// The order of texts is transitive.
proof fn lemma_text_lt_transitive(a: Seq<char>, b: Seq<char>, c: Seq<char>, i: int)
    requires
        0 <= i,
        text_lt_from(a, b, i),
        text_lt_from(b, c, i),
    ensures
        text_lt_from(a, c, i),
    decreases a.len() - i,
{
    if i < a.len() && a[i] == b[i] && b[i] == c[i] {
        lemma_text_lt_transitive(a, b, c, i + 1);
    }
}

/// Every identifier comes before each later one.
pub open spec fn ids_ascending(ids: Seq<Seq<char>>) -> bool {
    forall|i: int, j: int| 0 <= i < j < ids.len() ==> text_lt(#[trigger] ids[i], #[trigger] ids[j])
}

/// An ascending list with an identifier put at its place is ascending, and
/// holds the identifier beside what it held.
pub proof fn lemma_insert_id(ids: Seq<Seq<char>>, id: Seq<char>)
    requires
        ids_ascending(ids),
    ensures
        ids_ascending(insert_id(ids, id)),
        forall|x: Seq<char>| #[trigger]
            insert_id(ids, id).contains(x) <==> (ids.contains(x) || x == id),
    decreases ids.len(),
{
    let after = insert_id(ids, id);
    if ids.len() == 0 {
        assert(after[0] == id);
        assert forall|x: Seq<char>| after.contains(x) <==> (ids.contains(x) || x == id) by {
            if after.contains(x) {
                let k = choose|k: int| 0 <= k < after.len() && after[k] == x;
            }
        }
    } else if ids.last() == id {
        assert(ids[ids.len() - 1] == id);
    } else if text_lt(ids.last(), id) {
        assert forall|i: int, j: int| 0 <= i < j < after.len() implies text_lt(
            #[trigger] after[i],
            #[trigger] after[j],
        ) by {
            if j == ids.len() {
                if i < ids.len() - 1 {
                    assert(text_lt(ids[i], ids[ids.len() - 1]));
                    lemma_text_lt_transitive(ids[i], ids.last(), id, 0);
                }
            } else {
                assert(text_lt(ids[i], ids[j]));
            }
        }
        assert forall|x: Seq<char>| after.contains(x) <==> (ids.contains(x) || x == id) by {
            if after.contains(x) {
                let k = choose|k: int| 0 <= k < after.len() && after[k] == x;
                if k < ids.len() {
                    assert(ids[k] == x);
                }
            }
            if ids.contains(x) {
                let k = choose|k: int| 0 <= k < ids.len() && ids[k] == x;
                assert(after[k] == x);
            }
            if x == id {
                assert(after[ids.len() as int] == x);
            }
        }
    } else {
        let shorter = ids.drop_last();
        let last = ids.last();
        assert(ids_ascending(shorter)) by {
            assert forall|i: int, j: int| 0 <= i < j < shorter.len() implies text_lt(
                #[trigger] shorter[i],
                #[trigger] shorter[j],
            ) by {
                assert(text_lt(ids[i], ids[j]));
            }
        }
        lemma_insert_id(shorter, id);
        lemma_text_lt_total(last, id, 0);
        let inner = insert_id(shorter, id);
        assert forall|i: int, j: int| 0 <= i < j < after.len() implies text_lt(
            #[trigger] after[i],
            #[trigger] after[j],
        ) by {
            if j == inner.len() {
                assert(inner.contains(inner[i]));
                assert(insert_id(shorter, id).contains(inner[i]));
                assert(shorter.contains(inner[i]) || inner[i] == id);
                if inner[i] != id {
                    let k = choose|k: int| 0 <= k < shorter.len() && shorter[k] == inner[i];
                }
            }
        }
        assert forall|x: Seq<char>| after.contains(x) <==> (ids.contains(x) || x == id) by {
            if after.contains(x) {
                let k = choose|k: int| 0 <= k < after.len() && after[k] == x;
                if k < inner.len() {
                    assert(inner.contains(x));
                    if x != id {
                        let m = choose|m: int| 0 <= m < shorter.len() && shorter[m] == x;
                        assert(ids[m] == x);
                    }
                } else {
                    assert(ids[ids.len() - 1] == x);
                }
            }
            if ids.contains(x) {
                let k = choose|k: int| 0 <= k < ids.len() && ids[k] == x;
                if k < shorter.len() {
                    assert(shorter[k] == x);
                    assert(shorter.contains(x));
                    assert(inner.contains(x));
                    let m = choose|m: int| 0 <= m < inner.len() && inner[m] == x;
                    assert(after[m] == x);
                } else {
                    assert(after[inner.len() as int] == x);
                }
            }
            if x == id {
                let m = choose|m: int| 0 <= m < inner.len() && inner[m] == x;
                assert(after[m] == x);
            }
        }
    }
}

/// The identifiers of the first `n` children, added to an ascending list,
/// give an ascending list of what the list held and of these identifiers.
pub proof fn lemma_insert_child_ids(ids: Seq<Seq<char>>, values: Seq<Pattern>, n: int)
    requires
        ids_ascending(ids),
        0 <= n <= values.len(),
    ensures
        ids_ascending(insert_child_ids(ids, values, n)),
        forall|x: Seq<char>| #[trigger]
            insert_child_ids(ids, values, n).contains(x) <==> (ids.contains(x) || children_by_id(
                values,
                n,
            ).contains_key(x)),
    decreases n,
{
    if n > 0 {
        lemma_insert_child_ids(ids, values, n - 1);
        let before = insert_child_ids(ids, values, n - 1);
        match values[n - 1].id {
            Some(id) => {
                lemma_insert_id(before, id);
                assert forall|x: Seq<char>| #[trigger]
                    insert_child_ids(ids, values, n).contains(x) <==> (ids.contains(x)
                        || children_by_id(values, n).contains_key(x)) by {
                    assert(before.contains(x) <==> (ids.contains(x) || children_by_id(
                        values,
                        n - 1,
                    ).contains_key(x)));
                }
            },
            None => {},
        }
    } else {
        assert forall|x: Seq<char>| #[trigger]
            insert_child_ids(ids, values, n).contains(x) <==> (ids.contains(x) || children_by_id(
                values,
                n,
            ).contains_key(x)) by {}
    }
}

/// The identifiers of one side of a query, added to an ascending list, give
/// an ascending list of what the list held and of the identifiers of the
/// side.
pub proof fn lemma_insert_side_ids(ids: Seq<Seq<char>>, side: Pattern)
    requires
        ids_ascending(ids),
    ensures
        ids_ascending(insert_side_ids(ids, side)),
        forall|x: Seq<char>| #[trigger]
            insert_side_ids(ids, side).contains(x) <==> (ids.contains(x) || links_by_id(
                side,
            ).contains_key(x)),
{
    let children = match side.values {
        Some(values) => {
            lemma_insert_child_ids(ids, values, values.len() as int);
            insert_child_ids(ids, values, values.len() as int)
        },
        None => ids,
    };
    let by_id = match side.values {
        Some(values) => children_by_id(values, values.len() as int),
        None => Map::<Seq<char>, Pattern>::empty(),
    };
    assert forall|x: Seq<char>| children.contains(x) <==> (ids.contains(x) || by_id.contains_key(
        x,
    )) by {
        match side.values {
            Some(values) => {
                assert(insert_child_ids(ids, values, values.len() as int).contains(x) <==> (
                ids.contains(x) || children_by_id(values, values.len() as int).contains_key(x)));
            },
            None => {},
        }
    }
    match side.id {
        Some(id) => {
            lemma_insert_id(children, id);
            assert forall|x: Seq<char>| #[trigger]
                insert_side_ids(ids, side).contains(x) <==> (ids.contains(x) || links_by_id(
                    side,
                ).contains_key(x)) by {}
        },
        None => {},
    }
}

/// The identifiers of a query are applied in ascending order: the list of
/// them is ascending, and holds exactly the identifiers of the patterns of
/// both sides.
pub proof fn lemma_all_ids_ascending(restriction: Pattern, substitution: Pattern)
    ensures
        ids_ascending(all_ids(restriction, substitution)),
        forall|x: Seq<char>| #[trigger]
            all_ids(restriction, substitution).contains(x) <==> (links_by_id(
                restriction,
            ).contains_key(x) || links_by_id(substitution).contains_key(x)),
{
    let none = Seq::<Seq<char>>::empty();
    let first = insert_side_ids(none, restriction);
    lemma_insert_side_ids(none, restriction);
    lemma_insert_side_ids(first, substitution);
    assert forall|x: Seq<char>| #[trigger]
        all_ids(restriction, substitution).contains(x) <==> (links_by_id(
            restriction,
        ).contains_key(x) || links_by_id(substitution).contains_key(x)) by {
        assert(insert_side_ids(first, substitution).contains(x) <==> (first.contains(x)
            || links_by_id(substitution).contains_key(x)));
        assert(insert_side_ids(none, restriction).contains(x) <==> (none.contains(x)
            || links_by_id(restriction).contains_key(x)));
    }
}

} // verus!
