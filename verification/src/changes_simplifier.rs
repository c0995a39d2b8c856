//! Collapses a list of `(before, after)` transitions into initial-to-final
//! transitions.
//!
//! The transitions that change a doublet form a directed graph: an edge runs
//! from `before` to `after`. A doublet that occurs only as a `before` is an
//! initial state, one that occurs only as an `after` is a final state, and the
//! simplified list holds one pair for every final state that can be reached
//! from an initial state.

use crate::link::Link;
use vstd::prelude::*;

verus! {

/// A transition between two states of a doublet.
pub type Change = (Link, Link);

/// Strict lexicographic order on `(index, source, target)`.
pub open spec fn link_lt(a: Link, b: Link) -> bool {
    a.index < b.index || (a.index == b.index && (a.source < b.source || (a.source == b.source
        && a.target < b.target)))
}

/// Strict order on transitions: by `after`, and among equal `after` by `before`.
pub open spec fn change_lt(p: Change, q: Change) -> bool {
    link_lt(p.1, q.1) || (p.1 == q.1 && link_lt(p.0, q.0))
}

/// Every element is strictly below each later one.
pub open spec fn ascending(l: Seq<Change>) -> bool {
    forall|i: int, j: int| 0 <= i < j < l.len() ==> change_lt(l[i], l[j])
}

/// A transition to the null doublet is superseded when the same `before` also
/// leads to a doublet that is not null.
pub open spec fn superseded(changes: Seq<Change>, p: Change) -> bool {
    p.1.spec_is_null() && exists|j: int|
        0 <= j < changes.len() && (#[trigger] changes[j]).0 == p.0 && !changes[j].1.spec_is_null()
}

/// The transitions that are not superseded.
pub open spec fn not_superseded(changes: Seq<Change>) -> spec_fn(Change) -> bool {
    |p: Change| !superseded(changes, p)
}

/// The transitions whose two sides are the same doublet.
pub open spec fn is_noop() -> spec_fn(Change) -> bool {
    |p: Change| p.0 == p.1
}

/// The transitions whose two sides differ.
pub open spec fn is_move() -> spec_fn(Change) -> bool {
    |p: Change| p.0 != p.1
}

/// The transitions that remain once superseded deletions are discarded, in
/// the order in which they came.
pub open spec fn resolved(changes: Seq<Change>) -> Seq<Change> {
    changes.filter(not_superseded(changes))
}

/// The transitions that leave their doublet as it was.
pub open spec fn unchanged(changes: Seq<Change>) -> Seq<Change> {
    changes.filter(is_noop())
}

/// The transitions that change their doublet: the edges of the graph.
pub open spec fn changed(changes: Seq<Change>) -> Seq<Change> {
    changes.filter(is_move())
}

/// Whether `u` is the `before` of some transition.
pub open spec fn is_before(d: Seq<Change>, u: Link) -> bool {
    exists|i: int| 0 <= i < d.len() && (#[trigger] d[i]).0 == u
}

/// Whether `u` is the `after` of some transition.
pub open spec fn is_after(d: Seq<Change>, u: Link) -> bool {
    exists|i: int| 0 <= i < d.len() && (#[trigger] d[i]).1 == u
}

/// An initial state occurs as a `before` and never as an `after`.
pub open spec fn is_initial(d: Seq<Change>, u: Link) -> bool {
    is_before(d, u) && !is_after(d, u)
}

/// A final state occurs as an `after` and never as a `before`.
pub open spec fn is_final(d: Seq<Change>, u: Link) -> bool {
    is_after(d, u) && !is_before(d, u)
}

/// Whether some state is an initial state.
pub open spec fn has_initial(d: Seq<Change>) -> bool {
    exists|u: Link| is_initial(d, u)
}

/// The step of `path` that starts at position `i` is an edge of `d`.
pub open spec fn is_step(d: Seq<Change>, path: Seq<Link>, i: int) -> bool {
    d.contains((path[i], path[i + 1]))
}

/// A non-empty walk along the edges of `d`.
pub open spec fn is_path(d: Seq<Change>, path: Seq<Link>) -> bool {
    path.len() >= 1 && forall|i: int| 0 <= i < path.len() - 1 ==> #[trigger] is_step(d, path, i)
}

/// `v` can be reached from `u` in zero or more steps.
pub open spec fn reaches(d: Seq<Change>, u: Link, v: Link) -> bool {
    exists|path: Seq<Link>| #[trigger] is_path(d, path) && path[0] == u && path[path.len() - 1] == v
}

/// `p` leads from an initial state to a final state that can be reached from it.
pub open spec fn collapses(d: Seq<Change>, p: Change) -> bool {
    is_initial(d, p.0) && is_final(d, p.1) && reaches(d, p.0, p.1)
}

/// What `simplify_changes` returns for `changes`.
///
/// Where the changing transitions have no initial state the list is returned
/// as it came. Otherwise the result is the unchanged transitions in the order
/// in which they came, followed by the collapsed pairs in ascending order,
/// each exactly once.
pub open spec fn simplifies_to(changes: Seq<Change>, result: Seq<Change>) -> bool {
    let kept = resolved(changes);
    let d = changed(kept);
    let same = unchanged(kept);
    if !has_initial(d) {
        result == changes
    } else {
        let tail = result.skip(same.len() as int);
        &&& result.len() >= same.len()
        &&& result.take(same.len() as int) == same
        &&& ascending(tail)
        &&& forall|p: Change| tail.contains(p) <==> collapses(d, p)
    }
}

/// An ascending list has no element twice.
pub proof fn lemma_ascending_no_duplicates(l: Seq<Change>)
    requires
        ascending(l),
    ensures
        l.no_duplicates(),
{
    assert forall|i: int, j: int| 0 <= i < l.len() && 0 <= j < l.len() && i != j implies l[i]
        != l[j] by {
        if i < j {
            assert(change_lt(l[i], l[j]));
        } else {
            assert(change_lt(l[j], l[i]));
        }
    }
}

/// Two ascending lists with the same elements are the same list.
pub proof fn lemma_ascending_unique(a: Seq<Change>, b: Seq<Change>)
    requires
        ascending(a),
        ascending(b),
        forall|p: Change| a.contains(p) <==> b.contains(p),
    ensures
        a == b,
    decreases a.len(),
{
    if a.len() == 0 {
        if b.len() > 0 {
            assert(b.contains(b[0]));
        }
    } else {
        assert(a.contains(a[0]));
        let k = choose|k: int| 0 <= k < b.len() && b[k] == a[0];
        assert(b.contains(b[0]));
        let m = choose|m: int| 0 <= m < a.len() && a[m] == b[0];
        if k > 0 {
            assert(change_lt(b[0], b[k]));
            if m > 0 {
                assert(change_lt(a[0], a[m]));
            }
        }
        let at = a.skip(1);
        let bt = b.skip(1);
        assert forall|p: Change| at.contains(p) <==> bt.contains(p) by {
            if at.contains(p) {
                let i = choose|i: int| 0 <= i < at.len() && at[i] == p;
                assert(change_lt(a[0], a[i + 1]));
                assert(a.contains(p));
                let j = choose|j: int| 0 <= j < b.len() && b[j] == p;
                assert(bt[j - 1] == p);
            }
            if bt.contains(p) {
                let i = choose|i: int| 0 <= i < bt.len() && bt[i] == p;
                assert(change_lt(b[0], b[i + 1]));
                assert(b.contains(p));
                let j = choose|j: int| 0 <= j < a.len() && a[j] == p;
                assert(at[j - 1] == p);
            }
        }
        assert(ascending(at)) by {
            assert forall|i: int, j: int| 0 <= i < j < at.len() implies change_lt(at[i], at[j]) by {}
        }
        assert(ascending(bt)) by {
            assert forall|i: int, j: int| 0 <= i < j < bt.len() implies change_lt(bt[i], bt[j]) by {}
        }
        lemma_ascending_unique(at, bt);
        assert(a =~= seq![a[0]] + at);
    }
}

/// The contract of `simplify_changes` admits one result only.
pub proof fn lemma_simplification_unique(changes: Seq<Change>, r1: Seq<Change>, r2: Seq<Change>)
    requires
        simplifies_to(changes, r1),
        simplifies_to(changes, r2),
    ensures
        r1 == r2,
{
    let kept = resolved(changes);
    let d = changed(kept);
    let same = unchanged(kept);
    if has_initial(d) {
        let n = same.len() as int;
        lemma_ascending_unique(r1.skip(n), r2.skip(n));
        assert(r1.len() == r2.len()) by {}
        assert forall|i: int| 0 <= i < r1.len() implies r1[i] == r2[i] by {
            if i < n {
                assert(r1.take(n)[i] == r2.take(n)[i]);
            } else {
                assert(r1.skip(n)[i - n] == r2.skip(n)[i - n]);
            }
        }
    }
}

/// Appending one edge to a walk from `u` gives a walk from `u`.
proof fn lemma_reaches_step(d: Seq<Change>, u: Link, v: Link, w: Link)
    requires
        reaches(d, u, v),
        d.contains((v, w)),
    ensures
        reaches(d, u, w),
{
    let path = choose|path: Seq<Link>| #[trigger]
        is_path(d, path) && path[0] == u && path[path.len() - 1] == v;
    let longer = path.push(w);
    assert forall|i: int| 0 <= i < longer.len() - 1 implies #[trigger] is_step(d, longer, i) by {
        if i < path.len() - 1 {
            assert(is_step(d, path, i));
        }
    }
    assert(is_path(d, longer));
}

proof fn lemma_reaches_self(d: Seq<Change>, u: Link)
    ensures
        reaches(d, u, u),
{
    assert(is_path(d, seq![u]));
}

/// A set of states that holds `s` and every successor of its members holds
/// every state that can be reached from `s`.
proof fn lemma_closed_holds_reachable(d: Seq<Change>, s: Link, seen: Seq<Link>, path: Seq<Link>)
    requires
        is_path(d, path),
        path[0] == s,
        seen.contains(s),
        forall|k: int|
            0 <= k < d.len() && seen.contains((#[trigger] d[k]).0) ==> seen.contains(d[k].1),
    ensures
        seen.contains(path[path.len() - 1]),
    decreases path.len(),
{
    if path.len() > 1 {
        let shorter = path.drop_last();
        assert forall|i: int| 0 <= i < shorter.len() - 1 implies #[trigger] is_step(
            d,
            shorter,
            i,
        ) by {
            assert(is_step(d, path, i));
        }
        lemma_closed_holds_reachable(d, s, seen, shorter);
        let v = path[path.len() - 2];
        let w = path[path.len() - 1];
        assert(is_step(d, path, path.len() - 2));
    }
}

/// A list without repetition whose elements all occur in `pool` is no longer
/// than `pool`.
proof fn lemma_distinct_within(list: Seq<Link>, pool: Seq<Link>)
    requires
        list.no_duplicates(),
        forall|v: Link| list.contains(v) ==> pool.contains(v),
    ensures
        list.len() <= pool.len(),
{
    list.unique_seq_to_set();
    pool.lemma_cardinality_of_set();
    vstd::seq_lib::seq_to_set_is_finite(pool);
    vstd::set_lib::lemma_len_subset(list.to_set(), pool.to_set());
}

/// The states a walk from `s` can visit: `s` and every `after`.
spec fn states_from(d: Seq<Change>, s: Link) -> Seq<Link> {
    seq![s] + d.map_values(|p: Change| p.1)
}

proof fn lemma_states_from(d: Seq<Change>, s: Link, v: Link)
    requires
        v == s || is_after(d, v),
    ensures
        states_from(d, s).contains(v),
        states_from(d, s).len() == d.len() + 1,
{
    let pool = states_from(d, s);
    if v == s {
        assert(pool[0] == v);
    } else {
        let i = choose|i: int| 0 <= i < d.len() && (#[trigger] d[i]).1 == v;
        assert(pool[i + 1] == v);
    }
}

fn link_less(a: &Link, b: &Link) -> (r: bool)
    ensures
        r == link_lt(*a, *b),
{
    a.index < b.index || (a.index == b.index && (a.source < b.source || (a.source == b.source
        && a.target < b.target)))
}

fn change_less(p: &Change, q: &Change) -> (r: bool)
    ensures
        r == change_lt(*p, *q),
{
    link_less(&p.1, &q.1) || (p.1 == q.1 && link_less(&p.0, &q.0))
}

fn occurs_as_before(d: &Vec<Change>, u: Link) -> (r: bool)
    ensures
        r == is_before(d@, u),
{
    let mut i: usize = 0;
    while i < d.len()
        invariant
            i <= d.len(),
            forall|k: int| 0 <= k < i ==> (#[trigger] d@[k]).0 != u,
        decreases d.len() - i,
    {
        if d[i].0 == u {
            return true;
        }
        i += 1;
    }
    false
}

fn occurs_as_after(d: &Vec<Change>, u: Link) -> (r: bool)
    ensures
        r == is_after(d@, u),
{
    let mut i: usize = 0;
    while i < d.len()
        invariant
            i <= d.len(),
            forall|k: int| 0 <= k < i ==> (#[trigger] d@[k]).1 != u,
        decreases d.len() - i,
    {
        if d[i].1 == u {
            return true;
        }
        i += 1;
    }
    false
}

fn holds(list: &Vec<Link>, u: Link) -> (r: bool)
    ensures
        r == list@.contains(u),
{
    let mut i: usize = 0;
    while i < list.len()
        invariant
            i <= list.len(),
            forall|k: int| 0 <= k < i ==> list@[k] != u,
        decreases list.len() - i,
    {
        if list[i] == u {
            return true;
        }
        i += 1;
    }
    false
}

fn is_superseded(changes: &Vec<Change>, p: Change) -> (r: bool)
    ensures
        r == superseded(changes@, p),
{
    if !p.1.is_null() {
        return false;
    }
    let mut j: usize = 0;
    while j < changes.len()
        invariant
            j <= changes.len(),
            p.1.spec_is_null(),
            forall|k: int|
                0 <= k < j ==> !((#[trigger] changes@[k]).0 == p.0 && !changes@[k].1.spec_is_null()),
        decreases changes.len() - j,
    {
        if changes[j].0 == p.0 && !changes[j].1.is_null() {
            return true;
        }
        j += 1;
    }
    false
}

/// Discards every deletion that another transition from the same `before`
/// supersedes.
fn resolve_duplicate_origins(changes: &Vec<Change>) -> (kept: Vec<Change>)
    ensures
        kept@ == resolved(changes@),
{
    let mut kept: Vec<Change> = Vec::new();
    let mut i: usize = 0;
    while i < changes.len()
        invariant
            i <= changes.len(),
            kept@ == changes@.take(i as int).filter(not_superseded(changes@)),
        decreases changes.len() - i,
    {
        let p = changes[i];
        proof {
            changes@.lemma_take_succ_push(i as int);
            changes@.take(i as int).lemma_filter_push(p, not_superseded(changes@));
        }
        if !is_superseded(changes, p) {
            kept.push(p);
        }
        i += 1;
    }
    proof {
        changes@.lemma_take_len();
    }
    kept
}

/// Splits a list into the transitions that change nothing and those that
/// change their doublet, each in the order in which they came.
fn split_unchanged(changes: &Vec<Change>) -> (parts: (Vec<Change>, Vec<Change>))
    ensures
        parts.0@ == unchanged(changes@),
        parts.1@ == changed(changes@),
{
    let mut same: Vec<Change> = Vec::new();
    let mut moved: Vec<Change> = Vec::new();
    let mut i: usize = 0;
    while i < changes.len()
        invariant
            i <= changes.len(),
            same@ == changes@.take(i as int).filter(is_noop()),
            moved@ == changes@.take(i as int).filter(is_move()),
        decreases changes.len() - i,
    {
        let p = changes[i];
        proof {
            changes@.lemma_take_succ_push(i as int);
            changes@.take(i as int).lemma_filter_push(p, is_noop());
            changes@.take(i as int).lemma_filter_push(p, is_move());
        }
        if p.0 == p.1 {
            same.push(p);
        } else {
            moved.push(p);
        }
        i += 1;
    }
    proof {
        changes@.lemma_take_len();
    }
    (same, moved)
}

/// The initial states of `d`, each once, in the order of their first
/// occurrence.
fn initial_states(d: &Vec<Change>) -> (initial: Vec<Link>)
    ensures
        initial@.no_duplicates(),
        forall|u: Link| initial@.contains(u) <==> is_initial(d@, u),
{
    let mut initial: Vec<Link> = Vec::new();
    let mut i: usize = 0;
    while i < d.len()
        invariant
            i <= d.len(),
            initial@.no_duplicates(),
            forall|u: Link|
                initial@.contains(u) <==> (!is_after(d@, u) && exists|k: int|
                    0 <= k < i && (#[trigger] d@[k]).0 == u),
        decreases d.len() - i,
    {
        let u = d[i].0;
        let ghost before = initial@;
        if !occurs_as_after(d, u) && !holds(&initial, u) {
            initial.push(u);
            proof {
                assert forall|v: Link| initial@.contains(v) <==> (!is_after(d@, v) && exists|k: int|
                    0 <= k < i + 1 && (#[trigger] d@[k]).0 == v) by {
                    if !is_after(d@, v) && exists|k: int|
                        0 <= k < i + 1 && (#[trigger] d@[k]).0 == v {
                        let k = choose|k: int| 0 <= k < i + 1 && (#[trigger] d@[k]).0 == v;
                        if k < i {
                            let j = choose|j: int| 0 <= j < before.len() && before[j] == v;
                            assert(initial@[j] == v);
                        } else {
                            assert(initial@[initial@.len() - 1] == v);
                        }
                    }
                }
            }
        } else {
            proof {
                assert forall|v: Link| initial@.contains(v) <==> (!is_after(d@, v) && exists|k: int|
                    0 <= k < i + 1 && (#[trigger] d@[k]).0 == v) by {}
            }
        }
        i += 1;
    }
    initial
}

/// Puts `p` at its place in an ascending list.
fn insert_ascending(list: &mut Vec<Change>, p: Change)
    requires
        ascending(old(list)@),
        !old(list)@.contains(p),
    ensures
        ascending(final(list)@),
        forall|q: Change| final(list)@.contains(q) <==> (old(list)@.contains(q) || q == p),
{
    let mut at: usize = 0;
    while at < list.len() && change_less(&list[at], &p)
        invariant
            at <= list.len(),
            *list == *old(list),
            forall|k: int| 0 <= k < at ==> change_lt(list@[k], p),
        decreases list.len() - at,
    {
        at += 1;
    }
    let ghost before = list@;
    proof {
        assert forall|k: int| at <= k < before.len() implies change_lt(p, before[k]) by {
            if k > at {
                assert(change_lt(before[at as int], before[k]));
            }
        }
    }
    list.insert(at, p);
    proof {
        let after = list@;
        assert forall|i: int, j: int| 0 <= i < j < after.len() implies change_lt(
            after[i],
            after[j],
        ) by {}
        assert forall|q: Change| after.contains(q) <==> (before.contains(q) || q == p) by {
            if before.contains(q) {
                let i = choose|i: int| 0 <= i < before.len() && before[i] == q;
                if i < at {
                    assert(after[i] == q);
                } else {
                    assert(after[i + 1] == q);
                }
            }
            if q == p {
                assert(after[at as int] == q);
            }
        }
    }
}

/// What holds of a depth-first walk from `s` between two steps: everything
/// seen so far can be reached from `s`, and every successor of a visited state
/// is visited or waits on the stack.
#[verifier::opaque]
spec fn walk_inv(d: Seq<Change>, s: Link, visited: Seq<Link>, stack: Seq<Link>) -> bool {
    &&& visited.no_duplicates()
    &&& visited.contains(s) || stack.contains(s)
    &&& forall|v: Link|
        visited.contains(v) || stack.contains(v) ==> reaches(d, s, v) && (v == s || is_after(d, v))
    &&& forall|k: int|
        0 <= k < d.len() && visited.contains((#[trigger] d[k]).0) ==> visited.contains(d[k].1)
            || stack.contains(d[k].1)
}

/// The pairs recorded so far: those that were there before the walk, and one
/// for each visited final state.
#[verifier::opaque]
spec fn recorded(
    d: Seq<Change>,
    s: Link,
    base: Seq<Change>,
    visited: Seq<Link>,
    pairs: Seq<Change>,
) -> bool {
    forall|p: Change|
        pairs.contains(p) <==> (base.contains(p) || (p.0 == s && visited.contains(p.1) && is_final(
            d,
            p.1,
        )))
}

proof fn lemma_walk_start(d: Seq<Change>, s: Link, base: Seq<Change>)
    ensures
        walk_inv(d, s, Seq::<Link>::empty(), seq![s]),
        recorded(d, s, base, Seq::<Link>::empty(), base),
{
    reveal(walk_inv);
    reveal(recorded);
    lemma_reaches_self(d, s);
    assert(seq![s][0] == s);
    assert forall|v: Link| seq![s].contains(v) implies v == s by {}
}

proof fn lemma_push_contains(a: Seq<Link>, x: Link)
    ensures
        forall|v: Link| a.push(x).contains(v) <==> (a.contains(v) || v == x),
{
    assert forall|v: Link| a.push(x).contains(v) <==> (a.contains(v) || v == x) by {
        if a.contains(v) {
            let i = choose|i: int| 0 <= i < a.len() && a[i] == v;
            assert(a.push(x)[i] == v);
        }
        if v == x {
            assert(a.push(x)[a.len() as int] == v);
        }
    }
}

proof fn lemma_drop_last_contains(a: Seq<Link>)
    requires
        a.len() > 0,
    ensures
        forall|v: Link| a.contains(v) <==> (a.drop_last().contains(v) || v == a.last()),
{
    assert(a =~= a.drop_last().push(a.last()));
    lemma_push_contains(a.drop_last(), a.last());
}

/// A state that was visited before can leave the stack.
proof fn lemma_walk_skip(d: Seq<Change>, s: Link, visited: Seq<Link>, stack: Seq<Link>)
    requires
        walk_inv(d, s, visited, stack),
        stack.len() > 0,
        visited.contains(stack.last()),
    ensures
        walk_inv(d, s, visited, stack.drop_last()),
{
    reveal(walk_inv);
    lemma_drop_last_contains(stack);
}

/// A state that is visited for the first time joins the visited ones, and its
/// successors go on the stack.
proof fn lemma_walk_visit(
    d: Seq<Change>,
    s: Link,
    visited: Seq<Link>,
    stack: Seq<Link>,
    grown: Seq<Link>,
)
    requires
        walk_inv(d, s, visited, stack),
        stack.len() > 0,
        !visited.contains(stack.last()),
        forall|v: Link|
            grown.contains(v) <==> (stack.drop_last().contains(v) || d.contains((stack.last(), v))),
    ensures
        walk_inv(d, s, visited.push(stack.last()), grown),
        visited.len() + 1 <= d.len() + 1,
{
    reveal(walk_inv);
    let current = stack.last();
    let seen = visited.push(current);
    lemma_drop_last_contains(stack);
    lemma_push_contains(visited, current);
    assert forall|v: Link| seen.contains(v) || grown.contains(v) implies reaches(d, s, v) && (v == s
        || is_after(d, v)) by {
        if !(visited.contains(v) || stack.contains(v)) {
            lemma_reaches_step(d, s, current, v);
        }
    }
    assert forall|k: int| 0 <= k < d.len() && seen.contains((#[trigger] d[k]).0) implies seen.contains(
        d[k].1,
    ) || grown.contains(d[k].1) by {}
    assert forall|v: Link| seen.contains(v) implies states_from(d, s).contains(v) by {
        lemma_states_from(d, s, v);
    }
    lemma_states_from(d, s, s);
    lemma_distinct_within(seen, states_from(d, s));
}

/// Once the stack is empty the visited states are those that can be reached.
proof fn lemma_walk_end(
    d: Seq<Change>,
    s: Link,
    base: Seq<Change>,
    visited: Seq<Link>,
    pairs: Seq<Change>,
)
    requires
        is_initial(d, s),
        walk_inv(d, s, visited, Seq::<Link>::empty()),
        recorded(d, s, base, visited, pairs),
    ensures
        forall|p: Change| pairs.contains(p) <==> (base.contains(p) || (p.0 == s && collapses(d, p))),
{
    reveal(walk_inv);
    reveal(recorded);
    assert forall|p: Change| pairs.contains(p) <==> (base.contains(p) || (p.0 == s && collapses(
        d,
        p,
    ))) by {
        if p.0 == s && collapses(d, p) {
            let path = choose|path: Seq<Link>| #[trigger]
                is_path(d, path) && path[0] == s && path[path.len() - 1] == p.1;
            lemma_closed_holds_reachable(d, s, visited, path);
        }
    }
}

/// Visiting a state that has successors, or `s` itself, records nothing.
proof fn lemma_record_none(
    d: Seq<Change>,
    s: Link,
    base: Seq<Change>,
    visited: Seq<Link>,
    pairs: Seq<Change>,
    current: Link,
)
    requires
        recorded(d, s, base, visited, pairs),
        is_before(d, current),
    ensures
        recorded(d, s, base, visited.push(current), pairs),
{
    reveal(recorded);
    lemma_push_contains(visited, current);
}

/// Visiting a state without successors records the pair that leads to it.
proof fn lemma_record_final(
    d: Seq<Change>,
    s: Link,
    base: Seq<Change>,
    visited: Seq<Link>,
    pairs: Seq<Change>,
    current: Link,
    grown: Seq<Change>,
)
    requires
        is_initial(d, s),
        recorded(d, s, base, visited, pairs),
        !is_before(d, current),
        current == s || is_after(d, current),
        forall|q: Change| grown.contains(q) <==> (pairs.contains(q) || q == (s, current)),
    ensures
        recorded(d, s, base, visited.push(current), grown),
{
    reveal(recorded);
    lemma_push_contains(visited, current);
    assert forall|p: Change|
        grown.contains(p) <==> (base.contains(p) || (p.0 == s && visited.push(current).contains(p.1)
            && is_final(d, p.1))) by {}
}

/// Puts every successor of `current` on the stack.
fn push_successors(d: &Vec<Change>, current: Link, stack: &mut Vec<Link>)
    ensures
        forall|v: Link|
            final(stack)@.contains(v) <==> (old(stack)@.contains(v) || d@.contains((current, v))),
{
    let mut k: usize = 0;
    while k < d.len()
        invariant
            k <= d.len(),
            forall|v: Link|
                stack@.contains(v) <==> (old(stack)@.contains(v) || exists|j: int|
                    0 <= j < k && #[trigger] d@[j] == (current, v)),
        decreases d.len() - k,
    {
        let ghost stack_before = stack@;
        if d[k].0 == current {
            let next = d[k].1;
            stack.push(next);
            proof {
                lemma_push_contains(stack_before, next);
            }
        }
        proof {
            assert forall|v: Link|
                stack@.contains(v) <==> (old(stack)@.contains(v) || exists|j: int|
                    0 <= j < k + 1 && #[trigger] d@[j] == (current, v)) by {}
        }
        k += 1;
    }
    proof {
        assert forall|v: Link|
            stack@.contains(v) <==> (old(stack)@.contains(v) || d@.contains((current, v))) by {}
    }
}

/// Walks the graph depth-first from the initial state `s` and records, for
/// every final state met, the pair that leads from `s` to it.
fn collapse_from(d: &Vec<Change>, s: Link, pairs: &mut Vec<Change>)
    requires
        is_initial(d@, s),
        ascending(old(pairs)@),
        forall|p: Change| old(pairs)@.contains(p) ==> p.0 != s,
    ensures
        ascending(final(pairs)@),
        forall|p: Change|
            final(pairs)@.contains(p) <==> (old(pairs)@.contains(p) || (p.0 == s && collapses(
                d@,
                p,
            ))),
{
    let mut stack: Vec<Link> = Vec::new();
    let mut visited: Vec<Link> = Vec::new();
    stack.push(s);
    proof {
        lemma_walk_start(d@, s, pairs@);
    }
    while stack.len() > 0
        invariant
            is_initial(d@, s),
            ascending(pairs@),
            forall|p: Change| old(pairs)@.contains(p) ==> p.0 != s,
            visited@.len() <= d@.len() + 1,
            walk_inv(d@, s, visited@, stack@),
            recorded(d@, s, old(pairs)@, visited@, pairs@),
        decreases d@.len() + 1 - visited@.len(), stack@.len(),
    {
        let ghost stack_before = stack@;
        let ghost visited_before = visited@;
        let ghost pairs_before = pairs@;
        let current = stack.pop().unwrap();
        if holds(&visited, current) {
            proof {
                lemma_walk_skip(d@, s, visited_before, stack_before);
            }
            continue;
        }
        visited.push(current);
        proof {
            assert(current == s || is_after(d@, current)) by {
                reveal(walk_inv);
                lemma_drop_last_contains(stack_before);
            }
        }
        if !occurs_as_before(d, current) {
            proof {
                assert(!pairs@.contains((s, current))) by {
                    reveal(recorded);
                }
            }
            insert_ascending(pairs, (s, current));
            proof {
                lemma_record_final(
                    d@,
                    s,
                    old(pairs)@,
                    visited_before,
                    pairs_before,
                    current,
                    pairs@,
                );
            }
        } else {
            proof {
                lemma_record_none(d@, s, old(pairs)@, visited_before, pairs_before, current);
            }
        }
        push_successors(d, current, &mut stack);
        proof {
            lemma_walk_visit(d@, s, visited_before, stack_before, stack@);
        }
    }
    proof {
        assert(stack@ =~= Seq::<Link>::empty());
        lemma_walk_end(d@, s, old(pairs)@, visited@, pairs@);
    }
}

/// Simplifies a list of transitions to the transitions from initial to final
/// states.
///
/// A deletion is discarded when the same `before` also leads to a doublet that
/// is not null. Transitions that leave their doublet unchanged are kept as
/// they are and come first. Every chain of the others is replaced by one pair
/// from its initial state to each final state that can be reached from it; the
/// pairs come in ascending order of `after`, then of `before`. A list whose
/// changing transitions have no initial state is returned as it came.
pub fn simplify_changes(changes: Vec<Change>) -> (result: Vec<Change>)
    ensures
        simplifies_to(changes@, result@),
{
    let kept = resolve_duplicate_origins(&changes);
    let (same, moved) = split_unchanged(&kept);
    let initial = initial_states(&moved);
    if initial.len() == 0 {
        proof {
            assert forall|u: Link| !is_initial(moved@, u) by {}
        }
        return changes;
    }
    proof {
        assert(initial@.contains(initial@[0]));
    }
    let mut pairs: Vec<Change> = Vec::new();
    let mut i: usize = 0;
    while i < initial.len()
        invariant
            i <= initial.len(),
            initial@.no_duplicates(),
            forall|u: Link| initial@.contains(u) <==> is_initial(moved@, u),
            ascending(pairs@),
            forall|p: Change|
                pairs@.contains(p) <==> (collapses(moved@, p) && exists|j: int|
                    0 <= j < i && initial@[j] == p.0),
        decreases initial.len() - i,
    {
        let s = initial[i];
        let ghost pairs_before = pairs@;
        collapse_from(&moved, s, &mut pairs);
        proof {
            assert forall|p: Change|
                pairs@.contains(p) <==> (collapses(moved@, p) && exists|j: int|
                    0 <= j < i + 1 && initial@[j] == p.0) by {}
        }
        i += 1;
    }
    let ghost tail = pairs@;
    let ghost head = same@;
    let mut result = same;
    result.append(&mut pairs);
    proof {
        assert(result@.skip(head.len() as int) =~= tail);
        assert(result@.take(head.len() as int) =~= head);
        assert forall|p: Change| tail.contains(p) <==> collapses(moved@, p) by {}
    }
    result
}

} // verus!
