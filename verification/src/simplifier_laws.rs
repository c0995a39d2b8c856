//! Laws of the changes simplifier, stated over its contract.

use crate::changes_simplifier::{
    ascending, changed, collapses, has_initial, is_after, is_before, is_final, is_initial, is_move,
    is_noop, is_path, is_step, lemma_ascending_no_duplicates, lemma_ascending_unique,
    not_superseded, reaches, resolved, simplifies_to, superseded, unchanged, Change,
};
use crate::link::Link;
use vstd::prelude::*;

verus! {

/// The members of a filtered list are the members of the list that pass.
pub proof fn lemma_filter_members(s: Seq<Change>, pred: spec_fn(Change) -> bool)
    ensures
        forall|p: Change| #[trigger] s.filter(pred).contains(p) <==> (s.contains(p) && pred(p)),
{
    assert forall|p: Change| #[trigger] s.filter(pred).contains(p) <==> (s.contains(p) && pred(p)) by {
        if s.filter(pred).contains(p) {
            s.lemma_filter_contains_rev(pred, p);
            let i = choose|i: int| 0 <= i < s.filter(pred).len() && s.filter(pred)[i] == p;
            s.lemma_filter_pred(pred, i);
        }
        if s.contains(p) && pred(p) {
            let i = choose|i: int| 0 <= i < s.len() && s[i] == p;
            s.lemma_filter_contains(pred, i);
        }
    }
}

/// A filter that every element passes changes nothing.
pub proof fn lemma_filter_all(s: Seq<Change>, pred: spec_fn(Change) -> bool)
    requires
        forall|i: int| 0 <= i < s.len() ==> pred(#[trigger] s[i]),
    ensures
        s.filter(pred) == s,
    decreases s.len(),
{
    reveal(Seq::filter);
    if s.len() > 0 {
        lemma_filter_all(s.drop_last(), pred);
    }
}

/// A filter that no element passes leaves nothing.
pub proof fn lemma_filter_none(s: Seq<Change>, pred: spec_fn(Change) -> bool)
    requires
        forall|i: int| 0 <= i < s.len() ==> !pred(#[trigger] s[i]),
    ensures
        s.filter(pred) == Seq::<Change>::empty(),
    decreases s.len(),
{
    reveal(Seq::filter);
    if s.len() > 0 {
        lemma_filter_none(s.drop_last(), pred);
    }
}

/// The edges of the graph are the transitions that are not superseded and
/// change their doublet.
pub proof fn lemma_edges(changes: Seq<Change>)
    ensures
        forall|p: Change| #[trigger]
            changed(resolved(changes)).contains(p) <==> (changes.contains(p) && !superseded(
                changes,
                p,
            ) && p.0 != p.1),
{
    lemma_filter_members(changes, not_superseded(changes));
    lemma_filter_members(resolved(changes), is_move());
    assert forall|p: Change| #[trigger]
        changed(resolved(changes)).contains(p) <==> (changes.contains(p) && !superseded(
            changes,
            p,
        ) && p.0 != p.1) by {
        assert(resolved(changes).filter(is_move()).contains(p) <==> (resolved(changes).contains(p)
            && is_move()(p)));
        assert(changes.filter(not_superseded(changes)).contains(p) <==> (changes.contains(p)
            && not_superseded(changes)(p)));
    }
}

/// A state is a `before` where some transition of the list starts at it.
pub proof fn lemma_is_before(d: Seq<Change>, u: Link)
    ensures
        is_before(d, u) <==> exists|p: Change| #[trigger] d.contains(p) && p.0 == u,
{
    if is_before(d, u) {
        let i = choose|i: int| 0 <= i < d.len() && (#[trigger] d[i]).0 == u;
        assert(d.contains(d[i]));
    }
}

/// A state is an `after` where some transition of the list ends at it.
pub proof fn lemma_is_after(d: Seq<Change>, u: Link)
    ensures
        is_after(d, u) <==> exists|p: Change| #[trigger] d.contains(p) && p.1 == u,
{
    if is_after(d, u) {
        let i = choose|i: int| 0 <= i < d.len() && (#[trigger] d[i]).1 == u;
        assert(d.contains(d[i]));
    }
}

/// A list in which every transition leaves its doublet unchanged is returned
/// exactly as it came.
pub proof fn lemma_unchanged_preserved(changes: Seq<Change>, result: Seq<Change>)
    requires
        forall|i: int| 0 <= i < changes.len() ==> (#[trigger] changes[i]).0 == changes[i].1,
        simplifies_to(changes, result),
    ensures
        result == changes,
{
    let d = changed(resolved(changes));
    lemma_edges(changes);
    if has_initial(d) {
        let u = choose|u: Link| is_initial(d, u);
        let i = choose|i: int| 0 <= i < d.len() && (#[trigger] d[i]).0 == u;
        assert(d.contains(d[i]));
    }
}

/// The transition from the state at position `i` of `nodes` to the next one.
pub open spec fn chain_step(nodes: Seq<Link>, i: int) -> Change {
    (nodes[i], nodes[i + 1])
}

/// `changes` holds the transitions from each state of `nodes` to the next
/// one, and no others; the states are distinct.
pub open spec fn is_chain(changes: Seq<Change>, nodes: Seq<Link>) -> bool {
    &&& nodes.len() >= 2
    &&& nodes.no_duplicates()
    &&& forall|p: Change|
        changes.contains(p) <==> exists|i: int|
            0 <= i < nodes.len() - 1 && p == #[trigger] chain_step(nodes, i)
}

/// A chain of transitions through distinct states, given in any order, is
/// reduced to the single pair from its first state to its last.
pub proof fn lemma_chain_collapses(changes: Seq<Change>, nodes: Seq<Link>, result: Seq<Change>)
    requires
        is_chain(changes, nodes),
        simplifies_to(changes, result),
    ensures
        result == seq![(nodes[0], nodes[nodes.len() - 1])],
{
    let n = nodes.len() - 1;
    let kept = resolved(changes);
    let d = changed(kept);
    let same = unchanged(kept);
    let first = nodes[0];
    let last = nodes[n];
    lemma_edges(changes);
    lemma_filter_members(changes, not_superseded(changes));
    lemma_filter_members(kept, is_noop());
    // Every transition of the chain is an edge.
    assert forall|p: Change| changes.contains(p) implies d.contains(p) by {
        if superseded(changes, p) {
            let j = choose|j: int|
                0 <= j < changes.len() && (#[trigger] changes[j]).0 == p.0
                    && !changes[j].1.spec_is_null();
            assert(changes.contains(changes[j]));
        }
    }
    assert(same =~= Seq::<Change>::empty()) by {
        if same.len() > 0 {
            assert(same.contains(same[0]));
            let p = same[0];
        }
    }
    assert forall|u: Link| is_before(d, u) <==> exists|i: int|
        0 <= i < n && #[trigger] nodes[i] == u by {
        lemma_is_before(d, u);
        if exists|i: int| 0 <= i < n && #[trigger] nodes[i] == u {
            let i = choose|i: int| 0 <= i < n && #[trigger] nodes[i] == u;
            let p = chain_step(nodes, i);
            assert(changes.contains(p));
        }
    }
    assert forall|u: Link| is_after(d, u) <==> exists|i: int|
        1 <= i <= n && #[trigger] nodes[i] == u by {
        lemma_is_after(d, u);
        if exists|i: int| 1 <= i <= n && #[trigger] nodes[i] == u {
            let i = choose|i: int| 1 <= i <= n && #[trigger] nodes[i] == u;
            let p = chain_step(nodes, i - 1);
            assert(changes.contains(p));
        }
    }
    assert(is_initial(d, first)) by {}
    assert(is_final(d, last)) by {}
    assert(reaches(d, first, last)) by {
        assert forall|i: int| 0 <= i < nodes.len() - 1 implies #[trigger] is_step(d, nodes, i) by {
            assert(changes.contains(chain_step(nodes, i)));
        }
        assert(is_path(d, nodes));
    }
    assert forall|p: Change| collapses(d, p) implies p == (first, last) by {}
    let tail = result.skip(same.len() as int);
    let single = seq![(first, last)];
    assert(single[0] == (first, last));
    assert forall|p: Change| tail.contains(p) <==> single.contains(p) by {}
    lemma_ascending_unique(tail, single);
}

/// Every branch is kept: for an initial state `s`, the result holds exactly
/// one pair for each final state that can be reached from `s`, and no other
/// pair that starts at `s`.
pub proof fn lemma_branches_preserved(changes: Seq<Change>, result: Seq<Change>, s: Link)
    requires
        simplifies_to(changes, result),
        is_initial(changed(resolved(changes)), s),
    ensures
        ({
            let d = changed(resolved(changes));
            let skipped = unchanged(resolved(changes)).len() as int;
            let pairs = result.skip(skipped);
            &&& pairs.no_duplicates()
            &&& forall|f: Link| is_final(d, f) && reaches(d, s, f) ==> pairs.contains((s, f))
            &&& forall|p: Change|
                pairs.contains(p) && p.0 == s ==> is_final(d, p.1) && reaches(d, s, p.1)
        }),
{
    let d = changed(resolved(changes));
    let pairs = result.skip(unchanged(resolved(changes)).len() as int);
    lemma_ascending_no_duplicates(pairs);
    assert forall|f: Link| is_final(d, f) && reaches(d, s, f) implies pairs.contains((s, f)) by {}
}

/// No deletion in `changes` is superseded.
pub open spec fn keeps_every_deletion(changes: Seq<Change>) -> bool {
    forall|p: Change| changes.contains(p) ==> !superseded(changes, p)
}

/// The first `skipped` transitions change nothing, and the others lead in
/// ascending order from states that are never reached to states that are
/// never left.
pub open spec fn is_simplified(list: Seq<Change>, skipped: int) -> bool {
    let pairs = list.skip(skipped);
    &&& 0 <= skipped <= list.len()
    &&& forall|i: int| 0 <= i < skipped ==> (#[trigger] list[i]).0 == list[i].1
    &&& ascending(pairs)
    &&& forall|i: int, j: int|
        0 <= i < pairs.len() && 0 <= j < pairs.len() ==> (#[trigger] pairs[i]).0 != (
        #[trigger] pairs[j]).1
}

/// Where no state is both left and reached, the pairs that collapse are the
/// edges themselves.
proof fn lemma_direct_pairs(d: Seq<Change>)
    requires
        forall|i: int, j: int|
            0 <= i < d.len() && 0 <= j < d.len() ==> (#[trigger] d[i]).0 != (#[trigger] d[j]).1,
    ensures
        forall|p: Change| d.contains(p) <==> collapses(d, p),
{
    assert forall|p: Change| d.contains(p) implies collapses(d, p) by {
        let direct = seq![p.0, p.1];
        assert(is_path(d, direct)) by {
            assert forall|k: int| 0 <= k < direct.len() - 1 implies #[trigger] is_step(
                d,
                direct,
                k,
            ) by {}
        }
    }
    assert forall|p: Change| collapses(d, p) implies d.contains(p) by {
        let path = choose|path: Seq<Link>| #[trigger]
            is_path(d, path) && path[0] == p.0 && path[path.len() - 1] == p.1;
        if path.len() > 1 {
            assert(is_step(d, path, 0));
            if path.len() > 2 {
                assert(is_step(d, path, 1));
            }
        }
    }
}

/// The parts of a list that starts with `skipped` unchanged transitions and
/// goes on with transitions that change their doublet.
proof fn lemma_split_parts(list: Seq<Change>, skipped: int)
    requires
        0 <= skipped <= list.len(),
        forall|i: int| 0 <= i < skipped ==> (#[trigger] list[i]).0 == list[i].1,
        forall|i: int| skipped <= i < list.len() ==> (#[trigger] list[i]).0 != list[i].1,
    ensures
        unchanged(list) == list.take(skipped),
        changed(list) == list.skip(skipped),
{
    let head = list.take(skipped);
    let pairs = list.skip(skipped);
    assert(list =~= head + pairs);
    lemma_filter_all(head, is_noop());
    lemma_filter_none(pairs, is_noop());
    lemma_filter_none(head, is_move());
    lemma_filter_all(pairs, is_move());
    Seq::filter_distributes_over_add(head, pairs, is_noop());
    Seq::filter_distributes_over_add(head, pairs, is_move());
}

/// A list that holds no superseded deletion loses nothing to their removal.
proof fn lemma_nothing_superseded(list: Seq<Change>)
    requires
        keeps_every_deletion(list),
    ensures
        resolved(list) == list,
{
    assert forall|i: int| 0 <= i < list.len() implies (not_superseded(list))(#[trigger] list[i]) by {}
    lemma_filter_all(list, not_superseded(list));
}

/// A list whose parts are what a simplification of it would return is its
/// own simplification.
proof fn lemma_meets_contract(list: Seq<Change>, skipped: int)
    requires
        0 <= skipped <= list.len(),
        resolved(list) == list,
        unchanged(list) == list.take(skipped),
        changed(list) == list.skip(skipped),
        ascending(list.skip(skipped)),
        forall|p: Change| list.skip(skipped).contains(p) <==> collapses(list.skip(skipped), p),
    ensures
        simplifies_to(list, list),
{
}

/// A list that is already simplified, and in which no deletion is superseded,
/// is returned as it is.
pub proof fn lemma_simplified_is_fixed(list: Seq<Change>, skipped: int)
    requires
        is_simplified(list, skipped),
        keeps_every_deletion(list),
    ensures
        simplifies_to(list, list),
{
    let pairs = list.skip(skipped);
    lemma_nothing_superseded(list);
    assert forall|i: int| skipped <= i < list.len() implies (#[trigger] list[i]).0
        != list[i].1 by {
        assert(pairs[i - skipped] == list[i]);
    }
    lemma_split_parts(list, skipped);
    lemma_direct_pairs(pairs);
    lemma_meets_contract(list, skipped);
}

/// Simplifying a simplified list changes nothing.
///
/// This holds of every result `once` of a simplification but one kind: where
/// `once` itself holds a deletion that a transition from the same `before`
/// supersedes, and some transition that changes its doublet remains once
/// such deletions are discarded, the second simplification drops the
/// deletion.
pub proof fn lemma_simplify_idempotent(changes: Seq<Change>, once: Seq<Change>)
    requires
        simplifies_to(changes, once),
        !has_initial(changed(resolved(changes))) || changed(resolved(once)).len() == 0
            || keeps_every_deletion(once),
    ensures
        simplifies_to(once, once),
{
    let kept = resolved(changes);
    let d = changed(kept);
    let same = unchanged(kept);
    if has_initial(d) && changed(resolved(once)).len() > 0 {
        let skipped = same.len() as int;
        let pairs = once.skip(skipped);
        lemma_filter_members(kept, is_noop());
        assert forall|i: int| 0 <= i < skipped implies (#[trigger] once[i]).0 == once[i].1 by {
            assert(once[i] == same[i]);
        }
        assert forall|i: int, j: int| 0 <= i < pairs.len() && 0 <= j < pairs.len() implies (
        #[trigger] pairs[i]).0 != (#[trigger] pairs[j]).1 by {
            assert(pairs.contains(pairs[i]));
            assert(pairs.contains(pairs[j]));
        }
        lemma_simplified_is_fixed(once, skipped);
    }
}

} // verus!
