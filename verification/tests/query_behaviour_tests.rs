//! Queries against a store: creation, deletion, update, variables and
//! failures.

use link_cli::{Link, LinkError, LinkStorage, LinoLink, QueryOptions, QueryProcessor};

fn store() -> LinkStorage {
    LinkStorage::new("db.links", false)
}

fn run(storage: &mut LinkStorage, query: &str) -> Vec<(Option<Link>, Option<Link>)> {
    QueryProcessor::new(false).process_query(storage, query).unwrap()
}

fn fail(storage: &mut LinkStorage, query: &str) -> LinkError {
    QueryProcessor::new(false).process_query(storage, query).unwrap_err()
}

#[test]
fn creation_in_an_empty_store_gets_the_first_index() {
    let mut storage = store();
    let changes = run(&mut storage, "(() ((1 2)))");
    assert_eq!(changes, vec![(None, Some(Link::new(1, 1, 2)))]);
    assert_eq!(storage.all(), vec![&Link::new(1, 1, 2)]);
}

#[test]
fn update_swaps_source_and_target() {
    let mut storage = store();
    run(&mut storage, "(() ((1 2)))");
    let changes = run(&mut storage, "(((1: 1 2)) ((1: 2 1)))");
    assert_eq!(changes, vec![(Some(Link::new(1, 1, 2)), Some(Link::new(1, 2, 1)))]);
    assert_eq!(storage.all(), vec![&Link::new(1, 2, 1)]);
}

#[test]
fn deleting_what_is_not_there_changes_nothing() {
    let mut storage = store();
    run(&mut storage, "(() ((1 2)))");
    let changes = run(&mut storage, "(((5: 5 5)) ())");
    assert!(changes.is_empty());
    assert_eq!(storage.all(), vec![&Link::new(1, 1, 2)]);
    assert_eq!(storage.create(0, 0), 2);
}

#[test]
fn deletion_records_the_doublet() {
    let mut storage = store();
    run(&mut storage, "(() ((1 2) (2 1)))");
    let changes = run(&mut storage, "(((2: 2 1) (1: 1 2)) ())");
    assert_eq!(
        changes,
        vec![(Some(Link::new(2, 2, 1)), None), (Some(Link::new(1, 1, 2)), None)]
    );
    assert!(storage.all().is_empty());
}

#[test]
fn restriction_without_identifier_deletes_nothing() {
    let mut storage = store();
    run(&mut storage, "(() ((1 2)))");
    assert!(run(&mut storage, "(((1 2)) ())").is_empty());
    assert_eq!(storage.all().len(), 1);
}

#[test]
fn both_sides_empty_is_no_operation() {
    let mut storage = store();
    assert!(run(&mut storage, "(() ())").is_empty());
    assert!(run(&mut storage, "   ").is_empty());
    assert!(storage.all().is_empty());
}

#[test]
fn several_creations_are_recorded_in_order() {
    let mut storage = store();
    let changes = run(&mut storage, "(() ((1 1) (2 2) (1 1)))");
    assert_eq!(
        changes,
        vec![
            (None, Some(Link::new(1, 1, 1))),
            (None, Some(Link::new(2, 2, 2))),
            (None, Some(Link::new(1, 1, 1))),
        ]
    );
    assert_eq!(storage.all().len(), 2);
}

#[test]
fn the_same_creation_twice_adds_nothing() {
    let mut storage = store();
    let first = run(&mut storage, "(() (((a b) (a b))))");
    let count = storage.all().len();
    let second = run(&mut storage, "(() (((a b) (a b))))");
    assert_eq!(first, second);
    assert_eq!(storage.all().len(), count);
    let outer = first[0].1.unwrap();
    assert_eq!(outer.source, outer.target);
}

#[test]
fn a_numbered_composite_is_created_at_its_index() {
    let mut storage = store();
    let changes = run(&mut storage, "(() ((7: 1 2)))");
    assert_eq!(changes, vec![(None, Some(Link::new(7, 1, 2)))]);
    assert_eq!(storage.create(0, 0), 8);
    // A second time the doublet is overwritten.
    let changes = run(&mut storage, "(() ((7: 3 4)))");
    assert_eq!(changes, vec![(None, Some(Link::new(7, 3, 4)))]);
}

#[test]
fn a_numbered_composite_is_created_at_a_free_index_that_was_passed_over() {
    let mut storage = store();
    run(&mut storage, "(() ((7: 1 2)))");
    let changes = run(&mut storage, "(() ((3: 1 2)))");
    assert_eq!(changes, vec![(None, Some(Link::new(3, 1, 2)))]);
    assert_eq!(storage.all(), vec![&Link::new(3, 1, 2), &Link::new(7, 1, 2)]);
    assert_eq!(storage.create(0, 0), 8);
}

#[test]
fn the_index_of_the_null_doublet_is_not_created() {
    let mut storage = store();
    assert_eq!(fail(&mut storage, "(() ((0: 1 2)))"), LinkError::NotFound(0));
    assert!(storage.all().is_empty());
}

#[test]
fn variables_are_bound_from_a_named_restriction() {
    let mut storage = store();
    run(&mut storage, "(() ((pair: 5 6)))");
    let changes = run(&mut storage, "(((pair: $s $t)) ((pair: $t $s)))");
    assert_eq!(changes, vec![(Some(Link::new(1, 5, 6)), Some(Link::new(1, 6, 5)))]);
}

#[test]
fn a_part_is_a_number_or_a_name() {
    let mut storage = store();
    let processor = QueryProcessor::new(false);
    assert_eq!(processor.resolve_part(&mut storage, "15"), Ok(15));
    assert_eq!(processor.resolve_part(&mut storage, "fifteen"), Ok(1));
    assert_eq!(processor.resolve_part(&mut storage, "*"), Ok(2));
    assert_eq!(processor.lookup_id(&storage, "fifteen"), Some(1));
    assert_eq!(processor.lookup_id(&storage, "15"), Some(15));
    assert_eq!(processor.lookup_id(&storage, "sixteen"), None);
    assert_eq!(processor.lookup_id(&storage, "$x"), None);
    assert_eq!(processor.lookup_id(&storage, ""), None);
}

#[test]
fn a_named_composite_gets_the_name() {
    let mut storage = store();
    let changes = run(&mut storage, "(() ((pair: 1 2)))");
    assert_eq!(changes, vec![(None, Some(Link::new(1, 1, 2)))]);
    assert_eq!(storage.get_by_name("pair"), Some(1));
    let changes = run(&mut storage, "(() ((pair: 2 1)))");
    assert_eq!(changes, vec![(None, Some(Link::new(1, 2, 1)))]);
    assert_eq!(storage.all().len(), 1);
}

#[test]
fn variables_are_bound_from_the_restriction() {
    let mut storage = store();
    run(&mut storage, "(() ((1: 5 6)))");
    let changes = run(&mut storage, "(((1: $s $t)) ((1: $t $s)))");
    assert_eq!(changes, vec![(Some(Link::new(1, 5, 6)), Some(Link::new(1, 6, 5)))]);
}

#[test]
fn a_variable_that_is_not_bound_is_null_in_the_substitution() {
    let mut storage = store();
    run(&mut storage, "(() ((1: 5 6)))");
    let changes = run(&mut storage, "(((1: 5 6)) ((1: $x 9)))");
    assert_eq!(changes, vec![(Some(Link::new(1, 5, 6)), Some(Link::new(1, 0, 9)))]);
}

#[test]
fn an_update_that_changes_nothing_is_recorded_as_it_is() {
    let mut storage = store();
    run(&mut storage, "(() ((1: 5 6)))");
    let changes = run(&mut storage, "(((1: 5 6)) ((1: 5 6)))");
    assert_eq!(changes, vec![(Some(Link::new(1, 5, 6)), Some(Link::new(1, 5, 6)))]);
}

#[test]
fn identifiers_are_applied_in_ascending_order() {
    let mut storage = store();
    run(&mut storage, "(() ((1: 1 1) (2: 2 2)))");
    // `1` is on both sides, `2` on the restriction side only, `b` and `a` on
    // the substitution side only.
    let changes = run(&mut storage, "(((2: 2 2) (1: 1 1)) ((b: 1 1) (1: 2 2) (a: 1 1)))");
    assert_eq!(
        changes,
        vec![
            (Some(Link::new(2, 2, 2)), None),
            (None, Some(Link::new(3, 1, 1))),
            (None, Some(Link::new(4, 1, 1))),
            (Some(Link::new(1, 1, 1)), Some(Link::new(1, 2, 2))),
        ]
    );
    assert_eq!(storage.get_by_name("a"), Some(3));
    assert_eq!(storage.get_by_name("b"), Some(4));
}

#[test]
fn a_wildcard_index_matches_no_doublet() {
    let mut storage = store();
    run(&mut storage, "(() ((1: 1 1)))");
    let changes = run(&mut storage, "(((*: 1 1)) ((*: 2 2)))");
    assert!(changes.is_empty());
    assert_eq!(storage.all(), vec![&Link::new(1, 1, 1)]);
}

#[test]
fn a_query_of_another_shape_is_refused() {
    let mut storage = store();
    assert!(matches!(fail(&mut storage, "(1 2 3)"), LinkError::InvalidFormat(_)));
    assert!(matches!(fail(&mut storage, "(())"), LinkError::InvalidFormat(_)));
    assert!(matches!(fail(&mut storage, "()"), LinkError::InvalidFormat(_)));
    assert!(matches!(fail(&mut storage, "name"), LinkError::InvalidFormat(_)));
    assert!(matches!(fail(&mut storage, "(() ()) (() ())"), LinkError::InvalidFormat(_)));
}

#[test]
fn a_malformed_text_is_refused() {
    let mut storage = store();
    assert!(matches!(fail(&mut storage, "(() ((1 2))"), LinkError::ParseError(_)));
    assert!(matches!(fail(&mut storage, "(() ((1 \"2)))"), LinkError::ParseError(_)));
    assert!(storage.all().is_empty());
}

#[test]
fn a_failed_query_leaves_the_store_as_it_was() {
    let mut storage = store();
    run(&mut storage, "(() ((x y)))");
    let before = storage.to_text();
    let error = fail(&mut storage, "(() ((a b) (c d e)))");
    assert!(matches!(error, LinkError::InvalidFormat(_)));
    assert_eq!(storage.to_text(), before);
    assert_eq!(storage.get_by_name("a"), None);
    assert_eq!(storage.create(0, 0), 4);
}

#[test]
fn a_full_store_refuses_creation() {
    let mut storage = store();
    storage.ensure_created(4294967294);
    assert!(!storage.has_room());
    assert!(matches!(fail(&mut storage, "(() ((1 2)))"), LinkError::StorageError(_)));
    assert!(matches!(fail(&mut storage, "(() ((4294967295: 1 2)))"), LinkError::StorageError(_)));
    assert_eq!(storage.all().len(), 1);
    // What exists is still found.
    assert_eq!(
        run(&mut storage, "(() ((0 0)))"),
        vec![(None, Some(Link::new(4294967294, 0, 0)))]
    );
}

#[test]
fn a_deletion_by_a_name_that_denotes_nothing_changes_nothing() {
    let mut storage = store();
    run(&mut storage, "(() ((1 2)))");
    let before = storage.to_text();
    assert!(run(&mut storage, "(((ghost: 1 1)) ())").is_empty());
    assert!(run(&mut storage, "(((*: 1 1) ($x: 1 1) (0: 1 1)) ())").is_empty());
    assert_eq!(storage.to_text(), before);
    assert_eq!(storage.get_by_name("ghost"), None);
    assert_eq!(storage.create(0, 0), 2);
}

#[test]
fn a_deletion_by_name_deletes_the_doublet_of_that_name() {
    let mut storage = store();
    run(&mut storage, "(() ((pair: 1 2)))");
    let changes = run(&mut storage, "(((pair: 1 2)) ())");
    assert_eq!(changes, vec![(Some(Link::new(1, 1, 2)), None)]);
    assert_eq!(storage.get_by_name("pair"), None);
    // The deletion is idempotent.
    assert!(run(&mut storage, "(((pair: 1 2)) ())").is_empty());
}

#[test]
fn the_parts_of_the_processor_work_on_their_own() {
    let mut storage = store();
    let processor = QueryProcessor::new(true);
    assert!(processor.is_trace_enabled());
    assert_eq!(processor.resolve_name(&mut storage, "n"), Ok(1));
    assert_eq!(processor.resolve_name(&mut storage, "n"), Ok(1));
    assert_eq!(processor.join(&mut storage, &None, 1, 1), Ok(1));
    assert_eq!(processor.join(&mut storage, &None, 1, 2), Ok(2));
    assert_eq!(processor.join(&mut storage, &Some("n".to_string()), 3, 3), Ok(1));
    assert_eq!(storage.get(1), Some(&Link::new(1, 3, 3)));
    assert_eq!(processor.join(&mut storage, &Some("9".to_string()), 4, 4), Ok(9));
    assert_eq!(storage.get(9), Some(&Link::new(9, 4, 4)));
    let node = LinoLink::new(Some("n".to_string()));
    assert_eq!(processor.resolve_link_id(&storage, &node), 1);
    assert_eq!(processor.resolve_link_id(&storage, &LinoLink::new(None)), 0);
}

#[test]
fn identifiers_resolve_by_their_kind() {
    // The empty identifier and an unbound variable are null on the
    // substitution side, the wildcard is the highest reference, a number is
    // itself, and a name is the point of that name. A point joins itself
    // with itself, so the pair of a name with itself is the point.
    let mut storage = store();
    let changes = run(&mut storage, "(() ((\"\" $v) (* 12) (name name) (name 5)))");
    assert_eq!(
        changes,
        vec![
            (None, Some(Link::new(1, 0, 0))),
            (None, Some(Link::new(2, u32::MAX, 12))),
            (None, Some(Link::new(3, 3, 3))),
            (None, Some(Link::new(4, 3, 5))),
        ]
    );
    assert_eq!(storage.get_by_name("name"), Some(3));
}

#[test]
fn simplify_changes_list_keeps_creations_and_deletions_first() {
    let processor = QueryProcessor::new(false);
    let changes = vec![
        (Some(Link::new(1, 1, 2)), Some(Link::new(0, 0, 0))),
        (None, Some(Link::new(5, 5, 5))),
        (Some(Link::new(0, 0, 0)), Some(Link::new(1, 2, 1))),
        (Some(Link::new(6, 6, 6)), None),
    ];
    assert_eq!(
        processor.simplify_changes_list(&changes),
        vec![
            (None, Some(Link::new(5, 5, 5))),
            (Some(Link::new(6, 6, 6)), None),
            (Some(Link::new(1, 1, 2)), Some(Link::new(1, 2, 1))),
        ]
    );
}

#[test]
fn options_hold_the_query() {
    let options = QueryOptions::new("(() ())", true);
    assert_eq!(options.query, "(() ())");
    assert!(options.trace);
}
