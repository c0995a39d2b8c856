//! The doublet store: indices, names, search, notation and the saved form.

use link_cli::{Link, LinkError, LinkStorage};

fn store() -> LinkStorage {
    LinkStorage::new("db.links", true)
}

#[test]
fn a_new_store_is_empty() {
    let storage = store();
    assert!(storage.all().is_empty());
    assert_eq!(storage.db_path(), "db.links");
    assert!(storage.is_trace_enabled());
    assert!(storage.has_room());
    assert!(storage.get(1).is_none());
}

#[test]
fn indices_are_given_out_in_order() {
    let mut storage = store();
    assert_eq!(storage.create(5, 6), 1);
    assert_eq!(storage.create(7, 8), 2);
    assert_eq!(storage.get(1), Some(&Link::new(1, 5, 6)));
    assert_eq!(storage.get(2), Some(&Link::new(2, 7, 8)));
    storage.delete(2).unwrap();
    assert_eq!(storage.create(1, 1), 3);
}

#[test]
fn update_returns_the_doublet_as_it_was() {
    let mut storage = store();
    let id = storage.create(2, 3);
    assert_eq!(storage.update(id, 4, 5), Ok(Link::new(id, 2, 3)));
    assert_eq!(storage.get(id), Some(&Link::new(id, 4, 5)));
}

#[test]
fn update_and_delete_of_nothing_are_not_found() {
    let mut storage = store();
    assert_eq!(storage.update(9, 1, 1), Err(LinkError::NotFound(9)));
    assert_eq!(storage.delete(9), Err(LinkError::NotFound(9)));
    assert_eq!(storage.format_structure(9), Err(LinkError::NotFound(9)));
    assert!(storage.all().is_empty());
}

#[test]
fn delete_returns_the_doublet_and_takes_its_name() {
    let mut storage = store();
    let id = storage.get_or_create_named("point");
    assert_eq!(storage.delete(id), Ok(Link::new(id, id, id)));
    assert!(!storage.has_link(id));
    assert_eq!(storage.get_by_name("point"), None);
    assert_eq!(storage.get_name(id), None);
}

#[test]
fn ensure_created_makes_the_doublet_and_moves_the_next_index() {
    let mut storage = store();
    assert_eq!(storage.ensure_created(5), 5);
    assert_eq!(storage.get(5), Some(&Link::new(5, 0, 0)));
    assert!(!storage.has_link(3));
    assert_eq!(storage.create(1, 1), 6);
    // An index that was passed over stays empty.
    assert_eq!(storage.ensure_created(3), 3);
    assert!(!storage.has_link(3));
    // An index that holds a doublet is left as it is.
    storage.update(5, 7, 7).unwrap();
    assert_eq!(storage.ensure_created(5), 5);
    assert_eq!(storage.get(5), Some(&Link::new(5, 7, 7)));
}

#[test]
fn search_finds_the_lowest_index() {
    let mut storage = store();
    storage.create(9, 9);
    let first = storage.create(2, 3);
    let second = storage.create(2, 3);
    assert!(first < second);
    assert_eq!(storage.search(2, 3), Some(first));
    storage.delete(first).unwrap();
    assert_eq!(storage.search(2, 3), Some(second));
    assert_eq!(storage.search(3, 2), None);
}

#[test]
fn get_or_create_creates_once() {
    let mut storage = store();
    let id = storage.get_or_create(4, 5);
    assert_eq!(storage.get_or_create(4, 5), id);
    assert_ne!(storage.get_or_create(5, 4), id);
    assert_eq!(storage.all().len(), 2);
}

#[test]
fn a_named_doublet_is_a_point() {
    let mut storage = store();
    let id = storage.get_or_create_named("atom");
    assert!(storage.get(id).unwrap().is_full_point());
    assert_eq!(storage.get_or_create_named("atom"), id);
    assert_ne!(storage.get_or_create_named("other"), id);
}

#[test]
fn a_name_denotes_one_doublet_only() {
    let mut storage = store();
    let a = storage.create(1, 1);
    let b = storage.create(2, 2);
    storage.set_name(a, "x");
    storage.set_name(b, "x");
    assert_eq!(storage.get_by_name("x"), Some(b));
    assert_eq!(storage.get_name(a), None);
    storage.set_name(b, "y");
    assert_eq!(storage.get_by_name("x"), None);
    assert_eq!(storage.get_by_name("y"), Some(b));
    storage.remove_name(b);
    assert_eq!(storage.get_by_name("y"), None);
}

#[test]
fn all_lists_the_doublets_in_ascending_order() {
    let mut storage = store();
    for i in 0..200u32 {
        storage.create(i, i + 1);
    }
    for i in (1..200u32).step_by(3) {
        storage.delete(i).unwrap();
    }
    let listing = storage.all();
    assert_eq!(listing.len(), 200 - 67);
    for pair in listing.windows(2) {
        assert!(pair[0].index < pair[1].index);
    }
    for link in listing {
        assert_eq!(storage.get(link.index), Some(link));
    }
}

#[test]
fn query_selects_by_what_is_given() {
    let mut storage = store();
    storage.create(1, 2);
    storage.create(1, 3);
    storage.create(2, 3);
    assert_eq!(storage.query(None, None, None).len(), 3);
    assert_eq!(
        storage.query(None, Some(1), None),
        vec![&Link::new(1, 1, 2), &Link::new(2, 1, 3)]
    );
    assert_eq!(
        storage.query(None, None, Some(3)),
        vec![&Link::new(2, 1, 3), &Link::new(3, 2, 3)]
    );
    assert_eq!(storage.query(Some(3), Some(2), Some(3)), vec![&Link::new(3, 2, 3)]);
    assert!(storage.query(Some(3), Some(1), None).is_empty());
}

#[test]
fn format_uses_names_where_they_are_known() {
    let mut storage = store();
    let a = storage.get_or_create_named("a");
    let b = storage.get_or_create_named("b");
    let ab = storage.create(a, b);
    assert_eq!(storage.format(&Link::new(ab, a, b)), "(3 a b)");
    assert_eq!(storage.format(&Link::new(a, a, a)), "(a a a)");
    assert_eq!(storage.format(&Link::new(10, 20, 4294967295)), "(10 20 4294967295)");
    assert_eq!(Link::new(0, 10, 4294967295).format(), "(0 10 4294967295)");
}

#[test]
fn format_change_leaves_an_absent_side_empty() {
    let mut storage = store();
    let a = storage.get_or_create_named("a");
    let link = Link::new(a, a, a);
    assert_eq!(storage.format_change(&None, &Some(link)), "() ((a a a))");
    assert_eq!(storage.format_change(&Some(link), &None), "((a a a)) ()");
    assert_eq!(
        storage.format_change(&Some(Link::new(2, 1, 1)), &Some(Link::new(2, 2, 2))),
        "((2 a a)) ((2 2 2))"
    );
    assert_eq!(storage.format_change(&None, &None), "() ()");
}

#[test]
fn format_structure_expands_down_to_points() {
    let mut storage = store();
    let a = storage.get_or_create_named("a");
    let b = storage.get_or_create_named("b");
    let ab = storage.create(a, b);
    let outer = storage.create(ab, 77);
    assert_eq!(storage.format_structure(a).unwrap(), "(a a)");
    assert_eq!(storage.format_structure(ab).unwrap(), "(a b)");
    assert_eq!(storage.format_structure(outer).unwrap(), "((a b) 77)");
}

#[test]
fn format_structure_ends_on_doublets_that_contain_each_other() {
    let mut storage = store();
    let a = storage.create(0, 0);
    let b = storage.create(a, a);
    storage.update(a, b, b).unwrap();
    assert_eq!(storage.format_structure(a).unwrap(), "(((2 2) (2 2)) ((2 2) (2 2)))");
}

#[test]
fn the_saved_form_has_one_line_for_each_doublet() {
    let mut storage = store();
    storage.create(2, 3);
    let name = storage.get_or_create_named("point");
    storage.create(name, 1);
    assert_eq!(storage.to_text(), "(1 2 3)\n(2 2 2 \"point\")\n(3 2 1)\n");
    assert_eq!(store().to_text(), "");
}

#[test]
fn the_saved_form_is_read_back() {
    let mut storage = store();
    storage.create(2, 3);
    let name = storage.get_or_create_named("point");
    storage.create(name, 1);
    storage.delete(1).unwrap();
    let text = storage.to_text();

    let mut loaded = store();
    loaded.load_text(&text);
    assert_eq!(loaded.all(), storage.all());
    assert_eq!(loaded.get_by_name("point"), Some(name));
    assert_eq!(loaded.create(0, 0), 4);
}

#[test]
fn comments_and_lines_that_say_nothing_are_passed_over() {
    let mut storage = store();
    storage.load_text("# saved store\n\n  (4 5 6)  \r\nnot a line\n(1 2)\n(x 1 2)\n7 8 9 \"seven\" more\n");
    assert_eq!(storage.all(), vec![&Link::new(4, 5, 6), &Link::new(7, 8, 9)]);
    assert_eq!(storage.get_by_name("seven"), Some(7));
    assert_eq!(storage.create(1, 1), 8);
}

#[test]
fn a_line_gives_a_doublet_and_may_give_a_name() {
    let storage = store();
    assert_eq!(storage.parse_link_line("(1 2 3)"), Some((Link::new(1, 2, 3), None)));
    assert_eq!(
        storage.parse_link_line("((10 20 30 \"ten\"))"),
        Some((Link::new(10, 20, 30), Some("ten".to_string())))
    );
    assert_eq!(
        storage.parse_link_line("1 2 3 bare"),
        Some((Link::new(1, 2, 3), Some("bare".to_string())))
    );
    assert_eq!(storage.parse_link_line("(1 2)"), None);
    assert_eq!(storage.parse_link_line("(1 2 x)"), None);
    assert_eq!(storage.parse_link_line("(1 2 4294967296)"), None);
    assert_eq!(storage.parse_link_line(""), None);
}

#[test]
fn a_later_line_replaces_an_earlier_one() {
    let mut storage = store();
    storage.load_text("(1 1 1 \"a\")\n(1 2 2 \"b\")\n(2 2 2 \"b\")");
    assert_eq!(storage.all(), vec![&Link::new(1, 2, 2), &Link::new(2, 2, 2)]);
    assert_eq!(storage.get_by_name("a"), None);
    assert_eq!(storage.get_by_name("b"), Some(2));
    assert_eq!(storage.get_name(1), None);
}

#[test]
fn the_index_of_the_null_doublet_is_not_read() {
    let mut storage = store();
    storage.load_text("(0 0 0)\n(0 1 1)\n(1 0 0)");
    assert_eq!(storage.all(), vec![&Link::new(1, 0, 0)]);
}

#[test]
fn the_highest_index_is_not_read() {
    let mut storage = store();
    storage.load_text("(4294967295 1 1)\n(4294967294 1 1)");
    assert_eq!(storage.all(), vec![&Link::new(4294967294, 1, 1)]);
    assert!(!storage.has_room());
}

#[test]
fn a_copy_of_a_store_holds_the_same() {
    let mut storage = store();
    storage.create(1, 2);
    storage.get_or_create_named("n");
    let mut copy = storage.clone();
    assert_eq!(copy.all(), storage.all());
    assert_eq!(copy.get_by_name("n"), Some(2));
    copy.create(3, 3);
    assert_eq!(storage.all().len(), 2);
}

#[test]
fn errors_describe_themselves() {
    assert_eq!(LinkError::NotFound(42).message(), "Link not found: 42");
    assert_eq!(
        LinkError::InvalidFormat("shape".to_string()).message(),
        "Invalid link format: shape"
    );
    assert_eq!(LinkError::StorageError("disk".to_string()).message(), "Storage error: disk");
    assert_eq!(LinkError::QueryError("why".to_string()).message(), "Query error: why");
    assert_eq!(LinkError::ParseError("where".to_string()).message(), "Parse error: where");
}
