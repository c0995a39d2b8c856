//! Tests for the store of links in memory.

use link_cli::links_operations::{Link, LinksStorage};

fn link(id: u64, source: u64, target: u64) -> Link {
    Link { id, source, target }
}

#[test]
fn a_new_store_holds_nothing() {
    let storage = LinksStorage::new();
    assert_eq!(storage.count(), 0);
    assert!(storage.get_all_links().is_empty());
    assert!(storage.has_room());
    assert!(!storage.has_link(1));
    assert_eq!(storage.get_link(1), None);
}

#[test]
fn identifiers_are_given_out_from_one() {
    let mut storage = LinksStorage::new();
    assert_eq!(storage.create_link(5, 6), 1);
    assert_eq!(storage.create_link(7, 8), 2);
    assert_eq!(storage.count(), 2);
    assert_eq!(storage.get_link(2), Some(&link(2, 7, 8)));
    assert!(storage.has_link(1));
    assert!(storage.delete_link(2));
    assert_eq!(storage.create_link(0, 0), 3);
}

#[test]
fn update_and_delete_say_whether_the_link_exists() {
    let mut storage = LinksStorage::new();
    let id = storage.create_link(1, 2);
    assert!(storage.update_link(id, 3, 4));
    assert_eq!(storage.get_link(id), Some(&link(id, 3, 4)));
    assert!(!storage.update_link(9, 1, 1));
    assert!(!storage.has_link(9));
    assert!(storage.delete_link(id));
    assert!(!storage.delete_link(id));
    assert_eq!(storage.count(), 0);
}

#[test]
fn all_links_come_in_ascending_order() {
    let mut storage = LinksStorage::new();
    for i in 0..150u64 {
        storage.create_link(i % 7, i % 5);
    }
    for id in (2..150u64).step_by(4) {
        storage.delete_link(id);
    }
    let listing = storage.get_all_links();
    assert_eq!(listing.len(), storage.count());
    for pair in listing.windows(2) {
        assert!(pair[0].id < pair[1].id);
    }
    for found in &listing {
        assert_eq!(storage.get_link(found.id), Some(found));
    }
}

#[test]
fn links_are_found_by_their_sides() {
    let mut storage = LinksStorage::new();
    storage.create_link(1, 2);
    storage.create_link(1, 3);
    storage.create_link(2, 3);
    storage.create_link(1, 3);
    assert_eq!(storage.find_link(1, 3), Some(&link(2, 1, 3)));
    assert_eq!(storage.find_link(3, 1), None);
    assert_eq!(
        storage.get_links_by_source(1),
        vec![&link(1, 1, 2), &link(2, 1, 3), &link(4, 1, 3)]
    );
    assert_eq!(
        storage.get_links_by_target(3),
        vec![&link(2, 1, 3), &link(3, 2, 3), &link(4, 1, 3)]
    );
    assert_eq!(
        storage.get_links_by_source_and_target(1, 3),
        vec![&link(2, 1, 3), &link(4, 1, 3)]
    );
    assert!(storage.get_links_by_source(9).is_empty());
}

#[test]
fn clear_starts_again() {
    let mut storage = LinksStorage::new();
    storage.create_link(1, 2);
    storage.create_link(1, 3);
    storage.clear();
    assert_eq!(storage.count(), 0);
    assert_eq!(storage.create_link(4, 4), 1);
}
