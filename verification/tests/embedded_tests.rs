//! Tests for the query processor over a store in memory.

use link_cli::embedded::{ClinkOptions, ClinkResult, QueryProcessor};

fn options(before: bool, changes: bool, after: bool) -> ClinkOptions {
    ClinkOptions { db: None, trace: false, structure: None, before, changes, after }
}

fn all() -> ClinkOptions {
    options(true, true, true)
}

#[test]
fn default_options_ask_for_nothing() {
    let options = ClinkOptions::default();
    assert_eq!(options.db, Some("db.links".to_string()));
    assert!(!options.trace && !options.before && !options.changes && !options.after);
    assert_eq!(options.structure, None);
}

#[test]
fn creation_gives_identifiers_in_order() {
    let mut processor = QueryProcessor::new();
    assert_eq!(
        processor.execute("() (((1 1) (2 3)))", &all()),
        Ok("() ((1: 1 1))\n() ((2: 2 3))\n(1: 1 1)\n(2: 2 3)".to_string())
    );
    assert_eq!(
        processor.execute("() (((5 5)))", &all()),
        Ok("(1: 1 1)\n(2: 2 3)\n() ((3: 5 5))\n(1: 1 1)\n(2: 2 3)\n(3: 5 5)".to_string())
    );
}

#[test]
fn nothing_asked_gives_an_empty_output() {
    let mut processor = QueryProcessor::new();
    assert_eq!(processor.execute("() (((1 1)))", &options(false, false, false)), Ok(String::new()));
    assert_eq!(processor.execute("", &all()), Ok("(1: 1 1)\n(1: 1 1)".to_string()));
    assert_eq!(processor.execute("   ", &options(false, false, true)), Ok("(1: 1 1)".to_string()));
}

#[test]
fn trace_shows_the_query_as_it_came() {
    let mut processor = QueryProcessor::new();
    let mut asked = options(false, true, false);
    asked.trace = true;
    assert_eq!(
        processor.execute(" () (((4 2))) ", &asked),
        Ok("Executing query:  () (((4 2))) \n() ((1: 4 2))".to_string())
    );
}

#[test]
fn deletion_takes_the_first_link_of_these_sides() {
    let mut processor = QueryProcessor::new();
    processor.execute("() (((1 1) (2 2) (1 1)))", &all()).unwrap();
    assert_eq!(
        processor.execute("(((1 1))) ()", &options(false, true, true)),
        Ok("((1: 1 1)) ()\n(2: 2 2)\n(3: 1 1)".to_string())
    );
    assert_eq!(
        processor.execute("(((9 9))) ()", &options(false, true, true)),
        Ok("(2: 2 2)\n(3: 1 1)".to_string())
    );
}

#[test]
fn deletion_with_a_wildcard_takes_all_links() {
    let mut processor = QueryProcessor::new();
    processor.execute("() (((1 1) (2 2)))", &all()).unwrap();
    assert_eq!(
        processor.execute("(((* *))) ()", &all()),
        Ok("(1: 1 1)\n(2: 2 2)\n((1: 1 1)) ()\n((2: 2 2)) ()".to_string())
    );
    // The identifiers that were given out stay taken.
    assert_eq!(
        processor.execute("() (((7 7)))", &options(false, true, false)),
        Ok("() ((3: 7 7))".to_string())
    );
}

#[test]
fn update_changes_the_sides_of_a_link() {
    let mut processor = QueryProcessor::new();
    processor.execute("() (((1 1) (2 2)))", &all()).unwrap();
    assert_eq!(
        processor.execute("(((1: 1 1))) (((1: 1 2)))", &options(false, true, true)),
        Ok("((1: 1 1)) ((1: 1 2))\n(1: 1 2)\n(2: 2 2)".to_string())
    );
    // A pair of different identifiers is passed over.
    assert_eq!(
        processor.execute("(((1: 1 2) (2: 2 2))) (((2: 9 9) (2: 5 6)))", &options(false, true, true)),
        Ok("((2: 2 2)) ((2: 5 6))\n(1: 1 2)\n(2: 5 6)".to_string())
    );
    // An update of a link that does not exist is recorded and changes nothing.
    assert_eq!(
        processor.execute("(((8: 1 1))) (((8: 3 3)))", &options(false, true, true)),
        Ok("((8: 1 1)) ((8: 3 3))\n(1: 1 2)\n(2: 5 6)".to_string())
    );
}

#[test]
fn read_shows_every_link_unchanged() {
    let mut processor = QueryProcessor::new();
    processor.execute("() (((1 2) (3 4)))", &all()).unwrap();
    assert_eq!(
        processor.execute("(($i: $s $t))", &options(false, true, false)),
        Ok("((1: 1 2)) ((1: 1 2))\n((2: 3 4)) ((2: 3 4))".to_string())
    );
}

#[test]
fn a_list_without_its_own_parentheses_runs_together() {
    let mut processor = QueryProcessor::new();
    // Between `() ((` and `))` stands `1 1`, which is read as one word.
    assert_eq!(processor.execute("() ((1 1))", &all()), Err("Invalid link format".to_string()));
    // The documented read query holds `)) ((` and is taken for an update.
    assert_eq!(
        processor.execute("((($i: $s $t)) (($i: $s $t)))", &all()),
        Err("Invalid link ID".to_string())
    );
}

#[test]
fn what_has_no_known_shape_is_refused() {
    let mut processor = QueryProcessor::new();
    assert_eq!(
        processor.execute("invalid query format", &all()),
        Err("Unsupported query format".to_string())
    );
    assert_eq!(processor.execute("() (((1)))", &all()), Err("Invalid link format".to_string()));
    assert_eq!(processor.execute("() (((a 1)))", &all()), Err("Invalid source ID".to_string()));
    assert_eq!(processor.execute("() (((1 b)))", &all()), Err("Invalid target ID".to_string()));
    assert_eq!(
        processor.execute("((1 1) ()", &all()),
        Err("Invalid deletion query format".to_string())
    );
    assert_eq!(
        processor.execute("(((1: 1 1))) (((1: 1 2))) (((1: 1 3)))", &all()),
        Err("Invalid update query format".to_string())
    );
    assert_eq!(
        processor.execute("(((1 1))) (((1: 1 2)))", &all()),
        Err("Invalid link format with ID".to_string())
    );
    assert_eq!(
        processor.execute("(((x: 1 1))) (((1: 1 2)))", &all()),
        Err("Invalid link ID".to_string())
    );
}

#[test]
fn a_refused_creation_keeps_what_it_did() {
    let mut processor = QueryProcessor::new();
    assert_eq!(
        processor.execute("() (((1 1) (x y)))", &all()),
        Err("Invalid source ID".to_string())
    );
    assert_eq!(processor.execute("", &options(false, false, true)), Ok("(1: 1 1)".to_string()));
}

#[test]
fn an_outcome_becomes_an_answer() {
    let done = ClinkResult::from_outcome(Ok("out".to_string()));
    assert!(done.success);
    assert_eq!(done.output, "out");
    assert_eq!(done.error, None);
    let failed = ClinkResult::from_outcome(Err("why".to_string()));
    assert!(!failed.success);
    assert_eq!(failed.output, "");
    assert_eq!(failed.error, Some("why".to_string()));
}
