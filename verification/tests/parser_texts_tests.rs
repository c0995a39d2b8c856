//! The notation parser on well-formed and malformed texts.

use link_cli::{LinkError, LinoLink, Parser};

fn leaf(id: &str) -> LinoLink {
    LinoLink::new(Some(id.to_string()))
}

fn parse(text: &str) -> Vec<LinoLink> {
    Parser::new().parse(text).unwrap()
}

fn refused(text: &str) -> bool {
    matches!(Parser::new().parse(text), Err(LinkError::ParseError(_)))
}

#[test]
fn whitespace_alone_is_no_node() {
    assert!(parse("  \t\n ").is_empty());
}

#[test]
fn empty_parentheses_are_the_empty_node() {
    let nodes = parse("()");
    assert_eq!(nodes, vec![LinoLink::default()]);
    assert!(nodes[0].is_empty());
}

#[test]
fn nodes_come_in_the_order_of_the_text() {
    assert_eq!(
        parse("a (b c)  d"),
        vec![leaf("a"), LinoLink::with_values(None, vec![leaf("b"), leaf("c")]), leaf("d")]
    );
}

#[test]
fn identifier_without_children_is_a_bare_identifier() {
    assert_eq!(parse("(name:)"), vec![leaf("name")]);
}

#[test]
fn first_token_with_colon_is_the_identifier() {
    assert_eq!(
        parse("(5: 1 2)"),
        vec![LinoLink::with_values(Some("5".to_string()), vec![leaf("1"), leaf("2")])]
    );
}

#[test]
fn all_colons_at_the_end_are_stripped() {
    assert_eq!(
        parse("(a::: b)"),
        vec![LinoLink::with_values(Some("a".to_string()), vec![leaf("b")])]
    );
}

#[test]
fn later_token_with_colon_is_a_child() {
    assert_eq!(
        parse("(a b: c)"),
        vec![LinoLink::with_values(None, vec![leaf("a"), leaf("b:"), leaf("c")])]
    );
}

#[test]
fn nested_composites_are_children() {
    assert_eq!(
        parse("((1 2) (3: 4 5))"),
        vec![LinoLink::with_values(
            None,
            vec![
                LinoLink::with_values(None, vec![leaf("1"), leaf("2")]),
                LinoLink::with_values(Some("3".to_string()), vec![leaf("4"), leaf("5")]),
            ]
        )]
    );
}

#[test]
fn quoted_segments_are_taken_as_they_stand() {
    assert_eq!(
        parse("(\"two words\" '(x)')"),
        vec![LinoLink::with_values(None, vec![leaf("two words"), leaf("(x)")])]
    );
}

#[test]
fn backslash_keeps_a_quote_inside_the_segment() {
    assert_eq!(parse("\"a\\\"b\""), vec![leaf("a\\\"b")]);
}

#[test]
fn variables_and_wildcards_are_identifiers() {
    let nodes = parse("($x * 12 name)");
    let values = nodes[0].values.as_ref().unwrap();
    assert!(values[0].is_variable());
    assert!(values[1].is_wildcard());
    assert!(values[2].is_numeric());
    assert!(!values[3].is_variable() && !values[3].is_wildcard() && !values[3].is_numeric());
}

#[test]
fn tokens_end_at_parentheses() {
    assert_eq!(
        parse("(a(b)c)"),
        vec![LinoLink::with_values(
            None,
            vec![leaf("a"), LinoLink::with_values(None, vec![leaf("b")]), leaf("c")]
        )]
    );
}

#[test]
fn open_parenthesis_without_end_is_refused() {
    assert!(refused("(1 2"));
    assert!(refused("((1 2)"));
    assert!(refused("("));
}

#[test]
fn closing_parenthesis_without_start_is_refused() {
    assert!(refused(")"));
    assert!(refused("(1 2))"));
    assert!(refused("a ) b"));
}

#[test]
fn quote_without_end_is_refused() {
    assert!(refused("\"abc"));
    assert!(refused("(a 'b c)"));
    assert!(refused("\""));
    assert!(refused("\"abc\\"));
}

#[test]
fn is_numeric_asks_for_digits_that_fit() {
    assert!(leaf("0").is_numeric());
    assert!(leaf("007").is_numeric());
    assert!(leaf("4294967295").is_numeric());
    assert!(!leaf("4294967296").is_numeric());
    assert!(!leaf("+5").is_numeric());
    assert!(!leaf("-5").is_numeric());
    assert!(!leaf("").is_numeric());
    assert!(!leaf("1a").is_numeric());
    assert!(!LinoLink::new(None).is_numeric());
}

#[test]
fn a_copy_holds_what_the_node_holds() {
    let node = LinoLink::with_values(
        Some("x".to_string()),
        vec![leaf("1"), LinoLink::with_values(None, vec![leaf("2"), leaf("3")])],
    );
    assert_eq!(node.clone(), node);
}
