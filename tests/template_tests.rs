use calyx_rs::error::CalyxError;
use calyx_rs::template::{Node, RefMode, TemplateNode};

#[test]
fn node_frag_with_no_delimiters() {
    let frags = TemplateNode::fragment_string("One Two Three");
    assert_eq!(vec!["One Two Three"], frags)
}

#[test]
fn node_frag_is_just_expansion() {
    let frags = TemplateNode::fragment_string("{One Two Three}");
    assert_eq!(vec!["{One Two Three}"], frags)
}

#[test]
fn node_two_adjacent_expansions() {
    let frags = TemplateNode::fragment_string("{One}{Two}");
    assert_eq!(vec!["{One}", "{Two}"], frags)
}

#[test]
fn node_frag_with_single_expansion() {
    let frags = TemplateNode::fragment_string("{One} Two Three");
    assert_eq!(vec!["{One}", " Two Three"], frags)
}

#[test]
fn node_frag_starts_with_expansion() {
    let frags = TemplateNode::fragment_string("{One} Two");
    assert_eq!(vec!["{One}", " Two"], frags)
}

#[test]
fn node_frag_ends_with_expansion() {
    let frags = TemplateNode::fragment_string("One {Two}");
    assert_eq!(vec!["One ", "{Two}"], frags)
}

#[test]
fn node_frag_with_multiple_expansion() {
    let frags = TemplateNode::fragment_string("{One} Two {Three} Four");
    assert_eq!(vec!["{One}", " Two ", "{Three}", " Four"], frags)
}

#[test]
fn frag_unclosed_brace_stays_literal() {
    let frags = TemplateNode::fragment_string("a{b");
    assert_eq!(vec!["a", "{b"], frags);
    let frags = TemplateNode::fragment_string("a}b");
    assert_eq!(vec!["a}", "b"], frags);
}

#[test]
fn frag_empty_template() {
    let frags = TemplateNode::fragment_string("");
    assert!(frags.is_empty());
}

#[test]
fn split_on_dots_keeps_empty_components() {
    let parts = TemplateNode::split_on_dots("name.upper..x");
    assert_eq!(vec!["name", "upper", "", "x"], parts);
    let parts = TemplateNode::split_on_dots("");
    assert_eq!(vec![""], parts);
}

fn expr_parts(node: &Node) -> (RefMode, String, Vec<String>) {
    match node {
        Node::Expr(e) => (e.mode, e.symbol.clone(), e.filters.clone()),
        Node::Atom(s) => panic!("expected an expression, found atom {}", s),
    }
}

#[test]
fn parse_expression_sigils() {
    let plain = TemplateNode::parse_expression(String::from("name")).unwrap();
    assert_eq!(expr_parts(&plain), (RefMode::Plain, String::from("name"), vec![]));
    let memo = TemplateNode::parse_expression(String::from("@name")).unwrap();
    assert_eq!(expr_parts(&memo), (RefMode::Memo, String::from("name"), vec![]));
    let unique = TemplateNode::parse_expression(String::from("$name")).unwrap();
    assert_eq!(expr_parts(&unique), (RefMode::Unique, String::from("name"), vec![]));
}

#[test]
fn parse_expression_filter_chain() {
    let node = TemplateNode::parse_expression(String::from("@name.lowercase.length")).unwrap();
    assert_eq!(
        expr_parts(&node),
        (
            RefMode::Memo,
            String::from("name"),
            vec![String::from("lowercase"), String::from("length")]
        )
    );
}

#[test]
fn parse_empty_expression_is_invalid() {
    let result = TemplateNode::parse(&String::from("a {} b"));
    assert!(matches!(result, Err(CalyxError::InvalidExpression { ref expression }) if expression.is_empty()));
    let result = TemplateNode::parse(&String::from("{.uppercase}"));
    assert!(matches!(result, Err(CalyxError::InvalidExpression { .. })));
}

#[test]
fn parse_mixed_template() {
    let t = TemplateNode::parse(&String::from("Hi {name}!")).unwrap();
    assert_eq!(t.concat_nodes.len(), 3);
    assert!(matches!(&t.concat_nodes[0], Node::Atom(s) if s == "Hi "));
    assert_eq!(expr_parts(&t.concat_nodes[1]), (RefMode::Plain, String::from("name"), vec![]));
    assert!(matches!(&t.concat_nodes[2], Node::Atom(s) if s == "!"));
}
