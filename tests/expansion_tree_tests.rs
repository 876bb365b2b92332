use calyx_rs::expansion_tree::{ExpansionTree, ExpansionType};

#[test]
fn flatten_expansion_tree_to_atoms() {
    let tail = vec![
        ExpansionTree::new_atom(String::from("-ONE-")),
        ExpansionTree::new_atom(String::from("-TWO-")),
        ExpansionTree::new_atom(String::from("-THREE-")),
    ];

    let exp = ExpansionTree::new(ExpansionType::Template, tail);

    let text = exp.flatten();
    assert_eq!(text, "-ONE--TWO--THREE-");
}

#[test]
fn flatten_nested_chains_depth_first() {
    let inner = ExpansionTree::new(
        ExpansionType::Template,
        vec![
            ExpansionTree::new_atom(String::from("a")),
            ExpansionTree::chain(ExpansionType::Memo, ExpansionTree::new_atom(String::from("b"))),
        ],
    );
    let outer = ExpansionTree::new(
        ExpansionType::Template,
        vec![inner, ExpansionTree::new_atom(String::from("c"))],
    );
    let top = ExpansionTree::chain(ExpansionType::Result, outer);
    assert_eq!(top.flatten(), "abc");
    assert!(matches!(top.symbol(), ExpansionType::Result));
    assert_eq!(top.children().len(), 1);
}

#[test]
fn duplicate_keeps_text() {
    let t = ExpansionTree::chain(ExpansionType::Unique, ExpansionTree::new_atom(String::from("xy")));
    let copy = t.duplicate();
    assert_eq!(copy.flatten(), "xy");
    assert!(matches!(copy.symbol(), ExpansionType::Unique));
}
