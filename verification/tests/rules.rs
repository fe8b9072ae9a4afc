use lib::rules::{RuleNode, RuleTree};

#[test]
fn rule_node_operations() {
    let mut n = RuleNode::new("area");
    assert_eq!(n.name, "area");
    assert!(n.children.is_empty());
    n.change_name("17");
    assert_eq!(n.name, "17");
    n.add_child(3);
    assert_eq!(n.children, vec![3]);
}

#[test]
fn tree_prints_children_in_order_one_level_deeper() {
    let mut t = RuleTree::new("S");
    let a = t.attach(0, "a");
    let _b = t.attach(0, "b");
    let _c = t.attach(a, "c");
    t.rename(a, "A");
    let mut out: Vec<String> = Vec::new();
    RuleNode::parse_tree(&t, 0, 0, &mut out);
    assert_eq!(out, vec!["- S", "  - A", "    - c", "  - b"]);
}
