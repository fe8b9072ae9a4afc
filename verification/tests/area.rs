use lib::area::{add_child, check_struct, Node, NodeType};

fn node(node_type: NodeType, name: &str, area: i64) -> Node {
    Node { node_type, name: name.to_string(), area, childs: Vec::new() }
}

#[test]
fn valid_tree_gives_no_messages() {
    let mut country = node(NodeType::Country, "C", 10);
    let mut region = node(NodeType::Region, "R", 10);
    add_child(&mut region, node(NodeType::District, "d1", 4));
    add_child(&mut region, node(NodeType::District, "d2", 6));
    add_child(&mut country, region);
    let mut log: Vec<String> = Vec::new();
    assert!(check_struct(&country, &mut log));
    assert!(log.is_empty());
}

#[test]
fn every_breach_is_reported_in_order() {
    let mut country = node(NodeType::Country, "C", 0);
    add_child(&mut country, node(NodeType::Region, "a", 1000));
    add_child(&mut country, node(NodeType::Region, "b", 2));
    let mut log: Vec<String> = Vec::new();
    assert!(!check_struct(&country, &mut log));
    assert_eq!(
        log,
        vec![
            "Узел 'C' имеет недопустимую площадь 0 (должно быть 1 ≤ area ≤ 999)".to_string(),
            "Площадь узла 'C' (0) не равна сумме площадей детей (1002)".to_string(),
            "Дочерние площади: [a (1000), b (2)]".to_string(),
            "Узел 'a' имеет недопустимую площадь 1000 (должно быть 1 ≤ area ≤ 999)".to_string(),
        ]
    );
}

#[test]
fn negative_area_is_printed_with_its_sign() {
    let leaf = node(NodeType::District, "z", -3);
    let mut log: Vec<String> = Vec::new();
    assert!(!check_struct(&leaf, &mut log));
    assert_eq!(log, vec!["Узел 'z' имеет недопустимую площадь -3 (должно быть 1 ≤ area ≤ 999)".to_string()]);
}

#[test]
fn print_struct_indents_by_depth() {
    let mut country = node(NodeType::Country, "C", 10);
    add_child(&mut country, node(NodeType::Region, "R", 10));
    let mut out: Vec<String> = Vec::new();
    country.print_struct(0, &mut out);
    assert_eq!(out, vec!["- C (area: 10)".to_string(), "  - R (area: 10)".to_string()]);
}
