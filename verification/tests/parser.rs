use lib::lexer::lexerize;
use lib::parser::{
    country_node, district_node, region_node, syntax_parse_text, LexemTable, ParseRun, SentenceError,
};
use lib::rules::RuleTree;

fn parse_source(src: &str) -> ParseRun {
    let table = lexerize(src.as_bytes()).text;
    let chars: Vec<char> = table.chars().collect();
    syntax_parse_text(&chars)
}

fn table_of(src: &str) -> LexemTable {
    let table = lexerize(src.as_bytes()).text;
    let chars: Vec<char> = table.chars().collect();
    LexemTable::new(&chars)
}

#[test]
fn valid_country_with_one_region() {
    let run = parse_source("country:R:5|region:A:5");
    let expected = vec![
        "Parse tree output",
        "- S",
        "  - country",
        "  - N",
        "    - :",
        "    - C",
        "      - R",
        "  - A",
        "    - :",
        "    - B",
        "      - 5",
        "  - D",
        "    - |",
        "    - R",
        "      - region",
        "      - N",
        "        - :",
        "        - C",
        "          - A",
        "      - A",
        "        - :",
        "        - B",
        "          - 5",
        "      - D",
        "Structure is valid",
    ];
    assert_eq!(run.log, expected);
    assert_eq!(run.result, Some(Ok("OKi doki".to_string())));
}

#[test]
fn district_goes_under_its_region() {
    let run = parse_source("country:R:30|region:A:30|district:x:10|district:y:20");
    assert_eq!(run.result, Some(Ok("OKi doki".to_string())));
    assert_eq!(run.log.first().map(|s| s.as_str()), Some("Parse tree output"));
    assert_eq!(run.log.last().map(|s| s.as_str()), Some("Structure is valid"));
    assert!(run.log.contains(&"              - x".to_string()));
    assert!(run.log.contains(&"                  - y".to_string()));
}

#[test]
fn area_not_the_sum_of_parts_is_invalid() {
    let run = parse_source("country:R:5|region:A:4");
    assert_eq!(run.result, Some(Err("Structure is not valid".to_string())));
    let n = run.log.len();
    assert_eq!(run.log[n - 2], "Площадь узла 'R' (5) не равна сумме площадей детей (4)");
    assert_eq!(run.log[n - 1], "Дочерние площади: [A (4)]");
}

#[test]
fn area_out_of_range_is_invalid() {
    let run = parse_source("country:R:1000");
    assert_eq!(run.result, Some(Err("Structure is not valid".to_string())));
    assert_eq!(
        run.log.last().unwrap(),
        "Узел 'R' имеет недопустимую площадь 1000 (должно быть 1 ≤ area ≤ 999)"
    );
}

#[test]
fn rejected_region_is_reported_and_parsing_goes_on() {
    let run = parse_source("country:R:5|region|district");
    assert_eq!(run.log, vec!["Must be delimeter like ':'".to_string()]);
    assert_eq!(
        run.result,
        Some(Err("Must be delimeter '|' after 'Region' or 'District' sentence".to_string()))
    );
}

#[test]
fn unknown_keyword_fails() {
    let run = parse_source("country:R:5|city:A:5");
    assert!(run.log.is_empty());
    assert_eq!(run.result, Some(Err("Must key word 'region' or 'district'".to_string())));
}

#[test]
fn district_before_any_region_stops_the_run() {
    let run = parse_source("country:R:5|district:x:5");
    assert!(run.log.is_empty());
    assert_eq!(run.result, None);
}

#[test]
fn missing_country_stops_the_run() {
    let run = parse_source("region:A:5");
    assert!(run.log.is_empty());
    assert_eq!(run.result, None);
    let run = parse_source("");
    assert_eq!(run.result, None);
}

#[test]
fn area_beyond_i64_stops_the_run() {
    let run = parse_source("country:R:99999999999999999999");
    assert_eq!(run.result, None);
}

#[test]
fn sums_beyond_i64_stop_the_check_after_the_messages_so_far() {
    let run = parse_source("country:R:1000|region:A:9223372036854775807|region:B:9223372036854775807");
    assert_eq!(run.result, None);
    assert_eq!(
        run.log.last().unwrap(),
        "Узел 'R' имеет недопустимую площадь 1000 (должно быть 1 ≤ area ≤ 999)"
    );
}

#[test]
fn sums_beyond_i64_stop_the_run_after_the_parse_tree() {
    let run = parse_source("country:R:5|region:A:9223372036854775807|region:B:9223372036854775807");
    assert_eq!(run.result, None);
    assert_eq!(run.log[0], "Parse tree output");
}

#[test]
fn region_sentence_on_its_own() {
    let mut table = table_of("country:R:5|region:Msk:12");
    let mut stack: Vec<String> = Vec::new();
    let mut rules = RuleTree::new("S");
    let mut last: usize = 0;
    let mut tree = match country_node(&mut stack, &mut table, &mut rules, 0, &mut last) {
        Ok(t) => t,
        Err(_) => panic!("country expected"),
    };
    assert_eq!(tree.name, "R");
    assert_eq!(tree.area, 5);
    assert_eq!(last, 10);
    assert_eq!(table.pos, 5);
    assert!(stack.is_empty());
    // skip "Delimeter-|" and "String-region"
    table.pos = 7;
    let parent = last;
    match region_node(&mut stack, &mut table, &mut tree, &mut rules, parent, &mut last) {
        Ok(i) => assert_eq!(i, 0),
        Err(_) => panic!("region expected"),
    }
    assert_eq!(tree.childs.len(), 1);
    assert_eq!(tree.childs[0].name, "Msk");
    assert_eq!(tree.childs[0].area, 12);
    assert_eq!(last, 22);
    assert_eq!(rules.nodes[21].name, "12");
    assert_eq!(rules.nodes[17].name, "Msk");
}

#[test]
fn region_with_repeated_name_gives_first_index() {
    let run = parse_source("country:R:10|region:A:3|region:B:3|region:A:4|district:x:2");
    assert_eq!(run.result, Some(Err("Structure is not valid".to_string())));
    let n = run.log.len();
    assert_eq!(run.log[n - 2], "Площадь узла 'A' (3) не равна сумме площадей детей (2)");
    assert_eq!(run.log[n - 1], "Дочерние площади: [x (2)]");
}

#[test]
fn rejected_country_is_an_error_of_country_node() {
    let mut table = table_of("country|R");
    let mut stack: Vec<String> = Vec::new();
    let mut rules = RuleTree::new("S");
    let mut last: usize = 0;
    match country_node(&mut stack, &mut table, &mut rules, 0, &mut last) {
        Err(SentenceError::Rejected(m)) => assert_eq!(m, "Must be delimeter like a ':' after 'country'"),
        _ => panic!("rejection expected"),
    }
    assert_eq!(stack, vec!["country".to_string()]);
    assert_eq!(last, 0);
    assert_eq!(rules.nodes.len(), 2);
}

#[test]
fn district_sentence_rejected_at_name() {
    let mut table = table_of("country:R:5|district:|");
    let mut stack: Vec<String> = Vec::new();
    let mut rules = RuleTree::new("S");
    let mut last: usize = 0;
    let mut tree = match country_node(&mut stack, &mut table, &mut rules, 0, &mut last) {
        Ok(t) => t,
        Err(_) => panic!("country expected"),
    };
    table.pos = 7;
    let parent = last;
    match district_node(&mut stack, &mut table, &mut tree, 0, &mut rules, parent, &mut last) {
        Err(SentenceError::Rejected(m)) => assert_eq!(m, "Must be String value of district"),
        _ => panic!("rejection expected"),
    }
    assert_eq!(last, 10);
    assert_eq!(table.pos, 9);
    // "|", "E", "district", "N", ":" were added
    assert_eq!(rules.nodes.len(), 16);
    assert_eq!(rules.nodes[15].name, ":");
}

#[test]
fn rejected_region_leaves_territories_unchanged() {
    let mut table = table_of("country:R:5|region:Msk|");
    let mut stack: Vec<String> = Vec::new();
    let mut rules = RuleTree::new("S");
    let mut last: usize = 0;
    let mut tree = match country_node(&mut stack, &mut table, &mut rules, 0, &mut last) {
        Ok(t) => t,
        Err(_) => panic!("country expected"),
    };
    table.pos = 7;
    let parent = last;
    match region_node(&mut stack, &mut table, &mut tree, &mut rules, parent, &mut last) {
        Err(SentenceError::Rejected(m)) => assert_eq!(m, "Must be delimeter like ':'"),
        _ => panic!("rejection expected"),
    }
    assert!(tree.childs.is_empty());
    assert_eq!(last, parent);
    // the name read stays on the value stack
    assert_eq!(stack, vec!["Msk".to_string()]);
}

#[test]
fn districts_are_parts_of_regions() {
    let mut table = table_of("country:R:5|region:A:5|district:x:5");
    let mut stack: Vec<String> = Vec::new();
    let mut rules = RuleTree::new("S");
    let mut last: usize = 0;
    let mut tree = match country_node(&mut stack, &mut table, &mut rules, 0, &mut last) {
        Ok(t) => t,
        Err(_) => panic!("country expected"),
    };
    table.pos = 7;
    let parent = last;
    let index = match region_node(&mut stack, &mut table, &mut tree, &mut rules, parent, &mut last) {
        Ok(i) => i,
        Err(_) => panic!("region expected"),
    };
    table.pos = 13;
    let parent = last;
    match district_node(&mut stack, &mut table, &mut tree, index, &mut rules, parent, &mut last) {
        Ok(m) => assert_eq!(m, "Node is added"),
        Err(_) => panic!("district expected"),
    }
    assert_eq!(tree.node_type, lib::area::NodeType::Country);
    assert_eq!(tree.childs[0].node_type, lib::area::NodeType::Region);
    assert_eq!(tree.childs[0].childs[0].node_type, lib::area::NodeType::District);
    assert_eq!(tree.childs[0].childs[0].name, "x");
    assert!(tree.childs[0].childs[0].childs.is_empty());
}

#[test]
fn line_without_value_halts_the_sentence() {
    let chars: Vec<char> = "String".chars().collect();
    let mut table = LexemTable::new(&chars);
    let mut stack: Vec<String> = Vec::new();
    let mut rules = RuleTree::new("S");
    let mut last: usize = 0;
    match country_node(&mut stack, &mut table, &mut rules, 0, &mut last) {
        Err(SentenceError::Halt) => {}
        _ => panic!("halt expected"),
    }
}

#[test]
fn lexem_table_is_read_line_by_line() {
    let chars: Vec<char> = "String-a\nDelimeter-|".chars().collect();
    let mut table = LexemTable::new(&chars);
    let first = table.next_fields().unwrap();
    assert_eq!(first, vec![vec!['S', 't', 'r', 'i', 'n', 'g'], vec!['a']]);
    let second = table.next_fields().unwrap();
    assert_eq!(second, vec![vec!['D', 'e', 'l', 'i', 'm', 'e', 't', 'e', 'r'], vec!['|']]);
    assert!(table.next_fields().is_none());
    assert_eq!(table.pos, 2);
}
