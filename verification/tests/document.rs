use bif_parser::{
    check_names, check_references, find_fault, find_variable, parse_bif, parse_syntax, Bif,
    ErrorKind, ParseError,
};

const STUDENT: &str = r#"network unknown {
    }
    variable Difficulty {
    type discrete [ 2 ] { d0, d1 };
    }
    variable Intelligence {
    type discrete [ 2 ] { i0, i1 };
    }
    variable Grade {
    type discrete [ 3 ] { g0, g1, g2 };
    }
    variable Letter {
    type discrete [ 2 ] { l0, l1 };
    }
    variable SAT {
    type discrete [ 2 ] { s0, s1 };
    }
    probability ( Difficulty ) {
    table 0.6, 0.4;
    }
    probability ( Intelligence ) {
    table 0.7, 0.3;
    }
    probability ( Grade | Intelligence, Difficulty ) {
    (i0, d0) 0.30, 0.40, 0.30;
    (i0, d1) 0.05, 0.25, 0.70;
    (i1, d0) 0.90, 0.08, 0.02;
    (i1, d1) 0.50, 0.30, 0.20;
    }
    probability ( Letter | Grade ) {
    (g0) 0.10, 0.90;
    (g1) 0.40, 0.60;
    (g2) 0.99, 0.01;
    }
    probability ( SAT | Intelligence ) {
    (i0) 0.95, 0.05;
    (i1) 0.20, 0.80;
    }
        "#;

fn kind_at(r: Result<Bif, ParseError>) -> (ErrorKind, usize) {
    let e = r.unwrap_err();
    (e.kind, e.position)
}

fn strings(items: &[&str]) -> Vec<String> {
    items.iter().map(|s| s.to_string()).collect()
}

/// A document with the variables `A` (one state), `B` (two) and `C`
/// (three), and the given blocks behind them.
fn with_blocks(blocks: &str) -> String {
    format!(
        "network n {{}}\n\
         variable A {{ type discrete [ 1 ] {{ a0 }}; }}\n\
         variable B {{ type discrete [ 2 ] {{ b0, b1 }}; }}\n\
         variable C {{ type discrete [ 3 ] {{ c0, c1, c2 }}; }}\n\
         {}",
        blocks
    )
}

#[test]
fn it_works() {
    let bif = r#"network unknown {
    }
    variable Difficulty {
    type discrete [ 2 ] { d0, d1 };
    }
    variable Intelligence {
    type discrete [ 2 ] { i0, i1 };
    }
    variable Grade {
    type discrete [ 3 ] { g0, g1, g2 };
    }
    variable Letter {
    type discrete [ 2 ] { l0, l1 };
    }
    variable SAT {
    type discrete [ 2 ] { s0, s1 };
    }
    probability ( Difficulty ) {
    table 0.6, 0.4;
    }
    probability ( Intelligence ) {
    table 0.7, 0.3;
    }
    probability ( Grade | Intelligence, Difficulty ) {
    (i0, d0) 0.30, 0.40, 0.30;
    (i0, d1) 0.05, 0.25, 0.70;
    (i1, d0) 0.90, 0.08, 0.02;
    (i1, d1) 0.50, 0.30, 0.20;
    }
    probability ( Letter | Grade ) {
    (g0) 0.10, 0.90;
    (g1) 0.40, 0.60;
    (g2) 0.99, 0.01;
    }
    probability ( SAT | Intelligence ) {
    (i0) 0.95, 0.05;
    (i1) 0.20, 0.80;
    }
        "#;
    let result = parse_bif(bif);
    println!("{:#?}", result);
    assert!(result.is_ok());
}

#[test]
fn student_network() {
    let document = parse_bif(STUDENT).unwrap();
    assert_eq!(document.network.name, "unknown");
    assert!(document.network.properties.is_empty());
    assert_eq!(document.variables.len(), 5);
    assert_eq!(document.probabilities.len(), 5);

    let names: Vec<&str> = document.variables.iter().map(|v| v.name.as_str()).collect();
    assert_eq!(names, ["Difficulty", "Intelligence", "Grade", "Letter", "SAT"]);
    let cardinalities: Vec<u32> =
        document.variables.iter().map(|v| v.node_type.cardinality()).collect();
    assert_eq!(cardinalities, [2, 2, 3, 2, 2]);
    for v in &document.variables {
        assert_eq!(v.states.len(), v.node_type.cardinality() as usize);
    }
    assert_eq!(document.variables[2].states, strings(&["g0", "g1", "g2"]));

    let targets: Vec<&str> = document.probabilities.iter().map(|p| p.variable.as_str()).collect();
    assert_eq!(targets, ["Difficulty", "Intelligence", "Grade", "Letter", "SAT"]);
    let rows: Vec<usize> = document.probabilities.iter().map(|p| p.table.len()).collect();
    assert_eq!(rows, [1, 1, 4, 3, 2]);

    assert_eq!(document.probabilities[0].table[0].values, strings(&["0.6", "0.4"]));
    assert_eq!(document.probabilities[1].table[0].values, strings(&["0.7", "0.3"]));

    let grade = &document.probabilities[2];
    assert_eq!(grade.parents, strings(&["Intelligence", "Difficulty"]));
    let mut keys: Vec<Vec<String>> = grade.table.iter().map(|r| r.key.clone()).collect();
    keys.sort();
    assert_eq!(
        keys,
        vec![
            strings(&["i0", "d0"]),
            strings(&["i0", "d1"]),
            strings(&["i1", "d0"]),
            strings(&["i1", "d1"]),
        ]
    );
    for row in &grade.table {
        assert_eq!(row.values.len(), 3);
    }
    assert_eq!(document.probabilities[3].parents, strings(&["Grade"]));
    assert_eq!(document.probabilities[4].parents, strings(&["Intelligence"]));

    for p in &document.probabilities {
        for row in &p.table {
            let sum: f64 = row.values.iter().map(|v| v.parse::<f64>().unwrap()).sum();
            assert!((sum - 1.0).abs() < 1e-6);
        }
    }
}

#[test]
fn grade_table_without_one_row_is_incomplete() {
    let text = STUDENT.replace("    (i1, d0) 0.90, 0.08, 0.02;\n", "");
    assert_ne!(text, STUDENT);
    let at = text.find("probability ( Grade").unwrap();
    assert_eq!(kind_at(parse_bif(&text)), (ErrorKind::IncompleteTable, at));
    // The grammar alone has nothing against it.
    assert_eq!(parse_syntax(&text).unwrap().probabilities[2].table.len(), 3);
}

#[test]
fn difficulty_with_three_declared_and_two_listed_states() {
    let text = STUDENT.replace("type discrete [ 2 ] { d0, d1 };", "type discrete [ 3 ] { d0, d1 };");
    assert_ne!(text, STUDENT);
    let e = parse_bif(&text).unwrap_err();
    assert_eq!(
        e.kind,
        ErrorKind::StateCountMismatch {
            variable: "Difficulty".to_string(),
            expected: 3,
            actual: 2
        }
    );
    assert_eq!(e.position, text.find("variable Difficulty").unwrap());
}

#[test]
fn header_with_undeclared_target() {
    let text = with_blocks("probability ( A ) { table 1; }\nprobability ( D ) { table 1; }");
    let at = text.find("probability ( D").unwrap();
    assert_eq!(kind_at(parse_bif(&text)), (ErrorKind::UnresolvedVariableReference, at));
}

#[test]
fn header_with_undeclared_parent() {
    let text = with_blocks("probability ( A | B, D ) { (b0, d0) 1; (b1, d0) 1; }");
    let at = text.find("probability").unwrap();
    assert_eq!(kind_at(parse_bif(&text)), (ErrorKind::UnresolvedVariableReference, at));
}

#[test]
fn names_are_case_sensitive() {
    let text = with_blocks("probability ( a ) { table 1; }");
    let at = text.find("probability").unwrap();
    assert_eq!(kind_at(parse_bif(&text)), (ErrorKind::UnresolvedVariableReference, at));
}

#[test]
fn probability_may_come_before_its_variables() {
    let text = "network n {}\n\
                probability ( A | B ) { (b0) 1; (b1) 1; }\n\
                variable B { type discrete [ 2 ] { b0, b1 }; }\n\
                variable A { type discrete [ 1 ] { a0 }; }";
    let document = parse_bif(text).unwrap();
    assert_eq!(document.variables.len(), 2);
    assert_eq!(document.probabilities.len(), 1);
    assert_eq!(find_variable(&document.variables, &"A".to_string()), 1);
    assert_eq!(find_variable(&document.variables, &"B".to_string()), 0);
    assert_eq!(find_variable(&document.variables, &"C".to_string()), 2);
}

#[test]
fn text_behind_the_last_block() {
    let text = with_blocks("probability ( A ) { table 1; }\n  garbage");
    let at = text.find("garbage").unwrap();
    assert_eq!(kind_at(parse_bif(&text)), (ErrorKind::TrailingInput, at));
    assert_eq!(kind_at(parse_syntax(&text)), (ErrorKind::TrailingInput, at));

    let text = format!("{} }}", STUDENT.trim_end());
    assert_eq!(kind_at(parse_bif(&text)), (ErrorKind::TrailingInput, text.len() - 1));

    assert_eq!(kind_at(parse_bif("network n {} x")), (ErrorKind::TrailingInput, 13));
    assert_eq!(kind_at(parse_bif("network n {} / / c")), (ErrorKind::TrailingInput, 13));
}

#[test]
fn second_network_block_is_trailing_text() {
    let text = "network n {}\nnetwork m {}";
    assert_eq!(kind_at(parse_bif(text)), (ErrorKind::TrailingInput, 13));
}

#[test]
fn separators_behind_the_last_block_are_fine() {
    assert!(parse_bif("network n {}").is_ok());
    assert!(parse_bif("network n {}\n\n  \t").is_ok());
    assert!(parse_bif("network n {} // the end").is_ok());
    assert!(parse_bif("// a title\n\nnetwork n {}\n// the end\n").is_ok());
}

#[test]
fn document_without_network_block() {
    assert_eq!(kind_at(parse_bif("")), (ErrorKind::MissingNetworkDeclaration, 0));
    assert_eq!(kind_at(parse_bif("  \n")), (ErrorKind::MissingNetworkDeclaration, 3));
    assert_eq!(
        kind_at(parse_bif("variable A { type discrete [ 1 ] { a }; }")),
        (ErrorKind::MissingNetworkDeclaration, 0)
    );
    assert_eq!(
        kind_at(parse_bif("// c\n probability ( A ) { table 1; }")),
        (ErrorKind::MissingNetworkDeclaration, 6)
    );
    assert_eq!(kind_at(parse_bif("Network n {}")), (ErrorKind::MissingNetworkDeclaration, 0));
}

#[test]
fn broken_network_block() {
    assert_eq!(kind_at(parse_bif("network {}")), (ErrorKind::UnexpectedToken, 8));
    assert_eq!(kind_at(parse_bif("network n { a \"b }")), (ErrorKind::UnterminatedString, 14));
}

#[test]
fn two_variables_of_one_name() {
    let text = with_blocks("variable B { type discrete [ 1 ] { x }; }");
    let at = text.rfind("variable B").unwrap();
    assert_eq!(kind_at(parse_bif(&text)), (ErrorKind::DuplicateVariableName, at));
    // The grammar alone has nothing against it.
    assert_eq!(parse_syntax(&text).unwrap().variables.len(), 4);
}

#[test]
fn duplicate_name_comes_before_unresolved_reference() {
    let text = with_blocks(
        "probability ( D ) { table 1; }\nvariable A { type discrete [ 1 ] { x }; }",
    );
    let at = text.rfind("variable A").unwrap();
    assert_eq!(kind_at(parse_bif(&text)), (ErrorKind::DuplicateVariableName, at));
}

#[test]
fn row_with_wrong_number_of_values() {
    let text = with_blocks("probability ( B ) { table 0.5, 0.25, 0.25; }");
    let at = text.find("probability").unwrap();
    assert_eq!(kind_at(parse_bif(&text)), (ErrorKind::ValueCountMismatch, at));

    let text = with_blocks("probability ( A | B ) { (b0) 1; (b1) 0.5, 0.5; }");
    let at = text.find("probability").unwrap();
    assert_eq!(kind_at(parse_bif(&text)), (ErrorKind::ValueCountMismatch, at));
}

#[test]
fn two_rows_with_one_key() {
    let text = with_blocks("probability ( A | B ) { (b0) 1; (b0) 1; }");
    let at = text.find("probability").unwrap();
    assert_eq!(kind_at(parse_bif(&text)), (ErrorKind::DuplicateTableRow, at));

    let text = with_blocks("probability ( A | B ) { (b0) 1; (b1) 1; (b0) 1; }");
    let at = text.find("probability").unwrap();
    assert_eq!(kind_at(parse_bif(&text)), (ErrorKind::DuplicateTableRow, at));

    let text = with_blocks(
        "probability ( A | B, C ) { (b0, c0) 1; (b0, c1) 1; (b0, c2) 1; \
         (b1, c0) 1; (b1, c1) 1; (b0, c1) 1; }",
    );
    let at = text.find("probability").unwrap();
    assert_eq!(kind_at(parse_bif(&text)), (ErrorKind::DuplicateTableRow, at));
}

#[test]
fn table_with_too_few_rows() {
    let text = with_blocks("probability ( A | B ) { (b1) 1; }");
    let at = text.find("probability").unwrap();
    assert_eq!(kind_at(parse_bif(&text)), (ErrorKind::IncompleteTable, at));

    let text = with_blocks(
        "probability ( A | B, C ) { (b0, c0) 1; (b0, c1) 1; (b0, c2) 1; (b1, c0) 1; (b1, c1) 1; }",
    );
    let at = text.find("probability").unwrap();
    assert_eq!(kind_at(parse_bif(&text)), (ErrorKind::IncompleteTable, at));
}

#[test]
fn row_with_a_label_that_is_no_state_of_the_parent() {
    let text = with_blocks("probability ( A | B ) { (b0) 1; (b2) 1; }");
    let at = text.find("probability").unwrap();
    assert_eq!(kind_at(parse_bif(&text)), (ErrorKind::MalformedTable, at));
    // The labels are taken in the order of the header.
    let text = with_blocks(
        "probability ( A | B, C ) { (c0, b0) 1; (c1, b0) 1; (c2, b0) 1; \
         (c0, b1) 1; (c1, b1) 1; (c2, b1) 1; }",
    );
    let at = text.find("probability").unwrap();
    assert_eq!(kind_at(parse_bif(&text)), (ErrorKind::MalformedTable, at));
}

#[test]
fn rows_in_any_order() {
    let text = with_blocks(
        "probability ( A | B, C ) { (b1, c2) 1; (b0, c1) 1; (b1, c0) 1; \
         (b0, c0) 1; (b1, c1) 1; (b0, c2) 1; }",
    );
    let document = parse_bif(&text).unwrap();
    let table = &document.probabilities[0].table;
    assert_eq!(table.len(), 6);
    // The rows stay in the order written.
    assert_eq!(table[0].key, strings(&["b1", "c2"]));
    assert_eq!(table[5].key, strings(&["b0", "c2"]));
}

#[test]
fn variable_may_be_its_own_parent_twice_over() {
    // Nothing is said of the shape of the graph: a parent may occur twice.
    let text = with_blocks(
        "probability ( A | B, B ) { (b0, b0) 1; (b0, b1) 1; (b1, b0) 1; (b1, b1) 1; }",
    );
    assert!(parse_bif(&text).is_ok());
}

#[test]
fn parent_with_a_state_label_used_twice_has_no_complete_table() {
    let text = "network n {}\n\
                variable A { type discrete [ 1 ] { a0 }; }\n\
                variable B { type discrete [ 2 ] { b, b }; }\n\
                probability ( A | B ) { (b) 1; (b) 1; }";
    let at = text.find("probability").unwrap();
    assert_eq!(kind_at(parse_bif(text)), (ErrorKind::DuplicateTableRow, at));
    let text = text.replace("(b) 1; (b) 1;", "(b) 1;");
    assert_eq!(kind_at(parse_bif(&text)), (ErrorKind::IncompleteTable, at));
}

#[test]
fn first_fault_in_the_order_of_the_blocks() {
    let text = with_blocks(
        "probability ( A | B ) { (b0) 1; }\nprobability ( B ) { table 1; }",
    );
    let at = text.find("probability ( A").unwrap();
    assert_eq!(kind_at(parse_bif(&text)), (ErrorKind::IncompleteTable, at));
    // An unresolved reference anywhere comes before a wrong table.
    let text = with_blocks(
        "probability ( A | B ) { (b0) 1; }\nprobability ( D ) { table 1; }",
    );
    let at = text.find("probability ( D").unwrap();
    assert_eq!(kind_at(parse_bif(&text)), (ErrorKind::UnresolvedVariableReference, at));
}

#[test]
fn checks_one_by_one() {
    let text = with_blocks(
        "variable A { type discrete [ 1 ] { x }; }\nprobability ( D ) { table 1; }",
    );
    let document = parse_syntax(&text).unwrap();
    let e = check_names(&document.variables).unwrap();
    assert_eq!(e.kind, ErrorKind::DuplicateVariableName);
    assert_eq!(e.position, text.rfind("variable A").unwrap());
    let e = check_references(&document.variables, &document.probabilities).unwrap();
    assert_eq!(e.kind, ErrorKind::UnresolvedVariableReference);
    assert_eq!(e.position, text.find("probability").unwrap());
    assert_eq!(find_fault(&document).unwrap().kind, ErrorKind::DuplicateVariableName);

    let document = parse_syntax(STUDENT).unwrap();
    assert!(check_names(&document.variables).is_none());
    assert!(check_references(&document.variables, &document.probabilities).is_none());
    assert!(find_fault(&document).is_none());
}

#[test]
fn comments_between_tokens() {
    let text = "// Student network\nnetwork unknown { // no properties\n}\n\
                variable A { // the only one\n type discrete // kind\n [ 2 ] // size\n { a0, // first\n a1 };\n}\n\
                probability ( A ) { // prior\n table 0.5, // heads\n 0.5; // tails\n}\n";
    let document = parse_bif(text).unwrap();
    assert_eq!(document.variables[0].states, strings(&["a0", "a1"]));
    assert_eq!(document.probabilities[0].table[0].values, strings(&["0.5", "0.5"]));
}

#[test]
fn names_in_other_scripts() {
    let text = "network сеть {}\nvariable Größe { type discrete [ 2 ] { klein, groß }; }\n\
                probability ( Größe ) { table 0.5, 0.5; }";
    let document = parse_bif(text).unwrap();
    assert_eq!(document.network.name, "сеть");
    assert_eq!(document.variables[0].name, "Größe");
    assert_eq!(document.variables[0].position, 20);
    assert_eq!(document.variables[0].position, text.find("variable").unwrap());
    assert_eq!(document.probabilities[0].position, text.find("probability").unwrap());
}

#[test]
fn large_table() {
    let mut text = String::from("network n {}\n");
    for v in ["P", "Q", "R"] {
        text.push_str(&format!("variable {} {{ type discrete [ 10 ] {{ ", v));
        let labels: Vec<String> = (0..10).map(|i| format!("s{}", i)).collect();
        text.push_str(&labels.join(", "));
        text.push_str(" }; }\n");
    }
    text.push_str("variable T { type discrete [ 1 ] { t }; }\n");
    text.push_str("probability ( T | P, Q, R ) {\n");
    for i in 0..1000 {
        text.push_str(&format!("(s{}, s{}, s{}) 1;\n", i % 10, (i / 10) % 10, i / 100));
    }
    text.push_str("}\n");
    let document = parse_bif(&text).unwrap();
    assert_eq!(document.probabilities[0].table.len(), 1000);

    let broken = text.replace("(s3, s4, s5) 1;\n", "");
    assert_eq!(parse_bif(&broken).unwrap_err().kind, ErrorKind::IncompleteTable);
    let broken = text.replace("(s3, s4, s5) 1;\n", "(s3, s4, s6) 1;\n");
    assert_eq!(parse_bif(&broken).unwrap_err().kind, ErrorKind::DuplicateTableRow);
}

#[test]
fn offsets_lie_in_the_text() {
    let texts = [
        "",
        "network",
        "network n {",
        "network n {} variable",
        "network n {} variable A { type discrete [ 2 ] { a };}",
        "network n {} probability ( A ) { table 1; }",
        "network n {} probability ( A | ",
        "network n { a \"",
        "réseau",
        "network n {} é",
    ];
    for text in texts {
        let e = parse_bif(text).unwrap_err();
        assert!(e.position <= text.len());
    }
    let document = parse_bif(STUDENT).unwrap();
    for v in &document.variables {
        assert!(STUDENT[v.position..].starts_with("variable"));
    }
    for p in &document.probabilities {
        assert!(STUDENT[p.position..].starts_with("probability"));
    }
}

#[test]
fn values_write_decimal_numbers() {
    let text = with_blocks("probability ( C ) { table 1, -0.5e-3, 12.25E+2; }");
    let document = parse_bif(&text).unwrap();
    let values = &document.probabilities[0].table[0].values;
    assert_eq!(values, &strings(&["1", "-0.5e-3", "12.25E+2"]));
    let numbers: Vec<f64> = values.iter().map(|v| v.parse().unwrap()).collect();
    assert_eq!(numbers, [1.0, -0.0005, 1225.0]);
}
