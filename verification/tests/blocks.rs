use bif_parser::{
    parse_blocks, parse_network, parse_node_type, parse_probabilities, parse_probability,
    parse_properties, parse_property, parse_row, parse_rows, parse_states, parse_table,
    parse_variable, Cursor, ErrorKind, ParseError, VariableType,
};

fn kind_at<T: std::fmt::Debug>(r: Result<T, ParseError>) -> (ErrorKind, usize) {
    let e = r.unwrap_err();
    (e.kind, e.position)
}

fn strings(items: &[&str]) -> Vec<String> {
    items.iter().map(|s| s.to_string()).collect()
}

#[test]
fn property_is_a_name_and_a_string() {
    let (c, p) = parse_property(Cursor::new("label \"a b\" rest")).unwrap();
    assert_eq!(p.key, "label");
    assert_eq!(p.value, "a b");
    assert_eq!(c.rest(), " rest");
    let (c, p) = parse_property(Cursor::new("k\"v\"")).unwrap();
    assert_eq!((p.key.as_str(), p.value.as_str()), ("k", "v"));
    assert!(c.at_end());
    let (_, p) = parse_property(Cursor::new("k // why\n \"v\"")).unwrap();
    assert_eq!(p.value, "v");
}

#[test]
fn property_errors_come_from_its_parts() {
    assert_eq!(kind_at(parse_property(Cursor::new("\"v\""))), (ErrorKind::UnexpectedToken, 0));
    assert_eq!(kind_at(parse_property(Cursor::new("label x"))), (ErrorKind::UnexpectedToken, 6));
    assert_eq!(
        kind_at(parse_property(Cursor::new("label \"abc"))),
        (ErrorKind::UnterminatedString, 6)
    );
}

#[test]
fn properties_need_a_separator_before_each() {
    let (c, list) = parse_properties(Cursor::new(" a \"1\"\n b \"2\" }")).unwrap();
    assert_eq!(list.len(), 2);
    assert_eq!((list[0].key.as_str(), list[0].value.as_str()), ("a", "1"));
    assert_eq!((list[1].key.as_str(), list[1].value.as_str()), ("b", "2"));
    assert_eq!(c.rest(), " }");

    let (c, list) = parse_properties(Cursor::new("a \"1\"")).unwrap();
    assert!(list.is_empty());
    assert_eq!(c.offset(), 0);

    let (c, list) = parse_properties(Cursor::new(" a \"1\"b \"2\"")).unwrap();
    assert_eq!(list.len(), 1);
    assert_eq!(c.rest(), "b \"2\"");

    let (c, list) = parse_properties(Cursor::new("  }")).unwrap();
    assert!(list.is_empty());
    assert_eq!(c.offset(), 0);
}

#[test]
fn properties_fail_on_a_broken_property() {
    assert_eq!(kind_at(parse_properties(Cursor::new(" a b"))), (ErrorKind::UnexpectedToken, 3));
    assert_eq!(
        kind_at(parse_properties(Cursor::new(" a \"1\" b \"2"))),
        (ErrorKind::UnterminatedString, 9)
    );
}

#[test]
fn network_block() {
    let (c, n) = parse_network(Cursor::new("network unknown {\n}\nvariable")).unwrap();
    assert_eq!(n.name, "unknown");
    assert!(n.properties.is_empty());
    assert_eq!(c.rest(), "\nvariable");
    assert_eq!(c.offset(), 19);

    let (c, n) =
        parse_network(Cursor::new("network n { creator \"me\" version \"1.0\" }")).unwrap();
    assert_eq!(n.name, "n");
    assert_eq!(n.properties.len(), 2);
    assert_eq!(n.properties[0].key, "creator");
    assert_eq!(n.properties[0].value, "me");
    assert_eq!(n.properties[1].key, "version");
    assert_eq!(n.properties[1].value, "1.0");
    assert!(c.at_end());

    let (_, n) = parse_network(Cursor::new("network n{}")).unwrap();
    assert_eq!(n.name, "n");
}

#[test]
fn network_block_errors() {
    assert_eq!(kind_at(parse_network(Cursor::new("netwrk x {}"))), (ErrorKind::UnexpectedToken, 0));
    assert_eq!(kind_at(parse_network(Cursor::new("network{}"))), (ErrorKind::UnexpectedToken, 7));
    assert_eq!(kind_at(parse_network(Cursor::new("networkx {}"))), (ErrorKind::UnexpectedToken, 7));
    assert_eq!(kind_at(parse_network(Cursor::new("network {}"))), (ErrorKind::UnexpectedToken, 8));
    assert_eq!(kind_at(parse_network(Cursor::new("network x }"))), (ErrorKind::UnexpectedToken, 10));
    assert_eq!(
        kind_at(parse_network(Cursor::new("network x {a \"b\"}"))),
        (ErrorKind::UnexpectedToken, 11)
    );
    assert_eq!(kind_at(parse_network(Cursor::new("network x {"))), (ErrorKind::UnexpectedToken, 11));
}

#[test]
fn type_clause() {
    let (c, t) = parse_node_type(Cursor::new("type discrete [ 2 ] {")).unwrap();
    assert_eq!(t, VariableType::Discrete(2));
    assert_eq!(t.cardinality(), 2);
    assert_eq!(c.rest(), " {");
    let (_, t) = parse_node_type(Cursor::new("type discrete[31]")).unwrap();
    assert_eq!(t, VariableType::Discrete(31));
    let (_, t) = parse_node_type(Cursor::new("type\n discrete // kind\n [\t4\n]")).unwrap();
    assert_eq!(t, VariableType::Discrete(4));
}

#[test]
fn type_clause_errors() {
    assert_eq!(
        kind_at(parse_node_type(Cursor::new("type continuous [ 2 ]"))),
        (ErrorKind::UnknownVariableType, 5)
    );
    assert_eq!(
        kind_at(parse_node_type(Cursor::new("type Discrete [ 2 ]"))),
        (ErrorKind::UnknownVariableType, 5)
    );
    assert_eq!(
        kind_at(parse_node_type(Cursor::new("type discretes [ 2 ]"))),
        (ErrorKind::UnknownVariableType, 5)
    );
    assert_eq!(kind_at(parse_node_type(Cursor::new("type 5"))), (ErrorKind::UnexpectedToken, 5));
    assert_eq!(kind_at(parse_node_type(Cursor::new("typ discrete"))), (ErrorKind::UnexpectedToken, 0));
    assert_eq!(kind_at(parse_node_type(Cursor::new("typediscrete"))), (ErrorKind::UnexpectedToken, 4));
    assert_eq!(
        kind_at(parse_node_type(Cursor::new("type discrete 2"))),
        (ErrorKind::UnexpectedToken, 14)
    );
    assert_eq!(
        kind_at(parse_node_type(Cursor::new("type discrete [ x ]"))),
        (ErrorKind::InvalidNumber, 16)
    );
    assert_eq!(
        kind_at(parse_node_type(Cursor::new("type discrete [ 0 ]"))),
        (ErrorKind::InvalidNumber, 16)
    );
    assert_eq!(
        kind_at(parse_node_type(Cursor::new("type discrete [ 2"))),
        (ErrorKind::UnexpectedToken, 17)
    );
}

#[test]
fn state_labels() {
    let (c, s) = parse_states(Cursor::new(" d0, d1 };")).unwrap();
    assert_eq!(s, strings(&["d0", "d1"]));
    assert_eq!(c.rest(), " };");
    let (_, s) = parse_states(Cursor::new("a,b ,c , d")).unwrap();
    assert_eq!(s, strings(&["a", "b", "c", "d"]));
    let (c, s) = parse_states(Cursor::new(" };")).unwrap();
    assert!(s.is_empty());
    assert_eq!(c.offset(), 0);
    assert_eq!(kind_at(parse_states(Cursor::new("a, };"))), (ErrorKind::UnexpectedToken, 3));
}

#[test]
fn probability_values() {
    let (c, v) = parse_probabilities(Cursor::new(" 0.30, 0.40,0.30;")).unwrap();
    assert_eq!(v, strings(&["0.30", "0.40", "0.30"]));
    assert_eq!(c.rest(), ";");
    let (c, v) = parse_probabilities(Cursor::new("1 ;")).unwrap();
    assert_eq!(v, strings(&["1"]));
    assert_eq!(c.rest(), " ;");
    assert_eq!(kind_at(parse_probabilities(Cursor::new(" ;"))), (ErrorKind::InvalidNumber, 1));
    assert_eq!(kind_at(parse_probabilities(Cursor::new("0.5, x"))), (ErrorKind::InvalidNumber, 5));
}

#[test]
fn variable_block() {
    let text = "variable Grade {\n  type discrete [ 3 ] { g0, g1, g2 };\n}\nrest";
    let (c, v) = parse_variable(Cursor::new(text)).unwrap();
    assert_eq!(v.name, "Grade");
    assert_eq!(v.node_type, VariableType::Discrete(3));
    assert_eq!(v.states, strings(&["g0", "g1", "g2"]));
    assert!(v.properties.is_empty());
    assert_eq!(v.position, 0);
    assert_eq!(c.rest(), "\nrest");
}

#[test]
fn variable_block_with_properties() {
    let text = "variable X { type discrete [ 1 ] { only };\n property \"p\"\n label \"q\" }";
    let (c, v) = parse_variable(Cursor::new(text)).unwrap();
    assert_eq!(v.name, "X");
    assert_eq!(v.states, strings(&["only"]));
    assert_eq!(v.properties.len(), 2);
    assert_eq!(v.properties[0].key, "property");
    assert_eq!(v.properties[0].value, "p");
    assert_eq!(v.properties[1].key, "label");
    assert_eq!(v.properties[1].value, "q");
    assert!(c.at_end());
}

#[test]
fn variable_block_takes_one_more_semicolon() {
    let (c, v) = parse_variable(Cursor::new("variable X { type discrete [ 1 ] { a }; ; }")).unwrap();
    assert_eq!(v.states, strings(&["a"]));
    assert!(c.at_end());
    let (_, v) =
        parse_variable(Cursor::new("variable X { type discrete [ 1 ] { a };; p \"q\" }")).unwrap();
    assert_eq!(v.properties.len(), 1);
    assert_eq!(
        kind_at(parse_variable(Cursor::new("variable X { type discrete [ 1 ] { a };;; }"))),
        (ErrorKind::UnexpectedToken, 40)
    );
}

#[test]
fn variable_block_position_is_its_offset() {
    let at = Cursor::new("  variable X { type discrete [ 1 ] { a }; }").skip_spaces();
    let (_, v) = parse_variable(at).unwrap();
    assert_eq!(v.position, 2);
}

#[test]
fn variable_with_wrong_number_of_states() {
    let text = "variable Difficulty {\n type discrete [ 3 ] { d0, d1 };\n}";
    let e = parse_variable(Cursor::new(text)).unwrap_err();
    assert_eq!(e.position, 0);
    assert_eq!(
        e.kind,
        ErrorKind::StateCountMismatch {
            variable: "Difficulty".to_string(),
            expected: 3,
            actual: 2
        }
    );
    let e = parse_variable(Cursor::new("variable X { type discrete [ 2 ] { }; }")).unwrap_err();
    assert_eq!(
        e.kind,
        ErrorKind::StateCountMismatch { variable: "X".to_string(), expected: 2, actual: 0 }
    );
    let e = parse_variable(Cursor::new("variable X { type discrete [ 1 ] { a, b }; }"))
        .unwrap_err();
    assert_eq!(
        e.kind,
        ErrorKind::StateCountMismatch { variable: "X".to_string(), expected: 1, actual: 2 }
    );
}

#[test]
fn variable_block_syntax_errors() {
    assert_eq!(
        kind_at(parse_variable(Cursor::new("variable X { type discrete [2]{ a, b }; }"))),
        (ErrorKind::UnexpectedToken, 30)
    );
    assert_eq!(
        kind_at(parse_variable(Cursor::new("variable X { type discrete [ 2 ] { a, b } }"))),
        (ErrorKind::UnexpectedToken, 40)
    );
    assert_eq!(
        kind_at(parse_variable(Cursor::new("variable X { type discrete [ 2 ] { a, b };"))),
        (ErrorKind::UnexpectedToken, 42)
    );
    assert_eq!(
        kind_at(parse_variable(Cursor::new("variable X { kind discrete [ 2 ] { a, b }; }"))),
        (ErrorKind::UnexpectedToken, 13)
    );
    // A syntax error comes before the count of the states is looked at.
    assert_eq!(
        kind_at(parse_variable(Cursor::new("variable X { type discrete [ 3 ] { a, b }; p }"))),
        (ErrorKind::UnexpectedToken, 45)
    );
}

#[test]
fn probability_block_without_parents() {
    let text = "probability ( Difficulty ) {\n table 0.6, 0.4;\n}";
    let (c, p) = parse_probability(Cursor::new(text)).unwrap();
    assert_eq!(p.variable, "Difficulty");
    assert!(p.parents.is_empty());
    assert_eq!(p.table.len(), 1);
    assert!(p.table[0].key.is_empty());
    assert_eq!(p.table[0].values, strings(&["0.6", "0.4"]));
    assert!(p.properties.is_empty());
    assert_eq!(p.position, 0);
    assert!(c.at_end());
}

#[test]
fn probability_block_with_parents() {
    let text = "probability ( Grade | Intelligence, Difficulty ) {\n\
                (i0, d0) 0.30, 0.40, 0.30;\n\
                (i0, d1) 0.05, 0.25, 0.70;\n\
                }";
    let (_, p) = parse_probability(Cursor::new(text)).unwrap();
    assert_eq!(p.variable, "Grade");
    assert_eq!(p.parents, strings(&["Intelligence", "Difficulty"]));
    assert_eq!(p.table.len(), 2);
    assert_eq!(p.table[0].key, strings(&["i0", "d0"]));
    assert_eq!(p.table[0].values, strings(&["0.30", "0.40", "0.30"]));
    assert_eq!(p.table[1].key, strings(&["i0", "d1"]));
    assert_eq!(p.table[1].values, strings(&["0.05", "0.25", "0.70"]));
}

#[test]
fn probability_block_written_tightly() {
    let (c, p) = parse_probability(Cursor::new("probability(A|B,C){(b0,c0) 1,0;(b1,c0) 0,1;}"))
        .unwrap();
    assert_eq!(p.variable, "A");
    assert_eq!(p.parents, strings(&["B", "C"]));
    assert_eq!(p.table.len(), 2);
    assert_eq!(p.table[1].key, strings(&["b1", "c0"]));
    assert_eq!(p.table[1].values, strings(&["0", "1"]));
    assert!(c.at_end());
}

#[test]
fn table_form_must_suit_the_header() {
    assert_eq!(
        kind_at(parse_probability(Cursor::new("probability ( A | B ) { table 0.5, 0.5; }"))),
        (ErrorKind::MalformedTable, 24)
    );
    assert_eq!(
        kind_at(parse_probability(Cursor::new("probability ( A ) { (a0) 0.5, 0.5; }"))),
        (ErrorKind::MalformedTable, 20)
    );
    assert_eq!(
        kind_at(parse_probability(Cursor::new("probability ( A | B ) { (b0, c0) 0.5, 0.5; }"))),
        (ErrorKind::MalformedTable, 24)
    );
    assert_eq!(
        kind_at(parse_probability(Cursor::new("probability ( A ) { }"))),
        (ErrorKind::MalformedTable, 20)
    );
    assert_eq!(
        kind_at(parse_probability(Cursor::new("probability ( A ) { 0.5, 0.5; }"))),
        (ErrorKind::MalformedTable, 20)
    );
}

#[test]
fn probability_block_syntax_errors() {
    assert_eq!(
        kind_at(parse_probability(Cursor::new("probability ( A ) { table 0.5 0.5; }"))),
        (ErrorKind::UnexpectedToken, 30)
    );
    assert_eq!(
        kind_at(parse_probability(Cursor::new("probability ( A ) { table ; }"))),
        (ErrorKind::InvalidNumber, 26)
    );
    assert_eq!(
        kind_at(parse_probability(Cursor::new("probability ( A ) { table0.5; }"))),
        (ErrorKind::UnexpectedToken, 25)
    );
    assert_eq!(
        kind_at(parse_probability(Cursor::new("probability ( A | ) { table 1; }"))),
        (ErrorKind::UnexpectedToken, 18)
    );
    assert_eq!(
        kind_at(parse_probability(Cursor::new("probability ( ) { table 1; }"))),
        (ErrorKind::UnexpectedToken, 14)
    );
    assert_eq!(
        kind_at(parse_probability(Cursor::new("probability A { table 1; }"))),
        (ErrorKind::UnexpectedToken, 12)
    );
    assert_eq!(
        kind_at(parse_probability(Cursor::new("probability ( A | B ) { (b0)0.5, 0.5; }"))),
        (ErrorKind::UnexpectedToken, 28)
    );
    assert_eq!(
        kind_at(parse_probability(Cursor::new("probability ( A | B ) { (b0) 0.5, 0.5 }"))),
        (ErrorKind::UnexpectedToken, 38)
    );
    assert_eq!(
        kind_at(parse_probability(Cursor::new("probability ( A ) { table 1;"))),
        (ErrorKind::UnexpectedToken, 28)
    );
}

#[test]
fn one_row() {
    let (c, row) = parse_row(Cursor::new("(i0, d0) 0.30, 0.40, 0.30;\n"), 2).unwrap();
    assert_eq!(row.key, strings(&["i0", "d0"]));
    assert_eq!(row.values, strings(&["0.30", "0.40", "0.30"]));
    assert_eq!(c.rest(), "\n");
    assert_eq!(kind_at(parse_row(Cursor::new("(i0, d0) 0.3;"), 1)), (ErrorKind::MalformedTable, 0));
    assert_eq!(kind_at(parse_row(Cursor::new("(i0) 0.3;"), 2)), (ErrorKind::MalformedTable, 0));
    assert_eq!(kind_at(parse_row(Cursor::new("() 0.3;"), 0)), (ErrorKind::UnexpectedToken, 1));
    assert_eq!(kind_at(parse_row(Cursor::new("i0 0.3;"), 1)), (ErrorKind::UnexpectedToken, 0));
}

#[test]
fn rows_go_on_while_a_parenthesis_follows() {
    let (c, rows) = parse_rows(Cursor::new(" (a) 1; (b) 0;\n }"), 1).unwrap();
    assert_eq!(rows.len(), 2);
    assert_eq!(rows[0].key, strings(&["a"]));
    assert_eq!(rows[1].key, strings(&["b"]));
    assert_eq!(c.rest(), "\n }");
    let (c, rows) = parse_rows(Cursor::new(" }"), 1).unwrap();
    assert!(rows.is_empty());
    assert_eq!(c.offset(), 0);
}

#[test]
fn table_of_either_form() {
    let (_, rows) = parse_table(Cursor::new(" table 0.5, 0.5; }"), 0).unwrap();
    assert_eq!(rows.len(), 1);
    assert!(rows[0].key.is_empty());
    let (_, rows) = parse_table(Cursor::new(" (a) 1, 0; (b) 0, 1; }"), 1).unwrap();
    assert_eq!(rows.len(), 2);
    assert_eq!(kind_at(parse_table(Cursor::new(" table 1; }"), 1)), (ErrorKind::MalformedTable, 1));
    assert_eq!(kind_at(parse_table(Cursor::new(" x }"), 1)), (ErrorKind::MalformedTable, 1));
}

#[test]
fn blocks_of_both_kinds_in_any_order() {
    let text = "\nprobability ( A ) { table 1; }\n\
                variable A { type discrete [ 1 ] { a }; }\n\
                // a comment between blocks\n\
                variable B { type discrete [ 1 ] { b }; }\n\
                probability ( B ) { table 1; }\n tail";
    let (c, (variables, probabilities)) = parse_blocks(Cursor::new(text)).unwrap();
    assert_eq!(variables.len(), 2);
    assert_eq!(probabilities.len(), 2);
    assert_eq!(variables[0].name, "A");
    assert_eq!(variables[1].name, "B");
    assert_eq!(probabilities[0].variable, "A");
    assert_eq!(probabilities[1].variable, "B");
    assert_eq!(probabilities[0].position, 1);
    assert_eq!(variables[0].position, text.find("variable A").unwrap());
    assert_eq!(variables[1].position, text.find("variable B").unwrap());
    assert_eq!(c.rest(), "\n tail");
}

#[test]
fn blocks_may_be_none() {
    let (c, (variables, probabilities)) = parse_blocks(Cursor::new("  network x {}")).unwrap();
    assert!(variables.is_empty());
    assert!(probabilities.is_empty());
    assert_eq!(c.offset(), 0);
}

#[test]
fn blocks_stop_at_the_first_error() {
    let text = "variable A { type discrete [ 1 ] { a }; }\nvariable B { type discrete [ 2 ] { b }; }";
    let e = parse_blocks(Cursor::new(text)).unwrap_err();
    assert_eq!(e.position, 42);
    assert_eq!(
        e.kind,
        ErrorKind::StateCountMismatch { variable: "B".to_string(), expected: 2, actual: 1 }
    );
}
