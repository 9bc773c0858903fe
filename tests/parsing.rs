use landlord::body::{code_block, key_value_pairs, statement_termination};
use landlord::lexical::{
    boolean_literal_expression, float_number_literal_data, integer_number_literal_data,
    is_valid_singleline_string_char, literal_expression, name_identifier, quote,
    string_literal_data,
};
use landlord::parse;
use landlord::parse_with_options;
use landlord::paths::{expression, object_path, reference, reference_path};
use landlord::statements::{
    resource_data_as_custom, resource_data_as_provider, resource_data_as_variable,
    resource_modifier_list, statement, tagged_value, ParseOptions,
};
use landlord::syntax_tree::{
    Expression, Literal, NameIdentifier, Number, ReferencePath, Reference, ResourceBody,
    ResourceClass, ResourceData, ResourceModifier, Statement, SyntaxTree,
};
use landlord::to_chars;

fn name(s: &str) -> NameIdentifier {
    NameIdentifier { value: s.to_string() }
}

fn integer(s: &str) -> Expression {
    Expression::Literal(Literal::Number(Number::Integer(s.to_string())))
}

fn string(s: &str) -> Expression {
    Expression::Literal(Literal::String(s.to_string()))
}

fn resource(tree: &SyntaxTree, k: usize) -> &ResourceData {
    match &tree.statements[k] {
        Statement::Resource(r) => r,
        _ => panic!("not a resource"),
    }
}

#[test]
fn program_statement_count_matches_declarations() {
    let src = "\n  resource a of ns::A ;\nprovider p of ns::P { x = 1 }\n\nvariable v { y = \"z\" }\n  \n";
    let tree = parse(src).unwrap();
    assert_eq!(tree.statements.len(), 3);
    assert_eq!(resource(&tree, 0).name, name("a"));
    assert_eq!(resource(&tree, 1).name, name("p"));
    assert_eq!(resource(&tree, 2).name, name("v"));
}

#[test]
fn empty_and_blank_programs_have_no_statements() {
    assert_eq!(parse("").unwrap().statements.len(), 0);
    assert_eq!(parse(" \t\r\n ").unwrap().statements.len(), 0);
}

#[test]
fn duplicate_keys_keep_last_value() {
    let s = to_chars("{ a = 1, a = 2 }");
    let (body, end) = code_block(&s, 0).unwrap();
    assert_eq!(end, s.len());
    assert_eq!(body.len(), 1);
    assert_eq!(body.get("a"), Some(&integer("2")));
}

#[test]
fn duplicate_keys_in_a_resource_keep_last_value() {
    let tree = parse("resource r of t::T { a = 1\n b = 3\n a = 2 }").unwrap();
    let body = resource(&tree, 0).body.as_ref().unwrap();
    assert_eq!(body.len(), 2);
    assert_eq!(body.get("a"), Some(&integer("2")));
    assert_eq!(body.get("b"), Some(&integer("3")));
}

#[test]
fn reserved_path_segments() {
    let s = to_chars("super::land::x");
    let (path, end) = reference_path(&s, 0).unwrap();
    assert_eq!(end, 14);
    assert_eq!(
        path.sequence,
        vec![Reference::Super, Reference::Land, Reference::Name(name("x"))]
    );
}

#[test]
fn reserved_word_prefix_is_taken_as_reserved() {
    let s = to_chars("superman");
    assert_eq!(reference(&s, 0), Some((Reference::Super, 5)));
}

#[test]
fn string_quote_mismatch_is_accepted_historical() {
    let s = to_chars("\"abc'");
    assert_eq!(string_literal_data(&s, 0), Some(("abc".to_string(), 5)));
}

#[test]
fn string_literal_stops_at_line_break() {
    let s = to_chars("'ab\ncd'");
    assert_eq!(string_literal_data(&s, 0), None);
    assert!(!is_valid_singleline_string_char('\n'));
    assert!(!is_valid_singleline_string_char('\''));
    assert!(is_valid_singleline_string_char('x'));
    assert_eq!(quote(&to_chars("'"), 0), Some(('\'', 1)));
    assert_eq!(quote(&to_chars("x"), 0), None);
}

#[test]
fn provider_is_classified_custom_historical() {
    let tree = parse("provider p of ns::T;").unwrap();
    assert_eq!(tree.statements.len(), 1);
    let r = resource(&tree, 0);
    assert_eq!(r.class, ResourceClass::Custom);
    assert_eq!(r.name, name("p"));
    assert_eq!(r.type_path.sequence, vec![Reference::Name(name("ns")), Reference::Name(name("T"))]);
    assert!(r.body.is_none());
    assert!(!r.is_scoped);
    let tree = parse("provider p of ns::T ;").unwrap();
    assert_eq!(resource(&tree, 0).class, ResourceClass::Custom);
}

#[test]
fn provider_is_classified_provider_when_asked() {
    let options = ParseOptions { classify_providers: true };
    let tree = parse_with_options("provider p of ns::T ;", &options).unwrap();
    assert_eq!(resource(&tree, 0).class, ResourceClass::Provider);
    let tree = parse_with_options("resource r of ns::T ;", &options).unwrap();
    assert_eq!(resource(&tree, 0).class, ResourceClass::Custom);
}

#[test]
fn float_in_body_parses_as_floating_point() {
    let s = to_chars("{ x = 1.5 }");
    let (body, _) = code_block(&s, 0).unwrap();
    assert_eq!(
        body.get("x"),
        Some(&Expression::Literal(Literal::Number(Number::FloatingPoint("1.5".to_string()))))
    );
    let tree = parse("resource r of t::T { x = 1.5 }").unwrap();
    assert_eq!(resource(&tree, 0).body.as_ref().unwrap().len(), 1);
}

#[test]
fn statement_termination_gives_no_body() {
    let tree = parse("resource r of t::T ;").unwrap();
    let r = resource(&tree, 0);
    assert!(r.body.is_none());
    assert_eq!(r.type_path.sequence, vec![Reference::Name(name("t")), Reference::Name(name("T"))]);
    assert!(!r.is_scoped);
}

#[test]
fn semicolon_right_after_type_path_gives_no_body() {
    let tree = parse("resource r of t::T;").unwrap();
    assert_eq!(tree.statements.len(), 1);
    let r = resource(&tree, 0);
    assert!(r.body.is_none());
    assert_eq!(r.class, ResourceClass::Custom);
    assert_eq!(r.type_path.sequence, vec![Reference::Name(name("t")), Reference::Name(name("T"))]);
    let tree = parse("resource r of t::T{ k = 1 }").unwrap();
    assert_eq!(resource(&tree, 0).body.as_ref().unwrap().len(), 1);
    assert!(parse("resource r of t::T scoped;").unwrap().statements.len() == 1);
}

#[test]
fn braces_give_a_body() {
    let tree = parse("resource r of t::T { k = \"v\" }").unwrap();
    let body = resource(&tree, 0).body.as_ref().unwrap();
    assert_eq!(body.len(), 1);
    assert_eq!(body.get("k"), Some(&string("v")));
    assert_eq!(body.get("missing"), None);
}

#[test]
fn scoped_modifier_sets_is_scoped() {
    let tree = parse("resource r of t::T scoped { }").unwrap();
    let r = resource(&tree, 0);
    assert!(r.is_scoped);
    assert_eq!(r.body.as_ref().unwrap().len(), 0);
}

#[test]
fn trailing_input_fails_whole_parse() {
    assert!(parse("resource r of t::T ; x").is_err());
    assert!(parse("resource r of t::T { a = 1 } }").is_err());
    assert_eq!(parse("resource r of t::T ;;").err(), Some("Could not parse correctly.".to_string()));
}

#[test]
fn names_may_hold_letters_of_any_script() {
    let s = to_chars("_été9 rest");
    assert_eq!(name_identifier(&s, 0), Some((name("_été9"), 5)));
    assert_eq!(name_identifier(&to_chars("9a"), 0), None);
    assert_eq!(name_identifier(&to_chars("a-b"), 0), Some((name("a"), 1)));
}

#[test]
fn numbers_keep_their_text() {
    assert_eq!(integer_number_literal_data(&to_chars("0042x"), 0), Some(("0042".to_string(), 4)));
    assert_eq!(integer_number_literal_data(&to_chars("x"), 0), None);
    assert_eq!(float_number_literal_data(&to_chars("12.50;"), 0), Some(("12.50".to_string(), 5)));
    assert_eq!(float_number_literal_data(&to_chars("12."), 0), None);
    assert_eq!(literal_expression(&to_chars("7"), 0), Some((integer("7"), 1)));
}

#[test]
fn booleans_are_exact() {
    let t = boolean_literal_expression(&to_chars("true"), 0);
    assert_eq!(t, Some((Expression::Literal(Literal::Boolean(true)), 4)));
    let f = boolean_literal_expression(&to_chars("false"), 0);
    assert_eq!(f, Some((Expression::Literal(Literal::Boolean(false)), 5)));
    assert_eq!(boolean_literal_expression(&to_chars("True"), 0), None);
}

#[test]
fn object_paths_and_members() {
    let s = to_chars("a::b.c.d");
    let (o, end) = object_path(&s, 0).unwrap();
    assert_eq!(end, 8);
    assert_eq!(o.object.sequence.len(), 2);
    assert_eq!(o.member_path, Some(vec![name("c"), name("d")]));
    let (o, end) = object_path(&to_chars("a."), 0).unwrap();
    assert_eq!(end, 2);
    assert_eq!(o.member_path, Some(vec![]));
    let (o, end) = object_path(&to_chars("a::"), 0).unwrap();
    assert_eq!(end, 1);
    assert_eq!(o.member_path, None);
}

#[test]
fn expression_prefers_literal() {
    let (e, _) = expression(&to_chars("land::x"), 0).unwrap();
    match e {
        Expression::Object(o) => {
            assert_eq!(o.object.sequence, vec![Reference::Land, Reference::Name(name("x"))])
        }
        _ => panic!("expected an object path"),
    }
    assert_eq!(expression(&to_chars("'q'"), 0), Some((string("q"), 3)));
}

#[test]
fn entries_separated_by_commas_or_line_breaks() {
    let s = to_chars("a = 1 , b = 2\r\n\n  c = x.y");
    let (body, end) = key_value_pairs(&s, 0);
    assert_eq!(end, s.len());
    assert_eq!(body.len(), 3);
    let (body, end) = key_value_pairs(&to_chars("a = 1,"), 0);
    assert_eq!(end, 5);
    assert_eq!(body.len(), 1);
}

#[test]
fn trailing_comma_in_body_is_rejected() {
    assert!(code_block(&to_chars("{ a = 1, }"), 0).is_none());
}

#[test]
fn termination_and_keywords() {
    assert_eq!(statement_termination(&to_chars("  ;  x"), 0), Some(5));
    assert_eq!(statement_termination(&to_chars("x;"), 0), None);
    assert_eq!(tagged_value(&to_chars("of  x"), 0, "of"), Some(4));
    assert_eq!(tagged_value(&to_chars("ofx"), 0, "of"), None);
}

#[test]
fn modifier_list_reads_scoped_keywords() {
    let (mods, end) = resource_modifier_list(&to_chars("scoped scoped {"), 0);
    assert_eq!(mods, vec![ResourceModifier::Scoped, ResourceModifier::Scoped]);
    assert_eq!(end, 13);
    let (mods, end) = resource_modifier_list(&to_chars("{"), 0);
    assert!(mods.is_empty());
    assert_eq!(end, 0);
}

#[test]
fn variable_has_no_type_path() {
    let (r, end) = resource_data_as_variable(&to_chars("variable v { a = b }"), 0).unwrap();
    assert_eq!(end, 20);
    assert_eq!(r.class, ResourceClass::Variable);
    assert!(r.type_path.sequence.is_empty());
    assert!(!r.is_scoped);
    assert!(resource_data_as_variable(&to_chars("variable v;"), 0).is_none());
}

#[test]
fn statement_needs_a_keyword() {
    let options = ParseOptions::historical();
    assert!(statement(&to_chars("thing r of t::T ;"), 0, &options).is_none());
    assert!(statement(&to_chars("resource r of t::T ;"), 0, &options).is_some());
}

#[test]
fn resource_data_new_reads_modifiers() {
    let path = ReferencePath { sequence: vec![Reference::Name(name("t"))] };
    let r = ResourceData::new(name("r"), path.clone(), None, ResourceClass::Custom, &vec![ResourceModifier::Scoped]);
    assert!(r.is_scoped);
    let r = ResourceData::new(name("r"), path, Some(ResourceBody::new()), ResourceClass::Custom, &vec![]);
    assert!(!r.is_scoped);
}

#[test]
fn body_insert_replaces() {
    let mut b = ResourceBody::new();
    b.insert(name("k"), integer("1"));
    b.insert(name("j"), integer("2"));
    b.insert(name("k"), integer("3"));
    assert_eq!(b.len(), 2);
    assert_eq!(b.get("k"), Some(&integer("3")));
    assert_eq!(name("k"), name("k"));
    assert_ne!(Reference::Super, Reference::Land);
}

#[test]
fn body_round_trips_through_source_text() {
    let s = to_chars("{ b = 'x\"\n a = super::y.z\n c = 1.25, d = true, e = 7, f = land }");
    let (body, end) = code_block(&s, 0).unwrap();
    assert_eq!(end, s.len());
    let text = body.to_source();
    assert_eq!(
        text,
        "{ b = \"x\", a = super::y.z, c = 1.25, d = true, e = 7, f = land }"
    );
    let again = to_chars(&text);
    let (reread, end) = code_block(&again, 0).unwrap();
    assert_eq!(end, again.len());
    assert_eq!(reread, body);
}

#[test]
fn empty_body_round_trips() {
    let body = ResourceBody::new();
    let text = body.to_source();
    assert_eq!(text, "{  }");
    let (reread, _) = code_block(&to_chars(&text), 0).unwrap();
    assert_eq!(reread.len(), 0);
}

#[test]
fn names_stop_at_symbols_beyond_ascii() {
    assert_eq!(name_identifier(&to_chars("€x"), 0), None);
    assert_eq!(name_identifier(&to_chars("a€"), 0), Some((name("a"), 1)));
    assert_eq!(name_identifier(&to_chars("ж٣ z"), 0), Some((name("ж٣"), 2)));
}

#[test]
fn bare_reference_expression_is_never_produced() {
    let (e, end) = expression(&to_chars("a::b"), 0).unwrap();
    assert_eq!(end, 4);
    assert!(matches!(e, Expression::Object(_)));
    assert!(!matches!(e, Expression::Reference(_)));
}

#[test]
fn bodies_compare_as_mappings() {
    let (a, _) = code_block(&to_chars("{ a = 1, b = x.y }"), 0).unwrap();
    let (b, _) = code_block(&to_chars("{ b = x.y\n a = 1 }"), 0).unwrap();
    assert_eq!(a, b);
    let (c, _) = code_block(&to_chars("{ a = 1, b = x.z }"), 0).unwrap();
    assert_ne!(a, c);
    let (d, _) = code_block(&to_chars("{ a = 1 }"), 0).unwrap();
    assert_ne!(a, d);
    assert_ne!(d, a);
}

#[test]
fn bare_listing_reads_back_as_the_same_mapping() {
    let (body, _) = code_block(&to_chars("{ k = 'v\"\n n = 3.5\n p = a::b.c }"), 0).unwrap();
    let listing = to_chars("p = a::b.c, k = \"v\", n = 3.5");
    let (again, end) = key_value_pairs(&listing, 0);
    assert_eq!(end, listing.len());
    assert_eq!(again, body);
}

#[test]
fn provider_and_resource_read_the_rest_alike() {
    let rest = " p of ns::T scoped { a = 1 }";
    let p = resource_data_as_provider(&to_chars(&format!("provider{rest}")), 0, &ParseOptions::historical())
        .unwrap();
    let r = resource_data_as_custom(&to_chars(&format!("resource{rest}")), 0).unwrap();
    assert_eq!(p.1, r.1);
    assert_eq!(p.0.class, r.0.class);
    assert_eq!(p.0.name, r.0.name);
    assert_eq!(p.0.type_path, r.0.type_path);
    assert_eq!(p.0.body, r.0.body);
    assert_eq!(p.0.is_scoped, r.0.is_scoped);
}
