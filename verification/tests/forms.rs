use lava_test::parser::{not_a_list, pair_id_name, parse_assertion, sx_to_json, sym_to_type_id};
use lava_test::sexpr::form_text_of;
use lava_test::{parse_all, test_from_form, tests_in_source, Assertion, BuiltinAssertion, ReadError, TestParseError};

fn one_assertion(text: &str) -> Result<BuiltinAssertion, TestParseError> {
    let forms = parse_all(text).unwrap();
    parse_assertion(&forms[0])
}

fn insufficient(text: &str) -> (String, String) {
    match one_assertion(text) {
        Err(TestParseError::InsufficientArgs { kind, detail }) => (kind, detail),
        other => panic!("expected InsufficientArgs, got {other:?}"),
    }
}

#[test]
fn type_ids_take_underscores_for_dashes() {
    assert_eq!(sym_to_type_id("aws-vpc"), "aws_vpc");
    assert_eq!(sym_to_type_id("a--b-"), "a__b_");
    assert_eq!(sym_to_type_id("plain"), "plain");
}

#[test]
fn source_values_become_json() {
    let forms = parse_all(r#"(80 :x "y" z #f (-1))"#).unwrap();
    assert_eq!(sx_to_json(&forms[0]).to_json_string(), r#"[80,"x","y","z",false,[-1]]"#);
}

#[test]
fn pair_id_name_reads_type_and_name() {
    let forms = parse_all(r#"(resource-exists aws-vpc "main")"#).unwrap();
    let xs = forms[0].as_list().unwrap();
    let (t, n) = pair_id_name(xs, "resource-exists").unwrap();
    assert_eq!(t, "aws_vpc");
    assert_eq!(n, "main");
}

#[test]
fn attribute_equals_form_converts_type_attr_and_value() {
    match one_assertion(r#"(attribute-equals aws-vpc "main" :enable-dns-support #t)"#).unwrap() {
        BuiltinAssertion::AttributeEquals(a) => {
            assert_eq!(a.type_id, "aws_vpc");
            assert_eq!(a.name, "main");
            assert_eq!(a.attr, "enable_dns_support");
            assert_eq!(a.expected.to_json_string(), "true");
        }
        other => panic!("expected AttributeEquals, got {other:?}"),
    }
}

#[test]
fn every_extended_head_builds_its_assertion() {
    let a = one_assertion(r#"(tag-equals aws-vpc "main" :Service "edge")"#).unwrap();
    assert_eq!(a.describe(), "tag-equals aws_vpc.main:Service");
    let a = one_assertion("(min-resources-of-kind aws-subnet 2)").unwrap();
    assert_eq!(a.describe(), "min-resources-of-kind aws_subnet 2");
    let a = one_assertion("(min-resources aws-subnet 4)").unwrap();
    assert_eq!(a.describe(), "min-resources-of-kind aws_subnet 4");
    let a = one_assertion(r#"(ref-targets aws-nat-gateway "main" :subnet-id aws-subnet "a")"#).unwrap();
    assert_eq!(a.describe(), "ref-targets aws_nat_gateway.main.subnet-id → aws_subnet.a");
    let a = one_assertion(r#"(output-equals "vpc-id" 12)"#).unwrap();
    assert_eq!(a.describe(), "output-equals vpc-id");
}

#[test]
fn missing_arguments_name_kind_and_position() {
    assert_eq!(
        insufficient("(resource-exists)"),
        ("resource-exists".to_string(), "need type-id at position 1".to_string())
    );
    assert_eq!(
        insufficient("(no-resource aws-vpc main)"),
        ("no-resource".to_string(), "need \"name\" at position 2".to_string())
    );
    assert_eq!(
        insufficient(r#"(attribute-equals aws-vpc "m" cidr "x")"#),
        ("attribute-equals".to_string(), "need :attr at position 3".to_string())
    );
    assert_eq!(
        insufficient(r#"(attribute-equals aws-vpc "m" :cidr)"#),
        ("attribute-equals".to_string(), "need value at position 4".to_string())
    );
    assert_eq!(
        insufficient("(resource-count aws-subnet \"6\")"),
        ("resource-count".to_string(), "need integer at position 2".to_string())
    );
    assert_eq!(
        insufficient("(output-equals vpc-id 1)"),
        ("output-equals".to_string(), "need \"name\" at position 1".to_string())
    );
    assert_eq!(
        insufficient(r#"(tag-equals aws-vpc "m" :k v)"#),
        ("tag-equals".to_string(), "need \"value\"".to_string())
    );
    assert_eq!(
        insufficient("(min-resources aws-subnet)"),
        ("min-resources-of-kind".to_string(), "need integer".to_string())
    );
    assert_eq!(
        insufficient(r#"(ref-targets aws-nat-gateway "m" :subnet-id aws-subnet)"#),
        ("ref-targets".to_string(), "need \"target-name\" at 5".to_string())
    );
}

#[test]
fn negative_counts_are_refused() {
    assert_eq!(
        insufficient("(resource-count aws-subnet -1)"),
        ("resource-count".to_string(), "count must be non-negative".to_string())
    );
    assert_eq!(
        insufficient("(min-resources-of-kind aws-subnet -3)"),
        ("min-resources-of-kind".to_string(), "non-negative integer".to_string())
    );
}

#[test]
fn malformed_assertions_are_bad_assertions() {
    match one_assertion("(\"resource-exists\" aws-vpc \"m\")") {
        Err(TestParseError::BadAssertion(m)) => assert_eq!(m, "head not sym"),
        other => panic!("expected BadAssertion, got {other:?}"),
    }
    match one_assertion("()") {
        Err(TestParseError::BadAssertion(m)) => assert_eq!(m, "head not sym"),
        other => panic!("expected BadAssertion, got {other:?}"),
    }
    match one_assertion("resource-exists") {
        Err(TestParseError::BadAssertion(m)) => assert_eq!(m, "not a list: Atom(Sym(\"resource-exists\"))"),
        other => panic!("expected BadAssertion, got {other:?}"),
    }
}

#[test]
fn a_head_without_an_assertion_is_unknown() {
    match one_assertion(r#"(regex-match aws-vpc "m" :name "^a")"#) {
        Err(TestParseError::UnknownAssertion(h)) => assert_eq!(h, "regex-match"),
        other => panic!("expected UnknownAssertion, got {other:?}"),
    }
}

#[test]
fn regex_matches_form_keeps_type_name_attr_and_pattern() {
    match one_assertion(r#"(regex-matches aws-vpc "main-vpc" :cidr-block "^10\.")"#).unwrap() {
        BuiltinAssertion::RegexMatches(a) => {
            assert_eq!(a.type_id, "aws_vpc");
            assert_eq!(a.name, "main-vpc");
            assert_eq!(a.attr, "cidr_block");
            assert_eq!(a.pattern, "^10.");
            assert_eq!(a.describe(), "regex-matches aws_vpc.main-vpc.cidr_block");
        }
        other => panic!("expected RegexMatches, got {other:?}"),
    }
}

#[test]
fn regex_matches_missing_arguments_name_their_position() {
    let want = |d: &str| ("regex-matches".to_string(), d.to_string());
    assert_eq!(insufficient("(regex-matches)"), want("need type-id at 1"));
    assert_eq!(insufficient("(regex-matches aws-vpc)"), want("need \"name\" at 2"));
    assert_eq!(insufficient(r#"(regex-matches aws-vpc "m" attr)"#), want("need :attr at 3"));
    assert_eq!(insufficient(r#"(regex-matches aws-vpc "m" :attr pat)"#), want("need \"pattern\" at 4"));
}

#[test]
fn a_form_without_a_name_is_not_a_test() {
    assert!(matches!(tests_in_source("(deflava-test)"), Err(TestParseError::NotTestForm)));
    assert!(matches!(tests_in_source("(deflava-test 12 :assertions ())"), Err(TestParseError::NotTestForm)));
}

#[test]
fn a_string_name_is_accepted() {
    let cases = tests_in_source(r#"(deflava-test "quoted name" :architecture "arch")"#).unwrap();
    assert_eq!(cases[0].name, "quoted name");
    assert_eq!(cases[0].architecture.as_deref(), Some("arch"));
    assert!(cases[0].assertions.is_empty());
    assert!(cases[0].bindings.is_empty());
}

#[test]
fn assertions_clause_must_be_a_list() {
    match tests_in_source("(deflava-test t :assertions ref-valid)") {
        Err(TestParseError::MissingClause(c)) => assert_eq!(c, "assertions"),
        other => panic!("expected MissingClause, got {other:?}"),
    }
}

#[test]
fn bindings_keep_first_position_and_last_value_and_skip_non_strings() {
    let src = r#"(deflava-test t :bindings (:a "1" :b 2 :c "3" :a "4" "d" "5" :e))"#;
    let c = &tests_in_source(src).unwrap()[0];
    let entries: Vec<(&str, &str)> = c.bindings.iter().map(|(k, v)| (k.as_str(), v.as_str())).collect();
    assert_eq!(entries, vec![("a", "4"), ("c", "3")]);
}

#[test]
fn a_later_architecture_overrides_and_assertion_clauses_accumulate() {
    let src = r#"(deflava-test t :architecture first :architecture second
                   :assertions ((ref-valid)) :assertions ((resource-count a 1) (no-resource b "c")))"#;
    let c = &tests_in_source(src).unwrap()[0];
    assert_eq!(c.architecture.as_deref(), Some("second"));
    let d: Vec<String> = c.assertions.iter().map(|a| a.describe()).collect();
    assert_eq!(d, vec!["ref-valid", "resource-count a 1", "no-resource b.c"]);
}

#[test]
fn a_non_name_architecture_clears_the_target() {
    let src = r#"(deflava-test t :architecture first :architecture 7)"#;
    let c = &tests_in_source(src).unwrap()[0];
    assert_eq!(c.architecture, None);
}

#[test]
fn unknown_clauses_and_a_dangling_key_are_ignored() {
    let src = r#"(deflava-test t :doc "x" :assertions ((ref-valid)) :architecture)"#;
    let c = &tests_in_source(src).unwrap()[0];
    assert_eq!(c.architecture, None);
    assert_eq!(c.assertions.len(), 1);
}

#[test]
fn test_from_form_reads_an_already_read_form() {
    let forms = parse_all(r#"(deflava-test t :assertions ((resource-count aws-subnet 2)))"#).unwrap();
    let c = test_from_form(forms[0].as_list().unwrap()).unwrap();
    assert_eq!(c.name, "t");
    assert_eq!(c.assertions[0].describe(), "resource-count aws_subnet 2");
}

#[test]
fn read_errors_surface_as_parse_errors() {
    match tests_in_source("(deflava-test t") {
        Err(TestParseError::Parse(e)) => assert_eq!(e, ReadError::UnclosedList),
        other => panic!("expected Parse, got {other:?}"),
    }
}

#[test]
fn the_first_bad_form_stops_the_scan() {
    let src = r#"
        (deflava-test good :assertions ((ref-valid)))
        (deflava-test bad :assertions ((nope)))
        (deflava-test later :assertions (oops))
    "#;
    assert!(matches!(tests_in_source(src), Err(TestParseError::UnknownAssertion(h)) if h == "nope"));
}

#[test]
fn one_case_per_test_form_in_order() {
    let src = r#"
        atom
        (deflava-test one)
        ("deflava-test" not-a-head)
        (deflava-architecture x)
        (deflava-test two :assertions ((ref-valid)))
        ()
    "#;
    let cases = tests_in_source(src).unwrap();
    let names: Vec<&str> = cases.iter().map(|c| c.name.as_str()).collect();
    assert_eq!(names, vec!["one", "two"]);
}

#[test]
fn not_a_list_prefixes_the_debug_text() {
    match not_a_list("Atom(Int(3))") {
        TestParseError::BadAssertion(m) => assert_eq!(m, "not a list: Atom(Int(3))"),
        other => panic!("expected BadAssertion, got {other:?}"),
    }
}

#[test]
fn form_text_writes_constructors_and_escapes_strings() {
    let forms = parse_all(r#"(a "q\"b\\c\nd" :k -12 #t ()) 7"#).unwrap();
    assert_eq!(
        form_text_of(&forms[0]),
        r#"List([Atom(Sym("a")), Atom(Str("q\"b\\c\nd")), Atom(Kw("k")), Atom(Int(-12)), Atom(Bool(true)), List([])])"#
    );
    assert_eq!(form_text_of(&forms[1]), "Atom(Int(7))");
}

#[test]
fn a_non_list_assertion_is_described_by_its_text() {
    match one_assertion("#f") {
        Err(TestParseError::BadAssertion(m)) => assert_eq!(m, "not a list: Atom(Bool(false))"),
        other => panic!("expected BadAssertion, got {other:?}"),
    }
}
