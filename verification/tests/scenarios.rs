use lava_test::{scenario_name_to_slug, scenarios_in_source, Assertion, TestParseError};

fn is_kebab(t: &str) -> bool {
    !t.starts_with('-')
        && !t.ends_with('-')
        && !t.contains("--")
        && t.chars().all(|c| c.is_ascii_lowercase() || c.is_ascii_digit() || c == '-')
}

#[test]
fn slug_lowercases_and_joins_words_with_single_dashes() {
    assert_eq!(scenario_name_to_slug("  Hello,   World  "), "hello-world");
    assert_eq!(scenario_name_to_slug("a__b"), "a-b");
    assert_eq!(scenario_name_to_slug("Trailing!!"), "trailing");
    assert_eq!(scenario_name_to_slug("v2 Rollout"), "v2-rollout");
}

#[test]
fn slug_drops_non_ascii_and_may_be_empty() {
    assert_eq!(scenario_name_to_slug("ÄBC"), "bc");
    assert_eq!(scenario_name_to_slug("---"), "");
    assert_eq!(scenario_name_to_slug(""), "");
    assert_eq!(scenario_name_to_slug("über cool"), "ber-cool");
}

#[test]
fn slugs_are_always_kebab() {
    for name in ["Default cidr gives 6 subnets!", " -x- ", "A--B", "!!", "é", "Mixed_Case 42 stuff?"] {
        assert!(is_kebab(&scenario_name_to_slug(name)), "{name}");
    }
}

#[test]
fn a_scenario_without_name_takes_the_spec_fallback() {
    let src = r#"(deflava-spec demo :scenarios ((:then ((ref-valid)))))"#;
    let cases = scenarios_in_source(src).unwrap();
    assert_eq!(cases[0].name, "demo/scenario-demo");
    let src = r#"(deflava-spec demo :scenarios ((:name "first" :name 5 :then ())))"#;
    assert_eq!(scenarios_in_source(src).unwrap()[0].name, "demo/scenario-demo");
}

#[test]
fn a_scenario_needs_a_then_list() {
    let src = r#"(deflava-spec demo :scenarios ((:name "x")))"#;
    assert!(matches!(scenarios_in_source(src), Err(TestParseError::MissingClause("then"))));
    let src = r#"(deflava-spec demo :scenarios ((:name "x" :then ref-valid)))"#;
    assert!(matches!(scenarios_in_source(src), Err(TestParseError::MissingClause("then"))));
}

#[test]
fn a_scenario_must_be_a_list() {
    let src = r#"(deflava-spec demo :scenarios (oops))"#;
    match scenarios_in_source(src) {
        Err(TestParseError::BadAssertion(m)) => assert_eq!(m, "scenario not a list"),
        other => panic!("expected BadAssertion, got {other:?}"),
    }
}

#[test]
fn the_scenarios_clause_must_be_a_list() {
    let src = r#"(deflava-spec demo :scenarios none)"#;
    assert!(matches!(scenarios_in_source(src), Err(TestParseError::MissingClause("scenarios"))));
}

#[test]
fn a_spec_needs_a_name() {
    assert!(matches!(scenarios_in_source("(deflava-spec :scenarios ())"), Err(TestParseError::NotTestForm)));
}

#[test]
fn the_last_scenarios_clause_wins() {
    let src = r#"(deflava-spec demo
                   :scenarios ((:name "a" :then ()))
                   :scenarios ((:name "b" :then ()) (:name "c" :then ())))"#;
    let names: Vec<String> = scenarios_in_source(src).unwrap().into_iter().map(|c| c.name).collect();
    assert_eq!(names, vec!["demo/b", "demo/c"]);
}

#[test]
fn the_first_given_architecture_is_the_target() {
    let src = r#"(deflava-spec demo :scenarios ((:given (:architecture one :architecture two) :then ())))"#;
    assert_eq!(scenarios_in_source(src).unwrap()[0].architecture.as_deref(), Some("one"));
    let src = r#"(deflava-spec demo :scenarios ((:given (:architecture "quoted") :then ())))"#;
    assert_eq!(scenarios_in_source(src).unwrap()[0].architecture.as_deref(), Some("quoted"));
}

#[test]
fn a_given_without_a_usable_target_falls_back_to_the_spec() {
    let src = r#"(deflava-spec demo :scenarios ((:given (:architecture 3 :architecture two) :then ())))"#;
    assert_eq!(scenarios_in_source(src).unwrap()[0].architecture.as_deref(), Some("demo"));
    let src = r#"(deflava-spec demo :scenarios ((:given oops :then ())))"#;
    assert_eq!(scenarios_in_source(src).unwrap()[0].architecture.as_deref(), Some("demo"));
}

#[test]
fn when_bindings_carry_over_in_order() {
    let src = r#"(deflava-spec demo :scenarios ((:when (:bindings (:b "2" :a "1") :bindings (:c "3" :b "9"))
                                              :then ())))"#;
    let c = &scenarios_in_source(src).unwrap()[0];
    let entries: Vec<(&str, &str)> = c.bindings.iter().map(|(k, v)| (k.as_str(), v.as_str())).collect();
    assert_eq!(entries, vec![("b", "9"), ("a", "1"), ("c", "3")]);
}

#[test]
fn then_assertions_become_the_case_assertions() {
    let src = r#"(deflava-spec demo :scenarios ((:name "s" :then ((resource-count aws-subnet 6) (ref-valid)))))"#;
    let c = &scenarios_in_source(src).unwrap()[0];
    let d: Vec<String> = c.assertions.iter().map(|a| a.describe()).collect();
    assert_eq!(d, vec!["resource-count aws_subnet 6", "ref-valid"]);
}

#[test]
fn a_bad_then_assertion_is_reported() {
    let src = r#"(deflava-spec demo :scenarios ((:name "s" :then ((resource-count aws-subnet)))))"#;
    match scenarios_in_source(src) {
        Err(TestParseError::InsufficientArgs { kind, detail }) => {
            assert_eq!(kind, "resource-count");
            assert_eq!(detail, "need integer at position 2");
        }
        other => panic!("expected InsufficientArgs, got {other:?}"),
    }
}

#[test]
fn an_empty_slug_still_names_the_case_under_the_spec() {
    let src = r#"(deflava-spec demo :scenarios ((:name "!!!" :then ())))"#;
    assert_eq!(scenarios_in_source(src).unwrap()[0].name, "demo/");
}

#[test]
fn scenarios_of_several_specs_come_in_source_order() {
    let src = r#"
        (deflava-spec one :scenarios ((:name "a" :then ()) (:name "b" :then ())))
        (deflava-test ignored)
        (deflava-spec two :scenarios ())
        (deflava-spec "three" :scenarios ((:name "c" :then ())))
    "#;
    let names: Vec<String> = scenarios_in_source(src).unwrap().into_iter().map(|c| c.name).collect();
    assert_eq!(names, vec!["one/a", "one/b", "three/c"]);
}

#[test]
fn the_first_failing_spec_stops_the_scan() {
    let src = r#"
        (deflava-spec one :scenarios ((:name "a" :then ())))
        (deflava-spec two :scenarios ((:name "b" :then ((nope)))))
        (deflava-spec three :scenarios (oops))
    "#;
    assert!(matches!(scenarios_in_source(src), Err(TestParseError::UnknownAssertion(h)) if h == "nope"));
    let src = r#"(deflava-spec one :scenarios ((:name "a" :then ()) bad (:name "c")))"#;
    match scenarios_in_source(src) {
        Err(TestParseError::BadAssertion(m)) => assert_eq!(m, "scenario not a list"),
        other => panic!("expected BadAssertion, got {other:?}"),
    }
}

#[test]
fn slugging_a_slug_changes_nothing() {
    for name in ["Default cidr gives 6 subnets!", "  Hello,   World  ", "ÄBC", "", "a--b", "x-1"] {
        let once = scenario_name_to_slug(name);
        assert_eq!(scenario_name_to_slug(&once), once);
    }
}
