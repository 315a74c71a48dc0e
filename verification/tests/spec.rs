use lava_test::{scenario_name_to_slug, scenarios_in_source, TestParseError};

#[test]
fn spec_with_two_scenarios_produces_two_typed_test_cases() {
    let src = r#"
        (deflava-spec aws-vpc-network
          :scenarios (
            (:name "default-cidr"
             :given (:architecture aws-vpc-network)
             :when  (:bindings ())
             :then  ((resource-count aws-subnet 6)))
            (:name "override propagates"
             :given (:architecture aws-vpc-network)
             :when  (:bindings (:name "preview"))
             :then  ((resource-exists aws-vpc "preview-vpc")
                     (no-resource aws-vpc "main-vpc")))))
    "#;
    let cases = scenarios_in_source(src).unwrap();
    assert_eq!(cases.len(), 2);
    assert_eq!(cases[0].name, "aws-vpc-network/default-cidr");
    assert_eq!(cases[0].architecture.as_deref(), Some("aws-vpc-network"));
    assert_eq!(cases[0].assertions.len(), 1);
    assert_eq!(cases[1].name, "aws-vpc-network/override-propagates");
    assert_eq!(cases[1].bindings["name"], "preview");
    assert_eq!(cases[1].assertions.len(), 2);
}

#[test]
fn spec_falls_back_to_spec_name_for_architecture_when_omitted() {
    let src = r#"
        (deflava-spec demo
          :scenarios ((:name "smoke" :then ((resource-exists aws-vpc "main")))))
    "#;
    let cases = scenarios_in_source(src).unwrap();
    assert_eq!(cases[0].architecture.as_deref(), Some("demo"));
}

#[test]
fn scenario_name_slug_is_kebab() {
    assert_eq!(scenario_name_to_slug("Default cidr gives 6 subnets!"), "default-cidr-gives-6-subnets");
}

#[test]
fn spec_missing_scenarios_clause_surfaces_typed_error() {
    let src = r#"(deflava-spec demo)"#;
    let err = scenarios_in_source(src).unwrap_err();
    match err {
        TestParseError::MissingClause("scenarios") => {}
        other => panic!("expected MissingClause(scenarios), got {other:?}"),
    }
}

#[test]
fn skips_non_spec_forms_in_multi_form_source() {
    let src = r#"
        (deflava-interface demo :inputs ((:foo :type :string)))
        (deflava-spec demo
          :scenarios ((:name "smoke"
                       :given (:architecture demo)
                       :then ((resource-exists aws-vpc "main")))))
    "#;
    let cases = scenarios_in_source(src).unwrap();
    assert_eq!(cases.len(), 1);
}
