use lava_test::{tests_in_source, Assertion, TestParseError};

#[test]
fn parses_simple_test_form_with_three_assertions() {
    let src = r#"
        (deflava-test aws-vpc-network/default
          :architecture aws-vpc-network
          :bindings (:name "main")
          :assertions ((resource-exists aws-vpc "main-vpc")
                       (attribute-equals aws-vpc "main-vpc" :cidr-block "10.0.0.0/16")
                       (resource-count aws-subnet 6)))
    "#;
    let cases = tests_in_source(src).unwrap();
    assert_eq!(cases.len(), 1);
    let c = &cases[0];
    assert_eq!(c.name, "aws-vpc-network/default");
    assert_eq!(c.architecture.as_deref(), Some("aws-vpc-network"));
    assert_eq!(c.bindings["name"], "main");
    assert_eq!(c.assertions.len(), 3);
}

#[test]
fn parses_every_built_in_assertion_kind() {
    let src = r#"
        (deflava-test demo/all
          :architecture demo
          :assertions ((resource-exists aws-vpc "main-vpc")
                       (no-resource aws-subnet "absent")
                       (attribute-equals aws-vpc "main-vpc" :enable-dns-support #t)
                       (resource-count aws-subnet 0)
                       (output-equals "vpc-id" "v-12345")
                       (ref-valid)))
    "#;
    let cases = tests_in_source(src).unwrap();
    assert_eq!(cases[0].assertions.len(), 6);
    // Each description carries the kebab head.
    let descriptions: Vec<String> = cases[0].assertions.iter().map(|a| a.describe()).collect();
    assert!(descriptions[0].starts_with("resource-exists"));
    assert!(descriptions[1].starts_with("no-resource"));
    assert!(descriptions[2].starts_with("attribute-equals"));
    assert!(descriptions[3].starts_with("resource-count"));
    assert!(descriptions[4].starts_with("output-equals"));
    assert!(descriptions[5].starts_with("ref-valid"));
}

#[test]
fn unknown_assertion_head_surfaces_typed_error() {
    let src = r#"
        (deflava-test x
          :assertions ((not-a-real-assertion)))
    "#;
    let err = tests_in_source(src).unwrap_err();
    match err {
        TestParseError::UnknownAssertion(name) => {
            assert_eq!(name, "not-a-real-assertion");
        }
        other => panic!("expected UnknownAssertion, got {other:?}"),
    }
}

#[test]
fn skips_non_test_forms_in_multi_form_source() {
    let src = r#"
        (deflava-interface demo
          :inputs ((:foo :type :string)))
        (deflava-test demo/smoke
          :architecture demo
          :assertions ((resource-exists aws-vpc "main")))
    "#;
    let cases = tests_in_source(src).unwrap();
    assert_eq!(cases.len(), 1);
    assert_eq!(cases[0].name, "demo/smoke");
}
