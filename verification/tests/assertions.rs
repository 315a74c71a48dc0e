use indexmap::IndexMap;
use lava_test::{
    run_case_against, AssertContext, Assertion, AttributeEquals, BuiltinAssertion, Json, NoResource,
    OutputEquals, PropertyHolds, RefValid, Resource, ResourceCount, ResourceExists, ResourceRef, TestCase,
    Architecture, Value,
};

fn s(t: &str) -> String {
    t.to_string()
}

fn obj(members: Vec<(&str, Json)>) -> Json {
    Json::Object(members.into_iter().map(|(k, v)| (k.to_string(), v)).collect())
}

fn jstr(t: &str) -> Json {
    Json::String(t.to_string())
}

fn tiny_vpc() -> Architecture {
    let mut arch = Architecture::new("net");
    arch.resources.push(Resource {
        type_id: s("aws_vpc"),
        name: s("main"),
        attributes: vec![
            (s("cidr_block"), Value::s("10.0.0.0/16")),
            (s("enable_dns_support"), Value::b(true)),
        ],
    });
    arch.resources.push(Resource {
        type_id: s("aws_internet_gateway"),
        name: s("main"),
        attributes: vec![(
            s("vpc_id"),
            Value::Ref(ResourceRef { type_id: s("aws_vpc"), name: s("main"), attribute: s("id") }),
        )],
    });
    arch
}

/// The terraform document that `tiny_vpc` renders to.
fn tiny_vpc_json() -> Json {
    obj(vec![
        (
            "resource",
            obj(vec![
                (
                    "aws_vpc",
                    obj(vec![(
                        "main",
                        obj(vec![
                            ("cidr_block", jstr("10.0.0.0/16")),
                            ("enable_dns_support", Json::Bool(true)),
                        ]),
                    )]),
                ),
                (
                    "aws_internet_gateway",
                    obj(vec![("main", obj(vec![("vpc_id", jstr("${aws_vpc.main.id}"))]))]),
                ),
            ]),
        ),
        ("output", obj(vec![("vpc-id", obj(vec![("value", jstr("known-id"))]))])),
    ])
}

#[test]
fn resource_exists_passes_for_declared_resource() {
    let arch = tiny_vpc();
    let ctx = AssertContext::new(&arch, tiny_vpc_json());
    assert!(ResourceExists::new("aws_vpc", "main").check(&ctx).is_ok());
}

#[test]
fn resource_exists_fails_with_typed_pointer_for_missing_resource() {
    let arch = tiny_vpc();
    let ctx = AssertContext::new(&arch, tiny_vpc_json());
    let err = ResourceExists::new("aws_subnet", "nope").check(&ctx).unwrap_err();
    assert!(err.pointer.unwrap().contains("/resource/aws_subnet/nope"));
}

#[test]
fn no_resource_passes_when_absent() {
    let arch = tiny_vpc();
    let ctx = AssertContext::new(&arch, tiny_vpc_json());
    assert!(NoResource::new("aws_subnet", "nope").check(&ctx).is_ok());
}

#[test]
fn no_resource_fails_when_present() {
    let arch = tiny_vpc();
    let ctx = AssertContext::new(&arch, tiny_vpc_json());
    assert!(NoResource::new("aws_vpc", "main").check(&ctx).is_err());
}

#[test]
fn attribute_equals_passes_for_matching_value() {
    let arch = tiny_vpc();
    let ctx = AssertContext::new(&arch, tiny_vpc_json());
    let assertion = AttributeEquals::new("aws_vpc", "main", "cidr_block", jstr("10.0.0.0/16"));
    assert!(assertion.check(&ctx).is_ok());
}

#[test]
fn attribute_equals_fails_with_diff_pointer() {
    let arch = tiny_vpc();
    let ctx = AssertContext::new(&arch, tiny_vpc_json());
    let assertion = AttributeEquals::new("aws_vpc", "main", "cidr_block", jstr("10.99.0.0/16"));
    let err = assertion.check(&ctx).unwrap_err();
    assert!(err.pointer.unwrap().ends_with("/cidr_block"));
}

#[test]
fn resource_count_matches_exact_n() {
    let arch = tiny_vpc();
    let ctx = AssertContext::new(&arch, tiny_vpc_json());
    assert!(ResourceCount::new("aws_vpc", 1).check(&ctx).is_ok());
    assert!(ResourceCount::new("aws_subnet", 0).check(&ctx).is_ok());
    assert!(ResourceCount::new("aws_vpc", 2).check(&ctx).is_err());
}

#[test]
fn output_equals_walks_terraform_output_block() {
    let arch = tiny_vpc();
    let ctx = AssertContext::new(&arch, tiny_vpc_json());
    let assertion = OutputEquals::new("vpc-id", jstr("known-id"));
    assert!(assertion.check(&ctx).is_ok());
}

#[test]
fn ref_valid_passes_when_every_ref_resolves() {
    let arch = tiny_vpc();
    let ctx = AssertContext::new(&arch, tiny_vpc_json());
    assert!(RefValid.check(&ctx).is_ok());
}

#[test]
fn ref_valid_fails_when_a_ref_dangles() {
    let mut arch = tiny_vpc();
    // A dangling reference to aws_subnet.does_not_exist.
    arch.resources.push(Resource {
        type_id: s("aws_nat_gateway"),
        name: s("main"),
        attributes: vec![(
            s("subnet_id"),
            Value::Ref(ResourceRef {
                type_id: s("aws_subnet"),
                name: s("does_not_exist"),
                attribute: s("id"),
            }),
        )],
    });
    let ctx = AssertContext::new(&arch, tiny_vpc_json());
    let err = RefValid.check(&ctx).unwrap_err();
    assert!(err.message.contains("aws_subnet.does_not_exist"));
}

#[test]
fn property_holds_runs_closure_against_terraform_json() {
    let arch = tiny_vpc();
    let ctx = AssertContext::new(&arch, tiny_vpc_json());
    let ok = PropertyHolds::new("vpc-cidr-present", |json: &Json| {
        if matches!(json.pointer("/resource/aws_vpc/main/cidr_block"), Some(Json::String(_))) {
            Ok(())
        } else {
            Err("cidr_block missing".to_string())
        }
    });
    assert!(ok.check(&ctx).is_ok());
}

#[test]
fn property_holds_fails_with_typed_label_on_predicate_error() {
    let arch = tiny_vpc();
    let ctx = AssertContext::new(&arch, tiny_vpc_json());
    let nope = PropertyHolds::new("expects-fail", |_: &Json| Err("nope".to_string()));
    let err = nope.check(&ctx).unwrap_err();
    assert!(err.message.contains("expects-fail"));
    assert!(err.message.contains("nope"));
}

#[test]
fn property_holds_describe_carries_label() {
    let p = PropertyHolds::new("my-label", |_: &Json| Ok(()));
    assert!(p.describe().contains("my-label"));
}

/// One test case composing several typed assertions through the runner.
#[test]
fn run_case_aggregates_pass_and_fail_counts() {
    let arch = tiny_vpc();
    let ctx = AssertContext::new(&arch, tiny_vpc_json());
    let case = TestCase {
        name: "vpc smoke".to_string(),
        architecture: Some("net".to_string()),
        bindings: IndexMap::new(),
        assertions: vec![
            BuiltinAssertion::ResourceExists(ResourceExists::new("aws_vpc", "main")),
            BuiltinAssertion::ResourceExists(ResourceExists::new("aws_subnet", "missing")),
            BuiltinAssertion::AttributeEquals(AttributeEquals::new(
                "aws_vpc",
                "main",
                "cidr_block",
                jstr("10.0.0.0/16"),
            )),
        ],
    };
    let outcome = run_case_against(&case, &ctx);
    assert_eq!(outcome.passed, 2);
    assert_eq!(outcome.failures.len(), 1);
    assert!(!outcome.ok());
}
