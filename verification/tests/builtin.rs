use lava_test::{
    AssertContext, Assertion, AttributeEquals, BuiltinAssertion, Json, MinResourcesOfKind, NoResource,
    OutputEquals, PropertyHolds, RefTargets, RefValid, RegexMatches, Resource, ResourceCount, ResourceExists, ResourceRef,
    TagEquals, Architecture, Value,
};

fn s(t: &str) -> String {
    t.to_string()
}

fn obj(members: Vec<(&str, Json)>) -> Json {
    Json::Object(members.into_iter().map(|(k, v)| (k.to_string(), v)).collect())
}

fn jstr(t: &str) -> Json {
    Json::String(t.to_string())
}

fn num(t: &str) -> Json {
    Json::Number(t.to_string())
}

fn reference(t: &str, n: &str) -> Value {
    Value::Ref(ResourceRef { type_id: s(t), name: s(n), attribute: s("id") })
}

/// Two subnets, a tagged VPC and a NAT gateway wired to one subnet.
fn fleet() -> Architecture {
    let mut arch = Architecture::new("fleet");
    arch.resources.push(Resource {
        type_id: s("aws_vpc"),
        name: s("main"),
        attributes: vec![(s("cidr_block"), Value::s("10.0.0.0/16"))],
    });
    arch.resources.push(Resource {
        type_id: s("aws_subnet"),
        name: s("a"),
        attributes: vec![(s("vpc_id"), reference("aws_vpc", "main"))],
    });
    arch.resources.push(Resource {
        type_id: s("aws_subnet"),
        name: s("b"),
        attributes: vec![(s("vpc_id"), reference("aws_vpc", "main"))],
    });
    arch.resources.push(Resource {
        type_id: s("aws_nat_gateway"),
        name: s("main"),
        attributes: vec![
            (s("subnet_id"), reference("aws_subnet", "a")),
            (s("connectivity_type"), Value::s("public")),
        ],
    });
    arch
}

fn fleet_json() -> Json {
    obj(vec![
        (
            "resource",
            obj(vec![
                (
                    "aws_vpc",
                    obj(vec![(
                        "main",
                        obj(vec![
                            ("cidr_block", jstr("10.0.0.0/16")),
                            ("tags", obj(vec![("Service", jstr("edge")), ("Tier", num("2"))])),
                            ("ports", Json::Array(vec![num("80"), num("443")])),
                        ]),
                    )]),
                ),
                (
                    "aws_subnet",
                    obj(vec![
                        ("a", obj(vec![("vpc_id", jstr("${aws_vpc.main.id}"))])),
                        ("b", obj(vec![("vpc_id", jstr("${aws_vpc.main.id}"))])),
                    ]),
                ),
                ("aws_eip", jstr("not-an-object")),
            ]),
        ),
        ("output", obj(vec![("vpc-id", obj(vec![("value", jstr("known-id"))]))])),
    ])
}

fn failure_of<A: Assertion>(a: &A) -> (String, Option<String>) {
    let arch = fleet();
    let ctx = AssertContext::new(&arch, fleet_json());
    let f = a.check(&ctx).unwrap_err();
    assert_eq!(f.assertion, "");
    (f.message, f.pointer)
}

fn holds<A: Assertion>(a: &A) -> bool {
    let arch = fleet();
    let ctx = AssertContext::new(&arch, fleet_json());
    a.check(&ctx).is_ok()
}

#[test]
fn resource_exists_reports_message_and_pointer() {
    let (m, p) = failure_of(&ResourceExists::new("aws_subnet", "c"));
    assert_eq!(m, "resource `aws_subnet.c` not present");
    assert_eq!(p.as_deref(), Some("/resource/aws_subnet/c"));
    assert!(holds(&ResourceExists::new("aws_subnet", "b")));
}

#[test]
fn no_resource_reports_message_and_pointer() {
    let (m, p) = failure_of(&NoResource::new("aws_subnet", "a"));
    assert_eq!(m, "resource `aws_subnet.a` is present (expected absence)");
    assert_eq!(p.as_deref(), Some("/resource/aws_subnet/a"));
}

#[test]
fn attribute_equals_reports_missing_attribute() {
    let (m, p) = failure_of(&AttributeEquals::new("aws_vpc", "main", "enable_dns", Json::Bool(true)));
    assert_eq!(m, "attribute `enable_dns` not present on `aws_vpc.main`");
    assert_eq!(p.as_deref(), Some("/resource/aws_vpc/main/enable_dns"));
}

#[test]
fn attribute_equals_reports_both_values_as_json() {
    let (m, p) = failure_of(&AttributeEquals::new("aws_vpc", "main", "cidr_block", jstr("10.99.0.0/16")));
    assert_eq!(m, r#"expected "10.99.0.0/16" on `aws_vpc.main.cidr_block`, got "10.0.0.0/16""#);
    assert_eq!(p.as_deref(), Some("/resource/aws_vpc/main/cidr_block"));
    let (m, _) = failure_of(&AttributeEquals::new("aws_vpc", "main", "ports", Json::Array(vec![num("80")])));
    assert_eq!(m, "expected [80] on `aws_vpc.main.ports`, got [80,443]");
}

#[test]
fn attribute_equals_compares_structure() {
    let ports = Json::Array(vec![num("80"), num("443")]);
    assert!(holds(&AttributeEquals::new("aws_vpc", "main", "ports", ports)));
    let tags = obj(vec![("Tier", num("2")), ("Service", jstr("edge"))]);
    assert!(holds(&AttributeEquals::new("aws_vpc", "main", "tags", tags)));
}

#[test]
fn resource_count_reports_expected_and_actual() {
    let (m, p) = failure_of(&ResourceCount::new("aws_subnet", 3));
    assert_eq!(m, "expected 3 resources of type `aws_subnet`, got 2");
    assert_eq!(p.as_deref(), Some("/resource/aws_subnet"));
    assert!(holds(&ResourceCount::new("aws_subnet", 2)));
}

#[test]
fn resource_count_counts_zero_for_absent_or_non_object_kinds() {
    assert!(holds(&ResourceCount::new("aws_lb", 0)));
    assert!(holds(&ResourceCount::new("aws_eip", 0)));
    let (m, _) = failure_of(&ResourceCount::new("aws_eip", 1));
    assert_eq!(m, "expected 1 resources of type `aws_eip`, got 0");
}

#[test]
fn output_equals_reports_missing_and_mismatched_outputs() {
    let (m, p) = failure_of(&OutputEquals::new("subnet-ids", jstr("x")));
    assert_eq!(m, "output `subnet-ids` not present");
    assert_eq!(p.as_deref(), Some("/output/subnet-ids/value"));
    let (m, p) = failure_of(&OutputEquals::new("vpc-id", num("7")));
    assert_eq!(m, r#"expected output `vpc-id` = 7, got "known-id""#);
    assert_eq!(p.as_deref(), Some("/output/vpc-id/value"));
}

#[test]
fn tag_equals_passes_on_matching_string_tag() {
    assert!(holds(&TagEquals::new("aws_vpc", "main", "Service", "edge")));
}

#[test]
fn tag_equals_reports_mismatch() {
    let (m, p) = failure_of(&TagEquals::new("aws_vpc", "main", "Service", "core"));
    assert_eq!(m, "tag `Service=core` on `aws_vpc.main` mismatched: got edge");
    assert_eq!(p.as_deref(), Some("/resource/aws_vpc/main/tags/Service"));
}

#[test]
fn tag_equals_treats_non_string_tags_as_unset() {
    let (m, p) = failure_of(&TagEquals::new("aws_vpc", "main", "Tier", "2"));
    assert_eq!(m, "tag `Tier` not set on `aws_vpc.main`");
    assert_eq!(p.as_deref(), Some("/resource/aws_vpc/main/tags/Tier"));
    let (m, _) = failure_of(&TagEquals::new("aws_vpc", "main", "Owner", "me"));
    assert_eq!(m, "tag `Owner` not set on `aws_vpc.main`");
}

#[test]
fn min_resources_of_kind_is_a_lower_bound() {
    assert!(holds(&MinResourcesOfKind::new("aws_subnet", 0)));
    assert!(holds(&MinResourcesOfKind::new("aws_subnet", 1)));
    assert!(holds(&MinResourcesOfKind::new("aws_subnet", 2)));
    let (m, p) = failure_of(&MinResourcesOfKind::new("aws_subnet", 3));
    assert_eq!(m, "expected ≥3 resources of `aws_subnet`, got 2");
    assert_eq!(p.as_deref(), Some("/resource/aws_subnet"));
}

#[test]
fn ref_targets_passes_when_the_attribute_references_the_target() {
    assert!(holds(&RefTargets::new("aws_nat_gateway", "main", "subnet_id", "aws_subnet", "a")));
}

#[test]
fn ref_targets_reads_dashed_attribute_names_as_underscored() {
    assert!(holds(&RefTargets::new("aws_nat_gateway", "main", "subnet-id", "aws_subnet", "a")));
}

#[test]
fn ref_targets_reports_the_wrong_target() {
    let (m, p) = failure_of(&RefTargets::new("aws_nat_gateway", "main", "subnet_id", "aws_subnet", "b"));
    assert_eq!(m, "`aws_nat_gateway.main.subnet_id` does not reference `aws_subnet.b`");
    assert_eq!(p, None);
    let (m, _) = failure_of(&RefTargets::new("aws_nat_gateway", "main", "connectivity_type", "aws_subnet", "a"));
    assert_eq!(m, "`aws_nat_gateway.main.connectivity_type` does not reference `aws_subnet.a`");
}

#[test]
fn ref_targets_reports_missing_source_and_attribute() {
    let (m, p) = failure_of(&RefTargets::new("aws_nat_gateway", "backup", "subnet_id", "aws_subnet", "a"));
    assert_eq!(m, "source resource `aws_nat_gateway.backup` not present");
    assert_eq!(p.as_deref(), Some("/resource/aws_nat_gateway/backup"));
    let (m, p) = failure_of(&RefTargets::new("aws_nat_gateway", "main", "allocation-id", "aws_eip", "a"));
    assert_eq!(m, "source attribute `aws_nat_gateway.main.allocation-id` not set");
    assert_eq!(p, None);
}

#[test]
fn ref_valid_reports_the_first_dangling_reference() {
    let mut arch = fleet();
    arch.resources[3].attributes.push((s("allocation_id"), reference("aws_eip", "nat")));
    arch.resources[1].attributes.push((s("route_table_id"), reference("aws_route_table", "private")));
    let ctx = AssertContext::new(&arch, fleet_json());
    let f = RefValid.check(&ctx).unwrap_err();
    assert_eq!(f.message, "`aws_subnet.a.route_table_id` references `aws_route_table.private` which is not declared");
    assert_eq!(f.pointer.as_deref(), Some("/resource/aws_subnet/a/route_table_id"));
}

#[test]
fn ref_valid_passes_on_an_architecture_without_references() {
    let arch = Architecture::new("empty");
    let ctx = AssertContext::new(&arch, obj(vec![]));
    assert!(RefValid.check(&ctx).is_ok());
}

#[test]
fn property_holds_message_carries_label_and_complaint() {
    let p = PropertyHolds::new("two-subnets", |_: &Json| Err("found three".to_string()));
    let (m, ptr) = failure_of(&p);
    assert_eq!(m, "`two-subnets` did not hold: found three");
    assert_eq!(ptr, None);
}

#[test]
fn descriptions_name_kind_and_target() {
    assert_eq!(ResourceExists::new("aws_vpc", "main").describe(), "resource-exists aws_vpc.main");
    assert_eq!(NoResource::new("aws_vpc", "main").describe(), "no-resource aws_vpc.main");
    assert_eq!(
        AttributeEquals::new("aws_vpc", "main", "cidr_block", Json::Null).describe(),
        "attribute-equals aws_vpc.main.cidr_block"
    );
    assert_eq!(ResourceCount::new("aws_subnet", 12).describe(), "resource-count aws_subnet 12");
    assert_eq!(OutputEquals::new("vpc-id", Json::Null).describe(), "output-equals vpc-id");
    assert_eq!(RefValid.describe(), "ref-valid");
    assert_eq!(TagEquals::new("aws_vpc", "main", "Service", "edge").describe(), "tag-equals aws_vpc.main:Service");
    assert_eq!(MinResourcesOfKind::new("aws_subnet", 0).describe(), "min-resources-of-kind aws_subnet 0");
    assert_eq!(
        RefTargets::new("aws_nat_gateway", "main", "subnet_id", "aws_subnet", "a").describe(),
        "ref-targets aws_nat_gateway.main.subnet_id → aws_subnet.a"
    );
    assert_eq!(PropertyHolds::new("p", |_: &Json| Ok(())).describe(), "property p");
}

#[test]
fn builtin_wrapper_checks_and_describes_as_its_variant() {
    let a = BuiltinAssertion::ResourceCount(ResourceCount::new("aws_subnet", 3));
    assert_eq!(a.describe(), "resource-count aws_subnet 3");
    let (m, _) = failure_of(&a);
    assert_eq!(m, "expected 3 resources of type `aws_subnet`, got 2");
    assert!(holds(&BuiltinAssertion::RefValid(RefValid)));
}

#[test]
fn exists_and_absent_disagree_on_every_resource() {
    for (t, n) in [("aws_vpc", "main"), ("aws_subnet", "a"), ("aws_subnet", "zz"), ("aws_lb", "x")] {
        assert_ne!(holds(&ResourceExists::new(t, n)), holds(&NoResource::new(t, n)));
    }
}

#[test]
fn exact_count_implies_every_lower_bound_up_to_it() {
    for n in 0..5usize {
        if holds(&ResourceCount::new("aws_subnet", n)) {
            for m in 0..=n {
                assert!(holds(&MinResourcesOfKind::new("aws_subnet", m)));
            }
        }
    }
}

#[test]
fn clones_and_equality() {
    let a = ResourceExists::new("aws_vpc", "main");
    assert_eq!(a.clone(), a);
    assert_ne!(a, ResourceExists::new("aws_vpc", "other"));
    assert_eq!(NoResource::new("t", "n"), NoResource::new("t", "n"));
    assert_ne!(ResourceCount::new("t", 1), ResourceCount::new("t", 2));
    assert_eq!(MinResourcesOfKind::new("t", 1).clone(), MinResourcesOfKind::new("t", 1));
    let c = AttributeEquals::new("t", "n", "a", jstr("v")).clone();
    assert_eq!(c.describe(), "attribute-equals t.n.a");
    assert!(c.expected.equals(&jstr("v")));
}

#[test]
fn equality_checks_accept_the_value_found_at_their_pointer() {
    let doc = fleet_json();
    for attr in ["cidr_block", "tags", "ports"] {
        let found = doc.pointer(&format!("/resource/aws_vpc/main/{attr}")).unwrap().clone();
        assert!(holds(&AttributeEquals::new("aws_vpc", "main", attr, found)));
    }
    let found = doc.pointer("/output/vpc-id/value").unwrap().clone();
    assert!(holds(&OutputEquals::new("vpc-id", found)));
}

#[test]
fn ref_valid_holds_exactly_when_every_reference_is_declared() {
    let arch = fleet();
    let ctx = AssertContext::new(&arch, fleet_json());
    assert!(RefValid.check(&ctx).is_ok());
    let mut broken = fleet();
    broken.resources.remove(0);
    let ctx = AssertContext::new(&broken, fleet_json());
    let f = RefValid.check(&ctx).unwrap_err();
    assert_eq!(f.message, "`aws_subnet.a.vpc_id` references `aws_vpc.main` which is not declared");
}

#[test]
fn regex_matches_reports_that_the_pattern_was_not_evaluated() {
    let (m, p) = failure_of(&RegexMatches::new("aws_vpc", "main", "cidr_block", "^10\\."));
    assert_eq!(m, "pattern `^10\\.` on `aws_vpc.main.cidr_block` was not evaluated: no pattern engine");
    assert_eq!(p.as_deref(), Some("/resource/aws_vpc/main/cidr_block"));
    let r = RegexMatches::new("t", "n", "a", "x").clone();
    assert_eq!(r.pattern, "x");
}

#[test]
fn attribute_equals_compares_numbers_by_value() {
    assert!(!holds(&AttributeEquals::new("aws_vpc", "main", "ports", Json::Array(vec![num("8e1"), num("443")]))));
    assert!(holds(&AttributeEquals::new("aws_vpc", "main", "ports", Json::Array(vec![num("80.0e0"), num("443")]))) == false);
    assert!(holds(&AttributeEquals::new("aws_vpc", "main", "ports", Json::Array(vec![num("80"), num("443")]))));
    let (m, _) = failure_of(&AttributeEquals::new("aws_vpc", "main", "ports", Json::Array(vec![num("8e1"), num("443")])));
    assert_eq!(m, "expected [80.0,443] on `aws_vpc.main.ports`, got [80,443]");
}
