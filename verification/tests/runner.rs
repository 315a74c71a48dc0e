use indexmap::IndexMap;
use lava_test::{
    run_case_against, AssertContext, AssertionFailure, BuiltinAssertion, CaseOutcome, Json, NoResource,
    ResourceCount, ResourceExists, TestCase, TestReport, TestSuite, Architecture,
};

fn doc() -> Json {
    Json::Object(vec![(
        "resource".to_string(),
        Json::Object(vec![(
            "aws_vpc".to_string(),
            Json::Object(vec![("main".to_string(), Json::Object(vec![]))]),
        )]),
    )])
}

fn case(name: &str, assertions: Vec<BuiltinAssertion>) -> TestCase<BuiltinAssertion> {
    TestCase { name: name.to_string(), architecture: None, bindings: IndexMap::new(), assertions }
}

fn outcome(name: &str, passed: usize, failures: usize) -> CaseOutcome {
    CaseOutcome {
        name: name.to_string(),
        passed,
        failures: (0..failures).map(|i| AssertionFailure::new(&format!("f{i}"))).collect(),
    }
}

#[test]
fn runner_labels_each_failure_with_its_assertion_in_order() {
    let arch = Architecture::new("net");
    let ctx = AssertContext::new(&arch, doc());
    let c = case(
        "mixed",
        vec![
            BuiltinAssertion::NoResource(NoResource::new("aws_vpc", "main")),
            BuiltinAssertion::ResourceExists(ResourceExists::new("aws_vpc", "main")),
            BuiltinAssertion::ResourceCount(ResourceCount::new("aws_subnet", 1)),
        ],
    );
    let o = run_case_against(&c, &ctx);
    assert_eq!(o.name, "mixed");
    assert_eq!(o.passed, 1);
    assert_eq!(o.failures.len(), 2);
    assert_eq!(o.failures[0].assertion, "no-resource aws_vpc.main");
    assert_eq!(o.failures[0].message, "resource `aws_vpc.main` is present (expected absence)");
    assert_eq!(o.failures[0].pointer.as_deref(), Some("/resource/aws_vpc/main"));
    assert_eq!(o.failures[1].assertion, "resource-count aws_subnet 1");
    assert_eq!(o.failures[1].message, "expected 1 resources of type `aws_subnet`, got 0");
}

#[test]
fn a_case_without_assertions_passes_vacuously() {
    let arch = Architecture::new("net");
    let ctx = AssertContext::new(&arch, doc());
    let o = run_case_against(&case("empty", vec![]), &ctx);
    assert_eq!(o.passed, 0);
    assert!(o.failures.is_empty());
    assert!(o.ok());
}

#[test]
fn every_assertion_is_counted_once() {
    let arch = Architecture::new("net");
    let ctx = AssertContext::new(&arch, doc());
    let c = case(
        "count",
        vec![
            BuiltinAssertion::ResourceExists(ResourceExists::new("aws_vpc", "main")),
            BuiltinAssertion::ResourceExists(ResourceExists::new("aws_vpc", "other")),
            BuiltinAssertion::ResourceCount(ResourceCount::new("aws_vpc", 1)),
            BuiltinAssertion::NoResource(NoResource::new("aws_vpc", "other")),
        ],
    );
    let o = run_case_against(&c, &ctx);
    assert_eq!(o.passed + o.failures.len(), c.assertions.len());
    assert_eq!(o.passed, 3);
}

#[test]
fn report_counts_cases_and_assertions() {
    let r = TestReport {
        cases: vec![outcome("a", 3, 0), outcome("b", 1, 2), outcome("c", 0, 0), outcome("d", 0, 1)],
    };
    assert_eq!(r.passed(), 2);
    assert_eq!(r.failed(), 2);
    assert_eq!(r.passed() + r.failed(), r.cases.len());
    assert_eq!(r.total_assertions(), 7);
    assert!(!r.ok());
}

#[test]
fn report_is_ok_exactly_when_no_case_failed() {
    let good = TestReport { cases: vec![outcome("a", 2, 0), outcome("b", 0, 0)] };
    assert!(good.ok());
    assert_eq!(good.failed(), 0);
    let empty = TestReport::default();
    assert!(empty.ok());
    assert_eq!(empty.passed(), 0);
    assert_eq!(empty.total_assertions(), 0);
}

#[test]
fn report_clone_keeps_every_outcome() {
    let r = TestReport { cases: vec![outcome("a", 3, 1)] };
    let c = r.clone();
    assert_eq!(c.cases.len(), 1);
    assert_eq!(c.cases[0].name, "a");
    assert_eq!(c.cases[0].passed, 3);
    assert_eq!(c.cases[0].failures[0].message, "f0");
}

#[test]
fn failure_builders_set_message_and_pointer() {
    let f = AssertionFailure::new("boom");
    assert_eq!(f.assertion, "");
    assert_eq!(f.message, "boom");
    assert_eq!(f.pointer, None);
    let g = f.at("/resource/x");
    assert_eq!(g.message, "boom");
    assert_eq!(g.pointer.as_deref(), Some("/resource/x"));
    let h = AssertionFailure::render("render: bad");
    assert_eq!(h.message, "render: bad");
    assert_eq!(h.pointer, None);
}

#[test]
fn suite_collects_cases_in_order() {
    let mut suite: TestSuite<BuiltinAssertion> = TestSuite::new();
    assert!(suite.cases.is_empty());
    suite.case(case("first", vec![]));
    suite.case(case("second", vec![]));
    assert_eq!(suite.cases.len(), 2);
    assert_eq!(suite.cases[0].name, "first");
    assert_eq!(suite.cases[1].name, "second");
    let d: TestSuite<BuiltinAssertion> = TestSuite::default();
    assert!(d.cases.is_empty());
}

#[test]
fn from_architecture_takes_the_rendered_document_or_reports_the_render_error() {
    let arch = Architecture::new("net");
    let ctx = AssertContext::from_architecture(&arch, Ok(doc())).unwrap();
    assert!(ctx.terraform_json.equals(&doc()));
    assert_eq!(ctx.architecture.name, "net");
    let f = AssertContext::from_architecture(&arch, Err("unknown provider".to_string())).err().unwrap();
    assert_eq!(f.message, "render: unknown provider");
    assert_eq!(f.assertion, "");
    assert_eq!(f.pointer, None);
}
