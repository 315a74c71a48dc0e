//! Typed test framework for lava architectures: assertions over a rendered
//! terraform document, a runner that tallies them, and readers for the
//! `(deflava-test …)` and `(deflava-spec …)` source forms.
//!
//! ```text
//! TestSuite { cases: Vec<TestCase> }
//!   TestCase { name, architecture?, bindings, assertions }
//!     Assertion (trait): check(&AssertContext) -> Result<(), AssertionFailure>
//!       AssertContext { architecture, terraform_json }
//!
//! run_case_against(&case, &ctx) → CaseOutcome { name, passed, failures }
//! TestReport.ok() == every CaseOutcome.ok()
//! ```

pub mod text;
pub mod json;
pub mod sexpr;
pub mod report;
pub mod bindings;
pub mod model;
pub mod runner;
pub mod assertions;
pub mod parser;
pub mod scenario;

pub use assertions::{
    AttributeEquals, BuiltinAssertion, MinResourcesOfKind, NoResource, OutputEquals, PropertyHolds,
    RefTargets, RefValid, RegexMatches, ResourceCount, ResourceExists, TagEquals,
};
pub use json::Json;
pub use model::{Architecture, Resource, ResourceRef, Value};
pub use parser::{test_from_form, tests_in_source, TestParseError};
pub use report::{AssertionFailure, CaseOutcome, TestReport};
pub use runner::{run_case_against, AssertContext, Assertion, TestCase, TestSuite};
pub use scenario::{scenario_name_to_slug, scenarios_in_source};
pub use sexpr::{parse_all, Atom, ReadError, Sx};
