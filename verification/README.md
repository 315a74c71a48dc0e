# lava_test

A typed test framework for lava architectures, verified with Verus.

A test case names an architecture, carries name bindings, and lists
assertions; the runner checks every assertion against the architecture and
its rendered terraform document and tallies the outcome. Cases are written
by hand, or read from `(deflava-test …)` and `(deflava-spec …)` source forms.

## Layout

- `src/` — the verified library
  - `text.rs`: character-level helpers (decimal text, `-` to `_`)
  - `json.rs`: the JSON document model, JSON-pointer lookup and equality;
    compact text comes from `serde_json`
  - `sexpr.rs`: the s-expression reader, specified as a left fold over the
    characters of the source
  - `model.rs`: resources, attribute values and references
  - `report.rs`: failure records, case outcomes and suite reports
  - `bindings.rs`: the insertion-ordered binding map of a test case
  - `runner.rs`: the `Assertion` trait, test cases and the runner
  - `assertions.rs`: the built-in assertions
  - `parser.rs`: `(deflava-test …)` forms
  - `scenario.rs`: `(deflava-spec …)` forms and scenario-name slugs
- `tests/` — tests run against the compiled library
- `app/` — conversions to and from `serde_json` values, and serialisable,
  displayable copies of the failure and error types

A test case is generic over its assertion type, `TestCase<A>`, and the
runner takes any `A: Assertion`;
the parsers build cases of `BuiltinAssertion`. A suite that mixes the
built-in assertions with checks of its own declares an enum over both and
implements `Assertion` for it.

`regex-matches` forms are read and kept, but the library has no pattern
engine: such a check always fails, saying the pattern was not evaluated.

Every public function states its result in its `ensures` clause; the
`law_*` proof functions state the properties that span several functions.
