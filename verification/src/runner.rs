//! The assertion interface, test cases, and the runner that checks a case's
//! assertions against a rendered architecture.

use vstd::prelude::*;
use crate::json::Json;
use crate::model::Architecture;
use crate::report::{AssertionFailure, FailureView, CaseOutcome, outcome_view, failure};
use indexmap::IndexMap;

verus! {

/// What every assertion sees: the architecture and its rendered terraform
/// document.
pub struct AssertContext<'a> {
    pub architecture: &'a Architecture,
    pub terraform_json: Json,
}

impl<'a> AssertContext<'a> {
    /// A context over an architecture and the document it renders to.
    pub fn new(architecture: &'a Architecture, terraform_json: Json) -> (r: AssertContext<'a>)
        ensures
            *r.architecture == *architecture,
            r.terraform_json == terraform_json,
    {
        AssertContext { architecture, terraform_json }
    }

    /// A context over an architecture, given what rendering it to a
    /// terraform document gave: the document, or the renderer's error text
    /// `e`, which becomes the failure `render: e`.
    pub fn from_architecture(architecture: &'a Architecture, rendered: Result<Json, String>) -> (r: Result<
        AssertContext<'a>,
        AssertionFailure,
    >)
        ensures
            match rendered {
                Ok(doc) => r matches Ok(ctx) && *ctx.architecture == *architecture && ctx.terraform_json == doc,
                Err(e) => r matches Err(f) && f@ == failure("render: "@ + e@),
            },
    {
        match rendered {
            Ok(doc) => Ok(AssertContext { architecture, terraform_json: doc }),
            Err(e) => {
                let mut m = String::from_str("render: ");
                m.append(e.as_str());
                Err(AssertionFailure::render(m.as_str()))
            },
        }
    }
}

/// A typed check. `admits` says on which architecture and document the
/// check can run (the built-in assertions run on every one); `allows` says
/// which results a check may report there; `description` is the short,
/// stable text shown in reports.
pub trait Assertion {
    spec fn admits(&self, arch: Architecture, doc: Json) -> bool;

    spec fn allows(&self, arch: Architecture, doc: Json, r: Result<(), FailureView>) -> bool;

    spec fn description(&self) -> Seq<char>;

    /// Runs the check: `Ok(())` when it holds, a failure otherwise.
    fn check(&self, ctx: &AssertContext<'_>) -> (r: Result<(), AssertionFailure>)
        requires
            self.admits(*ctx.architecture, ctx.terraform_json),
        ensures
            self.allows(*ctx.architecture, ctx.terraform_json, outcome_view(r)),
    ;

    /// The assertion's description.
    fn describe(&self) -> (s: String)
        ensures
            s@ == self.description(),
    ;
}


/// One named test case: an optional target architecture, name bindings,
/// and the assertions to check.
#[derive(Debug)]
pub struct TestCase<A> {
    pub name: String,
    pub architecture: Option<String>,
    pub bindings: IndexMap<String, String>,
    pub assertions: Vec<A>,
}

/// Cases driven through one runner pass.
#[derive(Debug)]
pub struct TestSuite<A> {
    pub cases: Vec<TestCase<A>>,
}

impl<A> Default for TestSuite<A> {
    /// A suite with no cases.
    fn default() -> (r: TestSuite<A>)
        ensures
            r.cases@.len() == 0,
    {
        TestSuite { cases: Vec::new() }
    }
}

impl<A> TestSuite<A> {
    /// A suite with no cases.
    pub fn new() -> (r: TestSuite<A>)
        ensures
            r.cases@.len() == 0,
    {
        TestSuite { cases: Vec::new() }
    }

    /// Adds a case at the end.
    pub fn case(&mut self, c: TestCase<A>)
        ensures
            final(self).cases@ == old(self).cases@.push(c),
    {
        self.cases.push(c);
    }
}

/// How many of the results are `Ok`.
pub open spec fn passed_count(rs: Seq<Result<(), FailureView>>) -> nat
    decreases rs.len(),
{
    if rs.len() == 0 {
        0
    } else {
        passed_count(rs.drop_last()) + if rs.last() is Ok { 1nat } else { 0nat }
    }
}

/// The failures among the results, in order, each carrying the description
/// of the assertion that produced it.
pub open spec fn failure_list(rs: Seq<Result<(), FailureView>>, descs: Seq<Seq<char>>) -> Seq<FailureView>
    decreases rs.len(),
{
    if rs.len() == 0 {
        Seq::<FailureView>::empty()
    } else {
        let prev = failure_list(rs.drop_last(), descs.take(rs.len() - 1));
        match rs.last() {
            Ok(()) => prev,
            Err(f) => prev.push(FailureView { assertion: descs[rs.len() - 1], ..f }),
        }
    }
}

/// The descriptions of a case's assertions.
pub open spec fn descriptions<A: Assertion>(xs: Seq<A>) -> Seq<Seq<char>> {
    Seq::new(xs.len(), |i: int| xs[i].description())
}

/// The outcome of a case whose assertions gave the results `rs`.
pub open spec fn tally(o: CaseOutcome, name: Seq<char>, rs: Seq<Result<(), FailureView>>, descs: Seq<Seq<char>>) -> bool {
    &&& o.name@ == name
    &&& o.passed == passed_count(rs)
    &&& o.failures@.map_values(|f: AssertionFailure| f@) == failure_list(rs, descs)
}

proof fn lemma_passed_count_bound(rs: Seq<Result<(), FailureView>>)
    ensures
        passed_count(rs) <= rs.len(),
    decreases rs.len(),
{
    if rs.len() > 0 {
        lemma_passed_count_bound(rs.drop_last());
    }
}

/// Every assertion of a case is counted once: the passed ones and the
/// failures together are all of them.
pub proof fn law_every_assertion_tallied(rs: Seq<Result<(), FailureView>>, descs: Seq<Seq<char>>)
    ensures
        passed_count(rs) + failure_list(rs, descs).len() == rs.len(),
    decreases rs.len(),
{
    if rs.len() > 0 {
        law_every_assertion_tallied(rs.drop_last(), descs.take(rs.len() - 1));
    }
}

/// A case has no failure exactly when every one of its assertions held.
pub proof fn law_no_failure_iff_all_held(rs: Seq<Result<(), FailureView>>, descs: Seq<Seq<char>>)
    ensures
        failure_list(rs, descs).len() == 0 <==> forall|i: int| 0 <= i < rs.len() ==> (#[trigger] rs[i]) is Ok,
    decreases rs.len(),
{
    if rs.len() > 0 {
        let p = rs.drop_last();
        law_no_failure_iff_all_held(p, descs.take(rs.len() - 1));
        law_every_assertion_tallied(p, descs.take(rs.len() - 1));
        assert forall|i: int| 0 <= i < p.len() implies p[i] == rs[i] by {}
        if forall|i: int| 0 <= i < rs.len() ==> (#[trigger] rs[i]) is Ok {
            assert(rs[rs.len() - 1] is Ok);
            assert forall|i: int| 0 <= i < p.len() implies (#[trigger] p[i]) is Ok by {
                assert(p[i] == rs[i]);
            }
        }
        if failure_list(rs, descs).len() == 0 {
            assert forall|i: int| 0 <= i < rs.len() implies (#[trigger] rs[i]) is Ok by {
                if i < rs.len() - 1 {
                    assert(p[i] == rs[i]);
                }
            }
        }
    }
}

/// The failure that the `i`-th result reports stands, in order among the
/// failures, after those of the results before it, and carries the
/// description of the `i`-th assertion.
pub proof fn law_failure_carries_description(rs: Seq<Result<(), FailureView>>, descs: Seq<Seq<char>>, i: int)
    requires
        0 <= i < rs.len(),
        descs.len() == rs.len(),
        rs[i] is Err,
    ensures
        ({
            let k = i - passed_count(rs.take(i));
            let f = rs[i]->Err_0;
            &&& 0 <= k < failure_list(rs, descs).len()
            &&& failure_list(rs, descs)[k] == (FailureView { assertion: descs[i], ..f })
        }),
    decreases rs.len(),
{
    let p = rs.drop_last();
    let pd = descs.take(rs.len() - 1);
    law_every_assertion_tallied(p, pd);
    if i < rs.len() - 1 {
        assert(p.take(i) =~= rs.take(i));
        assert(p[i] == rs[i]);
        assert(pd[i] == descs[i]);
        law_failure_carries_description(p, pd, i);
    } else {
        assert(rs.take(i) =~= p);
    }
}

/// Checks every assertion of `case` in order against `ctx`; counts those
/// that hold and collects the failures of the others, each labelled with
/// the failing assertion's description.
pub fn run_case_against<A: Assertion>(case: &TestCase<A>, ctx: &AssertContext<'_>) -> (o: CaseOutcome)
    requires
        forall|i: int| 0 <= i < case.assertions@.len() ==> (#[trigger] case.assertions@[i]).admits(*ctx.architecture, ctx.terraform_json),
    ensures
        exists|rs: Seq<Result<(), FailureView>>| {
            &&& rs.len() == case.assertions@.len()
            &&& forall|i: int| 0 <= i < rs.len() ==> (#[trigger] case.assertions@[i]).allows(*ctx.architecture, ctx.terraform_json, rs[i])
            &&& tally(o, case.name@, rs, descriptions(case.assertions@))
        },
        o.name@ == case.name@,
        o.passed + o.failures@.len() == case.assertions@.len(),
{
    let ghost descs = descriptions(case.assertions@);
    let ghost mut rs: Seq<Result<(), FailureView>> = Seq::empty();
    let mut passed: usize = 0;
    let mut failures: Vec<AssertionFailure> = Vec::new();
    assert(failures@.map_values(|f: AssertionFailure| f@) =~= failure_list(rs, descs.take(0)));
    for i in 0..case.assertions.len()
        invariant
            descs == descriptions(case.assertions@),
            rs.len() == i,
            forall|j: int| 0 <= j < i ==> (#[trigger] case.assertions@[j]).allows(*ctx.architecture, ctx.terraform_json, rs[j]),
            forall|j: int| 0 <= j < case.assertions@.len() ==> (#[trigger] case.assertions@[j]).admits(*ctx.architecture, ctx.terraform_json),
            passed == passed_count(rs),
            failures@.map_values(|f: AssertionFailure| f@) == failure_list(rs, descs.take(i as int)),
    {
        let a = &case.assertions[i];
        let r = a.check(ctx);
        let ghost rv = outcome_view(r);
        proof { lemma_passed_count_bound(rs); }
        let ghost old_fl = failures@.map_values(|f: AssertionFailure| f@);
        match r {
            Ok(()) => {
                passed = passed + 1;
            },
            Err(f) => {
                let mut f = f;
                f.assertion = a.describe();
                failures.push(f);
            },
        }
        proof {
            let nrs = rs.push(rv);
            assert(nrs.drop_last() =~= rs);
            assert(descs.take(i + 1).take(i as int) =~= descs.take(i as int));
            assert(failures@.map_values(|f: AssertionFailure| f@) =~= failure_list(nrs, descs.take(i + 1)));
            rs = nrs;
        }
    }
    assert(descs.take(case.assertions.len() as int) =~= descs);
    proof { law_every_assertion_tallied(rs, descs); }
    CaseOutcome { name: case.name.clone(), passed, failures }
}

} // verus!
