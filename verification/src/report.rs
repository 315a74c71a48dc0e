//! Failure records and the tallies the runner builds from them.

use vstd::prelude::*;

verus! {

/// One failing assertion.
#[derive(Debug)]
pub struct AssertionFailure {
    /// The failing assertion's description, filled in by the runner.
    pub assertion: String,
    pub message: String,
    /// Optional JSON pointer into the rendered document
    /// (e.g. `/resource/aws_vpc/main/cidr_block`).
    pub pointer: Option<String>,
}

/// The value of a failure record.
pub struct FailureView {
    pub assertion: Seq<char>,
    pub message: Seq<char>,
    pub pointer: Option<Seq<char>>,
}

pub open spec fn opt_str_view(o: Option<String>) -> Option<Seq<char>> {
    match o {
        Some(s) => Some(s@),
        None => None,
    }
}

impl View for AssertionFailure {
    type V = FailureView;

    open spec fn view(&self) -> FailureView {
        FailureView {
            assertion: self.assertion@,
            message: self.message@,
            pointer: opt_str_view(self.pointer),
        }
    }
}

/// A failure with the given message, no description yet and no pointer.
pub open spec fn failure(message: Seq<char>) -> FailureView {
    FailureView { assertion: Seq::<char>::empty(), message: message, pointer: None }
}

/// A failure with the given message and pointer.
pub open spec fn failure_at(message: Seq<char>, pointer: Seq<char>) -> FailureView {
    FailureView { assertion: Seq::<char>::empty(), message: message, pointer: Some(pointer) }
}

/// The value of a check's result.
pub open spec fn outcome_view(r: Result<(), AssertionFailure>) -> Result<(), FailureView> {
    match r {
        Ok(()) => Ok(()),
        Err(f) => Err(f@),
    }
}

pub fn clone_opt_string(o: &Option<String>) -> (r: Option<String>)
    ensures
        opt_str_view(r) == opt_str_view(*o),
{
    match o {
        Some(s) => Some(s.clone()),
        None => None,
    }
}

impl Clone for AssertionFailure {
    fn clone(&self) -> (r: AssertionFailure)
        ensures
            r@ == self@,
    {
        AssertionFailure {
            assertion: self.assertion.clone(),
            message: self.message.clone(),
            pointer: clone_opt_string(&self.pointer),
        }
    }
}

impl AssertionFailure {
    /// A failure with the given message, an empty description and no pointer.
    pub fn new(message: &str) -> (r: AssertionFailure)
        ensures
            r@ == failure(message@),
    {
        AssertionFailure { assertion: String::new(), message: String::from_str(message), pointer: None }
    }

    /// The same failure, pointing at `pointer`.
    pub fn at(self, pointer: &str) -> (r: AssertionFailure)
        ensures
            r@ == (FailureView { pointer: Some(pointer@), ..self@ }),
    {
        let mut f = self;
        f.pointer = Some(String::from_str(pointer));
        f
    }

    /// The failure reported when an architecture refuses to render.
    pub fn render(e: &str) -> (r: AssertionFailure)
        ensures
            r@ == failure(e@),
    {
        Self::new(e)
    }
}

/// Per-case outcome: the case's name, how many assertions passed, and the
/// failures of the others.
#[derive(Debug)]
pub struct CaseOutcome {
    pub name: String,
    pub passed: usize,
    pub failures: Vec<AssertionFailure>,
}

impl CaseOutcome {
    /// Whether no assertion of the case failed.
    pub fn ok(&self) -> (r: bool)
        ensures
            r == (self.failures@.len() == 0),
    {
        self.failures.len() == 0
    }
}

/// Two outcomes with the same name, pass count and failures.
pub open spec fn same_outcome(a: CaseOutcome, b: CaseOutcome) -> bool {
    &&& a.name@ == b.name@
    &&& a.passed == b.passed
    &&& a.failures@.len() == b.failures@.len()
    &&& forall|i: int| 0 <= i < a.failures@.len() ==> #[trigger] a.failures@[i]@ == b.failures@[i]@
}

impl Clone for CaseOutcome {
    fn clone(&self) -> (r: CaseOutcome)
        ensures
            same_outcome(r, *self),
    {
        let mut fs: Vec<AssertionFailure> = Vec::new();
        for i in 0..self.failures.len()
            invariant
                fs@.len() == i,
                forall|j: int| 0 <= j < i ==> #[trigger] fs@[j]@ == self.failures@[j]@,
        {
            fs.push(self.failures[i].clone());
        }
        CaseOutcome { name: self.name.clone(), passed: self.passed, failures: fs }
    }
}

/// Aggregate report across every case of a suite.
#[derive(Debug)]
pub struct TestReport {
    pub cases: Vec<CaseOutcome>,
}

impl Default for TestReport {
    /// A report with no cases.
    fn default() -> (r: TestReport)
        ensures
            r.cases@.len() == 0,
    {
        TestReport { cases: Vec::new() }
    }
}

impl Clone for TestReport {
    fn clone(&self) -> (r: TestReport)
        ensures
            r.cases@.len() == self.cases@.len(),
            forall|i: int| 0 <= i < self.cases@.len() ==> same_outcome(#[trigger] r.cases@[i], self.cases@[i]),
    {
        let mut cs: Vec<CaseOutcome> = Vec::new();
        for i in 0..self.cases.len()
            invariant
                cs@.len() == i,
                forall|j: int| 0 <= j < i ==> same_outcome(#[trigger] cs@[j], self.cases@[j]),
        {
            cs.push(self.cases[i].clone());
        }
        TestReport { cases: cs }
    }
}

/// How many outcomes are ok.
pub open spec fn count_ok(cs: Seq<CaseOutcome>) -> nat
    decreases cs.len(),
{
    if cs.len() == 0 {
        0
    } else {
        count_ok(cs.drop_last()) + if cs.last().failures@.len() == 0 { 1nat } else { 0nat }
    }
}

/// How many outcomes have a failure.
pub open spec fn count_failed(cs: Seq<CaseOutcome>) -> nat
    decreases cs.len(),
{
    if cs.len() == 0 {
        0
    } else {
        count_failed(cs.drop_last()) + if cs.last().failures@.len() == 0 { 0nat } else { 1nat }
    }
}

/// Passed plus failed assertions over all outcomes.
pub open spec fn assertion_total(cs: Seq<CaseOutcome>) -> nat
    decreases cs.len(),
{
    if cs.len() == 0 {
        0
    } else {
        assertion_total(cs.drop_last()) + cs.last().passed as nat + cs.last().failures@.len()
    }
}

pub proof fn lemma_counts_bounded(cs: Seq<CaseOutcome>)
    ensures
        count_ok(cs) <= cs.len(),
        count_failed(cs) <= cs.len(),
        count_ok(cs) + count_failed(cs) == cs.len(),
    decreases cs.len(),
{
    if cs.len() > 0 {
        lemma_counts_bounded(cs.drop_last());
    }
}

pub proof fn lemma_total_prefix(cs: Seq<CaseOutcome>, i: int)
    requires
        0 <= i <= cs.len(),
    ensures
        assertion_total(cs.take(i)) <= assertion_total(cs),
    decreases cs.len(),
{
    if i < cs.len() {
        assert(cs.drop_last().take(i) =~= cs.take(i));
        lemma_total_prefix(cs.drop_last(), i);
    } else {
        assert(cs.take(i) =~= cs);
    }
}

/// The passed cases are those without failures, and the failed cases those
/// with at least one.
pub proof fn law_counts_are_the_cases_with_and_without_failures(cs: Seq<CaseOutcome>)
    ensures
        count_ok(cs) == cs.filter(|c: CaseOutcome| c.failures@.len() == 0).len(),
        count_failed(cs) == cs.filter(|c: CaseOutcome| c.failures@.len() > 0).len(),
    decreases cs.len(),
{
    reveal(Seq::filter);
    if cs.len() > 0 {
        law_counts_are_the_cases_with_and_without_failures(cs.drop_last());
    }
}

/// Every case of a report is counted once: the passed cases and the failed
/// cases together are all the cases.
pub proof fn law_passed_plus_failed_is_all(cs: Seq<CaseOutcome>)
    ensures
        count_ok(cs) + count_failed(cs) == cs.len(),
{
    lemma_counts_bounded(cs);
}

/// A report is ok exactly when none of its cases failed.
pub proof fn law_report_ok_iff_no_failed_case(cs: Seq<CaseOutcome>)
    ensures
        (forall|i: int| 0 <= i < cs.len() ==> (#[trigger] cs[i]).failures@.len() == 0) <==> count_failed(cs)
            == 0,
    decreases cs.len(),
{
    if cs.len() > 0 {
        law_report_ok_iff_no_failed_case(cs.drop_last());
        let p = cs.drop_last();
        assert forall|i: int| 0 <= i < p.len() implies p[i] == cs[i] by {}
        if count_failed(cs) == 0 {
            assert forall|i: int| 0 <= i < cs.len() implies (#[trigger] cs[i]).failures@.len() == 0 by {
                if i < cs.len() - 1 {
                    assert(p[i] == cs[i]);
                }
            }
        }
        if forall|i: int| 0 <= i < cs.len() ==> (#[trigger] cs[i]).failures@.len() == 0 {
            assert(cs[cs.len() - 1].failures@.len() == 0);
            assert forall|i: int| 0 <= i < p.len() implies (#[trigger] p[i]).failures@.len() == 0 by {
                assert(p[i] == cs[i]);
            }
        }
    }
}

impl TestReport {
    /// Number of cases with no failure.
    pub fn passed(&self) -> (r: usize)
        ensures
            r == count_ok(self.cases@),
    {
        let mut n: usize = 0;
        for i in 0..self.cases.len()
            invariant
                n == count_ok(self.cases@.take(i as int)),
        {
            proof { lemma_counts_bounded(self.cases@.take(i as int)); }
            assert(self.cases@.take(i + 1).drop_last() =~= self.cases@.take(i as int));
            if self.cases[i].ok() {
                n = n + 1;
            }
        }
        assert(self.cases@.take(self.cases.len() as int) =~= self.cases@);
        n
    }

    /// Number of cases with at least one failure.
    pub fn failed(&self) -> (r: usize)
        ensures
            r == count_failed(self.cases@),
    {
        let mut n: usize = 0;
        for i in 0..self.cases.len()
            invariant
                n == count_failed(self.cases@.take(i as int)),
        {
            proof { lemma_counts_bounded(self.cases@.take(i as int)); }
            assert(self.cases@.take(i + 1).drop_last() =~= self.cases@.take(i as int));
            if !self.cases[i].ok() {
                n = n + 1;
            }
        }
        assert(self.cases@.take(self.cases.len() as int) =~= self.cases@);
        n
    }

    /// Passed plus failed assertions over every case.
    pub fn total_assertions(&self) -> (r: usize)
        requires
            assertion_total(self.cases@) <= usize::MAX,
        ensures
            r == assertion_total(self.cases@),
    {
        let mut n: usize = 0;
        for i in 0..self.cases.len()
            invariant
                n == assertion_total(self.cases@.take(i as int)),
                assertion_total(self.cases@) <= usize::MAX,
        {
            assert(self.cases@.take(i + 1).drop_last() =~= self.cases@.take(i as int));
            proof { lemma_total_prefix(self.cases@, i + 1); }
            n = n + self.cases[i].passed + self.cases[i].failures.len();
        }
        assert(self.cases@.take(self.cases.len() as int) =~= self.cases@);
        n
    }

    /// Whether every case is ok.
    pub fn ok(&self) -> (r: bool)
        ensures
            r == (forall|i: int| 0 <= i < self.cases@.len() ==> (#[trigger] self.cases@[i]).failures@.len() == 0),
    {
        for i in 0..self.cases.len()
            invariant
                forall|j: int| 0 <= j < i ==> (#[trigger] self.cases@[j]).failures@.len() == 0,
        {
            if !self.cases[i].ok() {
                return false;
            }
        }
        true
    }
}

} // verus!
