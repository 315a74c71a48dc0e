//! The built-in assertions of the lava domain.

use vstd::prelude::*;
use crate::json::{Json, JsonView, lookup, json_eq, json_text, json_wf, has_key, law_json_eq_reflexive, law_equal_objects_have_the_same_keys, lemma_lookup_wf};
use crate::model::{Architecture, Resource, Value, value_refs, declares, walk_refs, architecture_wf, resource_wf};
use crate::report::{AssertionFailure, FailureView, failure, failure_at, outcome_view};
use crate::runner::{AssertContext, Assertion};
use crate::text::{decimal, push_decimal, underscored, underscore_dashes};

verus! {

// ---------------------------------------------------------------------------
// Pointers and document reads
// ---------------------------------------------------------------------------

/// `/resource/<type>/<name>`.
pub open spec fn resource_pointer(type_id: Seq<char>, name: Seq<char>) -> Seq<char> {
    "/resource/"@ + type_id + "/"@ + name
}

/// `/resource/<type>/<name>/<attr>`.
pub open spec fn attribute_pointer(type_id: Seq<char>, name: Seq<char>, attr: Seq<char>) -> Seq<char> {
    resource_pointer(type_id, name) + "/"@ + attr
}

/// `/resource/<type>`.
pub open spec fn kind_pointer(type_id: Seq<char>) -> Seq<char> {
    "/resource/"@ + type_id
}

/// `/output/<name>/value`.
pub open spec fn output_pointer(name: Seq<char>) -> Seq<char> {
    "/output/"@ + name + "/value"@
}

/// `/resource/<type>/<name>/tags/<key>`.
pub open spec fn tag_pointer(type_id: Seq<char>, name: Seq<char>, key: Seq<char>) -> Seq<char> {
    resource_pointer(type_id, name) + "/tags/"@ + key
}

/// The number of members of the value found, when it is an object; zero
/// otherwise.
pub open spec fn object_size(found: Option<Json>) -> nat {
    match found {
        Some(Json::Object(m)) => m@.len(),
        _ => 0,
    }
}

/// The text of the value found, when it is a string.
pub open spec fn string_of_found(found: Option<Json>) -> Option<Seq<char>> {
    match found {
        Some(Json::String(s)) => Some(s@),
        _ => None,
    }
}

fn resource_pointer_exec(type_id: &String, name: &String) -> (r: String)
    ensures
        r@ == resource_pointer(type_id@, name@),
{
    let mut p = String::from_str("/resource/");
    p.append(type_id.as_str());
    p.append("/");
    p.append(name.as_str());
    p
}

fn kind_pointer_exec(type_id: &String) -> (r: String)
    ensures
        r@ == kind_pointer(type_id@),
{
    let mut p = String::from_str("/resource/");
    p.append(type_id.as_str());
    p
}

/// How many resources of the kind the document lists under `/resource/<type>`.
fn count_of_kind(doc: &Json, p: &String) -> (n: usize)
    ensures
        n == object_size(lookup(*doc, p@)),
{
    match doc.pointer(p.as_str()) {
        Some(Json::Object(m)) => m.len(),
        _ => 0,
    }
}

// ---------------------------------------------------------------------------
// resource-exists
// ---------------------------------------------------------------------------

/// `resource.<type_id>.<name>` is present in the rendered document.
#[derive(Debug)]
pub struct ResourceExists {
    pub type_id: String,
    pub name: String,
}

impl ResourceExists {
    pub fn new(type_id: &str, name: &str) -> (r: ResourceExists)
        ensures
            r.type_id@ == type_id@,
            r.name@ == name@,
    {
        ResourceExists { type_id: String::from_str(type_id), name: String::from_str(name) }
    }

    /// The result of checking against `doc`.
    pub open spec fn verdict(&self, doc: Json) -> Result<(), FailureView> {
        let p = resource_pointer(self.type_id@, self.name@);
        if lookup(doc, p) is Some {
            Ok(())
        } else {
            Err(failure_at("resource `"@ + self.type_id@ + "."@ + self.name@ + "` not present"@, p))
        }
    }
}

impl Assertion for ResourceExists {
    open spec fn admits(&self, arch: Architecture, doc: Json) -> bool {
        architecture_wf(arch) && json_wf(doc)
    }

    open spec fn allows(&self, arch: Architecture, doc: Json, r: Result<(), FailureView>) -> bool {
        r == self.verdict(doc)
    }

    open spec fn description(&self) -> Seq<char> {
        "resource-exists "@ + self.type_id@ + "."@ + self.name@
    }

    fn check(&self, ctx: &AssertContext<'_>) -> (r: Result<(), AssertionFailure>) {
        let p = resource_pointer_exec(&self.type_id, &self.name);
        match ctx.terraform_json.pointer(p.as_str()) {
            Some(_) => Ok(()),
            None => {
                let mut m = String::from_str("resource `");
                m.append(self.type_id.as_str());
                m.append(".");
                m.append(self.name.as_str());
                m.append("` not present");
                Err(AssertionFailure::new(m.as_str()).at(p.as_str()))
            },
        }
    }

    fn describe(&self) -> (s: String) {
        let mut s = String::from_str("resource-exists ");
        s.append(self.type_id.as_str());
        s.append(".");
        s.append(self.name.as_str());
        s
    }
}

// ---------------------------------------------------------------------------
// no-resource
// ---------------------------------------------------------------------------

/// `resource.<type_id>.<name>` is absent from the rendered document.
#[derive(Debug)]
pub struct NoResource {
    pub type_id: String,
    pub name: String,
}

impl NoResource {
    pub fn new(type_id: &str, name: &str) -> (r: NoResource)
        ensures
            r.type_id@ == type_id@,
            r.name@ == name@,
    {
        NoResource { type_id: String::from_str(type_id), name: String::from_str(name) }
    }

    pub open spec fn verdict(&self, doc: Json) -> Result<(), FailureView> {
        let p = resource_pointer(self.type_id@, self.name@);
        if lookup(doc, p) is None {
            Ok(())
        } else {
            Err(failure_at("resource `"@ + self.type_id@ + "."@ + self.name@
                + "` is present (expected absence)"@, p))
        }
    }
}

impl Assertion for NoResource {
    open spec fn admits(&self, arch: Architecture, doc: Json) -> bool {
        architecture_wf(arch) && json_wf(doc)
    }

    open spec fn allows(&self, arch: Architecture, doc: Json, r: Result<(), FailureView>) -> bool {
        r == self.verdict(doc)
    }

    open spec fn description(&self) -> Seq<char> {
        "no-resource "@ + self.type_id@ + "."@ + self.name@
    }

    fn check(&self, ctx: &AssertContext<'_>) -> (r: Result<(), AssertionFailure>) {
        let p = resource_pointer_exec(&self.type_id, &self.name);
        match ctx.terraform_json.pointer(p.as_str()) {
            None => Ok(()),
            Some(_) => {
                let mut m = String::from_str("resource `");
                m.append(self.type_id.as_str());
                m.append(".");
                m.append(self.name.as_str());
                m.append("` is present (expected absence)");
                Err(AssertionFailure::new(m.as_str()).at(p.as_str()))
            },
        }
    }

    fn describe(&self) -> (s: String) {
        let mut s = String::from_str("no-resource ");
        s.append(self.type_id.as_str());
        s.append(".");
        s.append(self.name.as_str());
        s
    }
}

/// The failure of `attribute-equals` when the value found differs, given the
/// JSON text of the expected value and of the value found.
pub open spec fn attribute_mismatch(type_id: Seq<char>, name: Seq<char>, attr: Seq<char>, want: Seq<char>, got: Seq<char>) -> FailureView {
    failure_at("expected "@ + want + " on `"@ + type_id + "."@ + name + "."@ + attr + "`, got "@ + got,
        attribute_pointer(type_id, name, attr))
}

/// The failure of `output-equals` when the output differs, given the JSON
/// text of the expected value and of the output.
pub open spec fn output_mismatch(name: Seq<char>, want: Seq<char>, got: Seq<char>) -> FailureView {
    failure_at("expected output `"@ + name + "` = "@ + want + ", got "@ + got, output_pointer(name))
}

/// Builds the failure [`attribute_mismatch`] states.
pub fn attribute_mismatch_failure(type_id: &String, name: &String, attr: &String, want: &str, got: &str) -> (f: AssertionFailure)
    ensures
        f@ == attribute_mismatch(type_id@, name@, attr@, want@, got@),
{
    let mut m = String::from_str("expected ");
    m.append(want);
    m.append(" on `");
    m.append(type_id.as_str());
    m.append(".");
    m.append(name.as_str());
    m.append(".");
    m.append(attr.as_str());
    m.append("`, got ");
    m.append(got);
    let mut p = resource_pointer_exec(type_id, name);
    p.append("/");
    p.append(attr.as_str());
    AssertionFailure::new(m.as_str()).at(p.as_str())
}

/// Builds the failure [`output_mismatch`] states.
pub fn output_mismatch_failure(name: &String, want: &str, got: &str) -> (f: AssertionFailure)
    ensures
        f@ == output_mismatch(name@, want@, got@),
{
    let mut m = String::from_str("expected output `");
    m.append(name.as_str());
    m.append("` = ");
    m.append(want);
    m.append(", got ");
    m.append(got);
    let mut p = String::from_str("/output/");
    p.append(name.as_str());
    p.append("/value");
    AssertionFailure::new(m.as_str()).at(p.as_str())
}

// ---------------------------------------------------------------------------
// attribute-equals
// ---------------------------------------------------------------------------

/// `resource.<type_id>.<name>.<attr>` equals the expected JSON value.
#[derive(Debug)]
pub struct AttributeEquals {
    pub type_id: String,
    pub name: String,
    pub attr: String,
    pub expected: Json,
}

impl AttributeEquals {
    pub fn new(type_id: &str, name: &str, attr: &str, expected: Json) -> (r: AttributeEquals)
        ensures
            r.type_id@ == type_id@,
            r.name@ == name@,
            r.attr@ == attr@,
            r.expected == expected,
    {
        AttributeEquals {
            type_id: String::from_str(type_id),
            name: String::from_str(name),
            attr: String::from_str(attr),
            expected,
        }
    }

    pub open spec fn verdict(&self, doc: Json) -> Result<(), FailureView> {
        let p = attribute_pointer(self.type_id@, self.name@, self.attr@);
        match lookup(doc, p) {
            None => Err(failure_at("attribute `"@ + self.attr@ + "` not present on `"@
                + self.type_id@ + "."@ + self.name@ + "`"@, p)),
            Some(v) => if json_eq(v, self.expected) {
                Ok(())
            } else {
                Err(attribute_mismatch(self.type_id@, self.name@, self.attr@, json_text(self.expected@), json_text(v@)))
            },
        }
    }
}

impl Assertion for AttributeEquals {
    open spec fn admits(&self, arch: Architecture, doc: Json) -> bool {
        architecture_wf(arch) && json_wf(doc)
    }

    open spec fn allows(&self, arch: Architecture, doc: Json, r: Result<(), FailureView>) -> bool {
        r == self.verdict(doc)
    }

    open spec fn description(&self) -> Seq<char> {
        "attribute-equals "@ + self.type_id@ + "."@ + self.name@ + "."@ + self.attr@
    }

    fn check(&self, ctx: &AssertContext<'_>) -> (r: Result<(), AssertionFailure>) {
        let mut p = resource_pointer_exec(&self.type_id, &self.name);
        p.append("/");
        p.append(self.attr.as_str());
        match ctx.terraform_json.pointer(p.as_str()) {
            None => {
                let mut m = String::from_str("attribute `");
                m.append(self.attr.as_str());
                m.append("` not present on `");
                m.append(self.type_id.as_str());
                m.append(".");
                m.append(self.name.as_str());
                m.append("`");
                Err(AssertionFailure::new(m.as_str()).at(p.as_str()))
            },
            Some(v) => {
                if v.equals(&self.expected) {
                    Ok(())
                } else {
                    let want = self.expected.to_json_string();
                    let got = v.to_json_string();
                    Err(attribute_mismatch_failure(&self.type_id, &self.name, &self.attr, want.as_str(), got.as_str()))
                }
            },
        }
    }

    fn describe(&self) -> (s: String) {
        let mut s = String::from_str("attribute-equals ");
        s.append(self.type_id.as_str());
        s.append(".");
        s.append(self.name.as_str());
        s.append(".");
        s.append(self.attr.as_str());
        s
    }
}

// ---------------------------------------------------------------------------
// resource-count
// ---------------------------------------------------------------------------

/// Resources of `<type_id>` total exactly `expected`.
#[derive(Debug)]
pub struct ResourceCount {
    pub type_id: String,
    pub expected: usize,
}

impl ResourceCount {
    pub fn new(type_id: &str, expected: usize) -> (r: ResourceCount)
        ensures
            r.type_id@ == type_id@,
            r.expected == expected,
    {
        ResourceCount { type_id: String::from_str(type_id), expected }
    }

    pub open spec fn verdict(&self, doc: Json) -> Result<(), FailureView> {
        let p = kind_pointer(self.type_id@);
        let n = object_size(lookup(doc, p));
        if n == self.expected {
            Ok(())
        } else {
            Err(failure_at("expected "@ + decimal(self.expected as nat) + " resources of type `"@
                + self.type_id@ + "`, got "@ + decimal(n), p))
        }
    }
}

impl Assertion for ResourceCount {
    open spec fn admits(&self, arch: Architecture, doc: Json) -> bool {
        architecture_wf(arch) && json_wf(doc)
    }

    open spec fn allows(&self, arch: Architecture, doc: Json, r: Result<(), FailureView>) -> bool {
        r == self.verdict(doc)
    }

    open spec fn description(&self) -> Seq<char> {
        "resource-count "@ + self.type_id@ + " "@ + decimal(self.expected as nat)
    }

    fn check(&self, ctx: &AssertContext<'_>) -> (r: Result<(), AssertionFailure>) {
        let p = kind_pointer_exec(&self.type_id);
        let n = count_of_kind(&ctx.terraform_json, &p);
        if n == self.expected {
            Ok(())
        } else {
            let mut m = String::from_str("expected ");
            push_decimal(&mut m, self.expected as u64);
            m.append(" resources of type `");
            m.append(self.type_id.as_str());
            m.append("`, got ");
            push_decimal(&mut m, n as u64);
            Err(AssertionFailure::new(m.as_str()).at(p.as_str()))
        }
    }

    fn describe(&self) -> (s: String) {
        let mut s = String::from_str("resource-count ");
        s.append(self.type_id.as_str());
        s.append(" ");
        push_decimal(&mut s, self.expected as u64);
        s
    }
}

// ---------------------------------------------------------------------------
// output-equals
// ---------------------------------------------------------------------------

/// `output.<name>.value` equals the expected JSON value.
#[derive(Debug)]
pub struct OutputEquals {
    pub name: String,
    pub expected: Json,
}

impl OutputEquals {
    pub fn new(name: &str, expected: Json) -> (r: OutputEquals)
        ensures
            r.name@ == name@,
            r.expected == expected,
    {
        OutputEquals { name: String::from_str(name), expected }
    }

    pub open spec fn verdict(&self, doc: Json) -> Result<(), FailureView> {
        let p = output_pointer(self.name@);
        match lookup(doc, p) {
            None => Err(failure_at("output `"@ + self.name@ + "` not present"@, p)),
            Some(v) => if json_eq(v, self.expected) {
                Ok(())
            } else {
                Err(output_mismatch(self.name@, json_text(self.expected@), json_text(v@)))
            },
        }
    }
}

impl Assertion for OutputEquals {
    open spec fn admits(&self, arch: Architecture, doc: Json) -> bool {
        architecture_wf(arch) && json_wf(doc)
    }

    open spec fn allows(&self, arch: Architecture, doc: Json, r: Result<(), FailureView>) -> bool {
        r == self.verdict(doc)
    }

    open spec fn description(&self) -> Seq<char> {
        "output-equals "@ + self.name@
    }

    fn check(&self, ctx: &AssertContext<'_>) -> (r: Result<(), AssertionFailure>) {
        let mut p = String::from_str("/output/");
        p.append(self.name.as_str());
        p.append("/value");
        match ctx.terraform_json.pointer(p.as_str()) {
            None => {
                let mut m = String::from_str("output `");
                m.append(self.name.as_str());
                m.append("` not present");
                Err(AssertionFailure::new(m.as_str()).at(p.as_str()))
            },
            Some(v) => {
                if v.equals(&self.expected) {
                    Ok(())
                } else {
                    let want = self.expected.to_json_string();
                    let got = v.to_json_string();
                    Err(output_mismatch_failure(&self.name, want.as_str(), got.as_str()))
                }
            },
        }
    }

    fn describe(&self) -> (s: String) {
        let mut s = String::from_str("output-equals ");
        s.append(self.name.as_str());
        s
    }
}

// ---------------------------------------------------------------------------
// tag-equals
// ---------------------------------------------------------------------------

/// `<type>.<name>.tags.<key>` is the expected string.
#[derive(Debug)]
pub struct TagEquals {
    pub type_id: String,
    pub name: String,
    pub key: String,
    pub expected: String,
}

impl TagEquals {
    pub fn new(type_id: &str, name: &str, key: &str, expected: &str) -> (r: TagEquals)
        ensures
            r.type_id@ == type_id@,
            r.name@ == name@,
            r.key@ == key@,
            r.expected@ == expected@,
    {
        TagEquals {
            type_id: String::from_str(type_id),
            name: String::from_str(name),
            key: String::from_str(key),
            expected: String::from_str(expected),
        }
    }

    pub open spec fn verdict(&self, doc: Json) -> Result<(), FailureView> {
        let p = tag_pointer(self.type_id@, self.name@, self.key@);
        match string_of_found(lookup(doc, p)) {
            Some(v) => if v == self.expected@ {
                Ok(())
            } else {
                Err(failure_at("tag `"@ + self.key@ + "="@ + self.expected@ + "` on `"@
                    + self.type_id@ + "."@ + self.name@ + "` mismatched: got "@ + v, p))
            },
            None => Err(failure_at("tag `"@ + self.key@ + "` not set on `"@ + self.type_id@
                + "."@ + self.name@ + "`"@, p)),
        }
    }
}

impl Assertion for TagEquals {
    open spec fn admits(&self, arch: Architecture, doc: Json) -> bool {
        architecture_wf(arch) && json_wf(doc)
    }

    open spec fn allows(&self, arch: Architecture, doc: Json, r: Result<(), FailureView>) -> bool {
        r == self.verdict(doc)
    }

    open spec fn description(&self) -> Seq<char> {
        "tag-equals "@ + self.type_id@ + "."@ + self.name@ + ":"@ + self.key@
    }

    fn check(&self, ctx: &AssertContext<'_>) -> (r: Result<(), AssertionFailure>) {
        let mut p = resource_pointer_exec(&self.type_id, &self.name);
        p.append("/tags/");
        p.append(self.key.as_str());
        match ctx.terraform_json.pointer(p.as_str()) {
            Some(Json::String(v)) => {
                if *v == self.expected {
                    Ok(())
                } else {
                    let mut m = String::from_str("tag `");
                    m.append(self.key.as_str());
                    m.append("=");
                    m.append(self.expected.as_str());
                    m.append("` on `");
                    m.append(self.type_id.as_str());
                    m.append(".");
                    m.append(self.name.as_str());
                    m.append("` mismatched: got ");
                    m.append(v.as_str());
                    Err(AssertionFailure::new(m.as_str()).at(p.as_str()))
                }
            },
            _ => {
                let mut m = String::from_str("tag `");
                m.append(self.key.as_str());
                m.append("` not set on `");
                m.append(self.type_id.as_str());
                m.append(".");
                m.append(self.name.as_str());
                m.append("`");
                Err(AssertionFailure::new(m.as_str()).at(p.as_str()))
            },
        }
    }

    fn describe(&self) -> (s: String) {
        let mut s = String::from_str("tag-equals ");
        s.append(self.type_id.as_str());
        s.append(".");
        s.append(self.name.as_str());
        s.append(":");
        s.append(self.key.as_str());
        s
    }
}

// ---------------------------------------------------------------------------
// min-resources-of-kind
// ---------------------------------------------------------------------------

/// At least `min` resources of `<type_id>` exist.
#[derive(Debug)]
pub struct MinResourcesOfKind {
    pub type_id: String,
    pub min: usize,
}

impl MinResourcesOfKind {
    pub fn new(type_id: &str, min: usize) -> (r: MinResourcesOfKind)
        ensures
            r.type_id@ == type_id@,
            r.min == min,
    {
        MinResourcesOfKind { type_id: String::from_str(type_id), min }
    }

    pub open spec fn verdict(&self, doc: Json) -> Result<(), FailureView> {
        let p = kind_pointer(self.type_id@);
        let n = object_size(lookup(doc, p));
        if n >= self.min {
            Ok(())
        } else {
            Err(failure_at("expected ≥"@ + decimal(self.min as nat) + " resources of `"@
                + self.type_id@ + "`, got "@ + decimal(n), p))
        }
    }
}

impl Assertion for MinResourcesOfKind {
    open spec fn admits(&self, arch: Architecture, doc: Json) -> bool {
        architecture_wf(arch) && json_wf(doc)
    }

    open spec fn allows(&self, arch: Architecture, doc: Json, r: Result<(), FailureView>) -> bool {
        r == self.verdict(doc)
    }

    open spec fn description(&self) -> Seq<char> {
        "min-resources-of-kind "@ + self.type_id@ + " "@ + decimal(self.min as nat)
    }

    fn check(&self, ctx: &AssertContext<'_>) -> (r: Result<(), AssertionFailure>) {
        let p = kind_pointer_exec(&self.type_id);
        let n = count_of_kind(&ctx.terraform_json, &p);
        if n >= self.min {
            Ok(())
        } else {
            let mut m = String::from_str("expected ≥");
            push_decimal(&mut m, self.min as u64);
            m.append(" resources of `");
            m.append(self.type_id.as_str());
            m.append("`, got ");
            push_decimal(&mut m, n as u64);
            Err(AssertionFailure::new(m.as_str()).at(p.as_str()))
        }
    }

    fn describe(&self) -> (s: String) {
        let mut s = String::from_str("min-resources-of-kind ");
        s.append(self.type_id.as_str());
        s.append(" ");
        push_decimal(&mut s, self.min as u64);
        s
    }
}


// ---------------------------------------------------------------------------
// ref-valid
// ---------------------------------------------------------------------------

/// The failure for a reference from `<r>.<attr>` to an undeclared target.
pub open spec fn dangling_failure(r: Resource, attr: Seq<char>, target: (Seq<char>, Seq<char>)) -> FailureView {
    failure_at("`"@ + r.type_id@ + "."@ + r.name@ + "."@ + attr + "` references `"@ + target.0
        + "."@ + target.1 + "` which is not declared"@, attribute_pointer(r.type_id@, r.name@, attr))
}

/// The first of `refs` that `all` does not declare, as a failure.
pub open spec fn scan_refs(all: Seq<Resource>, r: Resource, attr: Seq<char>, refs: Seq<(Seq<char>, Seq<char>)>) -> Result<(), FailureView>
    decreases refs.len(),
{
    if refs.len() == 0 {
        Ok(())
    } else if !declares(all, refs[0].0, refs[0].1) {
        Err(dangling_failure(r, attr, refs[0]))
    } else {
        scan_refs(all, r, attr, refs.drop_first())
    }
}

/// The first dangling reference among the attributes of `r`, in order.
pub open spec fn scan_attrs(all: Seq<Resource>, r: Resource, attrs: Seq<(String, Value)>) -> Result<(), FailureView>
    decreases attrs.len(),
{
    if attrs.len() == 0 {
        Ok(())
    } else {
        match scan_refs(all, r, attrs[0].0@, value_refs(attrs[0].1)) {
            Err(f) => Err(f),
            Ok(()) => scan_attrs(all, r, attrs.drop_first()),
        }
    }
}

/// The first dangling reference of the resources `rs`, in order.
pub open spec fn scan_resources(all: Seq<Resource>, rs: Seq<Resource>) -> Result<(), FailureView>
    decreases rs.len(),
{
    if rs.len() == 0 {
        Ok(())
    } else {
        match scan_attrs(all, rs[0], rs[0].attributes@) {
            Err(f) => Err(f),
            Ok(()) => scan_resources(all, rs.drop_first()),
        }
    }
}

/// Every reference that the attribute value `v` holds names a resource of
/// `all`.
pub open spec fn value_refs_declared(all: Seq<Resource>, v: Value) -> bool {
    forall|k: int| 0 <= k < value_refs(v).len() ==> declares(all, (#[trigger] value_refs(v)[k]).0, value_refs(v)[k].1)
}

/// Every reference held by an attribute of a resource of `rs` names a
/// resource of `all`.
pub open spec fn resources_refs_declared(all: Seq<Resource>, rs: Seq<Resource>) -> bool {
    forall|i: int, j: int| 0 <= i < rs.len() && 0 <= j < rs[i].attributes@.len()
        ==> value_refs_declared(all, (#[trigger] rs[i].attributes@[j]).1)
}

proof fn lemma_scan_refs(all: Seq<Resource>, r: Resource, attr: Seq<char>, refs: Seq<(Seq<char>, Seq<char>)>)
    ensures
        scan_refs(all, r, attr, refs) is Ok <==> forall|k: int| 0 <= k < refs.len() ==> declares(all, (#[trigger] refs[k]).0, refs[k].1),
    decreases refs.len(),
{
    if refs.len() > 0 {
        let rest = refs.drop_first();
        lemma_scan_refs(all, r, attr, rest);
        assert forall|k: int| 0 <= k < rest.len() implies #[trigger] rest[k] == refs[k + 1] by {}
        if forall|k: int| 0 <= k < refs.len() ==> declares(all, (#[trigger] refs[k]).0, refs[k].1) {
            assert(declares(all, refs[0].0, refs[0].1));
            assert forall|k: int| 0 <= k < rest.len() implies declares(all, (#[trigger] rest[k]).0, rest[k].1) by {
                assert(rest[k] == refs[k + 1]);
            }
        }
        if scan_refs(all, r, attr, refs) is Ok {
            assert forall|k: int| 0 <= k < refs.len() implies declares(all, (#[trigger] refs[k]).0, refs[k].1) by {
                if k > 0 {
                    assert(rest[k - 1] == refs[k]);
                }
            }
        }
    }
}

proof fn lemma_scan_attrs(all: Seq<Resource>, r: Resource, attrs: Seq<(String, Value)>)
    ensures
        scan_attrs(all, r, attrs) is Ok <==> forall|j: int| 0 <= j < attrs.len() ==> value_refs_declared(all, (#[trigger] attrs[j]).1),
    decreases attrs.len(),
{
    if attrs.len() > 0 {
        let rest = attrs.drop_first();
        lemma_scan_attrs(all, r, rest);
        lemma_scan_refs(all, r, attrs[0].0@, value_refs(attrs[0].1));
        assert forall|j: int| 0 <= j < rest.len() implies #[trigger] rest[j] == attrs[j + 1] by {}
        if forall|j: int| 0 <= j < attrs.len() ==> value_refs_declared(all, (#[trigger] attrs[j]).1) {
            assert(value_refs_declared(all, attrs[0].1));
            assert forall|j: int| 0 <= j < rest.len() implies value_refs_declared(all, (#[trigger] rest[j]).1) by {
                assert(rest[j] == attrs[j + 1]);
            }
        }
        if scan_attrs(all, r, attrs) is Ok {
            assert forall|j: int| 0 <= j < attrs.len() implies value_refs_declared(all, (#[trigger] attrs[j]).1) by {
                if j > 0 {
                    assert(rest[j - 1] == attrs[j]);
                }
            }
        }
    }
}

proof fn lemma_scan_resources(all: Seq<Resource>, rs: Seq<Resource>)
    ensures
        scan_resources(all, rs) is Ok <==> resources_refs_declared(all, rs),
    decreases rs.len(),
{
    if rs.len() > 0 {
        let rest = rs.drop_first();
        lemma_scan_resources(all, rest);
        lemma_scan_attrs(all, rs[0], rs[0].attributes@);
        assert forall|i: int| 0 <= i < rest.len() implies #[trigger] rest[i] == rs[i + 1] by {}
        if resources_refs_declared(all, rs) {
            assert forall|j: int| 0 <= j < rs[0].attributes@.len() implies value_refs_declared(all, (#[trigger] rs[0].attributes@[j]).1) by {}
            assert forall|i: int, j: int| 0 <= i < rest.len() && 0 <= j < rest[i].attributes@.len()
                implies value_refs_declared(all, (#[trigger] rest[i].attributes@[j]).1) by {
                assert(rest[i] == rs[i + 1]);
            }
        }
        if scan_resources(all, rs) is Ok {
            assert(scan_attrs(all, rs[0], rs[0].attributes@) is Ok);
            assert(scan_resources(all, rest) is Ok);
            assert forall|i: int, j: int| 0 <= i < rs.len() && 0 <= j < rs[i].attributes@.len()
                implies value_refs_declared(all, (#[trigger] rs[i].attributes@[j]).1) by {
                if i > 0 {
                    assert(rest[i - 1] == rs[i]);
                    assert(value_refs_declared(all, rest[i - 1].attributes@[j].1));
                } else {
                    assert(value_refs_declared(all, rs[0].attributes@[j].1));
                }
            }
        }
    }
}

fn declares_exec(rs: &Vec<Resource>, type_id: &String, name: &String) -> (r: bool)
    ensures
        r == declares(rs@, type_id@, name@),
{
    for k in 0..rs.len()
        invariant
            forall|j: int| 0 <= j < k ==> !((#[trigger] rs@[j]).type_id@ == type_id@ && rs@[j].name@ == name@),
    {
        if rs[k].type_id == *type_id && rs[k].name == *name {
            assert(rs@[k as int].type_id@ == type_id@);
            return true;
        }
    }
    false
}

fn dangling_failure_exec(r: &Resource, attr: &String, tt: &String, tn: &String) -> (f: AssertionFailure)
    ensures
        f@ == dangling_failure(*r, attr@, (tt@, tn@)),
{
    let mut m = String::from_str("`");
    m.append(r.type_id.as_str());
    m.append(".");
    m.append(r.name.as_str());
    m.append(".");
    m.append(attr.as_str());
    m.append("` references `");
    m.append(tt.as_str());
    m.append(".");
    m.append(tn.as_str());
    m.append("` which is not declared");
    let mut p = resource_pointer_exec(&r.type_id, &r.name);
    p.append("/");
    p.append(attr.as_str());
    AssertionFailure::new(m.as_str()).at(p.as_str())
}

fn scan_attrs_exec(all: &Vec<Resource>, r: &Resource) -> (res: Result<(), AssertionFailure>)
    ensures
        outcome_view(res) == scan_attrs(all@, *r, r.attributes@),
{
    let attrs = &r.attributes;
    assert(attrs@.skip(0) =~= attrs@);
    for j in 0..attrs.len()
        invariant
            attrs == &r.attributes,
            scan_attrs(all@, *r, attrs@) == scan_attrs(all@, *r, attrs@.skip(j as int)),
    {
        let ghost rest = attrs@.skip(j as int);
        assert(rest[0] == attrs@[j as int]);
        assert(rest.drop_first() =~= attrs@.skip(j + 1));
        let refs = walk_refs(&attrs[j].1);
        let ghost rv = refs@.map_values(|p: (String, String)| (p.0@, p.1@));
        assert(rv.skip(0) =~= rv);
        for k in 0..refs.len()
            invariant
                j < attrs@.len(),
                attrs == &r.attributes,
                scan_attrs(all@, *r, attrs@) == scan_attrs(all@, *r, attrs@.skip(j as int)),
                rest == attrs@.skip(j as int),
                rest[0] == attrs@[j as int],
                rest.drop_first() == attrs@.skip(j + 1),
                rv == value_refs(attrs@[j as int].1),
                rv == refs@.map_values(|p: (String, String)| (p.0@, p.1@)),
                scan_refs(all@, *r, attrs@[j as int].0@, rv) == scan_refs(all@, *r, attrs@[j as int].0@, rv.skip(k as int)),
        {
            let ghost rrest = rv.skip(k as int);
            assert(rrest[0] == (refs@[k as int].0@, refs@[k as int].1@));
            assert(rrest.drop_first() =~= rv.skip(k + 1));
            if !declares_exec(all, &refs[k].0, &refs[k].1) {
                return Err(dangling_failure_exec(r, &attrs[j].0, &refs[k].0, &refs[k].1));
            }
        }
        assert(rv.skip(refs.len() as int).len() == 0);
    }
    assert(attrs@.skip(attrs.len() as int).len() == 0);
    Ok(())
}

/// Every `${type.name.attr}` reference in the architecture names a resource
/// that the same architecture declares.
#[derive(Debug, Clone, Copy)]
pub struct RefValid;

impl RefValid {
    pub open spec fn verdict(&self, arch: Architecture) -> Result<(), FailureView> {
        scan_resources(arch.resources@, arch.resources@)
    }
}

impl Assertion for RefValid {
    open spec fn admits(&self, arch: Architecture, doc: Json) -> bool {
        architecture_wf(arch) && json_wf(doc)
    }

    open spec fn allows(&self, arch: Architecture, doc: Json, r: Result<(), FailureView>) -> bool {
        r == self.verdict(arch)
    }

    open spec fn description(&self) -> Seq<char> {
        "ref-valid"@
    }

    fn check(&self, ctx: &AssertContext<'_>) -> (r: Result<(), AssertionFailure>) {
        let rs = &ctx.architecture.resources;
        assert(rs@.skip(0) =~= rs@);
        for i in 0..rs.len()
            invariant
                rs == &ctx.architecture.resources,
                scan_resources(rs@, rs@) == scan_resources(rs@, rs@.skip(i as int)),
        {
            let ghost rest = rs@.skip(i as int);
            assert(rest[0] == rs@[i as int]);
            assert(rest.drop_first() =~= rs@.skip(i + 1));
            match scan_attrs_exec(rs, &rs[i]) {
                Ok(()) => {},
                Err(f) => {
                    return Err(f);
                },
            }
        }
        assert(rs@.skip(rs.len() as int).len() == 0);
        Ok(())
    }

    fn describe(&self) -> (s: String) {
        String::from_str("ref-valid")
    }
}


// ---------------------------------------------------------------------------
// ref-targets
// ---------------------------------------------------------------------------

pub open spec fn is_named(r: Resource, type_id: Seq<char>, name: Seq<char>) -> bool {
    r.type_id@ == type_id && r.name@ == name
}

/// The first resource of that type and name.
pub open spec fn find_resource(rs: Seq<Resource>, type_id: Seq<char>, name: Seq<char>) -> Option<Resource> {
    if exists|k: int| 0 <= k < rs.len() && is_named(#[trigger] rs[k], type_id, name) {
        let k = choose|k: int|
            0 <= k < rs.len() && is_named(rs[k], type_id, name) && forall|j: int|
                0 <= j < k ==> !is_named(#[trigger] rs[j], type_id, name);
        Some(rs[k])
    } else {
        None
    }
}

/// The value of the first attribute with that key.
pub open spec fn find_attribute(attrs: Seq<(String, Value)>, key: Seq<char>) -> Option<Value> {
    if exists|k: int| 0 <= k < attrs.len() && (#[trigger] attrs[k]).0@ == key {
        let k = choose|k: int|
            0 <= k < attrs.len() && attrs[k].0@ == key && forall|j: int|
                0 <= j < k ==> (#[trigger] attrs[j]).0@ != key;
        Some(attrs[k].1)
    } else {
        None
    }
}

fn find_resource_exec<'a>(rs: &'a Vec<Resource>, type_id: &String, name: &String) -> (r: Option<&'a Resource>)
    ensures
        match r {
            Some(x) => find_resource(rs@, type_id@, name@) == Some(*x),
            None => find_resource(rs@, type_id@, name@) is None,
        },
{
    for k in 0..rs.len()
        invariant
            forall|j: int| 0 <= j < k ==> !is_named(#[trigger] rs@[j], type_id@, name@),
    {
        if rs[k].type_id == *type_id && rs[k].name == *name {
            proof {
                let ki = k as int;
                assert(is_named(rs@[ki], type_id@, name@));
                let c = choose|c: int|
                    0 <= c < rs@.len() && is_named(rs@[c], type_id@, name@) && forall|j: int|
                        0 <= j < c ==> !is_named(#[trigger] rs@[j], type_id@, name@);
                assert(0 <= c < rs@.len() && is_named(rs@[c], type_id@, name@) && forall|j: int|
                    0 <= j < c ==> !is_named(#[trigger] rs@[j], type_id@, name@));
                if c < ki {
                    assert(!is_named(rs@[c], type_id@, name@));
                }
                if ki < c {
                    assert(!is_named(rs@[ki], type_id@, name@));
                }
            }
            return Some(&rs[k]);
        }
    }
    None
}

fn find_attribute_exec<'a>(attrs: &'a Vec<(String, Value)>, key: &String) -> (r: Option<&'a Value>)
    ensures
        match r {
            Some(x) => find_attribute(attrs@, key@) == Some(*x),
            None => find_attribute(attrs@, key@) is None,
        },
{
    for k in 0..attrs.len()
        invariant
            forall|j: int| 0 <= j < k ==> (#[trigger] attrs@[j]).0@ != key@,
    {
        if attrs[k].0 == *key {
            proof {
                let ki = k as int;
                assert(attrs@[ki].0@ == key@);
                let c = choose|c: int|
                    0 <= c < attrs@.len() && attrs@[c].0@ == key@ && forall|j: int|
                        0 <= j < c ==> (#[trigger] attrs@[j]).0@ != key@;
                assert(0 <= c < attrs@.len() && attrs@[c].0@ == key@ && forall|j: int|
                    0 <= j < c ==> (#[trigger] attrs@[j]).0@ != key@);
                if c < ki {
                    assert(attrs@[c].0@ != key@);
                }
                if ki < c {
                    assert(attrs@[ki].0@ != key@);
                }
            }
            return Some(&attrs[k].1);
        }
    }
    None
}

/// `<source_type>.<source_name>.<source_attr>` references the resource
/// `<target_type>.<target_name>`.
#[derive(Debug)]
pub struct RefTargets {
    pub source_type: String,
    pub source_name: String,
    pub source_attr: String,
    pub target_type: String,
    pub target_name: String,
}

impl RefTargets {
    pub fn new(source_type: &str, source_name: &str, source_attr: &str, target_type: &str, target_name: &str) -> (r: RefTargets)
        ensures
            r.source_type@ == source_type@,
            r.source_name@ == source_name@,
            r.source_attr@ == source_attr@,
            r.target_type@ == target_type@,
            r.target_name@ == target_name@,
    {
        RefTargets {
            source_type: String::from_str(source_type),
            source_name: String::from_str(source_name),
            source_attr: String::from_str(source_attr),
            target_type: String::from_str(target_type),
            target_name: String::from_str(target_name),
        }
    }

    pub open spec fn verdict(&self, arch: Architecture) -> Result<(), FailureView> {
        let st = self.source_type@;
        let sn = self.source_name@;
        let sa = self.source_attr@;
        match find_resource(arch.resources@, st, sn) {
            None => Err(failure_at("source resource `"@ + st + "."@ + sn + "` not present"@,
                resource_pointer(st, sn))),
            Some(res) => match find_attribute(res.attributes@, underscored(sa)) {
                None => Err(failure("source attribute `"@ + st + "."@ + sn + "."@ + sa + "` not set"@)),
                Some(v) => if value_refs(v).contains((self.target_type@, self.target_name@)) {
                    Ok(())
                } else {
                    Err(failure("`"@ + st + "."@ + sn + "."@ + sa + "` does not reference `"@
                        + self.target_type@ + "."@ + self.target_name@ + "`"@))
                },
            },
        }
    }
}

impl Assertion for RefTargets {
    open spec fn admits(&self, arch: Architecture, doc: Json) -> bool {
        architecture_wf(arch) && json_wf(doc)
    }

    open spec fn allows(&self, arch: Architecture, doc: Json, r: Result<(), FailureView>) -> bool {
        r == self.verdict(arch)
    }

    open spec fn description(&self) -> Seq<char> {
        "ref-targets "@ + self.source_type@ + "."@ + self.source_name@ + "."@ + self.source_attr@
            + " → "@ + self.target_type@ + "."@ + self.target_name@
    }

    #[verifier::loop_isolation(false)]
    fn check(&self, ctx: &AssertContext<'_>) -> (r: Result<(), AssertionFailure>) {
        let rs = &ctx.architecture.resources;
        let res = match find_resource_exec(rs, &self.source_type, &self.source_name) {
            Some(x) => x,
            None => {
                let mut m = String::from_str("source resource `");
                m.append(self.source_type.as_str());
                m.append(".");
                m.append(self.source_name.as_str());
                m.append("` not present");
                let p = resource_pointer_exec(&self.source_type, &self.source_name);
                return Err(AssertionFailure::new(m.as_str()).at(p.as_str()));
            },
        };
        let key = underscore_dashes(self.source_attr.as_str());
        let val = match find_attribute_exec(&res.attributes, &key) {
            Some(v) => v,
            None => {
                let mut m = String::from_str("source attribute `");
                m.append(self.source_type.as_str());
                m.append(".");
                m.append(self.source_name.as_str());
                m.append(".");
                m.append(self.source_attr.as_str());
                m.append("` not set");
                return Err(AssertionFailure::new(m.as_str()));
            },
        };
        let refs = walk_refs(val);
        let ghost rv = refs@.map_values(|p: (String, String)| (p.0@, p.1@));
        let ghost target = (self.target_type@, self.target_name@);
        for k in 0..refs.len()
            invariant
                rv == refs@.map_values(|p: (String, String)| (p.0@, p.1@)),
                target == (self.target_type@, self.target_name@),
                forall|j: int| 0 <= j < k ==> #[trigger] rv[j] != target,
        {
            if refs[k].0 == self.target_type && refs[k].1 == self.target_name {
                assert(rv[k as int] == target);
                return Ok(());
            }
        }
        assert(!rv.contains(target));
        let mut m = String::from_str("`");
        m.append(self.source_type.as_str());
        m.append(".");
        m.append(self.source_name.as_str());
        m.append(".");
        m.append(self.source_attr.as_str());
        m.append("` does not reference `");
        m.append(self.target_type.as_str());
        m.append(".");
        m.append(self.target_name.as_str());
        m.append("`");
        Err(AssertionFailure::new(m.as_str()))
    }

    fn describe(&self) -> (s: String) {
        let mut s = String::from_str("ref-targets ");
        s.append(self.source_type.as_str());
        s.append(".");
        s.append(self.source_name.as_str());
        s.append(".");
        s.append(self.source_attr.as_str());
        s.append(" → ");
        s.append(self.target_type.as_str());
        s.append(".");
        s.append(self.target_name.as_str());
        s
    }
}

// ---------------------------------------------------------------------------
// regex-matches
// ---------------------------------------------------------------------------

/// `resource.<type_id>.<name>.<attr>` matches the regular expression
/// `pattern`. The library reads and keeps the pattern but holds no pattern
/// engine: a check reports, at the attribute, that the pattern was not
/// evaluated, and never passes.
#[derive(Debug)]
pub struct RegexMatches {
    pub type_id: String,
    pub name: String,
    pub attr: String,
    pub pattern: String,
}

impl RegexMatches {
    pub fn new(type_id: &str, name: &str, attr: &str, pattern: &str) -> (r: RegexMatches)
        ensures
            r.type_id@ == type_id@,
            r.name@ == name@,
            r.attr@ == attr@,
            r.pattern@ == pattern@,
    {
        RegexMatches {
            type_id: String::from_str(type_id),
            name: String::from_str(name),
            attr: String::from_str(attr),
            pattern: String::from_str(pattern),
        }
    }

    pub open spec fn verdict(&self, doc: Json) -> Result<(), FailureView> {
        Err(failure_at("pattern `"@ + self.pattern@ + "` on `"@ + self.type_id@ + "."@ + self.name@ + "."@
            + self.attr@ + "` was not evaluated: no pattern engine"@, attribute_pointer(
            self.type_id@,
            self.name@,
            self.attr@,
        )))
    }
}

impl Assertion for RegexMatches {
    open spec fn admits(&self, arch: Architecture, doc: Json) -> bool {
        architecture_wf(arch) && json_wf(doc)
    }

    open spec fn allows(&self, arch: Architecture, doc: Json, r: Result<(), FailureView>) -> bool {
        r == self.verdict(doc)
    }

    open spec fn description(&self) -> Seq<char> {
        "regex-matches "@ + self.type_id@ + "."@ + self.name@ + "."@ + self.attr@
    }

    fn check(&self, ctx: &AssertContext<'_>) -> (r: Result<(), AssertionFailure>) {
        let mut p = resource_pointer_exec(&self.type_id, &self.name);
        p.append("/");
        p.append(self.attr.as_str());
        let mut m = String::from_str("pattern `");
        m.append(self.pattern.as_str());
        m.append("` on `");
        m.append(self.type_id.as_str());
        m.append(".");
        m.append(self.name.as_str());
        m.append(".");
        m.append(self.attr.as_str());
        m.append("` was not evaluated: no pattern engine");
        Err(AssertionFailure::new(m.as_str()).at(p.as_str()))
    }

    fn describe(&self) -> (s: String) {
        let mut s = String::from_str("regex-matches ");
        s.append(self.type_id.as_str());
        s.append(".");
        s.append(self.name.as_str());
        s.append(".");
        s.append(self.attr.as_str());
        s
    }
}

impl Clone for RegexMatches {
    fn clone(&self) -> (r: RegexMatches)
        ensures
            r.type_id@ == self.type_id@,
            r.name@ == self.name@,
            r.attr@ == self.attr@,
            r.pattern@ == self.pattern@,
    {
        RegexMatches {
            type_id: self.type_id.clone(),
            name: self.name.clone(),
            attr: self.attr.clone(),
            pattern: self.pattern.clone(),
        }
    }
}

// ---------------------------------------------------------------------------
// property
// ---------------------------------------------------------------------------

/// The failure a predicate's complaint `msg` becomes.
pub open spec fn property_failure(label: Seq<char>, msg: Seq<char>) -> FailureView {
    failure("`"@ + label + "` did not hold: "@ + msg)
}

/// What a predicate's result becomes.
pub open spec fn property_verdict(label: Seq<char>, pr: Result<(), String>) -> Result<(), FailureView> {
    match pr {
        Ok(()) => Ok(()),
        Err(msg) => Err(property_failure(label, msg@)),
    }
}

/// Turns a predicate's result into a check result.
pub fn property_outcome(label: &String, pr: Result<(), String>) -> (r: Result<(), AssertionFailure>)
    ensures
        outcome_view(r) == property_verdict(label@, pr),
{
    match pr {
        Ok(()) => Ok(()),
        Err(msg) => {
            let mut m = String::from_str("`");
            m.append(label.as_str());
            m.append("` did not hold: ");
            m.append(msg.as_str());
            Err(AssertionFailure::new(m.as_str()))
        },
    }
}

/// A labelled predicate over the rendered document; a complaint from the
/// predicate becomes a failure carrying the label.
pub struct PropertyHolds<F> {
    pub label: String,
    pub predicate: F,
}

impl<F: Fn(&Json) -> Result<(), String>> PropertyHolds<F> {
    pub fn new(label: &str, predicate: F) -> (r: PropertyHolds<F>)
        ensures
            r.label@ == label@,
            r.predicate == predicate,
    {
        PropertyHolds { label: String::from_str(label), predicate }
    }
}

impl<F: Fn(&Json) -> Result<(), String>> Assertion for PropertyHolds<F> {
    open spec fn admits(&self, arch: Architecture, doc: Json) -> bool {
        call_requires(self.predicate, (&doc,))
    }

    open spec fn allows(&self, arch: Architecture, doc: Json, r: Result<(), FailureView>) -> bool {
        exists|pr: Result<(), String>|
            call_ensures(self.predicate, (&doc,), pr) && r == property_verdict(self.label@, pr)
    }

    open spec fn description(&self) -> Seq<char> {
        "property "@ + self.label@
    }

    fn check(&self, ctx: &AssertContext<'_>) -> (r: Result<(), AssertionFailure>) {
        let pr = (self.predicate)(&ctx.terraform_json);
        let ghost prv = pr;
        let r = property_outcome(&self.label, pr);
        assert(call_ensures(self.predicate, (&ctx.terraform_json,), prv) && outcome_view(r)
            == property_verdict(self.label@, prv));
        r
    }

    fn describe(&self) -> (s: String) {
        let mut s = String::from_str("property ");
        s.append(self.label.as_str());
        s
    }
}


// ---------------------------------------------------------------------------
// Any built-in assertion
// ---------------------------------------------------------------------------

/// One of the built-in assertions; the form that the source parser builds.
#[derive(Debug)]
pub enum BuiltinAssertion {
    ResourceExists(ResourceExists),
    NoResource(NoResource),
    AttributeEquals(AttributeEquals),
    ResourceCount(ResourceCount),
    OutputEquals(OutputEquals),
    RefValid(RefValid),
    TagEquals(TagEquals),
    MinResourcesOfKind(MinResourcesOfKind),
    RegexMatches(RegexMatches),
    RefTargets(RefTargets),
}

/// The value of a built-in assertion: its kind and its fields.
pub enum AssertionView {
    ResourceExists(Seq<char>, Seq<char>),
    NoResource(Seq<char>, Seq<char>),
    AttributeEquals(Seq<char>, Seq<char>, Seq<char>, JsonView),
    ResourceCount(Seq<char>, nat),
    OutputEquals(Seq<char>, JsonView),
    RefValid,
    TagEquals(Seq<char>, Seq<char>, Seq<char>, Seq<char>),
    MinResourcesOfKind(Seq<char>, nat),
    RegexMatches(Seq<char>, Seq<char>, Seq<char>, Seq<char>),
    RefTargets(Seq<char>, Seq<char>, Seq<char>, Seq<char>, Seq<char>),
}

impl View for BuiltinAssertion {
    type V = AssertionView;

    open spec fn view(&self) -> AssertionView {
        match self {
            BuiltinAssertion::ResourceExists(a) => AssertionView::ResourceExists(a.type_id@, a.name@),
            BuiltinAssertion::NoResource(a) => AssertionView::NoResource(a.type_id@, a.name@),
            BuiltinAssertion::AttributeEquals(a) => AssertionView::AttributeEquals(
                a.type_id@,
                a.name@,
                a.attr@,
                a.expected@,
            ),
            BuiltinAssertion::ResourceCount(a) => AssertionView::ResourceCount(a.type_id@, a.expected as nat),
            BuiltinAssertion::OutputEquals(a) => AssertionView::OutputEquals(a.name@, a.expected@),
            BuiltinAssertion::RefValid(_) => AssertionView::RefValid,
            BuiltinAssertion::TagEquals(a) => AssertionView::TagEquals(a.type_id@, a.name@, a.key@, a.expected@),
            BuiltinAssertion::MinResourcesOfKind(a) => AssertionView::MinResourcesOfKind(a.type_id@, a.min as nat),
            BuiltinAssertion::RegexMatches(a) => AssertionView::RegexMatches(a.type_id@, a.name@, a.attr@, a.pattern@),
            BuiltinAssertion::RefTargets(a) => AssertionView::RefTargets(
                a.source_type@,
                a.source_name@,
                a.source_attr@,
                a.target_type@,
                a.target_name@,
            ),
        }
    }
}

impl BuiltinAssertion {
    /// The result a check gives against `arch` and its document `doc`.
    pub open spec fn verdict(&self, arch: Architecture, doc: Json) -> Result<(), FailureView> {
        match self {
            BuiltinAssertion::ResourceExists(a) => a.verdict(doc),
            BuiltinAssertion::NoResource(a) => a.verdict(doc),
            BuiltinAssertion::AttributeEquals(a) => a.verdict(doc),
            BuiltinAssertion::ResourceCount(a) => a.verdict(doc),
            BuiltinAssertion::OutputEquals(a) => a.verdict(doc),
            BuiltinAssertion::RefValid(a) => a.verdict(arch),
            BuiltinAssertion::TagEquals(a) => a.verdict(doc),
            BuiltinAssertion::MinResourcesOfKind(a) => a.verdict(doc),
            BuiltinAssertion::RegexMatches(a) => a.verdict(doc),
            BuiltinAssertion::RefTargets(a) => a.verdict(arch),
        }
    }
}

impl Assertion for BuiltinAssertion {
    open spec fn admits(&self, arch: Architecture, doc: Json) -> bool {
        architecture_wf(arch) && json_wf(doc)
    }

    open spec fn allows(&self, arch: Architecture, doc: Json, r: Result<(), FailureView>) -> bool {
        r == self.verdict(arch, doc)
    }

    open spec fn description(&self) -> Seq<char> {
        match self {
            BuiltinAssertion::ResourceExists(a) => a.description(),
            BuiltinAssertion::NoResource(a) => a.description(),
            BuiltinAssertion::AttributeEquals(a) => a.description(),
            BuiltinAssertion::ResourceCount(a) => a.description(),
            BuiltinAssertion::OutputEquals(a) => a.description(),
            BuiltinAssertion::RefValid(a) => a.description(),
            BuiltinAssertion::TagEquals(a) => a.description(),
            BuiltinAssertion::MinResourcesOfKind(a) => a.description(),
            BuiltinAssertion::RegexMatches(a) => a.description(),
            BuiltinAssertion::RefTargets(a) => a.description(),
        }
    }

    fn check(&self, ctx: &AssertContext<'_>) -> (r: Result<(), AssertionFailure>) {
        match self {
            BuiltinAssertion::ResourceExists(a) => a.check(ctx),
            BuiltinAssertion::NoResource(a) => a.check(ctx),
            BuiltinAssertion::AttributeEquals(a) => a.check(ctx),
            BuiltinAssertion::ResourceCount(a) => a.check(ctx),
            BuiltinAssertion::OutputEquals(a) => a.check(ctx),
            BuiltinAssertion::RefValid(a) => a.check(ctx),
            BuiltinAssertion::TagEquals(a) => a.check(ctx),
            BuiltinAssertion::MinResourcesOfKind(a) => a.check(ctx),
            BuiltinAssertion::RegexMatches(a) => a.check(ctx),
            BuiltinAssertion::RefTargets(a) => a.check(ctx),
        }
    }

    fn describe(&self) -> (s: String) {
        match self {
            BuiltinAssertion::ResourceExists(a) => a.describe(),
            BuiltinAssertion::NoResource(a) => a.describe(),
            BuiltinAssertion::AttributeEquals(a) => a.describe(),
            BuiltinAssertion::ResourceCount(a) => a.describe(),
            BuiltinAssertion::OutputEquals(a) => a.describe(),
            BuiltinAssertion::RefValid(a) => a.describe(),
            BuiltinAssertion::TagEquals(a) => a.describe(),
            BuiltinAssertion::MinResourcesOfKind(a) => a.describe(),
            BuiltinAssertion::RegexMatches(a) => a.describe(),
            BuiltinAssertion::RefTargets(a) => a.describe(),
        }
    }
}


// ---------------------------------------------------------------------------
// Laws
// ---------------------------------------------------------------------------

/// For one type and name, exactly one of `resource-exists` and
/// `no-resource` holds against any document.
pub proof fn law_exists_and_absent_are_complementary(e: ResourceExists, a: NoResource, doc: Json)
    requires
        e.type_id@ == a.type_id@,
        e.name@ == a.name@,
    ensures
        (e.verdict(doc) is Ok) != (a.verdict(doc) is Ok),
{
}

/// A kind that holds exactly `n` resources holds at least `m` of them for
/// every `m` up to `n`.
pub proof fn law_exact_count_meets_lower_bounds(c: ResourceCount, m: MinResourcesOfKind, doc: Json)
    requires
        c.type_id@ == m.type_id@,
        m.min <= c.expected,
        c.verdict(doc) is Ok,
    ensures
        m.verdict(doc) is Ok,
{
}

/// Whether an attribute value, when it is a reference, names a resource that
/// the architecture declares with that type and name.
pub open spec fn reference_resolves(arch: Architecture, v: Value) -> bool {
    match v {
        Value::Ref(r) => exists|k: int| 0 <= k < arch.resources@.len() && (#[trigger] arch.resources@[k]).type_id@
            == r.type_id@ && arch.resources@[k].name@ == r.name@,
        Value::Json(_) => true,
    }
}

/// `ref-valid` holds exactly when every attribute of every resource that is
/// a reference names a declared resource of the same type and name.
pub proof fn law_ref_valid_means_every_reference_resolves(arch: Architecture)
    ensures
        RefValid.verdict(arch) is Ok <==> forall|i: int, j: int|
            0 <= i < arch.resources@.len() && 0 <= j < arch.resources@[i].attributes@.len()
                ==> reference_resolves(arch, (#[trigger] arch.resources@[i].attributes@[j]).1),
{
    law_ref_valid_iff_every_reference_declared(arch);
    let rs = arch.resources@;
    assert forall|i: int, j: int| 0 <= i < rs.len() && 0 <= j < rs[i].attributes@.len() implies
        value_refs_declared(rs, (#[trigger] rs[i].attributes@[j]).1) == reference_resolves(arch, rs[i].attributes@[j].1) by {
        let v = rs[i].attributes@[j].1;
        match v {
            Value::Ref(r) => {
                assert(value_refs(v) == seq![(r.type_id@, r.name@)]);
                if value_refs_declared(rs, v) {
                    assert(declares(rs, value_refs(v)[0].0, value_refs(v)[0].1));
                }
                if reference_resolves(arch, v) {
                    assert forall|k: int| 0 <= k < value_refs(v).len() implies declares(rs, (#[trigger] value_refs(v)[k]).0, value_refs(v)[k].1) by {
                        assert(k == 0);
                    }
                }
            },
            Value::Json(_) => {},
        }
    }
}

/// `resource-exists` holds exactly when the document holds a value at
/// `/resource/<type>/<name>`.
pub proof fn law_resource_exists_reads_the_resource(e: ResourceExists, doc: Json)
    ensures
        e.verdict(doc) is Ok <==> lookup(doc, "/resource/"@ + e.type_id@ + "/"@ + e.name@) is Some,
{
}

/// `output-equals` holds exactly when the document holds a value at
/// `/output/<name>/value` and that value equals the expected one.
pub proof fn law_output_equals_compares_the_output(o: OutputEquals, doc: Json)
    ensures
        o.verdict(doc) is Ok <==> (lookup(doc, "/output/"@ + o.name@ + "/value"@) matches Some(v) && json_eq(
            v,
            o.expected,
        )),
{
}

/// `resource-count` holds exactly when the document lists, under
/// `/resource/<type>`, an object with exactly the expected number of
/// members, or lists nothing there (nor anything but an object) and zero
/// are expected.
pub proof fn law_resource_count_is_exact(c: ResourceCount, doc: Json)
    ensures
        c.verdict(doc) is Ok <==> match lookup(doc, "/resource/"@ + c.type_id@) {
            Some(Json::Object(m)) => m@.len() == c.expected,
            _ => c.expected == 0,
        },
{
}

/// Two `resource-count` checks of one type with different numbers never
/// both hold.
pub proof fn law_exact_counts_exclude_each_other(a: ResourceCount, b: ResourceCount, doc: Json)
    requires
        a.type_id@ == b.type_id@,
        a.expected != b.expected,
    ensures
        !(a.verdict(doc) is Ok && b.verdict(doc) is Ok),
{
}

/// `min-resources-of-kind` holds exactly when the document lists at least
/// the minimum number of resources of the type.
pub proof fn law_min_resources_is_a_lower_bound(m: MinResourcesOfKind, doc: Json)
    ensures
        m.verdict(doc) is Ok <==> match lookup(doc, "/resource/"@ + m.type_id@) {
            Some(Json::Object(x)) => x@.len() >= m.min,
            _ => m.min == 0,
        },
{
}

/// `tag-equals` holds exactly when the document holds, at
/// `/resource/<type>/<name>/tags/<key>`, a string equal to the expected one.
pub proof fn law_tag_equals_reads_the_tag(a: TagEquals, doc: Json)
    ensures
        a.verdict(doc) is Ok <==> (lookup(doc, "/resource/"@ + a.type_id@ + "/"@ + a.name@ + "/tags/"@ + a.key@) matches Some(
            Json::String(s),
        ) && s@ == a.expected@),
{
}

/// Two `tag-equals` checks of one tag with different expected values never
/// both hold.
pub proof fn law_tag_values_exclude_each_other(a: TagEquals, b: TagEquals, doc: Json)
    requires
        a.type_id@ == b.type_id@,
        a.name@ == b.name@,
        a.key@ == b.key@,
        a.expected@ != b.expected@,
    ensures
        !(a.verdict(doc) is Ok && b.verdict(doc) is Ok),
{
}

/// `attribute-equals` holds exactly when the document holds a value at the
/// attribute and that value equals the expected one.
pub proof fn law_attribute_equals_compares_the_value_found(a: AttributeEquals, doc: Json)
    ensures
        a.verdict(doc) is Ok <==> (lookup(doc, "/resource/"@ + a.type_id@ + "/"@ + a.name@ + "/"@ + a.attr@) matches Some(v)
            && json_eq(v, a.expected)),
{
}

/// Whether an attribute value is a reference to the resource of that type
/// and name.
pub open spec fn is_reference_to(v: Value, type_id: Seq<char>, name: Seq<char>) -> bool {
    match v {
        Value::Ref(r) => r.type_id@ == type_id && r.name@ == name,
        Value::Json(_) => false,
    }
}

/// When `attribute-equals` holds with an expected object and the document
/// holds an object at the attribute, the two have the same keys: an
/// expected key the attribute lacks, or a key of the attribute the expected
/// object lacks, makes it fail.
pub proof fn law_attribute_equals_matches_objects_key_for_key(a: AttributeEquals, doc: Json)
    requires
        json_wf(doc),
        json_wf(a.expected),
        a.verdict(doc) is Ok,
        lookup(doc, attribute_pointer(a.type_id@, a.name@, a.attr@)) matches Some(Json::Object(_)),
        a.expected is Object,
    ensures
        ({
            let x = lookup(doc, attribute_pointer(a.type_id@, a.name@, a.attr@))->Some_0->Object_0;
            let y = a.expected->Object_0;
            &&& x@.len() == y@.len()
            &&& forall|i: int| 0 <= i < x@.len() ==> has_key(y@, (#[trigger] x@[i]).0@)
            &&& forall|j: int| 0 <= j < y@.len() ==> has_key(x@, (#[trigger] y@[j]).0@)
        }),
{
    let p = attribute_pointer(a.type_id@, a.name@, a.attr@);
    lemma_lookup_wf(doc, p);
    let x = lookup(doc, p)->Some_0->Object_0;
    let y = a.expected->Object_0;
    law_equal_objects_have_the_same_keys(x, y);
}

proof fn lemma_find_resource(rs: Seq<Resource>, type_id: Seq<char>, name: Seq<char>)
    ensures
        find_resource(rs, type_id, name) matches Some(r) ==> exists|k: int|
            0 <= k < rs.len() && rs[k] == r && #[trigger] is_named(rs[k], type_id, name),
        forall|k: int| 0 <= k < rs.len() && is_named(#[trigger] rs[k], type_id, name) && (forall|j: int|
            0 <= j < rs.len() && j != k ==> !is_named(#[trigger] rs[j], type_id, name))
            ==> find_resource(rs, type_id, name) == Some(rs[k]),
{
    if exists|k: int| 0 <= k < rs.len() && is_named(#[trigger] rs[k], type_id, name) {
        let w = choose|k: int| 0 <= k < rs.len() && is_named(#[trigger] rs[k], type_id, name);
        lemma_least_named(rs, type_id, name, w);
        let k = choose|k: int|
            0 <= k < rs.len() && is_named(rs[k], type_id, name) && forall|j: int|
                0 <= j < k ==> !is_named(#[trigger] rs[j], type_id, name);
        assert(find_resource(rs, type_id, name) == Some(rs[k]));
        assert forall|k2: int| 0 <= k2 < rs.len() && is_named(#[trigger] rs[k2], type_id, name) && (forall|j: int|
            0 <= j < rs.len() && j != k2 ==> !is_named(#[trigger] rs[j], type_id, name))
            implies find_resource(rs, type_id, name) == Some(rs[k2]) by {
            if k != k2 {
                assert(!is_named(rs[k], type_id, name));
            }
        }
    }
}

proof fn lemma_least_named(rs: Seq<Resource>, type_id: Seq<char>, name: Seq<char>, w: int)
    requires
        0 <= w < rs.len(),
        is_named(rs[w], type_id, name),
    ensures
        exists|k: int| 0 <= k < rs.len() && is_named(rs[k], type_id, name) && forall|j: int|
            0 <= j < k ==> !is_named(#[trigger] rs[j], type_id, name),
    decreases w,
{
    if exists|j: int| 0 <= j < w && is_named(#[trigger] rs[j], type_id, name) {
        let j = choose|j: int| 0 <= j < w && is_named(#[trigger] rs[j], type_id, name);
        lemma_least_named(rs, type_id, name, j);
    } else {
        assert(0 <= w < rs.len() && is_named(rs[w], type_id, name) && forall|j: int|
            0 <= j < w ==> !is_named(#[trigger] rs[j], type_id, name));
    }
}

proof fn lemma_least_key(attrs: Seq<(String, Value)>, key: Seq<char>, w: int)
    requires
        0 <= w < attrs.len(),
        attrs[w].0@ == key,
    ensures
        exists|k: int| 0 <= k < attrs.len() && attrs[k].0@ == key && forall|j: int|
            0 <= j < k ==> (#[trigger] attrs[j]).0@ != key,
    decreases w,
{
    if exists|j: int| 0 <= j < w && (#[trigger] attrs[j]).0@ == key {
        let j = choose|j: int| 0 <= j < w && (#[trigger] attrs[j]).0@ == key;
        lemma_least_key(attrs, key, j);
    } else {
        assert(0 <= w < attrs.len() && attrs[w].0@ == key && forall|j: int|
            0 <= j < w ==> (#[trigger] attrs[j]).0@ != key);
    }
}

proof fn lemma_find_attribute(attrs: Seq<(String, Value)>, key: Seq<char>)
    ensures
        find_attribute(attrs, key) matches Some(v) ==> exists|k: int|
            0 <= k < attrs.len() && (#[trigger] attrs[k]).0@ == key && attrs[k].1 == v,
        forall|k: int| 0 <= k < attrs.len() && (#[trigger] attrs[k]).0@ == key && (forall|j: int|
            0 <= j < attrs.len() && j != k ==> (#[trigger] attrs[j]).0@ != key)
            ==> find_attribute(attrs, key) == Some(attrs[k].1),
{
    if exists|k: int| 0 <= k < attrs.len() && (#[trigger] attrs[k]).0@ == key {
        let w = choose|k: int| 0 <= k < attrs.len() && (#[trigger] attrs[k]).0@ == key;
        lemma_least_key(attrs, key, w);
        let k = choose|k: int|
            0 <= k < attrs.len() && attrs[k].0@ == key && forall|j: int|
                0 <= j < k ==> (#[trigger] attrs[j]).0@ != key;
        assert(find_attribute(attrs, key) == Some(attrs[k].1));
        assert forall|k2: int| 0 <= k2 < attrs.len() && (#[trigger] attrs[k2]).0@ == key && (forall|j: int|
            0 <= j < attrs.len() && j != k2 ==> (#[trigger] attrs[j]).0@ != key)
            implies find_attribute(attrs, key) == Some(attrs[k2].1) by {
            if k != k2 {
                assert(attrs[k].0@ != key);
            }
        }
    }
}

/// When `ref-targets` holds, the architecture has a resource of the source
/// type and name whose attribute of the source name (dashes read as
/// underscores) is a reference to a resource of the target type and name.
pub proof fn law_ref_targets_holds_only_for_the_target(a: RefTargets, arch: Architecture)
    ensures
        a.verdict(arch) is Ok ==> exists|i: int, j: int|
            0 <= i < arch.resources@.len() && 0 <= j < arch.resources@[i].attributes@.len()
                && arch.resources@[i].type_id@ == a.source_type@ && arch.resources@[i].name@ == a.source_name@
                && (#[trigger] arch.resources@[i].attributes@[j]).0@ == underscored(a.source_attr@)
                && is_reference_to(arch.resources@[i].attributes@[j].1, a.target_type@, a.target_name@),
{
    let rs = arch.resources@;
    lemma_find_resource(rs, a.source_type@, a.source_name@);
    if a.verdict(arch) is Ok {
        let res = find_resource(rs, a.source_type@, a.source_name@)->Some_0;
        let i = choose|k: int| 0 <= k < rs.len() && rs[k] == res && #[trigger] is_named(rs[k], a.source_type@, a.source_name@);
        lemma_find_attribute(res.attributes@, underscored(a.source_attr@));
        let v = find_attribute(res.attributes@, underscored(a.source_attr@))->Some_0;
        let j = choose|k: int| 0 <= k < res.attributes@.len() && (#[trigger] res.attributes@[k]).0@ == underscored(a.source_attr@)
            && res.attributes@[k].1 == v;
        assert(value_refs(v).contains((a.target_type@, a.target_name@)));
        assert(rs[i].attributes@[j].0@ == underscored(a.source_attr@));
    }
}

/// When the architecture declares the source resource once, and that
/// resource's attribute of the source name (dashes read as underscores) is a
/// reference to the target, `ref-targets` holds.
pub proof fn law_ref_targets_holds_for_the_target(a: RefTargets, arch: Architecture, i: int, j: int)
    requires
        architecture_wf(arch),
        0 <= i < arch.resources@.len(),
        arch.resources@[i].type_id@ == a.source_type@,
        arch.resources@[i].name@ == a.source_name@,
        forall|k: int| 0 <= k < arch.resources@.len() && k != i ==> !((#[trigger] arch.resources@[k]).type_id@
            == a.source_type@ && arch.resources@[k].name@ == a.source_name@),
        0 <= j < arch.resources@[i].attributes@.len(),
        arch.resources@[i].attributes@[j].0@ == underscored(a.source_attr@),
        is_reference_to(arch.resources@[i].attributes@[j].1, a.target_type@, a.target_name@),
    ensures
        a.verdict(arch) is Ok,
{
    let rs = arch.resources@;
    lemma_find_resource(rs, a.source_type@, a.source_name@);
    assert(is_named(rs[i], a.source_type@, a.source_name@));
    assert forall|k: int| 0 <= k < rs.len() && k != i implies !is_named(#[trigger] rs[k], a.source_type@, a.source_name@) by {}
    let res = rs[i];
    assert(resource_wf(res));
    lemma_find_attribute(res.attributes@, underscored(a.source_attr@));
    assert forall|k: int| 0 <= k < res.attributes@.len() && k != j implies (#[trigger] res.attributes@[k]).0@
        != underscored(a.source_attr@) by {
        if k < j {
            assert(res.attributes@[k].0@ != res.attributes@[j].0@);
        } else {
            assert(res.attributes@[j].0@ != res.attributes@[k].0@);
        }
    }
    let v = res.attributes@[j].1;
    assert(value_refs(v)[0] == (a.target_type@, a.target_name@));
}

/// The source head that names each kind of assertion.
pub open spec fn head_name(v: AssertionView) -> Seq<char> {
    match v {
        AssertionView::ResourceExists(..) => "resource-exists"@,
        AssertionView::NoResource(..) => "no-resource"@,
        AssertionView::AttributeEquals(..) => "attribute-equals"@,
        AssertionView::ResourceCount(..) => "resource-count"@,
        AssertionView::OutputEquals(..) => "output-equals"@,
        AssertionView::RefValid => "ref-valid"@,
        AssertionView::TagEquals(..) => "tag-equals"@,
        AssertionView::MinResourcesOfKind(..) => "min-resources-of-kind"@,
        AssertionView::RegexMatches(..) => "regex-matches"@,
        AssertionView::RefTargets(..) => "ref-targets"@,
    }
}

/// An assertion's description starts with the head that names its kind.
pub proof fn law_description_starts_with_head(a: BuiltinAssertion)
    ensures
        a.description().len() >= head_name(a@).len(),
        a.description().take(head_name(a@).len() as int) == head_name(a@),
{
    reveal_strlit("resource-exists ");
    reveal_strlit("resource-exists");
    reveal_strlit("no-resource ");
    reveal_strlit("no-resource");
    reveal_strlit("attribute-equals ");
    reveal_strlit("attribute-equals");
    reveal_strlit("resource-count ");
    reveal_strlit("resource-count");
    reveal_strlit("output-equals ");
    reveal_strlit("output-equals");
    reveal_strlit("ref-valid");
    reveal_strlit("tag-equals ");
    reveal_strlit("tag-equals");
    reveal_strlit("min-resources-of-kind ");
    reveal_strlit("min-resources-of-kind");
    reveal_strlit("regex-matches ");
    reveal_strlit("regex-matches");
    reveal_strlit("ref-targets ");
    reveal_strlit("ref-targets");
    let d = a.description();
    let h = head_name(a@);
    assert(d.take(h.len() as int) =~= h);
}

/// An architecture passes `ref-valid` exactly when every reference held by
/// an attribute of any of its resources names a resource that the same
/// architecture declares.
pub proof fn law_ref_valid_iff_every_reference_declared(arch: Architecture)
    ensures
        RefValid.verdict(arch) is Ok <==> resources_refs_declared(arch.resources@, arch.resources@),
{
    lemma_scan_resources(arch.resources@, arch.resources@);
}

/// `attribute-equals` holds of a well-formed document when it expects the
/// very value that the document holds at the attribute.
pub proof fn law_attribute_equals_accepts_the_value_present(a: AttributeEquals, doc: Json)
    requires
        json_wf(doc),
        lookup(doc, attribute_pointer(a.type_id@, a.name@, a.attr@)) == Some(a.expected),
    ensures
        a.verdict(doc) is Ok,
{
    lemma_lookup_wf(doc, attribute_pointer(a.type_id@, a.name@, a.attr@));
    law_json_eq_reflexive(a.expected);
}

/// `output-equals` holds of a well-formed document when it expects the very
/// value of the output.
pub proof fn law_output_equals_accepts_the_value_present(o: OutputEquals, doc: Json)
    requires
        json_wf(doc),
        lookup(doc, output_pointer(o.name@)) == Some(o.expected),
    ensures
        o.verdict(doc) is Ok,
{
    lemma_lookup_wf(doc, output_pointer(o.name@));
    law_json_eq_reflexive(o.expected);
}

// ---------------------------------------------------------------------------
// Copies and comparisons
// ---------------------------------------------------------------------------

impl Clone for ResourceExists {
    fn clone(&self) -> (r: ResourceExists)
        ensures
            r.type_id@ == self.type_id@,
            r.name@ == self.name@,
    {
        ResourceExists { type_id: self.type_id.clone(), name: self.name.clone() }
    }
}

impl Clone for NoResource {
    fn clone(&self) -> (r: NoResource)
        ensures
            r.type_id@ == self.type_id@,
            r.name@ == self.name@,
    {
        NoResource { type_id: self.type_id.clone(), name: self.name.clone() }
    }
}

impl Clone for AttributeEquals {
    fn clone(&self) -> (r: AttributeEquals)
        ensures
            r.type_id@ == self.type_id@,
            r.name@ == self.name@,
            r.attr@ == self.attr@,
            r.expected@ == self.expected@,
    {
        AttributeEquals {
            type_id: self.type_id.clone(),
            name: self.name.clone(),
            attr: self.attr.clone(),
            expected: self.expected.clone(),
        }
    }
}

impl Clone for ResourceCount {
    fn clone(&self) -> (r: ResourceCount)
        ensures
            r.type_id@ == self.type_id@,
            r.expected == self.expected,
    {
        ResourceCount { type_id: self.type_id.clone(), expected: self.expected }
    }
}

impl Clone for OutputEquals {
    fn clone(&self) -> (r: OutputEquals)
        ensures
            r.name@ == self.name@,
            r.expected@ == self.expected@,
    {
        OutputEquals { name: self.name.clone(), expected: self.expected.clone() }
    }
}

impl Clone for TagEquals {
    fn clone(&self) -> (r: TagEquals)
        ensures
            r.type_id@ == self.type_id@,
            r.name@ == self.name@,
            r.key@ == self.key@,
            r.expected@ == self.expected@,
    {
        TagEquals {
            type_id: self.type_id.clone(),
            name: self.name.clone(),
            key: self.key.clone(),
            expected: self.expected.clone(),
        }
    }
}

impl Clone for MinResourcesOfKind {
    fn clone(&self) -> (r: MinResourcesOfKind)
        ensures
            r.type_id@ == self.type_id@,
            r.min == self.min,
    {
        MinResourcesOfKind { type_id: self.type_id.clone(), min: self.min }
    }
}

impl Clone for RefTargets {
    fn clone(&self) -> (r: RefTargets)
        ensures
            r.source_type@ == self.source_type@,
            r.source_name@ == self.source_name@,
            r.source_attr@ == self.source_attr@,
            r.target_type@ == self.target_type@,
            r.target_name@ == self.target_name@,
    {
        RefTargets {
            source_type: self.source_type.clone(),
            source_name: self.source_name.clone(),
            source_attr: self.source_attr.clone(),
            target_type: self.target_type.clone(),
            target_name: self.target_name.clone(),
        }
    }
}

impl PartialEq for ResourceExists {
    fn eq(&self, other: &ResourceExists) -> (r: bool) {
        self.type_id == other.type_id && self.name == other.name
    }
}

impl vstd::std_specs::cmp::PartialEqSpecImpl for ResourceExists {
    open spec fn obeys_eq_spec() -> bool {
        true
    }

    open spec fn eq_spec(&self, other: &ResourceExists) -> bool {
        self.type_id@ == other.type_id@ && self.name@ == other.name@
    }
}

impl Eq for ResourceExists {}

impl PartialEq for NoResource {
    fn eq(&self, other: &NoResource) -> (r: bool) {
        self.type_id == other.type_id && self.name == other.name
    }
}

impl vstd::std_specs::cmp::PartialEqSpecImpl for NoResource {
    open spec fn obeys_eq_spec() -> bool {
        true
    }

    open spec fn eq_spec(&self, other: &NoResource) -> bool {
        self.type_id@ == other.type_id@ && self.name@ == other.name@
    }
}

impl Eq for NoResource {}

impl PartialEq for ResourceCount {
    fn eq(&self, other: &ResourceCount) -> (r: bool) {
        self.type_id == other.type_id && self.expected == other.expected
    }
}

impl vstd::std_specs::cmp::PartialEqSpecImpl for ResourceCount {
    open spec fn obeys_eq_spec() -> bool {
        true
    }

    open spec fn eq_spec(&self, other: &ResourceCount) -> bool {
        self.type_id@ == other.type_id@ && self.expected == other.expected
    }
}

impl Eq for ResourceCount {}

impl PartialEq for MinResourcesOfKind {
    fn eq(&self, other: &MinResourcesOfKind) -> (r: bool) {
        self.type_id == other.type_id && self.min == other.min
    }
}

impl vstd::std_specs::cmp::PartialEqSpecImpl for MinResourcesOfKind {
    open spec fn obeys_eq_spec() -> bool {
        true
    }

    open spec fn eq_spec(&self, other: &MinResourcesOfKind) -> bool {
        self.type_id@ == other.type_id@ && self.min == other.min
    }
}

impl Eq for MinResourcesOfKind {}

} // verus!
