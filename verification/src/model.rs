//! The parts of a lava architecture that assertions read: its resources,
//! their attributes, and the references between them.

use vstd::prelude::*;
use crate::json::{Json, json_wf};

verus! {

/// A `${type.name.attr}` reference to an attribute of another resource.
#[derive(Debug)]
pub struct ResourceRef {
    pub type_id: String,
    pub name: String,
    pub attribute: String,
}

/// An attribute value: a reference, or a literal JSON value.
#[derive(Debug)]
pub enum Value {
    Ref(ResourceRef),
    Json(Json),
}

/// One declared resource.
#[derive(Debug)]
pub struct Resource {
    pub type_id: String,
    pub name: String,
    pub attributes: Vec<(String, Value)>,
}

/// An architecture: a named set of resources.
#[derive(Debug)]
pub struct Architecture {
    pub name: String,
    pub resources: Vec<Resource>,
}

/// An attribute value as a resource can hold it: a literal is a well-formed
/// JSON value.
pub open spec fn value_wf(v: Value) -> bool {
    match v {
        Value::Json(j) => json_wf(j),
        Value::Ref(_) => true,
    }
}

/// A resource as an architecture holds it: no two attributes share a name,
/// and every value is well formed.
pub open spec fn resource_wf(r: Resource) -> bool {
    &&& forall|a: int, b: int| 0 <= a < b < r.attributes@.len() ==> (#[trigger] r.attributes@[a]).0@
        != (#[trigger] r.attributes@[b]).0@
    &&& forall|a: int| 0 <= a < r.attributes@.len() ==> value_wf((#[trigger] r.attributes@[a]).1)
}

/// An architecture whose resources are all well formed.
pub open spec fn architecture_wf(arch: Architecture) -> bool {
    forall|i: int| 0 <= i < arch.resources@.len() ==> resource_wf(#[trigger] arch.resources@[i])
}

impl Architecture {
    /// An architecture with no resources.
    pub fn new(name: &str) -> (r: Architecture)
        ensures
            r.name@ == name@,
            r.resources@.len() == 0,
            architecture_wf(r),
    {
        Architecture { name: String::from_str(name), resources: Vec::new() }
    }
}

impl Value {
    /// A literal string value.
    pub fn s(text: &str) -> (r: Value)
        ensures
            r matches Value::Json(Json::String(t)) && t@ == text@,
    {
        Value::Json(Json::String(String::from_str(text)))
    }

    /// A literal boolean value.
    pub fn b(flag: bool) -> (r: Value)
        ensures
            r matches Value::Json(Json::Bool(x)) && x == flag,
    {
        Value::Json(Json::Bool(flag))
    }
}

/// The `(type, name)` pairs that an attribute value refers to: a reference
/// refers to its target; a literal JSON value refers to nothing.
pub open spec fn value_refs(v: Value) -> Seq<(Seq<char>, Seq<char>)> {
    match v {
        Value::Ref(r) => seq![(r.type_id@, r.name@)],
        Value::Json(_) => Seq::empty(),
    }
}

/// Whether the architecture declares a resource of that type and name.
pub open spec fn declares(resources: Seq<Resource>, type_id: Seq<char>, name: Seq<char>) -> bool {
    exists|k: int| 0 <= k < resources.len() && (#[trigger] resources[k]).type_id@ == type_id
        && resources[k].name@ == name
}

/// Walks a literal JSON value for references; a literal holds none, so the
/// walk leaves `out` as it was.
#[verifier::loop_isolation(false)]
fn walk_json(v: &Json, out: &mut Vec<(String, String)>)
    ensures
        final(out)@ == old(out)@,
    decreases v,
{
    match v {
        Json::Array(items) => {
            for i in 0..items.len()
                invariant
                    out@ == old(out)@,
            {
                walk_json(&items[i], out);
            }
        },
        Json::Object(m) => {
            for i in 0..m.len()
                invariant
                    out@ == old(out)@,
            {
                walk_json(&m[i].1, out);
            }
        },
        _ => {},
    }
}

/// The `(type, name)` targets of the references in an attribute value.
pub fn walk_refs(v: &Value) -> (r: Vec<(String, String)>)
    ensures
        r@.map_values(|p: (String, String)| (p.0@, p.1@)) == value_refs(*v),
{
    let mut out: Vec<(String, String)> = Vec::new();
    match v {
        Value::Ref(r) => {
            out.push((r.type_id.clone(), r.name.clone()));
        },
        Value::Json(json) => {
            walk_json(json, &mut out);
        },
    }
    assert(out@.map_values(|p: (String, String)| (p.0@, p.1@)) =~= value_refs(*v));
    out
}

} // verus!
