//! The untyped document boundary: trusted declarations for the parts of
//! serde_yaml that carry nodes in and out of the engine.
//!
//! A proxy node is an opaque structured value; the engine only ever reads
//! its `name` string and passes the rest through unchanged. Each function
//! of serde_yaml that the engine relies on is named here once, with its
//! result bound to an uninterpreted function of the arguments, so that the
//! verified logic above can state exactly how the conversion output is
//! assembled from these results.

use vstd::prelude::*;

verus! {

#[verifier::external_type_specification]
#[verifier::external_body]
pub struct ExValue(serde_yaml::Value);

/// What `serde_yaml::from_str::<serde_yaml::Value>` returns on this text:
/// the parsed document, or nothing when the text is not well-formed YAML.
pub uninterp spec fn parsed_doc(s: Seq<char>) -> Option<serde_yaml::Value>;

/// Relies on `serde_yaml::from_str::<Value>`: a deterministic parse of the
/// input text.
#[verifier::external_body]
pub fn parse_yaml(s: &str) -> (r: Option<serde_yaml::Value>)
    ensures
        r == parsed_doc(s@),
{
    serde_yaml::from_str(s).ok()
}

/// The node sequence a document holds under its `proxies` key, or nothing
/// when the key is absent or does not hold a sequence.
pub uninterp spec fn doc_nodes(v: serde_yaml::Value) -> Option<Seq<serde_yaml::Value>>;

/// Relies on `serde_yaml::Value::get`, `Value::as_sequence` and `Value`'s
/// `Clone`: the owned node list under the `proxies` key, exactly when that
/// key holds a sequence.
#[verifier::external_body]
pub fn get_doc_nodes(v: &serde_yaml::Value) -> (r: Option<Vec<serde_yaml::Value>>)
    ensures
        r is Some <==> doc_nodes(*v) is Some,
        r matches Some(ns) ==> ns@ == doc_nodes(*v).unwrap(),
{
    match v.get("proxies") {
        Some(p) => p.as_sequence().cloned(),
        None => None,
    }
}

/// The string a node holds under its `name` key, or nothing when the key
/// is absent or does not hold a string.
pub uninterp spec fn node_name(v: serde_yaml::Value) -> Option<Seq<char>>;

/// Relies on `serde_yaml::Value::get` and `Value::as_str`: the node's
/// `name` string, exactly when the key is present and holds a string.
#[verifier::external_body]
pub fn get_proxy_name(proxy: &serde_yaml::Value) -> (r: Option<String>)
    ensures
        r is Some <==> node_name(*proxy) is Some,
        r matches Some(s) ==> s@ == node_name(*proxy).unwrap(),
{
    proxy.get("name").and_then(|n| n.as_str()).map(|s| s.to_string())
}

/// The YAML text serde_yaml emits for this node list, or nothing when
/// serialization fails.
pub uninterp spec fn nodes_yaml(ns: Seq<serde_yaml::Value>) -> Option<Seq<char>>;

/// Relies on `serde_yaml::to_string` on a value sequence: a deterministic
/// rendering of the nodes as a YAML list.
#[verifier::external_body]
pub fn nodes_to_yaml(ns: &Vec<serde_yaml::Value>) -> (r: Option<String>)
    ensures
        r is Some <==> nodes_yaml(ns@) is Some,
        r matches Some(s) ==> s@ == nodes_yaml(ns@).unwrap(),
{
    serde_yaml::to_string(ns).ok()
}

} // verus!
