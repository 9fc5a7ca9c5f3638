//! Converting a proxy-subscription document into a routed client
//! configuration: decode the node list, classify the nodes, synthesize the
//! group hierarchy and rule list, and render the whole document back to
//! YAML text.
//!
//! Two classification policies are available. The heuristic policy derives
//! region tags from the node names themselves and emits a fixed settings
//! block; it is what `convert_subscription` uses. The fixed-pattern policy
//! matches names against a static region table and compacts the repeated
//! probe blocks of its output through the anchor compactor.

use crate::compact::compact_spec;
pub use crate::groups::ProxyGroup;
use crate::groups::fixed_groups;
use crate::groups::fixed_groups_ok;
use crate::groups::heuristic_groups;
use crate::groups::heuristic_groups_ok;
use crate::groups::lemma_strs_view;
use crate::groups::opts_view;
use crate::groups::strs_view;
use crate::render::groups_text;
use crate::render::push_groups_and_rules;
use crate::render::push_str_chars;
use crate::render::push_with_nl;
use crate::render::rules_text;
use crate::render::with_nl;
use crate::text::chars_to_string;
use crate::text::lemma_deep_view_strings;
use crate::yamldoc::doc_nodes;
use crate::yamldoc::get_doc_nodes;
use crate::yamldoc::node_name;
use crate::yamldoc::nodes_to_yaml;
use crate::yamldoc::nodes_yaml;
use crate::yamldoc::parse_yaml;
use crate::yamldoc::parsed_doc;
use vstd::prelude::*;

pub use crate::classify::extract_region;
pub use crate::classify::is_info_node;
pub use crate::compact::compact_anchors;
pub use crate::yamldoc::get_proxy_name;

verus! {

/// Error type for conversion.
#[derive(Debug)]
pub struct ConvertError(pub String);

/// Represents the input configuration: only the node list under the
/// `proxies` key is read, everything else is ignored.
pub struct InputConfig {
    pub proxies: Vec<serde_yaml::Value>,
}

/// Represents the output configuration: the passthrough node list, the
/// synthesized groups and the routing rules, in that order.
pub struct OutputConfig {
    pub proxies: Vec<serde_yaml::Value>,
    pub proxy_groups: Vec<ProxyGroup>,
    pub rules: Vec<String>,
}

/// The two interchangeable classification policies.
#[derive(Debug, Clone, Copy)]
pub enum Policy {
    Heuristic,
    FixedPattern,
}

/// The optional name of each node, in input order.
pub open spec fn names_of_nodes(ns: Seq<serde_yaml::Value>) -> Seq<Option<Seq<char>>> {
    ns.map_values(|v: serde_yaml::Value| node_name(v))
}

/// Pointwise description of `names_of_nodes`.
pub proof fn lemma_names_of_nodes(ns: Seq<serde_yaml::Value>)
    ensures
        names_of_nodes(ns).len() == ns.len(),
        forall|i: int| 0 <= i < ns.len() ==> #[trigger] names_of_nodes(ns)[i] == node_name(ns[i]),
{
}

/// The names that are present, in input order.
pub open spec fn present_names(names: Seq<Option<Seq<char>>>) -> Seq<Seq<char>> {
    names.filter(|o: Option<Seq<char>>| o is Some).map_values(|o: Option<Seq<char>>| o.unwrap())
}

/// The input text parses and holds a node sequence.
pub open spec fn parse_ok(s: Seq<char>) -> bool {
    parsed_doc(s) is Some && doc_nodes(parsed_doc(s).unwrap()) is Some
}

/// The node sequence of a parsed input text.
pub open spec fn input_nodes(s: Seq<char>) -> Seq<serde_yaml::Value> {
    doc_nodes(parsed_doc(s).unwrap()).unwrap()
}

/// Conversion succeeds: the input parses, and the node list serializes
/// (an empty list needs no serialization).
pub open spec fn convert_ok(s: Seq<char>) -> bool {
    parse_ok(s) && (input_nodes(s).len() == 0 || nodes_yaml(input_nodes(s)) is Some)
}

/// The node section of the output text.
pub open spec fn nodes_section(ns: Seq<serde_yaml::Value>) -> Seq<char> {
    if ns.len() == 0 {
        "proxies: []\n"@
    } else {
        "proxies:\n"@ + with_nl(nodes_yaml(ns).unwrap())
    }
}

/// The fixed settings block of the heuristic policy output.
pub open spec fn settings_text() -> Seq<char> {
    "port: 7890\nsocks-port: 7891\nallow-lan: true\nmode: rule\nlog-level: info\nexternal-controller: 127.0.0.1:9090\n"@
}

/// The routing rules of the heuristic policy.
pub open spec fn heuristic_rules() -> Seq<Seq<char>> {
    seq!["GEOIP,LAN,DIRECT"@, "GEOIP,CN,DIRECT"@, "MATCH,默认代理"@]
}

/// The routing rules of the fixed-pattern policy.
pub open spec fn fixed_rules() -> Seq<Seq<char>> {
    seq!["GEOIP,LAN,直接连接"@, "GEOIP,CN,直接连接"@, "MATCH,默认流量"@]
}

/// The heuristic policy output text for the given groups.
pub open spec fn heuristic_output(s: Seq<char>, gs: Seq<ProxyGroup>) -> Seq<char> {
    settings_text() + nodes_section(input_nodes(s)) + "proxy-groups:\n"@ + groups_text(gs)
        + "rules:\n"@ + rules_text(heuristic_rules())
}

/// The fixed-pattern policy output text for the given groups: the
/// rendered document run through the anchor compactor.
pub open spec fn fixed_output(s: Seq<char>, gs: Seq<ProxyGroup>) -> Seq<char> {
    compact_spec(
        nodes_section(input_nodes(s)) + "proxy-groups:\n"@ + groups_text(gs) + "rules:\n"@
            + rules_text(fixed_rules()),
    )
}

/// The optional node names, extracted in input order.
fn collect_names(nodes: &Vec<serde_yaml::Value>) -> (r: Vec<Option<String>>)
    ensures
        opts_view(r@) == names_of_nodes(nodes@),
{
    let mut r: Vec<Option<String>> = Vec::new();
    let mut i: usize = 0;
    proof {
        crate::groups::lemma_opts_view(r@);
        lemma_names_of_nodes(nodes@);
        assert(opts_view(r@) =~= names_of_nodes(nodes@).subrange(0, 0));
    }
    while i < nodes.len()
        invariant
            i <= nodes@.len(),
            r@.len() == i,
            opts_view(r@) == names_of_nodes(nodes@).subrange(0, i as int),
        decreases nodes@.len() - i,
    {
        let ghost old_r = r@;
        let name = get_proxy_name(&nodes[i]);
        proof {
            crate::groups::lemma_opts_view(old_r);
            lemma_names_of_nodes(nodes@);
            assert(crate::classify::opt_str_view(name) == node_name(nodes@[i as int]));
        }
        r.push(name);
        proof {
            crate::groups::lemma_opts_view(r@);
            assert(opts_view(r@) =~= names_of_nodes(nodes@).subrange(0, i + 1));
        }
        i += 1;
    }
    proof {
        assert(names_of_nodes(nodes@).subrange(0, nodes@.len() as int) =~= names_of_nodes(
            nodes@,
        ));
    }
    r
}

/// How `present_names` evolves when one more name is appended.
proof fn lemma_present_step(p: Seq<Option<Seq<char>>>, o: Option<Seq<char>>)
    ensures
        present_names(p.push(o)) == (if o is Some {
            present_names(p).push(o.unwrap())
        } else {
            present_names(p)
        }),
{
    reveal(Seq::filter);
    assert(p.push(o).drop_last() =~= p);
    assert(p.push(o).last() == o);
    let pred = |x: Option<Seq<char>>| x is Some;
    if pred(o) {
        assert(p.push(o).filter(pred) =~= p.filter(pred).push(o));
        assert(present_names(p.push(o)) =~= present_names(p).push(o.unwrap()));
    } else {
        assert(p.push(o).filter(pred) =~= p.filter(pred));
        assert(present_names(p.push(o)) =~= present_names(p));
    }
}

/// The present names, in input order.
fn names_present(names: &Vec<Option<String>>) -> (r: Vec<String>)
    ensures
        strs_view(r@) == present_names(opts_view(names@)),
{
    let ghost all = opts_view(names@);
    let ghost pred = |o: Option<Seq<char>>| o is Some;
    let mut r: Vec<String> = Vec::new();
    let mut i: usize = 0;
    proof {
        reveal(Seq::filter);
        crate::groups::lemma_opts_view(names@);
        lemma_strs_view(r@);
        assert(strs_view(r@) =~= present_names(all.subrange(0, 0)));
    }
    while i < names.len()
        invariant
            all == opts_view(names@),
            all.len() == names@.len(),
            i <= names@.len(),
            strs_view(r@) == present_names(all.subrange(0, i as int)),
        decreases names@.len() - i,
    {
        let ghost prefix = all.subrange(0, i as int);
        proof {
            crate::groups::lemma_opts_view(names@);
            assert(all.subrange(0, i + 1) =~= prefix.push(all[i as int]));
            lemma_present_step(prefix, all[i as int]);
        }
        match names[i].as_ref() {
            Some(s) => {
                let ghost old_r = r@;
                r.push(s.clone());
                proof {
                    lemma_strs_view(old_r);
                    lemma_strs_view(r@);
                    assert(all[i as int] is Some);
                    assert(strs_view(r@) =~= present_names(all.subrange(0, i + 1)));
                }
            },
            None => {
                proof {
                    assert(!(all[i as int] is Some));
                    assert(strs_view(r@) =~= present_names(all.subrange(0, i + 1)));
                }
            },
        }
        i += 1;
    }
    proof {
        assert(all.subrange(0, all.len() as int) =~= all);
    }
    r
}

/// Convert the subscription content under the chosen policy.
///
/// The call fails exactly when the input does not decode to a document
/// with a node sequence, or the node list cannot be serialized back; no
/// partial output is ever returned.
pub fn convert_with_policy(content: &str, policy: Policy) -> (r: Result<String, ConvertError>)
    ensures
        r is Ok <==> convert_ok(content@),
        !parse_ok(content@) ==> (r matches Err(e) && e.0@ == "Failed to parse YAML"@),
        parse_ok(content@) && !convert_ok(content@) ==> (r matches Err(e) && e.0@
            == "Failed to serialize YAML"@),
        (r is Ok && policy is Heuristic) ==> (exists|gs: Seq<ProxyGroup>|
            heuristic_groups_ok(names_of_nodes(input_nodes(content@)), gs)
                && r.unwrap()@ == heuristic_output(content@, gs)),
        (r is Ok && policy is FixedPattern) ==> (exists|gs: Seq<ProxyGroup>|
            fixed_groups_ok(present_names(names_of_nodes(input_nodes(content@))), gs)
                && r.unwrap()@ == fixed_output(content@, gs)),
{
    let doc = match parse_yaml(content) {
        Some(d) => d,
        None => {
            return Err(ConvertError(String::from_str("Failed to parse YAML")));
        },
    };
    let nodes = match get_doc_nodes(&doc) {
        Some(ns) => ns,
        None => {
            return Err(ConvertError(String::from_str("Failed to parse YAML")));
        },
    };
    let input = InputConfig { proxies: nodes };
    let ghost ns = input_nodes(content@);
    proof {
        assert(input.proxies@ == ns);
    }

    // the node section text, serialized through serde_yaml
    let mut body: Vec<char> = Vec::new();
    match policy {
        Policy::Heuristic => {
            push_str_chars(
                &mut body,
                "port: 7890\nsocks-port: 7891\nallow-lan: true\nmode: rule\nlog-level: info\nexternal-controller: 127.0.0.1:9090\n",
            );
        },
        Policy::FixedPattern => {},
    }
    let ghost head = body@;
    if input.proxies.len() == 0 {
        push_str_chars(&mut body, "proxies: []\n");
    } else {
        match nodes_to_yaml(&input.proxies) {
            Some(ntext) => {
                push_str_chars(&mut body, "proxies:\n");
                push_with_nl(&mut body, ntext.as_str());
            },
            None => {
                return Err(ConvertError(String::from_str("Failed to serialize YAML")));
            },
        }
    }
    proof {
        assert(body@ =~= head + nodes_section(ns));
    }

    let names = collect_names(&input.proxies);
    let groups: Vec<ProxyGroup>;
    let mut rules: Vec<String> = Vec::new();
    match policy {
        Policy::Heuristic => {
            groups = heuristic_groups(&names);
            rules.push(String::from_str("GEOIP,LAN,DIRECT"));
            rules.push(String::from_str("GEOIP,CN,DIRECT"));
            rules.push(String::from_str("MATCH,默认代理"));
            proof {
                lemma_strs_view(rules@);
                assert(strs_view(rules@) =~= heuristic_rules());
            }
        },
        Policy::FixedPattern => {
            let present = names_present(&names);
            proof {
                lemma_deep_view_strings(present);
                lemma_strs_view(present@);
                assert(present.deep_view() =~= present_names(names_of_nodes(ns)));
            }
            groups = fixed_groups(present);
            rules.push(String::from_str("GEOIP,LAN,直接连接"));
            rules.push(String::from_str("GEOIP,CN,直接连接"));
            rules.push(String::from_str("MATCH,默认流量"));
            proof {
                lemma_strs_view(rules@);
                assert(strs_view(rules@) =~= fixed_rules());
            }
        },
    }
    let output = OutputConfig { proxies: input.proxies, proxy_groups: groups, rules };
    push_groups_and_rules(&mut body, &output.proxy_groups, &output.rules);
    let text = chars_to_string(&body);
    match policy {
        Policy::Heuristic => {
            proof {
                assert(text@ == heuristic_output(content@, output.proxy_groups@));
                assert(heuristic_groups_ok(
                    names_of_nodes(input_nodes(content@)),
                    output.proxy_groups@,
                ));
            }
            Ok(text)
        },
        Policy::FixedPattern => {
            let compacted = compact_anchors(text.as_str());
            proof {
                assert(compacted@ == fixed_output(content@, output.proxy_groups@));
                assert(fixed_groups_ok(
                    present_names(names_of_nodes(input_nodes(content@))),
                    output.proxy_groups@,
                ));
            }
            Ok(compacted)
        },
    }
}

/// A parsed input with no nodes always converts: an empty node list
/// needs no serialization, so nothing can fail past the parse.
pub proof fn lemma_empty_input_converts(s: Seq<char>)
    requires
        parse_ok(s),
        input_nodes(s).len() == 0,
    ensures
        convert_ok(s),
{
}

/// Convert the subscription content with the heuristic policy.
pub fn convert_subscription(content: &str) -> (r: Result<String, ConvertError>)
    ensures
        r is Ok <==> convert_ok(content@),
        !parse_ok(content@) ==> (r matches Err(e) && e.0@ == "Failed to parse YAML"@),
        parse_ok(content@) && !convert_ok(content@) ==> (r matches Err(e) && e.0@
            == "Failed to serialize YAML"@),
        r is Ok ==> (exists|gs: Seq<ProxyGroup>|
            heuristic_groups_ok(names_of_nodes(input_nodes(content@)), gs)
                && r.unwrap()@ == heuristic_output(content@, gs)),
{
    convert_with_policy(content, Policy::Heuristic)
}

} // verus!
