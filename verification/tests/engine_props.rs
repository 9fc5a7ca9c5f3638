//! Behavioural tests for the conversion engine: exact group layouts,
//! round-trips through the YAML parser, both policies, and the anchor
//! compactor.

use clash_sub::converter::{compact_anchors, convert_subscription, convert_with_policy, Policy};
use serde_yaml::Value;

fn parse(output: &str) -> Value {
    serde_yaml::from_str(output).expect("output must be valid YAML")
}

fn group_names(doc: &Value) -> Vec<String> {
    doc.get("proxy-groups")
        .unwrap()
        .as_sequence()
        .unwrap()
        .iter()
        .map(|g| g.get("name").unwrap().as_str().unwrap().to_string())
        .collect()
}

fn group_members(doc: &Value, name: &str) -> Vec<String> {
    let groups = doc.get("proxy-groups").unwrap().as_sequence().unwrap();
    for g in groups {
        if g.get("name").unwrap().as_str().unwrap() == name {
            return g
                .get("proxies")
                .unwrap()
                .as_sequence()
                .unwrap()
                .iter()
                .map(|m| m.as_str().unwrap().to_string())
                .collect();
        }
    }
    panic!("no group named {}", name);
}

fn simple_input(names: &[&str]) -> String {
    let mut s = String::from("proxies:\n");
    for n in names {
        s.push_str(&format!(
            "  - name: \"{}\"\n    type: ss\n    server: x.example.com\n    port: 443\n",
            n
        ));
    }
    s
}

#[test]
fn test_heuristic_exact_region_layout() {
    let input = simple_input(&["HK-01", "HK-02", "US-01"]);
    let output = convert_subscription(&input).unwrap();
    let doc = parse(&output);

    assert_eq!(group_names(&doc), vec!["默认代理", "HK", "US"]);
    assert_eq!(group_members(&doc, "默认代理"), vec!["HK", "US", "DIRECT"]);
    assert_eq!(group_members(&doc, "HK"), vec!["HK-01", "HK-02"]);
    assert_eq!(group_members(&doc, "US"), vec!["US-01"]);
}

#[test]
fn test_heuristic_info_before_region() {
    let input = simple_input(&["剩余流量：10GB", "香港-01"]);
    let output = convert_subscription(&input).unwrap();
    let doc = parse(&output);

    assert_eq!(group_names(&doc), vec!["默认代理", "订阅信息", "香港"]);
    assert_eq!(
        group_members(&doc, "默认代理"),
        vec!["订阅信息", "香港", "DIRECT"]
    );
    assert_eq!(group_members(&doc, "订阅信息"), vec!["剩余流量：10GB"]);
    assert_eq!(group_members(&doc, "香港"), vec!["香港-01"]);
}

#[test]
fn test_all_digit_name_goes_to_aggregate_group() {
    let input = simple_input(&["01", "香港-01"]);
    let output = convert_subscription(&input).unwrap();
    let doc = parse(&output);

    assert_eq!(group_names(&doc), vec!["默认代理", "香港", "其他"]);
    assert_eq!(
        group_members(&doc, "默认代理"),
        vec!["香港", "其他", "DIRECT"]
    );
    assert_eq!(group_members(&doc, "其他"), vec!["01"]);
}

#[test]
fn test_region_order_not_alphabetical() {
    let input = simple_input(&["ZZ-01", "AA-01"]);
    let output = convert_subscription(&input).unwrap();
    let doc = parse(&output);

    // grouping follows first occurrence, not the alphabet
    assert_eq!(group_names(&doc), vec!["默认代理", "ZZ", "AA"]);
}

#[test]
fn test_region_members_sorted() {
    let input = simple_input(&["HK-03", "HK-01", "HK-02"]);
    let output = convert_subscription(&input).unwrap();
    let doc = parse(&output);

    assert_eq!(group_members(&doc, "HK"), vec!["HK-01", "HK-02", "HK-03"]);
}

#[test]
fn test_round_trip_counts_heuristic() {
    let input = simple_input(&["剩余流量：10GB", "HK-01", "HK-02", "US-01", "01"]);
    let output = convert_subscription(&input).unwrap();
    let doc = parse(&output);

    assert_eq!(doc.get("proxies").unwrap().as_sequence().unwrap().len(), 5);
    assert_eq!(doc.get("rules").unwrap().as_sequence().unwrap().len(), 3);
}

#[test]
fn test_round_trip_counts_fixed() {
    let input = simple_input(&["香港-01", "日本-01", "SpecialNode"]);
    let output = convert_with_policy(&input, Policy::FixedPattern).unwrap();
    let doc = parse(&output);

    assert_eq!(doc.get("proxies").unwrap().as_sequence().unwrap().len(), 3);
    assert_eq!(doc.get("rules").unwrap().as_sequence().unwrap().len(), 3);
}

#[test]
fn test_unnamed_node_kept_but_not_grouped() {
    let input = "proxies:\n  - type: ss\n    server: x.example.com\n  - name: \"HK-01\"\n    type: ss\n    server: y.example.com\n";
    let output = convert_subscription(input).unwrap();
    let doc = parse(&output);

    assert_eq!(doc.get("proxies").unwrap().as_sequence().unwrap().len(), 2);
    assert_eq!(group_names(&doc), vec!["默认代理", "HK"]);
    assert_eq!(group_members(&doc, "HK"), vec!["HK-01"]);
}

#[test]
fn test_empty_name_goes_to_aggregate_group() {
    let input = simple_input(&[""]);
    let output = convert_subscription(&input).unwrap();
    let doc = parse(&output);

    assert_eq!(group_names(&doc), vec!["默认代理", "其他"]);
    assert_eq!(group_members(&doc, "其他"), vec![""]);
}

#[test]
fn test_parse_failure_message() {
    let err = convert_subscription("invalid yaml content: [[[").unwrap_err();
    assert_eq!(err.0, "Failed to parse YAML");

    let err = convert_subscription("proxies: 7\n").unwrap_err();
    assert_eq!(err.0, "Failed to parse YAML");
}

#[test]
fn test_fixed_policy_structure() {
    let input = simple_input(&["香港-01", "hongkong 2"]);
    let output = convert_with_policy(&input, Policy::FixedPattern).unwrap();

    assert!(output.starts_with(".lb_common: &lb_common\n"));
    assert!(output.contains("<<: *lb_common"));
    assert!(output.contains("默认流量"));
    assert!(output.contains("节点选择"));
    assert!(output.contains("香港负载组"));
    assert!(output.contains("其他负载组"));
    assert!(output.contains("GEOIP,CN,直接连接"));
    assert!(output.contains("MATCH,默认流量"));

    let doc = parse(&output);
    assert_eq!(group_members(&doc, "节点选择"), vec!["香港-01", "hongkong 2"]);
    assert_eq!(group_members(&doc, "直接连接"), vec!["DIRECT"]);
}

#[test]
fn test_fixed_policy_sentinel_always_present() {
    let output = convert_with_policy("proxies: []\n", Policy::FixedPattern).unwrap();
    assert!(output.contains("其他负载组"));

    let doc = parse(&output);
    let names = group_names(&doc);
    assert_eq!(names.first().unwrap(), "默认流量");
    assert!(names.contains(&"其他负载组".to_string()));
    assert_eq!(names.last().unwrap(), "直接连接");
}

#[test]
fn test_fixed_policy_inactive_regions_absent() {
    let input = simple_input(&["SpecialNode"]);
    let output = convert_with_policy(&input, Policy::FixedPattern).unwrap();

    // no name matches the Turkey pattern, so its group must not appear
    assert!(!output.contains("土耳其负载组"));
    assert!(output.contains("其他负载组"));
}

#[test]
fn test_compactor_idempotent() {
    let text = "proxy-groups:\n- name: a\n  type: load-balance\n  include-all: true\n  url: http://www.gstatic.com/generate_204\n  interval: 180\n  strategy: consistent-hashing\n- name: b\n  type: load-balance\n  url: http://www.gstatic.com/generate_204\n  interval: 180\n  strategy: consistent-hashing\n";
    let once = compact_anchors(text);
    let twice = compact_anchors(&once);

    assert_eq!(once, twice);
    assert_eq!(once.matches(".lb_common: &lb_common").count(), 1);
    assert_eq!(once.matches("<<: *lb_common").count(), 2);
    // the probe url survives only inside the shared-definition block
    assert_eq!(
        once.matches("url: http://www.gstatic.com/generate_204").count(),
        1
    );
}

#[test]
fn test_compactor_leaves_incomplete_triplet_alone() {
    let text = "proxy-groups:\n- name: a\n  type: load-balance\n  url: http://www.gstatic.com/generate_204\n  interval: 999\n  strategy: consistent-hashing\n";
    let once = compact_anchors(text);

    // the interval does not match the expected literal: no replacement
    assert!(!once.contains("<<: *lb_common"));
    assert!(once.contains("  url: http://www.gstatic.com/generate_204\n  interval: 999\n"));
}

#[test]
fn test_fixed_policy_output_idempotent_under_compactor() {
    let input = simple_input(&["香港-01", "US-01"]);
    let output = convert_with_policy(&input, Policy::FixedPattern).unwrap();
    assert_eq!(compact_anchors(&output), output);
    assert_eq!(output.matches(".lb_common: &lb_common").count(), 1);
}

#[test]
fn test_quoted_names_survive_round_trip() {
    let input = "proxies:\n  - name: \"tricky: #name\"\n    type: ss\n    server: x.example.com\n";
    let output = convert_subscription(input).unwrap();
    let doc = parse(&output);

    // the name has no tag, so it lands in the aggregate group, quoted
    assert_eq!(group_members(&doc, "其他"), vec!["tricky: #name"]);
}

#[test]
fn test_zero_nodes_main_selector_has_direct() {
    let output = convert_subscription("proxies: []\n").unwrap();
    let doc = parse(&output);

    assert_eq!(group_names(&doc), vec!["默认代理"]);
    assert_eq!(group_members(&doc, "默认代理"), vec!["DIRECT"]);
}

#[test]
fn test_fixed_policy_regions_in_table_order() {
    // input order is 美国 before 香港, but the table lists 香港 first
    let input = simple_input(&["美国-01", "香港-01"]);
    let output = convert_with_policy(&input, Policy::FixedPattern).unwrap();
    let doc = parse(&output);

    assert_eq!(
        group_names(&doc),
        vec![
            "默认流量",
            "节点选择",
            "全部节点负载组",
            "香港负载组",
            "美国负载组",
            "其他负载组",
            "直接连接"
        ]
    );
}
