//! Group synthesis: from the classified node names to the ordered list of
//! output proxy groups, for both policies.
//!
//! The fixed-pattern policy emits a fixed frame of selectors around the
//! active region load-balance groups, in table order. The heuristic policy
//! emits one main selector, an informational selector when placeholder
//! nodes exist, one load-balance group per derived region tag in
//! first-occurrence order with members sorted lexicographically, and an
//! aggregate group for unclassified names.

use crate::classify::extract_region;
use crate::classify::extract_tag;
use crate::classify::is_info_name;
use crate::classify::is_info_node;
use crate::classify::opt_str_view;
use crate::regions::active_regions;
use crate::regions::active_regions_spec;
use crate::regions::pairs_view;
use crate::text::chars_to_string;
use crate::text::lemma_deep_view_charvecs;
use crate::text::lemma_deep_view_strings;
use crate::text::sort_names;
use crate::text::sorted_lex;
use crate::text::str_to_chars;
use crate::text::vec_eq;
use vstd::prelude::*;
use vstd::seq_lib::*;

verus! {

/// Represents a proxy group of the output configuration.
#[derive(Debug, Clone)]
pub struct ProxyGroup {
    pub name: String,
    pub group_type: String,
    pub proxies: Option<Vec<String>>,
    pub include_all: Option<bool>,
    pub filter: Option<String>,
    pub url: Option<String>,
    pub interval: Option<u32>,
    pub strategy: Option<String>,
}

/// The views of a vector of strings.
pub open spec fn strs_view(s: Seq<String>) -> Seq<Seq<char>> {
    s.map_values(|x: String| x@)
}

/// Pointwise description of `strs_view`.
pub proof fn lemma_strs_view(s: Seq<String>)
    ensures
        strs_view(s).len() == s.len(),
        forall|i: int| 0 <= i < s.len() ==> #[trigger] strs_view(s)[i] == s[i]@,
{
}

/// The first components of a sequence of pairs.
pub open spec fn firsts(s: Seq<(Seq<char>, Seq<char>)>) -> Seq<Seq<char>> {
    s.map_values(|p: (Seq<char>, Seq<char>)| p.0)
}

/// Pointwise description of `firsts`.
pub proof fn lemma_firsts(s: Seq<(Seq<char>, Seq<char>)>)
    ensures
        firsts(s).len() == s.len(),
        forall|i: int| 0 <= i < s.len() ==> #[trigger] firsts(s)[i] == s[i].0,
{
}

/// The views of a vector of optional strings.
pub open spec fn opts_view(s: Seq<Option<String>>) -> Seq<Option<Seq<char>>> {
    s.map_values(|o: Option<String>| opt_str_view(o))
}

/// Pointwise description of `opts_view`.
pub proof fn lemma_opts_view(s: Seq<Option<String>>)
    ensures
        opts_view(s).len() == s.len(),
        forall|i: int| 0 <= i < s.len() ==> #[trigger] opts_view(s)[i] == opt_str_view(s[i]),
{
}

/// A selector group with the given name and member list and no other
/// attributes.
pub open spec fn is_selector(g: ProxyGroup, name: Seq<char>, members: Seq<Seq<char>>) -> bool {
    &&& g.name@ == name
    &&& g.group_type@ == "select"@
    &&& g.proxies matches Some(m) && strs_view(m@) == members
    &&& g.include_all is None
    &&& g.filter is None
    &&& g.url is None
    &&& g.interval is None
    &&& g.strategy is None
}

/// The probe policy every load-balance group carries.
pub open spec fn has_probe_policy(g: ProxyGroup) -> bool {
    &&& g.url matches Some(u) && u@ == "http://www.gstatic.com/generate_204"@
    &&& g.interval == Some(180u32)
    &&& g.strategy matches Some(s) && s@ == "consistent-hashing"@
}

/// A load-balance group that pulls in all proxies, optionally narrowed by
/// a filter pattern, with no explicit member list.
pub open spec fn is_balance_all(g: ProxyGroup, name: Seq<char>, filter: Option<Seq<char>>) -> bool {
    &&& g.name@ == name
    &&& g.group_type@ == "load-balance"@
    &&& g.proxies is None
    &&& g.include_all == Some(true)
    &&& match filter {
        Some(f) => g.filter matches Some(gf) && gf@ == f,
        None => g.filter is None,
    }
    &&& has_probe_policy(g)
}

/// A load-balance group with an explicit member list holding exactly the
/// given names, sorted lexicographically.
pub open spec fn is_balance_members(g: ProxyGroup, name: Seq<char>, members: Seq<Seq<char>>) -> bool {
    &&& g.name@ == name
    &&& g.group_type@ == "load-balance"@
    &&& g.proxies matches Some(m) && sorted_lex(strs_view(m@)) && strs_view(m@).to_multiset()
        == members.to_multiset()
    &&& g.include_all is None
    &&& g.filter is None
    &&& has_probe_policy(g)
}

/// A selector group.
fn mk_selector(name: String, members: Vec<String>) -> (g: ProxyGroup)
    ensures
        is_selector(g, name@, strs_view(members@)),
{
    ProxyGroup {
        name,
        group_type: String::from_str("select"),
        proxies: Some(members),
        include_all: None,
        filter: None,
        url: None,
        interval: None,
        strategy: None,
    }
}

/// An include-all load-balance group with the probe policy.
fn mk_balance_all(name: String, filter: Option<String>) -> (g: ProxyGroup)
    ensures
        is_balance_all(g, name@, opt_str_view(filter)),
{
    ProxyGroup {
        name,
        group_type: String::from_str("load-balance"),
        proxies: None,
        include_all: Some(true),
        filter,
        url: Some(String::from_str("http://www.gstatic.com/generate_204")),
        interval: Some(180),
        strategy: Some(String::from_str("consistent-hashing")),
    }
}

/// An explicit-member load-balance group with the probe policy.
fn mk_balance_members(name: String, members: Vec<String>) -> (g: ProxyGroup)
    ensures
        g.name@ == name@,
        g.group_type@ == "load-balance"@,
        g.proxies matches Some(m) && m@ == members@,
        g.include_all is None,
        g.filter is None,
        has_probe_policy(g),
{
    ProxyGroup {
        name,
        group_type: String::from_str("load-balance"),
        proxies: Some(members),
        include_all: None,
        filter: None,
        url: Some(String::from_str("http://www.gstatic.com/generate_204")),
        interval: Some(180),
        strategy: Some(String::from_str("consistent-hashing")),
    }
}

/// The group list of the fixed-pattern policy: the main selector, the
/// all-node selector, the all-node load-balance group, the active region
/// groups in table order, and the direct selector.
pub open spec fn fixed_groups_ok(names: Seq<Seq<char>>, gs: Seq<ProxyGroup>) -> bool {
    let active = active_regions_spec(names);
    &&& gs.len() == 4 + active.len()
    &&& is_selector(
        gs[0],
        "默认流量"@,
        seq!["节点选择"@, "直接连接"@, "全部节点负载组"@] + firsts(active),
    )
    &&& is_selector(gs[1], "节点选择"@, names)
    &&& is_balance_all(gs[2], "全部节点负载组"@, None)
    &&& forall|k: int|
        0 <= k < active.len() ==> is_balance_all(
            #[trigger] gs[3 + k],
            active[k].0,
            Some(active[k].1),
        )
    &&& is_selector(gs[3 + active.len() as int], "直接连接"@, seq!["DIRECT"@])
}

/// Build the fixed-pattern policy groups from the proxy names.
#[verifier::rlimit(50)]
pub fn fixed_groups(proxy_names: Vec<String>) -> (gs: Vec<ProxyGroup>)
    ensures
        fixed_groups_ok(proxy_names.deep_view(), gs@),
{
    proof {
        lemma_deep_view_strings(proxy_names);
    }
    let ghost names = proxy_names.deep_view();
    let active = active_regions(&proxy_names);
    let ghost active_spec = active_regions_spec(names);

    let mut top_members: Vec<String> = Vec::new();
    top_members.push(String::from_str("节点选择"));
    top_members.push(String::from_str("直接连接"));
    top_members.push(String::from_str("全部节点负载组"));
    let mut i: usize = 0;
    while i < active.len()
        invariant
            pairs_view(active@) == active_spec,
            active@.len() == active_spec.len(),
            i <= active@.len(),
            strs_view(top_members@) == seq!["节点选择"@, "直接连接"@, "全部节点负载组"@]
                + firsts(active_spec.subrange(0, i as int)),
        decreases active@.len() - i,
    {
        let ghost old_top = top_members@;
        top_members.push(active[i].0.clone());
        proof {
            crate::regions::lemma_pairs_view(active@);
            let ghost lit = seq!["节点选择"@, "直接连接"@, "全部节点负载组"@];
            let ghost rhs = lit + firsts(active_spec.subrange(0, i + 1));
            lemma_firsts(active_spec.subrange(0, i + 1));
            lemma_firsts(active_spec.subrange(0, i as int));
            lemma_strs_view(top_members@);
            lemma_strs_view(old_top);
            assert(top_members@ == old_top.push(active@[i as int].0));
            assert forall|j: int| 0 <= j < 3 + i + 1 implies strs_view(top_members@)[j] == rhs[j] by {
                assert(strs_view(top_members@)[j] == top_members@[j]@);
                if j < 3 + i {
                    assert(strs_view(old_top)[j] == old_top[j]@);
                    if 3 <= j {
                        assert(firsts(active_spec.subrange(0, i as int))[j - 3]
                            == active_spec.subrange(0, i as int)[j - 3].0);
                        assert(firsts(active_spec.subrange(0, i + 1))[j - 3]
                            == active_spec.subrange(0, i + 1)[j - 3].0);
                    }
                } else {
                    assert(pairs_view(active@)[i as int] == (active@[i as int].0@,
                        active@[i as int].1@));
                    assert(firsts(active_spec.subrange(0, i + 1))[i as int]
                        == active_spec.subrange(0, i + 1)[i as int].0);
                }
            }
            assert(strs_view(top_members@).len() == 3 + i + 1);
            assert(strs_view(top_members@) =~= rhs);
        }
        i += 1;
    }
    proof {
        assert(active_spec.subrange(0, active_spec.len() as int) =~= active_spec);
        lemma_strs_view(proxy_names@);
        lemma_deep_view_strings(proxy_names);
        assert(strs_view(proxy_names@) =~= names);
    }

    let mut gs: Vec<ProxyGroup> = Vec::new();
    gs.push(mk_selector(String::from_str("默认流量"), top_members));
    gs.push(mk_selector(String::from_str("节点选择"), proxy_names));
    gs.push(mk_balance_all(String::from_str("全部节点负载组"), None));
    let mut k: usize = 0;
    while k < active.len()
        invariant
            pairs_view(active@) == active_spec,
            active@.len() == active_spec.len(),
            k <= active@.len(),
            gs@.len() == 3 + k,
            is_selector(gs@[0], "默认流量"@, seq!["节点选择"@, "直接连接"@, "全部节点负载组"@]
                + active_spec.map_values(|p: (Seq<char>, Seq<char>)| p.0)),
            is_selector(gs@[1], "节点选择"@, names),
            is_balance_all(gs@[2], "全部节点负载组"@, None),
            forall|j: int|
                0 <= j < k ==> is_balance_all(
                    #[trigger] gs@[3 + j],
                    active_spec[j].0,
                    Some(active_spec[j].1),
                ),
        decreases active@.len() - k,
    {
        let name = active[k].0.clone();
        let pat = active[k].1.clone();
        gs.push(mk_balance_all(name, Some(pat)));
        k += 1;
    }
    let mut direct_members: Vec<String> = Vec::new();
    direct_members.push(String::from_str("DIRECT"));
    proof {
        assert(strs_view(direct_members@) =~= seq!["DIRECT"@]);
    }
    gs.push(mk_selector(String::from_str("直接连接"), direct_members));
    gs
}

/// The tag a classified name contributes to region grouping: nothing for
/// unnamed nodes, informational nodes and names yielding no tag.
pub open spec fn tag_of(o: Option<Seq<char>>) -> Option<Seq<char>> {
    match o {
        Some(s) => if is_info_name(s) {
            None
        } else {
            extract_tag(s)
        },
        None => None,
    }
}

/// The informational node names, in input order.
pub open spec fn info_names_of(names: Seq<Option<Seq<char>>>) -> Seq<Seq<char>> {
    names.filter(
        |o: Option<Seq<char>>| o is Some && is_info_name(o.unwrap()),
    ).map_values(|o: Option<Seq<char>>| o.unwrap())
}

/// The names grouped under one region tag, in input order.
pub open spec fn members_of(names: Seq<Option<Seq<char>>>, t: Seq<char>) -> Seq<Seq<char>> {
    names.filter(|o: Option<Seq<char>>| tag_of(o) == Some(t)).map_values(
        |o: Option<Seq<char>>| o.unwrap(),
    )
}

/// The names of real proxies that yield no region tag, in input order.
pub open spec fn other_names_of(names: Seq<Option<Seq<char>>>) -> Seq<Seq<char>> {
    names.filter(
        |o: Option<Seq<char>>| o is Some && !is_info_name(o.unwrap()) && extract_tag(o.unwrap())
            is None,
    ).map_values(|o: Option<Seq<char>>| o.unwrap())
}

/// The distinct region tags in order of first occurrence.
pub open spec fn tags_in_order(names: Seq<Option<Seq<char>>>) -> Seq<Seq<char>>
    decreases names.len(),
{
    if names.len() == 0 {
        Seq::empty()
    } else {
        let prev = tags_in_order(names.drop_last());
        match tag_of(names.last()) {
            Some(t) => if prev.contains(t) {
                prev
            } else {
                prev.push(t)
            },
            None => prev,
        }
    }
}

/// The tags of `tags_in_order` are pairwise distinct.
pub proof fn lemma_tags_distinct(names: Seq<Option<Seq<char>>>)
    ensures
        forall|i: int, j: int|
            0 <= i < j < tags_in_order(names).len() ==> #[trigger] tags_in_order(names)[i]
                != #[trigger] tags_in_order(names)[j],
    decreases names.len(),
{
    if names.len() > 0 {
        lemma_tags_distinct(names.drop_last());
        let prev = tags_in_order(names.drop_last());
        match tag_of(names.last()) {
            Some(t) => {
                if !prev.contains(t) {
                    assert(forall|i: int| 0 <= i < prev.len() ==> #[trigger] prev[i] != t);
                }
            },
            None => {},
        }
    }
}

/// How the per-tag spec functions evolve when one more name is appended.
proof fn lemma_partition_step(p: Seq<Option<Seq<char>>>, o: Option<Seq<char>>)
    ensures
        info_names_of(p.push(o)) == (if o is Some && is_info_name(o.unwrap()) {
            info_names_of(p).push(o.unwrap())
        } else {
            info_names_of(p)
        }),
        other_names_of(p.push(o)) == (if o is Some && !is_info_name(o.unwrap()) && extract_tag(
            o.unwrap(),
        ) is None {
            other_names_of(p).push(o.unwrap())
        } else {
            other_names_of(p)
        }),
        forall|t: Seq<char>|
            #[trigger] members_of(p.push(o), t) == (if tag_of(o) == Some(t) {
                members_of(p, t).push(o.unwrap())
            } else {
                members_of(p, t)
            }),
        tags_in_order(p.push(o)) == (match tag_of(o) {
            Some(t) => if tags_in_order(p).contains(t) {
                tags_in_order(p)
            } else {
                tags_in_order(p).push(t)
            },
            None => tags_in_order(p),
        }),
{
    reveal(Seq::filter);
    assert(p.push(o).drop_last() =~= p);
    assert(p.push(o).last() == o);
    let info_pred = |x: Option<Seq<char>>| x is Some && is_info_name(x.unwrap());
    let other_pred = |x: Option<Seq<char>>| x is Some && !is_info_name(x.unwrap()) && extract_tag(
        x.unwrap(),
    ) is None;
    let unwrap_fn = |x: Option<Seq<char>>| x.unwrap();
    if info_pred(o) {
        assert(p.push(o).filter(info_pred) =~= p.filter(info_pred).push(o));
        assert(info_names_of(p.push(o)) =~= info_names_of(p).push(o.unwrap()));
    } else {
        assert(p.push(o).filter(info_pred) =~= p.filter(info_pred));
        assert(info_names_of(p.push(o)) =~= info_names_of(p));
    }
    if other_pred(o) {
        assert(p.push(o).filter(other_pred) =~= p.filter(other_pred).push(o));
        assert(other_names_of(p.push(o)) =~= other_names_of(p).push(o.unwrap()));
    } else {
        assert(p.push(o).filter(other_pred) =~= p.filter(other_pred));
        assert(other_names_of(p.push(o)) =~= other_names_of(p));
    }
    assert forall|t: Seq<char>|
        #[trigger] members_of(p.push(o), t) == (if tag_of(o) == Some(t) {
            members_of(p, t).push(o.unwrap())
        } else {
            members_of(p, t)
        }) by {
        let tag_pred = |x: Option<Seq<char>>| tag_of(x) == Some(t);
        if tag_pred(o) {
            assert(p.push(o).filter(tag_pred) =~= p.filter(tag_pred).push(o));
            assert(members_of(p.push(o), t) =~= members_of(p, t).push(o.unwrap()));
        } else {
            assert(p.push(o).filter(tag_pred) =~= p.filter(tag_pred));
            assert(members_of(p.push(o), t) =~= members_of(p, t));
        }
    }
}

/// The classified partition of the input names.
struct Partition {
    infos: Vec<String>,
    tags: Vec<Vec<char>>,
    buckets: Vec<Vec<Vec<char>>>,
    others: Vec<Vec<char>>,
}

/// One pass over the names, splitting them into informational names,
/// per-tag member lists in first-occurrence order, and unclassified names.
fn partition_names(names: &Vec<Option<String>>) -> (p: Partition)
    ensures
        strs_view(p.infos@) == info_names_of(opts_view(names@)),
        p.tags.deep_view() == tags_in_order(opts_view(names@)),
        p.buckets@.len() == p.tags@.len(),
        forall|t: int|
            0 <= t < p.tags@.len() ==> #[trigger] p.buckets@[t].deep_view() == members_of(
                opts_view(names@),
                p.tags.deep_view()[t],
            ),
        p.others.deep_view() == other_names_of(opts_view(names@)),
{
    let ghost all = opts_view(names@);
    let mut infos: Vec<String> = Vec::new();
    let mut tags: Vec<Vec<char>> = Vec::new();
    let mut buckets: Vec<Vec<Vec<char>>> = Vec::new();
    let mut others: Vec<Vec<char>> = Vec::new();
    proof {
        reveal(Seq::filter);
        assert(all.subrange(0, 0) =~= Seq::<Option<Seq<char>>>::empty());
        assert(strs_view(infos@) =~= info_names_of(all.subrange(0, 0)));
        assert(tags.deep_view() =~= tags_in_order(all.subrange(0, 0)));
        assert(others.deep_view() =~= other_names_of(all.subrange(0, 0)));
    }
    let mut i: usize = 0;
    while i < names.len()
        invariant
            all == opts_view(names@),
            all.len() == names@.len(),
            i <= names@.len(),
            strs_view(infos@) == info_names_of(all.subrange(0, i as int)),
            tags.deep_view() == tags_in_order(all.subrange(0, i as int)),
            buckets@.len() == tags@.len(),
            tags.deep_view().len() == tags@.len(),
            forall|t: int, u: int|
                0 <= t < u < tags.deep_view().len() ==> #[trigger] tags.deep_view()[t]
                    != #[trigger] tags.deep_view()[u],
            forall|t: int|
                0 <= t < tags@.len() ==> #[trigger] buckets@[t].deep_view() == members_of(
                    all.subrange(0, i as int),
                    tags.deep_view()[t],
                ),
            others.deep_view() == other_names_of(all.subrange(0, i as int)),
        decreases names@.len() - i,
    {
        let ghost prefix = all.subrange(0, i as int);
        let ghost o = all[i as int];
        proof {
            assert(all.subrange(0, i + 1) =~= prefix.push(o));
            lemma_partition_step(prefix, o);
            assert(o == opt_str_view(names@[i as int]));
        }
        match names[i].as_ref() {
            Some(s) => {
                if is_info_node(s.as_str()) {
                    let ghost old_infos = infos@;
                    infos.push(s.clone());
                    proof {
                        assert(strs_view(infos@) =~= strs_view(old_infos).push(s@));
                    }
                } else {
                    match extract_region(s.as_str()) {
                        Some(tag) => {
                            let tag_chars = str_to_chars(tag.as_str());
                            proof {
                                assert(tag_of(o) == Some(tag_chars@));
                            }
                            let mut t: usize = 0;
                            let mut found: bool = false;
                            while t < tags.len() && !found
                                invariant
                                    t <= tags@.len(),
                                    tags.deep_view().len() == tags@.len(),
                                    forall|u: int|
                                        0 <= u < tags@.len() ==> #[trigger] tags.deep_view()[u]
                                            == tags@[u]@,
                                    !found ==> forall|u: int|
                                        0 <= u < t ==> #[trigger] tags.deep_view()[u]
                                            != tag_chars@,
                                    found ==> t < tags@.len() && tags.deep_view()[t as int]
                                        == tag_chars@,
                                decreases tags@.len() - t, (if found { 0int } else { 1int }),
                            {
                                proof {
                                    lemma_deep_view_charvecs(tags);
                                }
                                if vec_eq(&tags[t], &tag_chars) {
                                    found = true;
                                } else {
                                    t += 1;
                                }
                            }
                            proof {
                                lemma_deep_view_charvecs(tags);
                            }
                            if found {
                                let ghost old_buckets = buckets@;
                                let name_chars = str_to_chars(s.as_str());
                                let mut bucket = buckets.remove(t);
                                let ghost old_bucket_view = bucket.deep_view();
                                bucket.push(name_chars);
                                proof {
                                    lemma_deep_view_charvecs(bucket);
                                    assert(bucket.deep_view() =~= old_bucket_view.push(s@));
                                    assert(tags_in_order(prefix).contains(tag_chars@)) by {
                                        assert(tags.deep_view()[t as int] == tag_chars@);
                                    }
                                }
                                buckets.insert(t, bucket);
                                proof {
                                    assert(buckets@ =~= old_buckets.update(
                                        t as int,
                                        buckets@[t as int],
                                    ));
                                }
                            } else {
                                let name_chars = str_to_chars(s.as_str());
                                let mut bucket: Vec<Vec<char>> = Vec::new();
                                bucket.push(name_chars);
                                let ghost old_tags = tags.deep_view();
                                tags.push(tag_chars);
                                buckets.push(bucket);
                                proof {
                                    lemma_deep_view_charvecs(tags);
                                    assert(tags.deep_view() =~= old_tags.push(tag_chars@));
                                    assert(!tags_in_order(prefix).contains(tag_chars@)) by {
                                        if tags_in_order(prefix).contains(tag_chars@) {
                                            let u = choose|u: int|
                                                0 <= u < old_tags.len() && old_tags[u]
                                                    == tag_chars@;
                                            assert(false);
                                        }
                                    }
                                    lemma_members_empty_when_tag_new(prefix, tag_chars@);
                                    assert(buckets@[old_tags.len() as int].deep_view()
                                        =~= members_of(prefix, tag_chars@).push(s@)) by {
                                        lemma_deep_view_charvecs(
                                            buckets@[old_tags.len() as int],
                                        );
                                        assert(members_of(prefix, tag_chars@)
                                            =~= Seq::<Seq<char>>::empty());
                                    }
                                }
                            }
                        },
                        None => {
                            let name_chars = str_to_chars(s.as_str());
                            let ghost old_others = others.deep_view();
                            others.push(name_chars);
                            proof {
                                lemma_deep_view_charvecs(others);
                                assert(others.deep_view() =~= old_others.push(s@));
                            }
                        },
                    }
                }
            },
            None => {},
        }
        i += 1;
    }
    proof {
        assert(all.subrange(0, all.len() as int) =~= all);
    }
    Partition { infos, tags, buckets, others }
}

/// A tag outside `tags_in_order` has no members yet.
proof fn lemma_members_empty_when_tag_new(p: Seq<Option<Seq<char>>>, t: Seq<char>)
    requires
        !tags_in_order(p).contains(t),
    ensures
        members_of(p, t).len() == 0,
    decreases p.len(),
{
    reveal(Seq::filter);
    if p.len() > 0 {
        assert(p.drop_last().push(p.last()) =~= p);
        lemma_partition_step(p.drop_last(), p.last());
        match tag_of(p.last()) {
            Some(lt) => {
                if !tags_in_order(p.drop_last()).contains(lt) {
                    assert(tags_in_order(p) == tags_in_order(p.drop_last()).push(lt));
                    assert(tags_in_order(p).contains(lt)) by {
                        assert(tags_in_order(p)[tags_in_order(p).len() - 1] == lt);
                    }
                } else {
                    assert(forall|i: int|
                        0 <= i < tags_in_order(p.drop_last()).len()
                            ==> #[trigger] tags_in_order(p.drop_last())[i] == tags_in_order(p)[i]);
                }
                assert(lt != t);
            },
            None => {},
        }
        assert(!tags_in_order(p.drop_last()).contains(t)) by {
            assert(forall|i: int|
                0 <= i < tags_in_order(p.drop_last()).len()
                    ==> #[trigger] tags_in_order(p.drop_last())[i] == tags_in_order(p)[i]);
        }
        lemma_members_empty_when_tag_new(p.drop_last(), t);
        assert(members_of(p, t) == members_of(p.drop_last(), t));
    }
}

/// The member list of the heuristic main selector: the informational
/// group when present, the region tags in order, the aggregate group when
/// present, and the direct option.
pub open spec fn main_members(names: Seq<Option<Seq<char>>>) -> Seq<Seq<char>> {
    let info_part: Seq<Seq<char>> = if info_names_of(names).len() > 0 {
        seq!["订阅信息"@]
    } else {
        Seq::empty()
    };
    let other_part: Seq<Seq<char>> = if other_names_of(names).len() > 0 {
        seq!["其他"@]
    } else {
        Seq::empty()
    };
    info_part + tags_in_order(names) + other_part + seq!["DIRECT"@]
}

/// The index of the first region group: after the main selector and,
/// when informational nodes exist, the informational selector.
pub open spec fn heur_ibase(names: Seq<Option<Seq<char>>>) -> int {
    1 + (if info_names_of(names).len() > 0 {
        1int
    } else {
        0int
    })
}

/// The member names a group carries, empty for include-all groups.
pub open spec fn member_list(g: ProxyGroup) -> Seq<Seq<char>> {
    match g.proxies {
        Some(m) => strs_view(m@),
        None => Seq::empty(),
    }
}

/// The group list of the heuristic policy.
pub open spec fn heuristic_groups_ok(names: Seq<Option<Seq<char>>>, gs: Seq<ProxyGroup>) -> bool {
    let infos = info_names_of(names);
    let tags = tags_in_order(names);
    let others = other_names_of(names);
    let ibase: int = heur_ibase(names);
    &&& gs.len() == ibase + tags.len() + (if others.len() > 0 {
        1int
    } else {
        0int
    })
    &&& is_selector(gs[0], "默认代理"@, main_members(names))
    &&& infos.len() > 0 ==> is_selector(gs[1], "订阅信息"@, infos)
    &&& forall|k: int|
        0 <= k < tags.len() ==> is_balance_members(
            #[trigger] gs[ibase + k],
            tags[k],
            members_of(names, tags[k]),
        )
    &&& others.len() > 0 ==> is_balance_members(gs[ibase + tags.len()], "其他"@, others)
}

/// Build the heuristic policy groups from the optional node names.
#[verifier::rlimit(50)]
pub fn heuristic_groups(names: &Vec<Option<String>>) -> (gs: Vec<ProxyGroup>)
    ensures
        heuristic_groups_ok(opts_view(names@), gs@),
{
    let ghost all = opts_view(names@);
    let p = partition_names(names);
    let Partition { infos, tags, mut buckets, others } = p;

    // main selector member list
    let mut main: Vec<String> = Vec::new();
    let has_infos = infos.len() > 0;
    let has_others = others.len() > 0;
    if has_infos {
        main.push(String::from_str("订阅信息"));
    }
    let mut t: usize = 0;
    while t < tags.len()
        invariant
            tags.deep_view() == tags_in_order(all),
            tags.deep_view().len() == tags@.len(),
            t <= tags@.len(),
            has_infos == (info_names_of(all).len() > 0),
            strs_view(main@) == (if has_infos {
                seq!["订阅信息"@]
            } else {
                Seq::<Seq<char>>::empty()
            }) + tags_in_order(all).subrange(0, t as int),
        decreases tags@.len() - t,
    {
        proof {
            lemma_deep_view_charvecs(tags);
        }
        let ghost old_main = main@;
        let ghost ofs: int = if has_infos { 1int } else { 0int };
        main.push(chars_to_string(&tags[t]));
        proof {
            let ghost info_part: Seq<Seq<char>> = if has_infos {
                seq!["订阅信息"@]
            } else {
                Seq::<Seq<char>>::empty()
            };
            let ghost rhs = info_part + tags_in_order(all).subrange(0, t + 1);
            lemma_strs_view(main@);
            lemma_strs_view(old_main);
            assert(main@ == old_main.push(main@[main@.len() - 1]));
            assert(main@[main@.len() - 1]@ == tags_in_order(all)[t as int]);
            assert forall|j: int| 0 <= j < ofs + t + 1 implies strs_view(main@)[j] == rhs[j] by {
                assert(strs_view(main@)[j] == main@[j]@);
                if j < ofs + t {
                    assert(strs_view(old_main)[j] == old_main[j]@);
                    assert((info_part + tags_in_order(all).subrange(0, t as int))[j]
                        == rhs[j]);
                }
            }
            assert(strs_view(main@).len() == ofs + t + 1);
            assert(strs_view(main@) =~= rhs);
        }
        t += 1;
    }
    if has_others {
        main.push(String::from_str("其他"));
    }
    main.push(String::from_str("DIRECT"));
    proof {
        lemma_strs_view(main@);
        assert(tags_in_order(all).subrange(0, tags_in_order(all).len() as int)
            =~= tags_in_order(all));
        assert(strs_view(main@) =~= main_members(all));
    }

    let mut gs: Vec<ProxyGroup> = Vec::new();
    gs.push(mk_selector(String::from_str("默认代理"), main));
    let ghost infos_view = strs_view(infos@);
    if has_infos {
        gs.push(mk_selector(String::from_str("订阅信息"), infos));
    }
    let ghost ibase: int = 1 + (if info_names_of(all).len() > 0 {
        1int
    } else {
        0int
    });
    let mut k: usize = 0;
    while k < tags.len()
        invariant
            tags.deep_view() == tags_in_order(all),
            tags.deep_view().len() == tags@.len(),
            buckets@.len() == tags@.len() - k,
            forall|u: int|
                0 <= u < buckets@.len() ==> #[trigger] buckets@[u].deep_view() == members_of(
                    all,
                    tags.deep_view()[k + u],
                ),
            k <= tags@.len(),
            ibase == 1 + (if info_names_of(all).len() > 0 {
                1int
            } else {
                0int
            }),
            gs@.len() == ibase + k,
            is_selector(gs@[0], "默认代理"@, main_members(all)),
            info_names_of(all).len() > 0 ==> is_selector(gs@[1], "订阅信息"@, info_names_of(all)),
            forall|j: int|
                0 <= j < k ==> is_balance_members(
                    #[trigger] gs@[ibase + j],
                    tags_in_order(all)[j],
                    members_of(all, tags_in_order(all)[j]),
                ),
        decreases tags@.len() - k,
    {
        proof {
            lemma_deep_view_charvecs(tags);
        }
        let name = chars_to_string(&tags[k]);
        let bucket = buckets.remove(0);
        let sorted = sort_names(bucket);
        let mut member_strs: Vec<String> = Vec::new();
        let mut m: usize = 0;
        while m < sorted.len()
            invariant
                m <= sorted@.len(),
                sorted.deep_view().len() == sorted@.len(),
                strs_view(member_strs@) =~= sorted.deep_view().subrange(0, m as int),
            decreases sorted@.len() - m,
        {
            proof {
                lemma_deep_view_charvecs(sorted);
            }
            proof {
                lemma_strs_view(member_strs@);
            }
            member_strs.push(chars_to_string(&sorted[m]));
            proof {
                lemma_strs_view(member_strs@);
                assert(strs_view(member_strs@) =~= sorted.deep_view().subrange(0, m + 1));
            }
            m += 1;
        }
        proof {
            lemma_strs_view(member_strs@);
            assert(sorted.deep_view().subrange(0, sorted.deep_view().len() as int)
                =~= sorted.deep_view());
            assert(strs_view(member_strs@) == sorted.deep_view());
        }
        gs.push(mk_balance_members(name, member_strs));
        k += 1;
    }
    if has_others {
        let sorted = sort_names(others);
        let mut member_strs: Vec<String> = Vec::new();
        let mut m: usize = 0;
        while m < sorted.len()
            invariant
                m <= sorted@.len(),
                sorted.deep_view().len() == sorted@.len(),
                strs_view(member_strs@) =~= sorted.deep_view().subrange(0, m as int),
            decreases sorted@.len() - m,
        {
            proof {
                lemma_deep_view_charvecs(sorted);
            }
            proof {
                lemma_strs_view(member_strs@);
            }
            member_strs.push(chars_to_string(&sorted[m]));
            proof {
                lemma_strs_view(member_strs@);
                assert(strs_view(member_strs@) =~= sorted.deep_view().subrange(0, m + 1));
            }
            m += 1;
        }
        proof {
            lemma_strs_view(member_strs@);
            assert(sorted.deep_view().subrange(0, sorted.deep_view().len() as int)
                =~= sorted.deep_view());
            assert(strs_view(member_strs@) == sorted.deep_view());
        }
        gs.push(mk_balance_members(String::from_str("其他"), member_strs));
    }
    gs
}

} // verus!
verus! {

/// The heuristic main selector always offers the direct route, whatever
/// the input nodes are.
pub proof fn lemma_main_selector_has_direct(names: Seq<Option<Seq<char>>>, gs: Seq<ProxyGroup>)
    requires
        heuristic_groups_ok(names, gs),
    ensures
        gs.len() > 0,
        gs[0].proxies matches Some(m) && strs_view(m@).contains("DIRECT"@),
{
    let mm = main_members(names);
    assert(mm[mm.len() - 1] == "DIRECT"@);
    assert(mm.contains("DIRECT"@));
}

/// The fixed-pattern top selector always offers the direct selector,
/// whatever the input names are.
pub proof fn lemma_fixed_top_has_direct(names: Seq<Seq<char>>, gs: Seq<ProxyGroup>)
    requires
        fixed_groups_ok(names, gs),
    ensures
        gs.len() > 0,
        gs[0].proxies matches Some(m) && strs_view(m@).contains("直接连接"@),
{
    let mm = seq!["节点选择"@, "直接连接"@, "全部节点负载组"@] + firsts(active_regions_spec(names));
    assert(mm[1] == "直接连接"@);
    assert(mm.contains("直接连接"@));
}

/// An informational name never enters a region member list or the
/// aggregate list, and, when present among the nodes, stands in the
/// informational list.
pub proof fn lemma_info_only_informational(
    names: Seq<Option<Seq<char>>>,
    t: Seq<char>,
    nm: Seq<char>,
)
    requires
        is_info_name(nm),
    ensures
        !members_of(names, t).contains(nm),
        !other_names_of(names).contains(nm),
        names.contains(Some(nm)) ==> info_names_of(names).contains(nm),
{
    let tag_pred = |o: Option<Seq<char>>| tag_of(o) == Some(t);
    let other_pred = |o: Option<Seq<char>>| o is Some && !is_info_name(o.unwrap()) && extract_tag(
        o.unwrap(),
    ) is None;
    let info_pred = |o: Option<Seq<char>>| o is Some && is_info_name(o.unwrap());
    let unwrap_fn = |o: Option<Seq<char>>| o.unwrap();
    if members_of(names, t).contains(nm) {
        let j = choose|j: int|
            0 <= j < members_of(names, t).len() && members_of(names, t)[j] == nm;
        assert(members_of(names, t)[j] == names.filter(tag_pred)[j].unwrap());
        names.lemma_filter_pred(tag_pred, j);
        let o = names.filter(tag_pred)[j];
        assert(tag_of(o) == Some(t));
        assert(o is Some && !is_info_name(o.unwrap()));
        assert(false);
    }
    if other_names_of(names).contains(nm) {
        let j = choose|j: int|
            0 <= j < other_names_of(names).len() && other_names_of(names)[j] == nm;
        assert(other_names_of(names)[j] == names.filter(other_pred)[j].unwrap());
        names.lemma_filter_pred(other_pred, j);
        let o = names.filter(other_pred)[j];
        assert(o is Some && !is_info_name(o.unwrap()));
        assert(false);
    }
    if names.contains(Some(nm)) {
        let i = choose|i: int| 0 <= i < names.len() && names[i] == Some(nm);
        assert(info_pred(names[i]));
        names.lemma_filter_contains(info_pred, i);
        assert(names.filter(info_pred).contains(Some(nm)));
        let j = choose|j: int|
            0 <= j < names.filter(info_pred).len() && names.filter(info_pred)[j] == Some(nm);
        assert(info_names_of(names)[j] == names.filter(info_pred)[j].unwrap());
        assert(info_names_of(names).contains(nm));
    }
}

/// An informational node is excluded from every region group and from
/// the aggregate group; when it stands among the nodes, it stands in the
/// informational group's member list.
pub proof fn lemma_info_nodes_only_in_info_group(
    names: Seq<Option<Seq<char>>>,
    gs: Seq<ProxyGroup>,
    nm: Seq<char>,
)
    requires
        heuristic_groups_ok(names, gs),
        is_info_name(nm),
    ensures
        forall|k: int|
            0 <= k < tags_in_order(names).len() ==> !member_list(
                #[trigger] gs[heur_ibase(names) + k],
            ).contains(nm),
        other_names_of(names).len() > 0 ==> !member_list(
            gs[heur_ibase(names) + tags_in_order(names).len()],
        ).contains(nm),
        names.contains(Some(nm)) ==> info_names_of(names).len() > 0 && member_list(
            gs[1],
        ).contains(nm),
{
    let ibase = heur_ibase(names);
    let tags = tags_in_order(names);
    assert forall|k: int|
        0 <= k < tags.len() implies !member_list(#[trigger] gs[ibase + k]).contains(nm) by {
        let t = tags[k];
        lemma_info_only_informational(names, t, nm);
        let g = gs[ibase + k];
        assert(is_balance_members(g, t, members_of(names, t)));
        match g.proxies {
            Some(m) => {
                let sv = strs_view(m@);
                sv.to_multiset_ensures();
                members_of(names, t).to_multiset_ensures();
                if sv.contains(nm) {
                    assert(sv.to_multiset().count(nm) > 0);
                    assert(members_of(names, t).contains(nm));
                }
            },
            None => {},
        }
    }
    if other_names_of(names).len() > 0 {
        lemma_info_only_informational(names, "其他"@, nm);
        let g = gs[ibase + tags.len()];
        assert(is_balance_members(g, "其他"@, other_names_of(names)));
        match g.proxies {
            Some(m) => {
                let sv = strs_view(m@);
                sv.to_multiset_ensures();
                other_names_of(names).to_multiset_ensures();
                if sv.contains(nm) {
                    assert(sv.to_multiset().count(nm) > 0);
                    assert(other_names_of(names).contains(nm));
                }
            },
            None => {},
        }
    }
    if names.contains(Some(nm)) {
        lemma_info_only_informational(names, nm, nm);
        assert(info_names_of(names).contains(nm));
        assert(info_names_of(names).len() > 0);
        assert(is_selector(gs[1], "订阅信息"@, info_names_of(names)));
    }
}

/// The position of the first node whose derived tag is `t`.
pub open spec fn first_occ(names: Seq<Option<Seq<char>>>, t: Seq<char>) -> Option<int>
    decreases names.len(),
{
    if names.len() == 0 {
        None
    } else if tag_of(names[0]) == Some(t) {
        Some(0int)
    } else {
        match first_occ(names.drop_first(), t) {
            Some(i) => Some(i + 1),
            None => None,
        }
    }
}

/// How `first_occ` evolves when one more name is appended.
proof fn lemma_first_occ_push(p: Seq<Option<Seq<char>>>, o: Option<Seq<char>>, t: Seq<char>)
    ensures
        first_occ(p.push(o), t) == (if first_occ(p, t) is Some {
            first_occ(p, t)
        } else if tag_of(o) == Some(t) {
            Some(p.len() as int)
        } else {
            None
        }),
    decreases p.len(),
{
    if p.len() == 0 {
        assert(p.push(o)[0] == o);
        if tag_of(o) == Some(t) {
            assert(first_occ(p.push(o), t) == Some(0int));
        } else {
            assert(p.push(o).drop_first() =~= Seq::<Option<Seq<char>>>::empty());
            assert(first_occ(p.push(o).drop_first(), t) is None);
            assert(first_occ(p.push(o), t) is None);
        }
    } else {
        assert(p.push(o)[0] == p[0]);
        if tag_of(p[0]) == Some(t) {
            assert(first_occ(p, t) == Some(0int));
            assert(first_occ(p.push(o), t) == Some(0int));
        } else {
            assert(p.push(o).drop_first() =~= p.drop_first().push(o));
            lemma_first_occ_push(p.drop_first(), o, t);
            match first_occ(p.drop_first(), t) {
                Some(i) => {
                    assert(first_occ(p, t) == Some(i + 1));
                    assert(first_occ(p.drop_first().push(o), t) == Some(i));
                    assert(first_occ(p.push(o), t) == Some(i + 1));
                },
                None => {
                    assert(first_occ(p, t) is None);
                    if tag_of(o) == Some(t) {
                        assert(first_occ(p.drop_first().push(o), t) == Some(
                            p.drop_first().len() as int,
                        ));
                        assert(first_occ(p.push(o), t) == Some(p.len() as int));
                    } else {
                        assert(first_occ(p.drop_first().push(o), t) is None);
                        assert(first_occ(p.push(o), t) is None);
                    }
                },
            }
        }
    }
}

/// A first occurrence lies among the names and carries the tag.
proof fn lemma_first_occ_bound(p: Seq<Option<Seq<char>>>, t: Seq<char>)
    ensures
        first_occ(p, t) matches Some(i) ==> 0 <= i < p.len() && tag_of(p[i]) == Some(t),
    decreases p.len(),
{
    if p.len() > 0 && tag_of(p[0]) != Some(t) {
        lemma_first_occ_bound(p.drop_first(), t);
        match first_occ(p.drop_first(), t) {
            Some(i) => {
                assert(p.drop_first()[i] == p[i + 1]);
            },
            None => {},
        }
    }
}

/// The listed tags are exactly those that occur, and their listing order
/// is the order of their first occurrences.
proof fn lemma_tags_have_occ(names: Seq<Option<Seq<char>>>)
    ensures
        forall|t: Seq<char>|
            tags_in_order(names).contains(t) <==> (#[trigger] first_occ(names, t)) is Some,
        forall|k1: int, k2: int|
            0 <= k1 < k2 < tags_in_order(names).len() ==> first_occ(
                names,
                #[trigger] tags_in_order(names)[k1],
            ).unwrap() < first_occ(names, #[trigger] tags_in_order(names)[k2]).unwrap(),
    decreases names.len(),
{
    if names.len() == 0 {
        return ;
    }
    let q = names.drop_last();
    let o = names.last();
    assert(q.push(o) =~= names);
    lemma_tags_have_occ(q);
    assert forall|t: Seq<char>| #[trigger]
        first_occ(names, t) == (if first_occ(q, t) is Some {
            first_occ(q, t)
        } else if tag_of(o) == Some(t) {
            Some(q.len() as int)
        } else {
            None
        }) by {
        lemma_first_occ_push(q, o, t);
    }
    let tq = tags_in_order(q);
    let tn = tags_in_order(names);
    match tag_of(o) {
        Some(t0) => {
            if tq.contains(t0) {
                assert(tn == tq);
                assert forall|t: Seq<char>|
                    tn.contains(t) <==> (#[trigger] first_occ(names, t)) is Some by {
                    if first_occ(names, t) is Some && !(first_occ(q, t) is Some) {
                        assert(tag_of(o) == Some(t));
                        assert(t == t0);
                    }
                }
            } else {
                assert(tn == tq.push(t0));
                assert(!(first_occ(q, t0) is Some));
                assert(first_occ(names, t0) == Some(q.len() as int));
                assert forall|t: Seq<char>|
                    tn.contains(t) <==> (#[trigger] first_occ(names, t)) is Some by {
                    if tn.contains(t) {
                        let k = choose|k: int| 0 <= k < tn.len() && tn[k] == t;
                        if k < tq.len() {
                            assert(tq[k] == t);
                            assert(tq.contains(t));
                        } else {
                            assert(t == t0);
                        }
                    }
                    if first_occ(names, t) is Some {
                        if first_occ(q, t) is Some {
                            assert(tq.contains(t));
                            let k = choose|k: int| 0 <= k < tq.len() && tq[k] == t;
                            assert(tn[k] == t);
                            assert(tn.contains(t));
                        } else {
                            assert(t == t0);
                            assert(tn[tn.len() - 1] == t0);
                            assert(tn.contains(t));
                        }
                    }
                }
                assert forall|k1: int, k2: int|
                    0 <= k1 < k2 < tn.len() implies first_occ(
                    names,
                    #[trigger] tn[k1],
                ).unwrap() < first_occ(names, #[trigger] tn[k2]).unwrap() by {
                    if k2 < tq.len() {
                        assert(tn[k1] == tq[k1]);
                        assert(tn[k2] == tq[k2]);
                        assert(tq.contains(tq[k1]));
                        assert(tq.contains(tq[k2]));
                    } else {
                        assert(tn[k2] == t0);
                        assert(tn[k1] == tq[k1]);
                        assert(tq.contains(tq[k1]));
                        assert(first_occ(q, tq[k1]) is Some);
                        lemma_first_occ_bound(q, tq[k1]);
                        assert(first_occ(names, tn[k2]) == Some(q.len() as int));
                    }
                }
            }
        },
        None => {
            assert(tn == tq);
            assert forall|t: Seq<char>|
                tn.contains(t) <==> (#[trigger] first_occ(names, t)) is Some by {
                if first_occ(names, t) is Some && !(first_occ(q, t) is Some) {
                    assert(tag_of(o) == Some(t));
                    assert(false);
                }
            }
        },
    }
}

/// Region grouping order equals first-occurrence order: of two region
/// groups, the one listed earlier has its tag first derived at an earlier
/// position of the input node sequence.
pub proof fn lemma_region_order_is_first_occurrence(
    names: Seq<Option<Seq<char>>>,
    k1: int,
    k2: int,
)
    requires
        0 <= k1 < k2 < tags_in_order(names).len(),
    ensures
        first_occ(names, tags_in_order(names)[k1]) is Some,
        first_occ(names, tags_in_order(names)[k2]) is Some,
        first_occ(names, tags_in_order(names)[k1]).unwrap() < first_occ(
            names,
            tags_in_order(names)[k2],
        ).unwrap(),
{
    lemma_tags_have_occ(names);
    assert(tags_in_order(names).contains(tags_in_order(names)[k1]));
    assert(tags_in_order(names).contains(tags_in_order(names)[k2]));
}

} // verus!
verus! {

/// A region group exists for a tag exactly when some node derives it.
pub proof fn lemma_group_for_each_tag(names: Seq<Option<Seq<char>>>)
    ensures
        forall|t: Seq<char>|
            tags_in_order(names).contains(t) <==> (#[trigger] first_occ(names, t)) is Some,
{
    lemma_tags_have_occ(names);
}

} // verus!
