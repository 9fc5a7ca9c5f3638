//! The fixed-pattern policy: a static ordered table of region labels and
//! case-insensitive patterns, and the selection of the regions that have
//! at least one matching proxy. The final table entry is a sentinel whose
//! universal pattern keeps a catch-all region active on every input.

use crate::text::lemma_deep_view_strings;
use crate::text::str_eq;
use vstd::prelude::*;
use vstd::seq_lib::*;

verus! {

#[verifier::external_type_specification]
#[verifier::external_body]
pub struct ExRegex(regex::Regex);

/// Whether this pattern compiles as a regular expression.
pub uninterp spec fn regex_valid(p: Seq<char>) -> bool;

/// The pattern a compiled regular expression was built from.
pub uninterp spec fn regex_pattern(re: regex::Regex) -> Seq<char>;

/// Whether the pattern matches somewhere in the text.
pub uninterp spec fn regex_match(p: Seq<char>, t: Seq<char>) -> bool;

/// Relies on `regex::Regex::new`: it compiles exactly the well-formed
/// patterns, and the compiled value keeps its pattern text (what
/// `Regex::as_str` returns).
#[verifier::external_body]
fn regex_new(p: &str) -> (r: Option<regex::Regex>)
    ensures
        r is Some <==> regex_valid(p@),
        r matches Some(re) ==> regex_pattern(re) == p@,
{
    regex::Regex::new(p).ok()
}

/// Relies on `regex::Regex::is_match`: a deterministic function of the
/// compiled pattern and the haystack.
#[verifier::external_body]
fn regex_is_match(re: &regex::Regex, t: &str) -> (r: bool)
    ensures
        r == regex_match(regex_pattern(*re), t@),
{
    re.is_match(t)
}

/// A region pattern matches the proxy list: the universal sentinel
/// pattern always does; a compiling pattern does when some name matches
/// it; a malformed pattern never does.
pub open spec fn region_has_match(names: Seq<Seq<char>>, p: Seq<char>) -> bool {
    if p == ".*"@ {
        true
    } else if regex_valid(p) {
        exists|i: int| 0 <= i < names.len() && regex_match(p, #[trigger] names[i])
    } else {
        false
    }
}

/// Check if a region has any matching proxies.
pub fn has_matching_proxies(proxy_names: &Vec<String>, pattern: &str) -> (r: bool)
    ensures
        r == region_has_match(proxy_names.deep_view(), pattern@),
{
    proof {
        lemma_deep_view_strings(*proxy_names);
    }
    if str_eq(pattern, ".*") {
        return true;
    }
    match regex_new(pattern) {
        Some(re) => {
            let mut i: usize = 0;
            while i < proxy_names.len()
                invariant
                    regex_valid(pattern@),
                    pattern@ != ".*"@,
                    regex_pattern(re) == pattern@,
                    i <= proxy_names@.len(),
                    proxy_names.deep_view().len() == proxy_names@.len(),
                    forall|j: int| 0 <= j < proxy_names@.len()
                        ==> #[trigger] proxy_names.deep_view()[j] == proxy_names@[j]@,
                    forall|j: int| 0 <= j < i
                        ==> !regex_match(pattern@, #[trigger] proxy_names.deep_view()[j]),
                decreases proxy_names@.len() - i,
            {
                if regex_is_match(&re, proxy_names[i].as_str()) {
                    proof {
                        assert(regex_match(pattern@, proxy_names.deep_view()[i as int]));
                    }
                    return true;
                }
                i += 1;
            }
            false
        },
        None => false,
    }
}

/// The static ordered region table: label and pattern pairs, ending with
/// the catch-all sentinel.
pub open spec fn region_table() -> Seq<(Seq<char>, Seq<char>)> {
    seq![
        ("香港负载组"@, "(?i)港|hk|hongkong|hong kong"@),
        ("台湾负载组"@, "(?i)台|tw|taiwan"@),
        ("日本负载组"@, "(?i)日|jp|japan"@),
        ("新加坡负载组"@, "(?i)新|sg|singapore"@),
        ("美国负载组"@, "(?i)美|us|usa|united states|america"@),
        ("韩国负载组"@, "(?i)韩|kr|korea"@),
        ("英国负载组"@, "(?i)英|uk|britain|united kingdom"@),
        ("德国负载组"@, "(?i)德|de|germany"@),
        ("法国负载组"@, "(?i)法|fr|france"@),
        ("加拿大负载组"@, "(?i)加|ca|canada"@),
        ("澳大利亚负载组"@, "(?i)澳|au|australia"@),
        ("马来西亚负载组"@, "(?i)马来|my|malaysia"@),
        ("土耳其负载组"@, "(?i)土耳其|tr|turkey"@),
        ("阿根廷负载组"@, "(?i)阿根廷|ar|argentina"@),
        ("其他负载组"@, ".*"@),
    ]
}

/// The views of a vector of label and pattern pairs.
pub open spec fn pairs_view(s: Seq<(String, String)>) -> Seq<(Seq<char>, Seq<char>)> {
    s.map_values(|p: (String, String)| (p.0@, p.1@))
}

/// Pointwise description of `pairs_view`.
pub proof fn lemma_pairs_view(s: Seq<(String, String)>)
    ensures
        pairs_view(s).len() == s.len(),
        forall|i: int|
            0 <= i < s.len() ==> #[trigger] pairs_view(s)[i] == (s[i].0@, s[i].1@),
{
}

/// The region table as executable data.
pub fn region_table_exec() -> (r: Vec<(String, String)>)
    ensures
        pairs_view(r@) == region_table(),
{
    let mut v: Vec<(String, String)> = Vec::new();
    v.push((String::from_str("香港负载组"), String::from_str("(?i)港|hk|hongkong|hong kong")));
    v.push((String::from_str("台湾负载组"), String::from_str("(?i)台|tw|taiwan")));
    v.push((String::from_str("日本负载组"), String::from_str("(?i)日|jp|japan")));
    v.push((String::from_str("新加坡负载组"), String::from_str("(?i)新|sg|singapore")));
    v.push((String::from_str("美国负载组"), String::from_str("(?i)美|us|usa|united states|america")));
    v.push((String::from_str("韩国负载组"), String::from_str("(?i)韩|kr|korea")));
    v.push((String::from_str("英国负载组"), String::from_str("(?i)英|uk|britain|united kingdom")));
    v.push((String::from_str("德国负载组"), String::from_str("(?i)德|de|germany")));
    v.push((String::from_str("法国负载组"), String::from_str("(?i)法|fr|france")));
    v.push((String::from_str("加拿大负载组"), String::from_str("(?i)加|ca|canada")));
    v.push((String::from_str("澳大利亚负载组"), String::from_str("(?i)澳|au|australia")));
    v.push((String::from_str("马来西亚负载组"), String::from_str("(?i)马来|my|malaysia")));
    v.push((String::from_str("土耳其负载组"), String::from_str("(?i)土耳其|tr|turkey")));
    v.push((String::from_str("阿根廷负载组"), String::from_str("(?i)阿根廷|ar|argentina")));
    v.push((String::from_str("其他负载组"), String::from_str(".*")));
    proof {
        assert(pairs_view(v@) =~= region_table());
    }
    v
}

/// The active regions: the table entries whose pattern has a match.
pub open spec fn active_regions_spec(names: Seq<Seq<char>>) -> Seq<(Seq<char>, Seq<char>)> {
    region_table().filter(|p: (Seq<char>, Seq<char>)| region_has_match(names, p.1))
}

/// Filter the region table to the regions with matching proxies.
pub fn active_regions(proxy_names: &Vec<String>) -> (r: Vec<(String, String)>)
    ensures
        pairs_view(r@) == active_regions_spec(proxy_names.deep_view()),
{
    let ghost pred = |p: (Seq<char>, Seq<char>)| region_has_match(proxy_names.deep_view(), p.1);
    let table = region_table_exec();
    let mut out: Vec<(String, String)> = Vec::new();
    proof {
        reveal(Seq::filter);
        assert(pairs_view(out@) =~= region_table().subrange(0, 0).filter(pred));
    }
    let mut i: usize = 0;
    while i < table.len()
        invariant
            pairs_view(table@) == region_table(),
            table@.len() == region_table().len(),
            i <= table@.len(),
            pairs_view(out@) == region_table().subrange(0, i as int).filter(pred),
            pred == (|p: (Seq<char>, Seq<char>)| region_has_match(proxy_names.deep_view(), p.1)),
        decreases table@.len() - i,
    {
        proof {
            reveal(Seq::filter);
            assert(region_table().subrange(0, i + 1).drop_last() =~= region_table().subrange(
                0,
                i as int,
            ));
            assert(region_table().subrange(0, i + 1).last() == region_table()[i as int]);
            assert(region_table()[i as int] == pairs_view(table@)[i as int]);
        }
        let entry = (table[i].0.clone(), table[i].1.clone());
        if has_matching_proxies(proxy_names, entry.1.as_str()) {
            out.push(entry);
            proof {
                assert(pairs_view(out@) =~= region_table().subrange(0, i + 1).filter(pred));
            }
        } else {
            proof {
                assert(pairs_view(out@) =~= region_table().subrange(0, i + 1).filter(pred));
            }
        }
        i += 1;
    }
    proof {
        assert(region_table().subrange(0, region_table().len() as int) =~= region_table());
    }
    out
}

/// The sentinel catch-all region is always the last active region,
/// whatever the input names are.
pub proof fn lemma_sentinel_region_active(names: Seq<Seq<char>>)
    ensures
        active_regions_spec(names).len() > 0,
        active_regions_spec(names).last() == region_table().last(),
        region_table().last().0 == "其他负载组"@,
        region_table().last().1 == ".*"@,
{
    reveal(Seq::filter);
    let pred = |p: (Seq<char>, Seq<char>)| region_has_match(names, p.1);
    assert(region_table().drop_last().filter(pred).push(region_table().last())
        == active_regions_spec(names)) by {
        assert(pred(region_table().last()));
    }
}

} // verus!
