//! Node classification for the heuristic policy.
//!
//! A node name is first tested against a fixed set of informational marker
//! substrings; a name carrying one is an informational placeholder, not a
//! proxy. Remaining names are assigned a region tag, either by splitting at
//! the last delimiter when a numeric suffix follows it, or by stripping a
//! trailing run of ASCII digits. Names yielding no tag stay unclassified.

use crate::text::all_digits;
use crate::text::chars_to_string;
use crate::text::contains_sub;
use crate::text::has_sub;
use crate::text::is_digit;
use crate::text::is_digit_exec;
use crate::text::lemma_deep_view_charvecs;
use crate::text::str_to_chars;
use crate::text::subvec;
use vstd::prelude::*;

verus! {

/// The informational marker substrings: domain terms meaning traffic,
/// expiry, official site, subscription, quota, remaining, reset, update,
/// time and group/channel.
pub open spec fn info_markers() -> Seq<Seq<char>> {
    seq![
        "官网"@,
        "网址"@,
        "流量"@,
        "过期"@,
        "到期"@,
        "订阅"@,
        "套餐"@,
        "剩余"@,
        "重置"@,
        "更新"@,
        "时间"@,
        "群"@,
    ]
}

/// The name contains at least one informational marker.
pub open spec fn is_info_name(s: Seq<char>) -> bool {
    exists|i: int| 0 <= i < info_markers().len() && has_sub(s, #[trigger] info_markers()[i])
}

/// The marker table as executable data.
fn info_markers_exec() -> (r: Vec<Vec<char>>)
    ensures
        r.deep_view() == info_markers(),
{
    let mut v: Vec<Vec<char>> = Vec::new();
    v.push(str_to_chars("官网"));
    v.push(str_to_chars("网址"));
    v.push(str_to_chars("流量"));
    v.push(str_to_chars("过期"));
    v.push(str_to_chars("到期"));
    v.push(str_to_chars("订阅"));
    v.push(str_to_chars("套餐"));
    v.push(str_to_chars("剩余"));
    v.push(str_to_chars("重置"));
    v.push(str_to_chars("更新"));
    v.push(str_to_chars("时间"));
    v.push(str_to_chars("群"));
    proof {
        lemma_deep_view_charvecs(v);
        assert(v.deep_view() =~= info_markers());
    }
    v
}

/// Whether a node name marks an informational placeholder rather than a
/// usable proxy.
pub fn is_info_node(name: &str) -> (r: bool)
    ensures
        r == is_info_name(name@),
{
    let chars = str_to_chars(name);
    let markers = info_markers_exec();
    let mut i: usize = 0;
    while i < markers.len()
        invariant
            chars@ == name@,
            markers.deep_view() == info_markers(),
            i <= markers@.len(),
            markers@.len() == info_markers().len(),
            forall|j: int| 0 <= j < i ==> !has_sub(name@, #[trigger] info_markers()[j]),
        decreases markers@.len() - i,
    {
        proof {
            lemma_deep_view_charvecs(markers);
        }
        if contains_sub(&chars, &markers[i]) {
            return true;
        }
        i += 1;
    }
    false
}

/// `c` is one of the region-splitting delimiters.
pub open spec fn is_delim(c: char) -> bool {
    c == '-' || c == '_' || c == ' ' || c == '|' || c == '·' || c == '｜' || c == '#' || c == '@'
}

/// Exec test for a delimiter.
fn is_delim_exec(c: char) -> (r: bool)
    ensures
        r == is_delim(c),
{
    c == '-' || c == '_' || c == ' ' || c == '|' || c == '·' || c == '｜' || c == '#' || c == '@'
}

/// Index of the last delimiter in `s`, if any.
pub open spec fn last_delim(s: Seq<char>) -> Option<int>
    decreases s.len(),
{
    if s.len() == 0 {
        None
    } else if is_delim(s[s.len() - 1]) {
        Some(s.len() - 1)
    } else {
        last_delim(s.drop_last())
    }
}

/// Number of ASCII digits at the end of `s`.
pub open spec fn trailing_digits(s: Seq<char>) -> int
    decreases s.len(),
{
    if s.len() == 0 {
        0
    } else if is_digit(s[s.len() - 1]) {
        1 + trailing_digits(s.drop_last())
    } else {
        0
    }
}

/// The trailing digit count is a length of a suffix of `s`.
pub proof fn lemma_trailing_digits_bounds(s: Seq<char>)
    ensures
        0 <= trailing_digits(s) <= s.len(),
    decreases s.len(),
{
    if s.len() > 0 && is_digit(s[s.len() - 1]) {
        lemma_trailing_digits_bounds(s.drop_last());
    }
}

/// Splitting at the last delimiter: the prefix is the tag when the suffix
/// after the delimiter is a non-empty run of ASCII digits and the prefix
/// is non-empty.
pub open spec fn delim_split(s: Seq<char>) -> Option<Seq<char>> {
    match last_delim(s) {
        Some(i) => if 1 <= i && i + 1 < s.len() && all_digits(s.subrange(i + 1, s.len() as int)) {
            Some(s.subrange(0, i))
        } else {
            None
        },
        None => None,
    }
}

/// Stripping a trailing digit run: the remaining prefix is the tag when it
/// is non-empty and strictly shorter than the whole name.
pub open spec fn digit_split(s: Seq<char>) -> Option<Seq<char>> {
    let k = trailing_digits(s);
    if 0 < k < s.len() {
        Some(s.subrange(0, s.len() - k))
    } else {
        None
    }
}

/// The region tag derived from a node name: delimiter splitting first,
/// then the trailing-digit rule.
pub open spec fn extract_tag(s: Seq<char>) -> Option<Seq<char>> {
    if delim_split(s) is Some {
        delim_split(s)
    } else {
        digit_split(s)
    }
}

/// Spec-level view of an optional string.
pub open spec fn opt_str_view(o: Option<String>) -> Option<Seq<char>> {
    match o {
        Some(s) => Some(s@),
        None => None,
    }
}

/// All characters in `v[from..to]` are ASCII digits.
fn all_digits_range(v: &Vec<char>, from: usize, to: usize) -> (r: bool)
    requires
        from <= to <= v@.len(),
    ensures
        r == all_digits(v@.subrange(from as int, to as int)),
{
    let mut i: usize = from;
    while i < to
        invariant
            from <= i <= to <= v@.len(),
            forall|j: int| from <= j < i ==> is_digit(#[trigger] v@[j]),
        decreases to - i,
    {
        if !is_digit_exec(v[i]) {
            proof {
                assert(v@.subrange(from as int, to as int)[i - from] == v@[i as int]);
            }
            return false;
        }
        i += 1;
    }
    proof {
        assert forall|j: int| 0 <= j < to - from implies is_digit(
            #[trigger] v@.subrange(from as int, to as int)[j],
        ) by {
            assert(v@.subrange(from as int, to as int)[j] == v@[from + j]);
        }
    }
    true
}

/// Index of the last delimiter in `v`, if any.
fn find_last_delim(v: &Vec<char>) -> (r: Option<usize>)
    ensures
        match r {
            Some(i) => last_delim(v@) == Some(i as int) && i < v@.len(),
            None => last_delim(v@) is None,
        },
{
    let mut found: Option<usize> = None;
    let mut i: usize = 0;
    while i < v.len()
        invariant
            i <= v@.len(),
            match found {
                Some(f) => last_delim(v@.subrange(0, i as int)) == Some(f as int) && f < i,
                None => last_delim(v@.subrange(0, i as int)) is None,
            },
        decreases v@.len() - i,
    {
        proof {
            assert(v@.subrange(0, i + 1).drop_last() =~= v@.subrange(0, i as int));
            assert(v@.subrange(0, i + 1)[i as int] == v@[i as int]);
        }
        if is_delim_exec(v[i]) {
            found = Some(i);
        }
        i += 1;
    }
    proof {
        assert(v@.subrange(0, v@.len() as int) =~= v@);
    }
    found
}

/// Number of ASCII digits at the end of `v`.
fn count_trailing_digits(v: &Vec<char>) -> (k: usize)
    ensures
        k == trailing_digits(v@),
        k <= v@.len(),
{
    let mut j: usize = v.len();
    proof {
        assert(v@.subrange(0, v@.len() as int) =~= v@);
    }
    while j > 0
        invariant
            j <= v@.len(),
            trailing_digits(v@) == trailing_digits(v@.subrange(0, j as int)) + (v@.len() - j),
        decreases j,
    {
        proof {
            assert(v@.subrange(0, j as int).drop_last() =~= v@.subrange(0, j - 1));
            assert(v@.subrange(0, j as int)[j - 1] == v@[j - 1]);
            lemma_trailing_digits_bounds(v@.subrange(0, j as int));
            lemma_trailing_digits_bounds(v@.subrange(0, j - 1));
        }
        if !is_digit_exec(v[j - 1]) {
            proof {
                assert(trailing_digits(v@.subrange(0, j as int)) == 0);
                lemma_trailing_digits_bounds(v@);
            }
            return v.len() - j;
        }
        j -= 1;
    }
    proof {
        assert(v@.subrange(0, 0) =~= Seq::<char>::empty());
        assert(trailing_digits(v@.subrange(0, 0)) == 0);
    }
    v.len()
}

/// The region tag of a proxy name, when one can be derived.
pub fn extract_region(name: &str) -> (r: Option<String>)
    ensures
        opt_str_view(r) == extract_tag(name@),
{
    let chars = str_to_chars(name);
    let n = chars.len();
    match find_last_delim(&chars) {
        Some(i) => {
            if 1 <= i && i + 1 < n && all_digits_range(&chars, i + 1, n) {
                let prefix = subvec(&chars, 0, i);
                return Some(chars_to_string(&prefix));
            }
        },
        None => {},
    }
    let k = count_trailing_digits(&chars);
    if 0 < k && k < chars.len() {
        let prefix = subvec(&chars, 0, chars.len() - k);
        Some(chars_to_string(&prefix))
    } else {
        None
    }
}

} // verus!
