//! Rendering the assembled configuration back to YAML text.
//!
//! The group and rule sections are emitted by verified code: names, member
//! lists and filters are double-quoted with the usual escapes, while keys,
//! group types, the probe URL and the strategy are fixed machine constants
//! emitted as plain scalars. Optional group attributes are omitted
//! entirely when unset.

use crate::groups::ProxyGroup;
use crate::groups::strs_view;
use crate::groups::lemma_strs_view;
use crate::text::str_to_chars;
use vstd::prelude::*;
use vstd::string::StrSliceExecFns;

verus! {

/// The escape of one character inside a double-quoted scalar.
pub open spec fn esc_char(c: char) -> Seq<char> {
    if c == '\\' {
        seq!['\\', '\\']
    } else if c == '"' {
        seq!['\\', '"']
    } else if c == '\n' {
        seq!['\\', 'n']
    } else if c == '\t' {
        seq!['\\', 't']
    } else if c == '\r' {
        seq!['\\', 'r']
    } else {
        seq![c]
    }
}

/// The escaped form of a whole string.
pub open spec fn esc_str(s: Seq<char>) -> Seq<char>
    decreases s.len(),
{
    if s.len() == 0 {
        Seq::empty()
    } else {
        esc_str(s.drop_last()) + esc_char(s.last())
    }
}

/// A double-quoted scalar.
pub open spec fn quoted(s: Seq<char>) -> Seq<char> {
    seq!['"'] + esc_str(s) + seq!['"']
}

/// The decimal digit character for a value below ten.
pub open spec fn digit_char(d: int) -> char {
    if d == 0 { '0' }
    else if d == 1 { '1' }
    else if d == 2 { '2' }
    else if d == 3 { '3' }
    else if d == 4 { '4' }
    else if d == 5 { '5' }
    else if d == 6 { '6' }
    else if d == 7 { '7' }
    else if d == 8 { '8' }
    else { '9' }
}

/// The decimal rendering of a number.
pub open spec fn dec_str(n: int) -> Seq<char>
    decreases n,
{
    if n < 10 {
        seq![digit_char(n)]
    } else {
        dec_str(n / 10) + seq![digit_char(n % 10)]
    }
}

/// Append the characters of a string slice.
pub fn push_str_chars(out: &mut Vec<char>, s: &str)
    ensures
        final(out)@ == old(out)@ + s@,
{
    let n = s.unicode_len();
    let mut i: usize = 0;
    while i < n
        invariant
            n == s@.len(),
            i <= n,
            out@ == old(out)@ + s@.subrange(0, i as int),
        decreases n - i,
    {
        out.push(s.get_char(i));
        proof {
            assert(out@ =~= old(out)@ + s@.subrange(0, i + 1));
        }
        i += 1;
    }
    proof {
        assert(out@ =~= old(out)@ + s@);
    }
}

/// Append a double-quoted, escaped scalar.
fn push_quoted(out: &mut Vec<char>, s: &str)
    ensures
        final(out)@ == old(out)@ + quoted(s@),
{
    let chars = str_to_chars(s);
    out.push('"');
    let ghost start = out@;
    let mut i: usize = 0;
    while i < chars.len()
        invariant
            chars@ == s@,
            i <= chars@.len(),
            out@ == start + esc_str(s@.subrange(0, i as int)),
        decreases chars@.len() - i,
    {
        proof {
            assert(s@.subrange(0, i + 1).drop_last() =~= s@.subrange(0, i as int));
            assert(s@.subrange(0, i + 1).last() == s@[i as int]);
        }
        let c = chars[i];
        if c == '\\' {
            out.push('\\');
            out.push('\\');
        } else if c == '"' {
            out.push('\\');
            out.push('"');
        } else if c == '\n' {
            out.push('\\');
            out.push('n');
        } else if c == '\t' {
            out.push('\\');
            out.push('t');
        } else if c == '\r' {
            out.push('\\');
            out.push('r');
        } else {
            out.push(c);
        }
        proof {
            assert(out@ =~= start + esc_str(s@.subrange(0, i + 1)));
        }
        i += 1;
    }
    out.push('"');
    proof {
        assert(s@.subrange(0, s@.len() as int) =~= s@);
        assert(out@ =~= old(out)@ + quoted(s@));
    }
}

/// Append the decimal rendering of a number.
fn push_u32(out: &mut Vec<char>, n: u32)
    ensures
        final(out)@ == old(out)@ + dec_str(n as int),
    decreases n,
{
    if n >= 10 {
        push_u32(out, n / 10);
    }
    let d = (n % 10) as u8;
    let c: char = if d == 0 { '0' }
        else if d == 1 { '1' }
        else if d == 2 { '2' }
        else if d == 3 { '3' }
        else if d == 4 { '4' }
        else if d == 5 { '5' }
        else if d == 6 { '6' }
        else if d == 7 { '7' }
        else if d == 8 { '8' }
        else { '9' };
    out.push(c);
    proof {
        if n < 10 {
            assert(out@ =~= old(out)@ + dec_str(n as int));
        } else {
            assert(out@ =~= old(out)@ + dec_str(n as int));
        }
    }
}

/// The text of one member line of an explicit member list.
pub open spec fn member_line(name: Seq<char>) -> Seq<char> {
    "  - "@ + quoted(name) + "\n"@
}

/// The text of an explicit member list under its `proxies` key.
pub open spec fn members_text(members: Seq<Seq<char>>) -> Seq<char>
    decreases members.len(),
{
    if members.len() == 0 {
        Seq::empty()
    } else {
        members_text(members.drop_last()) + member_line(members.last())
    }
}

/// The text of the `proxies` attribute of a group.
pub open spec fn proxies_attr(proxies: Option<Seq<Seq<char>>>) -> Seq<char> {
    match proxies {
        Some(m) => if m.len() == 0 {
            "  proxies: []\n"@
        } else {
            "  proxies:\n"@ + members_text(m)
        },
        None => Seq::empty(),
    }
}

/// The views of an optional member vector.
pub open spec fn opt_members_view(proxies: Option<Vec<String>>) -> Option<Seq<Seq<char>>> {
    match proxies {
        Some(m) => Some(strs_view(m@)),
        None => None,
    }
}

/// The text of the `include-all` attribute of a group.
pub open spec fn include_attr(o: Option<bool>) -> Seq<char> {
    match o {
        Some(b) => if b {
            "  include-all: true\n"@
        } else {
            "  include-all: false\n"@
        },
        None => Seq::empty(),
    }
}

/// The text of the `filter` attribute of a group.
pub open spec fn filter_attr(o: Option<Seq<char>>) -> Seq<char> {
    match o {
        Some(f) => "  filter: "@ + quoted(f) + "\n"@,
        None => Seq::empty(),
    }
}

/// The text of the `url` attribute of a group.
pub open spec fn url_attr(o: Option<Seq<char>>) -> Seq<char> {
    match o {
        Some(u) => "  url: "@ + u + "\n"@,
        None => Seq::empty(),
    }
}

/// The text of the `interval` attribute of a group.
pub open spec fn interval_attr(o: Option<u32>) -> Seq<char> {
    match o {
        Some(n) => "  interval: "@ + dec_str(n as int) + "\n"@,
        None => Seq::empty(),
    }
}

/// The text of the `strategy` attribute of a group.
pub open spec fn strategy_attr(o: Option<Seq<char>>) -> Seq<char> {
    match o {
        Some(s) => "  strategy: "@ + s + "\n"@,
        None => Seq::empty(),
    }
}

/// The view of an optional string attribute.
pub open spec fn opt_attr_view(o: Option<String>) -> Option<Seq<char>> {
    match o {
        Some(s) => Some(s@),
        None => None,
    }
}

/// The text of one group entry.
pub open spec fn group_text(g: ProxyGroup) -> Seq<char> {
    "- name: "@ + quoted(g.name@) + "\n"@ + "  type: "@ + g.group_type@ + "\n"@ + proxies_attr(
        opt_members_view(g.proxies),
    ) + include_attr(g.include_all) + filter_attr(opt_attr_view(g.filter)) + url_attr(
        opt_attr_view(g.url),
    ) + interval_attr(g.interval) + strategy_attr(opt_attr_view(g.strategy))
}

/// The text of the whole group section.
pub open spec fn groups_text(gs: Seq<ProxyGroup>) -> Seq<char>
    decreases gs.len(),
{
    if gs.len() == 0 {
        Seq::empty()
    } else {
        groups_text(gs.drop_last()) + group_text(gs.last())
    }
}

/// The text of the rule section body.
pub open spec fn rules_text(rules: Seq<Seq<char>>) -> Seq<char>
    decreases rules.len(),
{
    if rules.len() == 0 {
        Seq::empty()
    } else {
        rules_text(rules.drop_last()) + "- "@ + rules.last() + "\n"@
    }
}

/// Append the member-list attribute of a group.
fn push_proxies_attr(out: &mut Vec<char>, proxies: &Option<Vec<String>>)
    ensures
        final(out)@ == old(out)@ + proxies_attr(opt_members_view(*proxies)),
{
    match proxies {
        Some(m) => {
            if m.len() == 0 {
                push_str_chars(out, "  proxies: []\n");
            } else {
                push_str_chars(out, "  proxies:\n");
                let ghost start = out@;
                let mut i: usize = 0;
                while i < m.len()
                    invariant
                        i <= m@.len(),
                        out@ == start + members_text(strs_view(m@).subrange(0, i as int)),
                    decreases m@.len() - i,
                {
                    proof {
                        lemma_strs_view(m@);
                        assert(strs_view(m@).subrange(0, i + 1).drop_last() =~= strs_view(
                            m@,
                        ).subrange(0, i as int));
                        assert(strs_view(m@).subrange(0, i + 1).last() == m@[i as int]@);
                    }
                    push_str_chars(out, "  - ");
                    push_quoted(out, m[i].as_str());
                    push_str_chars(out, "\n");
                    proof {
                        assert(out@ =~= start + members_text(strs_view(m@).subrange(0, i + 1)));
                    }
                    i += 1;
                }
                proof {
                    lemma_strs_view(m@);
                    assert(strs_view(m@).subrange(0, strs_view(m@).len() as int) =~= strs_view(
                        m@,
                    ));
                }
            }
        },
        None => {},
    }
}

/// Append the `include-all` attribute of a group.
fn push_include_attr(out: &mut Vec<char>, o: &Option<bool>)
    ensures
        final(out)@ == old(out)@ + include_attr(*o),
{
    match o {
        Some(b) => {
            if *b {
                push_str_chars(out, "  include-all: true\n");
            } else {
                push_str_chars(out, "  include-all: false\n");
            }
        },
        None => {},
    }
}

/// Append the `filter` attribute of a group.
fn push_filter_attr(out: &mut Vec<char>, o: &Option<String>)
    ensures
        final(out)@ == old(out)@ + filter_attr(opt_attr_view(*o)),
{
    match o {
        Some(f) => {
            push_str_chars(out, "  filter: ");
            push_quoted(out, f.as_str());
            push_str_chars(out, "\n");
        },
        None => {},
    }
}

/// Append the `url` attribute of a group.
fn push_url_attr(out: &mut Vec<char>, o: &Option<String>)
    ensures
        final(out)@ == old(out)@ + url_attr(opt_attr_view(*o)),
{
    match o {
        Some(u) => {
            push_str_chars(out, "  url: ");
            push_str_chars(out, u.as_str());
            push_str_chars(out, "\n");
        },
        None => {},
    }
}

/// Append the `interval` attribute of a group.
fn push_interval_attr(out: &mut Vec<char>, o: &Option<u32>)
    ensures
        final(out)@ == old(out)@ + interval_attr(*o),
{
    match o {
        Some(n) => {
            push_str_chars(out, "  interval: ");
            push_u32(out, *n);
            push_str_chars(out, "\n");
        },
        None => {},
    }
}

/// Append the `strategy` attribute of a group.
fn push_strategy_attr(out: &mut Vec<char>, o: &Option<String>)
    ensures
        final(out)@ == old(out)@ + strategy_attr(opt_attr_view(*o)),
{
    match o {
        Some(s) => {
            push_str_chars(out, "  strategy: ");
            push_str_chars(out, s.as_str());
            push_str_chars(out, "\n");
        },
        None => {},
    }
}

/// Append one group entry.
#[verifier::rlimit(100)]
fn push_group(out: &mut Vec<char>, g: &ProxyGroup)
    ensures
        final(out)@ == old(out)@ + group_text(*g),
{
    push_str_chars(out, "- name: ");
    push_quoted(out, g.name.as_str());
    push_str_chars(out, "\n");
    push_str_chars(out, "  type: ");
    push_str_chars(out, g.group_type.as_str());
    push_str_chars(out, "\n");
    push_proxies_attr(out, &g.proxies);
    push_include_attr(out, &g.include_all);
    push_filter_attr(out, &g.filter);
    push_url_attr(out, &g.url);
    push_interval_attr(out, &g.interval);
    push_strategy_attr(out, &g.strategy);
    proof {
        assert(out@ =~= old(out)@ + group_text(*g));
    }
}

/// Append the group and rule sections.
pub fn push_groups_and_rules(out: &mut Vec<char>, gs: &Vec<ProxyGroup>, rules: &Vec<String>)
    ensures
        final(out)@ == old(out)@ + "proxy-groups:\n"@ + groups_text(gs@) + "rules:\n"@
            + rules_text(strs_view(rules@)),
{
    push_str_chars(out, "proxy-groups:\n");
    let ghost start = out@;
    let mut i: usize = 0;
    while i < gs.len()
        invariant
            i <= gs@.len(),
            out@ == start + groups_text(gs@.subrange(0, i as int)),
        decreases gs@.len() - i,
    {
        proof {
            assert(gs@.subrange(0, i + 1).drop_last() =~= gs@.subrange(0, i as int));
            assert(gs@.subrange(0, i + 1).last() == gs@[i as int]);
        }
        push_group(out, &gs[i]);
        proof {
            assert(out@ =~= start + groups_text(gs@.subrange(0, i + 1)));
        }
        i += 1;
    }
    proof {
        assert(gs@.subrange(0, gs@.len() as int) =~= gs@);
    }
    push_str_chars(out, "rules:\n");
    let ghost rstart = out@;
    let mut j: usize = 0;
    while j < rules.len()
        invariant
            j <= rules@.len(),
            out@ == rstart + rules_text(strs_view(rules@).subrange(0, j as int)),
        decreases rules@.len() - j,
    {
        proof {
            lemma_strs_view(rules@);
            assert(strs_view(rules@).subrange(0, j + 1).drop_last() =~= strs_view(
                rules@,
            ).subrange(0, j as int));
            assert(strs_view(rules@).subrange(0, j + 1).last() == rules@[j as int]@);
        }
        push_str_chars(out, "- ");
        push_str_chars(out, rules[j].as_str());
        push_str_chars(out, "\n");
        proof {
            assert(out@ =~= rstart + rules_text(strs_view(rules@).subrange(0, j + 1)));
        }
        j += 1;
    }
    proof {
        lemma_strs_view(rules@);
        assert(strs_view(rules@).subrange(0, strs_view(rules@).len() as int) =~= strs_view(
            rules@,
        ));
        assert(out@ =~= old(out)@ + "proxy-groups:\n"@ + groups_text(gs@) + "rules:\n"@
            + rules_text(strs_view(rules@)));
    }
}

/// The text with a final newline added when one is missing.
pub open spec fn with_nl(s: Seq<char>) -> Seq<char> {
    if s.len() > 0 && s.last() == '\n' {
        s
    } else {
        s + seq!['\n']
    }
}

/// Append text, ensuring it ends with a newline.
pub fn push_with_nl(out: &mut Vec<char>, s: &str)
    ensures
        final(out)@ == old(out)@ + with_nl(s@),
{
    let n = s.unicode_len();
    push_str_chars(out, s);
    if n == 0 || s.get_char(n - 1) != '\n' {
        out.push('\n');
        proof {
            assert(out@ =~= old(out)@ + with_nl(s@));
        }
    }
}

} // verus!
