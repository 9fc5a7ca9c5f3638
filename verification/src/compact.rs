//! The anchor compactor: a line-oriented pass over serialized text that
//! replaces each load-balance probe triplet (url, interval, strategy) with
//! one shared-reference line, and keeps one shared-definition block at the
//! top of the document.
//!
//! Scanning enters a block at a `type: load-balance` line, replaces every
//! complete triplet inside it at the triplet's own indentation, leaves
//! incomplete shapes untouched, and stops at the next sibling entry: a
//! line opening a new list item or introducing a `name` key.

use crate::text::chars_to_string;
use crate::text::lemma_deep_view_charvecs;
use crate::text::str_to_chars;
use crate::text::subvec;
use crate::text::vec_eq;
use vstd::prelude::*;

verus! {

/// Position of the first newline in `s`.
pub open spec fn find_nl(s: Seq<char>) -> Option<int>
    decreases s.len(),
{
    if s.len() == 0 {
        None
    } else if s[0] == '\n' {
        Some(0)
    } else {
        match find_nl(s.drop_first()) {
            Some(i) => Some(i + 1),
            None => None,
        }
    }
}

/// What `find_nl` finds is the first newline.
pub proof fn lemma_find_nl(s: Seq<char>)
    ensures
        match find_nl(s) {
            Some(i) => 0 <= i < s.len() && s[i] == '\n' && forall|k: int|
                0 <= k < i ==> #[trigger] s[k] != '\n',
            None => forall|k: int| 0 <= k < s.len() ==> #[trigger] s[k] != '\n',
        },
    decreases s.len(),
{
    if s.len() > 0 && s[0] != '\n' {
        lemma_find_nl(s.drop_first());
        match find_nl(s) {
            Some(i) => {
                assert(find_nl(s.drop_first()) == Some(i - 1));
                assert forall|k: int| 0 <= k < i implies #[trigger] s[k] != '\n' by {
                    if k > 0 {
                        assert(s.drop_first()[k - 1] != '\n');
                    }
                }
            },
            None => {
                assert forall|k: int| 0 <= k < s.len() implies #[trigger] s[k] != '\n' by {
                    if k > 0 {
                        assert(s.drop_first()[k - 1] != '\n');
                    }
                }
            },
        }
    }
}

/// A character scan that found no newline before `i` determines `find_nl`.
pub proof fn lemma_find_nl_at(s: Seq<char>, i: int)
    requires
        0 <= i <= s.len(),
        forall|k: int| 0 <= k < i ==> #[trigger] s[k] != '\n',
    ensures
        i < s.len() && s[i] == '\n' ==> find_nl(s) == Some(i),
        i == s.len() ==> find_nl(s) is None,
    decreases i,
{
    if i > 0 {
        lemma_find_nl_at(s.drop_first(), i - 1);
    } else {
        if i == s.len() {
        }
    }
}

/// The lines of a text: split at each newline, with one trailing empty
/// piece dropped, as `str::lines` does.
pub open spec fn lines(s: Seq<char>) -> Seq<Seq<char>>
    decreases s.len(),
{
    if s.len() == 0 {
        Seq::empty()
    } else {
        match find_nl(s) {
            Some(i) => if 0 <= i < s.len() {
                seq![s.subrange(0, i)] + lines(s.skip(i + 1))
            } else {
                seq![s]
            },
            None => seq![s],
        }
    }
}

/// The text of a line list, each line closed by a newline.
pub open spec fn unlines(ls: Seq<Seq<char>>) -> Seq<char>
    decreases ls.len(),
{
    if ls.len() == 0 {
        Seq::empty()
    } else {
        ls[0] + seq!['\n'] + unlines(ls.drop_first())
    }
}

/// A line without newline characters.
pub open spec fn no_nl(l: Seq<char>) -> bool {
    forall|j: int| 0 <= j < l.len() ==> #[trigger] l[j] != '\n'
}

/// A line list without newline characters.
pub open spec fn nl_free(ls: Seq<Seq<char>>) -> bool {
    forall|i: int| 0 <= i < ls.len() ==> no_nl(#[trigger] ls[i])
}

/// Split lines never contain a newline.
pub proof fn lemma_lines_nl_free(s: Seq<char>)
    ensures
        nl_free(lines(s)),
    decreases s.len(),
{
    if s.len() > 0 {
        lemma_find_nl(s);
        match find_nl(s) {
            Some(i) => {
                lemma_lines_nl_free(s.skip(i + 1));
                assert forall|k: int| 0 <= k < i implies #[trigger] s.subrange(0, i)[k] != '\n' by {
                    assert(s[k] != '\n');
                }
                assert(no_nl(s.subrange(0, i)));
                assert forall|t: int| 0 <= t < lines(s).len() implies no_nl(
                    #[trigger] lines(s)[t],
                ) by {
                    if t > 0 {
                        assert(lines(s)[t] == lines(s.skip(i + 1))[t - 1]);
                    }
                }
            },
            None => {
                assert(no_nl(s));
            },
        }
    }
}

/// Prepending newline-free text before its closing newline shifts the
/// first newline found.
proof fn lemma_find_nl_line(p: Seq<char>, r: Seq<char>)
    requires
        no_nl(p),
    ensures
        find_nl(p + seq!['\n'] + r) == Some(p.len() as int),
    decreases p.len(),
{
    let s = p + seq!['\n'] + r;
    if p.len() == 0 {
        assert(s[0] == '\n');
    } else {
        assert(s[0] == p[0]);
        assert(s[0] != '\n');
        lemma_find_nl_line(p.drop_first(), r);
        assert(s.drop_first() =~= p.drop_first() + seq!['\n'] + r);
    }
}

/// Splitting the text of a newline-free line list recovers the list.
pub proof fn lemma_lines_unlines(ls: Seq<Seq<char>>)
    requires
        nl_free(ls),
    ensures
        lines(unlines(ls)) == ls,
    decreases ls.len(),
{
    if ls.len() > 0 {
        let u = unlines(ls);
        assert(no_nl(ls[0]));
        lemma_find_nl_line(ls[0], unlines(ls.drop_first()));
        assert(u == ls[0] + seq!['\n'] + unlines(ls.drop_first()));
        let i = ls[0].len() as int;
        assert(u.len() == i + 1 + unlines(ls.drop_first()).len());
        assert(u.subrange(0, i) =~= ls[0]);
        assert(u.skip(i + 1) =~= unlines(ls.drop_first()));
        assert forall|t: int| 0 <= t < ls.drop_first().len() implies no_nl(
            #[trigger] ls.drop_first()[t],
        ) by {
            assert(ls.drop_first()[t] == ls[t + 1]);
        }
        lemma_lines_unlines(ls.drop_first());
        assert(lines(u) =~= ls);
    }
}

/// The line with its leading spaces removed.
pub open spec fn trim_start(s: Seq<char>) -> Seq<char>
    decreases s.len(),
{
    if s.len() > 0 && s[0] == ' ' {
        trim_start(s.drop_first())
    } else {
        s
    }
}

/// A character scan past the leading spaces determines `trim_start`.
proof fn lemma_trim_at(s: Seq<char>, t: int)
    requires
        0 <= t <= s.len(),
        forall|k: int| 0 <= k < t ==> #[trigger] s[k] == ' ',
        t < s.len() ==> s[t] != ' ',
    ensures
        trim_start(s) == s.skip(t),
    decreases t,
{
    if t == 0 {
        assert(s.skip(0) =~= s);
    } else {
        assert(s[0] == ' ');
        lemma_trim_at(s.drop_first(), t - 1);
        assert(s.drop_first().skip(t - 1) =~= s.skip(t));
    }
}

/// `n` spaces.
pub open spec fn spaces(n: int) -> Seq<char>
    decreases n,
{
    if n <= 0 {
        Seq::empty()
    } else {
        seq![' '] + spaces(n - 1)
    }
}

/// Every character of `spaces` is a space.
proof fn lemma_spaces(n: int)
    ensures
        spaces(n).len() == (if n <= 0 { 0int } else { n }),
        forall|j: int| 0 <= j < spaces(n).len() ==> #[trigger] spaces(n)[j] == ' ',
    decreases n,
{
    if n > 0 {
        lemma_spaces(n - 1);
        assert forall|j: int| 0 <= j < spaces(n).len() implies #[trigger] spaces(n)[j] == ' ' by {
            if j > 0 {
                assert(spaces(n)[j] == spaces(n - 1)[j - 1]);
            }
        }
    }
}

/// Leading spaces do not change the trimmed line.
proof fn lemma_trim_spaces(n: int, s: Seq<char>)
    ensures
        trim_start(spaces(n) + s) == trim_start(s),
    decreases n,
{
    if n <= 0 {
        assert(spaces(n) + s =~= s);
    } else {
        assert((spaces(n) + s)[0] == ' ');
        assert((spaces(n) + s).drop_first() =~= spaces(n - 1) + s);
        lemma_trim_spaces(n - 1, s);
    }
}

/// `p` is a prefix of `s`.
pub open spec fn has_prefix(s: Seq<char>, p: Seq<char>) -> bool {
    p.len() <= s.len() && s.subrange(0, p.len() as int) == p
}

/// The line opens a load-balance group.
pub open spec fn is_lb_line(l: Seq<char>) -> bool {
    trim_start(l) == "type: load-balance"@
}

/// The line is the probe url literal.
pub open spec fn is_url_line(l: Seq<char>) -> bool {
    trim_start(l) == "url: http://www.gstatic.com/generate_204"@
}

/// The line is the probe interval literal.
pub open spec fn is_interval_line(l: Seq<char>) -> bool {
    trim_start(l) == "interval: 180"@
}

/// The line is the probe strategy literal.
pub open spec fn is_strategy_line(l: Seq<char>) -> bool {
    trim_start(l) == "strategy: consistent-hashing"@
}

/// The line starts a sibling entry: a new list item, or a `name` key.
pub open spec fn is_item_line(l: Seq<char>) -> bool {
    has_prefix(trim_start(l), "name:"@) || (trim_start(l).len() > 0 && trim_start(l)[0] == '-')
}

/// The indentation depth of a line.
pub open spec fn indent_of(l: Seq<char>) -> int {
    l.len() - trim_start(l).len()
}

/// The shared-reference line at the given indentation.
pub open spec fn merge_line(ind: int) -> Seq<char> {
    spaces(ind) + "<<: *lb_common"@
}

/// The three probe lines stand complete at the head of `ls`.
pub open spec fn triplet_at(ls: Seq<Seq<char>>) -> bool {
    ls.len() >= 3 && is_url_line(ls[0]) && is_interval_line(ls[1]) && is_strategy_line(ls[2])
}

/// The line scan. Outside a block, lines pass through and a load-balance
/// line opens a block. Inside a block, each complete probe triplet becomes
/// one shared-reference line, a sibling entry closes the block, and other
/// lines pass through.
pub open spec fn scan(ls: Seq<Seq<char>>, in_block: bool) -> Seq<Seq<char>>
    decreases ls.len(), (if in_block { 1int } else { 0int }),
{
    if ls.len() == 0 {
        Seq::empty()
    } else if in_block {
        if triplet_at(ls) {
            seq![merge_line(indent_of(ls[0]))] + scan(ls.skip(3), true)
        } else if is_item_line(ls[0]) {
            scan(ls, false)
        } else {
            seq![ls[0]] + scan(ls.skip(1), true)
        }
    } else {
        if is_lb_line(ls[0]) {
            seq![ls[0]] + scan(ls.skip(1), true)
        } else {
            seq![ls[0]] + scan(ls.skip(1), false)
        }
    }
}

/// The shared-definition block that heads a compacted document.
pub open spec fn def_text() -> Seq<char> {
    ".lb_common: &lb_common\n  url: http://www.gstatic.com/generate_204\n  interval: 180\n  strategy: consistent-hashing\n\n"@
}

/// The compacted form of a text: the shared-definition block, followed by
/// the scan of the text's lines, the definition block first stripped when
/// the text already carries it.
pub open spec fn compact_spec(t: Seq<char>) -> Seq<char> {
    let core = if has_prefix(t, def_text()) {
        t.skip(def_text().len() as int)
    } else {
        t
    };
    def_text() + unlines(scan(lines(core), false))
}

/// The shared-reference line is none of the lines the scan reacts to.
proof fn lemma_merge_props(ind: int)
    ensures
        no_nl(merge_line(ind)),
        !is_lb_line(merge_line(ind)),
        !is_url_line(merge_line(ind)),
        !is_interval_line(merge_line(ind)),
        !is_strategy_line(merge_line(ind)),
        !is_item_line(merge_line(ind)),
{
    reveal_strlit("<<: *lb_common");
    reveal_strlit("type: load-balance");
    reveal_strlit("url: http://www.gstatic.com/generate_204");
    reveal_strlit("interval: 180");
    reveal_strlit("strategy: consistent-hashing");
    reveal_strlit("name:");
    let m = merge_line(ind);
    let lit = "<<: *lb_common"@;
    lemma_spaces(ind);
    lemma_trim_spaces(ind, lit);
    assert(lit.len() == 14);
    assert(lit[0] == '<');
    assert(trim_start(lit) == lit);
    assert(trim_start(m) == lit);
    assert("type: load-balance"@.len() == 18);
    assert("url: http://www.gstatic.com/generate_204"@.len() == 40);
    assert("interval: 180"@.len() == 13);
    assert("strategy: consistent-hashing"@.len() == 28);
    assert forall|j: int| 0 <= j < m.len() implies #[trigger] m[j] != '\n' by {
        if j < spaces(ind).len() {
            assert(m[j] == spaces(ind)[j]);
        } else {
            assert(m[j] == lit[j - spaces(ind).len()]);
        }
    }
    if has_prefix(lit, "name:"@) {
        assert(lit.subrange(0, 5)[0] == lit[0]);
        assert(false);
    }
}

/// Lines matching different scan literals are distinct, and none of them
/// opens a sibling entry.
proof fn lemma_lit_facts()
    ensures
        forall|l: Seq<char>|
            #[trigger] is_url_line(l) ==> !is_interval_line(l) && !is_strategy_line(l)
                && !is_lb_line(l) && !is_item_line(l),
        forall|l: Seq<char>|
            #[trigger] is_interval_line(l) ==> !is_strategy_line(l) && !is_lb_line(l)
                && !is_item_line(l) && !is_url_line(l),
        forall|l: Seq<char>|
            #[trigger] is_strategy_line(l) ==> !is_lb_line(l) && !is_item_line(l),
        forall|l: Seq<char>| #[trigger] is_lb_line(l) ==> !is_item_line(l),
{
    reveal_strlit("type: load-balance");
    reveal_strlit("url: http://www.gstatic.com/generate_204");
    reveal_strlit("interval: 180");
    reveal_strlit("strategy: consistent-hashing");
    reveal_strlit("name:");
    assert("type: load-balance"@.len() == 18);
    assert("url: http://www.gstatic.com/generate_204"@.len() == 40);
    assert("interval: 180"@.len() == 13);
    assert("strategy: consistent-hashing"@.len() == 28);
    assert("name:"@.len() == 5);
    assert forall|l: Seq<char>| #[trigger] is_url_line(l) implies !is_item_line(l) by {
        if has_prefix(trim_start(l), "name:"@) {
            assert(trim_start(l).subrange(0, 5)[0] == trim_start(l)[0]);
            assert(false);
        }
        assert(trim_start(l)[0] == 'u');
    }
    assert forall|l: Seq<char>| #[trigger] is_interval_line(l) implies !is_item_line(l) by {
        if has_prefix(trim_start(l), "name:"@) {
            assert(trim_start(l).subrange(0, 5)[0] == trim_start(l)[0]);
            assert(false);
        }
        assert(trim_start(l)[0] == 'i');
    }
    assert forall|l: Seq<char>| #[trigger] is_strategy_line(l) implies !is_item_line(l) by {
        if has_prefix(trim_start(l), "name:"@) {
            assert(trim_start(l).subrange(0, 5)[0] == trim_start(l)[0]);
            assert(false);
        }
        assert(trim_start(l)[0] == 's');
    }
    assert forall|l: Seq<char>| #[trigger] is_lb_line(l) implies !is_item_line(l) by {
        if has_prefix(trim_start(l), "name:"@) {
            assert(trim_start(l).subrange(0, 5)[0] == trim_start(l)[0]);
            assert(false);
        }
        assert(trim_start(l)[0] == 't');
    }
}

/// The scan keeps the first line, replacing it at most by the
/// shared-reference line at its indentation.
proof fn lemma_scan_head(ls: Seq<Seq<char>>, b: bool)
    requires
        ls.len() > 0,
    ensures
        scan(ls, b).len() > 0,
        scan(ls, b)[0] == ls[0] || scan(ls, b)[0] == merge_line(indent_of(ls[0])),
        !b ==> scan(ls, b)[0] == ls[0],
    decreases ls.len(), (if b { 1int } else { 0int }),
{
    if b && !triplet_at(ls) && is_item_line(ls[0]) {
        lemma_scan_head(ls, false);
    }
}

/// The scan of newline-free lines is newline-free.
proof fn lemma_scan_nl_free(ls: Seq<Seq<char>>, b: bool)
    requires
        nl_free(ls),
    ensures
        nl_free(scan(ls, b)),
    decreases ls.len(), (if b { 1int } else { 0int }),
{
    if ls.len() == 0 {
        return ;
    }
    assert forall|t: int| 0 <= t < ls.skip(1).len() implies no_nl(#[trigger] ls.skip(1)[t]) by {
        assert(ls.skip(1)[t] == ls[t + 1]);
    }
    if b {
        if triplet_at(ls) {
            assert forall|t: int| 0 <= t < ls.skip(3).len() implies no_nl(
                #[trigger] ls.skip(3)[t],
            ) by {
                assert(ls.skip(3)[t] == ls[t + 3]);
            }
            lemma_scan_nl_free(ls.skip(3), true);
            lemma_merge_props(indent_of(ls[0]));
            let out = scan(ls, b);
            assert forall|t: int| 0 <= t < out.len() implies no_nl(#[trigger] out[t]) by {
                if t > 0 {
                    assert(out[t] == scan(ls.skip(3), true)[t - 1]);
                }
            }
        } else if is_item_line(ls[0]) {
            lemma_scan_nl_free(ls, false);
        } else {
            lemma_scan_nl_free(ls.skip(1), true);
            let out = scan(ls, b);
            assert(no_nl(ls[0]));
            assert forall|t: int| 0 <= t < out.len() implies no_nl(#[trigger] out[t]) by {
                if t > 0 {
                    assert(out[t] == scan(ls.skip(1), true)[t - 1]);
                }
            }
        }
    } else {
        let nb = is_lb_line(ls[0]);
        lemma_scan_nl_free(ls.skip(1), nb);
        let out = scan(ls, b);
        assert(no_nl(ls[0]));
        assert forall|t: int| 0 <= t < out.len() implies no_nl(#[trigger] out[t]) by {
            if t > 0 {
                assert(out[t] == scan(ls.skip(1), nb)[t - 1]);
            }
        }
    }
}

/// Copying the head line in front of a scanned tail never completes a
/// probe triplet that was not already complete.
proof fn lemma_cons_no_triplet(ls: Seq<Seq<char>>, p: bool)
    requires
        ls.len() > 0,
        !triplet_at(ls),
    ensures
        !triplet_at(seq![ls[0]] + scan(ls.skip(1), p)),
{
    lemma_lit_facts();
    let out = seq![ls[0]] + scan(ls.skip(1), p);
    assert(out[0] == ls[0]);
    if is_url_line(ls[0]) && out.len() >= 3 {
        let s1 = ls.skip(1);
        assert(s1.len() > 0);
        lemma_scan_head(s1, p);
        assert(out[1] == scan(s1, p)[0]);
        if scan(s1, p)[0] == merge_line(indent_of(s1[0])) && !is_interval_line(
            scan(s1, p)[0],
        ) {
            lemma_merge_props(indent_of(s1[0]));
        } else if scan(s1, p)[0] == merge_line(indent_of(s1[0])) {
            lemma_merge_props(indent_of(s1[0]));
            assert(false);
        } else {
            assert(out[1] == s1[0]);
            assert(s1[0] == ls[1]);
            if is_interval_line(ls[1]) {
                assert(!is_url_line(s1[0]));
                assert(!triplet_at(s1));
                assert(!is_item_line(s1[0]));
                assert(!is_lb_line(s1[0]));
                let s2 = s1.skip(1);
                assert(scan(s1, p) == seq![s1[0]] + scan(s2, p));
                assert(scan(s2, p).len() >= 1);
                assert(s2.len() > 0);
                lemma_scan_head(s2, p);
                assert(out[2] == scan(s1, p)[1]);
                assert(scan(s1, p)[1] == scan(s2, p)[0]);
                if is_strategy_line(out[2]) {
                    if scan(s2, p)[0] == merge_line(indent_of(s2[0])) {
                        lemma_merge_props(indent_of(s2[0]));
                        assert(false);
                    }
                    assert(out[2] == s2[0]);
                    assert(s2[0] == ls[2]);
                    assert(ls.len() >= 3);
                    assert(triplet_at(ls));
                    assert(false);
                }
            }
        }
    }
}

/// Scanning already-scanned lines changes nothing.
proof fn lemma_scan_idem(ls: Seq<Seq<char>>, b: bool)
    ensures
        scan(scan(ls, b), b) == scan(ls, b),
    decreases ls.len(), (if b { 1int } else { 0int }),
{
    lemma_lit_facts();
    if ls.len() == 0 {
        return ;
    }
    let rest = ls.skip(1);
    if !b {
        let out = scan(ls, false);
        assert(out == seq![ls[0]] + scan(rest, is_lb_line(ls[0])));
        assert(out[0] == ls[0]);
        assert(out.skip(1) =~= scan(rest, is_lb_line(ls[0])));
        if is_lb_line(ls[0]) {
            lemma_scan_idem(rest, true);
            assert(scan(out, false) == seq![out[0]] + scan(out.skip(1), true));
            assert(scan(out, false) =~= out);
        } else {
            lemma_scan_idem(rest, false);
            assert(scan(out, false) == seq![out[0]] + scan(out.skip(1), false));
            assert(scan(out, false) =~= out);
        }
    } else {
        if triplet_at(ls) {
            let ind = indent_of(ls[0]);
            lemma_merge_props(ind);
            let out = scan(ls, true);
            assert(out == seq![merge_line(ind)] + scan(ls.skip(3), true));
            lemma_scan_idem(ls.skip(3), true);
            assert(out[0] == merge_line(ind));
            assert(out.skip(1) =~= scan(ls.skip(3), true));
            assert(!is_url_line(out[0]));
            assert(!triplet_at(out));
            assert(!is_item_line(out[0]));
            assert(scan(out, true) == seq![out[0]] + scan(out.skip(1), true));
            assert(scan(out, true) =~= out);
        } else if is_item_line(ls[0]) {
            assert(!is_lb_line(ls[0]));
            assert(!is_url_line(ls[0]));
            let out = scan(ls, false);
            assert(scan(ls, true) == out);
            assert(out == seq![ls[0]] + scan(rest, false));
            assert(out[0] == ls[0]);
            assert(out.skip(1) =~= scan(rest, false));
            lemma_scan_idem(rest, false);
            lemma_cons_no_triplet(ls, false);
            assert(!triplet_at(out));
            assert(is_item_line(out[0]));
            assert(scan(out, true) == scan(out, false));
            assert(scan(out, false) == seq![out[0]] + scan(out.skip(1), false));
            assert(scan(out, true) =~= out);
        } else {
            let out = scan(ls, true);
            assert(out == seq![ls[0]] + scan(rest, true));
            assert(out[0] == ls[0]);
            assert(out.skip(1) =~= scan(rest, true));
            lemma_scan_idem(rest, true);
            lemma_cons_no_triplet(ls, true);
            assert(!triplet_at(out));
            assert(!is_item_line(out[0]));
            assert(scan(out, true) == seq![out[0]] + scan(out.skip(1), true));
            assert(scan(out, true) =~= out);
        }
    }
}

/// Compacting is idempotent: compacting already-compacted text changes
/// nothing, so the shared-definition block it carries stays as it is.
pub proof fn lemma_compact_idempotent(t: Seq<char>)
    ensures
        compact_spec(compact_spec(t)) == compact_spec(t),
{
    let d = def_text();
    let core = if has_prefix(t, d) {
        t.skip(d.len() as int)
    } else {
        t
    };
    let x = scan(lines(core), false);
    let c = compact_spec(t);
    assert(c == d + unlines(x));
    assert(c.subrange(0, d.len() as int) =~= d);
    assert(has_prefix(c, d));
    assert(c.skip(d.len() as int) =~= unlines(x));
    lemma_lines_nl_free(core);
    lemma_scan_nl_free(lines(core), false);
    lemma_lines_unlines(x);
    assert(lines(unlines(x)) == x);
    lemma_scan_idem(lines(core), false);
    assert(scan(x, false) == x);
    assert(compact_spec(c) == d + unlines(scan(lines(c.skip(d.len() as int)), false)));
    assert(compact_spec(c) == c);
}

/// The trimmed copy of a line.
fn line_trim(l: &Vec<char>) -> (r: Vec<char>)
    ensures
        r@ == trim_start(l@),
        r@.len() <= l@.len(),
{
    let n = l.len();
    let mut t: usize = 0;
    while t < n && l[t] == ' '
        invariant
            n == l@.len(),
            t <= n,
            forall|k: int| 0 <= k < t ==> #[trigger] l@[k] == ' ',
        decreases n - t,
    {
        t += 1;
    }
    proof {
        lemma_trim_at(l@, t as int);
        assert(l@.skip(t as int) =~= l@.subrange(t as int, l@.len() as int));
    }
    subvec(l, t, n)
}

/// Whether `p` is a prefix of `s`.
fn has_prefix_exec(s: &Vec<char>, p: &Vec<char>) -> (r: bool)
    ensures
        r == has_prefix(s@, p@),
{
    if p.len() > s.len() {
        return false;
    }
    let head = subvec(s, 0, p.len());
    vec_eq(&head, p)
}

/// Whether the line equals the literal after trimming.
fn trim_matches(l: &Vec<char>, lit: &str) -> (r: bool)
    ensures
        r == (trim_start(l@) == lit@),
{
    let t = line_trim(l);
    let lv = str_to_chars(lit);
    vec_eq(&t, &lv)
}

/// Exec test for a sibling-entry line.
fn is_item_line_exec(l: &Vec<char>) -> (r: bool)
    ensures
        r == is_item_line(l@),
{
    let t = line_trim(l);
    let name_lit = str_to_chars("name:");
    if has_prefix_exec(&t, &name_lit) {
        return true;
    }
    if t.len() > 0 && t[0] == '-' {
        return true;
    }
    false
}

/// The shared-reference line at the line's own indentation.
fn make_merge_line(l: &Vec<char>) -> (r: Vec<char>)
    ensures
        r@ == merge_line(indent_of(l@)),
{
    let t = line_trim(l);
    let ind = l.len() - t.len();
    let mut r: Vec<char> = Vec::new();
    let mut i: usize = 0;
    while i < ind
        invariant
            i <= ind,
            r@.len() == i,
            forall|k: int| 0 <= k < i ==> #[trigger] r@[k] == ' ',
        decreases ind - i,
    {
        r.push(' ');
        i += 1;
    }
    proof {
        lemma_spaces(ind as int);
        assert(r@ =~= spaces(ind as int));
    }
    let lit = str_to_chars("<<: *lb_common");
    let mut j: usize = 0;
    let ghost sp = r@;
    while j < lit.len()
        invariant
            lit@ == "<<: *lb_common"@,
            j <= lit@.len(),
            r@ == sp + lit@.subrange(0, j as int),
        decreases lit@.len() - j,
    {
        r.push(lit[j]);
        proof {
            assert(r@ =~= sp + lit@.subrange(0, j + 1));
        }
        j += 1;
    }
    proof {
        assert(lit@.subrange(0, lit@.len() as int) =~= lit@);
        assert(r@ =~= merge_line(indent_of(l@)));
    }
    r
}

/// Split a text into its lines.
fn split_lines(v: &Vec<char>) -> (r: Vec<Vec<char>>)
    ensures
        r.deep_view() == lines(v@),
{
    let mut out: Vec<Vec<char>> = Vec::new();
    let mut start: usize = 0;
    proof {
        lemma_deep_view_charvecs(out);
        assert(v@.skip(0) =~= v@);
        assert(out.deep_view() + lines(v@.skip(0)) =~= lines(v@));
    }
    while start < v.len()
        invariant
            start <= v@.len(),
            lines(v@) == out.deep_view() + lines(v@.skip(start as int)),
        decreases v@.len() - start,
    {
        let ghost rest = v@.skip(start as int);
        let mut j: usize = start;
        while j < v.len() && v[j] != '\n'
            invariant
                start <= j <= v@.len(),
                forall|k: int| start <= k < j ==> #[trigger] v@[k] != '\n',
            decreases v@.len() - j,
        {
            j += 1;
        }
        proof {
            assert forall|k: int| 0 <= k < j - start implies #[trigger] rest[k] != '\n' by {
                assert(rest[k] == v@[start + k]);
            }
            lemma_find_nl_at(rest, j - start);
        }
        let piece = subvec(v, start, j);
        let ghost old_out = out.deep_view();
        out.push(piece);
        proof {
            lemma_deep_view_charvecs(out);
            assert(out.deep_view() =~= old_out.push(piece@));
        }
        if j < v.len() {
            proof {
                assert(rest[j - start] == v@[j as int]);
                assert(find_nl(rest) == Some(j - start));
                assert(rest.subrange(0, j - start) =~= piece@);
                assert(rest.skip(j - start + 1) =~= v@.skip(j + 1));
                assert(lines(rest) =~= seq![piece@] + lines(v@.skip(j + 1)));
                assert(out.deep_view() + lines(v@.skip(j + 1)) =~= old_out + lines(rest));
            }
            start = j + 1;
        } else {
            proof {
                assert(find_nl(rest) is None);
                assert(rest =~= piece@);
                assert(rest.len() > 0);
                assert(lines(rest) =~= seq![piece@]);
                assert(v@.skip(v@.len() as int) =~= Seq::<char>::empty());
                assert(out.deep_view() + lines(v@.skip(v@.len() as int)) =~= old_out + lines(
                    rest,
                ));
            }
            start = v.len();
        }
    }
    proof {
        assert(v@.skip(start as int) =~= Seq::<char>::empty());
        assert(out.deep_view() =~= lines(v@));
    }
    out
}

/// Append the text of the lines, each closed by a newline.
fn push_unlines(out: &mut Vec<char>, ls: &Vec<Vec<char>>)
    ensures
        final(out)@ == old(out)@ + unlines(ls.deep_view()),
{
    let ghost full = ls.deep_view();
    let mut i: usize = 0;
    proof {
        lemma_deep_view_charvecs(*ls);
        assert(full.skip(0) =~= full);
    }
    while i < ls.len()
        invariant
            i <= ls@.len(),
            full == ls.deep_view(),
            full.len() == ls@.len(),
            forall|k: int| 0 <= k < ls@.len() ==> #[trigger] full[k] == ls@[k]@,
            old(out)@ + unlines(full) == out@ + unlines(full.skip(i as int)),
        decreases ls@.len() - i,
    {
        let ghost before = out@;
        let line = &ls[i];
        let mut j: usize = 0;
        while j < line.len()
            invariant
                j <= line@.len(),
                out@ == before + line@.subrange(0, j as int),
            decreases line@.len() - j,
        {
            out.push(line[j]);
            proof {
                assert(out@ =~= before + line@.subrange(0, j + 1));
            }
            j += 1;
        }
        out.push('\n');
        proof {
            assert(line@.subrange(0, line@.len() as int) =~= line@);
            assert(out@ =~= before + line@ + seq!['\n']);
            assert(full.skip(i as int)[0] == full[i as int]);
            assert(full.skip(i as int).drop_first() =~= full.skip(i + 1));
            assert(unlines(full.skip(i as int)) =~= full[i as int] + seq!['\n'] + unlines(
                full.skip(i + 1),
            ));
            assert(old(out)@ + unlines(full) =~= out@ + unlines(full.skip(i + 1)));
        }
        i += 1;
    }
    proof {
        assert(full.skip(full.len() as int) =~= Seq::<Seq<char>>::empty());
        assert(out@ =~= old(out)@ + unlines(full));
    }
}

/// Run the line scan over the lines.
fn scan_exec(input: Vec<Vec<char>>) -> (r: Vec<Vec<char>>)
    ensures
        r.deep_view() == scan(input.deep_view(), false),
{
    let ghost full = input.deep_view();
    let mut ls = input;
    let mut out: Vec<Vec<char>> = Vec::new();
    let mut in_block: bool = false;
    proof {
        lemma_deep_view_charvecs(out);
        assert(out.deep_view() + scan(ls.deep_view(), false) =~= scan(full, false));
    }
    while ls.len() > 0
        invariant
            scan(full, false) == out.deep_view() + scan(ls.deep_view(), in_block),
        decreases ls@.len(), (if in_block { 1int } else { 0int }),
    {
        proof {
            lemma_deep_view_charvecs(ls);
        }
        let ghost cur = ls.deep_view();
        if in_block {
            let is_triplet = ls.len() >= 3 && trim_matches(
                &ls[0],
                "url: http://www.gstatic.com/generate_204",
            ) && trim_matches(&ls[1], "interval: 180") && trim_matches(
                &ls[2],
                "strategy: consistent-hashing",
            );
            if is_triplet {
                let first = ls.remove(0);
                let merged = make_merge_line(&first);
                let _second = ls.remove(0);
                let _third = ls.remove(0);
                let ghost old_out = out.deep_view();
                out.push(merged);
                proof {
                    lemma_deep_view_charvecs(out);
                    lemma_deep_view_charvecs(ls);
                    assert(triplet_at(cur));
                    assert(ls.deep_view() =~= cur.skip(3));
                    assert(out.deep_view() =~= old_out.push(merge_line(indent_of(cur[0]))));
                    assert(scan(cur, true) == seq![merge_line(indent_of(cur[0]))] + scan(
                        cur.skip(3),
                        true,
                    ));
                    assert(out.deep_view() + scan(ls.deep_view(), true) =~= scan(full, false));
                }
            } else if is_item_line_exec(&ls[0]) {
                proof {
                    assert(!triplet_at(cur));
                    assert(scan(cur, true) == scan(cur, false));
                }
                in_block = false;
            } else {
                let first = ls.remove(0);
                let ghost old_out = out.deep_view();
                out.push(first);
                proof {
                    lemma_deep_view_charvecs(out);
                    lemma_deep_view_charvecs(ls);
                    assert(!triplet_at(cur));
                    assert(ls.deep_view() =~= cur.skip(1));
                    assert(out.deep_view() =~= old_out.push(cur[0]));
                    assert(scan(cur, true) == seq![cur[0]] + scan(cur.skip(1), true));
                    assert(out.deep_view() + scan(ls.deep_view(), true) =~= scan(full, false));
                }
            }
        } else {
            let opens = trim_matches(&ls[0], "type: load-balance");
            let first = ls.remove(0);
            let ghost old_out = out.deep_view();
            out.push(first);
            if opens {
                in_block = true;
            }
            proof {
                lemma_deep_view_charvecs(out);
                lemma_deep_view_charvecs(ls);
                assert(ls.deep_view() =~= cur.skip(1));
                assert(out.deep_view() =~= old_out.push(cur[0]));
                assert(out.deep_view() + scan(ls.deep_view(), in_block) =~= scan(full, false));
            }
        }
    }
    proof {
        lemma_deep_view_charvecs(ls);
        assert(ls.deep_view() =~= Seq::<Seq<char>>::empty());
        assert(out.deep_view() =~= scan(full, false));
    }
    out
}

/// Compact the repeated probe blocks of a serialized document into one
/// shared definition plus per-group references.
pub fn compact_anchors(text: &str) -> (r: String)
    ensures
        r@ == compact_spec(text@),
{
    let chars = str_to_chars(text);
    let def_chars = str_to_chars(
        ".lb_common: &lb_common\n  url: http://www.gstatic.com/generate_204\n  interval: 180\n  strategy: consistent-hashing\n\n",
    );
    let core: Vec<char> = if has_prefix_exec(&chars, &def_chars) {
        subvec(&chars, def_chars.len(), chars.len())
    } else {
        chars
    };
    proof {
        if has_prefix(text@, def_text()) {
            assert(core@ =~= text@.skip(def_text().len() as int));
        }
    }
    let ls = split_lines(&core);
    let scanned = scan_exec(ls);
    let mut out = def_chars;
    push_unlines(&mut out, &scanned);
    proof {
        assert(out@ =~= compact_spec(text@));
    }
    chars_to_string(&out)
}

} // verus!
