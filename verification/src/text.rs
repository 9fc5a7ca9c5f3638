//! Character-sequence utilities: substring search, ASCII digit tests,
//! lexicographic ordering and sorting of names.
//!
//! All executable code here works on `Vec<char>`, whose view is the same
//! `Seq<char>` that `&str` and `String` expose, so the contracts of the
//! higher layers can speak one language throughout.

use vstd::multiset::Multiset;
use vstd::prelude::*;
use vstd::string::StrSliceExecFns;

verus! {

/// The needle `n` occurs in `h` starting at position `i`.
pub open spec fn occurs_at(h: Seq<char>, n: Seq<char>, i: int) -> bool {
    0 <= i && i + n.len() <= h.len() && h.subrange(i, i + n.len()) == n
}

/// The needle `n` occurs somewhere in `h` (substring containment).
pub open spec fn has_sub(h: Seq<char>, n: Seq<char>) -> bool {
    exists|i: int| occurs_at(h, n, i)
}

/// Whether the needle occurs at one given position.
fn match_at(h: &Vec<char>, n: &Vec<char>, i: usize) -> (r: bool)
    requires
        i + n@.len() <= h@.len(),
    ensures
        r == occurs_at(h@, n@, i as int),
{
    let hl = h.len();
    let nl = n.len();
    let mut j: usize = 0;
    while j < nl
        invariant
            hl == h@.len(),
            nl == n@.len(),
            i + nl <= hl,
            j <= nl,
            forall|k: int| 0 <= k < j ==> h@[i + k] == n@[k],
        decreases nl - j,
    {
        if h[i + j] != n[j] {
            proof {
                assert(h@.subrange(i as int, i + n@.len())[j as int] != n@[j as int]);
            }
            return false;
        }
        j += 1;
    }
    proof {
        assert(h@.subrange(i as int, i + n@.len()) =~= n@);
    }
    true
}

/// Exec substring containment on char vectors.
pub fn contains_sub(h: &Vec<char>, n: &Vec<char>) -> (r: bool)
    ensures
        r == has_sub(h@, n@),
{
    if n.len() == 0 {
        proof {
            assert(occurs_at(h@, n@, 0)) by {
                assert(h@.subrange(0, 0) =~= n@);
            }
        }
        return true;
    }
    if n.len() > h.len() {
        return false;
    }
    let bound = h.len() - n.len();
    let mut i: usize = 0;
    while i <= bound
        invariant
            1 <= n@.len() <= h@.len(),
            bound == h@.len() - n@.len(),
            bound < h@.len() <= usize::MAX,
            i <= bound + 1,
            forall|k: int| 0 <= k < i ==> !occurs_at(h@, n@, k),
        decreases bound + 1 - i,
    {
        if match_at(h, n, i) {
            return true;
        }
        i += 1;
    }
    false
}

/// `c` is an ASCII decimal digit.
pub open spec fn is_digit(c: char) -> bool {
    '0' <= c <= '9'
}

/// All characters of `s` are ASCII digits.
pub open spec fn all_digits(s: Seq<char>) -> bool {
    forall|i: int| 0 <= i < s.len() ==> is_digit(#[trigger] s[i])
}

/// Exec test for an ASCII digit.
pub fn is_digit_exec(c: char) -> (r: bool)
    ensures
        r == is_digit(c),
{
    '0' <= c && c <= '9'
}

/// Lexicographic order on character sequences by code point, the same
/// order that `str`'s `Ord` gives on UTF-8 encoded strings.
pub open spec fn lex_le(a: Seq<char>, b: Seq<char>) -> bool
    decreases a.len(),
{
    if a.len() == 0 {
        true
    } else if b.len() == 0 {
        false
    } else if a[0] != b[0] {
        a[0] < b[0]
    } else {
        lex_le(a.drop_first(), b.drop_first())
    }
}

/// The lexicographic order is reflexive.
pub proof fn lemma_lex_le_refl(a: Seq<char>)
    ensures
        lex_le(a, a),
    decreases a.len(),
{
    if a.len() > 0 {
        lemma_lex_le_refl(a.drop_first());
    }
}

/// The lexicographic order is total.
pub proof fn lemma_lex_le_total(a: Seq<char>, b: Seq<char>)
    ensures
        lex_le(a, b) || lex_le(b, a),
    decreases a.len(),
{
    if a.len() > 0 && b.len() > 0 && a[0] == b[0] {
        lemma_lex_le_total(a.drop_first(), b.drop_first());
    }
}

/// The lexicographic order is transitive.
pub proof fn lemma_lex_le_trans(a: Seq<char>, b: Seq<char>, c: Seq<char>)
    requires
        lex_le(a, b),
        lex_le(b, c),
    ensures
        lex_le(a, c),
    decreases a.len(),
{
    if a.len() > 0 && b.len() > 0 && c.len() > 0 && a[0] == b[0] && b[0] == c[0] {
        lemma_lex_le_trans(a.drop_first(), b.drop_first(), c.drop_first());
    }
}

/// Exec comparison realizing `lex_le`.
pub fn lex_le_exec(a: &Vec<char>, b: &Vec<char>) -> (r: bool)
    ensures
        r == lex_le(a@, b@),
{
    let al = a.len();
    let bl = b.len();
    proof {
        assert(a@.skip(0) =~= a@);
        assert(b@.skip(0) =~= b@);
    }
    let mut i: usize = 0;
    while i < al && i < bl
        invariant
            al == a@.len(),
            bl == b@.len(),
            i <= al,
            i <= bl,
            lex_le(a@, b@) == lex_le(a@.skip(i as int), b@.skip(i as int)),
        decreases al - i,
    {
        let ca = a[i];
        let cb = b[i];
        proof {
            assert(a@.skip(i as int)[0] == ca);
            assert(b@.skip(i as int)[0] == cb);
        }
        if ca != cb {
            return ca < cb;
        }
        proof {
            assert(a@.skip(i as int).drop_first() =~= a@.skip(i + 1));
            assert(b@.skip(i as int).drop_first() =~= b@.skip(i + 1));
        }
        i += 1;
    }
    i >= al
}

/// The sequence of names is sorted in lexicographic order.
pub open spec fn sorted_lex(s: Seq<Seq<char>>) -> bool {
    forall|i: int, j: int| 0 <= i < j < s.len() ==> lex_le(#[trigger] s[i], #[trigger] s[j])
}

/// The deep view of a vector of char vectors is the pointwise view.
pub proof fn lemma_deep_view_charvecs(v: Vec<Vec<char>>)
    ensures
        v.deep_view().len() == v@.len(),
        forall|i: int| 0 <= i < v@.len() ==> #[trigger] v.deep_view()[i] == v@[i]@,
{
    assert forall|i: int| 0 <= i < v@.len() implies #[trigger] v.deep_view()[i] == v@[i]@ by {
        assert(v@[i].deep_view() =~= v@[i]@);
    }
}

/// Sort names in lexicographic order: the result is the sorted
/// rearrangement of the input (unique, since the order is total).
pub fn sort_names(input: Vec<Vec<char>>) -> (r: Vec<Vec<char>>)
    ensures
        sorted_lex(r.deep_view()),
        r.deep_view().to_multiset() == input.deep_view().to_multiset(),
{
    let mut rest = input;
    let mut out: Vec<Vec<char>> = Vec::new();
    proof {
        assert(out.deep_view() =~= Seq::<Seq<char>>::empty());
        out.deep_view().to_multiset_ensures();
        assert(out.deep_view().to_multiset().add(rest.deep_view().to_multiset())
            =~= input.deep_view().to_multiset());
    }
    while rest.len() > 0
        invariant
            sorted_lex(out.deep_view()),
            out.deep_view().to_multiset().add(rest.deep_view().to_multiset())
                == input.deep_view().to_multiset(),
            forall|i: int, j: int|
                0 <= i < out.deep_view().len() && 0 <= j < rest.deep_view().len()
                    ==> lex_le(#[trigger] out.deep_view()[i], #[trigger] rest.deep_view()[j]),
        decreases rest@.len(),
    {
        proof {
            lemma_deep_view_charvecs(rest);
            lemma_lex_le_refl(rest.deep_view()[0]);
        }
        let mut m: usize = 0;
        let mut k: usize = 1;
        while k < rest.len()
            invariant
                rest@.len() > 0,
                m < k,
                k <= rest@.len(),
                forall|j: int|
                    0 <= j < k ==> lex_le(
                        rest.deep_view()[m as int],
                        #[trigger] rest.deep_view()[j],
                    ),
            decreases rest@.len() - k,
        {
            proof {
                lemma_deep_view_charvecs(rest);
                lemma_lex_le_total(rest.deep_view()[m as int], rest.deep_view()[k as int]);
                lemma_lex_le_refl(rest.deep_view()[k as int]);
            }
            if lex_le_exec(&rest[k], &rest[m]) {
                proof {
                    assert forall|j: int|
                        0 <= j < k + 1 implies lex_le(
                        rest.deep_view()[k as int],
                        #[trigger] rest.deep_view()[j],
                    ) by {
                        if j < k {
                            lemma_lex_le_trans(
                                rest.deep_view()[k as int],
                                rest.deep_view()[m as int],
                                rest.deep_view()[j],
                            );
                        }
                    }
                }
                m = k;
            }
            k += 1;
        }
        let ghost old_rest = rest.deep_view();
        let ghost old_out = out.deep_view();
        let x = rest.remove(m);
        out.push(x);
        proof {
            old_rest.to_multiset_ensures();
            old_out.to_multiset_ensures();
            assert(out.deep_view() =~= old_out.push(x.deep_view()));
            assert(rest.deep_view() =~= old_rest.remove(m as int));
            assert(old_rest[m as int] == x.deep_view());
            assert(out.deep_view().to_multiset() =~= old_out.to_multiset().insert(x.deep_view()));
            assert(rest.deep_view().to_multiset() =~= old_rest.to_multiset().remove(x.deep_view()));
            assert(old_rest.to_multiset().contains(x.deep_view())) by {
                assert(old_rest.contains(x.deep_view()));
            }
            assert(out.deep_view().to_multiset().add(rest.deep_view().to_multiset())
                =~= input.deep_view().to_multiset());
            // every element left in rest is at least x, so pushing x keeps
            // the output below everything that remains
            assert forall|j: int|
                0 <= j < rest.deep_view().len() implies lex_le(
                x.deep_view(),
                #[trigger] rest.deep_view()[j],
            ) by {
                if j < m {
                    assert(rest.deep_view()[j] == old_rest[j]);
                } else {
                    assert(rest.deep_view()[j] == old_rest[j + 1]);
                }
            }
            assert(sorted_lex(out.deep_view()));
        }
    }
    proof {
        rest.deep_view().to_multiset_ensures();
        assert(rest.deep_view().len() == 0) by {
            lemma_deep_view_charvecs(rest);
        }
        assert(rest.deep_view().to_multiset() =~= Multiset::<Seq<char>>::empty());
        assert(out.deep_view().to_multiset() =~= input.deep_view().to_multiset());
    }
    out
}

/// A fresh vector holding `v[from..to]`.
pub fn subvec(v: &Vec<char>, from: usize, to: usize) -> (r: Vec<char>)
    requires
        from <= to <= v@.len(),
    ensures
        r@ == v@.subrange(from as int, to as int),
{
    let mut r: Vec<char> = Vec::new();
    let mut i: usize = from;
    while i < to
        invariant
            from <= i <= to <= v@.len(),
            r@ == v@.subrange(from as int, i as int),
        decreases to - i,
    {
        r.push(v[i]);
        proof {
            assert(r@ =~= v@.subrange(from as int, i + 1));
        }
        i += 1;
    }
    r
}

/// Exec equality of two char vectors, by contents.
pub fn vec_eq(a: &Vec<char>, b: &Vec<char>) -> (r: bool)
    ensures
        r == (a@ == b@),
{
    if a.len() != b.len() {
        return false;
    }
    let mut i: usize = 0;
    while i < a.len()
        invariant
            a@.len() == b@.len(),
            i <= a@.len(),
            forall|j: int| 0 <= j < i ==> a@[j] == b@[j],
        decreases a@.len() - i,
    {
        if a[i] != b[i] {
            return false;
        }
        i += 1;
    }
    proof {
        assert(a@ =~= b@);
    }
    true
}

/// Exec equality of two string slices, by characters.
pub fn str_eq(a: &str, b: &str) -> (r: bool)
    ensures
        r == (a@ == b@),
{
    let va = str_to_chars(a);
    let vb = str_to_chars(b);
    vec_eq(&va, &vb)
}

/// The deep view of a vector of strings is the pointwise view.
pub proof fn lemma_deep_view_strings(v: Vec<String>)
    ensures
        v.deep_view().len() == v@.len(),
        forall|i: int| 0 <= i < v@.len() ==> #[trigger] v.deep_view()[i] == v@[i]@,
{
    assert forall|i: int| 0 <= i < v@.len() implies #[trigger] v.deep_view()[i] == v@[i]@ by {
        assert(v@[i].deep_view() =~= v@[i]@);
    }
}

/// The characters of a string slice, as a vector.
pub fn str_to_chars(s: &str) -> (v: Vec<char>)
    ensures
        v@ == s@,
{
    let n = s.unicode_len();
    let mut v: Vec<char> = Vec::new();
    let mut i: usize = 0;
    while i < n
        invariant
            n == s@.len(),
            i <= n,
            v@ == s@.subrange(0, i as int),
        decreases n - i,
    {
        v.push(s.get_char(i));
        proof {
            assert(v@ =~= s@.subrange(0, i + 1));
        }
        i += 1;
    }
    proof {
        assert(v@ =~= s@);
    }
    v
}

/// Relies on std's `FromIterator<char> for String`: collecting characters
/// yields the string of exactly those characters in order.
#[verifier::external_body]
pub fn chars_to_string(v: &Vec<char>) -> (s: String)
    ensures
        s@ == v@,
{
    v.iter().collect()
}

} // verus!
