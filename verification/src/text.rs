//! Plain-text groundwork: conversion between `String` and `Vec<char>`,
//! character classes, lexicographic order on strings, and a sort with a
//! functional (deterministic) specification.

use vstd::prelude::*;

verus! {

/// ASCII whitespace as it appears in the line-oriented text this crate
/// reads: space, tab, carriage return, line feed.
pub open spec fn is_ws(c: char) -> bool {
    c == ' ' || c == '\t' || c == '\n' || c == '\r'
}

/// Executable twin of [`is_ws`].
pub fn ws_char(c: char) -> (r: bool)
    ensures
        r == is_ws(c),
{
    c == ' ' || c == '\t' || c == '\n' || c == '\r'
}

pub open spec fn is_digit(c: char) -> bool {
    '0' <= c && c <= '9'
}

pub fn digit_char(c: char) -> (r: bool)
    ensures
        r == is_digit(c),
{
    '0' <= c && c <= '9'
}

/// The characters of `s`, in order.
pub fn str_to_chars(s: &str) -> (v: Vec<char>)
    ensures
        v@ == s@,
{
    let n = s.unicode_len();
    let mut v: Vec<char> = Vec::new();
    let mut i: usize = 0;
    while i < n
        invariant
            n == s@.len(),
            0 <= i <= n,
            v@ == s@.subrange(0, i as int),
        decreases n - i,
    {
        v.push(s.get_char(i));
        i = i + 1;
    }
    assert(v@ =~= s@);
    v
}

/// Relies on std's `FromIterator<char> for String`: collecting the
/// characters of a slice yields the string with exactly those characters.
#[verifier::external_body]
pub fn chars_to_string(v: &Vec<char>) -> (s: String)
    ensures
        s@ == v@,
{
    v.iter().collect()
}

/// Character-for-character equality of two strings.
pub fn str_eq(a: &str, b: &str) -> (r: bool)
    ensures
        r == (a@ == b@),
{
    let va = str_to_chars(a);
    let vb = str_to_chars(b);
    if va.len() != vb.len() {
        assert(a@.len() != b@.len());
        return false;
    }
    let mut i: usize = 0;
    while i < va.len()
        invariant
            0 <= i <= va.len(),
            va@ == a@,
            vb@ == b@,
            va.len() == vb.len(),
            forall|j: int| 0 <= j < i ==> a@[j] == b@[j],
        decreases va.len() - i,
    {
        if va[i] != vb[i] {
            assert(a@[i as int] != b@[i as int]);
            return false;
        }
        i = i + 1;
    }
    proof {
        assert(a@ =~= b@);
    }
    true
}

/// Character-for-character equality of a character vector and a string.
pub fn chars_eq_str(a: &Vec<char>, b: &str) -> (r: bool)
    ensures
        r == (a@ == b@),
{
    let vb = str_to_chars(b);
    if a.len() != vb.len() {
        assert(a@.len() != b@.len());
        return false;
    }
    let mut i: usize = 0;
    while i < a.len()
        invariant
            0 <= i <= a.len(),
            vb@ == b@,
            a.len() == vb.len(),
            forall|j: int| 0 <= j < i ==> a@[j] == b@[j],
        decreases a.len() - i,
    {
        if a[i] != vb[i] {
            assert(a@[i as int] != b@[i as int]);
            return false;
        }
        i = i + 1;
    }
    proof {
        assert(a@ =~= b@);
    }
    true
}

/// Lexicographic order on character sequences, by code point.
pub open spec fn lex_le(a: Seq<char>, b: Seq<char>) -> bool
    decreases a.len(),
{
    if a.len() == 0 {
        true
    } else if b.len() == 0 {
        false
    } else if a[0] != b[0] {
        a[0] < b[0]
    } else {
        lex_le(a.skip(1), b.skip(1))
    }
}

/// Executable lexicographic comparison of two character vectors.
pub fn chars_le(a: &Vec<char>, b: &Vec<char>) -> (r: bool)
    ensures
        r == lex_le(a@, b@),
{
    let mut i: usize = 0;
    proof {
        assert(a@.skip(0) =~= a@);
        assert(b@.skip(0) =~= b@);
    }
    loop
        invariant
            0 <= i <= a.len(),
            i <= b.len(),
            lex_le(a@, b@) == lex_le(a@.skip(i as int), b@.skip(i as int)),
        decreases a.len() - i,
    {
        if i == a.len() {
            return true;
        }
        if i == b.len() {
            return false;
        }
        let ca = a[i];
        let cb = b[i];
        if ca != cb {
            return ca < cb;
        }
        proof {
            assert(a@.skip(i as int).skip(1) =~= a@.skip(i + 1));
            assert(b@.skip(i as int).skip(1) =~= b@.skip(i + 1));
        }
        i = i + 1;
    }
}

/// Lexicographic comparison of two strings.
pub fn str_le(a: &str, b: &str) -> (r: bool)
    ensures
        r == lex_le(a@, b@),
{
    let va = str_to_chars(a);
    let vb = str_to_chars(b);
    chars_le(&va, &vb)
}

/// Where `x` goes when inserted into the (sorted) sequence `s`.
pub open spec fn insert_sorted(x: Seq<char>, s: Seq<Seq<char>>) -> Seq<Seq<char>>
    decreases s.len(),
{
    if s.len() == 0 {
        seq![x]
    } else if lex_le(x, s[0]) {
        seq![x] + s
    } else {
        seq![s[0]] + insert_sorted(x, s.skip(1))
    }
}

/// Insertion sort of a sequence of strings, as a function: the unique
/// result this module's executable sort returns.
pub open spec fn sort_spec(s: Seq<Seq<char>>) -> Seq<Seq<char>>
    decreases s.len(),
{
    if s.len() == 0 {
        Seq::empty()
    } else {
        insert_sorted(s[0], sort_spec(s.skip(1)))
    }
}

/// Inserting at the first position whose element is not below `x` is what
/// [`insert_sorted`] does.
proof fn lemma_insert_sorted_at(x: Seq<char>, s: Seq<Seq<char>>, k: int)
    requires
        0 <= k <= s.len(),
        forall|j: int| 0 <= j < k ==> !lex_le(x, #[trigger] s[j]),
        k < s.len() ==> lex_le(x, s[k]),
    ensures
        insert_sorted(x, s) == s.insert(k, x),
    decreases s.len(),
{
    if k == 0 {
        if s.len() == 0 {
            assert(insert_sorted(x, s) =~= s.insert(0, x));
        } else {
            assert(insert_sorted(x, s) =~= s.insert(0, x));
        }
    } else {
        assert(!lex_le(x, s[0]));
        lemma_insert_sorted_at(x, s.skip(1), k - 1);
        assert(insert_sorted(x, s) == seq![s[0]] + insert_sorted(x, s.skip(1)));
        assert(insert_sorted(x, s) =~= s.insert(k, x));
    }
}

/// Insert `x` into the sorted vector `r`, keeping it sorted.
fn insert_string_sorted(r: &mut Vec<String>, x: String)
    ensures
        final(r).deep_view() == insert_sorted(x@, old(r).deep_view()),
{
    let ghost s: Seq<Seq<char>> = r.deep_view();
    let mut k: usize = 0;
    loop
        invariant
            0 <= k <= r.len(),
            s == r.deep_view(),
            forall|j: int| 0 <= j < k ==> !lex_le(x@, #[trigger] s[j]),
        ensures
            0 <= k <= r.len(),
            forall|j: int| 0 <= j < k ==> !lex_le(x@, #[trigger] s[j]),
            k < r.len() ==> lex_le(x@, s[k as int]),
        decreases r.len() - k,
    {
        if k == r.len() {
            break;
        }
        proof {
            assert(s[k as int] == r@[k as int]@);
        }
        if str_le(x.as_str(), r[k].as_str()) {
            break;
        }
        k = k + 1;
    }
    proof {
        lemma_insert_sorted_at(x@, s, k as int);
    }
    let ghost xv: Seq<char> = x@;
    r.insert(k, x);
    proof {
        assert forall|p: int| 0 <= p < r.deep_view().len() implies r.deep_view()[p]
            == s.insert(k as int, xv)[p] by {
            assert(r@[p]@ == r.deep_view()[p]);
        }
        assert(r.deep_view() =~= s.insert(k as int, xv));
    }
}

/// Nondecreasing in lexicographic order.
pub open spec fn sorted_lex(s: Seq<Seq<char>>) -> bool {
    forall|p: int, q: int| 0 <= p < q < s.len() ==> lex_le(s[p], s[q])
}

/// Lexicographic order is total.
pub proof fn lemma_lex_le_total(a: Seq<char>, b: Seq<char>)
    ensures
        lex_le(a, b) || lex_le(b, a),
    decreases a.len(),
{
    if a.len() > 0 && b.len() > 0 && a[0] == b[0] {
        lemma_lex_le_total(a.skip(1), b.skip(1));
    }
}

/// Lexicographic order is transitive.
pub proof fn lemma_lex_le_trans(a: Seq<char>, b: Seq<char>, c: Seq<char>)
    requires
        lex_le(a, b),
        lex_le(b, c),
    ensures
        lex_le(a, c),
    decreases a.len(),
{
    if a.len() > 0 && b.len() > 0 && c.len() > 0 {
        if a[0] == b[0] && b[0] == c[0] {
            lemma_lex_le_trans(a.skip(1), b.skip(1), c.skip(1));
        }
    }
}

/// Inserting adds exactly one occurrence.
pub proof fn lemma_insert_sorted_perm(x: Seq<char>, s: Seq<Seq<char>>)
    ensures
        insert_sorted(x, s).to_multiset() == s.to_multiset().insert(x),
    decreases s.len(),
{
    broadcast use vstd::seq_lib::group_to_multiset_ensures;

    if s.len() == 0 {
        assert(seq![x] =~= Seq::<Seq<char>>::empty().push(x));
        assert(insert_sorted(x, s).to_multiset() =~= s.to_multiset().insert(x));
    } else if lex_le(x, s[0]) {
        assert(seq![x] + s =~= s.insert(0, x));
        vstd::seq_lib::to_multiset_insert(s, 0, x);
        assert(insert_sorted(x, s).to_multiset() =~= s.to_multiset().insert(x));
    } else {
        lemma_insert_sorted_perm(x, s.skip(1));
        let inner = insert_sorted(x, s.skip(1));
        assert(seq![s[0]] + inner =~= inner.insert(0, s[0]));
        vstd::seq_lib::to_multiset_insert(inner, 0, s[0]);
        assert(s =~= s.skip(1).insert(0, s[0]));
        vstd::seq_lib::to_multiset_insert(s.skip(1), 0, s[0]);
        assert(insert_sorted(x, s).to_multiset() =~= s.to_multiset().insert(x));
    }
}

/// Inserting into a sorted sequence keeps it sorted.
pub proof fn lemma_insert_sorted_sorted(x: Seq<char>, s: Seq<Seq<char>>)
    requires
        sorted_lex(s),
    ensures
        sorted_lex(insert_sorted(x, s)),
    decreases s.len(),
{
    broadcast use vstd::seq_lib::group_to_multiset_ensures;

    if s.len() == 0 {
        assert(sorted_lex(insert_sorted(x, s)));
    } else if lex_le(x, s[0]) {
        let r = seq![x] + s;
        assert forall|p: int, q: int| 0 <= p < q < r.len() implies lex_le(r[p], r[q]) by {
            if p == 0 {
                if q > 1 {
                    lemma_lex_le_trans(x, s[0], s[q - 1]);
                }
            }
        }
    } else {
        assert(sorted_lex(s.skip(1))) by {
            assert forall|p: int, q: int|
                0 <= p < q < s.skip(1).len() implies lex_le(s.skip(1)[p], s.skip(1)[q]) by {
                assert(s.skip(1)[p] == s[p + 1]);
                assert(s.skip(1)[q] == s[q + 1]);
            }
        }
        lemma_insert_sorted_sorted(x, s.skip(1));
        lemma_insert_sorted_perm(x, s.skip(1));
        let inner = insert_sorted(x, s.skip(1));
        let r = seq![s[0]] + inner;
        lemma_lex_le_total(x, s[0]);
        assert forall|p: int, q: int| 0 <= p < q < r.len() implies lex_le(r[p], r[q]) by {
            if p == 0 {
                let y = inner[q - 1];
                assert(inner.contains(y));
                assert(inner.to_multiset().count(y) > 0);
                if y == x {
                    assert(lex_le(s[0], x));
                } else {
                    assert(s.skip(1).to_multiset().count(y) > 0);
                    assert(s.skip(1).contains(y));
                    let w = choose|w: int| 0 <= w < s.skip(1).len() && s.skip(1)[w] == y;
                    assert(s[w + 1] == y);
                    assert(lex_le(s[0], s[w + 1]));
                }
            } else {
                assert(r[p] == inner[p - 1]);
                assert(r[q] == inner[q - 1]);
            }
        }
    }
}

/// Lexicographic order is reflexive.
pub proof fn lemma_lex_le_refl(a: Seq<char>)
    ensures
        lex_le(a, a),
    decreases a.len(),
{
    if a.len() > 0 {
        lemma_lex_le_refl(a.skip(1));
    }
}

/// Lexicographic order is antisymmetric.
pub proof fn lemma_lex_le_antisym(a: Seq<char>, b: Seq<char>)
    requires
        lex_le(a, b),
        lex_le(b, a),
    ensures
        a == b,
    decreases a.len(),
{
    if a.len() == 0 {
        assert(b.len() == 0);
        assert(a =~= b);
    } else {
        assert(b.len() > 0);
        if a[0] != b[0] {
            assert(a[0] < b[0]);
            assert(b[0] < a[0]);
        }
        assert(a[0] == b[0]);
        assert(lex_le(a.skip(1), b.skip(1)));
        assert(lex_le(b.skip(1), a.skip(1)));
        lemma_lex_le_antisym(a.skip(1), b.skip(1));
        assert(a.len() == b.len());
        assert forall|i: int| 0 <= i < a.len() implies a[i] == b[i] by {
            if i > 0 {
                assert(a.skip(1)[i - 1] == a[i]);
                assert(b.skip(1)[i - 1] == b[i]);
            }
        }
        assert(a =~= b);
    }
}

/// Two sorted sequences with the same contents are the same sequence.
pub proof fn lemma_sorted_unique(a: Seq<Seq<char>>, b: Seq<Seq<char>>)
    requires
        sorted_lex(a),
        sorted_lex(b),
        a.to_multiset() == b.to_multiset(),
    ensures
        a == b,
    decreases a.len(),
{
    broadcast use vstd::seq_lib::group_to_multiset_ensures;

    vstd::seq_lib::to_multiset_len(a);
    vstd::seq_lib::to_multiset_len(b);
    if a.len() == 0 {
        assert(b.len() == 0);
        assert(a =~= b);
    } else {
        assert(b.len() == a.len());
        // each head is a least element, so the heads agree
        assert(b.contains(a[0])) by {
            assert(a.contains(a[0]));
            assert(a.to_multiset().count(a[0]) > 0);
        }
        assert(a.contains(b[0])) by {
            assert(b.contains(b[0]));
            assert(b.to_multiset().count(b[0]) > 0);
        }
        let ja = choose|j: int| 0 <= j < b.len() && b[j] == a[0];
        let jb = choose|j: int| 0 <= j < a.len() && a[j] == b[0];
        assert(lex_le(b[0], a[0])) by {
            if ja == 0 {
                lemma_lex_le_refl(a[0]);
            }
        }
        assert(lex_le(a[0], b[0])) by {
            if jb == 0 {
                lemma_lex_le_refl(a[0]);
            }
        }
        lemma_lex_le_antisym(a[0], b[0]);
        assert(a.skip(1) =~= a.remove(0));
        assert(b.skip(1) =~= b.remove(0));
        assert(a.remove(0).to_multiset() =~= b.remove(0).to_multiset()) by {
            vstd::seq_lib::to_multiset_remove(a, 0);
            vstd::seq_lib::to_multiset_remove(b, 0);
        }
        assert(sorted_lex(a.skip(1))) by {
            assert forall|p: int, q: int|
                0 <= p < q < a.skip(1).len() implies lex_le(a.skip(1)[p], a.skip(1)[q]) by {
                assert(a.skip(1)[p] == a[p + 1]);
                assert(a.skip(1)[q] == a[q + 1]);
            }
        }
        assert(sorted_lex(b.skip(1))) by {
            assert forall|p: int, q: int|
                0 <= p < q < b.skip(1).len() implies lex_le(b.skip(1)[p], b.skip(1)[q]) by {
                assert(b.skip(1)[p] == b[p + 1]);
                assert(b.skip(1)[q] == b[q + 1]);
            }
        }
        lemma_sorted_unique(a.skip(1), b.skip(1));
        assert forall|i: int| 0 <= i < a.len() implies a[i] == b[i] by {
            if i > 0 {
                assert(a.skip(1)[i - 1] == a[i]);
                assert(b.skip(1)[i - 1] == b[i]);
            }
        }
        assert(a =~= b);
    }
}

/// Sorting is canonical: any two arrangements of the same contents
/// sort to the same sequence.
pub proof fn lemma_sort_canonical(a: Seq<Seq<char>>, b: Seq<Seq<char>>)
    requires
        a.to_multiset() == b.to_multiset(),
    ensures
        sort_spec(a) == sort_spec(b),
{
    lemma_sort_spec_props(a);
    lemma_sort_spec_props(b);
    lemma_sorted_unique(sort_spec(a), sort_spec(b));
}

/// The sort returns a sorted permutation of its input.
pub proof fn lemma_sort_spec_props(s: Seq<Seq<char>>)
    ensures
        sorted_lex(sort_spec(s)),
        sort_spec(s).to_multiset() == s.to_multiset(),
    decreases s.len(),
{
    broadcast use vstd::seq_lib::group_to_multiset_ensures;

    if s.len() == 0 {
        assert(sorted_lex(sort_spec(s)));
    } else {
        lemma_sort_spec_props(s.skip(1));
        lemma_insert_sorted_sorted(s[0], sort_spec(s.skip(1)));
        lemma_insert_sorted_perm(s[0], sort_spec(s.skip(1)));
        assert(s =~= s.skip(1).insert(0, s[0]));
        vstd::seq_lib::to_multiset_insert(s.skip(1), 0, s[0]);
        assert(sort_spec(s).to_multiset() =~= s.to_multiset());
    }
}

/// Sort strings lexicographically; the result is the one [`sort_spec`]
/// names, so equal inputs give byte-identical outputs.
pub fn sort_strings(v: &Vec<String>) -> (r: Vec<String>)
    ensures
        r.deep_view() == sort_spec(v.deep_view()),
{
    let ghost s: Seq<Seq<char>> = v.deep_view();
    let mut r: Vec<String> = Vec::new();
    let mut i: usize = v.len();
    proof {
        assert(s.skip(i as int) =~= Seq::<Seq<char>>::empty());
        assert(r.deep_view() =~= Seq::<Seq<char>>::empty());
    }
    while i > 0
        invariant
            0 <= i <= v.len(),
            s == v.deep_view(),
            r.deep_view() == sort_spec(s.skip(i as int)),
        decreases i,
    {
        i = i - 1;
        proof {
            assert(s.skip(i as int)[0] == v@[i as int]@);
            assert(s.skip(i as int).skip(1) =~= s.skip(i + 1));
        }
        insert_string_sorted(&mut r, v[i].clone());
    }
    proof {
        assert(s.skip(0) =~= s);
    }
    r
}

} // verus!
