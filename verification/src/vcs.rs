//! Predicates over what the version-control collaborator hands us:
//! commit hashes, `status --porcelain` output, and `log --oneline` lines.

use vstd::prelude::*;

use crate::text::{digit_char, is_digit, is_ws, str_to_chars, ws_char};

verus! {

/// A clean working tree reports nothing: only whitespace in the
/// porcelain status output.
pub open spec fn clean_status(s: Seq<char>) -> bool {
    forall|i: int| 0 <= i < s.len() ==> is_ws(#[trigger] s[i])
}

pub enum StatusError {
    /// The working tree holds uncommitted changes.
    DirtyWorkTree,
}

/// Refuse to proceed on a dirty working tree, judged from the
/// porcelain status output.
pub fn ensure_clean(status: &str) -> (r: Result<(), StatusError>)
    ensures
        r is Ok <==> clean_status(status@),
{
    let v = str_to_chars(status);
    let mut i: usize = 0;
    while i < v.len()
        invariant
            0 <= i <= v.len(),
            v@ == status@,
            forall|j: int| 0 <= j < i ==> is_ws(#[trigger] status@[j]),
        decreases v.len() - i,
    {
        if !ws_char(v[i]) {
            assert(!is_ws(status@[i as int]));
            return Err(StatusError::DirtyWorkTree);
        }
        i = i + 1;
    }
    Ok(())
}

/// The merged-pull-request shape at position `k` of a message: `(#`,
/// then at least one digit running to the closing `)` that ends the
/// message.
pub open spec fn pr_shape_at(m: Seq<char>, k: int) -> bool {
    &&& 0 <= k
    &&& k + 3 < m.len()
    &&& m[k] == '('
    &&& m[k + 1] == '#'
    &&& m[m.len() - 1] == ')'
    &&& forall|j: int| k + 2 <= j < m.len() - 1 ==> is_digit(#[trigger] m[j])
}

/// Does the message end with a parenthesized numeric reference, the
/// textual shape of a merged pull request?  A heuristic over the text
/// alone, kept as one predicate so a stricter check could replace it.
pub open spec fn is_pr_merge_spec(m: Seq<char>) -> bool {
    exists|k: int| pr_shape_at(m, k)
}

/// If the message has the shape at all, the maximal digit run ending
/// just before the final `)` pins down where the `(#` must sit.
proof fn lemma_pr_run_pins(m: Seq<char>, j: int)
    requires
        4 <= m.len(),
        0 <= j <= m.len() - 1,
        forall|p: int| j <= p < m.len() - 1 ==> is_digit(#[trigger] m[p]),
        j == 0 || !is_digit(m[j - 1]),
        is_pr_merge_spec(m),
    ensures
        2 <= j < m.len() - 1,
        m[j - 1] == '#',
        m[j - 2] == '(',
{
    let k = choose|k: int| pr_shape_at(m, k);
    assert(m[k + 1] == '#');
    assert(!is_digit(m[k + 1]));
    assert(j == k + 2) by {
        if j > k + 2 {
            // m[j-1] lies inside the witness's digit region
            assert(k + 2 <= j - 1 < m.len() - 1);
            assert(is_digit(m[j - 1]));
        }
        if j < k + 2 {
            // the run would have to cross the '#'
            assert(j <= k + 1 < m.len() - 1);
            assert(is_digit(m[k + 1]));
        }
    }
}

/// Executable twin of [`is_pr_merge_spec`].
pub fn is_pr_merge_message(msg: &str) -> (r: bool)
    ensures
        r == is_pr_merge_spec(msg@),
{
    let v = str_to_chars(msg);
    if v.len() < 4 {
        proof {
            if is_pr_merge_spec(msg@) {
                let k = choose|k: int| pr_shape_at(msg@, k);
            }
        }
        return false;
    }
    if v[v.len() - 1] != ')' {
        proof {
            if is_pr_merge_spec(msg@) {
                let k = choose|k: int| pr_shape_at(msg@, k);
            }
        }
        return false;
    }
    // scan the digit run leftwards from just before the ')'
    let mut j: usize = v.len() - 1;
    while j > 0 && digit_char(v[j - 1])
        invariant
            0 <= j <= v.len() - 1,
            v@ == msg@,
            v.len() >= 4,
            msg@.len() == v.len(),
            forall|p: int| j <= p < v.len() - 1 ==> is_digit(#[trigger] msg@[p]),
        decreases j,
    {
        j = j - 1;
    }
    if j >= v.len() - 1 {
        // no digits before the ')'
        proof {
            if is_pr_merge_spec(msg@) {
                lemma_pr_run_pins(msg@, j as int);
            }
        }
        return false;
    }
    if j < 2 {
        proof {
            if is_pr_merge_spec(msg@) {
                lemma_pr_run_pins(msg@, j as int);
            }
        }
        return false;
    }
    let hit = v[j - 1] == '#' && v[j - 2] == '(';
    proof {
        if hit {
            assert(pr_shape_at(msg@, j - 2));
        } else if is_pr_merge_spec(msg@) {
            lemma_pr_run_pins(msg@, j as int);
        }
    }
    hit
}

/// A hexadecimal digit, either case.
pub open spec fn is_hex_char(c: char) -> bool {
    ('0' <= c && c <= '9') || ('a' <= c && c <= 'f') || ('A' <= c && c <= 'F')
}

/// The shape of a commit hash: exactly forty hexadecimal characters.
/// Directory names that do not match this shape are ignored by scans.
pub open spec fn is_commit_hash_spec(s: Seq<char>) -> bool {
    s.len() == 40 && forall|i: int| 0 <= i < s.len() ==> is_hex_char(#[trigger] s[i])
}

fn hex_char(c: char) -> (r: bool)
    ensures
        r == is_hex_char(c),
{
    ('0' <= c && c <= '9') || ('a' <= c && c <= 'f') || ('A' <= c && c <= 'F')
}

/// Does `s` have the shape of a commit hash?
pub fn is_commit_hash(s: &str) -> (r: bool)
    ensures
        r == is_commit_hash_spec(s@),
{
    let n = s.unicode_len();
    if n != 40 {
        return false;
    }
    let mut i: usize = 0;
    while i < 40
        invariant
            n == s@.len(),
            n == 40,
            0 <= i <= 40,
            forall|j: int| 0 <= j < i ==> is_hex_char(#[trigger] s@[j]),
        decreases 40 - i,
    {
        if !hex_char(s.get_char(i)) {
            return false;
        }
        i = i + 1;
    }
    true
}

} // verus!
