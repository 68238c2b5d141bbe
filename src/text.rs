//! Character-level text helpers shared by the engines.

use vstd::prelude::*;

verus! {

/// Relies on `String::push`: the character is appended at the end.
#[verifier::external_body]
pub(crate) fn push_char(s: &mut String, c: char)
    ensures
        final(s)@ == old(s)@.push(c),
{
    s.push(c)
}

/// `p` occurs in `s` starting at position `i`.
pub open spec fn occurs_at(s: Seq<char>, p: Seq<char>, i: int) -> bool {
    0 <= i && i + p.len() <= s.len() && s.subrange(i, i + p.len()) == p
}

/// `s` begins with `p`.
pub open spec fn has_prefix(s: Seq<char>, p: Seq<char>) -> bool {
    occurs_at(s, p, 0)
}

/// `p` occurs somewhere in `s`.
pub open spec fn has_infix(s: Seq<char>, p: Seq<char>) -> bool {
    exists|i: int| occurs_at(s, p, i)
}

/// Whether `p` occurs in `s` at position `i`.
fn occurs_at_exec(s: &str, p: &str, i: usize, s_len: usize, p_len: usize) -> (r: bool)
    requires
        s_len == s@.len(),
        p_len == p@.len(),
    ensures
        r == occurs_at(s@, p@, i as int),
{
    if p_len > s_len || i > s_len - p_len {
        return false;
    }
    let mut k: usize = 0;
    while k < p_len
        invariant
            k <= p_len,
            p_len == p@.len(),
            s_len == s@.len(),
            i + p_len <= s_len,
            forall|j: int| 0 <= j < k ==> s@[i + j] == p@[j],
        decreases p_len - k,
    {
        if s.get_char(i + k) != p.get_char(k) {
            assert(s@.subrange(i as int, i + p_len)[k as int] != p@[k as int]);
            return false;
        }
        k = k + 1;
    }
    assert(s@.subrange(i as int, i + p_len) =~= p@);
    true
}

/// Whether `s` begins with `p`.
pub fn starts_with_text(s: &str, p: &str) -> (r: bool)
    ensures
        r == has_prefix(s@, p@),
{
    let s_len = s.unicode_len();
    let p_len = p.unicode_len();
    occurs_at_exec(s, p, 0, s_len, p_len)
}

/// Whether `p` occurs somewhere in `s`.
pub fn contains_text(s: &str, p: &str) -> (r: bool)
    ensures
        r == has_infix(s@, p@),
{
    let s_len = s.unicode_len();
    let p_len = p.unicode_len();
    if p_len > s_len {
        return false;
    }
    let last = s_len - p_len;
    let mut i: usize = 0;
    loop
        invariant
            i <= last,
            last == s_len - p_len,
            s_len == s@.len(),
            p_len == p@.len(),
            forall|j: int| 0 <= j < i ==> !occurs_at(s@, p@, j),
        decreases last - i,
    {
        if occurs_at_exec(s, p, i, s_len, p_len) {
            return true;
        }
        if i == last {
            assert forall|j: int| !occurs_at(s@, p@, j) by {
                if j < i {
                    assert(!occurs_at(s@, p@, j));
                }
            }
            return false;
        }
        i = i + 1;
    }
}

/// `a` sorts before `b` when both agree on their first `i` characters:
/// at the first position from `i` where they differ the character of `a`
/// is smaller, or `a` ends first.
pub open spec fn sorts_before_from(a: Seq<char>, b: Seq<char>, i: int) -> bool
    decreases a.len() - i,
{
    if i >= a.len() {
        i < b.len()
    } else if i >= b.len() {
        false
    } else if a[i] != b[i] {
        (a[i] as int) < (b[i] as int)
    } else {
        sorts_before_from(a, b, i + 1)
    }
}

/// Lexicographic order of texts by character.
pub open spec fn sorts_before(a: Seq<char>, b: Seq<char>) -> bool {
    sorts_before_from(a, b, 0)
}

proof fn lemma_sorts_before_from_transitive(a: Seq<char>, b: Seq<char>, c: Seq<char>, i: int)
    requires
        0 <= i,
        sorts_before_from(a, b, i),
        sorts_before_from(b, c, i),
    ensures
        sorts_before_from(a, c, i),
    decreases a.len() - i,
{
    if i < a.len() && i < b.len() && i < c.len() && a[i] == b[i] && b[i] == c[i] {
        lemma_sorts_before_from_transitive(a, b, c, i + 1);
    }
}

proof fn lemma_sorts_before_from_total(a: Seq<char>, b: Seq<char>, i: int)
    requires
        0 <= i <= a.len(),
        i <= b.len(),
        !sorts_before_from(a, b, i),
        !sorts_before_from(b, a, i),
    ensures
        a.len() == b.len(),
        forall|m: int| i <= m < a.len() ==> a[m] == b[m],
    decreases a.len() - i,
{
    if i < a.len() && i < b.len() {
        if a[i] == b[i] {
            lemma_sorts_before_from_total(a, b, i + 1);
        } else {
            assert((a[i] as int) != (b[i] as int));
        }
    }
}

/// Lexicographic order is transitive.
pub proof fn lemma_sorts_before_transitive(a: Seq<char>, b: Seq<char>, c: Seq<char>)
    requires
        sorts_before(a, b),
        sorts_before(b, c),
    ensures
        sorts_before(a, c),
{
    lemma_sorts_before_from_transitive(a, b, c, 0);
}

/// Of two different texts, one sorts before the other.
pub proof fn lemma_sorts_before_total(a: Seq<char>, b: Seq<char>)
    requires
        !sorts_before(a, b),
        !sorts_before(b, a),
    ensures
        a == b,
{
    lemma_sorts_before_from_total(a, b, 0);
    assert(a =~= b);
}

/// Whether `a` sorts before `b`.
pub fn text_less(a: &str, b: &str) -> (r: bool)
    ensures
        r == sorts_before(a@, b@),
{
    let a_len = a.unicode_len();
    let b_len = b.unicode_len();
    let mut i: usize = 0;
    while i < a_len && i < b_len
        invariant
            a_len == a@.len(),
            b_len == b@.len(),
            i <= a_len,
            i <= b_len,
            sorts_before(a@, b@) == sorts_before_from(a@, b@, i as int),
        decreases a_len - i,
    {
        let x = a.get_char(i);
        let y = b.get_char(i);
        if x != y {
            return (x as u32) < (y as u32);
        }
        i = i + 1;
    }
    i < b_len
}

} // verus!
