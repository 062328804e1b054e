//! Character-level helpers for working with `&str` and `String` values:
//! equality, prefix tests, and leftmost substring search and replacement.

use vstd::prelude::*;
use vstd::string::StrSliceExecFns;
use vstd::string::StringExecFns;

verus! {

/// True when `p` occurs in `t` starting at position `i`.
pub open spec fn occurs_at(t: Seq<char>, p: Seq<char>, i: int) -> bool {
    0 <= i && i + p.len() <= t.len() && t.subrange(i, i + p.len() as int) == p
}

/// Index of the leftmost occurrence of `p` in `t`, or -1 when `p` does not
/// occur. The empty pattern occurs at index 0.
pub open spec fn find_sub(t: Seq<char>, p: Seq<char>) -> int
    decreases t.len(),
{
    if p.len() > t.len() {
        -1
    } else if t.subrange(0, p.len() as int) == p {
        0
    } else if t.len() == 0 {
        -1
    } else {
        let r = find_sub(t.skip(1), p);
        if r < 0 {
            -1
        } else {
            r + 1
        }
    }
}

/// `t` with every leftmost non-overlapping occurrence of `p` replaced by `n`.
/// Meaningful only for a non-empty pattern `p`.
pub open spec fn replace_all_sub(t: Seq<char>, p: Seq<char>, n: Seq<char>) -> Seq<char>
    decreases t.len(),
    when p.len() > 0
{
    if t.len() < p.len() {
        t
    } else if t.subrange(0, p.len() as int) == p {
        n + replace_all_sub(t.skip(p.len() as int), p, n)
    } else {
        t.take(1) + replace_all_sub(t.skip(1), p, n)
    }
}

/// `t` with the leftmost occurrence of `p` (if any) replaced by `n`.
pub open spec fn replace_first_sub(t: Seq<char>, p: Seq<char>, n: Seq<char>) -> Seq<char> {
    let i = find_sub(t, p);
    if i < 0 {
        t
    } else {
        t.take(i) + n + t.skip(i + p.len())
    }
}

/// True when `p` occurs somewhere in `t`.
pub open spec fn contains_sub(t: Seq<char>, p: Seq<char>) -> bool {
    find_sub(t, p) >= 0
}

/// Relies on String::push: appends the given character to the end of
/// the string.
pub assume_specification[ String::push ](s: &mut String, ch: char)
    ensures
        final(s)@ == old(s)@.push(ch),
;

/// Where `find_sub` finds an occurrence, it is in bounds, real, and leftmost.
pub proof fn lemma_find_sub_props(t: Seq<char>, p: Seq<char>)
    ensures
        find_sub(t, p) >= 0 ==> {
            &&& find_sub(t, p) + p.len() <= t.len()
            &&& occurs_at(t, p, find_sub(t, p))
            &&& forall|j: int| 0 <= j < find_sub(t, p) ==> !occurs_at(t, p, j)
        },
        find_sub(t, p) < 0 ==> forall|j: int| !occurs_at(t, p, j),
    decreases t.len(),
{
    if p.len() > t.len() {
        assert(forall|j: int| !occurs_at(t, p, j));
    } else if t.subrange(0, p.len() as int) == p {
        assert(occurs_at(t, p, 0));
    } else if t.len() == 0 {
        assert(forall|j: int| !occurs_at(t, p, j));
    } else {
        lemma_find_sub_props(t.skip(1), p);
        assert(!occurs_at(t, p, 0));
        assert forall|j: int| 1 <= j implies occurs_at(t, p, j) == occurs_at(
            t.skip(1),
            p,
            j - 1,
        ) by {
            if 0 <= j - 1 && j - 1 + p.len() <= t.skip(1).len() {
                assert(t.subrange(j, j + p.len() as int) =~= t.skip(1).subrange(
                    j - 1,
                    j - 1 + p.len() as int,
                ));
            }
        }
    }
}

/// Character-by-character string equality.
pub fn str_eq(a: &str, b: &str) -> (r: bool)
    ensures
        r == (a@ == b@),
{
    let alen = a.unicode_len();
    let blen = b.unicode_len();
    if alen != blen {
        assert(a@ != b@);
        return false;
    }
    let mut i: usize = 0;
    while i < alen
        invariant
            alen == a@.len(),
            alen == b@.len(),
            0 <= i <= alen,
            forall|j: int| 0 <= j < i ==> a@[j] == b@[j],
        decreases alen - i,
    {
        if a.get_char(i) != b.get_char(i) {
            assert(a@ != b@);
            return false;
        }
        i += 1;
    }
    assert(a@ =~= b@);
    true
}

/// Does `t` start with `p` at position `i`?
pub fn occurs_at_exec(t: &str, p: &str, i: usize) -> (r: bool)
    requires
        i + p@.len() <= t@.len(),
    ensures
        r == occurs_at(t@, p@, i as int),
{
    let tlen = t.unicode_len();
    let plen = p.unicode_len();
    let mut j: usize = 0;
    while j < plen
        invariant
            tlen == t@.len(),
            plen == p@.len(),
            i + plen <= tlen,
            0 <= j <= plen,
            forall|k: int| 0 <= k < j ==> t@[i + k] == p@[k],
        decreases plen - j,
    {
        if t.get_char(i + j) != p.get_char(j) {
            assert(t@.subrange(i as int, i + p@.len() as int)[j as int] != p@[j as int]);
            return false;
        }
        j += 1;
    }
    assert(t@.subrange(i as int, i + p@.len() as int) =~= p@);
    true
}

/// Leftmost occurrence of `p` in `t`, as an index, or `None`.
pub fn find_sub_exec(t: &str, p: &str) -> (r: Option<usize>)
    ensures
        match r {
            Some(i) => find_sub(t@, p@) == i as int && i + p@.len() <= t@.len(),
            None => find_sub(t@, p@) < 0,
        },
    decreases t@.len(),
{
    let tlen = t.unicode_len();
    let plen = p.unicode_len();
    if plen > tlen {
        return None;
    }
    if occurs_at_exec(t, p, 0) {
        assert(t@.subrange(0, p@.len() as int) == p@);
        return Some(0);
    }
    assert(t@.subrange(0, p@.len() as int) != p@);
    if tlen == 0 {
        return None;
    }
    let rest = t.substring_char(1, tlen);
    assert(rest@ =~= t@.skip(1));
    match find_sub_exec(rest, p) {
        Some(i) => Some(i + 1),
        None => None,
    }
}

/// `t` with every leftmost non-overlapping occurrence of `p` replaced by `n`.
pub fn replace_all_exec(t: &str, p: &str, n: &str) -> (r: String)
    requires
        p@.len() > 0,
    ensures
        r@ == replace_all_sub(t@, p@, n@),
    decreases t@.len(),
{
    let tlen = t.unicode_len();
    let plen = p.unicode_len();
    if tlen < plen {
        return t.to_owned();
    }
    if occurs_at_exec(t, p, 0) {
        let rest = t.substring_char(plen, tlen);
        assert(rest@ =~= t@.skip(p@.len() as int));
        let tail = replace_all_exec(rest, p, n);
        let r = n.to_owned().concat(tail.as_str());
        assert(r@ == replace_all_sub(t@, p@, n@));
        r
    } else {
        assert(t@.subrange(0, p@.len() as int) != p@);
        let head = t.substring_char(0, 1);
        assert(head@ =~= t@.take(1));
        let rest = t.substring_char(1, tlen);
        assert(rest@ =~= t@.skip(1));
        let tail = replace_all_exec(rest, p, n);
        head.to_owned().concat(tail.as_str())
    }
}

/// `t` with the leftmost occurrence of `p` (if any) replaced by `n`;
/// also reports whether a replacement happened.
pub fn replace_first_exec(t: &str, p: &str, n: &str) -> (r: (String, bool))
    ensures
        r.0@ == replace_first_sub(t@, p@, n@),
        r.1 == contains_sub(t@, p@),
{
    let tlen = t.unicode_len();
    match find_sub_exec(t, p) {
        None => (t.to_owned(), false),
        Some(i) => {
            let plen = p.unicode_len();
            let head = t.substring_char(0, i);
            assert(head@ =~= t@.take(i as int));
            let tail = t.substring_char(i + plen, tlen);
            assert(tail@ =~= t@.skip(i + p@.len()));
            (head.to_owned().concat(n).concat(tail), true)
        },
    }
}

/// Does `p` occur somewhere in `t`?
pub fn contains_sub_exec(t: &str, p: &str) -> (r: bool)
    ensures
        r == contains_sub(t@, p@),
{
    match find_sub_exec(t, p) {
        Some(_) => true,
        None => false,
    }
}

/// Lexicographic order on character sequences, by code point.
pub open spec fn lex_le(a: Seq<char>, b: Seq<char>) -> bool
    decreases a.len(),
{
    if a.len() == 0 {
        true
    } else if b.len() == 0 {
        false
    } else if a[0] != b[0] {
        (a[0] as u32) < (b[0] as u32)
    } else {
        lex_le(a.skip(1), b.skip(1))
    }
}

/// Is `a` at most `b` in lexicographic order?
pub fn str_le(a: &str, b: &str) -> (r: bool)
    ensures
        r == lex_le(a@, b@),
    decreases a@.len(),
{
    let alen = a.unicode_len();
    let blen = b.unicode_len();
    if alen == 0 {
        return true;
    }
    if blen == 0 {
        return false;
    }
    let ca = a.get_char(0);
    let cb = b.get_char(0);
    if ca != cb {
        (ca as u32) < (cb as u32)
    } else {
        let ra = a.substring_char(1, alen);
        let rb = b.substring_char(1, blen);
        proof {
            assert(ra@ =~= a@.skip(1));
            assert(rb@ =~= b@.skip(1));
        }
        str_le(ra, rb)
    }
}

/// Element-wise equality of two string vectors.
pub fn eq_string_vec(a: &Vec<String>, b: &Vec<String>) -> (r: bool)
    ensures
        r == (a.deep_view() == b.deep_view()),
{
    if a.len() != b.len() {
        assert(a.deep_view().len() != b.deep_view().len());
        return false;
    }
    let n = a.len();
    let mut i: usize = 0;
    while i < n
        invariant
            n == a.len(),
            n == b.len(),
            0 <= i <= n,
            forall|j: int| 0 <= j < i ==> a.deep_view()[j] == b.deep_view()[j],
        decreases n - i,
    {
        if !str_eq(a[i].as_str(), b[i].as_str()) {
            assert(a.deep_view()[i as int] != b.deep_view()[i as int]);
            return false;
        }
        i += 1;
    }
    assert(a.deep_view() =~= b.deep_view());
    true
}

/// Clones a vector of strings, preserving its contents.
pub fn clone_string_vec(v: &Vec<String>) -> (r: Vec<String>)
    ensures
        r.deep_view() == v.deep_view(),
{
    let mut r: Vec<String> = Vec::new();
    let mut i: usize = 0;
    while i < v.len()
        invariant
            0 <= i <= v.len(),
            r.len() == i,
            forall|j: int| 0 <= j < i ==> r.deep_view()[j] == v.deep_view()[j],
        decreases v.len() - i,
    {
        r.push(v[i].clone());
        i += 1;
    }
    assert(r.deep_view() =~= v.deep_view());
    r
}

} // verus!
