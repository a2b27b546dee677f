//! Character-level text operations used throughout the test runner:
//! conversions between strings and character vectors, substring search,
//! and line splitting, each with its mathematical meaning.
use vstd::prelude::*;

verus! {

/// `p` occurs in `s` starting at character position `i`.
pub open spec fn occurs_at(s: Seq<char>, p: Seq<char>, i: int) -> bool {
    0 <= i && i + p.len() <= s.len() && s.subrange(i, i + p.len()) == p
}

/// `p` occurs somewhere in `s`.
pub open spec fn contains_seq(s: Seq<char>, p: Seq<char>) -> bool {
    exists|i: int| occurs_at(s, p, i)
}

/// `i` is the leftmost position at or after `start` where `p` occurs in `s`.
pub open spec fn is_first_occurrence_from(s: Seq<char>, p: Seq<char>, start: int, i: int) -> bool {
    &&& start <= i
    &&& occurs_at(s, p, i)
    &&& forall|j: int| start <= j < i ==> !occurs_at(s, p, j)
}

/// Pieces of `s` between the non-overlapping occurrences of the non-empty separator
/// `sep`, found left to right; empty pieces are kept.
pub open spec fn split_by(s: Seq<char>, sep: Seq<char>) -> Seq<Seq<char>>
    recommends
        sep.len() > 0,
    decreases s.len(),
{
    if sep.len() == 0 || s.len() == 0 {
        seq![s]
    } else if s.len() >= sep.len() && s.take(sep.len() as int) == sep {
        seq![Seq::<char>::empty()] + split_by(s.skip(sep.len() as int), sep)
    } else {
        let rest = split_by(s.skip(1), sep);
        rest.update(0, seq![s[0]] + rest[0])
    }
}

/// Appends one character to a string (std's `String::push`).
#[verifier::external_body]
pub(crate) fn push_char(s: &mut String, c: char)
    ensures
        final(s)@ == old(s)@.push(c),
{
    s.push(c);
}

/// The characters of a string slice, in order.
pub fn chars_of(s: &str) -> (v: Vec<char>)
    ensures
        v@ == s@,
{
    let mut v: Vec<char> = Vec::new();
    for c in it: s.chars()
        invariant
            v@ == it.seq().take(it.index() as int),
            it.seq() == s@,
    {
        v.push(c);
    }
    v
}

/// The string made of the given characters.
pub fn string_of(v: &[char]) -> (s: String)
    ensures
        s@ == v@,
{
    let mut s = String::new();
    let mut i: usize = 0;
    while i < v.len()
        invariant
            i <= v.len(),
            s@ == v@.take(i as int),
        decreases v.len() - i,
    {
        push_char(&mut s, v[i]);
        assert(v@.take(i + 1) == v@.take(i as int).push(v@[i as int]));
        i += 1;
    }
    assert(v@.take(v.len() as int) == v@);
    s
}

/// A copy of `s` with `t` appended.
pub fn concat(s: &str, t: &str) -> (r: String)
    ensures
        r@ == s@ + t@,
{
    let mut r = s.to_owned();
    r.append(t);
    r
}

/// Appends the characters of `t` to `s`.
pub fn push_chars(s: &mut String, t: &[char])
    ensures
        final(s)@ == old(s)@ + t@,
{
    let mut i: usize = 0;
    while i < t.len()
        invariant
            i <= t.len(),
            s@ == old(s)@ + t@.take(i as int),
        decreases t.len() - i,
    {
        push_char(s, t[i]);
        assert(t@.take(i + 1) == t@.take(i as int).push(t@[i as int]));
        i += 1;
    }
    assert(t@.take(t.len() as int) == t@);
}

/// Whether `p` occurs in `s` at position `i`.
pub fn occurs_at_exec(s: &[char], p: &[char], i: usize) -> (r: bool)
    ensures
        r == occurs_at(s@, p@, i as int),
{
    if i > s.len() || p.len() > s.len() - i {
        return false;
    }
    let mut k: usize = 0;
    while k < p.len()
        invariant
            i + p.len() <= s.len(),
            k <= p.len(),
            forall|j: int| 0 <= j < k ==> s@[i + j] == p@[j],
        decreases p.len() - k,
    {
        if s[i + k] != p[k] {
            assert(s@.subrange(i as int, i + p.len())[k as int] != p@[k as int]);
            return false;
        }
        k += 1;
    }
    assert(s@.subrange(i as int, i + p.len()) =~= p@);
    true
}

/// The leftmost occurrence of `p` in `s` at or after `start`.
pub fn find_from(s: &[char], p: &[char], start: usize) -> (r: Option<usize>)
    ensures
        match r {
            Some(i) => is_first_occurrence_from(s@, p@, start as int, i as int),
            None => forall|j: int| start <= j ==> !occurs_at(s@, p@, j),
        },
{
    if start > s.len() {
        return None;
    }
    let mut i = start;
    while i < s.len()
        invariant
            start <= i <= s.len(),
            forall|j: int| start <= j < i ==> !occurs_at(s@, p@, j),
        decreases s.len() - i,
    {
        if occurs_at_exec(s, p, i) {
            return Some(i);
        }
        i += 1;
    }
    if occurs_at_exec(s, p, i) {
        return Some(i);
    }
    None
}

/// Whether `p` occurs in `s`.
pub fn contains_chars(s: &[char], p: &[char]) -> (r: bool)
    ensures
        r == contains_seq(s@, p@),
{
    match find_from(s, p, 0) {
        Some(i) => true,
        None => {
            assert forall|j: int| !occurs_at(s@, p@, j) by {
                if j < 0 {
                }
            }
            false
        },
    }
}

/// Whether the string `s` contains the string `p`.
pub fn str_contains(s: &str, p: &str) -> (r: bool)
    ensures
        r == contains_seq(s@, p@),
{
    let sv = chars_of(s);
    let pv = chars_of(p);
    contains_chars(&sv, &pv)
}

/// Whether `s` starts with `p`.
pub fn starts_with_chars(s: &[char], p: &[char]) -> (r: bool)
    ensures
        r == (p.len() <= s.len() && s@.take(p.len() as int) == p@),
{
    let r = occurs_at_exec(s, p, 0);
    assert(p.len() <= s.len() ==> s@.subrange(0, p.len() as int) == s@.take(p.len() as int));
    r
}

/// Appends the characters of `t` to the vector `v`.
pub fn extend_chars(v: &mut Vec<char>, t: &[char])
    ensures
        final(v)@ == old(v)@ + t@,
{
    let mut i: usize = 0;
    while i < t.len()
        invariant
            i <= t.len(),
            v@ == old(v)@ + t@.take(i as int),
        decreases t.len() - i,
    {
        v.push(t[i]);
        assert(t@.take(i + 1) == t@.take(i as int).push(t@[i as int]));
        i += 1;
    }
    assert(t@.take(t.len() as int) == t@);
}

/// Appends `s[start..]` to `v`.
pub fn extend_from(v: &mut Vec<char>, s: &[char], start: usize)
    requires
        start <= s.len(),
    ensures
        final(v)@ == old(v)@ + s@.skip(start as int),
{
    let mut i: usize = start;
    while i < s.len()
        invariant
            start <= i <= s.len(),
            v@ == old(v)@ + s@.subrange(start as int, i as int),
        decreases s.len() - i,
    {
        v.push(s[i]);
        assert(s@.subrange(start as int, i + 1) == s@.subrange(start as int, i as int).push(
            s@[i as int],
        ));
        i += 1;
    }
    assert(s@.subrange(start as int, s.len() as int) =~= s@.skip(start as int));
}

/// Whether two character sequences are equal.
pub fn chars_eq(a: &[char], b: &[char]) -> (r: bool)
    ensures
        r == (a@ == b@),
{
    if a.len() != b.len() {
        return false;
    }
    let r = occurs_at_exec(a, b, 0);
    assert(a@.subrange(0, b.len() as int) =~= a@);
    r
}

} // verus!
