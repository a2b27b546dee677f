//! Repetition patterns: an expected-output pattern written `(BODY){N}`, `(BODY){N,}`,
//! `(BODY){,M}` or `(BODY){N,M}` asks how many times `BODY` occurs in the output,
//! rather than whether it occurs.
use vstd::prelude::*;
use crate::pattern::{Pattern, regex_compiles, regex_match_spans};
use crate::text::{chars_of, string_of};

verus! {

pub open spec fn is_ascii_char(c: char) -> bool {
    (c as u32) < 128
}

pub open spec fn is_digit(c: char) -> bool {
    '0' <= c && c <= '9'
}

/// A non-empty run of ASCII decimal digits.
pub open spec fn all_digits(s: Seq<char>) -> bool {
    s.len() > 0 && forall|i: int| 0 <= i < s.len() ==> is_digit(#[trigger] s[i])
}

/// The value of a run of decimal digits.
pub open spec fn digits_value(s: Seq<char>) -> nat
    decreases s.len(),
{
    if s.len() == 0 {
        0
    } else {
        digits_value(s.drop_last()) * 10 + ((s.last() as u32) - ('0' as u32)) as nat
    }
}

/// Index of the first `c` in `s`, or -1.
pub open spec fn first_index_of(s: Seq<char>, c: char) -> int
    decreases s.len(),
{
    if s.len() == 0 {
        -1
    } else if s[0] == c {
        0
    } else {
        let r = first_index_of(s.skip(1), c);
        if r < 0 { -1 } else { r + 1 }
    }
}

/// Index of the last `c` in `s`, or -1.
pub open spec fn last_index_of(s: Seq<char>, c: char) -> int
    decreases s.len(),
{
    if s.len() == 0 {
        -1
    } else if s.last() == c {
        s.len() - 1
    } else {
        last_index_of(s.drop_last(), c)
    }
}

/// The repeated group: `(`, at least one character, `)`, all ASCII.
pub open spec fn is_group(b: Seq<char>) -> bool {
    &&& b.len() >= 3
    &&& b[0] == '('
    &&& b.last() == ')'
    &&& forall|i: int| 0 <= i < b.len() ==> is_ascii_char(#[trigger] b[i])
}

/// The numbers written in a repetition suffix `{..}`, as (lower, upper, ranged):
/// `{N}` gives (N, N), `{N,}` gives (N, usize::MAX), `{,M}` gives (1, M) and
/// `{N,M}` gives (N, M); only the last, `ranged`, asks that lower <= upper.
pub open spec fn suffix_bounds(s: Seq<char>) -> Option<(nat, nat, bool)> {
    if s.len() < 3 || s[0] != '{' || s.last() != '}' {
        None
    } else {
        let inner = s.subrange(1, s.len() - 1);
        let c = first_index_of(inner, ',');
        if c < 0 {
            if all_digits(inner) {
                Some((digits_value(inner), digits_value(inner), false))
            } else {
                None
            }
        } else if c == inner.len() - 1 && all_digits(inner.take(c)) {
            Some((digits_value(inner.take(c)), usize::MAX as nat, false))
        } else if c == 0 && all_digits(inner.skip(1)) {
            Some((1, digits_value(inner.skip(1)), false))
        } else if 0 < c < inner.len() - 1 && all_digits(inner.take(c)) && all_digits(
            inner.skip(c + 1),
        ) {
            Some((digits_value(inner.take(c)), digits_value(inner.skip(c + 1)), true))
        } else {
            None
        }
    }
}

/// Where the group ends: just after the last `)`.
pub open spec fn group_end(p: Seq<char>) -> int {
    last_index_of(p, ')') + 1
}

/// The numbers of a pattern in repetition syntax, before the lower <= upper check.
pub open spec fn repeat_bounds(p: Seq<char>) -> Option<(nat, nat, bool)> {
    let k = group_end(p);
    if k > 0 && is_group(p.take(k)) {
        suffix_bounds(p.skip(k))
    } else {
        None
    }
}

/// A pattern in repetition syntax: its group (parentheses included) and the
/// inclusive range of occurrence counts it accepts. A `{N,M}` range whose lower
/// bound exceeds its upper bound is no repetition pattern.
pub open spec fn repeat_parse(p: Seq<char>) -> Option<(Seq<char>, nat, nat)> {
    match repeat_bounds(p) {
        Some((lo, hi, ranged)) => if !ranged || lo <= hi {
            Some((p.take(group_end(p)), lo, hi))
        } else {
            None
        },
        None => None,
    }
}

/// The numbers of a repetition pattern fit in `usize`.
pub open spec fn repeat_bounds_fit(p: Seq<char>) -> bool {
    repeat_bounds(p) matches Some((lo, hi, _)) ==> lo <= usize::MAX && hi <= usize::MAX
}

/// The regular expression that finds the occurrences of a group:
/// `(?m)(` + the group without its outer parentheses + `)`.
pub open spec fn counting_pattern(group: Seq<char>) -> Seq<char> {
    seq!['(', '?', 'm', ')', '('] + group.subrange(1, group.len() - 1) + seq![')']
}

/// What `xregex` decides, given the matches of the counting pattern: a group that
/// does not occur never satisfies the pattern, not even a range that admits zero.
pub open spec fn xregex_spec(haystack: Seq<char>, pattern: Seq<char>) -> Option<bool> {
    match repeat_parse(pattern) {
        None => None,
        Some((group, lo, hi)) => {
            let count = regex_match_spans(counting_pattern(group), haystack).len();
            Some(count > 0 && lo <= count && count <= hi)
        },
    }
}

/// The condition under which `xregex` can run: its numbers fit and, for a
/// repetition pattern, the counting pattern compiles.
pub open spec fn xregex_runnable(pattern: Seq<char>) -> bool {
    &&& repeat_bounds_fit(pattern)
    &&& repeat_parse(pattern) matches Some((group, _, _)) ==> regex_compiles(
        counting_pattern(group),
    )
}

proof fn lemma_last_index_bounds(s: Seq<char>, c: char)
    ensures
        -1 <= last_index_of(s, c) < s.len(),
        last_index_of(s, c) >= 0 ==> s[last_index_of(s, c)] == c,
        forall|j: int| last_index_of(s, c) < j < s.len() ==> s[j] != c,
    decreases s.len(),
{
    if s.len() > 0 && s.last() != c {
        lemma_last_index_bounds(s.drop_last(), c);
        assert forall|j: int| last_index_of(s, c) < j < s.len() implies s[j] != c by {
            if j < s.len() - 1 {
                assert(s.drop_last()[j] == s[j]);
            }
        }
    }
}

proof fn lemma_first_index_bounds(s: Seq<char>, c: char)
    ensures
        -1 <= first_index_of(s, c) < s.len(),
        first_index_of(s, c) >= 0 ==> s[first_index_of(s, c)] == c,
        forall|j: int|
            0 <= j < s.len() && (first_index_of(s, c) < 0 || j < first_index_of(s, c)) ==> s[j]
                != c,
    decreases s.len(),
{
    if s.len() > 0 && s[0] != c {
        lemma_first_index_bounds(s.skip(1), c);
        assert forall|j: int|
            0 <= j < s.len() && (first_index_of(s, c) < 0 || j < first_index_of(s, c)) implies s[j]
            != c by {
            if j > 0 {
                assert(s.skip(1)[j - 1] == s[j]);
            }
        }
    }
}

/// Position of the last `c` in `v`.
fn last_index_exec(v: &[char], c: char) -> (r: Option<usize>)
    ensures
        match r {
            Some(i) => last_index_of(v@, c) == i as int,
            None => last_index_of(v@, c) == -1,
        },
{
    let mut i = v.len();
    while i > 0
        invariant
            i <= v.len(),
            forall|j: int| i <= j < v.len() ==> v@[j] != c,
        decreases i,
    {
        if v[i - 1] == c {
            proof {
                lemma_last_index_from(v@, c, (i - 1) as int);
            }
            return Some(i - 1);
        }
        i -= 1;
    }
    proof {
        lemma_last_index_none(v@, c);
    }
    None
}

proof fn lemma_last_index_from(s: Seq<char>, c: char, i: int)
    requires
        0 <= i < s.len(),
        s[i] == c,
        forall|j: int| i < j < s.len() ==> s[j] != c,
    ensures
        last_index_of(s, c) == i,
    decreases s.len(),
{
    if s.last() != c {
        assert forall|j: int| i < j < s.drop_last().len() implies s.drop_last()[j] != c by {
            assert(s.drop_last()[j] == s[j]);
        }
        lemma_last_index_from(s.drop_last(), c, i);
    }
}

proof fn lemma_last_index_none(s: Seq<char>, c: char)
    requires
        forall|j: int| 0 <= j < s.len() ==> s[j] != c,
    ensures
        last_index_of(s, c) == -1,
    decreases s.len(),
{
    if s.len() > 0 {
        assert forall|j: int| 0 <= j < s.drop_last().len() implies s.drop_last()[j] != c by {
            assert(s.drop_last()[j] == s[j]);
        }
        lemma_last_index_none(s.drop_last(), c);
    }
}

proof fn lemma_first_index_from(s: Seq<char>, c: char, i: int)
    requires
        0 <= i <= s.len(),
        i < s.len() ==> s[i] == c,
        forall|j: int| 0 <= j < i ==> s[j] != c,
    ensures
        first_index_of(s, c) == (if i < s.len() { i } else { -1 }),
    decreases s.len(),
{
    if s.len() > 0 && s[0] != c {
        assert forall|j: int| 0 <= j < i - 1 implies s.skip(1)[j] != c by {
            assert(s.skip(1)[j] == s[j + 1]);
        }
        lemma_first_index_from(s.skip(1), c, i - 1);
    }
}

/// Position of the first `c` in `v[from..to]`, relative to `from`.
fn first_index_exec(v: &[char], from: usize, to: usize, c: char) -> (r: Option<usize>)
    requires
        from <= to <= v.len(),
    ensures
        match r {
            Some(i) => first_index_of(v@.subrange(from as int, to as int), c) == i as int,
            None => first_index_of(v@.subrange(from as int, to as int), c) == -1,
        },
{
    let ghost s = v@.subrange(from as int, to as int);
    let mut i = from;
    while i < to
        invariant
            from <= i <= to <= v.len(),
            s == v@.subrange(from as int, to as int),
            forall|j: int| 0 <= j < i - from ==> s[j] != c,
        decreases to - i,
    {
        if v[i] == c {
            proof {
                lemma_first_index_from(s, c, (i - from) as int);
            }
            return Some(i - from);
        }
        i += 1;
    }
    proof {
        lemma_first_index_from(s, c, s.len() as int);
    }
    None
}

proof fn lemma_digits_value_push(s: Seq<char>, c: char)
    ensures
        digits_value(s.push(c)) == digits_value(s) * 10 + ((c as u32) - ('0' as u32)) as nat,
{
    assert(s.push(c).drop_last() =~= s);
}

/// The value of the digits `v[from..to]`, if they form a non-empty run of ASCII digits
/// (`ok`) and the value fits in `usize` (`fits`).
fn parse_digits(v: &[char], from: usize, to: usize) -> (r: (bool, bool, usize))
    requires
        from <= to <= v.len(),
    ensures
        r.0 == all_digits(v@.subrange(from as int, to as int)),
        r.0 ==> (r.1 == (digits_value(v@.subrange(from as int, to as int)) <= usize::MAX)),
        r.0 && r.1 ==> r.2 as nat == digits_value(v@.subrange(from as int, to as int)),
{
    let ghost s = v@.subrange(from as int, to as int);
    if from == to {
        return (false, false, 0);
    }
    let mut i = from;
    let mut value: usize = 0;
    let mut fits = true;
    assert(v@.subrange(from as int, from as int) =~= Seq::<char>::empty());
    while i < to
        invariant
            from <= i <= to <= v.len(),
            s == v@.subrange(from as int, to as int),
            forall|j: int| from <= j < i ==> is_digit(v@[j]),
            fits == (digits_value(v@.subrange(from as int, i as int)) <= usize::MAX),
            fits ==> value as nat == digits_value(v@.subrange(from as int, i as int)),
        decreases to - i,
    {
        let c = v[i];
        if !('0' <= c && c <= '9') {
            assert(s[i - from] == c);
            return (false, false, 0);
        }
        let d = (c as u32 - '0' as u32) as usize;
        proof {
            assert(v@.subrange(from as int, i + 1) =~= v@.subrange(from as int, i as int).push(c));
            lemma_digits_value_push(v@.subrange(from as int, i as int), c);
        }
        if fits {
            if value > (usize::MAX - d) / 10 {
                fits = false;
                assert(value * 10 + d > usize::MAX) by (nonlinear_arith)
                    requires
                        value > (usize::MAX - d) / 10,
                        d <= 9,
                ;
            } else {
                assert(value * 10 + d <= usize::MAX) by (nonlinear_arith)
                    requires
                        value <= (usize::MAX - d) / 10,
                        d <= 9,
                ;
                value = value * 10 + d;
            }
        } else {
            assert(digits_value(v@.subrange(from as int, i as int)) * 10 + d > usize::MAX)
                by (nonlinear_arith)
                requires
                    digits_value(v@.subrange(from as int, i as int)) > usize::MAX,
            ;
        }
        i += 1;
    }
    assert forall|k: int| 0 <= k < s.len() implies is_digit(#[trigger] s[k]) by {
        assert(s[k] == v@[from + k]);
    }
    (true, fits, value)
}

/// The numbers of the repetition suffix `v[from..]` (see `suffix_bounds`); `fits`
/// tells whether all of them fit in `usize`.
fn parse_suffix(v: &[char], from: usize) -> (r: Option<(usize, usize, bool, bool)>)
    requires
        from <= v.len(),
    ensures
        match r {
            None => suffix_bounds(v@.skip(from as int)) is None,
            Some((lo, hi, fits, ranged)) => suffix_bounds(v@.skip(from as int)) matches Some(
                (l, h, g),
            ) && g == ranged && (fits == (l <= usize::MAX && h <= usize::MAX)) && (fits ==> lo
                as nat == l && hi as nat == h),
        },
{
    let ghost s = v@.skip(from as int);
    let n = v.len();
    if n - from < 3 || v[from] != '{' || v[n - 1] != '}' {
        return None;
    }
    let a = from + 1;
    let b = n - 1;
    let ghost inner = s.subrange(1, s.len() - 1);
    assert(inner =~= v@.subrange(a as int, b as int));
    let c = first_index_exec(v, a, b, ',');
    match c {
        None => {
            let (ok, fits, val) = parse_digits(v, a, b);
            if ok {
                Some((val, val, fits, false))
            } else {
                None
            }
        },
        Some(c) => {
            proof {
                lemma_first_index_bounds(inner, ',');
            }
            let len = b - a;
            if c == len - 1 {
                let (ok, fits, val) = parse_digits(v, a, a + c);
                assert(inner.take(c as int) =~= v@.subrange(a as int, a + c));
                if ok {
                    return Some((val, usize::MAX, fits, false));
                }
            }
            if c == 0 {
                let (ok, fits, val) = parse_digits(v, a + 1, b);
                assert(inner.skip(1) =~= v@.subrange(a + 1, b as int));
                if ok {
                    assert(!all_digits(inner.take(0)));
                    return Some((1, val, fits, false));
                }
            }
            if 0 < c && c < len - 1 {
                let (ok1, fits1, l) = parse_digits(v, a, a + c);
                let (ok2, fits2, h) = parse_digits(v, a + c + 1, b);
                assert(inner.take(c as int) =~= v@.subrange(a as int, a + c));
                assert(inner.skip(c + 1) =~= v@.subrange(a + c + 1, b as int));
                if ok1 && ok2 {
                    return Some((l, h, fits1 && fits2, true));
                }
            }
            None
        },
    }
}

/// Whether the numbers of a repetition pattern fit in `usize`.
pub fn repeat_bounds_fit_exec(pattern: &[char]) -> (r: bool)
    ensures
        r == repeat_bounds_fit(pattern@),
{
    let close = last_index_exec(pattern, ')');
    proof {
        lemma_last_index_bounds(pattern@, ')');
    }
    let k = match close {
        None => {
            return true;
        },
        Some(i) => {
            assert(i < pattern.len());
            i + 1
        },
    };
    assert(group_end(pattern@) == k as int);
    if !is_group_exec(pattern, k) {
        return true;
    }
    match parse_suffix(pattern, k) {
        None => true,
        Some((_, _, fits, _)) => fits,
    }
}

/// Whether `pattern[..k]` is a repeated group.
fn is_group_exec(pattern: &[char], k: usize) -> (r: bool)
    requires
        k <= pattern.len(),
    ensures
        r == is_group(pattern@.take(k as int)),
{
    if k < 3 || pattern[0] != '(' || pattern[k - 1] != ')' {
        return false;
    }
    let mut i: usize = 0;
    while i < k
        invariant
            k <= pattern.len(),
            i <= k,
            forall|j: int| 0 <= j < i ==> is_ascii_char(#[trigger] pattern@[j]),
        decreases k - i,
    {
        if !((pattern[i] as u32) < 128) {
            assert(!is_ascii_char(pattern@.take(k as int)[i as int]));
            return false;
        }
        i += 1;
    }
    assert forall|j: int| 0 <= j < k implies is_ascii_char(#[trigger] pattern@.take(k as int)[j]) by {
        assert(pattern@.take(k as int)[j] == pattern@[j]);
    }
    true
}

/// The group and count range of a pattern in repetition syntax (see `repeat_parse`).
pub fn xregex_parse(pattern: &[char]) -> (r: Option<(Vec<char>, usize, usize)>)
    requires
        repeat_bounds_fit(pattern@),
    ensures
        match r {
            None => repeat_parse(pattern@) is None,
            Some((g, lo, hi)) => repeat_parse(pattern@) == Some((g@, lo as nat, hi as nat)),
        },
{
    let close = last_index_exec(pattern, ')');
    proof {
        lemma_last_index_bounds(pattern@, ')');
    }
    let k = match close {
        None => {
            return None;
        },
        Some(i) => {
            assert(i < pattern.len());
            i + 1
        },
    };
    assert(group_end(pattern@) == k as int);
    if !is_group_exec(pattern, k) {
        return None;
    }
    match parse_suffix(pattern, k) {
        None => None,
        Some((lo, hi, _, ranged)) => {
            if !ranged || lo <= hi {
                let mut group: Vec<char> = Vec::new();
                let mut j: usize = 0;
                while j < k
                    invariant
                        k <= pattern.len(),
                        j <= k,
                        group@ == pattern@.take(j as int),
                    decreases k - j,
                {
                    group.push(pattern[j]);
                    assert(pattern@.take(j + 1) =~= pattern@.take(j as int).push(pattern@[j as int]));
                    j += 1;
                }
                Some((group, lo, hi))
            } else {
                None
            }
        },
    }
}

/// Decides an expected-output pattern written in repetition syntax against `haystack`:
/// `None` when `pattern` is not in that syntax, otherwise whether the group occurs
/// in `haystack` at least `N` and at most `M` times (never when it does not occur).
pub fn xregex(haystack: &str, pattern: &str) -> (r: Option<bool>)
    requires
        xregex_runnable(pattern@),
    ensures
        r == xregex_spec(haystack@, pattern@),
{
    let pv = chars_of(pattern);
    match xregex_parse(&pv) {
        None => None,
        Some((group, min, max)) => {
            let mut p: Vec<char> = Vec::new();
            p.push('(');
            p.push('?');
            p.push('m');
            p.push(')');
            p.push('(');
            extend_range(&mut p, &group, 1, group.len() - 1);
            p.push(')');
            let ps = string_of(&p);
            assert(ps@ == counting_pattern(group@)) by {
                assert(p@ =~= counting_pattern(group@));
            }
            let re = Pattern::new(ps.as_str()).unwrap();
            if !re.is_match(haystack) {
                return Some(false);
            }
            let res = re.match_spans(haystack).len();
            Some(res >= min && res <= max)
        },
    }
}

/// Appends `s[from..to]` to `v`.
pub fn extend_range(v: &mut Vec<char>, s: &[char], from: usize, to: usize)
    requires
        from <= to <= s.len(),
    ensures
        final(v)@ == old(v)@ + s@.subrange(from as int, to as int),
{
    let mut i: usize = from;
    while i < to
        invariant
            from <= i <= to <= s.len(),
            v@ == old(v)@ + s@.subrange(from as int, i as int),
        decreases to - i,
    {
        v.push(s[i]);
        assert(s@.subrange(from as int, i + 1) == s@.subrange(from as int, i as int).push(
            s@[i as int],
        ));
        i += 1;
    }
}

/// `c` does not occur in `s`.
pub open spec fn free_of(s: Seq<char>, c: char) -> bool {
    forall|i: int| 0 <= i < s.len() ==> s[i] != c
}

proof fn lemma_last_index_append(s: Seq<char>, t: Seq<char>, c: char)
    requires
        free_of(t, c),
    ensures
        last_index_of(s + t, c) == last_index_of(s, c),
    decreases t.len(),
{
    if t.len() > 0 {
        assert((s + t).last() == t.last());
        assert((s + t).drop_last() =~= s + t.drop_last());
        lemma_last_index_append(s, t.drop_last(), c);
    } else {
        assert(s + t =~= s);
    }
}

proof fn lemma_first_index_none(s: Seq<char>, c: char)
    requires
        free_of(s, c),
    ensures
        first_index_of(s, c) == -1,
    decreases s.len(),
{
    if s.len() > 0 {
        lemma_first_index_none(s.skip(1), c);
    }
}

proof fn lemma_first_index_at(x: Seq<char>, y: Seq<char>, c: char)
    requires
        free_of(x, c),
    ensures
        first_index_of(x + seq![c] + y, c) == x.len(),
    decreases x.len(),
{
    if x.len() > 0 {
        assert((x + seq![c] + y).skip(1) =~= x.skip(1) + seq![c] + y);
        lemma_first_index_at(x.skip(1), y, c);
    }
}

proof fn lemma_digits_free(a: Seq<char>, c: char)
    requires
        all_digits(a),
        !is_digit(c),
    ensures
        free_of(a, c),
{
    assert forall|i: int| 0 <= i < a.len() implies a[i] != c by {
        assert(is_digit(a[i]));
    }
}

/// What a pattern made of `group` and the suffix `suffix` parses to, when the suffix
/// holds no `)`.
proof fn lemma_split_pattern(group: Seq<char>, suffix: Seq<char>)
    requires
        is_group(group),
        free_of(suffix, ')'),
    ensures
        group_end(group + suffix) == group.len(),
        (group + suffix).take(group.len() as int) == group,
        (group + suffix).skip(group.len() as int) == suffix,
        repeat_bounds(group + suffix) == suffix_bounds(suffix),
{
    lemma_last_index_append(group, suffix, ')');
    assert((group + suffix).take(group.len() as int) =~= group);
    assert((group + suffix).skip(group.len() as int) =~= suffix);
}

proof fn lemma_form_exact(group: Seq<char>, a: Seq<char>)
    requires
        is_group(group),
        all_digits(a),
    ensures
        repeat_parse(group + seq!['{'] + a + seq!['}']) == Some(
            (group, digits_value(a), digits_value(a)),
        ),
{
    lemma_digits_free(a, ')');
    lemma_digits_free(a, ',');
    let s1 = seq!['{'] + a + seq!['}'];
    assert(free_of(s1, ')')) by {
        assert forall|i: int| 0 <= i < s1.len() implies s1[i] != ')' by {
            if 0 < i < s1.len() - 1 {
                assert(s1[i] == a[i - 1]);
            }
        }
    }
    lemma_split_pattern(group, s1);
    assert(s1.subrange(1, s1.len() - 1) =~= a);
    lemma_first_index_none(a, ',');
    assert(group + seq!['{'] + a + seq!['}'] =~= group + s1);
}

proof fn lemma_form_min(group: Seq<char>, a: Seq<char>)
    requires
        is_group(group),
        all_digits(a),
    ensures
        repeat_parse(group + seq!['{'] + a + seq![',', '}']) == Some(
            (group, digits_value(a), usize::MAX as nat),
        ),
{
    lemma_digits_free(a, ')');
    lemma_digits_free(a, ',');
    let i2 = a + seq![','];
    let s2 = seq!['{'] + i2 + seq!['}'];
    assert(free_of(s2, ')')) by {
        assert forall|i: int| 0 <= i < s2.len() implies s2[i] != ')' by {
            if 0 < i <= a.len() {
                assert(s2[i] == a[i - 1]);
            }
        }
    }
    lemma_split_pattern(group, s2);
    assert(s2.subrange(1, s2.len() - 1) =~= i2);
    lemma_first_index_at(a, Seq::<char>::empty(), ',');
    assert(a + seq![','] + Seq::<char>::empty() =~= i2);
    assert(i2.take(a.len() as int) =~= a);
    assert(group + seq!['{'] + a + seq![',', '}'] =~= group + s2);
}

proof fn lemma_form_max(group: Seq<char>, b: Seq<char>)
    requires
        is_group(group),
        all_digits(b),
    ensures
        repeat_parse(group + seq!['{', ','] + b + seq!['}']) == Some(
            (group, 1nat, digits_value(b)),
        ),
{
    lemma_digits_free(b, ')');
    lemma_digits_free(b, ',');
    let i3 = seq![','] + b;
    let s3 = seq!['{'] + i3 + seq!['}'];
    assert(free_of(s3, ')')) by {
        assert forall|i: int| 0 <= i < s3.len() implies s3[i] != ')' by {
            if 1 < i < s3.len() - 1 {
                assert(s3[i] == b[i - 2]);
            }
        }
    }
    lemma_split_pattern(group, s3);
    assert(s3.subrange(1, s3.len() - 1) =~= i3);
    lemma_first_index_at(Seq::<char>::empty(), b, ',');
    assert(Seq::<char>::empty() + seq![','] + b =~= i3);
    assert(i3.skip(1) =~= b);
    assert(group + seq!['{', ','] + b + seq!['}'] =~= group + s3);
}

proof fn lemma_form_range(group: Seq<char>, a: Seq<char>, b: Seq<char>)
    requires
        is_group(group),
        all_digits(a),
        all_digits(b),
    ensures
        repeat_parse(group + seq!['{'] + a + seq![','] + b + seq!['}']) == (if digits_value(a)
            <= digits_value(b) {
            Some((group, digits_value(a), digits_value(b)))
        } else {
            None
        }),
{
    lemma_digits_free(a, ')');
    lemma_digits_free(b, ')');
    lemma_digits_free(a, ',');
    lemma_digits_free(b, ',');
    let i4 = a + seq![','] + b;
    let s4 = seq!['{'] + i4 + seq!['}'];
    assert(free_of(s4, ')')) by {
        assert forall|i: int| 0 <= i < s4.len() implies s4[i] != ')' by {
            if 0 < i <= a.len() {
                assert(s4[i] == a[i - 1]);
            } else if a.len() + 1 < i < s4.len() - 1 {
                assert(s4[i] == b[i - a.len() - 2]);
            }
        }
    }
    lemma_split_pattern(group, s4);
    assert(s4.subrange(1, s4.len() - 1) =~= i4);
    lemma_first_index_at(a, b, ',');
    assert(i4.take(a.len() as int) =~= a);
    assert(i4.skip(a.len() + 1int) =~= b);
    assert(group + seq!['{'] + a + seq![','] + b + seq!['}'] =~= group + s4);
}

/// The four repetition forms and the occurrence counts they accept: `(B){N}` exactly
/// N, `(B){N,}` at least N, `(B){,M}` from 1 to M, and `(B){N,M}` from N to M, the last
/// being no repetition pattern at all when N > M.
pub proof fn law_repeat_syntax(group: Seq<char>, a: Seq<char>, b: Seq<char>)
    requires
        is_group(group),
        all_digits(a),
        all_digits(b),
    ensures
        repeat_parse(group + seq!['{'] + a + seq!['}']) == Some(
            (group, digits_value(a), digits_value(a)),
        ),
        repeat_parse(group + seq!['{'] + a + seq![',', '}']) == Some(
            (group, digits_value(a), usize::MAX as nat),
        ),
        repeat_parse(group + seq!['{', ','] + b + seq!['}']) == Some(
            (group, 1nat, digits_value(b)),
        ),
        repeat_parse(group + seq!['{'] + a + seq![','] + b + seq!['}']) == (if digits_value(a)
            <= digits_value(b) {
            Some((group, digits_value(a), digits_value(b)))
        } else {
            None
        }),
{
    lemma_form_exact(group, a);
    lemma_form_min(group, a);
    lemma_form_max(group, b);
    lemma_form_range(group, a, b);
}

} // verus!
