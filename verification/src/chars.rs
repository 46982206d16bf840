//! Character-level text utilities: conversion between strings and character
//! vectors, comparison, trimming, searching and splitting.

use vstd::prelude::*;
use crate::table::model::seq_lt;

verus! {

/// Relies on `str::chars`: yields the characters of the string in order.
#[verifier::external_body]
pub fn chars_of(s: &str) -> (r: Vec<char>)
    ensures
        r@ == s@,
{
    s.chars().collect()
}

/// Relies on `String::from_iter`: collects the characters back into a
/// string.
#[verifier::external_body]
pub fn string_from_chars(v: &Vec<char>) -> (r: String)
    ensures
        r@ == v@,
{
    v.iter().collect()
}

/// Lexicographic strict comparison of two character vectors.
pub fn chars_lt(a: &Vec<char>, b: &Vec<char>) -> (r: bool)
    ensures
        r == seq_lt(a@, b@),
{
    let mut i: usize = 0;
    proof {
        assert(a@.subrange(0, a@.len() as int) =~= a@);
        assert(b@.subrange(0, b@.len() as int) =~= b@);
    }
    loop
        invariant
            i <= a.len(),
            i <= b.len(),
            a@.subrange(0, i as int) =~= b@.subrange(0, i as int),
            seq_lt(a@, b@) == seq_lt(
                a@.subrange(i as int, a@.len() as int),
                b@.subrange(i as int, b@.len() as int),
            ),
        decreases a.len() - i,
    {
        proof {
            let ar = a@.subrange(i as int, a@.len() as int);
            let br = b@.subrange(i as int, b@.len() as int);
            if i < a.len() && i < b.len() && a@[i as int] == b@[i as int] {
                assert(ar.drop_first() =~= a@.subrange(i as int + 1, a@.len() as int));
                assert(br.drop_first() =~= b@.subrange(i as int + 1, b@.len() as int));
            }
        }
        if i >= b.len() {
            return false;
        }
        if i >= a.len() {
            return true;
        }
        let ca = a[i];
        let cb = b[i];
        if ca != cb {
            return ca < cb;
        }
        i = i + 1;
    }
}

/// Equality of two character vectors.
pub fn chars_eq(a: &Vec<char>, b: &Vec<char>) -> (r: bool)
    ensures
        r == (a@ == b@),
{
    if a.len() != b.len() {
        return false;
    }
    let mut i: usize = 0;
    while i < a.len()
        invariant
            a.len() == b.len(),
            i <= a.len(),
            forall|j: int| 0 <= j < i ==> a@[j] == b@[j],
        decreases a.len() - i,
    {
        if a[i] != b[i] {
            return false;
        }
        i = i + 1;
    }
    proof {
        assert(a@ =~= b@);
    }
    true
}

/// The copy of `v[i..j]`.
pub fn sub_chars(v: &Vec<char>, i: usize, j: usize) -> (r: Vec<char>)
    requires
        i <= j <= v@.len(),
    ensures
        r@ == v@.subrange(i as int, j as int),
{
    let mut r: Vec<char> = Vec::new();
    let mut k: usize = i;
    while k < j
        invariant
            i <= k <= j <= v@.len(),
            r@ =~= v@.subrange(i as int, k as int),
        decreases j - k,
    {
        r.push(v[k]);
        proof {
            assert(r@ =~= v@.subrange(i as int, k as int + 1));
        }
        k = k + 1;
    }
    r
}

/// The whitespace characters that trimming removes.
pub open spec fn is_space(c: char) -> bool {
    c == ' ' || c == '\t' || c == '\n' || c == '\r'
}

pub fn is_space_char(c: char) -> (r: bool)
    ensures
        r == is_space(c),
{
    c == ' ' || c == '\t' || c == '\n' || c == '\r'
}

/// `s` with leading whitespace removed.
pub open spec fn trim_start_spec(s: Seq<char>) -> Seq<char>
    decreases s.len(),
{
    if s.len() > 0 && is_space(s[0]) {
        trim_start_spec(s.drop_first())
    } else {
        s
    }
}

/// `s` with trailing whitespace removed.
pub open spec fn trim_end_spec(s: Seq<char>) -> Seq<char>
    decreases s.len(),
{
    if s.len() > 0 && is_space(s.last()) {
        trim_end_spec(s.drop_last())
    } else {
        s
    }
}

/// `s` with whitespace removed at both ends.
pub open spec fn trim_spec(s: Seq<char>) -> Seq<char> {
    trim_end_spec(trim_start_spec(s))
}

/// `s` with every leading `c` removed.
pub open spec fn trim_start_char_spec(s: Seq<char>, c: char) -> Seq<char>
    decreases s.len(),
{
    if s.len() > 0 && s[0] == c {
        trim_start_char_spec(s.drop_first(), c)
    } else {
        s
    }
}

/// `s` with every trailing `c` removed.
pub open spec fn trim_end_char_spec(s: Seq<char>, c: char) -> Seq<char>
    decreases s.len(),
{
    if s.len() > 0 && s.last() == c {
        trim_end_char_spec(s.drop_last(), c)
    } else {
        s
    }
}

/// `s` with every leading and trailing `c` removed.
pub open spec fn trim_char_spec(s: Seq<char>, c: char) -> Seq<char> {
    trim_end_char_spec(trim_start_char_spec(s, c), c)
}

/// `s` with every leading or trailing brace removed, as the stored form of a
/// set value is unwrapped.
pub open spec fn trim_braces_spec(s: Seq<char>) -> Seq<char> {
    trim_end_char_spec(trim_start_char_spec(s, '{'), '}')
}

proof fn lemma_trim_start_skip(s: Seq<char>, i: int)
    requires
        0 <= i <= s.len(),
        forall|k: int| 0 <= k < i ==> is_space(s[k]),
    ensures
        trim_start_spec(s) == trim_start_spec(s.subrange(i, s.len() as int)),
    decreases i,
{
    if i > 0 {
        assert(s.drop_first() =~= s.subrange(1, s.len() as int));
        let s1 = s.drop_first();
        assert(s1.subrange(i - 1, s1.len() as int) =~= s.subrange(i, s.len() as int));
        lemma_trim_start_skip(s1, i - 1);
    } else {
        assert(s.subrange(0, s.len() as int) =~= s);
    }
}

proof fn lemma_trim_end_take(s: Seq<char>, j: int)
    requires
        0 <= j <= s.len(),
        forall|k: int| j <= k < s.len() ==> is_space(s[k]),
    ensures
        trim_end_spec(s) == trim_end_spec(s.subrange(0, j)),
    decreases s.len() - j,
{
    if j < s.len() {
        assert(s.drop_last() =~= s.subrange(0, s.len() - 1));
        let s1 = s.drop_last();
        assert(s1.subrange(0, j) =~= s.subrange(0, j));
        lemma_trim_end_take(s1, j);
    } else {
        assert(s.subrange(0, s.len() as int) =~= s);
    }
}

proof fn lemma_trim_start_char_skip(s: Seq<char>, c: char, i: int)
    requires
        0 <= i <= s.len(),
        forall|k: int| 0 <= k < i ==> s[k] == c,
    ensures
        trim_start_char_spec(s, c) == trim_start_char_spec(s.subrange(i, s.len() as int), c),
    decreases i,
{
    if i > 0 {
        assert(s.drop_first() =~= s.subrange(1, s.len() as int));
        let s1 = s.drop_first();
        assert(s1.subrange(i - 1, s1.len() as int) =~= s.subrange(i, s.len() as int));
        lemma_trim_start_char_skip(s1, c, i - 1);
    } else {
        assert(s.subrange(0, s.len() as int) =~= s);
    }
}

proof fn lemma_trim_end_char_take(s: Seq<char>, c: char, j: int)
    requires
        0 <= j <= s.len(),
        forall|k: int| j <= k < s.len() ==> s[k] == c,
    ensures
        trim_end_char_spec(s, c) == trim_end_char_spec(s.subrange(0, j), c),
    decreases s.len() - j,
{
    if j < s.len() {
        assert(s.drop_last() =~= s.subrange(0, s.len() - 1));
        let s1 = s.drop_last();
        assert(s1.subrange(0, j) =~= s.subrange(0, j));
        lemma_trim_end_char_take(s1, c, j);
    } else {
        assert(s.subrange(0, s.len() as int) =~= s);
    }
}

/// Whitespace trimmed from both ends of `v`.
pub fn trim_chars(v: &Vec<char>) -> (r: Vec<char>)
    ensures
        r@ == trim_spec(v@),
{
    let mut i: usize = 0;
    while i < v.len() && is_space_char(v[i])
        invariant
            i <= v.len(),
            forall|k: int| 0 <= k < i ==> is_space(v@[k]),
        decreases v.len() - i,
    {
        i = i + 1;
    }
    proof {
        lemma_trim_start_skip(v@, i as int);
    }
    let mut j: usize = v.len();
    while j > i && is_space_char(v[j - 1])
        invariant
            i <= j <= v.len(),
            forall|k: int| j <= k < v.len() ==> is_space(v@[k]),
        decreases j,
    {
        j = j - 1;
    }
    let ghost start = v@.subrange(i as int, v@.len() as int);
    proof {
        lemma_trim_end_take(start, j - i);
        assert(start.subrange(0, j - i) =~= v@.subrange(i as int, j as int));
        if j > i {
            assert(!is_space(start[j - i - 1]));
        }
        // the remaining prefix needs no end-trimming
        assert(trim_end_spec(v@.subrange(i as int, j as int)) == v@.subrange(i as int, j as int));
    }
    sub_chars(v, i, j)
}

/// Every leading and trailing `c` trimmed from `v`.
pub fn trim_chars_matching(v: &Vec<char>, c: char) -> (r: Vec<char>)
    ensures
        r@ == trim_char_spec(v@, c),
{
    let mut i: usize = 0;
    while i < v.len() && v[i] == c
        invariant
            i <= v.len(),
            forall|k: int| 0 <= k < i ==> v@[k] == c,
        decreases v.len() - i,
    {
        i = i + 1;
    }
    proof {
        lemma_trim_start_char_skip(v@, c, i as int);
    }
    let mut j: usize = v.len();
    while j > i && v[j - 1] == c
        invariant
            i <= j <= v.len(),
            forall|k: int| j <= k < v.len() ==> v@[k] == c,
        decreases j,
    {
        j = j - 1;
    }
    let ghost start = v@.subrange(i as int, v@.len() as int);
    proof {
        lemma_trim_end_char_take(start, c, j - i);
        assert(start.subrange(0, j - i) =~= v@.subrange(i as int, j as int));
        assert(trim_end_char_spec(v@.subrange(i as int, j as int), c) == v@.subrange(
            i as int,
            j as int,
        ));
    }
    sub_chars(v, i, j)
}

/// The set-value unwrapping: leading braces and trailing braces trimmed.
pub fn trim_chars_braces(v: &Vec<char>) -> (r: Vec<char>)
    ensures
        r@ == trim_braces_spec(v@),
{
    let mut i: usize = 0;
    while i < v.len() && v[i] == '{'
        invariant
            i <= v.len(),
            forall|k: int| 0 <= k < i ==> v@[k] == '{',
        decreases v.len() - i,
    {
        i = i + 1;
    }
    proof {
        lemma_trim_start_char_skip(v@, '{', i as int);
    }
    let mut j: usize = v.len();
    while j > i && v[j - 1] == '}'
        invariant
            i <= j <= v.len(),
            forall|k: int| j <= k < v.len() ==> v@[k] == '}',
        decreases j,
    {
        j = j - 1;
    }
    let ghost start = v@.subrange(i as int, v@.len() as int);
    proof {
        lemma_trim_end_char_take(start, '}', j - i);
        assert(start.subrange(0, j - i) =~= v@.subrange(i as int, j as int));
        assert(trim_end_char_spec(v@.subrange(i as int, j as int), '}') == v@.subrange(
            i as int,
            j as int,
        ));
    }
    sub_chars(v, i, j)
}

/// A run of `c` at the front trims away exactly.
pub proof fn lemma_trim_start_char(s: Seq<char>, c: char, i: int)
    requires
        0 <= i <= s.len(),
        forall|k: int| 0 <= k < i ==> s[k] == c,
        i < s.len() ==> s[i] != c,
    ensures
        trim_start_char_spec(s, c) == s.subrange(i, s.len() as int),
{
    lemma_trim_start_char_skip(s, c, i);
    let rest = s.subrange(i, s.len() as int);
    assert(rest.len() > 0 ==> rest[0] != c);
}

/// A run of `c` at the back trims away exactly.
pub proof fn lemma_trim_end_char(s: Seq<char>, c: char, j: int)
    requires
        0 <= j <= s.len(),
        forall|k: int| j <= k < s.len() ==> s[k] == c,
        j > 0 ==> s[j - 1] != c,
    ensures
        trim_end_char_spec(s, c) == s.subrange(0, j),
{
    lemma_trim_end_char_take(s, c, j);
    let rest = s.subrange(0, j);
    assert(rest.len() > 0 ==> rest.last() != c);
}

/// Whether `pat` occurs in `s` at position `i`.
pub open spec fn match_at(s: Seq<char>, pat: Seq<char>, i: int) -> bool {
    0 <= i && i + pat.len() <= s.len() && s.subrange(i, i + pat.len()) == pat
}

/// The position of the first occurrence of `pat` at or after `i`.
pub open spec fn first_match_from(s: Seq<char>, pat: Seq<char>, i: int) -> Option<int>
    decreases s.len() - i,
{
    if i < 0 || i + pat.len() > s.len() {
        None
    } else if match_at(s, pat, i) {
        Some(i)
    } else if i + 1 + pat.len() > s.len() {
        None
    } else {
        first_match_from(s, pat, i + 1)
    }
}

/// The position of the first occurrence of `pat` in `s`.
pub open spec fn first_match(s: Seq<char>, pat: Seq<char>) -> Option<int> {
    first_match_from(s, pat, 0)
}

/// Whether `pat` occurs anywhere in `s`.
pub open spec fn contains_sub(s: Seq<char>, pat: Seq<char>) -> bool {
    first_match(s, pat) is Some
}

/// The position of the first occurrence of `pat` in `v`, scanning forward.
pub fn find_sub(v: &Vec<char>, pat: &Vec<char>) -> (r: Option<usize>)
    ensures
        r matches Some(i) ==> first_match(v@, pat@) == Some(i as int) && match_at(
            v@,
            pat@,
            i as int,
        ),
        r is None ==> first_match(v@, pat@) is None,
{
    if pat.len() > v.len() {
        return None;
    }
    let limit = v.len() - pat.len();
    let mut i: usize = 0;
    loop
        invariant
            pat.len() <= v.len(),
            limit == v.len() - pat.len(),
            i <= limit,
            first_match(v@, pat@) == first_match_from(v@, pat@, i as int),
        decreases limit - i,
    {
        let window = sub_chars(v, i, i + pat.len());
        if chars_eq(&window, pat) {
            return Some(i);
        }
        if i == limit {
            return None;
        }
        i = i + 1;
    }
}

/// Whether `v` starts with `pat`.
pub open spec fn starts_with_spec(s: Seq<char>, pat: Seq<char>) -> bool {
    pat.len() <= s.len() && s.subrange(0, pat.len() as int) == pat
}

/// Whether `v` ends with `pat`.
pub open spec fn ends_with_spec(s: Seq<char>, pat: Seq<char>) -> bool {
    pat.len() <= s.len() && s.subrange(s.len() - pat.len(), s.len() as int) == pat
}

pub fn starts_with_chars(v: &Vec<char>, pat: &Vec<char>) -> (r: bool)
    ensures
        r == starts_with_spec(v@, pat@),
{
    if pat.len() > v.len() {
        return false;
    }
    let window = sub_chars(v, 0, pat.len());
    chars_eq(&window, pat)
}

pub fn ends_with_chars(v: &Vec<char>, pat: &Vec<char>) -> (r: bool)
    ensures
        r == ends_with_spec(v@, pat@),
{
    if pat.len() > v.len() {
        return false;
    }
    let window = sub_chars(v, v.len() - pat.len(), v.len());
    chars_eq(&window, pat)
}

/// The pieces of `s` split on every occurrence of `c`; always at least one
/// piece, and the empty text yields one empty piece.
pub open spec fn split_char_spec(s: Seq<char>, c: char) -> Seq<Seq<char>>
    decreases s.len(),
{
    if s.len() == 0 {
        seq![Seq::empty()]
    } else if s[0] == c {
        seq![Seq::<char>::empty()] + split_char_spec(s.drop_first(), c)
    } else {
        let rest = split_char_spec(s.drop_first(), c);
        seq![seq![s[0]] + rest[0]] + rest.drop_first()
    }
}

pub proof fn lemma_split_char_len(s: Seq<char>, c: char)
    ensures
        split_char_spec(s, c).len() >= 1,
    decreases s.len(),
{
    if s.len() > 0 {
        lemma_split_char_len(s.drop_first(), c);
    }
}

/// `v` split on every occurrence of `c`, built back-to-front so that each
/// step mirrors the specification.
pub fn split_chars(v: &Vec<char>, c: char) -> (r: Vec<Vec<char>>)
    ensures
        r.deep_view() == split_char_spec(v@, c),
{
    let mut pieces: Vec<Vec<char>> = Vec::new();
    pieces.push(Vec::new());
    proof {
        assert(v@.subrange(v@.len() as int, v@.len() as int) =~= Seq::<char>::empty());
        assert(pieces.deep_view() =~~= split_char_spec(
            v@.subrange(v@.len() as int, v@.len() as int),
            c,
        ));
    }
    let mut i: usize = v.len();
    while i > 0
        invariant
            i <= v.len(),
            pieces.len() >= 1,
            pieces.deep_view() == split_char_spec(v@.subrange(i as int, v@.len() as int), c),
        decreases i,
    {
        i = i - 1;
        let ghost suffix = v@.subrange(i as int, v@.len() as int);
        proof {
            assert(suffix.len() > 0);
            assert(suffix.drop_first() =~= v@.subrange(i as int + 1, v@.len() as int));
            lemma_split_char_len(suffix.drop_first(), c);
        }
        if v[i] == c {
            let fresh: Vec<char> = Vec::new();
            pieces.insert(0, fresh);
            proof {
                assert(pieces.deep_view() =~~= split_char_spec(suffix, c));
            }
        } else {
            let ch = v[i];
            let ghost old_deep = pieces.deep_view();
            let mut first = pieces.remove(0);
            first.insert(0, ch);
            pieces.insert(0, first);
            proof {
                assert(first@ =~= seq![ch] + old_deep[0]);
                assert(pieces.deep_view() =~~= split_char_spec(suffix, c));
            }
        }
    }
    proof {
        assert(v@.subrange(0, v@.len() as int) =~= v@);
    }
    pieces
}

} // verus!
