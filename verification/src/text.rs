//! Sequences of characters and of bytes: where a pattern stands in one, how
//! two of them are ordered, and how text is turned into bytes and back.

use vstd::prelude::*;
use vstd::string::StringSliceAdditionalSpecFns;
use vstd::utf8::{decode_utf8, encode_utf8, valid_utf8};

verus! {

/// `pat` stands in `s` at index `i`.
pub open spec fn occurs_at<T>(s: Seq<T>, pat: Seq<T>, i: int) -> bool {
    0 <= i && i + pat.len() <= s.len() && s.subrange(i, i + pat.len()) == pat
}

/// `i` is the least index at which `pat` stands in `s`.
pub open spec fn first_at<T>(s: Seq<T>, pat: Seq<T>, i: int) -> bool {
    occurs_at(s, pat, i) && forall|j: int| 0 <= j < i ==> !occurs_at(s, pat, j)
}

/// `i` is the greatest index at which `pat` stands in `s`.
pub open spec fn last_at<T>(s: Seq<T>, pat: Seq<T>, i: int) -> bool {
    occurs_at(s, pat, i) && forall|j: int| i < j ==> !occurs_at(s, pat, j)
}

/// The least index at which `pat` stands in `s`, if it stands anywhere.
pub open spec fn find_first<T>(s: Seq<T>, pat: Seq<T>) -> Option<int> {
    if exists|i: int| first_at(s, pat, i) {
        Some(choose|i: int| first_at(s, pat, i))
    } else {
        None
    }
}

/// The greatest index at which `pat` stands in `s`, if it stands anywhere.
pub open spec fn find_last<T>(s: Seq<T>, pat: Seq<T>) -> Option<int> {
    if exists|i: int| last_at(s, pat, i) {
        Some(choose|i: int| last_at(s, pat, i))
    } else {
        None
    }
}

/// `s` begins with `pat`.
pub open spec fn starts_with<T>(s: Seq<T>, pat: Seq<T>) -> bool {
    occurs_at(s, pat, 0)
}

/// `s` ends with `pat`.
pub open spec fn ends_with<T>(s: Seq<T>, pat: Seq<T>) -> bool {
    occurs_at(s, pat, s.len() - pat.len())
}

/// The two parts of `s` around the first occurrence of `pat`.
pub open spec fn split_once<T>(s: Seq<T>, pat: Seq<T>) -> Option<(Seq<T>, Seq<T>)> {
    match find_first(s, pat) {
        Some(i) => Some((s.subrange(0, i), s.subrange(i + pat.len(), s.len() as int))),
        None => None,
    }
}

/// The two parts of `s` around the last occurrence of `pat`.
pub open spec fn rsplit_once<T>(s: Seq<T>, pat: Seq<T>) -> Option<(Seq<T>, Seq<T>)> {
    match find_last(s, pat) {
        Some(i) => Some((s.subrange(0, i), s.subrange(i + pat.len(), s.len() as int))),
        None => None,
    }
}

/// The least index of an occurrence is unique, so `find_first` returns it.
pub proof fn lemma_find_first_is<T>(s: Seq<T>, pat: Seq<T>, i: int)
    requires
        first_at(s, pat, i),
    ensures
        find_first(s, pat) == Some(i),
{
}

/// Where `pat` stands nowhere in `s`, `find_first` finds nothing.
pub proof fn lemma_find_first_none<T>(s: Seq<T>, pat: Seq<T>)
    requires
        forall|j: int| !occurs_at(s, pat, j),
    ensures
        find_first(s, pat) is None,
{
}

/// Where `pat` stands in `s` at all, it stands somewhere first.
pub proof fn lemma_first_exists<T>(s: Seq<T>, pat: Seq<T>, i: int)
    requires
        occurs_at(s, pat, i),
    ensures
        find_first(s, pat) is Some,
        find_first(s, pat)->0 <= i,
        first_at(s, pat, find_first(s, pat)->0),
    decreases i,
{
    if forall|j: int| 0 <= j < i ==> !occurs_at(s, pat, j) {
        lemma_find_first_is(s, pat, i);
    } else {
        let j = choose|j: int| 0 <= j < i && occurs_at(s, pat, j);
        lemma_first_exists(s, pat, j);
    }
}

/// The greatest index of an occurrence is unique, so `find_last` returns it.
pub proof fn lemma_find_last_is<T>(s: Seq<T>, pat: Seq<T>, i: int)
    requires
        last_at(s, pat, i),
    ensures
        find_last(s, pat) == Some(i),
{
}

/// Where `pat` stands nowhere in `s`, `find_last` finds nothing.
pub proof fn lemma_find_last_none<T>(s: Seq<T>, pat: Seq<T>)
    requires
        forall|j: int| !occurs_at(s, pat, j),
    ensures
        find_last(s, pat) is None,
{
}

/// Whether `pat` stands in `s` at index `i`.
pub fn chars_occur_at(s: &[char], pat: &[char], i: usize) -> (r: bool)
    ensures
        r == occurs_at(s@, pat@, i as int),
{
    if pat.len() > s.len() || i > s.len() - pat.len() {
        return false;
    }
    let mut k: usize = 0;
    while k < pat.len()
        invariant
            k <= pat.len(),
            i + pat.len() <= s.len(),
            forall|j: int| 0 <= j < k ==> s@[i + j] == pat@[j],
        decreases pat.len() - k,
    {
        if s[i + k] != pat[k] {
            return false;
        }
        k += 1;
    }
    assert(s@.subrange(i as int, i + pat.len()) =~= pat@);
    true
}

/// The least index at which `pat` stands in `s`.
pub fn find_chars(s: &[char], pat: &[char]) -> (r: Option<usize>)
    ensures
        match r {
            Some(i) => find_first(s@, pat@) == Some(i as int) && first_at(s@, pat@, i as int),
            None => find_first(s@, pat@) is None && forall|j: int| !occurs_at(s@, pat@, j),
        },
{
    if pat.len() > s.len() {
        proof {
            lemma_find_first_none(s@, pat@);
        }
        return None;
    }
    let last: usize = s.len() - pat.len();
    let mut i: usize = 0;
    loop
        invariant
            i <= last,
            last == s.len() - pat.len(),
            forall|j: int| 0 <= j < i ==> !occurs_at(s@, pat@, j),
        decreases last - i,
    {
        if chars_occur_at(s, pat, i) {
            proof {
                lemma_find_first_is(s@, pat@, i as int);
            }
            return Some(i);
        }
        if i == last {
            proof {
                lemma_find_first_none(s@, pat@);
            }
            return None;
        }
        i += 1;
    }
}

/// The greatest index at which `pat` stands in `s`.
pub fn rfind_chars(s: &[char], pat: &[char]) -> (r: Option<usize>)
    ensures
        match r {
            Some(i) => find_last(s@, pat@) == Some(i as int) && last_at(s@, pat@, i as int),
            None => find_last(s@, pat@) is None && forall|j: int| !occurs_at(s@, pat@, j),
        },
{
    if pat.len() > s.len() {
        proof {
            lemma_find_last_none(s@, pat@);
        }
        return None;
    }
    let mut i: usize = s.len() - pat.len();
    loop
        invariant
            i <= s.len() - pat.len(),
            pat.len() <= s.len(),
            forall|j: int| i < j ==> !occurs_at(s@, pat@, j),
        decreases i,
    {
        if chars_occur_at(s, pat, i) {
            proof {
                lemma_find_last_is(s@, pat@, i as int);
            }
            return Some(i);
        }
        if i == 0 {
            proof {
                lemma_find_last_none(s@, pat@);
            }
            return None;
        }
        i -= 1;
    }
}

/// Whether `s` begins with `pat`.
pub fn chars_start_with(s: &[char], pat: &[char]) -> (r: bool)
    ensures
        r == starts_with(s@, pat@),
{
    chars_occur_at(s, pat, 0)
}

/// Whether `s` ends with `pat`.
pub fn chars_end_with(s: &[char], pat: &[char]) -> (r: bool)
    ensures
        r == ends_with(s@, pat@),
{
    if pat.len() > s.len() {
        return false;
    }
    chars_occur_at(s, pat, s.len() - pat.len())
}

/// The characters of `s` from `from` up to `to`, as a vector of their own.
pub fn copy_range(s: &[char], from: usize, to: usize) -> (v: Vec<char>)
    requires
        from <= to <= s.len(),
    ensures
        v@ == s@.subrange(from as int, to as int),
{
    let mut v: Vec<char> = Vec::new();
    let mut i: usize = from;
    while i < to
        invariant
            from <= i <= to <= s.len(),
            v@ == s@.subrange(from as int, i as int),
        decreases to - i,
    {
        v.push(s[i]);
        i += 1;
    }
    v
}

/// Appends the characters of `s` to `out`.
pub fn push_chars(out: &mut Vec<char>, s: &[char])
    ensures
        final(out)@ == old(out)@ + s@,
{
    let mut i: usize = 0;
    while i < s.len()
        invariant
            i <= s.len(),
            out@ == old(out)@ + s@.subrange(0, i as int),
        decreases s.len() - i,
    {
        out.push(s[i]);
        i += 1;
    }
}

/// The characters of a string, one by one.
pub fn chars_of(s: &str) -> (v: Vec<char>)
    ensures
        v@ == s@,
{
    let mut v: Vec<char> = Vec::new();
    for c in it: s.chars()
        invariant
            v@ == it.seq().take(it.index() as int),
    {
        v.push(c);
    }
    v
}

/// Appends one character to a string.
///
/// Calls `String::push`, which std documents as appending the given
/// character to the end of the string.
#[verifier::external_body]
fn string_push(s: &mut String, c: char)
    ensures
        final(s)@ == old(s)@.push(c),
{
    s.push(c)
}

/// The string made of the characters of `v`.
pub fn string_of(v: &[char]) -> (s: String)
    ensures
        s@ == v@,
{
    let mut s = String::new();
    let mut i: usize = 0;
    while i < v.len()
        invariant
            i <= v.len(),
            s@ == v@.subrange(0, i as int),
        decreases v.len() - i,
    {
        string_push(&mut s, v[i]);
        i += 1;
    }
    s
}

/// The text that `bytes` encode, where they are valid UTF-8.
///
/// Calls `core::str::from_utf8`, which std documents as succeeding exactly
/// on byte slices that are valid UTF-8, and as handing back the same bytes
/// seen as text.
#[verifier::external_body]
fn str_from_utf8(bytes: &[u8]) -> (r: Option<&str>)
    ensures
        r is Some <==> valid_utf8(bytes@),
        r matches Some(s) ==> s.spec_bytes() == bytes@,
{
    core::str::from_utf8(bytes).ok()
}

/// What a name that the operating system gave is as text.
pub open spec fn decoded(bytes: Seq<u8>) -> Option<Seq<char>> {
    if valid_utf8(bytes) {
        Some(decode_utf8(bytes))
    } else {
        None
    }
}

/// Decodes a name into its characters; `None` where it is no valid UTF-8.
pub fn decode(bytes: &[u8]) -> (r: Option<Vec<char>>)
    ensures
        match r {
            Some(v) => decoded(bytes@) == Some(v@) && encode_utf8(v@) == bytes@,
            None => decoded(bytes@) is None,
        },
{
    match str_from_utf8(bytes) {
        Some(s) => {
            let v = chars_of(s);
            proof {
                vstd::utf8::encode_utf8_decode_utf8(s@);
            }
            Some(v)
        },
        None => None,
    }
}

/// The UTF-8 bytes of a sequence of characters.
pub fn encode(chars: &[char]) -> (r: Vec<u8>)
    ensures
        r@ == encode_utf8(chars@),
        decoded(r@) == Some(chars@),
{
    let s = string_of(chars);
    let r = vstd::slice::slice_to_vec(s.as_str().as_bytes());
    proof {
        vstd::utf8::encode_utf8_valid_utf8(chars@);
        vstd::utf8::encode_utf8_decode_utf8(chars@);
    }
    r
}

/// Whether `a` comes before `b` where byte strings are ordered byte by
/// byte, a string before each of its extensions.
pub open spec fn lex_lt(a: Seq<u8>, b: Seq<u8>) -> bool
    decreases a.len(),
{
    if b.len() == 0 {
        false
    } else if a.len() == 0 {
        true
    } else if a[0] != b[0] {
        a[0] < b[0]
    } else {
        lex_lt(a.drop_first(), b.drop_first())
    }
}

/// No byte string comes before itself.
pub proof fn lemma_lex_lt_irreflexive(a: Seq<u8>)
    ensures
        !lex_lt(a, a),
    decreases a.len(),
{
    if a.len() > 0 {
        lemma_lex_lt_irreflexive(a.drop_first());
    }
}

/// What comes before something that comes before a third comes before the
/// third.
pub proof fn lemma_lex_lt_transitive(a: Seq<u8>, b: Seq<u8>, c: Seq<u8>)
    requires
        lex_lt(a, b),
        lex_lt(b, c),
    ensures
        lex_lt(a, c),
    decreases a.len(),
{
    if a.len() > 0 && a[0] == b[0] && b[0] == c[0] {
        lemma_lex_lt_transitive(a.drop_first(), b.drop_first(), c.drop_first());
    }
}

/// Of two different byte strings one comes before the other.
pub proof fn lemma_lex_lt_total(a: Seq<u8>, b: Seq<u8>)
    ensures
        lex_lt(a, b) || a == b || lex_lt(b, a),
    decreases a.len(),
{
    if a.len() > 0 && b.len() > 0 && a[0] == b[0] {
        lemma_lex_lt_total(a.drop_first(), b.drop_first());
        if a.drop_first() == b.drop_first() {
            assert(a =~= seq![a[0]] + a.drop_first());
        }
    }
}

/// How one byte string stands to another in the order of `lex_lt`.
#[derive(Clone, Copy, Debug, PartialEq, Eq, Structural)]
pub enum Rank {
    /// The first comes before the second.
    Before,
    /// The two are the same.
    Same,
    /// The first comes after the second.
    After,
}

/// How `a` stands to `b` in the order of `lex_lt`.
pub fn rank_bytes(a: &[u8], b: &[u8]) -> (r: Rank)
    ensures
        r == Rank::Before <==> lex_lt(a@, b@),
        r == Rank::Same <==> a@ == b@,
        r == Rank::After <==> lex_lt(b@, a@),
{
    proof {
        lemma_lex_lt_irreflexive(a@);
        if lex_lt(a@, b@) && lex_lt(b@, a@) {
            lemma_lex_lt_transitive(a@, b@, a@);
        }
        assert(a@.subrange(0, a@.len() as int) =~= a@);
        assert(b@.subrange(0, b@.len() as int) =~= b@);
    }
    let mut i: usize = 0;
    while i < a.len() && i < b.len()
        invariant
            i <= a.len(),
            i <= b.len(),
            a@.subrange(0, i as int) == b@.subrange(0, i as int),
            lex_lt(a@, b@) == lex_lt(a@.subrange(i as int, a@.len() as int), b@.subrange(i as int, b@.len() as int)),
            lex_lt(b@, a@) == lex_lt(b@.subrange(i as int, b@.len() as int), a@.subrange(i as int, a@.len() as int)),
        decreases a.len() - i,
    {
        let ghost ra = a@.subrange(i as int, a@.len() as int);
        let ghost rb = b@.subrange(i as int, b@.len() as int);
        if a[i] < b[i] {
            return Rank::Before;
        }
        if a[i] > b[i] {
            return Rank::After;
        }
        assert(ra.drop_first() =~= a@.subrange(i + 1, a@.len() as int));
        assert(rb.drop_first() =~= b@.subrange(i + 1, b@.len() as int));
        i += 1;
    }
    if i < b.len() {
        Rank::Before
    } else if i < a.len() {
        Rank::After
    } else {
        Rank::Same
    }
}

} // verus!
