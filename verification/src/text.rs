//! Character-sequence model of the text operations the parsers rely on.
//!
//! Text is handled as sequences of Unicode scalar values. Every operation here is stated over
//! `Seq<char>` so that the parsers built on top of it can be specified precisely.
use vstd::prelude::*;
use vstd::relations::{sorted_by, total_ordering};

verus! {

/// Unicode `White_Space` property (the set `char::is_whitespace` accepts).
pub open spec fn is_ws(c: char) -> bool {
    ||| c == ' '
    ||| ('\t' <= c && c <= '\r')
    ||| c == '\u{85}'
    ||| c == '\u{a0}'
    ||| c == '\u{1680}'
    ||| ('\u{2000}' <= c && c <= '\u{200a}')
    ||| c == '\u{2028}'
    ||| c == '\u{2029}'
    ||| c == '\u{202f}'
    ||| c == '\u{205f}'
    ||| c == '\u{3000}'
}

/// Whether `c` is an ASCII decimal digit.
pub open spec fn is_digit(c: char) -> bool {
    '0' <= c && c <= '9'
}

/// Number of leading whitespace characters.
pub open spec fn lead_ws(s: Seq<char>) -> nat
    decreases s.len(),
{
    if s.len() > 0 && is_ws(s[0]) {
        1 + lead_ws(s.drop_first())
    } else {
        0
    }
}

/// Number of trailing whitespace characters.
pub open spec fn trail_ws(s: Seq<char>) -> nat
    decreases s.len(),
{
    if s.len() > 0 && is_ws(s.last()) {
        1 + trail_ws(s.drop_last())
    } else {
        0
    }
}

/// `s` without leading whitespace.
pub open spec fn trim_start(s: Seq<char>) -> Seq<char> {
    s.skip(lead_ws(s) as int)
}

/// `s` without trailing whitespace.
pub open spec fn trim_end(s: Seq<char>) -> Seq<char> {
    s.take(s.len() - trail_ws(s))
}

/// `s` without leading and trailing whitespace.
pub open spec fn trim(s: Seq<char>) -> Seq<char> {
    trim_end(trim_start(s))
}

/// `pat` occurs in `s` starting at index `i`.
pub open spec fn occurs_at(s: Seq<char>, pat: Seq<char>, i: int) -> bool {
    0 <= i && i + pat.len() <= s.len() && s.subrange(i, i + pat.len()) == pat
}

/// Index of the first occurrence of `pat` in `s`.
#[verifier::opaque]
pub open spec fn find(s: Seq<char>, pat: Seq<char>) -> Option<int> {
    if exists|i: int| #[trigger] occurs_at(s, pat, i) {
        Some(
            choose|i: int|
                #![trigger occurs_at(s, pat, i)]
                occurs_at(s, pat, i) && forall|j: int| 0 <= j < i ==> !occurs_at(s, pat, j),
        )
    } else {
        None
    }
}

/// `pat` occurs somewhere in `s`.
pub open spec fn contains(s: Seq<char>, pat: Seq<char>) -> bool {
    exists|i: int| #[trigger] occurs_at(s, pat, i)
}

/// `s` begins with `p`.
pub open spec fn starts_with(s: Seq<char>, p: Seq<char>) -> bool {
    p.len() <= s.len() && s.take(p.len() as int) == p
}

/// `s` ends with `p`.
pub open spec fn ends_with(s: Seq<char>, p: Seq<char>) -> bool {
    p.len() <= s.len() && s.skip(s.len() - p.len()) == p
}

/// Index of the first occurrence of the character `c` in `s`.
pub open spec fn find_char(s: Seq<char>, c: char) -> Option<int> {
    find(s, seq![c])
}

/// The parts of `s` before and after the first occurrence of `c`.
pub open spec fn split_once(s: Seq<char>, c: char) -> Option<(Seq<char>, Seq<char>)> {
    match find_char(s, c) {
        Some(p) => Some((s.take(p), s.skip(p + 1))),
        None => None,
    }
}

/// A line without its final carriage return, if it has one.
pub open spec fn strip_cr(l: Seq<char>) -> Seq<char> {
    if l.len() > 0 && l.last() == '\r' {
        l.drop_last()
    } else {
        l
    }
}

/// The lines of `s`: pieces separated by `\n`, each without a final `\r`; a final line
/// terminator does not start an extra empty line.
#[verifier::opaque]
pub open spec fn lines(s: Seq<char>) -> Seq<Seq<char>>
    decreases s.len(),
{
    if s.len() == 0 {
        seq![]
    } else {
        match find_char(s, '\n') {
            Some(k) => if 0 <= k < s.len() {
                seq![strip_cr(s.take(k))] + lines(s.skip(k + 1))
            } else {
                seq![]
            },
            None => seq![s],
        }
    }
}

/// The maximal runs of non-whitespace characters of `s`, in order.
pub open spec fn split_ws(s: Seq<char>) -> Seq<Seq<char>>
    decreases s.len(),
{
    if s.len() == 0 {
        seq![]
    } else if is_ws(s[0]) {
        split_ws(s.drop_first())
    } else {
        let n = word_len(s);
        proof {
            lemma_word_len_bound(s);
        }
        seq![s.take(n as int)] + split_ws(s.skip(n as int))
    }
}

/// Lemma: a word is at most as long as the text, and non-empty when the text starts with one.
pub proof fn lemma_word_len_bound(s: Seq<char>)
    ensures
        word_len(s) <= s.len(),
        s.len() > 0 && !is_ws(s[0]) ==> word_len(s) >= 1,
    decreases s.len(),
{
    if s.len() > 0 && !is_ws(s[0]) {
        lemma_word_len_bound(s.drop_first());
    }
}

/// Length of the run of non-whitespace characters at the start of `s`.
pub open spec fn word_len(s: Seq<char>) -> nat
    decreases s.len(),
{
    if s.len() > 0 && !is_ws(s[0]) {
        1 + word_len(s.drop_first())
    } else {
        0
    }
}

/// The elements of `s` with later repetitions removed, keeping first occurrences in order.
pub open spec fn dedup(s: Seq<Seq<char>>) -> Seq<Seq<char>>
    decreases s.len(),
{
    if s.len() == 0 {
        seq![]
    } else {
        let d = dedup(s.drop_last());
        if d.contains(s.last()) {
            d
        } else {
            d.push(s.last())
        }
    }
}

/// Views of a sequence of character vectors.
pub open spec fn vv(v: Seq<Vec<char>>) -> Seq<Seq<char>> {
    v.map_values(|x: Vec<char>| x@)
}

/// Views of a sequence of strings.
pub open spec fn sv(v: Seq<String>) -> Seq<Seq<char>> {
    v.map_values(|x: String| x@)
}

/// Lower-case mapping of `s` as `str::to_lowercase` computes it (full Unicode case mapping).
pub uninterp spec fn lowercase(s: Seq<char>) -> Seq<char>;

/// Whether `c` is alphabetic or numeric as `char::is_alphanumeric` decides it.
pub uninterp spec fn alphanumeric(c: char) -> bool;

/// ASCII lower-case of a single character.
pub open spec fn ascii_lower(c: char) -> char {
    if 'A' <= c && c <= 'Z' {
        ((c as u32) + 32) as char
    } else {
        c
    }
}

/// Equality of two sequences ignoring ASCII case.
pub open spec fn eq_ignore_ascii_case(a: Seq<char>, b: Seq<char>) -> bool {
    a.len() == b.len() && forall|i: int| 0 <= i < a.len() ==> ascii_lower(a[i]) == ascii_lower(b[i])
}

// ---------------------------------------------------------------------------------------------
// Lemmas
// ---------------------------------------------------------------------------------------------

/// Leading-whitespace count decomposes at an index inside the leading run.
proof fn lemma_lead_ws_step(s: Seq<char>, i: int)
    requires
        0 <= i < s.len(),
        is_ws(s[i]),
    ensures
        lead_ws(s.skip(i)) == 1 + lead_ws(s.skip(i + 1)),
{
    assert(s.skip(i).drop_first() =~= s.skip(i + 1));
}

/// Trailing-whitespace count decomposes at an index inside the trailing run.
proof fn lemma_trail_ws_step(s: Seq<char>, j: int)
    requires
        0 < j <= s.len(),
        is_ws(s[j - 1]),
    ensures
        trail_ws(s.take(j)) == 1 + trail_ws(s.take(j - 1)),
{
    assert(s.take(j).drop_last() =~= s.take(j - 1));
}

/// The first-occurrence choice is the unique minimal occurrence.
pub proof fn lemma_find_is(s: Seq<char>, pat: Seq<char>, i: int)
    requires
        occurs_at(s, pat, i),
        forall|j: int| 0 <= j < i ==> !occurs_at(s, pat, j),
    ensures
        find(s, pat) == Some(i),
{
    reveal(find);
    let c = choose|k: int|
        #![trigger occurs_at(s, pat, k)]
        occurs_at(s, pat, k) && forall|j: int| 0 <= j < k ==> !occurs_at(s, pat, j);
    assert(occurs_at(s, pat, c));
    if c < i {
        assert(!occurs_at(s, pat, c));
    } else if i < c {
        assert(!occurs_at(s, pat, i));
    }
}

/// A single-character pattern occurs exactly where that character is.
pub proof fn lemma_occurs_char(s: Seq<char>, c: char, i: int)
    ensures
        occurs_at(s, seq![c], i) <==> (0 <= i < s.len() && s[i] == c),
{
    if 0 <= i < s.len() && s[i] == c {
        assert(s.subrange(i, i + 1) =~= seq![c]);
    }
    if occurs_at(s, seq![c], i) {
        assert(s.subrange(i, i + 1)[0] == s[i]);
    }
}

/// The first occurrence of a character is the first index holding it.
pub proof fn lemma_find_char_is(s: Seq<char>, c: char, i: int)
    requires
        0 <= i < s.len(),
        s[i] == c,
        forall|j: int| 0 <= j < i ==> s[j] != c,
    ensures
        find_char(s, c) == Some(i),
{
    lemma_occurs_char(s, c, i);
    assert forall|j: int| 0 <= j < i implies !occurs_at(s, seq![c], j) by {
        lemma_occurs_char(s, c, j);
    }
    lemma_find_is(s, seq![c], i);
}

/// A character that does not occur has no first occurrence.
pub proof fn lemma_find_char_none(s: Seq<char>, c: char)
    requires
        forall|j: int| 0 <= j < s.len() ==> s[j] != c,
    ensures
        find_char(s, c) == None::<int>,
        !contains(s, seq![c]),
{
    assert forall|j: int| !occurs_at(s, seq![c], j) by {
        lemma_occurs_char(s, c, j);
    }
    reveal(find);
}

/// Lemma: if `pat` occurs at `i`, some occurrence has no earlier one.
pub proof fn lemma_find_min_exists(s: Seq<char>, pat: Seq<char>, i: int)
    requires
        occurs_at(s, pat, i),
    ensures
        exists|k: int|
            #![trigger occurs_at(s, pat, k)]
            occurs_at(s, pat, k) && forall|j: int| 0 <= j < k ==> !occurs_at(s, pat, j),
    decreases i,
{
    if exists|j: int| 0 <= j < i && #[trigger] occurs_at(s, pat, j) {
        let j = choose|j: int| 0 <= j < i && #[trigger] occurs_at(s, pat, j);
        lemma_find_min_exists(s, pat, j);
    } else {
        assert(occurs_at(s, pat, i) && forall|j: int| 0 <= j < i ==> !occurs_at(s, pat, j));
    }
}

/// A found occurrence is an occurrence with no earlier one.
pub proof fn lemma_find_some(s: Seq<char>, pat: Seq<char>)
    requires
        find(s, pat) is Some,
    ensures
        occurs_at(s, pat, find(s, pat)->0),
        forall|j: int| 0 <= j < find(s, pat)->0 ==> !occurs_at(s, pat, j),
{
    reveal(find);
    let i = choose|i: int| #[trigger] occurs_at(s, pat, i);
    lemma_find_min_exists(s, pat, i);
}

// ---------------------------------------------------------------------------------------------
// Executable operations
// ---------------------------------------------------------------------------------------------

/// Collects the characters of a string slice into a vector.
pub fn to_chars(s: &str) -> (out: Vec<char>)
    ensures
        out@ == s@,
{
    let mut out: Vec<char> = Vec::new();
    for c in it: s.chars()
        invariant
            out@ == it.seq().take(it.index() as int),
            it.seq() == s@,
    {
        out.push(c);
    }
    out
}

/// Builds an owned string from a slice of characters (std's `String: FromIterator<&char>`). The
/// contract claims that the string holds exactly those characters in order. It stays trusted:
/// vstd specifies no operation that appends a character to a `String` or makes a `String` from
/// characters, so no verified body can build one.
#[verifier::external_body]
pub(crate) fn chars_to_string(v: &[char]) -> (out: String)
    ensures
        out@ == v@,
{
    v.iter().collect()
}

/// Lower-cases a string (`str::to_lowercase`).
#[verifier::external_body]
pub(crate) fn str_to_lowercase(s: &str) -> (out: String)
    ensures
        out@ == lowercase(s@),
{
    s.to_lowercase()
}

/// Whether a character is alphanumeric (`char::is_alphanumeric`).
#[verifier::external_body]
pub(crate) fn char_is_alphanumeric(c: char) -> (b: bool)
    ensures
        b == alphanumeric(c),
{
    c.is_alphanumeric()
}

/// Whether `c` is alphabetic as `char::is_alphabetic` decides it.
pub uninterp spec fn alphabetic(c: char) -> bool;

/// Whether `c` is upper-case as `char::is_uppercase` decides it.
pub uninterp spec fn uppercase(c: char) -> bool;

/// Whether a character is alphabetic (`char::is_alphabetic`).
#[verifier::external_body]
pub(crate) fn char_is_alphabetic(c: char) -> (b: bool)
    ensures
        b == alphabetic(c),
{
    c.is_alphabetic()
}

/// Whether a character is upper-case (`char::is_uppercase`).
#[verifier::external_body]
pub(crate) fn char_is_uppercase(c: char) -> (b: bool)
    ensures
        b == uppercase(c),
{
    c.is_uppercase()
}

/// Lower-cases a character sequence.
pub fn lower_chars(v: &[char]) -> (out: Vec<char>)
    ensures
        out@ == lowercase(v@),
{
    let s = chars_to_string(v);
    let l = str_to_lowercase(s.as_str());
    to_chars(l.as_str())
}

/// Whether `c` is Unicode whitespace.
pub fn char_is_ws(c: char) -> (b: bool)
    ensures
        b == is_ws(c),
{
    c == ' ' || ('\t' <= c && c <= '\r') || c == '\u{85}' || c == '\u{a0}' || c == '\u{1680}' || (
    '\u{2000}' <= c && c <= '\u{200a}') || c == '\u{2028}' || c == '\u{2029}' || c == '\u{202f}'
        || c == '\u{205f}' || c == '\u{3000}'
}

/// Copies the characters `v[i..j]`.
pub fn slice_chars(v: &[char], i: usize, j: usize) -> (out: Vec<char>)
    requires
        i <= j <= v@.len(),
    ensures
        out@ == v@.subrange(i as int, j as int),
{
    let mut out: Vec<char> = Vec::new();
    let mut k = i;
    while k < j
        invariant
            i <= k <= j <= v@.len(),
            out@ == v@.subrange(i as int, k as int),
        decreases j - k,
    {
        out.push(v[k]);
        k += 1;
        assert(out@ =~= v@.subrange(i as int, k as int));
    }
    out
}

/// `s` without leading and trailing whitespace, as a part of `s`.
pub(crate) fn trim_str(s: &str) -> (r: &str)
    ensures
        r@ == trim(s@),
{
    let v = to_chars(s);
    let a = lead_ws_len(v.as_slice());
    let t = slice_chars(v.as_slice(), a, v.len());
    let b = trail_ws_len(t.as_slice());
    assert(t@ =~= trim_start(s@));
    assert(trim(s@) =~= s@.subrange(a as int, (v.len() - b) as int));
    s.substring_char(a, v.len() - b)
}

/// Whether two strings are equal.
pub fn str_eq(a: &str, b: &str) -> (r: bool)
    ensures
        r == (a@ == b@),
{
    let x = to_chars(a);
    let y = to_chars(b);
    chars_eq(x.as_slice(), y.as_slice())
}

/// Whether two character sequences are equal.
pub fn chars_eq(a: &[char], b: &[char]) -> (r: bool)
    ensures
        r == (a@ == b@),
{
    if a.len() != b.len() {
        return false;
    }
    let mut i: usize = 0;
    while i < a.len()
        invariant
            a@.len() == b@.len(),
            i <= a@.len(),
            forall|k: int| 0 <= k < i ==> a@[k] == b@[k],
        decreases a@.len() - i,
    {
        if a[i] != b[i] {
            return false;
        }
        i += 1;
    }
    assert(a@ =~= b@);
    true
}

/// Whether `a` equals the characters of the string `lit`.
pub fn chars_eq_str(a: &[char], lit: &str) -> (r: bool)
    ensures
        r == (a@ == lit@),
{
    let l = to_chars(lit);
    chars_eq(a, l.as_slice())
}

/// Index of the first non-whitespace character of `v` (or its length).
pub fn lead_ws_len(v: &[char]) -> (n: usize)
    ensures
        n == lead_ws(v@),
        n <= v@.len(),
{
    let mut i: usize = 0;
    assert(v@.skip(0) =~= v@);
    while i < v.len() && char_is_ws(v[i])
        invariant
            i <= v@.len(),
            lead_ws(v@) == i + lead_ws(v@.skip(i as int)),
        decreases v@.len() - i,
    {
        proof {
            lemma_lead_ws_step(v@, i as int);
        }
        i += 1;
    }
    assert(lead_ws(v@.skip(i as int)) == 0);
    i
}

/// Number of trailing whitespace characters of `v`.
pub fn trail_ws_len(v: &[char]) -> (n: usize)
    ensures
        n == trail_ws(v@),
        n <= v@.len(),
{
    let mut j = v.len();
    assert(v@.take(j as int) =~= v@);
    while j > 0 && char_is_ws(v[j - 1])
        invariant
            j <= v@.len(),
            trail_ws(v@) == (v@.len() - j) + trail_ws(v@.take(j as int)),
        decreases j,
    {
        proof {
            lemma_trail_ws_step(v@, j as int);
        }
        j -= 1;
    }
    assert(v@.take(v@.len() as int) =~= v@);
    assert(trail_ws(v@.take(j as int)) == 0);
    v.len() - j
}

/// Lemma: the trailing whitespace of a sequence is bounded by its length.
pub proof fn lemma_trail_ws_bound(s: Seq<char>)
    ensures
        trail_ws(s) <= s.len(),
    decreases s.len(),
{
    if s.len() > 0 && is_ws(s.last()) {
        lemma_trail_ws_bound(s.drop_last());
    }
}

/// Lemma: the leading whitespace of a sequence is bounded by its length.
pub proof fn lemma_lead_ws_bound(s: Seq<char>)
    ensures
        lead_ws(s) <= s.len(),
    decreases s.len(),
{
    if s.len() > 0 && is_ws(s[0]) {
        lemma_lead_ws_bound(s.drop_first());
    }
}

/// Copies `v` without surrounding whitespace.
pub fn trim_chars(v: &[char]) -> (out: Vec<char>)
    ensures
        out@ == trim(v@),
{
    let a = lead_ws_len(v);
    let t = slice_chars(v, a, v.len());
    assert(t@ == trim_start(v@));
    let b = trail_ws_len(t.as_slice());
    slice_chars(t.as_slice(), 0, t.len() - b)
}

/// Copies `v` without leading whitespace.
pub fn trim_start_chars(v: &[char]) -> (out: Vec<char>)
    ensures
        out@ == trim_start(v@),
{
    let a = lead_ws_len(v);
    slice_chars(v, a, v.len())
}

/// Whether `pat` occurs in `s` at index `i`.
fn matches_at(s: &[char], pat: &[char], i: usize) -> (r: bool)
    requires
        i + pat@.len() <= s@.len(),
        s@.len() <= usize::MAX,
    ensures
        r == occurs_at(s@, pat@, i as int),
{
    let mut k: usize = 0;
    while k < pat.len()
        invariant
            i + pat@.len() <= s@.len(),
            s@.len() <= usize::MAX,
            k <= pat@.len(),
            forall|m: int| 0 <= m < k ==> s@[i + m] == pat@[m],
        decreases pat@.len() - k,
    {
        if s[i + k] != pat[k] {
            assert(s@.subrange(i as int, i + pat@.len())[k as int] == s@[i + k]);
            return false;
        }
        k += 1;
    }
    assert(s@.subrange(i as int, i + pat@.len()) =~= pat@);
    true
}

/// Index of the first occurrence of `pat` in `s`.
pub fn find_chars(s: &[char], pat: &[char]) -> (r: Option<usize>)
    ensures
        match r {
            Some(p) => find(s@, pat@) == Some(p as int) && occurs_at(s@, pat@, p as int),
            None => find(s@, pat@) is None && !contains(s@, pat@),
        },
{
    if pat.len() > s.len() {
        assert forall|j: int| !occurs_at(s@, pat@, j) by {}
        proof {
            reveal(find);
        }
        return None;
    }
    if pat.len() == 0 {
        assert(s@.subrange(0, 0) =~= pat@);
        proof {
            lemma_find_is(s@, pat@, 0);
        }
        return Some(0);
    }
    let mut i: usize = 0;
    let last = s.len() - pat.len();
    while i <= last
        invariant
            0 < pat@.len(),
            s@.len() <= usize::MAX,
            last + pat@.len() == s@.len(),
            i <= last + 1,
            forall|j: int| 0 <= j < i ==> !occurs_at(s@, pat@, j),
        decreases last + 1 - i,
    {
        if matches_at(s, pat, i) {
            proof {
                lemma_find_is(s@, pat@, i as int);
            }
            return Some(i);
        }
        i += 1;
    }
    assert forall|j: int| !occurs_at(s@, pat@, j) by {
        if 0 <= j < i {
        }
    }
    proof {
        reveal(find);
    }
    None
}

/// Whether `pat` occurs in `s`.
pub fn contains_chars(s: &[char], pat: &[char]) -> (r: bool)
    ensures
        r == contains(s@, pat@),
{
    match find_chars(s, pat) {
        Some(p) => {
            assert(occurs_at(s@, pat@, p as int));
            true
        },
        None => false,
    }
}

/// Whether `pat` (a string literal or other slice) occurs in `s`.
pub fn contains_str(s: &[char], pat: &str) -> (r: bool)
    ensures
        r == contains(s@, pat@),
{
    let p = to_chars(pat);
    contains_chars(s, p.as_slice())
}

/// Index of the first occurrence of the character `c` in `s`.
pub fn find_char_in(s: &[char], c: char) -> (r: Option<usize>)
    ensures
        match r {
            Some(p) => {
                &&& find_char(s@, c) == Some(p as int)
                &&& p < s@.len()
                &&& s@[p as int] == c
            },
            None => {
                &&& find_char(s@, c) is None
                &&& forall|j: int| 0 <= j < s@.len() ==> s@[j] != c
            },
        },
{
    let mut i: usize = 0;
    while i < s.len()
        invariant
            i <= s@.len(),
            forall|j: int| 0 <= j < i ==> s@[j] != c,
        decreases s@.len() - i,
    {
        if s[i] == c {
            proof {
                lemma_find_char_is(s@, c, i as int);
            }
            return Some(i);
        }
        i += 1;
    }
    proof {
        lemma_find_char_none(s@, c);
    }
    None
}

/// Whether `s` begins with `p`.
pub fn starts_with_chars(s: &[char], p: &[char]) -> (r: bool)
    ensures
        r == starts_with(s@, p@),
{
    if p.len() > s.len() {
        return false;
    }
    let t = slice_chars(s, 0, p.len());
    assert(t@ =~= s@.take(p@.len() as int));
    chars_eq(t.as_slice(), p)
}

/// Whether `s` begins with the string `p`.
pub fn starts_with_str(s: &[char], p: &str) -> (r: bool)
    ensures
        r == starts_with(s@, p@),
{
    let q = to_chars(p);
    starts_with_chars(s, q.as_slice())
}

/// Whether `s` ends with `p`.
pub fn ends_with_chars(s: &[char], p: &[char]) -> (r: bool)
    ensures
        r == ends_with(s@, p@),
{
    if p.len() > s.len() {
        return false;
    }
    let t = slice_chars(s, s.len() - p.len(), s.len());
    assert(t@ =~= s@.skip(s@.len() - p@.len()));
    chars_eq(t.as_slice(), p)
}

/// Whether `s` ends with the string `p`.
pub fn ends_with_str(s: &[char], p: &str) -> (r: bool)
    ensures
        r == ends_with(s@, p@),
{
    let q = to_chars(p);
    ends_with_chars(s, q.as_slice())
}

/// Splits `s` at the first occurrence of `c`.
pub fn split_once_chars(s: &[char], c: char) -> (r: Option<(Vec<char>, Vec<char>)>)
    ensures
        match r {
            Some((a, b)) => split_once(s@, c) == Some((a@, b@)),
            None => split_once(s@, c) is None,
        },
{
    match find_char_in(s, c) {
        Some(p) => {
            let n = s.len();
            let a = slice_chars(s, 0, p);
            let b = slice_chars(s, p + 1, n);
            assert(a@ =~= s@.take(p as int));
            assert(b@ =~= s@.skip(p + 1));
            Some((a, b))
        },
        None => None,
    }
}

/// Removes one final carriage return.
fn strip_cr_chars(v: Vec<char>) -> (out: Vec<char>)
    ensures
        out@ == strip_cr(v@),
{
    let mut v = v;
    if v.len() > 0 && v[v.len() - 1] == '\r' {
        v.pop();
    }
    v
}

/// Lemma: one line of `s.skip(start)` ends at the newline at index `i`.
proof fn lemma_lines_step(s: Seq<char>, start: int, i: int)
    requires
        0 <= start <= i < s.len(),
        s[i] == '\n',
        forall|j: int| start <= j < i ==> s[j] != '\n',
    ensures
        lines(s.skip(start)) == seq![strip_cr(s.subrange(start, i))] + lines(s.skip(i + 1)),
{
    let rest = s.skip(start);
    assert forall|j: int| 0 <= j < i - start implies rest[j] != '\n' by {
        assert(rest[j] == s[start + j]);
    }
    lemma_find_char_is(rest, '\n', i - start);
    assert(rest.take(i - start) =~= s.subrange(start, i));
    assert(rest.skip(i - start + 1) =~= s.skip(i + 1));
    reveal(lines);
}

/// Lemma: the remainder after the last newline is the final line.
proof fn lemma_lines_last(s: Seq<char>, start: int)
    requires
        0 <= start < s.len(),
        forall|j: int| start <= j < s.len() ==> s[j] != '\n',
    ensures
        lines(s.skip(start)) == seq![s.skip(start)],
{
    let rest = s.skip(start);
    assert forall|j: int| 0 <= j < rest.len() implies rest[j] != '\n' by {
        assert(rest[j] == s[start + j]);
    }
    lemma_find_char_none(rest, '\n');
    reveal(lines);
}

/// Splits `s` into its lines.
pub fn split_lines(s: &[char]) -> (out: Vec<Vec<char>>)
    ensures
        vv(out@) == lines(s@),
{
    let mut out: Vec<Vec<char>> = Vec::new();
    let mut cur: Vec<char> = Vec::new();
    let mut start: usize = 0;
    let mut i: usize = 0;
    assert(s@.skip(0) =~= s@);
    assert(vv(out@) =~= Seq::<Seq<char>>::empty());
    while i < s.len()
        invariant
            start <= i <= s@.len(),
            cur@ == s@.subrange(start as int, i as int),
            forall|j: int| start <= j < i ==> s@[j] != '\n',
            lines(s@) == vv(out@) + lines(s@.skip(start as int)),
        decreases s@.len() - i,
    {
        if s[i] == '\n' {
            proof {
                lemma_lines_step(s@, start as int, i as int);
            }
            let line = strip_cr_chars(cur);
            let ghost before = vv(out@);
            out.push(line);
            assert(vv(out@) =~= before.push(line@));
            assert(lines(s@) =~= vv(out@) + lines(s@.skip(i + 1)));
            cur = Vec::new();
            start = i + 1;
            i += 1;
            assert(cur@ =~= s@.subrange(start as int, i as int));
        } else {
            cur.push(s[i]);
            i += 1;
            assert(cur@ =~= s@.subrange(start as int, i as int));
        }
    }
    if start < s.len() {
        proof {
            lemma_lines_last(s@, start as int);
            assert(s@.skip(start as int) =~= cur@);
        }
        let ghost before = vv(out@);
        let ghost c = cur@;
        out.push(cur);
        assert(vv(out@) =~= before.push(c));
        assert(lines(s@) =~= vv(out@));
    } else {
        assert(s@.skip(start as int) =~= Seq::<char>::empty());
        reveal(lines);
        assert(lines(s@) =~= vv(out@));
    }
    out
}

/// Length of the non-whitespace run starting at `v[i]`.
fn word_end(v: &[char], i: usize) -> (e: usize)
    requires
        i <= v@.len(),
    ensures
        i <= e <= v@.len(),
        e - i == word_len(v@.skip(i as int)),
{
    let mut e = i;
    while e < v.len() && !char_is_ws(v[e])
        invariant
            i <= e <= v@.len(),
            word_len(v@.skip(i as int)) == (e - i) + word_len(v@.skip(e as int)),
        decreases v@.len() - e,
    {
        assert(v@.skip(e as int).drop_first() =~= v@.skip(e + 1));
        e += 1;
    }
    e
}

/// Splits `s` into its whitespace-separated words.
pub fn split_ws_chars(s: &[char]) -> (out: Vec<Vec<char>>)
    ensures
        vv(out@) == split_ws(s@),
{
    let mut out: Vec<Vec<char>> = Vec::new();
    let mut i: usize = 0;
    assert(s@.skip(0) =~= s@);
    assert(vv(out@) =~= Seq::<Seq<char>>::empty());
    while i < s.len()
        invariant
            i <= s@.len(),
            split_ws(s@) == vv(out@) + split_ws(s@.skip(i as int)),
        decreases s@.len() - i,
    {
        let ghost rest = s@.skip(i as int);
        if char_is_ws(s[i]) {
            assert(rest.drop_first() =~= s@.skip(i + 1));
            i += 1;
        } else {
            let e = word_end(s, i);
            let w = slice_chars(s, i, e);
            let ghost before = vv(out@);
            proof {
                assert(w@ =~= rest.take((e - i) as int));
                assert(rest.skip((e - i) as int) =~= s@.skip(e as int));
            }
            out.push(w);
            assert(vv(out@) =~= before.push(w@));
            i = e;
        }
    }
    assert(s@.skip(i as int) =~= Seq::<char>::empty());
    assert(split_ws(s@) =~= vv(out@));
    out
}

/// Whether the vector of sequences contains `x`.
pub fn vec_contains(vs: &Vec<Vec<char>>, x: &[char]) -> (r: bool)
    ensures
        r == vv(vs@).contains(x@),
{
    let mut i: usize = 0;
    while i < vs.len()
        invariant
            i <= vs@.len(),
            forall|k: int| 0 <= k < i ==> vv(vs@)[k] != x@,
        decreases vs@.len() - i,
    {
        assert(vv(vs@)[i as int] == vs@[i as int]@);
        if chars_eq(vs[i].as_slice(), x) {
            assert(vv(vs@)[i as int] == x@);
            return true;
        }
        i += 1;
    }
    false
}

/// Lemma: extending a sequence by one element extends its deduplication accordingly.
pub proof fn lemma_dedup_push(s: Seq<Seq<char>>, x: Seq<char>)
    ensures
        dedup(s.push(x)) == (if dedup(s).contains(x) {
            dedup(s)
        } else {
            dedup(s).push(x)
        }),
{
    assert(s.push(x).drop_last() =~= s);
}

/// Lemma: deduplication keeps exactly the elements that occur.
pub proof fn lemma_dedup_contains(s: Seq<Seq<char>>, x: Seq<char>)
    ensures
        dedup(s).contains(x) <==> s.contains(x),
    decreases s.len(),
{
    if s.len() > 0 {
        lemma_dedup_contains(s.drop_last(), x);
        assert(s =~= s.drop_last().push(s.last()));
        if s.contains(x) {
            let k = choose|k: int| 0 <= k < s.len() && s[k] == x;
            if k < s.len() - 1 {
                assert(s.drop_last()[k] == x);
            }
        }
        if s.drop_last().contains(x) {
            let k = choose|k: int| 0 <= k < s.drop_last().len() && s.drop_last()[k] == x;
            assert(s[k] == x);
        }
        let d = dedup(s.drop_last());
        if !d.contains(s.last()) {
            if d.push(s.last()).contains(x) {
                let k = choose|k: int| 0 <= k < d.push(s.last()).len() && d.push(s.last())[k] == x;
                if k < d.len() {
                    assert(d[k] == x);
                }
            }
            if d.contains(x) {
                let k = choose|k: int| 0 <= k < d.len() && d[k] == x;
                assert(d.push(s.last())[k] == x);
            }
            assert(d.push(s.last())[d.len() as int] == s.last());
        }
    }
}

/// Lemma: a deduplicated sequence has no repeated elements.
pub proof fn lemma_dedup_distinct(s: Seq<Seq<char>>)
    ensures
        forall|i: int, j: int|
            0 <= i < j < dedup(s).len() ==> dedup(s)[i] != dedup(s)[j],
    decreases s.len(),
{
    if s.len() > 0 {
        lemma_dedup_distinct(s.drop_last());
        let d = dedup(s.drop_last());
        if !d.contains(s.last()) {
            let e = d.push(s.last());
            assert forall|i: int, j: int| 0 <= i < j < e.len() implies e[i] != e[j] by {
                if j == d.len() {
                    assert(e[i] == d[i]);
                    if e[i] == e[j] {
                        assert(d.contains(s.last()));
                    }
                } else {
                    assert(e[i] == d[i] && e[j] == d[j]);
                }
            }
        }
    }
}

/// Appends `x` to `out` unless it is already present.
pub fn push_unique(out: &mut Vec<Vec<char>>, x: Vec<char>)
    ensures
        vv(final(out)@) == (if vv(old(out)@).contains(x@) {
            vv(old(out)@)
        } else {
            vv(old(out)@).push(x@)
        }),
{
    if !vec_contains(out, x.as_slice()) {
        let ghost xv = x@;
        out.push(x);
        assert(vv(out@) =~= vv(old(out)@).push(xv));
    }
}

/// Converts character vectors to owned strings.
pub fn to_strings(v: &Vec<Vec<char>>) -> (out: Vec<String>)
    ensures
        sv(out@) == vv(v@),
{
    let mut out: Vec<String> = Vec::new();
    let mut i: usize = 0;
    while i < v.len()
        invariant
            i <= v@.len(),
            sv(out@) == vv(v@).take(i as int),
        decreases v@.len() - i,
    {
        let s = chars_to_string(v[i].as_slice());
        let ghost before = sv(out@);
        out.push(s);
        assert(sv(out@) =~= before.push(v@[i as int]@));
        assert(vv(v@).take(i + 1) =~= vv(v@).take(i as int).push(v@[i as int]@));
        i += 1;
    }
    assert(vv(v@).take(v@.len() as int) =~= vv(v@));
    out
}

/// Whether two character sequences are equal ignoring ASCII case.
pub fn chars_eq_ignore_ascii_case(a: &[char], b: &[char]) -> (r: bool)
    ensures
        r == eq_ignore_ascii_case(a@, b@),
{
    if a.len() != b.len() {
        return false;
    }
    let mut i: usize = 0;
    while i < a.len()
        invariant
            a@.len() == b@.len(),
            i <= a@.len(),
            forall|k: int| 0 <= k < i ==> ascii_lower(a@[k]) == ascii_lower(b@[k]),
        decreases a@.len() - i,
    {
        if ascii_lower_char(a[i]) != ascii_lower_char(b[i]) {
            return false;
        }
        i += 1;
    }
    true
}

/// ASCII lower-case of a character.
pub fn ascii_lower_char(c: char) -> (r: char)
    ensures
        r == ascii_lower(c),
{
    if 'A' <= c && c <= 'Z' {
        let b = (c as u8) + 32;
        b as char
    } else {
        c
    }
}

// ---------------------------------------------------------------------------------------------
// Orderings and numbers
// ---------------------------------------------------------------------------------------------

/// Outcome of a three-way comparison.
#[derive(Clone, Copy, Debug, PartialEq, Eq, Structural)]
pub enum Order {
    Less,
    Equal,
    Greater,
}

/// Three-way comparison of two integers.
pub open spec fn int_order(a: int, b: int) -> Order {
    if a < b {
        Order::Less
    } else if a > b {
        Order::Greater
    } else {
        Order::Equal
    }
}

/// Lexicographic comparison of character sequences by code point (the order of `str::cmp`).
pub open spec fn lex_order(a: Seq<char>, b: Seq<char>) -> Order
    decreases a.len(),
{
    if a.len() == 0 && b.len() == 0 {
        Order::Equal
    } else if a.len() == 0 {
        Order::Less
    } else if b.len() == 0 {
        Order::Greater
    } else if a[0] < b[0] {
        Order::Less
    } else if a[0] > b[0] {
        Order::Greater
    } else {
        lex_order(a.drop_first(), b.drop_first())
    }
}

/// Lexicographic "at most" on character sequences, as a relation.
pub open spec fn lex_leq() -> spec_fn(Seq<char>, Seq<char>) -> bool {
    |a: Seq<char>, b: Seq<char>| lex_order(a, b) != Order::Greater
}

/// Lemma: swapping the arguments of `lex_order` swaps `Less` and `Greater`, and `Equal` means
/// equal sequences.
pub proof fn lemma_lex_order_flip(a: Seq<char>, b: Seq<char>)
    ensures
        lex_order(a, b) == Order::Less <==> lex_order(b, a) == Order::Greater,
        lex_order(a, b) == Order::Equal <==> a == b,
    decreases a.len(),
{
    if a.len() > 0 && b.len() > 0 && a[0] == b[0] {
        lemma_lex_order_flip(a.drop_first(), b.drop_first());
        if a.drop_first() == b.drop_first() {
            assert(a =~= seq![a[0]] + a.drop_first());
            assert(b =~= seq![b[0]] + b.drop_first());
        }
    }
    if a == b {
        lemma_lex_order_refl(a);
    }
    if a.len() == 0 && b.len() == 0 {
        assert(a =~= b);
    }
}

/// Lemma: lists of texts are `Equal` only when they are the same.
pub proof fn lemma_texts_order_equal(a: Seq<Seq<char>>, b: Seq<Seq<char>>)
    requires
        texts_order(a, b) == Order::Equal,
    ensures
        a == b,
    decreases a.len(),
{
    if a.len() == 0 && b.len() == 0 {
        assert(a =~= b);
    } else {
        lemma_lex_order_flip(a[0], b[0]);
        lemma_texts_order_equal(a.drop_first(), b.drop_first());
        assert(a =~= seq![a[0]] + a.drop_first());
        assert(b =~= seq![b[0]] + b.drop_first());
    }
}

/// Lemma: every sequence is `Equal` to itself.
pub proof fn lemma_lex_order_refl(a: Seq<char>)
    ensures
        lex_order(a, a) == Order::Equal,
    decreases a.len(),
{
    if a.len() > 0 {
        lemma_lex_order_refl(a.drop_first());
    }
}

/// Lemma: "at most" is transitive.
pub proof fn lemma_lex_order_trans(a: Seq<char>, b: Seq<char>, c: Seq<char>)
    requires
        lex_order(a, b) != Order::Greater,
        lex_order(b, c) != Order::Greater,
    ensures
        lex_order(a, c) != Order::Greater,
    decreases a.len(),
{
    if a.len() > 0 && b.len() > 0 && c.len() > 0 && a[0] == b[0] && b[0] == c[0] {
        lemma_lex_order_trans(a.drop_first(), b.drop_first(), c.drop_first());
    }
}

/// Lemma: `lex_leq` is a total order.
pub proof fn lemma_lex_leq_total()
    ensures
        total_ordering(lex_leq()),
{
    assert forall|x: Seq<char>| #[trigger] lex_leq()(x, x) by {
        lemma_lex_order_refl(x);
    }
    assert forall|x: Seq<char>, y: Seq<char>| #[trigger] lex_leq()(x, y) && #[trigger] lex_leq()(
        y,
        x,
    ) implies x == y by {
        lemma_lex_order_flip(x, y);
    }
    assert forall|x: Seq<char>, y: Seq<char>, z: Seq<char>| #[trigger] lex_leq()(x, y)
        && #[trigger] lex_leq()(y, z) implies lex_leq()(x, z) by {
        lemma_lex_order_trans(x, y, z);
    }
    assert forall|x: Seq<char>, y: Seq<char>| #[trigger] lex_leq()(x, y) || #[trigger] lex_leq()(
        y,
        x,
    ) by {
        lemma_lex_order_flip(x, y);
    }
}

/// Views of `v` with `x` inserted at `k`.
proof fn lemma_vv_insert(v: Seq<Vec<char>>, k: int, x: Vec<char>)
    requires
        0 <= k <= v.len(),
    ensures
        vv(v.insert(k, x)) == vv(v).insert(k, x@),
{
    assert(vv(v.insert(k, x)) =~= vv(v).insert(k, x@));
}

/// The character sequences of `v` in lexicographic order.
pub fn sort_chars_vec(v: &Vec<Vec<char>>) -> (r: Vec<Vec<char>>)
    ensures
        vv(r@) == vv(v@).sort_by(lex_leq()),
{
    let mut out: Vec<Vec<char>> = Vec::new();
    let mut i: usize = 0;
    proof {
        lemma_lex_leq_total();
    }
    assert(vv(v@).take(0) =~= Seq::<Seq<char>>::empty());
    assert(vv(out@) =~= Seq::<Seq<char>>::empty());
    while i < v.len()
        invariant
            i <= v@.len(),
            total_ordering(lex_leq()),
            sorted_by(vv(out@), lex_leq()),
            vv(out@).to_multiset() == vv(v@).take(i as int).to_multiset(),
        decreases v@.len() - i,
    {
        let x = v[i].clone();
        assert(x@ == vv(v@)[i as int]);
        let mut k: usize = 0;
        while k < out.len() && lex_order_chars(out[k].as_slice(), x.as_slice()) != Order::Greater
            invariant
                k <= out@.len(),
                forall|j: int| 0 <= j < k ==> lex_order(#[trigger] vv(out@)[j], x@) != Order::Greater,
            decreases out@.len() - k,
        {
            assert(vv(out@)[k as int] == out@[k as int]@);
            k += 1;
        }
        let ghost old_out = vv(out@);
        proof {
            if k < out@.len() {
                assert(old_out[k as int] == out@[k as int]@);
                assert(lex_order(old_out[k as int], x@) == Order::Greater);
                lemma_lex_order_flip(x@, old_out[k as int]);
            }
        }
        proof {
            lemma_vv_insert(out@, k as int, x);
        }
        out.insert(k, x);
        proof {
            let n = vv(out@);
            assert(n == old_out.insert(k as int, x@));
            assert forall|p: int, q: int| 0 <= p < q < n.len() implies #[trigger] lex_leq()(
                n[p],
                n[q],
            ) by {
                if q < k {
                    assert(lex_leq()(old_out[p], old_out[q]));
                } else if q == k {
                    assert(lex_order(old_out[p], x@) != Order::Greater);
                } else if p == k {
                    assert(lex_order(x@, old_out[k as int]) == Order::Less);
                    if q - 1 > k {
                        assert(lex_leq()(old_out[k as int], old_out[q - 1]));
                    } else {
                        lemma_lex_order_refl(old_out[k as int]);
                    }
                    lemma_lex_order_trans(x@, old_out[k as int], old_out[q - 1]);
                } else if p < k {
                    assert(lex_leq()(old_out[p], old_out[q - 1]));
                } else {
                    assert(lex_leq()(old_out[p - 1], old_out[q - 1]));
                }
            }
            assert(vv(v@).take(i + 1) =~= vv(v@).take(i as int).push(x@));
            vstd::seq_lib::to_multiset_insert(old_out, k as int, x@);
            vstd::seq_lib::to_multiset_build(vv(v@).take(i as int), x@);
            assert(n.to_multiset() == old_out.to_multiset().insert(x@));
            assert(vv(v@).take(i + 1).to_multiset() == vv(v@).take(i as int).to_multiset().insert(
                x@,
            ));
        }
        i += 1;
    }
    assert(vv(v@).take(v@.len() as int) =~= vv(v@));
    proof {
        vv(v@).lemma_sort_by_ensures(lex_leq());
        vstd::seq_lib::lemma_sorted_unique(vv(out@), vv(v@).sort_by(lex_leq()), lex_leq());
    }
    out
}

/// Keys of keyed items.
pub open spec fn keys_of<T>(s: Seq<(Vec<char>, T)>) -> Seq<Seq<char>> {
    s.map_values(|p: (Vec<char>, T)| p.0@)
}

/// Index of an item of `items` with the lexicographically least key.
fn min_key_index<T>(items: &Vec<(Vec<char>, T)>) -> (m: usize)
    requires
        items@.len() > 0,
    ensures
        m < items@.len(),
        forall|j: int|
            0 <= j < items@.len() ==> lex_order(items@[m as int].0@, #[trigger] items@[j].0@)
                != Order::Greater,
{
    let mut m: usize = 0;
    let mut k: usize = 1;
    proof {
        lemma_lex_order_refl(items@[0].0@);
    }
    while k < items.len()
        invariant
            0 <= m < k <= items@.len(),
            forall|j: int|
                0 <= j < k ==> lex_order(items@[m as int].0@, #[trigger] items@[j].0@)
                    != Order::Greater,
        decreases items@.len() - k,
    {
        if lex_order_chars(items[k].0.as_slice(), items[m].0.as_slice()) == Order::Less {
            let ghost old_m = m;
            proof {
                lemma_lex_order_flip(items@[k as int].0@, items@[old_m as int].0@);
                assert forall|j: int| 0 <= j < k implies lex_order(
                    items@[k as int].0@,
                    #[trigger] items@[j].0@,
                ) != Order::Greater by {
                    lemma_lex_order_trans(
                        items@[k as int].0@,
                        items@[old_m as int].0@,
                        items@[j].0@,
                    );
                }
                lemma_lex_order_refl(items@[k as int].0@);
            }
            m = k;
        } else {
            proof {
                lemma_lex_order_flip(items@[k as int].0@, items@[m as int].0@);
            }
        }
        k += 1;
    }
    m
}

/// Keyed items in lexicographic order of their keys (a permutation of `items`).
pub fn sort_by_key<T>(items: Vec<(Vec<char>, T)>) -> (r: Vec<(Vec<char>, T)>)
    ensures
        sorted_by(keys_of(r@), lex_leq()),
        r@.to_multiset() == items@.to_multiset(),
        r@.len() == items@.len(),
{
    broadcast use vstd::multiset::group_multiset_axioms, vstd::multiset::lemma_multiset_empty_len, vstd::seq_lib::group_to_multiset_ensures;

    let ghost orig = items@;
    let mut rest = items;
    let mut out: Vec<(Vec<char>, T)> = Vec::new();
    assert(out@.to_multiset() =~= vstd::multiset::Multiset::<(Vec<char>, T)>::empty());
    while rest.len() > 0
        invariant
            sorted_by(keys_of(out@), lex_leq()),
            out@.to_multiset().add(rest@.to_multiset()) == orig.to_multiset(),
            out@.len() + rest@.len() == orig.len(),
            forall|i: int, j: int|
                0 <= i < out@.len() && 0 <= j < rest@.len() ==> lex_order(
                    #[trigger] out@[i].0@,
                    #[trigger] rest@[j].0@,
                ) != Order::Greater,
        decreases rest@.len(),
    {
        let m = min_key_index(&rest);
        let ghost before_rest = rest@;
        let ghost before_out = out@;
        let x = rest.remove(m);
        proof {
            vstd::seq_lib::to_multiset_remove(before_rest, m as int);
            vstd::seq_lib::to_multiset_build(before_out, x);
            assert forall|j: int| 0 <= j < rest@.len() implies lex_order(
                x.0@,
                #[trigger] rest@[j].0@,
            ) != Order::Greater by {
                if j < m {
                    assert(rest@[j] == before_rest[j]);
                } else {
                    assert(rest@[j] == before_rest[j + 1]);
                }
            }
        }
        out.push(x);
        proof {
            let ko = keys_of(out@);
            assert forall|p: int, q: int| 0 <= p < q < ko.len() implies #[trigger] lex_leq()(
                ko[p],
                ko[q],
            ) by {
                if q < before_out.len() {
                    assert(lex_leq()(keys_of(before_out)[p], keys_of(before_out)[q]));
                } else {
                    assert(out@[p] == before_out[p]);
                    assert(before_rest[m as int] == x);
                }
            }
            assert forall|i: int, j: int|
                0 <= i < out@.len() && 0 <= j < rest@.len() implies lex_order(
                #[trigger] out@[i].0@,
                #[trigger] rest@[j].0@,
            ) != Order::Greater by {
                if i < before_out.len() {
                    if j < m {
                        assert(rest@[j] == before_rest[j]);
                    } else {
                        assert(rest@[j] == before_rest[j + 1]);
                    }
                }
            }
            assert(before_rest[m as int] == x);
            assert(before_rest.contains(x));
            before_rest.to_multiset_ensures();
            assert(before_rest.to_multiset().count(x) > 0);
            assert(rest@.to_multiset() == before_rest.to_multiset().remove(x));
            assert(out@.to_multiset() == before_out.to_multiset().insert(x));
            assert(out@.to_multiset().add(rest@.to_multiset()) =~= before_out.to_multiset().add(
                before_rest.to_multiset(),
            ));
        }
    }
    assert(rest@.to_multiset() =~= vstd::multiset::Multiset::<(Vec<char>, T)>::empty());
    out
}

/// Parts joined with the separator `sep`.
pub open spec fn join_sep(parts: Seq<Seq<char>>, sep: Seq<char>) -> Seq<char>
    decreases parts.len(),
{
    if parts.len() == 0 {
        seq![]
    } else if parts.len() == 1 {
        parts[0]
    } else {
        join_sep(parts.drop_last(), sep) + sep + parts.last()
    }
}

/// Parts joined with the separator `sep`.
pub fn join_sep_chars(parts: &Vec<Vec<char>>, sep: &str) -> (r: Vec<char>)
    ensures
        r@ == join_sep(vv(parts@), sep@),
{
    let sp = to_chars(sep);
    let mut out: Vec<char> = Vec::new();
    let mut k: usize = 0;
    assert(vv(parts@).take(0) =~= Seq::<Seq<char>>::empty());
    while k < parts.len()
        invariant
            k <= parts@.len(),
            sp@ == sep@,
            out@ == join_sep(vv(parts@).take(k as int), sep@),
        decreases parts@.len() - k,
    {
        assert(vv(parts@).take(k + 1).drop_last() =~= vv(parts@).take(k as int));
        assert(vv(parts@)[k as int] == parts@[k as int]@);
        if k > 0 {
            extend_chars(&mut out, sp.as_slice());
        }
        extend_chars(&mut out, parts[k].as_slice());
        k += 1;
    }
    assert(vv(parts@).take(parts@.len() as int) =~= vv(parts@));
    out
}

/// Character vectors of owned strings.
pub fn strings_to_chars(v: &Vec<String>) -> (r: Vec<Vec<char>>)
    ensures
        vv(r@) == sv(v@),
{
    let mut out: Vec<Vec<char>> = Vec::new();
    let mut i: usize = 0;
    while i < v.len()
        invariant
            i <= v@.len(),
            vv(out@) == sv(v@).take(i as int),
        decreases v@.len() - i,
    {
        let c = to_chars(v[i].as_str());
        let ghost before = vv(out@);
        out.push(c);
        assert(vv(out@) =~= before.push(v@[i as int]@));
        assert(sv(v@).take(i + 1) =~= sv(v@).take(i as int).push(v@[i as int]@));
        i += 1;
    }
    assert(sv(v@).take(v@.len() as int) =~= sv(v@));
    out
}

/// Order of composite keys: a number, then a list of texts compared one by one
/// lexicographically (a shorter list that is a prefix of a longer one comes first).
pub open spec fn key_order(a: (usize, Seq<Seq<char>>), b: (usize, Seq<Seq<char>>)) -> Order {
    if a.0 < b.0 {
        Order::Less
    } else if a.0 > b.0 {
        Order::Greater
    } else {
        texts_order(a.1, b.1)
    }
}

/// Lexicographic order of lists of texts.
pub open spec fn texts_order(a: Seq<Seq<char>>, b: Seq<Seq<char>>) -> Order
    decreases a.len(),
{
    if a.len() == 0 && b.len() == 0 {
        Order::Equal
    } else if a.len() == 0 {
        Order::Less
    } else if b.len() == 0 {
        Order::Greater
    } else if lex_order(a[0], b[0]) != Order::Equal {
        lex_order(a[0], b[0])
    } else {
        texts_order(a.drop_first(), b.drop_first())
    }
}

/// Lemma: `texts_order` is reflexive, flips with its arguments, and `Equal` means equal lists.
pub proof fn lemma_texts_order_flip(a: Seq<Seq<char>>, b: Seq<Seq<char>>)
    ensures
        texts_order(a, a) == Order::Equal,
        texts_order(a, b) == Order::Less <==> texts_order(b, a) == Order::Greater,
        texts_order(a, b) == Order::Equal <==> a == b,
    decreases a.len(),
{
    if a.len() > 0 {
        lemma_lex_order_refl(a[0]);
        lemma_texts_order_flip(a.drop_first(), a.drop_first());
    }
    if a.len() > 0 && b.len() > 0 {
        lemma_lex_order_flip(a[0], b[0]);
        lemma_lex_order_flip(b[0], a[0]);
        lemma_texts_order_flip(a.drop_first(), b.drop_first());
        if a[0] == b[0] && a.drop_first() == b.drop_first() {
            assert(a =~= seq![a[0]] + a.drop_first());
            assert(b =~= seq![b[0]] + b.drop_first());
        }
    }
    if a.len() == 0 && b.len() == 0 {
        assert(a =~= b);
    }
}

/// Lemma: "at most" on lists of texts is transitive.
pub proof fn lemma_texts_order_trans(a: Seq<Seq<char>>, b: Seq<Seq<char>>, c: Seq<Seq<char>>)
    requires
        texts_order(a, b) != Order::Greater,
        texts_order(b, c) != Order::Greater,
    ensures
        texts_order(a, c) != Order::Greater,
    decreases a.len(),
{
    if a.len() > 0 && b.len() > 0 && c.len() > 0 {
        lemma_lex_order_flip(a[0], b[0]);
        lemma_lex_order_flip(b[0], c[0]);
        lemma_lex_order_flip(a[0], c[0]);
        if lex_order(a[0], b[0]) == Order::Equal && lex_order(b[0], c[0]) == Order::Equal {
            lemma_texts_order_trans(a.drop_first(), b.drop_first(), c.drop_first());
        } else if lex_order(a[0], b[0]) == Order::Less && lex_order(b[0], c[0]) == Order::Less {
            lemma_lex_order_trans(a[0], b[0], c[0]);
            if lex_order(a[0], c[0]) == Order::Equal {
                lemma_lex_order_flip(b[0], a[0]);
            }
        } else if lex_order(a[0], b[0]) == Order::Less {
            if lex_order(a[0], c[0]) == Order::Equal {
                assert(a[0] == c[0]);
            }
        } else {
            if lex_order(a[0], c[0]) == Order::Equal {
                assert(a[0] == c[0]);
            }
        }
    }
}

/// Lemma: key order flips with its arguments and is reflexive.
pub proof fn lemma_key_order_flip(a: (usize, Seq<Seq<char>>), b: (usize, Seq<Seq<char>>))
    ensures
        key_order(a, a) == Order::Equal,
        key_order(a, b) == Order::Less <==> key_order(b, a) == Order::Greater,
        key_order(a, b) == Order::Equal <==> a == b,
{
    lemma_texts_order_flip(a.1, b.1);
    lemma_texts_order_flip(a.1, a.1);
}

/// Lemma: "at most" on keys is transitive.
pub proof fn lemma_key_order_trans(
    a: (usize, Seq<Seq<char>>),
    b: (usize, Seq<Seq<char>>),
    c: (usize, Seq<Seq<char>>),
)
    requires
        key_order(a, b) != Order::Greater,
        key_order(b, c) != Order::Greater,
    ensures
        key_order(a, c) != Order::Greater,
{
    if a.0 == b.0 && b.0 == c.0 {
        lemma_texts_order_trans(a.1, b.1, c.1);
    }
}

/// Composite key of an item.
pub open spec fn ckey<T>(p: ((usize, Vec<Vec<char>>), T)) -> (usize, Seq<Seq<char>>) {
    (p.0.0, vv(p.0.1@))
}

/// Order of two composite keys.
pub fn key_order_exec(a: &(usize, Vec<Vec<char>>), b: &(usize, Vec<Vec<char>>)) -> (r: Order)
    ensures
        r == key_order((a.0, vv(a.1@)), (b.0, vv(b.1@))),
{
    if a.0 < b.0 {
        return Order::Less;
    }
    if a.0 > b.0 {
        return Order::Greater;
    }
    let x = &a.1;
    let y = &b.1;
    let mut i: usize = 0;
    assert(vv(x@).skip(0) =~= vv(x@));
    assert(vv(y@).skip(0) =~= vv(y@));
    while i < x.len() && i < y.len()
        invariant
            i <= x@.len(),
            i <= y@.len(),
            a.0 == b.0,
            x@ == a.1@,
            y@ == b.1@,
            texts_order(vv(x@), vv(y@)) == texts_order(vv(x@).skip(i as int), vv(y@).skip(i as int)),
        decreases x@.len() - i,
    {
        assert(vv(x@).skip(i as int)[0] == x@[i as int]@);
        assert(vv(y@).skip(i as int)[0] == y@[i as int]@);
        assert(vv(x@).skip(i as int).len() > 0);
        assert(vv(y@).skip(i as int).len() > 0);
        let o = lex_order_chars(x[i].as_slice(), y[i].as_slice());
        if o != Order::Equal {
            assert(texts_order(vv(x@).skip(i as int), vv(y@).skip(i as int)) == o);
            return o;
        }
        assert(vv(x@).skip(i as int).drop_first() =~= vv(x@).skip(i + 1));
        assert(vv(y@).skip(i as int).drop_first() =~= vv(y@).skip(i + 1));
        i += 1;
    }
    if i == x.len() && i == y.len() {
        Order::Equal
    } else if i == x.len() {
        Order::Less
    } else {
        Order::Greater
    }
}

/// Index of an item with the least composite key.
fn min_ckey_index<T>(items: &Vec<((usize, Vec<Vec<char>>), T)>) -> (m: usize)
    requires
        items@.len() > 0,
    ensures
        m < items@.len(),
        forall|j: int|
            0 <= j < items@.len() ==> key_order(ckey(items@[m as int]), #[trigger] ckey(items@[j]))
                != Order::Greater,
{
    let mut m: usize = 0;
    let mut k: usize = 1;
    proof {
        lemma_key_order_flip(ckey(items@[0]), ckey(items@[0]));
    }
    while k < items.len()
        invariant
            0 <= m < k <= items@.len(),
            forall|j: int|
                0 <= j < k ==> key_order(ckey(items@[m as int]), #[trigger] ckey(items@[j]))
                    != Order::Greater,
        decreases items@.len() - k,
    {
        if key_order_exec(&items[k].0, &items[m].0) == Order::Less {
            let ghost old_m = m;
            proof {
                lemma_key_order_flip(ckey(items@[k as int]), ckey(items@[old_m as int]));
                assert forall|j: int| 0 <= j < k implies key_order(
                    ckey(items@[k as int]),
                    #[trigger] ckey(items@[j]),
                ) != Order::Greater by {
                    lemma_key_order_trans(
                        ckey(items@[k as int]),
                        ckey(items@[old_m as int]),
                        ckey(items@[j]),
                    );
                }
                lemma_key_order_flip(ckey(items@[k as int]), ckey(items@[k as int]));
            }
            m = k;
        } else {
            proof {
                lemma_key_order_flip(ckey(items@[k as int]), ckey(items@[m as int]));
            }
        }
        k += 1;
    }
    m
}

/// Items in order of their composite keys (a permutation of `items`).
pub fn sort_by_ckey<T>(items: Vec<((usize, Vec<Vec<char>>), T)>) -> (r: Vec<((usize, Vec<Vec<char>>), T)>)
    ensures
        forall|i: int, j: int|
            0 <= i < j < r@.len() ==> key_order(#[trigger] ckey(r@[i]), #[trigger] ckey(r@[j]))
                != Order::Greater,
        r@.to_multiset() == items@.to_multiset(),
        r@.len() == items@.len(),
{
    broadcast use vstd::multiset::group_multiset_axioms, vstd::multiset::lemma_multiset_empty_len, vstd::seq_lib::group_to_multiset_ensures;

    let ghost orig = items@;
    let mut rest = items;
    let mut out: Vec<((usize, Vec<Vec<char>>), T)> = Vec::new();
    assert(out@.to_multiset() =~= vstd::multiset::Multiset::<((usize, Vec<Vec<char>>), T)>::empty());
    while rest.len() > 0
        invariant
            forall|i: int, j: int|
                0 <= i < j < out@.len() ==> key_order(#[trigger] ckey(out@[i]), #[trigger] ckey(out@[j]))
                    != Order::Greater,
            out@.to_multiset().add(rest@.to_multiset()) == orig.to_multiset(),
            out@.len() + rest@.len() == orig.len(),
            forall|i: int, j: int|
                0 <= i < out@.len() && 0 <= j < rest@.len() ==> key_order(
                    #[trigger] ckey(out@[i]),
                    #[trigger] ckey(rest@[j]),
                ) != Order::Greater,
        decreases rest@.len(),
    {
        let m = min_ckey_index(&rest);
        let ghost before_rest = rest@;
        let ghost before_out = out@;
        let x = rest.remove(m);
        proof {
            assert(before_rest[m as int] == x);
            assert forall|j: int| 0 <= j < rest@.len() implies key_order(
                ckey(x),
                #[trigger] ckey(rest@[j]),
            ) != Order::Greater by {
                if j < m {
                    assert(rest@[j] == before_rest[j]);
                } else {
                    assert(rest@[j] == before_rest[j + 1]);
                }
            }
        }
        out.push(x);
        proof {
            assert forall|p: int, q: int| 0 <= p < q < out@.len() implies key_order(
                #[trigger] ckey(out@[p]),
                #[trigger] ckey(out@[q]),
            ) != Order::Greater by {
                if q < before_out.len() {
                    assert(out@[p] == before_out[p] && out@[q] == before_out[q]);
                } else {
                    assert(out@[p] == before_out[p]);
                    assert(out@[q] == x);
                }
            }
            assert forall|i: int, j: int|
                0 <= i < out@.len() && 0 <= j < rest@.len() implies key_order(
                #[trigger] ckey(out@[i]),
                #[trigger] ckey(rest@[j]),
            ) != Order::Greater by {
                if i < before_out.len() {
                    assert(out@[i] == before_out[i]);
                    if j < m {
                        assert(rest@[j] == before_rest[j]);
                    } else {
                        assert(rest@[j] == before_rest[j + 1]);
                    }
                }
            }
            vstd::seq_lib::to_multiset_remove(before_rest, m as int);
            vstd::seq_lib::to_multiset_build(before_out, x);
            assert(before_rest.contains(x));
            before_rest.to_multiset_ensures();
            assert(before_rest.to_multiset().count(x) > 0);
            assert(rest@.to_multiset() == before_rest.to_multiset().remove(x));
            assert(out@.to_multiset() == before_out.to_multiset().insert(x));
            assert(out@.to_multiset().add(rest@.to_multiset()) =~= before_out.to_multiset().add(
                before_rest.to_multiset(),
            ));
        }
    }
    assert(rest@.to_multiset() =~= vstd::multiset::Multiset::<((usize, Vec<Vec<char>>), T)>::empty());
    out
}

/// Numeric value of an ASCII digit.
pub open spec fn digit_value(c: char) -> int {
    (c as int) - ('0' as int)
}

/// Whether every character of `s` is an ASCII digit.
pub open spec fn all_digits(s: Seq<char>) -> bool {
    forall|i: int| 0 <= i < s.len() ==> is_digit(s[i])
}

/// Decimal value of a digit sequence.
pub open spec fn digits_value(s: Seq<char>) -> int
    decreases s.len(),
{
    if s.len() == 0 {
        0
    } else {
        10 * digits_value(s.drop_last()) + digit_value(s.last())
    }
}

/// Result of parsing `s` as a `u64` in the grammar `u64::from_str` accepts: an optional `+`
/// followed by one or more decimal digits whose value fits in 64 bits.
pub open spec fn parse_u64(s: Seq<char>) -> Option<u64> {
    let d = if s.len() > 0 && s[0] == '+' {
        s.drop_first()
    } else {
        s
    };
    if d.len() > 0 && all_digits(d) && digits_value(d) <= u64::MAX {
        Some(digits_value(d) as u64)
    } else {
        None
    }
}

/// Number of leading ASCII digits of `s`.
pub open spec fn digit_prefix(s: Seq<char>) -> nat
    decreases s.len(),
{
    if s.len() > 0 && is_digit(s[0]) {
        1 + digit_prefix(s.drop_first())
    } else {
        0
    }
}

/// Lemma: a digit sequence has a non-negative value.
pub proof fn lemma_digits_value_nonneg(s: Seq<char>)
    requires
        all_digits(s),
    ensures
        digits_value(s) >= 0,
    decreases s.len(),
{
    if s.len() > 0 {
        lemma_digits_value_nonneg(s.drop_last());
    }
}

/// Lexicographic comparison of character sequences.
pub fn lex_order_chars(a: &[char], b: &[char]) -> (r: Order)
    ensures
        r == lex_order(a@, b@),
{
    let mut i: usize = 0;
    assert(a@.skip(0) =~= a@);
    assert(b@.skip(0) =~= b@);
    while i < a.len() && i < b.len() && a[i] == b[i]
        invariant
            i <= a@.len(),
            i <= b@.len(),
            lex_order(a@, b@) == lex_order(a@.skip(i as int), b@.skip(i as int)),
        decreases a@.len() - i,
    {
        assert(a@.skip(i as int).drop_first() =~= a@.skip(i + 1));
        assert(b@.skip(i as int).drop_first() =~= b@.skip(i + 1));
        i += 1;
    }
    if i == a.len() && i == b.len() {
        Order::Equal
    } else if i == a.len() {
        Order::Less
    } else if i == b.len() {
        Order::Greater
    } else if a[i] < b[i] {
        Order::Less
    } else {
        Order::Greater
    }
}

/// Parses a digit sequence (optionally preceded by `+`) as a `u64`.
pub fn parse_u64_chars(s: &[char]) -> (r: Option<u64>)
    ensures
        r == parse_u64(s@),
{
    let n = s.len();
    let start: usize = if n > 0 && s[0] == '+' {
        1
    } else {
        0
    };
    let ghost d = s@.skip(start as int);
    assert(d =~= (if s@.len() > 0 && s@[0] == '+' {
        s@.drop_first()
    } else {
        s@
    }));
    if start == n {
        return None;
    }
    let mut value: u64 = 0;
    let mut overflow = false;
    let mut i: usize = start;
    assert(s@.subrange(start as int, start as int) =~= Seq::<char>::empty());
    while i < n
        invariant
            start < n,
            n == s@.len(),
            start <= i <= n,
            d == s@.skip(start as int),
            d == (if s@.len() > 0 && s@[0] == '+' {
                s@.drop_first()
            } else {
                s@
            }),
            all_digits(s@.subrange(start as int, i as int)),
            !overflow ==> value == digits_value(s@.subrange(start as int, i as int)),
            overflow ==> digits_value(s@.subrange(start as int, i as int)) > u64::MAX,
        decreases n - i,
    {
        let c = s[i];
        let ghost prev = s@.subrange(start as int, i as int);
        let ghost next = s@.subrange(start as int, i + 1);
        assert(next.drop_last() =~= prev);
        if !('0' <= c && c <= '9') {
            assert(d[i - start] == c);
            assert(!is_digit(d[i - start]));
            assert(!all_digits(d));
            return None;
        }
        let dv: u64 = (c as u32 - '0' as u32) as u64;
        assert(dv == digit_value(c));
        proof {
            lemma_digits_value_nonneg(prev);
        }
        if !overflow {
            if value > (u64::MAX - dv) / 10 {
                assert(10 * value + dv > u64::MAX) by (nonlinear_arith)
                    requires
                        value > (u64::MAX - dv) / 10,
                        dv <= 9,
                ;
                overflow = true;
            } else {
                assert(10 * value + dv <= u64::MAX) by (nonlinear_arith)
                    requires
                        value <= (u64::MAX - dv) / 10,
                        dv <= 9,
                ;
                value = value * 10 + dv;
            }
        }
        i += 1;
    }
    assert(s@.subrange(start as int, n as int) =~= d);
    if overflow {
        None
    } else {
        Some(value)
    }
}

/// Number of leading ASCII digits of `v`.
pub fn digit_prefix_len(v: &[char]) -> (n: usize)
    ensures
        n == digit_prefix(v@),
        n <= v@.len(),
        all_digits(v@.take(n as int)),
{
    let mut i: usize = 0;
    assert(v@.skip(0) =~= v@);
    while i < v.len() && '0' <= v[i] && v[i] <= '9'
        invariant
            i <= v@.len(),
            digit_prefix(v@) == i + digit_prefix(v@.skip(i as int)),
            all_digits(v@.take(i as int)),
        decreases v@.len() - i,
    {
        assert(v@.skip(i as int).drop_first() =~= v@.skip(i + 1));
        assert(v@.take(i + 1).drop_last() =~= v@.take(i as int));
        assert forall|k: int| 0 <= k < i + 1 implies is_digit(#[trigger] v@.take(i + 1)[k]) by {
            if k < i {
                assert(v@.take(i + 1)[k] == v@.take(i as int)[k]);
            }
        }
        i += 1;
    }
    i
}

/// Number of bytes of the UTF-8 encoding of `c`.
pub open spec fn utf8_width(c: char) -> nat {
    if (c as u32) < 0x80 {
        1
    } else if (c as u32) < 0x800 {
        2
    } else if (c as u32) < 0x10000 {
        3
    } else {
        4
    }
}

/// Number of bytes of the UTF-8 encoding of `s` (what `str::len` returns).
pub open spec fn utf8_len(s: Seq<char>) -> nat
    decreases s.len(),
{
    if s.len() == 0 {
        0
    } else {
        utf8_len(s.drop_last()) + utf8_width(s.last())
    }
}

/// Lemma: the UTF-8 length is at least the number of characters.
pub proof fn lemma_utf8_len_ge(s: Seq<char>)
    ensures
        utf8_len(s) >= s.len(),
    decreases s.len(),
{
    if s.len() > 0 {
        lemma_utf8_len_ge(s.drop_last());
    }
}

/// Number of bytes of the UTF-8 encoding of `v`, saturating at `usize::MAX`.
pub fn utf8_len_chars(v: &[char]) -> (n: usize)
    ensures
        n == (if utf8_len(v@) <= usize::MAX {
            utf8_len(v@)
        } else {
            usize::MAX as nat
        }),
{
    let mut n: usize = 0;
    let mut i: usize = 0;
    let mut saturated = false;
    assert(v@.take(0) =~= Seq::<char>::empty());
    while i < v.len()
        invariant
            i <= v@.len(),
            !saturated ==> n == utf8_len(v@.take(i as int)),
            saturated ==> utf8_len(v@.take(i as int)) > usize::MAX && n == usize::MAX,
        decreases v@.len() - i,
    {
        let c = v[i];
        let w: usize = if (c as u32) < 0x80 {
            1
        } else if (c as u32) < 0x800 {
            2
        } else if (c as u32) < 0x10000 {
            3
        } else {
            4
        };
        assert(v@.take(i + 1).drop_last() =~= v@.take(i as int));
        if !saturated {
            if n > usize::MAX - w {
                saturated = true;
                n = usize::MAX;
            } else {
                n = n + w;
            }
        }
        i += 1;
    }
    assert(v@.take(v@.len() as int) =~= v@);
    n
}

/// Appends the characters of `src` to `dst`.
pub fn extend_chars(dst: &mut Vec<char>, src: &[char])
    ensures
        final(dst)@ == old(dst)@ + src@,
{
    let mut i: usize = 0;
    while i < src.len()
        invariant
            i <= src@.len(),
            dst@ == old(dst)@ + src@.take(i as int),
        decreases src@.len() - i,
    {
        dst.push(src[i]);
        i += 1;
        assert(dst@ =~= old(dst)@ + src@.take(i as int));
    }
    assert(src@.take(src@.len() as int) =~= src@);
}

/// `to` before, between and after the characters of `s`: what replacing the empty pattern
/// gives.
pub open spec fn interleave(s: Seq<char>, to: Seq<char>) -> Seq<char>
    decreases s.len(),
{
    if s.len() == 0 {
        to
    } else {
        to + seq![s[0]] + interleave(s.drop_first(), to)
    }
}

/// `s` with each occurrence of the non-empty `from`, found from left to right without
/// overlapping, replaced by `to`.
pub open spec fn replace_from(s: Seq<char>, from: Seq<char>, to: Seq<char>) -> Seq<char>
    decreases s.len(),
{
    if s.len() == 0 {
        Seq::empty()
    } else if from.len() > 0 && from.len() <= s.len() && s.take(from.len() as int) == from {
        to + replace_from(s.skip(from.len() as int), from, to)
    } else {
        seq![s[0]] + replace_from(s.drop_first(), from, to)
    }
}

/// `s` with `from` replaced by `to`, as `str::replace` does it.
pub open spec fn replace_all(s: Seq<char>, from: Seq<char>, to: Seq<char>) -> Seq<char> {
    if from.len() == 0 {
        interleave(s, to)
    } else {
        replace_from(s, from, to)
    }
}

/// `s` with `from` replaced by `to` (see `replace_all`).
pub fn replace_chars(s: &[char], from: &[char], to: &[char]) -> (r: Vec<char>)
    ensures
        r@ == replace_all(s@, from@, to@),
{
    let mut out: Vec<char> = Vec::new();
    let mut i: usize = 0;
    if from.len() == 0 {
        assert(s@.skip(0) =~= s@);
        while i < s.len()
            invariant
                i <= s@.len(),
                from@.len() == 0,
                out@ + interleave(s@.skip(i as int), to@) == interleave(s@, to@),
            decreases s@.len() - i,
        {
            let ghost rest = s@.skip(i as int);
            let ghost before = out@;
            assert(rest[0] == s@[i as int]);
            assert(rest.drop_first() =~= s@.skip(i + 1));
            extend_chars(&mut out, to);
            out.push(s[i]);
            assert(out@ + interleave(s@.skip(i + 1), to@) =~= before + interleave(rest, to@));
            i += 1;
        }
        assert(s@.skip(i as int) =~= Seq::<char>::empty());
        extend_chars(&mut out, to);
        return out;
    }
    assert(s@.skip(0) =~= s@);
    while i < s.len()
        invariant
            i <= s@.len(),
            from@.len() > 0,
            out@ + replace_from(s@.skip(i as int), from@, to@) == replace_from(s@, from@, to@),
        decreases s@.len() - i,
    {
        let ghost rest = s@.skip(i as int);
        let ghost before = out@;
        if from.len() <= s.len() - i && matches_at(s, from, i) {
            assert(rest.take(from@.len() as int) =~= s@.subrange(i as int, i + from@.len()));
            assert(rest.skip(from@.len() as int) =~= s@.skip(i + from@.len()));
            extend_chars(&mut out, to);
            assert(out@ + replace_from(s@.skip(i + from@.len()), from@, to@) =~= before
                + replace_from(rest, from@, to@));
            i += from.len();
        } else {
            assert(!(from@.len() <= rest.len() && rest.take(from@.len() as int) == from@)) by {
                if from@.len() <= rest.len() && rest.take(from@.len() as int) == from@ {
                    assert(rest.take(from@.len() as int) =~= s@.subrange(
                        i as int,
                        i + from@.len(),
                    ));
                }
            }
            assert(rest[0] == s@[i as int]);
            assert(rest.drop_first() =~= s@.skip(i + 1));
            out.push(s[i]);
            assert(out@ + replace_from(s@.skip(i + 1), from@, to@) =~= before + replace_from(
                rest,
                from@,
                to@,
            ));
            i += 1;
        }
    }
    assert(s@.skip(i as int) =~= Seq::<char>::empty());
    assert(out@ + Seq::<char>::empty() =~= out@);
    out
}

} // verus!
