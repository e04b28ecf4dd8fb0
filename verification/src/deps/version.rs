//! Arch package version comparison (epoch, pkgver, pkgrel) and requirement checks.
use crate::text::{
    all_digits, chars_eq, chars_to_string, digit_prefix, digit_prefix_len, int_order, is_digit,
    lex_order, lex_order_chars, parse_u64, parse_u64_chars, slice_chars, split_once,
    split_once_chars, starts_with, starts_with_str, to_chars, vv, Order,
};
use std::cmp::Ordering;
use vstd::prelude::*;

verus! {

// ---------------------------------------------------------------------------------------------
// Specification
// ---------------------------------------------------------------------------------------------

/// Index of the last occurrence of `c` in `s`.
pub open spec fn rfind_char(s: Seq<char>, c: char) -> Option<int>
    decreases s.len(),
{
    if s.len() == 0 {
        None
    } else if s.last() == c {
        Some(s.len() - 1)
    } else {
        rfind_char(s.drop_last(), c)
    }
}

/// Epoch and remaining text of a version: a numeric `epoch:` prefix followed by non-empty text
/// is split off; anything else has epoch zero and keeps the whole text.
pub open spec fn split_epoch(v: Seq<char>) -> (u64, Seq<char>) {
    match split_once(v, ':') {
        Some((e, rest)) => if rest.len() > 0 && parse_u64(e) is Some {
            (parse_u64(e)->0, rest)
        } else {
            (0, v)
        },
        None => (0, v),
    }
}

/// pkgver and numeric pkgrel of a version without epoch: only a final `-digits` suffix with a
/// non-empty pkgver before it is split off.
pub open spec fn split_pkgrel(v: Seq<char>) -> (Seq<char>, Option<Seq<char>>) {
    match rfind_char(v, '-') {
        Some(p) => {
            let pv = v.take(p);
            let pr = v.skip(p + 1);
            if pv.len() > 0 && pr.len() > 0 && all_digits(pr) {
                (pv, Some(pr))
            } else {
                (v, None)
            }
        },
        None => (v, None),
    }
}

/// The pkgver of a version: without epoch and without numeric pkgrel.
pub open spec fn normalized(v: Seq<char>) -> Seq<char> {
    split_pkgrel(split_epoch(v).1).0
}

/// Segment separators of a version string.
pub open spec fn is_sep(c: char) -> bool {
    c == '.' || c == '-'
}

/// Index of the first separator in `s`.
pub open spec fn first_sep(s: Seq<char>) -> Option<int>
    decreases s.len(),
{
    if s.len() == 0 {
        None
    } else if is_sep(s[0]) {
        Some(0)
    } else {
        match first_sep(s.drop_first()) {
            Some(k) => Some(k + 1),
            None => None,
        }
    }
}

/// The pieces of `s` between separators (empty pieces included, at least one piece).
pub open spec fn segments(s: Seq<char>) -> Seq<Seq<char>>
    decreases s.len(),
{
    match first_sep(s) {
        Some(k) => if 0 <= k < s.len() {
            seq![s.take(k)] + segments(s.skip(k + 1))
        } else {
            seq![s]
        },
        None => seq![s],
    }
}

/// The `i`-th segment, or `"0"` past the end.
pub open spec fn segment_at(parts: Seq<Seq<char>>, i: int) -> Seq<char> {
    if 0 <= i < parts.len() {
        parts[i]
    } else {
        seq!['0']
    }
}

/// Order of two segments: leading numbers first (a number sorts before a non-number; two
/// non-numbers compare as text), then trailing text, where no text sorts after some text.
pub open spec fn segment_order(a: Seq<char>, b: Seq<char>) -> Order {
    let an = a.take(digit_prefix(a) as int);
    let asuf = a.skip(digit_prefix(a) as int);
    let bn = b.take(digit_prefix(b) as int);
    let bsuf = b.skip(digit_prefix(b) as int);
    let o = match (parse_u64(an), parse_u64(bn)) {
        (Some(x), Some(y)) => int_order(x as int, y as int),
        (Some(_), None) => Order::Less,
        (None, Some(_)) => Order::Greater,
        (None, None) => lex_order(a, b),
    };
    if o != Order::Equal {
        o
    } else if asuf.len() == 0 && bsuf.len() > 0 {
        Order::Greater
    } else if asuf.len() > 0 && bsuf.len() == 0 {
        Order::Less
    } else if asuf.len() > 0 && bsuf.len() > 0 && asuf != bsuf {
        lex_order(asuf, bsuf)
    } else {
        Order::Equal
    }
}

/// Order of two segment lists from position `i`: the first differing segment decides.
pub open spec fn segments_order_from(l: Seq<Seq<char>>, r: Seq<Seq<char>>, i: int) -> Order
    decreases l.len() + r.len() - i,
{
    if i < 0 || (i >= l.len() && i >= r.len()) {
        Order::Equal
    } else {
        let o = segment_order(segment_at(l, i), segment_at(r, i));
        if o != Order::Equal {
            o
        } else {
            segments_order_from(l, r, i + 1)
        }
    }
}

/// Order of two pkgver (or pkgrel) strings.
pub open spec fn components_order(a: Seq<char>, b: Seq<char>) -> Order {
    segments_order_from(segments(a), segments(b), 0)
}

/// Order of two full package versions: epoch, then pkgver, then pkgrel when both have one.
pub open spec fn version_order(a: Seq<char>, b: Seq<char>) -> Order {
    let (ae, arest) = split_epoch(a);
    let (be, brest) = split_epoch(b);
    if ae != be {
        int_order(ae as int, be as int)
    } else {
        let (apv, apr) = split_pkgrel(arest);
        let (bpv, bpr) = split_pkgrel(brest);
        let o = components_order(apv, bpv);
        if o != Order::Equal {
            o
        } else {
            match (apr, bpr) {
                (Some(x), Some(y)) => components_order(x, y),
                _ => Order::Equal,
            }
        }
    }
}

/// Requirement operators.
#[derive(Clone, Copy, Debug, PartialEq, Eq, Structural)]
pub enum ReqOp {
    Ge,
    Le,
    Eq,
    Gt,
    Lt,
}

/// `s` without prefix `p`, if it has it.
pub open spec fn strip_prefix(s: Seq<char>, p: Seq<char>) -> Option<Seq<char>> {
    if starts_with(s, p) {
        Some(s.skip(p.len() as int))
    } else {
        None
    }
}

/// Operator and version of a requirement, trying `>=`, `<=`, `=`, `>`, `<` in that order.
pub open spec fn requirement_parts(req: Seq<char>) -> Option<(ReqOp, Seq<char>)> {
    if strip_prefix(req, ">="@) is Some {
        Some((ReqOp::Ge, strip_prefix(req, ">="@)->0))
    } else if strip_prefix(req, "<="@) is Some {
        Some((ReqOp::Le, strip_prefix(req, "<="@)->0))
    } else if strip_prefix(req, "="@) is Some {
        Some((ReqOp::Eq, strip_prefix(req, "="@)->0))
    } else if strip_prefix(req, ">"@) is Some {
        Some((ReqOp::Gt, strip_prefix(req, ">"@)->0))
    } else if strip_prefix(req, "<"@) is Some {
        Some((ReqOp::Lt, strip_prefix(req, "<"@)->0))
    } else {
        None
    }
}

/// Whether an ordering outcome is accepted by an operator.
pub open spec fn op_accepts(op: ReqOp, o: Order) -> bool {
    match op {
        ReqOp::Ge => o != Order::Less,
        ReqOp::Le => o != Order::Greater,
        ReqOp::Eq => o == Order::Equal,
        ReqOp::Gt => o == Order::Greater,
        ReqOp::Lt => o == Order::Less,
    }
}

/// Whether `version` satisfies `req`; an empty or operator-less requirement is no constraint.
pub open spec fn satisfies(version: Seq<char>, req: Seq<char>) -> bool {
    if req.len() == 0 {
        true
    } else {
        match requirement_parts(req) {
            Some((op, v)) => op_accepts(op, version_order(version, v)),
            None => true,
        }
    }
}

/// Leading numeric component of a version's pkgver.
pub open spec fn major_component(v: Seq<char>) -> Option<u64> {
    parse_u64(segments(normalized(v))[0])
}

/// `new` has a larger leading numeric component than `old`.
pub open spec fn major_bump(old: Seq<char>, new: Seq<char>) -> bool {
    match (major_component(old), major_component(new)) {
        (Some(o), Some(n)) => n > o,
        _ => false,
    }
}

/// The standard ordering corresponding to an order outcome.
pub open spec fn to_ordering(o: Order) -> Ordering {
    match o {
        Order::Less => Ordering::Less,
        Order::Equal => Ordering::Equal,
        Order::Greater => Ordering::Greater,
    }
}

// ---------------------------------------------------------------------------------------------
// Lemmas
// ---------------------------------------------------------------------------------------------

/// Lemma: `segments` always yields at least one piece.
pub proof fn lemma_segments_nonempty(s: Seq<char>)
    ensures
        segments(s).len() >= 1,
    decreases s.len(),
{
    match first_sep(s) {
        Some(k) => if 0 <= k < s.len() {
            lemma_segments_nonempty(s.skip(k + 1));
        },
        None => {},
    }
}

/// Lemma: the first separator index is the first index holding a separator.
proof fn lemma_first_sep_is(s: Seq<char>, i: int)
    requires
        0 <= i < s.len(),
        is_sep(s[i]),
        forall|j: int| 0 <= j < i ==> !is_sep(s[j]),
    ensures
        first_sep(s) == Some(i),
    decreases i,
{
    if i > 0 {
        lemma_first_sep_is(s.drop_first(), i - 1);
    }
}

/// Lemma: no separator means no first separator.
proof fn lemma_first_sep_none(s: Seq<char>)
    requires
        forall|j: int| 0 <= j < s.len() ==> !is_sep(s[j]),
    ensures
        first_sep(s) is None,
    decreases s.len(),
{
    if s.len() > 0 {
        lemma_first_sep_none(s.drop_first());
    }
}

/// Lemma: the last-occurrence index of a character.
proof fn lemma_rfind_is(s: Seq<char>, c: char, i: int)
    requires
        0 <= i < s.len(),
        s[i] == c,
        forall|j: int| i < j < s.len() ==> s[j] != c,
    ensures
        rfind_char(s, c) == Some(i),
    decreases s.len(),
{
    if i < s.len() - 1 {
        lemma_rfind_is(s.drop_last(), c, i);
    }
}

/// Lemma: a character that does not occur has no last occurrence.
proof fn lemma_rfind_none(s: Seq<char>, c: char)
    requires
        forall|j: int| 0 <= j < s.len() ==> s[j] != c,
    ensures
        rfind_char(s, c) is None,
    decreases s.len(),
{
    if s.len() > 0 {
        lemma_rfind_none(s.drop_last(), c);
    }
}

/// Lemma: lexicographic order is antisymmetric.
pub proof fn lemma_lex_order_antisym(a: Seq<char>, b: Seq<char>)
    ensures
        lex_order(a, b) == Order::Less <==> lex_order(b, a) == Order::Greater,
        lex_order(a, b) == Order::Equal <==> lex_order(b, a) == Order::Equal,
        lex_order(a, b) == Order::Equal <==> a == b,
    decreases a.len(),
{
    if a.len() > 0 && b.len() > 0 && a[0] == b[0] {
        lemma_lex_order_antisym(a.drop_first(), b.drop_first());
        if a.drop_first() == b.drop_first() {
            assert(a =~= seq![a[0]] + a.drop_first());
            assert(b =~= seq![b[0]] + b.drop_first());
        }
        if a == b {
            assert(a.drop_first() =~= b.drop_first());
        }
    } else if a.len() > 0 && b.len() > 0 {
        if a == b {
            assert(a[0] == b[0]);
        }
    } else if a.len() == 0 && b.len() == 0 {
        assert(a =~= b);
    } else if a == b {
        assert(a.len() == b.len());
    }
}

/// Lemma: a sequence is lexicographically equal to itself.
pub proof fn lemma_lex_order_refl(a: Seq<char>)
    ensures
        lex_order(a, a) == Order::Equal,
{
    lemma_lex_order_antisym(a, a);
}

/// The mirror image of an order outcome.
pub open spec fn flip(o: Order) -> Order {
    match o {
        Order::Less => Order::Greater,
        Order::Equal => Order::Equal,
        Order::Greater => Order::Less,
    }
}

/// Lemma: segment order is antisymmetric.
proof fn lemma_segment_order_antisym(a: Seq<char>, b: Seq<char>)
    ensures
        segment_order(b, a) == flip(segment_order(a, b)),
{
    lemma_lex_order_antisym(a, b);
    let asuf = a.skip(digit_prefix(a) as int);
    let bsuf = b.skip(digit_prefix(b) as int);
    lemma_lex_order_antisym(asuf, bsuf);
}

/// Lemma: segment-list order is antisymmetric.
proof fn lemma_segments_order_antisym(l: Seq<Seq<char>>, r: Seq<Seq<char>>, i: int)
    ensures
        segments_order_from(r, l, i) == flip(segments_order_from(l, r, i)),
    decreases l.len() + r.len() - i,
{
    if !(i < 0 || (i >= l.len() && i >= r.len())) {
        lemma_segment_order_antisym(segment_at(l, i), segment_at(r, i));
        lemma_segments_order_antisym(l, r, i + 1);
    }
}

/// Lemma: a segment equals itself in segment order.
proof fn lemma_segment_order_refl(a: Seq<char>)
    ensures
        segment_order(a, a) == Order::Equal,
{
    lemma_lex_order_refl(a);
}

/// Lemma: a segment list equals itself.
proof fn lemma_segments_order_refl(l: Seq<Seq<char>>, i: int)
    ensures
        segments_order_from(l, l, i) == Order::Equal,
    decreases l.len() + l.len() - i,
{
    if !(i < 0 || i >= l.len()) {
        lemma_segment_order_refl(segment_at(l, i));
        lemma_segments_order_refl(l, i + 1);
    }
}

/// Version order is antisymmetric: swapping the operands mirrors the outcome.
pub proof fn lemma_version_order_antisymmetric(a: Seq<char>, b: Seq<char>)
    ensures
        version_order(b, a) == flip(version_order(a, b)),
{
    let (ae, arest) = split_epoch(a);
    let (be, brest) = split_epoch(b);
    let (apv, apr) = split_pkgrel(arest);
    let (bpv, bpr) = split_pkgrel(brest);
    lemma_segments_order_antisym(segments(apv), segments(bpv), 0);
    if apr is Some && bpr is Some {
        lemma_segments_order_antisym(segments(apr->0), segments(bpr->0), 0);
    }
}

/// Every version is equal to itself.
pub proof fn lemma_version_order_reflexive(a: Seq<char>)
    ensures
        version_order(a, a) == Order::Equal,
{
    let (ae, arest) = split_epoch(a);
    let (apv, apr) = split_pkgrel(arest);
    lemma_segments_order_refl(segments(apv), 0);
    if apr is Some {
        lemma_segments_order_refl(segments(apr->0), 0);
    }
}

// ---------------------------------------------------------------------------------------------
// Executable code
// ---------------------------------------------------------------------------------------------

/// Index of the last occurrence of `c` in `v`.
fn rfind_char_in(v: &[char], c: char) -> (r: Option<usize>)
    ensures
        match r {
            Some(p) => rfind_char(v@, c) == Some(p as int) && p < v@.len(),
            None => rfind_char(v@, c) is None,
        },
{
    let mut j = v.len();
    while j > 0
        invariant
            j <= v@.len(),
            forall|k: int| j <= k < v@.len() ==> v@[k] != c,
        decreases j,
    {
        if v[j - 1] == c {
            proof {
                lemma_rfind_is(v@, c, j - 1);
            }
            return Some(j - 1);
        }
        j -= 1;
    }
    proof {
        lemma_rfind_none(v@, c);
    }
    None
}

/// Splits a version into epoch and remaining text.
fn split_epoch_chars(v: &[char]) -> (r: (u64, Vec<char>))
    ensures
        r.0 == split_epoch(v@).0,
        r.1@ == split_epoch(v@).1,
{
    match split_once_chars(v, ':') {
        Some((e, rest)) => {
            if rest.len() > 0 {
                match parse_u64_chars(e.as_slice()) {
                    Some(n) => (n, rest),
                    None => (0, slice_chars(v, 0, v.len())),
                }
            } else {
                (0, slice_chars(v, 0, v.len()))
            }
        },
        None => {
            let w = slice_chars(v, 0, v.len());
            assert(w@ =~= v@);
            (0, w)
        },
    }
}

/// Splits a version without epoch into pkgver and numeric pkgrel.
fn split_pkgrel_chars(v: &[char]) -> (r: (Vec<char>, Option<Vec<char>>))
    ensures
        r.0@ == split_pkgrel(v@).0,
        match (r.1, split_pkgrel(v@).1) {
            (Some(x), Some(y)) => x@ == y,
            (None, None) => true,
            _ => false,
        },
{
    let n = v.len();
    let whole = slice_chars(v, 0, n);
    assert(whole@ =~= v@);
    match rfind_char_in(v, '-') {
        Some(p) => {
            let pv = slice_chars(v, 0, p);
            let pr = slice_chars(v, p + 1, n);
            assert(pv@ =~= v@.take(p as int));
            assert(pr@ =~= v@.skip(p + 1));
            let k = digit_prefix_len(pr.as_slice());
            if pv.len() > 0 && pr.len() > 0 && k == pr.len() {
                assert(pr@.take(k as int) =~= pr@);
                (pv, Some(pr))
            } else {
                proof {
                    if pr@.len() > 0 && all_digits(pr@) {
                        lemma_digit_prefix_all(pr@);
                    }
                }
                (whole, None)
            }
        },
        None => (whole, None),
    }
}

/// Lemma: an all-digit sequence is its own digit prefix.
proof fn lemma_digit_prefix_all(s: Seq<char>)
    requires
        all_digits(s),
    ensures
        digit_prefix(s) == s.len(),
    decreases s.len(),
{
    if s.len() > 0 {
        assert(all_digits(s.drop_first())) by {
            assert forall|i: int| 0 <= i < s.drop_first().len() implies is_digit(
                s.drop_first()[i],
            ) by {
                assert(s.drop_first()[i] == s[i + 1]);
            }
        }
        lemma_digit_prefix_all(s.drop_first());
    }
}

// ---------------------------------------------------------------------------------------------
// Laws
// ---------------------------------------------------------------------------------------------

/// Lemma: what the first separator index says of the text.
proof fn lemma_first_sep_spec(s: Seq<char>)
    ensures
        match first_sep(s) {
            Some(k) => 0 <= k < s.len() && is_sep(s[k]) && forall|j: int| 0 <= j < k ==> !is_sep(s[j]),
            None => forall|j: int| 0 <= j < s.len() ==> !is_sep(s[j]),
        },
    decreases s.len(),
{
    if s.len() > 0 && !is_sep(s[0]) {
        lemma_first_sep_spec(s.drop_first());
        match first_sep(s.drop_first()) {
            Some(k) => {
                assert forall|j: int| 0 <= j < k + 1 implies !is_sep(s[j]) by {
                    if j > 0 {
                        assert(s[j] == s.drop_first()[j - 1]);
                    }
                }
            },
            None => {
                assert forall|j: int| 0 <= j < s.len() implies !is_sep(s[j]) by {
                    if j > 0 {
                        assert(s[j] == s.drop_first()[j - 1]);
                    }
                }
            },
        }
    }
}

/// Lemma: the segments of `x.w` are those of `x` followed by those of `w`.
proof fn lemma_segments_concat(x: Seq<char>, w: Seq<char>)
    ensures
        segments(x + seq!['.'] + w) == segments(x) + segments(w),
    decreases x.len(),
{
    let s = x + seq!['.'] + w;
    lemma_first_sep_spec(x);
    match first_sep(x) {
        Some(k) => {
            assert forall|j: int| 0 <= j < k implies !is_sep(s[j]) by {
                assert(s[j] == x[j]);
            }
            assert(s[k] == x[k]);
            lemma_first_sep_is(s, k);
            let x2 = x.skip(k + 1);
            assert(s.take(k) =~= x.take(k));
            assert(s.skip(k + 1) =~= x2 + seq!['.'] + w);
            lemma_segments_concat(x2, w);
            assert(segments(s) =~= seq![x.take(k)] + (segments(x2) + segments(w)));
            assert(segments(x) == seq![x.take(k)] + segments(x2));
            assert(segments(s) =~= segments(x) + segments(w));
        },
        None => {
            assert forall|j: int| 0 <= j < x.len() implies !is_sep(s[j]) by {
                assert(s[j] == x[j]);
            }
            assert(s[x.len() as int] == '.');
            lemma_first_sep_is(s, x.len() as int);
            assert(s.take(x.len() as int) =~= x);
            assert(s.skip(x.len() as int + 1) =~= w);
            assert(segments(s) =~= seq![x] + segments(w));
        },
    }
}

/// Lemma: the first segment of a text that does not start with a digit has no leading digits.
proof fn lemma_first_segment_no_digits(w: Seq<char>)
    requires
        w.len() == 0 || !is_digit(w[0]),
    ensures
        segments(w).len() > 0,
        digit_prefix(segments(w)[0]) == 0,
{
    lemma_segments_nonempty(w);
    let f = segments(w)[0];
    match first_sep(w) {
        Some(k) => {
            if 0 <= k < w.len() {
                assert(f == w.take(k));
                if f.len() > 0 {
                    assert(f[0] == w[0]);
                }
            }
        },
        None => {},
    }
}

/// Lemma: a segment without leading digits sorts after the padding segment `0`.
proof fn lemma_text_after_zero(t: Seq<char>)
    requires
        digit_prefix(t) == 0,
    ensures
        segment_order(t, seq!['0']) == Order::Greater,
{
    let z = seq!['0'];
    assert(z.drop_first().len() == 0);
    assert(digit_prefix(z.drop_first()) == 0);
    assert(digit_prefix(z) == 1);
    assert(z.take(1) =~= z);
    assert(z.drop_last().len() == 0);
    assert(crate::text::digits_value(z.drop_last()) == 0);
    assert(z.last() == '0');
    assert(crate::text::digit_value(z.last()) == 0);
    assert(crate::text::digits_value(z) == 0);
    assert(parse_u64(z) == Some(0u64));
    assert(t.take(0).len() == 0);
    assert(parse_u64(t.take(0)) is None);
}

/// Lemma: a segment list extended by segments whose first one sorts after `0` is greater.
proof fn lemma_segments_extended(l: Seq<Seq<char>>, m: Seq<Seq<char>>, i: int)
    requires
        0 <= i <= l.len(),
        m.len() > 0,
        segment_order(m[0], seq!['0']) == Order::Greater,
    ensures
        segments_order_from(l + m, l, i) == Order::Greater,
    decreases l.len() - i,
{
    if i < l.len() {
        assert(segment_at(l + m, i) == l[i]);
        assert(segment_at(l, i) == l[i]);
        lemma_segment_order_refl(l[i]);
        lemma_segments_extended(l, m, i + 1);
    } else {
        assert(segment_at(l + m, i) == m[0]);
        assert(segment_at(l, i) == seq!['0']);
    }
}

/// Lemma: text without `:` has no epoch, and text without `-` has no pkgrel.
proof fn lemma_plain_version(s: Seq<char>)
    requires
        forall|i: int| 0 <= i < s.len() ==> s[i] != ':' && s[i] != '-',
    ensures
        split_epoch(s) == (0u64, s),
        split_pkgrel(s) == (s, None::<Seq<char>>),
{
    crate::text::lemma_find_char_none(s, ':');
    lemma_rfind_none(s, '-');
}

/// A number segment sorts before a segment that starts with anything but a digit (such as the
/// `r10` of a VCS snapshot), whatever follows, and the text segment after the number.
pub proof fn law_number_segment_before_text(a: Seq<char>, b: Seq<char>)
    requires
        a.len() > 0,
        all_digits(a),
        parse_u64(a) is Some,
        b.len() > 0,
        !is_digit(b[0]),
    ensures
        segment_order(a, b) == Order::Less,
        segment_order(b, a) == Order::Greater,
{
    lemma_digit_prefix_all(a);
    assert(a.take(a.len() as int) =~= a);
    assert(digit_prefix(b) == 0);
    assert(b.take(0).len() == 0);
    assert(parse_u64(b.take(0)) is None);
    lemma_segment_order_antisym(a, b);
}

/// A version with more text after its last segment (as the VCS snapshot `1.2.3.r10.g1a2b3c4`
/// after the release `1.2.3`) is newer than the version: the first extra segment does not
/// start with a digit and sorts after the padding `0`. Versions without epoch and pkgrel.
pub proof fn law_text_suffix_is_newer(v: Seq<char>, w: Seq<char>)
    requires
        forall|i: int| 0 <= i < v.len() ==> v[i] != ':' && v[i] != '-',
        forall|i: int| 0 <= i < w.len() ==> w[i] != ':' && w[i] != '-',
        w.len() > 0,
        !is_digit(w[0]),
    ensures
        version_order(v + seq!['.'] + w, v) == Order::Greater,
        version_order(v, v + seq!['.'] + w) == Order::Less,
{
    let s = v + seq!['.'] + w;
    assert forall|i: int| 0 <= i < s.len() implies s[i] != ':' && s[i] != '-' by {
        if i < v.len() {
            assert(s[i] == v[i]);
        } else if i > v.len() {
            assert(s[i] == w[i - v.len() - 1]);
        }
    }
    lemma_plain_version(s);
    lemma_plain_version(v);
    lemma_segments_concat(v, w);
    lemma_first_segment_no_digits(w);
    lemma_text_after_zero(segments(w)[0]);
    lemma_segments_extended(segments(v), segments(w), 0);
    assert(components_order(s, v) == Order::Greater);
    lemma_version_order_antisymmetric(s, v);
}

/// The leading (major) component of a version does not depend on its epoch: `e:v` and `v`
/// have the same one, for a numeric epoch `e` and a non-empty `v` without `:`.
pub proof fn law_major_component_ignores_epoch(e: Seq<char>, v: Seq<char>)
    requires
        parse_u64(e) is Some,
        v.len() > 0,
        forall|i: int| 0 <= i < v.len() ==> v[i] != ':',
    ensures
        major_component(e + seq![':'] + v) == major_component(v),
{
    lemma_split_epoch_prefix(e, v);
    crate::text::lemma_find_char_none(v, ':');
    assert(split_epoch(v) == (0u64, v));
}

/// Lemma: a numeric `epoch:` prefix before non-empty text is split off.
proof fn lemma_split_epoch_prefix(e: Seq<char>, v: Seq<char>)
    requires
        parse_u64(e) is Some,
        v.len() > 0,
    ensures
        split_epoch(e + seq![':'] + v) == (parse_u64(e)->0, v),
{
    let s = e + seq![':'] + v;
    assert forall|j: int| 0 <= j < e.len() implies e[j] != ':' by {
        if !(j == 0 && e[0] == '+') {
            if e.len() > 0 && e[0] == '+' {
                assert(e.drop_first()[j - 1] == e[j]);
                assert(is_digit(e.drop_first()[j - 1]));
            } else {
                assert(is_digit(e[j]));
            }
        }
    }
    assert forall|j: int| 0 <= j < e.len() implies s[j] != ':' by {
        assert(s[j] == e[j]);
    }
    assert(s[e.len() as int] == ':');
    crate::text::lemma_find_char_is(s, ':', e.len() as int);
    assert(s.take(e.len() as int) =~= e);
    assert(s.skip(e.len() as int + 1) =~= v);
}

/// Lemma: a text without separators is one segment.
proof fn lemma_one_segment(a: Seq<char>)
    requires
        forall|i: int| 0 <= i < a.len() ==> !is_sep(a[i]),
    ensures
        segments(a) == seq![a],
{
    lemma_first_sep_none(a);
}

/// Versions that are plain numbers compare by their values (`10` is newer than `9`).
pub proof fn law_numeric_versions_compare_by_value(a: Seq<char>, b: Seq<char>)
    requires
        a.len() > 0,
        b.len() > 0,
        all_digits(a),
        all_digits(b),
        parse_u64(a) is Some,
        parse_u64(b) is Some,
    ensures
        version_order(a, b) == int_order(parse_u64(a)->0 as int, parse_u64(b)->0 as int),
{
    assert forall|i: int| 0 <= i < a.len() implies a[i] != ':' && a[i] != '-' && !is_sep(a[i]) by {
        assert(is_digit(a[i]));
    }
    assert forall|i: int| 0 <= i < b.len() implies b[i] != ':' && b[i] != '-' && !is_sep(b[i]) by {
        assert(is_digit(b[i]));
    }
    lemma_plain_version(a);
    lemma_plain_version(b);
    lemma_one_segment(a);
    lemma_one_segment(b);
    lemma_digit_prefix_all(a);
    lemma_digit_prefix_all(b);
    assert(a.take(a.len() as int) =~= a);
    assert(b.take(b.len() as int) =~= b);
    assert(a.skip(a.len() as int).len() == 0);
    assert(b.skip(b.len() as int).len() == 0);
    assert(segment_at(seq![a], 0) == a);
    assert(segment_at(seq![b], 0) == b);
    assert(segments_order_from(seq![a], seq![b], 1) == Order::Equal);
}

/// The epoch decides first: of two versions with different numeric epochs, the one with the
/// larger epoch is newer, whatever follows.
pub proof fn law_epoch_decides_first(e1: Seq<char>, x: Seq<char>, e2: Seq<char>, y: Seq<char>)
    requires
        parse_u64(e1) is Some,
        parse_u64(e2) is Some,
        parse_u64(e1) != parse_u64(e2),
        x.len() > 0,
        y.len() > 0,
    ensures
        version_order(e1 + seq![':'] + x, e2 + seq![':'] + y) == int_order(
            parse_u64(e1)->0 as int,
            parse_u64(e2)->0 as int,
        ),
{
    lemma_split_epoch_prefix(e1, x);
    lemma_split_epoch_prefix(e2, y);
}

/// The major component of a version that starts with a number followed by `.` is that number
/// (`12` for `12.3.1`), for versions without epoch and pkgrel.
pub proof fn law_major_component_is_leading_number(a: Seq<char>, w: Seq<char>)
    requires
        a.len() > 0,
        all_digits(a),
        parse_u64(a) is Some,
        forall|i: int| 0 <= i < w.len() ==> w[i] != ':' && w[i] != '-',
    ensures
        major_component(a + seq!['.'] + w) == parse_u64(a),
{
    let s = a + seq!['.'] + w;
    assert forall|i: int| 0 <= i < s.len() implies s[i] != ':' && s[i] != '-' by {
        if i < a.len() {
            assert(s[i] == a[i]);
            assert(is_digit(a[i]));
        } else if i > a.len() {
            assert(s[i] == w[i - a.len() - 1]);
        }
    }
    lemma_plain_version(s);
    assert forall|i: int| 0 <= i < a.len() implies !is_sep(a[i]) by {
        assert(is_digit(a[i]));
    }
    lemma_one_segment(a);
    lemma_segments_concat(a, w);
    assert((seq![a] + segments(w))[0] == a);
}

/// Splits a pkgver into its segments.
fn segments_chars(s: &[char]) -> (out: Vec<Vec<char>>)
    ensures
        vv(out@) == segments(s@),
{
    let mut out: Vec<Vec<char>> = Vec::new();
    let mut cur: Vec<char> = Vec::new();
    let mut start: usize = 0;
    let mut i: usize = 0;
    assert(s@.skip(0) =~= s@);
    assert(vv(out@) =~= Seq::<Seq<char>>::empty());
    while i < s.len()
        invariant
            start <= i <= s@.len(),
            cur@ == s@.subrange(start as int, i as int),
            forall|j: int| start <= j < i ==> !is_sep(s@[j]),
            segments(s@) == vv(out@) + segments(s@.skip(start as int)),
        decreases s@.len() - i,
    {
        if s[i] == '.' || s[i] == '-' {
            let ghost rest = s@.skip(start as int);
            proof {
                assert forall|j: int| 0 <= j < i - start implies !is_sep(rest[j]) by {
                    assert(rest[j] == s@[start + j]);
                }
                lemma_first_sep_is(rest, i - start);
                assert(rest.take(i - start) =~= cur@);
                assert(rest.skip(i - start + 1) =~= s@.skip(i + 1));
            }
            let ghost before = vv(out@);
            let ghost c = cur@;
            out.push(cur);
            assert(vv(out@) =~= before.push(c));
            assert(segments(s@) =~= vv(out@) + segments(s@.skip(i + 1)));
            cur = Vec::new();
            start = i + 1;
            i += 1;
            assert(cur@ =~= s@.subrange(start as int, i as int));
        } else {
            cur.push(s[i]);
            i += 1;
            assert(cur@ =~= s@.subrange(start as int, i as int));
        }
    }
    let ghost rest = s@.skip(start as int);
    proof {
        assert forall|j: int| 0 <= j < rest.len() implies !is_sep(rest[j]) by {
            assert(rest[j] == s@[start + j]);
        }
        lemma_first_sep_none(rest);
        assert(rest =~= cur@);
    }
    let ghost before = vv(out@);
    let ghost c = cur@;
    out.push(cur);
    assert(vv(out@) =~= before.push(c));
    assert(segments(s@) =~= vv(out@));
    out
}

/// Order of two segments.
fn segment_order_chars(a: &[char], b: &[char]) -> (r: Order)
    ensures
        r == segment_order(a@, b@),
{
    let ka = digit_prefix_len(a);
    let kb = digit_prefix_len(b);
    let an = slice_chars(a, 0, ka);
    let asuf = slice_chars(a, ka, a.len());
    let bn = slice_chars(b, 0, kb);
    let bsuf = slice_chars(b, kb, b.len());
    assert(an@ =~= a@.take(ka as int));
    assert(asuf@ =~= a@.skip(ka as int));
    assert(bn@ =~= b@.take(kb as int));
    assert(bsuf@ =~= b@.skip(kb as int));
    let o = match (parse_u64_chars(an.as_slice()), parse_u64_chars(bn.as_slice())) {
        (Some(x), Some(y)) => if x < y {
            Order::Less
        } else if x > y {
            Order::Greater
        } else {
            Order::Equal
        },
        (Some(_), None) => Order::Less,
        (None, Some(_)) => Order::Greater,
        (None, None) => lex_order_chars(a, b),
    };
    if o != Order::Equal {
        o
    } else if asuf.len() == 0 && bsuf.len() > 0 {
        Order::Greater
    } else if asuf.len() > 0 && bsuf.len() == 0 {
        Order::Less
    } else if asuf.len() > 0 && bsuf.len() > 0 && !chars_eq(asuf.as_slice(), bsuf.as_slice()) {
        lex_order_chars(asuf.as_slice(), bsuf.as_slice())
    } else {
        Order::Equal
    }
}

/// Order of two pkgver (or pkgrel) strings.
fn components_order_chars(a: &[char], b: &[char]) -> (r: Order)
    ensures
        r == components_order(a@, b@),
{
    let l = segments_chars(a);
    let r = segments_chars(b);
    let zero = to_chars("0");
    proof {
        reveal_strlit("0");
    }
    assert(zero@ =~= seq!['0']);
    let n = if l.len() > r.len() {
        l.len()
    } else {
        r.len()
    };
    let mut i: usize = 0;
    while i < n
        invariant
            i <= n,
            n == (if l@.len() > r@.len() {
                l@.len()
            } else {
                r@.len()
            }),
            zero@ == seq!['0'],
            components_order(a@, b@) == segments_order_from(vv(l@), vv(r@), i as int),
        decreases n - i,
    {
        let ls: &[char] = if i < l.len() {
            l[i].as_slice()
        } else {
            zero.as_slice()
        };
        let rs: &[char] = if i < r.len() {
            r[i].as_slice()
        } else {
            zero.as_slice()
        };
        assert(ls@ == segment_at(vv(l@), i as int));
        assert(rs@ == segment_at(vv(r@), i as int));
        let o = segment_order_chars(ls, rs);
        if o != Order::Equal {
            return o;
        }
        i += 1;
    }
    Order::Equal
}

/// Order of two full package versions.
pub fn version_order_chars(a: &[char], b: &[char]) -> (r: Order)
    ensures
        r == version_order(a@, b@),
{
    let (ae, arest) = split_epoch_chars(a);
    let (be, brest) = split_epoch_chars(b);
    if ae != be {
        return if ae < be {
            Order::Less
        } else {
            Order::Greater
        };
    }
    let (apv, apr) = split_pkgrel_chars(arest.as_slice());
    let (bpv, bpr) = split_pkgrel_chars(brest.as_slice());
    let o = components_order_chars(apv.as_slice(), bpv.as_slice());
    if o != Order::Equal {
        return o;
    }
    match (apr, bpr) {
        (Some(x), Some(y)) => components_order_chars(x.as_slice(), y.as_slice()),
        _ => Order::Equal,
    }
}

/// Converts an order outcome to the standard ordering.
fn order_to_ordering(o: Order) -> (r: Ordering)
    ensures
        r == to_ordering(o),
{
    match o {
        Order::Less => Ordering::Less,
        Order::Equal => Ordering::Equal,
        Order::Greater => Ordering::Greater,
    }
}

/// Compares two Arch package versions: numeric epoch first, then pkgver segment by segment,
/// then pkgrel only when both versions declare one.
pub fn compare_versions(a: &str, b: &str) -> (r: Ordering)
    ensures
        r == to_ordering(version_order(a@, b@)),
{
    let av = to_chars(a);
    let bv = to_chars(b);
    order_to_ordering(version_order_chars(av.as_slice(), bv.as_slice()))
}

/// `s` without prefix `p`, if it has it.
pub fn strip_prefix_chars(s: &[char], p: &str) -> (r: Option<Vec<char>>)
    ensures
        match r {
            Some(v) => strip_prefix(s@, p@) == Some(v@),
            None => strip_prefix(s@, p@) is None,
        },
{
    if starts_with_str(s, p) {
        let k = to_chars(p).len();
        Some(slice_chars(s, k, s.len()))
    } else {
        None
    }
}

/// Operator and version of a requirement.
pub fn requirement_parts_chars(req: &[char]) -> (r: Option<(ReqOp, Vec<char>)>)
    ensures
        match (r, requirement_parts(req@)) {
            (Some((op, v)), Some((sop, sv))) => op == sop && v@ == sv,
            (None, None) => true,
            _ => false,
        },
{
    let n = req.len();
    if starts_with_str(req, ">=") {
        let k = to_chars(">=").len();
        return Some((ReqOp::Ge, slice_chars(req, k, n)));
    }
    if starts_with_str(req, "<=") {
        let k = to_chars("<=").len();
        return Some((ReqOp::Le, slice_chars(req, k, n)));
    }
    if starts_with_str(req, "=") {
        let k = to_chars("=").len();
        return Some((ReqOp::Eq, slice_chars(req, k, n)));
    }
    if starts_with_str(req, ">") {
        let k = to_chars(">").len();
        return Some((ReqOp::Gt, slice_chars(req, k, n)));
    }
    if starts_with_str(req, "<") {
        let k = to_chars("<").len();
        return Some((ReqOp::Lt, slice_chars(req, k, n)));
    }
    None
}

/// Whether a version (as characters) satisfies a requirement (as characters).
pub fn satisfies_chars(version: &[char], req: &[char]) -> (r: bool)
    ensures
        r == satisfies(version@, req@),
{
    if req.len() == 0 {
        return true;
    }
    match requirement_parts_chars(req) {
        Some((op, v)) => {
            let o = version_order_chars(version, v.as_slice());
            match op {
                ReqOp::Ge => o != Order::Less,
                ReqOp::Le => o != Order::Greater,
                ReqOp::Eq => o == Order::Equal,
                ReqOp::Gt => o == Order::Greater,
                ReqOp::Lt => o == Order::Less,
            }
        },
        None => true,
    }
}

/// Checks a version against a requirement such as `>=1.2`, `=2.0` or `<3.0`; an empty
/// requirement or one without a supported operator is no constraint.
pub fn version_satisfies(version: &str, requirement: &str) -> (r: bool)
    ensures
        r == satisfies(version@, requirement@),
{
    let v = to_chars(version);
    let q = to_chars(requirement);
    satisfies_chars(v.as_slice(), q.as_slice())
}

/// The pkgver of a version: without epoch and without numeric pkgrel.
pub fn normalize_version(version: &str) -> (r: String)
    ensures
        r@ == normalized(version@),
{
    let v = to_chars(version);
    let (_, rest) = split_epoch_chars(v.as_slice());
    let (pv, _) = split_pkgrel_chars(rest.as_slice());
    chars_to_string(pv.as_slice())
}

/// The leading numeric component of a version's pkgver, if it parses as a number.
pub fn extract_major_component(version: &str) -> (r: Option<u64>)
    ensures
        r == major_component(version@),
{
    let v = to_chars(version);
    let (_, rest) = split_epoch_chars(v.as_slice());
    let (pv, _) = split_pkgrel_chars(rest.as_slice());
    let segs = segments_chars(pv.as_slice());
    proof {
        lemma_segments_nonempty(pv@);
    }
    assert(segs@[0]@ == vv(segs@)[0]);
    parse_u64_chars(segs[0].as_slice())
}

/// Whether `new` has a larger leading numeric component than `old`.
pub fn is_major_version_bump(old: &str, new: &str) -> (r: bool)
    ensures
        r == major_bump(old@, new@),
{
    match (extract_major_component(old), extract_major_component(new)) {
        (Some(o), Some(n)) => n > o,
        _ => false,
    }
}

} // verus!
