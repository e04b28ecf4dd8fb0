//! Decisions taken while reading the comments of an AUR package page: who wrote a comment,
//! where its permalink points, whether it is pinned, and in which order comments are listed.
use crate::text::{find, int_order, lex_order, split_ws, starts_with, to_chars, trim, Order};
use crate::types::AurComment;
use vstd::prelude::*;

verus! {

/// Author named by a comment header: the trimmed text before ` commented on `, else the first
/// word of the header, else `Unknown`.
pub open spec fn author_of(header: Seq<char>) -> Seq<char> {
    match find(header, " commented on "@) {
        Some(p) => trim(header.take(p)),
        None => if split_ws(header).len() > 0 {
            split_ws(header)[0]
        } else {
            "Unknown"@
        },
    }
}

/// Author of a comment, read from the text of its header.
pub fn comment_author(header_text: &str) -> (r: String)
    ensures
        r@ == author_of(header_text@),
{
    let h = to_chars(header_text);
    match crate::text::find_chars(h.as_slice(), to_chars(" commented on ").as_slice()) {
        Some(p) => {
            let before = crate::text::slice_chars(h.as_slice(), 0, p);
            assert(before@ =~= header_text@.take(p as int));
            let t = crate::text::trim_chars(before.as_slice());
            crate::text::chars_to_string(t.as_slice())
        },
        None => {
            let words = crate::text::split_ws_chars(h.as_slice());
            if words.len() > 0 {
                assert(crate::text::vv(words@)[0] == words@[0]@);
                crate::text::chars_to_string(words[0].as_slice())
            } else {
                "Unknown".to_owned()
            }
        },
    }
}

/// Absolute permalink of a comment of package `pkgname` from the link target `href`: an
/// absolute `http://` or `https://` address as it is, a fragment (`#...`) appended to the
/// package page, and a path appended to the AUR's address.
pub open spec fn absolute_link(href: Seq<char>, pkgname: Seq<char>) -> Seq<char> {
    if starts_with(href, "http://"@) || starts_with(href, "https://"@) {
        href
    } else if starts_with(href, "#"@) {
        "https://aur.archlinux.org/packages/"@ + pkgname + href
    } else {
        "https://aur.archlinux.org"@ + href
    }
}

/// Absolute permalink of a comment.
pub fn comment_date_url(href: &str, pkgname: &str) -> (r: String)
    ensures
        r@ == absolute_link(href@, pkgname@),
{
    let h = to_chars(href);
    if crate::text::starts_with_str(h.as_slice(), "http://") || crate::text::starts_with_str(
        h.as_slice(),
        "https://",
    ) {
        return href.to_owned();
    }
    let mut v: Vec<char>;
    if crate::text::starts_with_str(h.as_slice(), "#") {
        v = to_chars("https://aur.archlinux.org/packages/");
        let p = to_chars(pkgname);
        crate::text::extend_chars(&mut v, p.as_slice());
    } else {
        v = to_chars("https://aur.archlinux.org");
    }
    crate::text::extend_chars(&mut v, h.as_slice());
    crate::text::chars_to_string(v.as_slice())
}

/// Whether a comment is pinned: only when the page has a pinned section and a "latest
/// comments" heading (at `latest_comments_pos`); then a comment whose id occurs in the page
/// (at `id_position`) is pinned when it occurs before that heading, and any other comment when
/// it is among the first ten (`index` below 10).
pub open spec fn pinned(
    has_id: bool,
    id_position: Option<usize>,
    index: usize,
    has_pinned_section: bool,
    latest_comments_pos: Option<usize>,
) -> bool {
    has_pinned_section && match latest_comments_pos {
        None => false,
        Some(latest) => if has_id {
            match id_position {
                Some(p) => p < latest,
                None => index < 10,
            }
        } else {
            index < 10
        },
    }
}

/// Whether a comment is pinned; `id_position` is where its id occurs in the page, if it has one
/// and it occurs.
pub fn determine_pinned_status(
    comment_id: Option<&str>,
    id_position: Option<usize>,
    index: usize,
    has_pinned_section: bool,
    latest_comments_pos: Option<usize>,
) -> (r: bool)
    ensures
        r == pinned(comment_id is Some, id_position, index, has_pinned_section, latest_comments_pos),
{
    if !has_pinned_section {
        return false;
    }
    let latest = match latest_comments_pos {
        Some(l) => l,
        None => {
            return false;
        },
    };
    match comment_id {
        None => index < 10,
        Some(_) => match id_position {
            Some(p) => p < latest,
            None => index < 10,
        },
    }
}

/// Listing order of two comments: pinned ones first; then those with a known date, latest
/// first; then those without, by date text from last to first.
pub open spec fn comment_order(a: AurComment, b: AurComment) -> Order {
    if a.pinned != b.pinned {
        if a.pinned {
            Order::Less
        } else {
            Order::Greater
        }
    } else {
        match (a.date_timestamp, b.date_timestamp) {
            (Some(x), Some(y)) => int_order(y as int, x as int),
            (Some(_), None) => Order::Less,
            (None, Some(_)) => Order::Greater,
            (None, None) => lex_order(b.date@, a.date@),
        }
    }
}

/// Lemma: swapping two comments swaps `Less` and `Greater`.
proof fn lemma_comment_order_flip(a: AurComment, b: AurComment)
    ensures
        comment_order(a, b) == Order::Less <==> comment_order(b, a) == Order::Greater,
{
    crate::text::lemma_lex_order_flip(b.date@, a.date@);
    crate::text::lemma_lex_order_flip(a.date@, b.date@);
}

/// Lemma: "not after" is transitive.
proof fn lemma_comment_order_trans(a: AurComment, b: AurComment, c: AurComment)
    requires
        comment_order(a, b) != Order::Greater,
        comment_order(b, c) != Order::Greater,
    ensures
        comment_order(a, c) != Order::Greater,
{
    if a.pinned == b.pinned && b.pinned == c.pinned {
        if a.date_timestamp is None && b.date_timestamp is None && c.date_timestamp is None {
            crate::text::lemma_lex_order_trans(c.date@, b.date@, a.date@);
        }
    }
}

/// Lemma: a comment strictly before another is strictly before what that one is not after.
proof fn lemma_comment_order_less_trans(a: AurComment, b: AurComment, c: AurComment)
    requires
        comment_order(a, b) == Order::Less,
        comment_order(b, c) != Order::Greater,
    ensures
        comment_order(a, c) == Order::Less,
{
    lemma_comment_order_trans(a, b, c);
    lemma_comment_order_flip(a, b);
    lemma_comment_order_flip(a, c);
    lemma_comment_order_flip(c, a);
    crate::text::lemma_lex_order_flip(c.date@, a.date@);
    crate::text::lemma_lex_order_flip(a.date@, c.date@);
    crate::text::lemma_lex_order_flip(b.date@, a.date@);
    crate::text::lemma_lex_order_flip(c.date@, b.date@);
    crate::text::lemma_lex_order_flip(a.date@, b.date@);
    crate::text::lemma_lex_order_flip(b.date@, c.date@);
}

/// Lemma: every comment is not after itself.
proof fn lemma_comment_order_refl(a: AurComment)
    ensures
        comment_order(a, a) == Order::Equal,
{
    crate::text::lemma_lex_order_refl(a.date@);
}

/// Index of the first comment that no other comment precedes.
fn first_comment_index(items: &Vec<AurComment>) -> (m: usize)
    requires
        items@.len() > 0,
    ensures
        m < items@.len(),
        forall|j: int| 0 <= j < items@.len() ==> comment_order(items@[m as int], #[trigger] items@[j])
            != Order::Greater,
        forall|j: int| 0 <= j < m ==> comment_order(items@[m as int], #[trigger] items@[j])
            == Order::Less,
{
    let mut m: usize = 0;
    let mut k: usize = 1;
    proof {
        lemma_comment_order_refl(items@[0]);
    }
    while k < items.len()
        invariant
            0 <= m < k <= items@.len(),
            forall|j: int| 0 <= j < k ==> comment_order(items@[m as int], #[trigger] items@[j])
                != Order::Greater,
            forall|j: int| 0 <= j < m ==> comment_order(items@[m as int], #[trigger] items@[j])
                == Order::Less,
        decreases items@.len() - k,
    {
        if comment_before(&items[k], &items[m]) {
            let ghost old_m = m;
            proof {
                lemma_comment_order_flip(items@[k as int], items@[old_m as int]);
                assert forall|j: int| 0 <= j < k implies comment_order(
                    items@[k as int],
                    #[trigger] items@[j],
                ) == Order::Less by {
                    lemma_comment_order_less_trans(items@[k as int], items@[old_m as int], items@[j]);
                }
                lemma_comment_order_refl(items@[k as int]);
            }
            m = k;
        } else {
            proof {
                lemma_comment_order_flip(items@[k as int], items@[m as int]);
            }
        }
        k += 1;
    }
    m
}

/// Whether comment `a` is listed strictly before comment `b`.
fn comment_before(a: &AurComment, b: &AurComment) -> (r: bool)
    ensures
        r == (comment_order(*a, *b) == Order::Less),
{
    if a.pinned != b.pinned {
        return a.pinned;
    }
    match (a.date_timestamp, b.date_timestamp) {
        (Some(x), Some(y)) => y < x,
        (Some(_), None) => true,
        (None, Some(_)) => false,
        (None, None) => {
            let ad = to_chars(a.date.as_str());
            let bd = to_chars(b.date.as_str());
            crate::text::lex_order_chars(bd.as_slice(), ad.as_slice()) == Order::Less
        },
    }
}

/// Whether `idx` gives, for each comment of `r`, a distinct position of it in `orig`, and
/// comments that compare equal keep their order from `orig`.
pub open spec fn stable_positions(r: Seq<AurComment>, orig: Seq<AurComment>, idx: Seq<int>) -> bool {
    &&& idx.len() == r.len()
    &&& forall|i: int| 0 <= i < r.len() ==> 0 <= #[trigger] idx[i] < orig.len() && r[i] == orig[idx[i]]
    &&& forall|i: int, j: int| 0 <= i < j < r.len() ==> #[trigger] idx[i] != #[trigger] idx[j]
    &&& forall|i: int, j: int|
        0 <= i < j < r.len() && comment_order(#[trigger] r[i], #[trigger] r[j]) == Order::Equal
            ==> idx[i] < idx[j]
}

/// The comments in listing order: pinned ones first, each group latest first (those without a
/// known date last, by date text from last to first); comments that compare equal keep their
/// order.
pub fn separate_and_sort_comments(comments: Vec<AurComment>) -> (r: Vec<AurComment>)
    ensures
        r@.to_multiset() == comments@.to_multiset(),
        r@.len() == comments@.len(),
        forall|i: int, j: int|
            0 <= i < j < r@.len() ==> comment_order(#[trigger] r@[i], #[trigger] r@[j])
                != Order::Greater,
        exists|idx: Seq<int>| #[trigger] stable_positions(r@, comments@, idx),
{
    broadcast use vstd::multiset::group_multiset_axioms, vstd::multiset::lemma_multiset_empty_len, vstd::seq_lib::group_to_multiset_ensures;

    let ghost orig = comments@;
    let mut rest = comments;
    let mut out: Vec<AurComment> = Vec::new();
    let ghost mut oi: Seq<int> = Seq::empty();
    let ghost mut ri: Seq<int> = Seq::new(orig.len(), |i: int| i);
    assert(out@.to_multiset() =~= vstd::multiset::Multiset::<AurComment>::empty());
    while rest.len() > 0
        invariant
            oi.len() == out@.len(),
            ri.len() == rest@.len(),
            forall|i: int| 0 <= i < oi.len() ==> 0 <= #[trigger] oi[i] < orig.len() && out@[i] == orig[oi[i]],
            forall|i: int| 0 <= i < ri.len() ==> 0 <= #[trigger] ri[i] < orig.len() && rest@[i] == orig[ri[i]],
            forall|a: int, b: int| 0 <= a < b < ri.len() ==> #[trigger] ri[a] < #[trigger] ri[b],
            forall|a: int, b: int| 0 <= a < b < oi.len() ==> #[trigger] oi[a] != #[trigger] oi[b],
            forall|a: int, b: int| 0 <= a < oi.len() && 0 <= b < ri.len() ==> #[trigger] oi[a] != #[trigger] ri[b],
            forall|i: int, j: int|
                0 <= i < j < out@.len() && comment_order(#[trigger] out@[i], #[trigger] out@[j])
                    == Order::Equal ==> oi[i] < oi[j],
            forall|i: int, j: int|
                0 <= i < out@.len() && 0 <= j < rest@.len() && comment_order(
                    #[trigger] out@[i],
                    #[trigger] rest@[j],
                ) == Order::Equal ==> oi[i] < ri[j],
            forall|i: int, j: int|
                0 <= i < j < out@.len() ==> comment_order(#[trigger] out@[i], #[trigger] out@[j])
                    != Order::Greater,
            out@.to_multiset().add(rest@.to_multiset()) == orig.to_multiset(),
            out@.len() + rest@.len() == orig.len(),
            forall|i: int, j: int|
                0 <= i < out@.len() && 0 <= j < rest@.len() ==> comment_order(
                    #[trigger] out@[i],
                    #[trigger] rest@[j],
                ) != Order::Greater,
        decreases rest@.len(),
    {
        let m = first_comment_index(&rest);
        let ghost before_rest = rest@;
        let ghost before_out = out@;
        let ghost oi0 = oi;
        let ghost ri0 = ri;
        let x = rest.remove(m);
        proof {
            oi = oi0.push(ri0[m as int]);
            ri = ri0.remove(m as int);
        }
        proof {
            vstd::seq_lib::to_multiset_remove(before_rest, m as int);
            vstd::seq_lib::to_multiset_build(before_out, x);
            assert forall|j: int| 0 <= j < rest@.len() implies comment_order(
                x,
                #[trigger] rest@[j],
            ) != Order::Greater by {
                if j < m {
                    assert(rest@[j] == before_rest[j]);
                } else {
                    assert(rest@[j] == before_rest[j + 1]);
                }
            }
        }
        out.push(x);
        proof {
            assert forall|p: int, q: int| 0 <= p < q < out@.len() implies comment_order(
                #[trigger] out@[p],
                #[trigger] out@[q],
            ) != Order::Greater by {
                if q < before_out.len() {
                    assert(out@[p] == before_out[p] && out@[q] == before_out[q]);
                } else {
                    assert(out@[p] == before_out[p]);
                    assert(before_rest[m as int] == x);
                }
            }
            assert forall|i: int, j: int|
                0 <= i < out@.len() && 0 <= j < rest@.len() implies comment_order(
                #[trigger] out@[i],
                #[trigger] rest@[j],
            ) != Order::Greater by {
                if i < before_out.len() {
                    assert(out@[i] == before_out[i]);
                    if j < m {
                        assert(rest@[j] == before_rest[j]);
                    } else {
                        assert(rest@[j] == before_rest[j + 1]);
                    }
                }
            }
            assert(before_rest[m as int] == x);
            assert(before_rest.contains(x));
            before_rest.to_multiset_ensures();
            assert(before_rest.to_multiset().count(x) > 0);
            assert(rest@.to_multiset() == before_rest.to_multiset().remove(x));
            assert(out@.to_multiset() == before_out.to_multiset().insert(x));
            assert(out@.to_multiset().add(rest@.to_multiset()) =~= before_out.to_multiset().add(
                before_rest.to_multiset(),
            ));
            let n = before_out.len() as int;
            assert(out@[n] == x && oi[n] == ri0[m as int]);
            assert forall|i: int| 0 <= i < oi.len() implies 0 <= #[trigger] oi[i] < orig.len() && out@[i]
                == orig[oi[i]] by {
                if i < n {
                    assert(out@[i] == before_out[i]);
                }
            }
            assert forall|i: int| 0 <= i < ri.len() implies 0 <= #[trigger] ri[i] < orig.len() && rest@[i]
                == orig[ri[i]] by {
                if i < m {
                    assert(rest@[i] == before_rest[i] && ri[i] == ri0[i]);
                } else {
                    assert(rest@[i] == before_rest[i + 1] && ri[i] == ri0[i + 1]);
                }
            }
            assert forall|a: int, b: int| 0 <= a < b < ri.len() implies #[trigger] ri[a] < #[trigger] ri[b] by {
                let a0 = if a < m { a } else { a + 1 };
                let b0 = if b < m { b } else { b + 1 };
                assert(ri[a] == ri0[a0] && ri[b] == ri0[b0]);
            }
            assert forall|a: int, b: int| 0 <= a < b < oi.len() implies #[trigger] oi[a] != #[trigger] oi[b] by {
                if b == n {
                    assert(oi[a] == oi0[a]);
                } else {
                    assert(oi[a] == oi0[a] && oi[b] == oi0[b]);
                }
            }
            assert forall|a: int, b: int| 0 <= a < oi.len() && 0 <= b < ri.len() implies #[trigger] oi[a]
                != #[trigger] ri[b] by {
                let b0 = if b < m { b } else { b + 1 };
                assert(ri[b] == ri0[b0]);
                if a < n {
                    assert(oi[a] == oi0[a]);
                } else {
                    assert(b0 != m);
                }
            }
            assert forall|i: int, j: int|
                0 <= i < j < out@.len() && comment_order(#[trigger] out@[i], #[trigger] out@[j])
                    == Order::Equal implies oi[i] < oi[j] by {
                assert(out@[i] == before_out[i] && oi[i] == oi0[i]);
                if j < n {
                    assert(out@[j] == before_out[j] && oi[j] == oi0[j]);
                } else {
                    assert(before_rest[m as int] == x);
                }
            }
            assert forall|i: int, j: int|
                0 <= i < out@.len() && 0 <= j < rest@.len() && comment_order(
                    #[trigger] out@[i],
                    #[trigger] rest@[j],
                ) == Order::Equal implies oi[i] < ri[j] by {
                let j0 = if j < m { j } else { j + 1 };
                assert(rest@[j] == before_rest[j0] && ri[j] == ri0[j0]);
                if i < n {
                    assert(out@[i] == before_out[i] && oi[i] == oi0[i]);
                } else {
                    if j < m {
                        assert(comment_order(before_rest[m as int], before_rest[j]) == Order::Less);
                    }
                }
            }
        }
    }
    assert(rest@.to_multiset() =~= vstd::multiset::Multiset::<AurComment>::empty());
    assert(stable_positions(out@, orig, oi));
    out
}

/// Seconds since the Unix epoch of `text` read with the `chrono` format `fmt` as a date and
/// time in UTC, if it reads.
pub uninterp spec fn utc_datetime_seconds(text: Seq<char>, fmt: Seq<char>) -> Option<i64>;

/// Seconds since the Unix epoch of `text` read with the `chrono` format `fmt` as a date and
/// time with a UTC offset, if it reads.
pub uninterp spec fn offset_datetime_seconds(text: Seq<char>, fmt: Seq<char>) -> Option<i64>;

/// Seconds since the Unix epoch of midnight UTC of `text` read with the `chrono` format `fmt`
/// as a date, if it reads.
pub uninterp spec fn utc_date_seconds(text: Seq<char>, fmt: Seq<char>) -> Option<i64>;

/// `NaiveDateTime::parse_from_str(text, fmt)`, taken as UTC, in seconds since the epoch.
#[verifier::external_body]
fn parse_utc_datetime(text: &str, fmt: &str) -> (r: Option<i64>)
    ensures
        r == utc_datetime_seconds(text@, fmt@),
{
    match chrono::NaiveDateTime::parse_from_str(text, fmt) {
        Ok(dt) => Some(dt.and_utc().timestamp()),
        Err(_) => None,
    }
}

/// `DateTime::parse_from_str(text, fmt)` in seconds since the epoch.
#[verifier::external_body]
fn parse_offset_datetime(text: &str, fmt: &str) -> (r: Option<i64>)
    ensures
        r == offset_datetime_seconds(text@, fmt@),
{
    match chrono::DateTime::parse_from_str(text, fmt) {
        Ok(dt) => Some(dt.timestamp()),
        Err(_) => None,
    }
}

/// `NaiveDate::parse_from_str(text, fmt)` at midnight UTC, in seconds since the epoch.
#[verifier::external_body]
fn parse_utc_date(text: &str, fmt: &str) -> (r: Option<i64>)
    ensures
        r == utc_date_seconds(text@, fmt@),
{
    match chrono::NaiveDate::parse_from_str(text, fmt) {
        Ok(d) => match d.and_hms_opt(0, 0, 0) {
            Some(dt) => Some(dt.and_utc().timestamp()),
            None => None,
        },
        Err(_) => None,
    }
}

/// Index of the last occurrence of `c` in `s`.
pub open spec fn rfind_char(s: Seq<char>, c: char) -> Option<int>
    decreases s.len(),
{
    if s.len() == 0 {
        None
    } else if s.last() == c {
        Some(s.len() - 1)
    } else {
        rfind_char(s.drop_last(), c)
    }
}

/// The first of two optional results that is present.
pub open spec fn or_else(a: Option<i64>, b: Option<i64>) -> Option<i64> {
    match a {
        Some(x) => Some(x),
        None => b,
    }
}

/// A plain number of seconds, accepted as a date between 2000 and 2100 (exclusive).
pub open spec fn epoch_seconds(t: Seq<char>) -> Option<i64> {
    match crate::text::parse_u64(t) {
        Some(n) => if 946_684_800 < n < 4_102_444_800 {
            Some(n as i64)
        } else {
            None
        },
        None => None,
    }
}

/// Seconds since the Unix epoch of a comment date: the trimmed text, when not empty, read as
/// `YYYY-MM-DD HH:MM` or `YYYY-MM-DD HH:MM:SS` before a parenthesised zone (taken as UTC),
/// else as `YYYY-MM-DD HH:MM:SS`, `YYYY-MM-DDTHH:MM:SS` (UTC), `YYYY-MM-DDTHH:MM:SS±HHMM`,
/// `YYYY-MM-DD` (midnight UTC), or a plain number of seconds between 2000 and 2100.
pub open spec fn date_seconds(date: Seq<char>) -> Option<i64> {
    let t = trim(date);
    if t.len() == 0 {
        None
    } else {
        let zoned = match rfind_char(t, '(') {
            Some(p) => {
                let part = trim(t.take(p));
                or_else(
                    utc_datetime_seconds(part, "%Y-%m-%d %H:%M"@),
                    utc_datetime_seconds(part, "%Y-%m-%d %H:%M:%S"@),
                )
            },
            None => None,
        };
        or_else(
            zoned,
            or_else(
                utc_datetime_seconds(t, "%Y-%m-%d %H:%M:%S"@),
                or_else(
                    utc_datetime_seconds(t, "%Y-%m-%dT%H:%M:%S"@),
                    or_else(
                        offset_datetime_seconds(t, "%Y-%m-%dT%H:%M:%S%z"@),
                        or_else(utc_date_seconds(t, "%Y-%m-%d"@), epoch_seconds(t)),
                    ),
                ),
            ),
        )
    }
}

/// Index of the last occurrence of `c`.
fn rfind_char_in(s: &[char], c: char) -> (r: Option<usize>)
    ensures
        match r {
            Some(p) => rfind_char(s@, c) == Some(p as int) && p < s@.len(),
            None => rfind_char(s@, c) is None,
        },
{
    let mut i: usize = s.len();
    assert(s@.take(i as int) =~= s@);
    while i > 0
        invariant
            i <= s@.len(),
            rfind_char(s@, c) == rfind_char(s@.take(i as int), c),
        decreases i,
    {
        assert(s@.take(i as int).last() == s@[i - 1]);
        if s[i - 1] == c {
            return Some(i - 1);
        }
        assert(s@.take(i as int).drop_last() =~= s@.take(i - 1));
        i -= 1;
    }
    None
}

/// Seconds since the Unix epoch of a page date `YYYY-MM-DD HH:MM (zone)` read as UTC: the
/// trimmed text before the last `(` of the trimmed date, when it reads.
pub open spec fn page_date_seconds(date: Seq<char>) -> Option<i64> {
    let t = trim(date);
    match rfind_char(t, '(') {
        Some(p) => utc_datetime_seconds(trim(t.take(p)), "%Y-%m-%d %H:%M"@),
        None => None,
    }
}

/// Seconds since the Unix epoch of a page date (see `page_date_seconds`), when it reads.
pub fn page_date_utc_seconds(date: &str) -> (r: Option<i64>)
    ensures
        r == page_date_seconds(date@),
{
    let t = crate::text::trim_str(date);
    let tc = to_chars(t);
    match rfind_char_in(tc.as_slice(), '(') {
        Some(p) => {
            let before = crate::text::slice_chars(tc.as_slice(), 0, p);
            assert(before@ =~= tc@.take(p as int));
            let part_chars = crate::text::trim_chars(before.as_slice());
            let part = crate::text::chars_to_string(part_chars.as_slice());
            parse_utc_datetime(part.as_str(), "%Y-%m-%d %H:%M")
        },
        None => None,
    }
}

/// The first present reading among `readings`, else `text` read as a plain number of seconds
/// between 2000 and 2100.
pub open spec fn first_reading(readings: Seq<Option<i64>>, text: Seq<char>) -> Option<i64>
    decreases readings.len(),
{
    if readings.len() == 0 {
        epoch_seconds(text)
    } else {
        or_else(readings[0], first_reading(readings.drop_first(), text))
    }
}

/// The date of a comment from its readings in the formats tried in turn (see `date_seconds`):
/// the first that read, else the text as a plain number of seconds between 2000 and 2100.
pub fn first_date_reading(readings: &[Option<i64>], text: &str) -> (r: Option<i64>)
    ensures
        r == first_reading(readings@, text@),
{
    let mut i: usize = 0;
    assert(readings@.skip(0) =~= readings@);
    while i < readings.len()
        invariant
            i <= readings@.len(),
            first_reading(readings@, text@) == first_reading(readings@.skip(i as int), text@),
        decreases readings@.len() - i,
    {
        assert(readings@.skip(i as int).drop_first() =~= readings@.skip(i + 1));
        assert(readings@.skip(i as int)[0] == readings@[i as int]);
        if let Some(x) = readings[i] {
            return Some(x);
        }
        i += 1;
    }
    assert(readings@.skip(i as int) =~= Seq::<Option<i64>>::empty());
    let tc = to_chars(text);
    match crate::text::parse_u64_chars(tc.as_slice()) {
        Some(n) => if 946_684_800 < n && n < 4_102_444_800 {
            Some(n as i64)
        } else {
            None
        },
        None => None,
    }
}

/// Seconds since the Unix epoch of a comment date, when it reads (see `date_seconds`).
pub fn parse_date_to_timestamp(date_str: &str) -> (r: Option<i64>)
    ensures
        r == date_seconds(date_str@),
{
    let t = crate::text::trim_str(date_str);
    if t.is_empty() {
        return None;
    }
    let tc = to_chars(t);
    let mut readings: Vec<Option<i64>> = Vec::new();
    match rfind_char_in(tc.as_slice(), '(') {
        Some(p) => {
            let before = crate::text::slice_chars(tc.as_slice(), 0, p);
            assert(before@ =~= tc@.take(p as int));
            let part_chars = crate::text::trim_chars(before.as_slice());
            let part = crate::text::chars_to_string(part_chars.as_slice());
            readings.push(parse_utc_datetime(part.as_str(), "%Y-%m-%d %H:%M"));
            readings.push(parse_utc_datetime(part.as_str(), "%Y-%m-%d %H:%M:%S"));
        },
        None => {
            readings.push(None);
            readings.push(None);
        },
    }
    readings.push(parse_utc_datetime(t, "%Y-%m-%d %H:%M:%S"));
    readings.push(parse_utc_datetime(t, "%Y-%m-%dT%H:%M:%S"));
    readings.push(parse_offset_datetime(t, "%Y-%m-%dT%H:%M:%S%z"));
    readings.push(parse_utc_date(t, "%Y-%m-%d"));
    proof {
        let rs = readings@;
        reveal_with_fuel(first_reading, 8);
        let r1 = rs.drop_first();
        let r2 = r1.drop_first();
        let r3 = r2.drop_first();
        let r4 = r3.drop_first();
        let r5 = r4.drop_first();
        let r6 = r5.drop_first();
        assert(r6 =~= Seq::<Option<i64>>::empty());
        assert(r1[0] == rs[1] && r2[0] == rs[2] && r3[0] == rs[3] && r4[0] == rs[4] && r5[0] == rs[5]);
        assert(first_reading(r6, t@) == epoch_seconds(t@));
        assert(first_reading(r5, t@) == or_else(rs[5], epoch_seconds(t@)));
        assert(first_reading(r4, t@) == or_else(rs[4], first_reading(r5, t@)));
        assert(first_reading(r3, t@) == or_else(rs[3], first_reading(r4, t@)));
        assert(first_reading(r2, t@) == or_else(rs[2], first_reading(r3, t@)));
        assert(first_reading(r1, t@) == or_else(rs[1], first_reading(r2, t@)));
        assert(first_reading(rs, t@) == or_else(rs[0], first_reading(r1, t@)));
    }
    first_date_reading(readings.as_slice(), t)
}

/// What a page gives about one comment header: the header's text and `id` attribute, the text
/// and link target of its date link (empty and `None` without one), the formatted text of the
/// comment's content (empty without one), the date shown in local time, and where the id
/// occurs in the page.
#[derive(Clone, Debug, PartialEq, Eq)]
pub struct CommentHeader {
    /// Text of the header element.
    pub header_text: String,
    /// The header's `id` attribute.
    pub id: Option<String>,
    /// Text of the header's date link.
    pub date_text: String,
    /// Link target of the header's date link.
    pub date_href: Option<String>,
    /// Formatted text of the comment's content.
    pub content: String,
    /// The date converted to local time for display.
    pub local_date: String,
    /// Position of the id in the page, when it occurs.
    pub id_position: Option<usize>,
}

/// What holds for all comments of a page: the package, whether the page has a pinned section,
/// and where its "latest comments" heading is.
#[derive(Clone, Debug, PartialEq, Eq)]
pub struct CommentPage {
    /// Package whose page it is.
    pub pkgname: String,
    /// Whether the page has a "Pinned Comments" heading.
    pub has_pinned_section: bool,
    /// Position of the "latest comments" heading, when there is one.
    pub latest_comments_pos: Option<usize>,
}

/// Whether a header gives a comment: not when its content is empty and its author unknown.
pub open spec fn gives_comment(h: CommentHeader) -> bool {
    !(h.content@.len() == 0 && author_of(h.header_text@) == "Unknown"@)
}

/// The permalink of a header's date link.
pub open spec fn link_of(h: CommentHeader, pkgname: Seq<char>) -> Option<Seq<char>> {
    match h.date_href {
        Some(href) => Some(absolute_link(href@, pkgname)),
        None => None,
    }
}

/// A text, when present.
pub open spec fn opt_text(t: Option<String>) -> Option<Seq<char>> {
    match t {
        Some(x) => Some(x@),
        None => None,
    }
}

/// Whether `c` is the comment that header `h`, at position `index` among the page's headers,
/// gives: its author, local date, date in seconds, permalink, content, pinned flag, and its id
/// (else its permalink) as identifier.
pub open spec fn comment_of(h: CommentHeader, index: usize, page: CommentPage, c: AurComment) -> bool {
    &&& c.author@ == author_of(h.header_text@)
    &&& c.date@ == h.local_date@
    &&& c.date_timestamp == date_seconds(trim(h.date_text@))
    &&& opt_text(c.date_url) == link_of(h, page.pkgname@)
    &&& c.content@ == h.content@
    &&& c.pinned == pinned(
        h.id is Some,
        h.id_position,
        index,
        page.has_pinned_section,
        page.latest_comments_pos,
    )
    &&& opt_text(c.id) == match h.id {
        Some(i) => Some(i@),
        None => link_of(h, page.pkgname@),
    }
}

/// The comment a header gives, or `None` when its content is empty and its author unknown.
pub fn extract_comment_from_header(h: &CommentHeader, index: usize, page: &CommentPage) -> (r:
    Option<AurComment>)
    ensures
        match r {
            Some(c) => gives_comment(*h) && comment_of(*h, index, *page, c),
            None => !gives_comment(*h),
        },
{
    let author = comment_author(h.header_text.as_str());
    if h.content.as_str().is_empty() && crate::text::str_eq(author.as_str(), "Unknown") {
        return None;
    }
    let date_text = crate::text::trim_str(h.date_text.as_str());
    let date_url = match &h.date_href {
        Some(href) => Some(comment_date_url(href.as_str(), page.pkgname.as_str())),
        None => None,
    };
    let date_timestamp = parse_date_to_timestamp(date_text);
    let id_ref: Option<&str> = match &h.id {
        Some(i) => Some(i.as_str()),
        None => None,
    };
    let is_pinned = determine_pinned_status(
        id_ref,
        h.id_position,
        index,
        page.has_pinned_section,
        page.latest_comments_pos,
    );
    let id = match &h.id {
        Some(i) => Some(i.clone()),
        None => match &date_url {
            Some(u) => Some(u.clone()),
            None => None,
        },
    };
    Some(
        AurComment {
            id,
            author,
            date: h.local_date.clone(),
            date_timestamp,
            date_url,
            content: h.content.clone(),
            pinned: is_pinned,
        },
    )
}

/// The ids of headers, in order.
pub open spec fn ids_of(headers: Seq<CommentHeader>) -> Seq<Seq<char>>
    decreases headers.len(),
{
    if headers.len() == 0 {
        Seq::empty()
    } else {
        let before = ids_of(headers.drop_last());
        match headers.last().id {
            Some(i) => before.push(i@),
            None => before,
        }
    }
}

/// Whether header `k` is the first with its id (or has none).
pub open spec fn first_of_its_id(headers: Seq<CommentHeader>, k: int) -> bool {
    match headers[k].id {
        Some(i) => !ids_of(headers.take(k)).contains(i@),
        None => true,
    }
}

/// Positions of the headers that give the page's comments: the first header of each id (and
/// every header without one) that gives a comment.
pub open spec fn comment_headers(headers: Seq<CommentHeader>) -> Seq<int>
    decreases headers.len(),
{
    if headers.len() == 0 {
        Seq::empty()
    } else {
        let before = comment_headers(headers.drop_last());
        let k = headers.len() - 1;
        if first_of_its_id(headers, k) && gives_comment(headers[k]) {
            before.push(k)
        } else {
            before
        }
    }
}

/// The comments of a page in page order: from each header that is the first with its id (or
/// has none), the comment it gives; a header repeating an earlier id is skipped.
pub fn collect_comments(headers: &Vec<CommentHeader>, page: &CommentPage) -> (r: Vec<AurComment>)
    ensures
        r@.len() == comment_headers(headers@).len(),
        forall|i: int|
            #![trigger r@[i]]
            0 <= i < r@.len() ==> comment_of(
                headers@[comment_headers(headers@)[i]],
                comment_headers(headers@)[i] as usize,
                *page,
                r@[i],
            ),
{
    let ghost all = headers@;
    let mut seen: Vec<Vec<char>> = Vec::new();
    let mut out: Vec<AurComment> = Vec::new();
    let mut k: usize = 0;
    while k < headers.len()
        invariant
            k <= all.len(),
            all == headers@,
            crate::text::vv(seen@) == ids_of(all.take(k as int)),
            out@.len() == comment_headers(all.take(k as int)).len(),
            forall|i: int|
                #![trigger out@[i]]
                0 <= i < out@.len() ==> 0 <= comment_headers(all.take(k as int))[i] < k
                    && comment_of(
                    all[comment_headers(all.take(k as int))[i]],
                    comment_headers(all.take(k as int))[i] as usize,
                    *page,
                    out@[i],
                ),
        decreases all.len() - k,
    {
        let ghost pre = all.take(k as int);
        let ghost cur = all.take(k + 1);
        assert(cur.drop_last() =~= pre);
        assert(cur.last() == all[k as int]);
        assert(cur.take(k as int) =~= pre);
        let h = &headers[k];
        let fresh = match &h.id {
            Some(i) => {
                let ic = crate::text::to_chars(i.as_str());
                let known = crate::text::vec_contains(&seen, ic.as_slice());
                let ghost before = crate::text::vv(seen@);
                seen.push(ic);
                assert(crate::text::vv(seen@) =~= before.push(i@));
                !known
            },
            None => true,
        };
        assert(fresh == first_of_its_id(cur, k as int));
        let ghost old_out = out@;
        if fresh {
            match extract_comment_from_header(h, k, page) {
                Some(c) => {
                    out.push(c);
                    assert(comment_headers(cur) == comment_headers(pre).push(k as int));
                },
                None => {
                    assert(comment_headers(cur) == comment_headers(pre));
                },
            }
        } else {
            assert(comment_headers(cur) == comment_headers(pre));
        }
        assert forall|i: int| 0 <= i < out@.len() implies 0 <= #[trigger] comment_headers(cur)[i]
            < k + 1 && comment_of(
            all[comment_headers(cur)[i]],
            comment_headers(cur)[i] as usize,
            *page,
            out@[i],
        ) by {
            if i < old_out.len() {
                assert(out@[i] == old_out[i]);
                assert(comment_headers(cur)[i] == comment_headers(pre)[i]);
            }
        }
        k += 1;
    }
    assert(all.take(all.len() as int) =~= all);
    out
}

/// Whether every character is alphabetic.
pub open spec fn all_alphabetic(s: Seq<char>) -> bool {
    forall|i: int| 0 <= i < s.len() ==> crate::text::alphabetic(#[trigger] s[i])
}

/// Whether every character is upper-case or `-`.
pub open spec fn all_upper_or_dash(s: Seq<char>) -> bool {
    forall|i: int| 0 <= i < s.len() ==> crate::text::uppercase(#[trigger] s[i]) || s[i] == '-'
}

/// Whether a formatted zone name reads as an abbreviation: 3 to 6 bytes, alphabetic, and not
/// starting with `UTC`.
pub open spec fn zone_name_ok(z: Seq<char>) -> bool {
    3 <= crate::text::utf8_len(z) <= 6 && all_alphabetic(z) && !starts_with(z, "UTC"@)
}

/// The abbreviation a `TZ` setting gives: its part after the last `/`, when 3 to 6 bytes of
/// upper-case letters and `-`, cut at its first `-`, when that is 3 bytes or more and alphabetic.
pub open spec fn tz_abbreviation(tz: Seq<char>) -> Option<Seq<char>> {
    let name = match rfind_char(tz, '/') {
        Some(p) => tz.skip(p + 1),
        None => tz,
    };
    if 3 <= crate::text::utf8_len(name) <= 6 && all_upper_or_dash(name) {
        let abbr = match crate::text::find_char(name, '-') {
            Some(p) => name.take(p),
            None => name,
        };
        if crate::text::utf8_len(abbr) >= 3 && all_alphabetic(abbr) {
            Some(abbr)
        } else {
            None
        }
    } else {
        None
    }
}

/// Two-digit decimal notation of `m` (below 100).
pub open spec fn two_digits(m: nat) -> Seq<char> {
    if m < 10 {
        seq!['0'] + crate::error::decimal(m)
    } else {
        crate::error::decimal(m)
    }
}

/// A zone named by its offset from UTC, in seconds: `UTC`, or `UTC` with the signed whole hours
/// (the hours rounded toward zero, so `+0` for less than an hour behind) and, when not whole,
/// `:` and two digits of minutes.
pub open spec fn offset_label(offset: i32) -> Seq<char> {
    let a: nat = if offset < 0 {
        (-offset) as nat
    } else {
        offset as nat
    };
    let sign = if offset < 0 && a >= 3600 {
        "-"@
    } else {
        "+"@
    };
    let minutes: nat = (a % 3600) / 60;
    if offset == 0 {
        "UTC"@
    } else if minutes == 0 {
        "UTC"@ + sign + crate::error::decimal(a / 3600)
    } else {
        "UTC"@ + sign + crate::error::decimal(a / 3600) + ":"@ + two_digits(minutes)
    }
}

/// The label of a local time zone: its formatted name when that reads as an abbreviation, else
/// the abbreviation of the `TZ` setting, else the offset from UTC.
pub open spec fn zone_label(zone_text: Seq<char>, tz_env: Option<Seq<char>>, offset: i32) -> Seq<
    char,
> {
    if zone_name_ok(zone_text) {
        zone_text
    } else {
        match tz_env {
            Some(tz) => match tz_abbreviation(tz) {
                Some(a) => a,
                None => offset_label(offset),
            },
            None => offset_label(offset),
        }
    }
}

/// Whether every character of `v` is alphabetic.
fn chars_all_alphabetic(v: &[char]) -> (r: bool)
    ensures
        r == all_alphabetic(v@),
{
    let mut i: usize = 0;
    while i < v.len()
        invariant
            i <= v@.len(),
            forall|k: int| 0 <= k < i ==> crate::text::alphabetic(#[trigger] v@[k]),
        decreases v@.len() - i,
    {
        if !crate::text::char_is_alphabetic(v[i]) {
            return false;
        }
        i += 1;
    }
    true
}

/// Whether every character of `v` is upper-case or `-`.
fn chars_all_upper_or_dash(v: &[char]) -> (r: bool)
    ensures
        r == all_upper_or_dash(v@),
{
    let mut i: usize = 0;
    while i < v.len()
        invariant
            i <= v@.len(),
            forall|k: int| 0 <= k < i ==> crate::text::uppercase(#[trigger] v@[k]) || v@[k] == '-',
        decreases v@.len() - i,
    {
        if !(crate::text::char_is_uppercase(v[i]) || v[i] == '-') {
            return false;
        }
        i += 1;
    }
    true
}

/// Whether a byte length bound holds of `v`: `lo <= utf8_len(v) <= hi`.
fn utf8_len_within(v: &[char], lo: usize, hi: usize) -> (r: bool)
    requires
        hi < usize::MAX,
    ensures
        r == (lo <= crate::text::utf8_len(v@) <= hi),
{
    let n = crate::text::utf8_len_chars(v);
    lo <= n && n <= hi
}

/// The abbreviation of a `TZ` setting (see `tz_abbreviation`).
fn tz_abbreviation_chars(tz: &[char]) -> (r: Option<Vec<char>>)
    ensures
        match r {
            Some(a) => tz_abbreviation(tz@) == Some(a@),
            None => tz_abbreviation(tz@) is None,
        },
{
    let name = match rfind_char_in(tz, '/') {
        Some(p) => {
            let n = tz.len();
            assert(p < n);
            let s = crate::text::slice_chars(tz, p + 1, n);
            assert(s@ =~= tz@.skip(p + 1));
            s
        },
        None => crate::text::slice_chars(tz, 0, tz.len()),
    };
    assert(tz@.subrange(0, tz@.len() as int) =~= tz@);
    if !(utf8_len_within(name.as_slice(), 3, 6) && chars_all_upper_or_dash(name.as_slice())) {
        return None;
    }
    let abbr = match crate::text::find_char_in(name.as_slice(), '-') {
        Some(p) => {
            let s = crate::text::slice_chars(name.as_slice(), 0, p);
            assert(s@ =~= name@.take(p as int));
            s
        },
        None => name,
    };
    if crate::text::utf8_len_chars(abbr.as_slice()) >= 3 && chars_all_alphabetic(abbr.as_slice()) {
        Some(abbr)
    } else {
        None
    }
}

/// Two-digit decimal notation of `m`.
fn two_digit_chars(m: u64) -> (r: Vec<char>)
    requires
        m < 100,
    ensures
        r@ == two_digits(m as nat),
{
    let d = crate::error::decimal_chars(m);
    if m < 10 {
        let mut v = Vec::new();
        v.push('0');
        crate::text::extend_chars(&mut v, d.as_slice());
        assert(v@ =~= seq!['0'] + crate::error::decimal(m as nat));
        v
    } else {
        d
    }
}

/// The label of a local time zone, from the zone name that formatting gave (`%Z`), the `TZ`
/// setting if any, and the offset from UTC in seconds (see `zone_label`).
pub fn get_timezone_abbreviation(zone_text: &str, tz_env: Option<&str>, offset_secs: i32) -> (r:
    String)
    ensures
        r@ == zone_label(
            zone_text@,
            match tz_env {
                Some(t) => Some(t@),
                None => None,
            },
            offset_secs,
        ),
{
    let z = to_chars(zone_text);
    if utf8_len_within(z.as_slice(), 3, 6) && chars_all_alphabetic(z.as_slice())
        && !crate::text::starts_with_str(z.as_slice(), "UTC") {
        return zone_text.to_owned();
    }
    if let Some(t) = tz_env {
        let tc = to_chars(t);
        if let Some(a) = tz_abbreviation_chars(tc.as_slice()) {
            return crate::text::chars_to_string(a.as_slice());
        }
    }
    let a: u64 = if offset_secs < 0 {
        (-(offset_secs as i64)) as u64
    } else {
        offset_secs as u64
    };
    let minutes = (a % 3600) / 60;
    let mut v = to_chars("UTC");
    if offset_secs == 0 {
        return crate::text::chars_to_string(v.as_slice());
    }
    if offset_secs < 0 && a >= 3600 {
        v.push('-');
    } else {
        v.push('+');
    }
    let h = crate::error::decimal_chars(a / 3600);
    crate::text::extend_chars(&mut v, h.as_slice());
    if minutes != 0 {
        v.push(':');
        let m = two_digit_chars(minutes);
        crate::text::extend_chars(&mut v, m.as_slice());
    }
    proof {
        reveal_strlit("UTC");
        reveal_strlit("-");
        reveal_strlit("+");
        reveal_strlit(":");
    }
    let ghost sign = if offset_secs < 0 && a >= 3600 {
        "-"@
    } else {
        "+"@
    };
    assert(a as nat == (if offset_secs < 0 {
        (-offset_secs) as nat
    } else {
        offset_secs as nat
    }));
    if minutes == 0 {
        assert(v@ =~= "UTC"@ + sign + crate::error::decimal((a / 3600) as nat));
    } else {
        assert(v@ =~= "UTC"@ + sign + crate::error::decimal((a / 3600) as nat) + ":"@ + two_digits(
            minutes as nat,
        ));
    }
    crate::text::chars_to_string(v.as_slice())
}

/// The markup an element of a comment's content takes.
#[derive(Clone, Copy, Debug, PartialEq, Eq)]
pub enum MarkupKind {
    /// `<pre>`: a fenced code block.
    CodeBlock,
    /// `<a>`: a link.
    Link,
    /// `<strong>` or `<b>`.
    Bold,
    /// `<em>` or `<i>`.
    Italic,
    /// `<code>`.
    Code,
}

/// An element of a comment's content, as the HTML reader gives it: its kind, its HTML as the
/// reader writes it, its text, and its link target.
#[derive(Clone, Debug, PartialEq, Eq)]
pub struct MarkupElement {
    /// Kind of markup.
    pub kind: MarkupKind,
    /// The element's HTML.
    pub html: String,
    /// The element's text.
    pub text: String,
    /// The `href` attribute.
    pub href: Option<String>,
}

/// What replaces an element's HTML: a code block fenced by three backticks on lines of their
/// own; a link `[text](href)` (none without `href`); the text between `**`, `*` or a backtick
/// for bold, italic and code (none when the text is blank). Texts are trimmed.
pub open spec fn markup_replacement(e: MarkupElement) -> Option<Seq<char>> {
    let t = trim(e.text@);
    match e.kind {
        MarkupKind::CodeBlock => Some("```\n"@ + t + "\n```"@),
        MarkupKind::Link => match e.href {
            Some(h) => Some("["@ + t + "]("@ + h@ + ")"@),
            None => None,
        },
        MarkupKind::Bold => if t.len() > 0 {
            Some("**"@ + t + "**"@)
        } else {
            None
        },
        MarkupKind::Italic => if t.len() > 0 {
            Some("*"@ + t + "*"@)
        } else {
            None
        },
        MarkupKind::Code => if t.len() > 0 {
            Some("`"@ + t + "`"@)
        } else {
            None
        },
    }
}

/// `html` with the HTML of each element, in order, replaced by its markup.
pub open spec fn apply_markup(html: Seq<char>, elements: Seq<MarkupElement>) -> Seq<char>
    decreases elements.len(),
{
    if elements.len() == 0 {
        html
    } else {
        let before = apply_markup(html, elements.drop_last());
        match markup_replacement(elements.last()) {
            Some(r) => crate::text::replace_all(before, elements.last().html@, r),
            None => before,
        }
    }
}

/// `prefix`, then `middle`, then `suffix`.
fn surround(prefix: &str, middle: &[char], suffix: &str) -> (r: Vec<char>)
    ensures
        r@ == prefix@ + middle@ + suffix@,
{
    let mut v = to_chars(prefix);
    crate::text::extend_chars(&mut v, middle);
    let t = to_chars(suffix);
    crate::text::extend_chars(&mut v, t.as_slice());
    v
}

/// The markup of one element (see `markup_replacement`).
fn replacement_of(e: &MarkupElement) -> (r: Option<Vec<char>>)
    ensures
        match r {
            Some(v) => markup_replacement(*e) == Some(v@),
            None => markup_replacement(*e) is None,
        },
{
    let tc = to_chars(e.text.as_str());
    let t = crate::text::trim_chars(tc.as_slice());
    match e.kind {
        MarkupKind::CodeBlock => Some(surround("```\n", t.as_slice(), "\n```")),
        MarkupKind::Link => match &e.href {
            Some(h) => {
                let mut v = surround("[", t.as_slice(), "](");
                let hc = to_chars(h.as_str());
                crate::text::extend_chars(&mut v, hc.as_slice());
                let close = to_chars(")");
                crate::text::extend_chars(&mut v, close.as_slice());
                Some(v)
            },
            None => None,
        },
        MarkupKind::Bold => if t.len() > 0 {
            Some(surround("**", t.as_slice(), "**"))
        } else {
            None
        },
        MarkupKind::Italic => if t.len() > 0 {
            Some(surround("*", t.as_slice(), "*"))
        } else {
            None
        },
        MarkupKind::Code => if t.len() > 0 {
            Some(surround("`", t.as_slice(), "`"))
        } else {
            None
        },
    }
}

/// The HTML of a comment's content with its code blocks, links, bold, italic and code
/// replaced, element by element in the order given, by their markup (see `apply_markup`).
pub fn format_markup(html: &str, elements: &Vec<MarkupElement>) -> (r: String)
    ensures
        r@ == apply_markup(html@, elements@),
{
    let mut out = to_chars(html);
    let mut k: usize = 0;
    while k < elements.len()
        invariant
            k <= elements@.len(),
            out@ == apply_markup(html@, elements@.take(k as int)),
        decreases elements@.len() - k,
    {
        assert(elements@.take(k + 1).drop_last() =~= elements@.take(k as int));
        assert(elements@.take(k + 1).last() == elements@[k as int]);
        let e = &elements[k];
        match replacement_of(e) {
            Some(r) => {
                let hc = to_chars(e.html.as_str());
                out = crate::text::replace_chars(out.as_slice(), hc.as_slice(), r.as_slice());
            },
            None => {},
        }
        k += 1;
    }
    assert(elements@.take(elements@.len() as int) =~= elements@);
    crate::text::chars_to_string(out.as_slice())
}

/// Line breaks of a comment's text: `<br>`, `<br/>` and `<br />` (in that order) become
/// newlines.
pub open spec fn with_line_breaks(text: Seq<char>) -> Seq<char> {
    crate::text::replace_all(
        crate::text::replace_all(crate::text::replace_all(text, "<br>"@, "\n"@), "<br/>"@, "\n"@),
        "<br />"@,
        "\n"@,
    )
}

/// A comment's text with `<br>`, `<br/>` and `<br />` turned into newlines.
pub fn restore_line_breaks(text: &str) -> (r: String)
    ensures
        r@ == with_line_breaks(text@),
{
    let t = to_chars(text);
    let nl = to_chars("\n");
    let a = crate::text::replace_chars(t.as_slice(), to_chars("<br>").as_slice(), nl.as_slice());
    let b = crate::text::replace_chars(a.as_slice(), to_chars("<br/>").as_slice(), nl.as_slice());
    let c = crate::text::replace_chars(b.as_slice(), to_chars("<br />").as_slice(), nl.as_slice());
    crate::text::chars_to_string(c.as_slice())
}

} // verus!
