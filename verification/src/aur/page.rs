//! Reading the comments of an AUR package page. `scraper` parses the HTML and answers which
//! elements a selector picks, their text and their attributes; the library decides which
//! elements are read, builds the comment headers from them and assembles the comments.
use crate::aur::comments::{
    apply_markup, collect_comments, comment_headers, comment_of, comment_order, format_markup,
    restore_line_breaks, separate_and_sort_comments, with_line_breaks, CommentHeader,
    CommentPage, MarkupElement, MarkupKind,
};
use crate::error::ArchToolkitError;
use crate::types::AurComment;
use crate::text::{contains, find, lowercase, sv, to_chars, utf8_len};
use vstd::prelude::*;

verus! {

/// Outer HTML of each element of the document `html` that the selector `css` picks, in
/// document order, as `scraper` parses them; `None` when `css` is not a valid selector.
pub uninterp spec fn document_elements(html: Seq<char>, css: Seq<char>) -> Option<Seq<Seq<char>>>;

/// Outer HTML of each element of the fragment `html` that the selector `css` picks, in order,
/// as `scraper` parses them; `None` when `css` is not a valid selector.
pub uninterp spec fn fragment_elements(html: Seq<char>, css: Seq<char>) -> Option<Seq<Seq<char>>>;

/// The text of the fragment `html`, as `scraper` collects it.
pub uninterp spec fn fragment_text_of(html: Seq<char>) -> Seq<char>;

/// Attribute `attr` of the first element of the fragment `html` that the selector `css` picks,
/// as `scraper` reads it; `None` without such an element or attribute, or for an invalid
/// selector.
pub uninterp spec fn fragment_attribute(html: Seq<char>, css: Seq<char>, attr: Seq<char>) -> Option<
    Seq<char>,
>;

/// `scraper::Html::parse_document` and `select`: the outer HTML of the picked elements.
#[verifier::external_body]
fn select_document(html: &str, css: &str) -> (r: Option<Vec<String>>)
    ensures
        match r {
            Some(v) => document_elements(html@, css@) == Some(sv(v@)),
            None => document_elements(html@, css@) is None,
        },
{
    let selector = scraper::Selector::parse(css).ok()?;
    Some(scraper::Html::parse_document(html).select(&selector).map(|e| e.html()).collect())
}

/// `scraper::Html::parse_fragment` and `select`: the outer HTML of the picked elements.
#[verifier::external_body]
fn select_fragment(html: &str, css: &str) -> (r: Option<Vec<String>>)
    ensures
        match r {
            Some(v) => fragment_elements(html@, css@) == Some(sv(v@)),
            None => fragment_elements(html@, css@) is None,
        },
{
    let selector = scraper::Selector::parse(css).ok()?;
    Some(scraper::Html::parse_fragment(html).select(&selector).map(|e| e.html()).collect())
}

/// `scraper::Html::parse_fragment`, then the text of its root element.
#[verifier::external_body]
fn fragment_text(html: &str) -> (r: String)
    ensures
        r@ == fragment_text_of(html@),
{
    scraper::Html::parse_fragment(html).root_element().text().collect()
}

/// `scraper::Html::parse_fragment`, `select` and `attr`: an attribute of the first picked
/// element.
#[verifier::external_body]
fn first_attribute(html: &str, css: &str, attr: &str) -> (r: Option<String>)
    ensures
        crate::aur::comments::opt_text(r) == fragment_attribute(html@, css@, attr@),
{
    let selector = scraper::Selector::parse(css).ok()?;
    let fragment = scraper::Html::parse_fragment(html);
    let element = fragment.select(&selector).next()?;
    element.value().attr(attr).map(str::to_string)
}

/// A markup element as plain values: kind, HTML, text and link target.
pub open spec fn markup_view(m: MarkupElement) -> (MarkupKind, Seq<char>, Seq<char>, Option<Seq<char>>) {
    (m.kind, m.html@, m.text@, crate::aur::comments::opt_text(m.href))
}

/// Views of markup elements.
pub open spec fn markup_views(ms: Seq<MarkupElement>) -> Seq<
    (MarkupKind, Seq<char>, Seq<char>, Option<Seq<char>>),
> {
    ms.map_values(|m: MarkupElement| markup_view(m))
}

/// The elements of fragment `html` that `css` picks, as markup of kind `kind`.
pub open spec fn kind_elements(html: Seq<char>, css: Seq<char>, kind: MarkupKind) -> Seq<
    (MarkupKind, Seq<char>, Seq<char>, Option<Seq<char>>),
> {
    match fragment_elements(html, css) {
        Some(hs) => hs.map_values(
            |h: Seq<char>| (kind, h, fragment_text_of(h), fragment_attribute(h, css, "href"@)),
        ),
        None => Seq::empty(),
    }
}

/// The markup elements of fragment `html`: its code blocks, links, bold, italic and code, in
/// that order.
pub open spec fn markup_of(html: Seq<char>) -> Seq<(MarkupKind, Seq<char>, Seq<char>, Option<Seq<char>>)> {
    kind_elements(html, "pre"@, MarkupKind::CodeBlock) + kind_elements(html, "a"@, MarkupKind::Link)
        + kind_elements(html, "strong, b"@, MarkupKind::Bold) + kind_elements(
        html,
        "em, i"@,
        MarkupKind::Italic,
    ) + kind_elements(html, "code"@, MarkupKind::Code)
}

/// Lemma: the markup applied to a text depends on the elements' views alone.
proof fn lemma_apply_markup_views(html: Seq<char>, a: Seq<MarkupElement>, b: Seq<MarkupElement>)
    requires
        markup_views(a) == markup_views(b),
    ensures
        apply_markup(html, a) == apply_markup(html, b),
    decreases a.len(),
{
    assert(a.len() == markup_views(a).len() && b.len() == markup_views(b).len());
    if a.len() > 0 {
        assert(markup_views(a.drop_last()) =~= markup_views(b.drop_last())) by {
            assert forall|i: int| 0 <= i < a.len() - 1 implies markup_views(a.drop_last())[i]
                == markup_views(b.drop_last())[i] by {
                assert(markup_views(a)[i] == markup_views(b)[i]);
            }
        }
        lemma_apply_markup_views(html, a.drop_last(), b.drop_last());
        assert(markup_views(a)[a.len() - 1] == markup_views(b)[b.len() - 1]);
    }
}

/// The text of a fragment with markup: its markup elements replaced (see `apply_markup`), the
/// text of the result, and its line breaks restored.
pub open spec fn markup_text(html: Seq<char>) -> Seq<char> {
    let els = choose|els: Seq<MarkupElement>| markup_views(els) == markup_of(html);
    with_line_breaks(fragment_text_of(apply_markup(html, els)))
}

/// The formatted text of a comment's content: its paragraphs separated by blank lines, or the
/// whole content when it has none.
pub open spec fn content_text(html: Seq<char>) -> Seq<char> {
    match fragment_elements(html, "p"@) {
        Some(ps) => if ps.len() > 0 {
            crate::text::join_sep(ps.map_values(|p: Seq<char>| markup_text(p)), "\n\n"@)
        } else {
            markup_text(html)
        },
        None => markup_text(html),
    }
}

/// Adds the elements of `html` that `css` picks, as markup of kind `kind`.
fn push_kind_elements(out: &mut Vec<MarkupElement>, html: &str, css: &str, kind: MarkupKind)
    ensures
        markup_views(final(out)@) == markup_views(old(out)@) + kind_elements(html@, css@, kind),
{
    match select_fragment(html, css) {
        Some(hs) => {
            let ghost o = markup_views(out@);
            let ghost want = kind_elements(html@, css@, kind);
            let mut i: usize = 0;
            while i < hs.len()
                invariant
                    i <= hs@.len(),
                    want.len() == hs@.len(),
                    fragment_elements(html@, css@) == Some(sv(hs@)),
                    want == kind_elements(html@, css@, kind),
                    markup_views(out@) == o + want.take(i as int),
                decreases hs@.len() - i,
            {
                let h = hs[i].as_str();
                let text = fragment_text(h);
                let href = first_attribute(h, css, "href");
                let ghost before = markup_views(out@);
                out.push(MarkupElement { kind, html: h.to_owned(), text, href });
                proof {
                    assert(sv(hs@)[i as int] == h@);
                    assert(want[i as int] == (kind, h@, fragment_text_of(h@), fragment_attribute(
                        h@,
                        css@,
                        "href"@,
                    )));
                    assert(markup_views(out@) =~= before.push(want[i as int]));
                    assert(want.take(i + 1) =~= want.take(i as int).push(want[i as int]));
                }
                i += 1;
            }
            assert(want.take(hs@.len() as int) =~= want);
        },
        None => {
            assert(markup_views(old(out)@) + kind_elements(html@, css@, kind) =~= markup_views(
                old(out)@,
            ));
        },
    }
}

/// The text of a fragment with markup (see `markup_text`).
fn format_text_node(html: &str) -> (r: String)
    ensures
        r@ == markup_text(html@),
{
    let mut els: Vec<MarkupElement> = Vec::new();
    assert(markup_views(els@) =~= Seq::empty());
    push_kind_elements(&mut els, html, "pre", MarkupKind::CodeBlock);
    push_kind_elements(&mut els, html, "a", MarkupKind::Link);
    push_kind_elements(&mut els, html, "strong, b", MarkupKind::Bold);
    push_kind_elements(&mut els, html, "em, i", MarkupKind::Italic);
    push_kind_elements(&mut els, html, "code", MarkupKind::Code);
    let marked = format_markup(html, &els);
    let text = fragment_text(marked.as_str());
    proof {
        assert(markup_views(els@) =~= markup_of(html@));
        let c = choose|c: Seq<MarkupElement>| markup_views(c) == markup_of(html@);
        lemma_apply_markup_views(html@, els@, c);
    }
    restore_line_breaks(text.as_str())
}

/// The formatted text of a comment's content (see `content_text`).
fn html_to_formatted_text(html: &str) -> (r: String)
    ensures
        r@ == content_text(html@),
{
    if let Some(ps) = select_fragment(html, "p") {
        if ps.len() > 0 {
            let ghost want = sv(ps@).map_values(|p: Seq<char>| markup_text(p));
            let mut parts: Vec<Vec<char>> = Vec::new();
            let mut i: usize = 0;
            while i < ps.len()
                invariant
                    i <= ps@.len(),
                    want == sv(ps@).map_values(|p: Seq<char>| markup_text(p)),
                    crate::text::vv(parts@) == want.take(i as int),
                decreases ps@.len() - i,
            {
                let t = format_text_node(ps[i].as_str());
                let ghost before = crate::text::vv(parts@);
                parts.push(to_chars(t.as_str()));
                proof {
                    assert(crate::text::vv(parts@) =~= before.push(want[i as int]));
                    assert(want.take(i + 1) =~= want.take(i as int).push(want[i as int]));
                }
                i += 1;
            }
            assert(want.take(ps@.len() as int) =~= want);
            let joined = crate::text::join_sep_chars(&parts, "\n\n");
            return crate::text::chars_to_string(joined.as_slice());
        }
    }
    format_text_node(html)
}

/// Byte offset of the first occurrence of `pat` in `s`, as `str::find` gives it.
pub open spec fn byte_find(s: Seq<char>, pat: Seq<char>) -> Option<int> {
    match find(s, pat) {
        Some(p) => Some(utf8_len(s.take(p)) as int),
        None => None,
    }
}

/// `byte_find`, for offsets that fit a `usize`.
fn byte_position(s: &[char], pat: &[char]) -> (r: Option<usize>)
    ensures
        match r {
            Some(p) => byte_find(s@, pat@) == Some(p as int) && p < usize::MAX,
            None => byte_find(s@, pat@) is None || byte_find(s@, pat@).unwrap() >= usize::MAX,
        },
{
    match crate::text::find_chars(s, pat) {
        Some(p) => {
            let prefix = crate::text::slice_chars(s, 0, p);
            let n = crate::text::utf8_len_chars(prefix.as_slice());
            assert(prefix@ =~= s@.take(p as int));
            assert(byte_find(s@, pat@) == Some(utf8_len(s@.take(p as int)) as int));
            if n == usize::MAX {
                None
            } else {
                Some(n)
            }
        },
        None => None,
    }
}

/// A comment header as plain values: its text, id, date text, date link, formatted content and
/// the offset of its id in the page.
pub open spec fn header_view(h: CommentHeader) -> (Seq<char>, Option<Seq<char>>, Seq<char>, Option<Seq<char>>, Seq<char>, Option<usize>) {
    (
        h.header_text@,
        crate::aur::comments::opt_text(h.id),
        h.date_text@,
        crate::aur::comments::opt_text(h.date_href),
        h.content@,
        h.id_position,
    )
}

/// What the page `page` gives about the comment header whose HTML is `h`: its text; its `id`;
/// the text and link of its first `a.date` element (empty text and no link without one); the
/// formatted content of the element `div#comment-N-content` when the id is `comment-N` (empty
/// otherwise); and where the id first occurs in the page.
pub open spec fn header_of(page: Seq<char>, h: Seq<char>) -> (Seq<char>, Option<Seq<char>>, Seq<char>, Option<Seq<char>>, Seq<char>, Option<int>) {
    let id = fragment_attribute(h, "h4.comment-header"@, "id"@);
    let (date_text, date_href) = match fragment_elements(h, "a.date"@) {
        Some(ds) => if ds.len() > 0 {
            (fragment_text_of(ds[0]), fragment_attribute(ds[0], "a.date"@, "href"@))
        } else {
            (Seq::empty(), None)
        },
        None => (Seq::empty(), None),
    };
    let content = match id {
        Some(i) => if i.len() >= 8 && i.take(8) == "comment-"@ {
            match document_elements(page, "div#comment-"@ + i.skip(8) + "-content"@) {
                Some(cs) => if cs.len() > 0 {
                    content_text(cs[0])
                } else {
                    Seq::empty()
                },
                None => Seq::empty(),
            }
        } else {
            Seq::empty()
        },
        None => Seq::empty(),
    };
    let pos = match id {
        Some(i) => byte_find(page, i),
        None => None,
    };
    (fragment_text_of(h), id, date_text, date_href, content, pos)
}

/// An offset that fits a `usize`, or none.
pub open spec fn fitting(p: Option<int>) -> Option<usize> {
    match p {
        Some(x) => if 0 <= x < usize::MAX {
            Some(x as usize)
        } else {
            None
        },
        None => None,
    }
}

/// Whether header `h` carries what the page gives about the header whose HTML is `html`.
pub open spec fn header_matches(h: CommentHeader, page: Seq<char>, html: Seq<char>) -> bool {
    let v = header_of(page, html);
    header_view(h) == (v.0, v.1, v.2, v.3, v.4, fitting(v.5))
}

/// The formatted content of the comment whose header has id `id` (see `header_of`).
fn content_of(page: &str, id: &Option<String>) -> (r: String)
    ensures
        match id {
            Some(i) => r@ == (if i@.len() >= 8 && i@.take(8) == "comment-"@ {
                match document_elements(page@, "div#comment-"@ + i@.skip(8) + "-content"@) {
                    Some(cs) => if cs.len() > 0 {
                        content_text(cs[0])
                    } else {
                        Seq::empty()
                    },
                    None => Seq::empty(),
                }
            } else {
                Seq::empty()
            }),
            None => r@ == Seq::<char>::empty(),
        },
{
    if let Some(i) = id {
        let ic = to_chars(i.as_str());
        proof {
            reveal_strlit("comment-");
        }
        if crate::text::starts_with_str(ic.as_slice(), "comment-") {
            let n = crate::text::slice_chars(ic.as_slice(), 8, ic.len());
            let mut css = to_chars("div#comment-");
            crate::text::extend_chars(&mut css, n.as_slice());
            let tail = to_chars("-content");
            crate::text::extend_chars(&mut css, tail.as_slice());
            let selector = crate::text::chars_to_string(css.as_slice());
            proof {
                assert(n@ =~= i@.skip(8));
            }
            if let Some(cs) = select_document(page, selector.as_str()) {
                if cs.len() > 0 {
                    assert(sv(cs@)[0] == cs@[0]@);
                    return html_to_formatted_text(cs[0].as_str());
                }
            }
        }
    }
    String::new()
}

/// The header of a comment: what the page gives about its HTML `html`, and `local_date`.
fn header_from(page: &str, html: &str, local_date: String) -> (r: CommentHeader)
    ensures
        header_matches(r, page@, html@),
        r.local_date == local_date,
{
    let id = first_attribute(html, "h4.comment-header", "id");
    let (date_text, date_href) = match select_fragment(html, "a.date") {
        Some(ds) => if ds.len() > 0 {
            assert(sv(ds@)[0] == ds@[0]@);
            (fragment_text(ds[0].as_str()), first_attribute(ds[0].as_str(), "a.date", "href"))
        } else {
            (String::new(), None)
        },
        None => (String::new(), None),
    };
    let content = content_of(page, &id);
    let id_position = match &id {
        Some(i) => {
            let pc = to_chars(page);
            let ic = to_chars(i.as_str());
            byte_position(pc.as_slice(), ic.as_slice())
        },
        None => None,
    };
    let r = CommentHeader {
        header_text: fragment_text(html),
        id,
        date_text,
        date_href,
        content,
        local_date,
        id_position,
    };
    proof {
        let v = header_of(page@, html@);
        assert(fitting(v.5) == r.id_position);
    }
    r
}

/// Whether the page has a heading (`h2`, `h3` or `h4`) whose text holds "Pinned Comments".
pub open spec fn pinned_section_of(page: Seq<char>) -> bool {
    match document_elements(page, "h3, h2, h4"@) {
        Some(hs) => exists|i: int| 0 <= i < hs.len() && contains(fragment_text_of(#[trigger] hs[i]), "Pinned Comments"@),
        None => false,
    }
}

/// Whether `cs` lists the comments that headers `hs` give on page `pg` (see `collect_comments`),
/// in listing order (see `separate_and_sort_comments`).
pub open spec fn listing_of(cs: Seq<AurComment>, hs: Seq<CommentHeader>, pg: CommentPage) -> bool {
    exists|cc: Seq<AurComment>|
        {
            &&& cc.len() == comment_headers(hs).len()
            &&& forall|i: int|
                #![trigger cc[i]]
                0 <= i < cc.len() ==> comment_of(hs[comment_headers(hs)[i]], comment_headers(hs)[i] as usize, pg, cc[i])
            &&& cs.to_multiset() == cc.to_multiset()
            &&& forall|i: int, j: int|
                0 <= i < j < cs.len() ==> comment_order(#[trigger] cs[i], #[trigger] cs[j]) != crate::text::Order::Greater
        }
}

/// Whether `cs` are the comments of page `page` of package `pkgname`, read through headers `hs`
/// (one per `h4.comment-header` element, dated by `local_date`) on the page description `pg`.
pub open spec fn page_comments<F: Fn(String) -> String>(
    page: Seq<char>,
    pkgname: Seq<char>,
    local_date: F,
    cs: Seq<AurComment>,
    hs: Seq<CommentHeader>,
    pg: CommentPage,
) -> bool {
    let rows = document_elements(page, "h4.comment-header"@)->0;
    &&& hs.len() == rows.len()
    &&& forall|i: int|
        0 <= i < hs.len() ==> header_matches(#[trigger] hs[i], page, rows[i]) && exists|d: String|
            d@ == hs[i].date_text@ && local_date.ensures((d,), hs[i].local_date)
    &&& pg.pkgname@ == pkgname
    &&& pg.has_pinned_section == pinned_section_of(page)
    &&& pg.latest_comments_pos == fitting(byte_find(lowercase(page), "latest comments"@))
    &&& listing_of(cs, hs, pg)
}

/// The comments of the AUR page `html_text` of `pkgname`, pinned first, each group latest
/// first. Each `h4.comment-header` element gives a header (see `header_of`), whose date text
/// `local_date` turns into the date shown; the page has a pinned section when a heading says
/// "Pinned Comments", and its latest comments start where "latest comments" first occurs in the
/// lower-cased page. Fails when the header or heading selector does not parse.
pub fn parse_comments_html<F: Fn(String) -> String>(html_text: &str, pkgname: &str, local_date: F) -> (r:
    Result<Vec<AurComment>, ArchToolkitError>)
    requires
        forall|s: String| local_date.requires((s,)),
    ensures
        r is Err <==> (document_elements(html_text@, "h4.comment-header"@) is None || document_elements(
            html_text@,
            "h3, h2, h4"@,
        ) is None),
        r matches Ok(cs) ==> exists|hs: Seq<CommentHeader>, pg: CommentPage|
            #[trigger] page_comments(html_text@, pkgname@, local_date, cs@, hs, pg),
{
    let rows = match select_document(html_text, "h4.comment-header") {
        Some(v) => v,
        None => {
            return Err(ArchToolkitError::Parse("Failed to parse comment header selector".to_owned()));
        },
    };
    let headings = match select_document(html_text, "h3, h2, h4") {
        Some(v) => v,
        None => {
            return Err(ArchToolkitError::Parse("Failed to parse heading selector".to_owned()));
        },
    };
    let mut has_pinned_section = false;
    let mut k: usize = 0;
    while k < headings.len()
        invariant
            k <= headings@.len(),
            document_elements(html_text@, "h3, h2, h4"@) == Some(sv(headings@)),
            has_pinned_section <==> exists|i: int|
                0 <= i < k && contains(fragment_text_of(#[trigger] sv(headings@)[i]), "Pinned Comments"@),
        decreases headings@.len() - k,
    {
        let t = fragment_text(headings[k].as_str());
        let tc = to_chars(t.as_str());
        if crate::text::contains_str(tc.as_slice(), "Pinned Comments") {
            has_pinned_section = true;
        }
        proof {
            assert(sv(headings@)[k as int] == headings@[k as int]@);
        }
        k += 1;
    }
    let lower = crate::text::str_to_lowercase(html_text);
    let lc = to_chars(lower.as_str());
    let pat = to_chars("latest comments");
    let latest_comments_pos = byte_position(lc.as_slice(), pat.as_slice());
    let mut headers: Vec<CommentHeader> = Vec::new();
    let mut i: usize = 0;
    while i < rows.len()
        invariant
            i <= rows@.len(),
            forall|s: String| local_date.requires((s,)),
            document_elements(html_text@, "h4.comment-header"@) == Some(sv(rows@)),
            headers@.len() == i,
            forall|j: int|
                0 <= j < i ==> header_matches(#[trigger] headers@[j], html_text@, sv(rows@)[j])
                    && exists|d: String| d@ == headers@[j].date_text@ && local_date.ensures((d,), headers@[j].local_date),
        decreases rows@.len() - i,
    {
        let h = rows[i].as_str();
        let probe = header_from(html_text, h, String::new());
        let d = probe.date_text.clone();
        let ghost dv = d;
        let local = local_date(d);
        let header = CommentHeader { local_date: local, ..probe };
        proof {
            assert(sv(rows@)[i as int] == h@);
            assert(header_view(header) == header_view(probe));
            assert(dv@ == header.date_text@ && local_date.ensures((dv,), header.local_date));
        }
        headers.push(header);
        i += 1;
    }
    let page = CommentPage {
        pkgname: pkgname.to_owned(),
        has_pinned_section,
        latest_comments_pos,
    };
    let collected = collect_comments(&headers, &page);
    let ghost cc = collected@;
    let sorted = separate_and_sort_comments(collected);
    proof {
        let hs = sv(headings@);
        assert(hs.len() == headings@.len());
        if has_pinned_section {
            let i = choose|i: int| 0 <= i < k && contains(fragment_text_of(#[trigger] hs[i]), "Pinned Comments"@);
            assert(0 <= i < hs.len() && contains(fragment_text_of(hs[i]), "Pinned Comments"@));
        }
        if pinned_section_of(html_text@) {
            let i = choose|i: int| 0 <= i < hs.len() && contains(fragment_text_of(#[trigger] hs[i]), "Pinned Comments"@);
            assert(0 <= i < k);
        }
        assert(page.has_pinned_section == pinned_section_of(html_text@));
        assert(listing_of(sorted@, headers@, page));
        let rs = document_elements(html_text@, "h4.comment-header"@)->0;
        assert(rs == sv(rows@));
        assert(headers@.len() == rs.len());
        assert(page.latest_comments_pos == fitting(byte_find(lowercase(html_text@), "latest comments"@)));
        assert(forall|i: int|
            0 <= i < headers@.len() ==> header_matches(#[trigger] headers@[i], html_text@, rs[i])
                && exists|d: String| d@ == headers@[i].date_text@ && local_date.ensures((d,), headers@[i].local_date));
        assert(page_comments(html_text@, pkgname@, local_date, sorted@, headers@, page));
        assert(exists|hs: Seq<CommentHeader>, pg: CommentPage|
            #[trigger] page_comments(html_text@, pkgname@, local_date, sorted@, hs, pg));
    }
    let r: Result<Vec<AurComment>, ArchToolkitError> = Ok(sorted);
    assert(r is Ok);
    assert(r->Ok_0@ == sorted@);
    assert(page_comments(html_text@, pkgname@, local_date, r->Ok_0@, headers@, page));
    r
}

} // verus!
