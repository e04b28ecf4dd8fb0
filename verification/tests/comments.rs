use arch_toolkit::aur::comments::{
    collect_comments, comment_author, comment_date_url, determine_pinned_status,
    extract_comment_from_header, first_date_reading, format_markup, get_timezone_abbreviation,
    parse_date_to_timestamp, restore_line_breaks, MarkupElement, MarkupKind,
    separate_and_sort_comments, CommentHeader, CommentPage,
};
use arch_toolkit::types::AurComment;

fn comment(author: &str, date: &str, ts: Option<i64>, pinned: bool) -> AurComment {
    AurComment {
        id: None,
        author: author.to_string(),
        date: date.to_string(),
        date_timestamp: ts,
        date_url: None,
        content: String::new(),
        pinned,
    }
}

#[test]
fn authors_are_read_from_headers() {
    assert_eq!(comment_author("  alice commented on 2024-01-01 10:00 (UTC)"), "alice");
    assert_eq!(comment_author("bob   wrote something"), "bob");
    assert_eq!(comment_author("   "), "Unknown");
    assert_eq!(comment_author(""), "Unknown");
}

#[test]
fn permalinks_are_made_absolute() {
    assert_eq!(
        comment_date_url("https://example.org/x", "yay"),
        "https://example.org/x"
    );
    assert_eq!(
        comment_date_url("#comment-12", "yay"),
        "https://aur.archlinux.org/packages/yay#comment-12"
    );
    assert_eq!(
        comment_date_url("/account/bob", "yay"),
        "https://aur.archlinux.org/account/bob"
    );
}

#[test]
fn pinned_status_follows_the_latest_comments_heading() {
    assert!(!determine_pinned_status(Some("comment-1"), Some(5), 0, false, Some(100)));
    assert!(!determine_pinned_status(Some("comment-1"), Some(5), 0, true, None));
    assert!(determine_pinned_status(Some("comment-1"), Some(5), 20, true, Some(100)));
    assert!(!determine_pinned_status(Some("comment-1"), Some(500), 0, true, Some(100)));
    assert!(determine_pinned_status(Some("comment-1"), None, 3, true, Some(100)));
    assert!(determine_pinned_status(None, None, 9, true, Some(100)));
    assert!(!determine_pinned_status(None, None, 10, true, Some(100)));
}

#[test]
fn comments_are_listed_pinned_first_and_latest_first() {
    let sorted = separate_and_sort_comments(vec![
        comment("old", "a", Some(100), false),
        comment("undated-a", "2023", None, false),
        comment("new", "b", Some(300), false),
        comment("pin-old", "c", Some(50), true),
        comment("undated-b", "2024", None, false),
        comment("pin-new", "d", Some(60), true),
    ]);
    let authors: Vec<&str> = sorted.iter().map(|c| c.author.as_str()).collect();
    assert_eq!(
        authors,
        vec!["pin-new", "pin-old", "new", "old", "undated-b", "undated-a"]
    );
}

#[test]
fn comment_dates_are_read_in_several_formats() {
    assert_eq!(parse_date_to_timestamp("2024-01-01 00:00 (UTC)"), Some(1_704_067_200));
    assert_eq!(parse_date_to_timestamp(" 2024-01-01 10:30 (CEST) "), Some(1_704_105_000));
    assert_eq!(parse_date_to_timestamp("2024-01-01 00:00:30"), Some(1_704_067_230));
    assert_eq!(parse_date_to_timestamp("2024-01-01T00:00:30"), Some(1_704_067_230));
    assert_eq!(parse_date_to_timestamp("2024-01-01T01:00:00+0100"), Some(1_704_067_200));
    assert_eq!(parse_date_to_timestamp("2024-01-01"), Some(1_704_067_200));
    assert_eq!(parse_date_to_timestamp("1704067200"), Some(1_704_067_200));
    assert_eq!(parse_date_to_timestamp("12345"), None);
    assert_eq!(parse_date_to_timestamp("yesterday"), None);
    assert_eq!(parse_date_to_timestamp("   "), None);
}

#[test]
fn first_reading_wins() {
    assert_eq!(first_date_reading(&[None, Some(7), Some(9)], "x"), Some(7));
    assert_eq!(first_date_reading(&[None, None], "1704067200"), Some(1_704_067_200));
    assert_eq!(first_date_reading(&[], "946684800"), None);
}

fn header(text: &str, id: Option<&str>, href: Option<&str>, content: &str) -> CommentHeader {
    CommentHeader {
        header_text: text.to_string(),
        id: id.map(str::to_string),
        date_text: " 2025-05-15 03:55 (UTC) ".to_string(),
        date_href: href.map(str::to_string),
        content: content.to_string(),
        local_date: "2025-05-15 05:55 (CEST)".to_string(),
        id_position: None,
    }
}

fn page() -> CommentPage {
    CommentPage { pkgname: "yay".to_string(), has_pinned_section: false, latest_comments_pos: None }
}

#[test]
fn header_facts_become_a_comment() {
    let h = header("alice commented on 2025-05-15 03:55 (UTC)", Some("comment-7"), Some("#comment-7"), "Works **fine**");
    let c = extract_comment_from_header(&h, 0, &page()).unwrap();
    assert_eq!(c.author, "alice");
    assert_eq!(c.id.as_deref(), Some("comment-7"));
    assert_eq!(c.date_url.as_deref(), Some("https://aur.archlinux.org/packages/yay#comment-7"));
    assert_eq!(c.date, "2025-05-15 05:55 (CEST)");
    assert_eq!(c.date_timestamp, Some(1_747_281_300));
    assert_eq!(c.content, "Works **fine**");
    assert!(!c.pinned);

    let no_id = header("bob commented on x", None, Some("/packages/yay#c1"), "hi");
    let c = extract_comment_from_header(&no_id, 3, &page()).unwrap();
    assert_eq!(c.id.as_deref(), Some("https://aur.archlinux.org/packages/yay#c1"));

    let empty = header("", None, None, "");
    assert!(extract_comment_from_header(&empty, 0, &page()).is_none());
    let quiet = header("carol commented on x", None, None, "");
    assert!(extract_comment_from_header(&quiet, 0, &page()).is_some());
}

#[test]
fn pinned_headers_follow_the_page() {
    let mut h = header("dave commented on x", Some("comment-1"), None, "pinned note");
    h.id_position = Some(100);
    let pinned_page = CommentPage {
        pkgname: "yay".to_string(),
        has_pinned_section: true,
        latest_comments_pos: Some(500),
    };
    assert!(extract_comment_from_header(&h, 0, &pinned_page).unwrap().pinned);
    h.id_position = Some(900);
    assert!(!extract_comment_from_header(&h, 0, &pinned_page).unwrap().pinned);
}

#[test]
fn repeated_ids_are_collected_once() {
    let headers = vec![
        header("a commented on x", Some("comment-1"), None, "first"),
        header("b commented on x", Some("comment-2"), None, "second"),
        header("a commented on x", Some("comment-1"), None, "again"),
        header("", None, None, ""),
        header("e commented on x", None, None, "no id"),
    ];
    let cs = collect_comments(&headers, &page());
    assert_eq!(cs.len(), 3);
    assert_eq!(cs[0].content, "first");
    assert_eq!(cs[1].content, "second");
    assert_eq!(cs[2].content, "no id");
}

#[test]
fn zone_labels_prefer_names_then_tz_then_offsets() {
    assert_eq!(get_timezone_abbreviation("CEST", Some("Europe/Berlin"), 7200), "CEST");
    assert_eq!(get_timezone_abbreviation("+02", Some("US/EST-DT"), 7200), "EST");
    assert_eq!(get_timezone_abbreviation("+02", Some("Etc/EST-5"), 7200), "UTC+2");
    assert_eq!(get_timezone_abbreviation("UTC", None, 0), "UTC");
    assert_eq!(get_timezone_abbreviation("+05", None, 19800), "UTC+5:30");
    assert_eq!(get_timezone_abbreviation("-03", Some("America/Sao_Paulo"), -10800), "UTC-3");
    assert_eq!(get_timezone_abbreviation("", None, -1800), "UTC+0:30");
    assert_eq!(get_timezone_abbreviation("", Some("EST"), 3600), "EST");
    assert_eq!(get_timezone_abbreviation("", Some("E-T"), 3600), "UTC+1");
}

fn element(kind: MarkupKind, html: &str, text: &str, href: Option<&str>) -> MarkupElement {
    MarkupElement {
        kind,
        html: html.to_string(),
        text: text.to_string(),
        href: href.map(str::to_string),
    }
}

#[test]
fn markup_rewrites_elements_in_order() {
    let html = "<p>Use <code>makepkg -si</code>, see <a href=\"https://x.org\"> docs </a> and <b> </b><i>now</i></p><pre>  a\nb  </pre>";
    let elements = vec![
        element(MarkupKind::CodeBlock, "<pre>  a\nb  </pre>", "  a\nb  ", None),
        element(MarkupKind::Link, "<a href=\"https://x.org\"> docs </a>", " docs ", Some("https://x.org")),
        element(MarkupKind::Bold, "<b> </b>", " ", None),
        element(MarkupKind::Italic, "<i>now</i>", "now", None),
        element(MarkupKind::Code, "<code>makepkg -si</code>", "makepkg -si", None),
    ];
    assert_eq!(
        format_markup(html, &elements),
        "<p>Use `makepkg -si`, see [docs](https://x.org) and <b> </b>*now*</p>```\na\nb\n```"
    );
    let unlinked = vec![element(MarkupKind::Link, "<a>x</a>", "x", None)];
    assert_eq!(format_markup("<a>x</a><a>x</a>", &unlinked), "<a>x</a><a>x</a>");
    let repeated = vec![element(MarkupKind::Bold, "<b>x</b>", "x", None)];
    assert_eq!(format_markup("<b>x</b>-<b>x</b>", &repeated), "**x**-**x**");
}

#[test]
fn line_breaks_become_newlines() {
    assert_eq!(restore_line_breaks("a<br>b<br/>c<br />d"), "a\nb\nc\nd");
    assert_eq!(restore_line_breaks("plain"), "plain");
}
