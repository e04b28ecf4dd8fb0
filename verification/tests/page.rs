use arch_toolkit::aur::comments::page_date_utc_seconds;
use arch_toolkit::aur::page::parse_comments_html;
use arch_toolkit::aur::records::{info_records_from_text, search_records_from_text};
use arch_toolkit::aur::requests::{health_probe_from_text, HealthProbe};
use arch_toolkit::error::ArchToolkitError;

const PAGE: &str = r#"<html><body>
<h3>Pinned Comments</h3>
<h4 id="comment-10" class="comment-header">alice commented on
<a class="date" href="/packages/foo#comment-10">2024-01-02 03:04 (UTC)</a></h4>
<div id="comment-10-content" class="article-content"><p>Use <code>make</code> and <b>care</b>.</p><p>Second <a href="https://example.org">link</a></p></div>
<h3>Latest Comments</h3>
<h4 id="comment-20" class="comment-header">bob commented on
<a class="date" href="/packages/foo#comment-20">2024-02-03 04:05 (UTC)</a></h4>
<div id="comment-20-content" class="article-content"><p>Plain text</p></div>
</body></html>"#;

#[test]
fn comment_pages_are_read_into_ordered_comments() {
    let comments = parse_comments_html(PAGE, "foo", |d: String| format!("local {d}")).unwrap();
    assert_eq!(comments.len(), 2);
    let first = &comments[0];
    assert_eq!(first.author, "alice");
    assert!(first.pinned);
    assert_eq!(first.id.as_deref(), Some("comment-10"));
    assert_eq!(first.date, "local 2024-01-02 03:04 (UTC)");
    assert_eq!(first.date_timestamp, Some(1_704_164_640));
    assert_eq!(
        first.date_url.as_deref(),
        Some("https://aur.archlinux.org/packages/foo#comment-10")
    );
    assert_eq!(first.content, "Use `make` and **care**.\n\nSecond [link](https://example.org)");
    let second = &comments[1];
    assert_eq!(second.author, "bob");
    assert!(!second.pinned);
    assert_eq!(second.content, "Plain text");
}

#[test]
fn page_dates_read_as_utc_before_the_zone() {
    assert_eq!(page_date_utc_seconds(" 2024-01-02 03:04 (CET) "), Some(1_704_164_640));
    assert_eq!(page_date_utc_seconds("2024-01-02 03:04"), None);
    assert_eq!(page_date_utc_seconds("soon (UTC)"), None);
}

#[test]
fn info_and_search_answers_are_read_from_text() {
    let body = r#"{"version":5,"type":"multiinfo","results":[{"Name":"foo","Version":"1-1","Description":"d","Popularity":0.5}]}"#;
    let info = info_records_from_text(body).unwrap();
    assert_eq!(info.len(), 1);
    assert_eq!(info[0].name, "foo");
    assert_eq!(info[0].version, "1-1");
    let search = search_records_from_text(body).unwrap();
    assert_eq!(search.len(), 1);
    assert_eq!(search[0].row, 0);
    assert!(matches!(info_records_from_text("{not json"), Err(ArchToolkitError::Json(_))));
    assert!(matches!(search_records_from_text(""), Err(ArchToolkitError::Json(_))));
}

#[test]
fn health_bodies_are_probed() {
    assert_eq!(
        health_probe_from_text(r#"{"version":5,"type":"error"}"#),
        HealthProbe::Answered { json: true, rpc_fields: true }
    );
    assert_eq!(
        health_probe_from_text(r#"{"version":5}"#),
        HealthProbe::Answered { json: true, rpc_fields: false }
    );
    assert_eq!(
        health_probe_from_text("<html>"),
        HealthProbe::Answered { json: false, rpc_fields: false }
    );
}
