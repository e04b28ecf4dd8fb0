use arch_toolkit::aur::records::{info_records, search_records};
use arch_toolkit::aur::utils::{JsonNumber, JsonValue};

fn text(t: &str) -> JsonValue {
    JsonValue::Str(t.to_string())
}

fn number(n: i64) -> JsonValue {
    if n >= 0 {
        JsonValue::Number(JsonNumber::PosInt(n as u64))
    } else {
        JsonValue::Number(JsonNumber::NegInt(n))
    }
}

fn obj(members: Vec<(&str, JsonValue)>) -> JsonValue {
    JsonValue::Object(members.into_iter().map(|(k, v)| (k.to_string(), v)).collect())
}

fn answer(rows: Vec<JsonValue>) -> JsonValue {
    obj(vec![("resultcount", number(rows.len() as i64)), ("results", JsonValue::Array(rows))])
}

#[test]
fn search_rows_without_name_are_skipped() {
    let doc = answer(vec![
        obj(vec![
            ("Name", text("yay")),
            ("Version", text("12.3.5-1")),
            ("Description", text("Yet another yogurt")),
            ("Maintainer", text("jguer")),
            ("OutOfDate", JsonValue::Null),
            ("Popularity", JsonValue::Number(JsonNumber::Float)),
        ]),
        obj(vec![("Name", text("")), ("Version", text("1"))]),
        obj(vec![
            ("Name", text("old-tool")),
            ("Maintainer", JsonValue::Null),
            ("OutOfDate", number(1_600_000_000)),
        ]),
    ]);
    let recs = search_records(&doc);
    assert_eq!(recs.len(), 2);
    assert_eq!(recs[0].row, 0);
    assert_eq!(recs[0].name, "yay");
    assert_eq!(recs[0].version, "12.3.5-1");
    assert_eq!(recs[0].maintainer.as_deref(), Some("jguer"));
    assert!(!recs[0].orphaned);
    assert_eq!(recs[0].out_of_date, None);
    assert_eq!(recs[1].row, 2);
    assert!(recs[1].orphaned);
    assert_eq!(recs[1].maintainer, None);
    assert_eq!(recs[1].out_of_date, Some(1_600_000_000));
    assert_eq!(recs[1].description, "");
}

#[test]
fn answers_without_results_give_nothing() {
    assert!(search_records(&obj(vec![("error", text("Too many package results."))])).is_empty());
    assert!(info_records(&obj(vec![("results", text("none"))])).is_empty());
    assert!(info_records(&JsonValue::Null).is_empty());
}

#[test]
fn info_rows_read_lists_times_and_votes() {
    let doc = answer(vec![obj(vec![
        ("Name", text("paru")),
        ("Version", text("2.0.4-1")),
        ("URL", text("https://github.com/morganamilo/paru")),
        ("Licenses", JsonValue::Array(vec![text("GPL-3.0-or-later")])),
        ("Depends", JsonValue::Array(vec![text("git"), text("pacman"), number(5)])),
        ("MakeDepends", JsonValue::Array(vec![text("cargo")])),
        ("FirstSubmitted", number(1_600_000_000)),
        ("LastModified", number(-5)),
        ("NumVotes", text("oops")),
        ("Votes", number(900)),
        ("OutOfDate", number(0)),
        ("Maintainer", text("morganamilo")),
    ])]);
    let recs = info_records(&doc);
    assert_eq!(recs.len(), 1);
    let r = &recs[0];
    assert_eq!(r.row, 0);
    assert_eq!(r.url, "https://github.com/morganamilo/paru");
    assert_eq!(r.licenses, vec!["GPL-3.0-or-later".to_string()]);
    assert_eq!(r.depends, vec!["git".to_string(), "pacman".to_string()]);
    assert_eq!(r.make_depends, vec!["cargo".to_string()]);
    assert!(r.groups.is_empty());
    assert!(r.opt_depends.is_empty());
    assert_eq!(r.first_submitted, Some(1_600_000_000));
    assert_eq!(r.last_modified, None);
    assert_eq!(r.num_votes, Some(900));
    assert_eq!(r.out_of_date, None);
    assert_eq!(r.maintainer.as_deref(), Some("morganamilo"));
    assert!(!r.orphaned);
}

fn strings(items: &[&str]) -> JsonValue {
    JsonValue::Array(items.iter().map(|s| text(s)).collect())
}

#[test]
fn test_info_parses_valid_response() {
    let json = obj(vec![(
        "results",
        JsonValue::Array(vec![obj(vec![
            ("Name", text("yay")),
            ("Version", text("12.3.4-1")),
            ("Description", text("AUR helper")),
            ("URL", text("https://github.com/Jguer/yay")),
            ("License", strings(&["MIT"])),
            ("Groups", strings(&[])),
            ("Provides", strings(&[])),
            ("Depends", strings(&["git", "go"])),
            ("MakeDepends", strings(&["git"])),
            ("OptDepends", strings(&["sudo: privilege escalation"])),
            ("Conflicts", strings(&[])),
            ("Replaces", strings(&[])),
            ("Maintainer", text("someuser")),
            ("FirstSubmitted", number(1_234_567_890)),
            ("LastModified", number(1_234_567_891)),
            ("Popularity", JsonValue::Number(JsonNumber::Float)),
            ("NumVotes", number(100)),
            ("OutOfDate", JsonValue::Null),
        ])]),
    )]);
    let packages = info_records(&json);
    assert_eq!(packages.len(), 1);
    assert_eq!(packages[0].name, "yay");
    assert_eq!(packages[0].version, "12.3.4-1");
    assert_eq!(packages[0].depends, vec!["git", "go"]);
    assert_eq!(packages[0].opt_depends, vec!["sudo: privilege escalation"]);
    assert_eq!(packages[0].num_votes, Some(100));
}

#[test]
fn test_search_parses_valid_response() {
    let json = obj(vec![(
        "results",
        JsonValue::Array(vec![
            obj(vec![
                ("Name", text("yay")),
                ("Version", text("12.3.4")),
                ("Description", text("AUR helper")),
                ("Popularity", JsonValue::Number(JsonNumber::Float)),
                ("OutOfDate", JsonValue::Null),
                ("Maintainer", text("someuser")),
            ]),
            obj(vec![
                ("Name", text("paru")),
                ("Version", text("1.2.3")),
                ("Description", text("Another AUR helper")),
                ("Popularity", JsonValue::Number(JsonNumber::Float)),
                ("OutOfDate", number(1_234_567_890)),
                ("Maintainer", text("")),
            ]),
        ]),
    )]);
    let packages = search_records(&json);
    assert_eq!(packages.len(), 2);
    assert_eq!(packages[0].name, "yay");
    assert_eq!(packages[0].version, "12.3.4");
    assert!(!packages[0].orphaned);
    assert_eq!(packages[1].name, "paru");
    assert!(packages[1].orphaned);
    assert_eq!(packages[1].out_of_date, Some(1_234_567_890));
}
