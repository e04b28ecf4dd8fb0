use arch_toolkit::aur::utils::{arrs, s, ss, u64_of, JsonNumber, JsonValue};

fn text(t: &str) -> JsonValue {
    JsonValue::Str(t.to_string())
}

fn package() -> JsonValue {
    JsonValue::Object(vec![
        ("Name".to_string(), text("yay")),
        ("Version".to_string(), JsonValue::Number(JsonNumber::PosInt(12))),
        (
            "License".to_string(),
            JsonValue::Array(vec![text("GPL3"), JsonValue::Null, text("MIT")]),
        ),
        ("Groups".to_string(), JsonValue::Null),
        ("NumVotes".to_string(), JsonValue::Number(JsonNumber::NegInt(-3))),
        ("Votes".to_string(), text("42")),
        ("Popularity".to_string(), JsonValue::Number(JsonNumber::Float)),
        ("OutOfDate".to_string(), JsonValue::Number(JsonNumber::PosInt(1_700_000_000))),
    ])
}

#[test]
fn string_field_reads_text_only() {
    let p = package();
    assert_eq!(s(&p, "Name"), "yay");
    assert_eq!(s(&p, "Version"), "");
    assert_eq!(s(&p, "Missing"), "");
    assert_eq!(s(&text("plain"), "Name"), "");
}

#[test]
fn first_string_follows_key_order() {
    let p = package();
    assert_eq!(ss(&p, &["Description", "Version", "Name"]), "yay");
    assert_eq!(ss(&p, &["Missing", "Groups"]), "");
    assert_eq!(ss(&p, &[]), "");
}

#[test]
fn string_arrays_keep_only_strings() {
    let p = package();
    assert_eq!(arrs(&p, &["Licenses", "License"]), vec!["GPL3".to_string(), "MIT".to_string()]);
    assert!(arrs(&p, &["Groups", "Group"]).is_empty());
    assert!(arrs(&p, &["Name"]).is_empty());
}

#[test]
fn counts_accept_integers_and_digit_strings() {
    let p = package();
    assert_eq!(u64_of(&p, &["OutOfDate"]), Some(1_700_000_000));
    assert_eq!(u64_of(&p, &["NumVotes", "Votes"]), Some(42));
    assert_eq!(u64_of(&p, &["Popularity"]), None);
    assert_eq!(u64_of(&p, &["Name", "Missing"]), None);
    let o = JsonValue::Object(vec![("n".to_string(), text("+7")), ("m".to_string(), text("-7"))]);
    assert_eq!(u64_of(&o, &["m", "n"]), Some(7));
    let big = JsonValue::Object(vec![("n".to_string(), text("18446744073709551616"))]);
    assert_eq!(u64_of(&big, &["n"]), None);
}
