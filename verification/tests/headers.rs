use graphql_ws::headers::{merge, Headers};
use graphql_ws::init::{parse_headers, ConnectionInitError};

fn handshake_with(entries: &[(&str, &str)]) -> Headers {
    let mut h = Headers::new();
    for (name, value) in entries {
        h.insert(name.to_string(), value.to_string());
    }
    h
}

#[test]
fn merge_prefers_handshake_value() {
    let payload = parse_headers(vec![("x-hasura-role".to_string(), "admin".to_string())]).unwrap();
    let handshake = handshake_with(&[("x-hasura-role", "user")]);
    let merged = merge(payload, &handshake);
    assert_eq!(
        merged.get(&"x-hasura-role".to_string()),
        Some(&"user".to_string())
    );
}

#[test]
fn merge_keeps_both_sources() {
    let payload = parse_headers(vec![("x-client".to_string(), "web".to_string())]).unwrap();
    let handshake = handshake_with(&[("authorization", "Bearer abc")]);
    let merged = merge(payload, &handshake);
    assert_eq!(merged.get(&"x-client".to_string()), Some(&"web".to_string()));
    assert_eq!(
        merged.get(&"authorization".to_string()),
        Some(&"Bearer abc".to_string())
    );
    assert_eq!(merged.get(&"x-absent".to_string()), None);
}

#[test]
fn parse_normalizes_names_to_lowercase() {
    let h = parse_headers(vec![("X-Hasura-Role".to_string(), "admin".to_string())]).unwrap();
    assert_eq!(h.get(&"x-hasura-role".to_string()), Some(&"admin".to_string()));
    assert_eq!(h.get(&"X-Hasura-Role".to_string()), None);
}

#[test]
fn parse_later_entry_wins_on_repeated_name() {
    let h = parse_headers(vec![
        ("x-a".to_string(), "1".to_string()),
        ("X-A".to_string(), "2".to_string()),
    ])
    .unwrap();
    assert_eq!(h.get(&"x-a".to_string()), Some(&"2".to_string()));
}

#[test]
fn parse_empty_payload_is_empty() {
    let h = parse_headers(vec![]).unwrap();
    assert_eq!(h.get(&"anything".to_string()), None);
}

#[test]
fn parse_rejects_control_character_in_name() {
    let r = parse_headers(vec![("x-a\u{1}b".to_string(), "ok".to_string())]);
    assert_eq!(r.err(), Some(ConnectionInitError::InvalidHeaderName));
}

#[test]
fn parse_rejects_empty_name() {
    let r = parse_headers(vec![(String::new(), "ok".to_string())]);
    assert_eq!(r.err(), Some(ConnectionInitError::InvalidHeaderName));
}

#[test]
fn parse_rejects_space_in_name() {
    let r = parse_headers(vec![("x hasura".to_string(), "ok".to_string())]);
    assert_eq!(r.err(), Some(ConnectionInitError::InvalidHeaderName));
}

#[test]
fn parse_rejects_overlong_name() {
    let r = parse_headers(vec![("a".repeat(65536), "ok".to_string())]);
    assert_eq!(r.err(), Some(ConnectionInitError::InvalidHeaderName));
    let ok = parse_headers(vec![("a".repeat(65535), "ok".to_string())]);
    assert!(ok.is_ok());
}

#[test]
fn parse_rejects_newline_in_value() {
    let r = parse_headers(vec![("x-a".to_string(), "line1\nline2".to_string())]);
    assert_eq!(r.err(), Some(ConnectionInitError::InvalidHeaderValue));
}

#[test]
fn parse_rejects_delete_in_value() {
    let r = parse_headers(vec![("x-a".to_string(), "a\u{7f}b".to_string())]);
    assert_eq!(r.err(), Some(ConnectionInitError::InvalidHeaderValue));
}

#[test]
fn parse_accepts_tab_and_non_ascii_value() {
    let h = parse_headers(vec![
        ("x-tab".to_string(), "a\tb".to_string()),
        ("x-latin".to_string(), "café".to_string()),
    ])
    .unwrap();
    assert_eq!(h.get(&"x-tab".to_string()), Some(&"a\tb".to_string()));
    assert_eq!(h.get(&"x-latin".to_string()), Some(&"café".to_string()));
}

#[test]
fn parse_reports_first_bad_entry_name_before_value() {
    // Both the name and the value of the offending entry are malformed: the
    // name decides the error.
    let r = parse_headers(vec![
        ("x-fine".to_string(), "ok".to_string()),
        ("bad name".to_string(), "bad\nvalue".to_string()),
    ]);
    assert_eq!(r.err(), Some(ConnectionInitError::InvalidHeaderName));
    // A valid name with a malformed value reports the value.
    let r = parse_headers(vec![
        ("x-fine".to_string(), "bad\nvalue".to_string()),
        ("bad name".to_string(), "ok".to_string()),
    ]);
    assert_eq!(r.err(), Some(ConnectionInitError::InvalidHeaderValue));
}
