use enver::parse::string_to_env_entry;

#[test]
fn test_valid_entry_parser() {
    let key = "DATABASE_URL";
    let val = "postgresql://asdf@asdf/asdf";
    let valid_env_entry = format!("{}={}", key, val);
    let parsed = string_to_env_entry(&valid_env_entry);
    assert_eq!(parsed, Some((key.to_string(), val.to_string())),)
}

#[test]
fn test_invalid_entry_parser() {
    let invalid_env_entries = vec![
        "DA=TABASE_URL=postgresql://asdf@asdf/asdf",
        "=value",
        "key=",
        "===",
        "=",
    ];
    let filtered = invalid_env_entries
        .into_iter()
        .filter(|entry| string_to_env_entry(entry).is_some())
        .collect::<Vec<&str>>();
    assert_eq!(filtered.len(), 0);
}

#[test]
fn test_entry_with_hyphen_and_underscore() {
    let parsed = string_to_env_entry("_MY_VAR=some-value_1");
    assert_eq!(
        parsed,
        Some(("_MY_VAR".to_string(), "some-value_1".to_string()))
    );
}

#[test]
fn test_segments_taken_verbatim() {
    // The pattern is searched anywhere in the line; the segments of the
    // single `=` are returned untrimmed.
    let parsed = string_to_env_entry("x FOO=bar baz");
    assert_eq!(parsed, Some(("x FOO".to_string(), "bar baz".to_string())));
}

#[test]
fn test_value_must_start_with_value_character() {
    assert_eq!(string_to_env_entry("FOO=!bar"), None);
}

#[test]
fn test_blank_and_comment_lines_skipped() {
    assert_eq!(string_to_env_entry(""), None);
    assert_eq!(string_to_env_entry("# a comment"), None);
    assert_eq!(string_to_env_entry("no separator here"), None);
}

#[test]
fn test_match_found_but_split_rejects() {
    // The pattern search succeeds on an embedded substring, yet the line
    // is still rejected because it splits into three segments on `=`.
    assert!(enver::parse::has_entry_match("DA=TABASE_URL=postgresql://x"));
    assert_eq!(
        string_to_env_entry("DA=TABASE_URL=postgresql://x"),
        None
    );
}
