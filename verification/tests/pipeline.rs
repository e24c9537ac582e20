use enver::collect::{env_entries_of_lines, env_map_of_lines};
use enver::lines::split_lines;
use enver::render::render_table_lines;

#[test]
fn test_split_single_line_without_newline() {
    let lines = split_lines("DATABASE_URL=postgres");
    assert_eq!(lines, vec![String::from("DATABASE_URL=postgres")]);
}

#[test]
fn test_split_trailing_newline_yields_empty_line() {
    let lines = split_lines("a\nb\n");
    assert_eq!(
        lines,
        vec![String::from("a"), String::from("b"), String::from("")]
    );
}

#[test]
fn test_split_empty_text() {
    let lines = split_lines("");
    assert_eq!(lines, vec![String::from("")]);
}

#[test]
fn test_listing_text_in_file_order() {
    let lines = split_lines("FOO=bar\nBAZ=qux\n");
    let entries = env_entries_of_lines(lines);
    assert_eq!(
        entries,
        vec![
            (String::from("FOO"), String::from("bar")),
            (String::from("BAZ"), String::from("qux")),
        ]
    );
    let text = render_table_lines(&entries);
    assert_eq!(text, "VARIABLE NAME\tVARIABLE VALUE\nFOO\tbar\nBAZ\tqux");
}

#[test]
fn test_listing_keeps_duplicate_names() {
    let lines = split_lines("A=one\nA=two");
    let entries = env_entries_of_lines(lines);
    assert_eq!(
        entries,
        vec![
            (String::from("A"), String::from("one")),
            (String::from("A"), String::from("two")),
        ]
    );
}

#[test]
fn test_map_of_lines_skips_malformed_and_overwrites() {
    let lines = split_lines("GREETING=hi\n# comment\nGREETING=hello\nBAD==x\n");
    let map = env_map_of_lines(lines);
    let entries = map.entries();
    assert_eq!(entries.len(), 1);
    assert_eq!(entries[0], (String::from("GREETING"), String::from("hello")));
}

#[test]
fn test_render_empty_entries_is_header_only() {
    let entries: Vec<(String, String)> = Vec::new();
    let text = render_table_lines(&entries);
    assert_eq!(text, "VARIABLE NAME\tVARIABLE VALUE");
}
