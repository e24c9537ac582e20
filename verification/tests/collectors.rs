use enver::collect::{raw_env_vars_to_map, raw_env_vars_to_tuples, EnvMap};

fn folder_only_c(entry: &str) -> Option<(String, String)> {
    if entry == "c" {
        return Some((entry.to_string(), entry.to_string()));
    }
    return None;
}

fn folder_a_or_c(entry: &str) -> Option<(String, String)> {
    if entry == "a" || entry == "c" {
        return Some((entry.to_string(), entry.to_string()));
    }
    return None;
}

#[test]
fn test_raw_env_vars_to_map() {
    let input_vars = vec![
        String::from("a"),
        String::from("b"),
        String::from("c"),
        String::from("d"),
    ];
    let map = raw_env_vars_to_map(input_vars, folder_only_c);
    let comp = map
        .entries()
        .iter()
        .fold(String::from(""), |acc, (a, b)| format!("{}{}{}", acc, a, b));
    assert_eq!(comp, String::from("cc"));
}

#[test]
fn test_raw_env_vars_to_tuples() {
    let input_vars = vec![
        String::from("a"),
        String::from("b"),
        String::from("c"),
        String::from("d"),
    ];
    let tuples = raw_env_vars_to_tuples(input_vars, folder_a_or_c);
    let comp = tuples
        .into_iter()
        .fold(String::from(""), |acc, (a, b)| format!("{}{}{}", acc, a, b));
    assert_eq!(comp, String::from("aacc"));
}

#[test]
fn test_env_map_last_occurrence_wins() {
    let mut map = EnvMap::new();
    map.insert(String::from("K"), String::from("first"));
    map.insert(String::from("L"), String::from("other"));
    map.insert(String::from("K"), String::from("second"));
    let entries = map.entries();
    assert_eq!(entries.len(), 2);
    let k = entries.iter().find(|(name, _)| name.as_str() == "K").unwrap();
    assert_eq!(k.1, "second");
    let l = entries.iter().find(|(name, _)| name.as_str() == "L").unwrap();
    assert_eq!(l.1, "other");
}

#[test]
fn test_tuples_keep_duplicates_in_order() {
    let input_vars = vec![String::from("a"), String::from("a"), String::from("c")];
    let tuples = raw_env_vars_to_tuples(input_vars, folder_a_or_c);
    assert_eq!(
        tuples,
        vec![
            (String::from("a"), String::from("a")),
            (String::from("a"), String::from("a")),
            (String::from("c"), String::from("c")),
        ]
    );
}
