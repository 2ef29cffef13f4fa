use fiducia_cli::{env_value, get_env_map, EnvMap};

fn pair(k: &str, v: &str) -> (String, String) {
    (k.to_string(), v.to_string())
}

#[test]
fn later_duplicate_overrides_win_deterministically() {
    let result = get_env_map(
        EnvMap::from_pairs(vec![pair("FIDUCIA_SAMPLES", "3")]),
        vec![pair("FIDUCIA_SAMPLES", "5"), pair("FIDUCIA_SAMPLES", "8")],
    );
    assert_eq!(env_value(&result, "FIDUCIA_SAMPLES").as_deref(), Some("8"));
}

#[test]
fn merge_preserves_unrelated_values_and_btree_order() {
    let snapshot = EnvMap::from_pairs(vec![pair("Z_LAST", "z"), pair("A_FIRST", "a")]);
    let result = get_env_map(snapshot.clone(), vec![pair("M_MIDDLE", "m")]);
    assert_eq!(snapshot.len(), 2, "the caller-owned source snapshot is unchanged");
    assert_eq!(result.keys(), ["A_FIRST", "M_MIDDLE", "Z_LAST"]);
}

#[test]
fn env_value_trims_unicode_whitespace_without_changing_storage() {
    let env = EnvMap::from_pairs(vec![pair("FIDUCIA_REGION", "\u{2003}sa-east-1\u{2003}")]);
    assert_eq!(env_value(&env, "FIDUCIA_REGION").as_deref(), Some("sa-east-1"));
    assert_eq!(
        env.get("FIDUCIA_REGION").map(String::as_str),
        Some("\u{2003}sa-east-1\u{2003}"),
    );
}

#[test]
fn env_value_distinguishes_missing_from_present_nonempty_values() {
    let env = EnvMap::from_pairs(vec![pair("FIDUCIA_JSON", "1")]);
    assert_eq!(env_value(&env, "FIDUCIA_JSON").as_deref(), Some("1"));
    assert_eq!(env_value(&env, "FIDUCIA_MISSING"), None);
}

#[test]
fn empty_override_masks_a_previous_value() {
    let result = get_env_map(
        EnvMap::from_pairs(vec![pair("FIDUCIA_NODE_URL", "https://node.example.test")]),
        vec![pair("FIDUCIA_NODE_URL", " \t ")],
    );
    assert_eq!(env_value(&result, "FIDUCIA_NODE_URL"), None);
    assert_eq!(result.get("FIDUCIA_NODE_URL").map(String::as_str), Some(" \t "));
}

#[test]
fn insert_get_and_remove_behave_as_a_map() {
    let mut env = EnvMap::new();
    assert_eq!(env.len(), 0);
    env.insert("b".to_string(), "2".to_string());
    env.insert("a".to_string(), "1".to_string());
    env.insert("ab".to_string(), "3".to_string());
    env.insert("b".to_string(), "4".to_string());
    assert_eq!(env.keys(), ["a", "ab", "b"]);
    assert_eq!(env.get("b").map(String::as_str), Some("4"));
    env.remove("ab");
    env.remove("missing");
    assert_eq!(env.keys(), ["a", "b"]);
    assert_eq!(env.get("ab"), None);
    assert_eq!(env.len(), 2);
}
