use dotnet_toolchain::str_map::StrMap;

fn map(entries: &[(&str, &str)]) -> StrMap<String> {
    let mut map = StrMap::new();

    for (key, value) in entries {
        map.insert(key.to_string(), value.to_string());
    }

    map
}

#[test]
fn keys_ascend_and_the_last_value_counts() {
    let map = map(&[("b", "1"), ("a", "2"), ("é", "3"), ("b", "4"), ("B", "5")]);

    assert_eq!(map.keys(), vec!["B", "a", "b", "é"]);
    assert_eq!(map.get("b").unwrap(), "4");
    assert_eq!(map.get("c"), None);
    assert_eq!(map.get_key_value("a"), Some(("a", &"2".to_string())));
    assert!(!map.is_empty());
}

#[test]
fn entries_can_be_taken_out() {
    let mut map = map(&[("a", "1"), ("b", "2")]);

    assert_eq!(map.remove("a"), Some("1".to_string()));
    assert_eq!(map.remove("a"), None);
    assert!(!map.contains_key("a"));
    assert!(map.contains_key("b"));
    assert_eq!(map.remove("b"), Some("2".to_string()));
    assert!(map.is_empty());
}

#[test]
fn maps_are_merged_either_way() {
    let more = map(&[("a", "new"), ("c", "new")]);

    let mut over = map(&[("a", "old"), ("b", "old")]);
    over.extend(&more);
    assert_eq!(over, map(&[("a", "new"), ("b", "old"), ("c", "new")]));

    let mut under = map(&[("a", "old"), ("b", "old")]);
    under.extend_missing(more.copied());
    assert_eq!(under, map(&[("a", "old"), ("b", "old"), ("c", "new")]));
}

#[test]
fn entries_come_out_in_key_order() {
    assert_eq!(
        map(&[("b", "1"), ("a", "2")]).into_entries(),
        vec![
            ("a".to_string(), "2".to_string()),
            ("b".to_string(), "1".to_string())
        ]
    );
}
