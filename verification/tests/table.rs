use org_roam_sync::table::StringTable;

#[test]
fn a_later_value_takes_the_place_of_an_earlier_one() {
    let mut t = StringTable::new();
    assert_eq!(t.len(), 0);
    assert_eq!(t.get("a"), None);
    t.insert("a".to_string(), "1".to_string());
    t.insert("b".to_string(), "2".to_string());
    t.insert("a".to_string(), "3".to_string());
    assert_eq!(t.len(), 2);
    assert_eq!(t.get("a"), Some("3"));
    assert_eq!(t.get("b"), Some("2"));
    assert_eq!(t.get("c"), None);
}

#[test]
fn keys_stay_in_the_order_of_their_first_insertion() {
    let mut t = StringTable::new();
    for (k, v) in [("z", "1"), ("a", "2"), ("m", "3"), ("z", "4")] {
        t.insert(k.to_string(), v.to_string());
    }
    let keys: Vec<&str> = (0..t.len()).map(|i| t.key_at(i)).collect();
    let values: Vec<&str> = (0..t.len()).map(|i| t.value_at(i)).collect();
    assert_eq!(keys, vec!["z", "a", "m"]);
    assert_eq!(values, vec!["4", "2", "3"]);
}
