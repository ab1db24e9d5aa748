use curtois2014::IdMap;

#[test]
fn new_map_is_empty() {
    let map: IdMap<i32> = IdMap::new();
    assert_eq!(map.len(), 0);
    assert_eq!(map.get("D"), None);
    assert!(!map.contains_key("D"));
    assert_eq!(map.entry(0), None);
}

#[test]
fn inserted_keys_are_found_with_their_values() {
    let mut map: IdMap<i32> = IdMap::new();
    map.insert(String::from("E1"), 5);
    map.insert(String::from("L1"), 2);
    assert_eq!(map.len(), 2);
    assert_eq!(map.get("E1"), Some(&5));
    assert_eq!(map.get("L1"), Some(&2));
    assert_eq!(map.get("N1"), None);
    assert!(map.contains_key("E1"));
    assert!(!map.contains_key("e1"));
}

#[test]
fn inserting_a_key_again_replaces_its_value_in_place() {
    let mut map: IdMap<i32> = IdMap::new();
    map.insert(String::from("E1"), 5);
    map.insert(String::from("L1"), 2);
    map.insert(String::from("E1"), 9);
    assert_eq!(map.len(), 2);
    assert_eq!(map.get("E1"), Some(&9));
    assert_eq!(map.entry(0), Some((&String::from("E1"), &9)));
    assert_eq!(map.entry(1), Some((&String::from("L1"), &2)));
    assert_eq!(map.entry(2), None);
}

#[test]
fn with_returns_the_extended_map() {
    let map: IdMap<Vec<i32>> = IdMap::new().with(String::from("S1"), vec![3, 7, 10]);
    assert_eq!(map.len(), 1);
    assert_eq!(map.get("S1"), Some(&vec![3, 7, 10]));
}

#[test]
fn a_clone_holds_the_same_entries() {
    let mut map: IdMap<i32> = IdMap::new();
    map.insert(String::from("E1"), 5);
    map.insert(String::from("L1"), 2);
    let copy = map.clone();
    map.insert(String::from("E1"), 6);
    assert_eq!(copy.len(), 2);
    assert_eq!(copy.get("E1"), Some(&5));
    assert_eq!(copy.get("L1"), Some(&2));
    assert_eq!(copy.entry(0), Some((&String::from("E1"), &5)));
    assert_eq!(copy.entry(1), Some((&String::from("L1"), &2)));
}

#[test]
fn the_empty_identifier_is_a_key_like_any_other() {
    let mut map: IdMap<i32> = IdMap::new();
    map.insert(String::new(), 1);
    assert_eq!(map.get(""), Some(&1));
    assert_eq!(map.get(" "), None);
}
