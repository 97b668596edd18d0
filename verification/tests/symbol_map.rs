use market_replay::symbol_map::SymbolMap;

fn map_key(name: &str) -> String {
    name.to_string()
}

#[test]
fn new_map_is_empty() {
    let map: SymbolMap<u64> = SymbolMap::new();
    assert_eq!(map.len(), 0);
    assert!(map.get(&map_key("BTCUSDT")).is_none());
    assert!(!map.contains_key(&map_key("BTCUSDT")));
}

#[test]
fn insert_then_get() {
    let mut map: SymbolMap<u64> = SymbolMap::new();
    map.insert(map_key("BTCUSDT"), 5);
    map.insert(map_key("ETHUSDT"), 7);
    assert_eq!(map.len(), 2);
    assert_eq!(map.get(&map_key("BTCUSDT")), Some(&5));
    assert_eq!(map.get(&map_key("ETHUSDT")), Some(&7));
    assert_eq!(map.get(&map_key("XRPUSDT")), None);
    assert!(map.contains_key(&map_key("ETHUSDT")));
}

#[test]
fn insert_of_known_key_replaces_in_place() {
    let mut map: SymbolMap<u64> = SymbolMap::new();
    map.insert(map_key("A"), 1);
    map.insert(map_key("B"), 2);
    map.insert(map_key("A"), 3);
    assert_eq!(map.len(), 2);
    assert_eq!(map.key_at(0), "A");
    assert_eq!(map.value_at(0), &3);
    assert_eq!(map.key_at(1), "B");
    assert_eq!(map.value_at(1), &2);
}

#[test]
fn keys_keep_the_order_of_first_insertion() {
    let mut map: SymbolMap<u64> = SymbolMap::new();
    for name in ["Z", "M", "A", "M", "Z", "B"] {
        map.insert(map_key(name), 0);
    }
    let keys: Vec<&str> = (0..map.len()).map(|i| map.key_at(i).as_str()).collect();
    assert_eq!(keys, vec!["Z", "M", "A", "B"]);
}

#[test]
fn index_of_finds_the_place_of_a_key() {
    let mut map: SymbolMap<u64> = SymbolMap::new();
    map.insert(map_key("A"), 1);
    map.insert(map_key("B"), 2);
    assert_eq!(map.index_of(&map_key("A")), Some(0));
    assert_eq!(map.index_of(&map_key("B")), Some(1));
    assert_eq!(map.index_of(&map_key("C")), None);
}

#[test]
fn replace_at_hands_out_the_earlier_value() {
    let mut map: SymbolMap<u64> = SymbolMap::new();
    map.insert(map_key("A"), 1);
    map.insert(map_key("B"), 2);
    let earlier = map.replace_at(1, 20);
    assert_eq!(earlier, 2);
    assert_eq!(map.get(&map_key("B")), Some(&20));
    assert_eq!(map.get(&map_key("A")), Some(&1));
    assert_eq!(map.key_at(1), "B");
}
