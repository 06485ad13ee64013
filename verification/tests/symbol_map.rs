use matching_engine::symbol_map::SymbolMap;

#[test]
fn symbol_map_insert_get_and_replace() {
    let mut map: SymbolMap<u64> = SymbolMap::new();
    assert!(!map.contains_key("BTC"));
    assert_eq!(map.get("BTC"), None);
    map.insert("BTC".to_string(), 1);
    map.insert("ETH".to_string(), 2);
    assert!(map.contains_key("BTC"));
    assert_eq!(map.get("BTC"), Some(&1));
    assert_eq!(map.get("ETH"), Some(&2));
    map.insert("BTC".to_string(), 3);
    assert_eq!(map.get("BTC"), Some(&3));
    assert_eq!(map.get("ETH"), Some(&2));
}

#[test]
fn symbol_map_get_mut_writes_through() {
    let mut map: SymbolMap<u64> = SymbolMap::new();
    map.insert("BTC".to_string(), 10);
    *map.get_mut("BTC").unwrap() += 5;
    assert_eq!(map.get("BTC"), Some(&15));
    assert!(map.get_mut("DOGE").is_none());
}
