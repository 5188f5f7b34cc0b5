use qvm_interp::{Symbol, SymbolMap};

#[test]
fn symbol_map_name_empty() {
    let map = SymbolMap::new();
    assert_eq!(map.symbol_name(42), None);
}

#[test]
fn symbol_map_name_closest() {
    let map = SymbolMap::with_symbols(vec![Symbol::new(40, "name")]);
    assert_eq!(map.symbol_name(42), Some("name+2".into()));
}

#[test]
fn symbol_map_name_exact() {
    let map = SymbolMap::with_symbols(vec![Symbol::new(42, "name")]);
    assert_eq!(map.symbol_name(42), Some("name".into()));
}

#[test]
fn empty_table_resolves_nothing_anywhere() {
    let map = SymbolMap::new();
    assert_eq!(map.symbol_name(0), None);
    assert_eq!(map.symbol_name(u32::MAX), None);
}

#[test]
fn single_symbol_exact_and_below() {
    let map = SymbolMap::with_symbols(vec![Symbol::new(40, "name")]);
    assert_eq!(map.symbol_name(40), Some("name".to_string()));
    assert_eq!(map.symbol_name(39), None);
    assert_eq!(map.symbol_name(0), None);
}

#[test]
fn nearest_symbol_wins_and_offsets_are_decimal() {
    let map = SymbolMap::with_symbols(vec![
        Symbol::new(100, "b"),
        Symbol::new(10, "a"),
        Symbol::new(5000, "c"),
    ]);
    assert_eq!(map.symbol_name(10), Some("a".to_string()));
    assert_eq!(map.symbol_name(99), Some("a+89".to_string()));
    assert_eq!(map.symbol_name(1334), Some("b+1234".to_string()));
    assert_eq!(map.symbol_name(u32::MAX), Some("c+4294962295".to_string()));
    assert_eq!(map.symbol_name(9), None);
}

#[test]
fn insertion_order_does_not_matter() {
    let a = SymbolMap::with_symbols(vec![
        Symbol::new(3, "x"),
        Symbol::new(30, "y"),
        Symbol::new(300, "z"),
    ]);
    let b = SymbolMap::with_symbols(vec![
        Symbol::new(300, "z"),
        Symbol::new(3, "x"),
        Symbol::new(30, "y"),
    ]);
    for addr in [0u32, 2, 3, 4, 29, 30, 31, 299, 300, 301, 100000] {
        assert_eq!(a.symbol_name(addr), b.symbol_name(addr));
    }
}

#[test]
fn later_symbol_replaces_earlier_at_same_address() {
    let map = SymbolMap::with_symbols(vec![Symbol::new(8, "old"), Symbol::new(8, "new")]);
    assert_eq!(map.symbol_name(8), Some("new".to_string()));
    assert_eq!(map.symbol_name(9), Some("new+1".to_string()));
}

#[test]
fn insert_after_construction() {
    let mut map = SymbolMap::new();
    map.insert(Symbol::new(20, "late"));
    map.insert(Symbol::new(10, "early"));
    assert_eq!(map.symbol_name(15), Some("early+5".to_string()));
    assert_eq!(map.symbol_name(21), Some("late+1".to_string()));
}

#[test]
fn symbol_accessors() {
    let s = Symbol::new(7, "seven");
    assert_eq!(s.value(), 7);
    assert_eq!(s.name(), "seven");
}

#[test]
fn default_table_is_empty() {
    let map = SymbolMap::default();
    assert_eq!(map.symbol_name(42), None);
}
