use binate::symbol::{RawSymbol, SymKind, SymbolTable};

fn raw(kind: SymKind, address: u64, size: u64, name: &str) -> RawSymbol {
    RawSymbol { kind, address, size, name: Some(name.to_string()), section: Some(".text".to_string()) }
}

fn table() -> SymbolTable {
    SymbolTable::from_raw_symbols(&vec![
        raw(SymKind::Text, 0x2000, 0x10, "b"),
        raw(SymKind::Text, 0x1000, 0x10, "a"),
        raw(SymKind::Label, 0x1800, 0x10, "label"),
        raw(SymKind::Unknown, 0x1900, 0x10, "unknown"),
        raw(SymKind::Data, 0, 0x10, "null"),
        raw(SymKind::Data, 0x3000, 0, "open"),
        RawSymbol { kind: SymKind::Text, address: 0x4000, size: 4, name: None, section: None },
    ])
}

#[test]
fn table_keeps_known_kinds_at_nonzero_addresses_in_order() {
    let t = table();
    let names: Vec<&str> = t.iter().iter().map(|s| s.name.as_str()).collect();
    assert_eq!(names, vec!["a", "b", "open", "<unknown>"]);
}

#[test]
fn later_symbol_at_an_address_wins() {
    let t = SymbolTable::from_raw_symbols(&vec![
        raw(SymKind::Text, 0x10, 1, "first"),
        raw(SymKind::Text, 0x10, 2, "second"),
    ]);
    let all = t.iter();
    assert_eq!(all.len(), 1);
    assert_eq!(all[0].name, "second");
}

#[test]
fn symbol_at_finds_the_owner() {
    let t = table();
    assert_eq!(t.symbol_at(0x1000).unwrap().name, "a");
    assert_eq!(t.symbol_at(0x100f).unwrap().name, "a");
    assert!(t.symbol_at(0x1010).is_none());
    assert!(t.symbol_at(0xfff).is_none());
    // A symbol of size zero holds no address.
    assert!(t.symbol_at(0x3000).is_none());
    assert!(t.symbol_at(0x3fff).is_none());
    assert_eq!(t.symbol_at(0x4003).unwrap().name, "<unknown>");
    assert!(t.symbol_at(0x4004).is_none());
}

#[test]
fn symbols_in_a_range() {
    let t = table();
    let names: Vec<&str> = t.symbols_in(0x1000..0x3000).iter().map(|s| s.name.as_str()).collect();
    assert_eq!(names, vec!["a", "b"]);
    assert!(t.symbols_in(0x5000..0x5000).is_empty());
}

#[test]
fn an_enclosing_symbol_owns_addresses_past_a_nested_one() {
    let t = SymbolTable::from_raw_symbols(&vec![
        raw(SymKind::Text, 0x1000, 0x100, "outer"),
        raw(SymKind::Text, 0x1010, 4, "inner"),
    ]);
    assert_eq!(t.symbol_at(0x1012).unwrap().name, "inner");
    assert_eq!(t.symbol_at(0x1020).unwrap().name, "outer");
    assert!(t.symbol_at(0x1100).is_none());
    assert!(t.iter().iter().all(|s| s.address != 0));
}
