use binate::binary::SectionInfo;
use binate::listing::{
    exit_code, file_size, rule_line, section_row, section_table_header, symbol_row, symbol_table_header,
};
use binate::symbol::ResolvedSymbol;
use binate::text::{decimal, hex10_string, hex18_string};

#[test]
fn numbers_as_text() {
    assert_eq!(decimal(0), "0");
    assert_eq!(decimal(1234567890), "1234567890");
    assert_eq!(decimal(u64::MAX), u64::MAX.to_string());
    assert_eq!(hex10_string(0x1f), "0x0000001f");
    assert_eq!(hex10_string(0x1234_5678_9a), "0x123456789a");
    assert_eq!(hex18_string(0x401000), "0x0000000000401000");
    for n in [0u64, 1, 15, 16, 255, 4096, 0xdead_beef, u64::MAX] {
        assert_eq!(hex10_string(n), format!("{:#010x}", n));
        assert_eq!(hex18_string(n), format!("{:#018x}", n));
        assert_eq!(decimal(n), n.to_string());
    }
}

#[test]
fn section_table() {
    assert_eq!(section_table_header(), format!("{:<32} {:>18} {:>12}", "SECTION", "ADDRESS", "SIZE"));
    assert_eq!(rule_line(64), "-".repeat(64));
    assert_eq!(section_row(".text", 0x401000, 4096), format!("{:<32} {:#018x} {:>12}", ".text", 0x401000, 4096));
    let long = "x".repeat(40);
    assert_eq!(section_row(&long, 1, 2), format!("{:<32} {:#018x} {:>12}", long, 1, 2));
}

#[test]
fn symbol_table() {
    assert_eq!(symbol_table_header(), format!("{:<18} {:>12} {}", "ADDRESS", "SIZE", "NAME"));
    let sym = ResolvedSymbol { name: "main".to_string(), address: 0x1040, size: 12, section: None };
    assert_eq!(symbol_row(&sym), format!("{:#018x} {:>12} {}", 0x1040, 12, "main"));
}

#[test]
fn sizes_of_sections() {
    let with = SectionInfo {
        name: ".text".to_string(),
        kind: object::SectionKind::Text,
        address: 0,
        file_range: Some((64, 128)),
    };
    assert_eq!(file_size(&with), 128);
    let without = SectionInfo { name: ".bss".to_string(), kind: object::SectionKind::UninitializedData, address: 0, file_range: None };
    assert_eq!(file_size(&without), 0);
}

#[test]
fn exit_codes() {
    assert_eq!(exit_code(false, false), 0);
    assert_eq!(exit_code(false, true), 0);
    assert_eq!(exit_code(true, true), 0);
    assert_eq!(exit_code(true, false), 1);
}
