use binate::binary::{BinaryImage, Machine, RawSection};
use binate::diff::{SemanticDiff, SymbolDiff};
use binate::dwarf::DwarfIndex;
use binate::symbol::ResolvedSymbol;

fn section(name: &str, offset: u64, size: u64) -> RawSection {
    RawSection {
        name: Some(name.to_string()),
        kind: object::SectionKind::Debug,
        address: 0,
        file_range: Some((offset, size)),
    }
}

/// A DWARF 4 compilation unit for [0x1000, 0x1010) with a line program
/// giving line 1 at 0x1000 and line 5 at 0x1004, in file `a.rs`.
fn dwarf_image() -> (BinaryImage, Vec<u8>) {
    let abbrev: Vec<u8> = vec![1, 0x11, 0, 0x03, 0x08, 0x1b, 0x08, 0x10, 0x17, 0x11, 0x01, 0x12, 0x06, 0, 0, 0];
    let mut info: Vec<u8> = Vec::new();
    info.extend_from_slice(&34u32.to_le_bytes());
    info.extend_from_slice(&4u16.to_le_bytes());
    info.extend_from_slice(&0u32.to_le_bytes());
    info.push(8);
    info.push(1);
    info.extend_from_slice(b"a.rs\0");
    info.extend_from_slice(b"/src\0");
    info.extend_from_slice(&0u32.to_le_bytes());
    info.extend_from_slice(&0x1000u64.to_le_bytes());
    info.extend_from_slice(&0x10u32.to_le_bytes());
    assert_eq!(info.len(), 38);
    let mut line: Vec<u8> = Vec::new();
    line.extend_from_slice(&56u32.to_le_bytes());
    line.extend_from_slice(&4u16.to_le_bytes());
    line.extend_from_slice(&28u32.to_le_bytes());
    line.extend_from_slice(&[1, 1, 1, 0xfb, 14, 13]);
    line.extend_from_slice(&[0, 1, 1, 1, 1, 0, 0, 0, 1, 0, 0, 1]);
    line.push(0);
    line.extend_from_slice(b"a.rs\0");
    line.extend_from_slice(&[0, 0, 0]);
    line.push(0);
    line.extend_from_slice(&[0, 9, 2]);
    line.extend_from_slice(&0x1000u64.to_le_bytes());
    line.extend_from_slice(&[1, 2, 4, 3, 4, 1, 2, 12, 0, 1, 1]);
    assert_eq!(line.len(), 60);
    let mut data = info.clone();
    data.extend_from_slice(&abbrev);
    data.extend_from_slice(&line);
    let img = BinaryImage::from_tables(
        "dbg".to_string(),
        object::BinaryFormat::Elf,
        object::Architecture::X86_64,
        Machine::X86_64,
        vec![
            section(".debug_info", 0, info.len() as u64),
            section(".debug_abbrev", info.len() as u64, abbrev.len() as u64),
            section(".debug_line", (info.len() + abbrev.len()) as u64, line.len() as u64),
        ],
        &vec![],
    );
    (img, data)
}

#[test]
fn line_tables_give_source_locations() {
    let (img, data) = dwarf_image();
    let ix = DwarfIndex::load(&img, &data).unwrap();
    let loc = ix.resolve(0x1005).unwrap().unwrap();
    assert!(loc.file.ends_with("a.rs"));
    assert_eq!(loc.line, Some(5));
    let loc = ix.resolve(0x1000).unwrap().unwrap();
    assert_eq!(loc.line, Some(1));
    assert!(ix.resolve(0x2000).unwrap().is_none());
}

#[test]
fn located_symbols_carry_their_source() {
    let (img, data) = dwarf_image();
    let d = SymbolDiff {
        symbol: ResolvedSymbol { name: "f".to_string(), address: 0x1004, size: 4, section: None },
        source_location: None,
        ranges: vec![],
        disasm_left: None,
        disasm_right: None,
    };
    let out = SemanticDiff::locate(&img, &data, vec![d]);
    assert_eq!(out[0].source_location.as_ref().unwrap().line, Some(5));
}

#[test]
fn no_dwarf_no_location() {
    let img = BinaryImage::from_tables(
        "x".to_string(),
        object::BinaryFormat::Elf,
        object::Architecture::X86_64,
        Machine::X86_64,
        vec![],
        &vec![],
    );
    let ix = DwarfIndex::load(&img, &[]).unwrap();
    assert!(ix.resolve(0x1000).unwrap().is_none());
}
