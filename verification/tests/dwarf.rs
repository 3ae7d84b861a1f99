use binate::binary::Machine;
use binate::disasm::{bitness_for, disassemble};
use binate::dwarf::{best_location, is_big_endian, join_source_path, unit_may_contain, FileName, LineRow, UnitExtent};

#[test]
fn joining_source_paths() {
    assert_eq!(join_source_path(Some("/build"), Some("src"), "main.rs"), "/build/src/main.rs");
    assert_eq!(join_source_path(Some("/build/"), Some("src/"), "main.rs"), "/build/src/main.rs");
    assert_eq!(join_source_path(None, None, "main.rs"), "main.rs");
    assert_eq!(join_source_path(Some(""), Some(""), "a.rs"), "a.rs");
    // A directory the compilation directory already ends with is not repeated.
    assert_eq!(join_source_path(Some("/build/src"), Some("src"), "main.rs"), "/build/src/main.rs");
    assert_eq!(join_source_path(None, Some("/abs/dir"), "x.rs"), "/abs/dir/x.rs");
}

fn row(address: u64, file: Option<&str>, line: Option<u64>) -> LineRow {
    LineRow {
        address,
        file: file.map(|f| FileName { comp_dir: Some("/c".to_string()), dir: None, name: f.to_string() }),
        line,
        column: 3,
    }
}

#[test]
fn best_location_takes_the_last_row_at_or_below() {
    let rows = vec![row(0x10, Some("a.rs"), Some(1)), row(0x14, Some("b.rs"), Some(2)), row(0x18, Some("c.rs"), Some(3))];
    let loc = best_location(&rows, 0x17).unwrap();
    assert_eq!((loc.file.as_str(), loc.line, loc.column), ("/c/b.rs", Some(2), Some(3)));
    assert!(best_location(&rows, 0x0f).is_none());
    let loc = best_location(&rows, 0x100).unwrap();
    assert_eq!(loc.file, "/c/c.rs");
}

#[test]
fn rows_without_a_file_are_skipped() {
    let rows = vec![row(0x10, Some("a.rs"), None), row(0x14, None, Some(2))];
    let loc = best_location(&rows, 0x15).unwrap();
    assert_eq!((loc.file.as_str(), loc.line), ("/c/a.rs", None));
}

#[test]
fn unit_extents() {
    assert!(unit_may_contain(&UnitExtent::Ranges(vec![(0x10, 0x20), (0x30, 0x40)]), 0x35));
    assert!(!unit_may_contain(&UnitExtent::Ranges(vec![(0x10, 0x20)]), 0x20));
    assert!(unit_may_contain(&UnitExtent::UnresolvedRanges, 0));
    assert!(unit_may_contain(&UnitExtent::LowHigh(0x10, 0x20), 0x1f));
    assert!(!unit_may_contain(&UnitExtent::LowHigh(0x10, 0x20), 0x20));
    assert!(unit_may_contain(&UnitExtent::LowLength(0x10, 0x10), 0x1f));
    assert!(!unit_may_contain(&UnitExtent::LowLength(0x10, 0x10), 0x0f));
    assert!(unit_may_contain(&UnitExtent::Unbounded, 123));
}

#[test]
fn endianness_and_bitness() {
    assert!(is_big_endian(Machine::PowerPc64));
    assert!(is_big_endian(Machine::Sparc64));
    assert!(!is_big_endian(Machine::X86_64));
    assert_eq!(bitness_for(Machine::X86_64), Some(64));
    assert_eq!(bitness_for(Machine::X86_64X32), Some(64));
    assert_eq!(bitness_for(Machine::I386), Some(32));
    assert_eq!(bitness_for(Machine::Mips), None);
}

#[test]
fn disassembly_lines() {
    let lines = disassemble(&[0x90, 0xc3], 0x1000, 64);
    assert_eq!(lines, vec!["0x00001000  nop".to_string(), "0x00001001  ret".to_string()]);
}

#[test]
fn listing_of_decoded_instructions() {
    let lines = binate::disasm::listing_lines(&vec![0x10, 0x401000], &vec!["nop".to_string(), "ret".to_string()]);
    assert_eq!(lines, vec!["0x00000010  nop".to_string(), "0x00401000  ret".to_string()]);
}
