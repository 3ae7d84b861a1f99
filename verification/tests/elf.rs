use binate::binary::{BinaryImage, Machine};
use binate::diff::{DiffConfig, SemanticDiff};
use binate::normalize::NormalizerChain;
use binate::symbol::SymbolTable;

fn put_u16(v: &mut Vec<u8>, x: u16) {
    v.extend_from_slice(&x.to_le_bytes());
}
fn put_u32(v: &mut Vec<u8>, x: u32) {
    v.extend_from_slice(&x.to_le_bytes());
}
fn put_u64(v: &mut Vec<u8>, x: u64) {
    v.extend_from_slice(&x.to_le_bytes());
}

#[allow(clippy::too_many_arguments)]
fn section_header(v: &mut Vec<u8>, name: u32, kind: u32, flags: u64, addr: u64, offset: u64, size: u64, align: u64) {
    put_u32(v, name);
    put_u32(v, kind);
    put_u64(v, flags);
    put_u64(v, addr);
    put_u64(v, offset);
    put_u64(v, size);
    put_u32(v, 0);
    put_u32(v, 0);
    put_u64(v, align);
    put_u64(v, 0);
}

/// A minimal x86-64 ELF file with a `.text` section holding `code` at 0x401000.
fn tiny_elf(code: [u8; 4]) -> Vec<u8> {
    let names = b"\0.text\0.shstrtab\0";
    let shoff: u64 = 88;
    let mut v = vec![0x7f, b'E', b'L', b'F', 2, 1, 1, 0, 0, 0, 0, 0, 0, 0, 0, 0];
    put_u16(&mut v, 2);
    put_u16(&mut v, 0x3e);
    put_u32(&mut v, 1);
    put_u64(&mut v, 0x401000);
    put_u64(&mut v, 0);
    put_u64(&mut v, shoff);
    put_u32(&mut v, 0);
    put_u16(&mut v, 64);
    put_u16(&mut v, 56);
    put_u16(&mut v, 0);
    put_u16(&mut v, 64);
    put_u16(&mut v, 3);
    put_u16(&mut v, 2);
    assert_eq!(v.len(), 64);
    v.extend_from_slice(&code);
    v.extend_from_slice(names);
    while (v.len() as u64) < shoff {
        v.push(0);
    }
    section_header(&mut v, 0, 0, 0, 0, 0, 0, 0);
    section_header(&mut v, 1, 1, 6, 0x401000, 64, 4, 16);
    section_header(&mut v, 7, 3, 0, 0, 68, names.len() as u64, 1);
    v
}

#[test]
fn a_tiny_elf_file_is_read() {
    let data = tiny_elf([0x90, 0x90, 0x90, 0xc3]);
    let img = BinaryImage::parse(&data, "tiny".to_string()).unwrap();
    assert_eq!(img.path(), "tiny");
    assert!(img.machine() == Machine::X86_64);
    assert_eq!(img.architecture(), object::Architecture::X86_64);
    assert_eq!(img.format(), object::BinaryFormat::Elf);
    let (code, addr, _) = img.section_data(&data, ".text").unwrap();
    assert_eq!((code, addr), (&[0x90u8, 0x90, 0x90, 0xc3][..], 0x401000));
    assert!(img.sections().iter().any(|s| s.name == ".shstrtab"));
    assert!(img.symbol_table().iter().is_empty());
    assert!(SymbolTable::build(&data).unwrap().iter().is_empty());
}

#[test]
fn changed_code_without_symbols_is_unattributed() {
    let left = tiny_elf([0x90, 0x90, 0x90, 0xc3]);
    let right = tiny_elf([0x90, 0xcc, 0x90, 0xc3]);
    let l = BinaryImage::parse(&left, "left".to_string()).unwrap();
    let r = BinaryImage::parse(&right, "right".to_string()).unwrap();
    let cfg = DiffConfig { normalizer: NormalizerChain::default(), show_disasm: true, parallel: false, ignored_sections: vec![] };
    let res = SemanticDiff::compare(&l, &left, &r, &right, &cfg).unwrap();
    assert!(!res.identical);
    assert!(res.symbol_diffs.is_empty());
    assert_eq!(res.anonymous_diffs.len(), 1);
    assert_eq!(res.anonymous_diffs[0].section, ".text");
    assert_eq!(res.anonymous_diffs[0].ranges[0].offset, 0x401001);
}
