use binate::binary::{BinaryImage, Machine, RawSection};
use binate::diff::{diff_section, join_sections, DiffConfig, SemanticDiff};
use binate::normalize::NormalizerChain;
use binate::report::{ReportConfig, TerminalReporter};
use binate::symbol::{RawSymbol, SymKind, SymbolTable};

fn section(name: &str, address: u64, offset: u64, size: u64) -> RawSection {
    RawSection {
        name: Some(name.to_string()),
        kind: object::SectionKind::Text,
        address,
        file_range: Some((offset, size)),
    }
}

fn symbol(name: &str, address: u64, size: u64) -> RawSymbol {
    RawSymbol {
        kind: SymKind::Text,
        address,
        size,
        name: Some(name.to_string()),
        section: Some(".text".to_string()),
    }
}

/// An image with `.text` (16 bytes at 0x1000, file offset 0), `.note.id`
/// (4 bytes at 0x2000, offset 16) and `extra_name` (4 bytes, offset 20).
fn image(path: &str, extra_name: &str) -> BinaryImage {
    BinaryImage::from_tables(
        path.to_string(),
        object::BinaryFormat::Elf,
        object::Architecture::X86_64,
        Machine::X86_64,
        vec![section(".text", 0x1000, 0, 16), section(".note.id", 0x2000, 16, 4), section(extra_name, 0x3000, 20, 4)],
        &vec![symbol("foo", 0x1000, 8), symbol("bar", 0x1008, 8)],
    )
}

fn config(disasm: bool) -> DiffConfig {
    DiffConfig { normalizer: NormalizerChain::default(), show_disasm: disasm, parallel: false, ignored_sections: vec![] }
}

fn bytes() -> Vec<u8> {
    let mut d = vec![0x90u8; 16];
    d.extend_from_slice(&[1, 2, 3, 4]);
    d.extend_from_slice(&[9, 9, 9, 9]);
    d
}

#[test]
fn same_bytes_are_identical() {
    let l = image("l", ".a");
    let r = image("r", ".a");
    let data = bytes();
    let res = SemanticDiff::compare(&l, &data, &r, &data, &config(false)).unwrap();
    assert!(res.identical);
    assert!(res.symbol_diffs.is_empty() && res.anonymous_diffs.is_empty());
    assert_eq!((res.left_path.as_str(), res.right_path.as_str()), ("l", "r"));
}

#[test]
fn build_ids_do_not_count() {
    let l = image("l", ".a");
    let r = image("r", ".a");
    let left = bytes();
    let mut right = bytes();
    right[17] = 0xee;
    let res = SemanticDiff::compare(&l, &left, &r, &right, &config(false)).unwrap();
    assert!(res.identical);
    let raw = DiffConfig { normalizer: NormalizerChain::new(), ..config(false) };
    let res = SemanticDiff::compare(&l, &left, &r, &right, &raw).unwrap();
    assert!(!res.identical);
    assert_eq!(res.anonymous_diffs.len(), 1);
    assert_eq!(res.anonymous_diffs[0].section, ".note.id");
}

#[test]
fn differences_go_to_their_symbols() {
    let l = image("l", ".a");
    let r = image("r", ".a");
    let left = bytes();
    let mut right = bytes();
    right[9] = 0xc3;
    let res = SemanticDiff::compare(&l, &left, &r, &right, &config(true)).unwrap();
    assert!(!res.identical);
    assert_eq!(res.symbol_diffs.len(), 1);
    let d = &res.symbol_diffs[0];
    assert_eq!(d.symbol.name, "bar");
    assert_eq!(d.ranges.len(), 1);
    assert_eq!((d.ranges[0].offset, d.ranges[0].len), (0x1009, 1));
    assert!(d.source_location.is_none());
    let dl = d.disasm_left.as_ref().unwrap();
    let dr = d.disasm_right.as_ref().unwrap();
    assert_eq!(dl.len(), 8);
    assert_eq!(dr[1], "0x00001009  ret");
    let text = TerminalReporter.render(&res, &ReportConfig { context_lines: 0, color: false });
    assert!(text.contains("▸ symbol: bar\n"));
    assert!(text.contains("  - 0x00001009  nop\n  + 0x00001009  ret\n"));
}

#[test]
fn sections_only_on_one_side_are_listed() {
    let l = image("l", ".left_only");
    let r = image("r", ".right_only");
    let data = bytes();
    let res = SemanticDiff::compare(&l, &data, &r, &data, &config(false)).unwrap();
    assert_eq!(res.sections_only_in_left, vec![".left_only".to_string()]);
    assert_eq!(res.sections_only_in_right, vec![".right_only".to_string()]);
    // A section that only one build has is a difference.
    assert!(!res.identical);
    assert!(res.symbol_diffs.is_empty() && res.anonymous_diffs.is_empty());
}

#[test]
fn ignored_sections_are_skipped() {
    let l = image("l", ".a");
    let r = image("r", ".a");
    let left = bytes();
    let mut right = bytes();
    right[0] = 0;
    let cfg = DiffConfig { ignored_sections: vec![".text".to_string()], ..config(false) };
    let res = SemanticDiff::compare(&l, &left, &r, &right, &cfg).unwrap();
    assert!(res.identical);
}

#[test]
fn planning_and_diffing_one_section() {
    let l = image("l", ".a");
    let r = image("r", ".b");
    let left = bytes();
    let mut right = bytes();
    right[2] = 0;
    let plan = SemanticDiff::plan(&l, &left, &r, &right, &vec![]);
    assert_eq!(plan.only_left, vec![".a".to_string()]);
    assert_eq!(plan.only_right, vec![".b".to_string()]);
    let names: Vec<&str> = plan.shared.iter().map(|s| s.name.as_str()).collect();
    assert!(names.contains(&".text") && names.contains(&".note.id"));
    let text = plan.shared.iter().find(|s| s.name == ".text").unwrap();
    let syms = l.symbol_table();
    let (sd, ad) = diff_section(&text.name, text.left_data, text.left_address, text.right_data, &NormalizerChain::new(), syms);
    assert_eq!(sd.len(), 1);
    assert_eq!(sd[0].symbol.name, "foo");
    assert!(ad.is_empty());
}

#[test]
fn images_expose_their_tables() {
    let l = image("l", ".a");
    let data = bytes();
    assert_eq!(l.path(), "l");
    assert_eq!(l.sections().len(), 3);
    let (d, addr, _) = l.section_data(&data, ".note.id").unwrap();
    assert_eq!((d, addr), (&[1u8, 2, 3, 4][..], 0x2000));
    assert!(l.section_data(&data, ".missing").is_none());
    assert_eq!(l.present_sections(&data).len(), 3);
    assert_eq!(l.symbol_table().iter().len(), 2);
}

#[test]
fn garbage_is_not_a_binary() {
    assert!(BinaryImage::parse(&[1, 2, 3], "x".to_string()).is_err());
    assert!(SymbolTable::build(&[0u8; 8]).is_err());
}

#[test]
fn sections_diffed_out_of_order_assemble_to_the_sequential_result() {
    let l = image("l", ".a");
    let r = image("r", ".a");
    let left = bytes();
    let mut right = bytes();
    right[1] = 0;
    right[12] = 0;
    right[17] = 0xee;
    let cfg = DiffConfig { normalizer: NormalizerChain::new(), ..config(false) };
    let seq = SemanticDiff::compare(&l, &left, &r, &right, &cfg).unwrap();

    let plan = SemanticDiff::plan(&l, &left, &r, &right, &cfg.ignored_sections);
    let syms = l.symbol_table();
    // Diff the last section first, as another thread might, then put each
    // result back in the plan's order.
    let mut parts: Vec<_> = plan
        .shared
        .iter()
        .rev()
        .map(|s| diff_section(&s.name, s.left_data, s.left_address, s.right_data, &cfg.normalizer, syms))
        .collect();
    parts.reverse();
    let par = SemanticDiff::assemble(&l, &left, &r, &right, &cfg, plan, parts);

    assert_eq!(par.identical, seq.identical);
    assert!(!par.identical);
    let names = |res: &binate::diff::DiffResult| -> Vec<(String, Vec<(u64, usize)>)> {
        res.symbol_diffs
            .iter()
            .map(|d| (d.symbol.name.clone(), d.ranges.iter().map(|r| (r.offset, r.len)).collect()))
            .collect()
    };
    assert_eq!(names(&par), names(&seq));
    assert_eq!(names(&par).len(), 2);
    let anon = |res: &binate::diff::DiffResult| -> Vec<String> {
        res.anonymous_diffs.iter().map(|a| a.section.clone()).collect()
    };
    assert_eq!(anon(&par), anon(&seq));
    assert_eq!(anon(&par), vec![".note.id".to_string()]);
    assert_eq!(par.sections_only_in_left, seq.sections_only_in_left);
    assert_eq!(par.sections_only_in_right, seq.sections_only_in_right);
    // The library's own entry point gives the same with the flag set.
    let flagged = DiffConfig { normalizer: NormalizerChain::new(), parallel: true, ..config(false) };
    let seq2 = SemanticDiff::compare(&l, &left, &r, &right, &flagged).unwrap();
    assert_eq!(names(&seq2), names(&seq));
    assert_eq!(anon(&seq2), anon(&seq));
    assert_eq!(seq2.identical, seq.identical);
}

#[test]
fn joined_sections_keep_their_order() {
    let l = image("l", ".a");
    let r = image("r", ".a");
    let left = bytes();
    let mut right = bytes();
    right[1] = 0;
    right[17] = 0xee;
    let syms = l.symbol_table();
    let raw = NormalizerChain::new();
    let text = diff_section(".text", &left[0..16], 0x1000, &right[0..16], &raw, syms);
    let note = diff_section(".note.id", &left[16..20], 0x2000, &right[16..20], &raw, syms);
    assert_eq!((text.0.len(), text.1.len()), (1, 0));
    assert_eq!((note.0.len(), note.1.len()), (0, 1));
    let (sd, ad) = join_sections(vec![note, text]);
    assert_eq!(sd.len(), 1);
    assert_eq!(sd[0].symbol.name, "foo");
    assert_eq!(ad.len(), 1);
    assert_eq!(ad[0].section, ".note.id");
    let (sd, ad) = join_sections(vec![]);
    assert!(sd.is_empty() && ad.is_empty());
}

