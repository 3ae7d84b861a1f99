use binate::diff::{AnonymousDiff, DiffResult, SymbolDiff};
use binate::dwarf::SourceLocation;
use binate::ranges::ByteRange;
use binate::report::{ReportConfig, SarifReporter, TerminalReporter};
use binate::symbol::ResolvedSymbol;

fn range(offset: u64, left: Vec<u8>, right: Vec<u8>) -> ByteRange {
    ByteRange { offset, len: left.len().max(right.len()), left_bytes: left, right_bytes: right }
}

fn sample() -> DiffResult {
    DiffResult {
        left_path: "a.elf".to_string(),
        right_path: "b.elf".to_string(),
        identical: false,
        symbol_diffs: vec![SymbolDiff {
            symbol: ResolvedSymbol {
                name: "main".to_string(),
                address: 0x401000,
                size: 32,
                section: Some(".text".to_string()),
            },
            source_location: Some(SourceLocation { file: "src/main.rs".to_string(), line: Some(7), column: Some(1) }),
            ranges: vec![range(0x401004, vec![1, 2], vec![3, 4])],
            disasm_left: None,
            disasm_right: None,
        }],
        anonymous_diffs: vec![AnonymousDiff {
            section: ".data".to_string(),
            ranges: vec![range(0x10, (0..20).collect(), (100..120).collect())],
        }],
        sections_only_in_left: vec![".extra".to_string()],
        sections_only_in_right: vec![],
    }
}

fn plain(context: usize) -> ReportConfig {
    ReportConfig { context_lines: context, color: false }
}

#[test]
fn identical_report() {
    let mut r = sample();
    r.identical = true;
    assert_eq!(TerminalReporter.render(&r, &plain(3)), "Binaries are identical after normalization.\n");
}

#[test]
fn full_report_without_colours() {
    let text = TerminalReporter.render(&sample(), &plain(3));
    let want = [
        "Differences found between\n  LEFT:  a.elf\n  RIGHT: b.elf\n\n",
        "Sections only in LEFT:\n  .extra\n",
        "▸ symbol: main (src/main.rs:7)\n",
        "  address: 0x00401000  size: 32 bytes\n",
        "  changed ranges: 1\n",
        "  [0x00401004+  2]  left=[1, 2]  right=[3, 4]\n",
        "\n",
        "▸ section: .data (unattributed)\n",
        "  changed ranges: 1\n",
        "  [0x00000010+ 20]  left=[0, 1, 2, 3, 4, 5, 6, 7, 8, 9, 10, 11, 12, 13, 14, 15]  right=[100, 101, 102, 103, 104, 105, 106, 107, 108, 109, 110, 111, 112, 113, 114, 115]\n",
        "\n",
    ]
    .concat();
    assert_eq!(text, want);
}

#[test]
fn unknown_line_is_a_question_mark() {
    let mut r = sample();
    r.symbol_diffs[0].source_location = Some(SourceLocation { file: "x.rs".to_string(), line: None, column: None });
    r.anonymous_diffs.clear();
    r.sections_only_in_left.clear();
    let text = TerminalReporter.render(&r, &plain(3));
    assert!(text.contains("▸ symbol: main (x.rs:?)\n"));
}

#[test]
fn disassembly_diff_is_shown() {
    let mut r = sample();
    r.anonymous_diffs.clear();
    r.sections_only_in_left.clear();
    r.symbol_diffs[0].source_location = None;
    r.symbol_diffs[0].disasm_left = Some(vec!["a".to_string(), "b".to_string(), "c".to_string()]);
    r.symbol_diffs[0].disasm_right = Some(vec!["a".to_string(), "x".to_string(), "c".to_string()]);
    let text = TerminalReporter.render(&r, &plain(0));
    let want = [
        "Differences found between\n  LEFT:  a.elf\n  RIGHT: b.elf\n\n",
        "▸ symbol: main\n",
        "  address: 0x00401000  size: 32 bytes\n",
        "  changed ranges: 1\n",
        "  [0x00401004+  2]  left=[1, 2]  right=[3, 4]\n",
        "  --- disasm diff ---\n",
        "  - b\n",
        "  + x\n",
        "\n",
    ]
    .concat();
    assert_eq!(text, want);
    let with_context = TerminalReporter.render(&r, &plain(1));
    assert!(with_context.contains("  --- disasm diff ---\n    a\n  - b\n  + x\n    c\n"));
}

#[test]
fn coloured_report_keeps_the_text() {
    let text = TerminalReporter.render(&sample(), &ReportConfig { context_lines: 3, color: true });
    assert!(text.contains("main (src/main.rs:7)"));
    assert!(text.contains("  changed ranges: 1\n"));
}

#[test]
fn sarif_entries_follow_the_diffs() {
    let entries = SarifReporter.entries(&sample());
    assert_eq!(entries.len(), 2);
    assert_eq!(entries[0].rule_id, "BINATE001");
    assert_eq!(entries[0].message, "Non-deterministic output in symbol 'main': 1 byte range(s) differ");
    let loc = entries[0].location.as_ref().unwrap();
    assert_eq!((loc.uri.as_str(), loc.start_line), ("src/main.rs", 7));
    assert_eq!(entries[1].rule_id, "BINATE002");
    assert_eq!(entries[1].message, "Non-deterministic output in section '.data': 1 byte range(s) differ");
    assert!(entries[1].location.is_none());
}

#[test]
fn sarif_location_defaults() {
    let mut r = sample();
    r.symbol_diffs[0].source_location = None;
    let entries = SarifReporter.entries(&r);
    let loc = entries[0].location.as_ref().unwrap();
    assert_eq!((loc.uri.as_str(), loc.start_line), ("<unknown>", 1));
    r.symbol_diffs[0].source_location = Some(SourceLocation { file: "f.rs".to_string(), line: None, column: None });
    let entries = SarifReporter.entries(&r);
    let loc = entries[0].location.as_ref().unwrap();
    assert_eq!((loc.uri.as_str(), loc.start_line), ("f.rs", 1));
}
