//! The plain-text tables that list the sections and the symbols of a binary,
//! and the exit status of a comparison.
use vstd::prelude::*;
use crate::binary::SectionInfo;
use crate::symbol::ResolvedSymbol;
use crate::text::{digits, hex18, hex18_string, pad_left, pad_right, push_digits, push_padded, push_padded_right};

verus! {

/// The heading of the section table.
pub open spec fn section_header_text() -> Seq<char> {
    pad_right("SECTION"@, 32, ' ') + " "@ + pad_left("ADDRESS"@, 18, ' ') + " "@ + pad_left("SIZE"@, 12, ' ')
}

/// One row of the section table: the name left-aligned in 32 columns, the
/// address as `{:#018x}`, the size right-aligned in 12 columns.
pub open spec fn section_row_text(name: Seq<char>, address: u64, size: nat) -> Seq<char> {
    pad_right(name, 32, ' ') + " "@ + hex18(address as nat) + " "@ + pad_left(digits(size, 10), 12, ' ')
}

/// The heading of the symbol table.
pub open spec fn symbol_header_text() -> Seq<char> {
    pad_right("ADDRESS"@, 18, ' ') + " "@ + pad_left("SIZE"@, 12, ' ') + " "@ + "NAME"@
}

/// One row of the symbol table: address, size right-aligned in 12 columns, name.
pub open spec fn symbol_row_text(sym: ResolvedSymbol) -> Seq<char> {
    hex18(sym.address as nat) + " "@ + pad_left(digits(sym.size as nat, 10), 12, ' ') + " "@ + sym.name@
}

/// The heading of the section table.
pub fn section_table_header() -> (s: String)
    ensures
        s@ == section_header_text(),
{
    proof {
        reveal_strlit(" ");
    }
    let mut s = String::new();
    push_padded_right(&mut s, "SECTION", 32, " ");
    s.append(" ");
    push_padded(&mut s, "ADDRESS", 18, " ");
    s.append(" ");
    push_padded(&mut s, "SIZE", 12, " ");
    assert(s@ =~= section_header_text());
    s
}

/// One row of the section table.
pub fn section_row(name: &str, address: u64, size: usize) -> (s: String)
    ensures
        s@ == section_row_text(name@, address, size as nat),
{
    proof {
        reveal_strlit(" ");
    }
    let mut s = String::new();
    push_padded_right(&mut s, name, 32, " ");
    s.append(" ");
    let h = hex18_string(address);
    s.append(h.as_str());
    s.append(" ");
    let mut n = String::new();
    push_digits(&mut n, size as u64, 10);
    assert(n@ =~= digits(size as nat, 10));
    push_padded(&mut s, n.as_str(), 12, " ");
    assert(s@ =~= section_row_text(name@, address, size as nat));
    s
}

/// The heading of the symbol table.
pub fn symbol_table_header() -> (s: String)
    ensures
        s@ == symbol_header_text(),
{
    proof {
        reveal_strlit(" ");
    }
    let mut s = String::new();
    push_padded_right(&mut s, "ADDRESS", 18, " ");
    s.append(" ");
    push_padded(&mut s, "SIZE", 12, " ");
    s.append(" ");
    s.append("NAME");
    assert(s@ =~= symbol_header_text());
    s
}

/// One row of the symbol table.
pub fn symbol_row(sym: &ResolvedSymbol) -> (s: String)
    ensures
        s@ == symbol_row_text(*sym),
{
    proof {
        reveal_strlit(" ");
    }
    let mut s = hex18_string(sym.address);
    s.append(" ");
    let mut n = String::new();
    push_digits(&mut n, sym.size, 10);
    assert(n@ =~= digits(sym.size as nat, 10));
    push_padded(&mut s, n.as_str(), 12, " ");
    s.append(" ");
    s.append(sym.name.as_str());
    assert(s@ =~= symbol_row_text(*sym));
    s
}

/// A line of `n` dashes under a table heading.
pub fn rule_line(n: usize) -> (s: String)
    ensures
        s@ == Seq::new(n as nat, |i: int| '-'),
{
    proof {
        reveal_strlit("-");
    }
    let mut s = String::new();
    let mut i: usize = 0;
    while i < n
        invariant
            i <= n,
            s@ == Seq::new(i as nat, |k: int| '-'),
        decreases n - i,
    {
        proof {
            reveal_strlit("-");
        }
        s.append("-");
        i = i + 1;
        assert(s@ =~= Seq::new(i as nat, |k: int| '-'));
    }
    s
}

/// The size of a section's bytes in the file; zero when it has none there.
pub fn file_size(info: &SectionInfo) -> (n: u64)
    ensures
        n == match info.file_range {
            Some(r) => r.1,
            None => 0,
        },
{
    match info.file_range {
        Some((_, size)) => size,
        None => 0,
    }
}

/// The exit status of a comparison: 1 when `strict` asks for it and the
/// builds differ, 0 otherwise.
pub fn exit_code(strict: bool, identical: bool) -> (code: i32)
    ensures
        code == (if strict && !identical { 1i32 } else { 0i32 }),
{
    if strict && !identical {
        1
    } else {
        0
    }
}

} // verus!
