//! x86 disassembly of changed symbols.
use vstd::prelude::*;
use crate::binary::Machine;
use crate::text::{hex10, hex10_string};
use iced_x86::Formatter;

verus! {

/// The instruction width the disassembler decodes for `machine`: 64 for
/// x86-64 (including x32), 32 for i386, none for other architectures.
pub open spec fn spec_bitness_for(machine: Machine) -> Option<u32> {
    match machine {
        Machine::X86_64 | Machine::X86_64X32 => Some(64u32),
        Machine::I386 => Some(32u32),
        _ => None,
    }
}

/// The instruction width to disassemble `machine` with, if it is an x86 family.
pub fn bitness_for(machine: Machine) -> (b: Option<u32>)
    ensures
        b == spec_bitness_for(machine),
{
    match machine {
        Machine::X86_64 | Machine::X86_64X32 => Some(64),
        Machine::I386 => Some(32),
        _ => None,
    }
}

/// The instructions `iced_x86` decodes from `bytes` placed at `rip` with
/// `bitness`: the address of each and its text in Intel syntax.
pub uninterp spec fn decoded(bytes: Seq<u8>, rip: u64, bitness: u32) -> Seq<(u64, Seq<char>)>;

/// The listing of `bytes` at `rip`: one line per decoded instruction, its
/// address as `{:#010x}`, two spaces, and its text.
pub open spec fn disassembly(bytes: Seq<u8>, rip: u64, bitness: u32) -> Seq<Seq<char>> {
    decoded(bytes, rip, bitness).map_values(|p: (u64, Seq<char>)| listing_line(p.0, p.1))
}

/// Decodes `bytes` with `iced_x86::Decoder::with_ip(bitness, bytes, rip,
/// DecoderOptions::NONE)` and formats each instruction with an
/// `IntelFormatter` (no digit separator, operands from column 8).  The
/// decoder panics on a bitness other than 16, 32 or 64, hence the
/// precondition.  Claimed: the addresses and texts are the named `decoded`.
#[verifier::external_body]
fn decode_intel(bytes: &[u8], rip: u64, bitness: u32) -> (r: (Vec<u64>, Vec<String>))
    requires
        bitness == 16 || bitness == 32 || bitness == 64,
    ensures
        r.0@.len() == decoded(bytes@, rip, bitness).len(),
        r.1@.len() == r.0@.len(),
        forall|i: int| 0 <= i < r.0@.len() ==> #[trigger] r.0@[i] == decoded(bytes@, rip, bitness)[i].0,
        forall|i: int| 0 <= i < r.1@.len() ==> #[trigger] r.1@[i]@ == decoded(bytes@, rip, bitness)[i].1,
{
    let mut decoder = iced_x86::Decoder::with_ip(bitness, bytes, rip, iced_x86::DecoderOptions::NONE);
    let mut formatter = iced_x86::IntelFormatter::new();
    formatter.options_mut().set_digit_separator("");
    formatter.options_mut().set_first_operand_char_index(8);
    let (mut ips, mut texts) = (Vec::new(), Vec::new());
    for instr in &mut decoder {
        let mut text = String::new();
        formatter.format(&instr, &mut text);
        ips.push(instr.ip());
        texts.push(text);
    }
    (ips, texts)
}

/// The listing line of an instruction at `ip` with text `text`.
pub open spec fn listing_line(ip: u64, text: Seq<char>) -> Seq<char> {
    hex10(ip as nat) + "  "@ + text
}

/// The listing of decoded instructions: for each address and text, the
/// address as `{:#010x}`, two spaces, and the text.
pub fn listing_lines(ips: &Vec<u64>, texts: &Vec<String>) -> (lines: Vec<String>)
    requires
        ips@.len() == texts@.len(),
    ensures
        lines@.len() == ips@.len(),
        forall|k: int| 0 <= k < ips@.len() ==> #[trigger] lines@[k]@ == listing_line(ips@[k], texts@[k]@),
{
    let mut lines: Vec<String> = Vec::new();
    let mut i: usize = 0;
    while i < ips.len()
        invariant
            i <= ips@.len(),
            ips@.len() == texts@.len(),
            lines@.len() == i,
            forall|k: int| 0 <= k < i ==> #[trigger] lines@[k]@ == listing_line(ips@[k], texts@[k]@),
        decreases ips@.len() - i,
    {
        let mut line = hex10_string(ips[i]);
        line.append("  ");
        line.append(texts[i].as_str());
        lines.push(line);
        i = i + 1;
    }
    lines
}

/// Disassembles `bytes` starting at virtual address `rip`, one line per
/// decoded instruction.
pub fn disassemble(bytes: &[u8], rip: u64, bitness: u32) -> (lines: Vec<String>)
    requires
        bitness == 16 || bitness == 32 || bitness == 64,
    ensures
        crate::bytes::string_views(lines@) == disassembly(bytes@, rip, bitness),
{
    let (ips, texts) = decode_intel(bytes, rip, bitness);
    let lines = listing_lines(&ips, &texts);
    assert(crate::bytes::string_views(lines@) =~= disassembly(bytes@, rip, bitness));
    lines
}

} // verus!
