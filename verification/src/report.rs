//! Human-readable reports of a comparison, and the entries of a SARIF log.
use vstd::prelude::*;
use crate::diff::{AnonymousDiff, DiffResult, SymbolDiff, opt_lines_view};
use crate::dwarf::SourceLocation;
use crate::ranges::{ByteRange, ByteRangeView, range_views};
use crate::text::{digits, hex10, hex10_string, pad_left, push_digits, push_padded};

verus! {

/// How a report is laid out.
pub struct ReportConfig {
    /// Unchanged disassembly lines shown around each change.
    pub context_lines: usize,
    /// Whether headings and changed lines carry terminal colours.
    pub color: bool,
}

/// Renders a comparison as text for a terminal.
pub struct TerminalReporter;

/// Renders a comparison as JSON.
pub struct JsonReporter;

/// Renders a comparison as a SARIF log.
pub struct SarifReporter;

// ------------------------------------------------------------ byte lists

/// The items of `b` in decimal, separated by `", "`.
pub open spec fn byte_items(b: Seq<u8>) -> Seq<char>
    decreases b.len(),
{
    if b.len() == 0 {
        Seq::empty()
    } else if b.len() == 1 {
        digits(b[0] as nat, 10)
    } else {
        byte_items(b.drop_last()) + ", "@ + digits(b.last() as nat, 10)
    }
}

/// `b` as `{:?}` writes a byte slice: `[1, 2, 3]`.
pub open spec fn byte_list(b: Seq<u8>) -> Seq<char> {
    "["@ + byte_items(b) + "]"@
}

/// The bytes of a range that a report shows: at most the first sixteen.
pub open spec fn shown(b: Seq<u8>) -> Seq<u8> {
    if b.len() <= 16 {
        b
    } else {
        b.take(16)
    }
}

/// Appends the first `n` bytes of `b` as a list.
fn push_byte_list(out: &mut String, b: &[u8], n: usize)
    requires
        n <= b@.len(),
    ensures
        final(out)@ == old(out)@ + byte_list(b@.take(n as int)),
{
    out.append("[");
    let mut i: usize = 0;
    while i < n
        invariant
            i <= n <= b@.len(),
            out@ == old(out)@ + "["@ + byte_items(b@.take(i as int)),
        decreases n - i,
    {
        let ghost before = out@;
        let t = Ghost(b@.take(i + 1));
        if i > 0 {
            out.append(", ");
        }
        push_digits(out, b[i] as u64, 10);
        proof {
            assert(t@.drop_last() =~= b@.take(i as int));
            assert(t@.last() == b@[i as int]);
            if i == 0 {
                assert(byte_items(b@.take(0)) =~= Seq::<char>::empty());
                assert(out@ =~= before + byte_items(t@));
            } else {
                assert(out@ =~= before + ", "@ + digits(b@[i as int] as nat, 10));
            }
            assert(out@ =~= old(out)@ + "["@ + byte_items(t@));
        }
        i = i + 1;
    }
    out.append("]");
    assert(out@ =~= old(out)@ + byte_list(b@.take(n as int)));
}

// ---------------------------------------------------------------- ranges

/// One line for a differing range: its address, its length (right-aligned
/// in three columns) and the bytes shown of each side.
pub open spec fn range_line(r: ByteRangeView) -> Seq<char> {
    "  ["@ + hex10(r.offset as nat) + "+"@ + pad_left(digits(r.len as nat, 10), 3, ' ') + "]  left="@
        + byte_list(shown(r.left)) + "  right="@ + byte_list(shown(r.right)) + "\n"@
}

/// The lines of all `rs`, in order.
pub open spec fn range_lines(rs: Seq<ByteRangeView>) -> Seq<char>
    decreases rs.len(),
{
    if rs.len() == 0 {
        Seq::empty()
    } else {
        range_lines(rs.drop_last()) + range_line(rs.last())
    }
}

/// Appends the first bytes of `b` that a report shows.
fn push_shown(out: &mut String, b: &Vec<u8>)
    ensures
        final(out)@ == old(out)@ + byte_list(shown(b@)),
{
    let n: usize = if b.len() <= 16 { b.len() } else { 16 };
    push_byte_list(out, b.as_slice(), n);
    assert(b@.take(n as int) =~= shown(b@));
}

fn push_range_line(out: &mut String, r: &ByteRange)
    ensures
        final(out)@ == old(out)@ + range_line(r@),
{
    proof {
        reveal_strlit(" ");
    }
    out.append("  [");
    let h = hex10_string(r.offset);
    out.append(h.as_str());
    out.append("+");
    let mut len_text = String::new();
    push_digits(&mut len_text, r.len as u64, 10);
    assert(len_text@ =~= digits(r.len as nat, 10));
    push_padded(out, len_text.as_str(), 3, " ");
    out.append("]  left=");
    push_shown(out, &r.left_bytes);
    out.append("  right=");
    push_shown(out, &r.right_bytes);
    out.append("\n");
    assert(out@ =~= old(out)@ + range_line(r@));
}

fn push_range_lines(out: &mut String, rs: &Vec<ByteRange>)
    ensures
        final(out)@ == old(out)@ + range_lines(range_views(rs@)),
{
    let mut i: usize = 0;
    while i < rs.len()
        invariant
            i <= rs@.len(),
            out@ == old(out)@ + range_lines(range_views(rs@.take(i as int))),
        decreases rs@.len() - i,
    {
        push_range_line(out, &rs[i]);
        proof {
            let t = range_views(rs@.take(i + 1));
            assert(t.drop_last() =~= range_views(rs@.take(i as int)));
            assert(t.last() == rs@[i as int]@);
            assert(out@ =~= old(out)@ + range_lines(t));
        }
        i = i + 1;
    }
    assert(rs@.take(rs@.len() as int) =~= rs@);
}

// ------------------------------------------------------------- disasm diff

/// The lines of `ls` joined with newlines, as `join("\n")` gives them.
pub open spec fn joined_lines(ls: Seq<Seq<char>>) -> Seq<char>
    decreases ls.len(),
{
    if ls.len() == 0 {
        Seq::empty()
    } else if ls.len() == 1 {
        ls[0]
    } else {
        joined_lines(ls.drop_last()) + "\n"@ + ls.last()
    }
}

/// What `similar` reports for a line diff of `old` against `new` with
/// `context` unchanged lines kept around each change: every line of every
/// group of changes, in order, with its tag (0 kept, 1 removed, 2 added)
/// and its text, the line break included where the line has one.
pub uninterp spec fn line_diff(old: Seq<char>, new: Seq<char>, context: nat) -> Seq<(u8, Seq<char>)>;

/// The lines of `similar::TextDiff::from_lines(old, new)` taken group by
/// group from `grouped_ops(context)` and change by change from
/// `iter_changes`: the tag of each (`Equal` as 0, `Delete` as 1, `Insert`
/// as 2) and its `value()`.  The diff runs without a deadline, so the result
/// is a function of the three arguments, named `line_diff`.
#[verifier::external_body]
fn grouped_line_changes(old: &str, new: &str, context: usize) -> (r: (Vec<u8>, Vec<String>))
    ensures
        r.0@.len() == line_diff(old@, new@, context as nat).len(),
        r.1@.len() == r.0@.len(),
        forall|i: int| 0 <= i < r.0@.len() ==> #[trigger] r.0@[i] == line_diff(old@, new@, context as nat)[i].0,
        forall|i: int| 0 <= i < r.1@.len() ==> #[trigger] r.1@[i]@ == line_diff(old@, new@, context as nat)[i].1,
{
    let diff = similar::TextDiff::from_lines(old, new);
    let (mut tags, mut lines) = (Vec::new(), Vec::new());
    for group in diff.grouped_ops(context) {
        for op in &group {
            for change in diff.iter_changes(op) {
                tags.push(match change.tag() {
                    similar::ChangeTag::Equal => 0,
                    similar::ChangeTag::Delete => 1,
                    similar::ChangeTag::Insert => 2,
                });
                lines.push(change.value().to_string());
            }
        }
    }
    (tags, lines)
}

/// The sign a changed line is marked with.
pub open spec fn change_sign(tag: u8) -> Seq<char> {
    if tag == 1 {
        "-"@
    } else if tag == 2 {
        "+"@
    } else {
        " "@
    }
}

/// The escape codes that start a piece of style `paint` (see
/// `pieces_text`): a foreground colour code, then the bold code.
pub open spec fn paint_codes(paint: u8) -> Seq<char> {
    if paint == 1 {
        seq!['\u{1b}', '[', '3', '2', 'm', '\u{1b}', '[', '1', 'm']
    } else if paint == 2 {
        seq!['\u{1b}', '[', '1', 'm']
    } else if paint == 3 {
        seq!['\u{1b}', '[', '3', '3', 'm', '\u{1b}', '[', '1', 'm']
    } else if paint == 4 {
        seq!['\u{1b}', '[', '3', '6', 'm', '\u{1b}', '[', '1', 'm']
    } else if paint == 5 {
        seq!['\u{1b}', '[', '3', '1', 'm']
    } else if paint == 6 {
        seq!['\u{1b}', '[', '3', '2', 'm']
    } else {
        Seq::empty()
    }
}

/// Whether `r` is `text` as a terminal style of style `paint` writes it:
/// the text alone when colours are off, or the style's codes, the text and
/// the reset code when they are on.
pub open spec fn styled_form(r: Seq<char>, text: Seq<char>, paint: u8) -> bool {
    r == text || r == paint_codes(paint) + text + seq!['\u{1b}', '[', '0', 'm']
}

/// `console::style(text).green().bold()`, written out.  `console` decides
/// from the terminal and the environment whether escape codes are written;
/// when it does, it writes the colour code, the bold code, the text and the
/// reset code.
#[verifier::external_body]
fn bold_green(text: &str) -> (r: String)
    ensures
        styled_form(r@, text@, 1),
{
    console::style(text).green().bold().to_string()
}

/// `console::style(text).bold()`, written out (see `bold_green`).
#[verifier::external_body]
fn bold(text: &str) -> (r: String)
    ensures
        styled_form(r@, text@, 2),
{
    console::style(text).bold().to_string()
}

/// `console::style(text).yellow().bold()`, written out (see `bold_green`).
#[verifier::external_body]
fn bold_yellow(text: &str) -> (r: String)
    ensures
        styled_form(r@, text@, 3),
{
    console::style(text).yellow().bold().to_string()
}

/// `console::style(text).cyan().bold()`, written out (see `bold_green`).
#[verifier::external_body]
fn bold_cyan(text: &str) -> (r: String)
    ensures
        styled_form(r@, text@, 4),
{
    console::style(text).cyan().bold().to_string()
}

/// `console::style(text).red()`, written out (see `bold_green`).
#[verifier::external_body]
fn red(text: &str) -> (r: String)
    ensures
        styled_form(r@, text@, 5),
{
    console::style(text).red().to_string()
}

/// `console::style(text).green()`, written out (see `bold_green`).
#[verifier::external_body]
fn green(text: &str) -> (r: String)
    ensures
        styled_form(r@, text@, 6),
{
    console::style(text).green().to_string()
}

/// `ls` joined with newlines.
fn join_lines(ls: &Vec<String>) -> (r: String)
    ensures
        r@ == joined_lines(crate::bytes::string_views(ls@)),
{
    let mut r = String::new();
    let mut i: usize = 0;
    while i < ls.len()
        invariant
            i <= ls@.len(),
            r@ == joined_lines(crate::bytes::string_views(ls@.take(i as int))),
        decreases ls@.len() - i,
    {
        let ghost before = r@;
        if i > 0 {
            r.append("\n");
        }
        r.append(ls[i].as_str());
        proof {
            let t = crate::bytes::string_views(ls@.take(i + 1));
            assert(t.drop_last() =~= crate::bytes::string_views(ls@.take(i as int)));
            assert(t.last() == ls@[i as int]@);
            if i == 0 {
                assert(r@ =~= t[0]);
            } else {
                assert(r@ =~= before + "\n"@ + t.last());
            }
        }
        i = i + 1;
    }
    assert(ls@.take(ls@.len() as int) =~= ls@);
    r
}

/// ` (file:line)` after a symbol's name when its source is known, with `?`
/// for an unknown line.
pub open spec fn location_suffix(loc: Option<SourceLocation>) -> Seq<char> {
    match loc {
        None => Seq::empty(),
        Some(l) => " ("@ + l.file@ + ":"@ + (match l.line {
            Some(n) => digits(n as nat, 10),
            None => "?"@,
        }) + ")"@,
    }
}

fn push_location_suffix(out: &mut String, loc: &Option<SourceLocation>)
    ensures
        final(out)@ == old(out)@ + location_suffix(*loc),
{
    match loc {
        None => {
            assert(out@ =~= old(out)@ + Seq::<char>::empty());
        },
        Some(l) => {
            out.append(" (");
            out.append(l.file.as_str());
            out.append(":");
            match l.line {
                Some(n) => push_digits(out, n as u64, 10),
                None => out.append("?"),
            }
            out.append(")");
            assert(out@ =~= old(out)@ + location_suffix(*loc));
        },
    }
}


// ---------------------------------------------------------------- pieces

/// The text of report pieces, one after the other.  A piece is a style
/// (0 plain, 1 bold green, 2 bold, 3 bold yellow, 4 bold cyan, 5 red,
/// 6 green) and a text.
pub open spec fn pieces_text(ps: Seq<(u8, Seq<char>)>) -> Seq<char>
    decreases ps.len(),
{
    if ps.len() == 0 {
        Seq::empty()
    } else {
        pieces_text(ps.drop_last()) + ps.last().1
    }
}

/// Texts one after the other.
pub open spec fn concat_texts(xs: Seq<Seq<char>>) -> Seq<char>
    decreases xs.len(),
{
    if xs.len() == 0 {
        Seq::empty()
    } else {
        concat_texts(xs.drop_last()) + xs.last()
    }
}

/// `x` is how piece `p` may be written for a colour terminal: a plain piece
/// as its text, a styled one as `console` writes styled text.
pub open spec fn piece_form(x: Seq<char>, p: (u8, Seq<char>)) -> bool {
    if p.0 == 0 {
        x == p.1
    } else {
        styled_form(x, p.1, p.0)
    }
}

/// `out` writes the pieces `ps` in order, each in a form `piece_form` allows.
pub open spec fn painted(out: Seq<char>, ps: Seq<(u8, Seq<char>)>) -> bool {
    exists|xs: Seq<Seq<char>>|
        xs.len() == ps.len() && (forall|i: int| 0 <= i < ps.len() ==> #[trigger] piece_form(xs[i], ps[i]))
            && out == #[trigger] concat_texts(xs)
}

pub open spec fn piece_views(v: Seq<(u8, String)>) -> Seq<(u8, Seq<char>)> {
    v.map_values(|p: (u8, String)| (p.0, p.1@))
}

proof fn lemma_pieces_text_append(a: Seq<(u8, Seq<char>)>, b: Seq<(u8, Seq<char>)>)
    ensures
        pieces_text(a + b) == pieces_text(a) + pieces_text(b),
    decreases b.len(),
{
    if b.len() == 0 {
        assert(a + b =~= a);
        assert(pieces_text(a) + pieces_text(b) =~= pieces_text(a));
    } else {
        lemma_pieces_text_append(a, b.drop_last());
        assert((a + b).drop_last() =~= a + b.drop_last());
        assert((a + b).last() == b.last());
        assert(pieces_text(a + b) =~= pieces_text(a) + pieces_text(b));
    }
}

fn push_piece(ps: &mut Vec<(u8, String)>, paint: u8, text: String)
    ensures
        piece_views(final(ps)@) == piece_views(old(ps)@).push((paint, text@)),
{
    let ghost t = text@;
    ps.push((paint, text));
    assert(piece_views(ps@) =~= piece_views(old(ps)@).push((paint, t)));
}

// ------------------------------------------------------------- disasm diff

/// The style of a changed line: removed lines red, added lines green.
pub open spec fn change_paint(tag: u8) -> u8 {
    if tag == 1 {
        5
    } else if tag == 2 {
        6
    } else {
        0
    }
}

/// The pieces of changed lines: each indented, marked with its sign.
pub open spec fn change_pieces(cs: Seq<(u8, Seq<char>)>) -> Seq<(u8, Seq<char>)>
    decreases cs.len(),
{
    if cs.len() == 0 {
        Seq::empty()
    } else {
        change_pieces(cs.drop_last()).push(
            (change_paint(cs.last().0), "  "@ + change_sign(cs.last().0) + " "@ + cs.last().1),
        )
    }
}

/// The heading of a disassembly diff, when both sides were disassembled.
pub open spec fn disasm_heading(left: Option<Seq<Seq<char>>>, right: Option<Seq<Seq<char>>>) -> Seq<char> {
    match (left, right) {
        (Some(_), Some(_)) => "  --- disasm diff ---\n"@,
        _ => Seq::empty(),
    }
}

/// The changed lines of a disassembly diff, when both sides were disassembled.
pub open spec fn disasm_pieces(left: Option<Seq<Seq<char>>>, right: Option<Seq<Seq<char>>>, context: nat) -> Seq<
    (u8, Seq<char>),
> {
    match (left, right) {
        (Some(l), Some(r)) => change_pieces(line_diff(joined_lines(l), joined_lines(r), context)),
        _ => Seq::empty(),
    }
}

fn push_change_pieces(ps: &mut Vec<(u8, String)>, left: &Vec<String>, right: &Vec<String>, context: usize)
    ensures
        piece_views(final(ps)@) == piece_views(old(ps)@) + change_pieces(
            line_diff(
                joined_lines(crate::bytes::string_views(left@)),
                joined_lines(crate::bytes::string_views(right@)),
                context as nat,
            ),
        ),
{
    let lt = join_lines(left);
    let rt = join_lines(right);
    let (tags, lines) = grouped_line_changes(lt.as_str(), rt.as_str(), context);
    let ghost cs = line_diff(lt@, rt@, context as nat);
    let mut i: usize = 0;
    while i < tags.len()
        invariant
            i <= tags@.len(),
            tags@.len() == cs.len(),
            lines@.len() == cs.len(),
            forall|k: int| 0 <= k < tags@.len() ==> #[trigger] tags@[k] == cs[k].0,
            forall|k: int| 0 <= k < lines@.len() ==> #[trigger] lines@[k]@ == cs[k].1,
            piece_views(ps@) == piece_views(old(ps)@) + change_pieces(cs.take(i as int)),
        decreases tags@.len() - i,
    {
        let tag = tags[i];
        let sign = if tag == 1 {
            "-"
        } else if tag == 2 {
            "+"
        } else {
            " "
        };
        let paint: u8 = if tag == 1 {
            5
        } else if tag == 2 {
            6
        } else {
            0
        };
        let mut piece = String::from_str("  ");
        piece.append(sign);
        piece.append(" ");
        piece.append(lines[i].as_str());
        push_piece(ps, paint, piece);
        proof {
            let t = cs.take(i + 1);
            assert(t.drop_last() =~= cs.take(i as int));
            assert(t.last() == cs[i as int]);
            assert(piece_views(ps@) =~= piece_views(old(ps)@) + change_pieces(t));
        }
        i = i + 1;
    }
    assert(cs.take(cs.len() as int) =~= cs);
}

// ---------------------------------------------------------------- blocks

/// The pieces reporting the differences of one symbol: its heading (bold
/// yellow), its address, size and ranges, the disassembly diff, a blank line.
pub open spec fn symbol_pieces(sd: SymbolDiff, context: nat) -> Seq<(u8, Seq<char>)> {
    let dl = opt_lines_view(sd.disasm_left);
    let dr = opt_lines_view(sd.disasm_right);
    seq![
        (3u8, "▸ symbol: "@ + sd.symbol.name@ + location_suffix(sd.source_location)),
        (
            0u8,
            "\n"@ + "  address: "@ + hex10(sd.symbol.address as nat) + "  size: "@ + digits(sd.symbol.size as nat, 10)
                + " bytes\n"@ + "  changed ranges: "@ + digits(sd.ranges@.len(), 10) + "\n"@ + range_lines(
                range_views(sd.ranges@),
            ) + disasm_heading(dl, dr),
        ),
    ] + disasm_pieces(dl, dr, context) + seq![(0u8, "\n"@)]
}

/// The pieces of all `sds`, in order.
pub open spec fn symbols_pieces(sds: Seq<SymbolDiff>, context: nat) -> Seq<(u8, Seq<char>)>
    decreases sds.len(),
{
    if sds.len() == 0 {
        Seq::empty()
    } else {
        symbols_pieces(sds.drop_last(), context) + symbol_pieces(sds.last(), context)
    }
}

/// The pieces reporting a section that no symbol owns: its heading (bold
/// cyan), then its ranges and a blank line.
pub open spec fn anonymous_pieces(ad: AnonymousDiff) -> Seq<(u8, Seq<char>)> {
    seq![
        (4u8, "▸ section: "@ + ad.section@ + " (unattributed)"@),
        (
            0u8,
            "\n"@ + "  changed ranges: "@ + digits(ad.ranges@.len(), 10) + "\n"@ + range_lines(range_views(ad.ranges@))
                + "\n"@,
        ),
    ]
}

/// The pieces of all `ads`, in order.
pub open spec fn anonymous_pieces_all(ads: Seq<AnonymousDiff>) -> Seq<(u8, Seq<char>)>
    decreases ads.len(),
{
    if ads.len() == 0 {
        Seq::empty()
    } else {
        anonymous_pieces_all(ads.drop_last()) + anonymous_pieces(ads.last())
    }
}

fn push_symbol_pieces(ps: &mut Vec<(u8, String)>, sd: &SymbolDiff, context: usize)
    ensures
        piece_views(final(ps)@) == piece_views(old(ps)@) + symbol_pieces(*sd, context as nat),
{
    let ghost dl = opt_lines_view(sd.disasm_left);
    let ghost dr = opt_lines_view(sd.disasm_right);
    let mut heading = String::from_str("▸ symbol: ");
    heading.append(sd.symbol.name.as_str());
    push_location_suffix(&mut heading, &sd.source_location);
    push_piece(ps, 3, heading);
    let ghost p1 = piece_views(ps@);
    let mut body = String::from_str("\n");
    body.append("  address: ");
    let h = hex10_string(sd.symbol.address);
    body.append(h.as_str());
    body.append("  size: ");
    push_digits(&mut body, sd.symbol.size, 10);
    body.append(" bytes\n");
    body.append("  changed ranges: ");
    push_digits(&mut body, sd.ranges.len() as u64, 10);
    body.append("\n");
    push_range_lines(&mut body, &sd.ranges);
    let ghost p2 = piece_views(ps@);
    match (&sd.disasm_left, &sd.disasm_right) {
        (Some(l), Some(r)) => {
            body.append("  --- disasm diff ---\n");
            push_piece(ps, 0, body);
            let ghost p3 = piece_views(ps@);
            push_change_pieces(ps, l, r, context);
            proof {
                assert(piece_views(ps@) == p3 + disasm_pieces(dl, dr, context as nat));
            }
        },
        _ => {
            push_piece(ps, 0, body);
            proof {
                assert(piece_views(ps@) =~= piece_views(ps@) + disasm_pieces(dl, dr, context as nat));
            }
        },
    }
    push_piece(ps, 0, String::from_str("\n"));
    assert(piece_views(ps@) =~= piece_views(old(ps)@) + symbol_pieces(*sd, context as nat));
}

fn push_anonymous_pieces(ps: &mut Vec<(u8, String)>, ad: &AnonymousDiff)
    ensures
        piece_views(final(ps)@) == piece_views(old(ps)@) + anonymous_pieces(*ad),
{
    let mut heading = String::from_str("▸ section: ");
    heading.append(ad.section.as_str());
    heading.append(" (unattributed)");
    push_piece(ps, 4, heading);
    let mut body = String::from_str("\n");
    body.append("  changed ranges: ");
    push_digits(&mut body, ad.ranges.len() as u64, 10);
    body.append("\n");
    push_range_lines(&mut body, &ad.ranges);
    body.append("\n");
    push_piece(ps, 0, body);
    assert(piece_views(ps@) =~= piece_views(old(ps)@) + anonymous_pieces(*ad));
}

// ---------------------------------------------------------------- report

/// One indented line per name.
pub open spec fn name_lines(ns: Seq<String>) -> Seq<char>
    decreases ns.len(),
{
    if ns.len() == 0 {
        Seq::empty()
    } else {
        name_lines(ns.drop_last()) + "  "@ + ns.last()@ + "\n"@
    }
}

/// A titled list of names, or nothing when there are none.
pub open spec fn titled_names(title: Seq<char>, ns: Seq<String>) -> Seq<char> {
    if ns.len() == 0 {
        Seq::empty()
    } else {
        title + name_lines(ns)
    }
}


/// The pieces of the report of `r`, with `context` lines of context in
/// disassembly diffs.
pub open spec fn terminal_pieces(r: DiffResult, context: nat) -> Seq<(u8, Seq<char>)> {
    if r.identical {
        seq![(1u8, "Binaries are identical after normalization."@), (0u8, "\n"@)]
    } else {
        seq![
            (2u8, "Differences found between\n  LEFT:  "@ + r.left_path@ + "\n  RIGHT: "@ + r.right_path@),
            (
                0u8,
                "\n"@ + "\n"@ + titled_names("Sections only in LEFT:\n"@, r.sections_only_in_left@) + titled_names(
                    "Sections only in RIGHT:\n"@,
                    r.sections_only_in_right@,
                ),
            ),
        ] + symbols_pieces(r.symbol_diffs@, context) + anonymous_pieces_all(r.anonymous_diffs@)
    }
}

/// The plain-text report of `r`.
pub open spec fn terminal_text(r: DiffResult, context: nat) -> Seq<char> {
    pieces_text(terminal_pieces(r, context))
}

/// `text` holds, from position `p` on, one line `"  name"` for each of `ns`,
/// in order, one right after the other.
pub open spec fn lines_from(text: Seq<char>, p: int, ns: Seq<String>) -> bool
    decreases ns.len(),
{
    if ns.len() == 0 {
        0 <= p <= text.len()
    } else {
        let e = p + ns[0]@.len() + 3;
        &&& 0 <= p
        &&& e <= text.len()
        &&& text.subrange(p, e) == "  "@ + ns[0]@ + "\n"@
        &&& lines_from(text, e, ns.drop_first())
    }
}

/// `text` holds the heading `title` at `p`, followed right away by one line
/// per name of `ns`.
pub open spec fn heading_with_names(text: Seq<char>, p: int, title: Seq<char>, ns: Seq<String>) -> bool {
    &&& 0 <= p
    &&& p + title.len() <= text.len()
    &&& text.subrange(p, p + title.len()) == title
    &&& lines_from(text, p + title.len(), ns)
}

proof fn lemma_name_lines_front(ns: Seq<String>)
    requires
        ns.len() > 0,
    ensures
        name_lines(ns) == "  "@ + ns[0]@ + "\n"@ + name_lines(ns.drop_first()),
    decreases ns.len(),
{
    if ns.len() > 1 {
        lemma_name_lines_front(ns.drop_last());
        assert(ns.drop_last().drop_first() =~= ns.drop_first().drop_last());
        assert(ns.drop_last()[0] == ns[0]);
        assert(ns.drop_first().last() == ns.last());
    } else {
        assert(ns.drop_first() =~= Seq::<String>::empty());
        assert(ns.drop_last() =~= Seq::<String>::empty());
    }
}

proof fn lemma_lines_from_name_lines(x: Seq<char>, ns: Seq<String>, y: Seq<char>)
    ensures
        lines_from(x + name_lines(ns) + y, x.len() as int, ns),
    decreases ns.len(),
{
    let t = x + name_lines(ns) + y;
    if ns.len() > 0 {
        lemma_name_lines_front(ns);
        reveal_strlit("  ");
        reveal_strlit("\n");
        let line = "  "@ + ns[0]@ + "\n"@;
        let x2 = x + line;
        assert(t =~= x2 + name_lines(ns.drop_first()) + y);
        lemma_lines_from_name_lines(x2, ns.drop_first(), y);
        assert(line.len() == ns[0]@.len() + 3);
        assert(t.subrange(x.len() as int, x.len() + ns[0]@.len() + 3int) =~= line);
    }
}

proof fn lemma_heading_found(x: Seq<char>, title: Seq<char>, ns: Seq<String>, y: Seq<char>)
    requires
        ns.len() > 0,
    ensures
        heading_with_names(x + titled_names(title, ns) + y, x.len() as int, title, ns),
{
    let t = x + titled_names(title, ns) + y;
    assert(t =~= (x + title) + name_lines(ns) + y);
    lemma_lines_from_name_lines(x + title, ns, y);
    assert(t.subrange(x.len() as int, x.len() + title.len() as int) =~= title);
}

proof fn lemma_report_text_shape(r: DiffResult, context: nat)
    requires
        !r.identical,
    ensures
        terminal_text(r, context) == terminal_pieces(r, context)[0].1 + "\n"@ + "\n"@ + titled_names(
            "Sections only in LEFT:\n"@,
            r.sections_only_in_left@,
        ) + titled_names("Sections only in RIGHT:\n"@, r.sections_only_in_right@) + pieces_text(
            symbols_pieces(r.symbol_diffs@, context) + anonymous_pieces_all(r.anonymous_diffs@),
        ),
{
    let ps = terminal_pieces(r, context);
    let a0 = ps[0];
    let a1 = ps[1];
    let one = seq![a0];
    let head = seq![a0, a1];
    let rest = symbols_pieces(r.symbol_diffs@, context) + anonymous_pieces_all(r.anonymous_diffs@);
    assert(ps =~= head + rest);
    lemma_pieces_text_append(head, rest);
    assert(one.drop_last() =~= Seq::<(u8, Seq<char>)>::empty());
    assert(pieces_text(Seq::<(u8, Seq<char>)>::empty()) == Seq::<char>::empty());
    assert(one.last() == a0);
    assert(pieces_text(one) == pieces_text(one.drop_last()) + one.last().1);
    assert(pieces_text(one) =~= a0.1);
    assert(head.drop_last() =~= one);
    assert(pieces_text(head) =~= a0.1 + a1.1);
    assert(terminal_text(r, context) =~= a0.1 + a1.1 + pieces_text(rest));
}

/// The report of a comparison that found differences names each section
/// that only one side has, one line each, right under the heading for that
/// side: `Sections only in LEFT:` for those only the left build has, and
/// `Sections only in RIGHT:` for those only the right build has.
pub proof fn lemma_report_lists_one_sided_sections(r: DiffResult, context: nat)
    requires
        !r.identical,
    ensures
        r.sections_only_in_left@.len() > 0 ==> exists|p: int|
            heading_with_names(terminal_text(r, context), p, "Sections only in LEFT:\n"@, r.sections_only_in_left@),
        r.sections_only_in_right@.len() > 0 ==> exists|p: int|
            heading_with_names(terminal_text(r, context), p, "Sections only in RIGHT:\n"@, r.sections_only_in_right@),
{
    lemma_report_text_shape(r, context);
    let text = terminal_text(r, context);
    let h0 = terminal_pieces(r, context)[0].1;
    let hl = "Sections only in LEFT:\n"@;
    let hr = "Sections only in RIGHT:\n"@;
    let tl = titled_names(hl, r.sections_only_in_left@);
    let tr = titled_names(hr, r.sections_only_in_right@);
    let tail = pieces_text(symbols_pieces(r.symbol_diffs@, context) + anonymous_pieces_all(r.anonymous_diffs@));
    if r.sections_only_in_left@.len() > 0 {
        let x = h0 + "\n"@ + "\n"@;
        assert(text =~= x + tl + (tr + tail));
        lemma_heading_found(x, hl, r.sections_only_in_left@, tr + tail);
        assert(heading_with_names(text, x.len() as int, hl, r.sections_only_in_left@));
    }
    if r.sections_only_in_right@.len() > 0 {
        let x = h0 + "\n"@ + "\n"@ + tl;
        assert(text =~= x + tr + tail);
        lemma_heading_found(x, hr, r.sections_only_in_right@, tail);
        assert(heading_with_names(text, x.len() as int, hr, r.sections_only_in_right@));
    }
}

/// The text of a piece as written for a colour terminal.
fn styled(paint: u8, text: &str) -> (r: String)
    ensures
        piece_form(r@, (paint, text@)),
{
    if paint == 1 {
        bold_green(text)
    } else if paint == 2 {
        bold(text)
    } else if paint == 3 {
        bold_yellow(text)
    } else if paint == 4 {
        bold_cyan(text)
    } else if paint == 5 {
        red(text)
    } else if paint == 6 {
        green(text)
    } else {
        String::from_str(text)
    }
}

fn report_pieces(result: &DiffResult, context: usize) -> (ps: Vec<(u8, String)>)
    ensures
        piece_views(ps@) == terminal_pieces(*result, context as nat),
{
    let mut ps: Vec<(u8, String)> = Vec::new();
    if result.identical {
        push_piece(&mut ps, 1, String::from_str("Binaries are identical after normalization."));
        push_piece(&mut ps, 0, String::from_str("\n"));
        assert(piece_views(ps@) =~= terminal_pieces(*result, context as nat));
        return ps;
    }
    let mut header = String::from_str("Differences found between\n  LEFT:  ");
    header.append(result.left_path.as_str());
    header.append("\n  RIGHT: ");
    header.append(result.right_path.as_str());
    push_piece(&mut ps, 2, header);
    let mut lists = String::from_str("\n");
    lists.append("\n");
    push_titled_names(&mut lists, "Sections only in LEFT:\n", &result.sections_only_in_left);
    push_titled_names(&mut lists, "Sections only in RIGHT:\n", &result.sections_only_in_right);
    push_piece(&mut ps, 0, lists);
    let ghost start = piece_views(ps@);
    let mut i: usize = 0;
    while i < result.symbol_diffs.len()
        invariant
            i <= result.symbol_diffs@.len(),
            piece_views(ps@) == start + symbols_pieces(result.symbol_diffs@.take(i as int), context as nat),
        decreases result.symbol_diffs@.len() - i,
    {
        push_symbol_pieces(&mut ps, &result.symbol_diffs[i], context);
        proof {
            let t = result.symbol_diffs@.take(i + 1);
            assert(t.drop_last() =~= result.symbol_diffs@.take(i as int));
            assert(t.last() == result.symbol_diffs@[i as int]);
            assert(piece_views(ps@) =~= start + symbols_pieces(t, context as nat));
        }
        i = i + 1;
    }
    assert(result.symbol_diffs@.take(result.symbol_diffs@.len() as int) =~= result.symbol_diffs@);
    let ghost mid = piece_views(ps@);
    let mut j: usize = 0;
    while j < result.anonymous_diffs.len()
        invariant
            j <= result.anonymous_diffs@.len(),
            piece_views(ps@) == mid + anonymous_pieces_all(result.anonymous_diffs@.take(j as int)),
        decreases result.anonymous_diffs@.len() - j,
    {
        push_anonymous_pieces(&mut ps, &result.anonymous_diffs[j]);
        proof {
            let t = result.anonymous_diffs@.take(j + 1);
            assert(t.drop_last() =~= result.anonymous_diffs@.take(j as int));
            assert(t.last() == result.anonymous_diffs@[j as int]);
            assert(piece_views(ps@) =~= mid + anonymous_pieces_all(t));
        }
        j = j + 1;
    }
    assert(result.anonymous_diffs@.take(result.anonymous_diffs@.len() as int) =~= result.anonymous_diffs@);
    assert(piece_views(ps@) =~= terminal_pieces(*result, context as nat));
    ps
}

impl TerminalReporter {
    /// The report of `result`: the pieces of `terminal_pieces`, as plain
    /// text without colours, each styled by its style with colours.
    pub fn render(&self, result: &DiffResult, cfg: &ReportConfig) -> (out: String)
        ensures
            !cfg.color ==> out@ == terminal_text(*result, cfg.context_lines as nat),
            cfg.color ==> painted(out@, terminal_pieces(*result, cfg.context_lines as nat)),
    {
        let ps = report_pieces(result, cfg.context_lines);
        let ghost pv = piece_views(ps@);
        let mut out = String::new();
        let ghost mut xs: Seq<Seq<char>> = Seq::empty();
        let mut i: usize = 0;
        while i < ps.len()
            invariant
                i <= ps@.len(),
                pv == piece_views(ps@),
                xs.len() == i,
                forall|k: int| 0 <= k < i ==> #[trigger] piece_form(xs[k], pv[k]),
                out@ == concat_texts(xs),
                !cfg.color ==> out@ == pieces_text(pv.take(i as int)),
            decreases ps@.len() - i,
        {
            let paint = ps[i].0;
            let text = ps[i].1.as_str();
            let ghost x: Seq<char>;
            if cfg.color {
                let s = styled(paint, text);
                proof {
                    x = s@;
                }
                out.append(s.as_str());
            } else {
                proof {
                    x = text@;
                }
                out.append(text);
            }
            proof {
                assert(pv[i as int] == (paint, text@));
                assert(piece_form(x, pv[i as int]));
                let t = pv.take(i + 1);
                assert(t.drop_last() =~= pv.take(i as int));
                assert(t.last() == pv[i as int]);
                let old_xs = xs;
                xs = xs.push(x);
                assert(xs.drop_last() =~= old_xs);
                assert(xs.last() == x);
                assert(out@ =~= concat_texts(xs));
                assert forall|k: int| 0 <= k < i + 1 implies #[trigger] piece_form(xs[k], pv[k]) by {
                    if k < i {
                        assert(xs[k] == old_xs[k]);
                    }
                }
            }
            i = i + 1;
        }
        assert(pv.take(pv.len() as int) =~= pv);
        assert(out@ == concat_texts(xs));
        out
    }
}

fn push_titled_names(out: &mut String, title: &str, ns: &Vec<String>)
    ensures
        final(out)@ == old(out)@ + titled_names(title@, ns@),
{
    if ns.len() == 0 {
        assert(out@ =~= old(out)@ + titled_names(title@, ns@));
        return;
    }
    out.append(title);
    let ghost start = out@;
    let mut i: usize = 0;
    while i < ns.len()
        invariant
            i <= ns@.len(),
            out@ == start + name_lines(ns@.take(i as int)),
        decreases ns@.len() - i,
    {
        out.append("  ");
        out.append(ns[i].as_str());
        out.append("\n");
        proof {
            let t = ns@.take(i + 1);
            assert(t.drop_last() =~= ns@.take(i as int));
            assert(out@ =~= start + name_lines(t));
        }
        i = i + 1;
    }
    assert(ns@.take(ns@.len() as int) =~= ns@);
    assert(out@ =~= old(out)@ + titled_names(title@, ns@));
}

// ----------------------------------------------------------------- SARIF

/// Where a SARIF result points: a file and a line in it.
pub struct SarifLocation {
    pub uri: String,
    pub start_line: u32,
}

/// One result of a SARIF log.
pub struct SarifEntry {
    pub rule_id: String,
    pub message: String,
    pub location: Option<SarifLocation>,
}

pub ghost struct SarifEntryView {
    pub rule_id: Seq<char>,
    pub message: Seq<char>,
    pub location: Option<(Seq<char>, u32)>,
}

impl View for SarifEntry {
    type V = SarifEntryView;

    open spec fn view(&self) -> SarifEntryView {
        SarifEntryView {
            rule_id: self.rule_id@,
            message: self.message@,
            location: match self.location {
                Some(l) => Some((l.uri@, l.start_line)),
                None => None,
            },
        }
    }
}

/// The result reporting a symbol: rule `BINATE001`, located at the
/// symbol's source (`<unknown>` and line 1 where that is not known).
pub open spec fn symbol_entry(sd: SymbolDiff) -> SarifEntryView {
    SarifEntryView {
        rule_id: "BINATE001"@,
        message: "Non-deterministic output in symbol '"@ + sd.symbol.name@ + "': "@ + digits(sd.ranges@.len(), 10)
            + " byte range(s) differ"@,
        location: match sd.source_location {
            Some(l) => Some(
                (
                    l.file@,
                    match l.line {
                        Some(n) => n,
                        None => 1u32,
                    },
                ),
            ),
            None => Some(("<unknown>"@, 1u32)),
        },
    }
}

/// The result reporting an unattributed section: rule `BINATE002`, with
/// no location.
pub open spec fn anonymous_entry(ad: AnonymousDiff) -> SarifEntryView {
    SarifEntryView {
        rule_id: "BINATE002"@,
        message: "Non-deterministic output in section '"@ + ad.section@ + "': "@ + digits(ad.ranges@.len(), 10)
            + " byte range(s) differ"@,
        location: None,
    }
}

/// The results of the SARIF log of `r`: one per symbol, then one per
/// unattributed section.
pub open spec fn sarif_entries(r: DiffResult) -> Seq<SarifEntryView> {
    r.symbol_diffs@.map_values(|sd: SymbolDiff| symbol_entry(sd)) + r.anonymous_diffs@.map_values(
        |ad: AnonymousDiff| anonymous_entry(ad),
    )
}

pub open spec fn entry_views(v: Seq<SarifEntry>) -> Seq<SarifEntryView> {
    v.map_values(|e: SarifEntry| e@)
}

/// The message of a result: what differs, named, and how many ranges.
fn sarif_message(kind: &str, name: &str, count: usize) -> (m: String)
    ensures
        m@ == "Non-deterministic output in "@ + kind@ + " '"@ + name@ + "': "@ + digits(count as nat, 10)
            + " byte range(s) differ"@,
{
    let mut m = String::from_str("Non-deterministic output in ");
    m.append(kind);
    m.append(" '");
    m.append(name);
    m.append("': ");
    push_digits(&mut m, count as u64, 10);
    m.append(" byte range(s) differ");
    m
}

fn symbol_result(sd: &SymbolDiff) -> (e: SarifEntry)
    ensures
        e@ == symbol_entry(*sd),
{
    proof {
        reveal_strlit("Non-deterministic output in ");
        reveal_strlit("symbol");
        reveal_strlit(" '");
        reveal_strlit("Non-deterministic output in symbol '");
    }
    let message = sarif_message("symbol", sd.symbol.name.as_str(), sd.ranges.len());
    let location = match &sd.source_location {
        Some(l) => SarifLocation {
            uri: l.file.clone(),
            start_line: match l.line {
                Some(n) => n,
                None => 1,
            },
        },
        None => SarifLocation { uri: String::from_str("<unknown>"), start_line: 1 },
    };
    let e = SarifEntry { rule_id: String::from_str("BINATE001"), message, location: Some(location) };
    assert(e@.message =~= symbol_entry(*sd).message);
    e
}

fn anonymous_result(ad: &AnonymousDiff) -> (e: SarifEntry)
    ensures
        e@ == anonymous_entry(*ad),
{
    proof {
        reveal_strlit("Non-deterministic output in ");
        reveal_strlit("section");
        reveal_strlit(" '");
        reveal_strlit("Non-deterministic output in section '");
    }
    let message = sarif_message("section", ad.section.as_str(), ad.ranges.len());
    let e = SarifEntry { rule_id: String::from_str("BINATE002"), message, location: None };
    assert(e@.message =~= anonymous_entry(*ad).message);
    e
}

impl SarifReporter {
    /// The results of the SARIF log of `result`, in the order the log lists them.
    pub fn entries(&self, result: &DiffResult) -> (v: Vec<SarifEntry>)
        ensures
            entry_views(v@) == sarif_entries(*result),
    {
        let mut v: Vec<SarifEntry> = Vec::new();
        let mut i: usize = 0;
        while i < result.symbol_diffs.len()
            invariant
                i <= result.symbol_diffs@.len(),
                entry_views(v@) == result.symbol_diffs@.take(i as int).map_values(|sd: SymbolDiff| symbol_entry(sd)),
            decreases result.symbol_diffs@.len() - i,
        {
            let e = symbol_result(&result.symbol_diffs[i]);
            let ghost ev = e@;
            let ghost before = entry_views(v@);
            v.push(e);
            proof {
                let want = result.symbol_diffs@.take(i + 1).map_values(|sd: SymbolDiff| symbol_entry(sd));
                assert(result.symbol_diffs@.take(i as int).len() == i);
                assert(before.len() == i);
                assert(v@.len() == i + 1);
                assert(entry_views(v@).len() == want.len());
                assert forall|k: int| 0 <= k < want.len() implies #[trigger] entry_views(v@)[k] == want[k] by {
                    if k < i {
                        assert(entry_views(v@)[k] == before[k]);
                    } else {
                        assert(entry_views(v@)[k] == ev);
                    }
                }
                assert(entry_views(v@) =~= want);
            }
            i = i + 1;
        }
        assert(result.symbol_diffs@.take(result.symbol_diffs@.len() as int) =~= result.symbol_diffs@);
        let ghost head = entry_views(v@);
        let mut j: usize = 0;
        while j < result.anonymous_diffs.len()
            invariant
                j <= result.anonymous_diffs@.len(),
                entry_views(v@) == head + result.anonymous_diffs@.take(j as int).map_values(
                    |ad: AnonymousDiff| anonymous_entry(ad),
                ),
            decreases result.anonymous_diffs@.len() - j,
        {
            let e = anonymous_result(&result.anonymous_diffs[j]);
            let ghost ev = e@;
            let ghost before = entry_views(v@);
            v.push(e);
            proof {
                let want = head + result.anonymous_diffs@.take(j + 1).map_values(|ad: AnonymousDiff| anonymous_entry(ad));
                assert(result.anonymous_diffs@.take(j as int).len() == j);
                assert(before.len() == head.len() + j);
                assert(v@.len() == before.len() + 1);
                assert(entry_views(v@).len() == want.len());
                assert forall|k: int| 0 <= k < want.len() implies #[trigger] entry_views(v@)[k] == want[k] by {
                    if k < before.len() {
                        assert(entry_views(v@)[k] == before[k]);
                    } else {
                        assert(entry_views(v@)[k] == ev);
                    }
                }
                assert(entry_views(v@) =~= want);
            }
            j = j + 1;
        }
        assert(result.anonymous_diffs@.take(result.anonymous_diffs@.len() as int) =~= result.anonymous_diffs@);
        assert(entry_views(v@) =~= sarif_entries(*result));
        v
    }
}

} // verus!
