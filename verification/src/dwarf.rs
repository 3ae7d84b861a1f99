//! Source locations of addresses: the DWARF sections of an image, read with
//! `gimli`, and the walk over their units and line programs.
use vstd::prelude::*;
use crate::binary::{BinaryImage, Machine, SectionLayout, first_named, is_present};
use crate::bytes::{copy_bytes, has_suffix, str_ends_with, str_equals};
use gimli::Reader;
use crate::error::BinateError;

verus! {

/// A file and position in the source.
pub struct SourceLocation {
    pub file: String,
    pub line: Option<u32>,
    pub column: Option<u32>,
}

pub ghost struct SourceLocationView {
    pub file: Seq<char>,
    pub line: Option<u32>,
    pub column: Option<u32>,
}

impl View for SourceLocation {
    type V = SourceLocationView;

    open spec fn view(&self) -> SourceLocationView {
        SourceLocationView { file: self.file@, line: self.line, column: self.column }
    }
}

// ------------------------------------------------------------- endianness

/// Architectures whose DWARF data is big-endian.
pub open spec fn spec_is_big_endian(machine: Machine) -> bool {
    match machine {
        Machine::PowerPc | Machine::PowerPc64 | Machine::Mips | Machine::Sparc64 => true,
        _ => false,
    }
}

pub fn is_big_endian(machine: Machine) -> (b: bool)
    ensures
        b == spec_is_big_endian(machine),
{
    match machine {
        Machine::PowerPc | Machine::PowerPc64 | Machine::Mips | Machine::Sparc64 => true,
        _ => false,
    }
}

// --------------------------------------------------------------- sections

/// The bytes of the first section named `name` of `img` in `data`, or nothing.
pub open spec fn section_or_empty(img: BinaryImage, data: Seq<u8>, name: Seq<char>) -> Seq<u8> {
    match first_named(img.layouts(), name) {
        Some(k) => {
            let l: SectionLayout = img.layouts()[k];
            if is_present(l, data.len() as int) {
                data.subrange(l.offset as int, (l.offset + l.size) as int)
            } else {
                Seq::empty()
            }
        },
        None => Seq::empty(),
    }
}

/// The DWARF sections of an image, owned, and the byte order to read them in.
pub struct DwarfSections {
    pub debug_info: Vec<u8>,
    pub debug_abbrev: Vec<u8>,
    pub debug_str: Vec<u8>,
    pub debug_str_offsets: Vec<u8>,
    pub debug_line: Vec<u8>,
    pub debug_line_str: Vec<u8>,
    pub debug_ranges: Vec<u8>,
    pub debug_rnglists: Vec<u8>,
    pub debug_addr: Vec<u8>,
    pub big_endian: bool,
}

pub ghost struct DwarfSectionsView {
    pub debug_info: Seq<u8>,
    pub debug_abbrev: Seq<u8>,
    pub debug_str: Seq<u8>,
    pub debug_str_offsets: Seq<u8>,
    pub debug_line: Seq<u8>,
    pub debug_line_str: Seq<u8>,
    pub debug_ranges: Seq<u8>,
    pub debug_rnglists: Seq<u8>,
    pub debug_addr: Seq<u8>,
    pub big_endian: bool,
}

impl View for DwarfSections {
    type V = DwarfSectionsView;

    open spec fn view(&self) -> DwarfSectionsView {
        DwarfSectionsView {
            debug_info: self.debug_info@,
            debug_abbrev: self.debug_abbrev@,
            debug_str: self.debug_str@,
            debug_str_offsets: self.debug_str_offsets@,
            debug_line: self.debug_line@,
            debug_line_str: self.debug_line_str@,
            debug_ranges: self.debug_ranges@,
            debug_rnglists: self.debug_rnglists@,
            debug_addr: self.debug_addr@,
            big_endian: self.big_endian,
        }
    }
}

/// The DWARF sections of the image `img` held in `data`.
pub open spec fn dwarf_sections_of(img: BinaryImage, data: Seq<u8>) -> DwarfSectionsView {
    DwarfSectionsView {
        debug_info: section_or_empty(img, data, ".debug_info"@),
        debug_abbrev: section_or_empty(img, data, ".debug_abbrev"@),
        debug_str: section_or_empty(img, data, ".debug_str"@),
        debug_str_offsets: section_or_empty(img, data, ".debug_str_offsets"@),
        debug_line: section_or_empty(img, data, ".debug_line"@),
        debug_line_str: section_or_empty(img, data, ".debug_line_str"@),
        debug_ranges: section_or_empty(img, data, ".debug_ranges"@),
        debug_rnglists: section_or_empty(img, data, ".debug_rnglists"@),
        debug_addr: section_or_empty(img, data, ".debug_addr"@),
        big_endian: spec_is_big_endian(img.spec_machine()),
    }
}

/// A copy of the bytes of the section `name`, empty when it is absent.
fn load_section(img: &BinaryImage, data: &[u8], name: &str) -> (v: Vec<u8>)
    ensures
        v@ == section_or_empty(*img, data@, name@),
{
    match img.section_data(data, name) {
        Some((bytes, _addr, _kind)) => copy_bytes(bytes),
        None => Vec::new(),
    }
}

impl DwarfSections {
    /// Copies the DWARF sections out of the image `img` held in `data`.
    pub fn load(img: &BinaryImage, data: &[u8]) -> (s: DwarfSections)
        ensures
            s.debug_info@ == section_or_empty(*img, data@, ".debug_info"@),
            s.debug_abbrev@ == section_or_empty(*img, data@, ".debug_abbrev"@),
            s.debug_str@ == section_or_empty(*img, data@, ".debug_str"@),
            s.debug_str_offsets@ == section_or_empty(*img, data@, ".debug_str_offsets"@),
            s.debug_line@ == section_or_empty(*img, data@, ".debug_line"@),
            s.debug_line_str@ == section_or_empty(*img, data@, ".debug_line_str"@),
            s.debug_ranges@ == section_or_empty(*img, data@, ".debug_ranges"@),
            s.debug_rnglists@ == section_or_empty(*img, data@, ".debug_rnglists"@),
            s.debug_addr@ == section_or_empty(*img, data@, ".debug_addr"@),
            s.big_endian == spec_is_big_endian(img.spec_machine()),
            s@ == dwarf_sections_of(*img, data@),
    {
        DwarfSections {
            debug_info: load_section(img, data, ".debug_info"),
            debug_abbrev: load_section(img, data, ".debug_abbrev"),
            debug_str: load_section(img, data, ".debug_str"),
            debug_str_offsets: load_section(img, data, ".debug_str_offsets"),
            debug_line: load_section(img, data, ".debug_line"),
            debug_line_str: load_section(img, data, ".debug_line_str"),
            debug_ranges: load_section(img, data, ".debug_ranges"),
            debug_rnglists: load_section(img, data, ".debug_rnglists"),
            debug_addr: load_section(img, data, ".debug_addr"),
            big_endian: is_big_endian(img.machine()),
        }
    }
}

// ------------------------------------------------------------ unit ranges

/// What the root entry of a compilation unit says about the addresses it covers.
pub enum UnitExtent {
    /// `DW_AT_ranges` resolved to its list of `[begin, end)` ranges.
    Ranges(Vec<(u64, u64)>),
    /// `DW_AT_ranges` in a form that is not followed.
    UnresolvedRanges,
    /// `DW_AT_low_pc` with `DW_AT_high_pc` given as an address.
    LowHigh(u64, u64),
    /// `DW_AT_low_pc` with `DW_AT_high_pc` given as a length.
    LowLength(u64, u64),
    /// Nothing that bounds the unit.
    Unbounded,
}

/// The unit may hold code at `address`.
pub open spec fn spec_unit_may_contain(e: UnitExtent, address: u64) -> bool {
    match e {
        UnitExtent::Ranges(rs) => in_some_range(rs@, address),
        UnitExtent::UnresolvedRanges => true,
        UnitExtent::LowHigh(lo, hi) => lo <= address < hi,
        UnitExtent::LowLength(lo, len) => lo <= address < lo + len,
        UnitExtent::Unbounded => true,
    }
}

/// Some range `[begin, end)` of `rs` holds `address`.
pub open spec fn in_some_range(rs: Seq<(u64, u64)>, address: u64) -> bool {
    exists|k: int| 0 <= k < rs.len() && rs[k].0 <= address < #[trigger] rs[k].1
}

fn any_range_contains(rs: &Vec<(u64, u64)>, address: u64) -> (b: bool)
    ensures
        b == in_some_range(rs@, address),
{
    let mut i: usize = 0;
    while i < rs.len()
        invariant
            i <= rs@.len(),
            forall|k: int| 0 <= k < i ==> !(rs@[k].0 <= address < #[trigger] rs@[k].1),
        decreases rs@.len() - i,
    {
        if rs[i].0 <= address && address < rs[i].1 {
            assert(rs@[i as int].0 <= address < rs@[i as int].1);
            return true;
        }
        i = i + 1;
    }
    false
}

/// Whether the unit may hold code at `address`.
pub fn unit_may_contain(e: &UnitExtent, address: u64) -> (b: bool)
    ensures
        b == spec_unit_may_contain(*e, address),
{
    match e {
        UnitExtent::Ranges(rs) => any_range_contains(rs, address),
        UnitExtent::UnresolvedRanges => true,
        UnitExtent::LowHigh(lo, hi) => *lo <= address && address < *hi,
        UnitExtent::LowLength(lo, len) => *lo <= address && address - *lo < *len,
        UnitExtent::Unbounded => true,
    }
}

// ------------------------------------------------------------ file paths

/// `s` without its trailing slashes.
pub open spec fn trim_slashes(s: Seq<char>) -> Seq<char>
    decreases s.len(),
{
    if s.len() > 0 && s.last() == '/' {
        trim_slashes(s.drop_last())
    } else {
        s
    }
}

/// The path of a source file: the compilation directory (with one trailing
/// slash added if it has none), then the file's directory unless it is empty
/// or the path so far already ends with it, then the file name.
pub open spec fn joined_path(comp_dir: Option<Seq<char>>, dir: Option<Seq<char>>, name: Seq<char>) -> Seq<char> {
    let p1 = match comp_dir {
        Some(c) => if c.len() == 0 {
            Seq::empty()
        } else if c.last() == '/' {
            c
        } else {
            c.push('/')
        },
        None => Seq::empty(),
    };
    let p2 = match dir {
        Some(d) => {
            let t = trim_slashes(d);
            if t.len() > 0 && !has_suffix(trim_slashes(p1), t) {
                p1 + t.push('/')
            } else {
                p1
            }
        },
        None => p1,
    };
    p2 + name
}

/// `s` without its trailing slashes.
fn trim_trailing_slashes(s: &str) -> (t: &str)
    ensures
        t@ == trim_slashes(s@),
{
    let mut n = s.unicode_len();
    proof {
        assert(s@.subrange(0, n as int) == s@);
    }
    while n > 0 && s.get_char(n - 1) == '/'
        invariant
            n <= s@.len(),
            trim_slashes(s@) == trim_slashes(s@.subrange(0, n as int)),
        decreases n,
    {
        proof {
            assert(s@.subrange(0, n as int).drop_last() == s@.subrange(0, n - 1));
        }
        n = n - 1;
    }
    s.substring_char(0, n)
}

/// Joins the parts of a source file's path as `joined_path` says.
pub fn join_source_path(comp_dir: Option<&str>, dir: Option<&str>, name: &str) -> (p: String)
    ensures
        p@ == joined_path(
            match comp_dir {
                Some(c) => Some(c@),
                None => None,
            },
            match dir {
                Some(d) => Some(d@),
                None => None,
            },
            name@,
        ),
{
    proof {
        reveal_strlit("/");
    }
    let ghost cv = match comp_dir {
        Some(c) => Some(c@),
        None => None::<Seq<char>>,
    };
    let ghost dv = match dir {
        Some(d) => Some(d@),
        None => None::<Seq<char>>,
    };
    let ghost p1 = match cv {
        Some(c) => if c.len() == 0 {
            Seq::empty()
        } else if c.last() == '/' {
            c
        } else {
            c.push('/')
        },
        None => Seq::<char>::empty(),
    };
    let mut path = String::new();
    match comp_dir {
        Some(c) => {
            let n = c.unicode_len();
            if n > 0 {
                path.append(c);
                if c.get_char(n - 1) != '/' {
                    path.append("/");
                    assert(path@ =~= c@.push('/'));
                }
            }
        },
        None => {},
    }
    assert(path@ == p1);
    let ghost p2 = match dv {
        Some(d) => {
            let t = trim_slashes(d);
            if t.len() > 0 && !has_suffix(trim_slashes(p1), t) {
                p1 + t.push('/')
            } else {
                p1
            }
        },
        None => p1,
    };
    match dir {
        Some(d) => {
            let t = trim_trailing_slashes(d);
            let base = trim_trailing_slashes(path.as_str());
            if t.unicode_len() > 0 && !str_ends_with(base, t) {
                path.append(t);
                path.append("/");
                assert(path@ =~= p1 + t@.push('/'));
            }
        },
        None => {},
    }
    assert(path@ == p2);
    path.append(name);
    path
}

// ------------------------------------------------------------- line rows

/// The parts of a source file's name as the line program gives them.
pub struct FileName {
    pub comp_dir: Option<String>,
    pub dir: Option<String>,
    pub name: String,
}

pub ghost struct FileNameView {
    pub comp_dir: Option<Seq<char>>,
    pub dir: Option<Seq<char>>,
    pub name: Seq<char>,
}

impl View for FileName {
    type V = FileNameView;

    open spec fn view(&self) -> FileNameView {
        FileNameView { comp_dir: opt_view(self.comp_dir), dir: opt_view(self.dir), name: self.name@ }
    }
}

/// One row of a line-program sequence.
pub struct LineRow {
    pub address: u64,
    /// The row's file; `None` when it names none or the name cannot be read.
    pub file: Option<FileName>,
    /// The line, if known (lines start at 1).
    pub line: Option<u64>,
    /// The column, 0 for the left edge.
    pub column: u64,
}

pub open spec fn opt_view(s: Option<String>) -> Option<Seq<char>> {
    match s {
        Some(x) => Some(x@),
        None => None,
    }
}

pub ghost struct LineRowView {
    pub address: u64,
    pub file: Option<FileNameView>,
    pub line: Option<u64>,
    pub column: u64,
}

impl View for LineRow {
    type V = LineRowView;

    open spec fn view(&self) -> LineRowView {
        LineRowView {
            address: self.address,
            file: match self.file {
                Some(f) => Some(f@),
                None => None,
            },
            line: self.line,
            column: self.column,
        }
    }
}

pub open spec fn line_row_views(v: Seq<LineRow>) -> Seq<LineRowView> {
    v.map_values(|r: LineRow| r@)
}

/// The location a row with a file stands for.
pub open spec fn row_location(row: LineRowView) -> SourceLocationView {
    let f = row.file.unwrap();
    SourceLocationView {
        file: joined_path(f.comp_dir, f.dir, f.name),
        line: match row.line {
            Some(n) => Some(n as u32),
            None => None,
        },
        column: Some(row.column as u32),
    }
}

/// Number of leading rows at or below `address` (the scan stops at the first row past it).
pub open spec fn rows_considered(rows: Seq<LineRowView>, address: u64, i: int) -> int
    decreases rows.len() - i,
{
    if i < 0 || i >= rows.len() {
        rows.len() as int
    } else if rows[i].address > address {
        i
    } else {
        rows_considered(rows, address, i + 1)
    }
}

/// Index of the last row among the first `n` that has a file.
pub open spec fn last_with_file(rows: Seq<LineRowView>, n: int) -> Option<int>
    decreases n,
{
    if n <= 0 {
        None
    } else if rows[n - 1].file is Some {
        Some(n - 1)
    } else {
        last_with_file(rows, n - 1)
    }
}

/// The location of `address` within a sequence: that of the last row with a
/// file before the first row past `address`.
pub open spec fn spec_best_location(rows: Seq<LineRowView>, address: u64) -> Option<SourceLocationView> {
    match last_with_file(rows, rows_considered(rows, address, 0)) {
        Some(k) => Some(row_location(rows[k])),
        None => None,
    }
}

fn opt_str(s: &Option<String>) -> (r: Option<&str>)
    ensures
        match r {
            Some(x) => opt_view(*s) == Some(x@),
            None => s is None,
        },
{
    match s {
        Some(x) => Some(x.as_str()),
        None => None,
    }
}

proof fn lemma_last_with_file_step(rows: Seq<LineRowView>, n: int)
    requires
        0 <= n < rows.len(),
    ensures
        last_with_file(rows, n + 1) == if rows[n].file is Some {
            Some(n)
        } else {
            last_with_file(rows, n)
        },
{
}

/// The location of `address` within a line-program sequence whose rows are `rows`.
pub fn best_location(rows: &Vec<LineRow>, address: u64) -> (r: Option<SourceLocation>)
    ensures
        match r {
            Some(loc) => spec_best_location(line_row_views(rows@), address) == Some(loc@),
            None => spec_best_location(line_row_views(rows@), address) is None,
        },
{
    let ghost vs = line_row_views(rows@);
    let mut best: Option<SourceLocation> = None;
    let mut i: usize = 0;
    while i < rows.len() && rows[i].address <= address
        invariant
            i <= rows@.len(),
            vs == line_row_views(rows@),
            rows_considered(vs, address, 0) == rows_considered(vs, address, i as int),
            match best {
                Some(loc) => last_with_file(vs, i as int) matches Some(k) && row_location(vs[k]) == loc@,
                None => last_with_file(vs, i as int) is None,
            },
        decreases rows@.len() - i,
    {
        let row = &rows[i];
        proof {
            lemma_last_with_file_step(vs, i as int);
            assert(vs[i as int] == rows@[i as int]@);
        }
        match &row.file {
            Some(f) => {
                let file = join_source_path(opt_str(&f.comp_dir), opt_str(&f.dir), f.name.as_str());
                let line: Option<u32> = match row.line {
                    Some(n) => Some(#[verifier::truncate] (n as u32)),
                    None => None,
                };
                let column: u32 = #[verifier::truncate] (row.column as u32);
                best = Some(SourceLocation { file, line, column: Some(column) });
            },
            None => {},
        }
        i = i + 1;
    }
    proof {
        if i < rows@.len() {
            assert(vs[i as int] == rows@[i as int]@);
            assert(rows_considered(vs, address, i as int) == i);
        }
    }
    best
}

} // verus!

verus! {

// ------------------------------------------------------- reading with gimli

/// `gimli`'s reading of the DWARF sections of a binary, held opaque.
#[verifier::external_body]
pub struct GimliDwarf {
    dwarf: gimli::Dwarf<gimli::EndianRcSlice<gimli::RunTimeEndian>>,
}

/// One compilation unit as `gimli` reads it, held opaque.
#[verifier::external_body]
pub struct GimliUnit {
    unit: gimli::Unit<gimli::EndianRcSlice<gimli::RunTimeEndian>>,
}

/// How the root entry of a unit gives the unit's address ranges.
pub enum RangesAttr {
    /// The unit has no root entry.
    NoRoot,
    /// The root entry has no `DW_AT_ranges`.
    Absent,
    /// `DW_AT_ranges` refers to the range list at this offset.
    Offset(usize),
    /// `DW_AT_ranges` in another form.
    Other,
}

/// How the root entry of a unit gives `DW_AT_high_pc`.
pub enum HighPc {
    /// As an address.
    Addr(u64),
    /// As a length from `DW_AT_low_pc`.
    Length(u64),
    /// Absent or in another form.
    Other,
}

/// The units `gimli` reads from `s`, in order: how many it reads before the
/// first failure, and whether a failure ends them.
pub uninterp spec fn dwarf_units(s: DwarfSectionsView) -> (nat, bool);

/// How the root entry of unit `k` of `s` gives its ranges; `None` where
/// reading the entry fails.
pub uninterp spec fn dwarf_ranges_attr(s: DwarfSectionsView, k: nat) -> Option<RangesAttr>;

/// The `DW_AT_low_pc` address (where it is one) and `DW_AT_high_pc` of the
/// root entry of unit `k` of `s`; `None` where reading the entry fails.
pub uninterp spec fn dwarf_pc_attrs(s: DwarfSectionsView, k: nat) -> Option<(Option<u64>, HighPc)>;

/// The `[begin, end)` ranges of the range list at `offset` for unit `k`;
/// `None` where reading it fails.
pub uninterp spec fn dwarf_range_list(s: DwarfSectionsView, k: nat, offset: usize) -> Option<Seq<(u64, u64)>>;

/// The `[start, end)` addresses of the line-program sequences of unit `k`
/// (none without a line program); `None` where reading them fails.
pub uninterp spec fn dwarf_sequences(s: DwarfSectionsView, k: nat) -> Option<Seq<(u64, u64)>>;

/// The rows of sequence `j` of unit `k`: address, file index, line (lines
/// start at 1) and column (0 for the left edge); `None` where reading fails.
pub uninterp spec fn dwarf_rows(s: DwarfSectionsView, k: nat, j: nat) -> Option<Seq<(u64, u64, Option<u64>, u64)>>;

/// The parts of the name of file `index` of the line program of unit `k`:
/// `None` where reading them fails, `Some(None)` where there is no such file.
pub uninterp spec fn dwarf_file_name(s: DwarfSectionsView, k: nat, index: u64) -> Option<Option<FileNameView>>;

/// The section of `s` named `name` (one of the nine DWARF sections kept),
/// empty for any other name.
pub open spec fn section_named_spec(s: DwarfSectionsView, name: Seq<char>) -> Seq<u8> {
    if name == ".debug_info"@ {
        s.debug_info
    } else if name == ".debug_abbrev"@ {
        s.debug_abbrev
    } else if name == ".debug_str"@ {
        s.debug_str
    } else if name == ".debug_str_offsets"@ {
        s.debug_str_offsets
    } else if name == ".debug_line"@ {
        s.debug_line
    } else if name == ".debug_line_str"@ {
        s.debug_line_str
    } else if name == ".debug_ranges"@ {
        s.debug_ranges
    } else if name == ".debug_rnglists"@ {
        s.debug_rnglists
    } else if name == ".debug_addr"@ {
        s.debug_addr
    } else {
        Seq::empty()
    }
}

/// The section of `s` named `name`, as `section_named_spec` says.
pub fn section_named<'a>(s: &'a DwarfSections, name: &str) -> (r: &'a [u8])
    ensures
        r@ == section_named_spec(s@, name@),
{
    if str_equals(name, ".debug_info") {
        s.debug_info.as_slice()
    } else if str_equals(name, ".debug_abbrev") {
        s.debug_abbrev.as_slice()
    } else if str_equals(name, ".debug_str") {
        s.debug_str.as_slice()
    } else if str_equals(name, ".debug_str_offsets") {
        s.debug_str_offsets.as_slice()
    } else if str_equals(name, ".debug_line") {
        s.debug_line.as_slice()
    } else if str_equals(name, ".debug_line_str") {
        s.debug_line_str.as_slice()
    } else if str_equals(name, ".debug_ranges") {
        s.debug_ranges.as_slice()
    } else if str_equals(name, ".debug_rnglists") {
        s.debug_rnglists.as_slice()
    } else if str_equals(name, ".debug_addr") {
        s.debug_addr.as_slice()
    } else {
        let empty: &'a [u8] = &[];
        assert(empty@ =~= Seq::<u8>::empty());
        empty
    }
}

/// Loads the sections of `s` with `gimli::Dwarf::load` (each section by its
/// `SectionId::name`, through `section_named`, in `s`'s byte order), then
/// reads the unit headers with `Dwarf::units` and each unit with
/// `Dwarf::unit`, stopping at the first failure.  Claimed: the units read
/// and whether a failure ended them are the named `dwarf_units`.
#[verifier::external_body]
fn gimli_load(s: &DwarfSections) -> (r: (GimliDwarf, Vec<GimliUnit>, Option<gimli::Error>))
    ensures
        r.1@.len() == dwarf_units(s@).0,
        r.2 is Some <==> dwarf_units(s@).1,
{
    let endian = if s.big_endian { gimli::RunTimeEndian::Big } else { gimli::RunTimeEndian::Little };
    let load = |id: gimli::SectionId| {
        Ok::<_, core::convert::Infallible>(gimli::EndianRcSlice::new(std::rc::Rc::from(section_named(s, id.name())), endian))
    };
    let dwarf = match gimli::Dwarf::load(load) { Ok(d) => d, Err(e) => match e {} };
    let (mut units, mut error) = (Vec::new(), None);
    for header in dwarf.units() {
        match header.and_then(|h| dwarf.unit(h)) {
            Ok(unit) => units.push(GimliUnit { unit }),
            Err(e) => { error = Some(e); break; },
        }
    }
    (GimliDwarf { dwarf }, units, error)
}

/// A binary's DWARF sections and `gimli`'s reading of their units.
pub struct DwarfIndex {
    sections: DwarfSections,
    dwarf: GimliDwarf,
    units: Vec<GimliUnit>,
    units_error: Option<gimli::Error>,
}

impl DwarfIndex {
    #[verifier::type_invariant]
    spec fn units_read(self) -> bool {
        &&& self.units@.len() == dwarf_units(self.sections@).0
        &&& (self.units_error is Some <==> dwarf_units(self.sections@).1)
    }
}

impl View for DwarfIndex {
    type V = DwarfSectionsView;

    closed spec fn view(&self) -> DwarfSectionsView {
        self.sections@
    }
}

/// Reads the root entry of unit `k` with `Unit::entries` and
/// `EntriesCursor::next_dfs`, and its `DW_AT_ranges` with
/// `DebuggingInformationEntry::attr_value`, telling the forms apart one arm
/// each.  Claimed: the result is the named `dwarf_ranges_attr`.
#[verifier::external_body]
fn gimli_ranges_attr(ix: &DwarfIndex, k: usize) -> (r: Result<RangesAttr, gimli::Error>)
    requires
        k < ix.units@.len(),
    ensures
        match r {
            Ok(a) => dwarf_ranges_attr(ix.sections@, k as nat) == Some(a),
            Err(_) => dwarf_ranges_attr(ix.sections@, k as nat) is None,
        },
{
    let mut cursor = ix.units[k].unit.entries();
    let Some(entry) = cursor.next_dfs()? else { return Ok(RangesAttr::NoRoot) };
    Ok(match entry.attr_value(gimli::DW_AT_ranges) {
        Some(gimli::AttributeValue::RangeListsRef(o)) => RangesAttr::Offset(o.0),
        Some(gimli::AttributeValue::SecOffset(o)) => RangesAttr::Offset(o),
        Some(_) => RangesAttr::Other,
        None => RangesAttr::Absent,
    })
}

/// Reads `DW_AT_low_pc` and `DW_AT_high_pc` of the root entry of unit `k`
/// (as `gimli_ranges_attr` reads the entry), telling the forms apart one arm
/// each.  Claimed: the result is the named `dwarf_pc_attrs`.
#[verifier::external_body]
fn gimli_pc_attrs(ix: &DwarfIndex, k: usize) -> (r: Result<(Option<u64>, HighPc), gimli::Error>)
    requires
        k < ix.units@.len(),
    ensures
        match r {
            Ok(a) => dwarf_pc_attrs(ix.sections@, k as nat) == Some(a),
            Err(_) => dwarf_pc_attrs(ix.sections@, k as nat) is None,
        },
{
    let mut cursor = ix.units[k].unit.entries();
    let Some(entry) = cursor.next_dfs()? else { return Ok((None, HighPc::Other)) };
    let low = match entry.attr_value(gimli::DW_AT_low_pc) { Some(gimli::AttributeValue::Addr(a)) => Some(a), _ => None };
    Ok((low, match entry.attr_value(gimli::DW_AT_high_pc) {
        Some(gimli::AttributeValue::Addr(a)) => HighPc::Addr(a),
        Some(gimli::AttributeValue::Udata(n)) => HighPc::Length(n),
        _ => HighPc::Other,
    }))
}

/// Reads the range list at `offset` for unit `k` with `Dwarf::ranges` and
/// `RngListIter::next`.  Claimed: the ranges are the named `dwarf_range_list`.
#[verifier::external_body]
fn gimli_range_list(ix: &DwarfIndex, k: usize, offset: usize) -> (r: Result<Vec<(u64, u64)>, gimli::Error>)
    requires
        k < ix.units@.len(),
    ensures
        match r {
            Ok(v) => dwarf_range_list(ix.sections@, k as nat, offset) == Some(v@),
            Err(_) => dwarf_range_list(ix.sections@, k as nat, offset) is None,
        },
{
    let mut ranges = ix.dwarf.dwarf.ranges(&ix.units[k].unit, gimli::RangeListsOffset(offset))?;
    let mut v = Vec::new();
    while let Some(range) = ranges.next()? {
        v.push((range.begin, range.end));
    }
    Ok(v)
}

/// Reads the sequences of the line program of unit `k` with
/// `IncompleteLineProgram::sequences`.  Claimed: their bounds are the named
/// `dwarf_sequences`.
#[verifier::external_body]
fn gimli_sequences(ix: &DwarfIndex, k: usize) -> (r: Result<Vec<(u64, u64)>, gimli::Error>)
    requires
        k < ix.units@.len(),
    ensures
        match r {
            Ok(v) => dwarf_sequences(ix.sections@, k as nat) == Some(v@),
            Err(_) => dwarf_sequences(ix.sections@, k as nat) is None,
        },
{
    let Some(program) = ix.units[k].unit.line_program.clone() else { return Ok(Vec::new()) };
    let (_, sequences) = program.sequences()?;
    Ok(sequences.iter().map(|q| (q.start, q.end)).collect())
}

/// Reads the rows of sequence `j` of unit `k` with
/// `CompleteLineProgram::resume_from` and `LineRows::next_row`, taking of
/// each `LineRow::address`, `file_index`, `line` and `column` (the left edge
/// as 0).  `sequences[j]` panics past the last sequence, hence the
/// precondition.  Claimed: the rows are the named `dwarf_rows`.
#[verifier::external_body]
fn gimli_rows(ix: &DwarfIndex, k: usize, j: usize) -> (r: Result<Vec<(u64, u64, Option<u64>, u64)>, gimli::Error>)
    requires
        k < ix.units@.len(),
        dwarf_sequences(ix.sections@, k as nat) matches Some(q) && j < q.len(),
    ensures
        match r {
            Ok(v) => dwarf_rows(ix.sections@, k as nat, j as nat) == Some(v@),
            Err(_) => dwarf_rows(ix.sections@, k as nat, j as nat) is None,
        },
{
    let Some(program) = ix.units[k].unit.line_program.clone() else { return Ok(Vec::new()) };
    let (program, sequences) = program.sequences()?;
    let mut rows = program.resume_from(&sequences[j]);
    let mut v = Vec::new();
    while let Some((_, row)) = rows.next_row()? {
        let column = match row.column() { gimli::ColumnType::LeftEdge => 0, gimli::ColumnType::Column(c) => c.get() };
        v.push((row.address(), row.file_index(), row.line().map(|n| n.get()), column));
    }
    Ok(v)
}

/// Reads file `index` of the line program of unit `k` with
/// `LineProgramHeader::file`, its directory with `FileEntry::directory` and
/// its name with `FileEntry::path_name`, each through `Dwarf::attr_string`
/// and `Reader::to_string_lossy`, and the unit's `comp_dir`.  Claimed: the
/// parts are the named `dwarf_file_name`.
#[verifier::external_body]
fn gimli_file_name(ix: &DwarfIndex, k: usize, index: u64) -> (r: Result<Option<FileName>, gimli::Error>)
    requires
        k < ix.units@.len(),
    ensures
        match r {
            Ok(Some(f)) => dwarf_file_name(ix.sections@, k as nat, index) == Some(Some(f@)),
            Ok(None) => dwarf_file_name(ix.sections@, k as nat, index) == Some(None::<FileNameView>),
            Err(_) => dwarf_file_name(ix.sections@, k as nat, index) is None,
        },
{
    let (dwarf, unit) = (&ix.dwarf.dwarf, &ix.units[k].unit);
    let Some(program) = &unit.line_program else { return Ok(None) };
    let Some(file) = program.header().file(index) else { return Ok(None) };
    let dir = match file.directory(program.header()) {
        Some(d) => Some(dwarf.attr_string(unit, d)?.to_string_lossy()?.into_owned()),
        None => None,
    };
    let name = dwarf.attr_string(unit, file.path_name())?.to_string_lossy()?.into_owned();
    let comp_dir = match &unit.comp_dir { Some(c) => Some(c.to_string_lossy()?.into_owned()), None => None };
    Ok(Some(FileName { comp_dir, dir, name }))
}


// ------------------------------------------------------ locating addresses

/// The file of a row naming file `index` of unit `k`: its parts where they
/// can be read, none otherwise.
pub open spec fn row_file(s: DwarfSectionsView, k: nat, index: u64) -> Option<FileNameView> {
    match dwarf_file_name(s, k, index) {
        Some(Some(f)) => Some(f),
        _ => None,
    }
}

/// The rows of a sequence of unit `k`, each with its file.
pub open spec fn rows_with_files(s: DwarfSectionsView, k: nat, raw: Seq<(u64, u64, Option<u64>, u64)>) -> Seq<LineRowView> {
    raw.map_values(
        |r: (u64, u64, Option<u64>, u64)| LineRowView { address: r.0, file: row_file(s, k, r.1), line: r.2, column: r.3 },
    )
}

/// Whether unit `k` may hold code at `a`, by the ranges or the low and high
/// addresses of its root entry; `None` where reading them fails.
pub open spec fn unit_may_hold(s: DwarfSectionsView, k: nat, a: u64) -> Option<bool> {
    match dwarf_ranges_attr(s, k) {
        None => None,
        Some(RangesAttr::NoRoot) => Some(true),
        Some(RangesAttr::Other) => Some(true),
        Some(RangesAttr::Offset(o)) => match dwarf_range_list(s, k, o) {
            None => None,
            Some(rs) => Some(in_some_range(rs, a)),
        },
        Some(RangesAttr::Absent) => match dwarf_pc_attrs(s, k) {
            None => None,
            Some((Some(lo), HighPc::Addr(hi))) => Some(lo <= a < hi),
            Some((Some(lo), HighPc::Length(n))) => Some(lo <= a < lo + n),
            Some(_) => Some(true),
        },
    }
}

/// The location of `a` found in the sequences `j, j + 1, ...` of unit `k`:
/// in the first sequence holding `a` whose rows give one.  `None` where
/// reading fails first; `Some(None)` where none gives a location.
pub open spec fn search_sequences(s: DwarfSectionsView, k: nat, seqs: Seq<(u64, u64)>, j: int, a: u64) -> Option<
    Option<SourceLocationView>,
>
    decreases seqs.len() - j,
{
    if j < 0 || j >= seqs.len() {
        Some(None)
    } else if !(seqs[j].0 <= a < seqs[j].1) {
        search_sequences(s, k, seqs, j + 1, a)
    } else {
        match dwarf_rows(s, k, j as nat) {
            None => None,
            Some(raw) => match spec_best_location(rows_with_files(s, k, raw), a) {
                Some(l) => Some(Some(l)),
                None => search_sequences(s, k, seqs, j + 1, a),
            },
        }
    }
}

/// The location of `a` found in unit `k`, as `search_sequences` says, or
/// none where the unit cannot hold `a`.
pub open spec fn search_unit(s: DwarfSectionsView, k: nat, a: u64) -> Option<Option<SourceLocationView>> {
    match unit_may_hold(s, k, a) {
        None => None,
        Some(false) => Some(None),
        Some(true) => match dwarf_sequences(s, k) {
            None => None,
            Some(seqs) => search_sequences(s, k, seqs, 0, a),
        },
    }
}

/// The location of `a` found in the units `k, k + 1, ...`: in the first unit
/// that gives one.  `None` where reading fails first.
pub open spec fn search_units(s: DwarfSectionsView, k: nat, a: u64) -> Option<Option<SourceLocationView>>
    decreases dwarf_units(s).0 - k,
{
    if k >= dwarf_units(s).0 {
        if dwarf_units(s).1 {
            None
        } else {
            Some(None)
        }
    } else {
        match search_unit(s, k, a) {
            None => None,
            Some(Some(l)) => Some(Some(l)),
            Some(None) => search_units(s, k + 1, a),
        }
    }
}

/// The source location of `a` by the DWARF sections `s`: `None` where
/// reading fails before one is found, `Some(None)` where none is found.
pub open spec fn dwarf_location(s: DwarfSectionsView, a: u64) -> Option<Option<SourceLocationView>> {
    search_units(s, 0, a)
}

proof fn lemma_search_reaches_unit(s: DwarfSectionsView, a: u64, j: nat, k: nat)
    requires
        j <= k < dwarf_units(s).0,
        forall|i: nat| j <= i < k ==> #[trigger] search_unit(s, i, a) == Some(None::<SourceLocationView>),
    ensures
        search_units(s, j, a) == (match search_unit(s, k, a) {
            Some(None) => search_units(s, k + 1, a),
            other => other,
        }),
    decreases k - j,
{
    if j < k {
        assert(search_unit(s, j, a) == Some(None::<SourceLocationView>));
        lemma_search_reaches_unit(s, a, j + 1, k);
    }
}

/// A unit that gives no location does not end the search: where unit `k`
/// gives a location and every unit before it reads cleanly and gives none,
/// the location of `a` is unit `k`'s, whatever the later units hold.
pub proof fn lemma_first_locating_unit_wins(s: DwarfSectionsView, a: u64, k: nat, l: SourceLocationView)
    requires
        k < dwarf_units(s).0,
        search_unit(s, k, a) == Some(Some(l)),
        forall|j: nat| j < k ==> #[trigger] search_unit(s, j, a) == Some(None::<SourceLocationView>),
    ensures
        dwarf_location(s, a) == Some(Some(l)),
{
    lemma_search_reaches_unit(s, a, 0, k);
}

proof fn lemma_search_from(s: DwarfSectionsView, a: u64, j: nat)
    ensures
        search_units(s, j, a) matches Some(Some(l)) ==> exists|k: nat|
            j <= k < dwarf_units(s).0 && #[trigger] search_unit(s, k, a) == Some(Some(l)) && forall|i: nat|
                j <= i < k ==> #[trigger] search_unit(s, i, a) == Some(None::<SourceLocationView>),
        search_units(s, j, a) == Some(None::<SourceLocationView>) ==> !dwarf_units(s).1 && forall|i: nat|
            j <= i < dwarf_units(s).0 ==> #[trigger] search_unit(s, i, a) == Some(None::<SourceLocationView>),
    decreases dwarf_units(s).0 - j,
{
    if j < dwarf_units(s).0 {
        lemma_search_from(s, a, j + 1);
        if let Some(Some(l)) = search_units(s, j, a) {
            if search_unit(s, j, a) == Some(Some(l)) {
                assert(search_unit(s, j, a) == Some(Some(l)));
            } else {
                let k = choose|k: nat|
                    j + 1 <= k < dwarf_units(s).0 && #[trigger] search_unit(s, k, a) == Some(Some(l)) && forall|i: nat|
                        j + 1 <= i < k ==> #[trigger] search_unit(s, i, a) == Some(None::<SourceLocationView>);
                assert forall|i: nat| j <= i < k implies #[trigger] search_unit(s, i, a) == Some(None::<SourceLocationView>) by {
                    if i > j {
                    }
                }
            }
        }
        if search_units(s, j, a) == Some(None::<SourceLocationView>) {
            assert forall|i: nat| j <= i < dwarf_units(s).0 implies #[trigger] search_unit(s, i, a) == Some(None::<SourceLocationView>) by {
                if i > j {
                }
            }
        }
    }
}

/// Where `a` has a location, it is that of the first unit giving one, every
/// unit before it having read cleanly and given none; where it has none,
/// every unit was read and none gives one.
pub proof fn lemma_location_comes_from_first_locating_unit(s: DwarfSectionsView, a: u64)
    ensures
        dwarf_location(s, a) matches Some(Some(l)) ==> exists|k: nat|
            k < dwarf_units(s).0 && #[trigger] search_unit(s, k, a) == Some(Some(l)) && forall|i: nat|
                i < k ==> #[trigger] search_unit(s, i, a) == Some(None::<SourceLocationView>),
        dwarf_location(s, a) == Some(None::<SourceLocationView>) <==> (!dwarf_units(s).1 && forall|i: nat|
            i < dwarf_units(s).0 ==> #[trigger] search_unit(s, i, a) == Some(None::<SourceLocationView>)),
{
    lemma_search_from(s, a, 0);
    if !dwarf_units(s).1 && forall|i: nat|
        i < dwarf_units(s).0 ==> #[trigger] search_unit(s, i, a) == Some(None::<SourceLocationView>) {
        if dwarf_units(s).0 > 0 {
            let n = (dwarf_units(s).0 - 1) as nat;
            lemma_search_reaches_unit(s, a, 0, n);
        }
    }
}

pub open spec fn opt_location_view(x: Option<SourceLocation>) -> Option<SourceLocationView> {
    match x {
        Some(l) => Some(l@),
        None => None,
    }
}

impl DwarfIndex {
    /// Copies the DWARF sections out of the image `img` held in `data` and
    /// reads their units.
    pub fn load(img: &BinaryImage, data: &[u8]) -> (r: Result<DwarfIndex, BinateError>)
        ensures
            r matches Ok(ix) && ix@ == dwarf_sections_of(*img, data@),
    {
        let sections = DwarfSections::load(img, data);
        let (dwarf, units, units_error) = gimli_load(&sections);
        Ok(DwarfIndex { sections, dwarf, units, units_error })
    }

    fn may_hold(&self, k: usize, a: u64) -> (r: Result<bool, gimli::Error>)
        requires
            k < dwarf_units(self@).0,
        ensures
            match r {
                Ok(b) => unit_may_hold(self@, k as nat, a) == Some(b),
                Err(_) => unit_may_hold(self@, k as nat, a) is None,
            },
    {
        proof {
            use_type_invariant(self);
        }
        let extent = match gimli_ranges_attr(self, k)? {
            RangesAttr::NoRoot => UnitExtent::Unbounded,
            RangesAttr::Other => UnitExtent::UnresolvedRanges,
            RangesAttr::Offset(o) => UnitExtent::Ranges(gimli_range_list(self, k, o)?),
            RangesAttr::Absent => match gimli_pc_attrs(self, k)? {
                (Some(lo), HighPc::Addr(hi)) => UnitExtent::LowHigh(lo, hi),
                (Some(lo), HighPc::Length(n)) => UnitExtent::LowLength(lo, n),
                _ => UnitExtent::Unbounded,
            },
        };
        Ok(unit_may_contain(&extent, a))
    }

    fn line_rows(&self, k: usize, j: usize) -> (r: Result<Vec<LineRow>, gimli::Error>)
        requires
            k < dwarf_units(self@).0,
            dwarf_sequences(self@, k as nat) matches Some(q) && j < q.len(),
        ensures
            match r {
                Ok(v) => dwarf_rows(self@, k as nat, j as nat) matches Some(raw) && line_row_views(v@)
                    == rows_with_files(self@, k as nat, raw),
                Err(_) => dwarf_rows(self@, k as nat, j as nat) is None,
            },
    {
        proof {
            use_type_invariant(self);
        }
        let raw = gimli_rows(self, k, j)?;
        let ghost want = rows_with_files(self@, k as nat, raw@);
        let mut rows: Vec<LineRow> = Vec::new();
        let mut i: usize = 0;
        while i < raw.len()
            invariant
                i <= raw@.len(),
                k < self.units@.len(),
                want == rows_with_files(self@, k as nat, raw@),
                rows@.len() == i,
                forall|q: int| 0 <= q < i ==> #[trigger] rows@[q]@ == want[q],
            decreases raw@.len() - i,
        {
            let (address, index, line, column) = raw[i];
            let file = match gimli_file_name(self, k, index) {
                Ok(Some(f)) => Some(f),
                _ => None,
            };
            rows.push(LineRow { address, file, line, column });
            i = i + 1;
        }
        assert(line_row_views(rows@) =~= want);
        Ok(rows)
    }

    fn search_in_unit(&self, k: usize, a: u64) -> (r: Result<Option<SourceLocation>, gimli::Error>)
        requires
            k < dwarf_units(self@).0,
        ensures
            match r {
                Ok(x) => search_unit(self@, k as nat, a) == Some(opt_location_view(x)),
                Err(_) => search_unit(self@, k as nat, a) is None,
            },
    {
        proof {
            use_type_invariant(self);
        }
        if !self.may_hold(k, a)? {
            return Ok(None);
        }
        let seqs = gimli_sequences(self, k)?;
        let ghost q = seqs@;
        let mut j: usize = 0;
        while j < seqs.len()
            invariant
                j <= q.len(),
                q == seqs@,
                k < dwarf_units(self@).0,
                dwarf_sequences(self@, k as nat) == Some(q),
                unit_may_hold(self@, k as nat, a) == Some(true),
                search_sequences(self@, k as nat, q, 0, a) == search_sequences(self@, k as nat, q, j as int, a),
            decreases q.len() - j,
        {
            let (start, end) = seqs[j];
            if start <= a && a < end {
                let rows = self.line_rows(k, j)?;
                match best_location(&rows, a) {
                    Some(loc) => {
                        return Ok(Some(loc));
                    },
                    None => {},
                }
            }
            j = j + 1;
        }
        Ok(None)
    }

    /// The source location of `address`: from the first unit that may hold
    /// it and, within it, the first sequence holding it whose rows give one
    /// (see `dwarf_location`).  Fails where reading fails first.
    pub fn resolve(&self, address: u64) -> (r: Result<Option<SourceLocation>, BinateError>)
        ensures
            match r {
                Ok(x) => dwarf_location(self@, address) == Some(opt_location_view(x)),
                Err(e) => dwarf_location(self@, address) is None && e is Dwarf,
            },
    {
        proof {
            use_type_invariant(self);
        }
        let mut k: usize = 0;
        while k < self.units.len()
            invariant
                k <= self.units@.len(),
                self.units@.len() == dwarf_units(self@).0,
                search_units(self@, 0, address) == search_units(self@, k as nat, address),
            decreases self.units@.len() - k,
        {
            match self.search_in_unit(k, address) {
                Err(e) => {
                    return Err(BinateError::Dwarf(e));
                },
                Ok(Some(loc)) => {
                    return Ok(Some(loc));
                },
                Ok(None) => {},
            }
            k = k + 1;
        }
        match &self.units_error {
            Some(e) => Err(BinateError::Dwarf(*e)),
            None => Ok(None),
        }
    }
}

} // verus!
