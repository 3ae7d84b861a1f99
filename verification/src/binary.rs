//! The section and symbol tables of a parsed binary, and access to section bytes.
use vstd::prelude::*;
use object::{Object, ObjectSection, ObjectSymbol};
use crate::error::BinateError;
use crate::symbol::{RawSymbol, RawSymbolView, SymKind, SymbolTable, symbol_map, lists_map, raw_symbol_views, opt_string_view};

verus! {

/// The outside type `object::SectionKind`, held as an opaque value.
#[verifier::external_type_specification]
#[verifier::external_body]
pub struct ExSectionKind(object::SectionKind);

/// The outside type `object::BinaryFormat`, held as an opaque value.
#[verifier::external_type_specification]
#[verifier::external_body]
pub struct ExBinaryFormat(object::BinaryFormat);

/// The outside type `object::Architecture`, held as an opaque value.
#[verifier::external_type_specification]
#[verifier::external_body]
pub struct ExArchitecture(object::Architecture);

/// The outside type `object::SymbolKind`, held as an opaque value.
#[verifier::external_type_specification]
#[verifier::external_body]
pub struct ExSymbolKind(object::SymbolKind);

/// The architecture families the library treats differently.
#[derive(Clone, Copy, Debug, PartialEq, Eq, Structural)]
pub enum Machine {
    X86_64,
    X86_64X32,
    I386,
    PowerPc,
    PowerPc64,
    Mips,
    Sparc64,
    /// Any other architecture.
    Other,
}

/// A section as the object reader reports it.
pub struct RawSection {
    /// `None` where the reader could not decode the name.
    pub name: Option<String>,
    pub kind: object::SectionKind,
    pub address: u64,
    /// `(offset, size)` of the section's bytes in the file, if it has any there.
    pub file_range: Option<(u64, u64)>,
}

/// Public description of a section.
pub struct SectionInfo {
    pub name: String,
    pub kind: object::SectionKind,
    pub address: u64,
    pub file_range: Option<(u64, u64)>,
}

/// Where a section's bytes lie in the file.
struct ParsedSection {
    name: String,
    kind: object::SectionKind,
    address: u64,
    offset: usize,
    size: usize,
}

/// The bytes of one section of a binary image.
pub struct SectionBytes<'a> {
    pub name: String,
    pub kind: object::SectionKind,
    pub address: u64,
    pub data: &'a [u8],
}

/// Whether `object::read::File::parse` accepts `data`.
pub uninterp spec fn object_parse_ok(data: Seq<u8>) -> bool;

/// The sections `object` reports for `data`, in order: for each, its name
/// (`None` where it cannot be read), its kind, its address and its file range.
pub uninterp spec fn object_section_list(data: Seq<u8>) -> Seq<(Option<Seq<char>>, object::SectionKind, u64, Option<(u64, u64)>)>;

/// The file format `object` reports for `data`.
pub uninterp spec fn object_format(data: Seq<u8>) -> object::BinaryFormat;

/// The architecture `object` reports for `data`.
pub uninterp spec fn object_architecture(data: Seq<u8>) -> object::Architecture;

/// The architecture family of `data`: the `Machine` variant named after the
/// architecture `object` reports, `Other` for any architecture not listed.
pub uninterp spec fn object_machine(data: Seq<u8>) -> Machine;


/// The symbols `object` reports for `data`, in order, as `RawSymbol`s
/// describe them.
pub uninterp spec fn object_symbol_list(data: Seq<u8>) -> Seq<RawSymbolView>;

/// The name, kind, address and file range of each reported section.
pub open spec fn raw_section_parts(v: Seq<RawSection>) -> Seq<(Option<Seq<char>>, object::SectionKind, u64, Option<(u64, u64)>)> {
    v.map_values(|r: RawSection| (opt_string_view(r.name), r.kind, r.address, r.file_range))
}

/// Where the image records a section reported with these name, address
/// and file range (see `layout_of`).
pub open spec fn layout_fits(l: SectionLayout, p: (Option<Seq<char>>, object::SectionKind, u64, Option<(u64, u64)>)) -> bool {
    &&& l.name == match p.0 {
        Some(n) => n,
        None => Seq::empty(),
    }
    &&& l.kind == p.1
    &&& l.address == p.2
    &&& l.offset == match p.3 {
        Some(r) => (r.0 as usize) as nat,
        None => 0,
    }
    &&& l.size == match p.3 {
        Some(r) => (r.1 as usize) as nat,
        None => 0,
    }
}

/// The public description the image gives of a section reported with these
/// name, kind, address and file range (see `info_of`).
pub open spec fn info_fits(i: SectionInfoView, p: (Option<Seq<char>>, object::SectionKind, u64, Option<(u64, u64)>)) -> bool {
    &&& i.name == match p.0 {
        Some(n) => n,
        None => Seq::empty(),
    }
    &&& i.kind == p.1
    &&& i.address == p.2
    &&& i.file_range == match p.3 {
        Some(r) => Some((((r.0 as usize) as u64), ((r.1 as usize) as u64))),
        None => None,
    }
}

/// `infos` describes, in order, the sections reported as `parts`.
pub open spec fn infos_listed(infos: Seq<SectionInfo>, parts: Seq<(Option<Seq<char>>, object::SectionKind, u64, Option<(u64, u64)>)>) -> bool {
    infos.len() == parts.len() && forall|k: int| 0 <= k < parts.len() ==> #[trigger] info_fits(infos[k]@, parts[k])
}

/// `ls` records, in order, the sections reported as `parts`.
pub open spec fn layouts_listed(ls: Seq<SectionLayout>, parts: Seq<(Option<Seq<char>>, object::SectionKind, u64, Option<(u64, u64)>)>) -> bool {
    ls.len() == parts.len() && forall|k: int| 0 <= k < parts.len() ==> #[trigger] layout_fits(ls[k], parts[k])
}

/// Parses `data` with `object::read::File::parse` and calls `File::format`
/// and `Object::architecture`, telling apart the architectures the library
/// distinguishes (one arm each).  Claimed: the call fails exactly when the
/// parse does, and otherwise returns the named format, architecture and
/// architecture family.
#[verifier::external_body]
fn object_header(data: &[u8]) -> (r: Result<(object::BinaryFormat, object::Architecture, Machine), object::read::Error>)
    ensures
        r is Ok <==> object_parse_ok(data@),
        r matches Ok(h) ==> h.0 == object_format(data@) && h.1 == object_architecture(data@) && h.2
            == object_machine(data@),
{
    let file = object::read::File::parse(data)?;
    let machine = match file.architecture() {
        object::Architecture::X86_64 => Machine::X86_64,
        object::Architecture::X86_64_X32 => Machine::X86_64X32,
        object::Architecture::I386 => Machine::I386,
        object::Architecture::PowerPc => Machine::PowerPc,
        object::Architecture::PowerPc64 => Machine::PowerPc64,
        object::Architecture::Mips => Machine::Mips,
        object::Architecture::Sparc64 => Machine::Sparc64,
        _ => Machine::Other,
    };
    Ok((file.format(), file.architecture(), machine))
}


/// Parses `data` with `object::read::File::parse`, then calls
/// `Object::sections` and, for each section, `ObjectSection::name`, `kind`,
/// `address` and `file_range`, converting each into a `RawSection`.
/// Claimed: the call fails exactly when the parse does, and the names,
/// kinds, addresses and file ranges are the named list.
#[verifier::external_body]
fn object_sections(data: &[u8]) -> (r: Result<Vec<RawSection>, object::read::Error>)
    ensures
        r is Ok <==> object_parse_ok(data@),
        r matches Ok(v) ==> raw_section_parts(v@) == object_section_list(data@),
{
    let file = object::read::File::parse(data)?;
    Ok(file.sections().map(|s| RawSection {
        name: s.name().ok().map(|n| n.to_owned()),
        kind: s.kind(),
        address: s.address(),
        file_range: s.file_range(),
    }).collect())
}

/// Tells apart the variants of `object::SymbolKind`, one arm each.
/// Nothing is claimed of the result: the kind is opaque here.
#[verifier::external_body]
fn symbol_kind_of(kind: object::SymbolKind) -> SymKind {
    match kind {
        object::SymbolKind::Text => SymKind::Text,
        object::SymbolKind::Data => SymKind::Data,
        object::SymbolKind::Section => SymKind::Section,
        object::SymbolKind::File => SymKind::File,
        object::SymbolKind::Label => SymKind::Label,
        object::SymbolKind::Tls => SymKind::Tls,
        _ => SymKind::Unknown,
    }
}

/// Parses `data` with `object::read::File::parse`, then calls
/// `Object::symbols` and, for each symbol, `ObjectSymbol::kind`, `address`,
/// `size`, `name` and `section_index` (resolved to a section name through
/// `Object::section_by_index` and `ObjectSection::name`), converting each
/// into a `RawSymbol`.  Claimed: the call fails exactly when the parse
/// does, and the symbols are the named list.
#[verifier::external_body]
fn object_symbols(data: &[u8]) -> (r: Result<Vec<RawSymbol>, object::read::Error>)
    ensures
        r is Ok <==> object_parse_ok(data@),
        r matches Ok(v) ==> raw_symbol_views(v@) == object_symbol_list(data@),
{
    let file = object::read::File::parse(data)?;
    Ok(file.symbols().map(|s| RawSymbol {
        kind: symbol_kind_of(s.kind()),
        address: s.address(),
        size: s.size(),
        name: s.name().ok().map(|n| n.to_owned()),
        section: s.section_index().and_then(|i| file.section_by_index(i).ok())
            .and_then(|sec| sec.name().ok().map(|n| n.to_owned())),
    }).collect())
}

} // verus!

verus! {

/// The mathematical content of a section's location.
pub ghost struct SectionLayout {
    pub name: Seq<char>,
    pub kind: object::SectionKind,
    pub address: u64,
    pub offset: nat,
    pub size: nat,
}

/// Where the image records a reported section: a section with no bytes in
/// the file gets offset and size zero; a name that could not be read is empty.
pub open spec fn layout_of(raw: RawSection) -> SectionLayout {
    SectionLayout {
        name: match raw.name {
            Some(n) => n@,
            None => Seq::empty(),
        },
        kind: raw.kind,
        address: raw.address,
        offset: match raw.file_range {
            Some(r) => (r.0 as usize) as nat,
            None => 0,
        },
        size: match raw.file_range {
            Some(r) => (r.1 as usize) as nat,
            None => 0,
        },
    }
}

/// The public description of a reported section.
pub ghost struct SectionInfoView {
    pub name: Seq<char>,
    pub kind: object::SectionKind,
    pub address: u64,
    pub file_range: Option<(u64, u64)>,
}

impl View for SectionInfo {
    type V = SectionInfoView;

    open spec fn view(&self) -> SectionInfoView {
        SectionInfoView {
            name: self.name@,
            kind: self.kind,
            address: self.address,
            file_range: self.file_range,
        }
    }
}

pub open spec fn info_of(raw: RawSection) -> SectionInfoView {
    SectionInfoView {
        name: layout_of(raw).name,
        kind: raw.kind,
        address: raw.address,
        file_range: match raw.file_range {
            Some(r) => Some((((r.0 as usize) as u64), ((r.1 as usize) as u64))),
            None => None,
        },
    }
}

/// The public description `i` gives the section recorded as `l`: its name,
/// kind and address, and as file range the offset and then the size the
/// section's bytes are read from (none only for a section with no bytes in
/// the file).
pub open spec fn describes(i: SectionInfoView, l: SectionLayout) -> bool {
    &&& i.name == l.name
    &&& i.kind == l.kind
    &&& i.address == l.address
    &&& match i.file_range {
        Some((offset, size)) => offset as nat == l.offset && size as nat == l.size,
        None => l.offset == 0 && l.size == 0,
    }
}

/// A reported section's public description gives the file range the image
/// reads it from: offset first, then size.
pub proof fn lemma_section_info_describes_layout(raw: RawSection)
    ensures
        describes(info_of(raw), layout_of(raw)),
        raw.file_range matches Some(r) ==> info_of(raw).file_range matches Some(g) && g.0 as nat == layout_of(raw).offset
            && g.1 as nat == layout_of(raw).size,
{
}

/// Where the descriptions and the layouts both list the reported sections,
/// each description gives its section's file range, offset first, then size.
pub proof fn lemma_listed_infos_describe_layouts(
    infos: Seq<SectionInfo>,
    ls: Seq<SectionLayout>,
    parts: Seq<(Option<Seq<char>>, object::SectionKind, u64, Option<(u64, u64)>)>,
)
    requires
        infos_listed(infos, parts),
        layouts_listed(ls, parts),
    ensures
        infos.len() == ls.len(),
        forall|k: int| 0 <= k < ls.len() ==> #[trigger] describes(infos[k]@, ls[k]),
{
    assert forall|k: int| 0 <= k < ls.len() implies #[trigger] describes(infos[k]@, ls[k]) by {
        assert(info_fits(infos[k]@, parts[k]));
        assert(layout_fits(ls[k], parts[k]));
    }
}

/// The section's bytes lie wholly inside an image of `len` bytes and are not empty.
pub open spec fn is_present(l: SectionLayout, len: int) -> bool {
    l.size != 0 && l.offset + l.size <= len
}

/// The sections whose bytes are present, in order.
pub open spec fn present_sections(ls: Seq<SectionLayout>, len: int) -> Seq<SectionLayout>
    decreases ls.len(),
{
    if ls.len() == 0 {
        Seq::empty()
    } else {
        let prev = present_sections(ls.drop_last(), len);
        if is_present(ls.last(), len) {
            prev.push(ls.last())
        } else {
            prev
        }
    }
}

/// The mathematical content of [`SectionBytes`].
pub ghost struct SectionBytesView {
    pub name: Seq<char>,
    pub kind: object::SectionKind,
    pub address: u64,
    pub data: Seq<u8>,
}

impl<'a> View for SectionBytes<'a> {
    type V = SectionBytesView;

    open spec fn view(&self) -> SectionBytesView {
        SectionBytesView {
            name: self.name@,
            kind: self.kind,
            address: self.address,
            data: self.data@,
        }
    }
}

/// The views of a list of section images.
pub open spec fn section_bytes_views<'a>(v: Seq<SectionBytes<'a>>) -> Seq<SectionBytesView> {
    v.map_values(|s: SectionBytes<'a>| s@)
}

/// The images of the present sections of `img` within `data`, in order.
pub open spec fn section_images(img: BinaryImage, data: Seq<u8>) -> Seq<SectionBytesView> {
    present_sections(img.layouts(), data.len() as int).map_values(|l: SectionLayout| bytes_of(l, data))
}

pub open spec fn bytes_of(l: SectionLayout, data: Seq<u8>) -> SectionBytesView {
    SectionBytesView {
        name: l.name,
        kind: l.kind,
        address: l.address,
        data: data.subrange(l.offset as int, (l.offset + l.size) as int),
    }
}

/// Index of the first section at or after `i` named `name`, if any.
pub open spec fn first_named_from(ls: Seq<SectionLayout>, name: Seq<char>, i: int) -> Option<int>
    decreases ls.len() - i,
{
    if i < 0 || i >= ls.len() {
        None
    } else if ls[i].name == name {
        Some(i)
    } else {
        first_named_from(ls, name, i + 1)
    }
}

proof fn lemma_first_named_from_in_range(ls: Seq<SectionLayout>, name: Seq<char>, i: int)
    ensures
        first_named_from(ls, name, i) matches Some(k) ==> 0 <= i <= k < ls.len() && ls[k].name == name,
    decreases ls.len() - i,
{
    if 0 <= i < ls.len() && ls[i].name != name {
        lemma_first_named_from_in_range(ls, name, i + 1);
    }
}

/// The first section named `name` is a section of that name.
pub proof fn lemma_first_named_in_range(ls: Seq<SectionLayout>, name: Seq<char>)
    ensures
        first_named(ls, name) matches Some(k) ==> 0 <= k < ls.len() && ls[k].name == name,
{
    lemma_first_named_from_in_range(ls, name, 0);
}

/// Index of the first section named `name`, if any.
pub open spec fn first_named(ls: Seq<SectionLayout>, name: Seq<char>) -> Option<int> {
    first_named_from(ls, name, 0)
}

/// The section and symbol tables of a binary.  The bytes themselves stay
/// with the caller and are handed to the methods that read them.
pub struct BinaryImage {
    path: String,
    format: object::BinaryFormat,
    arch: object::Architecture,
    machine: Machine,
    sections: Vec<ParsedSection>,
    symbols: SymbolTable,
    section_infos: Vec<SectionInfo>,
}

spec fn parsed_layout(s: ParsedSection) -> SectionLayout {
    SectionLayout {
        name: s.name@,
        kind: s.kind,
        address: s.address,
        offset: s.offset as nat,
        size: s.size as nat,
    }
}

impl BinaryImage {
    /// Each public section description gives the section as it is recorded.
    #[verifier::type_invariant]
    spec fn infos_describe_sections(self) -> bool {
        &&& self.section_infos@.len() == self.sections@.len()
        &&& forall|k: int|
            0 <= k < self.sections@.len() ==> #[trigger] describes(self.section_infos@[k]@, parsed_layout(self.sections@[k]))
    }

    /// Where the sections lie, in the order the reader reported them.
    pub closed spec fn layouts(&self) -> Seq<SectionLayout> {
        self.sections@.map_values(|s: ParsedSection| parsed_layout(s))
    }

    /// Every recorded offset and size fits in a `usize`.
    pub proof fn lemma_layouts_fit(&self)
        ensures
            forall|k: int|
                0 <= k < self.layouts().len() ==> (#[trigger] self.layouts()[k]).offset <= usize::MAX && self.layouts()[k].size
                    <= usize::MAX,
    {
        assert forall|k: int| 0 <= k < self.layouts().len() implies (#[trigger] self.layouts()[k]).offset <= usize::MAX
            && self.layouts()[k].size <= usize::MAX by {
            assert(self.layouts()[k] == parsed_layout(self.sections@[k]));
        }
    }

    pub closed spec fn spec_path(&self) -> Seq<char> {
        self.path@
    }

    pub closed spec fn spec_machine(&self) -> Machine {
        self.machine
    }

    pub closed spec fn spec_format(&self) -> object::BinaryFormat {
        self.format
    }

    pub closed spec fn spec_architecture(&self) -> object::Architecture {
        self.arch
    }

    pub closed spec fn spec_symbols(&self) -> SymbolTable {
        self.symbols
    }

    pub closed spec fn spec_infos(&self) -> Seq<SectionInfo> {
        self.section_infos@
    }

    /// The image described by the reported header values, sections and symbols.
    pub fn from_tables(
        path: String,
        format: object::BinaryFormat,
        arch: object::Architecture,
        machine: Machine,
        raw_sections: Vec<RawSection>,
        raw_symbols: &Vec<RawSymbol>,
    ) -> (img: BinaryImage)
        ensures
            img.spec_path() == path@,
            img.spec_format() == format,
            img.spec_architecture() == arch,
            img.spec_machine() == machine,
            img.layouts() == raw_sections@.map_values(|r: RawSection| layout_of(r)),
            img.spec_infos().len() == raw_sections@.len(),
            forall|k: int| 0 <= k < raw_sections@.len() ==> #[trigger] img.spec_infos()[k]@ == info_of(raw_sections@[k]),
            forall|k: int| 0 <= k < raw_sections@.len() ==> #[trigger] describes(img.spec_infos()[k]@, img.layouts()[k]),
            lists_map(img.spec_symbols()@, symbol_map(raw_symbol_views(raw_symbols@))),
    {
        let symbols = SymbolTable::from_raw_symbols(raw_symbols);
        let mut sections: Vec<ParsedSection> = Vec::new();
        let mut infos: Vec<SectionInfo> = Vec::new();
        let mut i: usize = 0;
        while i < raw_sections.len()
            invariant
                i <= raw_sections@.len(),
                sections@.len() == i,
                infos@.len() == i,
                forall|k: int| 0 <= k < i ==> #[trigger] parsed_layout(sections@[k]) == layout_of(raw_sections@[k]),
                forall|k: int| 0 <= k < i ==> #[trigger] infos@[k]@ == info_of(raw_sections@[k]),
            decreases raw_sections@.len() - i,
        {
            let raw = &raw_sections[i];
            let name = match &raw.name {
                Some(n) => n.clone(),
                None => String::new(),
            };
            let (offset, size, range) = match raw.file_range {
                Some((off, sz)) => (off as usize, sz as usize, Some(((off as usize) as u64, (sz as usize) as u64))),
                None => (0usize, 0usize, None),
            };
            infos.push(SectionInfo { name: name.clone(), kind: raw.kind, address: raw.address, file_range: range });
            sections.push(ParsedSection { name, kind: raw.kind, address: raw.address, offset, size });
            i = i + 1;
        }
        proof {
            assert forall|k: int| 0 <= k < sections@.len() implies #[trigger] describes(infos@[k]@, parsed_layout(sections@[k])) by {
                lemma_section_info_describes_layout(raw_sections@[k]);
            }
        }
        let img = BinaryImage { path, format, arch, machine, sections, symbols, section_infos: infos };
        assert(img.layouts() =~= raw_sections@.map_values(|r: RawSection| layout_of(r)));
        assert forall|k: int| 0 <= k < raw_sections@.len() implies #[trigger] describes(img.spec_infos()[k]@, img.layouts()[k]) by {
            assert(img.layouts()[k] == parsed_layout(img.sections@[k]));
        }
        img
    }

    /// Reads the tables of the binary held in `data`: it succeeds exactly
    /// when `object` parses the data, and then records the sections and
    /// symbols `object` reports.
    pub fn parse(data: &[u8], path: String) -> (r: Result<BinaryImage, BinateError>)
        ensures
            r is Ok <==> object_parse_ok(data@),
            r matches Ok(img) ==> {
                &&& img.spec_path() == path@
                &&& img.spec_format() == object_format(data@)
                &&& img.spec_architecture() == object_architecture(data@)
                &&& img.spec_machine() == object_machine(data@)
                &&& layouts_listed(img.layouts(), object_section_list(data@))
                &&& infos_listed(img.spec_infos(), object_section_list(data@))
                &&& img.spec_infos().len() == img.layouts().len()
                &&& forall|k: int| 0 <= k < img.layouts().len() ==> #[trigger] describes(img.spec_infos()[k]@, img.layouts()[k])
                &&& lists_map(img.spec_symbols()@, symbol_map(object_symbol_list(data@)))
            },
            r matches Err(e) ==> e is ObjectParse,
    {
        let (format, arch, machine) = match object_header(data) {
            Ok(h) => h,
            Err(e) => {
                return Err(BinateError::ObjectParse(e));
            },
        };
        let raw_symbols = match object_symbols(data) {
            Ok(s) => s,
            Err(e) => {
                return Err(BinateError::ObjectParse(e));
            },
        };
        let raw_sections = match object_sections(data) {
            Ok(s) => s,
            Err(e) => {
                return Err(BinateError::ObjectParse(e));
            },
        };
        let ghost parts = raw_section_parts(raw_sections@);
        let ghost raws = raw_sections@;
        let img = BinaryImage::from_tables(path, format, arch, machine, raw_sections, &raw_symbols);
        proof {
            assert forall|k: int| 0 <= k < parts.len() implies #[trigger] layout_fits(img.layouts()[k], parts[k]) by {
                assert(img.layouts()[k] == layout_of(raws[k]));
                assert(parts[k] == (opt_string_view(raws[k].name), raws[k].kind, raws[k].address, raws[k].file_range));
            }
            assert forall|k: int| 0 <= k < parts.len() implies #[trigger] info_fits(img.spec_infos()[k]@, parts[k]) by {
                assert(img.spec_infos()[k]@ == info_of(raws[k]));
                assert(parts[k] == (opt_string_view(raws[k].name), raws[k].kind, raws[k].address, raws[k].file_range));
            }
        }
        Ok(img)
    }

    pub fn format(&self) -> (f: object::BinaryFormat)
        ensures
            f == self.spec_format(),
    {
        self.format
    }

    pub fn architecture(&self) -> (a: object::Architecture)
        ensures
            a == self.spec_architecture(),
    {
        self.arch
    }

    /// The architecture family.
    pub fn machine(&self) -> (m: Machine)
        ensures
            m == self.spec_machine(),
    {
        self.machine
    }

    pub fn symbol_table(&self) -> (t: &SymbolTable)
        ensures
            *t == self.spec_symbols(),
    {
        &self.symbols
    }

    pub fn path(&self) -> (p: &str)
        ensures
            p@ == self.spec_path(),
    {
        self.path.as_str()
    }

    pub fn sections(&self) -> (s: &[SectionInfo])
        ensures
            s@ == self.spec_infos(),
            s@.len() == self.layouts().len(),
            forall|k: int| 0 <= k < s@.len() ==> #[trigger] describes(s@[k]@, self.layouts()[k]),
    {
        proof {
            use_type_invariant(self);
            assert forall|k: int| 0 <= k < self.section_infos@.len() implies #[trigger] describes(self.section_infos@[k]@, self.layouts()[k]) by {
                assert(self.layouts()[k] == parsed_layout(self.sections@[k]));
            }
        }
        self.section_infos.as_slice()
    }

    /// The bytes, base address and kind of the first section named `name`,
    /// when that section has bytes lying wholly inside `data`.
    pub fn section_data<'a>(&self, data: &'a [u8], name: &str) -> (r: Option<(&'a [u8], u64, object::SectionKind)>)
        ensures
            match first_named(self.layouts(), name@) {
                None => r is None,
                Some(k) => {
                    let l = self.layouts()[k];
                    if is_present(l, data@.len() as int) {
                        r matches Some(t) && t.0@ == data@.subrange(l.offset as int, (l.offset + l.size) as int)
                            && t.1 == l.address && t.2 == l.kind
                    } else {
                        r is None
                    }
                },
            },
    {
        let mut i: usize = 0;
        while i < self.sections.len()
            invariant
                i <= self.sections@.len(),
                first_named(self.layouts(), name@) == first_named_from(self.layouts(), name@, i as int),
            decreases self.sections@.len() - i,
        {
            let s = &self.sections[i];
            if crate::bytes::str_equals(s.name.as_str(), name) {
                proof {
                    assert(self.layouts()[i as int] == parsed_layout(*s));
                }
                if s.size == 0 {
                    return None;
                }
                if s.offset > data.len() || s.size > data.len() - s.offset {
                    return None;
                }
                let end = s.offset + s.size;
                return Some((&data[s.offset..end], s.address, s.kind));
            }
            proof {
                assert(self.layouts()[i as int] == parsed_layout(*s));
            }
            i = i + 1;
        }
        None
    }

    /// The sections whose bytes lie wholly inside `data` and are not empty,
    /// in order, with their bytes.
    pub fn present_sections<'a>(&self, data: &'a [u8]) -> (out: Vec<SectionBytes<'a>>)
        ensures
            section_bytes_views(out@) == section_images(*self, data@),
            out@.len() == present_sections(self.layouts(), data@.len() as int).len(),
            forall|k: int| 0 <= k < out@.len() ==> #[trigger] out@[k]@ == bytes_of(
                present_sections(self.layouts(), data@.len() as int)[k],
                data@,
            ),
    {
        let mut out: Vec<SectionBytes<'a>> = Vec::new();
        let mut i: usize = 0;
        let ghost len = data@.len() as int;
        while i < self.sections.len()
            invariant
                i <= self.sections@.len(),
                len == data@.len(),
                out@.len() == present_sections(self.layouts().take(i as int), len).len(),
                forall|k: int| 0 <= k < out@.len() ==> #[trigger] out@[k]@ == bytes_of(
                    present_sections(self.layouts().take(i as int), len)[k],
                    data@,
                ),
            decreases self.sections@.len() - i,
        {
            let s = &self.sections[i];
            proof {
                assert(self.layouts().take(i + 1).drop_last() == self.layouts().take(i as int));
                assert(self.layouts().take(i + 1).last() == parsed_layout(*s));
            }
            if s.size != 0 && s.offset <= data.len() && s.size <= data.len() - s.offset {
                let end = s.offset + s.size;
                out.push(SectionBytes { name: s.name.clone(), kind: s.kind, address: s.address, data: &data[s.offset..end] });
            }
            i = i + 1;
        }
        proof {
            assert(self.layouts().take(i as int) == self.layouts());
            assert(section_bytes_views(out@) =~= section_images(*self, data@));
        }
        out
    }
}

impl SymbolTable {
    /// Reads the symbol table of the binary held in `data`: it succeeds
    /// exactly when `object` parses the data, and then holds the symbols
    /// `object` reports, as `from_raw_symbols` keeps them.
    pub fn build(data: &[u8]) -> (r: Result<SymbolTable, BinateError>)
        ensures
            r is Ok <==> object_parse_ok(data@),
            r matches Ok(t) ==> lists_map(t@, symbol_map(object_symbol_list(data@))),
            r matches Err(e) ==> e is ObjectParse,
    {
        match object_symbols(data) {
            Ok(raws) => Ok(SymbolTable::from_raw_symbols(&raws)),
            Err(e) => Err(BinateError::ObjectParse(e)),
        }
    }
}

} // verus!
