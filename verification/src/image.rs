//! Reading the dynamic-linking tables of an ELF image.
//!
//! The tables are read by the `elf` crate. Nothing in this module is proved: each
//! function hands one of the crate's calls on. Its contract says what the call
//! returns where a few lines can say it, and else gives the result a name, so
//! that the extraction built on top can say exactly what it makes of the tables.

use vstd::prelude::*;
use vstd::utf8::{decode_utf8, encode_utf8, valid_utf8};

verus! {

/// `elf::ParseError`, the error of every call into the crate. Nothing is known
/// of a value but that it can be put into words.
#[verifier::external_type_specification]
#[verifier::external_body]
pub struct ExParseError(elf::ParseError);

/// `elf::string_table::StringTable`, a string table of an image. What is known
/// of a value is the bytes it holds, which [`table_bytes`] names.
#[verifier::external_type_specification]
#[verifier::external_body]
pub struct ExStringTable<'data>(elf::string_table::StringTable<'data>);

/// An ELF image opened for reading: an `elf::ElfStream` over the image's bytes.
///
/// Verus cannot take the stream's own type, whose parameters are bound by traits
/// of the `elf` crate and of `std::io`, so the stream is kept out of its sight
/// here.
#[verifier::external_body]
pub struct ElfImage<'a> {
    stream: elf::ElfStream<elf::endian::AnyEndian, std::io::Cursor<&'a [u8]>>,
}

/// The symbol version tables of an image: an `elf::gnu_symver::SymbolVersionTable`,
/// kept out of Verus's sight for the same reason as [`ElfImage`].
#[verifier::external_body]
pub struct VersionTable<'s> {
    table: elf::gnu_symver::SymbolVersionTable<'s, elf::endian::AnyEndian>,
}

/// One entry of the dynamic table: its tag and its value.
#[derive(Debug, Clone, Copy, PartialEq, Eq, Structural)]
pub struct DynamicEntry {
    pub tag: i64,
    pub value: u64,
}

/// One section header, field by field.
#[derive(Debug, Clone, Copy, PartialEq, Eq, Structural)]
pub struct SectionRecord {
    pub name: u32,
    pub kind: u32,
    pub flags: u64,
    pub address: u64,
    pub offset: u64,
    pub size: u64,
    pub link: u32,
    pub info: u32,
    pub alignment: u64,
    pub entry_size: u64,
}

/// One entry of the dynamic symbol table, as far as linking reads it.
#[derive(Debug, Clone, Copy, PartialEq, Eq, Structural)]
pub struct RawSymbol {
    /// The offset of the symbol's name in the string table; 0 for no name.
    pub name_index: u32,
    /// Whether the symbol is defined elsewhere.
    pub undefined: bool,
    /// The symbol's binding.
    pub binding: u8,
}

/// The dynamic symbol table of an image: its entries, and the strings of the
/// string table that goes with it, by offset.
pub struct SymbolTableModel {
    pub symbols: Seq<RawSymbol>,
    pub strings: Map<int, Seq<char>>,
}

/// The symbol version tables of an image: by symbol index, the version that a
/// symbol requires, and the names of the version that it defines (`None` for a
/// name that cannot be read).
pub struct VersionModel {
    pub requirements: Map<int, Seq<char>>,
    pub definitions: Map<int, Seq<Option<Seq<char>>>>,
}

/// The bytes that an opened image reads from.
pub uninterp spec fn image_source(image: ElfImage) -> Seq<u8>;

/// The bytes that a string table holds.
pub uninterp spec fn table_bytes(table: elf::string_table::StringTable) -> Seq<u8>;

/// The versions that a version table has symbols require, by symbol index.
pub uninterp spec fn table_requirements(table: VersionTable) -> Map<int, Seq<char>>;

/// The names of the versions that a version table has symbols define, by symbol
/// index; `None` stands for a name that cannot be read.
pub uninterp spec fn table_definitions(table: VersionTable) -> Map<int, Seq<Option<Seq<char>>>>;

/// What a version table holds.
pub open spec fn table_versions(table: VersionTable) -> VersionModel {
    VersionModel {
        requirements: table_requirements(table),
        definitions: table_definitions(table),
    }
}

/// Whether `elf::ElfStream::open_stream` accepts these bytes.
pub uninterp spec fn image_opens(source: Seq<u8>) -> bool;

/// What `elf::ElfStream::dynamic` reads from an image of these bytes: `None`
/// where it fails, `Some(None)` where the image has no dynamic table.
pub uninterp spec fn image_dynamic(source: Seq<u8>) -> Option<Option<Seq<DynamicEntry>>>;

/// What `elf::ElfStream::section_header_by_name` finds in an image of these
/// bytes: `None` where it fails, `Some(None)` where no section has the name.
pub uninterp spec fn image_section(source: Seq<u8>, name: Seq<char>) -> Option<
    Option<SectionRecord>,
>;

/// What `elf::ElfStream::dynamic_symbol_table` reads from an image of these
/// bytes: `None` where it fails, `Some(None)` where the image has no such table.
pub uninterp spec fn image_symbols(source: Seq<u8>) -> Option<Option<SymbolTableModel>>;

/// What `elf::ElfStream::symbol_version_table` reads from an image of these
/// bytes: `None` where it fails, `Some(None)` where the image has no versions.
pub uninterp spec fn image_versions(source: Seq<u8>) -> Option<Option<VersionModel>>;

/// The type of a section that holds a string table.
pub const SHT_STRTAB: u32 = 3;

/// Whether the string that starts at an offset of a string table ends at a
/// position: the position holds the first NUL byte from the offset on.
pub open spec fn ends_at(bytes: Seq<u8>, offset: int, end: int) -> bool {
    &&& 0 <= offset <= end < bytes.len()
    &&& bytes[end] == 0
    &&& forall|i: int| offset <= i < end ==> bytes[i] != 0
}

/// The bytes of the string that starts at an offset of a string table: those
/// before the next NUL byte. There is none where the offset lies outside the
/// table, or no NUL byte follows.
pub open spec fn raw_string(bytes: Seq<u8>, offset: int) -> Option<Seq<u8>> {
    if exists|end: int| ends_at(bytes, offset, end) {
        Some(bytes.subrange(offset, choose|end: int| ends_at(bytes, offset, end)))
    } else {
        None
    }
}

/// The strings of a string table with these bytes, by the offset at which each
/// starts: the strings whose bytes are valid UTF-8.
pub open spec fn strings_of(bytes: Seq<u8>) -> Map<int, Seq<char>> {
    Map::new(
        |offset: int|
            match raw_string(bytes, offset) {
                Some(raw) => valid_utf8(raw),
                None => false,
            },
        |offset: int| decode_utf8(raw_string(bytes, offset).unwrap()),
    )
}

/// The strings that a string table holds, by the offset at which each starts.
pub open spec fn table_strings(table: elf::string_table::StringTable) -> Map<int, Seq<char>> {
    strings_of(table_bytes(table))
}

/// The bytes of a section that holds a string table: the bytes of the image
/// at the section's offset, as many as its size; none where the section is of
/// another type or reaches beyond the image.
pub open spec fn section_bytes(source: Seq<u8>, section: SectionRecord) -> Option<Seq<u8>> {
    if section.kind == SHT_STRTAB && section.offset + section.size <= source.len() {
        Some(source.subrange(section.offset as int, section.offset + section.size))
    } else {
        None
    }
}

/// The strings of a section of an image, by offset; none where the section
/// holds no string table.
pub open spec fn image_strings(source: Seq<u8>, section: SectionRecord) -> Option<
    Map<int, Seq<char>>,
> {
    match section_bytes(source, section) {
        Some(bytes) => Some(strings_of(bytes)),
        None => None,
    }
}

/// Calls `elf::ElfStream::open_stream` on a cursor over the bytes. The stream
/// reads the file header and the section and program header tables; it succeeds
/// on the inputs that [`image_opens`] names, and then reads from these bytes.
#[verifier::external_body]
pub(crate) fn open_stream<'a>(source: &'a [u8]) -> (opened: Result<ElfImage<'a>, elf::ParseError>)
    ensures
        opened is Ok <==> image_opens(source@),
        opened matches Ok(image) ==> image_source(image) == source@,
{
    Ok(ElfImage { stream: elf::ElfStream::open_stream(std::io::Cursor::new(source))? })
}

/// Calls `elf::ElfStream::dynamic` and collects the entries that the table's
/// iterator yields. The result is what [`image_dynamic`] names for the image's
/// bytes, which the call leaves as they are.
#[verifier::external_body]
pub(crate) fn dynamic(image: &mut ElfImage) -> (entries: Result<
    Option<Vec<DynamicEntry>>,
    elf::ParseError,
>)
    ensures
        image_source(*final(image)) == image_source(*old(image)),
        match entries {
            Ok(Some(list)) => image_dynamic(image_source(*old(image))) == Some(Some(list@)),
            Ok(None) => image_dynamic(image_source(*old(image))) == Some(
                None::<Seq<DynamicEntry>>,
            ),
            Err(_) => image_dynamic(image_source(*old(image))) is None,
        },
{
    let entry = |entry: elf::dynamic::Dyn| DynamicEntry { tag: entry.d_tag, value: entry.d_val() };
    Ok(image.stream.dynamic()?.map(|table| table.iter().map(entry).collect()))
}

/// Calls `elf::ElfStream::section_header_by_name` and copies the header found.
/// The result is what [`image_section`] names for the image's bytes and the
/// name.
#[verifier::external_body]
pub(crate) fn section_header_by_name(image: &mut ElfImage, name: &str) -> (found: Result<
    Option<SectionRecord>,
    elf::ParseError,
>)
    ensures
        image_source(*final(image)) == image_source(*old(image)),
        match found {
            Ok(section) => image_section(image_source(*old(image)), name@) == Some(section),
            Err(_) => image_section(image_source(*old(image)), name@) is None,
        },
{
    let record = |header: &elf::section::SectionHeader| SectionRecord {
        name: header.sh_name, kind: header.sh_type, flags: header.sh_flags,
        address: header.sh_addr, offset: header.sh_offset, size: header.sh_size,
        link: header.sh_link, info: header.sh_info,
        alignment: header.sh_addralign, entry_size: header.sh_entsize,
    };
    Ok(image.stream.section_header_by_name(name)?.map(record))
}

/// Calls `elf::ElfStream::section_data_as_strtab` for a section header. The
/// call checks that the section is of the type of a string table, and reads
/// the bytes of the image at the section's offset, as many as its size; it
/// fails where the section is of another type or reaches beyond the image.
#[verifier::external_body]
pub(crate) fn section_data_as_strtab<'s>(image: &'s mut ElfImage, section: &SectionRecord) -> (table:
    Result<elf::string_table::StringTable<'s>, elf::ParseError>)
    ensures
        image_source(*final(image)) == image_source(*old(image)),
        match table {
            Ok(strings) => section_bytes(image_source(*old(image)), *section) == Some(
                table_bytes(strings),
            ),
            Err(_) => section_bytes(image_source(*old(image)), *section) is None,
        },
{
    let header = elf::section::SectionHeader {
        sh_name: section.name, sh_type: section.kind, sh_flags: section.flags,
        sh_addr: section.address, sh_offset: section.offset, sh_size: section.size,
        sh_link: section.link, sh_info: section.info,
        sh_addralign: section.alignment, sh_entsize: section.entry_size,
    };
    image.stream.section_data_as_strtab(&header)
}

/// Calls `elf::string_table::StringTable::get`, which reads the string that
/// starts at an offset and ends before the next NUL byte. It fails where the
/// offset lies outside the table, where no NUL byte follows, and where the
/// bytes are not valid UTF-8; else the string has those bytes.
#[verifier::external_body]
pub(crate) fn string_at(table: &elf::string_table::StringTable, offset: u64) -> (text: Result<
    String,
    elf::ParseError,
>)
    ensures
        match raw_string(table_bytes(*table), offset as int) {
            Some(raw) => if valid_utf8(raw) {
                text matches Ok(string) && encode_utf8(string@) == raw
            } else {
                text is Err
            },
            None => text is Err,
        },
{
    Ok(String::from(table.get(usize::try_from(offset)?)?))
}

/// Calls `elf::ElfStream::dynamic_symbol_table` and collects the entries that
/// the symbol table's iterator yields, each with its name offset, whether
/// `is_undefined` holds of it, and its `st_bind`. The result is what
/// [`image_symbols`] names for the image's bytes.
#[verifier::external_body]
pub(crate) fn dynamic_symbol_table<'s>(image: &'s mut ElfImage) -> (tables: Result<
    Option<(Vec<RawSymbol>, elf::string_table::StringTable<'s>)>,
    elf::ParseError,
>)
    ensures
        image_source(*final(image)) == image_source(*old(image)),
        match tables {
            Ok(Some((symbols, strings))) => image_symbols(image_source(*old(image))) == Some(
                Some(SymbolTableModel { symbols: symbols@, strings: table_strings(strings) }),
            ),
            Ok(None) => image_symbols(image_source(*old(image))) == Some(
                None::<SymbolTableModel>,
            ),
            Err(_) => image_symbols(image_source(*old(image))) is None,
        },
{
    let record = |symbol: elf::symbol::Symbol| RawSymbol {
        name_index: symbol.st_name,
        undefined: symbol.is_undefined(),
        binding: symbol.st_bind(),
    };
    let tables = image.stream.dynamic_symbol_table()?;
    Ok(tables.map(|(symbols, strings)| (symbols.iter().map(record).collect(), strings)))
}

/// Calls `elf::ElfStream::symbol_version_table`. The table holds what
/// [`image_versions`] names for the image's bytes.
#[verifier::external_body]
pub(crate) fn symbol_version_table<'s>(image: &'s mut ElfImage) -> (versions: Result<
    Option<VersionTable<'s>>,
    elf::ParseError,
>)
    ensures
        image_source(*final(image)) == image_source(*old(image)),
        match versions {
            Ok(Some(table)) => image_versions(image_source(*old(image))) == Some(
                Some(
                    VersionModel {
                        requirements: table_requirements(table),
                        definitions: table_definitions(table),
                    },
                ),
            ),
            Ok(None) => image_versions(image_source(*old(image))) == Some(None::<VersionModel>),
            Err(_) => image_versions(image_source(*old(image))) is None,
        },
{
    Ok(image.stream.symbol_version_table()?.map(|table| VersionTable { table }))
}

/// Calls `elf::gnu_symver::SymbolVersionTable::get_requirement` for a symbol
/// index and copies the required version's name. A version comes back for the
/// indices that the table's requirements hold, and it is the one held there.
///
/// The crate walks the table with unchecked sums of a position and a 32-bit
/// offset, which stay in range only where positions have 64 bits.
#[verifier::external_body]
pub(crate) fn get_requirement(table: &VersionTable, index: usize) -> (version: Result<
    Option<String>,
    elf::ParseError,
>)
    requires
        usize::BITS == 64,
    ensures
        version matches Ok(Some(_)) <==> table_requirements(*table).contains_key(index as int),
        version matches Ok(Some(name)) ==> name@ == table_requirements(*table)[index as int],
{
    Ok(table.table.get_requirement(index)?.map(|requirement| String::from(requirement.name)))
}

/// Calls `elf::gnu_symver::SymbolVersionTable::get_definition` for a symbol
/// index and collects the names that the definition's iterator yields, `None`
/// for one that fails to read. A definition comes back for the indices that the
/// table's definitions hold, with the names held there.
///
/// The crate walks the table with unchecked sums of a position and a 32-bit
/// offset, which stay in range only where positions have 64 bits.
#[verifier::external_body]
pub(crate) fn get_definition(table: &VersionTable, index: usize) -> (names: Result<
    Option<Vec<Option<String>>>,
    elf::ParseError,
>)
    requires
        usize::BITS == 64,
    ensures
        names matches Ok(Some(_)) <==> table_definitions(*table).contains_key(index as int),
        names matches Ok(Some(list)) ==> version_names(list@) == table_definitions(
            *table,
        )[index as int],
{
    let definition = table.table.get_definition(index)?;
    Ok(definition.map(|found| found.names.map(|name| name.ok().map(String::from)).collect()))
}

/// Calls the `Display` implementation of `elf::ParseError`.
#[verifier::external_body]
pub(crate) fn describe(error: &elf::ParseError) -> (message: String) {
    format!("{error}")
}

/// The views of a list of names, some of which are missing.
pub open spec fn version_names(names: Seq<Option<String>>) -> Seq<Option<Seq<char>>> {
    names.map_values(
        |name: Option<String>|
            match name {
                Some(text) => Some(text@),
                None => None,
            },
    )
}

} // verus!
