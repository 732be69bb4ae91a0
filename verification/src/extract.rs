//! Extraction of dynamic-linking metadata from an ELF image: what the tables of
//! an image are, and what a binary's or a library's record makes of them.

use vstd::prelude::*;
use vstd::string::*;
use vstd::utf8::encode_utf8_decode_utf8;
use crate::image::{
    describe, dynamic, dynamic_symbol_table, get_definition, get_requirement, image_dynamic,
    image_opens, image_section, image_source, image_strings, image_symbols, image_versions,
    open_stream, section_data_as_strtab, section_header_by_name, string_at,
    symbol_version_table,
    table_strings, table_versions, version_names, DynamicEntry, ElfImage, RawSymbol,
    SymbolTableModel, VersionModel, VersionTable,
};
use crate::names::{
    is_bookkeeping, is_bookkeeping_symbol, qualified, qualify, search_path_entries,
    split_search_path,
};
use crate::binary::{BinaryInfo, BinaryModel};
use crate::library::{LibraryInfo, LibraryModel, LibraryPriority};
use crate::sequences::{lemma_filter_push, lemma_texts_add, lemma_texts_push};
use crate::order::sort_texts;
use crate::symbol::is_sorting_of;
use crate::text::texts_of;

verus! {

/// The tag of a dynamic entry that names a needed library.
pub const DT_NEEDED: i64 = 1;

/// The tag of a dynamic entry that names the library itself.
pub const DT_SONAME: i64 = 14;

/// The tag of a dynamic entry that holds a search path.
pub const DT_RPATH: i64 = 15;

/// The tag of a dynamic entry that holds a search path, in its later form.
pub const DT_RUNPATH: i64 = 29;

/// The binding of a weak symbol, which may stay unbound.
pub const STB_WEAK: u8 = 2;

/// Why an image cannot be parsed.
#[derive(Debug, Clone, Copy, PartialEq, Eq, Structural)]
pub enum ParseFailure {
    /// The container is malformed: a header or a table cannot be read.
    Malformed,
    /// The image has no dynamic table.
    MissingDynamic,
    /// The image has no dynamic string table.
    MissingStringTable,
    /// The image has no dynamic symbol table.
    MissingSymbolTable,
}

/// The failure to parse an image.
#[derive(Debug)]
pub struct ElfError {
    /// Why the image cannot be parsed.
    pub kind: ParseFailure,
    /// What the reader of the image said, where it gave up.
    pub detail: String,
}

impl ElfError {
    /// The failure in words: what the reader of the image said of a malformed
    /// image, and else which table is missing.
    pub open spec fn message_text(self) -> Seq<char> {
        match self.kind {
            ParseFailure::Malformed => self.detail@,
            ParseFailure::MissingDynamic => "no dynamic section"@,
            ParseFailure::MissingStringTable => "no dynamic string table"@,
            ParseFailure::MissingSymbolTable => "no dynamic symbol table"@,
        }
    }

    /// The failure in words.
    pub fn message(&self) -> (text: String)
        ensures
            text@ == self.message_text(),
    {
        match self.kind {
            ParseFailure::Malformed => self.detail.clone(),
            ParseFailure::MissingDynamic => "no dynamic section".to_owned(),
            ParseFailure::MissingStringTable => "no dynamic string table".to_owned(),
            ParseFailure::MissingSymbolTable => "no dynamic symbol table".to_owned(),
        }
    }
}

/// The failure of a malformed image, with what the reader of the image said
/// where it gave up.
fn malformed_because(detail: String) -> (failure: ElfError)
    ensures
        failure.kind == ParseFailure::Malformed,
        failure.detail@ == detail@,
{
    ElfError { kind: ParseFailure::Malformed, detail }
}

/// The failure of an image that the reader gave up on. The words are the
/// reader's own, and nothing is known of them.
fn malformed(error: elf::ParseError) -> (failure: ElfError)
    ensures
        failure.kind == ParseFailure::Malformed,
{
    malformed_because(describe(&error))
}

fn missing(kind: ParseFailure) -> (failure: ElfError)
    ensures
        failure.kind == kind,
{
    ElfError { kind, detail: String::new() }
}

/// The tables of an image that linking reads.
pub struct TablesModel {
    /// The entries of the dynamic table.
    pub dynamic: Seq<DynamicEntry>,
    /// The strings of the dynamic string table, by offset.
    pub strings: Map<int, Seq<char>>,
    /// The dynamic symbol table.
    pub symbols: SymbolTableModel,
    /// The symbol version tables, where the image has them.
    pub versions: Option<VersionModel>,
}

/// The strings of an image's dynamic string table, the section `.dynstr`.
pub open spec fn dynamic_strings(source: Seq<u8>) -> Result<Map<int, Seq<char>>, ParseFailure> {
    match image_section(source, ".dynstr"@) {
        None => Err(ParseFailure::Malformed),
        Some(None) => Err(ParseFailure::MissingStringTable),
        Some(Some(section)) => match image_strings(source, section) {
            None => Err(ParseFailure::Malformed),
            Some(strings) => Ok(strings),
        },
    }
}

/// Whether an entry holds a search path.
pub open spec fn is_search_path(entry: DynamicEntry) -> bool {
    entry.tag == DT_RPATH || entry.tag == DT_RUNPATH
}

/// Whether a record reads the string that an entry names: a needed library is
/// read for both kinds of record, a search path for a binary, the library's own
/// name for a library.
pub open spec fn reads_string(entry: DynamicEntry, library: bool) -> bool {
    entry.tag == DT_NEEDED || if library {
        entry.tag == DT_SONAME
    } else {
        is_search_path(entry)
    }
}

/// Whether the string table holds every string that the record reads.
pub open spec fn strings_resolve(
    dynamic: Seq<DynamicEntry>,
    strings: Map<int, Seq<char>>,
    library: bool,
) -> bool {
    forall|i: int|
        0 <= i < dynamic.len() && reads_string(#[trigger] dynamic[i], library)
            ==> strings.contains_key(dynamic[i].value as int)
}

/// The tables of an image, or why they cannot be had: the first step that
/// fails, of opening the image, reading its dynamic table, finding and reading
/// its dynamic string table, resolving the strings that the record reads,
/// reading the dynamic symbol table, and reading the version tables.
pub open spec fn image_tables(source: Seq<u8>, library: bool) -> Result<TablesModel, ParseFailure> {
    if !image_opens(source) {
        Err(ParseFailure::Malformed)
    } else {
        match image_dynamic(source) {
            None => Err(ParseFailure::Malformed),
            Some(None) => Err(ParseFailure::MissingDynamic),
            Some(Some(dynamic)) => match dynamic_strings(source) {
                Err(failure) => Err(failure),
                Ok(strings) => if !strings_resolve(dynamic, strings, library) {
                    Err(ParseFailure::Malformed)
                } else {
                    match image_symbols(source) {
                        None => Err(ParseFailure::Malformed),
                        Some(None) => Err(ParseFailure::MissingSymbolTable),
                        Some(Some(symbols)) => match image_versions(source) {
                            None => Err(ParseFailure::Malformed),
                            Some(versions) => Ok(
                                TablesModel { dynamic, strings, symbols, versions },
                            ),
                        },
                    }
                },
            },
        }
    }
}

/// The libraries that a dynamic table needs, in the table's order.
pub open spec fn needed_of(dynamic: Seq<DynamicEntry>, strings: Map<int, Seq<char>>) -> Seq<
    Seq<char>,
> {
    dynamic.filter(|entry: DynamicEntry| entry.tag == DT_NEEDED).map_values(
        |entry: DynamicEntry| strings[entry.value as int],
    )
}

/// The directories of all search paths of a dynamic table, in the table's
/// order: the earlier and the later form of the entry are taken together.
pub open spec fn rpath_of(dynamic: Seq<DynamicEntry>, strings: Map<int, Seq<char>>) -> Seq<
    Seq<char>,
> {
    dynamic.filter(|entry: DynamicEntry| is_search_path(entry)).map_values(
        |entry: DynamicEntry| search_path_entries(strings[entry.value as int]),
    ).flatten()
}

/// The name that a library goes by: the one its dynamic table declares last,
/// or the given one where it declares none.
pub open spec fn soname_of(
    dynamic: Seq<DynamicEntry>,
    strings: Map<int, Seq<char>>,
    given: Seq<char>,
) -> Seq<char> {
    let declared = dynamic.filter(|entry: DynamicEntry| entry.tag == DT_SONAME);
    if declared.len() == 0 {
        given
    } else {
        strings[declared.last().value as int]
    }
}

/// What a record takes from the dynamic table.
struct DynamicLinks {
    /// The needed libraries, in the table's order.
    needed: Vec<String>,
    /// The directories of the search paths, in the table's order.
    rpath: Vec<String>,
    /// The name that the table declares for the library itself.
    soname: Option<String>,
}

/// Reads the dynamic table.
fn read_dynamic(image: &mut ElfImage) -> (entries: Result<Vec<DynamicEntry>, ElfError>)
    ensures
        image_source(*final(image)) == image_source(*old(image)),
        match entries {
            Ok(list) => image_dynamic(image_source(*old(image))) == Some(Some(list@)),
            Err(failure) => match image_dynamic(image_source(*old(image))) {
                None => failure.kind == ParseFailure::Malformed,
                Some(None) => failure.kind == ParseFailure::MissingDynamic,
                Some(Some(_)) => false,
            },
        },
{
    match dynamic(image) {
        Ok(Some(list)) => Ok(list),
        Ok(None) => Err(missing(ParseFailure::MissingDynamic)),
        Err(error) => Err(malformed(error)),
    }
}

/// Finds and reads the dynamic string table.
fn read_dynamic_strings<'s>(image: &'s mut ElfImage) -> (table: Result<
    elf::string_table::StringTable<'s>,
    ElfError,
>)
    ensures
        image_source(*final(image)) == image_source(*old(image)),
        match table {
            Ok(strings) => dynamic_strings(image_source(*old(image))) == Ok::<
                Map<int, Seq<char>>,
                ParseFailure,
            >(table_strings(strings)),
            Err(failure) => dynamic_strings(image_source(*old(image))) == Err::<
                Map<int, Seq<char>>,
                ParseFailure,
            >(failure.kind),
        },
{
    let section = match section_header_by_name(image, ".dynstr") {
        Ok(Some(section)) => section,
        Ok(None) => {
            return Err(missing(ParseFailure::MissingStringTable));
        },
        Err(error) => {
            return Err(malformed(error));
        },
    };
    match section_data_as_strtab(image, &section) {
        Ok(strings) => Ok(strings),
        Err(error) => Err(malformed(error)),
    }
}

/// Reads the string that starts at an offset of a string table.
fn read_string(table: &elf::string_table::StringTable, offset: u64) -> (text: Result<
    String,
    elf::ParseError,
>)
    ensures
        text is Ok <==> table_strings(*table).contains_key(offset as int),
        text matches Ok(string) ==> string@ == table_strings(*table)[offset as int],
{
    let text = string_at(table, offset);
    proof {
        if let Ok(string) = &text {
            encode_utf8_decode_utf8(string@);
        }
    }
    text
}

/// Takes from the dynamic table what a record reads, with the strings that the
/// entries name.
fn read_links(
    entries: &Vec<DynamicEntry>,
    table: &elf::string_table::StringTable,
    library: bool,
) -> (links: Result<DynamicLinks, ElfError>)
    ensures
        match links {
            Ok(found) => {
                &&& strings_resolve(entries@, table_strings(*table), library)
                &&& texts_of(found.needed@) == needed_of(entries@, table_strings(*table))
                &&& !library ==> texts_of(found.rpath@) == rpath_of(
                    entries@,
                    table_strings(*table),
                )
                &&& library ==> forall|given: Seq<char>|
                    soname_of(entries@, table_strings(*table), given) == (match found.soname {
                        Some(name) => name@,
                        None => given,
                    })
            },
            Err(failure) => {
                &&& failure.kind == ParseFailure::Malformed
                &&& !strings_resolve(entries@, table_strings(*table), library)
            },
        },
{
    let ghost strings = table_strings(*table);
    let ghost is_needed = |entry: DynamicEntry| entry.tag == DT_NEEDED;
    let ghost is_path = |entry: DynamicEntry| is_search_path(entry);
    let ghost is_soname = |entry: DynamicEntry| entry.tag == DT_SONAME;
    let ghost needed_text = |entry: DynamicEntry| strings[entry.value as int];
    let ghost path_texts = |entry: DynamicEntry| search_path_entries(strings[entry.value as int]);
    let mut needed: Vec<String> = Vec::new();
    let mut rpath: Vec<String> = Vec::new();
    let mut soname: Option<String> = None;
    let mut at: usize = 0;
    assert(entries@.subrange(0, 0) =~= Seq::<DynamicEntry>::empty());
    assert(texts_of(needed@) =~= Seq::<Seq<char>>::empty());
    assert(texts_of(rpath@) =~= Seq::<Seq<char>>::empty());
    while at < entries.len()
        invariant
            at <= entries.len(),
            strings == table_strings(*table),
            is_needed == |entry: DynamicEntry| entry.tag == DT_NEEDED,
            is_path == |entry: DynamicEntry| is_search_path(entry),
            is_soname == |entry: DynamicEntry| entry.tag == DT_SONAME,
            needed_text == |entry: DynamicEntry| strings[entry.value as int],
            path_texts == |entry: DynamicEntry| search_path_entries(strings[entry.value as int]),
            forall|i: int|
                0 <= i < at && reads_string(#[trigger] entries@[i], library)
                    ==> strings.contains_key(entries@[i].value as int),
            texts_of(needed@) == entries@.subrange(0, at as int).filter(is_needed).map_values(
                needed_text,
            ),
            !library ==> texts_of(rpath@) == entries@.subrange(0, at as int).filter(
                is_path,
            ).map_values(path_texts).flatten(),
            library ==> (match soname {
                Some(name) => {
                    let declared = entries@.subrange(0, at as int).filter(is_soname);
                    declared.len() > 0 && name@ == strings[declared.last().value as int]
                },
                None => entries@.subrange(0, at as int).filter(is_soname).len() == 0,
            }),
        decreases entries.len() - at,
    {
        let entry = entries[at];
        let ghost before = entries@.subrange(0, at as int);
        proof {
            assert(entries@.subrange(0, at + 1) =~= before.push(entry));
            lemma_filter_push(before, entry, is_needed);
            lemma_filter_push(before, entry, is_path);
            lemma_filter_push(before, entry, is_soname);
        }
        if entry.tag == DT_NEEDED {
            match read_string(table, entry.value) {
                Ok(text) => {
                    proof {
                        lemma_texts_push(needed@, text);
                        assert(before.filter(is_needed).push(entry).map_values(needed_text)
                            =~= before.filter(is_needed).map_values(needed_text).push(text@));
                    }
                    needed.push(text);
                },
                Err(error) => {
                    assert(reads_string(entries@[at as int], library));
                    return Err(malformed(error));
                },
            }
        } else if !library && (entry.tag == DT_RPATH || entry.tag == DT_RUNPATH) {
            match read_string(table, entry.value) {
                Ok(text) => {
                    let mut pieces = split_search_path(text.as_str());
                    proof {
                        lemma_texts_add(rpath@, pieces@);
                        before.filter(is_path).map_values(path_texts).lemma_flatten_push(
                            search_path_entries(text@),
                        );
                        assert(before.filter(is_path).push(entry).map_values(path_texts)
                            =~= before.filter(is_path).map_values(path_texts).push(
                            search_path_entries(text@),
                        ));
                    }
                    rpath.append(&mut pieces);
                },
                Err(error) => {
                    assert(reads_string(entries@[at as int], library));
                    return Err(malformed(error));
                },
            }
        } else if library && entry.tag == DT_SONAME {
            match read_string(table, entry.value) {
                Ok(text) => {
                    soname = Some(text);
                },
                Err(error) => {
                    assert(reads_string(entries@[at as int], library));
                    return Err(malformed(error));
                },
            }
        }
        at += 1;
    }
    proof {
        assert(entries@.subrange(0, at as int) =~= entries@);
    }
    Ok(DynamicLinks { needed, rpath, soname })
}

/// The name of each symbol of a table: the string at its name offset, or the
/// empty text where the string table holds none there.
pub open spec fn symbol_names(table: SymbolTableModel) -> Seq<Seq<char>> {
    Seq::new(
        table.symbols.len(),
        |i: int|
            {
                let offset = table.symbols[i].name_index as int;
                if table.strings.contains_key(offset) {
                    table.strings[offset]
                } else {
                    Seq::empty()
                }
            },
    )
}

/// Whether a record requires a symbol: it is undefined in the image, it has a
/// name, and it is not weakly bound, since a weak reference may stay unbound. A
/// library's record leaves the bookkeeping symbols out too.
pub open spec fn requires_symbol(symbol: RawSymbol, name: Seq<char>, library: bool) -> bool {
    &&& symbol.undefined
    &&& symbol.name_index != 0
    &&& symbol.binding != STB_WEAK
    &&& library ==> !is_bookkeeping(name)
}

/// Whether a library's record lists a symbol as defined: it is defined in the
/// image, it has a name, and it is no bookkeeping symbol.
pub open spec fn defines_symbol(symbol: RawSymbol, name: Seq<char>) -> bool {
    &&& !symbol.undefined
    &&& symbol.name_index != 0
    &&& !is_bookkeeping(name)
}

/// How a required symbol is written: with the version it requires, where it
/// requires one.
pub open spec fn required_entry(name: Seq<char>, requirement: Option<Seq<char>>) -> Seq<char> {
    match requirement {
        Some(version) => qualified(name, version),
        None => name,
    }
}

/// The names of a version definition that can be read.
pub open spec fn readable_names(names: Seq<Option<Seq<char>>>) -> Seq<Seq<char>> {
    names.filter(|name: Option<Seq<char>>| name is Some).map_values(
        |name: Option<Seq<char>>| name->0,
    )
}

/// How a defined symbol is written: once for each name of the version it
/// defines, or bare where it defines none.
pub open spec fn defined_entries(name: Seq<char>, definition: Option<Seq<Option<Seq<char>>>>) -> Seq<
    Seq<char>,
> {
    match definition {
        Some(names) => readable_names(names).map_values(|version: Seq<char>| qualified(name, version)),
        None => seq![name],
    }
}

/// The version that the symbol at an index requires, if any.
pub open spec fn requirement_at(versions: Option<VersionModel>, index: int) -> Option<Seq<char>> {
    match versions {
        Some(tables) => if tables.requirements.contains_key(index) {
            Some(tables.requirements[index])
        } else {
            None
        },
        None => None,
    }
}

/// The names of the version that the symbol at an index defines, if any.
pub open spec fn definition_at(versions: Option<VersionModel>, index: int) -> Option<
    Seq<Option<Seq<char>>>,
> {
    match versions {
        Some(tables) => if tables.definitions.contains_key(index) {
            Some(tables.definitions[index])
        } else {
            None
        },
        None => None,
    }
}

/// What the symbol at an index adds to the required symbols.
pub open spec fn required_at(
    symbols: Seq<RawSymbol>,
    names: Seq<Seq<char>>,
    versions: Option<VersionModel>,
    library: bool,
    index: int,
) -> Seq<Seq<char>> {
    if requires_symbol(symbols[index], names[index], library) {
        seq![required_entry(names[index], requirement_at(versions, index))]
    } else {
        Seq::empty()
    }
}

/// What the symbol at an index adds to the defined symbols.
pub open spec fn defined_at(
    symbols: Seq<RawSymbol>,
    names: Seq<Seq<char>>,
    versions: Option<VersionModel>,
    index: int,
) -> Seq<Seq<char>> {
    if defines_symbol(symbols[index], names[index]) {
        defined_entries(names[index], definition_at(versions, index))
    } else {
        Seq::empty()
    }
}

/// The symbols that a record requires, in the order of the symbol table.
pub open spec fn required_symbols(
    symbols: Seq<RawSymbol>,
    names: Seq<Seq<char>>,
    versions: Option<VersionModel>,
    library: bool,
) -> Seq<Seq<char>> {
    Seq::new(symbols.len(), |i: int| required_at(symbols, names, versions, library, i)).flatten()
}

/// The symbols that a library defines, in the order of the symbol table.
pub open spec fn defined_symbols(
    symbols: Seq<RawSymbol>,
    names: Seq<Seq<char>>,
    versions: Option<VersionModel>,
) -> Seq<Seq<char>> {
    Seq::new(symbols.len(), |i: int| defined_at(symbols, names, versions, i)).flatten()
}

/// The view of a version that may be missing.
pub open spec fn version_text(version: Option<String>) -> Option<Seq<char>> {
    match version {
        Some(text) => Some(text@),
        None => None,
    }
}

/// The view of a version definition that may be missing.
pub open spec fn definition_texts(definition: Option<Vec<Option<String>>>) -> Option<
    Seq<Option<Seq<char>>>,
> {
    match definition {
        Some(names) => Some(version_names(names@)),
        None => None,
    }
}

/// What a version table holds, where there is one.
pub open spec fn versions_of(versions: Option<VersionTable>) -> Option<VersionModel> {
    match versions {
        Some(table) => Some(table_versions(table)),
        None => None,
    }
}

/// Whether a record requires a symbol.
pub fn requires_entry(symbol: &RawSymbol, name: &str, library: bool) -> (wanted: bool)
    ensures
        wanted == requires_symbol(*symbol, name@, library),
{
    symbol.undefined && symbol.name_index != 0 && symbol.binding != STB_WEAK && !(library
        && is_bookkeeping_symbol(name))
}

/// Whether a library's record lists a symbol as defined.
pub fn defines_entry(symbol: &RawSymbol, name: &str) -> (wanted: bool)
    ensures
        wanted == defines_symbol(*symbol, name@),
{
    !symbol.undefined && symbol.name_index != 0 && !is_bookkeeping_symbol(name)
}

/// Writes a required symbol, with the version it requires where there is one.
pub fn required_name(name: &str, requirement: &Option<String>) -> (entry: String)
    ensures
        entry@ == required_entry(name@, version_text(*requirement)),
{
    match requirement {
        Some(version) => qualify(name, version.as_str()),
        None => name.to_owned(),
    }
}

/// Writes a defined symbol: once for each readable name of the version it
/// defines, or bare where it defines none.
pub fn defined_names(name: &str, definition: &Option<Vec<Option<String>>>) -> (entries: Vec<String>)
    ensures
        texts_of(entries@) == defined_entries(name@, definition_texts(*definition)),
{
    let mut entries: Vec<String> = Vec::new();
    match definition {
        Some(names) => {
            let ghost readable = |version: Option<Seq<char>>| version is Some;
            let ghost text = |version: Option<Seq<char>>| version->0;
            let ghost entry = |version: Seq<char>| qualified(name@, version);
            let mut at: usize = 0;
            assert(version_names(names@).subrange(0, 0) =~= Seq::<Option<Seq<char>>>::empty());
            assert(texts_of(entries@) =~= Seq::<Seq<char>>::empty());
            while at < names.len()
                invariant
                    at <= names.len(),
                    readable == |version: Option<Seq<char>>| version is Some,
                    text == |version: Option<Seq<char>>| version->0,
                    entry == |version: Seq<char>| qualified(name@, version),
                    texts_of(entries@) == version_names(names@).subrange(0, at as int).filter(
                        readable,
                    ).map_values(text).map_values(entry),
                decreases names.len() - at,
            {
                let ghost before = version_names(names@).subrange(0, at as int);
                proof {
                    assert(version_names(names@).subrange(0, at + 1) =~= before.push(
                        version_names(names@)[at as int],
                    ));
                    lemma_filter_push(before, version_names(names@)[at as int], readable);
                }
                match &names[at] {
                    Some(version) => {
                        let written = qualify(name, version.as_str());
                        proof {
                            lemma_texts_push(entries@, written);
                            assert(before.filter(readable).push(Some(version@)).map_values(
                                text,
                            ).map_values(entry) =~= before.filter(readable).map_values(
                                text,
                            ).map_values(entry).push(written@));
                        }
                        entries.push(written);
                    },
                    None => {},
                }
                at += 1;
            }
            assert(version_names(names@).subrange(0, at as int) =~= version_names(names@));
        },
        None => {
            let written = name.to_owned();
            proof {
                lemma_texts_push(entries@, written);
                assert(texts_of(entries@).push(written@) =~= seq![name@]);
            }
            entries.push(written);
        },
    }
    entries
}

/// Reads the dynamic symbol table, and the name of each of its symbols.
fn read_symbols(image: &mut ElfImage) -> (tables: Result<(Vec<RawSymbol>, Vec<String>), ElfError>)
    ensures
        image_source(*final(image)) == image_source(*old(image)),
        match tables {
            Ok((symbols, names)) => names@.len() == symbols@.len() && match image_symbols(
                image_source(*old(image)),
            ) {
                Some(Some(table)) => symbols@ == table.symbols && texts_of(names@) == symbol_names(
                    table,
                ),
                _ => false,
            },
            Err(failure) => match image_symbols(image_source(*old(image))) {
                None => failure.kind == ParseFailure::Malformed,
                Some(None) => failure.kind == ParseFailure::MissingSymbolTable,
                Some(Some(_)) => false,
            },
        },
{
    let (symbols, strings) = match dynamic_symbol_table(image) {
        Ok(Some(tables)) => tables,
        Ok(None) => {
            return Err(missing(ParseFailure::MissingSymbolTable));
        },
        Err(error) => {
            return Err(malformed(error));
        },
    };
    let ghost table = SymbolTableModel { symbols: symbols@, strings: table_strings(strings) };
    let mut names: Vec<String> = Vec::new();
    let mut at: usize = 0;
    while at < symbols.len()
        invariant
            at <= symbols.len(),
            table == (SymbolTableModel { symbols: symbols@, strings: table_strings(strings) }),
            names@.len() == at,
            forall|i: int| 0 <= i < at ==> (#[trigger] names@[i])@ == symbol_names(table)[i],
        decreases symbols.len() - at,
    {
        let name = match read_string(&strings, symbols[at].name_index as u64) {
            Ok(text) => text,
            Err(_) => String::new(),
        };
        names.push(name);
        at += 1;
    }
    assert(texts_of(names@) =~= symbol_names(table));
    Ok((symbols, names))
}

/// Reads the symbol version tables, where the image has them.
fn read_versions<'s>(image: &'s mut ElfImage) -> (versions: Result<Option<VersionTable<'s>>, ElfError>)
    ensures
        image_source(*final(image)) == image_source(*old(image)),
        match versions {
            Ok(table) => image_versions(image_source(*old(image))) == Some(versions_of(table)),
            Err(failure) => failure.kind == ParseFailure::Malformed && image_versions(
                image_source(*old(image)),
            ) is None,
        },
{
    match symbol_version_table(image) {
        Ok(table) => Ok(table),
        Err(error) => Err(malformed(error)),
    }
}

/// Collects the symbols that a record requires.
fn collect_required(
    symbols: &Vec<RawSymbol>,
    names: &Vec<String>,
    versions: &Option<VersionTable>,
    library: bool,
) -> (required: Vec<String>)
    requires
        usize::BITS == 64,
        names@.len() == symbols@.len(),
    ensures
        texts_of(required@) == required_symbols(
            symbols@,
            texts_of(names@),
            versions_of(*versions),
            library,
        ),
{
    let ghost model = versions_of(*versions);
    let ghost part = |i: int| required_at(symbols@, texts_of(names@), model, library, i);
    let mut required: Vec<String> = Vec::new();
    let mut at: usize = 0;
    assert(Seq::new(0, part) =~= Seq::<Seq<Seq<char>>>::empty());
    assert(texts_of(required@) =~= Seq::<Seq<char>>::empty());
    while at < symbols.len()
        invariant
            at <= symbols.len(),
            usize::BITS == 64,
            names@.len() == symbols@.len(),
            model == versions_of(*versions),
            part == |i: int| required_at(symbols@, texts_of(names@), model, library, i),
            texts_of(required@) == Seq::new(at as nat, part).flatten(),
        decreases symbols.len() - at,
    {
        proof {
            assert(Seq::new((at + 1) as nat, part) =~= Seq::new(at as nat, part).push(
                part(at as int),
            ));
            Seq::new(at as nat, part).lemma_flatten_push(part(at as int));
            assert(texts_of(names@)[at as int] == names@[at as int]@);
        }
        let name = names[at].as_str();
        if requires_entry(&symbols[at], name, library) {
            let requirement = match versions {
                Some(table) => match get_requirement(table, at) {
                    Ok(Some(version)) => Some(version),
                    _ => None,
                },
                None => None,
            };
            let entry = required_name(name, &requirement);
            proof {
                lemma_texts_push(required@, entry);
                assert(texts_of(required@).push(entry@) =~= texts_of(required@) + seq![entry@]);
            }
            required.push(entry);
        } else {
            assert(texts_of(required@) + Seq::<Seq<char>>::empty() =~= texts_of(required@));
        }
        at += 1;
    }
    required
}

/// Collects the symbols that a library defines.
fn collect_defined(
    symbols: &Vec<RawSymbol>,
    names: &Vec<String>,
    versions: &Option<VersionTable>,
) -> (defined: Vec<String>)
    requires
        usize::BITS == 64,
        names@.len() == symbols@.len(),
    ensures
        texts_of(defined@) == defined_symbols(symbols@, texts_of(names@), versions_of(*versions)),
{
    let ghost model = versions_of(*versions);
    let ghost part = |i: int| defined_at(symbols@, texts_of(names@), model, i);
    let mut defined: Vec<String> = Vec::new();
    let mut at: usize = 0;
    assert(Seq::new(0, part) =~= Seq::<Seq<Seq<char>>>::empty());
    assert(texts_of(defined@) =~= Seq::<Seq<char>>::empty());
    while at < symbols.len()
        invariant
            at <= symbols.len(),
            usize::BITS == 64,
            names@.len() == symbols@.len(),
            model == versions_of(*versions),
            part == |i: int| defined_at(symbols@, texts_of(names@), model, i),
            texts_of(defined@) == Seq::new(at as nat, part).flatten(),
        decreases symbols.len() - at,
    {
        proof {
            assert(Seq::new((at + 1) as nat, part) =~= Seq::new(at as nat, part).push(
                part(at as int),
            ));
            Seq::new(at as nat, part).lemma_flatten_push(part(at as int));
            assert(texts_of(names@)[at as int] == names@[at as int]@);
        }
        let name = names[at].as_str();
        if defines_entry(&symbols[at], name) {
            let definition = match versions {
                Some(table) => match get_definition(table, at) {
                    Ok(Some(list)) => Some(list),
                    _ => None,
                },
                None => None,
            };
            let mut entries = defined_names(name, &definition);
            proof {
                lemma_texts_add(defined@, entries@);
            }
            defined.append(&mut entries);
        } else {
            assert(texts_of(defined@) + Seq::<Seq<char>>::empty() =~= texts_of(defined@));
        }
        at += 1;
    }
    defined
}

/// The record of a binary with the given file name and tables.
pub open spec fn binary_of(name: Seq<char>, tables: TablesModel) -> BinaryModel {
    BinaryModel {
        name,
        rpath: rpath_of(tables.dynamic, tables.strings),
        needed: needed_of(tables.dynamic, tables.strings),
        undefined: required_symbols(
            tables.symbols.symbols,
            symbol_names(tables.symbols),
            tables.versions,
            false,
        ),
    }
}

/// Whether a record is the one of a library with the given file name and
/// tables: it goes by the name that the tables declare, its needed libraries
/// and its defined symbols are sorted, its required symbols are there, sorted,
/// where they were asked for, and it has neither an alias nor a provenance yet.
pub open spec fn is_library_of(
    info: LibraryModel,
    name: Seq<char>,
    with_undefined: bool,
    tables: TablesModel,
) -> bool {
    &&& info.name == soname_of(tables.dynamic, tables.strings, name)
    &&& is_sorting_of(info.needed, needed_of(tables.dynamic, tables.strings))
    &&& is_sorting_of(
        info.symbols,
        defined_symbols(tables.symbols.symbols, symbol_names(tables.symbols), tables.versions),
    )
    &&& if with_undefined {
        is_sorting_of(
            info.undefined,
            required_symbols(
                tables.symbols.symbols,
                symbol_names(tables.symbols),
                tables.versions,
                true,
            ),
        )
    } else {
        info.undefined == Seq::<Seq<char>>::empty()
    }
    &&& info.names == Seq::<Seq<char>>::empty()
    &&& info.priority == LibraryPriority::System
}

impl BinaryInfo {
    /// Parses the image of an executable.
    ///
    /// The record holds the needed libraries and the directories of every search
    /// path in the order of the dynamic table, and the required symbols in the
    /// order of the symbol table. The parse fails where a table that linking
    /// reads is missing or cannot be read.
    ///
    /// Images are read on machines with 64-bit addresses.
    pub fn parse(source: &[u8], name: &str) -> (parsed: Result<BinaryInfo, ElfError>)
        requires
            usize::BITS == 64,
        ensures
            match image_tables(source@, false) {
                Ok(tables) => parsed matches Ok(info) && info@ == binary_of(name@, tables),
                Err(failure) => parsed matches Err(error) && error.kind == failure,
            },
    {
        let mut image = match open_stream(source) {
            Ok(image) => image,
            Err(error) => {
                return Err(malformed(error));
            },
        };
        let entries = match read_dynamic(&mut image) {
            Ok(entries) => entries,
            Err(failure) => {
                return Err(failure);
            },
        };
        let found = match read_dynamic_strings(&mut image) {
            Ok(table) => read_links(&entries, &table, false),
            Err(failure) => {
                return Err(failure);
            },
        };
        let links = match found {
            Ok(links) => links,
            Err(failure) => {
                return Err(failure);
            },
        };
        let (symbols, names) = match read_symbols(&mut image) {
            Ok(tables) => tables,
            Err(failure) => {
                return Err(failure);
            },
        };
        let versions = match read_versions(&mut image) {
            Ok(versions) => versions,
            Err(failure) => {
                return Err(failure);
            },
        };
        let undefined = collect_required(&symbols, &names, &versions, false);
        Ok(BinaryInfo { name: name.to_owned(), rpath: links.rpath, needed: links.needed, undefined })
    }
}

impl LibraryInfo {
    /// Parses the image of a shared library.
    ///
    /// The record goes by the name that the image declares for itself, and by
    /// `name` where it declares none. Its needed libraries and defined symbols
    /// are sorted; its required symbols are collected, and sorted, only where
    /// `with_undefined` asks for them. The parse fails where a table that linking
    /// reads is missing or cannot be read.
    ///
    /// Images are read on machines with 64-bit addresses.
    pub fn parse(source: &[u8], with_undefined: bool, name: &str) -> (parsed: Result<
        LibraryInfo,
        ElfError,
    >)
        requires
            usize::BITS == 64,
        ensures
            match image_tables(source@, true) {
                Ok(tables) => parsed matches Ok(info) && is_library_of(
                    info@,
                    name@,
                    with_undefined,
                    tables,
                ),
                Err(failure) => parsed matches Err(error) && error.kind == failure,
            },
    {
        let mut image = match open_stream(source) {
            Ok(image) => image,
            Err(error) => {
                return Err(malformed(error));
            },
        };
        let entries = match read_dynamic(&mut image) {
            Ok(entries) => entries,
            Err(failure) => {
                return Err(failure);
            },
        };
        let found = match read_dynamic_strings(&mut image) {
            Ok(table) => read_links(&entries, &table, true),
            Err(failure) => {
                return Err(failure);
            },
        };
        let links = match found {
            Ok(links) => links,
            Err(failure) => {
                return Err(failure);
            },
        };
        let (symbols, names) = match read_symbols(&mut image) {
            Ok(tables) => tables,
            Err(failure) => {
                return Err(failure);
            },
        };
        let versions = match read_versions(&mut image) {
            Ok(versions) => versions,
            Err(failure) => {
                return Err(failure);
            },
        };
        let mut defined = collect_defined(&symbols, &names, &versions);
        let mut undefined: Vec<String> = Vec::new();
        if with_undefined {
            undefined = collect_required(&symbols, &names, &versions, true);
            sort_texts(&mut undefined);
        } else {
            assert(texts_of(undefined@) =~= Seq::<Seq<char>>::empty());
        }
        let mut needed = links.needed;
        sort_texts(&mut needed);
        sort_texts(&mut defined);
        let names: Vec<String> = Vec::new();
        assert(texts_of(names@) =~= Seq::<Seq<char>>::empty());
        let name = match links.soname {
            Some(declared) => declared,
            None => name.to_owned(),
        };
        Ok(
            LibraryInfo {
                name,
                needed,
                symbols: defined,
                names,
                undefined,
                priority: LibraryPriority::System,
            },
        )
    }
}

} // verus!
