//! Parsing of ELF images. The images are assembled here, byte by byte, so that
//! each test says what its image holds.

use compat_checker::binary::BinaryInfo;
use compat_checker::extract::ParseFailure;
use compat_checker::library::{LibraryInfo, LibraryPriority};

const DT_NEEDED: i64 = 1;
const DT_SONAME: i64 = 14;
const DT_RPATH: i64 = 15;
const DT_RUNPATH: i64 = 29;

const STB_GLOBAL: u8 = 1;
const STB_WEAK: u8 = 2;

struct Symbol {
    name: &'static str,
    defined: bool,
    binding: u8,
    version: u16,
}

struct Image {
    dynamic: Option<Vec<(i64, &'static str)>>,
    strings: bool,
    strings_kind: u32,
    symbols: Option<Vec<Symbol>>,
    requirements: Vec<(u16, &'static str, &'static str)>,
    definitions: Vec<(u16, Vec<&'static str>)>,
}

struct Strings {
    bytes: Vec<u8>,
}

impl Strings {
    fn new() -> Strings {
        Strings { bytes: vec![0] }
    }

    fn add(&mut self, text: &str) -> u32 {
        let offset = self.bytes.len() as u32;
        self.bytes.extend_from_slice(text.as_bytes());
        self.bytes.push(0);
        offset
    }
}

struct Section {
    name: u32,
    kind: u32,
    data: Vec<u8>,
    link: u32,
    info: u32,
    entry_size: u64,
}

fn u16_to(out: &mut Vec<u8>, value: u16) {
    out.extend_from_slice(&value.to_le_bytes());
}

fn u32_to(out: &mut Vec<u8>, value: u32) {
    out.extend_from_slice(&value.to_le_bytes());
}

fn u64_to(out: &mut Vec<u8>, value: u64) {
    out.extend_from_slice(&value.to_le_bytes());
}

impl Image {
    fn new() -> Image {
        Image {
            dynamic: Some(Vec::new()),
            strings: true,
            strings_kind: 3,
            symbols: Some(Vec::new()),
            requirements: Vec::new(),
            definitions: Vec::new(),
        }
    }

    fn entry(mut self, tag: i64, text: &'static str) -> Image {
        self.dynamic.as_mut().unwrap().push((tag, text));
        self
    }

    fn symbol(mut self, name: &'static str, defined: bool, binding: u8, version: u16) -> Image {
        self.symbols.as_mut().unwrap().push(Symbol { name, defined, binding, version });
        self
    }

    fn requirement(mut self, index: u16, version: &'static str, file: &'static str) -> Image {
        self.requirements.push((index, version, file));
        self
    }

    fn definition(mut self, index: u16, names: Vec<&'static str>) -> Image {
        self.definitions.push((index, names));
        self
    }

    /// The bytes of a 64-bit little-endian image with the sections asked for.
    fn build(&self) -> Vec<u8> {
        let mut section_names = Strings::new();
        let mut strings = Strings::new();
        let mut sections: Vec<Section> = Vec::new();
        // Section 1 is the dynamic string table, where there is one; the other
        // sections link to it by that index.
        let strings_index: u32 = 1;
        let mut dynamic_data = Vec::new();
        if let Some(entries) = &self.dynamic {
            for (tag, text) in entries {
                dynamic_data.extend_from_slice(&tag.to_le_bytes());
                u64_to(&mut dynamic_data, strings.add(text) as u64);
            }
            dynamic_data.extend_from_slice(&0i64.to_le_bytes());
            u64_to(&mut dynamic_data, 0);
        }
        let mut symbol_data = Vec::new();
        let mut version_indices = Vec::new();
        if let Some(symbols) = &self.symbols {
            symbol_data.extend_from_slice(&[0u8; 24]);
            u16_to(&mut version_indices, 0);
            for symbol in symbols {
                u32_to(&mut symbol_data, strings.add(symbol.name));
                symbol_data.push(symbol.binding << 4);
                symbol_data.push(0);
                u16_to(&mut symbol_data, if symbol.defined { 1 } else { 0 });
                u64_to(&mut symbol_data, 0);
                u64_to(&mut symbol_data, 0);
                u16_to(&mut version_indices, symbol.version);
            }
        }
        let mut needs = Vec::new();
        for (at, (index, version, file)) in self.requirements.iter().enumerate() {
            let last = at + 1 == self.requirements.len();
            u16_to(&mut needs, 1);
            u16_to(&mut needs, 1);
            u32_to(&mut needs, strings.add(file));
            u32_to(&mut needs, 16);
            u32_to(&mut needs, if last { 0 } else { 32 });
            u32_to(&mut needs, 0);
            u16_to(&mut needs, 0);
            u16_to(&mut needs, *index);
            u32_to(&mut needs, strings.add(version));
            u32_to(&mut needs, 0);
        }
        let mut defs = Vec::new();
        for (at, (index, names)) in self.definitions.iter().enumerate() {
            let last = at + 1 == self.definitions.len();
            let size = 20 + 8 * names.len() as u32;
            u16_to(&mut defs, 1);
            u16_to(&mut defs, 0);
            u16_to(&mut defs, *index);
            u16_to(&mut defs, names.len() as u16);
            u32_to(&mut defs, 0);
            u32_to(&mut defs, 20);
            u32_to(&mut defs, if last { 0 } else { size });
            for (which, name) in names.iter().enumerate() {
                u32_to(&mut defs, strings.add(name));
                u32_to(&mut defs, if which + 1 == names.len() { 0 } else { 8 });
            }
        }
        if self.strings {
            sections.push(Section {
                name: section_names.add(".dynstr"),
                kind: self.strings_kind,
                data: strings.bytes.clone(),
                link: 0,
                info: 0,
                entry_size: 0,
            });
        } else {
            sections.push(Section {
                name: section_names.add(".strings"),
                kind: 3,
                data: strings.bytes.clone(),
                link: 0,
                info: 0,
                entry_size: 0,
            });
        }
        if self.dynamic.is_some() {
            sections.push(Section {
                name: section_names.add(".dynamic"),
                kind: 6,
                data: dynamic_data,
                link: strings_index,
                info: 0,
                entry_size: 16,
            });
        }
        let symbols_index = sections.len() as u32 + 1;
        if self.symbols.is_some() {
            sections.push(Section {
                name: section_names.add(".dynsym"),
                kind: 11,
                data: symbol_data,
                link: strings_index,
                info: 1,
                entry_size: 24,
            });
            if !self.requirements.is_empty() || !self.definitions.is_empty() {
                sections.push(Section {
                    name: section_names.add(".gnu.version"),
                    kind: 0x6fffffff,
                    data: version_indices,
                    link: symbols_index,
                    info: 0,
                    entry_size: 2,
                });
            }
            if !self.requirements.is_empty() {
                sections.push(Section {
                    name: section_names.add(".gnu.version_r"),
                    kind: 0x6ffffffe,
                    data: needs,
                    link: strings_index,
                    info: self.requirements.len() as u32,
                    entry_size: 0,
                });
            }
            if !self.definitions.is_empty() {
                sections.push(Section {
                    name: section_names.add(".gnu.version_d"),
                    kind: 0x6ffffffd,
                    data: defs,
                    link: strings_index,
                    info: self.definitions.len() as u32,
                    entry_size: 0,
                });
            }
        }
        let names_index = sections.len() as u16 + 1;
        let names_name = section_names.add(".shstrtab");
        sections.push(Section {
            name: names_name,
            kind: 3,
            data: section_names.bytes.clone(),
            link: 0,
            info: 0,
            entry_size: 0,
        });

        let mut image = Vec::new();
        image.extend_from_slice(&[0x7f, b'E', b'L', b'F', 2, 1, 1, 0]);
        image.extend_from_slice(&[0u8; 8]);
        u16_to(&mut image, 3);
        u16_to(&mut image, 0x3e);
        u32_to(&mut image, 1);
        u64_to(&mut image, 0);
        u64_to(&mut image, 0);
        let table_offset_at = image.len();
        u64_to(&mut image, 0);
        u32_to(&mut image, 0);
        u16_to(&mut image, 64);
        u16_to(&mut image, 56);
        u16_to(&mut image, 0);
        u16_to(&mut image, 64);
        u16_to(&mut image, sections.len() as u16 + 1);
        u16_to(&mut image, names_index);
        let mut offsets = Vec::new();
        for section in &sections {
            offsets.push(image.len() as u64);
            image.extend_from_slice(&section.data);
        }
        let table_offset = image.len() as u64;
        image[table_offset_at..table_offset_at + 8].copy_from_slice(&table_offset.to_le_bytes());
        image.extend_from_slice(&[0u8; 64]);
        for (section, offset) in sections.iter().zip(offsets.iter()) {
            u32_to(&mut image, section.name);
            u32_to(&mut image, section.kind);
            u64_to(&mut image, 0);
            u64_to(&mut image, 0);
            u64_to(&mut image, *offset);
            u64_to(&mut image, section.data.len() as u64);
            u32_to(&mut image, section.link);
            u32_to(&mut image, section.info);
            u64_to(&mut image, 1);
            u64_to(&mut image, section.entry_size);
        }
        image
    }
}

fn texts(list: &[&str]) -> Vec<String> {
    list.iter().map(|text| text.to_string()).collect()
}

fn sample_binary() -> Vec<u8> {
    Image::new()
        .entry(DT_NEEDED, "libc.so.6")
        .entry(DT_NEEDED, "libm.so.6")
        .entry(DT_RPATH, "$ORIGIN/lib:/opt/lib")
        .entry(DT_RUNPATH, "/usr/local/lib")
        .symbol("printf", false, STB_GLOBAL, 2)
        .symbol("main", true, STB_GLOBAL, 1)
        .symbol("optional_hook", false, STB_WEAK, 1)
        .symbol("sqrt", false, STB_GLOBAL, 1)
        .requirement(2, "GLIBC_2.4", "libc.so.6")
        .build()
}

#[test]
fn binary_test_parse() {
    let content = sample_binary();
    let info = BinaryInfo::parse(&content, "sample.bin").expect("should not have any error");
    assert_eq!(info.needed[0], "libc.so.6");
}

#[test]
fn bin_info_test_parse() {
    let content = sample_binary();
    let info = BinaryInfo::parse(&content, "sample.bin").expect("should not have any error");
    assert_eq!(info.needed[0], "libc.so.6");
}

#[test]
fn binary_keeps_the_order_of_the_dynamic_table() {
    let info = BinaryInfo::parse(&sample_binary(), "sample.bin").unwrap();
    assert_eq!(info.name, "sample.bin");
    assert_eq!(info.needed, texts(&["libc.so.6", "libm.so.6"]));
}

#[test]
fn binary_takes_both_forms_of_search_path_together() {
    let info = BinaryInfo::parse(&sample_binary(), "sample.bin").unwrap();
    assert_eq!(info.rpath, texts(&["$ORIGIN/lib", "/opt/lib", "/usr/local/lib"]));
}

#[test]
fn binary_requires_undefined_symbols_but_not_weak_ones() {
    let info = BinaryInfo::parse(&sample_binary(), "sample.bin").unwrap();
    assert_eq!(info.undefined, texts(&["printf@GLIBC_2.4", "sqrt"]));
}

#[test]
fn binary_without_versions_requires_bare_symbols() {
    let image = Image::new()
        .entry(DT_NEEDED, "libz.so.1")
        .symbol("inflate", false, STB_GLOBAL, 0)
        .symbol("deflate", false, STB_GLOBAL, 0)
        .build();
    let info = BinaryInfo::parse(&image, "tool").unwrap();
    assert_eq!(info.undefined, texts(&["inflate", "deflate"]));
    assert!(info.rpath.is_empty());
}

#[test]
fn binary_ignores_the_name_an_image_declares() {
    let image = Image::new().entry(DT_SONAME, "libself.so.1").entry(DT_NEEDED, "libc.so.6").build();
    let info = BinaryInfo::parse(&image, "given").unwrap();
    assert_eq!(info.name, "given");
    assert_eq!(info.needed, texts(&["libc.so.6"]));
}

fn sample_library() -> Vec<u8> {
    Image::new()
        .entry(DT_NEEDED, "libm.so.6")
        .entry(DT_NEEDED, "libc.so.6")
        .entry(DT_SONAME, "libsample.so.1")
        .entry(DT_RPATH, "/ignored")
        .symbol("zeta", true, STB_GLOBAL, 3)
        .symbol("alpha", true, STB_GLOBAL, 1)
        .symbol("_init", true, STB_GLOBAL, 1)
        .symbol("_edata", true, STB_GLOBAL, 1)
        .symbol("malloc", false, STB_GLOBAL, 2)
        .symbol("calloc", false, STB_GLOBAL, 1)
        .symbol("_ITM_hook", false, STB_WEAK, 1)
        .symbol("both", true, STB_GLOBAL, 4)
        .requirement(2, "GLIBC_2.17", "libc.so.6")
        .definition(3, vec!["SAMPLE_1.0"])
        .definition(4, vec!["SAMPLE_2.0", "SAMPLE_1.0"])
        .build()
}

#[test]
fn library_goes_by_the_name_it_declares() {
    let info = LibraryInfo::parse(&sample_library(), false, "libsample.so.1.2.3").unwrap();
    assert_eq!(info.name, "libsample.so.1");
}

#[test]
fn library_without_a_declared_name_goes_by_the_given_one() {
    let image = Image::new().entry(DT_NEEDED, "libc.so.6").symbol("f", true, STB_GLOBAL, 0).build();
    let info = LibraryInfo::parse(&image, false, "libplain.so").unwrap();
    assert_eq!(info.name, "libplain.so");
}

#[test]
fn library_sorts_what_it_needs() {
    let info = LibraryInfo::parse(&sample_library(), false, "libsample.so").unwrap();
    assert_eq!(info.needed, texts(&["libc.so.6", "libm.so.6"]));
}

#[test]
fn library_lists_defined_symbols_sorted_and_qualified() {
    let info = LibraryInfo::parse(&sample_library(), false, "libsample.so").unwrap();
    assert_eq!(
        info.symbols,
        texts(&["alpha", "both@SAMPLE_1.0", "both@SAMPLE_2.0", "zeta@SAMPLE_1.0"])
    );
}

#[test]
fn library_leaves_bookkeeping_symbols_out() {
    let info = LibraryInfo::parse(&sample_library(), true, "libsample.so").unwrap();
    assert!(!info.symbols.iter().any(|symbol| symbol == "_init" || symbol == "_edata"));
}

#[test]
fn library_collects_required_symbols_only_on_request() {
    let without = LibraryInfo::parse(&sample_library(), false, "libsample.so").unwrap();
    assert!(without.undefined.is_empty());
    let with = LibraryInfo::parse(&sample_library(), true, "libsample.so").unwrap();
    assert_eq!(with.undefined, texts(&["calloc", "malloc@GLIBC_2.17"]));
}

#[test]
fn library_starts_without_aliases_and_as_a_system_library() {
    let info = LibraryInfo::parse(&sample_library(), true, "libsample.so").unwrap();
    assert!(info.names.is_empty());
    assert_eq!(info.priority, LibraryPriority::System);
}

#[test]
fn parsed_library_provides_its_symbols() {
    let info = LibraryInfo::parse(&sample_library(), false, "libsample.so").unwrap();
    assert!(info.has_symbol("alpha"));
    assert!(info.has_symbol("zeta"));
    assert!(info.has_symbol("zeta@SAMPLE_1.0"));
    assert!(!info.has_symbol("zeta@SAMPLE_2.0"));
    assert!(!info.has_symbol("malloc"));
}

#[test]
fn garbage_is_malformed() {
    let error = BinaryInfo::parse(b"not an image at all", "junk").unwrap_err();
    assert_eq!(error.kind, ParseFailure::Malformed);
    assert!(!error.message().is_empty());
}

#[test]
fn empty_input_is_malformed() {
    let error = LibraryInfo::parse(&[], false, "empty").unwrap_err();
    assert_eq!(error.kind, ParseFailure::Malformed);
}

#[test]
fn truncated_image_is_malformed() {
    let mut image = sample_binary();
    image.truncate(image.len() - 100);
    let error = BinaryInfo::parse(&image, "cut").unwrap_err();
    assert_eq!(error.kind, ParseFailure::Malformed);
}

#[test]
fn image_without_dynamic_table_is_rejected() {
    let mut image = Image::new();
    image.dynamic = None;
    let error = BinaryInfo::parse(&image.build(), "static").unwrap_err();
    assert_eq!(error.kind, ParseFailure::MissingDynamic);
    assert_eq!(error.message(), "no dynamic section");
}

#[test]
fn image_without_string_table_is_rejected() {
    let mut image = Image::new().entry(DT_NEEDED, "libc.so.6");
    image.strings = false;
    let error = BinaryInfo::parse(&image.build(), "odd").unwrap_err();
    assert_eq!(error.kind, ParseFailure::MissingStringTable);
}

#[test]
fn string_table_of_another_type_is_malformed() {
    let mut image = Image::new().entry(DT_NEEDED, "libc.so.6");
    image.strings_kind = 1;
    let error = BinaryInfo::parse(&image.build(), "odd").unwrap_err();
    assert_eq!(error.kind, ParseFailure::Malformed);
}

#[test]
fn string_table_that_reaches_beyond_the_image_is_malformed() {
    let mut image = Image::new().entry(DT_NEEDED, "libc.so.6").build();
    // The section headers end the image; the second of them is the string
    // table's, and its size stands 32 bytes into it.
    let headers = u64::from_le_bytes(image[40..48].try_into().unwrap()) as usize;
    let size_at = headers + 64 + 32;
    image[size_at..size_at + 8].copy_from_slice(&0x0010_0000u64.to_le_bytes());
    let error = BinaryInfo::parse(&image, "odd").unwrap_err();
    assert_eq!(error.kind, ParseFailure::Malformed);
}

#[test]
fn image_without_symbol_table_is_rejected() {
    let mut image = Image::new().entry(DT_NEEDED, "libc.so.6");
    image.symbols = None;
    let error = LibraryInfo::parse(&image.build(), true, "bare").unwrap_err();
    assert_eq!(error.kind, ParseFailure::MissingSymbolTable);
}

#[test]
fn needed_name_outside_the_string_table_is_malformed() {
    let mut image = Image::new().entry(DT_NEEDED, "libc.so.6").build();
    // The value of the first dynamic entry is the offset of its string: point
    // it far outside the table.
    let marker = 1i64.to_le_bytes();
    let at = 64 + image[64..].windows(8).position(|window| window == marker).unwrap();
    image[at + 8..at + 16].copy_from_slice(&0x00ff_ffffu64.to_le_bytes());
    let error = BinaryInfo::parse(&image, "bad").unwrap_err();
    assert_eq!(error.kind, ParseFailure::Malformed);
}

fn patched(mut image: Vec<u8>, from: &[u8], to: &[u8]) -> Vec<u8> {
    let at = image.windows(from.len()).position(|window| window == from).unwrap();
    image[at..at + to.len()].copy_from_slice(to);
    image
}

#[test]
fn needed_name_that_is_no_text_is_malformed() {
    let image = Image::new().entry(DT_NEEDED, "libQQQQ.so").build();
    let image = patched(image, b"QQQQ", &[0xff, 0xfe, 0xfd, 0xfc]);
    let error = BinaryInfo::parse(&image, "bad").unwrap_err();
    assert_eq!(error.kind, ParseFailure::Malformed);
}

#[test]
fn search_path_that_is_no_text_fails_a_binary_but_not_a_library() {
    let image = Image::new().entry(DT_RPATH, "/QQQQ").symbol("f", true, STB_GLOBAL, 0).build();
    let image = patched(image, b"QQQQ", &[0xff, 0xfe, 0xfd, 0xfc]);
    assert_eq!(BinaryInfo::parse(&image, "bad").unwrap_err().kind, ParseFailure::Malformed);
    assert_eq!(LibraryInfo::parse(&image, false, "lib").unwrap().symbols, texts(&["f"]));
}

#[test]
fn declared_name_that_is_no_text_fails_a_library_but_not_a_binary() {
    let image = Image::new().entry(DT_SONAME, "QQQQ").entry(DT_NEEDED, "libc.so.6").build();
    let image = patched(image, b"QQQQ", &[0xff, 0xfe, 0xfd, 0xfc]);
    assert_eq!(LibraryInfo::parse(&image, false, "lib").unwrap_err().kind, ParseFailure::Malformed);
    assert_eq!(BinaryInfo::parse(&image, "bin").unwrap().needed, texts(&["libc.so.6"]));
}

#[test]
fn symbol_whose_name_is_no_text_goes_by_the_empty_name() {
    let image = Image::new()
        .entry(DT_NEEDED, "libc.so.6")
        .symbol("QQQQ", false, STB_GLOBAL, 0)
        .symbol("puts", false, STB_GLOBAL, 0)
        .build();
    let image = patched(image, b"QQQQ", &[0xff, 0xfe, 0xfd, 0xfc]);
    let info = BinaryInfo::parse(&image, "bin").unwrap();
    assert_eq!(info.undefined, texts(&["", "puts"]));
}

#[test]
fn string_ends_at_the_first_nul_byte() {
    let image = Image::new().entry(DT_NEEDED, "libaQb.so").build();
    let image = patched(image, b"Q", &[0]);
    let info = BinaryInfo::parse(&image, "bin").unwrap();
    assert_eq!(info.needed, texts(&["liba"]));
}

#[test]
fn names_may_hold_any_text() {
    let image = Image::new()
        .entry(DT_NEEDED, "libgrüße-日本.so")
        .symbol("función", false, STB_GLOBAL, 0)
        .build();
    let info = BinaryInfo::parse(&image, "bin").unwrap();
    assert_eq!(info.needed, texts(&["libgrüße-日本.so"]));
    assert_eq!(info.undefined, texts(&["función"]));
}

#[test]
fn definition_without_readable_names_lists_nothing() {
    let image = Image::new()
        .symbol("versioned", true, STB_GLOBAL, 2)
        .symbol("plain", true, STB_GLOBAL, 5)
        .definition(2, vec!["QQQQ"])
        .build();
    let image = patched(image, b"QQQQ", &[0xff, 0xfe, 0xfd, 0xfc]);
    let info = LibraryInfo::parse(&image, false, "lib").unwrap();
    assert_eq!(info.symbols, texts(&["plain"]));
}

#[test]
fn image_without_sections_has_no_dynamic_table() {
    // The header of a 32-bit big-endian image that has neither sections nor
    // segments.
    let mut image = vec![0x7f, b'E', b'L', b'F', 1, 2, 1, 0];
    image.extend_from_slice(&[0u8; 8]);
    image.extend_from_slice(&[0, 3, 0, 3, 0, 0, 0, 1]);
    image.extend_from_slice(&[0u8; 12]);
    image.extend_from_slice(&[0, 0, 0, 0, 0, 52, 0, 32, 0, 0, 0, 40, 0, 0, 0, 0]);
    let error = BinaryInfo::parse(&image, "bare").unwrap_err();
    assert_eq!(error.kind, ParseFailure::MissingDynamic);
}
