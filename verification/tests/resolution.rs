//! The resolution engine: missing libraries and unresolved symbols of a binary
//! against a lookup.

use compat_checker::binary::BinaryInfo;
use compat_checker::firmware::{Firmware, FirmwareInfo, Release};
use compat_checker::library::{LibraryInfo, LibraryPriority};
use compat_checker::lookup::{Fallback, LibraryLookup, Shelf, ShelfFile};
use compat_checker::verify::bin::BinVerifyResult;
use compat_checker::verify::{Verify, VerifyResult};

fn texts(list: &[&str]) -> Vec<String> {
    list.iter().map(|text| text.to_string()).collect()
}

fn library(name: &str, needed: &[&str], symbols: &[&str]) -> LibraryInfo {
    let mut symbols = texts(symbols);
    symbols.sort();
    LibraryInfo {
        name: name.to_string(),
        needed: texts(needed),
        symbols,
        names: Vec::new(),
        undefined: Vec::new(),
        priority: LibraryPriority::System,
    }
}

fn binary(name: &str, needed: &[&str], undefined: &[&str]) -> BinaryInfo {
    BinaryInfo {
        name: name.to_string(),
        rpath: Vec::new(),
        needed: texts(needed),
        undefined: texts(undefined),
    }
}

fn firmware(libraries: Vec<LibraryInfo>) -> Firmware {
    let info = FirmwareInfo {
        version: "04.30.40".to_string(),
        ota_id: "HE_DTV_W18H_AFADABAA".to_string(),
        release: Release { major: 4, minor: 4, patch: 0 },
    };
    let mut firmware = Firmware::new(info);
    for library in libraries {
        let detail = format!("{}.json", library.name);
        firmware.add_entry(library.name.clone(), detail.clone());
        firmware.add_record(detail, library);
    }
    firmware
}

#[test]
fn resolvable_binary_is_good() {
    let catalog = firmware(vec![
        library("libc.so.6", &[], &["printf", "malloc", "free"]),
        library("libm.so.6", &["libc.so.6"], &["sqrt", "pow"]),
    ]);
    let app = binary("app", &["libc.so.6", "libm.so.6"], &["printf", "sqrt", "free"]);
    let result = app.verify(&catalog);
    assert_eq!(result.name, "app");
    assert!(result.missing_lib.is_empty());
    assert!(result.undefined_sym.is_empty());
    assert!(result.is_good());
}

#[test]
fn symbols_are_satisfied_transitively() {
    let catalog = firmware(vec![
        library("liba.so", &["libb.so"], &["a_fn"]),
        library("libb.so", &["libc.so"], &["b_fn"]),
        library("libc.so", &[], &["c_fn"]),
    ]);
    let app = binary("app", &["liba.so"], &["a_fn", "b_fn", "c_fn"]);
    let result = app.verify(&catalog);
    assert!(result.is_good());
    assert_eq!(result, BinVerifyResult::new("app".to_string()));
}

#[test]
fn unresolvable_library_is_missing() {
    let catalog = firmware(vec![library("libc.so.6", &[], &["printf"])]);
    let app = binary("app", &["libfoo.so"], &[]);
    let result = app.verify(&catalog);
    assert_eq!(result.missing_lib, texts(&["libfoo.so"]));
    assert!(result.undefined_sym.is_empty());
    assert!(!result.is_good());
}

#[test]
fn unresolvable_by_any_strategy_is_missing() {
    let catalog = firmware(Vec::new());
    let shelf = Shelf { files: Vec::new() };
    let both = Fallback { first: &catalog, second: &shelf };
    let app = binary("app", &["libfoo.so"], &[]);
    assert_eq!(app.verify(&catalog).missing_lib, texts(&["libfoo.so"]));
    assert_eq!(app.verify(&shelf).missing_lib, texts(&["libfoo.so"]));
    let result = app.verify(&both);
    assert_eq!(result.missing_lib, texts(&["libfoo.so"]));
    assert!(!result.is_good());
}

#[test]
fn dependency_cycle_terminates_and_resolves_both() {
    let catalog = firmware(vec![
        library("liba.so", &["libb.so"], &["from_a"]),
        library("libb.so", &["liba.so"], &["from_b"]),
    ]);
    let app = binary("app", &["liba.so"], &["from_a", "from_b", "from_nowhere"]);
    let result = app.verify(&catalog);
    assert!(result.missing_lib.is_empty());
    assert_eq!(result.undefined_sym, texts(&["from_nowhere"]));
}

#[test]
fn cycle_is_walked_once() {
    let catalog = firmware(vec![
        library("liba.so", &["libb.so"], &["from_a"]),
        library("libb.so", &["liba.so"], &["from_b"]),
    ]);
    let app = binary("app", &["liba.so"], &["from_a", "from_b"]);
    let walk = app.walk(&catalog);
    assert!(walk.result.is_good());
    assert_eq!(walk.visited.len(), 2);
    assert_eq!(walk.visited, texts(&["liba.so", "libb.so"]));
}

#[test]
fn walk_visits_each_dependency_once() {
    let catalog = firmware(vec![
        library("libtop.so", &["libleft.so", "libright.so"], &[]),
        library("libleft.so", &["libbase.so", "libgone.so"], &[]),
        library("libright.so", &["libbase.so", "libleft.so"], &[]),
        library("libbase.so", &[], &[]),
    ]);
    let app = binary("app", &["libtop.so", "libbase.so"], &[]);
    let walk = app.walk(&catalog);
    assert_eq!(
        walk.visited,
        texts(&["libbase.so", "libgone.so", "libleft.so", "libright.so"])
    );
    assert!(walk.result.missing_lib.is_empty());
    assert_eq!(walk.result, app.verify(&catalog));
}

#[test]
fn walk_without_dependencies_visits_nothing() {
    let catalog = firmware(vec![library("libc.so.6", &[], &["printf"])]);
    let walk = binary("app", &["libc.so.6", "libgone.so"], &[]).walk(&catalog);
    assert!(walk.visited.is_empty());
    assert_eq!(walk.result.missing_lib, texts(&["libgone.so"]));
}

#[test]
fn library_that_needs_itself_terminates() {
    let catalog = firmware(vec![library("libself.so", &["libself.so"], &["me"])]);
    let app = binary("app", &["libself.so"], &["me"]);
    assert!(app.verify(&catalog).is_good());
}

#[test]
fn versioned_catalog_symbol_satisfies_bare_requirement() {
    let catalog = firmware(vec![library("libc.so.6", &[], &["printf@GLIBC_2.4"])]);
    let x = binary("X", &["libc.so.6"], &["printf"]);
    let result = x.verify(&catalog);
    assert_eq!(result.missing_lib, Vec::<String>::new());
    assert_eq!(result.undefined_sym, Vec::<String>::new());
    assert!(result.is_good());
}

#[test]
fn unsatisfied_symbols_stay_in_order_and_as_often_as_required() {
    let catalog = firmware(vec![library("libc.so.6", &[], &["printf", "puts"])]);
    let app = binary("app", &["libc.so.6"], &["zeta", "printf", "alpha", "zeta", "puts"]);
    let result = app.verify(&catalog);
    assert_eq!(result.undefined_sym, texts(&["zeta", "alpha", "zeta"]));
    assert!(!result.is_good());
}

#[test]
fn missing_libraries_are_listed_in_order_and_as_often_as_needed() {
    let catalog = firmware(vec![library("libc.so.6", &[], &[])]);
    let app = binary("app", &["libz.so", "libc.so.6", "liby.so", "libz.so"], &[]);
    let result = app.verify(&catalog);
    assert_eq!(result.missing_lib, texts(&["libz.so", "liby.so", "libz.so"]));
}

#[test]
fn library_missing_further_down_is_passed_over() {
    let catalog = firmware(vec![library("liba.so", &["libgone.so"], &["a_fn"])]);
    let app = binary("app", &["liba.so"], &["a_fn"]);
    let result = app.verify(&catalog);
    assert!(result.missing_lib.is_empty());
    assert!(result.is_good());
}

#[test]
fn symbols_of_unneeded_libraries_do_not_count() {
    let catalog = firmware(vec![
        library("libc.so.6", &[], &["printf"]),
        library("libextra.so", &[], &["extra"]),
    ]);
    let app = binary("app", &["libc.so.6"], &["extra"]);
    assert_eq!(app.verify(&catalog).undefined_sym, texts(&["extra"]));
}

#[test]
fn binary_without_needs_keeps_all_its_symbols() {
    let catalog = firmware(vec![library("libc.so.6", &[], &["printf"])]);
    let app = binary("app", &[], &["printf"]);
    let result = app.verify(&catalog);
    assert_eq!(result.undefined_sym, texts(&["printf"]));
    assert!(result.missing_lib.is_empty());
}

#[test]
fn needed_twice_resolves_like_needed_once() {
    let catalog = firmware(vec![library("libc.so.6", &[], &["printf"])]);
    let once = binary("app", &["libc.so.6"], &["printf", "other"]);
    let twice = binary("app", &["libc.so.6", "libc.so.6"], &["printf", "other"]);
    assert_eq!(once.verify(&catalog), twice.verify(&catalog));
}

#[test]
fn new_result_is_good() {
    let result = BinVerifyResult::new("fresh".to_string());
    assert_eq!(result.name, "fresh");
    assert!(result.missing_lib.is_empty());
    assert!(result.undefined_sym.is_empty());
    assert!(result.is_good());
}

#[test]
fn result_with_only_a_missing_library_is_not_good() {
    let mut result = BinVerifyResult::new("x".to_string());
    result.missing_lib.push("libfoo.so".to_string());
    assert!(!result.is_good());
}

#[test]
fn result_with_only_an_unresolved_symbol_is_not_good() {
    let mut result = BinVerifyResult::new("x".to_string());
    result.undefined_sym.push("foo".to_string());
    assert!(!result.is_good());
}

#[test]
fn fallback_prefers_the_first_lookup() {
    let first = firmware(vec![library("libx.so", &[], &["first_only"])]);
    let second = firmware(vec![
        library("libx.so", &[], &["second_only"]),
        library("liby.so", &[], &["y_fn"]),
    ]);
    let both = Fallback { first: &first, second: &second };
    assert!(both.find_library("libx.so").unwrap().has_symbol("first_only"));
    assert!(!both.find_library("libx.so").unwrap().has_symbol("second_only"));
    assert!(both.find_library("liby.so").unwrap().has_symbol("y_fn"));
    assert!(both.find_library("libz.so").is_none());
}

#[test]
fn firmware_first_then_the_binary_own_search_path() {
    let catalog = firmware(vec![library("libc.so.6", &[], &["printf"])]);
    let shelf = Shelf {
        files: vec![ShelfFile {
            name: "libmine.so".to_string(),
            library: Some(library("libmine.so", &["libc.so.6"], &["mine"])),
        }],
    };
    let lookup = Fallback { first: &catalog, second: &shelf };
    let app = binary("app", &["libmine.so"], &["mine", "printf"]);
    assert!(app.verify(&lookup).is_good());
    assert_eq!(app.verify(&catalog).missing_lib, texts(&["libmine.so"]));
}

#[test]
fn shelf_finds_the_first_file_of_a_name() {
    let shelf = Shelf {
        files: vec![
            ShelfFile { name: "liba.so".to_string(), library: Some(library("liba.so", &[], &["early"])) },
            ShelfFile { name: "liba.so".to_string(), library: Some(library("liba.so", &[], &["late"])) },
        ],
    };
    let found = shelf.find_library("liba.so").unwrap();
    assert!(found.has_symbol("early"));
    assert!(!found.has_symbol("late"));
}

#[test]
fn shelf_file_that_cannot_be_parsed_hides_later_ones() {
    let shelf = Shelf {
        files: vec![
            ShelfFile { name: "liba.so".to_string(), library: None },
            ShelfFile { name: "liba.so".to_string(), library: Some(library("liba.so", &[], &["late"])) },
        ],
    };
    assert!(shelf.find_library("liba.so").is_none());
    assert!(shelf.find_library("libb.so").is_none());
}

#[test]
fn shelf_looks_files_up_by_file_name_not_by_identity() {
    let shelf = Shelf {
        files: vec![ShelfFile {
            name: "libfile.so".to_string(),
            library: Some(library("libidentity.so.1", &[], &["f"])),
        }],
    };
    assert!(shelf.find_library("libfile.so").is_some());
    assert!(shelf.find_library("libidentity.so.1").is_none());
}
