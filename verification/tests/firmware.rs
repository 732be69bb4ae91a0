//! The firmware catalog and the release codenames.

use compat_checker::firmware::{Firmware, FirmwareInfo, Release, ReleaseCodename};
use compat_checker::library::{LibraryInfo, LibraryPriority};
use compat_checker::lookup::LibraryLookup;

fn info(major: u64, minor: u64) -> FirmwareInfo {
    FirmwareInfo {
        version: "05.40.26".to_string(),
        ota_id: "HE_DTV_W20H_AFADATAA".to_string(),
        release: Release { major, minor, patch: 0 },
    }
}

fn library(name: &str, symbols: &[&str]) -> LibraryInfo {
    LibraryInfo {
        name: name.to_string(),
        needed: Vec::new(),
        symbols: symbols.iter().map(|symbol| symbol.to_string()).collect(),
        names: Vec::new(),
        undefined: Vec::new(),
        priority: LibraryPriority::System,
    }
}

#[test]
fn major_releases_have_codenames() {
    assert_eq!(info(1, 0).codename(), Some(ReleaseCodename::Afro));
    assert_eq!(info(2, 0).codename(), Some(ReleaseCodename::Beehive));
    assert_eq!(info(5, 0).codename(), Some(ReleaseCodename::Jhericurl));
    assert_eq!(info(6, 3).codename(), Some(ReleaseCodename::Kisscurl));
    assert_eq!(info(7, 9).codename(), Some(ReleaseCodename::Mullet));
    assert_eq!(info(8, 0).codename(), Some(ReleaseCodename::Number1));
}

#[test]
fn third_and_fourth_release_split_at_minor_five() {
    assert_eq!(info(3, 4).codename(), Some(ReleaseCodename::Dreadlocks2));
    assert_eq!(info(3, 5).codename(), Some(ReleaseCodename::Dreadlocks));
    assert_eq!(info(3, 9).codename(), Some(ReleaseCodename::Dreadlocks));
    assert_eq!(info(4, 0).codename(), Some(ReleaseCodename::Goldilocks2));
    assert_eq!(info(4, 5).codename(), Some(ReleaseCodename::Goldilocks));
}

#[test]
fn other_releases_have_no_codename() {
    assert_eq!(info(0, 9).codename(), None);
    assert_eq!(info(9, 0).codename(), None);
    assert_eq!(info(u64::MAX, 0).codename(), None);
}

#[test]
fn new_catalog_resolves_nothing() {
    let firmware = Firmware::new(info(5, 0));
    assert!(firmware.find_library("libc.so.6").is_none());
    assert!(!firmware.has_record("libc.so.6.json"));
    assert_eq!(firmware.info().ota_id, "HE_DTV_W20H_AFADATAA");
}

#[test]
fn listed_name_resolves_to_the_record_of_its_detail() {
    let mut firmware = Firmware::new(info(5, 0));
    firmware.add_entry("libc.so.6".to_string(), "libc-2.31.so.json".to_string());
    firmware.add_record("libc-2.31.so.json".to_string(), library("libc.so.6", &["printf"]));
    let found = firmware.find_library("libc.so.6").unwrap();
    assert_eq!(found.name, "libc.so.6");
    assert!(found.has_symbol("printf"));
    assert!(firmware.has_record("libc-2.31.so.json"));
}

#[test]
fn several_names_share_one_detail() {
    let mut firmware = Firmware::new(info(5, 0));
    firmware.add_record("libz.so.1.2.11.json".to_string(), library("libz.so.1", &["inflate"]));
    firmware.add_entry("libz.so".to_string(), "libz.so.1.2.11.json".to_string());
    firmware.add_entry("libz.so.1".to_string(), "libz.so.1.2.11.json".to_string());
    assert_eq!(firmware.find_library("libz.so").unwrap().name, "libz.so.1");
    assert_eq!(firmware.find_library("libz.so.1").unwrap().name, "libz.so.1");
    assert!(firmware.find_library("libz.so.1.2.11").is_none());
}

#[test]
fn listed_name_without_a_record_does_not_resolve() {
    let mut firmware = Firmware::new(info(5, 0));
    firmware.add_entry("libgone.so".to_string(), "libgone.so.json".to_string());
    assert!(firmware.find_library("libgone.so").is_none());
}

#[test]
fn record_without_a_listed_name_does_not_resolve() {
    let mut firmware = Firmware::new(info(5, 0));
    firmware.add_record("libc-2.31.so.json".to_string(), library("libc.so.6", &[]));
    assert!(firmware.find_library("libc.so.6").is_none());
    assert!(firmware.find_library("libc-2.31.so.json").is_none());
}

#[test]
fn later_entry_and_record_replace_earlier_ones() {
    let mut firmware = Firmware::new(info(5, 0));
    firmware.add_entry("libx.so".to_string(), "old.json".to_string());
    firmware.add_record("old.json".to_string(), library("old", &[]));
    firmware.add_record("new.json".to_string(), library("new", &[]));
    assert_eq!(firmware.find_library("libx.so").unwrap().name, "old");
    firmware.add_entry("libx.so".to_string(), "new.json".to_string());
    assert_eq!(firmware.find_library("libx.so").unwrap().name, "new");
    firmware.add_record("new.json".to_string(), library("newer", &[]));
    assert_eq!(firmware.find_library("libx.so").unwrap().name, "newer");
    assert!(firmware.has_record("old.json"));
}
