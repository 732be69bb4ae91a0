//! Symbolic links and the indexing of bundled libraries.

use compat_checker::binary::BinaryInfo;
use compat_checker::bundle::{index_libraries, index_library, search_directories, BundledFile};
use compat_checker::library::{LibraryInfo, LibraryPriority};
use compat_checker::links::Symlinks;
use compat_checker::package::{AppInfo, Component, ComponentInfo};

fn pairs(list: &[(&str, &str)]) -> Vec<(String, String)> {
    list.iter().map(|(link, target)| (link.to_string(), target.to_string())).collect()
}

fn library(name: &str) -> LibraryInfo {
    LibraryInfo {
        name: name.to_string(),
        needed: Vec::new(),
        symbols: Vec::new(),
        names: Vec::new(),
        undefined: Vec::new(),
        priority: LibraryPriority::System,
    }
}

fn sorted(mut list: Vec<String>) -> Vec<String> {
    list.sort();
    list
}

#[test]
fn link_resolves_to_its_target() {
    let links = pairs(&[("/lib/libbar.so", "/lib/libbar.so.1")]);
    assert_eq!(Symlinks::final_target(&links, "/lib/libbar.so"), Some("/lib/libbar.so.1".to_string()));
}

#[test]
fn chain_of_links_resolves_to_its_end() {
    let links = pairs(&[("a", "b"), ("b", "c"), ("c", "d")]);
    assert_eq!(Symlinks::final_target(&links, "a"), Some("d".to_string()));
    assert_eq!(Symlinks::final_target(&links, "b"), Some("d".to_string()));
    assert_eq!(Symlinks::final_target(&links, "c"), Some("d".to_string()));
}

#[test]
fn path_that_is_no_link_has_no_target() {
    let links = pairs(&[("a", "b")]);
    assert_eq!(Symlinks::final_target(&links, "b"), None);
    assert_eq!(Symlinks::final_target(&links, "z"), None);
    assert_eq!(Symlinks::final_target(&Vec::new(), "a"), None);
}

#[test]
fn circle_of_links_has_no_target() {
    let links = pairs(&[("a", "b"), ("b", "c"), ("c", "a"), ("d", "a")]);
    assert_eq!(Symlinks::final_target(&links, "a"), None);
    assert_eq!(Symlinks::final_target(&links, "b"), None);
    assert_eq!(Symlinks::final_target(&links, "d"), None);
}

#[test]
fn link_to_itself_has_no_target() {
    let links = pairs(&[("a", "a")]);
    assert_eq!(Symlinks::final_target(&links, "a"), None);
}

#[test]
fn last_pair_for_a_link_counts() {
    let links = pairs(&[("a", "old"), ("a", "new")]);
    assert_eq!(Symlinks::final_target(&links, "a"), Some("new".to_string()));
    let resolved = Symlinks::new(links);
    assert_eq!(resolved.links("new"), vec!["a".to_string()]);
    assert!(resolved.links("old").is_empty());
}

#[test]
fn resolved_links_are_found_by_their_final_target() {
    let resolved = Symlinks::new(pairs(&[
        ("/lib/libbar.so", "/lib/libbar.so.1"),
        ("/lib/libbar.so.1", "/lib/libbar.so.1.0.0"),
        ("/lib/libfoo.so", "/lib/libfoo.so.2"),
        ("/lib/loop1", "/lib/loop2"),
        ("/lib/loop2", "/lib/loop1"),
    ]));
    assert_eq!(
        sorted(resolved.links("/lib/libbar.so.1.0.0")),
        vec!["/lib/libbar.so".to_string(), "/lib/libbar.so.1".to_string()]
    );
    assert_eq!(resolved.links("/lib/libfoo.so.2"), vec!["/lib/libfoo.so".to_string()]);
    assert!(resolved.links("/lib/libbar.so.1").is_empty());
    assert!(resolved.links("/lib/loop1").is_empty());
    assert!(resolved.links("/lib/loop2").is_empty());
    assert!(resolved.links("/nowhere").is_empty());
}

#[test]
fn no_links_resolve_to_nothing() {
    let resolved = Symlinks::new(Vec::new());
    assert!(resolved.links("/lib/libbar.so").is_empty());
}

#[test]
fn alias_symlink_gives_the_library_a_name() {
    let links = Symlinks::new(pairs(&[("/app/lib/libbar.so", "/app/lib/libbar.so.1")]));
    let indexed = index_library(library("libbar.so.1"), "/app/lib/libbar.so.1", false, &links);
    assert!(indexed.names.contains(&"libbar.so".to_string()));
    assert!(indexed.names.contains(&"libbar.so.1".to_string()));
    assert!(indexed.has_name("libbar.so"));
    let component = Component {
        id: "org.example.app".to_string(),
        info: ComponentInfo::App(AppInfo {
            id: "org.example.app".to_string(),
            version: "1.0.0".to_string(),
            kind: "native".to_string(),
            title: "Example".to_string(),
            app_description: None,
            main: "app".to_string(),
        }),
        exe: Some(BinaryInfo {
            name: "app".to_string(),
            rpath: Vec::new(),
            needed: vec!["libbar.so".to_string()],
            undefined: Vec::new(),
        }),
        libs: Vec::new(),
    };
    assert!(component.is_required(&indexed));
}

#[test]
fn indexing_sets_the_provenance() {
    let links = Symlinks::new(Vec::new());
    let bundled = index_library(library("libx.so"), "/app/lib/libx.so", false, &links);
    assert_eq!(bundled.priority, LibraryPriority::Package);
    assert_eq!(bundled.names, vec!["libx.so".to_string()]);
    let own = index_library(library("libx.so"), "/app/rpath/libx.so", true, &links);
    assert_eq!(own.priority, LibraryPriority::Rpath);
}

#[test]
fn indexing_keeps_what_was_parsed() {
    let links = Symlinks::new(Vec::new());
    let mut parsed = library("libx.so.1");
    parsed.needed = vec!["libc.so.6".to_string()];
    parsed.symbols = vec!["f".to_string()];
    parsed.undefined = vec!["printf".to_string()];
    let indexed = index_library(parsed, "/app/lib/libx.so.1.2", false, &links);
    assert_eq!(indexed.name, "libx.so.1");
    assert_eq!(indexed.needed, vec!["libc.so.6".to_string()]);
    assert_eq!(indexed.symbols, vec!["f".to_string()]);
    assert_eq!(indexed.undefined, vec!["printf".to_string()]);
    assert_eq!(indexed.names, vec!["libx.so.1.2".to_string()]);
}

#[test]
fn one_record_for_each_path() {
    let links = Symlinks::new(pairs(&[("/app/lib/liba.so", "/app/lib/liba.so.1")]));
    let file = |path: &str, in_rpath: bool, name: &str| BundledFile {
        path: path.to_string(),
        in_rpath,
        library: library(name),
    };
    let libs = index_libraries(
        vec![
            file("/app/lib/liba.so.1", true, "first"),
            file("/app/lib/libb.so", false, "libb.so"),
            file("/app/lib/liba.so.1", true, "last"),
        ],
        &links,
    );
    assert_eq!(libs.len(), 2);
    assert_eq!(libs[0].name, "libb.so");
    assert_eq!(libs[0].priority, LibraryPriority::Package);
    assert_eq!(libs[1].name, "last");
    assert_eq!(libs[1].priority, LibraryPriority::Rpath);
    assert_eq!(libs[1].names, vec!["liba.so.1".to_string(), "liba.so".to_string()]);
    assert!(index_libraries(Vec::new(), &links).is_empty());
}

#[test]
fn search_path_is_taken_from_where_the_executable_lies() {
    let rpath = vec!["$ORIGIN/../lib".to_string(), "/opt/lib".to_string(), "$ORIGIN".to_string()];
    assert_eq!(
        Component::rpath(&rpath, "/app/bin"),
        vec!["/app/bin/../lib".to_string(), "/opt/lib".to_string(), "/app/bin".to_string()]
    );
    assert!(Component::rpath(&Vec::new(), "/app/bin").is_empty());
}

#[test]
fn library_directory_is_searched_after_the_search_path() {
    let rpath = vec!["/app/own".to_string(), "/app/other".to_string()];
    assert_eq!(
        search_directories(&rpath, Some("/app/lib")),
        vec![
            ("/app/own".to_string(), true),
            ("/app/other".to_string(), true),
            ("/app/lib".to_string(), false),
        ]
    );
}

#[test]
fn library_directory_on_the_search_path_is_searched_once() {
    let rpath = vec!["/app/lib".to_string(), "/app/other".to_string()];
    assert_eq!(
        search_directories(&rpath, Some("/app/lib")),
        vec![("/app/lib".to_string(), true), ("/app/other".to_string(), true)]
    );
    assert_eq!(search_directories(&rpath, None).len(), 2);
    assert_eq!(search_directories(&Vec::new(), Some("/l")), vec![("/l".to_string(), false)]);
    assert!(search_directories(&Vec::new(), None).is_empty());
}
