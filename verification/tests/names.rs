//! Taking names apart and putting them together.

use compat_checker::names::{
    expand_origin, file_name, is_bookkeeping_symbol, qualify, split_search_path,
};
use compat_checker::order::sort_texts;
use compat_checker::text::{
    bytes_equal, compare_bytes, contains_byte, contains_text, copy_texts, starts_with, text_equal,
    Standing,
};

fn texts(list: &[&str]) -> Vec<String> {
    list.iter().map(|text| text.to_string()).collect()
}

#[test]
fn search_path_splits_at_colons() {
    assert_eq!(split_search_path("/a:/b/c:$ORIGIN"), texts(&["/a", "/b/c", "$ORIGIN"]));
}

#[test]
fn search_path_without_colon_is_one_entry() {
    assert_eq!(split_search_path("/usr/lib"), texts(&["/usr/lib"]));
}

#[test]
fn empty_search_path_is_one_empty_entry() {
    assert_eq!(split_search_path(""), texts(&[""]));
}

#[test]
fn colons_at_the_ends_give_empty_entries() {
    assert_eq!(split_search_path(":/a:"), texts(&["", "/a", ""]));
    assert_eq!(split_search_path("::"), texts(&["", "", ""]));
}

#[test]
fn search_path_splits_as_the_standard_library_does() {
    for path in ["", ":", "a", "a:b", "a::b", ":a:", "é:ü", "/x/y:/z"] {
        let expected: Vec<String> = path.split(':').map(String::from).collect();
        assert_eq!(split_search_path(path), expected, "{path:?}");
    }
}

#[test]
fn symbol_and_version_are_joined_by_an_at_sign() {
    assert_eq!(qualify("printf", "GLIBC_2.4"), "printf@GLIBC_2.4");
    assert_eq!(qualify("", "V"), "@V");
    assert_eq!(qualify("f", ""), "f@");
}

#[test]
fn origin_is_replaced_by_the_directory() {
    assert_eq!(expand_origin("$ORIGIN/lib", "/app/bin"), "/app/bin/lib");
    assert_eq!(expand_origin("$ORIGIN", "/app"), "/app");
    assert_eq!(expand_origin("/opt/$ORIGIN/x", "d"), "/opt/d/x");
}

#[test]
fn every_origin_is_replaced() {
    assert_eq!(expand_origin("$ORIGIN:$ORIGIN/../lib", "/a"), "/a:/a/../lib");
    assert_eq!(expand_origin("$ORIGIN$ORIGIN", "x"), "xx");
}

#[test]
fn entry_without_origin_is_unchanged() {
    assert_eq!(expand_origin("/usr/lib", "/app"), "/usr/lib");
    assert_eq!(expand_origin("", "/app"), "");
    assert_eq!(expand_origin("$ORIGI", "/app"), "$ORIGI");
    assert_eq!(expand_origin("$origin/lib", "/app"), "$origin/lib");
    assert_eq!(expand_origin("$$ORIGIN", "/app"), "$/app");
}

#[test]
fn origin_is_replaced_as_the_standard_library_does() {
    for entry in ["", "$ORIGIN", "a$ORIGINb", "$ORIGIN$ORIGI", "$$ORIGIN$", "ORIGIN", "é$ORIGINé"] {
        assert_eq!(expand_origin(entry, "/d"), entry.replace("$ORIGIN", "/d"), "{entry:?}");
    }
}

#[test]
fn file_name_follows_the_last_slash() {
    assert_eq!(file_name("/usr/lib/libc.so.6"), "libc.so.6");
    assert_eq!(file_name("lib/libbar.so"), "libbar.so");
    assert_eq!(file_name("libbar.so"), "libbar.so");
}

#[test]
fn file_name_of_a_path_that_ends_in_a_slash_is_empty() {
    assert_eq!(file_name("/usr/lib/"), "");
    assert_eq!(file_name("/"), "");
    assert_eq!(file_name(""), "");
}

#[test]
fn bookkeeping_symbols_are_recognised() {
    for name in [
        "__bss_end__",
        "_bss_end__",
        "__bss_start",
        "__bss_start__",
        "__end__",
        "_end",
        "_fini",
        "_init",
        "_edata",
    ] {
        assert!(is_bookkeeping_symbol(name), "{name}");
    }
}

#[test]
fn other_symbols_are_no_bookkeeping() {
    for name in ["", "main", "_start", "__bss_end", "_init_", "init", "_END", "_edata@V1"] {
        assert!(!is_bookkeeping_symbol(name), "{name}");
    }
}

#[test]
fn bytes_compare_lexicographically() {
    assert_eq!(compare_bytes(b"abc", b"abd"), Standing::Before);
    assert_eq!(compare_bytes(b"abd", b"abc"), Standing::After);
    assert_eq!(compare_bytes(b"abc", b"abc"), Standing::Same);
    assert_eq!(compare_bytes(b"ab", b"abc"), Standing::Before);
    assert_eq!(compare_bytes(b"abc", b"ab"), Standing::After);
    assert_eq!(compare_bytes(b"", b""), Standing::Same);
    assert_eq!(compare_bytes(b"", b"a"), Standing::Before);
    assert_eq!(compare_bytes(b"foo@V", b"foo1"), Standing::After);
    assert_eq!(compare_bytes(&[0xff], &[0x00, 0x01]), Standing::After);
}

#[test]
fn bytes_compare_as_the_standard_library_does() {
    let samples: [&[u8]; 6] = [b"", b"a", b"ab", b"b", b"a@", b"a1"];
    for one in samples {
        for other in samples {
            let expected = match one.cmp(other) {
                std::cmp::Ordering::Less => Standing::Before,
                std::cmp::Ordering::Equal => Standing::Same,
                std::cmp::Ordering::Greater => Standing::After,
            };
            assert_eq!(compare_bytes(one, other), expected);
        }
    }
}

#[test]
fn equality_of_bytes_and_texts() {
    assert!(bytes_equal(b"same", b"same"));
    assert!(!bytes_equal(b"same", b"sama"));
    assert!(!bytes_equal(b"same", b"sam"));
    assert!(text_equal("native", "native"));
    assert!(!text_equal("native", "Native"));
    assert!(text_equal("", ""));
}

#[test]
fn prefixes_and_members() {
    assert!(starts_with(b"foo@V1", b"foo"));
    assert!(starts_with(b"foo", b"foo"));
    assert!(starts_with(b"foo", b""));
    assert!(!starts_with(b"fo", b"foo"));
    assert!(!starts_with(b"bar", b"foo"));
    assert!(contains_byte(b"foo@V1", b'@'));
    assert!(!contains_byte(b"foo", b'@'));
    assert!(!contains_byte(b"", b'@'));
}

#[test]
fn texts_in_lists() {
    let list = texts(&["liba.so", "libb.so"]);
    assert!(contains_text(&list, "libb.so"));
    assert!(!contains_text(&list, "libc.so"));
    assert!(!contains_text(&Vec::new(), "liba.so"));
    assert_eq!(copy_texts(&list), list);
}

#[test]
fn names_sort_ascending_by_bytes() {
    let mut list = texts(&["zeta", "alpha", "foo@V1", "foo1", "foo", "Alpha", "", "alpha"]);
    sort_texts(&mut list);
    assert_eq!(list, texts(&["", "Alpha", "alpha", "alpha", "foo", "foo1", "foo@V1", "zeta"]));
}

#[test]
fn short_lists_sort_to_themselves() {
    let mut none: Vec<String> = Vec::new();
    sort_texts(&mut none);
    assert!(none.is_empty());
    let mut one = texts(&["only"]);
    sort_texts(&mut one);
    assert_eq!(one, texts(&["only"]));
}

#[test]
fn names_sort_as_the_standard_library_sorts() {
    let mut seed: u32 = 12345;
    for length in [2usize, 3, 7, 16, 33, 100] {
        let mut list = Vec::new();
        for _ in 0..length {
            seed = seed.wrapping_mul(1_103_515_245).wrapping_add(12345);
            let letters = (seed >> 16) % 4;
            let mut name = String::new();
            for which in 0..letters {
                seed = seed.wrapping_mul(1_103_515_245).wrapping_add(12345);
                let choice = ['a', 'b', '@', 'é', '1', 'Z'][((seed >> 16) % 6) as usize];
                name.push(choice);
                if which == 1 {
                    name.push('_');
                }
            }
            list.push(name);
        }
        let mut expected = list.clone();
        expected.sort_unstable();
        sort_texts(&mut list);
        assert_eq!(list, expected);
    }
}
