//! How names are taken apart and put together: search paths split at `:`,
//! symbols joined to their version with `@`, and the bookkeeping symbols that
//! never count.

use vstd::prelude::*;
use vstd::string::*;
use crate::text::{text_equal, texts_of};

verus! {

/// The pieces of a text between separators, with the piece under way in
/// `piece`: each separator ends a piece, and the end of the text ends the last.
pub open spec fn split_from(text: Seq<char>, separator: char, piece: Seq<char>) -> Seq<Seq<char>>
    decreases text.len(),
{
    if text.len() == 0 {
        seq![piece]
    } else if text[0] == separator {
        seq![piece] + split_from(text.drop_first(), separator, Seq::empty())
    } else {
        split_from(text.drop_first(), separator, piece.push(text[0]))
    }
}

/// The pieces of a text between separators. A text without a separator is its
/// own single piece; an empty text gives one empty piece.
pub open spec fn split_text(text: Seq<char>, separator: char) -> Seq<Seq<char>> {
    split_from(text, separator, Seq::empty())
}

/// The directories of a search path, which `:` separates.
pub open spec fn search_path_entries(path: Seq<char>) -> Seq<Seq<char>> {
    split_text(path, ':')
}

/// A symbol qualified by a version: `name@version`.
pub open spec fn qualified(name: Seq<char>, version: Seq<char>) -> Seq<char> {
    name + seq!['@'] + version
}

/// Splits a search path into its directories.
pub fn split_search_path(path: &str) -> (entries: Vec<String>)
    ensures
        texts_of(entries@) == search_path_entries(path@),
{
    let length = path.unicode_len();
    let mut entries: Vec<String> = Vec::new();
    let mut start: usize = 0;
    let mut at: usize = 0;
    proof {
        assert(path@.subrange(0, length as int) =~= path@);
        assert(path@.subrange(0, 0) =~= Seq::<char>::empty());
        assert(texts_of(entries@) + search_path_entries(path@) =~= search_path_entries(
            path@,
        ));
    }
    while at < length
        invariant
            start <= at <= length,
            length == path@.len(),
            search_path_entries(path@) == texts_of(entries@) + split_from(
                path@.subrange(at as int, length as int),
                ':',
                path@.subrange(start as int, at as int),
            ),
        decreases length - at,
    {
        let ghost rest = path@.subrange(at as int, length as int);
        assert(rest.drop_first() =~= path@.subrange(at + 1, length as int));
        assert(rest[0] == path@[at as int]);
        if path.get_char(at) == ':' {
            let piece = path.substring_char(start, at).to_owned();
            let ghost before = texts_of(entries@);
            entries.push(piece);
            assert(texts_of(entries@) =~= before + seq![
                path@.subrange(start as int, at as int),
            ]);
            assert(path@.subrange(at + 1, at + 1) =~= Seq::<char>::empty());
            start = at + 1;
        } else {
            assert(path@.subrange(start as int, at + 1) =~= path@.subrange(
                start as int,
                at as int,
            ).push(path@[at as int]));
        }
        at += 1;
    }
    let piece = path.substring_char(start, length).to_owned();
    let ghost before = texts_of(entries@);
    entries.push(piece);
    assert(texts_of(entries@) =~= before + seq![
        path@.subrange(start as int, length as int),
    ]);
    entries
}

/// Joins a symbol's name and a version with `@`.
pub fn qualify(name: &str, version: &str) -> (symbol: String)
    ensures
        symbol@ == qualified(name@, version@),
{
    let mut symbol = String::from_str(name);
    proof {
        reveal_strlit("@");
    }
    symbol.append("@");
    symbol.append(version);
    assert("@"@ =~= seq!['@']);
    symbol
}

/// Whether a symbol belongs to the bookkeeping of the loader and the runtime:
/// such symbols mark the ends of sections and the entry and exit hooks, and are
/// never missed.
pub open spec fn is_bookkeeping(name: Seq<char>) -> bool {
    ||| name == "__bss_end__"@
    ||| name == "_bss_end__"@
    ||| name == "__bss_start"@
    ||| name == "__bss_start__"@
    ||| name == "__end__"@
    ||| name == "_end"@
    ||| name == "_fini"@
    ||| name == "_init"@
    ||| name == "_edata"@
}

/// Whether a symbol belongs to the bookkeeping of the loader and the runtime.
pub fn is_bookkeeping_symbol(name: &str) -> (ignored: bool)
    ensures
        ignored == is_bookkeeping(name@),
{
    text_equal(name, "__bss_end__") || text_equal(name, "_bss_end__") || text_equal(
        name,
        "__bss_start",
    ) || text_equal(name, "__bss_start__") || text_equal(name, "__end__") || text_equal(
        name,
        "_end",
    ) || text_equal(name, "_fini") || text_equal(name, "_init") || text_equal(name, "_edata")
}

/// A text with every occurrence of a pattern replaced, from left to right; an
/// occurrence that overlaps one already replaced does not count.
pub open spec fn substituted(text: Seq<char>, pattern: Seq<char>, replacement: Seq<char>) -> Seq<
    char,
>
    decreases text.len(),
{
    if pattern.len() == 0 || text.len() < pattern.len() {
        text
    } else if pattern.is_prefix_of(text) {
        replacement + substituted(
            text.subrange(pattern.len() as int, text.len() as int),
            pattern,
            replacement,
        )
    } else {
        seq![text[0]] + substituted(text.drop_first(), pattern, replacement)
    }
}

/// A search path entry with `$ORIGIN` replaced by the directory of the binary
/// that names the entry.
pub open spec fn with_origin(entry: Seq<char>, origin: Seq<char>) -> Seq<char> {
    substituted(entry, "$ORIGIN"@, origin)
}

/// The name of the file that a path leads to: what follows the last `/`, or
/// the whole path where it has none.
pub open spec fn file_name_of(path: Seq<char>) -> Seq<char>
    decreases path.len(),
{
    if path.len() == 0 || path.last() == '/' {
        Seq::empty()
    } else {
        file_name_of(path.drop_last()).push(path.last())
    }
}

/// The file name of a path is the part from a position on, where no `/`
/// follows the position and one stands right before it, if anything does.
proof fn lemma_file_name_from(path: Seq<char>, start: int)
    requires
        0 <= start <= path.len(),
        forall|i: int| start <= i < path.len() ==> path[i] != '/',
        start > 0 ==> path[start - 1] == '/',
    ensures
        file_name_of(path) == path.subrange(start, path.len() as int),
    decreases path.len() - start,
{
    if start == path.len() {
        assert(path.subrange(start, path.len() as int) =~= Seq::<char>::empty());
    } else {
        let shorter = path.drop_last();
        lemma_file_name_from(shorter, start);
        assert(shorter.subrange(start, shorter.len() as int).push(path.last()) =~= path.subrange(
            start,
            path.len() as int,
        ));
    }
}

/// Whether a pattern stands in a text at a position.
fn stands_at(text: &str, length: usize, at: usize, pattern: &str, width: usize) -> (stands: bool)
    requires
        length == text@.len(),
        width == pattern@.len(),
        at + width <= length,
    ensures
        stands == pattern@.is_prefix_of(text@.subrange(at as int, length as int)),
{
    let mut i: usize = 0;
    while i < width
        invariant
            i <= width,
            length == text@.len(),
            width == pattern@.len(),
            at + width <= length,
            forall|j: int| 0 <= j < i ==> pattern@[j] == text@[at + j],
        decreases width - i,
    {
        if pattern.get_char(i) != text.get_char(at + i) {
            assert(text@.subrange(at as int, length as int).subrange(0, width as int)[i as int]
                == text@[at + i]);
            return false;
        }
        i += 1;
    }
    assert(pattern@ =~= text@.subrange(at as int, length as int).subrange(0, width as int));
    true
}

/// Replaces `$ORIGIN` in a search path entry by the directory of the binary
/// that names the entry.
pub fn expand_origin(entry: &str, origin: &str) -> (expanded: String)
    ensures
        expanded@ == with_origin(entry@, origin@),
{
    let pattern = "$ORIGIN";
    let length = entry.unicode_len();
    let width = pattern.unicode_len();
    proof {
        reveal_strlit("$ORIGIN");
    }
    let mut expanded = String::new();
    let mut at: usize = 0;
    assert(entry@.subrange(0, length as int) =~= entry@);
    assert(expanded@ + with_origin(entry@, origin@) =~= with_origin(entry@, origin@));
    while at < length
        invariant
            at <= length,
            length == entry@.len(),
            width == pattern@.len(),
            width == 7,
            pattern@ == "$ORIGIN"@,
            with_origin(entry@, origin@) == expanded@ + substituted(
                entry@.subrange(at as int, length as int),
                pattern@,
                origin@,
            ),
        decreases length - at,
    {
        let ghost rest = entry@.subrange(at as int, length as int);
        if width <= length - at && stands_at(entry, length, at, pattern, width) {
            assert(rest.subrange(width as int, rest.len() as int) =~= entry@.subrange(
                at + width,
                length as int,
            ));
            let ghost before = expanded@;
            expanded.append(origin);
            assert(before + (origin@ + substituted(
                entry@.subrange(at + width, length as int),
                pattern@,
                origin@,
            )) =~= expanded@ + substituted(
                entry@.subrange(at + width, length as int),
                pattern@,
                origin@,
            ));
            at += width;
        } else {
            assert(rest.drop_first() =~= entry@.subrange(at + 1, length as int));
            let ghost before = expanded@;
            if width <= length - at {
                expanded.append(entry.substring_char(at, at + 1));
                assert(entry@.subrange(at as int, at + 1) =~= seq![rest[0]]);
                assert(before + (seq![rest[0]] + substituted(
                    rest.drop_first(),
                    pattern@,
                    origin@,
                )) =~= expanded@ + substituted(rest.drop_first(), pattern@, origin@));
                at += 1;
            } else {
                expanded.append(entry.substring_char(at, length));
                assert(substituted(entry@.subrange(length as int, length as int), pattern@, origin@)
                    =~= Seq::<char>::empty());
                assert(before + rest =~= expanded@ + Seq::<char>::empty());
                at = length;
            }
        }
    }
    assert(substituted(entry@.subrange(at as int, length as int), pattern@, origin@)
        =~= Seq::<char>::empty());
    assert(expanded@ + Seq::<char>::empty() =~= expanded@);
    expanded
}

/// The name of the file that a path leads to.
pub fn file_name(path: &str) -> (name: String)
    ensures
        name@ == file_name_of(path@),
{
    let length = path.unicode_len();
    let mut start: usize = length;
    let mut found = false;
    while !found && start > 0
        invariant
            start <= length,
            length == path@.len(),
            forall|i: int| start <= i < length ==> path@[i] != '/',
            found ==> start > 0 && path@[start - 1] == '/',
        decreases start + if found { 0int } else { 1int },
    {
        if path.get_char(start - 1) == '/' {
            found = true;
        } else {
            start -= 1;
        }
    }
    proof {
        lemma_file_name_from(path@, start as int);
    }
    path.substring_char(start, length).to_owned()
}

} // verus!
