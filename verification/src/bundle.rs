//! Indexing the libraries bundled with a component: where each was found
//! decides its precedence, and the file and the links that lead to it give the
//! names it answers to.

use vstd::prelude::*;
use crate::library::{LibraryInfo, LibraryModel, LibraryPriority};
use crate::links::{lemma_links_to_holds, links_to, Symlinks};
use crate::names::{expand_origin, file_name, file_name_of, with_origin};
use crate::package::{libraries_of, Component};
use crate::sequences::{lemma_texts_add, lemma_texts_push};
use crate::text::{contains_text, text_equal, texts_of};

verus! {

/// A library file found in a package.
#[derive(Debug)]
pub struct BundledFile {
    /// The file's path.
    pub path: String,
    /// Whether the file lies in a directory of the executable's own search
    /// path.
    pub in_rpath: bool,
    /// The library's record, as parsed from the file.
    pub library: LibraryInfo,
}

/// The file names of the links that lead to a path.
pub open spec fn aliases_of(links: Seq<(Seq<char>, Seq<char>)>, path: Seq<char>) -> Seq<Seq<char>> {
    links_to(links, path).map_values(|link: Seq<char>| file_name_of(link))
}

/// The provenance of a bundled library.
pub open spec fn provenance(in_rpath: bool) -> LibraryPriority {
    if in_rpath {
        LibraryPriority::Rpath
    } else {
        LibraryPriority::Package
    }
}

/// The record of a bundled library after indexing: it has its provenance, and
/// answers to the name of its file and to the file names of the links that
/// lead to the file.
pub open spec fn indexed(
    library: LibraryModel,
    path: Seq<char>,
    in_rpath: bool,
    links: Seq<(Seq<char>, Seq<char>)>,
) -> LibraryModel {
    LibraryModel {
        name: library.name,
        needed: library.needed,
        symbols: library.symbols,
        names: library.names.push(file_name_of(path)) + aliases_of(links, path),
        undefined: library.undefined,
        priority: provenance(in_rpath),
    }
}

/// Whether no later file has the path of the file at a position.
pub open spec fn is_last_of_path(files: Seq<BundledFile>, at: int) -> bool {
    forall|j: int| at < j < files.len() ==> (#[trigger] files[j]).path@ != files[at].path@
}

/// What the file at a position adds to the index: its record, indexed, unless
/// a later file has the same path.
pub open spec fn indexed_at(
    files: Seq<BundledFile>,
    links: Seq<(Seq<char>, Seq<char>)>,
    at: int,
) -> Seq<LibraryModel> {
    if is_last_of_path(files, at) {
        seq![indexed(files[at].library@, files[at].path@, files[at].in_rpath, links)]
    } else {
        Seq::empty()
    }
}

/// The index of the bundled libraries: one record for each path, in the order
/// of the files; of several files with one path the last counts.
pub open spec fn index_of(files: Seq<BundledFile>, links: Seq<(Seq<char>, Seq<char>)>) -> Seq<
    LibraryModel,
> {
    Seq::new(files.len(), |at: int| indexed_at(files, links, at)).flatten()
}

/// The directories to search for bundled libraries, each with whether it
/// belongs to the executable's own search path: the directories of that path,
/// and then the component's `lib` directory, unless the path holds it already.
pub open spec fn search_plan(rpath: Seq<Seq<char>>, lib_dir: Option<Seq<char>>) -> Seq<
    (Seq<char>, bool),
> {
    let own = rpath.map_values(|directory: Seq<char>| (directory, true));
    match lib_dir {
        Some(directory) => if rpath.contains(directory) {
            own
        } else {
            own.push((directory, false))
        },
        None => own,
    }
}

/// The directories to search for bundled libraries, each with whether it
/// belongs to the executable's own search path.
pub fn search_directories(rpath: &Vec<String>, lib_dir: Option<&str>) -> (plan: Vec<(String, bool)>)
    ensures
        plan@.map_values(|entry: (String, bool)| (entry.0@, entry.1)) == search_plan(
            texts_of(rpath@),
            match lib_dir {
                Some(directory) => Some(directory@),
                None => None,
            },
        ),
{
    let ghost view = |entry: (String, bool)| (entry.0@, entry.1);
    let ghost own = |directory: Seq<char>| (directory, true);
    let mut plan: Vec<(String, bool)> = Vec::new();
    let mut at: usize = 0;
    while at < rpath.len()
        invariant
            at <= rpath.len(),
            view == |entry: (String, bool)| (entry.0@, entry.1),
            own == |directory: Seq<char>| (directory, true),
            plan@.map_values(view) =~= texts_of(rpath@).subrange(0, at as int).map_values(own),
        decreases rpath.len() - at,
    {
        let ghost before = plan@.map_values(view);
        plan.push((rpath[at].clone(), true));
        proof {
            assert(plan@.map_values(view) =~= before.push((rpath@[at as int]@, true)));
            assert(texts_of(rpath@).subrange(0, at + 1) =~= texts_of(rpath@).subrange(
                0,
                at as int,
            ).push(rpath@[at as int]@));
        }
        at += 1;
    }
    assert(texts_of(rpath@).subrange(0, at as int) =~= texts_of(rpath@));
    match lib_dir {
        Some(directory) => {
            if !contains_text(rpath, directory) {
                let ghost before = plan@.map_values(view);
                plan.push((directory.to_owned(), false));
                assert(plan@.map_values(view) =~= before.push((directory@, false)));
            }
        },
        None => {},
    }
    plan
}

impl Component {
    /// The directories of an executable's own search path, with `$ORIGIN`
    /// replaced by the directory that holds the executable.
    pub fn rpath(rpath: &Vec<String>, origin: &str) -> (directories: Vec<String>)
        ensures
            texts_of(directories@) == texts_of(rpath@).map_values(
                |entry: Seq<char>| with_origin(entry, origin@),
            ),
    {
        let ghost expanded = |entry: Seq<char>| with_origin(entry, origin@);
        let mut directories: Vec<String> = Vec::new();
        let mut at: usize = 0;
        while at < rpath.len()
            invariant
                at <= rpath.len(),
                expanded == |entry: Seq<char>| with_origin(entry, origin@),
                texts_of(directories@) =~= texts_of(rpath@).subrange(0, at as int).map_values(
                    expanded,
                ),
            decreases rpath.len() - at,
        {
            let directory = expand_origin(rpath[at].as_str(), origin);
            proof {
                lemma_texts_push(directories@, directory);
                assert(texts_of(rpath@)[at as int] == rpath@[at as int]@);
            }
            directories.push(directory);
            at += 1;
        }
        assert(texts_of(rpath@).subrange(0, at as int) =~= texts_of(rpath@));
        directories
    }
}

/// Indexes one bundled library: gives it its provenance, and lets it answer to
/// the name of its file and to the file names of the links that lead to the
/// file.
pub fn index_library(library: LibraryInfo, path: &str, in_rpath: bool, links: &Symlinks) -> (record:
    LibraryInfo)
    ensures
        record@ == indexed(library@, path@, in_rpath, links.mapping()),
{
    let ghost start = library@;
    let mut record = library;
    record.priority = if in_rpath {
        LibraryPriority::Rpath
    } else {
        LibraryPriority::Package
    };
    let own = file_name(path);
    proof {
        lemma_texts_push(record.names@, own);
    }
    record.names.push(own);
    let leading = links.links(path);
    let ghost name_of = |link: Seq<char>| file_name_of(link);
    let mut aliases: Vec<String> = Vec::new();
    let mut at: usize = 0;
    while at < leading.len()
        invariant
            at <= leading.len(),
            name_of == |link: Seq<char>| file_name_of(link),
            texts_of(aliases@) =~= texts_of(leading@).subrange(0, at as int).map_values(name_of),
        decreases leading.len() - at,
    {
        let alias = file_name(leading[at].as_str());
        proof {
            lemma_texts_push(aliases@, alias);
            assert(texts_of(leading@)[at as int] == leading@[at as int]@);
        }
        aliases.push(alias);
        at += 1;
    }
    proof {
        assert(texts_of(leading@).subrange(0, at as int) =~= texts_of(leading@));
        lemma_texts_add(record.names@, aliases@);
    }
    record.names.append(&mut aliases);
    record
}

/// Indexes the bundled libraries of a component: one record for each path,
/// in the order of the files; of several files with one path the last counts.
pub fn index_libraries(files: Vec<BundledFile>, links: &Symlinks) -> (libs: Vec<LibraryInfo>)
    ensures
        libraries_of(libs@) == index_of(files@, links.mapping()),
{
    let ghost part = |at: int| indexed_at(files@, links.mapping(), at);
    let mut libs: Vec<LibraryInfo> = Vec::new();
    let mut at: usize = 0;
    assert(Seq::new(0, part) =~= Seq::<Seq<LibraryModel>>::empty());
    assert(libraries_of(libs@) =~= Seq::<LibraryModel>::empty());
    while at < files.len()
        invariant
            at <= files.len(),
            part == |at: int| indexed_at(files@, links.mapping(), at),
            libraries_of(libs@) == Seq::new(at as nat, part).flatten(),
        decreases files.len() - at,
    {
        proof {
            assert(Seq::new((at + 1) as nat, part) =~= Seq::new(at as nat, part).push(
                part(at as int),
            ));
            Seq::new(at as nat, part).lemma_flatten_push(part(at as int));
        }
        if !has_later(&files, at) {
            let file = &files[at];
            let record = index_library(file.library.clone(), file.path.as_str(), file.in_rpath, links);
            let ghost before = libraries_of(libs@);
            libs.push(record);
            assert(libraries_of(libs@) =~= before + seq![record@]);
        } else {
            assert(libraries_of(libs@) + Seq::<LibraryModel>::empty()
                =~= libraries_of(libs@));
        }
        at += 1;
    }
    libs
}

/// Whether a later file has the path of the file at a position.
fn has_later(files: &Vec<BundledFile>, at: usize) -> (later: bool)
    requires
        at < files.len(),
    ensures
        later == !is_last_of_path(files@, at as int),
{
    let mut j: usize = at + 1;
    while j < files.len()
        invariant
            at < j <= files.len(),
            forall|k: int| at < k < j ==> (#[trigger] files@[k]).path@ != files@[at as int].path@,
        decreases files.len() - j,
    {
        if text_equal(files[j].path.as_str(), files[at].path.as_str()) {
            return true;
        }
        j += 1;
    }
    false
}

/// An indexed library answers to the name of its file, and to the file name
/// of every link that leads to the file.
pub proof fn lemma_indexed_answers_to_aliases(
    library: LibraryModel,
    path: Seq<char>,
    in_rpath: bool,
    links: Seq<(Seq<char>, Seq<char>)>,
    at: int,
)
    requires
        0 <= at < links.len(),
        links[at].1 == path,
    ensures
        indexed(library, path, in_rpath, links).has_name(file_name_of(path)),
        indexed(library, path, in_rpath, links).has_name(file_name_of(links[at].0)),
{
    let record = indexed(library, path, in_rpath, links);
    let own = library.names.push(file_name_of(path));
    let leading = links_to(links, path);
    let aliases = aliases_of(links, path);
    assert(record.names[library.names.len() as int] == own[library.names.len() as int]);
    lemma_links_to_holds(links, path, at);
    let i = choose|i: int| 0 <= i < leading.len() && leading[i] == links[at].0;
    assert(aliases[i] == file_name_of(links[at].0));
    assert(record.names[own.len() + i] == aliases[i]);
}

} // verus!
