//! Verdicts on the components of a package: the executable of each, and each
//! library bundled with it, looked up with the precedence of a packaged
//! component.

use vstd::prelude::*;
use crate::binary::{BinaryInfo, BinaryModel};
use crate::library::{LibraryInfo, LibraryModel, LibraryPriority};
use crate::lookup::{lemma_needed_by_all, needed_by_all, needs, LibraryLookup};
use crate::package::{lemma_first_named, Component, Package};
use crate::text::{
    bytes_of, compare_bytes, copy_texts, lemma_lex_asymmetric, lemma_lex_total,
    lemma_lex_transitive, lex_lt, texts_of, Standing,
};
use crate::verify::bin::{missing_libraries, unresolved_symbols, BinVerdict, BinVerifyResult};
use crate::verify::{Verify, VerifyResult};

verus! {

/// The verdict on one binary of a component.
#[derive(Debug, PartialEq, Eq)]
pub enum ComponentBinVerifyResult {
    /// The binary was not verified: the component is not native, or the
    /// firmware supplies the library and will be used in its place.
    Skipped { name: String },
    /// Nothing is missing and nothing unresolved.
    Passed { name: String },
    /// Something is missing or unresolved.
    Failed(BinVerifyResult),
}

/// The mathematical content of a [`ComponentBinVerifyResult`].
pub enum Verdict {
    Skipped { name: Seq<char> },
    Passed { name: Seq<char> },
    Failed(BinVerdict),
}

impl Verdict {
    /// The name of the binary that the verdict is on.
    pub open spec fn name(self) -> Seq<char> {
        match self {
            Verdict::Skipped { name } => name,
            Verdict::Passed { name } => name,
            Verdict::Failed(result) => result.name,
        }
    }
}

impl View for ComponentBinVerifyResult {
    type V = Verdict;

    open spec fn view(&self) -> Verdict {
        match self {
            ComponentBinVerifyResult::Skipped { name } => Verdict::Skipped { name: name@ },
            ComponentBinVerifyResult::Passed { name } => Verdict::Passed { name: name@ },
            ComponentBinVerifyResult::Failed(result) => Verdict::Failed(result@),
        }
    }
}

impl ComponentBinVerifyResult {
    /// The name of the binary that the verdict is on.
    pub fn name(&self) -> (name: &str)
        ensures
            name@ == self@.name(),
    {
        match self {
            ComponentBinVerifyResult::Skipped { name } => name.as_str(),
            ComponentBinVerifyResult::Passed { name } => name.as_str(),
            ComponentBinVerifyResult::Failed(result) => result.name.as_str(),
        }
    }
}

/// The verdict on a component: on its executable, and on each bundled library
/// with whether the executable needs it.
#[derive(Debug)]
pub struct ComponentVerifyResult {
    pub id: String,
    pub exe: ComponentBinVerifyResult,
    pub libs: Vec<(bool, ComponentBinVerifyResult)>,
}

/// The mathematical content of a [`ComponentVerifyResult`].
pub struct ComponentVerdict {
    pub id: Seq<char>,
    pub exe: Verdict,
    pub libs: Seq<(bool, Verdict)>,
}

/// The contents of a list of verdicts on libraries.
pub open spec fn entries_of(libs: Seq<(bool, ComponentBinVerifyResult)>) -> Seq<(bool, Verdict)> {
    libs.map_values(|entry: (bool, ComponentBinVerifyResult)| (entry.0, entry.1@))
}

impl View for ComponentVerifyResult {
    type V = ComponentVerdict;

    open spec fn view(&self) -> ComponentVerdict {
        ComponentVerdict { id: self.id@, exe: self.exe@, libs: entries_of(self.libs@) }
    }
}

impl ComponentVerdict {
    /// Whether the component will link: neither its executable nor a library
    /// that the executable needs has failed. A failed library that the
    /// executable does not need does no harm.
    pub open spec fn good(self) -> bool {
        &&& !(self.exe is Failed)
        &&& forall|i: int| 0 <= i < self.libs.len() && (#[trigger] self.libs[i]).0 ==> !(self.libs[i].1 is Failed)
    }
}

impl VerifyResult for ComponentVerifyResult {
    open spec fn good(&self) -> bool {
        self@.good()
    }

    fn is_good(&self) -> (good: bool) {
        if let ComponentBinVerifyResult::Failed(_) = &self.exe {
            return false;
        }
        let mut at: usize = 0;
        while at < self.libs.len()
            invariant
                at <= self.libs.len(),
                !(self@.exe is Failed),
                forall|i: int|
                    0 <= i < at && (#[trigger] self@.libs[i]).0 ==> !(self@.libs[i].1 is Failed),
            decreases self.libs.len() - at,
        {
            assert(self@.libs[at as int] == (self.libs@[at as int].0, self.libs@[at as int].1@));
            if self.libs[at].0 {
                if let ComponentBinVerifyResult::Failed(_) = &self.libs[at].1 {
                    return false;
                }
            }
            at += 1;
        }
        true
    }
}

/// The verdict on a package: on its application and on each of its services.
#[derive(Debug)]
pub struct PackageVerifyResult {
    pub app: ComponentVerifyResult,
    pub services: Vec<ComponentVerifyResult>,
}

/// The mathematical content of a [`PackageVerifyResult`].
pub struct PackageVerdict {
    pub app: ComponentVerdict,
    pub services: Seq<ComponentVerdict>,
}

impl View for PackageVerifyResult {
    type V = PackageVerdict;

    open spec fn view(&self) -> PackageVerdict {
        PackageVerdict {
            app: self.app@,
            services: self.services@.map_values(|service: ComponentVerifyResult| service@),
        }
    }
}

impl PackageVerdict {
    /// Whether the package will link: its application and all its services
    /// will.
    pub open spec fn good(self) -> bool {
        &&& self.app.good()
        &&& forall|i: int| 0 <= i < self.services.len() ==> (#[trigger] self.services[i]).good()
    }
}

impl VerifyResult for PackageVerifyResult {
    open spec fn good(&self) -> bool {
        self@.good()
    }

    fn is_good(&self) -> (good: bool) {
        if !self.app.is_good() {
            return false;
        }
        let mut at: usize = 0;
        while at < self.services.len()
            invariant
                at <= self.services.len(),
                self@.app.good(),
                forall|i: int| 0 <= i < at ==> (#[trigger] self@.services[i]).good(),
            decreases self.services.len() - at,
        {
            assert(self@.services[at as int] == self.services@[at as int]@);
            if !self.services[at].is_good() {
                return false;
            }
            at += 1;
        }
        true
    }
}

/// Which library a packaged component is given for a name: a bundled library
/// from a directory of the executable's own search path wins; else the
/// firmware's library, where it has one; else the bundled library.
pub open spec fn precedence(bundled: Option<LibraryModel>, system: Option<LibraryModel>) -> Option<
    LibraryModel,
> {
    match bundled {
        Some(library) => if library.priority == LibraryPriority::Rpath {
            Some(library)
        } else {
            match system {
                Some(found) => Some(found),
                None => Some(library),
            }
        },
        None => system,
    }
}

/// A packaged component is given libraries in the precedence rpath over
/// system over package: a bundled library from the executable's own search
/// path is given whatever the firmware has; any other bundled library is given
/// only where the firmware has none; and the firmware's library is given
/// wherever no bundled library from the search path stands in its way.
pub proof fn lemma_precedence(bundled: Option<LibraryModel>, system: Option<LibraryModel>)
    ensures
        bundled matches Some(library) && library.priority == LibraryPriority::Rpath ==> precedence(
            bundled,
            system,
        ) == bundled,
        bundled matches Some(library) && library.priority != LibraryPriority::Rpath
            && system is Some ==> precedence(bundled, system) == system,
        system is None ==> precedence(bundled, system) == bundled,
        bundled is None ==> precedence(bundled, system) == system,
{
}

/// The lookup of a packaged component: its bundled libraries and the
/// firmware's, with the precedence rpath over system over package.
pub struct ComponentLookup<'a, L: LibraryLookup> {
    pub component: &'a Component,
    pub system: &'a L,
}

impl<'a, L: LibraryLookup> LibraryLookup for ComponentLookup<'a, L> {
    open spec fn lookup(&self, name: Seq<char>) -> Option<LibraryModel> {
        precedence(self.component@.find_lib(name), self.system.lookup(name))
    }

    open spec fn horizon(&self) -> Set<Seq<char>> {
        self.system.horizon().union(needed_by_all(self.component@.libs))
    }

    proof fn horizon_bounds(&self) {
        self.system.horizon_bounds();
        lemma_needed_by_all(self.component@.libs);
        assert forall|name: Seq<char>, i: int|
            0 <= i < needs(self.lookup(name)).len() implies self.horizon().contains(
            #[trigger] needs(self.lookup(name))[i],
        ) by {
            lemma_first_named(self.component@.libs, name);
            assert(0 <= i < needs(self.system.lookup(name)).len() ==> self.system.horizon().contains(
                needs(self.system.lookup(name))[i],
            ));
        }
    }

    fn find_library(&self, name: &str) -> (found: Option<LibraryInfo>) {
        match self.component.find_lib(name) {
            Some(library) => {
                if library.priority == LibraryPriority::Rpath {
                    return Some(library.clone());
                }
                match self.system.find_library(name) {
                    Some(found) => Some(found),
                    None => Some(library.clone()),
                }
            },
            None => self.system.find_library(name),
        }
    }
}

/// Whether one verdict on a library is reported strictly after another: the
/// libraries that the executable needs come first, and among equals the names
/// ascend.
pub open spec fn reported_after(later: (bool, Verdict), earlier: (bool, Verdict)) -> bool {
    if later.0 != earlier.0 {
        earlier.0
    } else {
        lex_lt(bytes_of(earlier.1.name()), bytes_of(later.1.name()))
    }
}

/// Where a verdict goes among verdicts in report order: before the first that
/// is reported strictly after it, and so after every equal.
pub open spec fn slot(ordered: Seq<(bool, Verdict)>, entry: (bool, Verdict)) -> int
    decreases ordered.len(),
{
    if ordered.len() == 0 {
        0
    } else if reported_after(ordered.first(), entry) {
        0
    } else {
        1 + slot(ordered.drop_first(), entry)
    }
}

/// The verdicts in report order: each put in its place among those before it,
/// so that equals keep the order they came in.
pub open spec fn report_order(entries: Seq<(bool, Verdict)>) -> Seq<(bool, Verdict)>
    decreases entries.len(),
{
    if entries.len() == 0 {
        Seq::empty()
    } else {
        let before = report_order(entries.drop_last());
        before.insert(slot(before, entries.last()), entries.last())
    }
}

/// A verdict's place lies within the list.
pub proof fn lemma_slot_bounds(ordered: Seq<(bool, Verdict)>, entry: (bool, Verdict))
    ensures
        0 <= slot(ordered, entry) <= ordered.len(),
    decreases ordered.len(),
{
    if ordered.len() > 0 && !reported_after(ordered.first(), entry) {
        lemma_slot_bounds(ordered.drop_first(), entry);
    }
}

/// The verdict on a binary against a lookup.
pub open spec fn bin_verdict<L: LibraryLookup>(binary: BinaryModel, lookup: &L) -> BinVerdict {
    BinVerdict {
        name: binary.name,
        missing_lib: missing_libraries(lookup, binary.needed),
        undefined_sym: unresolved_symbols(lookup, binary.needed, binary.undefined),
    }
}

/// The verdict on a binary of a component, from the verdict of the engine.
pub open spec fn classified(verdict: BinVerdict) -> Verdict {
    if verdict.good() {
        Verdict::Passed { name: verdict.name }
    } else {
        Verdict::Failed(verdict)
    }
}

/// A library taken as a binary, to be verified like one: it needs what the
/// library needs and requires what the library requires.
pub open spec fn as_binary(library: LibraryModel) -> BinaryModel {
    BinaryModel {
        name: library.name,
        rpath: Seq::empty(),
        needed: library.needed,
        undefined: library.undefined,
    }
}

/// The verdict on one bundled library of a component, with whether the
/// executable needs it. A library that the firmware supplies under the same
/// name is skipped, since the firmware's will be used in its place, unless it
/// comes from a directory of the executable's own search path.
pub open spec fn library_verdict<L: LibraryLookup>(
    component: &Component,
    library: LibraryModel,
    system: &L,
) -> (bool, Verdict) {
    let required = component@.is_required(library);
    if library.priority != LibraryPriority::Rpath && system.lookup(library.name) is Some {
        (required, Verdict::Skipped { name: library.name })
    } else {
        (
            required,
            classified(bin_verdict(as_binary(library), &ComponentLookup { component, system })),
        )
    }
}

/// The verdict on a component. One without an executable is skipped as a
/// whole. Else the executable and each bundled library is verified with the
/// component's precedence, and the libraries are put in report order.
pub open spec fn component_verdict<L: LibraryLookup>(
    component: &Component,
    system: &L,
) -> ComponentVerdict {
    match component@.exe {
        None => ComponentVerdict {
            id: component@.id,
            exe: Verdict::Skipped { name: Seq::empty() },
            libs: Seq::empty(),
        },
        Some(binary) => ComponentVerdict {
            id: component@.id,
            exe: classified(bin_verdict(binary, &ComponentLookup { component, system })),
            libs: report_order(
                component@.libs.map_values(
                    |library: LibraryModel| library_verdict(component, library, system),
                ),
            ),
        },
    }
}

/// Whether one verdict on a library is reported strictly after another.
fn entry_after(
    later: &(bool, ComponentBinVerifyResult),
    earlier: &(bool, ComponentBinVerifyResult),
) -> (after: bool)
    ensures
        after == reported_after((later.0, later.1@), (earlier.0, earlier.1@)),
{
    if later.0 != earlier.0 {
        earlier.0
    } else {
        let order = compare_bytes(earlier.1.name().as_bytes(), later.1.name().as_bytes());
        proof {
            if order == Standing::Same {
                if lex_lt(bytes_of(earlier.1@.name()), bytes_of(later.1@.name())) {
                    lemma_lex_asymmetric(bytes_of(earlier.1@.name()), bytes_of(later.1@.name()));
                }
            }
        }
        order == Standing::Before
    }
}

/// Puts a verdict in its place among verdicts in report order.
fn place(ordered: &mut Vec<(bool, ComponentBinVerifyResult)>, entry: (bool, ComponentBinVerifyResult))
    ensures
        entries_of(final(ordered)@) == entries_of(old(ordered)@).insert(
            slot(entries_of(old(ordered)@), (entry.0, entry.1@)),
            (entry.0, entry.1@),
        ),
{
    let ghost all = entries_of(ordered@);
    let ghost added = (entry.0, entry.1@);
    let mut at: usize = 0;
    let mut found = false;
    assert(all.subrange(0, all.len() as int) =~= all);
    while !found && at < ordered.len()
        invariant
            at <= ordered.len(),
            all == entries_of(ordered@),
            added == (entry.0, entry.1@),
            slot(all, added) == at + slot(all.subrange(at as int, all.len() as int), added),
            found ==> at < ordered.len() && reported_after(all[at as int], added),
        decreases ordered.len() - at + if found { 0int } else { 1int },
    {
        let ghost rest = all.subrange(at as int, all.len() as int);
        assert(rest.first() == (ordered@[at as int].0, ordered@[at as int].1@));
        assert(rest.drop_first() =~= all.subrange(at + 1, all.len() as int));
        if entry_after(&ordered[at], &entry) {
            found = true;
        } else {
            at += 1;
        }
    }
    proof {
        let rest = all.subrange(at as int, all.len() as int);
        if found {
            assert(rest.first() == all[at as int]);
        }
    }
    ordered.insert(at, entry);
    assert(entries_of(ordered@) =~= all.insert(at as int, added));
}

/// The verdict on a binary of a component, from the verdict of the engine.
fn classify(result: BinVerifyResult) -> (verdict: ComponentBinVerifyResult)
    ensures
        verdict@ == classified(result@),
{
    if result.is_good() {
        ComponentBinVerifyResult::Passed { name: result.name }
    } else {
        ComponentBinVerifyResult::Failed(result)
    }
}

impl Component {
    /// Verifies a binary with the component's precedence: the bundled
    /// libraries and those of `lookup`, rpath over system over package.
    pub fn verify_bin<L: LibraryLookup>(&self, bin: &BinaryInfo, lookup: &L) -> (result:
        BinVerifyResult)
        ensures
            result@ == bin_verdict(bin@, &ComponentLookup { component: self, system: lookup }),
    {
        let precedence = ComponentLookup { component: self, system: lookup };
        bin.verify(&precedence)
    }

    /// Verifies one bundled library, and says whether the executable needs it.
    fn verify_library<L: LibraryLookup>(&self, library: &LibraryInfo, lookup: &L) -> (entry: (
        bool,
        ComponentBinVerifyResult,
    ))
        ensures
            (entry.0, entry.1@) == library_verdict(self, library@, lookup),
    {
        let required = self.is_required(library);
        if library.priority != LibraryPriority::Rpath {
            if lookup.find_library(library.name.as_str()).is_some() {
                return (required, ComponentBinVerifyResult::Skipped { name: library.name.clone() });
            }
        }
        let binary = BinaryInfo {
            name: library.name.clone(),
            rpath: Vec::new(),
            needed: copy_texts(&library.needed),
            undefined: copy_texts(&library.undefined),
        };
        assert(binary@ == as_binary(library@)) by {
            assert(texts_of(binary.rpath@) =~= Seq::<Seq<char>>::empty());
        }
        (required, classify(self.verify_bin(&binary, lookup)))
    }
}

impl Verify<ComponentVerifyResult> for Component {
    /// Verifies the component against the libraries of the firmware.
    fn verify<L: LibraryLookup>(&self, lookup: &L) -> (result: ComponentVerifyResult)
        ensures
            result@ == component_verdict(self, lookup),
    {
        let binary = match &self.exe {
            Some(binary) => binary,
            None => {
                let libs: Vec<(bool, ComponentBinVerifyResult)> = Vec::new();
                assert(entries_of(libs@) =~= Seq::<(bool, Verdict)>::empty());
                return ComponentVerifyResult {
                    id: self.id.clone(),
                    exe: ComponentBinVerifyResult::Skipped { name: String::new() },
                    libs,
                };
            },
        };
        let exe = classify(self.verify_bin(binary, lookup));
        let ghost verdict = |library: LibraryModel| library_verdict(self, library, lookup);
        let ghost verdicts = self@.libs.map_values(verdict);
        let mut libs: Vec<(bool, ComponentBinVerifyResult)> = Vec::new();
        let mut at: usize = 0;
        assert(verdicts.subrange(0, 0) =~= Seq::<(bool, Verdict)>::empty());
        assert(entries_of(libs@) =~= Seq::<(bool, Verdict)>::empty());
        while at < self.libs.len()
            invariant
                at <= self.libs.len(),
                verdict == |library: LibraryModel| library_verdict(self, library, lookup),
                verdicts == self@.libs.map_values(verdict),
                entries_of(libs@) == report_order(verdicts.subrange(0, at as int)),
            decreases self.libs.len() - at,
        {
            let entry = self.verify_library(&self.libs[at], lookup);
            proof {
                let upto = verdicts.subrange(0, at + 1);
                assert(self@.libs[at as int] == self.libs@[at as int]@);
                assert(upto.last() == (entry.0, entry.1@));
                assert(upto.drop_last() =~= verdicts.subrange(0, at as int));
            }
            place(&mut libs, entry);
            at += 1;
        }
        assert(verdicts.subrange(0, at as int) =~= verdicts);
        ComponentVerifyResult { id: self.id.clone(), exe, libs }
    }
}

impl Verify<PackageVerifyResult> for Package {
    /// Verifies the application and each service of the package against the
    /// libraries of the firmware.
    fn verify<L: LibraryLookup>(&self, lookup: &L) -> (result: PackageVerifyResult)
        ensures
            result@.app == component_verdict(&self.app, lookup),
            result@.services.len() == self.services@.len(),
            forall|i: int|
                0 <= i < self.services@.len() ==> #[trigger] result@.services[i]
                    == component_verdict(&self.services@[i], lookup),
    {
        let app = self.app.verify(lookup);
        let mut services: Vec<ComponentVerifyResult> = Vec::new();
        let mut at: usize = 0;
        while at < self.services.len()
            invariant
                at <= self.services.len(),
                services@.len() == at,
                forall|i: int|
                    0 <= i < at ==> (#[trigger] services@[i])@ == component_verdict(
                        &self.services@[i],
                        lookup,
                    ),
            decreases self.services.len() - at,
        {
            let service = self.services[at].verify(lookup);
            services.push(service);
            at += 1;
        }
        PackageVerifyResult { app, services }
    }
}

/// A component with a failed library that its executable needs will not
/// link.
pub proof fn lemma_required_failure_is_bad(verdict: ComponentVerdict, at: int)
    requires
        0 <= at < verdict.libs.len(),
        verdict.libs[at].0,
        verdict.libs[at].1 is Failed,
    ensures
        !verdict.good(),
{
}

/// A failed library that the executable does not need does no harm: a
/// component whose executable has not failed, and whose failed libraries are
/// all ones that the executable does not need, will link.
pub proof fn lemma_optional_failure_is_harmless(verdict: ComponentVerdict)
    requires
        !(verdict.exe is Failed),
        forall|i: int|
            0 <= i < verdict.libs.len() && (#[trigger] verdict.libs[i]).1 is Failed
                ==> !verdict.libs[i].0,
    ensures
        verdict.good(),
{
}

/// Whether verdicts are in report order: none is reported strictly after one
/// that follows it.
pub open spec fn in_report_order(entries: Seq<(bool, Verdict)>) -> bool {
    forall|i: int, j: int|
        0 <= i < j < entries.len() ==> !reported_after(#[trigger] entries[i], #[trigger] entries[j])
}

/// A verdict that is reported strictly before a second is reported strictly
/// before every third that the second is not reported strictly after.
proof fn lemma_reported_after_chains(
    first: (bool, Verdict),
    second: (bool, Verdict),
    third: (bool, Verdict),
)
    requires
        reported_after(second, first),
        !reported_after(second, third),
    ensures
        reported_after(third, first),
{
    let a = bytes_of(first.1.name());
    let b = bytes_of(second.1.name());
    let c = bytes_of(third.1.name());
    if first.0 == second.0 && second.0 == third.0 {
        if b != c {
            lemma_lex_total(b, c);
            lemma_lex_transitive(a, b, c);
        }
    }
}

/// Putting a verdict in its place keeps verdicts in report order.
proof fn lemma_place_keeps_order(ordered: Seq<(bool, Verdict)>, entry: (bool, Verdict))
    requires
        in_report_order(ordered),
    ensures
        in_report_order(ordered.insert(slot(ordered, entry), entry)),
        forall|i: int| 0 <= i < slot(ordered, entry) ==> !reported_after(#[trigger] ordered[i], entry),
        slot(ordered, entry) < ordered.len() ==> reported_after(
            ordered[slot(ordered, entry)],
            entry,
        ),
    decreases ordered.len(),
{
    lemma_slot_bounds(ordered, entry);
    let at = slot(ordered, entry);
    if ordered.len() > 0 && !reported_after(ordered.first(), entry) {
        let rest = ordered.drop_first();
        assert forall|i: int, j: int| 0 <= i < j < rest.len() implies !reported_after(
            #[trigger] rest[i],
            #[trigger] rest[j],
        ) by {
            assert(rest[i] == ordered[i + 1]);
            assert(rest[j] == ordered[j + 1]);
        }
        lemma_place_keeps_order(rest, entry);
        lemma_slot_bounds(rest, entry);
        assert forall|i: int| 0 <= i < at implies !reported_after(#[trigger] ordered[i], entry) by {
            if i > 0 {
                assert(ordered[i] == rest[i - 1]);
            }
        }
        if at < ordered.len() {
            assert(ordered[at] == rest[at - 1]);
        }
    }
    let placed = ordered.insert(at, entry);
    assert forall|i: int, j: int| 0 <= i < j < placed.len() implies !reported_after(
        #[trigger] placed[i],
        #[trigger] placed[j],
    ) by {
        if j == at {
            assert(placed[i] == ordered[i]);
        } else if i == at {
            assert(placed[j] == ordered[j - 1]);
            if reported_after(entry, ordered[j - 1]) {
                if j - 1 > at {
                    assert(!reported_after(ordered[at], ordered[j - 1]));
                }
                lemma_reported_after_chains(entry, ordered[at], ordered[j - 1]);
                let x = bytes_of(entry.1.name());
                let y = bytes_of(ordered[j - 1].1.name());
                if entry.0 == ordered[j - 1].0 {
                    lemma_lex_asymmetric(y, x);
                }
            }
        } else {
            let before = if i < at {
                i
            } else {
                i - 1
            };
            let after = if j < at {
                j
            } else {
                j - 1
            };
            assert(placed[i] == ordered[before]);
            assert(placed[j] == ordered[after]);
        }
    }
}

/// The report order puts the verdicts in order and neither drops nor adds
/// one: the libraries that the executable needs come first, and among equals
/// the names ascend.
pub proof fn lemma_report_order_sorts(entries: Seq<(bool, Verdict)>)
    ensures
        in_report_order(report_order(entries)),
        report_order(entries).to_multiset() == entries.to_multiset(),
        report_order(entries).len() == entries.len(),
    decreases entries.len(),
{
    if entries.len() == 0 {
        assert(entries =~= Seq::<(bool, Verdict)>::empty());
    } else {
        let before = report_order(entries.drop_last());
        lemma_report_order_sorts(entries.drop_last());
        lemma_slot_bounds(before, entries.last());
        lemma_place_keeps_order(before, entries.last());
        vstd::seq_lib::to_multiset_insert(before, slot(before, entries.last()), entries.last());
        vstd::seq_lib::to_multiset_build(entries.drop_last(), entries.last());
        assert(entries.drop_last().push(entries.last()) =~= entries);
        assert(report_order(entries).to_multiset() == before.to_multiset().insert(entries.last()));
        assert(entries.to_multiset() == entries.drop_last().to_multiset().insert(entries.last()));
    }
}

} // verus!
