//! What a package holds: its application and its services, each with its
//! executable and the libraries bundled with it.

use vstd::prelude::*;
use crate::binary::{BinaryInfo, BinaryModel};
use crate::library::{LibraryInfo, LibraryModel};
use crate::text::text_equal;

verus! {

/// The package's own description: which application and which services it
/// holds.
#[derive(Debug, Clone)]
pub struct PackageInfo {
    /// The id of the application.
    pub app: String,
    /// The ids of the services.
    pub services: Vec<String>,
}

/// The description of an application.
#[derive(Debug, Clone)]
pub struct AppInfo {
    pub id: String,
    pub version: String,
    /// The application's type; `native` for one with an executable.
    pub kind: String,
    pub title: String,
    pub app_description: Option<String>,
    /// The path of the main executable, relative to the application.
    pub main: String,
}

/// The description of a service.
#[derive(Debug, Clone)]
pub struct ServiceInfo {
    pub id: String,
    /// The engine that runs the service; `native` for one with an executable.
    pub engine: Option<String>,
    /// The path of the executable, relative to the service.
    pub executable: Option<String>,
}

/// What a component is, with the description of its kind.
#[derive(Debug, Clone)]
pub enum ComponentInfo {
    App(AppInfo),
    Service(ServiceInfo),
}

/// An application or a service: its description, its executable where it is
/// native, and the libraries bundled with it.
#[derive(Debug)]
pub struct Component {
    pub id: String,
    pub info: ComponentInfo,
    /// The executable; absent for a component that is not native.
    pub exe: Option<BinaryInfo>,
    /// The bundled libraries, each with its provenance and aliases.
    pub libs: Vec<LibraryInfo>,
}

/// A package: an application and its services.
#[derive(Debug)]
pub struct Package {
    pub id: String,
    pub installed_size: Option<u64>,
    pub app: Component,
    pub services: Vec<Component>,
}

/// The mathematical content of a [`Component`], whatever its description.
pub struct ComponentModel {
    pub id: Seq<char>,
    pub exe: Option<BinaryModel>,
    pub libs: Seq<LibraryModel>,
}

/// The contents of a list of libraries.
pub open spec fn libraries_of(libs: Seq<LibraryInfo>) -> Seq<LibraryModel> {
    libs.map_values(|library: LibraryInfo| library@)
}

impl View for Component {
    type V = ComponentModel;

    open spec fn view(&self) -> ComponentModel {
        ComponentModel {
            id: self.id@,
            exe: match self.exe {
                Some(binary) => Some(binary@),
                None => None,
            },
            libs: libraries_of(self.libs@),
        }
    }
}

/// The first of the libraries that answers to a name.
pub open spec fn first_named(libs: Seq<LibraryModel>, name: Seq<char>) -> Option<LibraryModel>
    decreases libs.len(),
{
    if libs.len() == 0 {
        None
    } else if libs.first().has_name(name) {
        Some(libs.first())
    } else {
        first_named(libs.drop_first(), name)
    }
}

/// Whether a library answers to one of the names.
pub open spec fn answers_to_one(library: LibraryModel, names: Seq<Seq<char>>) -> bool {
    exists|i: int| 0 <= i < names.len() && library.has_name(#[trigger] names[i])
}

impl ComponentModel {
    /// The bundled library that answers to a name: the first that does.
    pub open spec fn find_lib(self, name: Seq<char>) -> Option<LibraryModel> {
        first_named(self.libs, name)
    }

    /// Whether the executable needs a library: the library answers to one of
    /// the names that the executable needs.
    pub open spec fn is_required(self, library: LibraryModel) -> bool {
        match self.exe {
            Some(binary) => answers_to_one(library, binary.needed),
            None => false,
        }
    }
}

/// The first library that answers to a name is one of the libraries, and none
/// before it answers to the name.
pub proof fn lemma_first_named(libs: Seq<LibraryModel>, name: Seq<char>)
    ensures
        match first_named(libs, name) {
            Some(library) => exists|at: int|
                0 <= at < libs.len() && libs[at] == library && library.has_name(name) && forall|
                    i: int,
                | 0 <= i < at ==> !(#[trigger] libs[i]).has_name(name),
            None => forall|i: int| 0 <= i < libs.len() ==> !(#[trigger] libs[i]).has_name(name),
        },
    decreases libs.len(),
{
    if libs.len() == 0 {
    } else if libs.first().has_name(name) {
        assert(libs[0] == libs.first());
    } else {
        let rest = libs.drop_first();
        lemma_first_named(rest, name);
        match first_named(rest, name) {
            Some(library) => {
                let at = choose|at: int|
                    0 <= at < rest.len() && rest[at] == library && library.has_name(name) && forall|
                        i: int,
                    | 0 <= i < at ==> !(#[trigger] rest[i]).has_name(name);
                assert forall|i: int| 0 <= i < at + 1 implies !(#[trigger] libs[i]).has_name(
                    name,
                ) by {
                    if i > 0 {
                        assert(libs[i] == rest[i - 1]);
                    }
                }
                assert(libs[at + 1] == library);
            },
            None => {
                assert forall|i: int| 0 <= i < libs.len() implies !(#[trigger] libs[i]).has_name(
                    name,
                ) by {
                    if i > 0 {
                        assert(libs[i] == rest[i - 1]);
                    }
                }
            },
        }
    }
}

impl AppInfo {
    /// Whether the application is native: its type says so.
    pub open spec fn native(self) -> bool {
        self.kind@ == "native"@
    }

    /// Whether the application is native: its type says so.
    pub fn is_native(&self) -> (native: bool)
        ensures
            native == self.native(),
    {
        text_equal(self.kind.as_str(), "native")
    }
}

impl ServiceInfo {
    /// Whether the service is native: it names an executable, and its engine
    /// says so.
    pub open spec fn native(self) -> bool {
        self.executable is Some && match self.engine {
            Some(engine) => engine@ == "native"@,
            None => false,
        }
    }

    /// Whether the service is native: it names an executable, and its engine
    /// says so.
    pub fn is_native(&self) -> (native: bool)
        ensures
            native == self.native(),
    {
        match (&self.engine, &self.executable) {
            (Some(engine), Some(_)) => text_equal(engine.as_str(), "native"),
            _ => false,
        }
    }
}

impl ComponentInfo {
    /// Whether the component is native, and so has an executable to verify.
    pub open spec fn native(self) -> bool {
        match self {
            ComponentInfo::App(info) => info.native(),
            ComponentInfo::Service(info) => info.native(),
        }
    }

    /// Whether the component is native, and so has an executable to verify.
    pub fn is_native(&self) -> (native: bool)
        ensures
            native == self.native(),
    {
        match self {
            ComponentInfo::App(info) => info.is_native(),
            ComponentInfo::Service(info) => info.is_native(),
        }
    }
}

impl Component {
    /// The bundled library that answers to `name`: the first that does.
    pub fn find_lib(&self, name: &str) -> (found: Option<&LibraryInfo>)
        ensures
            match found {
                Some(library) => self@.find_lib(name@) == Some(library@),
                None => self@.find_lib(name@) is None,
            },
    {
        let ghost all = libraries_of(self.libs@);
        let mut at: usize = 0;
        assert(all.subrange(0, all.len() as int) =~= all);
        while at < self.libs.len()
            invariant
                at <= self.libs.len(),
                all == libraries_of(self.libs@),
                first_named(all, name@) == first_named(
                    all.subrange(at as int, all.len() as int),
                    name@,
                ),
            decreases self.libs.len() - at,
        {
            let ghost rest = all.subrange(at as int, all.len() as int);
            assert(rest.first() == self.libs@[at as int]@);
            assert(rest.drop_first() =~= all.subrange(at + 1, all.len() as int));
            if self.libs[at].has_name(name) {
                return Some(&self.libs[at]);
            }
            at += 1;
        }
        None
    }

    /// Whether the executable needs `lib`: the library answers to one of the
    /// names that the executable needs. A component without an executable needs
    /// none.
    pub fn is_required(&self, lib: &LibraryInfo) -> (required: bool)
        ensures
            required == self@.is_required(lib@),
    {
        match &self.exe {
            Some(binary) => {
                let mut at: usize = 0;
                while at < binary.needed.len()
                    invariant
                        at <= binary.needed.len(),
                        self.exe == Some(*binary),
                        forall|i: int|
                            0 <= i < at ==> !lib@.has_name(#[trigger] binary@.needed[i]),
                    decreases binary.needed.len() - at,
                {
                    assert(binary@.needed[at as int] == binary.needed@[at as int]@);
                    if lib.has_name(binary.needed[at].as_str()) {
                        assert(self@.exe == Some(binary@));
                        assert(0 <= at < binary@.needed.len() && lib@.has_name(
                            binary@.needed[at as int],
                        ));
                        return true;
                    }
                    at += 1;
                }
                assert(self@.exe == Some(binary@));
                false
            },
            None => false,
        }
    }
}

/// A library that answers to a name that the executable needs is required.
pub proof fn lemma_needed_name_is_required(
    component: ComponentModel,
    library: LibraryModel,
    at: int,
)
    requires
        component.exe is Some,
        0 <= at < component.exe->0.needed.len(),
        library.has_name(component.exe->0.needed[at]),
    ensures
        component.is_required(library),
{
}

} // verus!
