//! The library catalog of one firmware release: for each library file name the
//! record of what the library offers, as computed from the firmware beforehand.

use vstd::hash_map::StringHashMap;
use vstd::prelude::*;
use crate::library::{LibraryInfo, LibraryModel};
use crate::lookup::{lemma_needed_by_all, needed_by_all, needs, LibraryLookup};
use crate::text::text_equal;

verus! {

/// The number of a release of the system.
#[derive(Debug, Clone, Copy, PartialEq, Eq, Structural)]
pub struct Release {
    pub major: u64,
    pub minor: u64,
    pub patch: u64,
}

/// What is known of a firmware: its version, the id under which it is
/// distributed, and the release of the system that it holds.
#[derive(Debug, Clone)]
pub struct FirmwareInfo {
    pub version: String,
    pub ota_id: String,
    pub release: Release,
}

/// The name that a line of releases goes by.
#[derive(Debug, Clone, Copy, PartialEq, Eq, Structural)]
pub enum ReleaseCodename {
    Afro,
    Beehive,
    Dreadlocks,
    Dreadlocks2,
    Goldilocks,
    Goldilocks2,
    Jhericurl,
    Kisscurl,
    Mullet,
    Number1,
    Ombre,
}

/// The codename of a release, for the major releases that have one.
pub open spec fn codename_of(release: Release) -> Option<ReleaseCodename> {
    if release.major == 1 {
        Some(ReleaseCodename::Afro)
    } else if release.major == 2 {
        Some(ReleaseCodename::Beehive)
    } else if release.major == 3 {
        Some(
            if release.minor >= 5 {
                ReleaseCodename::Dreadlocks
            } else {
                ReleaseCodename::Dreadlocks2
            },
        )
    } else if release.major == 4 {
        Some(
            if release.minor >= 5 {
                ReleaseCodename::Goldilocks
            } else {
                ReleaseCodename::Goldilocks2
            },
        )
    } else if release.major == 5 {
        Some(ReleaseCodename::Jhericurl)
    } else if release.major == 6 {
        Some(ReleaseCodename::Kisscurl)
    } else if release.major == 7 {
        Some(ReleaseCodename::Mullet)
    } else if release.major == 8 {
        Some(ReleaseCodename::Number1)
    } else {
        None
    }
}

impl FirmwareInfo {
    /// The codename of the firmware's release, for the major releases that have
    /// one.
    pub fn codename(&self) -> (name: Option<ReleaseCodename>)
        ensures
            name == codename_of(self.release),
    {
        match self.release.major {
            1 => Some(ReleaseCodename::Afro),
            2 => Some(ReleaseCodename::Beehive),
            3 => Some(
                if self.release.minor >= 5 {
                    ReleaseCodename::Dreadlocks
                } else {
                    ReleaseCodename::Dreadlocks2
                },
            ),
            4 => Some(
                if self.release.minor >= 5 {
                    ReleaseCodename::Goldilocks
                } else {
                    ReleaseCodename::Goldilocks2
                },
            ),
            5 => Some(ReleaseCodename::Jhericurl),
            6 => Some(ReleaseCodename::Kisscurl),
            7 => Some(ReleaseCodename::Mullet),
            8 => Some(ReleaseCodename::Number1),
            _ => None,
        }
    }
}

/// The library catalog of one firmware release.
///
/// The catalog lists, for a library file name, the detail that describes the
/// library; several names may share one detail. A name resolves where it is
/// listed and its detail has a record.
pub struct Firmware {
    info: FirmwareInfo,
    index: StringHashMap<String>,
    positions: StringHashMap<usize>,
    records: Vec<(String, LibraryInfo)>,
}

impl Firmware {
    /// What is known of the firmware.
    pub closed spec fn description(&self) -> FirmwareInfo {
        self.info
    }

    /// What is known of the firmware.
    pub fn info(&self) -> (info: &FirmwareInfo)
        ensures
            *info == self.description(),
    {
        &self.info
    }

    /// The detail that each listed name refers to.
    pub closed spec fn listing(&self) -> Map<Seq<char>, Seq<char>> {
        Map::new(
            |name: Seq<char>| self.index@.contains_key(name),
            |name: Seq<char>| self.index@[name]@,
        )
    }

    /// The record of each detail that has one.
    pub closed spec fn details(&self) -> Map<Seq<char>, LibraryModel> {
        Map::new(
            |detail: Seq<char>| self.holds(detail),
            |detail: Seq<char>| self.records@[self.positions@[detail] as int].1@,
        )
    }

    /// Whether a detail has its record at the position kept for it.
    closed spec fn holds(&self, detail: Seq<char>) -> bool {
        &&& self.positions@.contains_key(detail)
        &&& self.positions@[detail] < self.records@.len()
        &&& self.records@[self.positions@[detail] as int].0@ == detail
    }

    /// The records of the catalog.
    closed spec fn libraries(&self) -> Seq<LibraryModel> {
        self.records@.map_values(|record: (String, LibraryInfo)| record.1@)
    }

    /// The library that a name resolves to in a catalog with this listing and
    /// these records.
    pub open spec fn resolve(
        listing: Map<Seq<char>, Seq<char>>,
        details: Map<Seq<char>, LibraryModel>,
        name: Seq<char>,
    ) -> Option<LibraryModel> {
        if listing.contains_key(name) && details.contains_key(listing[name]) {
            Some(details[listing[name]])
        } else {
            None
        }
    }

    /// A catalog for the firmware, with nothing listed yet.
    pub fn new(info: FirmwareInfo) -> (firmware: Firmware)
        ensures
            firmware.description() == info,
            firmware.listing() == Map::<Seq<char>, Seq<char>>::empty(),
            firmware.details() == Map::<Seq<char>, LibraryModel>::empty(),
    {
        let firmware = Firmware {
            info,
            index: StringHashMap::new(),
            positions: StringHashMap::new(),
            records: Vec::new(),
        };
        assert(firmware.listing() =~= Map::<Seq<char>, Seq<char>>::empty());
        assert(firmware.details() =~= Map::<Seq<char>, LibraryModel>::empty());
        firmware
    }

    /// Lists a library file name with the detail that describes it. A name
    /// listed before now refers to this detail.
    pub fn add_entry(&mut self, name: String, detail: String)
        ensures
            final(self).description() == old(self).description(),
            final(self).listing() == old(self).listing().insert(name@, detail@),
            final(self).details() == old(self).details(),
    {
        let ghost before = self.listing();
        self.index.insert(name, detail);
        assert(self.listing() =~= before.insert(name@, detail@));
    }

    /// Gives a detail its record. A record given to the detail before is
    /// replaced.
    pub fn add_record(&mut self, detail: String, library: LibraryInfo)
        ensures
            final(self).description() == old(self).description(),
            final(self).listing() == old(self).listing(),
            final(self).details() == old(self).details().insert(detail@, library@),
    {
        let ghost before = self.details();
        let ghost records = self.records@;
        let position = self.records.len();
        self.records.push((detail.clone(), library));
        self.positions.insert(detail, position);
        assert(self.details() =~= before.insert(detail@, library@)) by {
            assert forall|other: Seq<char>| other != detail@ implies (self.holds(other) <==> old(
                self,
            ).holds(other)) by {
                if self.positions@.contains_key(other) && self.positions@[other] < records.len() {
                    assert(self.records@[self.positions@[other] as int]
                        == records[self.positions@[other] as int]);
                }
            }
            assert(self.holds(detail@));
            assert forall|other: Seq<char>|
                before.contains_key(other) && other != detail@ implies self.details()[other]
                == before[other] by {
                assert(self.records@[self.positions@[other] as int]
                    == records[self.positions@[other] as int]);
            }
        }
    }

    /// Whether a detail has a record.
    pub fn has_record(&self, detail: &str) -> (present: bool)
        ensures
            present == self.details().contains_key(detail@),
    {
        match self.positions.get(detail) {
            Some(position) => *position < self.records.len() && text_equal(
                self.records[*position].0.as_str(),
                detail,
            ),
            None => false,
        }
    }
}

impl LibraryLookup for Firmware {
    open spec fn lookup(&self, name: Seq<char>) -> Option<LibraryModel> {
        Firmware::resolve(self.listing(), self.details(), name)
    }

    closed spec fn horizon(&self) -> Set<Seq<char>> {
        needed_by_all(self.libraries())
    }

    proof fn horizon_bounds(&self) {
        let all = self.libraries();
        lemma_needed_by_all(all);
        assert forall|name: Seq<char>, i: int|
            0 <= i < needs(self.lookup(name)).len() implies self.horizon().contains(
            #[trigger] needs(self.lookup(name))[i],
        ) by {
            let detail = self.listing()[name];
            let position = self.positions@[detail] as int;
            assert(all[position] == self.records@[position].1@);
            assert(needed_by_all(all).contains(all[position].needed[i]));
        }
    }

    /// Looks a library up under a file name: the record of the detail that the
    /// name is listed with.
    fn find_library(&self, name: &str) -> (found: Option<LibraryInfo>) {
        match self.index.get(name) {
            Some(detail) => match self.positions.get(detail.as_str()) {
                Some(position) => {
                    if *position < self.records.len() && text_equal(
                        self.records[*position].0.as_str(),
                        detail.as_str(),
                    ) {
                        Some(self.records[*position].1.clone())
                    } else {
                        None
                    }
                },
                None => None,
            },
            None => None,
        }
    }
}

} // verus!
