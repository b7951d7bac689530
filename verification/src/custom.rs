//! The user's own pets and where they are kept.
//!
//! They are stored as UTF-8 JSON of their own (never written back into the
//! upstream tables) under [`FILE_NAME`]: `{"version": 1, "pets": [...]}`,
//! each pet a [`PetRow`]. Reading and writing the text is the platform's
//! business, behind [`Store`]; turning rows into pets and back, and
//! refusing a file of a newer version, happens here.
use vstd::prelude::*;
use crate::petdata::{Pet, RACE_UNKNOWN};

verus! {

/// Key (file name or storage key) of the stored pets.
pub const FILE_NAME: &'static str = "custom_pets.json";

/// Version of the stored format.
pub const VERSION: u32 = 1;

/// Ability rate of a row that gives none, hundredths.
pub const ROW_DEFAULT_BPRATE: i32 = 20;

/// One stored pet: only what the user entered.
#[derive(Debug, Clone, PartialEq, Eq)]
pub struct PetRow {
    pub name: String,
    pub race: u8,
    /// `[HP, ATK, DEF, AGI, MP]`.
    pub grow: [i32; 5],
    /// Hundredths.
    pub bprate: i32,
    pub id: Option<i32>,
    pub skills: Option<i32>,
    /// Earth, water, fire, wind, adding up to 100.
    pub element: Option<[i32; 4]>,
}

/// `r` stores what the user entered for `p`.
pub open spec fn stores(r: PetRow, p: Pet) -> bool {
    &&& r.name@ == p.name@
    &&& r.race == p.race
    &&& r.grow == p.grow
    &&& r.bprate == p.bprate
    &&& r.id == p.id
    &&& r.skills == p.skills
    &&& r.element == p.element
}

/// `p` is the user's pet read back from `r`, an unknown race code clamped
/// to [`RACE_UNKNOWN`].
pub open spec fn read_back(p: Pet, r: PetRow) -> bool {
    &&& p.name@ == r.name@
    &&& p.race == if r.race < RACE_UNKNOWN { r.race } else { RACE_UNKNOWN }
    &&& p.grow == r.grow
    &&& p.bprate == r.bprate
    &&& p.id == r.id
    &&& p.skills == r.skills
    &&& p.element == r.element
    &&& p.custom
}

/// Storing a pet and reading it back gives the same pet, marked as the
/// user's (a race code past [`RACE_UNKNOWN`] comes back as it).
pub proof fn lemma_store_round_trip(p: Pet, r: PetRow, q: Pet)
    requires
        stores(r, p),
        read_back(q, r),
    ensures
        q.name@ == p.name@,
        q.race == if p.race <= RACE_UNKNOWN { p.race } else { RACE_UNKNOWN },
        q.grow == p.grow,
        q.bprate == p.bprate,
        q.id == p.id,
        q.skills == p.skills,
        q.element == p.element,
        q.custom,
{
}

impl PetRow {
    /// The row of a pet.
    pub fn of(p: &Pet) -> (r: Self)
        ensures
            stores(r, *p),
    {
        PetRow {
            name: p.name.clone(),
            race: p.race,
            grow: p.grow,
            bprate: p.bprate,
            id: p.id,
            skills: p.skills,
            element: p.element,
        }
    }

    /// The pet of a row: always the user's, an unknown race code clamped
    /// to [`RACE_UNKNOWN`].
    pub fn into_pet(self) -> (p: Pet)
        ensures
            read_back(p, self),
    {
        Pet {
            id: self.id,
            name: self.name,
            race: if self.race < RACE_UNKNOWN { self.race } else { RACE_UNKNOWN },
            grow: self.grow,
            bprate: self.bprate,
            skills: self.skills,
            element: self.element,
            custom: true,
        }
    }
}

/// Why stored pets could not be taken.
#[derive(Debug, Clone, Copy, PartialEq, Eq)]
pub enum StoreError {
    /// Written by a later version of the format.
    NewerVersion(u32),
}

/// The pets of a stored file of format `version`; a later version is
/// refused.
pub fn rows_to_pets(version: u32, rows: Vec<PetRow>) -> (r: Result<Vec<Pet>, StoreError>)
    ensures
        version > VERSION ==> r == Err::<Vec<Pet>, StoreError>(StoreError::NewerVersion(version)),
        version <= VERSION ==> (r matches Ok(pets) && pets@.len() == rows@.len()
            && forall|i: int| 0 <= i < rows@.len() ==> read_back(#[trigger] pets@[i], rows@[i])),
{
    if version > VERSION {
        return Err(StoreError::NewerVersion(version));
    }
    let mut pets: Vec<Pet> = Vec::new();
    let mut i: usize = 0;
    while i < rows.len()
        invariant
            0 <= i <= rows@.len(),
            pets@.len() == i,
            forall|j: int| 0 <= j < i ==> read_back(#[trigger] pets@[j], rows@[j]),
        decreases rows@.len() - i,
    {
        let row = PetRow {
            name: rows[i].name.clone(),
            race: rows[i].race,
            grow: rows[i].grow,
            bprate: rows[i].bprate,
            id: rows[i].id,
            skills: rows[i].skills,
            element: rows[i].element,
        };
        pets.push(row.into_pet());
        i = i + 1;
    }
    Ok(pets)
}

/// The rows to store for these pets.
pub fn pets_to_rows(pets: &[Pet]) -> (rows: Vec<PetRow>)
    ensures
        rows@.len() == pets@.len(),
        forall|i: int| 0 <= i < pets@.len() ==> stores(#[trigger] rows@[i], pets@[i]),
{
    let mut rows: Vec<PetRow> = Vec::new();
    let mut i: usize = 0;
    while i < pets.len()
        invariant
            0 <= i <= pets@.len(),
            rows@.len() == i,
            forall|j: int| 0 <= j < i ==> stores(#[trigger] rows@[j], pets@[j]),
        decreases pets@.len() - i,
    {
        rows.push(PetRow::of(&pets[i]));
        i = i + 1;
    }
    rows
}

/// Where the user's pets are kept; the platform implements it.
pub trait Store {
    /// The stored text; `None` when nothing was ever stored (no error).
    fn read(&self) -> Result<Option<String>, String>;

    /// Overwrite the stored text.
    fn write(&self, text: &str) -> Result<(), String>;

    /// Where this is, for display.
    fn location(&self) -> String;
}

/// Keeps nothing: reading gives nothing, writing always succeeds. The
/// fallback when no storage is available.
#[derive(Debug, Clone, Copy, PartialEq, Eq, Default)]
pub struct NullStore;

impl Store for NullStore {
    fn read(&self) -> (r: Result<Option<String>, String>)
        ensures
            r matches Ok(v) && v is None,
    {
        Ok(None)
    }

    fn write(&self, text: &str) -> (r: Result<(), String>)
        ensures
            r is Ok,
    {
        Ok(())
    }

    fn location(&self) -> (s: String)
        ensures
            s@ == "（這次不會存起來）"@,
    {
        String::from_str("（這次不會存起來）")
    }
}

} // verus!
