//! The pet catalog: pets with their growth tiers, race codes, and the
//! operations that look pets up and lay user entries over the upstream table.
use vstd::prelude::*;
use crate::ids::IdIndex;
use crate::numeral::{parse_rate, spec_parse_rate};
use crate::text::{chars_of, trim, spec_trim, split, spec_split, lines, spec_lines, deep, parse_i32, spec_parse_i32, string_of, decimal, spec_decimal, words, spec_words, find_char, slice_of, starts_with, first_index};

verus! {

/// Growth axes per pet, as in the engine.
pub const AXES: usize = 5;

/// Race names indexed by code; the last is the unknown race.
pub const RACE_NAMES: [&'static str; 10] = ["野獸系", "不死系", "飛行系", "昆蟲系", "植物系", "特殊系", "金屬系", "龍系", "人形系", "其他"];

/// Largest game race code (`0..=8`); `RACE_UNKNOWN` is no game race.
pub const MAX_RACE: u8 = 8;

/// Race unknown.
pub const RACE_UNKNOWN: u8 = 9;

/// Largest growth tier, as in the engine.
pub const MAX_TIER: i32 = 110;

/// Order of the race tabs in the catalog window.
pub const RACE_TAB_ORDER: [u8; 10] = [0, 1, 5, 2, 4, 8, 3, 7, 6, 9];

/// Most skill slots a pet has; larger numbers in that column are something else.
pub const MAX_SKILL_SLOTS: i32 = 20;

/// Ability rate of every catalog pet, in hundredths (0.20).
pub const DEFAULT_BPRATE: i32 = 20;

/// Race names by code.
pub open spec fn spec_race_name(r: int) -> Seq<char> {
    if r == 0 {
        "野獸系"@
    } else if r == 1 {
        "不死系"@
    } else if r == 2 {
        "飛行系"@
    } else if r == 3 {
        "昆蟲系"@
    } else if r == 4 {
        "植物系"@
    } else if r == 5 {
        "特殊系"@
    } else if r == 6 {
        "金屬系"@
    } else if r == 7 {
        "龍系"@
    } else if r == 8 {
        "人形系"@
    } else {
        "其他"@
    }
}

/// Name of a race code; codes past the table are "其他".
pub fn race_name(race: u8) -> (s: &'static str)
    ensures
        s@ == spec_race_name(race as int),
{
    if race == 0 {
        "野獸系"
    } else if race == 1 {
        "不死系"
    } else if race == 2 {
        "飛行系"
    } else if race == 3 {
        "昆蟲系"
    } else if race == 4 {
        "植物系"
    } else if race == 5 {
        "特殊系"
    } else if race == 6 {
        "金屬系"
    } else if race == 7 {
        "龍系"
    } else if race == 8 {
        "人形系"
    } else {
        "其他"
    }
}

/// Code of the first race whose name is `s` with its white space trimmed; `RACE_UNKNOWN` when none is.
pub open spec fn spec_race_code(s: Seq<char>) -> int {
    let t = spec_trim(s);
    if t == spec_race_name(0) {
        0
    } else if t == spec_race_name(1) {
        1
    } else if t == spec_race_name(2) {
        2
    } else if t == spec_race_name(3) {
        3
    } else if t == spec_race_name(4) {
        4
    } else if t == spec_race_name(5) {
        5
    } else if t == spec_race_name(6) {
        6
    } else if t == spec_race_name(7) {
        7
    } else if t == spec_race_name(8) {
        8
    } else {
        9
    }
}

/// Each race code `0..=RACE_UNKNOWN` is read back from its own name.
pub proof fn lemma_race_name_reads_back(c: int)
    requires
        0 <= c <= RACE_UNKNOWN,
    ensures
        spec_race_code(spec_race_name(c)) == c,
{
    reveal_strlit("野獸系");
    reveal_strlit("不死系");
    reveal_strlit("飛行系");
    reveal_strlit("昆蟲系");
    reveal_strlit("植物系");
    reveal_strlit("特殊系");
    reveal_strlit("金屬系");
    reveal_strlit("龍系");
    reveal_strlit("人形系");
    reveal_strlit("其他");
    let n = spec_race_name(c);
    assert(n.len() >= 2 && !crate::text::is_ws(n[0]) && !crate::text::is_ws(n[n.len() - 1]));
    crate::text::lemma_trim_keeps_trimmed(n);
    assert forall|k: int| 0 <= k < c implies #[trigger] spec_race_name(k) != n by {
        assert(spec_race_name(k)[0] != n[0]);
    }
}

/// A name reads as a code in `0..=RACE_UNKNOWN`, and a code other than
/// `RACE_UNKNOWN` is read only from that race's own name, white space
/// around it aside.
pub proof fn lemma_race_code_names_a_race(name: Seq<char>)
    ensures
        0 <= spec_race_code(name) <= RACE_UNKNOWN,
        spec_race_code(name) != RACE_UNKNOWN ==> spec_race_name(spec_race_code(name)) == spec_trim(name),
{
}

/// Whether two character sequences are equal.
pub fn chars_eq(a: &[char], b: &[char]) -> (r: bool)
    ensures
        r == (a@ == b@),
{
    if a.len() != b.len() {
        return false;
    }
    let mut i: usize = 0;
    while i < a.len()
        invariant
            0 <= i <= a@.len(),
            a@.len() == b@.len(),
            forall|k: int| 0 <= k < i ==> a@[k] == b@[k],
        decreases a@.len() - i,
    {
        if a[i] != b[i] {
            return false;
        }
        i = i + 1;
    }
    assert(a@ =~= b@);
    true
}

/// The race code a name stands for (white space around it ignored);
/// `RACE_UNKNOWN` when no race has that name.
pub fn race_code(name: &str) -> (r: u8)
    ensures
        r == spec_race_code(name@),
{
    let raw = chars_of(name);
    race_code_of(&raw)
}

fn race_code_of(raw: &[char]) -> (r: u8)
    ensures
        r == spec_race_code(raw@),
{
    let t = trim(raw);
    let mut code: u8 = 0;
    while code < 9
        invariant
            0 <= code <= 9,
            t@ == spec_trim(raw@),
            forall|k: int| 0 <= k < code ==> t@ != #[trigger] spec_race_name(k),
        decreases 9 - code,
    {
        let n = chars_of(race_name(code));
        if chars_eq(&t, &n) {
            return code;
        }
        code = code + 1;
    }
    RACE_UNKNOWN
}

/// `Some(v)` for a plausible skill-slot count (`1..=MAX_SKILL_SLOTS`), else `None`.
pub fn skill_slots(v: i32) -> (r: Option<i32>)
    ensures
        r == (if 1 <= v <= MAX_SKILL_SLOTS { Some(v) } else { None::<i32> }),
{
    if 1 <= v && v <= MAX_SKILL_SLOTS { Some(v) } else { None }
}

/// One catalog pet.
#[derive(Debug, Clone, PartialEq, Eq)]
pub struct Pet {
    /// Game pet number; part of the upstream data has none.
    pub id: Option<i32>,
    pub name: String,
    pub race: u8,
    /// Growth tiers `[HP, ATK, DEF, AGI, MP]`.
    pub grow: [i32; 5],
    /// Ability rate in hundredths (20 = 0.20).
    pub bprate: i32,
    /// Skill slots, where known.
    pub skills: Option<i32>,
    /// Earth, water, fire, wind, adding up to 100, where known.
    pub element: Option<[i32; 4]>,
    /// Entered by the user: may be edited and deleted.
    pub custom: bool,
}

/// Why `Pet::validate` refuses a pet.
#[derive(Debug, Clone, Copy, PartialEq, Eq)]
pub enum PetError {
    EmptyName,
    /// A tier outside `0..=MAX_TIER`.
    TierOutOfRange { axis: usize, value: i32 },
    /// A race code past `RACE_UNKNOWN`.
    BadRace(u8),
    /// An ability rate that is not positive.
    BadRate(i32),
    /// Elements given that do not add up to 100.
    ElementNotHundred(i32),
}

/// First axis whose tier lies outside `0..=MAX_TIER`, if any.
pub open spec fn first_bad_tier(grow: [i32; 5]) -> Option<int> {
    if !(0 <= grow[0] <= MAX_TIER) {
        Some(0)
    } else if !(0 <= grow[1] <= MAX_TIER) {
        Some(1)
    } else if !(0 <= grow[2] <= MAX_TIER) {
        Some(2)
    } else if !(0 <= grow[3] <= MAX_TIER) {
        Some(3)
    } else if !(0 <= grow[4] <= MAX_TIER) {
        Some(4)
    } else {
        None
    }
}

/// What `Pet::validate` answers: the first check that fails, in the order
/// name, tiers, race, rate, elements.
pub open spec fn spec_validate(p: Pet) -> Result<(), PetError> {
    if spec_trim(p.name@).len() == 0 {
        Err(PetError::EmptyName)
    } else if first_bad_tier(p.grow) is Some {
        let a = first_bad_tier(p.grow)->0;
        Err(PetError::TierOutOfRange { axis: a as usize, value: p.grow[a] })
    } else if p.race > RACE_UNKNOWN {
        Err(PetError::BadRace(p.race))
    } else if p.bprate <= 0 {
        Err(PetError::BadRate(p.bprate))
    } else {
        match p.element {
            Some(e) => if e[0] + e[1] + e[2] + e[3] != 100 {
                Err(PetError::ElementNotHundred((e[0] + e[1] + e[2] + e[3]) as i32))
            } else {
                Ok(())
            },
            None => Ok(()),
        }
    }
}

impl Pet {
    /// The checks a pet passes before it goes into the catalog.
    #[verifier::loop_isolation(false)]
    pub fn validate(&self) -> (r: Result<(), PetError>)
        ensures
            r == spec_validate(*self),
    {
        let name = chars_of(self.name.as_str());
        let t = trim(&name);
        if t.len() == 0 {
            return Err(PetError::EmptyName);
        }
        let mut axis: usize = 0;
        while axis < 5
            invariant
                0 <= axis <= 5,
                forall|k: int| 0 <= k < axis ==> 0 <= #[trigger] self.grow[k] <= MAX_TIER,
            decreases 5 - axis,
        {
            let g = self.grow[axis];
            if !(0 <= g && g <= MAX_TIER) {
                assert(first_bad_tier(self.grow) == Some(axis as int)) by {
                    if axis == 0 {} else if axis == 1 {} else if axis == 2 {} else if axis == 3 {} else {}
                }
                return Err(PetError::TierOutOfRange { axis, value: g });
            }
            axis = axis + 1;
        }
        if self.race > RACE_UNKNOWN {
            return Err(PetError::BadRace(self.race));
        }
        if self.bprate <= 0 {
            return Err(PetError::BadRate(self.bprate));
        }
        match self.element {
            Some(e) => {
                let sum: i64 = e[0] as i64 + e[1] as i64 + e[2] as i64 + e[3] as i64;
                if sum != 100 {
                    return Err(PetError::ElementNotHundred(sum as i32));
                }
                Ok(())
            },
            None => Ok(()),
        }
    }

    /// A field-for-field copy.
    pub fn copy(&self) -> (r: Pet)
        ensures
            r == *self,
    {
        Pet {
            id: self.id,
            name: self.name.clone(),
            race: self.race,
            grow: self.grow,
            bprate: self.bprate,
            skills: self.skills,
            element: self.element,
            custom: self.custom,
        }
    }
}

/// A catalog: its pets and where they came from.
#[derive(Debug, Clone, PartialEq, Eq)]
pub struct Catalog {
    pub pets: Vec<Pet>,
    /// Which table this is, for display.
    pub source: String,
}

/// The pets among the first `n` with race `race`, in order.
pub open spec fn with_race(pets: Seq<Pet>, race: u8, n: int) -> Seq<Pet>
    decreases n,
{
    if n <= 0 {
        Seq::empty()
    } else if pets[n - 1].race == race {
        with_race(pets, race, n - 1).push(pets[n - 1])
    } else {
        with_race(pets, race, n - 1)
    }
}

/// `k` occurs in `s` as a run of consecutive characters.
pub open spec fn contains_run(s: Seq<char>, k: Seq<char>) -> bool {
    exists|i: int| 0 <= i && i + k.len() <= s.len() && #[trigger] s.subrange(i, i + k.len()) == k
}

/// The pets among the first `n` whose name contains `k`, in order.
pub open spec fn with_name_part(pets: Seq<Pet>, k: Seq<char>, n: int) -> Seq<Pet>
    decreases n,
{
    if n <= 0 {
        Seq::empty()
    } else if contains_run(pets[n - 1].name@, k) {
        with_name_part(pets, k, n - 1).push(pets[n - 1])
    } else {
        with_name_part(pets, k, n - 1)
    }
}

/// Index of the first pet named `name` at or after `i`; `None` when there is none.
pub open spec fn find_name_from(pets: Seq<Pet>, name: Seq<char>, i: int) -> Option<int>
    decreases pets.len() - i,
{
    if i < 0 || i >= pets.len() {
        None
    } else if pets[i].name@ == name {
        Some(i)
    } else {
        find_name_from(pets, name, i + 1)
    }
}

/// Index of the first pet numbered `id` at or after `i`; `None` when there is none.
pub open spec fn find_id_from(pets: Seq<Pet>, id: i32, i: int) -> Option<int>
    decreases pets.len() - i,
{
    if i < 0 || i >= pets.len() {
        None
    } else if pets[i].id == Some(id) {
        Some(i)
    } else {
        find_id_from(pets, id, i + 1)
    }
}

/// `s` contains `k` as a run.
pub fn contains_chars(s: &[char], k: &[char]) -> (r: bool)
    ensures
        r == contains_run(s@, k@),
{
    if k.len() > s.len() {
        proof {
            assert forall|i: int| 0 <= i && i + k@.len() <= s@.len() implies #[trigger] s@.subrange(i, i + k@.len()) != k@ by {}
        }
        return false;
    }
    let n: usize = s.len();
    let last: usize = n - k.len();
    let mut i: usize = 0;
    while i <= last
        invariant
            k@.len() <= s@.len(),
            n == s@.len(),
            last == s@.len() - k@.len(),
            0 <= i <= last + 1,
            forall|j: int| 0 <= j < i ==> #[trigger] s@.subrange(j, j + k@.len()) != k@,
        decreases last + 1 - i,
    {
        let mut m: usize = 0;
        while m < k.len() && s[i + m] == k[m]
            invariant
                0 <= m <= k@.len(),
                i <= last,
                n == s@.len(),
                last + k@.len() == n,
                forall|q: int| 0 <= q < m ==> s@[i + q] == k@[q],
            decreases k@.len() - m,
        {
            m = m + 1;
        }
        if m == k.len() {
            assert(s@.subrange(i as int, i + k@.len()) =~= k@);
            return true;
        }
        assert(s@.subrange(i as int, i + k@.len())[m as int] != k@[m as int]);
        i = i + 1;
    }
    false
}

impl Catalog {
    /// The pets of one race, in catalog order.
    pub fn by_race(&self, race: u8) -> (r: Vec<&Pet>)
        ensures
            r@.map_values(|p: &Pet| *p) == with_race(self.pets@, race, self.pets@.len() as int),
    {
        let mut r: Vec<&Pet> = Vec::new();
        let mut i: usize = 0;
        while i < self.pets.len()
            invariant
                0 <= i <= self.pets@.len(),
                r@.map_values(|p: &Pet| *p) == with_race(self.pets@, race, i as int),
            decreases self.pets@.len() - i,
        {
            if self.pets[i].race == race {
                let ghost before = r@.map_values(|p: &Pet| *p);
                r.push(&self.pets[i]);
                assert(r@.map_values(|p: &Pet| *p) =~= before.push(self.pets@[i as int]));
            }
            i = i + 1;
        }
        r
    }

    /// The pets whose name contains `keyword` (white space around it
    /// ignored); none for an empty keyword.
    pub fn search(&self, keyword: &str) -> (r: Vec<&Pet>)
        ensures
            spec_trim(keyword@).len() == 0 ==> r@.len() == 0,
            spec_trim(keyword@).len() > 0 ==> r@.map_values(|p: &Pet| *p)
                == with_name_part(self.pets@, spec_trim(keyword@), self.pets@.len() as int),
    {
        let raw = chars_of(keyword);
        let k = trim(&raw);
        let mut r: Vec<&Pet> = Vec::new();
        if k.len() == 0 {
            return r;
        }
        let mut i: usize = 0;
        while i < self.pets.len()
            invariant
                0 <= i <= self.pets@.len(),
                k@ == spec_trim(keyword@),
                r@.map_values(|p: &Pet| *p) == with_name_part(self.pets@, k@, i as int),
            decreases self.pets@.len() - i,
        {
            let name = chars_of(self.pets[i].name.as_str());
            if contains_chars(&name, &k) {
                let ghost before = r@.map_values(|p: &Pet| *p);
                r.push(&self.pets[i]);
                assert(r@.map_values(|p: &Pet| *p) =~= before.push(self.pets@[i as int]));
            }
            i = i + 1;
        }
        r
    }

    /// The first pet with exactly this name.
    pub fn find_by_name(&self, name: &str) -> (r: Option<&Pet>)
        ensures
            match find_name_from(self.pets@, name@, 0) {
                Some(i) => r == Some(&self.pets@[i]),
                None => r is None,
            },
    {
        let target = name.to_owned();
        let mut i: usize = 0;
        while i < self.pets.len()
            invariant
                0 <= i <= self.pets@.len(),
                target@ == name@,
                find_name_from(self.pets@, name@, 0) == find_name_from(self.pets@, name@, i as int),
            decreases self.pets@.len() - i,
        {
            if self.pets[i].name == target {
                return Some(&self.pets[i]);
            }
            i = i + 1;
        }
        None
    }

    /// The first pet with this number.
    pub fn find_by_id(&self, id: i32) -> (r: Option<&Pet>)
        ensures
            match find_id_from(self.pets@, id, 0) {
                Some(i) => r == Some(&self.pets@[i]),
                None => r is None,
            },
    {
        let mut i: usize = 0;
        while i < self.pets.len()
            invariant
                0 <= i <= self.pets@.len(),
                find_id_from(self.pets@, id, 0) == find_id_from(self.pets@, id, i as int),
            decreases self.pets@.len() - i,
        {
            if self.pets[i].id == Some(id) {
                return Some(&self.pets[i]);
            }
            i = i + 1;
        }
        None
    }
}

/// `p` marked as entered by the user.
pub open spec fn as_custom(p: Pet) -> Pet {
    Pet { custom: true, ..p }
}

/// `p` put over the first pet of the same name, or added at the end.
pub open spec fn placed(pets: Seq<Pet>, p: Pet) -> Seq<Pet> {
    match find_name_from(pets, p.name@, 0) {
        Some(i) => pets.update(i, p),
        None => pets.push(p),
    }
}

/// The first `n` user pets laid over `pets` in turn.
pub open spec fn overlaid(pets: Seq<Pet>, custom: Seq<Pet>, n: int) -> Seq<Pet>
    decreases n,
{
    if n <= 0 {
        pets
    } else {
        placed(overlaid(pets, custom, n - 1), as_custom(custom[n - 1]))
    }
}

/// `p` from a newer upstream table merged in: it replaces the first pet of
/// the same name (keeping that pet's number when `p` has none), or is added.
pub open spec fn merged_one(pets: Seq<Pet>, p: Pet) -> Seq<Pet> {
    match find_name_from(pets, p.name@, 0) {
        Some(i) => pets.update(i, Pet { id: if p.id is Some { p.id } else { pets[i].id }, ..p }),
        None => pets.push(p),
    }
}

/// The first `n` pets of a newer upstream table merged in turn.
pub open spec fn merged(pets: Seq<Pet>, newer: Seq<Pet>, n: int) -> Seq<Pet>
    decreases n,
{
    if n <= 0 {
        pets
    } else {
        merged_one(merged(pets, newer, n - 1), newer[n - 1])
    }
}

pub proof fn lemma_find_name(pets: Seq<Pet>, name: Seq<char>, j: int)
    ensures
        match find_name_from(pets, name, j) {
            Some(i) => 0 <= j <= i < pets.len() && pets[i].name@ == name,
            None => true,
        },
    decreases pets.len() - j,
{
    if 0 <= j < pets.len() && pets[j].name@ != name {
        lemma_find_name(pets, name, j + 1);
    }
}

proof fn lemma_find_after_update(pets: Seq<Pet>, q: Pet, i: int, j: int)
    requires
        0 <= j <= i < pets.len(),
        find_name_from(pets, q.name@, j) == Some(i),
    ensures
        find_name_from(pets.update(i, q), q.name@, j) == Some(i),
    decreases i - j,
{
    if j < i {
        lemma_find_after_update(pets, q, i, j + 1);
    }
}

proof fn lemma_find_after_push(pets: Seq<Pet>, q: Pet, j: int)
    requires
        0 <= j <= pets.len(),
        find_name_from(pets, q.name@, j) is None,
    ensures
        find_name_from(pets.push(q), q.name@, j) == Some(pets.len() as int),
    decreases pets.len() - j,
{
    if j < pets.len() {
        lemma_find_after_push(pets, q, j + 1);
    }
}

/// A pet laid over a table is what its name then finds; the table grows by
/// one exactly when no pet had that name, and every other pet stays.
pub proof fn lemma_placed_is_found(pets: Seq<Pet>, p: Pet)
    ensures
        find_name_from(placed(pets, p), p.name@, 0) matches Some(i)
            && placed(pets, p)[i] == p
            && placed(pets, p).len() == pets.len() + (if find_name_from(pets, p.name@, 0) is Some { 0int } else { 1int })
            && forall|k: int| 0 <= k < pets.len() && k != i ==> #[trigger] placed(pets, p)[k] == pets[k],
{
    lemma_find_name(pets, p.name@, 0);
    match find_name_from(pets, p.name@, 0) {
        Some(i) => lemma_find_after_update(pets, p, i, 0),
        None => lemma_find_after_push(pets, p, 0),
    }
}

/// Laying one of the user's pets over a catalog makes its name find that
/// pet, marked as the user's: a new name is added, a known one replaced in
/// place.
pub proof fn lemma_overlay_one_is_found(pets: Seq<Pet>, c: Pet)
    ensures
        ({
            let after = overlaid(pets, seq![c], 1);
            &&& find_name_from(after, c.name@, 0) matches Some(i) && after[i] == as_custom(c)
                && after[i].custom && after[i].grow == c.grow
            &&& after.len() == pets.len() + (if find_name_from(pets, c.name@, 0) is Some { 0int } else { 1int })
        }),
{
    assert(overlaid(pets, seq![c], 0) == pets);
    assert(seq![c][0] == c);
    lemma_placed_is_found(pets, as_custom(c));
}

/// Merging a newer upstream pet makes its name find the newer pet, keeping
/// the older pet's number where the newer one has none; the table grows
/// only by names it did not have.
pub proof fn lemma_merge_one_newer_wins(pets: Seq<Pet>, p: Pet)
    ensures
        ({
            let after = merged(pets, seq![p], 1);
            &&& find_name_from(after, p.name@, 0) matches Some(i)
                && after[i].grow == p.grow && after[i].race == p.race
                && after[i].bprate == p.bprate && after[i].skills == p.skills
                && after[i].element == p.element && after[i].custom == p.custom
                && after[i].id == (match find_name_from(pets, p.name@, 0) {
                    Some(k) => if p.id is Some { p.id } else { pets[k].id },
                    None => p.id,
                })
            &&& after.len() == pets.len() + (if find_name_from(pets, p.name@, 0) is Some { 0int } else { 1int })
        }),
{
    assert(merged(pets, seq![p], 0) == pets);
    assert(seq![p][0] == p);
    lemma_find_name(pets, p.name@, 0);
    match find_name_from(pets, p.name@, 0) {
        Some(k) => {
            let q = Pet { id: if p.id is Some { p.id } else { pets[k].id }, ..p };
            assert(q.name@ == p.name@);
            lemma_find_after_update(pets, q, k, 0);
        },
        None => lemma_find_after_push(pets, p, 0),
    }
}

/// Index of the first pet named `name`.
pub(crate) fn find_name_index(pets: &Vec<Pet>, name: &String) -> (r: Option<usize>)
    ensures
        match find_name_from(pets@, name@, 0) {
            Some(i) => r == Some(i as usize),
            None => r is None,
        },
        match r {
            Some(i) => i < pets@.len() && find_name_from(pets@, name@, 0) == Some(i as int),
            None => find_name_from(pets@, name@, 0) is None,
        },
{
    proof { lemma_find_name(pets@, name@, 0); }
    let mut i: usize = 0;
    while i < pets.len()
        invariant
            0 <= i <= pets@.len(),
            find_name_from(pets@, name@, 0) == find_name_from(pets@, name@, i as int),
        decreases pets@.len() - i,
    {
        if pets[i].name == *name {
            return Some(i);
        }
        i = i + 1;
    }
    None
}

impl Catalog {
    /// A pet-for-pet copy.
    pub fn copy(&self) -> (r: Catalog)
        ensures
            r.pets@ == self.pets@,
            r.source@ == self.source@,
    {
        let mut pets: Vec<Pet> = Vec::new();
        let mut i: usize = 0;
        while i < self.pets.len()
            invariant
                0 <= i <= self.pets@.len(),
                pets@ == self.pets@.subrange(0, i as int),
            decreases self.pets@.len() - i,
        {
            pets.push(self.pets[i].copy());
            assert(pets@ =~= self.pets@.subrange(0, i + 1));
            i = i + 1;
        }
        assert(self.pets@.subrange(0, self.pets@.len() as int) =~= self.pets@);
        Catalog { pets, source: self.source.clone() }
    }

    /// Lays the user's pets over the catalog: a pet of the same name is
    /// replaced, any other is added at the end; all are marked as the user's.
    pub fn overlay(&mut self, custom: &[Pet])
        ensures
            final(self).pets@ == overlaid(old(self).pets@, custom@, custom@.len() as int),
            final(self).source == old(self).source,
    {
        let mut k: usize = 0;
        while k < custom.len()
            invariant
                0 <= k <= custom@.len(),
                self.pets@ == overlaid(old(self).pets@, custom@, k as int),
                self.source == old(self).source,
            decreases custom@.len() - k,
        {
            let mut pet = custom[k].copy();
            pet.custom = true;
            assert(pet == as_custom(custom@[k as int]));
            let ghost prev = self.pets@;
            let ghost p = pet;
            match find_name_index(&self.pets, &pet.name) {
                Some(i) => {
                    self.pets.set(i, pet);
                    assert(find_name_from(prev, p.name@, 0) == Some(i as int));
                },
                None => {
                    self.pets.push(pet);
                },
            }
            assert(self.pets@ == placed(prev, p));
            k = k + 1;
        }
    }

    /// Merges a newer upstream table: a pet of the same name is replaced
    /// (keeping its number when the newer one has none), any other is added.
    pub fn merge_upstream(&mut self, newer: &[Pet])
        ensures
            final(self).pets@ == merged(old(self).pets@, newer@, newer@.len() as int),
            final(self).source == old(self).source,
    {
        let mut k: usize = 0;
        while k < newer.len()
            invariant
                0 <= k <= newer@.len(),
                self.pets@ == merged(old(self).pets@, newer@, k as int),
                self.source == old(self).source,
            decreases newer@.len() - k,
        {
            let pet = newer[k].copy();
            let ghost prev = self.pets@;
            let ghost p = pet;
            match find_name_index(&self.pets, &pet.name) {
                Some(i) => {
                    let id = match pet.id {
                        Some(v) => Some(v),
                        None => self.pets[i].id,
                    };
                    let replaced = Pet { id, ..pet };
                    assert(find_name_from(prev, p.name@, 0) == Some(i as int));
                    self.pets.set(i, replaced);
                },
                None => {
                    self.pets.push(pet);
                },
            }
            assert(self.pets@ == merged_one(prev, p));
            k = k + 1;
        }
    }
}

/// Why a catalog file gave no pets.
#[derive(Debug, Clone, Copy, PartialEq, Eq)]
pub enum ParseError {
    /// No pet read; `bad_lines` lines looked like pets but did not parse.
    NoPets { bad_lines: usize },
}

/// What `parse_five` gives: the first five fields, white space trimmed, as
/// `i32`; `None` when there are fewer or one does not parse.
pub open spec fn spec_parse_five(f: Seq<Seq<char>>) -> Option<[i32; 5]> {
    if f.len() < 5 {
        None
    } else {
        let p = |k: int| spec_parse_i32(spec_trim(f[k]));
        if p(0) is Some && p(1) is Some && p(2) is Some && p(3) is Some && p(4) is Some {
            Some([p(0)->0 as i32, p(1)->0 as i32, p(2)->0 as i32, p(3)->0 as i32, p(4)->0 as i32])
        } else {
            None
        }
    }
}

/// Five tiers from `f[start..start + 5]`.
fn parse_five(f: &Vec<Vec<char>>, start: usize) -> (r: Option<[i32; 5]>)
    requires
        start <= f@.len(),
    ensures
        r == spec_parse_five(deep(f@).subrange(start as int, f@.len() as int)),
{
    let ghost fs = deep(f@).subrange(start as int, f@.len() as int);
    let n = f.len();
    if n - start < 5 {
        return None;
    }
    let mut out: [i32; 5] = [0; 5];
    let mut k: usize = 0;
    while k < 5
        invariant
            0 <= k <= 5,
            n == f@.len(),
            start + 5 <= n,
            fs == deep(f@).subrange(start as int, f@.len() as int),
            forall|j: int| 0 <= j < k ==> spec_parse_i32(spec_trim(#[trigger] fs[j])) == Some(out[j] as int),
        decreases 5 - k,
    {
        let t = trim(&f[start + k]);
        assert(f@[start + k]@ == fs[k as int]);
        match parse_i32(&t) {
            Some(v) => {
                out[k] = v;
            },
            None => {
                return None;
            },
        }
        k = k + 1;
    }
    assert(out =~= spec_parse_five(fs)->0) by {
        assert(spec_parse_i32(spec_trim(fs[0])) == Some(out[0] as int));
        assert(spec_parse_i32(spec_trim(fs[1])) == Some(out[1] as int));
        assert(spec_parse_i32(spec_trim(fs[2])) == Some(out[2] as int));
        assert(spec_parse_i32(spec_trim(fs[3])) == Some(out[3] as int));
        assert(spec_parse_i32(spec_trim(fs[4])) == Some(out[4] as int));
    }
    Some(out)
}

/// Leading copies of the byte-order mark removed.
pub open spec fn strip_bom(s: Seq<char>) -> Seq<char>
    decreases s.len(),
{
    if s.len() > 0 && s[0] == '\u{feff}' { strip_bom(s.drop_first()) } else { s }
}

/// The lines among the first `n` that hold more than white space.
pub open spec fn nonblank(ls: Seq<Seq<char>>, n: int) -> Seq<Seq<char>>
    decreases n,
{
    if n <= 0 {
        Seq::empty()
    } else if spec_trim(ls[n - 1]).len() > 0 {
        nonblank(ls, n - 1).push(ls[n - 1])
    } else {
        nonblank(ls, n - 1)
    }
}

/// Index of the first column, at or after `i`, named `name` (white space trimmed).
pub open spec fn col_find(cols: Seq<Seq<char>>, name: Seq<char>, i: int) -> Option<int>
    decreases cols.len() - i,
{
    if i < 0 || i >= cols.len() {
        None
    } else if spec_trim(cols[i]) == name {
        Some(i)
    } else {
        col_find(cols, name, i + 1)
    }
}

/// The columns the CSV parser reads: name, race, skill slots, element,
/// then the five tiers.
pub open spec fn om_names() -> Seq<Seq<char>> {
    seq!["名稱"@, "種族"@, "技格"@, "屬性"@, "體力"@, "力量"@, "防禦"@, "速度"@, "魔法"@]
}

/// The column of each name of `om_names` in the header line, if all are there.
pub open spec fn om_columns(header: Seq<char>) -> Option<Seq<int>> {
    let cols = spec_split(strip_bom(header), ',');
    if forall|k: int| 0 <= k < 9 ==> #[trigger] col_find(cols, om_names()[k], 0) is Some {
        Some(Seq::new(9, |k: int| col_find(cols, om_names()[k], 0)->0))
    } else {
        None
    }
}

/// Field `i` of a row, trimmed; empty past the end.
pub open spec fn field(f: Seq<Seq<char>>, i: int) -> Seq<char> {
    if 0 <= i < f.len() { spec_trim(f[i]) } else { Seq::empty() }
}

/// A number field, or 0 when it does not parse.
pub open spec fn num_or_zero(s: Seq<char>) -> int {
    match spec_parse_i32(s) {
        Some(v) => v,
        None => 0,
    }
}

/// The five tier fields of a CSV row.
pub open spec fn om_tiers(c: Seq<int>, line: Seq<char>) -> Seq<Seq<char>> {
    let f = spec_split(line, ',');
    seq![field(f, c[4]), field(f, c[5]), field(f, c[6]), field(f, c[7]), field(f, c[8])]
}

/// A CSV row holds a pet: a name and five tiers that parse.
pub open spec fn om_good(c: Seq<int>, line: Seq<char>) -> bool {
    field(spec_split(line, ','), c[0]).len() > 0 && spec_parse_five(om_tiers(c, line)) is Some
}

/// `p` is the pet a CSV row describes.
pub open spec fn om_pet(p: Pet, c: Seq<int>, line: Seq<char>) -> bool {
    let f = spec_split(line, ',');
    &&& p.id is None
    &&& p.name@ == field(f, c[0])
    &&& p.race == spec_race_code(field(f, c[1]))
    &&& Some(p.grow) == spec_parse_five(om_tiers(c, line))
    &&& p.bprate == DEFAULT_BPRATE
    &&& p.skills == (if 1 <= num_or_zero(field(f, c[2])) <= MAX_SKILL_SLOTS { Some(num_or_zero(field(f, c[2])) as i32) } else { None::<i32> })
    &&& p.element == spec_parse_elements(field(f, c[3]))
    &&& !p.custom
}

/// The rows among the first `n` that hold a pet.
pub open spec fn om_rows(c: Seq<int>, rows: Seq<Seq<char>>, n: int) -> Seq<Seq<char>>
    decreases n,
{
    if n <= 0 {
        Seq::empty()
    } else if om_good(c, rows[n - 1]) {
        om_rows(c, rows, n - 1).push(rows[n - 1])
    } else {
        om_rows(c, rows, n - 1)
    }
}

pub open spec fn elem_axis(c: char) -> int {
    if c == '地' { 0 } else if c == '水' { 1 } else if c == '火' { 2 } else if c == '風' { 3 } else { -1 }
}

/// Number of leading ASCII digits of `s`.
pub open spec fn digit_run(s: Seq<char>) -> nat
    decreases s.len(),
{
    if s.len() > 0 && '0' <= s[0] && s[0] <= '9' { 1 + digit_run(s.drop_first()) } else { 0 }
}

/// Element letters each followed by their amount, added (times ten) onto `acc`.
pub open spec fn elem_sum(h: Seq<char>, acc: Seq<int>) -> Option<Seq<int>>
    decreases h.len(),
{
    if h.len() == 0 {
        Some(acc)
    } else if elem_axis(h[0]) < 0 {
        None
    } else {
        let d = digit_run(h.drop_first()) as int;
        if 1 + d > h.len() {
            None
        } else {
            match spec_parse_i32(h.subrange(1, 1 + d)) {
            None => None,
                Some(v) => elem_sum(h.subrange(1 + d, h.len() as int), acc.update(elem_axis(h[0]), acc[elem_axis(h[0])] + 10 * v)),
            }
        }
    }
}

/// Earth, water, fire and wind from text such as `火9風1`: the part before
/// any `(`, trimmed; each letter with its amount in tenths; the four
/// adding up to 100, else `None`.
pub open spec fn spec_parse_elements(s: Seq<char>) -> Option<[i32; 4]> {
    let head = spec_trim(spec_split(s, '(')[0]);
    if head.len() == 0 {
        None
    } else {
        match elem_sum(head, seq![0int, 0, 0, 0]) {
            Some(o) => if o[0] + o[1] + o[2] + o[3] == 100 {
                Some([o[0] as i32, o[1] as i32, o[2] as i32, o[3] as i32])
            } else {
                None
            },
            None => None,
        }
    }
}

proof fn lemma_digit_run(t: Seq<char>, m: int)
    requires
        0 <= m <= t.len(),
        forall|k: int| 0 <= k < m ==> '0' <= #[trigger] t[k] && t[k] <= '9',
        m == t.len() || !('0' <= t[m] && t[m] <= '9'),
    ensures
        digit_run(t) == m,
    decreases m,
{
    if m > 0 {
        let u = t.drop_first();
        assert forall|k: int| 0 <= k < m - 1 implies '0' <= #[trigger] u[k] && u[k] <= '9' by {
            assert(u[k] == t[k + 1]);
        }
        if m < t.len() {
            assert(u[m - 1] == t[m]);
        }
        lemma_digit_run(u, m - 1);
    }
}

/// One element letter with its amount: `elem_sum` of `t` is `elem_sum` of
/// what follows, with the amount added.
proof fn lemma_elem_step(t: Seq<char>, m: int, acc: Seq<int>)
    requires
        t.len() > 0,
        elem_axis(t[0]) >= 0,
        0 <= m < t.len(),
        forall|k: int| 1 <= k < 1 + m ==> '0' <= #[trigger] t[k] && t[k] <= '9',
        1 + m == t.len() || !('0' <= t[1 + m] && t[1 + m] <= '9'),
    ensures
        elem_sum(t, acc) == match spec_parse_i32(t.subrange(1, 1 + m)) {
            None => None,
            Some(v) => elem_sum(t.subrange(1 + m, t.len() as int), acc.update(elem_axis(t[0]), acc[elem_axis(t[0])] + 10 * v)),
        },
{
    let u = t.drop_first();
    assert forall|k: int| 0 <= k < m implies '0' <= #[trigger] u[k] && u[k] <= '9' by {
        assert(u[k] == t[k + 1]);
    }
    if 1 + m < t.len() {
        assert(u[m] == t[1 + m]);
    }
    lemma_digit_run(u, m);
}

/// Earth, water, fire and wind from an element field.
fn parse_elements(s: &[char]) -> (r: Option<[i32; 4]>)
    ensures
        r == spec_parse_elements(s@),
{
    let parts = split(s, '(');
    assert(spec_split(s@, '(').len() >= 1);
    assert(deep(parts@).len() == parts@.len());
    assert(deep(parts@)[0] == parts@[0]@);
    let head = trim(&parts[0]);
    let n = head.len();
    if n == 0 {
        return None;
    }
    let ghost h = head@;
    let mut acc: [i128; 4] = [0; 4];
    let mut i: usize = 0;
    assert(h.subrange(0, n as int) =~= h);
    assert(seq![acc[0] as int, acc[1] as int, acc[2] as int, acc[3] as int] =~= seq![0int, 0, 0, 0]);
    while i < n
        invariant
            0 <= i <= n,
            n == h.len(),
            head@ == h,
            h == spec_trim(spec_split(s@, '(')[0]),
            h.len() > 0,
            elem_sum(h, seq![0int, 0, 0, 0]) == elem_sum(h.subrange(i as int, n as int), seq![acc[0] as int, acc[1] as int, acc[2] as int, acc[3] as int]),
            forall|a: int| 0 <= a < 4 ==> 0 <= #[trigger] acc[a] <= i * 0x10_0000_0000,
        decreases n - i,
    {
        let ghost t = h.subrange(i as int, n as int);
        let ghost a_seq = seq![acc[0] as int, acc[1] as int, acc[2] as int, acc[3] as int];
        let c = head[i];
        assert(t[0] == c);
        let axis: usize = if c == '地' { 0 } else if c == '水' { 1 } else if c == '火' { 2 } else if c == '風' { 3 } else { 4 };
        if axis == 4 {
            assert(elem_axis(t[0]) < 0);
            return None;
        }
        assert(elem_axis(t[0]) == axis as int);
        let mut j: usize = i + 1;
        while j < n && '0' <= head[j] && head[j] <= '9'
            invariant
                i + 1 <= j <= n,
                n == h.len(),
                head@ == h,
                forall|k: int| i + 1 <= k < j ==> '0' <= #[trigger] h[k] && h[k] <= '9',
            decreases n - j,
        {
            j = j + 1;
        }
        let ghost m = j - i - 1;
        proof {
            assert forall|k: int| 1 <= k < 1 + m implies '0' <= #[trigger] t[k] && t[k] <= '9' by {
                assert(t[k] == h[i + k]);
            }
            if j < n {
                assert(t[1 + m] == h[j as int]);
            }
            lemma_elem_step(t, m, a_seq);
            assert(t.subrange(1, 1 + m) =~= h.subrange(i + 1, j as int));
            assert(t.subrange(1 + m, t.len() as int) =~= h.subrange(j as int, n as int));
        }
        let digits = slice_of(&head, i + 1, j);
        let parsed = parse_i32(&digits);
        if parsed.is_none() {
            return None;
        }
        let v = parsed.unwrap();
        proof {
            assert forall|k: int| 0 <= k < digits@.len() implies '0' <= #[trigger] digits@[k] && digits@[k] <= '9' by {
                assert(digits@[k] == h[i + 1 + k]);
            }
            crate::text::lemma_parse_digits_nonneg(digits@);
        }
        let ghost before = acc;
        acc[axis] = acc[axis] + 10 * v as i128;
        assert(seq![acc[0] as int, acc[1] as int, acc[2] as int, acc[3] as int]
            =~= a_seq.update(axis as int, a_seq[axis as int] + 10 * v));
        assert forall|a: int| 0 <= a < 4 implies 0 <= #[trigger] acc[a] <= j * 0x10_0000_0000 by {
            if a == axis as int {
                assert(0 <= before[a] <= i * 0x10_0000_0000);
            } else {
                assert(acc[a] == before[a]);
            }
        }
        i = j;
    }
    assert(h.subrange(n as int, n as int) =~= Seq::<char>::empty());
    let total: i128 = acc[0] + acc[1] + acc[2] + acc[3];
    if total == 100 {
        Some([acc[0] as i32, acc[1] as i32, acc[2] as i32, acc[3] as i32])
    } else {
        None
    }
}
/// The lines of a text that hold more than white space.
pub open spec fn filled_lines(text: Seq<char>) -> Seq<Seq<char>> {
    let ls = spec_lines(text);
    nonblank(ls, ls.len() as int)
}

fn nonblank_lines(ls: &Vec<Vec<char>>) -> (r: Vec<Vec<char>>)
    ensures
        deep(r@) == nonblank(deep(ls@), ls@.len() as int),
{
    let mut r: Vec<Vec<char>> = Vec::new();
    let mut i: usize = 0;
    while i < ls.len()
        invariant
            0 <= i <= ls@.len(),
            deep(r@) == nonblank(deep(ls@), i as int),
        decreases ls@.len() - i,
    {
        let t = trim(&ls[i]);
        assert(deep(ls@)[i as int] == ls@[i as int]@);
        if t.len() > 0 {
            let ghost before = deep(r@);
            r.push(copy_chars(&ls[i]));
            assert(deep(r@) =~= before.push(ls@[i as int]@));
        }
        i = i + 1;
    }
    r
}

fn copy_chars(s: &Vec<char>) -> (r: Vec<char>)
    ensures
        r@ == s@,
{
    slice_of(s.as_slice(), 0, s.len())
}

fn strip_bom_exec(s: &[char]) -> (r: Vec<char>)
    ensures
        r@ == strip_bom(s@),
{
    let mut i: usize = 0;
    assert(s@.subrange(0, s@.len() as int) =~= s@);
    while i < s.len() && s[i] == '\u{feff}'
        invariant
            0 <= i <= s@.len(),
            strip_bom(s@) == strip_bom(s@.subrange(i as int, s@.len() as int)),
        decreases s@.len() - i,
    {
        assert(s@.subrange(i as int, s@.len() as int).drop_first() =~= s@.subrange(i + 1, s@.len() as int));
        i = i + 1;
    }
    let r = slice_of(s, i, s.len());
    assert(strip_bom(r@) == r@);
    r
}

fn col_find_exec(cols: &Vec<Vec<char>>, name: &[char]) -> (r: Option<usize>)
    ensures
        match r {
            Some(i) => col_find(deep(cols@), name@, 0) == Some(i as int),
            None => col_find(deep(cols@), name@, 0) is None,
        },
{
    let mut i: usize = 0;
    while i < cols.len()
        invariant
            0 <= i <= cols@.len(),
            col_find(deep(cols@), name@, 0) == col_find(deep(cols@), name@, i as int),
        decreases cols@.len() - i,
    {
        let t = trim(&cols[i]);
        assert(deep(cols@)[i as int] == cols@[i as int]@);
        if chars_eq(&t, name) {
            return Some(i);
        }
        i = i + 1;
    }
    None
}

/// Field `i` of a row, trimmed; empty past the end.
fn field_of(f: &Vec<Vec<char>>, i: usize) -> (r: Vec<char>)
    ensures
        r@ == field(deep(f@), i as int),
{
    if i < f.len() {
        assert(deep(f@)[i as int] == f@[i as int]@);
        trim(&f[i])
    } else {
        Vec::new()
    }
}

/// The column indexes of a CSV header.
fn om_columns_exec(header: &Vec<char>) -> (r: Option<Vec<usize>>)
    ensures
        match r {
            Some(c) => om_columns(header@) == Some(c@.map_values(|x: usize| x as int)) && c@.len() == 9,
            None => om_columns(header@) is None,
        },
{
    let hb = strip_bom_exec(header);
    let cols = split(&hb, ',');
    let names: [&str; 9] = ["名稱", "種族", "技格", "屬性", "體力", "力量", "防禦", "速度", "魔法"];
    let mut out: Vec<usize> = Vec::new();
    let mut k: usize = 0;
    while k < 9
        invariant
            0 <= k <= 9,
            deep(cols@) == spec_split(strip_bom(header@), ','),
            names@ == seq!["名稱", "種族", "技格", "屬性", "體力", "力量", "防禦", "速度", "魔法"],
            out@.len() == k,
            forall|j: int| 0 <= j < k ==> col_find(deep(cols@), om_names()[j], 0) == Some(#[trigger] out@[j] as int),
        decreases 9 - k,
    {
        let nm = chars_of(names[k]);
        assert(nm@ == om_names()[k as int]) by {
            if k == 0 {} else if k == 1 {} else if k == 2 {} else if k == 3 {} else if k == 4 {}
            else if k == 5 {} else if k == 6 {} else if k == 7 {} else {}
        }
        match col_find_exec(&cols, &nm) {
            Some(i) => {
                out.push(i);
            },
            None => {
                return None;
            },
        }
        k = k + 1;
    }
    assert forall|j: int| 0 <= j < 9 implies #[trigger] col_find(deep(cols@), om_names()[j], 0) is Some by {
        assert(col_find(deep(cols@), om_names()[j], 0) == Some(out@[j] as int));
    }
    assert(out@.map_values(|x: usize| x as int) =~= Seq::new(9, |j: int| col_find(deep(cols@), om_names()[j], 0)->0));
    Some(out)
}

pub open spec fn as_ints(c: Seq<usize>) -> Seq<int> {
    c.map_values(|x: usize| x as int)
}

/// The pet a CSV row describes, or `None` when it holds none.
fn om_row(c: &Vec<usize>, line: &Vec<char>) -> (r: Option<Pet>)
    requires
        c@.len() == 9,
    ensures
        match r {
            Some(p) => om_good(as_ints(c@), line@) && om_pet(p, as_ints(c@), line@),
            None => !om_good(as_ints(c@), line@),
        },
{
    let ghost cs = as_ints(c@);
    let f = split(line, ',');
    let name = field_of(&f, c[0]);
    if name.len() == 0 {
        return None;
    }
    let tiers: Vec<Vec<char>> = vec![field_of(&f, c[4]), field_of(&f, c[5]), field_of(&f, c[6]), field_of(&f, c[7]), field_of(&f, c[8])];
    assert(deep(tiers@).subrange(0, 5) =~= om_tiers(cs, line@));
    let grow = match parse_five(&tiers, 0) {
        Some(g) => g,
        None => {
            return None;
        },
    };
    let race_f = field_of(&f, c[1]);
    let race = race_code_of(&race_f);
    let slots_f = field_of(&f, c[2]);
    let slots = match parse_i32(&slots_f) {
        Some(v) => v,
        None => 0,
    };
    let elem_f = field_of(&f, c[3]);
    let element = parse_elements(&elem_f);
    let skills = skill_slots(slots);
    Some(Pet {
        id: None,
        name: string_of(&name),
        race,
        grow,
        bprate: DEFAULT_BPRATE,
        skills,
        element,
        custom: false,
    })
}

proof fn lemma_col_find_first(cols: Seq<Seq<char>>, name: Seq<char>, s: int)
    requires
        0 <= s,
    ensures
        match col_find(cols, name, s) {
            Some(i) => s <= i < cols.len() && spec_trim(cols[i]) == name
                && forall|j: int| s <= j < i ==> spec_trim(#[trigger] cols[j]) != name,
            None => forall|j: int| s <= j < cols.len() ==> spec_trim(#[trigger] cols[j]) != name,
        },
    decreases cols.len() - s,
{
    if s < cols.len() && spec_trim(cols[s]) != name {
        lemma_col_find_first(cols, name, s + 1);
    }
}

/// `h2` and `f2` are `h` and `f` with their columns in the order `perm`,
/// whose inverse is `inv`.
pub open spec fn reordered(h: Seq<Seq<char>>, f: Seq<Seq<char>>, h2: Seq<Seq<char>>, f2: Seq<Seq<char>>,
    perm: Seq<int>, inv: Seq<int>) -> bool
{
    let n = h.len();
    &&& f.len() == n && h2.len() == n && f2.len() == n && perm.len() == n && inv.len() == n
    &&& forall|i: int| 0 <= i < n ==> 0 <= #[trigger] perm[i] < n
    &&& forall|i: int| 0 <= i < n ==> 0 <= #[trigger] inv[i] < n
    &&& forall|i: int| 0 <= i < n ==> #[trigger] perm[inv[i]] == i
    &&& forall|i: int| 0 <= i < n ==> #[trigger] inv[perm[i]] == i
    &&& forall|i: int| 0 <= i < n ==> #[trigger] h2[i] == h[perm[i]]
    &&& forall|i: int| 0 <= i < n ==> #[trigger] f2[i] == f[perm[i]]
}

/// Column names that differ once trimmed.
pub open spec fn distinct_names(h: Seq<Seq<char>>) -> bool {
    forall|i: int, j: int| 0 <= i < j < h.len() ==> spec_trim(#[trigger] h[i]) != spec_trim(#[trigger] h[j])
}

/// A column is found by name in the reordered header exactly when it is
/// in the first, and the row field read under it is the same.
proof fn lemma_find_reordered(h: Seq<Seq<char>>, f: Seq<Seq<char>>, h2: Seq<Seq<char>>, f2: Seq<Seq<char>>,
    perm: Seq<int>, inv: Seq<int>, name: Seq<char>)
    requires
        reordered(h, f, h2, f2, perm, inv),
        distinct_names(h),
    ensures
        col_find(h, name, 0) is Some <==> col_find(h2, name, 0) is Some,
        col_find(h, name, 0) is Some ==> field(f2, col_find(h2, name, 0)->0) == field(f, col_find(h, name, 0)->0),
{
    lemma_col_find_first(h, name, 0);
    lemma_col_find_first(h2, name, 0);
    let n = h.len();
    match col_find(h, name, 0) {
        Some(i) => {
            let j = inv[i];
            assert(0 <= j < n);
            assert(perm[j] == i);
            assert(h2[j] == h[i]);
            match col_find(h2, name, 0) {
                Some(j2) => {
                    let i2 = perm[j2];
                    assert(0 <= i2 < n);
                    assert(h2[j2] == h[i2]);
                    if i2 != i {
                        if i2 < i {
                            assert(spec_trim(h[i2]) != spec_trim(h[i]));
                        } else {
                            assert(spec_trim(h[i]) != spec_trim(h[i2]));
                        }
                    }
                    assert(inv[perm[j2]] == j2);
                    assert(f2[j2] == f[perm[j2]]);
                },
                None => {
                    assert(spec_trim(h2[j]) != name);
                },
            }
        },
        None => {
            match col_find(h2, name, 0) {
                Some(j2) => {
                    assert(h2[j2] == h[perm[j2]]);
                    assert(0 <= perm[j2] < n);
                    assert(spec_trim(h[perm[j2]]) != name);
                },
                None => {},
            }
        },
    }
}

/// `hd2` is the header `hd` with its columns in the order `perm` (whose
/// inverse is `inv`), and its column names differ once trimmed.
pub open spec fn header_reordered(hd: Seq<char>, hd2: Seq<char>, perm: Seq<int>, inv: Seq<int>) -> bool {
    let h = spec_split(strip_bom(hd), ',');
    &&& reordered(h, h, spec_split(strip_bom(hd2), ','), spec_split(strip_bom(hd2), ','), perm, inv)
    &&& distinct_names(h)
}

proof fn lemma_header_columns_alike(hd: Seq<char>, hd2: Seq<char>, perm: Seq<int>, inv: Seq<int>, f: Seq<Seq<char>>,
    f2: Seq<Seq<char>>)
    requires
        reordered(spec_split(strip_bom(hd), ','), f, spec_split(strip_bom(hd2), ','), f2, perm, inv),
        distinct_names(spec_split(strip_bom(hd), ',')),
    ensures
        om_columns(hd) is Some <==> om_columns(hd2) is Some,
        om_columns(hd) is Some ==> forall|k: int| 0 <= k < 9
            ==> field(f2, #[trigger] om_columns(hd2)->0[k]) == field(f, om_columns(hd)->0[k]),
{
    let h = spec_split(strip_bom(hd), ',');
    let h2 = spec_split(strip_bom(hd2), ',');
    assert forall|k: int| 0 <= k < 9 implies
        (#[trigger] col_find(h, om_names()[k], 0) is Some <==> col_find(h2, om_names()[k], 0) is Some)
        && (col_find(h, om_names()[k], 0) is Some
            ==> field(f2, col_find(h2, om_names()[k], 0)->0) == field(f, col_find(h, om_names()[k], 0)->0)) by {
        lemma_find_reordered(h, f, h2, f2, perm, inv, om_names()[k]);
    }
    if om_columns(hd) is Some {
        assert forall|k: int| 0 <= k < 9 implies #[trigger] col_find(h2, om_names()[k], 0) is Some by {
            assert(col_find(h, om_names()[k], 0) is Some);
        }
        assert(om_columns(hd2) is Some);
        let c = om_columns(hd)->0;
        let c2 = om_columns(hd2)->0;
        assert forall|k: int| 0 <= k < 9 implies field(f2, #[trigger] c2[k]) == field(f, c[k]) by {
            assert(col_find(h, om_names()[k], 0) is Some);
            assert(c[k] == col_find(h, om_names()[k], 0)->0);
            assert(c2[k] == col_find(h2, om_names()[k], 0)->0);
        }
    }
    if om_columns(hd2) is Some {
        assert forall|k: int| 0 <= k < 9 implies #[trigger] col_find(h, om_names()[k], 0) is Some by {
            assert(col_find(h2, om_names()[k], 0) is Some);
        }
    }
}

/// `line2` holds the fields of `line` in the order `perm`.
pub open spec fn row_reordered(line: Seq<char>, line2: Seq<char>, perm: Seq<int>) -> bool {
    let f = spec_split(line, ',');
    let f2 = spec_split(line2, ',');
    &&& f.len() == perm.len() && f2.len() == perm.len()
    &&& forall|i: int| 0 <= i < perm.len() ==> #[trigger] f2[i] == f[perm[i]]
}

/// Columns are found by name, not by place: reordering the columns of the
/// header and of a row alike (the header names distinct, the row as long
/// as the header), the header is read or refused alike, and the row holds
/// a pet or not alike, and the same pet.
pub proof fn lemma_originmood_row_column_order_free(hd: Seq<char>, line: Seq<char>, hd2: Seq<char>,
    line2: Seq<char>, perm: Seq<int>, inv: Seq<int>)
    requires
        header_reordered(hd, hd2, perm, inv),
        row_reordered(line, line2, perm),
    ensures
        om_columns(hd) is Some <==> om_columns(hd2) is Some,
        om_columns(hd) is Some ==> {
            let c = om_columns(hd)->0;
            let c2 = om_columns(hd2)->0;
            &&& om_good(c, line) == om_good(c2, line2)
            &&& forall|p: Pet| om_pet(p, c, line) == om_pet(p, c2, line2)
        },
{
    let h = spec_split(strip_bom(hd), ',');
    let h2 = spec_split(strip_bom(hd2), ',');
    let f = spec_split(line, ',');
    let f2 = spec_split(line2, ',');
    assert(reordered(h, f, h2, f2, perm, inv));
    lemma_header_columns_alike(hd, hd2, perm, inv, f, f2);
    if om_columns(hd) is Some {
        let c = om_columns(hd)->0;
        let c2 = om_columns(hd2)->0;
        assert(field(f2, c2[0]) == field(f, c[0]));
        assert(field(f2, c2[1]) == field(f, c[1]));
        assert(field(f2, c2[2]) == field(f, c[2]));
        assert(field(f2, c2[3]) == field(f, c[3]));
        assert(om_tiers(c, line) == om_tiers(c2, line2)) by {
            assert(field(f2, c2[4]) == field(f, c[4]));
            assert(field(f2, c2[5]) == field(f, c[5]));
            assert(field(f2, c2[6]) == field(f, c[6]));
            assert(field(f2, c2[7]) == field(f, c[7]));
            assert(field(f2, c2[8]) == field(f, c[8]));
        }
    }
}

proof fn lemma_om_rows_alike(c: Seq<int>, c2: Seq<int>, rows: Seq<Seq<char>>, rows2: Seq<Seq<char>>, n: int)
    requires
        0 <= n <= rows.len(),
        rows.len() == rows2.len(),
        forall|i: int| 0 <= i < rows.len() ==> #[trigger] om_good(c, rows[i]) == om_good(c2, rows2[i])
            && forall|p: Pet| om_pet(p, c, rows[i]) == om_pet(p, c2, rows2[i]),
    ensures
        om_rows(c, rows, n).len() == om_rows(c2, rows2, n).len(),
        forall|k: int| 0 <= k < om_rows(c, rows, n).len() ==> forall|p: Pet|
            om_pet(p, c, #[trigger] om_rows(c, rows, n)[k]) == om_pet(p, c2, om_rows(c2, rows2, n)[k]),
    decreases n,
{
    if n > 0 {
        lemma_om_rows_alike(c, c2, rows, rows2, n - 1);
        assert(om_good(c, rows[n - 1]) == om_good(c2, rows2[n - 1]));
    }
}

/// Two pets a CSV row describes are the same pet.
proof fn lemma_om_pet_unique(p: Pet, q: Pet, c: Seq<int>, line: Seq<char>)
    requires
        om_pet(p, c, line),
        om_pet(q, c, line),
    ensures
        pet_v(p) == pet_v(q),
{
}

/// The catalog CSV is read by column name: a text whose header and rows
/// hold the same columns in another order (the same one for every line,
/// the header names distinct, every row as long as the header) gives the
/// same answer, the same pets in the same order or the same error.
pub proof fn lemma_originmood_column_order_free(text: Seq<char>, text2: Seq<char>, perm: Seq<int>, inv: Seq<int>,
    r: Result<Catalog, ParseError>, r2: Result<Catalog, ParseError>)
    requires
        filled_lines(text).len() == filled_lines(text2).len(),
        filled_lines(text).len() > 0 ==> header_reordered(filled_lines(text)[0], filled_lines(text2)[0], perm, inv),
        forall|i: int| 1 <= i < filled_lines(text).len()
            ==> row_reordered(#[trigger] filled_lines(text)[i], filled_lines(text2)[i], perm),
        originmood_result(text, r),
        originmood_result(text2, r2),
    ensures
        r is Ok <==> r2 is Ok,
        r is Err ==> r == r2,
        r is Ok ==> {
            &&& r->Ok_0.pets@.len() == r2->Ok_0.pets@.len()
            &&& forall|k: int| 0 <= k < r->Ok_0.pets@.len() ==> pet_v(#[trigger] r->Ok_0.pets@[k]) == pet_v(r2->Ok_0.pets@[k])
            &&& r->Ok_0.source@ == r2->Ok_0.source@
        },
{
    let ls = filled_lines(text);
    let ls2 = filled_lines(text2);
    if ls.len() > 0 {
        let hd = ls[0];
        let hd2 = ls2[0];
        let rows = ls.drop_first();
        let rows2 = ls2.drop_first();
        let h = spec_split(strip_bom(hd), ',');
        let h2 = spec_split(strip_bom(hd2), ',');
        // the header alone decides whether the columns are found
        lemma_header_columns_alike(hd, hd2, perm, inv, h, h2);
        if om_columns(hd) is Some {
            let c = om_columns(hd)->0;
            let c2 = om_columns(hd2)->0;
            assert forall|i: int| 0 <= i < rows.len() implies #[trigger] om_good(c, rows[i]) == om_good(c2, rows2[i])
                && forall|p: Pet| om_pet(p, c, rows[i]) == om_pet(p, c2, rows2[i]) by {
                assert(rows[i] == ls[i + 1] && rows2[i] == ls2[i + 1]);
                lemma_originmood_row_column_order_free(hd, rows[i], hd2, rows2[i], perm, inv);
            }
            lemma_om_rows_alike(c, c2, rows, rows2, rows.len() as int);
            let good = om_rows(c, rows, rows.len() as int);
            let good2 = om_rows(c2, rows2, rows2.len() as int);
            if good.len() > 0 {
                assert forall|k: int| 0 <= k < r->Ok_0.pets@.len()
                    implies pet_v(#[trigger] r->Ok_0.pets@[k]) == pet_v(r2->Ok_0.pets@[k]) by {
                    assert(om_pet(r->Ok_0.pets@[k], c, good[k]));
                    assert(om_pet(r2->Ok_0.pets@[k], c2, good2[k]));
                    lemma_om_pet_unique(r->Ok_0.pets@[k], r2->Ok_0.pets@[k], c, good[k]);
                }
            }
        }
    }
}

/// What `parse_originmood` answers for a text.
pub open spec fn originmood_result(text: Seq<char>, r: Result<Catalog, ParseError>) -> bool {
    let ls = filled_lines(text);
    if ls.len() == 0 {
        r == Err::<Catalog, ParseError>(ParseError::NoPets { bad_lines: 0 })
    } else {
        match om_columns(ls[0]) {
            None => r == Err::<Catalog, ParseError>(ParseError::NoPets { bad_lines: 0 }),
            Some(c) => {
                let rows = ls.drop_first();
                let good = om_rows(c, rows, rows.len() as int);
                if good.len() == 0 {
                    r == Err::<Catalog, ParseError>(ParseError::NoPets { bad_lines: rows.len() as usize })
                } else {
                    &&& r is Ok
                    &&& r->Ok_0.pets@.len() == good.len()
                    &&& forall|k: int| 0 <= k < good.len() ==> om_pet(#[trigger] r->Ok_0.pets@[k], c, good[k])
                    &&& r->Ok_0.source@ == "originmood 專屬寵物（"@ + spec_decimal(good.len()) + " 筆）"@
                }
            },
        }
    }
}

/// Reads the catalog CSV: a header naming the columns (found by name, a
/// byte-order mark before it ignored), then one pet per row; rows without a
/// name or with tiers that do not parse are counted as bad.
pub fn parse_originmood(text: &str) -> (r: Result<Catalog, ParseError>)
    ensures
        originmood_result(text@, r),
{
    let chars = chars_of(text);
    let all = lines(&chars);
    let ls = nonblank_lines(&all);
    assert(deep(ls@) == filled_lines(text@));
    if ls.len() == 0 {
        return Err(ParseError::NoPets { bad_lines: 0 });
    }
    assert(deep(ls@)[0] == ls@[0]@);
    let c = match om_columns_exec(&ls[0]) {
        Some(c) => c,
        None => {
            return Err(ParseError::NoPets { bad_lines: 0 });
        },
    };
    let ghost cs = as_ints(c@);
    let ghost rows = deep(ls@).drop_first();
    let mut pets: Vec<Pet> = Vec::new();
    let mut bad: usize = 0;
    let mut i: usize = 1;
    while i < ls.len()
        invariant
            1 <= i <= ls@.len(),
            c@.len() == 9,
            cs == as_ints(c@),
            rows == deep(ls@).drop_first(),
            pets@.len() == om_rows(cs, rows, i - 1).len(),
            forall|k: int| 0 <= k < pets@.len() ==> om_pet(#[trigger] pets@[k], cs, om_rows(cs, rows, i - 1)[k]),
            bad + pets@.len() == i - 1,
        decreases ls@.len() - i,
    {
        assert(rows[i - 1] == ls@[i as int]@);
        match om_row(&c, &ls[i]) {
            Some(p) => {
                let ghost before = pets@;
                pets.push(p);
                assert forall|k: int| 0 <= k < pets@.len() implies om_pet(#[trigger] pets@[k], cs, om_rows(cs, rows, i as int)[k]) by {
                    if k < before.len() {
                        assert(pets@[k] == before[k]);
                    }
                }
            },
            None => {
                bad = bad + 1;
            },
        }
        i = i + 1;
    }
    assert(rows.len() == ls@.len() - 1);
    if pets.len() == 0 {
        return Err(ParseError::NoPets { bad_lines: bad });
    }
    let n = pets.len();
    let mut source = String::from_str("originmood 專屬寵物（");
    let count = decimal(n);
    source.append(count.as_str());
    source.append(" 筆）");
    Ok(Catalog { pets, source })
}

/// A pet's fields, the name as characters.
pub type PetV = (Option<i32>, Seq<char>, u8, [i32; 5], i32, Option<i32>, Option<[i32; 4]>, bool);

pub open spec fn pet_v(p: Pet) -> PetV {
    (p.id, p.name@, p.race, p.grow, p.bprate, p.skills, p.element, p.custom)
}

/// `s` split at its first `c`: what comes before and what comes after.
pub open spec fn split_once(s: Seq<char>, c: char) -> Option<(Seq<char>, Seq<char>)> {
    match crate::text::first_index(s, c) {
        Some(i) => Some((s.subrange(0, i), s.subrange(i + 1, s.len() as int))),
        None => None,
    }
}

/// `line` is a section header `[...]`.
pub open spec fn is_section(line: Seq<char>) -> bool {
    line.len() >= 2 && line[0] == '[' && line.last() == ']'
}

/// A field of the record, or 0 when it does not parse.
pub open spec fn num_at(f: Seq<Seq<char>>, i: int) -> i32 {
    num_or_zero(f[i]) as i32
}

/// The pet a record line describes.
pub open spec fn ini_pet(id: i32, name: Seq<char>, f: Seq<Seq<char>>, grow: [i32; 5]) -> PetV {
    let race = num_at(f, 6);
    let rate = num_at(f, 5);
    (
        Some(id),
        spec_trim(name),
        (if race < 0 { 0 } else if race > MAX_RACE { MAX_RACE as i32 } else { race }) as u8,
        grow,
        if rate == 0 { DEFAULT_BPRATE } else { rate },
        if 1 <= num_at(f, 11) <= MAX_SKILL_SLOTS { Some(num_at(f, 11)) } else { None },
        Some([num_at(f, 7), num_at(f, 8), num_at(f, 9), num_at(f, 10)]),
        false,
    )
}

/// Index of the first pet numbered `id`, at or after `i`.
pub open spec fn id_from(pets: Seq<PetV>, id: Option<i32>, i: int) -> Option<int>
    decreases pets.len() - i,
{
    if i < 0 || i >= pets.len() {
        None
    } else if pets[i].0 == id {
        Some(i)
    } else {
        id_from(pets, id, i + 1)
    }
}

/// `p` put over the first pet with its number, or added at the end.
pub open spec fn upsert_id(pets: Seq<PetV>, p: PetV) -> Seq<PetV> {
    match id_from(pets, p.0, 0) {
        Some(i) => pets.update(i, p),
        None => pets.push(p),
    }
}

/// The record part of a line inside the pet section, after `編號`: the
/// pet it describes, or `None` for a malformed record.
#[verifier::opaque]
pub open spec fn ini_record(rest: Seq<char>) -> Option<PetV> {
    match split_once(rest, '=') {
        None => None,
        Some((id_s, body)) => match spec_parse_i32(spec_trim(id_s)) {
            None => None,
            Some(id) => match split_once(body, ',') {
                None => None,
                Some((name, nums)) => {
                    let f = spec_words(nums);
                    if f.len() < 12 {
                        None
                    } else {
                        match spec_parse_five(f) {
                            None => None,
                            Some(grow) => Some(ini_pet(id as i32, name, f, grow)),
                        }
                    }
                },
            },
        },
    }
}

/// Reading state after a line: inside the pet section, pets so far, bad records.
pub open spec fn ini_line(st: (bool, Seq<PetV>, nat), raw: Seq<char>) -> (bool, Seq<PetV>, nat) {
    let line = spec_trim(raw);
    if line.len() == 0 {
        st
    } else if is_section(line) {
        (line.subrange(1, line.len() - 1) == "自製寵物"@, st.1, st.2)
    } else if !st.0 {
        st
    } else if !(line.len() >= 2 && line.subrange(0, 2) == "編號"@) {
        st
    } else {
        match ini_record(line.subrange(2, line.len() as int)) {
            None => (st.0, st.1, st.2 + 1),
            Some(p) => (st.0, upsert_id(st.1, p), st.2),
        }
    }
}

/// Reading state after the first `n` lines.
pub open spec fn ini_state(ls: Seq<Seq<char>>, n: int) -> (bool, Seq<PetV>, nat)
    decreases n,
{
    if n <= 0 {
        (false, Seq::empty(), 0)
    } else {
        ini_line(ini_state(ls, n - 1), ls[n - 1])
    }
}

/// What `parse_spetdata_text` answers for a text.
pub open spec fn spetdata_result(text: Seq<char>, r: Result<Catalog, ParseError>) -> bool {
    let ls = spec_lines(text);
    let st = ini_state(ls, ls.len() as int);
    if st.1.len() == 0 {
        r == Err::<Catalog, ParseError>(ParseError::NoPets { bad_lines: st.2 as usize })
    } else {
        &&& r is Ok
        &&& r->Ok_0.pets@.map_values(|p: Pet| pet_v(p)) == st.1
        &&& r->Ok_0.source@ == "spetdata.ini（"@ + spec_decimal(st.1.len()) + " 筆）"@
    }
}

fn split_once_exec(s: &[char], c: char) -> (r: Option<(Vec<char>, Vec<char>)>)
    ensures
        match (split_once(s@, c), r) {
            (Some((a, b)), Some((x, y))) => x@ == a && y@ == b,
            (None, None) => true,
            _ => false,
        },
{
    let n = s.len();
    match find_char(s, c) {
        Some(i) => {
            proof {
                assert(crate::text::first_index(s@, c) == Some(i as int)) by {
                    let j = choose|j: int| 0 <= j < s@.len() && s@[j] == c && forall|k: int| 0 <= k < j ==> s@[k] != c;
                    if j < i { } else if j > i { assert(s@[i as int] == c); }
                }
            }
            Some((slice_of(s, 0, i), slice_of(s, i + 1, n)))
        },
        None => None,
    }
}

fn num_at_exec(f: &Vec<Vec<char>>, i: usize) -> (r: i32)
    requires
        i < f@.len(),
    ensures
        r == num_at(deep(f@), i as int),
{
    assert(deep(f@)[i as int] == f@[i as int]@);
    match parse_i32(&f[i]) {
        Some(v) => v,
        None => 0,
    }
}

/// The pet a record after `編號` describes.
fn ini_record_exec(rest: &[char]) -> (r: Option<Pet>)
    ensures
        match ini_record(rest@) {
            Some(p) => r is Some && pet_v(r->0) == p,
            None => r is None,
        },
        r matches Some(p) ==> p.id is Some,
{
    reveal(ini_record);
    let (id_s, body) = match split_once_exec(rest, '=') {
        Some(x) => x,
        None => {
            return None;
        },
    };
    let id_t = trim(&id_s);
    let id = match parse_i32(&id_t) {
        Some(v) => v,
        None => {
            return None;
        },
    };
    let (name, nums) = match split_once_exec(&body, ',') {
        Some(x) => x,
        None => {
            return None;
        },
    };
    let f = words(&nums);
    if f.len() < 12 {
        assert(deep(f@).len() == f@.len());
        return None;
    }
    assert(deep(f@).subrange(0, f@.len() as int) =~= deep(f@));
    let grow = match parse_five(&f, 0) {
        Some(g) => g,
        None => {
            return None;
        },
    };
    let race_n = num_at_exec(&f, 6);
    let rate = num_at_exec(&f, 5);
    let slots = num_at_exec(&f, 11);
    let e0 = num_at_exec(&f, 7);
    let e1 = num_at_exec(&f, 8);
    let e2 = num_at_exec(&f, 9);
    let e3 = num_at_exec(&f, 10);
    let race: u8 = if race_n < 0 { 0 } else if race_n > MAX_RACE as i32 { MAX_RACE } else { race_n as u8 };
    let nm = trim(&name);
    let pet = Pet {
        id: Some(id),
        name: string_of(&nm),
        race,
        grow,
        bprate: if rate == 0 { DEFAULT_BPRATE } else { rate },
        skills: skill_slots(slots),
        element: Some([e0, e1, e2, e3]),
        custom: false,
    };
    Some(pet)
}

/// `m` gives, for each number, the place of the first pet with it.
pub open spec fn indexes(m: Map<i32, usize>, pets: Seq<PetV>) -> bool {
    forall|id: i32| #![trigger m.contains_key(id)] #![trigger id_from(pets, Some(id), 0)]
        match id_from(pets, Some(id), 0) {
            Some(i) => m.contains_key(id) && m[id] == i,
            None => !m.contains_key(id),
        }
}

proof fn lemma_id_from_found(pets: Seq<PetV>, x: Option<i32>, s: int)
    requires
        0 <= s,
    ensures
        id_from(pets, x, s) matches Some(j) ==> s <= j < pets.len() && pets[j].0 == x,
    decreases pets.len() - s,
{
    if s < pets.len() && pets[s].0 != x {
        lemma_id_from_found(pets, x, s + 1);
    }
}

proof fn lemma_id_from_update(pets: Seq<PetV>, i: int, p: PetV, x: Option<i32>, s: int)
    requires
        0 <= i < pets.len(),
        pets[i].0 == p.0,
        0 <= s,
    ensures
        id_from(pets.update(i, p), x, s) == id_from(pets, x, s),
    decreases pets.len() - s,
{
    if s < pets.len() {
        lemma_id_from_update(pets, i, p, x, s + 1);
    }
}

proof fn lemma_id_from_push(pets: Seq<PetV>, p: PetV, x: Option<i32>, s: int)
    requires
        0 <= s <= pets.len(),
    ensures
        id_from(pets.push(p), x, s) == match id_from(pets, x, s) {
            Some(j) => Some(j),
            None => if x == p.0 { Some(pets.len() as int) } else { None },
        },
    decreases pets.len() - s,
{
    let q = pets.push(p);
    if s < pets.len() {
        lemma_id_from_push(pets, p, x, s + 1);
        assert(q[s] == pets[s]);
    } else {
        assert(q[s] == p);
        assert(id_from(q, x, s + 1) is None);
    }
}

/// One line of `parse_spetdata_text`.
fn ini_step(in_pets: &mut bool, pets: &mut Vec<Pet>, seen: &mut IdIndex, bad: &mut usize, raw: &Vec<char>,
    section: &Vec<char>, prefix: &Vec<char>)
    requires
        section@ == "自製寵物"@,
        prefix@ == "編號"@,
        *old(bad) < usize::MAX,
        indexes(old(seen)@, old(pets)@.map_values(|p: Pet| pet_v(p))),
    ensures
        (*final(in_pets), final(pets)@.map_values(|p: Pet| pet_v(p)), *final(bad) as nat)
            == ini_line((*old(in_pets), old(pets)@.map_values(|p: Pet| pet_v(p)), *old(bad) as nat), raw@),
        *final(bad) <= *old(bad) + 1,
        indexes(final(seen)@, final(pets)@.map_values(|p: Pet| pet_v(p))),
{
    proof {
        reveal_strlit("編號");
    }
    let line = trim(raw);
    let n = line.len();
    if n == 0 {
    } else if n >= 2 && line[0] == '[' && line[n - 1] == ']' {
        let inner = slice_of(&line, 1, n - 1);
        *in_pets = chars_eq(&inner, section);
    } else if !*in_pets {
    } else if !starts_with(&line, prefix) {
    } else {
        let rest = slice_of(&line, 2, n);
        match ini_record_exec(&rest) {
            None => {
                *bad = *bad + 1;
            },
            Some(p) => {
                let ghost before = pets@.map_values(|q: Pet| pet_v(q));
                let id = p.id.unwrap();
                assert(id_from(before, Some(id), 0) is Some ==> seen@.contains_key(id));
                match seen.place_of(id) {
                    Some(j) => {
                        assert(id_from(before, Some(id), 0) == Some(j as int));
                        proof {
                            lemma_id_from_found(before, Some(id), 0);
                        }
                        pets.set(j, p);
                        let ghost after = pets@.map_values(|q: Pet| pet_v(q));
                        assert(after =~= before.update(j as int, pet_v(p)));
                        assert forall|x: i32| #![trigger seen@.contains_key(x)] #![trigger id_from(after, Some(x), 0)]
                            id_from(after, Some(x), 0) == id_from(before, Some(x), 0) by {
                            lemma_id_from_update(before, j as int, pet_v(p), Some(x), 0);
                        }
                    },
                    None => {
                        assert(id_from(before, Some(id), 0) is None);
                        let n = pets.len();
                        pets.push(p);
                        seen.set_place(id, n);
                        let ghost after = pets@.map_values(|q: Pet| pet_v(q));
                        assert(after =~= before.push(pet_v(p)));
                        assert forall|x: i32| #![trigger seen@.contains_key(x)] #![trigger id_from(after, Some(x), 0)]
                            match id_from(after, Some(x), 0) {
                                Some(i) => seen@.contains_key(x) && seen@[x] == i,
                                None => !seen@.contains_key(x),
                            } by {
                            lemma_id_from_push(before, pet_v(p), Some(x), 0);
                            assert(id_from(before, Some(x), 0) is Some ==> old(seen)@.contains_key(x));
                        }
                    },
                }
            },
        }
    }
}

/// Reads the pet section (`[自製寵物]`) of a `spetdata.ini` text: one
/// record `編號N=name,` followed by twelve numbers per line; a later record
/// with the same number replaces the earlier one; malformed records inside
/// the section are counted as bad.
pub fn parse_spetdata_text(text: &str) -> (r: Result<Catalog, ParseError>)
    ensures
        spetdata_result(text@, r),
{
    let chars = chars_of(text);
    let ls = lines(&chars);
    let section = chars_of("自製寵物");
    let prefix = chars_of("編號");
    let mut in_pets = false;
    let mut pets: Vec<Pet> = Vec::new();
    let mut seen = IdIndex::new();
    let mut bad: usize = 0;
    let mut i: usize = 0;
    assert(pets@.map_values(|p: Pet| pet_v(p)) =~= Seq::<PetV>::empty());
    while i < ls.len()
        invariant
            0 <= i <= ls@.len(),
            section@ == "自製寵物"@,
            prefix@ == "編號"@,
            bad <= i,
            (in_pets, pets@.map_values(|p: Pet| pet_v(p)), bad as nat) == ini_state(deep(ls@), i as int),
            indexes(seen@, pets@.map_values(|p: Pet| pet_v(p))),
        decreases ls@.len() - i,
    {
        assert(deep(ls@)[i as int] == ls@[i as int]@);
        ini_step(&mut in_pets, &mut pets, &mut seen, &mut bad, &ls[i], &section, &prefix);
        i = i + 1;
    }
    if pets.len() == 0 {
        return Err(ParseError::NoPets { bad_lines: bad });
    }
    let mut source = String::from_str("spetdata.ini（");
    let count = decimal(pets.len());
    source.append(count.as_str());
    source.append(" 筆）");
    Ok(Catalog { pets, source })
}

/// Little-endian 16-bit units from byte pairs (a trailing odd byte dropped).
pub open spec fn le_units(b: Seq<u8>) -> Seq<u16> {
    Seq::new(b.len() / 2, |i: int| (b[2 * i] + 256 * b[2 * i + 1]) as u16)
}

/// Big-endian 16-bit units from byte pairs (a trailing odd byte dropped).
pub open spec fn be_units(b: Seq<u8>) -> Seq<u16> {
    Seq::new(b.len() / 2, |i: int| (256 * b[2 * i] + b[2 * i + 1]) as u16)
}

/// UTF-16 code units decoded: a high surrogate followed by a low one is
/// the character they encode together; a surrogate without its partner is
/// U+FFFD; any other unit is the character of that value.
pub open spec fn utf16_lossy(units: Seq<u16>) -> Seq<char>
    decreases units.len(),
{
    if units.len() == 0 {
        Seq::empty()
    } else {
        let u = units[0] as int;
        if 0xD800 <= u < 0xDC00 && units.len() >= 2 && 0xDC00 <= units[1] < 0xE000 {
            let c = (0x10000 + (u - 0xD800) * 0x400 + (units[1] - 0xDC00)) as char;
            seq![c] + utf16_lossy(units.subrange(2, units.len() as int))
        } else if 0xD800 <= u < 0xE000 {
            seq!['\u{FFFD}'] + utf16_lossy(units.subrange(1, units.len() as int))
        } else {
            seq![u as char] + utf16_lossy(units.subrange(1, units.len() as int))
        }
    }
}

/// What `String::from_utf8_lossy` gives for these bytes.
pub uninterp spec fn utf8_lossy(bytes: Seq<u8>) -> Seq<char>;

/// Decodes UTF-16 code units with std's `String::from_utf16_lossy`, which
/// puts U+FFFD for what does not decode. Claimed: surrogate pairs combine,
/// each unpaired surrogate becomes U+FFFD, every other unit is its own
/// character (`utf16_lossy`).
#[verifier::external_body]
fn from_utf16_lossy(units: &[u16]) -> (s: String)
    ensures
        s@ == utf16_lossy(units@),
{
    String::from_utf16_lossy(units)
}

/// Decodes UTF-8 bytes with std's `String::from_utf8_lossy`, which puts
/// U+FFFD for what does not decode. Claimed: the text depends on the bytes
/// alone (`utf8_lossy`); what that text is, is left unsaid.
#[verifier::external_body]
fn from_utf8_lossy(bytes: &[u8]) -> (s: String)
    ensures
        s@ == utf8_lossy(bytes@),
{
    String::from_utf8_lossy(bytes).into_owned()
}

/// Text of a catalog file by its byte-order mark: UTF-16 little- or
/// big-endian, UTF-8 with or without the mark.
pub open spec fn spec_decode(b: Seq<u8>) -> Seq<char> {
    if b.len() >= 2 && b[0] == 0xFF && b[1] == 0xFE {
        utf16_lossy(le_units(b.subrange(2, b.len() as int)))
    } else if b.len() >= 2 && b[0] == 0xFE && b[1] == 0xFF {
        utf16_lossy(be_units(b.subrange(2, b.len() as int)))
    } else if b.len() >= 3 && b[0] == 0xEF && b[1] == 0xBB && b[2] == 0xBF {
        utf8_lossy(b.subrange(3, b.len() as int))
    } else {
        utf8_lossy(b)
    }
}

fn units_of(b: &[u8], from: usize, big: bool) -> (u: Vec<u16>)
    requires
        from <= b@.len(),
    ensures
        u@ == if big { be_units(b@.subrange(from as int, b@.len() as int)) } else { le_units(b@.subrange(from as int, b@.len() as int)) },
{
    let ghost rest = b@.subrange(from as int, b@.len() as int);
    let n = b.len();
    let count = (n - from) / 2;
    let mut u: Vec<u16> = Vec::new();
    let mut k: usize = 0;
    while k < count
        invariant
            0 <= k <= count,
            n == b@.len(),
            count == (n - from) / 2,
            rest == b@.subrange(from as int, b@.len() as int),
            u@.len() == k,
            forall|j: int| 0 <= j < k ==> #[trigger] u@[j] == if big {
                (256 * rest[2 * j] + rest[2 * j + 1]) as u16
            } else {
                (rest[2 * j] + 256 * rest[2 * j + 1]) as u16
            },
        decreases count - k,
    {
        let a = b[from + 2 * k] as u16;
        let c = b[from + 2 * k + 1] as u16;
        let v: u16 = if big { 256 * a + c } else { a + 256 * c };
        u.push(v);
        k = k + 1;
    }
    assert(u@ =~= if big { be_units(rest) } else { le_units(rest) });
    u
}

/// The text of a catalog file.
pub fn decode(bytes: &[u8]) -> (s: String)
    ensures
        s@ == spec_decode(bytes@),
{
    let n = bytes.len();
    if n >= 2 && bytes[0] == 0xFF && bytes[1] == 0xFE {
        let u = units_of(bytes, 2, false);
        from_utf16_lossy(u.as_slice())
    } else if n >= 2 && bytes[0] == 0xFE && bytes[1] == 0xFF {
        let u = units_of(bytes, 2, true);
        from_utf16_lossy(u.as_slice())
    } else if n >= 3 && bytes[0] == 0xEF && bytes[1] == 0xBB && bytes[2] == 0xBF {
        let rest = crate::text::bytes_from(bytes, 3);
        from_utf8_lossy(rest.as_slice())
    } else {
        from_utf8_lossy(bytes)
    }
}

/// Reads a `spetdata.ini` file: its text decoded by byte-order mark, then
/// read as `parse_spetdata_text` reads it.
pub fn parse_spetdata(bytes: &[u8]) -> (r: Result<Catalog, ParseError>)
    ensures
        spetdata_result(spec_decode(bytes@), r),
{
    let text = decode(bytes);
    parse_spetdata_text(text.as_str())
}

// ── the built-in table ───────────────────────────────────────────────────

/// A number field of a built-in row (white space around ignored).
pub open spec fn opt_num(f: Seq<Seq<char>>, i: int) -> Option<int> {
    spec_parse_i32(spec_trim(f[i]))
}

/// A line of the built-in table that holds a pet: not a comment, not
/// blank, ten tab-separated fields or more, five tiers, a rate, a name.
pub open spec fn builtin_row_ok(line: Seq<char>) -> bool {
    let f = spec_split(line, '\t');
    &&& !(line.len() > 0 && line[0] == '#')
    &&& spec_trim(line).len() > 0
    &&& f.len() >= 10
    &&& spec_parse_five(f.subrange(3, f.len() as int)) is Some
    &&& spec_parse_rate(f[8]) is Some
    &&& f[1].len() > 0
}

/// `p` is the pet of the built-in row `line`.
pub open spec fn builtin_pet(p: Pet, line: Seq<char>) -> bool {
    let f = spec_split(line, '\t');
    &&& p.id == match opt_num(f, 0) {
        Some(v) => Some(v as i32),
        None => None::<i32>,
    }
    &&& p.name@ == f[1]
    &&& p.race == match opt_num(f, 2) {
        Some(r) => (if r < 0 { 0 } else if r > MAX_RACE { MAX_RACE as int } else { r }) as u8,
        None => RACE_UNKNOWN,
    }
    &&& Some(p.grow) == spec_parse_five(f.subrange(3, f.len() as int))
    &&& Some(p.bprate as int) == spec_parse_rate(f[8])
    &&& p.skills == match opt_num(f, 9) {
        Some(v) => Some(v as i32),
        None => None::<i32>,
    }
    &&& p.element is None
    &&& !p.custom
}

/// The lines among the first `n` that hold a pet.
pub open spec fn builtin_rows(ls: Seq<Seq<char>>, n: int) -> Seq<Seq<char>>
    decreases n,
{
    if n <= 0 {
        Seq::empty()
    } else if builtin_row_ok(ls[n - 1]) {
        builtin_rows(ls, n - 1).push(ls[n - 1])
    } else {
        builtin_rows(ls, n - 1)
    }
}

fn opt_field(f: &Vec<Vec<char>>, i: usize) -> (r: Option<i32>)
    requires
        i < f@.len(),
    ensures
        match opt_num(deep(f@), i as int) {
            Some(v) => r == Some(v as i32),
            None => r is None,
        },
{
    assert(deep(f@)[i as int] == f@[i as int]@);
    parse_i32(&trim(&f[i]))
}

/// The pet of one built-in row, if it holds one.
fn builtin_row(line: &Vec<char>) -> (r: Option<Pet>)
    ensures
        match r {
            Some(p) => builtin_row_ok(line@) && builtin_pet(p, line@),
            None => !builtin_row_ok(line@),
        },
{
    if line.len() > 0 && line[0] == '#' {
        return None;
    }
    if trim(line).len() == 0 {
        return None;
    }
    let f = split(line, '\t');
    let ghost fs = deep(f@);
    if f.len() < 10 {
        return None;
    }
    let grow = match parse_five(&f, 3) {
        Some(g) => g,
        None => {
            return None;
        },
    };
    assert(fs[8] == f@[8]@);
    let bprate = match parse_rate(&f[8]) {
        Some(b) => b,
        None => {
            return None;
        },
    };
    assert(fs[1] == f@[1]@);
    if f[1].len() == 0 {
        return None;
    }
    let id = opt_field(&f, 0);
    let race = match opt_field(&f, 2) {
        Some(r) => {
            if r < 0 {
                0u8
            } else if r > MAX_RACE as i32 {
                MAX_RACE
            } else {
                r as u8
            }
        },
        None => RACE_UNKNOWN,
    };
    let skills = opt_field(&f, 9);
    let p = Pet { id, name: string_of(&f[1]), race, grow, bprate, skills, element: None, custom: false };
    Some(p)
}

/// The built-in table: tab-separated rows `id name race hp atk def agi mp
/// rate skills`; comment lines (`#`), blank lines and rows that do not
/// hold a pet are skipped. Number, race and skill slots may be empty.
pub fn parse_builtin(text: &str) -> (c: Catalog)
    ensures
        ({
            let ls = spec_lines(text@);
            let rows = builtin_rows(ls, ls.len() as int);
            &&& c.pets@.len() == rows.len()
            &&& forall|k: int| 0 <= k < rows.len() ==> builtin_pet(#[trigger] c.pets@[k], rows[k])
        }),
        c.source@ == "內建表（PetDefaultData）"@,
{
    let chars = chars_of(text);
    let ls = lines(&chars);
    let ghost lv = deep(ls@);
    let mut pets: Vec<Pet> = Vec::new();
    let mut i: usize = 0;
    while i < ls.len()
        invariant
            0 <= i <= ls@.len(),
            lv == deep(ls@),
            lv == spec_lines(text@),
            pets@.len() == builtin_rows(lv, i as int).len(),
            forall|k: int| 0 <= k < pets@.len() ==> builtin_pet(#[trigger] pets@[k], builtin_rows(lv, i as int)[k]),
        decreases ls@.len() - i,
    {
        assert(lv[i as int] == ls@[i as int]@);
        match builtin_row(&ls[i]) {
            Some(p) => {
                let ghost before = pets@;
                pets.push(p);
                assert forall|k: int| 0 <= k < pets@.len() implies builtin_pet(#[trigger] pets@[k], builtin_rows(lv, i + 1)[k]) by {
                    if k < before.len() {
                        assert(pets@[k] == before[k]);
                    }
                }
            },
            None => {},
        }
        i = i + 1;
    }
    Catalog { pets, source: String::from_str("內建表（PetDefaultData）") }
}

} // verus!
