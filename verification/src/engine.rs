//! The calculator's state: the catalog layers (built-in table, an online
//! table, the user's own pets) and the candidates of the last guess, and
//! the commands of the front end on top of them.
//!
//! Storing the user's pets is the platform's business: a save or a delete
//! here returns the list to store, and the caller hands back, through
//! [`Engine::set_custom`], the list that was stored (or, when writing
//! failed, the one read back).
use vstd::prelude::*;
use crate::dto::{
    build_guess_resp, forward_row, resp_of, CatalogDto, Constants, ForwardReq, ForwardRow, GuessReq, GuessResp,
    PetDto, ProbabilityReq, ProbabilityResp, RefineReq, RefineResp, RequestError, SearchReq, SearchResp,
    SeriesReq, fits_i32, spec_mode_name, row_of, sum_lo, options_over, narrowed_of, real_axes, RefineSettled,
};
use crate::grow::{GrowRange, MAX_LOSS_BOUND};
use crate::guess::{solve, solve_result, Candidate, MatchMode, GuessOptions, GuessOutcome, sound, search_result, is_sol,
    mk_cand, grow_ok};
use crate::petdata::originmood_result;
use crate::petdata::{
    find_name_from, merged, overlaid, parse_originmood, spec_validate, Catalog, ParseError, Pet, PetError,
    find_name_index, lemma_find_name, chars_eq,
};
use crate::stats::{loss_fits, lost_at, lost_total, summarizes, Distribution, wsum, in_grow_box, axes_at_least};
use crate::text::{chars_of, string_of};

verus! {

/// Most candidates returned by a guess; the statistics cover all of them.
pub const MAX_RESULT_ROWS: usize = 200;

/// Most levels in one series.
pub const MAX_SERIES_ROWS: i32 = 300;

/// The game's level cap.
pub const MAX_LEVEL: i32 = 255;

/// Levels must lie in `1..=MAX_LEVEL`.
pub fn check_level(lvl: i32) -> (r: Result<(), RequestError>)
    ensures
        r == if 1 <= lvl <= MAX_LEVEL { Ok(()) } else { Err(RequestError::Level { lvl }) },
{
    if 1 <= lvl && lvl <= MAX_LEVEL {
        Ok(())
    } else {
        Err(RequestError::Level { lvl })
    }
}

// ── the catalog layers ───────────────────────────────────────────────────

/// The pets of the base table with a newer table (if any) merged in and the
/// user's pets laid over them.
pub open spec fn layered(builtin: Seq<Pet>, upstream: Option<Seq<Pet>>, custom: Seq<Pet>) -> Seq<Pet> {
    let base = match upstream {
        Some(u) => merged(builtin, u, u.len() as int),
        None => builtin,
    };
    overlaid(base, custom, custom.len() as int)
}

/// The source line of the layered catalog.
pub open spec fn layered_source(builtin: Seq<char>, upstream: Option<Seq<char>>) -> Seq<char> {
    match upstream {
        Some(u) => builtin + " ＋ "@ + u,
        None => builtin,
    }
}

/// The user's pets without any named `name`.
pub open spec fn without_name(s: Seq<Pet>, name: Seq<char>) -> Seq<Pet>
    decreases s.len(),
{
    if s.len() == 0 {
        s
    } else if s.last().name@ == name {
        without_name(s.drop_last(), name)
    } else {
        without_name(s.drop_last(), name).push(s.last())
    }
}

/// The user's pets after saving `pet`: with a rename, every pet of the old
/// name goes first; then `pet` replaces the first pet of its name or is added.
pub open spec fn put_pets(custom: Seq<Pet>, pet: Pet, rename_from: Option<Seq<char>>) -> Seq<Pet> {
    let base = match rename_from {
        Some(old) => if old != pet.name@ { without_name(custom, old) } else { custom },
        None => custom,
    };
    match find_name_from(base, pet.name@, 0) {
        Some(i) => base.update(i, pet),
        None => base.push(pet),
    }
}

/// Some pet of `s` is named `name`.
pub open spec fn has_name(s: Seq<Pet>, name: Seq<char>) -> bool {
    exists|i: int| 0 <= i < s.len() && (#[trigger] s[i]).name@ == name
}

/// Why saving or deleting a user pet was refused.
#[derive(Debug, Clone, Copy, PartialEq, Eq)]
pub enum LibraryError {
    /// The pet does not pass validation.
    Invalid(PetError),
    /// No user pet has this name (built-in and online pets cannot be deleted).
    NotCustom,
}

fn copy_pets(s: &Vec<Pet>) -> (r: Vec<Pet>)
    ensures
        r@ == s@,
{
    let mut r: Vec<Pet> = Vec::new();
    let mut i: usize = 0;
    while i < s.len()
        invariant
            0 <= i <= s@.len(),
            r@ == s@.subrange(0, i as int),
        decreases s@.len() - i,
    {
        r.push(s[i].copy());
        assert(r@ =~= s@.subrange(0, i + 1));
        i = i + 1;
    }
    assert(s@.subrange(0, s@.len() as int) =~= s@);
    r
}

fn drop_named(s: &Vec<Pet>, name: &Vec<char>) -> (r: Vec<Pet>)
    ensures
        r@ == without_name(s@, name@),
{
    let mut r: Vec<Pet> = Vec::new();
    let mut i: usize = 0;
    while i < s.len()
        invariant
            0 <= i <= s@.len(),
            r@ == without_name(s@.subrange(0, i as int), name@),
        decreases s@.len() - i,
    {
        let ghost pre = s@.subrange(0, i + 1);
        assert(pre.drop_last() =~= s@.subrange(0, i as int));
        assert(pre.last() == s@[i as int]);
        let n = chars_of(s[i].name.as_str());
        if !chars_eq(n.as_slice(), name.as_slice()) {
            r.push(s[i].copy());
        }
        i = i + 1;
    }
    assert(s@.subrange(0, s@.len() as int) =~= s@);
    r
}

fn append_chars(a: &mut Vec<char>, b: &Vec<char>)
    ensures
        final(a)@ == old(a)@ + b@,
{
    let mut i: usize = 0;
    while i < b.len()
        invariant
            0 <= i <= b@.len(),
            a@ == old(a)@ + b@.subrange(0, i as int),
        decreases b@.len() - i,
    {
        a.push(b[i]);
        assert(a@ =~= old(a)@ + b@.subrange(0, i + 1));
        i = i + 1;
    }
    assert(b@.subrange(0, b@.len() as int) =~= b@);
}

proof fn lemma_find_none(s: Seq<Pet>, name: Seq<char>, j: int)
    requires
        0 <= j,
    ensures
        find_name_from(s, name, j) is None <==> !exists|i: int| j <= i < s.len() && (#[trigger] s[i]).name@ == name,
    decreases s.len() - j,
{
    if j < s.len() {
        lemma_find_none(s, name, j + 1);
        if s[j].name@ != name {
            assert forall|i: int| j <= i < s.len() && (#[trigger] s[i]).name@ == name implies j + 1 <= i by {}
        }
    }
}

proof fn lemma_without_absent(s: Seq<Pet>, name: Seq<char>)
    requires
        !has_name(s, name),
    ensures
        without_name(s, name) == s,
    decreases s.len(),
{
    if s.len() > 0 {
        assert(!has_name(s.drop_last(), name)) by {
            if has_name(s.drop_last(), name) {
                let i = choose|i: int| 0 <= i < s.drop_last().len() && (#[trigger] s.drop_last()[i]).name@ == name;
                assert(s[i].name@ == name);
            }
        }
        lemma_without_absent(s.drop_last(), name);
        assert(s.last().name@ != name) by {
            if s.last().name@ == name {
                assert(s[s.len() - 1].name@ == name);
            }
        }
        assert(s.drop_last().push(s.last()) =~= s);
    }
}

proof fn lemma_without_facts(s: Seq<Pet>, name: Seq<char>)
    ensures
        !has_name(without_name(s, name), name),
        forall|p: Pet| without_name(s, name).contains(p) ==> s.contains(p),
        has_name(s, name) ==> without_name(s, name).len() < s.len(),
        without_name(s, name).len() <= s.len(),
    decreases s.len(),
{
    if s.len() > 0 {
        let rest = s.drop_last();
        lemma_without_facts(rest, name);
        let w = without_name(rest, name);
        if s.last().name@ != name {
            let w2 = w.push(s.last());
            assert(!has_name(w2, name)) by {
                if has_name(w2, name) {
                    let i = choose|i: int| 0 <= i < w2.len() && (#[trigger] w2[i]).name@ == name;
                    if i < w.len() {
                        assert(w[i].name@ == name);
                    }
                }
            }
            assert forall|p: Pet| w2.contains(p) implies s.contains(p) by {
                let i = choose|i: int| 0 <= i < w2.len() && w2[i] == p;
                if i < w.len() {
                    assert(w.contains(p));
                    assert(rest.contains(p));
                    let k = choose|k: int| 0 <= k < rest.len() && rest[k] == p;
                    assert(s[k] == p);
                } else {
                    assert(s[s.len() - 1] == p);
                }
            }
            if has_name(s, name) {
                let i = choose|i: int| 0 <= i < s.len() && (#[trigger] s[i]).name@ == name;
                assert(i < s.len() - 1);
                assert(rest[i].name@ == name);
            }
        } else {
            assert forall|p: Pet| w.contains(p) implies s.contains(p) by {
                assert(rest.contains(p));
                let k = choose|k: int| 0 <= k < rest.len() && rest[k] == p;
                assert(s[k] == p);
            }
        }
    }
}

/// Saving a pet under a name no user pet has, then deleting that name,
/// gives back the user's pets as they were.
pub proof fn lemma_delete_undoes_save(custom: Seq<Pet>, pet: Pet)
    requires
        !has_name(custom, pet.name@),
    ensures
        without_name(put_pets(custom, pet, None), pet.name@) == custom,
{
    lemma_find_none(custom, pet.name@, 0);
    assert(put_pets(custom, pet, None) == custom.push(pet));
    assert(custom.push(pet).drop_last() =~= custom);
    lemma_without_absent(custom, pet.name@);
}

/// After saving a pet under a new name in place of an old one, no user pet
/// keeps the old name, and the pet is there under the new one.
pub proof fn lemma_rename_replaces(custom: Seq<Pet>, pet: Pet, old: Seq<char>)
    requires
        old != pet.name@,
    ensures
        !has_name(put_pets(custom, pet, Some(old)), old),
        put_pets(custom, pet, Some(old)).contains(pet),
{
    let base = without_name(custom, old);
    lemma_without_facts(custom, old);
    lemma_find_name(base, pet.name@, 0);
    let r = put_pets(custom, pet, Some(old));
    match find_name_from(base, pet.name@, 0) {
        Some(i) => {
            assert(r == base.update(i, pet));
            assert(r[i] == pet);
            assert(!has_name(r, old)) by {
                if has_name(r, old) {
                    let k = choose|k: int| 0 <= k < r.len() && (#[trigger] r[k]).name@ == old;
                    if k != i {
                        assert(base[k].name@ == old);
                    }
                }
            }
        },
        None => {
            assert(r == base.push(pet));
            assert(r[base.len() as int] == pet);
            assert(!has_name(r, old)) by {
                if has_name(r, old) {
                    let k = choose|k: int| 0 <= k < r.len() && (#[trigger] r[k]).name@ == old;
                    if k < base.len() {
                        assert(base[k].name@ == old);
                    }
                }
            }
        },
    }
}

/// Saving a pet whose name a user pet already has (and not renaming it to
/// something else) replaces that pet: the list keeps its length.
pub proof fn lemma_resave_keeps_count(custom: Seq<Pet>, pet: Pet, rename_from: Option<Seq<char>>)
    requires
        has_name(custom, pet.name@),
        rename_from matches Some(old) ==> old == pet.name@,
    ensures
        put_pets(custom, pet, rename_from).len() == custom.len(),
        put_pets(custom, pet, rename_from).contains(pet),
{
    lemma_find_none(custom, pet.name@, 0);
    lemma_find_name(custom, pet.name@, 0);
    let i = find_name_from(custom, pet.name@, 0)->0;
    assert(put_pets(custom, pet, rename_from) == custom.update(i, pet));
    assert(custom.update(i, pet)[i] == pet);
}

/// The catalog layers and what they add up to.
pub struct Library {
    builtin: Catalog,
    upstream: Option<Catalog>,
    custom: Vec<Pet>,
    merged: Catalog,
}

pub open spec fn upstream_pets(u: Option<Catalog>) -> Option<Seq<Pet>> {
    match u {
        Some(c) => Some(c.pets@),
        None => None,
    }
}

pub open spec fn upstream_source(u: Option<Catalog>) -> Option<Seq<char>> {
    match u {
        Some(c) => Some(c.source@),
        None => None,
    }
}

impl Library {
    #[verifier::type_invariant]
    spec fn inv(self) -> bool {
        &&& self.merged.pets@ == layered(self.builtin.pets@, upstream_pets(self.upstream), self.custom@)
        &&& self.merged.source@ == layered_source(self.builtin.source@, upstream_source(self.upstream))
    }

    /// The built-in table.
    pub closed spec fn builtin_pets(self) -> Seq<Pet> {
        self.builtin.pets@
    }

    /// The online table, when one is loaded.
    pub closed spec fn upstream_pets(self) -> Option<Seq<Pet>> {
        upstream_pets(self.upstream)
    }

    /// The user's pets.
    pub closed spec fn custom_pets(self) -> Seq<Pet> {
        self.custom@
    }

    /// The catalog everything else reads.
    pub closed spec fn merged_pets(self) -> Seq<Pet> {
        self.merged.pets@
    }

    pub closed spec fn merged_source(self) -> Seq<char> {
        self.merged.source@
    }

    /// The name of the built-in table.
    pub closed spec fn builtin_source(self) -> Seq<char> {
        self.builtin.source@
    }

    /// The name of the online table, when one is loaded.
    pub closed spec fn upstream_name(self) -> Option<Seq<char>> {
        upstream_source(self.upstream)
    }

    fn build(builtin: Catalog, upstream: Option<Catalog>, custom: Vec<Pet>) -> (lib: Self)
        ensures
            lib.builtin_pets() == builtin.pets@,
            lib.builtin_source() == builtin.source@,
            lib.upstream_pets() == upstream_pets(upstream),
            lib.upstream_name() == upstream_source(upstream),
            lib.custom_pets() == custom@,
    {
        let mut merged = builtin.copy();
        match &upstream {
            Some(up) => {
                merged.merge_upstream(up.pets.as_slice());
                let mut src = chars_of(builtin.source.as_str());
                let sep = chars_of(" ＋ ");
                let tail = chars_of(up.source.as_str());
                append_chars(&mut src, &sep);
                append_chars(&mut src, &tail);
                proof {
                    reveal_strlit(" ＋ ");
                }
                merged.source = string_of(&src);
            },
            None => {},
        }
        merged.overlay(custom.as_slice());
        Library { builtin, upstream, custom, merged }
    }

    /// The built-in table alone, with the user's pets over it.
    pub fn new(builtin: Catalog, custom: Vec<Pet>) -> (lib: Self)
        ensures
            lib.builtin_pets() == builtin.pets@,
            lib.builtin_source() == builtin.source@,
            lib.upstream_pets() is None,
            lib.upstream_name() is None,
            lib.custom_pets() == custom@,
    {
        Library::build(builtin, None, custom)
    }

    /// The layered catalog: always what the layers add up to.
    pub fn merged(&self) -> (c: &Catalog)
        ensures
            c.pets@ == self.merged_pets(),
            c.source@ == self.merged_source(),
            c.pets@ == layered(self.builtin_pets(), self.upstream_pets(), self.custom_pets()),
            c.source@ == layered_source(self.builtin_source(), self.upstream_name()),
    {
        proof {
            use_type_invariant(self);
        }
        &self.merged
    }

    /// Replace the online table (`None`: the built-in table alone); the
    /// user's pets are laid over again.
    pub fn set_upstream(&mut self, upstream: Option<Catalog>)
        ensures
            final(self).builtin_pets() == old(self).builtin_pets(),
            final(self).builtin_source() == old(self).builtin_source(),
            final(self).upstream_pets() == upstream_pets(upstream),
            final(self).upstream_name() == upstream_source(upstream),
            final(self).custom_pets() == old(self).custom_pets(),
    {
        let builtin = self.builtin.copy();
        let custom = copy_pets(&self.custom);
        *self = Library::build(builtin, upstream, custom);
    }

    /// The user's pets after saving `pet` (renamed from `rename_from`, if
    /// given); refused when the pet does not pass validation.
    pub fn stage_put(&self, pet: Pet, rename_from: Option<&str>) -> (r: Result<Vec<Pet>, LibraryError>)
        ensures
            match spec_validate(pet) {
                Err(e) => r == Err::<Vec<Pet>, LibraryError>(LibraryError::Invalid(e)),
                Ok(()) => (r matches Ok(v) && v@ == put_pets(self.custom_pets(), pet, match rename_from {
                    Some(o) => Some(o@),
                    None => None,
                })),
            },
    {
        match pet.validate() {
            Err(e) => {
                return Err(LibraryError::Invalid(e));
            },
            Ok(()) => {},
        }
        let name = chars_of(pet.name.as_str());
        let mut base = copy_pets(&self.custom);
        match rename_from {
            Some(old) => {
                let old_chars = chars_of(old);
                if !chars_eq(old_chars.as_slice(), name.as_slice()) {
                    base = drop_named(&self.custom, &old_chars);
                }
            },
            None => {},
        }
        proof {
            lemma_find_name(base@, pet.name@, 0);
        }
        match find_name_index(&base, &pet.name) {
            Some(i) => {
                base.set(i, pet);
            },
            None => {
                base.push(pet);
            },
        }
        Ok(base)
    }

    /// The user's pets after deleting every pet named `name`; refused when
    /// no user pet has that name.
    pub fn stage_remove(&self, name: &str) -> (r: Result<Vec<Pet>, LibraryError>)
        ensures
            !has_name(self.custom_pets(), name@) ==> r == Err::<Vec<Pet>, LibraryError>(LibraryError::NotCustom),
            has_name(self.custom_pets(), name@) ==> (r matches Ok(v) && v@ == without_name(self.custom_pets(), name@)),
    {
        let n = chars_of(name);
        let rest = drop_named(&self.custom, &n);
        proof {
            lemma_without_facts(self.custom@, name@);
            if !has_name(self.custom@, name@) {
                lemma_without_absent(self.custom@, name@);
            }
        }
        if rest.len() == self.custom.len() {
            Err(LibraryError::NotCustom)
        } else {
            Ok(rest)
        }
    }

    /// Replace the user's pets.
    pub fn set_custom(&mut self, custom: Vec<Pet>)
        ensures
            final(self).builtin_pets() == old(self).builtin_pets(),
            final(self).builtin_source() == old(self).builtin_source(),
            final(self).upstream_pets() == old(self).upstream_pets(),
            final(self).upstream_name() == old(self).upstream_name(),
            final(self).custom_pets() == custom@,
    {
        let builtin = self.builtin.copy();
        let upstream = match &self.upstream {
            Some(u) => Some(u.copy()),
            None => None,
        };
        proof {
            assert(upstream_pets(upstream) == upstream_pets(self.upstream));
            assert(upstream_source(upstream) == upstream_source(self.upstream));
        }
        *self = Library::build(builtin, upstream, custom);
    }
}

// ── the engine ───────────────────────────────────────────────────────────

/// The candidates of the last guess that found any, kept for refining and
/// probability queries (the response lists only the heaviest).
struct GuessCache {
    candidates: Vec<Candidate>,
    dist: Distribution,
    catalog: GrowRange,
    mode: MatchMode,
    point: i32,
}

impl GuessCache {
    #[verifier::type_invariant]
    spec fn inv(self) -> bool {
        &&& self.dist.weight@.len() == self.candidates@.len()
        &&& summarizes(self.dist, self.catalog, self.candidates@)
        &&& forall|i: int| 0 <= i < self.candidates@.len() ==> loss_fits(self.catalog, #[trigger] self.candidates@[i])
    }
}

/// The calculator: the catalog layers and the last guess.
pub struct Engine {
    lib: Library,
    last_guess: Option<GuessCache>,
    custom_error: Option<String>,
}

/// What the front end asks for at start-up.
#[derive(Debug, Clone, PartialEq, Eq)]
pub struct Bootstrap {
    pub catalog: CatalogDto,
    pub constants: Constants,
    /// Where the user's pets are kept, for display.
    pub custom_path: String,
    /// Why the user's pets could not be read, if they could not.
    pub custom_error: Option<String>,
}

/// The catalog tiers minus the given tiers fit in `i32`, per axis and summed.
pub open spec fn tiers_fit(catalog: GrowRange, g: GrowRange) -> bool {
    &&& forall|a: int| 0 <= a < 5 ==> fits_i32(#[trigger] catalog.tiers()[a] - g.tiers()[a])
    &&& fits_i32(catalog.spec_sum() - g.spec_sum())
}

/// The arithmetic of a guess stays in range: the points to spend, the
/// stats plus one, and the loss against tiers given outright.
pub open spec fn guess_fits(req: GuessReq) -> bool {
    &&& (1 <= req.target.lvl <= MAX_LEVEL ==> fits_i32(req.target.lvl - 1 - req.spec_effective_not_order_point()))
    &&& req.target.hp < i64::MAX
    &&& req.target.mp < i64::MAX
    &&& req.target.atk < i64::MAX
    &&& req.target.def < i64::MAX
    &&& req.target.agi < i64::MAX
    &&& (req.target_grow matches Some(tg) ==> tiers_fit(req.grow.spec_range(), tg.spec_range()))
}

proof fn lemma_solutions_fit(catalog: GrowRange, t: crate::guess::Target, p: int, mode: MatchMode, opts: GuessOptions,
    s: Seq<Candidate>)
    requires
        sound(catalog, t, p, mode, opts, s),
        forall|i: int| 0 <= i < 5 ==> 0 <= #[trigger] opts.loss.lo(i) <= opts.loss.hi(i) <= MAX_LOSS_BOUND,
        opts.target_grow matches Some(tg) ==> tiers_fit(catalog, tg),
    ensures
        forall|i: int| 0 <= i < s.len() ==> loss_fits(catalog, #[trigger] s[i]),
{
    assert forall|i: int| 0 <= i < s.len() implies loss_fits(catalog, #[trigger] s[i]) by {
        let c = s[i];
        assert(c == mk_cand(catalog, t, mode, opts, c.grow, c.manual, c.random));
        assert(is_sol(catalog, t, p, mode, opts, c.grow, c.manual, c.random));
        reveal(is_sol);
        assert(grow_ok(catalog, opts, c.grow));
        match opts.target_grow {
            Some(tg) => {
                assert(c.grow == tg);
                assert forall|a: int| 0 <= a < 5 implies i32::MIN <= #[trigger] lost_at(catalog, c, a) <= i32::MAX by {
                    assert(fits_i32(catalog.tiers()[a] - tg.tiers()[a]));
                }
            },
            None => {
                assert forall|a: int| 0 <= a < 5 implies 0 <= #[trigger] lost_at(catalog, c, a) <= MAX_LOSS_BOUND by {
                    assert(0 <= opts.loss.lo(a) <= opts.loss.hi(a) <= MAX_LOSS_BOUND);
                    assert(catalog.tiers()[a] - opts.loss.hi(a) <= c.grow.tiers()[a]);
                }
                assert(0 <= lost_at(catalog, c, 0) <= 9 && 0 <= lost_at(catalog, c, 1) <= 9
                    && 0 <= lost_at(catalog, c, 2) <= 9 && 0 <= lost_at(catalog, c, 3) <= 9
                    && 0 <= lost_at(catalog, c, 4) <= 9);
            },
        }
    }
}

impl Engine {
    /// The catalog layers.
    pub closed spec fn library(self) -> Library {
        self.lib
    }

    /// The last guess that found something, kept for refining and
    /// probability queries: the catalog tiers it ran against, all of its
    /// candidates, their distribution, and the mode and points that found
    /// them.
    pub closed spec fn last(self) -> Option<(GrowRange, Seq<Candidate>, Distribution, MatchMode, i32)> {
        match self.last_guess {
            Some(c) => Some((c.catalog, c.candidates@, c.dist, c.mode, c.point)),
            None => None,
        }
    }

    /// A guess with candidates is kept.
    pub open spec fn has_guess(self) -> bool {
        self.last() is Some
    }

    /// Why the user's pets could not be read at start-up, if they could not.
    pub closed spec fn read_error(self) -> Option<Seq<char>> {
        match self.custom_error {
            Some(e) => Some(e@),
            None => None,
        }
    }

    /// Start from the built-in table and the user's pets as read (when they
    /// could not be read: none, and the error kept for `bootstrap`).
    pub fn new(builtin: Catalog, loaded: Result<Vec<Pet>, String>) -> (e: Self)
        ensures
            e.library().builtin_pets() == builtin.pets@,
            e.library().upstream_pets() is None,
            e.library().builtin_source() == builtin.source@,
            e.library().upstream_name() is None,
            e.library().custom_pets() == match loaded {
                Ok(p) => p@,
                Err(_) => Seq::<Pet>::empty(),
            },
            e.read_error() == match loaded {
                Ok(_) => None,
                Err(m) => Some(m@),
            },
            !e.has_guess(),
    {
        let (mine, custom_error) = match loaded {
            Ok(pets) => (pets, None),
            Err(e) => (Vec::new(), Some(e)),
        };
        Engine { lib: Library::new(builtin, mine), last_guess: None, custom_error }
    }

    /// The start-up bundle: catalog, constants, where the user's pets live,
    /// and whether reading them failed.
    pub fn bootstrap(&self, custom_path: String) -> (b: Bootstrap)
        ensures
            b.catalog.describes(self.library().merged_pets(), self.library().merged_source()),
            b.constants.spec_ok(),
            b.custom_path == custom_path,
            match b.custom_error {
                Some(e) => self.read_error() == Some(e@),
                None => self.read_error() is None,
            },
    {
        Bootstrap {
            catalog: CatalogDto::of(self.lib.merged()),
            constants: Constants::get(),
            custom_path,
            custom_error: match &self.custom_error {
                Some(e) => Some(e.clone()),
                None => None,
            },
        }
    }

    /// The layered catalog.
    pub fn catalog(&self) -> (c: CatalogDto)
        ensures
            c.describes(self.library().merged_pets(), self.library().merged_source()),
            self.library().merged_pets() == layered(self.library().builtin_pets(), self.library().upstream_pets(),
                self.library().custom_pets()),
            self.library().merged_source() == layered_source(self.library().builtin_source(), self.library().upstream_name()),
    {
        CatalogDto::of(self.lib.merged())
    }

    /// Lay an online table (CSV text) over the built-in one; the user's
    /// pets stay on top. A text that gives no pets changes nothing.
    pub fn load_catalog(&mut self, csv: &str) -> (r: Result<CatalogDto, ParseError>)
        ensures
            final(self).library().builtin_pets() == old(self).library().builtin_pets(),
            final(self).library().builtin_source() == old(self).library().builtin_source(),
            final(self).library().custom_pets() == old(self).library().custom_pets(),
            final(self).last() == old(self).last(),
            final(self).read_error() == old(self).read_error(),
            match r {
                Err(e) => final(self).library().upstream_pets() == old(self).library().upstream_pets()
                    && final(self).library().upstream_name() == old(self).library().upstream_name()
                    && originmood_result(csv@, Err(e)),
                Ok(d) => exists|c: Catalog| originmood_result(csv@, Ok(c))
                    && final(self).library().upstream_pets() == Some(c.pets@)
                    && final(self).library().upstream_name() == Some(c.source@)
                    && d.describes(final(self).library().merged_pets(), final(self).library().merged_source()),
            },
    {
        match parse_originmood(csv) {
            Err(e) => Err(e),
            Ok(cat) => {
                let ghost c = cat;
                self.lib.set_upstream(Some(cat));
                Ok(self.catalog())
            },
        }
    }

    /// Drop the online table: the built-in one with the user's pets on top.
    pub fn reset_catalog(&mut self) -> (c: CatalogDto)
        ensures
            final(self).library().builtin_pets() == old(self).library().builtin_pets(),
            final(self).library().custom_pets() == old(self).library().custom_pets(),
            final(self).library().builtin_source() == old(self).library().builtin_source(),
            final(self).library().upstream_pets() is None,
            final(self).library().upstream_name() is None,
            final(self).last() == old(self).last(),
            final(self).read_error() == old(self).read_error(),
            c.describes(final(self).library().merged_pets(), final(self).library().merged_source()),
    {
        self.lib.set_upstream(None);
        self.catalog()
    }

    /// The pets of the layered catalog whose name contains `keyword`.
    pub fn search_pets(&self, keyword: &str) -> (r: Vec<PetDto>)
        ensures
            crate::text::spec_trim(keyword@).len() == 0 ==> r@.len() == 0,
            crate::text::spec_trim(keyword@).len() > 0 ==> {
                let found = crate::petdata::with_name_part(self.library().merged_pets(), crate::text::spec_trim(keyword@),
                    self.library().merged_pets().len() as int);
                &&& r@.len() == found.len()
                &&& forall|i: int| 0 <= i < r@.len() ==> (#[trigger] r@[i]).shows(found[i])
            },
    {
        let found = self.lib.merged().search(keyword);
        let mut r: Vec<PetDto> = Vec::new();
        let mut i: usize = 0;
        while i < found.len()
            invariant
                0 <= i <= found@.len(),
                r@.len() == i,
                forall|j: int| 0 <= j < i ==> (#[trigger] r@[j]).shows(*found@[j]),
            decreases found@.len() - i,
        {
            r.push(PetDto::of(found[i]));
            i = i + 1;
        }
        proof {
            if crate::text::spec_trim(keyword@).len() > 0 {
                let m = found@.map_values(|p: &Pet| *p);
                assert forall|j: int| 0 <= j < r@.len() implies (#[trigger] r@[j]).shows(m[j]) by {
                    assert(m[j] == *found@[j]);
                }
            }
        }
        r
    }

    /// The user's pets after saving this one (renamed from `rename_from`):
    /// store them, then hand them back through `set_custom`. Refused, with
    /// nothing changed, when the pet does not pass validation.
    pub fn save_pet(&self, pet: PetDto, rename_from: Option<&str>) -> (r: Result<Vec<Pet>, LibraryError>)
        ensures
            exists|p: Pet| #[trigger] saved_as(p, pet) && match spec_validate(p) {
                Err(e) => r == Err::<Vec<Pet>, LibraryError>(LibraryError::Invalid(e)),
                Ok(()) => (r matches Ok(v) && v@ == put_pets(self.library().custom_pets(), p, match rename_from {
                    Some(o) => Some(o@),
                    None => None,
                })),
            },
    {
        let p = pet.into_pet();
        let ghost gp = p;
        let r = self.lib.stage_put(p, rename_from);
        assert(saved_as(gp, pet));
        r
    }

    /// The user's pets after deleting the one named `name`: store them,
    /// then hand them back through `set_custom`. Refused when no user pet
    /// has that name (built-in and online pets cannot be deleted).
    pub fn delete_pet(&self, name: &str) -> (r: Result<Vec<Pet>, LibraryError>)
        ensures
            !has_name(self.library().custom_pets(), name@) ==> r == Err::<Vec<Pet>, LibraryError>(LibraryError::NotCustom),
            has_name(self.library().custom_pets(), name@) ==> (r matches Ok(v) && v@ == without_name(self.library().custom_pets(), name@)),
    {
        self.lib.stage_remove(name)
    }

    /// Take the user's pets as stored and lay them over the catalog again.
    pub fn set_custom(&mut self, custom: Vec<Pet>) -> (c: CatalogDto)
        ensures
            final(self).library().builtin_pets() == old(self).library().builtin_pets(),
            final(self).library().upstream_pets() == old(self).library().upstream_pets(),
            final(self).library().builtin_source() == old(self).library().builtin_source(),
            final(self).library().upstream_name() == old(self).library().upstream_name(),
            final(self).library().custom_pets() == custom@,
            final(self).last() == old(self).last(),
            final(self).read_error() == old(self).read_error(),
            c.describes(final(self).library().merged_pets(), final(self).library().merged_source()),
    {
        self.lib.set_custom(custom);
        self.catalog()
    }
}

impl Engine {
    /// One level of a forward calculation.
    pub fn forward(&self, req: &ForwardReq) -> (r: Result<ForwardRow, RequestError>)
        requires
            1 <= req.lvl <= MAX_LEVEL ==> req.fits(req.lvl as int),
        ensures
            !(1 <= req.lvl <= MAX_LEVEL) ==> r == Err::<ForwardRow, RequestError>(RequestError::Level { lvl: req.lvl }),
            1 <= req.lvl <= MAX_LEVEL ==> (r matches Ok(row) && row_of(row, *req, req.lvl as int)),
    {
        match check_level(req.lvl) {
            Err(e) => Err(e),
            Ok(()) => Ok(forward_row(req, req.lvl)),
        }
    }

    /// A forward calculation for every level of `from..=to`.
    pub fn series(&self, req: &SeriesReq) -> (r: Result<Vec<ForwardRow>, RequestError>)
        requires
            (1 <= req.from <= req.to <= MAX_LEVEL) ==> forall|l: int| req.from <= l <= req.to ==> #[trigger] req.base.fits(l),
        ensures
            !(1 <= req.from <= MAX_LEVEL) ==> r == Err::<Vec<ForwardRow>, RequestError>(RequestError::Level { lvl: req.from }),
            (1 <= req.from <= MAX_LEVEL && !(1 <= req.to <= MAX_LEVEL)) ==> r == Err::<Vec<ForwardRow>, RequestError>(RequestError::Level { lvl: req.to }),
            (1 <= req.from <= MAX_LEVEL && 1 <= req.to <= MAX_LEVEL && req.to < req.from) ==> r == Err::<Vec<ForwardRow>, RequestError>(RequestError::SeriesReversed { from: req.from, to: req.to }),
            (1 <= req.from <= req.to <= MAX_LEVEL && req.to - req.from + 1 > MAX_SERIES_ROWS) ==> r == Err::<Vec<ForwardRow>, RequestError>(RequestError::SeriesTooLong),
            (1 <= req.from <= req.to <= MAX_LEVEL && req.to - req.from + 1 <= MAX_SERIES_ROWS) ==> (r matches Ok(rows)
                && rows@.len() == req.to - req.from + 1
                && forall|k: int| 0 <= k < rows@.len() ==> row_of(#[trigger] rows@[k], req.base, req.from + k)),
    {
        if let Err(e) = check_level(req.from) {
            return Err(e);
        }
        if let Err(e) = check_level(req.to) {
            return Err(e);
        }
        if req.to < req.from {
            return Err(RequestError::SeriesReversed { from: req.from, to: req.to });
        }
        if req.to - req.from + 1 > MAX_SERIES_ROWS {
            return Err(RequestError::SeriesTooLong);
        }
        let mut rows: Vec<ForwardRow> = Vec::new();
        let mut lvl = req.from;
        while lvl <= req.to
            invariant
                1 <= req.from <= lvl <= req.to + 1,
                req.to <= MAX_LEVEL,
                forall|l: int| req.from <= l <= req.to ==> #[trigger] req.base.fits(l),
                rows@.len() == lvl - req.from,
                forall|k: int| 0 <= k < rows@.len() ==> row_of(#[trigger] rows@[k], req.base, req.from + k),
            decreases req.to + 1 - lvl,
        {
            assert(req.base.fits(lvl as int));
            rows.push(forward_row(&req.base, lvl));
            lvl = lvl + 1;
        }
        Ok(rows)
    }

    /// Guess the actual tiers, spent points and random tiers behind the
    /// observed stats. The level, the catch level and the random ranges
    /// are checked first; a guess that finds something is kept for
    /// refining and probability queries, one that finds nothing clears it.
    pub fn guess(&mut self, req: &GuessReq) -> (r: Result<GuessResp, RequestError>)
        requires
            guess_fits(*req),
        ensures
            !(1 <= req.target.lvl <= MAX_LEVEL) ==> r == Err::<GuessResp, RequestError>(RequestError::Level { lvl: req.target.lvl }),
            (1 <= req.target.lvl <= MAX_LEVEL && req.check_catch_spec() is Err)
                ==> r == Err::<GuessResp, RequestError>(req.check_catch_spec()->Err_0),
            (1 <= req.target.lvl <= MAX_LEVEL && req.check_catch_spec() is Ok && !req.ranges.spec_random_satisfiable())
                ==> r == Err::<GuessResp, RequestError>(RequestError::RandomRange {
                    lo: sum_lo(req.ranges.random_min) as i64,
                    hi: sum_lo(req.ranges.random_max) as i64,
                }),
            (1 <= req.target.lvl <= MAX_LEVEL && req.check_catch_spec() is Ok && req.ranges.spec_random_satisfiable())
                ==> r is Ok,
            final(self).library() == old(self).library(),
            final(self).read_error() == old(self).read_error(),
            match r {
                Ok(resp) => exists|o: GuessOptions, out: GuessOutcome| #[trigger] req.options_of(o)
                    && #[trigger] solve_result(req.grow.spec_range(), req.target.spec_target(), o, out)
                    && resp_of(resp, req.grow.spec_range(), out.candidates@, out.mode, out.point, MAX_RESULT_ROWS)
                    && (out.candidates@.len() == 0 ==> final(self).last() is None)
                    && (out.candidates@.len() > 0 ==> (final(self).last() matches Some((cat, cands, d, m, p))
                        && cat == req.grow.spec_range() && cands == out.candidates@ && m == out.mode && p == out.point
                        && summarizes(d, cat, cands))),
                Err(_) => final(self).last() == old(self).last(),
            },
    {
        if let Err(e) = check_level(req.target.lvl) {
            return Err(e);
        }
        if let Err(e) = req.check_catch() {
            return Err(e);
        }
        if let Err(e) = req.check_ranges() {
            return Err(e);
        }
        let catalog = req.grow.to_range();
        let target = req.target.to_target();
        let opts = req.options();
        let _ = opts.loss.split();
        let outcome = solve(catalog, target, opts);
        proof {
            if outcome.candidates@.len() > 0 {
                let l = crate::guess::ladder(opts.mode, target.lvl, crate::guess::spec_full_point(target, opts) as i32);
                let k = choose|k: int| 0 <= k < l.len() && l[k] == (outcome.point, outcome.mode) && outcome.point >= 0
                    && search_result(catalog, target, outcome.point as int, outcome.mode, opts, outcome.candidates@)
                    && forall|j: int| 0 <= j < k && l[j].0 >= 0 ==> !crate::guess::has_sol(catalog, target, l[j].0 as int, l[j].1, opts);
                lemma_solutions_fit(catalog, target, outcome.point as int, outcome.mode, opts, outcome.candidates@);
            }
        }
        let resp = build_guess_resp(catalog, &outcome, MAX_RESULT_ROWS);
        let ghost out = outcome;
        self.last_guess = match &resp.distribution {
            Some(d) => Some(GuessCache {
                candidates: outcome.candidates,
                dist: d.copy(),
                catalog,
                mode: outcome.mode,
                point: outcome.point,
            }),
            None => None,
        };
        Ok(resp)
    }
}

impl Engine {
    /// Filter the candidates of the last guess (all of them, not only the
    /// ones returned); refused before any guess found something.
    pub fn refine(&self, req: &RefineReq) -> (r: Result<RefineResp, RequestError>)
        ensures
            !self.has_guess() ==> r == Err::<RefineResp, RequestError>(RequestError::NoGuess),
            self.last() matches Some((cat, cands, d, m, p)) ==> {
                let kept = req.kept(cands, cands.len() as int);
                &&& summarizes(d, cat, cands)
                &&& r matches Ok(resp)
                &&& resp_of(resp.result, cat, kept, m, p, MAX_RESULT_ROWS)
                &&& resp.before == cands.len()
                &&& resp.kept_weight == wsum(d.weight@, req.keep_pred(cands), cands.len() as int)
                &&& resp.total_weight == d.total_weight
                &&& options_over(resp.options, kept)
                &&& resp.settled == RefineSettled::spec_of(resp.options)
                &&& narrowed_of(resp.narrowed_loss, cat, kept)
            },
    {
        match &self.last_guess {
            None => Err(RequestError::NoGuess),
            Some(cache) => {
                proof {
                    use_type_invariant(cache);
                }
                Ok(req.eval(
                    cache.catalog,
                    cache.candidates.as_slice(),
                    &cache.dist,
                    cache.mode,
                    cache.point,
                    MAX_RESULT_ROWS,
                ))
            },
        }
    }

    /// A probability query over all candidates of the last guess; refused
    /// before any guess found something.
    pub fn probability(&self, req: &ProbabilityReq) -> (r: Result<ProbabilityResp, RequestError>)
        ensures
            !self.has_guess() ==> r == Err::<ProbabilityResp, RequestError>(RequestError::NoGuess),
            self.last() matches Some((cat, cands, d, m, p)) ==> {
                let n = cands.len() as int;
                &&& summarizes(d, cat, cands)
                &&& r matches Ok(resp)
                &&& resp.in_range == wsum(d.weight@, in_grow_box(cands, req.lo, req.hi), n)
                &&& resp.axis_sum == if real_axes(req.axes@).len() == 0 {
                    None::<u128>
                } else {
                    Some(wsum(d.weight@, axes_at_least(cands, real_axes(req.axes@), req.threshold as int), n) as u128)
                }
                &&& resp.total_weight == d.total_weight
                &&& resp.candidates == n
            },
    {
        match &self.last_guess {
            None => Err(RequestError::NoGuess),
            Some(cache) => {
                proof {
                    use_type_invariant(cache);
                }
                Ok(req.eval(cache.candidates.as_slice(), &cache.dist))
            },
        }
    }

    /// Search the layered catalog for pets that can reach the floors. The
    /// target level must lie above 1 (a pet is caught at level 1 at the
    /// least, so there is nothing to grow into there) and within the cap.
    pub fn search_by_stats(&self, req: &SearchReq) -> (r: Result<SearchResp, RequestError>)
        ensures
            !(2 <= req.lvl <= MAX_LEVEL) ==> r == Err::<SearchResp, RequestError>(RequestError::Level { lvl: req.lvl }),
            2 <= req.lvl <= MAX_LEVEL ==> (r matches Ok(resp) && req.answered_by(resp, self.library().merged_pets())),
    {
        if req.lvl <= 1 {
            return Err(RequestError::Level { lvl: req.lvl });
        }
        match check_level(req.lvl) {
            Err(e) => Err(e),
            Ok(()) => Ok(req.run(self.lib.merged())),
        }
    }
}

/// `p` is the pet a user saves from `d`: name trimmed, marked as the user's.
pub open spec fn saved_as(p: Pet, d: PetDto) -> bool {
    &&& p.id == d.id
    &&& p.name@ == crate::text::spec_trim(d.name@)
    &&& p.race == d.race
    &&& p.grow == d.grow
    &&& p.bprate == d.bprate
    &&& p.skills == d.skills
    &&& p.element == d.element
    &&& p.custom
}

} // verus!
