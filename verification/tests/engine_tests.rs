use petcalc::engine::check_level;

#[test]
fn level_bounds_are_enforced() {
    assert!(check_level(1).is_ok());
    assert!(check_level(255).is_ok());
    assert!(check_level(0).is_err());
    assert!(check_level(256).is_err());
}

#[test]
fn tier_bounds_agree_with_the_engine() {
    assert_eq!(petcalc::petdata::MAX_TIER as usize, petcalc::rates::MAX_TIER);
}

use petcalc::dto::PetDto;
use petcalc::engine::{Engine, LibraryError};
use petcalc::petdata::{parse_builtin, PetError};

/// A small built-in table in the shape of the real one: a full row and a
/// slim row (no number, race or skill slots).
const BUILTIN: &str = "# id\tname\trace\thp\tatk\tdef\tagi\tmp\trate\tskills\n\
1\t虎人\t0\t22\t26\t17\t19\t16\t0.2\t7\n\
2\t貓妖\t0\t20\t20\t20\t20\t20\t0.2\t7\n\
\t小可愛優奈\t\t28\t28\t28\t28\t28\t0.2\t\n";

const ONLINE_CSV: &str = "名稱,種族,體力,力量,防禦,速度,魔法,技格,總檔,屬性\n\
虎人,龍系,1,2,3,4,5,8,15,地10\n\
只有線上有,人形系,9,9,9,9,9,8,45,水10\n";

fn engine() -> Engine {
    Engine::new(parse_builtin(BUILTIN), Ok(Vec::new()))
}

fn pet_dto(name: &str, grow: [i32; 5]) -> PetDto {
    PetDto {
        id: None,
        name: name.into(),
        race: 0,
        race_name: "",
        grow,
        grow_sum: 0,
        bprate: 20,
        skills: None,
        element: None,
        custom: false,
    }
}

fn find(e: &Engine, name: &str) -> Option<PetDto> {
    e.catalog().pets.into_iter().find(|p| p.name == name)
}

fn save(e: &mut Engine, name: &str, grow: [i32; 5], rename_from: Option<&str>) {
    let staged = e.save_pet(pet_dto(name, grow), rename_from).unwrap();
    e.set_custom(staged);
}

#[test]
fn builtin_catalog_survives_the_dto_conversion() {
    let dto = engine().catalog();
    assert_eq!(dto.count, 3);
    let tabbed: usize = dto.races.iter().map(|r| r.count).sum();
    assert_eq!(tabbed, dto.count);
}

#[test]
fn adding_a_pet_shows_up_in_the_merged_catalog_and_in_the_store() {
    let mut e = engine();
    let staged = e.save_pet(pet_dto("我抓的怪", [30, 30, 30, 30, 30]), None).unwrap();
    assert_eq!(staged.len(), 1, "the list to store holds the pet");
    e.set_custom(staged);
    assert!(find(&e, "我抓的怪").unwrap().custom);
}

#[test]
fn editing_a_base_pet_creates_an_override() {
    let mut e = engine();
    let before = e.catalog().count;
    save(&mut e, "虎人", [99, 1, 1, 1, 1], None);
    assert_eq!(e.catalog().count, before, "an override adds no pet");
    assert_eq!(find(&e, "虎人").unwrap().grow, [99, 1, 1, 1, 1]);
    e.set_custom(Vec::new());
    assert_eq!(find(&e, "虎人").unwrap().grow, [22, 26, 17, 19, 16], "the built-in pet was changed");
}

#[test]
fn deleting_an_override_brings_the_base_pet_back() {
    let mut e = engine();
    save(&mut e, "虎人", [99, 1, 1, 1, 1], None);
    let staged = e.delete_pet("虎人").unwrap();
    e.set_custom(staged);
    let tiger = find(&e, "虎人").expect("the built-in pet did not come back");
    assert_eq!(tiger.grow, [22, 26, 17, 19, 16]);
    assert!(!tiger.custom);
}

#[test]
fn deleting_a_base_pet_is_refused() {
    let e = engine();
    assert_eq!(e.delete_pet("虎人").unwrap_err(), LibraryError::NotCustom);
    assert!(find(&e, "虎人").is_some(), "it was deleted");
}

#[test]
fn renaming_replaces_rather_than_duplicates() {
    let mut e = engine();
    save(&mut e, "舊名字", [10, 10, 10, 10, 10], None);
    let staged = e.save_pet(pet_dto("新名字", [10, 10, 10, 10, 10]), Some("舊名字")).unwrap();
    assert_eq!(staged.len(), 1);
    e.set_custom(staged);
    assert!(find(&e, "舊名字").is_none(), "the old name is still there");
    assert!(find(&e, "新名字").is_some());
}

#[test]
fn saving_without_renaming_keeps_the_pet() {
    let mut e = engine();
    save(&mut e, "甲", [10, 10, 10, 10, 10], None);
    let staged = e.save_pet(pet_dto("甲", [20, 20, 20, 20, 20]), Some("甲")).unwrap();
    assert_eq!(staged.len(), 1);
    e.set_custom(staged);
    assert_eq!(find(&e, "甲").unwrap().grow, [20, 20, 20, 20, 20]);
}

#[test]
fn loading_the_online_catalog_is_a_union() {
    let mut e = engine();
    let builtin_only = "貓妖";
    assert!(find(&e, builtin_only).is_some());
    e.load_catalog(ONLINE_CSV).unwrap();
    assert_eq!(find(&e, "虎人").unwrap().grow, [1, 2, 3, 4, 5], "the online pet should win");
    assert!(find(&e, "只有線上有").is_some());
    assert!(find(&e, builtin_only).is_some(), "the built-in-only pet was washed out");
}

#[test]
fn loading_the_online_catalog_keeps_custom_pets() {
    let mut e = engine();
    save(&mut e, "我抓的怪", [30, 30, 30, 30, 30], None);
    e.load_catalog(ONLINE_CSV).unwrap();
    assert!(find(&e, "我抓的怪").is_some(), "the user's pet is gone");
}

#[test]
fn the_online_catalog_is_not_custom() {
    let mut e = engine();
    e.load_catalog(ONLINE_CSV).unwrap();
    assert!(!find(&e, "只有線上有").unwrap().custom);
    assert!(!find(&e, "虎人").unwrap().custom);
}

#[test]
fn a_broken_catalog_leaves_the_builtin_table_alone() {
    let mut e = engine();
    let before = e.catalog().count;
    assert!(e.load_catalog("這不是 CSV").is_err());
    assert_eq!(e.catalog().count, before, "a failed parse must not touch the catalog");
    assert!(find(&e, "虎人").is_some());
}

#[test]
fn resetting_drops_the_online_layer() {
    let mut e = engine();
    let before = e.catalog().count;
    e.load_catalog(ONLINE_CSV).unwrap();
    assert!(find(&e, "只有線上有").is_some());
    e.reset_catalog();
    assert_eq!(e.catalog().count, before);
    assert!(find(&e, "只有線上有").is_none());
    assert_eq!(find(&e, "虎人").unwrap().grow, [22, 26, 17, 19, 16], "the built-in pet should be back");
}

#[test]
fn invalid_pets_never_reach_the_store() {
    let e = engine();
    let err = e.save_pet(pet_dto("檔次爆表", [999, 0, 0, 0, 0]), None).unwrap_err();
    assert_eq!(err, LibraryError::Invalid(PetError::TierOutOfRange { axis: 0, value: 999 }));
    assert!(find(&e, "檔次爆表").is_none());
}

#[test]
fn a_corrupt_store_still_boots_but_reports() {
    let e = Engine::new(parse_builtin(BUILTIN), Err("broken".to_string()));
    let boot = e.bootstrap("(memory)".to_string());
    assert!(boot.custom_error.is_some(), "the broken store was swallowed");
    assert_eq!(boot.catalog.count, 3, "the catalog should come up anyway");
}

#[test]
fn refining_before_guessing_is_an_error() {
    let e = engine();
    let req = petcalc::dto::RefineReq { stat: [None; 7], bp: [None; 5], grow: [None; 5] };
    assert_eq!(e.refine(&req).unwrap_err(), petcalc::dto::RequestError::NoGuess);
}

#[test]
fn the_builtin_table_keeps_both_row_shapes() {
    let c = parse_builtin(BUILTIN);
    assert_eq!(c.pets.len(), 3);
    let tiger = &c.pets[0];
    assert_eq!(tiger.id, Some(1));
    assert_eq!(tiger.race, 0);
    assert_eq!(tiger.grow, [22, 26, 17, 19, 16]);
    assert_eq!(tiger.bprate, 20);
    assert_eq!(tiger.skills, Some(7));
    let slim = &c.pets[2];
    assert_eq!(slim.name, "小可愛優奈");
    assert_eq!(slim.id, None);
    assert_eq!(slim.race, petcalc::petdata::RACE_UNKNOWN);
    assert_eq!(slim.skills, None);
    assert_eq!(slim.grow, [28, 28, 28, 28, 28]);
    assert_eq!(slim.bprate, 20);
}
