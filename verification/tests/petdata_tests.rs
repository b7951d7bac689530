use petcalc::petdata::{
    parse_builtin, parse_originmood, parse_spetdata, race_code, race_name, skill_slots, Catalog,
    ParseError, Pet, PetError, AXES, DEFAULT_BPRATE, MAX_RACE, MAX_SKILL_SLOTS, MAX_TIER,
    RACE_NAMES, RACE_TAB_ORDER, RACE_UNKNOWN,
};

/// A few rows of the built-in table, in both of its row shapes.
const BUILTIN: &str = "# id\tname\trace\thp\tatk\tdef\tagi\tmp\trate\tskills\n\
1\t虎人\t0\t22\t26\t17\t19\t16\t0.2\t7\n\
2\t吸血蝙蝠\t2\t20\t20\t20\t20\t20\t0.2\t7\n\
3\t大蝙蝠\t2\t21\t20\t20\t20\t20\t0.2\t7\n\
4\t火蝙蝠\t2\t22\t20\t20\t20\t20\t0.2\t7\n\
5\t冰蝙蝠\t2\t23\t20\t20\t20\t20\t0.2\t7\n\
6\t毒蝙蝠\t2\t24\t20\t20\t20\t20\t0.2\t7\n\
7\t雷蝙蝠\t2\t25\t20\t20\t20\t20\t0.2\t7\n\
\t小可愛優奈\t\t28\t28\t28\t28\t28\t0.2\t\n\
\t死神公雞\t\t30\t30\t30\t30\t30\t0.25\t\n";

fn builtin() -> Catalog {
    parse_builtin(BUILTIN)
}

#[test]
fn the_race_codes_still_mean_what_the_original_meant() {
    let table = [
        (0u8, "野獸系", "野獸系"),
        (1, "死靈系", "不死系"),
        (2, "邪魔系", "飛行系"),
        (3, "蟲系", "昆蟲系"),
        (4, "植物系", "植物系"),
        (5, "能源系", "特殊系"),
        (6, "各種系", "金屬系"),
        (7, "龍族系", "龍系"),
        (8, "人族系", "人形系"),
    ];
    for (code, was, now) in table {
        assert_eq!(race_name(code), now, "code {code} (was {was})");
        assert_eq!(race_code(now), code, "{now} does not map back to {code}");
    }
    assert_eq!(table.len(), MAX_RACE as usize + 1);
    assert_eq!(race_code("特殊系"), 5);
    assert_eq!(race_name(RACE_UNKNOWN), "其他");
    assert_eq!(RACE_NAMES.len(), RACE_UNKNOWN as usize + 1);
}

#[test]
fn unknown_race_names_fall_back_to_other() {
    assert_eq!(race_code("能源系"), RACE_UNKNOWN, "old names are no longer known");
    assert_eq!(race_code(""), RACE_UNKNOWN);
    assert_eq!(race_code("  龍系  "), 7, "white space around is ignored");
}

#[test]
fn builtin_table_parses_completely() {
    let c = builtin();
    let data_lines = BUILTIN.lines().filter(|l| !l.starts_with('#') && !l.is_empty()).count();
    assert_eq!(c.pets.len(), data_lines, "a row was lost");
}

#[test]
fn builtin_keeps_both_row_shapes() {
    let c = builtin();
    let full = c.pets.iter().filter(|p| p.id.is_some()).count();
    assert_eq!(full, 7);
    assert_eq!(c.pets.len() - full, 2);
    let slim_pet = c.find_by_name("小可愛優奈").expect("the slim row is missing");
    assert_eq!(slim_pet.id, None);
    assert_eq!(slim_pet.race, RACE_UNKNOWN);
    assert_eq!(slim_pet.skills, None);
    assert_eq!(slim_pet.grow, [28, 28, 28, 28, 28]);
    assert_eq!(slim_pet.bprate, 20);
}

#[test]
fn builtin_entries_look_sane() {
    let c = builtin();
    let tiger = c.find_by_name("虎人").expect("no 虎人");
    assert_eq!(tiger.id, Some(1));
    assert_eq!(tiger.race, 0);
    assert_eq!(tiger.grow, [22, 26, 17, 19, 16]);
    assert_eq!(tiger.bprate, 20);
    assert_eq!(tiger.skills, Some(7));
    for p in &c.pets {
        assert!(!p.name.is_empty());
        assert!(p.race <= RACE_UNKNOWN);
        assert!(p.bprate > 0 && p.bprate < 100);
        assert!(p.grow.iter().all(|&g| (0..=110).contains(&g)));
    }
}

#[test]
fn race_tabs_cover_every_race() {
    let mut sorted = RACE_TAB_ORDER;
    sorted.sort_unstable();
    assert_eq!(sorted, [0, 1, 2, 3, 4, 5, 6, 7, 8, RACE_UNKNOWN]);
    let c = builtin();
    let total: usize = RACE_TAB_ORDER.iter().map(|&r| c.by_race(r).len()).sum();
    assert_eq!(total, c.pets.len(), "a pet belongs to no tab");
}

fn utf16le(s: &str) -> Vec<u8> {
    let mut v = vec![0xFF, 0xFE];
    for u in s.encode_utf16() {
        v.extend_from_slice(&u.to_le_bytes());
    }
    v
}

const SAMPLE: &str = "[自製寵物]\r\n\
    編號100=破曉之刃,27 16 25 15 37 20 6 0 0 40 60 8\r\n\
    編號146=火焰牛鬼領主,14 6 12 48 45 20 8 0 0 50 50 9\r\n\
    [龍的砂時計]\r\n\
    備份日期=2026/4/26\r\n\
    [檢查資料]\r\n\
    版本=魔物觀測者 v3.12\r\n";

#[test]
fn parses_the_documented_ini_shape() {
    let c = parse_spetdata(&utf16le(SAMPLE)).unwrap();
    assert_eq!(c.pets.len(), 2);
    let p = &c.pets[0];
    assert_eq!(p.id, Some(100));
    assert_eq!(p.name, "破曉之刃");
    assert_eq!(p.grow, [27, 16, 25, 15, 37]);
    assert_eq!(p.bprate, 20);
    assert_eq!(p.race, 6);
    assert_eq!(p.element, Some([0, 0, 40, 60]));
    assert_eq!(p.skills, Some(8));
    assert_eq!(c.pets[1].name, "火焰牛鬼領主");
    assert_eq!(c.pets[1].race, 8);
}

#[test]
fn element_columns_always_total_one_hundred() {
    let c = parse_spetdata(&utf16le(SAMPLE)).unwrap();
    for p in &c.pets {
        let e = p.element.unwrap();
        assert_eq!(e.iter().sum::<i32>(), 100, "{}", p.name);
    }
}

#[test]
fn the_new_upstream_twelfth_column_is_not_read_as_skill_slots() {
    let newer = "[自製寵物]\r\n編號1069=小白龍,20 36 9 42 16 20 7 0 100 0 0 123\r\n";
    let c = parse_spetdata(&utf16le(newer)).unwrap();
    let p = &c.pets[0];
    assert_eq!(p.grow, [20, 36, 9, 42, 16]);
    assert_eq!(p.element, Some([0, 100, 0, 0]));
    assert_eq!(p.skills, None);
    assert_eq!(skill_slots(8), Some(8));
    assert_eq!(skill_slots(MAX_SKILL_SLOTS), Some(MAX_SKILL_SLOTS));
    assert_eq!(skill_slots(MAX_SKILL_SLOTS + 1), None);
    assert_eq!(skill_slots(0), None);
}

#[test]
fn accepts_utf8_without_bom_too() {
    let c = parse_spetdata(SAMPLE.as_bytes()).unwrap();
    assert_eq!(c.pets.len(), 2);
    assert_eq!(c.pets[0].name, "破曉之刃");
}

#[test]
fn survives_a_non_utf8_tail() {
    let mut bytes = "[自製寵物]\n編號1=甲,1 2 3 4 5 20 0 100 0 0 0 6\n".as_bytes().to_vec();
    bytes.extend_from_slice(&[0xB5, 0x4C, 0xA5, 0xBB, 0x0A]);
    let c = parse_spetdata(&bytes).unwrap();
    assert_eq!(c.pets.len(), 1);
    assert_eq!(c.pets[0].grow, [1, 2, 3, 4, 5]);
}

#[test]
fn later_records_win_on_duplicate_id() {
    let src = "[自製寵物]\n編號7=舊的,1 1 1 1 1 20 0 100 0 0 0 6\n編號7=新的,2 2 2 2 2 20 0 100 0 0 0 6\n";
    let c = parse_spetdata(src.as_bytes()).unwrap();
    assert_eq!(c.pets.len(), 1);
    assert_eq!(c.pets[0].name, "新的");
    assert_eq!(c.pets[0].grow, [2, 2, 2, 2, 2]);
}

#[test]
fn rejects_a_file_with_no_pet_section() {
    let err = parse_spetdata("[檢查資料]\n版本=x\n".as_bytes()).unwrap_err();
    assert!(matches!(err, ParseError::NoPets { .. }));
}

#[test]
fn skips_malformed_records_without_losing_good_ones() {
    let src = "[自製寵物]\n編號1=太少欄,1 2 3\n編號=沒有編號,1 2 3 4 5 20 0 100 0 0 0 6\n編號2=好的,9 8 7 6 5 20 3 0 100 0 0 7\n";
    let c = parse_spetdata(src.as_bytes()).unwrap();
    assert_eq!(c.pets.len(), 1);
    assert_eq!(c.pets[0].name, "好的");
    assert_eq!(c.pets[0].race, 3);
}

fn custom_pet(name: &str, grow: [i32; AXES]) -> Pet {
    Pet { id: None, name: name.into(), race: 0, grow, bprate: 20, skills: None, element: None, custom: true }
}

#[test]
fn overlay_appends_a_new_name() {
    let mut c = builtin();
    let before = c.pets.len();
    c.overlay(&[custom_pet("我抓的怪", [30, 30, 30, 30, 30])]);
    assert_eq!(c.pets.len(), before + 1);
    let p = c.find_by_name("我抓的怪").expect("the pet did not get in");
    assert!(p.custom);
    assert_eq!(p.grow, [30, 30, 30, 30, 30]);
}

#[test]
fn overlay_replaces_a_base_pet_in_place() {
    let mut c = builtin();
    let before = c.pets.len();
    let at = c.pets.iter().position(|p| p.name == "虎人").unwrap();
    c.overlay(&[custom_pet("虎人", [99, 1, 1, 1, 1])]);
    assert_eq!(c.pets.len(), before);
    assert_eq!(c.pets.iter().filter(|p| p.name == "虎人").count(), 1);
    assert_eq!(c.pets[at].grow, [99, 1, 1, 1, 1]);
    assert!(c.pets[at].custom);
}

#[test]
fn overlay_never_touches_the_builtin_table() {
    let mut c = builtin();
    c.overlay(&[custom_pet("虎人", [99, 1, 1, 1, 1])]);
    assert_eq!(builtin().find_by_name("虎人").unwrap().grow, [22, 26, 17, 19, 16]);
}

#[test]
fn overlay_marks_everything_custom() {
    let mut c = builtin();
    let mut p = custom_pet("旗標沒設好", [1, 1, 1, 1, 1]);
    p.custom = false;
    c.overlay(&[p]);
    assert!(c.find_by_name("旗標沒設好").unwrap().custom);
}

#[test]
fn base_catalogs_are_never_custom() {
    assert!(builtin().pets.iter().all(|p| !p.custom));
    let c = parse_spetdata(&utf16le(SAMPLE)).unwrap();
    assert!(c.pets.iter().all(|p| !p.custom));
}

#[test]
fn validation_accepts_a_plain_pet() {
    assert_eq!(custom_pet("正常", [30, 30, 30, 30, 30]).validate(), Ok(()));
}

#[test]
fn validation_rejects_the_things_that_break_the_engine() {
    let bad = |f: fn(&mut Pet)| {
        let mut p = custom_pet("測試", [30, 30, 30, 30, 30]);
        f(&mut p);
        p.validate().unwrap_err()
    };
    assert_eq!(bad(|p| p.name = "   ".into()), PetError::EmptyName);
    assert_eq!(bad(|p| p.grow[3] = MAX_TIER + 1), PetError::TierOutOfRange { axis: 3, value: MAX_TIER + 1 });
    assert_eq!(bad(|p| p.grow[0] = -1), PetError::TierOutOfRange { axis: 0, value: -1 });
    assert_eq!(bad(|p| p.race = RACE_UNKNOWN + 1), PetError::BadRace(RACE_UNKNOWN + 1));
    assert_eq!(bad(|p| p.bprate = 0), PetError::BadRate(0));
    assert_eq!(bad(|p| p.bprate = -20), PetError::BadRate(-20));
    assert_eq!(bad(|p| p.element = Some([10, 10, 10, 10])), PetError::ElementNotHundred(40));
}

#[test]
fn validation_allows_the_boundaries() {
    assert!(custom_pet("下界", [0; AXES]).validate().is_ok());
    assert!(custom_pet("上界", [MAX_TIER; AXES]).validate().is_ok());
    let mut p = custom_pet("四屬性", [1; AXES]);
    p.element = Some([25, 25, 25, 25]);
    assert!(p.validate().is_ok());
    p.element = None;
    assert!(p.validate().is_ok());
}

#[test]
fn search_and_lookup() {
    let c = builtin();
    assert!(c.search("蝙蝠").len() > 5);
    assert!(c.search("").is_empty());
    assert!(c.search("這隻不存在").is_empty());
    assert_eq!(c.find_by_id(1).map(|p| p.name.as_str()), Some("虎人"));
}

#[test]
fn the_retired_race_code_is_gone_from_the_builtin_table() {
    let c = builtin();
    assert!(c.pets.iter().all(|p| p.race <= MAX_RACE || p.race == RACE_UNKNOWN));
    let p = c.find_by_name("死神公雞").unwrap();
    assert_eq!(p.race, RACE_UNKNOWN);
}

const CSV: &str = "名稱,種族,體力,力量,防禦,速度,魔法,技格,總檔,屬性,技能,image,任務用途
    奧菲兒,人形系,43,6,6,20,50,9,125,地10,超強石化魔法LV10,/img/a.gif,
    水雷猴,野獸系,26,19,21,18,39,8,123,地1水9,混亂衝擊波LV4,/img/b.gif,
    太晶龍蝦霸王,昆蟲系,35,50,14,20,6,8,125,火9風1,氣功彈LV2,/img/c.gif,
";

#[test]
fn originmood_csv_parses() {
    let c = parse_originmood(CSV).expect("did not parse");
    assert_eq!(c.pets.len(), 3);
    let p = &c.pets[0];
    assert_eq!(p.name, "奧菲兒");
    assert_eq!(p.race, 8);
    assert_eq!(p.grow, [43, 6, 6, 20, 50]);
    assert_eq!(p.bprate, DEFAULT_BPRATE);
    assert_eq!(p.skills, Some(9));
    assert_eq!(p.element, Some([100, 0, 0, 0]));
    assert!(!p.custom);
    assert_eq!(p.id, None);
    assert_eq!(c.pets[1].element, Some([10, 90, 0, 0]));
    assert_eq!(c.pets[2].element, Some([0, 0, 90, 10]));
    for p in &c.pets {
        assert_eq!(p.validate(), Ok(()), "{}", p.name);
    }
}

#[test]
fn originmood_columns_are_found_by_header_not_position() {
    let moved = "種族,名稱,魔法,速度,防禦,力量,體力,屬性,技格,總檔
        人形系,奧菲兒,50,20,6,6,43,地10,9,125
";
    let c = parse_originmood(moved).expect("did not parse");
    assert_eq!(c.pets[0].name, "奧菲兒");
    assert_eq!(c.pets[0].grow, [43, 6, 6, 20, 50]);
    assert_eq!(c.pets[0].skills, Some(9));
}

#[test]
fn the_dirty_element_row_survives() {
    let csv = "名稱,種族,體力,力量,防禦,速度,魔法,技格,總檔,屬性
        暴雪魔獸,野獸系,30,30,30,30,30,8,150,水10(水5火5)
";
    let c = parse_originmood(csv).expect("did not parse");
    assert_eq!(c.pets.len(), 1);
    assert_eq!(c.pets[0].element, Some([0, 100, 0, 0]));
    assert_eq!(c.pets[0].validate(), Ok(()));
}

#[test]
fn a_csv_without_the_columns_we_need_is_an_error() {
    assert!(parse_originmood("").is_err());
    assert!(parse_originmood("名稱,種族\n奧菲兒,人形系\n").is_err());
}

fn upstream_pet(id: Option<i32>, name: &str, race: u8, g: i32, skills: Option<i32>) -> Pet {
    Pet { id, name: name.into(), race, grow: [g; AXES], bprate: 20, skills, element: None, custom: false }
}

#[test]
fn merge_upstream_is_a_union_with_the_newer_side_winning() {
    let mut base = Catalog {
        source: "舊".into(),
        pets: vec![upstream_pet(Some(7), "同名", 0, 1, None), upstream_pet(Some(8), "只有舊的有", 0, 2, None)],
    };
    let newer = vec![upstream_pet(None, "同名", 3, 9, Some(8)), upstream_pet(None, "只有新的有", 4, 5, None)];
    base.merge_upstream(&newer);
    assert_eq!(base.pets.len(), 3);
    let hit = base.find_by_name("同名").unwrap();
    assert_eq!(hit.grow, [9, 9, 9, 9, 9]);
    assert_eq!(hit.race, 3);
    assert_eq!(hit.id, Some(7));
    assert!(!hit.custom);
    assert!(base.find_by_name("只有舊的有").is_some());
    assert!(base.find_by_name("只有新的有").is_some());
}

#[test]
fn custom_pets_still_overlay_the_merged_table() {
    let mut c = builtin();
    c.merge_upstream(&parse_originmood(CSV).unwrap().pets);
    let before = c.pets.len();
    c.overlay(&[upstream_pet(None, "奧菲兒", 0, 1, None)]);
    assert_eq!(c.pets.len(), before);
    let p = c.find_by_name("奧菲兒").unwrap();
    assert_eq!(p.grow, [1, 1, 1, 1, 1]);
    assert!(p.custom);
}

#[test]
fn reordering_every_csv_column_alike_gives_the_same_catalog() {
    let plain = "名稱,種族,體力,力量,防禦,速度,魔法,技格,總檔,屬性
奧菲兒,人形系,43,6,6,20,50,9,125,地10
水雷猴,野獸系,26,19,21,18,39,8,123,地1水9
,野獸系,1,1,1,1,1,1,5,地10
";
    let moved = "屬性,魔法,總檔,名稱,速度,技格,防禦,種族,力量,體力
地10,50,125,奧菲兒,20,9,6,人形系,6,43
地1水9,39,123,水雷猴,18,8,21,野獸系,19,26
地10,1,5,,1,1,1,野獸系,1,1
";
    let a = parse_originmood(plain).expect("did not parse");
    let b = parse_originmood(moved).expect("did not parse");
    assert_eq!(a.pets, b.pets);
    assert_eq!(a.source, b.source);
    assert_eq!(a.pets.len(), 2);
}

#[test]
fn utf16_names_keep_surrogate_pairs_and_mark_lone_halves() {
    let mut units: Vec<u16> = "[自製寵物]\r\n編號7=".encode_utf16().collect();
    units.extend_from_slice(&[0xD834, 0xDD1E, 0x9F8D, 0xD800, 0x9F8D, 0xDD1E]);
    units.extend("龍,20 20 20 20 20 20 7 25 25 25 25 8\r\n".encode_utf16());
    let mut le = vec![0xFF, 0xFE];
    let mut be = vec![0xFE, 0xFF];
    for u in &units {
        le.extend_from_slice(&u.to_le_bytes());
        be.extend_from_slice(&u.to_be_bytes());
    }
    for bytes in [le, be] {
        let c = parse_spetdata(&bytes).unwrap();
        assert_eq!(c.pets.len(), 1);
        assert_eq!(c.pets[0].name, "\u{1D11E}龍\u{FFFD}龍\u{FFFD}龍");
    }
}

#[test]
fn built_in_rates_are_read_in_every_form_a_float_reader_takes() {
    let row = |rate: &str| format!("1\t虎人\t0\t22\t26\t17\t19\t16\t{rate}\t7\n");
    for (rate, want) in [
        ("0.2", 20),
        (".2", 20),
        ("0.20000", 20),
        ("2e-1", 20),
        ("2E-1", 20),
        ("20e-2", 20),
        ("0.002e2", 20),
        ("+0.2", 20),
        ("-0.2", -20),
        ("1.", 100),
        ("0.25", 25),
        ("0e999999999999999999999999", 0),
    ] {
        let c = parse_builtin(&row(rate));
        assert_eq!(c.pets.len(), 1, "rate {rate}");
        assert_eq!(c.pets[0].bprate, want, "rate {rate}");
    }
    for rate in ["", ".", "e1", "1e", "0.2.0", "+", "1e+", "0x1"] {
        assert!(parse_builtin(&row(rate)).pets.is_empty(), "rate {rate:?}");
    }
}
