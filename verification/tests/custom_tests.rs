use petcalc::custom::{pets_to_rows, rows_to_pets, NullStore, PetRow, Store, StoreError, ROW_DEFAULT_BPRATE, VERSION};
use petcalc::petdata::Pet;

fn pet(name: &str) -> Pet {
    Pet {
        id: None,
        name: name.to_string(),
        race: 2,
        grow: [30, 25, 18, 20, 22],
        bprate: 20,
        skills: None,
        element: None,
        custom: true,
    }
}

/// Reads one stored row out of its JSON object, by field name.
fn row_of(v: &serde_json::Value) -> PetRow {
    let grow_v = v["grow"].as_array().unwrap();
    let mut grow = [0i32; 5];
    for (i, g) in grow_v.iter().enumerate() {
        grow[i] = g.as_i64().unwrap() as i32;
    }
    let bprate = match v.get("bprate") {
        Some(b) => (b.as_f64().unwrap() * 100.0).round() as i32,
        None => ROW_DEFAULT_BPRATE,
    };
    PetRow {
        name: v["name"].as_str().unwrap().to_string(),
        race: v["race"].as_u64().unwrap() as u8,
        grow,
        bprate,
        id: v.get("id").and_then(|x| x.as_i64()).map(|x| x as i32),
        skills: v.get("skills").and_then(|x| x.as_i64()).map(|x| x as i32),
        element: None,
    }
}

fn decode(text: &str) -> Result<Vec<Pet>, StoreError> {
    let file: serde_json::Value = serde_json::from_str(text).unwrap();
    let version = file["version"].as_u64().unwrap() as u32;
    let rows: Vec<PetRow> = file["pets"].as_array().unwrap().iter().map(row_of).collect();
    rows_to_pets(version, rows)
}

#[test]
fn the_desktop_file_format_still_loads() {
    let on_disk = r#"{
      "version": 1,
      "pets": [
        { "name": "我抓的怪", "race": 0, "grow": [30,30,30,30,30], "bprate": 0.2 }
      ]
    }"#;
    let pets = decode(on_disk).unwrap();
    assert_eq!(pets.len(), 1);
    assert_eq!(pets[0].name, "我抓的怪");
    assert_eq!(pets[0].grow, [30, 30, 30, 30, 30]);
}

#[test]
fn loaded_pets_are_always_custom() {
    let mut stored = pet("甲");
    stored.custom = false;
    let back = rows_to_pets(VERSION, pets_to_rows(&[stored])).unwrap();
    assert!(back.iter().all(|p| p.custom));
}

#[test]
fn a_newer_version_is_refused() {
    assert_eq!(decode(r#"{"version":999,"pets":[]}"#), Err(StoreError::NewerVersion(999)));
}

#[test]
fn an_empty_list_round_trips() {
    assert_eq!(rows_to_pets(VERSION, pets_to_rows(&[])), Ok(Vec::new()));
}

#[test]
fn round_trips_through_the_rows() {
    let mut p = pet("我抓的怪");
    p.id = Some(9001);
    p.skills = Some(7);
    p.element = Some([10, 20, 30, 40]);
    let back = rows_to_pets(VERSION, pets_to_rows(std::slice::from_ref(&p))).unwrap();
    assert_eq!(back, vec![p]);
}

#[test]
fn a_row_with_an_unknown_race_code_comes_back_as_other() {
    let mut row = PetRow::of(&pet("怪"));
    row.race = 200;
    let back = rows_to_pets(VERSION, vec![row]).unwrap();
    assert_eq!(back[0].race, petcalc::petdata::RACE_UNKNOWN);
}

#[test]
fn the_null_store_keeps_nothing() {
    let s = NullStore;
    assert_eq!(s.read(), Ok(None));
    assert_eq!(s.write("{}"), Ok(()));
    assert_eq!(s.read(), Ok(None));
    assert_eq!(s.location(), "（這次不會存起來）");
}
