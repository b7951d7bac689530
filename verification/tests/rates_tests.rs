use petcalc::rates::{full_rate, full_rate_or_zero, full_rates, MAX_TIER};

#[test]
fn table_endpoints() {
    let t = full_rates();
    assert_eq!(t.len(), 111);
    assert_eq!(t[0], 0);
    assert_eq!(t[1], 40);
    assert_eq!(t[MAX_TIER], 4615);
}

#[test]
fn tiers_51_52_are_not_the_cg_pet_calc_values() {
    let t = full_rates();
    assert_eq!(t[51], 2140, "not 2.04");
    assert_eq!(t[52], 2180, "not 2.08");
}

#[test]
fn closed_form_matches_table() {
    for (n, &expected) in full_rates().iter().enumerate() {
        let got = petcalc::rates::full_rate_formula(n as u32);
        assert_eq!(got, expected as u64, "index {n}");
    }
}

#[test]
fn lookup_bounds() {
    assert_eq!(full_rate(-1), None);
    assert_eq!(full_rate(111), None);
    assert_eq!(full_rate_or_zero(111), 0);
    assert_eq!(full_rate(110), Some(4615));
}
