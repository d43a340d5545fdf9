use gpm::find_path::{candidate_path, find_available_path, find_path, u32_to_decimal};

#[test]
fn free_path_is_returned_unchanged() {
    let occupied: Vec<String> = vec![];
    let p = "/home/u/gpm/github.com/axetroy/__not_exist__".to_string();

    let r = find_available_path(&p, &occupied);

    assert_eq!(r.unwrap(), p);
}

#[test]
fn occupied_path_gets_the_first_disambiguator() {
    let p = "/home/u/gpm/github.com/axetroy/gpm.rs".to_string();
    let occupied: Vec<String> = vec![p.clone()];

    let r = find_available_path(&p, &occupied);

    assert_eq!(
        r.unwrap().as_str(),
        "/home/u/gpm/github.com/axetroy/gpm.rs(1)"
    );
}

#[test]
fn search_skips_every_occupied_disambiguator() {
    let p = "/w/.github".to_string();
    let occupied: Vec<String> = vec![
        "/w/.github".to_string(),
        "/w/.github(1)".to_string(),
        "/w/.github(2)".to_string(),
    ];

    let r = find_available_path(&p, &occupied);

    assert_eq!(r.unwrap().as_str(), "/w/.github(3)");
}

#[test]
fn never_returns_an_occupied_path() {
    let p = "/srv/a".to_string();
    let occupied: Vec<String> = vec!["/srv/a".to_string(), "/srv/a(2)".to_string()];

    let r = find_available_path(&p, &occupied).unwrap();

    assert!(!occupied.contains(&r));
    assert_eq!(r.as_str(), "/srv/a(1)");
}

#[test]
fn find_path_agrees_with_find_available_path() {
    let p = "/srv/a".to_string();
    let occupied: Vec<String> = vec!["/srv/a".to_string()];

    assert_eq!(
        find_path(&p, &occupied).unwrap(),
        find_available_path(&p, &occupied).unwrap()
    );
}

#[test]
fn candidates_spell_the_disambiguator() {
    assert_eq!(candidate_path("alpha", 0).as_str(), "alpha");
    assert_eq!(candidate_path("alpha", 1).as_str(), "alpha(1)");
    assert_eq!(candidate_path("alpha", 12).as_str(), "alpha(12)");
    assert_eq!(candidate_path("alpha", 10000).as_str(), "alpha(10000)");
}

#[test]
fn decimal_rendering_is_exact() {
    assert_eq!(u32_to_decimal(0).as_str(), "0");
    assert_eq!(u32_to_decimal(7).as_str(), "7");
    assert_eq!(u32_to_decimal(10).as_str(), "10");
    assert_eq!(u32_to_decimal(305).as_str(), "305");
    assert_eq!(u32_to_decimal(4294967295).as_str(), "4294967295");
}
