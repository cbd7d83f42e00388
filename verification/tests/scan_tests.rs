use additional_slot_db::scan::{
    parse_costume_name, parse_max_slot, CharacterDir, CostumeParse, FsEntry, MalformedPolicy,
    PackageDir, ScanError,
};
use additional_slot_db::slot_map::SlotMap;
use additional_slot_db::aliases::handle_special_names;

fn dir(name: &str) -> FsEntry {
    FsEntry { name: name.to_string(), is_dir: true }
}

fn file(name: &str) -> FsEntry {
    FsEntry { name: name.to_string(), is_dir: false }
}

fn character(name: &str, body: Option<Vec<FsEntry>>, diver: Option<Vec<FsEntry>>) -> CharacterDir {
    CharacterDir { name: name.to_string(), is_dir: true, body, diver }
}

fn package(characters: Vec<CharacterDir>) -> PackageDir {
    PackageDir { is_dir: true, fighter: Some(characters) }
}

fn get(map: &SlotMap, name: &str) -> Option<u8> {
    map.get(&name.to_string())
}

#[test]
fn costume_name_parses_index_plus_one() {
    assert_eq!(parse_costume_name(&"c00".to_string()), CostumeParse::Costume(1));
    assert_eq!(parse_costume_name(&"c07".to_string()), CostumeParse::Costume(8));
    assert_eq!(parse_costume_name(&"c7".to_string()), CostumeParse::Costume(8));
    assert_eq!(parse_costume_name(&"c007".to_string()), CostumeParse::Costume(8));
    assert_eq!(parse_costume_name(&"c120".to_string()), CostumeParse::Costume(121));
    assert_eq!(parse_costume_name(&"c254".to_string()), CostumeParse::Costume(255));
}

#[test]
fn costume_name_rejects_unusable_suffixes() {
    assert_eq!(parse_costume_name(&"c".to_string()), CostumeParse::Malformed);
    assert_eq!(parse_costume_name(&"cxx".to_string()), CostumeParse::Malformed);
    assert_eq!(parse_costume_name(&"c0a".to_string()), CostumeParse::Malformed);
    assert_eq!(parse_costume_name(&"c-1".to_string()), CostumeParse::Malformed);
    assert_eq!(parse_costume_name(&"c255".to_string()), CostumeParse::Malformed);
    assert_eq!(parse_costume_name(&"c999".to_string()), CostumeParse::Malformed);
    assert_eq!(parse_costume_name(&"c99999999999999999999".to_string()), CostumeParse::Malformed);
}

#[test]
fn costume_name_ignores_other_names() {
    assert_eq!(parse_costume_name(&"".to_string()), CostumeParse::NotCostume);
    assert_eq!(parse_costume_name(&"mario".to_string()), CostumeParse::NotCostume);
    assert_eq!(parse_costume_name(&"body".to_string()), CostumeParse::NotCostume);
    assert_eq!(parse_costume_name(&"C07".to_string()), CostumeParse::NotCostume);
}

#[test]
fn scenario_mario_two_costumes() {
    let packages = vec![package(vec![character(
        "mario",
        Some(vec![dir("c00"), dir("c07")]),
        None,
    )])];
    let mut map = SlotMap::new();
    parse_max_slot(&packages, &mut map, MalformedPolicy::Abort).unwrap();
    assert_eq!(get(&map, "mario"), Some(8));
}

#[test]
fn requirement_is_maximum_regardless_of_order() {
    let packages = vec![package(vec![character(
        "mario",
        Some(vec![dir("c07"), dir("c00"), dir("c03")]),
        None,
    )])];
    let mut map = SlotMap::new();
    parse_max_slot(&packages, &mut map, MalformedPolicy::Abort).unwrap();
    assert_eq!(get(&map, "mario"), Some(8));
}

#[test]
fn smaller_package_never_lowers_requirement() {
    let packages = vec![
        package(vec![character("mario", Some(vec![dir("c03")]), None)]),
        package(vec![character("mario", Some(vec![dir("c01")]), None)]),
    ];
    let mut map = SlotMap::new();
    parse_max_slot(&packages, &mut map, MalformedPolicy::Abort).unwrap();
    assert_eq!(get(&map, "mario"), Some(4));
}

#[test]
fn body_container_wins_over_diver() {
    let packages = vec![package(vec![character(
        "element",
        Some(vec![dir("c01")]),
        Some(vec![dir("c05")]),
    )])];
    let mut map = SlotMap::new();
    parse_max_slot(&packages, &mut map, MalformedPolicy::Abort).unwrap();
    assert_eq!(get(&map, "element"), Some(2));
}

#[test]
fn diver_container_used_when_body_absent() {
    let packages = vec![package(vec![character("element", None, Some(vec![dir("c05")]))])];
    let mut map = SlotMap::new();
    parse_max_slot(&packages, &mut map, MalformedPolicy::Abort).unwrap();
    assert_eq!(get(&map, "element"), Some(6));
}

#[test]
fn character_without_container_contributes_nothing() {
    let packages = vec![package(vec![character("mario", None, None)])];
    let mut map = SlotMap::new();
    parse_max_slot(&packages, &mut map, MalformedPolicy::Abort).unwrap();
    assert!(map.is_empty());
}

#[test]
fn scenario_no_fighter_directory_yields_empty_map() {
    let packages = vec![
        PackageDir { is_dir: true, fighter: None },
        PackageDir { is_dir: false, fighter: None },
    ];
    let mut map = SlotMap::new();
    parse_max_slot(&packages, &mut map, MalformedPolicy::Abort).unwrap();
    assert!(map.is_empty());
}

#[test]
fn scenario_element_aliases_resolve() {
    let packages = vec![package(vec![character(
        "element",
        Some(vec![dir("c00"), dir("c01"), dir("c02"), dir("c03")]),
        None,
    )])];
    let mut map = SlotMap::new();
    parse_max_slot(&packages, &mut map, MalformedPolicy::Abort).unwrap();
    assert_eq!(get(&map, "element"), Some(4));
    assert_eq!(get(&map, "eflame_first"), Some(4));
    assert_eq!(get(&map, "elight_first"), Some(4));
    assert_eq!(get(&map, "eflame_only"), Some(4));
    assert_eq!(get(&map, "elight_only"), Some(4));
}

#[test]
fn alias_resolution_without_element_changes_nothing() {
    let packages = vec![package(vec![character("mario", Some(vec![dir("c00")]), None)])];
    let mut map = SlotMap::new();
    parse_max_slot(&packages, &mut map, MalformedPolicy::Abort).unwrap();
    assert_eq!(get(&map, "mario"), Some(1));
    assert_eq!(get(&map, "eflame_first"), None);
    assert_eq!(get(&map, "elight_only"), None);
}

#[test]
fn alias_resolution_is_idempotent_on_values() {
    let mut map = SlotMap::new();
    map.insert(&"element".to_string(), 4);
    handle_special_names(&mut map);
    let once: Vec<(String, u8)> = {
        let mut v = map.to_pairs();
        v.sort();
        v
    };
    handle_special_names(&mut map);
    let twice: Vec<(String, u8)> = {
        let mut v = map.to_pairs();
        v.sort();
        v
    };
    assert_eq!(once, twice);
}

#[test]
fn malformed_costume_directory_aborts_scan() {
    let packages = vec![package(vec![character(
        "mario",
        Some(vec![dir("c00"), dir("cfoo")]),
        None,
    )])];
    let mut map = SlotMap::new();
    let r = parse_max_slot(&packages, &mut map, MalformedPolicy::Abort);
    match r {
        Err(ScanError::MalformedCostumeIndex(name)) => assert_eq!(name, "cfoo"),
        Ok(()) => panic!("scan accepted a malformed costume directory"),
    }
}

#[test]
fn malformed_costume_directory_skipped_under_skip_policy() {
    let packages = vec![package(vec![character(
        "mario",
        Some(vec![dir("c00"), dir("cfoo"), dir("c02")]),
        None,
    )])];
    let mut map = SlotMap::new();
    parse_max_slot(&packages, &mut map, MalformedPolicy::Skip).unwrap();
    assert_eq!(get(&map, "mario"), Some(3));
}

#[test]
fn plain_files_are_not_costume_directories() {
    let packages = vec![package(vec![character(
        "mario",
        Some(vec![file("cfoo"), file("c09"), dir("c01")]),
        None,
    )])];
    let mut map = SlotMap::new();
    parse_max_slot(&packages, &mut map, MalformedPolicy::Abort).unwrap();
    assert_eq!(get(&map, "mario"), Some(2));
}

#[test]
fn non_directory_character_entries_are_skipped() {
    let packages = vec![package(vec![CharacterDir {
        name: "notes.txt".to_string(),
        is_dir: false,
        body: None,
        diver: None,
    }])];
    let mut map = SlotMap::new();
    parse_max_slot(&packages, &mut map, MalformedPolicy::Abort).unwrap();
    assert!(map.is_empty());
}

#[test]
fn slot_map_keeps_maximum() {
    let mut map = SlotMap::new();
    let mario = "mario".to_string();
    assert_eq!(map.get(&mario), None);
    map.set_max(&mario, 3);
    assert_eq!(map.get(&mario), Some(3));
    map.set_max(&mario, 1);
    assert_eq!(map.get(&mario), Some(3));
    map.set_max(&mario, 9);
    assert_eq!(map.get(&mario), Some(9));
    map.insert(&mario, 2);
    assert_eq!(map.get(&mario), Some(2));
    assert!(!map.is_empty());
}

#[test]
fn to_pairs_lists_every_requirement() {
    let mut map = SlotMap::new();
    map.insert(&"mario".to_string(), 8);
    map.insert(&"luigi".to_string(), 3);
    let mut pairs = map.to_pairs();
    pairs.sort();
    assert_eq!(pairs, vec![("luigi".to_string(), 3u8), ("mario".to_string(), 8u8)]);
}

#[test]
fn largest_costume_index_through_full_scan() {
    let packages = vec![package(vec![character("mario", Some(vec![dir("c254")]), None)])];
    let mut map = SlotMap::new();
    parse_max_slot(&packages, &mut map, MalformedPolicy::Abort).unwrap();
    assert_eq!(get(&map, "mario"), Some(255));
}

#[test]
fn scan_results_agree_across_enumeration_orders() {
    let forward = vec![package(vec![
        character("mario", Some(vec![dir("c00"), dir("c03"), dir("c07")]), None),
        character("element", Some(vec![dir("c01"), dir("c02")]), None),
    ])];
    let backward = vec![package(vec![
        character("element", Some(vec![dir("c02"), dir("c01")]), None),
        character("mario", Some(vec![dir("c07"), dir("c03"), dir("c00")]), None),
    ])];
    let mut first = SlotMap::new();
    let mut second = SlotMap::new();
    parse_max_slot(&forward, &mut first, MalformedPolicy::Abort).unwrap();
    parse_max_slot(&backward, &mut second, MalformedPolicy::Abort).unwrap();
    let sorted = |m: &SlotMap| {
        let mut v = m.to_pairs();
        v.sort();
        v
    };
    assert_eq!(sorted(&first), sorted(&second));
    assert_eq!(get(&first, "mario"), Some(8));
    assert_eq!(get(&first, "element"), Some(3));
}
