use additional_slot_db::patch::{
    change_value_in_prc, generate_prcxml, load_baseline, patch_db, BaselineError, NAME_FIELD_POS,
    SLOT_FIELD_POS,
};
use additional_slot_db::scan::{parse_max_slot, CharacterDir, FsEntry, MalformedPolicy, PackageDir};
use additional_slot_db::slot_map::SlotMap;
use prc::hash40::Hash40;
use prc::{ParamKind, ParamList, ParamStruct};

const DB_ROOT_KEY: u64 = 0xdb;
const NAME_KEY: u64 = 0x101;
const SLOT_KEY: u64 = 0x121;

/// A character record shaped like the baseline's: a string name field at the
/// fixed name position and a byte slot-count field at the fixed slot
/// position, padding fields elsewhere. Field keys increase with position, as
/// the binary form keeps record fields sorted by key.
fn entry(name: &str, slots: u8) -> ParamKind {
    let mut fields: Vec<(Hash40, ParamKind)> = Vec::new();
    for i in 0..(SLOT_FIELD_POS + 1) {
        if i == NAME_FIELD_POS {
            fields.push((Hash40(NAME_KEY), ParamKind::Str(name.to_string())));
        } else if i == SLOT_FIELD_POS {
            fields.push((Hash40(SLOT_KEY), ParamKind::U8(slots)));
        } else {
            fields.push((Hash40(0x100 + i as u64), ParamKind::I32(7)));
        }
    }
    ParamKind::Struct(ParamStruct(fields))
}

fn baseline(entries: Vec<ParamKind>) -> ParamStruct {
    ParamStruct(vec![(Hash40(DB_ROOT_KEY), ParamKind::List(ParamList(entries)))])
}

fn entry_fields(tree: &ParamStruct, i: usize) -> &ParamStruct {
    match &tree.0[0].1 {
        ParamKind::List(l) => match &l.0[i] {
            ParamKind::Struct(s) => s,
            _ => panic!("entry is not a record"),
        },
        _ => panic!("tree has no database list"),
    }
}

fn slot_of(tree: &ParamStruct, i: usize) -> &ParamKind {
    &entry_fields(tree, i).0[SLOT_FIELD_POS].1
}

fn map_of(pairs: &[(&str, u8)]) -> SlotMap {
    let mut map = SlotMap::new();
    for (name, v) in pairs {
        map.insert(&name.to_string(), *v);
    }
    map
}

#[test]
fn patch_overwrites_only_matching_slot_fields() {
    let source = baseline(vec![entry("mario", 1), entry("luigi", 2)]);
    let map = map_of(&[("mario", 8)]);
    let modded = patch_db(&source, &map);
    assert_eq!(slot_of(&modded, 0), &ParamKind::U8(8));
    assert_eq!(slot_of(&modded, 1), &ParamKind::U8(2));
    // every other field of the matched entry is unchanged
    for (i, field) in entry_fields(&modded, 0).0.iter().enumerate() {
        if i != SLOT_FIELD_POS {
            assert_eq!(field, &entry_fields(&source, 0).0[i]);
        }
    }
    // sibling entries are unchanged in full
    assert_eq!(entry_fields(&modded, 1), entry_fields(&source, 1));
    // the baseline itself was not touched
    assert_eq!(slot_of(&source, 0), &ParamKind::U8(1));
}

#[test]
fn patch_without_matches_leaves_tree_identical() {
    let source = baseline(vec![entry("mario", 1), entry("luigi", 2)]);
    let map = map_of(&[("peach", 8)]);
    let modded = patch_db(&source, &map);
    assert_eq!(modded, source);
    assert_eq!(generate_prcxml(&source, &map), None);
}

#[test]
fn empty_map_yields_no_document() {
    let source = baseline(vec![entry("mario", 1)]);
    let map = SlotMap::new();
    assert_eq!(generate_prcxml(&source, &map), None);
}

#[test]
fn unchanged_value_yields_no_document() {
    let source = baseline(vec![entry("mario", 8)]);
    let map = map_of(&[("mario", 8)]);
    assert_eq!(generate_prcxml(&source, &map), None);
}

#[test]
fn scenario_mario_patch_document() {
    let packages = vec![PackageDir {
        is_dir: true,
        fighter: Some(vec![CharacterDir {
            name: "mario".to_string(),
            is_dir: true,
            body: Some(vec![
                FsEntry { name: "c00".to_string(), is_dir: true },
                FsEntry { name: "c07".to_string(), is_dir: true },
            ]),
            diver: None,
        }]),
    }];
    let mut map = SlotMap::new();
    parse_max_slot(&packages, &mut map, MalformedPolicy::Abort).unwrap();
    assert_eq!(map.get(&"mario".to_string()), Some(8));

    let source = baseline(vec![entry("mario", 1)]);
    let modded = patch_db(&source, &map);
    assert_eq!(slot_of(&modded, 0), &ParamKind::U8(8));

    let doc: String = generate_prcxml(&source, &map).unwrap().iter().collect();
    let expected = "<?xml version=\"1.0\" encoding=\"utf-8\"?>\n\
                    <struct>\n\
                    \x20 <list hash=\"0x00000000db\">\n\
                    \x20   <struct index=\"0\">\n\
                    \x20     <byte hash=\"0x0000000121\">8</byte>\n\
                    \x20   </struct>\n\
                    \x20 </list>\n\
                    </struct>\n";
    assert_eq!(doc, expected);
}

#[test]
fn document_lists_every_changed_entry_in_order() {
    let source = baseline(vec![
        entry("mario", 1),
        entry("luigi", 2),
        entry("peach", 3),
        entry("bowser", 4),
        entry("yoshi", 5),
        entry("rosetta", 6),
        entry("koopa", 7),
        entry("wario", 8),
        entry("dedede", 9),
        entry("kirby", 10),
        entry("fox", 11),
        entry("falco", 12),
    ]);
    let map = map_of(&[("falco", 120), ("mario", 2)]);
    let doc: String = generate_prcxml(&source, &map).unwrap().iter().collect();
    assert!(doc.contains("<struct index=\"0\">"));
    assert!(doc.contains(">2</byte>"));
    assert!(doc.contains("<struct index=\"11\">"));
    assert!(doc.contains(">120</byte>"));
    let mario_at = doc.find("index=\"0\"").unwrap();
    let falco_at = doc.find("index=\"11\"").unwrap();
    assert!(mario_at < falco_at);
}

#[test]
fn hash_values_render_as_ten_hex_digits() {
    let source = ParamStruct(vec![(
        Hash40(0x00abcdef12),
        ParamKind::List(ParamList(vec![entry("mario", 1)])),
    )]);
    let map = map_of(&[("mario", 8)]);
    let doc: String = generate_prcxml(&source, &map).unwrap().iter().collect();
    assert!(doc.contains("<list hash=\"0x00abcdef12\">"));
}

#[test]
fn entries_without_a_name_or_too_short_are_left_alone() {
    // a record shorter than the slot position, a bare value, and a record
    // whose name field is not a string
    let short = ParamKind::Struct(ParamStruct(vec![
        (Hash40(0), ParamKind::U8(0)),
        (Hash40(NAME_KEY), ParamKind::Str("mario".to_string())),
    ]));
    let bare = ParamKind::U32(5);
    let mut fields: Vec<(Hash40, ParamKind)> = Vec::new();
    for i in 0..(SLOT_FIELD_POS + 1) {
        fields.push((Hash40(i as u64), ParamKind::I32(3)));
    }
    let unnamed = ParamKind::Struct(ParamStruct(fields));
    let source = baseline(vec![short, bare, unnamed]);
    let map = map_of(&[("mario", 8)]);
    let modded = patch_db(&source, &map);
    assert_eq!(modded, source);
    assert_eq!(generate_prcxml(&source, &map), None);
}

#[test]
fn single_entry_patch_through_change_value_in_prc() {
    let mut tree = baseline(vec![entry("mario", 1), entry("luigi", 2)]);
    let map = map_of(&[("luigi", 9)]);
    change_value_in_prc(&mut tree, 0, &map);
    assert_eq!(slot_of(&tree, 0), &ParamKind::U8(1));
    change_value_in_prc(&mut tree, 1, &map);
    assert_eq!(slot_of(&tree, 1), &ParamKind::U8(9));
}

#[test]
fn baseline_round_trips_through_binary_form() {
    let source = baseline(vec![entry("mario", 1), entry("element", 4)]);
    let mut cursor = std::io::Cursor::new(Vec::<u8>::new());
    prc::write_stream(&mut cursor, &source).unwrap();
    let bytes = cursor.into_inner();
    let parsed = prc::read_stream(&mut std::io::Cursor::new(bytes.as_slice())).ok();
    let loaded = load_baseline(parsed).unwrap();
    assert_eq!(loaded, source);
    let map = map_of(&[("mario", 8)]);
    assert_eq!(generate_prcxml(&loaded, &map), generate_prcxml(&source, &map));
}

#[test]
fn corrupt_baseline_is_reported_missing() {
    let bytes = vec![0u8, 1, 2, 3, 4, 5, 6, 7, 8, 9];
    let parsed = prc::read_stream(&mut std::io::Cursor::new(bytes.as_slice())).ok();
    assert_eq!(load_baseline(parsed), Err(BaselineError::MissingResource));
    assert_eq!(load_baseline(None), Err(BaselineError::MissingResource));
}

#[test]
fn parsed_baseline_is_handed_on_unchanged() {
    let source = baseline(vec![entry("mario", 1)]);
    let loaded = load_baseline(Some(source.clone())).unwrap();
    assert_eq!(loaded, source);
}

#[test]
fn scenario_no_fighter_directory_yields_no_diff() {
    let packages = vec![PackageDir { is_dir: true, fighter: None }];
    let mut map = SlotMap::new();
    parse_max_slot(&packages, &mut map, MalformedPolicy::Abort).unwrap();
    assert!(map.is_empty());
    let source = baseline(vec![entry("mario", 1), entry("element", 4)]);
    assert_eq!(generate_prcxml(&source, &map), None);
    assert_eq!(patch_db(&source, &map), source);
}

#[test]
fn largest_slot_count_renders_in_document() {
    let source = baseline(vec![entry("mario", 1)]);
    let map = map_of(&[("mario", 255)]);
    let doc: String = generate_prcxml(&source, &map).unwrap().iter().collect();
    assert!(doc.contains(">255</byte>"));
}
