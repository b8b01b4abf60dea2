use rand::{Rng, SeedableRng, XorShiftRng};
use randomprime_patcher::area::{
    fix_artifact_of_truth_requirement, list_needed_resources, modify_pickups_in_mrea,
    remove_objects,
};
use randomprime_patcher::layout::parse_pickup_layout;
use randomprime_patcher::model::{
    Area, Connection, FileContent, FstEntry, HudMemo, Pak, Pickup, PickupModel, Resource,
    ResourceKey, ResourceKind, ScannableObject, SclyLayer, SclyObject, SclyProperty, Shape, Shift,
    SpawnPoint, StrgStringTable, Vector3, ANCS, CMDL, ENGL, MLVL, MREA, SAVW, STRG,
};
use randomprime_patcher::pak::modify_pickups_in_pak;
use randomprime_patcher::patch::{
    modify_pickups, modify_worlds, patch_disc, set_starting_items, skip_frigate, PatchError,
    PatchOptions,
};
use randomprime_patcher::resources::{collect_pickup_resources, ResourceSource};
use randomprime_patcher::starting_items::decode_starting_items;
use randomprime_patcher::tables::{
    AssetIds, ObjectLocation, ObjectsToRemove, PickupLocation, PickupMeta, RoomInfo, Tables,
};
use randomprime_patcher::totems::{
    build_artifact_temple_totem_scan_strings, fill_totem_texts, GENERIC_TEMPLATE_1,
    GENERIC_TEMPLATE_6, GENERIC_TEMPLATE_9,
};

const LAYOUT: &str =
    "AgOMbxM4YZHUdKoPLukzZX90KgHSXoglrRahU8qNLwcuBPHSIcUSpC_FfG4Sw5S1lUBLf3PmTOUgteRdUaMx_Ry";

const TEMPLE: u32 = 0x2398E906;

const ABSENT: &str = "Artifact not present. This layout may not be completable.\0";

fn vector(x: u32) -> Vector3 {
    Vector3 { x, y: x + 1, z: x + 2 }
}

fn shape(cmdl: u32) -> Shape {
    Shape { cmdl, rotation: vector(cmdl), scale: vector(cmdl + 10) }
}

fn key(file_id: u32, fourcc: u32) -> ResourceKey {
    ResourceKey { file_id, fourcc }
}

fn kind_of(item: usize) -> u32 {
    if item >= 23 && item <= 34 {
        29 + (item as u32 - 23)
    } else {
        100 + item as u32
    }
}

fn place(id: u32) -> PickupLocation {
    PickupLocation {
        location: ObjectLocation { layer: 0, instance_id: id },
        attainment_audio: ObjectLocation { layer: 0, instance_id: id + 1 },
        hudmemo: ObjectLocation { layer: 0, instance_id: id + 2 },
        post_pickup_relay_connections: vec![Connection {
            state: 9,
            message: 13,
            target_object_id: id + 50,
        }],
    }
}

fn room(room_id: u32, name: &str, places: Vec<PickupLocation>) -> RoomInfo {
    RoomInfo {
        room_id,
        name: name.to_string(),
        pickup_locations: places,
        objects_to_remove: vec![ObjectsToRemove { layer: 0, instance_ids: vec![999] }],
    }
}

fn tables() -> Tables {
    let mut items = Vec::new();
    for i in 0..37usize {
        items.push(PickupMeta {
            name: format!("Item {}", i),
            pickup_name: format!("Pickup {}", i).into_bytes(),
            pickup: PickupModel { shape: shape(500 + i as u32), kind: kind_of(i), others: i },
            deps: vec![key(1000 + i as u32, CMDL)],
            hudmemo_strg: 2000 + i as u32,
            attainment_audio_file_name: format!("/audio/{}.dsp\0", i),
        });
    }
    items[9].deps.push(key(71, CMDL));
    items[9].deps.push(key(72, ANCS));
    items[8].deps.push(key(61, CMDL));
    items[8].deps.push(key(62, ANCS));
    Tables {
        ids: AssetIds {
            artifact_temple_mrea: TEMPLE,
            phazon_mines_savw: 81,
            phazon_suit_scan: 82,
            gravity_suit_cmdl: 61,
            gravity_suit_ancs: 62,
            phazon_suit_cmdl: 71,
            phazon_suit_ancs: 72,
            phazon_suit_txtr1: 73,
            phazon_suit_txtr2: 74,
            skip_hudmemo_strg_start: 9000,
            skip_hudmemo_strg_end: 9100,
        },
        items,
        rooms: vec![
            vec![
                room(10, "Main Plaza", vec![place(10)]),
                room(11, "Ruined Shrine", vec![place(20), place(30)]),
            ],
            vec![room(TEMPLE, "Artifact Temple", vec![place(10)])],
            vec![room(12, "Phendrana Canyon", vec![place(10)])],
            vec![room(13, "Elite Research", vec![place(10)])],
            vec![room(14, "Lava Lake", vec![place(10)])],
        ],
        extra_assets: vec![key(1000, CMDL), key(5555, STRG)],
    }
}

fn object(id: u32, property_data: SclyProperty) -> SclyObject {
    SclyObject { instance_id: id, connections: vec![], property_data }
}

fn objects_for(id: u32) -> Vec<SclyObject> {
    vec![
        object(
            id,
            SclyProperty::Pickup(Pickup {
                position: vector(1),
                hitbox: vector(2),
                scan_offset: vector(3),
                shifts: vec![],
                fade_in_timer: 4,
                unknown: 5,
                active: 6,
                model: PickupModel { shape: shape(7), kind: 8, others: 90 },
            }),
        ),
        object(
            id + 1,
            SclyProperty::StreamedAudio { audio_file_name: "old".to_string(), others: 91 },
        ),
        object(
            id + 2,
            SclyProperty::HudMemo(HudMemo {
                first_message_timer: 1,
                memo_type: 1,
                strg: 2,
                others: 92,
            }),
        ),
    ]
}

fn area(id: u32, ids: Vec<u32>) -> Area {
    let mut objects = vec![object(999, SclyProperty::Other(1))];
    for i in ids {
        objects.extend(objects_for(i));
    }
    let spawn = decode_starting_items(0, 33);
    objects.push(object(800, SclyProperty::SpawnPoint(spawn)));
    Area {
        mrea_file_id: id,
        layer_count: 1,
        flags: 1,
        layers: vec![SclyLayer { objects }],
        added_layers: vec![],
        added_dependencies: vec![],
    }
}

fn temple() -> Area {
    let mut temple = area(TEMPLE, vec![10]);
    for _ in 1..23 {
        temple.layers.push(SclyLayer { objects: vec![] });
    }
    temple.layer_count = 23;
    let mut starter = object(68158836, SclyProperty::Relay { name: "r".to_string(), active: 1 });
    starter.connections = vec![
        Connection { state: 1, message: 2, target_object_id: 1048869 },
        Connection { state: 1, message: 2, target_object_id: 3 },
    ];
    temple.layers[1].objects.push(starter);
    temple
}

fn resource(file_id: u32, fourcc: u32, kind: ResourceKind) -> Resource {
    Resource { key: key(file_id, fourcc), kind }
}

fn text_of(totem: u32) -> Resource {
    resource(
        totem,
        STRG,
        ResourceKind::Strg(vec![StrgStringTable {
            lang: ENGL,
            strings: vec!["head".to_string(), "tail".to_string()],
        }]),
    )
}

fn pak(index: usize) -> Pak {
    let mut resources = Vec::new();
    match index {
        0 => {
            // Everything that items need, but for what the caller supplies and the Phazon Suit.
            for i in 1..37 {
                resources.push(resource(1000 + i, CMDL, ResourceKind::Other(i as usize)));
            }
            resources.push(resource(61, CMDL, ResourceKind::Other(61)));
            resources.push(resource(62, ANCS, ResourceKind::Other(62)));
            resources.push(resource(10, MREA, ResourceKind::Mrea(area(10, vec![10]))));
            resources.push(resource(11, MREA, ResourceKind::Mrea(area(11, vec![20, 30]))));
        }
        1 => {
            resources.push(text_of(0x45C0A022));
            resources.push(text_of(0x61729798));
            resources.push(text_of(5555));
            resources.push(resource(TEMPLE, MREA, ResourceKind::Mrea(temple())));
        }
        2 => resources.push(resource(12, MREA, ResourceKind::Mrea(area(12, vec![10])))),
        3 => {
            resources.push(resource(
                81,
                SAVW,
                ResourceKind::Savw(vec![ScannableObject { scan: 1, logbook_category: 2 }]),
            ));
            resources.push(resource(13, MREA, ResourceKind::Mrea(area(13, vec![10]))));
        }
        _ => resources.push(resource(14, MREA, ResourceKind::Mrea(area(14, vec![10])))),
    }
    resources.push(resource(700 + index as u32, MLVL, ResourceKind::Other(7)));
    resources.push(resource(600, MREA, ResourceKind::Other(6)));
    Pak { resources }
}

fn file(name: &str, content: FileContent) -> FstEntry {
    FstEntry { name: name.to_string(), file: Some(content) }
}

fn disc() -> Vec<FstEntry> {
    vec![
        file("opening.bnr", FileContent::Other(1)),
        file("default.dol", FileContent::Raw(vec![3; 0x1FF2C])),
        file("Metroid1.pak", FileContent::Pak(pak(4))),
        file("Metroid2.pak", FileContent::Pak(pak(0))),
        file("Metroid3.pak", FileContent::Pak(pak(1))),
        file("Metroid4.pak", FileContent::Pak(pak(2))),
        file("metroid5.pak", FileContent::Pak(pak(3))),
        file("Metroid6.pak", FileContent::Pak(pak(4))),
        file("attract0.thp", FileContent::Raw(vec![1])),
    ]
}

fn options() -> PatchOptions {
    PatchOptions {
        skip_hudmenus: false,
        skip_frigate: false,
        keep_fmvs: true,
        starting_items: None,
    }
}

fn resources_of(entry: &FstEntry) -> &Vec<Resource> {
    match entry.file {
        Some(FileContent::Pak(ref pak)) => &pak.resources,
        _ => unreachable!(),
    }
}

fn area_of(resources: &Vec<Resource>, id: u32) -> &Area {
    for r in resources {
        if let ResourceKind::Mrea(ref area) = r.kind {
            if r.key.file_id == id {
                return area;
            }
        }
    }
    unreachable!()
}

fn find(area: &Area, id: u32) -> &SclyObject {
    area.layers[0].objects.iter().find(|o| o.instance_id == id).unwrap()
}

fn holds(area: &Area, id: u32, item: usize, strg: u32) {
    match find(area, id).property_data {
        SclyProperty::Pickup(ref p) => {
            assert_eq!(p.model.kind, kind_of(item));
            assert_eq!(p.model.others, item);
        }
        _ => unreachable!(),
    }
    match find(area, id + 1).property_data {
        SclyProperty::StreamedAudio { ref audio_file_name, others: 91 } => {
            assert_eq!(audio_file_name, &format!("/audio/{}.dsp", item));
        }
        _ => unreachable!(),
    }
    match find(area, id + 2).property_data {
        SclyProperty::HudMemo(memo) => assert_eq!(memo.strg, strg),
        _ => unreachable!(),
    }
}

#[test]
fn the_tables_are_sound() {
    assert!(tables().check());
    let mut short = tables();
    short.items.pop();
    assert!(!short.check());
    let mut worlds = tables();
    worlds.rooms.pop();
    assert!(!worlds.check());
    let mut name = tables();
    name.items[3].attainment_audio_file_name = "no end".to_string();
    assert!(!name.check());
    let mut twice = tables();
    twice.extra_assets.push(key(1000, CMDL));
    assert!(!twice.check());
    let mut few = tables();
    few.ids.skip_hudmemo_strg_end = 9037;
    assert!(few.check_message_ids());
    few.ids.skip_hudmemo_strg_end = 9036;
    assert!(few.check());
    assert!(!few.check_message_ids());
    few.ids.skip_hudmemo_strg_end = 8999;
    assert!(!few.check_message_ids());
}

#[test]
fn a_room_with_an_ordinary_item() {
    let t = tables();
    let (patched, next) =
        modify_pickups_in_mrea(area(10, vec![10]), &t.rooms[0][0], &vec![5], 0, 400, &t, false)
            .unwrap();
    assert_eq!(next, 401);
    assert_eq!(patched.mrea_file_id, 10);
    assert_eq!(patched.layer_count, 2);
    assert_eq!(patched.flags, 3);
    assert_eq!(patched.added_layers, vec!["Randomizer - Pickup 0 (\"Pickup 5\")".to_string()]);
    assert_eq!(patched.added_dependencies.len(), 1);
    assert_eq!(patched.added_dependencies[0].layer, 1);
    assert_eq!(patched.added_dependencies[0].deps, vec![key(1005, CMDL)]);
    holds(&patched, 10, 5, 2005);
    let ids: Vec<u32> = patched.layers[0].objects.iter().map(|o| o.instance_id).collect();
    assert_eq!(ids, vec![10, 11, 12, 800]);
    assert_eq!(patched.layers[1].objects.len(), 1);
    assert_eq!(patched.layers[1].objects[0].instance_id, 400);
    assert_eq!(patched.layers[1].objects[0].connections[0].target_object_id, 60);
    assert_eq!(
        find(&patched, 10).connections,
        vec![Connection { state: 1, message: 13, target_object_id: 400 }]
    );
    match find(&patched, 10).property_data {
        SclyProperty::Pickup(ref p) => {
            assert_eq!(p.shifts, vec![Shift { from: shape(7), to: shape(505) }]);
            assert_eq!((p.position, p.hitbox, p.scan_offset), (vector(1), vector(2), vector(3)));
            assert_eq!((p.fade_in_timer, p.unknown, p.active), (4, 5, 6));
            assert_eq!(p.model.shape, shape(505));
        }
        _ => unreachable!(),
    }
}

#[test]
fn a_room_with_two_locations_and_an_artifact() {
    let t = tables();
    let (patched, next) = modify_pickups_in_mrea(
        area(11, vec![20, 30]),
        &t.rooms[0][1],
        &vec![9, 24, 6],
        1,
        400,
        &t,
        true,
    )
    .unwrap();
    assert_eq!(next, 403);
    assert_eq!(patched.layer_count, 3);
    assert_eq!(patched.flags, 7);
    holds(&patched, 20, 24, 9024);
    holds(&patched, 30, 6, 9006);
    assert_eq!(
        find(&patched, 20).connections,
        vec![
            Connection { state: 1, message: 13, target_object_id: 400 },
            Connection { state: 1, message: 7, target_object_id: 401 },
        ]
    );
    // Every added object has an id of its own.
    let added: Vec<u32> = patched.layers[1..]
        .iter()
        .flat_map(|l| l.objects.iter().map(|o| o.instance_id))
        .collect();
    assert_eq!(added, vec![400, 401, 402]);
    assert_eq!(
        patched.added_dependencies[0].deps,
        vec![key(1024, CMDL), key(9024, STRG)]
    );
    assert_eq!(patched.added_dependencies[1].layer, 2);
    match patched.layers[1].objects[1].property_data {
        SclyProperty::SpecialFunction(ref f) => assert_eq!(f.layer_change_layer_id, 2),
        _ => unreachable!(),
    }
}

#[test]
fn rooms_that_are_not_as_expected() {
    let t = tables();
    let info = &t.rooms[0][0];
    // No such pickup.
    assert!(modify_pickups_in_mrea(area(10, vec![20]), info, &vec![5], 0, 1, &t, false).is_none());
    // No item left.
    assert!(modify_pickups_in_mrea(area(10, vec![10]), info, &vec![], 0, 1, &t, false).is_none());
    // No such item.
    assert!(modify_pickups_in_mrea(area(10, vec![10]), info, &vec![37], 0, 1, &t, false).is_none());
    // No id left.
    assert!(
        modify_pickups_in_mrea(area(10, vec![10]), info, &vec![5], 0, u32::MAX, &t, false).is_none()
    );
    // No flag left.
    let mut full = area(10, vec![10]);
    full.layer_count = 64;
    assert!(modify_pickups_in_mrea(full, info, &vec![5], 0, 1, &t, false).is_none());
    // A layer to remove objects from is not there.
    let mut bare = area(10, vec![10]);
    bare.layers.clear();
    assert!(modify_pickups_in_mrea(bare, info, &vec![5], 0, 1, &t, false).is_none());
}

#[test]
fn removes_what_is_to_be_removed_and_nothing_else() {
    let layers = vec![
        SclyLayer {
            objects: (1..6).map(|i| object(i, SclyProperty::Other(i as usize))).collect(),
        },
        SclyLayer { objects: vec![object(2, SclyProperty::Other(0))] },
    ];
    let removals = vec![ObjectsToRemove { layer: 0, instance_ids: vec![2, 5, 9] }];
    let left = remove_objects(layers, &removals).unwrap();
    let ids: Vec<u32> = left[0].objects.iter().map(|o| o.instance_id).collect();
    assert_eq!(ids, vec![1, 3, 4]);
    assert_eq!(left[1].objects.len(), 1);
    assert!(remove_objects(left, &vec![ObjectsToRemove { layer: 2, instance_ids: vec![] }])
        .is_none());
}

#[test]
fn the_temple_requires_the_artifact_of_truth() {
    for (kind, active, other) in vec![(29, true, 0), (31, false, 1u64 << 3), (100, false, 0)] {
        let mut layered = temple();
        layered.layer_count = 24;
        layered.layers.push(SclyLayer { objects: vec![] });
        let (patched, next) = fix_artifact_of_truth_requirement(layered, kind, 700).unwrap();
        assert_eq!(next, 701);
        assert_eq!(patched.layer_count, 25);
        assert_eq!(patched.flags, 1 | other | if active { 1 << 24 } else { 0 });
        assert_eq!(patched.added_layers, vec!["Randomizer - Got Artifact 1".to_string()]);
        assert_eq!(patched.layers[24].objects[0].instance_id, 700);
        assert_eq!(
            patched.layers[24].objects[0].connections,
            vec![Connection { state: 9, message: 13, target_object_id: 1048869 }]
        );
        assert_eq!(
            patched.layers[1].objects[0].connections,
            vec![
                Connection { state: 1, message: 2, target_object_id: 3 },
                Connection { state: 9, message: 13, target_object_id: 700 },
            ]
        );
    }
    assert!(fix_artifact_of_truth_requirement(temple(), 29, 700).is_none());
}

#[test]
fn the_temple_as_a_room() {
    let t = tables();
    let (patched, next) =
        modify_pickups_in_mrea(temple(), &t.rooms[1][0], &vec![23], 0, 400, &t, false).unwrap();
    assert_eq!(next, 403);
    assert_eq!(patched.layer_count, 25);
    assert_eq!(patched.layers.len(), 25);
    assert_eq!(patched.layers[24].objects[0].instance_id, 400);
    let ids: Vec<u32> = patched.layers[23].objects.iter().map(|o| o.instance_id).collect();
    assert_eq!(ids, vec![401, 402]);
    assert_eq!(patched.flags, 1 | 1 << 23 | 1 << 24);
    holds(&patched, 10, 23, 2023);
    assert_eq!(list_needed_resources(&t, 23, true), vec![key(1023, CMDL), key(9023, STRG)]);
}

#[test]
fn a_pak_keeps_its_resources() {
    let t = tables();
    let texts: Vec<String> = (0..12).map(|i| format!("totem {}", i)).collect();
    let (patched, next, id) =
        modify_pickups_in_pak(pak(1), &t.rooms[1], &vec![1, 2, 3], 1, 50, &texts, &t, false)
            .unwrap();
    assert_eq!(next, 2);
    assert_eq!(id, 52);
    let keys: Vec<ResourceKey> = patched.resources.iter().map(|r| r.key).collect();
    let old: Vec<ResourceKey> = pak(1).resources.iter().map(|r| r.key).collect();
    assert_eq!(keys, old);
    let tails: Vec<String> = patched.resources[..3]
        .iter()
        .map(|r| match r.kind {
            ResourceKind::Strg(ref tables) => {
                assert_eq!(tables[0].strings.len(), 2);
                assert_eq!(tables[0].strings[0], "head");
                tables[0].strings[1].clone()
            }
            _ => unreachable!(),
        })
        .collect();
    assert_eq!(tails, vec!["totem 5".to_string(), "totem 0".to_string(), "tail".to_string()]);
    holds(area_of(&patched.resources, TEMPLE), 10, 2, 2002);
}

#[test]
fn a_pak_without_the_description_of_its_world() {
    let t = tables();
    let texts: Vec<String> = (0..12).map(|i| format!("totem {}", i)).collect();
    let mut cut = pak(4);
    cut.resources.truncate(1);
    assert!(modify_pickups_in_pak(cut, &t.rooms[4], &vec![1], 0, 50, &texts, &t, false).is_none());
    let mut empty = pak(1);
    empty.resources[0].kind =
        ResourceKind::Strg(vec![StrgStringTable { lang: ENGL, strings: vec![] }]);
    assert!(
        modify_pickups_in_pak(empty, &t.rooms[1], &vec![1], 0, 50, &texts, &t, false).is_none()
    );
}

#[test]
fn the_mines_get_a_scan_of_the_phazon_suit() {
    let t = tables();
    let texts: Vec<String> = (0..12).map(|i| format!("totem {}", i)).collect();
    let (patched, _, _) =
        modify_pickups_in_pak(pak(3), &t.rooms[3], &vec![1], 0, 50, &texts, &t, false).unwrap();
    match patched.resources[0].kind {
        ResourceKind::Savw(ref scans) => assert_eq!(
            scans,
            &vec![
                ScannableObject { scan: 1, logbook_category: 2 },
                ScannableObject { scan: 82, logbook_category: 0 },
            ]
        ),
        _ => unreachable!(),
    }
}

#[test]
fn totems_name_the_first_place_of_their_artifact() {
    let t = tables();
    let templates: Vec<&'static str> = vec![
        "0 {room}\0", "1 {room}\0", "2 {room}\0", "3 {room}\0", "4 {room}\0", "5 {room}\0",
        "6 {room}\0", "7 {room}\0", "8 {room}\0", "9 {room}\0", "10 {room}\0", "11 {room}\0",
    ];
    let layout = vec![30, 23, 23, 24, 25, 30, 22];
    let texts = fill_totem_texts(&layout, &templates, vec!["{pickup} here\0"], &t);
    assert_eq!(texts.len(), 12);
    assert_eq!(texts[7], "0 Main Plaza\0");
    assert_eq!(texts[0], "1 Ruined Shrine\0");
    assert_eq!(texts[1], "Item 24 here\0");
    assert_eq!(texts[2], "2 Phendrana Canyon\0");
    for i in vec![3, 4, 5, 6, 8, 9, 10, 11] {
        assert_eq!(texts[i], ABSENT);
    }
}

#[test]
fn only_first_instances_bear_on_the_totems() {
    let t = tables();
    let layout = vec![30, 23, 23, 24, 1, 30, 25];
    let others = vec![
        vec![30, 23, 35, 24, 2, 30, 25],
        vec![30, 23, 30, 24, 24, 0, 25],
        vec![30, 23, 23, 24, 30, 23, 25],
    ];
    let mut rng = XorShiftRng::from_seed([1, 2, 3, 4]);
    let texts = build_artifact_temple_totem_scan_strings(&layout, &mut rng, &t);
    let left: Vec<u32> = (0..4).map(|_| rng.next_u32()).collect();
    for other in others {
        let mut rng = XorShiftRng::from_seed([1, 2, 3, 4]);
        assert_eq!(build_artifact_temple_totem_scan_strings(&other, &mut rng, &t), texts);
        let other_left: Vec<u32> = (0..4).map(|_| rng.next_u32()).collect();
        assert_eq!(other_left, left);
    }
    let mut rng = XorShiftRng::from_seed([1, 2, 3, 4]);
    let moved = vec![23, 30, 23, 24, 1, 30, 25];
    assert_ne!(build_artifact_temple_totem_scan_strings(&moved, &mut rng, &t), texts);
}

#[test]
fn no_two_totems_share_a_template() {
    let mut t = tables();
    // One room, outside the temple, with a location for each artifact.
    t.rooms = vec![
        vec![room(10, "Hall", (0..12).map(|i| place(10 * (i + 1))).collect())],
        vec![],
        vec![],
        vec![],
        vec![],
    ];
    let layout: Vec<u8> = (23..35).collect();
    let mut rng = XorShiftRng::from_seed([1, 2, 3, 4]);
    let mut texts = build_artifact_temple_totem_scan_strings(&layout, &mut rng, &t);
    assert_eq!(texts.len(), 12);
    texts.sort();
    texts.dedup();
    assert_eq!(texts.len(), 12);
}

#[test]
fn message_ids_are_not_needed_for_messages_that_interrupt() {
    let mut t = tables();
    t.ids.skip_hudmemo_strg_end = t.ids.skip_hudmemo_strg_start;
    let (patched, _) =
        modify_pickups_in_mrea(area(10, vec![10]), &t.rooms[0][0], &vec![5], 0, 400, &t, false)
            .unwrap();
    holds(&patched, 10, 5, 2005);
}

#[test]
fn totems_shuffle_their_texts() {
    let t = tables();
    let mut rng = XorShiftRng::from_seed([2284, 2033, 748, 2850]);
    let layout = vec![23, 24, 25];
    let texts = build_artifact_temple_totem_scan_strings(&layout, &mut rng, &t);
    assert_eq!(texts[0], GENERIC_TEMPLATE_9.replace("{room}", "Main Plaza"));
    assert_eq!(texts[1], GENERIC_TEMPLATE_1.replace("{room}", "Ruined Shrine"));
    assert_eq!(texts[2], GENERIC_TEMPLATE_6.replace("{room}", "Ruined Shrine"));
    assert_eq!(texts[3], ABSENT);
}

#[test]
fn sources_of_resources() {
    let t = tables();
    let sources = collect_pickup_resources(&disc(), &t).unwrap();
    let source = |k: ResourceKey| sources.get(&k.code()).map(|s| *s);
    assert_eq!(source(key(1000, CMDL)), Some(ResourceSource::Extra(0)));
    assert_eq!(source(key(5555, STRG)), Some(ResourceSource::Extra(1)));
    assert_eq!(source(key(1003, CMDL)), Some(ResourceSource::Pak { pak: 0, index: 2 }));
    assert_eq!(source(key(71, CMDL)), Some(ResourceSource::PhazonCmdl));
    assert_eq!(source(key(72, ANCS)), Some(ResourceSource::PhazonAncs));
    assert_eq!(source(key(10, MREA)), None);
    for item in 0..37 {
        for k in list_needed_resources(&t, item, false) {
            assert!(source(k).is_some());
        }
    }
    let mut missing = tables();
    missing.items[0].deps.push(key(4444, CMDL));
    assert!(collect_pickup_resources(&disc(), &missing).is_none());
    let mut cut = disc();
    cut.remove(5);
    assert!(collect_pickup_resources(&cut, &t).is_none());
}

#[test]
fn worlds_continue_the_layout() {
    let t = tables();
    let texts: Vec<String> = (0..12).map(|i| format!("totem {}", i)).collect();
    let items = vec![1, 2, 3, 4, 5, 6, 7];
    let patched = modify_worlds(disc(), &items, &texts, &t, false).unwrap();
    holds(area_of(resources_of(&patched[3]), 10), 10, 1, 2001);
    holds(area_of(resources_of(&patched[3]), 11), 20, 2, 2002);
    holds(area_of(resources_of(&patched[3]), 11), 30, 3, 2003);
    holds(area_of(resources_of(&patched[4]), TEMPLE), 10, 4, 2004);
    holds(area_of(resources_of(&patched[5]), 12), 10, 5, 2005);
    holds(area_of(resources_of(&patched[6]), 13), 10, 6, 2006);
    holds(area_of(resources_of(&patched[7]), 14), 10, 7, 2007);
    // The first added object of the first room, and the last of the last.
    let first = area_of(resources_of(&patched[3]), 10);
    assert_eq!(first.layers[1].objects[0].instance_id, 0xDEEF0000);
    let last = area_of(resources_of(&patched[7]), 14);
    assert_eq!(last.layers[1].objects[0].instance_id, 0xDEEF0007);
    assert!(modify_worlds(disc(), &vec![1, 2, 3], &texts, &t, false).is_none());
}

#[test]
fn texts_are_added_for_brief_messages() {
    let t = tables();
    let (layout, seed) = parse_pickup_layout(LAYOUT).unwrap();
    let rng = XorShiftRng::from_seed(seed);
    let patch = modify_pickups(disc(), &layout, rng, &t, true).unwrap();
    assert_eq!(patch.texts.len(), 37);
    assert_eq!(patch.texts[4].key, key(9004, STRG));
    match patch.texts[4].kind {
        ResourceKind::Strg(ref tables) => {
            assert_eq!(tables[0].lang, ENGL);
            assert_eq!(tables[0].strings, vec!["&just=center;Item 4 acquired!\0".to_string()]);
        }
        _ => unreachable!(),
    }
    assert_eq!(
        patch.sources.get(&key(9004, STRG).code()),
        Some(&ResourceSource::SkipHudmemo(4))
    );
    for item in 0..37 {
        for k in list_needed_resources(&t, item, true) {
            assert!(patch.sources.contains_key(&k.code()));
        }
    }
    holds(area_of(resources_of(&patch.entries[3]), 11), 20, 7, 9007);
    let mut taken = tables();
    taken.extra_assets.push(key(9004, STRG));
    let rng = XorShiftRng::from_seed(seed);
    assert!(modify_pickups(disc(), &layout, rng, &taken, true).is_none());
}

#[test]
fn patches_a_disc() {
    let t = tables();
    let (layout, seed) = parse_pickup_layout(LAYOUT).unwrap();
    let patched = patch_disc(b"GM8E01", disc(), &layout, seed, &t, options()).unwrap();
    let names: Vec<&str> = patched.entries.iter().map(|e| e.name.as_str()).collect();
    let old = disc();
    let old_names: Vec<&str> = old.iter().map(|e| e.name.as_str()).collect();
    assert_eq!(names, old_names);
    // The layout starts with 0, 7, 14, 21, 28, 35, 6.
    holds(area_of(resources_of(&patched.entries[3]), 10), 10, 0, 2000);
    holds(area_of(resources_of(&patched.entries[3]), 11), 20, 7, 2007);
    holds(area_of(resources_of(&patched.entries[3]), 11), 30, 14, 2014);
    holds(area_of(resources_of(&patched.entries[4]), TEMPLE), 10, 21, 2021);
    holds(area_of(resources_of(&patched.entries[5]), 12), 10, 28, 2028);
    holds(area_of(resources_of(&patched.entries[6]), 13), 10, 35, 2035);
    holds(area_of(resources_of(&patched.entries[7]), 14), 10, 6, 2006);
    // The one artifact that is placed is named by its totem, with the first text of the shuffle.
    match resources_of(&patched.entries[4])[0].kind {
        ResourceKind::Strg(ref tables) => assert_eq!(
            tables[0].strings[1],
            GENERIC_TEMPLATE_9.replace("{room}", "Phendrana Canyon")
        ),
        _ => unreachable!(),
    }
    match resources_of(&patched.entries[4])[1].kind {
        ResourceKind::Strg(ref tables) => assert_eq!(tables[0].strings[1], ABSENT),
        _ => unreachable!(),
    }
    assert!(patched.texts.is_empty());
    assert!(patched.report.is_empty());
    assert!(matches!(patched.entries[0].file, Some(FileContent::Other(1))));
    assert!(matches!(patched.entries[8].file, Some(FileContent::Raw(_))));
    assert_eq!(resources_of(&patched.entries[2]).len(), 3);
}

#[test]
fn the_seed_decides_the_texts() {
    let t = tables();
    let layout = vec![23, 1, 2, 3, 4, 5, 6];
    let mut shown = Vec::new();
    for seed in vec![[1, 2, 3, 4], [2284, 2033, 748, 2850]] {
        let patched = patch_disc(b"GM8E01", disc(), &layout, seed, &t, options()).unwrap();
        match resources_of(&patched.entries[4])[1].kind {
            ResourceKind::Strg(ref tables) => shown.push(tables[0].strings[1].clone()),
            _ => unreachable!(),
        }
    }
    assert_ne!(shown[0], shown[1]);
    assert_eq!(shown[1], GENERIC_TEMPLATE_9.replace("{room}", "Main Plaza"));
}

#[test]
fn patches_a_disc_with_everything() {
    let t = tables();
    let (layout, seed) = parse_pickup_layout(LAYOUT).unwrap();
    let all = PatchOptions {
        skip_hudmenus: true,
        skip_frigate: true,
        keep_fmvs: false,
        starting_items: Some(5 + (3 << 8)),
    };
    let patched = patch_disc(b"GM8E01", disc(), &layout, seed, &t, all).unwrap();
    match patched.entries[1].file {
        Some(FileContent::External(ref dol)) => {
            assert_eq!(dol.len(), 0x1FF2C);
            assert_eq!(&dol[0x1FF1D..0x1FF21], &[3, 0x39, 0xF3, 3]);
        }
        _ => unreachable!(),
    }
    assert!(resources_of(&patched.entries[2]).is_empty());
    assert!(matches!(patched.entries[8].file, Some(FileContent::AttractMode)));
    assert_eq!(patched.texts.len(), 37);
    assert_eq!(patched.report[1], "    missiles: 5");
    assert_eq!(patched.report[2], "    energy_tanks: 3");
    let start = area_of(resources_of(&patched.entries[5]), 12);
    match find(start, 800).property_data {
        SclyProperty::SpawnPoint(s) => assert_eq!(
            s,
            SpawnPoint { missiles: 5, energy_tanks: 3, ..decode_starting_items(0, 33) }
        ),
        _ => unreachable!(),
    }
    // Setting the starting items moves no item.
    holds(start, 10, 28, 9028);
}

#[test]
fn discs_of_other_games_are_rejected() {
    let t = tables();
    let result = patch_disc(b"GM8P01", vec![], &vec![], [1, 2, 3, 4], &t, options());
    assert_eq!(result.unwrap_err(), PatchError::WrongGame);
}

#[test]
fn discs_that_are_not_as_expected_are_rejected() {
    let t = tables();
    let layout = vec![0, 1, 2, 3, 4, 5, 6];
    let result = patch_disc(b"GM8E01", vec![], &layout, [1, 2, 3, 4], &t, options());
    assert_eq!(result.unwrap_err(), PatchError::Corrupt);
    let mut short = disc();
    short[1] = file("default.dol", FileContent::Raw(vec![3; 0x1FF2B]));
    let frigate = PatchOptions { skip_frigate: true, ..options() };
    let result = patch_disc(b"GM8E01", short, &layout, [1, 2, 3, 4], &t, frigate);
    assert_eq!(result.unwrap_err(), PatchError::Corrupt);
    let mut folder = disc();
    folder[8].file = None;
    let films = PatchOptions { keep_fmvs: false, ..options() };
    let result = patch_disc(b"GM8E01", folder, &layout, [1, 2, 3, 4], &t, films);
    assert_eq!(result.unwrap_err(), PatchError::Corrupt);
}

#[test]
fn skipping_the_frigate_needs_its_files() {
    let patched = skip_frigate(disc()).unwrap();
    assert!(matches!(patched[1].file, Some(FileContent::External(_))));
    assert!(resources_of(&patched[2]).is_empty());
    assert_eq!(patched.len(), 9);
    let mut without = disc();
    without.remove(2);
    assert!(skip_frigate(without).is_none());
    let mut other = disc();
    other[2] = file("Metroid1.pak", FileContent::Other(4));
    assert!(matches!(skip_frigate(other).unwrap()[2].file, Some(FileContent::Other(4))));
}

#[test]
fn starting_items_need_a_spawn_point() {
    let mut bare = disc();
    bare[5] = file(
        "Metroid4.pak",
        FileContent::Pak(Pak {
            resources: vec![resource(
                12,
                MREA,
                ResourceKind::Mrea(Area {
                    layers: vec![SclyLayer { objects: vec![] }],
                    ..area(12, vec![])
                }),
            )],
        }),
    );
    assert!(set_starting_items(bare, 1).is_none());
    let (patched, lines) = set_starting_items(disc(), 255).unwrap();
    assert_eq!(lines[1], "    missiles: 255");
    match find(area_of(resources_of(&patched[5]), 12), 800).property_data {
        SclyProperty::SpawnPoint(s) => assert_eq!((s.missiles, s.others), (255, 33)),
        _ => unreachable!(),
    }
}
