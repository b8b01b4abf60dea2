use rand::{SeedableRng, XorShiftRng};
use randomprime_patcher::area::name_pickup_layer;
use randomprime_patcher::files::{find_file, is_fmv_name, patch_dol_skip_frigate, replace_fmvs};
use randomprime_patcher::model::{
    Connection, FileContent, FstEntry, HudMemo, ResourceKey, SclyObject, SclyProperty, MREA, STRG,
};
use randomprime_patcher::objects::{
    artifact_layer_change_template, post_pickup_relay_template, update_attainment_audio,
    update_hudmemo,
};
use randomprime_patcher::pak::find_totem;
use randomprime_patcher::patch::{choose_item, is_supported_game, resolve_layout, PatchError};
use randomprime_patcher::progress::{ProgressNotifier, Share};
use randomprime_patcher::resources::{create_phazon_cmdl_and_ancs, pak_name};
use randomprime_patcher::starting_items::{decode_starting_items, write_starting_report, BitFields};
use randomprime_patcher::tables::AssetIds;
use randomprime_patcher::text::{decimal, escape, replace_all};

fn entry(name: &str, file: Option<FileContent>) -> FstEntry {
    FstEntry { name: name.to_string(), file }
}

#[test]
fn decimal_text() {
    assert_eq!(decimal(0), "0");
    assert_eq!(decimal(9), "9");
    assert_eq!(decimal(1048869), "1048869");
    assert_eq!(decimal(u64::MAX), "18446744073709551615");
}

#[test]
fn replaces_every_occurrence() {
    assert_eq!(replace_all("a{room}b{room}", "{room}", "Hall"), "aHallbHall");
    assert_eq!(replace_all("aaa", "aa", "b"), "ba");
    assert_eq!(replace_all("none", "{room}", "Hall"), "none");
}

#[test]
fn escapes_bytes() {
    assert_eq!(escape(&b"Pickup".to_vec()), "Pickup");
    assert_eq!(escape(&b"a\"b\\c'\n\r\t\x01\xff".to_vec()), "a\\\"b\\\\c\\'\\n\\r\\t\\x01\\xff");
}

#[test]
fn names_of_added_layers_hold_no_zero() {
    assert_eq!(
        name_pickup_layer(63, &b"Morph Ball".to_vec()),
        "Randomizer - Pickup 63 (\"Morph Ball\")"
    );
    let odd = name_pickup_layer(7, &b"a\0b".to_vec());
    assert_eq!(odd, "Randomizer - Pickup 7 (\"a\\x00b\")");
    assert!(!odd.contains('\0'));
}

#[test]
fn keys_have_their_own_codes() {
    let key = ResourceKey { file_id: 2, fourcc: MREA };
    assert_eq!(key.code(), 0x2_4D52_4541);
    assert_ne!(key.code(), ResourceKey { file_id: 2, fourcc: STRG }.code());
}

#[test]
fn the_layer_switch_of_an_artifact() {
    let object = artifact_layer_change_template(77, 29);
    assert_eq!(object.instance_id, 77);
    assert!(object.connections.is_empty());
    match object.property_data {
        SclyProperty::SpecialFunction(f) => {
            assert_eq!(f.name, "Artifact Layer Switch");
            assert_eq!(f.type_, 16);
            assert_eq!(f.layer_change_room_id, 3442151074);
            assert_eq!(f.layer_change_layer_id, 24);
            assert_eq!(f.unknown4, 1);
            assert_eq!(f.unknown6, 4294967295);
        }
        _ => unreachable!(),
    }
    for (kind, layer) in vec![(30, 2), (40, 12)] {
        match artifact_layer_change_template(1, kind).property_data {
            SclyProperty::SpecialFunction(f) => assert_eq!(f.layer_change_layer_id, layer),
            _ => unreachable!(),
        }
    }
}

#[test]
fn the_relay_of_a_location() {
    let connections = vec![Connection { state: 9, message: 13, target_object_id: 5 }];
    let object = post_pickup_relay_template(8, &connections);
    assert_eq!(object.instance_id, 8);
    assert_eq!(object.connections, connections);
    assert!(matches!(
        object.property_data,
        SclyProperty::Relay { ref name, active: 1 } if name == "Randomizer Post Pickup Relay"
    ));
}

fn memo_after(location: usize, skip: bool) -> HudMemo {
    let memo = HudMemo { first_message_timer: 1, memo_type: 1, strg: 2, others: 3 };
    let mut object = SclyObject {
        instance_id: 1,
        connections: vec![],
        property_data: SclyProperty::HudMemo(memo),
    };
    assert!(update_hudmemo(&mut object, 100, 200, location, skip));
    match object.property_data {
        SclyProperty::HudMemo(memo) => memo,
        _ => unreachable!(),
    }
}

#[test]
fn messages_interrupt_unless_asked_not_to() {
    let own = HudMemo { first_message_timer: 1, memo_type: 1, strg: 100, others: 3 };
    let brief =
        HudMemo { first_message_timer: 5f32.to_bits(), memo_type: 0, strg: 200, others: 3 };
    assert_eq!(memo_after(4, false), own);
    assert_eq!(memo_after(4, true), brief);
    for location in vec![23, 50, 63] {
        assert_eq!(memo_after(location, true), own);
    }
    let mut other = SclyObject {
        instance_id: 1,
        connections: vec![],
        property_data: SclyProperty::Other(4),
    };
    assert!(!update_hudmemo(&mut other, 100, 200, 4, true));
    assert!(matches!(other.property_data, SclyProperty::Other(4)));
}

#[test]
fn the_sound_of_a_location() {
    let mut object = SclyObject {
        instance_id: 1,
        connections: vec![],
        property_data: SclyProperty::StreamedAudio {
            audio_file_name: "old".to_string(),
            others: 6,
        },
    };
    assert!(update_attainment_audio(&mut object, &"/audio/jin_itemattain.dsp\0".to_string()));
    assert!(matches!(
        object.property_data,
        SclyProperty::StreamedAudio { ref audio_file_name, others: 6 }
            if audio_file_name == "/audio/jin_itemattain.dsp"
    ));
}

#[test]
fn totems_by_their_texts() {
    assert_eq!(find_totem(0x61729798), Some(0));
    assert_eq!(find_totem(0xFAE3D58E), Some(6));
    assert_eq!(find_totem(0x7C77A720), Some(11));
    assert_eq!(find_totem(0), None);
}

#[test]
fn fields_of_starting_items() {
    let (low, rest) = BitFields::new(0x1234).fetch_bits(8);
    assert_eq!(low, 0x34);
    assert_eq!(rest.fetch_bits(4).0, 2);
    let s = decode_starting_items(0b101_0011_0000_1010, 9);
    assert_eq!(s.missiles, 0b1010);
    assert_eq!(s.energy_tanks, 0b0011);
    assert_eq!(s.power_bombs, 0b101);
    assert_eq!(s.wave, 0);
    assert_eq!(s.others, 9);
    let s = decode_starting_items(1 << 29, 0);
    assert_eq!((s.super_missile, s.grapple), (1, 0));
    let s = decode_starting_items(u64::MAX, 0);
    assert_eq!((s.missiles, s.energy_tanks, s.power_bombs), (255, 15, 7));
    assert_eq!((s.wave, s.charge, s.xray, s.super_missile), (1, 1, 1, 1));
}

#[test]
fn starting_items_spell_the_low_bits_of_their_number() {
    for items in vec![0u64, 1, 0x2AAA_AAAA, 0x1555_5555, 0x3FFF_FFFF, 0xFFFF_1234_5678_9ABC] {
        let s = decode_starting_items(items, 0);
        let flags = vec![
            s.wave, s.ice, s.plasma, s.charge, s.morph_ball, s.bombs, s.spider_ball, s.boost_ball,
            s.gravity_suit, s.phazon_suit, s.thermal_visor, s.xray, s.space_jump, s.grapple,
            s.super_missile,
        ];
        let mut spelled =
            s.missiles as u64 + ((s.energy_tanks as u64) << 8) + ((s.power_bombs as u64) << 12);
        for (i, flag) in flags.iter().enumerate() {
            spelled += (*flag as u64) << (15 + i);
        }
        assert_eq!(spelled, items % 0x4000_0000);
    }
}

#[test]
fn lines_about_starting_items() {
    let s = decode_starting_items(5 + (1 << 17), 0);
    let lines = write_starting_report(&s);
    assert_eq!(lines[0], "Starting pickups set:");
    assert_eq!(lines[1], "    missiles: 5");
    assert_eq!(lines[6], "    plasma: 1");
    // The line of the charge beam shows the plasma beam.
    assert_eq!(lines[7], "    charge: 1");
    assert_eq!(lines[8], "    morph_ball: 0");
    assert_eq!(lines[18], "    super_missile: 0");
    assert_eq!(lines.len(), 19);
}

#[test]
fn the_main_program_differs_in_four_bytes() {
    let dol: Vec<u8> = (0..0x1FF40u32).map(|i| (i % 251) as u8).collect();
    let patched = patch_dol_skip_frigate(dol.clone());
    assert_eq!(patched.len(), dol.len());
    assert_eq!(&patched[0x1FF1E..0x1FF20], &[0x39, 0xF3]);
    assert_eq!(&patched[0x1FF2A..0x1FF2C], &[0xDE, 0x28]);
    let changed: Vec<usize> = (0..dol.len()).filter(|i| dol[*i] != patched[*i]).collect();
    assert!(changed.iter().all(|i| vec![0x1FF1E, 0x1FF1F, 0x1FF2A, 0x1FF2B].contains(i)));
    assert_eq!(patch_dol_skip_frigate(patched.clone()), patched);
}

#[test]
fn finds_the_first_file_of_a_name() {
    let entries = vec![
        entry("a", None),
        entry("b", Some(FileContent::Other(1))),
        entry("b", Some(FileContent::Other(2))),
    ];
    assert_eq!(find_file(&entries, "b"), Some(1));
    assert_eq!(find_file(&entries, "c"), None);
}

#[test]
fn names_of_films() {
    assert!(is_fmv_name("attract0.thp"));
    assert!(is_fmv_name("attract9.thp"));
    assert!(!is_fmv_name("attract10.thp"));
    assert!(!is_fmv_name("Attract0.thp"));
}

#[test]
fn replaces_films_once() {
    let entries = vec![
        entry("attract3.thp", Some(FileContent::Raw(vec![1]))),
        entry("opening.bnr", Some(FileContent::Other(5))),
    ];
    let once = replace_fmvs(entries).unwrap();
    assert!(matches!(once[0].file, Some(FileContent::AttractMode)));
    assert!(matches!(once[1].file, Some(FileContent::Other(5))));
    let twice = replace_fmvs(once).unwrap();
    assert_eq!(twice[0].name, "attract3.thp");
    assert!(matches!(twice[0].file, Some(FileContent::AttractMode)));
    assert!(matches!(twice[1].file, Some(FileContent::Other(5))));
    assert!(replace_fmvs(vec![entry("attract3.thp", None)]).is_none());
}

#[test]
fn names_of_paks() {
    let names: Vec<&str> = (0..5).map(pak_name).collect();
    assert_eq!(
        names,
        vec!["Metroid2.pak", "Metroid3.pak", "Metroid4.pak", "metroid5.pak", "Metroid6.pak"]
    );
}

#[test]
fn makes_the_phazon_suit() {
    let ids = AssetIds {
        artifact_temple_mrea: 0,
        phazon_mines_savw: 0,
        phazon_suit_scan: 0,
        gravity_suit_cmdl: 0,
        gravity_suit_ancs: 0,
        phazon_suit_cmdl: 0x01020304,
        phazon_suit_ancs: 0,
        phazon_suit_txtr1: 0xA1A2A3A4,
        phazon_suit_txtr2: 0xB1B2B3B4,
        skip_hudmemo_strg_start: 0,
        skip_hudmemo_strg_end: 0,
    };
    let (cmdl, ancs) =
        create_phazon_cmdl_and_ancs(vec![7; 0x75], vec![8; 0x20], 0xEE, &ids).unwrap();
    assert_eq!(cmdl.len(), 0x80);
    assert_eq!(&cmdl[0x63..0x69], &[7, 0xA1, 0xA2, 0xA3, 0xA4, 7]);
    assert_eq!(&cmdl[0x70..0x76], &[0xB1, 0xB2, 0xB3, 0xB4, 7, 0xEE]);
    assert_eq!(ancs.len(), 0x20);
    assert_eq!(&ancs[0x13..0x19], &[8, 1, 2, 3, 4, 8]);
    assert!(create_phazon_cmdl_and_ancs(vec![7; 0x60], vec![8; 0x20], 0, &ids).is_none());
    assert!(create_phazon_cmdl_and_ancs(vec![7; 0x80], vec![], 0, &ids).is_none());
}

#[test]
fn places_without_an_item_have_two_looks() {
    assert_eq!(choose_item(35, false), 35);
    assert_eq!(choose_item(35, true), 36);
    assert_eq!(choose_item(7, true), 7);
    let mut rng = XorShiftRng::from_seed([1, 2, 3, 4]);
    assert_eq!(
        resolve_layout(&vec![35; 16], &mut rng),
        vec![35, 35, 36, 36, 35, 35, 35, 35, 35, 35, 35, 36, 35, 35, 35, 36]
    );
    // Only a place without an item draws.
    let mut rng = XorShiftRng::from_seed([1, 2, 3, 4]);
    assert_eq!(
        resolve_layout(&vec![1, 35, 2, 35, 3, 35, 34], &mut rng),
        vec![1, 35, 2, 35, 3, 36, 34]
    );
}

#[test]
fn knows_the_game() {
    assert!(is_supported_game(b"GM8E01"));
    assert!(!is_supported_game(b"GM8P01"));
    assert_eq!(
        PatchError::WrongGame.message(),
        "The input ISO doesn't appear to be Metroid Prime."
    );
    assert!(PatchError::Corrupt.message().starts_with("An error occurred while parsing"));
    assert!(PatchError::Corrupt
        .message()
        .ends_with("SHA1: 1c8b27af7eed2d52e7f038ae41bb682c4f9d09b5\n"));
}

#[test]
fn progress_counts_the_files_before() {
    let mut p = ProgressNotifier::new(false);
    p.notify_total_bytes(100);
    assert_eq!(p.notify_writing_header(), Some(Share { done: 0, total: 100 }));
    assert_eq!(p.notify_writing_file(30), Some(Share { done: 0, total: 100 }));
    assert_eq!(p.notify_writing_file(50), Some(Share { done: 30, total: 100 }));
    assert_eq!(p.notify_writing_header(), Some(Share { done: 80, total: 100 }));
    assert_eq!(
        p.notify_flushing_to_disk(),
        Some("Flushing written data to the disk...".to_string())
    );
}

#[test]
fn quiet_progress_shows_and_counts_nothing() {
    let mut p = ProgressNotifier::new(true);
    p.notify_total_bytes(100);
    assert_eq!(p.notify_writing_file(30), None);
    assert_eq!(p.notify_writing_header(), None);
    assert_eq!(p.notify_flushing_to_disk(), None);
    assert_eq!(p.bytes_so_far, 0);
    assert_eq!(p.total_size, 100);
}
