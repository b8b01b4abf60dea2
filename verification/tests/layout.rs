use num::BigUint;
use randomprime_patcher::layout::{
    checked_parse_pickup_layout, compute_checksum, layout_char_value, parse_pickup_layout,
    read_layout_entries, read_layout_number, read_layout_seed, reverse_odd, split_checksum,
    sum_bytes, unscramble,
};
use randomprime_patcher::text::chars_of;

const LAYOUT: &str =
    "AgOMbxM4YZHUdKoPLukzZX90KgHSXoglrRahU8qNLwcuBPHSIcUSpC_FfG4Sw5S1lUBLf3PmTOUgteRdUaMx_Ry";

const BAD_CHECKSUM: &str =
    "EgOMbxM4YZHUdKoPLukzZX90KgHSXoglrRahU8qNLwcuBPHSIcUSpC_FfG4Sw5S1lUBLf3PmTOUgteRdUaMx_Rv";

const TOO_LARGE: &str =
    "lKggogqCAKqggKIqIqIgoqCiigKAICoiCuimargn_jd8q6apu7nXOFAFEQFRUFWUWWQQRRFURABQUQEEUQBBWWR";

fn number(n: u64) -> BigUint {
    BigUint::from(n)
}

#[test]
fn accepts_a_layout() {
    let (entries, seed) = parse_pickup_layout(LAYOUT).unwrap();
    let expected: Vec<u8> = (0..100u32).map(|i| ((i * 7) % 36) as u8).collect();
    assert_eq!(entries, expected);
    assert_eq!(seed, [2284, 2033, 748, 2850]);
    assert_eq!(checked_parse_pickup_layout(LAYOUT), Some(Ok((entries, seed))));
}

#[test]
fn an_accepted_layout_has_100_entries_below_36() {
    let (entries, seed) = parse_pickup_layout(LAYOUT).unwrap();
    assert_eq!(entries.len(), 100);
    assert!(entries.iter().all(|e| *e < 36));
    assert_ne!(seed, [0, 0, 0, 0]);
}

#[test]
fn rejects_characters_outside_ascii() {
    assert_eq!(
        parse_pickup_layout("\u{e9}"),
        Err("Pickup layout string contains non-ascii characters.".to_string())
    );
}

#[test]
fn rejects_other_lengths() {
    let message = Err("Pickup layout should be exactly 87 characters".to_string());
    assert_eq!(parse_pickup_layout(""), message);
    assert_eq!(parse_pickup_layout(&LAYOUT[1..]), message);
    assert_eq!(parse_pickup_layout(&format!("{}A", LAYOUT)), message);
}

#[test]
fn rejects_invalid_characters() {
    assert_eq!(
        parse_pickup_layout(&format!("!{}", &LAYOUT[1..])),
        Err("Pickup layout contains invalid character '33'.".to_string())
    );
    // The text is read from its end.
    assert_eq!(
        parse_pickup_layout(&format!("!{} ", &LAYOUT[1..86])),
        Err("Pickup layout contains invalid character '32'.".to_string())
    );
}

#[test]
fn rejects_a_wrong_checksum() {
    assert_eq!(
        parse_pickup_layout(BAD_CHECKSUM),
        Err("Pickup layout checksum failed.".to_string())
    );
}

#[test]
fn does_not_cover_small_numbers_and_large_payloads() {
    let zeros: String = (0..87).map(|_| 'A').collect();
    assert_eq!(checked_parse_pickup_layout(&zeros), None);
    assert_eq!(checked_parse_pickup_layout(TOO_LARGE), None);
}

#[test]
fn layouts_that_place_other_pickups_have_other_texts() {
    let (entries, _) = parse_pickup_layout(LAYOUT).unwrap();
    let mut swapped: Vec<char> = LAYOUT.chars().collect();
    swapped[3] = 'N';
    let other: String = swapped.into_iter().collect();
    match checked_parse_pickup_layout(&other) {
        Some(Ok((changed, _))) => assert_ne!(changed, entries),
        Some(Err(message)) => assert_eq!(message, "Pickup layout checksum failed."),
        None => unreachable!(),
    }
}

#[test]
fn the_checksum_catches_every_single_bit() {
    let table: Vec<char> =
        "ABCDEFGHIJKLMNOPQRSTUWVXYZabcdefghijklmnopqrstuwvxyz0123456789-_".chars().collect();
    for i in 0..86 {
        for k in 0..6 {
            let mut chars: Vec<char> = LAYOUT.chars().collect();
            let value = layout_char_value(chars[i]).unwrap() ^ (1 << k);
            chars[i] = table[value as usize];
            let changed: String = chars.into_iter().collect();
            assert_eq!(
                parse_pickup_layout(&changed),
                Err("Pickup layout checksum failed.".to_string())
            );
        }
    }
}

#[test]
fn a_short_number_can_hide_a_changed_bit() {
    // The last character has the value zero, so the change makes the number shorter.
    let text =
        "bxj4cQ3WGZO1Jnn9UK27WRW0Xaxs8qw3sbiybA61VVvIDx5h8uX1EV7fJIyTUnrD7hJgEKkSuHATdaKB-oXNBAA";
    let changed =
        "bxj4cQ3WGZO1Jnn9UK27WRW0Xaxs8qw3sbiybA61VVvIDx5h8uX1EV7fJIyTUnrD7hJgEKkSuHATdaKB-oXNAAA";
    let (entries, _) = parse_pickup_layout(text).unwrap();
    let (others, _) = parse_pickup_layout(changed).unwrap();
    assert_ne!(entries, others);
}

#[test]
fn values_of_characters() {
    assert_eq!(layout_char_value('A'), Some(0));
    assert_eq!(layout_char_value('U'), Some(20));
    assert_eq!(layout_char_value('W'), Some(21));
    assert_eq!(layout_char_value('V'), Some(22));
    assert_eq!(layout_char_value('X'), Some(23));
    assert_eq!(layout_char_value('a'), Some(26));
    assert_eq!(layout_char_value('w'), Some(47));
    assert_eq!(layout_char_value('v'), Some(48));
    assert_eq!(layout_char_value('z'), Some(51));
    assert_eq!(layout_char_value('0'), Some(52));
    assert_eq!(layout_char_value('9'), Some(61));
    assert_eq!(layout_char_value('-'), Some(62));
    assert_eq!(layout_char_value('_'), Some(63));
    assert_eq!(layout_char_value('+'), None);
    assert_eq!(layout_char_value('@'), None);
}

#[test]
fn every_value_has_its_character() {
    let table = "ABCDEFGHIJKLMNOPQRSTUWVXYZabcdefghijklmnopqrstuwvxyz0123456789-_";
    for (i, c) in table.chars().enumerate() {
        assert_eq!(layout_char_value(c), Some(i as u8));
    }
}

#[test]
fn reads_base_64_with_the_first_character_lowest() {
    let text = chars_of("BC_");
    assert_eq!(read_layout_number(&text), Ok(number(1 + 2 * 64 + 63 * 64 * 64)));
    assert_eq!(read_layout_number(&chars_of("B!C?A")), Err('?'));
}

#[test]
fn sums_bytes() {
    let bytes = vec![1, 2, 250, 251, 5];
    assert_eq!(sum_bytes(&bytes, 0, 5), 509);
    assert_eq!(sum_bytes(&bytes, 2, 4), 501);
    assert_eq!(sum_bytes(&bytes, 3, 3), 0);
}

#[test]
fn the_seed_sums_four_runs_of_bytes() {
    // 45 bytes, each with its position, one more than that, as its value.
    let mut n = number(0);
    for i in (0..45u64).rev() {
        n = n * number(256) + number(i + 1);
    }
    assert_eq!(
        read_layout_seed(&n),
        Some([
            (1..18u32).sum(),
            (18..35u32).sum(),
            (35..42u32).sum(),
            (42..46u32).sum(),
        ])
    );
    let small = number(1) << 319;
    assert_eq!(read_layout_seed(&small), None);
    let least = number(1) << 320;
    assert_eq!(read_layout_seed(&least), Some([0, 0, 1, 0]));
}

#[test]
fn reverses_the_odd_positions() {
    let mut bits = b"abcdefg".to_vec();
    reverse_odd(&mut bits);
    assert_eq!(bits, b"afcdebg".to_vec());
    reverse_odd(&mut bits);
    assert_eq!(bits, b"abcdefg".to_vec());
    let mut bits = b"abcdefgh".to_vec();
    reverse_odd(&mut bits);
    assert_eq!(bits, b"ahcfedgb".to_vec());
}

#[test]
fn unscrambling_reverses_every_second_digit() {
    assert_eq!(unscramble(&number(0b110100)), number(0b100101));
    assert_eq!(unscramble(&number(2)), number(2));
}

#[test]
fn unscrambling_twice_changes_nothing() {
    for n in 1..600u64 {
        let once = unscramble(&number(n));
        assert_eq!(once.bits(), number(n).bits());
        assert_eq!(unscramble(&once), number(n));
    }
}

#[test]
fn splits_the_checksum_off() {
    let sum = (number(19) << 517) + number(12345);
    assert_eq!(split_checksum(sum), (number(12345), 19));
    assert_eq!(split_checksum(number(7)), (number(7), 0));
}

#[test]
fn the_checksum_sums_groups_of_five_digits() {
    assert_eq!(compute_checksum(&number(0)), 0);
    assert_eq!(compute_checksum(&number(31 + 32 * 3 + 1024 * 30)), (31 + 3 + 30) % 32);
}

#[test]
fn entries_are_digits_in_base_36() {
    let entries = read_layout_entries(number(35 + 36 * 7 + 36 * 36 * 2)).unwrap();
    assert_eq!(entries.len(), 100);
    assert_eq!(&entries[97..], &[2, 7, 35]);
    assert!(entries[..97].iter().all(|e| *e == 0));
    let mut denoted = number(0);
    for e in entries {
        denoted = denoted * number(36) + number(e as u64);
    }
    assert_eq!(denoted, number(35 + 36 * 7 + 36 * 36 * 2));
    let mut limit = number(1);
    for _ in 0..100 {
        limit = limit * number(36);
    }
    assert_eq!(read_layout_entries(limit.clone()), None);
    assert_eq!(read_layout_entries(limit - number(1)), Some(vec![35; 100]));
}
