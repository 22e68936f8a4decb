use logger::rotation::{rotation_key, RotationKey};

#[test]
fn file_and_dir_names_are_zero_padded() {
    let k = RotationKey { year: 2025, month: 5, day: 20, hour: 8, encrypt: true };
    assert_eq!(k.dir_name(), "20250520");
    assert_eq!(k.file_name(), "20250520_08_encrypt.log");
    let k = RotationKey { year: 2025, month: 12, day: 1, hour: 23, encrypt: false };
    assert_eq!(k.dir_name(), "20251201");
    assert_eq!(k.file_name(), "20251201_23_plain.log");
    let f = k.hour_file();
    assert_eq!(f.dir, "20251201");
    assert_eq!(f.file, "20251201_23_plain.log");
}

#[test]
fn short_and_negative_years_follow_four_wide_padding() {
    let k = RotationKey { year: 5, month: 1, day: 2, hour: 3, encrypt: false };
    assert_eq!(k.dir_name(), "00050102");
    let k = RotationKey { year: -1, month: 1, day: 2, hour: 3, encrypt: false };
    assert_eq!(k.dir_name(), "-0010102");
    let k = RotationKey { year: 12345, month: 1, day: 2, hour: 3, encrypt: false };
    assert_eq!(k.dir_name(), "123450102");
}

#[test]
fn civil_hour_uses_fixed_utc_plus_eight() {
    // 2025-05-20 08:00:00 at UTC+8 is midnight UTC.
    let k = rotation_key(1747699200000, true).unwrap();
    assert_eq!(k, RotationKey { year: 2025, month: 5, day: 20, hour: 8, encrypt: true });
    // The epoch is 08:00 on 1970-01-01 at UTC+8.
    let k = rotation_key(0, false).unwrap();
    assert_eq!(k, RotationKey { year: 1970, month: 1, day: 1, hour: 8, encrypt: false });
    // One millisecond before midnight at UTC+8.
    let k = rotation_key(1735660799999, false).unwrap();
    assert_eq!(k.file_name(), "20241231_23_plain.log");
    let k = rotation_key(1735660800000, false).unwrap();
    assert_eq!(k.file_name(), "20250101_00_plain.log");
}

#[test]
fn timestamps_outside_the_calendar_have_no_key() {
    assert!(rotation_key(i64::MAX, false).is_none());
    assert!(rotation_key(i64::MIN, false).is_none());
    assert!(rotation_key(8_000_000_000_000_000, false).is_some());
}

#[test]
fn two_hours_give_two_distinct_files() {
    let a = rotation_key(1747699200000, false).unwrap();
    let b = rotation_key(1747699200000 + 3_600_000, false).unwrap();
    assert_ne!(a.file_name(), b.file_name());
    assert_eq!(a.file_name(), "20250520_08_plain.log");
    assert_eq!(b.file_name(), "20250520_09_plain.log");
    let c = rotation_key(1747699200000 + 3_599_999, false).unwrap();
    assert_eq!(a.file_name(), c.file_name());
}
