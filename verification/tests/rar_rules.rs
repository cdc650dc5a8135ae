use localzip::rar::{
    classify, dos_time_ms, is_old_volume_name, list, root_cause, tested_count, volume_set,
    RarError, RarMember,
};

fn fixture_names() -> Vec<String> {
    [
        "rar5_stored.rar",
        "rar5_compactado.rar",
        "rar5_varios.rar",
        "rar5_senha.rar",
        "rar5_volumes.part1.rar",
        "rar5_volumes.part2.rar",
        "rar5_volumes.part3.rar",
        "rar4_compactado.rar",
        "rar4_volumes.rar",
        "rar4_volumes.r00",
    ]
    .iter()
    .map(|s| s.to_string())
    .collect()
}

fn fixture(name: &str) -> String {
    format!("tests/fixtures/{name}")
}

fn member(name: &str, split_before: bool, dir: bool, size: u64) -> RarMember {
    RarMember {
        name: name.to_string(),
        is_split_before: split_before,
        is_directory: dir,
        unpacked_size: size,
        packed_size: size / 2,
        file_time: None,
        is_encrypted: false,
    }
}

#[test]
fn volume_set_acha_as_duas_numeracoes() {
    let sibs = fixture_names();
    // New naming (`part1..part3`): entered by ANY volume, comes out in order.
    let v = volume_set(&fixture("rar5_volumes.part2.rar"), &sibs, false);
    assert_eq!(v.len(), 3, "{v:?}");
    assert!(v[0].ends_with("part1.rar"));
    assert!(v[2].ends_with("part3.rar"));

    // Old naming (`.rar` + `.r00`): the `.rar` is the FIRST, not the last.
    let v = volume_set(&fixture("rar4_volumes.rar"), &sibs, false);
    assert_eq!(v.len(), 2, "{v:?}");
    assert!(v[0].ends_with("rar4_volumes.rar"));
    assert!(v[1].ends_with(".r00"));
    // Entering by the `.r00` finds the same set.
    assert_eq!(volume_set(&fixture("rar4_volumes.r00"), &sibs, false), v);

    // A single-volume RAR is still a list of one.
    assert_eq!(volume_set(&fixture("rar5_stored.rar"), &sibs, false).len(), 1);
}

#[test]
fn volume_set_exact_paths() {
    let sibs = fixture_names();
    assert_eq!(
        volume_set("d/rar5_volumes.part3.rar", &sibs, false),
        vec![
            "d/rar5_volumes.part1.rar".to_string(),
            "d/rar5_volumes.part2.rar".to_string(),
            "d/rar5_volumes.part3.rar".to_string(),
        ]
    );
    assert_eq!(
        volume_set("d/rar4_volumes.r00", &sibs, false),
        vec!["d/rar4_volumes.rar".to_string(), "d/rar4_volumes.r00".to_string()]
    );
    // A `.rNN` whose head is missing stands alone.
    assert_eq!(volume_set("d/lost.r03", &sibs, false), vec!["d/lost.r03".to_string()]);
    // A part whose set has no part 1 stands alone too.
    assert_eq!(volume_set("d/x.part2.rar", &sibs, false), vec!["d/x.part2.rar".to_string()]);
}

#[test]
fn volume_set_keeps_zero_padded_part_width() {
    let sibs: Vec<String> = ["s.part01.rar", "s.part02.rar", "s.part1.rar"].iter().map(|s| s.to_string()).collect();
    assert_eq!(
        volume_set("s.part02.rar", &sibs, false),
        vec!["s.part01.rar".to_string(), "s.part02.rar".to_string()]
    );
}

#[test]
fn old_volume_names() {
    assert!(is_old_volume_name("foo.r00"));
    assert!(is_old_volume_name("foo.r99"));
    assert!(!is_old_volume_name(".r00"));
    assert!(!is_old_volume_name("foo.r100"));
    assert!(!is_old_volume_name("foo.rar"));
    assert!(!is_old_volume_name("foo.r0x"));
}

#[test]
fn dos_time_exact_values() {
    assert_eq!(dos_time_ms(None), 0);
    assert_eq!(dos_time_ms(Some(0)), 0);
    // 1980-01-01 00:00:00 is (1 << 21) | (1 << 16).
    assert_eq!(dos_time_ms(Some((1 << 21) | (1 << 16))), 315_532_800_000);
    // 2020-06-15 10:20:30: year 40, month 6, day 15, 10h, 20min, 15 two-second units.
    let t: u32 = (40 << 25) | (6 << 21) | (15 << 16) | (10 << 11) | (20 << 5) | 15;
    assert_eq!(dos_time_ms(Some(t)), 1_592_216_430_000);
    // Month 0 is not a date.
    assert_eq!(dos_time_ms(Some(15 << 16)), 0);
}

#[test]
fn list_skips_continuations_and_empty_names() {
    let ms = vec![
        member("dir/", false, true, 0),
        member("dir\\big.bin", false, false, 100),
        member("dir\\big.bin", true, false, 100),
        member("./", false, true, 0),
        member("small.txt", false, false, 3),
    ];
    let l = list(&ms);
    assert_eq!(l.len(), 3);
    assert_eq!(l[0].path, "dir");
    assert!(l[0].is_dir);
    assert_eq!(l[1].path, "dir/big.bin");
    assert_eq!(l[1].size, 100);
    assert_eq!(l[1].compressed, 50);
    assert_eq!(l[2].path, "small.txt");
    assert_eq!(tested_count(&ms), 2);
}

#[test]
fn classify_unwraps_and_names_the_failure() {
    let wrapped = RarError::AtEntry {
        name: b"x".to_vec(),
        source: Box::new(RarError::AtArchiveOffset { source: Box::new(RarError::WrongPasswordOrCorruptData) }),
    };
    assert!(matches!(root_cause(&wrapped), RarError::WrongPasswordOrCorruptData));
    assert_eq!(classify(&wrapped, true), "WRONG_PASSWORD");
    assert_eq!(classify(&wrapped, false), "NEED_PASSWORD");
    assert_eq!(classify(&RarError::NeedPassword, true), "NEED_PASSWORD");
    let io = RarError::Io { message: "operation canceled by user".to_string(), text: "io: x".to_string() };
    assert_eq!(classify(&io, false), "canceled");
    let io = RarError::Io { message: "disk full".to_string(), text: "io: disk full".to_string() };
    assert_eq!(classify(&io, false), "io: disk full");
    assert_eq!(classify(&RarError::Other { text: "bad header".to_string() }, true), "bad header");
}

#[test]
fn volume_set_ignores_case_where_the_file_system_does() {
    let sibs: Vec<String> = ["foo.part1.rar", "FOO.PART2.RAR", "bar.rar", "BAR.R00"].iter().map(|s| s.to_string()).collect();
    assert_eq!(
        volume_set("x/Foo.PART2.RAR", &sibs, true),
        vec!["x/Foo.part1.rar".to_string(), "x/Foo.part2.rar".to_string()]
    );
    assert_eq!(volume_set("x/Foo.PART2.RAR", &sibs, false), vec!["x/Foo.PART2.RAR".to_string()]);
    assert_eq!(volume_set("x/bar.r00", &sibs, true), vec!["x/bar.rar".to_string(), "x/bar.r00".to_string()]);
    // Matched exactly, `bar.rar` is there but its `.r00` is not.
    assert_eq!(volume_set("x/bar.r00", &sibs, false), vec!["x/bar.rar".to_string()]);
}
