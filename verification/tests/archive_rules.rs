use localzip::archive::{
    archive_info, civil_epoch_ms, detect_format, files_total, listing, norm_inner, safe_join,
    selected, selection_totals, AEntry, Format,
};

fn entry(path: &str, is_dir: bool, size: u64) -> AEntry {
    AEntry {
        path: path.to_string(),
        is_dir,
        size,
        compressed: size / 2,
        modified_ms: 7,
        encrypted: false,
    }
}

#[test]
fn norm_inner_limpa_caminhos() {
    assert_eq!(norm_inner("./a/b/"), "a/b");
    assert_eq!(norm_inner("a\\b\\c"), "a/b/c");
    assert_eq!(norm_inner("/abs/x"), "abs/x");
}

#[test]
fn safe_join_bloqueia_zip_slip() {
    let dest = "/tmp/out";
    assert!(safe_join(dest, "ok/file.txt", true).is_ok());
    assert!(safe_join(dest, "../fora.txt", true).is_err());
    assert!(safe_join(dest, "a/../../fora.txt", true).is_err());
}

#[test]
fn selected_casa_descendentes() {
    let f = Some(vec!["docs".to_string(), "a.txt".to_string()]);
    assert!(selected("docs", &f));
    assert!(selected("docs/x/y.md", &f));
    assert!(selected("a.txt", &f));
    assert!(!selected("docs2/z", &f));
    assert!(selected("qualquer", &None));
}

#[test]
fn norm_inner_edge_cases() {
    assert_eq!(norm_inner(""), "");
    assert_eq!(norm_inner("./"), "");
    assert_eq!(norm_inner("///"), "");
    assert_eq!(norm_inner(".\\dir\\f.txt"), "dir/f.txt");
    // Leading "/" and "./" pieces are all dropped.
    assert_eq!(norm_inner("././x"), "x");
    assert_eq!(norm_inner("/./a"), "a");
    assert_eq!(norm_inner(".//./b/./"), "b/.");
    assert_eq!(norm_inner("."), ".");
}

#[test]
fn safe_join_gives_the_joined_path() {
    assert_eq!(safe_join("/tmp/out", "ok/file.txt", true).unwrap(), "/tmp/out/ok/file.txt");
    assert_eq!(safe_join("/tmp/out/", "a/./b//c", true).unwrap(), "/tmp/out/a/b/c");
    assert_eq!(safe_join("/tmp/out", "", true).unwrap(), "/tmp/out");
}

#[test]
fn safe_join_refuses_absolute_and_drive_paths() {
    let e = safe_join("/tmp/out", "/etc/passwd", true).unwrap_err();
    assert_eq!(e, "caminho suspeito no arquivo: /etc/passwd");
    assert!(safe_join("/tmp/out", "C:/Windows/x", true).is_err());
    // Where `C:` is no drive it is an ordinary name.
    assert_eq!(safe_join("/tmp/out", "C:/Windows/x", false).unwrap(), "/tmp/out/C:/Windows/x");
    assert!(safe_join("/tmp/out", "/C:/x", false).is_err());
    assert!(safe_join("/tmp/out", "a\\..\\..\\b", true).is_err());
}

#[test]
fn safe_join_result_stays_under_destination() {
    let dest = "/data/dest";
    for inner in ["a", "a/b/c.txt", "./x", "q/./r", "deep/er/still/file"] {
        let out = safe_join(dest, inner, true).unwrap();
        assert!(out.starts_with(dest));
        assert!(!out.contains(".."));
    }
}

#[test]
fn selection_is_prefix_by_component_not_by_text() {
    let f = Some(vec!["docs".to_string()]);
    assert!(selected("docs/a/b/c", &f));
    assert!(!selected("docsx", &f));
    assert!(!selected("doc", &f));
    let empty: Option<Vec<String>> = Some(vec![]);
    assert!(!selected("anything", &empty));
}

#[test]
fn detect_format_by_name() {
    assert_eq!(detect_format("a.zip").unwrap(), Format::Zip);
    assert_eq!(detect_format("A.ZIP").unwrap(), Format::Zip);
    assert_eq!(detect_format("x/y.tar").unwrap(), Format::Tar);
    assert_eq!(detect_format("y.tar.gz").unwrap(), Format::TarGz);
    assert_eq!(detect_format("y.tgz").unwrap(), Format::TarGz);
    assert_eq!(detect_format("y.tar.xz").unwrap(), Format::TarXz);
    assert_eq!(detect_format("y.txz").unwrap(), Format::TarXz);
    assert_eq!(detect_format("y.tar.bz2").unwrap(), Format::TarBz2);
    assert_eq!(detect_format("y.tbz").unwrap(), Format::TarBz2);
    assert_eq!(detect_format("y.tbz2").unwrap(), Format::TarBz2);
    assert_eq!(detect_format("y.tar.zst").unwrap(), Format::TarZst);
    assert_eq!(detect_format("y.tzst").unwrap(), Format::TarZst);
    assert_eq!(detect_format("y.7z").unwrap(), Format::SevenZ);
    assert_eq!(detect_format("y.rar").unwrap(), Format::Rar);
    assert_eq!(detect_format("y.r00").unwrap(), Format::Rar);
    assert_eq!(detect_format("y.R17").unwrap(), Format::Rar);
}

#[test]
fn detect_format_of_volume_uses_base_name() {
    assert_eq!(detect_format("grande.zip.001").unwrap(), Format::Zip);
    assert_eq!(detect_format("b.tar.gz.002").unwrap(), Format::TarGz);
    assert_eq!(detect_format("c.7z.010").unwrap(), Format::SevenZ);
}

#[test]
fn detect_format_refuses_unknown() {
    let e = detect_format("notes.txt").unwrap_err();
    assert_eq!(e, "formato não suportado (zip, rar, 7z, tar, tar.gz/xz/bz2/zst)");
    assert!(detect_format("x.zip.01").is_err());
    assert!(detect_format("x.r0").is_err());
}

#[test]
fn civil_epoch_ms_exact_values() {
    assert_eq!(civil_epoch_ms(1970, 1, 1, 0, 0, 0), 0);
    assert_eq!(civil_epoch_ms(1980, 1, 1, 0, 0, 0), 315_532_800_000);
    assert_eq!(civil_epoch_ms(2000, 2, 29, 12, 30, 15), 951_827_415_000);
    assert_eq!(civil_epoch_ms(2024, 12, 31, 23, 59, 59), 1_735_689_599_000);
}

#[test]
fn listing_normalises_and_drops_empty_paths() {
    let raw = vec![
        entry("./", true, 0),
        entry("dir/", true, 0),
        entry("dir\\f.txt", false, 10),
        entry("/g", false, 5),
    ];
    let l = listing(&raw);
    assert_eq!(l.len(), 3);
    assert_eq!(l[0].path, "dir");
    assert!(l[0].is_dir);
    assert_eq!(l[1].path, "dir/f.txt");
    assert_eq!(l[1].size, 10);
    assert_eq!(l[1].compressed, 5);
    assert_eq!(l[1].modified_ms, 7);
    assert_eq!(l[2].path, "g");
}

#[test]
fn files_total_counts_files_only() {
    let es = vec![entry("d", true, 1000), entry("a", false, 3), entry("b", false, 4)];
    assert_eq!(files_total(&es), Some(7));
    let big = vec![entry("a", false, u64::MAX), entry("b", false, 1)];
    assert_eq!(files_total(&big), None);
}

#[test]
fn archive_info_flags_a_bomb() {
    let es = vec![entry("huge.bin", false, 600 * 1024 * 1024)];
    let i = archive_info("x.zip", Format::Zip, es.clone(), 1024 * 1024);
    assert_eq!(i.total_size, 600 * 1024 * 1024);
    assert!(i.bomb_suspect);
    assert_eq!(i.path, "x.zip");
    assert_eq!(i.format, Format::Zip);
    assert_eq!(i.entries.len(), 1);
    let i = archive_info("x.zip", Format::Zip, es.clone(), 10 * 1024 * 1024);
    assert!(!i.bomb_suspect);
    let i = archive_info("x.zip", Format::Zip, es, 0);
    assert!(!i.bomb_suspect);
    let small = vec![entry("s", false, 400 * 1024 * 1024)];
    assert!(!archive_info("y.zip", Format::Zip, small, 1).bomb_suspect);
}

#[test]
fn selection_totals_count_selected_files() {
    let es = vec![
        entry("docs", true, 0),
        entry("docs/a", false, 5),
        entry("docs/b", false, 6),
        entry("other", false, 100),
    ];
    let f = Some(vec!["docs".to_string()]);
    assert_eq!(selection_totals(&es, &f), (2, 11));
    assert_eq!(selection_totals(&es, &None), (3, 111));
}
