use localzip::split::{
    multi_disk_zip, numeric_suffix, sum_sizes, volume_base_name, volume_parts, SeekPos, SplitLayout,
};

fn names(v: &[&str]) -> Vec<String> {
    v.iter().map(|s| s.to_string()).collect()
}

#[test]
fn sufixo_numerico_so_pega_volume() {
    assert!(numeric_suffix("a/foo.zip.001").is_some());
    assert!(numeric_suffix("a/foo.7z.012").is_some());
    // `.tar.gz` and `.zip` are not volumes; `.01` (2 digits) neither.
    assert!(numeric_suffix("a/foo.tar.gz").is_none());
    assert!(numeric_suffix("a/foo.zip").is_none());
    assert!(numeric_suffix("a/foo.zip.01").is_none());
}

#[test]
fn volume_base_name_tira_o_sufixo() {
    let b = volume_base_name("/x/foo.zip.001").unwrap();
    assert!(b.ends_with("foo.zip"), "{b}");
    assert!(volume_base_name("/x/foo.zip").is_none());
}

#[test]
fn numeric_suffix_parts() {
    assert_eq!(numeric_suffix("a/foo.7z.012"), Some(("a/foo.7z".to_string(), 12, 3)));
    assert_eq!(numeric_suffix("foo.bin.0007"), Some(("foo.bin".to_string(), 7, 4)));
    assert_eq!(numeric_suffix("a/foo.0a1"), None);
    assert_eq!(numeric_suffix("a/"), None);
    assert_eq!(volume_base_name("/x/foo.zip.001").unwrap(), "/x/foo.zip");
}

#[test]
fn volume_parts_from_any_volume() {
    let sibs = names(&["d.bin.001", "d.bin.002", "d.bin.003", "d.bin.004", "d.bin.005", "other.txt"]);
    let expect = names(&["dir/d.bin.001", "dir/d.bin.002", "dir/d.bin.003", "dir/d.bin.004", "dir/d.bin.005"]);
    for p in &expect {
        assert_eq!(volume_parts(p, &sibs, false).unwrap(), expect);
    }
}

#[test]
fn volume_parts_starts_at_zero_when_present() {
    let sibs = names(&["x.zip.000", "x.zip.001", "x.zip.002"]);
    assert_eq!(
        volume_parts("x.zip.001", &sibs, false).unwrap(),
        names(&["x.zip.000", "x.zip.001", "x.zip.002"])
    );
}

#[test]
fn volume_parts_stops_at_first_gap() {
    let sibs = names(&["x.zip.001", "x.zip.002", "x.zip.004"]);
    assert_eq!(volume_parts("x.zip.004", &sibs, false).unwrap(), names(&["x.zip.001", "x.zip.002"]));
}

#[test]
fn volume_solto_nao_vira_conjunto() {
    let sibs = names(&["x.zip.001"]);
    assert!(volume_parts("solto/x.zip.001", &sibs, false).is_none(), "a lone volume is an ordinary file");
    // Read as one part it is the file itself.
    let mut l = SplitLayout::from_lengths(vec![5]);
    assert_eq!(l.total(), 5);
    assert_eq!(l.read_plan(64), Some((0, 0, 5)));
    l.advance(5);
    assert_eq!(l.read_plan(64), None);
}

#[test]
fn volume_parts_not_a_volume() {
    let sibs = names(&["a.zip", "a.zip.001", "a.zip.002"]);
    assert!(volume_parts("a.zip", &sibs, false).is_none());
}

#[test]
fn multi_disk_zip_detecta_z01() {
    assert!(!multi_disk_zip("multidisk/a.zip", &names(&["a.zip"]), false));
    assert!(multi_disk_zip("multidisk/a.zip", &names(&["a.zip", "a.z01"]), false), "a .z01 sibling is a real multi-disk zip");
    assert!(!multi_disk_zip("multidisk/a.zip", &names(&["b.z01"]), false));
}

/// Reads through the layout as the stream reader does, from in-memory volumes.
fn read_through(l: &mut SplitLayout, vols: &[Vec<u8>], want: usize) -> Vec<u8> {
    let mut out = Vec::new();
    while out.len() < want {
        let Some((i, inner, take)) = l.read_plan(want - out.len()) else { break };
        let inner = inner as usize;
        out.extend_from_slice(&vols[i][inner..inner + take]);
        l.advance(take as u64);
    }
    out
}

#[test]
fn split_reader_emenda_e_navega() {
    let dados: Vec<u8> = (0..30_000u32).map(|i| (i % 251) as u8).collect();
    let vols: Vec<Vec<u8>> = dados.chunks(7_000).map(|c| c.to_vec()).collect();
    assert_eq!(vols.len(), 5);

    // Entered by ANY volume, the whole set is found, in order.
    let sibs: Vec<String> = (1..=5).map(|i| format!("d.bin.{:03}", i)).collect();
    let parts: Vec<String> = sibs.iter().map(|n| format!("emenda/{n}")).collect();
    assert_eq!(volume_parts(&parts[3], &sibs, false).unwrap(), parts);

    let mut l = SplitLayout::from_lengths(vols.iter().map(|v| v.len() as u64).collect());
    assert_eq!(l.total(), dados.len() as u64);
    let tudo = read_through(&mut l, &vols, usize::MAX);
    assert_eq!(tudo, dados, "sequential reading gives the data back");

    // A seek into a volume and a read ACROSS the boundary.
    assert_eq!(l.seek(SeekPos::Start(6_990)), Ok(6_990));
    let buf = read_through(&mut l, &vols, 20);
    assert_eq!(buf, dados[6_990..7_010], "the read crosses the boundary");
    assert_eq!(l.position(), 7_010);

    assert_eq!(l.seek(SeekPos::End(-5)), Ok(29_995));
    let fim = read_through(&mut l, &vols, usize::MAX);
    assert_eq!(fim, dados[dados.len() - 5..]);
}

#[test]
fn split_layout_reads_across_boundaries() {
    let mut l = SplitLayout::from_lengths(vec![7000, 7000, 7000, 7000, 2000]);
    assert_eq!(l.seek(SeekPos::Start(6_990)), Ok(6_990));
    // A read of 20 bytes is cut at the volume boundary.
    assert_eq!(l.read_plan(20), Some((0, 6_990, 10)));
    l.advance(10);
    assert_eq!(l.read_plan(10), Some((1, 0, 10)));
    assert_eq!(l.seek(SeekPos::End(-5)), Ok(29_995));
    assert_eq!(l.read_plan(100), Some((4, 1_995, 5)));
    assert_eq!(l.seek(SeekPos::Current(-29_995)), Ok(0));
    assert_eq!(l.read_plan(0), None);
}

#[test]
fn split_layout_visits_each_byte_once() {
    let lens = vec![3u64, 0, 5, 1, 4];
    let mut l = SplitLayout::from_lengths(lens.clone());
    let mut seen = vec![0u64; lens.len()];
    while let Some((i, _, take)) = l.read_plan(2) {
        seen[i] += take as u64;
        l.advance(take as u64);
    }
    assert_eq!(seen, lens);
    assert_eq!(l.position(), 13);
}

#[test]
fn split_layout_refuses_seek_before_start() {
    let mut l = SplitLayout::from_lengths(vec![10, 10]);
    assert_eq!(l.seek(SeekPos::Start(4)), Ok(4));
    assert!(l.seek(SeekPos::Current(-5)).is_err());
    assert_eq!(l.position(), 4);
    assert!(l.seek(SeekPos::End(-21)).is_err());
    assert!(l.seek(SeekPos::Start(u64::MAX)).is_err());
    // Past the end is allowed; reads there give nothing.
    assert_eq!(l.seek(SeekPos::End(7)), Ok(27));
    assert_eq!(l.read_plan(8), None);
}

#[test]
fn split_layout_skips_empty_volumes() {
    let l = SplitLayout::from_lengths(vec![0, 3, 0, 4]);
    assert_eq!(l.total(), 7);
    assert_eq!(l.read_plan(10), Some((1, 0, 3)));
}

#[test]
fn multi_disk_is_only_a_zip() {
    let sibs = names(&["a.7z", "a.tar", "a.z01", "A.ZIP", "A.z01"]);
    assert!(!multi_disk_zip("d/a.7z", &sibs, false), "a 7z beside a .z01 is no multi-disk zip");
    assert!(!multi_disk_zip("d/a.tar", &sibs, false));
    assert!(multi_disk_zip("d/A.ZIP", &sibs, false));
}

#[test]
fn volume_sizes_add_up() {
    assert_eq!(sum_sizes(&vec![7000, 7000, 2000]), Some(16000));
    assert_eq!(sum_sizes(&vec![]), Some(0));
    assert_eq!(sum_sizes(&vec![u64::MAX, 1]), None);
}

#[test]
fn volume_parts_same_set_from_volumes_of_the_set_width() {
    // A set of width 3 whose numbering runs past 999 into .1000.
    let mut sibs: Vec<String> = (998..=999).map(|i| format!("w.bin.{:03}", i)).collect();
    sibs.push("w.bin.1000".to_string());
    sibs.extend((0..=997).map(|i| format!("w.bin.{:03}", i)));
    let from_first = volume_parts("w.bin.000", &sibs, false).unwrap();
    assert_eq!(from_first.len(), 1001);
    assert_eq!(from_first[1000], "w.bin.1000");
    assert_eq!(volume_parts("w.bin.999", &sibs, false).unwrap(), from_first);
    // Entered by the wider name, it is a family of its own (no .0000, no .0001).
    assert!(volume_parts("w.bin.1000", &sibs, false).is_none());
}

#[test]
fn letter_case_is_ignored_where_the_file_system_ignores_it() {
    let sibs = names(&["a.zip.001", "A.ZIP.002", "a.Z01"]);
    assert_eq!(volume_parts("D/A.ZIP.001", &sibs, true).unwrap(), names(&["D/A.ZIP.001", "D/A.ZIP.002"]));
    assert!(volume_parts("D/A.ZIP.001", &sibs, false).is_none());
    assert!(multi_disk_zip("d/A.zip", &sibs, true));
    assert!(!multi_disk_zip("d/A.zip", &sibs, false));
}

#[test]
fn trailing_separators_do_not_hide_the_name() {
    assert_eq!(numeric_suffix("a/foo.zip.001/"), Some(("a/foo.zip".to_string(), 1, 3)));
    assert_eq!(numeric_suffix("a/foo.zip.001/."), Some(("a/foo.zip".to_string(), 1, 3)));
    assert_eq!(numeric_suffix("a/foo.zip.001/.."), None);
    let sibs = names(&["x.zip.001", "x.zip.002"]);
    assert_eq!(volume_parts("d/x.zip.002/", &sibs, false).unwrap(), names(&["d/x.zip.001", "d/x.zip.002"]));
}
