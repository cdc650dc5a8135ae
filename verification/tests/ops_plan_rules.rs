use localzip::ops::{done_event, startup_file_from, test_integrity, OpsState, Reporter};
use localzip::plan::{
    canceled, check_sources, check_step, checked_count, reader_check, create_kind, effective_password, plan_entry, plan_update,
    sevenz_failure_code, source_root_name, stream_count, update_check, zip_failure_code, CheckStep, CreateKind,
    EntryPlan, SevenZFailure, ZipFailure,
};

fn strings(v: &[&str]) -> Vec<String> {
    v.iter().map(|s| s.to_string()).collect()
}

#[test]
fn startup_file_ignora_flags_e_pastas() {
    let file = "/tmp/localzip-startup-test.zip".to_string();
    let args = vec!["--flag".to_string(), "/tmp".to_string(), file.clone()];
    // The folder is not a file; the flag is skipped whatever it is.
    let is_file = vec![true, false, true];
    assert_eq!(startup_file_from(&args, &is_file), Some(file));
    assert_eq!(startup_file_from(&args, &vec![true, false, false]), None);
    assert_eq!(startup_file_from(&vec![], &vec![]), None);
}

#[test]
fn ops_register_cancel_finish() {
    let mut s: OpsState<u32> = OpsState::new();
    let a = s.register(10);
    let b = s.register(20);
    assert_eq!(a, 1);
    assert_eq!(b, 2);
    assert_eq!(s.cancel(a), Some(&10));
    assert_eq!(s.cancel(b), Some(&20));
    s.finish(a);
    assert_eq!(s.cancel(a), None);
    assert_eq!(s.cancel(b), Some(&20));
    // Ids are never reused, even after a finish.
    let c = s.register(30);
    assert_eq!(c, 3);
    assert_eq!(s.cancel(99), None);
}

#[test]
fn reporter_throttles_byte_progress() {
    let mut r = Reporter::new(7, 2, 1000, 0);
    assert!(r.bytes(100, "a", 10).is_none());
    assert_eq!(r.done_bytes, 100);
    let p = r.bytes(50, "a", 150).unwrap();
    assert_eq!(p.op_id, 7);
    assert_eq!(p.done_bytes, 150);
    assert_eq!(p.total_bytes, 1000);
    assert_eq!(p.current, "a");
    assert_eq!(r.last_ms, 150);
    assert!(r.bytes(1, "a", 299).is_none());
    let p = r.file_done("a", 300);
    assert_eq!(p.done_files, 1);
    assert_eq!(p.total_files, 2);
    assert_eq!(p.done_bytes, 151);
    assert_eq!(r.last_ms, 300);
    // A clock that went back does not report.
    assert!(r.bytes(1, "b", 100).is_none());
}

#[test]
fn done_event_shapes() {
    let d = done_event(3, Ok(Some("/out".to_string())), false);
    assert!(d.ok && !d.canceled);
    assert_eq!(d.output, Some("/out".to_string()));
    assert_eq!(d.error, None);
    let d = done_event(3, Ok(None), true);
    assert!(!d.ok && d.canceled);
    let d = done_event(4, Err("canceled".to_string()), true);
    assert!(!d.ok && d.canceled);
    assert_eq!(d.error, None);
    let d = done_event(5, Err("boom".to_string()), false);
    assert!(!d.ok);
    assert_eq!(d.error, Some("boom".to_string()));
    assert_eq!(d.output, None);
    assert_eq!(d.op_id, 5);
}

#[test]
fn integrity_report() {
    let r = test_integrity(Ok(12));
    assert!(r.ok);
    assert_eq!(r.tested, 12);
    assert_eq!(r.bad, "");
    assert_eq!(r.error, None);
    let r = test_integrity(Err(("x.txt".to_string(), "WRONG_PASSWORD".to_string())));
    assert!(!r.ok);
    assert_eq!(r.tested, 0);
    assert_eq!(r.bad, "x.txt");
    assert_eq!(r.error, Some("WRONG_PASSWORD".to_string()));
}

#[test]
fn plan_entry_cases() {
    let none: Option<Vec<String>> = None;
    match plan_entry("/d", "./a/b.txt", false, false, false, &none, false, true).unwrap() {
        EntryPlan::File { target, decrypt } => {
            assert_eq!(target, "/d/a/b.txt");
            assert!(!decrypt);
        }
        other => panic!("{other:?}"),
    }
    match plan_entry("/d", "dir/", true, false, false, &none, false, true).unwrap() {
        EntryPlan::Dir { target } => assert_eq!(target, "/d/dir"),
        other => panic!("{other:?}"),
    }
    assert!(matches!(plan_entry("/d", "./", true, false, false, &none, false, true).unwrap(), EntryPlan::Skip));
    assert!(matches!(plan_entry("/d", "link", false, true, false, &none, false, true).unwrap(), EntryPlan::Skip));
    let f = Some(strings(&["docs"]));
    assert!(matches!(plan_entry("/d", "other/x", false, false, false, &f, false, true).unwrap(), EntryPlan::Skip));
    assert_eq!(
        plan_entry("/d", "../x", false, false, false, &none, false, true).unwrap_err(),
        "caminho suspeito no arquivo: ../x"
    );
    assert_eq!(plan_entry("/d", "s.txt", false, false, true, &none, false, true).unwrap_err(), "NEED_PASSWORD");
    match plan_entry("/d", "s.txt", false, false, true, &none, true, true).unwrap() {
        EntryPlan::File { decrypt, .. } => assert!(decrypt),
        other => panic!("{other:?}"),
    }
    // An encrypted directory needs no password.
    assert!(matches!(plan_entry("/d", "p/", true, false, true, &none, false, true).unwrap(), EntryPlan::Dir { .. }));
}

#[test]
fn check_steps() {
    assert_eq!(check_step(true, true, false), CheckStep::Skip);
    assert_eq!(check_step(false, false, true), CheckStep::Read);
    assert_eq!(check_step(false, true, true), CheckStep::Decrypt);
    assert_eq!(check_step(false, true, false), CheckStep::NeedPassword);
}

#[test]
fn failure_codes() {
    assert_eq!(zip_failure_code(ZipFailure::InvalidPassword), "WRONG_PASSWORD");
    assert_eq!(zip_failure_code(ZipFailure::Read { encrypted: true, text: "crc".to_string() }), "WRONG_PASSWORD");
    assert_eq!(zip_failure_code(ZipFailure::Read { encrypted: false, text: "crc".to_string() }), "crc");
    assert_eq!(zip_failure_code(ZipFailure::Other { text: "io".to_string() }), "io");
    assert_eq!(sevenz_failure_code(SevenZFailure::PasswordRequired, false, true), "NEED_PASSWORD");
    assert_eq!(sevenz_failure_code(SevenZFailure::MaybeBadPassword, false, true), "WRONG_PASSWORD");
    assert_eq!(sevenz_failure_code(SevenZFailure::MaybeBadPassword, false, false), "NEED_PASSWORD");
    assert_eq!(sevenz_failure_code(SevenZFailure::Other { text: "bad".to_string() }, false, false), "bad");
    assert_eq!(sevenz_failure_code(SevenZFailure::Other { text: "bad".to_string() }, true, false), "canceled");
}

#[test]
fn update_checks() {
    let sibs = strings(&["a.zip"]);
    assert_eq!(update_check("d/a.zip", &sibs, false, false, true), Ok(true));
    assert_eq!(update_check("d/a.zip", &sibs, false, true, true), Ok(false));
    assert_eq!(update_check("d/a.tar.gz", &sibs, false, false, false), Err("UPDATE_ONLY_ZIP".to_string()));
    assert!(update_check("d/a.txt", &sibs, false, false, false).is_err());
    let vols = strings(&["a.zip.001", "a.zip.002"]);
    assert_eq!(update_check("d/a.zip.001", &vols, false, false, false), Err("UPDATE_NOT_ON_SPLIT".to_string()));
}

#[test]
fn update_plan_appends_or_rebuilds() {
    let existing = strings(&["dados/", "dados/grande.bin", "docs/", "docs/a.txt", "nota.txt"]);
    // Only new names: append, nothing rebuilt.
    let p = plan_update(&existing, &strings(&["novo.txt"]), &vec![]);
    assert!(!p.rebuild);
    assert_eq!(p.survivors, 5);
    // A new file with an existing name replaces it.
    let p = plan_update(&existing, &strings(&["nota.txt"]), &vec![]);
    assert!(p.rebuild);
    assert_eq!(p.keep, vec![true, true, true, true, false]);
    assert_eq!(p.survivors, 4);
    // Removing a folder takes what lies below it.
    let p = plan_update(&existing, &vec![], &strings(&["docs"]));
    assert!(p.rebuild);
    assert_eq!(p.keep, vec![true, true, false, false, true]);
    assert_eq!(p.survivors, 3);
}

#[test]
fn creation_requests() {
    assert_eq!(check_sources(0), Err("nada pra compactar".to_string()));
    assert_eq!(check_sources(2), Ok(()));
    assert!(matches!(create_kind("zip", Some("abc".to_string())).unwrap(), CreateKind::Zip { password: Some(p) } if p == "abc"));
    assert!(matches!(create_kind("zip", Some(String::new())).unwrap(), CreateKind::Zip { password: None }));
    assert!(matches!(create_kind("targz", None).unwrap(), CreateKind::TarGz));
    assert_eq!(create_kind("rar", None).unwrap_err(), "formato de criação desconhecido: rar");
    assert_eq!(effective_password(Some(String::new())), None);
    assert_eq!(effective_password(Some("x".to_string())), Some("x".to_string()));
    assert_eq!(source_root_name("/home/u/fotos").unwrap(), "fotos");
    assert_eq!(source_root_name("C:\\dados\\fotos").unwrap(), "fotos");
    assert_eq!(source_root_name("/").unwrap_err(), "origem inválida: /");
    // A trailing separator or `.` does not change what a path names.
    assert_eq!(source_root_name("/home/u/fotos/").unwrap(), "fotos");
    assert_eq!(source_root_name("fotos/.").unwrap(), "fotos");
    assert_eq!(source_root_name("a/..").unwrap_err(), "origem inválida: a/..");
}

#[test]
fn ops_last_and_running() {
    let mut s: OpsState<bool> = OpsState::new();
    assert_eq!(s.last(), 0);
    assert!(!s.any_running());
    let id = s.register(false);
    assert_eq!(s.last(), 1);
    assert!(s.any_running());
    s.finish(id);
    assert!(!s.any_running());
    assert_eq!(s.last(), 1);
}

#[test]
fn sevenz_stream_count() {
    assert_eq!(stream_count(&vec![(true, false), (false, true), (false, false), (false, true)]), 2);
    assert_eq!(stream_count(&vec![]), 0);
}

#[test]
fn small_codes_and_counts() {
    assert_eq!(canceled(), "canceled");
    assert_eq!(zip_failure_code(ZipFailure::NeedPassword), "NEED_PASSWORD");
    assert_eq!(checked_count(&vec![true, false, true, true]), 3);
    assert_eq!(checked_count(&vec![]), 0);
    let sibs = strings(&["a.zip", "a.z01"]);
    assert_eq!(reader_check("d/a.zip", &sibs, false), Err("MULTI_DISK_ZIP".to_string()));
    assert_eq!(reader_check("d/a.7z", &sibs, false), Ok(()));
    assert_eq!(reader_check("d/b.zip", &sibs, false), Ok(()));
}

#[test]
fn cancel_reaches_only_its_operation() {
    let mut s: OpsState<&str> = OpsState::new();
    let a = s.register("a");
    let b = s.register("b");
    assert_eq!(s.cancel(a), Some(&"a"));
    assert_eq!(s.cancel(b), Some(&"b"));
    s.finish(a);
    assert_eq!(s.cancel(a), None);
    assert_eq!(s.cancel(b), Some(&"b"));
    assert_eq!(s.cancel(b + 1), None);
}
