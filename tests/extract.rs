use nodedir::cache::{integrity_record, EntryKind, Extraction, Phase, Step};
use nodedir::entry::entry_destination;

fn comps(v: &[&str]) -> Vec<Vec<u8>> {
    v.iter().map(|s| s.as_bytes().to_vec()).collect()
}

#[test]
fn strips_leading_package_component() {
    assert_eq!(entry_destination(b"package/package.json"), Some(comps(&["package.json"])));
    assert_eq!(entry_destination(b"package/lib/index.js"), Some(comps(&["lib", "index.js"])));
    assert_eq!(entry_destination(b"lib/package/x"), Some(comps(&["lib", "package", "x"])));
    assert_eq!(entry_destination(b"./package//a/./b"), Some(comps(&["a", "b"])));
}

#[test]
fn path_escape_is_refused() {
    assert_eq!(entry_destination(b"../evil"), None);
    assert_eq!(entry_destination(b"package/../../evil"), None);
    assert_eq!(entry_destination(b"/etc/passwd"), None);
    assert_eq!(entry_destination(b"package/a/../b"), Some(comps(&["b"])));
}

#[test]
fn basic_extract_steps() {
    let mut ex = Extraction::new();
    match ex.entry(EntryKind::Regular, b"package/package.json") {
        Step::WriteFile(c) => assert_eq!(c, comps(&["package.json"])),
        _ => panic!("expected a file"),
    }
    match ex.entry(EntryKind::Directory, b"package/lib") {
        Step::MakeDir(c) => assert_eq!(c, comps(&["lib"])),
        _ => panic!("expected a directory"),
    }
    assert!(matches!(ex.entry(EntryKind::Other, b"package/link"), Step::Skip));
    assert!(matches!(ex.finish(), Step::MarkComplete));
    assert!(ex.phase == Phase::Complete);
    assert!(matches!(ex.finish(), Step::Idle));
}

#[test]
fn escape_aborts_and_never_completes() {
    let mut ex = Extraction::new();
    assert!(matches!(ex.entry(EntryKind::Regular, b"../evil"), Step::Abort));
    assert!(matches!(ex.entry(EntryKind::Regular, b"package/a"), Step::Idle));
    assert!(matches!(ex.finish(), Step::Idle));
    assert!(ex.phase == Phase::Failed);
}

#[test]
fn pax_global_header_ends_archive() {
    let mut ex = Extraction::new();
    assert!(matches!(ex.entry(EntryKind::PaxGlobal, b"pax_global_header"), Step::MarkComplete));
    assert!(matches!(ex.entry(EntryKind::Regular, b"package/a"), Step::Idle));
}

#[test]
fn failure_leaves_slot_incomplete() {
    let mut ex = Extraction::new();
    ex.fail();
    assert!(matches!(ex.finish(), Step::Idle));
    assert!(ex.phase == Phase::Failed);
}

#[test]
fn integrity_record_holds_hex_digest() {
    let r = integrity_record(&[0x00, 0xab, 0x7f]);
    assert_eq!(String::from_utf8(r).unwrap(), r#"{"method":"sha256","hash":"00ab7f"}"#);
    let e = integrity_record(&[]);
    assert_eq!(String::from_utf8(e).unwrap(), r#"{"method":"sha256","hash":""}"#);
}

#[test]
fn archive_cannot_write_the_integrity_record() {
    let mut ex = Extraction::new();
    assert!(matches!(ex.entry(EntryKind::Regular, b"package/.nd-integrity"), Step::Abort));
    assert!(ex.phase == Phase::Failed);
    let mut ex = Extraction::new();
    assert!(matches!(ex.entry(EntryKind::Directory, b".nd-integrity/x"), Step::Abort));
    let mut ex = Extraction::new();
    assert!(matches!(ex.entry(EntryKind::Regular, b"package/lib/.nd-integrity"), Step::WriteFile(_)));
}
