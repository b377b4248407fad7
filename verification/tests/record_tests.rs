use seamonkey::record::{Metadata, Record, RecordItem};

fn meta(id: &str, version: &str) -> Metadata {
    Metadata {
        id: id.to_string(),
        name: format!("{} name", id),
        description: "a package".to_string(),
        version: version.to_string(),
        authors: vec!["someone".to_string()],
        url: "https://example.com".to_string(),
        update: format!("https://example.com/{}.zip", id),
    }
}

fn item(files: &[&str], metadata: Option<Metadata>) -> RecordItem {
    RecordItem {
        sha256: "deadbeef".to_string(),
        last_update_time: "2024-01-01 00:00:00".to_string(),
        files: files.iter().map(|f| f.to_string()).collect(),
        from: "file:///tmp/pkg.zip".to_string(),
        metadata,
    }
}

#[test]
fn empty_record_has_no_entries() {
    let r = Record::empty();
    assert_eq!(r.len(), 0);
    assert!(!r.contains_id(&"x".to_string()));
}

#[test]
fn insert_then_get_finds_the_entry() {
    let mut r = Record::empty();
    r.insert("id-1".to_string(), item(&["a.txt"], None));
    assert_eq!(r.len(), 1);
    assert!(r.contains_id(&"id-1".to_string()));
    let it = r.get(&"id-1".to_string()).unwrap();
    assert_eq!(it.files, vec!["a.txt".to_string()]);
    assert!(r.get(&"id-2".to_string()).is_none());
}

#[test]
fn without_removes_only_that_entry() {
    let mut r = Record::empty();
    r.insert("id-1".to_string(), item(&["a.txt"], None));
    r.insert("id-2".to_string(), item(&["b.txt"], None));
    let r2 = r.without(&"id-1".to_string());
    assert!(!r2.contains_id(&"id-1".to_string()));
    assert!(r2.contains_id(&"id-2".to_string()));
    assert_eq!(r2.len(), 1);
}

#[test]
fn find_by_meta_id_matches_logical_identity() {
    let mut r = Record::empty();
    r.insert("install-a".to_string(), item(&["a.txt"], Some(meta("pkg.a", "1.0"))));
    r.insert("install-b".to_string(), item(&["b.txt"], Some(meta("pkg.b", "2.0"))));
    let p = r.find_by_meta_id(&"pkg.b".to_string()).unwrap();
    assert_eq!(p.0, "install-b".to_string());
    assert!(r.find_by_meta_id(&"pkg.c".to_string()).is_none());
}

#[test]
fn duplicate_copies_every_field() {
    let it = item(&["a.txt", "b/c.txt"], Some(meta("pkg.a", "1.0")));
    let copy = it.duplicate();
    assert_eq!(copy.sha256, it.sha256);
    assert_eq!(copy.files, it.files);
    assert_eq!(copy.from, it.from);
    assert_eq!(copy.metadata.as_ref().unwrap().id, "pkg.a".to_string());
    assert_eq!(copy.metadata.as_ref().unwrap().authors, vec!["someone".to_string()]);
}
