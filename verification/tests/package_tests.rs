use seamonkey::install::Error;
use seamonkey::meta_toml::parse_metadata_toml;
use seamonkey::package::{find_metadata_entry, stage_package};

fn build_zip(entries: &[(&str, &[u8])]) -> Vec<u8> {
    let cursor = futures_lite::io::Cursor::new(Vec::new());
    let mut writer = async_zip::base::write::ZipFileWriter::new(cursor);
    for (name, data) in entries {
        let builder = async_zip::ZipEntryBuilder::new(
            (*name).to_string().into(),
            async_zip::Compression::Stored,
        );
        futures_lite::future::block_on(writer.write_entry_whole(builder, data)).unwrap();
    }
    let cursor = futures_lite::future::block_on(writer.close()).unwrap();
    cursor.into_inner()
}

const META_DOC: &[u8] = b"# package descriptor
id = \"pkg.demo\"
name = \"Demo\" # trailing note
description = \"a demo package\"
version = \"2.1\"
authors = [\"one\", \"two\"]
url = \"https://example.com/demo\"
update = \"https://example.com/demo.zip\"
";

#[test]
fn toml_descriptor_parses_fully() {
    let m = parse_metadata_toml(&META_DOC.to_vec()).unwrap();
    assert_eq!(m.id, "pkg.demo".to_string());
    assert_eq!(m.name, "Demo".to_string());
    assert_eq!(m.version, "2.1".to_string());
    assert_eq!(m.authors, vec!["one".to_string(), "two".to_string()]);
    assert_eq!(m.update, "https://example.com/demo.zip".to_string());
}

#[test]
fn toml_update_defaults_to_empty_when_absent() {
    let doc = b"id = \"p\"\nname = \"n\"\ndescription = \"d\"\nversion = \"1\"\nauthors = []\nurl = \"u\"\n";
    let m = parse_metadata_toml(&doc.to_vec()).unwrap();
    assert_eq!(m.update, "".to_string());
}

#[test]
fn toml_unknown_keys_are_ignored() {
    let doc = b"id = \"p\"\nfuture_flag = [\"x\", \"y\"]\nname = \"n\"\nhomepage2 = \"zzz\"\ndescription = \"d\"\nversion = \"1\"\nauthors = [\n  \"a\",\n  \"b\",\n]\nurl = \"u\"\n";
    let m = parse_metadata_toml(&doc.to_vec()).unwrap();
    assert_eq!(m.id, "p".to_string());
    assert_eq!(m.authors, vec!["a".to_string(), "b".to_string()]);
}

#[test]
fn toml_missing_required_field_is_rejected() {
    let doc = b"id = \"p\"\nname = \"n\"\n";
    assert!(parse_metadata_toml(&doc.to_vec()).is_none());
}

#[test]
fn toml_escapes_are_decoded() {
    let doc = b"id = \"a\\\"b\\\\c\\n\"\nname = \"n\"\ndescription = \"d\"\nversion = \"1\"\nauthors = []\nurl = \"u\"\n";
    let m = parse_metadata_toml(&doc.to_vec()).unwrap();
    assert_eq!(m.id, "a\"b\\c\n".to_string());
}

#[test]
fn metadata_entry_is_found_by_its_fixed_name() {
    let names = vec![
        ("a.txt".to_string(), false),
        ("seamonkey.toml".to_string(), false),
        ("b.txt".to_string(), false),
    ];
    assert_eq!(find_metadata_entry(&names), Some(1));
    let none = vec![("a.txt".to_string(), false)];
    assert_eq!(find_metadata_entry(&none), None);
}

#[test]
fn staging_reads_entries_metadata_and_hash() {
    let zip = build_zip(&[
        ("content/", b""),
        ("content/a.txt", b"hello"),
        ("seamonkey.toml", META_DOC),
    ]);
    let st = stage_package(&zip, "file:///tmp/demo.zip".to_string(), None).unwrap();
    assert_eq!(st.entries.len(), 3);
    assert_eq!(st.entries[0].path, "content".to_string());
    assert!(st.entries[0].is_dir);
    assert_eq!(st.entries[1].path, "content/a.txt".to_string());
    assert!(!st.entries[1].is_dir);
    // regular files only, in order
    assert_eq!(
        st.item.files,
        vec!["content/a.txt".to_string(), "seamonkey.toml".to_string()]
    );
    assert_eq!(st.item.from, "file:///tmp/demo.zip".to_string());
    assert_eq!(st.item.sha256, sha256::digest(zip.as_slice()));
    match &st.item.metadata {
        Some(m) => assert_eq!(m.id, "pkg.demo".to_string()),
        None => panic!("embedded descriptor lost"),
    }
}

#[test]
fn staging_sanitizes_traversal_entry_names() {
    let zip = build_zip(&[("../escape.txt", b"x"), ("ok/../also.txt", b"y")]);
    let st = stage_package(&zip, "f".to_string(), None).unwrap();
    assert_eq!(st.entries[0].path, "escape.txt".to_string());
    assert_eq!(st.entries[1].path, "ok/also.txt".to_string());
}

#[test]
fn staging_applies_the_override_descriptor() {
    let zip = build_zip(&[("a.txt", b"x")]);
    let m = seamonkey::record::Metadata {
        id: "forced".to_string(),
        name: "n".to_string(),
        description: "d".to_string(),
        version: "1".to_string(),
        authors: vec![],
        url: "u".to_string(),
        update: "s".to_string(),
    };
    let st = stage_package(&zip, "f".to_string(), Some(m)).unwrap();
    match &st.item.metadata {
        Some(m) => assert_eq!(m.id, "forced".to_string()),
        None => panic!("override lost"),
    }
}

#[test]
fn staging_rejects_bytes_that_are_no_archive() {
    match stage_package(&b"surely not a zip".to_vec(), "f".to_string(), None) {
        Err(Error::Zip(_)) => {},
        _ => panic!("unreadable bytes must fail as an archive error"),
    }
}

#[test]
fn staging_rejects_a_malformed_descriptor() {
    let zip = build_zip(&[("seamonkey.toml", b"id = \"only\"\n")]);
    match stage_package(&zip, "f".to_string(), None) {
        Err(Error::DeToml(_)) => {},
        _ => panic!("a malformed descriptor must fail as a metadata error"),
    }
}
