use seamonkey::codec::{decode_record, encode_record, read_manifest};
use seamonkey::record::{Metadata, Record, RecordItem};

fn sample_record() -> Record {
    let mut r = Record::empty();
    r.insert(
        "install-1".to_string(),
        RecordItem {
            sha256: "aa11".to_string(),
            last_update_time: "2024-05-06 07:08:09".to_string(),
            files: vec!["a.txt".to_string(), "sub/b.bin".to_string()],
            from: "https://example.com/pkg.zip".to_string(),
            metadata: Some(Metadata {
                id: "pkg.one".to_string(),
                name: "Package \"One\"".to_string(),
                description: "line1\nline2\ttabbed \\ done".to_string(),
                version: "1.0".to_string(),
                authors: vec!["a".to_string(), "b".to_string()],
                url: "https://example.com".to_string(),
                update: "https://example.com/pkg.zip".to_string(),
            }),
        },
    );
    r.insert(
        "install-2".to_string(),
        RecordItem {
            sha256: "bb22".to_string(),
            last_update_time: "2024-05-06 07:08:10".to_string(),
            files: vec![],
            from: "file:///tmp/x.zip".to_string(),
            metadata: None,
        },
    );
    r
}

#[test]
fn empty_record_encodes_canonically() {
    let r = Record::empty();
    let bytes = encode_record(&r);
    assert_eq!(bytes, b"{\"installed\":{}}".to_vec());
}

#[test]
fn round_trip_preserves_the_record() {
    let r = sample_record();
    let bytes = encode_record(&r);
    let back = decode_record(&bytes).unwrap();
    assert_eq!(back.len(), 2);
    let it1 = back.get(&"install-1".to_string()).unwrap();
    assert_eq!(it1.sha256, "aa11".to_string());
    assert_eq!(it1.files, vec!["a.txt".to_string(), "sub/b.bin".to_string()]);
    let m = it1.metadata.as_ref().unwrap();
    assert_eq!(m.name, "Package \"One\"".to_string());
    assert_eq!(m.description, "line1\nline2\ttabbed \\ done".to_string());
    assert_eq!(m.authors, vec!["a".to_string(), "b".to_string()]);
    let it2 = back.get(&"install-2".to_string()).unwrap();
    assert!(it2.metadata.is_none());
    assert!(it2.files.is_empty());
}

#[test]
fn round_trip_keeps_non_ascii_text() {
    let mut r = Record::empty();
    r.insert(
        "id".to_string(),
        RecordItem {
            sha256: "cc".to_string(),
            last_update_time: "t".to_string(),
            files: vec!["データ/файл.txt".to_string()],
            from: "f".to_string(),
            metadata: None,
        },
    );
    let bytes = encode_record(&r);
    let back = decode_record(&bytes).unwrap();
    assert_eq!(
        back.get(&"id".to_string()).unwrap().files,
        vec!["データ/файл.txt".to_string()]
    );
}

#[test]
fn decode_rejects_garbage() {
    assert!(decode_record(&b"not json".to_vec()).is_err());
    assert!(decode_record(&b"{\"installed\":".to_vec()).is_err());
    assert!(decode_record(&b"{}".to_vec()).is_err());
    assert!(decode_record(&Vec::new()).is_err());
}

#[test]
fn decode_rejects_duplicate_install_ids() {
    let doc = b"{\"installed\":{\"a\":{\"sha256\":\"s\",\"last_update_time\":\"t\",\"files\":[],\"from\":\"f\",\"metadata\":null},\"a\":{\"sha256\":\"s\",\"last_update_time\":\"t\",\"files\":[],\"from\":\"f\",\"metadata\":null}}}";
    assert!(decode_record(&doc.to_vec()).is_err());
}

#[test]
fn decode_ignores_unknown_fields() {
    let doc = b"{\"installed\":{\"a\":{\"sha256\":\"s\",\"future\":[1,{\"x\":\"]\"}],\"last_update_time\":\"t\",\"files\":[\"f1\"],\"from\":\"f\",\"metadata\":null,\"more\":true}},\"extra\":\"later\"}";
    let r = decode_record(&doc.to_vec()).unwrap();
    let it = r.get(&"a".to_string()).unwrap();
    assert_eq!(it.sha256, "s".to_string());
    assert_eq!(it.files, vec!["f1".to_string()]);
}

#[test]
fn decode_tolerates_missing_optional_fields() {
    // no metadata field at all, and a descriptor without the update field
    let doc = b"{\"installed\":{\"a\":{\"sha256\":\"s\",\"last_update_time\":\"t\",\"files\":[],\"from\":\"f\"},\"b\":{\"sha256\":\"s\",\"last_update_time\":\"t\",\"files\":[],\"from\":\"f\",\"metadata\":{\"id\":\"p\",\"name\":\"n\",\"description\":\"d\",\"version\":\"1\",\"authors\":[],\"url\":\"u\"}}}}";
    let r = decode_record(&doc.to_vec()).unwrap();
    assert!(r.get(&"a".to_string()).unwrap().metadata.is_none());
    let m = match &r.get(&"b".to_string()).unwrap().metadata {
        Some(m) => (m.id.clone(), m.update.clone()),
        None => panic!("metadata lost"),
    };
    assert_eq!(m.0, "p".to_string());
    assert_eq!(m.1, "".to_string());
}

#[test]
fn decode_accepts_whitespace_between_tokens() {
    let doc = b" {\n  \"installed\" : {\n    \"a\" : { \"sha256\" : \"s\" , \"last_update_time\": \"t\",\n      \"files\" : [ \"f1\" , \"f2\" ] , \"from\" : \"f\" , \"metadata\" : null }\n  }\n}\n";
    let r = decode_record(&doc.to_vec()).unwrap();
    let it = r.get(&"a".to_string()).unwrap();
    assert_eq!(it.sha256, "s".to_string());
    assert_eq!(it.files, vec!["f1".to_string(), "f2".to_string()]);
}

#[test]
fn decode_accepts_reordered_fields_and_escapes() {
    let doc = b"{\"installed\":{\"a\":{\"from\":\"f\",\"files\":[\"q\\\"x\\\\y\\u0041\"],\"sha256\":\"s\",\"last_update_time\":\"\\n\"}}} \n";
    let r = decode_record(&doc.to_vec()).unwrap();
    let it = r.get(&"a".to_string()).unwrap();
    assert_eq!(it.files, vec!["q\"x\\yA".to_string()]);
    assert_eq!(it.last_update_time, "\n".to_string());
}

#[test]
fn read_missing_manifest_synthesizes_and_persists_empty_record() {
    let (rec, init) = read_manifest(None).unwrap();
    assert_eq!(rec.len(), 0);
    let init = init.expect("a fresh manifest must be written back");
    assert_eq!(init, b"{\"installed\":{}}".to_vec());
}

#[test]
fn read_existing_manifest_does_not_rewrite_it() {
    let bytes = encode_record(&sample_record());
    let (rec, init) = read_manifest(Some(bytes)).unwrap();
    assert_eq!(rec.len(), 2);
    assert!(init.is_none());
}

#[test]
fn read_corrupt_manifest_fails() {
    assert!(read_manifest(Some(b"[1,2]".to_vec())).is_err());
}
