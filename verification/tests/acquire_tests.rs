use seamonkey::acquire::{
    alias_game_download_url, alias_game_metadata, alias_version_from_location, classify_source,
    AliasVersion, DownloadCache, SourceKind,
};

#[test]
fn plain_path_is_a_local_file() {
    match classify_source(&"mods/pkg.zip".to_string()) {
        SourceKind::LocalFile(p) => assert_eq!(p, "mods/pkg.zip".to_string()),
        _ => panic!("expected a local file"),
    }
}

#[test]
fn file_url_names_its_path() {
    match classify_source(&"file:///tmp/pkg.zip".to_string()) {
        SourceKind::LocalFile(p) => assert_eq!(p, "/tmp/pkg.zip".to_string()),
        _ => panic!("expected a local file"),
    }
}

#[test]
fn http_and_https_are_downloads() {
    match classify_source(&"https://example.com/pkg.zip".to_string()) {
        SourceKind::Web(u) => assert_eq!(u, "https://example.com/pkg.zip".to_string()),
        _ => panic!("expected a download"),
    }
    match classify_source(&"http://example.com/pkg.zip".to_string()) {
        SourceKind::Web(u) => assert_eq!(u, "http://example.com/pkg.zip".to_string()),
        _ => panic!("expected a download"),
    }
}

#[test]
fn alias_scheme_with_game_host_is_the_alias() {
    assert!(matches!(
        classify_source(&"localizedkorabli://game".to_string()),
        SourceKind::AliasGame
    ));
}

#[test]
fn alias_scheme_with_other_host_is_unsupported() {
    match classify_source(&"localizedkorabli://elsewhere".to_string()) {
        SourceKind::Unknown(s) => assert_eq!(s, "localized_korabli".to_string()),
        _ => panic!("expected an unsupported source"),
    }
}

#[test]
fn unknown_scheme_is_reported() {
    match classify_source(&"gopher://example.com/x".to_string()) {
        SourceKind::Unknown(s) => assert_eq!(s, "gopher".to_string()),
        _ => panic!("expected an unsupported source"),
    }
}

#[test]
fn cache_key_is_the_hex_digest_of_the_url() {
    // well-known SHA-256 of the three bytes "abc"
    let k = DownloadCache::cache_key(&"abc".to_string());
    assert_eq!(
        k,
        "ba7816bf8f01cfea414140de5dae2223b00361a396177a9cb410ff61f20015ad".to_string()
    );
}

#[test]
fn second_reference_hits_the_cache() {
    let mut cache = DownloadCache::new();
    let url = "https://example.com/pkg.zip".to_string();
    assert!(cache.needs_fetch(&url));
    assert!(!cache.needs_fetch(&url));
    assert!(!cache.needs_fetch(&url));
    let other = "https://example.com/other.zip".to_string();
    assert!(cache.needs_fetch(&other));
}

#[test]
fn alias_download_url_is_built_from_the_tag() {
    let u = alias_game_download_url(&"v1.2.3".to_string());
    assert_eq!(
        u,
        "https://github.com/LocalizedKorabli/Korabli-LESTA-L10N/releases/download/v1.2.3/v1.2.3.mod.zip".to_string()
    );
}

#[test]
fn alias_metadata_carries_the_version_and_identity() {
    let m = alias_game_metadata(&"v9".to_string());
    assert_eq!(m.id, "localized_korabli_game".to_string());
    assert_eq!(m.version, "v9".to_string());
    assert_eq!(m.update, "localizedkorabli://game".to_string());
}

#[test]
fn latest_version_is_the_last_path_segment() {
    match alias_version_from_location(
        &"https://github.com/LocalizedKorabli/Korabli-LESTA-L10N/releases/tag/1.2.3".to_string(),
    ) {
        AliasVersion::Version(v) => assert_eq!(v, "1.2.3".to_string()),
        _ => panic!("expected a version"),
    }
}

#[test]
fn unparseable_location_is_rejected() {
    assert!(matches!(
        alias_version_from_location(&"::not a url::".to_string()),
        AliasVersion::NotAUrl
    ));
}
