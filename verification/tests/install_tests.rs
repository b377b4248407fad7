use seamonkey::install::{
    check_conflicts, choose_install_id, find_upgrade, missing_metadata_prompt_needed, Error,
    Options,
};
use seamonkey::package::PackageEntry;
use seamonkey::record::{Metadata, Record, RecordItem};
use seamonkey::retry::{retry_decision, RetryAction, MAX_ATTEMPTS};
use seamonkey::uninstall::plan_uninstall;
use seamonkey::uninstall::apply_uninstall;
use seamonkey::update::collect_update_items;

fn meta(id: &str, version: &str, update: &str) -> Metadata {
    Metadata {
        id: id.to_string(),
        name: id.to_string(),
        description: "d".to_string(),
        version: version.to_string(),
        authors: vec![],
        url: "u".to_string(),
        update: update.to_string(),
    }
}

fn item(files: &[&str], metadata: Option<Metadata>) -> RecordItem {
    RecordItem {
        sha256: "hash".to_string(),
        last_update_time: "t".to_string(),
        files: files.iter().map(|f| f.to_string()).collect(),
        from: "from".to_string(),
        metadata,
    }
}

fn entry(path: &str, is_dir: bool) -> PackageEntry {
    PackageEntry { path: path.to_string(), is_dir }
}

#[test]
fn no_conflict_on_a_clean_directory() {
    let record = Record::empty();
    let entries = vec![entry("a.txt", false), entry("sub", true)];
    let on_disk = vec![false, false];
    assert!(check_conflicts(&record, &entries, &on_disk).is_ok());
}

#[test]
fn existing_directory_is_not_a_conflict() {
    let record = Record::empty();
    let entries = vec![entry("sub", true), entry("sub/a.txt", false)];
    let on_disk = vec![true, false];
    assert!(check_conflicts(&record, &entries, &on_disk).is_ok());
}

#[test]
fn second_install_of_same_archive_conflicts_naming_the_first() {
    // first install committed entry "install-1" owning the file
    let mut record = Record::empty();
    record.insert("install-1".to_string(), item(&["mod/a.txt"], Some(meta("pkg", "1.0", "s"))));
    // the same archive again: its file is now on disk
    let entries = vec![entry("mod", true), entry("mod/a.txt", false)];
    let on_disk = vec![true, true];
    match check_conflicts(&record, &entries, &on_disk) {
        Err((path, owners)) => {
            assert_eq!(path, "mod/a.txt".to_string());
            assert_eq!(owners.len(), 1);
            assert_eq!(owners[0].installed, "install-1".to_string());
            match &owners[0].metadata {
                Some(m) => assert_eq!(m.id, "pkg".to_string()),
                None => panic!("owner metadata lost"),
            }
        },
        Ok(()) => panic!("the second install must conflict"),
    }
}

#[test]
fn conflicting_file_without_owner_lists_nobody() {
    let record = Record::empty();
    let entries = vec![entry("a.txt", false)];
    let on_disk = vec![true];
    match check_conflicts(&record, &entries, &on_disk) {
        Err((path, owners)) => {
            assert_eq!(path, "a.txt".to_string());
            assert!(owners.is_empty());
        },
        Ok(()) => panic!("an existing file must conflict"),
    }
}

#[test]
fn uninstall_then_reinstall_succeeds_with_a_fresh_id() {
    let mut record = Record::empty();
    record.insert("old-id".to_string(), item(&["a.txt"], None));
    // uninstall
    let plan = plan_uninstall(&record, &vec!["old-id".to_string()]).unwrap();
    assert_eq!(plan.ids, vec!["old-id".to_string()]);
    assert_eq!(plan.files, vec!["a.txt".to_string()]);
    let record = apply_uninstall(&record, &plan.ids);
    assert!(!record.contains_id(&"old-id".to_string()));
    // re-install: files were deleted, nothing conflicts
    let entries = vec![entry("a.txt", false)];
    let on_disk = vec![false];
    assert!(check_conflicts(&record, &entries, &on_disk).is_ok());
    let mut record = record;
    let fresh = choose_install_id(None);
    assert!(!record.contains_id(&fresh));
    record.insert(fresh.clone(), item(&["a.txt"], None));
    assert!(record.contains_id(&fresh));
    assert_ne!(fresh, "old-id".to_string());
}

#[test]
fn upgrade_replaces_the_old_version() {
    let mut record = Record::empty();
    record.insert("old-install".to_string(), item(&["x/1.txt"], Some(meta("pkg.x", "1.0", "s"))));
    let candidate = meta("pkg.x", "2.0", "s");
    let (old_id, old_version) = find_upgrade(&record, &candidate).unwrap();
    assert_eq!(old_id, "old-install".to_string());
    assert_eq!(old_version, "1.0".to_string());
    // old entry and files go first, then the new one is committed
    let record = record.without(&old_id);
    let mut record = record;
    record.insert("new-install".to_string(), item(&["x/1.txt"], Some(candidate)));
    assert_eq!(record.len(), 1);
    let found = record.find_by_meta_id(&"pkg.x".to_string()).unwrap();
    assert_eq!(found.0, "new-install".to_string());
    match &found.1.metadata {
        Some(m) => assert_eq!(m.version, "2.0".to_string()),
        None => panic!("metadata lost"),
    }
}

#[test]
fn fresh_install_is_no_upgrade() {
    let mut record = Record::empty();
    record.insert("a".to_string(), item(&[], Some(meta("pkg.a", "1.0", "s"))));
    assert!(find_upgrade(&record, &meta("pkg.b", "1.0", "s")).is_none());
}

#[test]
fn unresolved_identifier_fails_before_anything_is_deleted() {
    let mut record = Record::empty();
    record.insert("a".to_string(), item(&["f"], None));
    match plan_uninstall(&record, &vec!["a".to_string(), "ghost".to_string()]) {
        Err(seamonkey::uninstall::Error::ModNotFound(it)) => assert_eq!(it, "ghost".to_string()),
        _ => panic!("an unknown identifier must fail the whole call"),
    }
}

#[test]
fn uninstall_resolves_package_ids_too() {
    let mut record = Record::empty();
    record.insert("install-7".to_string(), item(&["f1", "f2"], Some(meta("pkg.z", "1.0", "s"))));
    let plan = plan_uninstall(&record, &vec!["pkg.z".to_string()]).unwrap();
    assert_eq!(plan.ids, vec!["install-7".to_string()]);
    assert_eq!(plan.files, vec!["f1".to_string(), "f2".to_string()]);
    let after = apply_uninstall(&record, &plan.ids);
    assert_eq!(after.len(), 0);
}

#[test]
fn update_collects_every_updatable_source() {
    let mut record = Record::empty();
    record.insert("a".to_string(), item(&[], Some(meta("p.a", "1", "https://a/pkg.zip"))));
    record.insert("b".to_string(), item(&[], None));
    record.insert("c".to_string(), item(&[], Some(meta("p.c", "1", "localizedkorabli://game"))));
    let items = collect_update_items(&record);
    assert_eq!(
        items,
        vec!["https://a/pkg.zip".to_string(), "localizedkorabli://game".to_string()]
    );
}

#[test]
fn preset_install_id_is_kept() {
    let id = choose_install_id(Some("fixed".to_string()));
    assert_eq!(id, "fixed".to_string());
}

#[test]
fn random_install_ids_differ() {
    assert_ne!(choose_install_id(None), choose_install_id(None));
}

#[test]
fn fresh_install_ids_have_the_rendered_uuid_shape() {
    let id = choose_install_id(None);
    assert_eq!(id.len(), 36);
}

#[test]
fn missing_metadata_prompts_only_when_asked_and_interactive() {
    let opts = |warn: bool, yes: bool| Options {
        warn_no_metadata: warn,
        override_metadata: None,
        yes_for_all: yes,
    };
    assert!(missing_metadata_prompt_needed(&None, &opts(true, false)));
    assert!(!missing_metadata_prompt_needed(&None, &opts(true, true)));
    assert!(!missing_metadata_prompt_needed(&None, &opts(false, false)));
    assert!(!missing_metadata_prompt_needed(&Some(meta("a", "1", "s")), &opts(true, false)));
}

#[test]
fn retry_only_recovers_confirmed_conflicts() {
    assert!(matches!(retry_decision(&Ok(()), true, MAX_ATTEMPTS), RetryAction::Done));
    let conflict: Result<(), Error> = Err(Error::FileConflict(
        "a.txt".to_string(),
        vec![
            seamonkey::install::FileConfilctCheck {
                installed: "i1".to_string(),
                metadata: None,
            },
            seamonkey::install::FileConfilctCheck {
                installed: "i2".to_string(),
                metadata: None,
            },
        ],
    ));
    match retry_decision(&conflict, true, 2) {
        RetryAction::RetryAfterUninstall(ids) => {
            assert_eq!(ids, vec!["i1".to_string(), "i2".to_string()]);
        },
        _ => panic!("a confirmed conflict must be retried"),
    }
    assert!(matches!(retry_decision(&conflict, false, 2), RetryAction::Fail));
    assert!(matches!(retry_decision(&conflict, true, 0), RetryAction::Fail));
    let other: Result<(), Error> = Err(Error::NoModToInstall);
    assert!(matches!(retry_decision(&other, true, 2), RetryAction::Fail));
}
