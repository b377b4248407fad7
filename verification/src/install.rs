//! The install pipeline's decisions: metadata resolution, upgrade detection,
//! conflict detection against the freshly loaded record and the disk, and the
//! record commit. Conflicts are detected before any file is written, so a
//! conflicting install leaves no filesystem side effect.

use vstd::prelude::*;
use crate::package::{PackageEntry, PackageEntryV};
use crate::record::{meta_id_matches, Metadata, MetadataV, Record, RecordItemV, entries_without_id,
    lemma_without_id_basic, lemma_without_id_wf};

verus! {

/// Why an install failed.
#[derive(Debug)]
pub enum Error {
    /// The batch of items was empty.
    NoModToInstall,
    /// A source URL uses a scheme (or alias host) nothing here understands.
    UnknownUrlScheme(String),
    /// The record store failed.
    Record(crate::record::Error),
    /// The archive could not be read.
    Zip(String),
    /// Disk or stream input/output failed.
    Io(String),
    /// The archive carries a malformed descriptor.
    DeToml(String),
    /// A target path already exists; carries the path and every active
    /// install that claims it.
    FileConflict(String, Vec<FileConfilctCheck>),
    /// A local source path does not exist; carries its URL form.
    ModNotFound(String),
    /// The user declined a confirmation prompt.
    UserInterrupt,
    /// The network transport failed.
    Reqwest(String),
    /// The release lookup's response lacks the needed header.
    EmptyResponseHeader(String),
    /// The release lookup's response header value is unusable.
    InvalidRequestHeader(String, String),
    /// A constructed URL does not parse.
    UrlParse(String),
    /// Uninstalling the replaced package during an upgrade failed.
    Uninstall(crate::uninstall::Error),
}

/// One active install that claims a conflicting path: its install id and its
/// metadata, so a user can tell which package to remove.
#[derive(Debug)]
pub struct FileConfilctCheck {
    pub installed: String,
    pub metadata: Option<Metadata>,
}

/// Mathematical value of a [`FileConfilctCheck`].
pub struct FileConfilctCheckV {
    pub installed: Seq<char>,
    pub metadata: Option<MetadataV>,
}

impl View for FileConfilctCheck {
    type V = FileConfilctCheckV;

    open spec fn view(&self) -> FileConfilctCheckV {
        FileConfilctCheckV {
            installed: self.installed@,
            metadata: match self.metadata {
                Some(ref m) => Some(m@),
                None => None,
            },
        }
    }
}

impl DeepView for FileConfilctCheck {
    type V = FileConfilctCheckV;

    open spec fn deep_view(&self) -> FileConfilctCheckV {
        self.view()
    }
}

/// How one install proceeds: whether to warn (and ask) when the archive
/// carries no metadata, a descriptor that overrides the archive's own, and
/// the non-interactive confirm-all mode.
#[derive(Debug)]
pub struct Options {
    pub warn_no_metadata: bool,
    pub override_metadata: Option<Metadata>,
    pub yes_for_all: bool,
}

/// Entry `i` collides: a regular-file target whose path already exists.
pub open spec fn conflict_at(entries: Seq<PackageEntryV>, on_disk: Seq<bool>, i: int) -> bool {
    !entries[i].is_dir && on_disk[i]
}

/// The active entries that claim `path`, in record order.
pub open spec fn owners_of(s: Seq<(Seq<char>, RecordItemV)>, path: Seq<char>) -> Seq<
    FileConfilctCheckV,
>
    decreases s.len(),
{
    if s.len() == 0 {
        seq![]
    } else {
        let rest = owners_of(s.drop_last(), path);
        if s.last().1.files.contains(path) {
            rest.push(FileConfilctCheckV { installed: s.last().0, metadata: s.last().1.metadata })
        } else {
            rest
        }
    }
}

/// Some owner in the list is install id `id`.
pub open spec fn owners_name_id(cl: Seq<FileConfilctCheckV>, id: Seq<char>) -> bool {
    exists|k: int| 0 <= k < cl.len() && cl[k].installed == id
}

/// Whether the string list holds `x`.
fn strings_contain(v: &Vec<String>, x: &String) -> (r: bool)
    ensures
        r == v.deep_view().contains(x@),
{
    let mut i: usize = 0;
    while i < v.len()
        invariant
            i <= v.len(),
            forall|j: int| 0 <= j < i ==> v.deep_view()[j] != x@,
        decreases v.len() - i,
    {
        if v[i] == *x {
            proof {
                assert(v.deep_view()[i as int] == x@);
            }
            return true;
        }
        i = i + 1;
    }
    proof {
        assert(!v.deep_view().contains(x@)) by {
            if v.deep_view().contains(x@) {
                let j = choose|j: int| 0 <= j < v.deep_view().len() && v.deep_view()[j] == x@;
                assert(v.deep_view()[j] != x@);
            }
        }
    }
    false
}

/// The active entries that claim `path`, as owned values.
fn collect_owners(record: &Record, path: &String) -> (cl: Vec<FileConfilctCheck>)
    ensures
        cl.deep_view() == owners_of(record@.installed, path@),
{
    let mut cl: Vec<FileConfilctCheck> = Vec::new();
    let mut k: usize = 0;
    while k < record.installed.len()
        invariant
            k <= record.installed.len(),
            cl.deep_view() == owners_of(record@.installed.take(k as int), path@),
        decreases record.installed.len() - k,
    {
        proof {
            assert(record@.installed.take(k + 1 as int).drop_last() =~= record@.installed.take(
                k as int,
            ));
            assert(record@.installed.take(k + 1 as int).last() == record@.installed[k as int]);
        }
        let ghost before = cl.deep_view();
        if strings_contain(&record.installed[k].1.files, path) {
            let owner = FileConfilctCheck {
                installed: record.installed[k].0.clone(),
                metadata: crate::record::duplicate_metadata_opt(&record.installed[k].1.metadata),
            };
            proof {
                assert(owner@ == FileConfilctCheckV {
                    installed: record@.installed[k as int].0,
                    metadata: record@.installed[k as int].1.metadata,
                });
            }
            cl.push(owner);
            proof {
                assert(cl.deep_view() =~= before.push(owner@));
            }
        }
        k = k + 1;
    }
    proof {
        assert(record@.installed.take(record@.installed.len() as int) =~= record@.installed);
    }
    cl
}

/// Check every target path of the archive against the disk and the record.
/// `on_disk[i]` answers whether something already exists at `entries[i]`'s
/// target path. The first colliding regular-file entry is reported with every
/// active install that claims its path; directory collisions are not
/// conflicts.
pub fn check_conflicts(record: &Record, entries: &Vec<PackageEntry>, on_disk: &Vec<bool>) -> (r:
    Result<(), (String, Vec<FileConfilctCheck>)>)
    requires
        on_disk@.len() == entries@.len(),
    ensures
        match r {
            Ok(()) => forall|i: int|
                0 <= i < entries.deep_view().len() ==> !conflict_at(
                    entries.deep_view(),
                    on_disk@,
                    i,
                ),
            Err((p, cl)) => exists|i: int|
                0 <= i < entries.deep_view().len() && #[trigger] conflict_at(
                    entries.deep_view(),
                    on_disk@,
                    i,
                ) && p@ == entries.deep_view()[i].path && cl.deep_view() == owners_of(
                    record@.installed,
                    entries.deep_view()[i].path,
                ) && forall|j: int| 0 <= j < i ==> !conflict_at(entries.deep_view(), on_disk@, j),
        },
{
    let mut i: usize = 0;
    while i < entries.len()
        invariant
            i <= entries.len(),
            on_disk@.len() == entries@.len(),
            forall|j: int| 0 <= j < i ==> !conflict_at(entries.deep_view(), on_disk@, j),
        decreases entries.len() - i,
    {
        if !entries[i].is_dir && on_disk[i] {
            let path = entries[i].path.clone();
            let cl = collect_owners(record, &path);
            proof {
                assert(conflict_at(entries.deep_view(), on_disk@, i as int));
            }
            return Err((path, cl));
        }
        i = i + 1;
    }
    Ok(())
}

/// The replaced install, when the candidate's metadata declares the same
/// logical package id as an active entry: that entry's install id and its
/// recorded version.
pub fn find_upgrade(record: &Record, meta: &Metadata) -> (r: Option<(String, String)>)
    ensures
        match r {
            Some(p) => exists|i: int|
                {
                    &&& 0 <= i < record@.installed.len()
                    &&& meta_id_matches(#[trigger] record@.installed[i], meta@.id)
                    &&& record@.installed[i].0 == p.0@
                    &&& record@.installed[i].1.metadata matches Some(m) && m.version == p.1@
                    &&& forall|j: int|
                        0 <= j < i ==> !meta_id_matches(#[trigger] record@.installed[j], meta@.id)
                },
            None => forall|i: int|
                0 <= i < record@.installed.len() ==> !meta_id_matches(
                    #[trigger] record@.installed[i],
                    meta@.id,
                ),
        },
{
    match record.find_by_meta_id(&meta.id) {
        Some(p) => {
            match &p.1.metadata {
                Some(m) => Some((p.0.clone(), m.version.clone())),
                None => vstd::pervasive::unreached(),
            }
        },
        None => None,
    }
}

/// Relies on uuid::Uuid::new_v4 and its Display rendering: a freshly drawn
/// random identifier; nothing is promised of its value beyond its shape, the
/// 36-character hyphenated form every rendered UUID has.
#[verifier::external_body]
fn random_install_id() -> (r: String)
    ensures
        r@.len() == 36,
{
    uuid::Uuid::new_v4().to_string()
}

/// The id a new install transaction records: the preset one where the alias
/// lookup supplies it, else a freshly drawn one (never empty).
pub fn choose_install_id(preset: Option<String>) -> (r: String)
    ensures
        match preset {
            Some(s) => r@ == s@,
            None => r@.len() == 36,
        },
{
    match preset {
        Some(s) => s,
        None => random_install_id(),
    }
}

/// An install batch must name something: the empty batch is rejected before
/// any item is acquired.
pub fn require_install_items(items: &Vec<String>) -> (r: Result<(), Error>)
    ensures
        r is Ok <==> items@.len() > 0,
        r matches Err(e) ==> e is NoModToInstall,
{
    if items.len() == 0 {
        Err(Error::NoModToInstall)
    } else {
        Ok(())
    }
}

/// Whether this install must stop for a confirmation because the archive
/// carries no descriptor: only when the caller asked to warn and no
/// confirm-all mode is active.
pub fn missing_metadata_prompt_needed(metadata: &Option<Metadata>, options: &Options) -> (r: bool)
    ensures
        r == (metadata is None && options.warn_no_metadata && !options.yes_for_all),
{
    match metadata {
        None => options.warn_no_metadata && !options.yes_for_all,
        Some(_) => false,
    }
}

/// Law: installing the same archive twice without uninstalling the first
/// fails with a conflict that names the first install. Once a record gained
/// the entry `(id, item)` whose files cover the archive's regular-file paths
/// and those paths are on disk, the conflict check for the same archive
/// cannot pass, and whichever colliding entry it reports, the owners listed
/// for it include `id`.
pub proof fn lemma_second_install_conflicts(
    s: Seq<(Seq<char>, RecordItemV)>,
    id: Seq<char>,
    item: RecordItemV,
    entries: Seq<PackageEntryV>,
    on_disk: Seq<bool>,
)
    requires
        on_disk.len() == entries.len(),
        forall|i: int|
            0 <= i < entries.len() && !(#[trigger] entries[i]).is_dir ==> on_disk[i]
                && item.files.contains(entries[i].path),
        exists|i: int| 0 <= i < entries.len() && !(#[trigger] entries[i]).is_dir,
    ensures
        exists|i: int| 0 <= i < entries.len() && #[trigger] conflict_at(entries, on_disk, i),
        forall|i: int|
            0 <= i < entries.len() && #[trigger] conflict_at(entries, on_disk, i)
                ==> owners_name_id(owners_of(s.push((id, item)), entries[i].path), id),
{
    let i0 = choose|i: int| 0 <= i < entries.len() && !(#[trigger] entries[i]).is_dir;
    assert(conflict_at(entries, on_disk, i0));
    assert forall|i: int|
        0 <= i < entries.len() && #[trigger] conflict_at(entries, on_disk, i) implies owners_name_id(
        owners_of(s.push((id, item)), entries[i].path),
        id,
    ) by {
        let p = entries[i].path;
        let t = s.push((id, item));
        assert(t.drop_last() =~= s);
        assert(t.last() == (id, item));
        assert(item.files.contains(p));
        let w = owners_of(t, p);
        assert(w == owners_of(s, p).push(
            FileConfilctCheckV { installed: id, metadata: item.metadata },
        ));
        assert(w[w.len() - 1].installed == id);
    }
}

/// Law: uninstall followed by re-install of the same archive succeeds and
/// yields a record that holds the fresh install id and no longer the old one.
/// After the old install's entry and files are gone, no target path of the
/// archive collides, and committing under a fresh id `id1` distinct from the
/// removed `id0` gives a well-formed record mapping `id1` to the new item and
/// holding nothing under `id0`.
pub proof fn lemma_reinstall_after_uninstall(
    s: Seq<(Seq<char>, RecordItemV)>,
    id0: Seq<char>,
    id1: Seq<char>,
    item1: RecordItemV,
    entries: Seq<PackageEntryV>,
    on_disk: Seq<bool>,
)
    requires
        on_disk.len() == entries.len(),
        forall|i: int| 0 <= i < on_disk.len() ==> !on_disk[i],
        id1 != id0,
        forall|j: int| 0 <= j < s.len() ==> (#[trigger] s[j]).0 != id1,
        forall|i: int, j: int| 0 <= i < j < s.len() ==> s[i].0 != s[j].0,
    ensures
        forall|i: int| 0 <= i < entries.len() ==> !conflict_at(entries, on_disk, i),
        ({
            let r2 = entries_without_id(s, id0).push((id1, item1));
            &&& (crate::record::RecordV { installed: r2 }).contains_id(id1)
            &&& !(crate::record::RecordV { installed: r2 }).contains_id(id0)
            &&& (crate::record::RecordV { installed: r2 }).lookup(id1) == Some(item1)
            &&& forall|i: int, j: int| 0 <= i < j < r2.len() ==> r2[i].0 != r2[j].0
        }),
{
    lemma_without_id_basic(s, id0);
    lemma_without_id_wf(s, id0);
    let w = entries_without_id(s, id0);
    let r2 = w.push((id1, item1));
    assert forall|j: int| 0 <= j < w.len() implies (#[trigger] w[j]).0 != id1 by {
        let k = choose|k: int| 0 <= k < s.len() && s[k] == w[j];
        assert(s[k].0 != id1);
    }
    assert(r2[r2.len() - 1].0 == id1);
    let rv2 = crate::record::RecordV { installed: r2 };
    assert(rv2.installed == r2);
    assert(rv2.installed[r2.len() - 1].0 == id1);
    assert(rv2.contains_id(id1));
    assert forall|i: int| 0 <= i < r2.len() && (#[trigger] r2[i]).0 == id0 implies false by {
        if i < r2.len() - 1 {
            assert(w[i].0 != id0);
        }
    }
    assert(!rv2.contains_id(id0));
    let k = rv2.index_of_id(id1);
    assert(0 <= k < r2.len() && r2[k].0 == id1);
    if k < r2.len() - 1 {
        assert(w[k].0 != id1);
        assert(false);
    }
    assert(rv2.lookup(id1) == Some(item1));
}

/// Law: an upgrade replaces. In a well-formed record whose only entry with
/// logical package id `mid` stands at index `i0` under install id `id0`,
/// uninstalling `id0` and committing the new item (which declares `mid`)
/// under `id1` yields a well-formed record in which exactly one entry carries
/// metadata id `mid`: the new entry `(id1, item1)`, at the end.
pub proof fn lemma_upgrade_replaces(
    s: Seq<(Seq<char>, RecordItemV)>,
    i0: int,
    id0: Seq<char>,
    id1: Seq<char>,
    item1: RecordItemV,
    mid: Seq<char>,
)
    requires
        forall|i: int, j: int| 0 <= i < j < s.len() ==> s[i].0 != s[j].0,
        0 <= i0 < s.len(),
        meta_id_matches(s[i0], mid),
        s[i0].0 == id0,
        forall|j: int| 0 <= j < s.len() && j != i0 ==> !meta_id_matches(#[trigger] s[j], mid),
        item1.metadata matches Some(m1) && m1.id == mid,
        id1 == id0 || forall|j: int| 0 <= j < s.len() ==> (#[trigger] s[j]).0 != id1,
    ensures
        ({
            let r2 = entries_without_id(s, id0).push((id1, item1));
            &&& r2[r2.len() - 1] == (id1, item1)
            &&& forall|j: int|
                0 <= j < r2.len() ==> (meta_id_matches(#[trigger] r2[j], mid) <==> j == r2.len()
                    - 1)
            &&& forall|i: int, j: int| 0 <= i < j < r2.len() ==> r2[i].0 != r2[j].0
        }),
{
    lemma_without_id_basic(s, id0);
    lemma_without_id_wf(s, id0);
    let w = entries_without_id(s, id0);
    let r2 = w.push((id1, item1));
    assert(r2[r2.len() - 1] == (id1, item1));
    assert(meta_id_matches(r2[r2.len() - 1], mid));
    assert forall|j: int| 0 <= j < r2.len() - 1 implies !meta_id_matches(#[trigger] r2[j], mid) by {
        assert(r2[j] == w[j]);
        let k = choose|k: int| 0 <= k < s.len() && s[k] == w[j];
        if meta_id_matches(s[k], mid) {
            assert(k == i0);
            assert(w[j].0 != id0);
        }
    }
    assert forall|j: int| 0 <= j < w.len() implies (#[trigger] w[j]).0 != id1 by {
        let k = choose|k: int| 0 <= k < s.len() && s[k] == w[j];
        if id1 == id0 {
            assert(w[j].0 != id0);
        } else {
            assert(s[k].0 != id1);
        }
    }
}

} // verus!
