//! Reading an acquired archive: enumerating its entries, cleaning each target
//! path, and extracting the embedded descriptor, staged into the record entry
//! a successful install will commit.

use vstd::prelude::*;
use crate::acquire::{sha256_hex_bytes, sha256_hex_of_bytes};
use crate::install::Error;
use crate::meta_toml::{parse_metadata_toml, spec_parse_metadata_toml};
use crate::record::{Metadata, MetadataV, RecordItem};
use crate::sanitize::{sanitize_file_path, sanitized_from, escapes, split_path};

verus! {

/// One archive entry as the installer sees it: the cleaned relative target
/// path and whether the entry is a directory.
#[derive(Debug)]
pub struct PackageEntry {
    pub path: String,
    pub is_dir: bool,
}

/// Mathematical value of a [`PackageEntry`].
pub struct PackageEntryV {
    pub path: Seq<char>,
    pub is_dir: bool,
}

impl View for PackageEntry {
    type V = PackageEntryV;

    open spec fn view(&self) -> PackageEntryV {
        PackageEntryV { path: self.path@, is_dir: self.is_dir }
    }
}

impl DeepView for PackageEntry {
    type V = PackageEntryV;

    open spec fn deep_view(&self) -> PackageEntryV {
        self.view()
    }
}

/// What the archive reader finds in the bytes: each entry's name and whether
/// it is a directory, a pure function of the bytes; nothing when they are not
/// a readable archive.
pub uninterp spec fn zip_entries_of(b: Seq<u8>) -> Option<Seq<(Seq<char>, bool)>>;

/// The stored content of entry `i`, a pure function of the archive bytes;
/// nothing when it cannot be read back.
pub uninterp spec fn zip_entry_data_of(b: Seq<u8>, i: int) -> Option<Seq<u8>>;

/// Relies on async_zip's seek-based ZipFileReader, driven to completion by
/// futures_lite's block_on: enumerating the entries of an in-memory archive
/// is a pure function of its bytes.
#[verifier::external_body]
fn zip_entry_list(bytes: &Vec<u8>) -> (r: Result<Vec<(String, bool)>, String>)
    ensures
        match r {
            Ok(v) => zip_entries_of(bytes@) == Some(v.deep_view()),
            Err(_) => zip_entries_of(bytes@) is None,
        },
{
    let cursor = futures_lite::io::Cursor::new(bytes.as_slice());
    let zip = match futures_lite::future::block_on(
        async_zip::base::read::seek::ZipFileReader::new(cursor),
    ) {
        Ok(z) => z,
        Err(e) => return Err(e.to_string()),
    };
    let mut out: Vec<(String, bool)> = Vec::new();
    for e in zip.file().entries().iter() {
        let name = e.filename().as_str().map_err(|e| e.to_string())?.to_owned();
        let dir = e.dir().map_err(|e| e.to_string())?;
        out.push((name, dir));
    }
    Ok(out)
}

/// Relies on async_zip's reader_without_entry and futures_lite's read_to_end:
/// an entry's stored content is a pure function of the archive bytes and the
/// entry index.
#[verifier::external_body]
fn zip_entry_bytes(bytes: &Vec<u8>, index: usize) -> (r: Result<Vec<u8>, String>)
    ensures
        match r {
            Ok(d) => zip_entry_data_of(bytes@, index as int) == Some(d@),
            Err(_) => zip_entry_data_of(bytes@, index as int) is None,
        },
{
    let cursor = futures_lite::io::Cursor::new(bytes.as_slice());
    let mut zip = futures_lite::future::block_on(
        async_zip::base::read::seek::ZipFileReader::new(cursor),
    ).map_err(|e| e.to_string())?;
    let mut rdr = futures_lite::future::block_on(zip.reader_without_entry(index)).map_err(
        |e| e.to_string(),
    )?;
    let mut buf = Vec::new();
    futures_lite::future::block_on(futures_lite::AsyncReadExt::read_to_end(&mut rdr, &mut buf))
        .map_err(|e| e.to_string())?;
    Ok(buf)
}

/// Relies on chrono::Local::now and its Display rendering: the moment of the
/// install as text; nothing is promised of its value.
#[verifier::external_body]
fn local_now_string() -> (r: String) {
    chrono::Local::now().to_string()
}

/// The fixed name of the embedded descriptor inside the archive root.
pub open spec fn meta_file_name() -> Seq<char> {
    seq!['s', 'e', 'a', 'm', 'o', 'n', 'k', 'e', 'y', '.', 't', 'o', 'm', 'l']
}

/// The index of the embedded descriptor among the entry names: the first
/// entry named exactly like the descriptor file.
pub fn find_metadata_entry(names: &Vec<(String, bool)>) -> (r: Option<usize>)
    ensures
        match r {
            Some(i) => i < names.deep_view().len() && names.deep_view()[i as int].0
                == meta_file_name() && forall|j: int|
                0 <= j < i ==> (#[trigger] names.deep_view()[j]).0 != meta_file_name(),
            None => forall|j: int|
                0 <= j < names.deep_view().len() ==> (#[trigger] names.deep_view()[j]).0
                    != meta_file_name(),
        },
{
    proof {
        reveal_strlit("seamonkey.toml");
        assert("seamonkey.toml"@ =~= meta_file_name());
    }
    let target = String::from_str("seamonkey.toml");
    let mut i: usize = 0;
    while i < names.len()
        invariant
            i <= names.len(),
            target@ == meta_file_name(),
            forall|j: int| 0 <= j < i ==> (#[trigger] names.deep_view()[j]).0 != meta_file_name(),
        decreases names.len() - i,
    {
        if names[i].0 == target {
            proof {
                assert(names.deep_view()[i as int].0 == meta_file_name());
            }
            return Some(i);
        }
        i = i + 1;
    }
    None
}

/// The regular-file paths of the entries, in order: what an install writes
/// and therefore owns. Directory entries own nothing.
pub open spec fn nondir_paths(s: Seq<PackageEntryV>) -> Seq<Seq<char>>
    decreases s.len(),
{
    if s.len() == 0 {
        seq![]
    } else {
        nondir_paths(s.drop_last()) + if s.last().is_dir {
            seq![]
        } else {
            seq![s.last().path]
        }
    }
}

/// An entry's cleaned path cannot resolve outside the target directory.
pub open spec fn entry_safe(e: PackageEntryV) -> bool {
    !escapes(split_path(e.path))
}

/// Everything an install stages before touching the record or the disk: the
/// cleaned entries to extract, and the record entry to commit.
#[derive(Debug)]
pub struct InstallStaging {
    pub entries: Vec<PackageEntry>,
    pub item: RecordItem,
}

/// The staged metadata is the right one: the override where one was supplied,
/// else the parsed embedded descriptor, else absent.
pub open spec fn staged_metadata_ok(
    b: Seq<u8>,
    override_metadata: Option<MetadataV>,
    names: Seq<(Seq<char>, bool)>,
    got: Option<MetadataV>,
) -> bool {
    match override_metadata {
        Some(o) => got == Some(o),
        None => {
            if forall|j: int| 0 <= j < names.len() ==> (#[trigger] names[j]).0 != meta_file_name() {
                got is None
            } else {
                exists|i: int|
                    {
                        &&& 0 <= i < names.len()
                        &&& (#[trigger] names[i]).0 == meta_file_name()
                        &&& (forall|j: int|
                            0 <= j < i ==> (#[trigger] names[j]).0 != meta_file_name())
                        &&& zip_entry_data_of(b, i) matches Some(d)
                        &&& spec_parse_metadata_toml(d) == got
                        &&& got is Some
                    }
            }
        },
    }
}

/// The first descriptor entry of the archive stands at index `i`.
pub open spec fn first_meta_entry_at(names: Seq<(Seq<char>, bool)>, i: int) -> bool {
    &&& 0 <= i < names.len()
    &&& (#[trigger] names[i]).0 == meta_file_name()
    &&& (forall|j: int| 0 <= j < i ==> (#[trigger] names[j]).0 != meta_file_name())
}

/// Staging succeeds exactly here: the bytes open as an archive, and the
/// descriptor question resolves — an override was supplied, or the archive
/// carries no descriptor entry (its absence is not an error), or the first
/// descriptor entry reads back and parses.
pub open spec fn staging_ok(b: Seq<u8>, override_metadata: Option<MetadataV>) -> bool {
    match zip_entries_of(b) {
        None => false,
        Some(names) => {
            ||| override_metadata is Some
            ||| (forall|j: int|
                0 <= j < names.len() ==> (#[trigger] names[j]).0 != meta_file_name())
            ||| exists|i: int|
                {
                    &&& #[trigger] first_meta_entry_at(names, i)
                    &&& zip_entry_data_of(b, i) matches Some(d)
                    &&& spec_parse_metadata_toml(d) is Some
                }
        },
    }
}

proof fn lemma_first_meta_entry_unique(names: Seq<(Seq<char>, bool)>, i: int, j: int)
    requires
        first_meta_entry_at(names, i),
        first_meta_entry_at(names, j),
    ensures
        i == j,
{
    if i < j {
        assert(names[i].0 != meta_file_name());
    }
    if j < i {
        assert(names[j].0 != meta_file_name());
    }
}

/// Open the acquired bytes as an archive and stage the install: clean every
/// entry name, gather the regular-file paths the install will own, hash the
/// bytes, and resolve the descriptor. Succeeds if and only if [`staging_ok`]
/// holds of the bytes; it fails with `Zip` when the bytes are not a readable
/// archive (or the descriptor entry cannot be read back), and with `DeToml`
/// when a present descriptor does not parse; no other error comes out.
pub fn stage_package(
    zip_bytes: &Vec<u8>,
    from: String,
    override_metadata: Option<Metadata>,
) -> (r: Result<InstallStaging, Error>)
    ensures
        r is Ok <==> staging_ok(zip_bytes@, match override_metadata {
            Some(ref o) => Some(o@),
            None => None,
        }),
        match r {
            Ok(st) => zip_entries_of(zip_bytes@) matches Some(names) && {
                &&& st.entries.deep_view().len() == names.len()
                &&& forall|i: int|
                    0 <= i < names.len() ==> (#[trigger] st.entries.deep_view()[i]).is_dir
                        == names[i].1
                &&& forall|i: int|
                    0 <= i < names.len() ==> entry_safe(#[trigger] st.entries.deep_view()[i])
                &&& forall|i: int|
                    0 <= i < names.len() ==> sanitized_from(
                        names[i].0,
                        (#[trigger] st.entries.deep_view()[i]).path,
                    )
                &&& st.item@.files == nondir_paths(st.entries.deep_view())
                &&& st.item@.sha256 == sha256_hex_of_bytes(zip_bytes@)
                &&& st.item@.from == from@
                &&& staged_metadata_ok(
                    zip_bytes@,
                    match override_metadata {
                        Some(ref o) => Some(o@),
                        None => None,
                    },
                    names,
                    st.item@.metadata,
                )
            },
            Err(e) => e matches Error::Zip(_) || e matches Error::DeToml(_),
        },
{
    let ghost ov: Option<MetadataV> = match override_metadata {
        Some(ref o) => Some(o@),
        None => None,
    };
    let names = match zip_entry_list(zip_bytes) {
        Ok(v) => v,
        Err(m) => {
            proof {
                assert(!staging_ok(zip_bytes@, ov));
            }
            return Err(Error::Zip(m));
        },
    };
    let ghost nv = names.deep_view();
    let meta: Option<Metadata>;
    match override_metadata {
        Some(o) => {
            meta = Some(o);
            proof {
                assert(staging_ok(zip_bytes@, ov));
            }
        },
        None => {
            match find_metadata_entry(&names) {
                None => {
                    meta = None;
                    proof {
                        assert(staging_ok(zip_bytes@, ov));
                    }
                },
                Some(ix) => {
                    proof {
                        assert(first_meta_entry_at(nv, ix as int));
                    }
                    let data = match zip_entry_bytes(zip_bytes, ix) {
                        Ok(d) => d,
                        Err(m) => {
                            proof {
                                assert forall|i: int|
                                    !(#[trigger] first_meta_entry_at(nv, i) && (zip_entry_data_of(
                                        zip_bytes@,
                                        i,
                                    ) matches Some(d) && spec_parse_metadata_toml(d)
                                        is Some)) by {
                                    if first_meta_entry_at(nv, i) {
                                        lemma_first_meta_entry_unique(nv, i, ix as int);
                                    }
                                }
                                assert(!staging_ok(zip_bytes@, ov));
                            }
                            return Err(Error::Zip(m));
                        },
                    };
                    match parse_metadata_toml(&data) {
                        Some(m) => {
                            meta = Some(m);
                            proof {
                                assert(zip_entry_data_of(zip_bytes@, ix as int) matches Some(d)
                                    ==> spec_parse_metadata_toml(d) is Some);
                                assert(staging_ok(zip_bytes@, ov));
                            }
                        },
                        None => {
                            proof {
                                assert forall|i: int|
                                    !(#[trigger] first_meta_entry_at(nv, i) && (zip_entry_data_of(
                                        zip_bytes@,
                                        i,
                                    ) matches Some(d) && spec_parse_metadata_toml(d)
                                        is Some)) by {
                                    if first_meta_entry_at(nv, i) {
                                        lemma_first_meta_entry_unique(nv, i, ix as int);
                                    }
                                }
                                assert(!staging_ok(zip_bytes@, ov));
                            }
                            return Err(
                                Error::DeToml(String::from_str("metadata document not understood")),
                            );
                        },
                    }
                },
            }
        },
    }
    let mut entries: Vec<PackageEntry> = Vec::new();
    let mut files: Vec<String> = Vec::new();
    let mut i: usize = 0;
    while i < names.len()
        invariant
            i <= names.len(),
            entries.deep_view().len() == i,
            forall|j: int|
                0 <= j < i ==> (#[trigger] entries.deep_view()[j]).is_dir
                    == names.deep_view()[j].1,
            forall|j: int| 0 <= j < i ==> entry_safe(#[trigger] entries.deep_view()[j]),
            forall|j: int|
                0 <= j < i ==> sanitized_from(
                    names.deep_view()[j].0,
                    (#[trigger] entries.deep_view()[j]).path,
                ),
            files.deep_view() == nondir_paths(entries.deep_view()),
        decreases names.len() - i,
    {
        let ghost entries0 = entries.deep_view();
        let ghost files0 = files.deep_view();
        let (_segs, path) = sanitize_file_path(names[i].0.as_str());
        let is_dir = names[i].1;
        if !is_dir {
            files.push(path.clone());
        }
        entries.push(PackageEntry { path, is_dir });
        proof {
            assert(entries.deep_view() =~= entries0.push(entries.deep_view().last()));
            assert(entries.deep_view().drop_last() =~= entries0);
            if is_dir {
                assert(files.deep_view() =~= files0 + Seq::<Seq<char>>::empty());
            } else {
                assert(files.deep_view() =~= files0 + seq![entries.deep_view().last().path]);
            }
        }
        i = i + 1;
    }
    let item = RecordItem {
        sha256: sha256_hex_bytes(zip_bytes),
        last_update_time: local_now_string(),
        files,
        from,
        metadata: meta,
    };
    Ok(InstallStaging { entries, item })
}

} // verus!
