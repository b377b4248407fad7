//! Removal of installed packages. Every identifier is resolved before
//! anything is touched: an exact install id first, else the logical package
//! id of an active entry's metadata. The record loses the resolved entries
//! and is persisted before their files are deleted from disk, so a crash in
//! between leaves orphaned files rather than a dangling record reference.

use vstd::prelude::*;
use crate::record::{meta_id_matches, Record, RecordV, RecordItemV, entries_without_id,
    clone_strings};

verus! {

/// Why an uninstall failed.
#[derive(Debug)]
pub enum Error {
    /// Deleting a file failed.
    Io(String),
    /// The record store failed.
    Record(crate::record::Error),
    /// An identifier names neither an install id nor an active package id.
    ModNotFound(String),
}

/// What a resolved uninstall will do: remove these install ids from the
/// record, then delete these files from disk.
#[derive(Debug)]
pub struct UninstallPlan {
    pub ids: Vec<String>,
    pub files: Vec<String>,
}

/// `item` names an active entry: as an exact install id, or as the logical
/// package id of some entry's metadata.
pub open spec fn resolvable(rv: RecordV, item: Seq<char>) -> bool {
    rv.contains_id(item) || exists|j: int|
        0 <= j < rv.installed.len() && meta_id_matches(#[trigger] rv.installed[j], item)
}

/// `item` resolves to install id `id`: itself when it is an install id, else
/// the id of the first entry whose metadata declares package id `item`.
pub open spec fn resolves_to(rv: RecordV, item: Seq<char>, id: Seq<char>) -> bool {
    if rv.contains_id(item) {
        id == item
    } else {
        exists|j: int|
            {
                &&& 0 <= j < rv.installed.len()
                &&& meta_id_matches(#[trigger] rv.installed[j], item)
                &&& rv.installed[j].0 == id
                &&& forall|k: int|
                    0 <= k < j ==> !meta_id_matches(#[trigger] rv.installed[k], item)
            }
    }
}

/// The files of the entries under `ids`, concatenated in order.
pub open spec fn concat_files(rv: RecordV, ids: Seq<Seq<char>>) -> Seq<Seq<char>>
    decreases ids.len(),
{
    if ids.len() == 0 {
        seq![]
    } else {
        concat_files(rv, ids.drop_last()) + match rv.lookup(ids.last()) {
            Some(it) => it.files,
            None => seq![],
        }
    }
}

/// Resolve every identifier up front. Returns the plan only when all of them
/// name an active entry; otherwise the first unresolvable identifier fails
/// the whole call before anything is deleted.
pub fn plan_uninstall(record: &Record, items: &Vec<String>) -> (r: Result<UninstallPlan, Error>)
    requires
        record@.wf(),
    ensures
        match r {
            Ok(plan) => {
                &&& plan.ids.deep_view().len() == items@.len()
                &&& forall|i: int|
                    0 <= i < items@.len() ==> resolves_to(
                        record@,
                        items.deep_view()[i],
                        #[trigger] plan.ids.deep_view()[i],
                    )
                &&& plan.files.deep_view() == concat_files(record@, plan.ids.deep_view())
            },
            Err(e) => e matches Error::ModNotFound(it) && exists|i: int|
                {
                    &&& 0 <= i < items@.len()
                    &&& it@ == items.deep_view()[i]
                    &&& !resolvable(record@, items.deep_view()[i])
                    &&& forall|j: int| 0 <= j < i ==> resolvable(record@, #[trigger] items.deep_view()[j])
                },
        },
{
    let mut ids: Vec<String> = Vec::new();
    let mut files: Vec<String> = Vec::new();
    let mut i: usize = 0;
    while i < items.len()
        invariant
            i <= items.len(),
            record@.wf(),
            ids.deep_view().len() == i,
            forall|j: int|
                0 <= j < i ==> resolves_to(
                    record@,
                    items.deep_view()[j],
                    #[trigger] ids.deep_view()[j],
                ),
            forall|j: int| 0 <= j < i ==> resolvable(record@, #[trigger] items.deep_view()[j]),
            files.deep_view() == concat_files(record@, ids.deep_view()),
        decreases items.len() - i,
    {
        let ghost ids_before = ids.deep_view();
        let ghost files_before = files.deep_view();
        let item = &items[i];
        let resolved: (String, Vec<String>);
        match record.get(item) {
            Some(it) => {
                resolved = (item.clone(), clone_strings(&it.files));
                proof {
                    assert(record@.contains_id(item@));
                    assert(resolves_to(record@, item@, item@));
                }
            },
            None => {
                match record.find_by_meta_id(item) {
                    Some(p) => {
                        resolved = (p.0.clone(), clone_strings(&p.1.files));
                        proof {
                            let j = choose|j: int|
                                0 <= j < record@.installed.len() && #[trigger] record@.installed[j]
                                    == (p.0@, p.1@) && meta_id_matches(
                                    record@.installed[j],
                                    item@,
                                ) && forall|k: int|
                                    0 <= k < j ==> !meta_id_matches(
                                        #[trigger] record@.installed[k],
                                        item@,
                                    );
                            assert(record@.installed[j].0 == p.0@);
                            assert(resolves_to(record@, item@, p.0@));
                            assert(record@.contains_id(p.0@));
                            let k = record@.index_of_id(p.0@);
                            if k != j {
                                assert(false);
                            }
                            assert(record@.lookup(p.0@) == Some(p.1@));
                        }
                    },
                    None => {
                        proof {
                            assert(!resolvable(record@, items.deep_view()[i as int]));
                        }
                        return Err(Error::ModNotFound(item.clone()));
                    },
                }
            },
        }
        let (id, mut fs) = resolved;
        proof {
            assert(record@.lookup(id@) matches Some(it) && fs.deep_view() == it.files);
        }
        ids.push(id);
        files.append(&mut fs);
        proof {
            assert(ids.deep_view() =~= ids_before.push(ids.deep_view().last()));
            assert(ids.deep_view().drop_last() =~= ids_before);
            assert(files.deep_view() =~= files_before + match record@.lookup(
                ids.deep_view().last(),
            ) {
                Some(it) => it.files,
                None => seq![],
            });
        }
        i = i + 1;
    }
    Ok(UninstallPlan { ids, files })
}

/// The record with every planned entry removed, ids applied in order.
pub open spec fn remove_ids(s: Seq<(Seq<char>, RecordItemV)>, ids: Seq<Seq<char>>) -> Seq<
    (Seq<char>, RecordItemV),
>
    decreases ids.len(),
{
    if ids.len() == 0 {
        s
    } else {
        entries_without_id(remove_ids(s, ids.drop_last()), ids.last())
    }
}

/// The record after the uninstall: the planned entries are removed; the
/// caller persists it before deleting the files from disk.
pub fn apply_uninstall(record: &Record, ids: &Vec<String>) -> (r: Record)
    ensures
        r@.installed == remove_ids(record@.installed, ids.deep_view()),
{
    let mut cur = record.duplicate();
    let mut i: usize = 0;
    while i < ids.len()
        invariant
            i <= ids.len(),
            cur@.installed == remove_ids(record@.installed, ids.deep_view().take(i as int)),
        decreases ids.len() - i,
    {
        proof {
            assert(ids.deep_view().take(i + 1 as int).drop_last() =~= ids.deep_view().take(
                i as int,
            ));
            assert(ids.deep_view().take(i + 1 as int).last() == ids.deep_view()[i as int]);
        }
        cur = cur.without(&ids[i]);
        i = i + 1;
    }
    proof {
        assert(ids.deep_view().take(ids.deep_view().len() as int) =~= ids.deep_view());
    }
    cur
}

} // verus!
