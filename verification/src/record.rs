//! The persisted manifest ("record") for a managed directory: a mapping from
//! install identifiers to facts about one installed package. The record is the
//! sole source of truth for which install owns which file path.

use vstd::prelude::*;

verus! {

/// Embedded package descriptor, present only when the archive carries one.
/// `id` is the logical package identity, stable across versions.
#[derive(Debug)]
pub struct Metadata {
    pub id: String,
    pub name: String,
    pub description: String,
    pub version: String,
    pub authors: Vec<String>,
    pub url: String,
    pub update: String,
}

/// Mathematical value of a [`Metadata`].
pub struct MetadataV {
    pub id: Seq<char>,
    pub name: Seq<char>,
    pub description: Seq<char>,
    pub version: Seq<char>,
    pub authors: Seq<Seq<char>>,
    pub url: Seq<char>,
    pub update: Seq<char>,
}

impl View for Metadata {
    type V = MetadataV;

    open spec fn view(&self) -> MetadataV {
        MetadataV {
            id: self.id@,
            name: self.name@,
            description: self.description@,
            version: self.version@,
            authors: self.authors.deep_view(),
            url: self.url@,
            update: self.update@,
        }
    }
}

/// Facts recorded about one install: the content hash of the acquired archive
/// bytes, when it was written, the sanitized relative paths it wrote (never
/// directory entries), the origin it was acquired from, and its metadata.
#[derive(Debug)]
pub struct RecordItem {
    pub sha256: String,
    pub last_update_time: String,
    pub files: Vec<String>,
    pub from: String,
    pub metadata: Option<Metadata>,
}

/// Mathematical value of a [`RecordItem`].
pub struct RecordItemV {
    pub sha256: Seq<char>,
    pub last_update_time: Seq<char>,
    pub files: Seq<Seq<char>>,
    pub from: Seq<char>,
    pub metadata: Option<MetadataV>,
}

impl View for RecordItem {
    type V = RecordItemV;

    open spec fn view(&self) -> RecordItemV {
        RecordItemV {
            sha256: self.sha256@,
            last_update_time: self.last_update_time@,
            files: self.files.deep_view(),
            from: self.from@,
            metadata: match self.metadata {
                Some(ref m) => Some(m@),
                None => None,
            },
        }
    }
}

/// The manifest: install identifier to [`RecordItem`]. Keys are unique;
/// insertion order carries no meaning.
#[derive(Debug)]
pub struct Record {
    pub installed: Vec<(String, RecordItem)>,
}

/// Mathematical value of a [`Record`]: the entries in storage order.
pub struct RecordV {
    pub installed: Seq<(Seq<char>, RecordItemV)>,
}

impl View for Record {
    type V = RecordV;

    open spec fn view(&self) -> RecordV {
        RecordV { installed: self.installed@.map_values(|p: (String, RecordItem)| (p.0@, p.1@)) }
    }
}

/// Why the record store failed: the manifest could not be accessed, or its
/// bytes are not a valid serialized record.
#[derive(Debug)]
pub enum Error {
    Io(String),
    Corrupt,
}

/// Whether entry `e` carries metadata whose logical package id is `mid`.
pub open spec fn meta_id_matches(e: (Seq<char>, RecordItemV), mid: Seq<char>) -> bool {
    e.1.metadata matches Some(m) && m.id == mid
}

/// The entries of `s` whose install id is not `id`, in order.
pub open spec fn entries_without_id(
    s: Seq<(Seq<char>, RecordItemV)>,
    id: Seq<char>,
) -> Seq<(Seq<char>, RecordItemV)>
    decreases s.len(),
{
    if s.len() == 0 {
        s
    } else {
        let rest = entries_without_id(s.drop_last(), id);
        if s.last().0 == id {
            rest
        } else {
            rest.push(s.last())
        }
    }
}

impl RecordV {
    /// Some entry uses install id `id`.
    pub open spec fn contains_id(self, id: Seq<char>) -> bool {
        exists|i: int| 0 <= i < self.installed.len() && self.installed[i].0 == id
    }

    /// Index of the entry with install id `id` (meaningful under [`RecordV::wf`]).
    pub open spec fn index_of_id(self, id: Seq<char>) -> int {
        choose|i: int| 0 <= i < self.installed.len() && self.installed[i].0 == id
    }

    /// The item stored under install id `id`, if any.
    pub open spec fn lookup(self, id: Seq<char>) -> Option<RecordItemV> {
        if self.contains_id(id) {
            Some(self.installed[self.index_of_id(id)].1)
        } else {
            None
        }
    }

    /// Install ids are unique: the record is a map.
    pub open spec fn wf(self) -> bool {
        forall|i: int, j: int|
            0 <= i < j < self.installed.len() ==> self.installed[i].0 != self.installed[j].0
    }
}

/// Removing an id removes every entry that carries it; what remains was an
/// entry of the original record.
pub proof fn lemma_without_id_basic(s: Seq<(Seq<char>, RecordItemV)>, id: Seq<char>)
    ensures
        forall|i: int|
            0 <= i < entries_without_id(s, id).len() ==> #[trigger] entries_without_id(s, id)[i].0
                != id,
        forall|i: int|
            0 <= i < entries_without_id(s, id).len() ==> exists|j: int|
                0 <= j < s.len() && s[j] == #[trigger] entries_without_id(s, id)[i],
        entries_without_id(s, id).len() <= s.len(),
    decreases s.len(),
{
    if s.len() == 0 {
    } else {
        lemma_without_id_basic(s.drop_last(), id);
        let rest = entries_without_id(s.drop_last(), id);
        assert forall|i: int| 0 <= i < entries_without_id(s, id).len() implies exists|j: int|
            0 <= j < s.len() && s[j] == #[trigger] entries_without_id(s, id)[i] by {
            let w = entries_without_id(s, id);
            if i < rest.len() {
                assert(w[i] == rest[i]);
                let j = choose|j: int| 0 <= j < s.drop_last().len() && s.drop_last()[j] == rest[i];
                assert(s[j] == w[i]);
            } else {
                assert(w[i] == s.last());
                assert(s[s.len() - 1] == w[i]);
            }
        }
    }
}

/// Removing an id keeps the record well formed.
pub proof fn lemma_without_id_wf(s: Seq<(Seq<char>, RecordItemV)>, id: Seq<char>)
    requires
        forall|i: int, j: int| 0 <= i < j < s.len() ==> s[i].0 != s[j].0,
    ensures
        forall|i: int, j: int|
            0 <= i < j < entries_without_id(s, id).len() ==> entries_without_id(s, id)[i].0
                != entries_without_id(s, id)[j].0,
    decreases s.len(),
{
    if s.len() == 0 {
    } else {
        assert forall|i: int, j: int| 0 <= i < j < s.drop_last().len() implies s.drop_last()[i].0
            != s.drop_last()[j].0 by {
            assert(s.drop_last()[i] == s[i]);
            assert(s.drop_last()[j] == s[j]);
        }
        lemma_without_id_wf(s.drop_last(), id);
        lemma_without_id_basic(s.drop_last(), id);
        let rest = entries_without_id(s.drop_last(), id);
        let w = entries_without_id(s, id);
        if s.last().0 == id {
        } else {
            assert forall|i: int, j: int| 0 <= i < j < w.len() implies w[i].0 != w[j].0 by {
                if j < rest.len() {
                    assert(w[i] == rest[i] && w[j] == rest[j]);
                } else {
                    assert(w[j] == s.last());
                    assert(w[i] == rest[i]);
                    let k = choose|k: int|
                        0 <= k < s.drop_last().len() && s.drop_last()[k] == rest[i];
                    assert(s[k] == rest[i]);
                    assert(s[k].0 != s[s.len() - 1].0);
                }
            }
        }
    }
}

/// A copy of a string vector, equal element by element.
pub fn clone_strings(v: &Vec<String>) -> (r: Vec<String>)
    ensures
        r@ == v@,
{
    let mut r: Vec<String> = Vec::new();
    let mut i: usize = 0;
    while i < v.len()
        invariant
            i <= v.len(),
            r@ == v@.take(i as int),
        decreases v.len() - i,
    {
        proof {
            assert(v@.take(i + 1 as int) =~= v@.take(i as int).push(v@[i as int]));
        }
        r.push(v[i].clone());
        i = i + 1;
    }
    proof {
        assert(v@.take(v@.len() as int) =~= v@);
    }
    r
}

impl Metadata {
    /// A copy with the same value.
    pub fn duplicate(&self) -> (r: Metadata)
        ensures
            r@ == self@,
    {
        let r = Metadata {
            id: self.id.clone(),
            name: self.name.clone(),
            description: self.description.clone(),
            version: self.version.clone(),
            authors: clone_strings(&self.authors),
            url: self.url.clone(),
            update: self.update.clone(),
        };
        proof {
            assert(r.authors.deep_view() =~= self.authors.deep_view());
        }
        r
    }
}

/// A copy of an optional descriptor with the same value.
pub fn duplicate_metadata_opt(m: &Option<Metadata>) -> (r: Option<Metadata>)
    ensures
        (r matches Some(x) && m matches Some(y) && x@ == y@) || (r is None && m is None),
{
    match m {
        Some(x) => Some(x.duplicate()),
        None => None,
    }
}

impl RecordItem {
    /// A copy with the same value.
    pub fn duplicate(&self) -> (r: RecordItem)
        ensures
            r@ == self@,
    {
        RecordItem {
            sha256: self.sha256.clone(),
            last_update_time: self.last_update_time.clone(),
            files: clone_strings(&self.files),
            from: self.from.clone(),
            metadata: duplicate_metadata_opt(&self.metadata),
        }
    }
}

impl Record {
    /// The empty manifest.
    pub fn empty() -> (r: Record)
        ensures
            r@.installed.len() == 0,
            r@.wf(),
    {
        Record { installed: Vec::new() }
    }

    /// Number of entries.
    pub fn len(&self) -> (n: usize)
        ensures
            n == self@.installed.len(),
    {
        self.installed.len()
    }

    /// Whether some entry uses install id `id`.
    pub fn contains_id(&self, id: &String) -> (r: bool)
        ensures
            r == self@.contains_id(id@),
    {
        let mut i: usize = 0;
        while i < self.installed.len()
            invariant
                i <= self.installed.len(),
                forall|j: int| 0 <= j < i ==> self@.installed[j].0 != id@,
            decreases self.installed.len() - i,
        {
            if self.installed[i].0 == *id {
                proof {
                    assert(self@.installed[i as int].0 == id@);
                }
                return true;
            }
            i = i + 1;
        }
        false
    }

    /// The item stored under install id `id`, if any.
    pub fn get(&self, id: &String) -> (r: Option<&RecordItem>)
        requires
            self@.wf(),
        ensures
            match r {
                Some(it) => self@.lookup(id@) == Some(it@),
                None => !self@.contains_id(id@),
            },
    {
        let mut i: usize = 0;
        while i < self.installed.len()
            invariant
                i <= self.installed.len(),
                self@.wf(),
                forall|j: int| 0 <= j < i ==> self@.installed[j].0 != id@,
            decreases self.installed.len() - i,
        {
            if self.installed[i].0 == *id {
                proof {
                    assert(self@.installed[i as int].0 == id@);
                    let k = self@.index_of_id(id@);
                    assert(0 <= k < self@.installed.len() && self@.installed[k].0 == id@);
                    if k != i as int {
                        assert(false);
                    }
                }
                return Some(&self.installed[i].1);
            }
            i = i + 1;
        }
        None
    }

    /// Add an entry under a fresh install id.
    pub fn insert(&mut self, id: String, item: RecordItem)
        requires
            !old(self)@.contains_id(id@),
        ensures
            final(self)@.installed == old(self)@.installed.push((id@, item@)),
            old(self)@.wf() ==> final(self)@.wf(),
    {
        self.installed.push((id, item));
        proof {
            assert(final(self)@.installed =~= old(self)@.installed.push((id@, item@)));
        }
    }

    /// The record with every entry of install id `id` removed.
    pub fn without(&self, id: &String) -> (r: Record)
        ensures
            r@.installed == entries_without_id(self@.installed, id@),
    {
        let mut out: Vec<(String, RecordItem)> = Vec::new();
        let mut i: usize = 0;
        while i < self.installed.len()
            invariant
                i <= self.installed.len(),
                out@.map_values(|p: (String, RecordItem)| (p.0@, p.1@)) == entries_without_id(
                    self@.installed.take(i as int),
                    id@,
                ),
            decreases self.installed.len() - i,
        {
            proof {
                assert(self@.installed.take(i + 1 as int).drop_last() =~= self@.installed.take(
                    i as int,
                ));
                assert(self@.installed.take(i + 1 as int).last() == self@.installed[i as int]);
            }
            if !(self.installed[i].0 == *id) {
                let ghost before = out@;
                out.push((self.installed[i].0.clone(), self.installed[i].1.duplicate()));
                proof {
                    assert(out@.map_values(|p: (String, RecordItem)| (p.0@, p.1@)) =~= before
                        .map_values(|p: (String, RecordItem)| (p.0@, p.1@)).push(
                        (self@.installed[i as int].0, self@.installed[i as int].1),
                    ));
                }
            }
            i = i + 1;
        }
        proof {
            assert(self@.installed.take(self@.installed.len() as int) =~= self@.installed);
        }
        Record { installed: out }
    }

    /// A copy with the same value.
    pub fn duplicate(&self) -> (r: Record)
        ensures
            r@.installed == self@.installed,
    {
        let mut out: Vec<(String, RecordItem)> = Vec::new();
        let mut i: usize = 0;
        while i < self.installed.len()
            invariant
                i <= self.installed.len(),
                out@.map_values(|p: (String, RecordItem)| (p.0@, p.1@)) == self@.installed.take(
                    i as int,
                ),
            decreases self.installed.len() - i,
        {
            let ghost before = out@;
            out.push((self.installed[i].0.clone(), self.installed[i].1.duplicate()));
            proof {
                assert(out@.map_values(|p: (String, RecordItem)| (p.0@, p.1@)) =~= before
                    .map_values(|p: (String, RecordItem)| (p.0@, p.1@)).push(
                    (self@.installed[i as int].0, self@.installed[i as int].1),
                ));
                assert(self@.installed.take(i + 1 as int) =~= self@.installed.take(i as int).push(
                    self@.installed[i as int],
                ));
            }
            i = i + 1;
        }
        proof {
            assert(self@.installed.take(self@.installed.len() as int) =~= self@.installed);
        }
        Record { installed: out }
    }

    /// The first entry whose metadata declares logical package id `mid`.
    pub fn find_by_meta_id(&self, mid: &String) -> (r: Option<&(String, RecordItem)>)
        ensures
            match r {
                Some(p) => exists|i: int|
                    0 <= i < self@.installed.len() && #[trigger] self@.installed[i] == (p.0@, p.1@)
                        && meta_id_matches(self@.installed[i], mid@) && forall|j: int|
                        0 <= j < i ==> !meta_id_matches(#[trigger] self@.installed[j], mid@),
                None => forall|i: int|
                    0 <= i < self@.installed.len() ==> !meta_id_matches(
                        #[trigger] self@.installed[i],
                        mid@,
                    ),
            },
    {
        let mut i: usize = 0;
        while i < self.installed.len()
            invariant
                i <= self.installed.len(),
                forall|j: int| 0 <= j < i ==> !meta_id_matches(#[trigger] self@.installed[j], mid@),
            decreases self.installed.len() - i,
        {
            match self.installed[i].1.metadata {
                Some(ref m) => {
                    if m.id == *mid {
                        let p = &self.installed[i];
                        assert(self@.installed[i as int] == (p.0@, p.1@));
                        return Some(p);
                    }
                },
                None => {},
            }
            i = i + 1;
        }
        None
    }
}

} // verus!
