use vstd::prelude::*;

use crate::folders::FileType;
use crate::models::{RecordView, VaultFile};
use crate::paths::{
    beneath, is_within, last_slash, last_slash_index, lemma_beneath_parent,
    lemma_beneath_within, parent_of, parent_path, same_text, within,
};
use crate::xid::{compare_ids, Xid};

verus! {

broadcast use vstd::seq_lib::group_filter_ensures;

/// Why the index refused a write.
#[derive(Debug, Clone, Copy, PartialEq, Eq, Structural)]
pub enum StoreError {
    /// The record belongs to another vault.
    WrongVault,
    /// A record with the same identifier is already indexed.
    DuplicateId,
    /// A record with the same path is already indexed.
    DuplicatePath,
    /// The parent reference names no folder record of the entry's parent directory.
    MissingParent,
}

/// The views of a sequence of records.
pub open spec fn views(v: Seq<VaultFile>) -> Seq<RecordView> {
    v.map_values(|r: VaultFile| r@)
}

/// The characters of each string of a sequence.
pub open spec fn texts(v: Seq<String>) -> Seq<Seq<char>> {
    v.map_values(|s: String| s@)
}

/// `q` is the folder record of `r`'s parent directory, and `r` refers to it.
pub open spec fn is_parent(q: RecordView, r: RecordView) -> bool {
    &&& r.parent == Some(q.id)
    &&& q.kind == FileType::Folder
    &&& last_slash(r.path) >= 0
    &&& q.path == parent_of(r.path)
}

/// The invariant of one vault's index: every record belongs to the vault, identifiers
/// and paths are unique, and every parent reference resolves to the folder record of
/// the entry's parent directory.
pub open spec fn index_wf(s: Seq<RecordView>, vault: Seq<u8>) -> bool {
    &&& forall|i: int| 0 <= i < s.len() ==> (#[trigger] s[i]).vault_id == vault && s[i].id.len() == 12
    &&& forall|i: int, j: int|
        0 <= i < s.len() && 0 <= j < s.len() && i != j ==> (#[trigger] s[i]).id != (#[trigger] s[j]).id
            && s[i].path != s[j].path
    &&& forall|i: int|
        0 <= i < s.len() && (#[trigger] s[i]).parent is Some ==> exists|j: int|
            0 <= j < s.len() && is_parent(#[trigger] s[j], s[i])
}

/// Some record of `s` has path `p`.
pub open spec fn has_path(s: Seq<RecordView>, p: Seq<char>) -> bool {
    exists|i: int| 0 <= i < s.len() && (#[trigger] s[i]).path == p
}

/// Some record of `s` has identifier `id`.
pub open spec fn has_id(s: Seq<RecordView>, id: Seq<u8>) -> bool {
    exists|i: int| 0 <= i < s.len() && (#[trigger] s[i]).id == id
}

/// `r` has no parent reference, or one that resolves in `s`.
pub open spec fn parent_ok(s: Seq<RecordView>, r: RecordView) -> bool {
    r.parent is None || exists|j: int| 0 <= j < s.len() && is_parent(#[trigger] s[j], r)
}

/// What an unconditional insert of `r` into the index `s` of `vault` gives.
pub open spec fn insert_outcome(s: Seq<RecordView>, vault: Seq<u8>, r: RecordView) -> Result<(), StoreError> {
    if r.vault_id != vault {
        Err(StoreError::WrongVault)
    } else if has_id(s, r.id) {
        Err(StoreError::DuplicateId)
    } else if has_path(s, r.path) {
        Err(StoreError::DuplicatePath)
    } else if !parent_ok(s, r) {
        Err(StoreError::MissingParent)
    } else {
        Ok(())
    }
}

/// Inserting the records one after another, from an empty index, succeeds each time.
pub open spec fn rebuild_ok(vault: Seq<u8>, rs: Seq<RecordView>) -> bool {
    forall|k: int| 0 <= k < rs.len() ==> (#[trigger] insert_outcome(rs.take(k), vault, rs[k])) is Ok
}

/// A deletion of `paths` removes `r`: its path is one of them or lies beneath one.
pub open spec fn doomed(r: RecordView, paths: Seq<Seq<char>>) -> bool {
    exists|i: int| 0 <= i < paths.len() && within(#[trigger] paths[i], r.path)
}

/// The records that a deletion of `paths` keeps.
pub open spec fn survives(paths: Seq<Seq<char>>) -> spec_fn(RecordView) -> bool {
    |r: RecordView| !doomed(r, paths)
}

/// The index after deleting `paths` and everything beneath them.
pub open spec fn after_delete(s: Seq<RecordView>, paths: Seq<Seq<char>>) -> Seq<RecordView> {
    s.filter(survives(paths))
}

pub proof fn lemma_filter_no_duplicates<A>(s: Seq<A>, p: spec_fn(A) -> bool)
    requires
        s.no_duplicates(),
    ensures
        s.filter(p).no_duplicates(),
    decreases s.len(),
{
    if s.len() > 0 {
        let t = s.drop_last();
        assert(t.push(s.last()) =~= s);
        assert(t.no_duplicates());
        lemma_filter_no_duplicates(t, p);
        t.lemma_filter_push(s.last(), p);
        if p(s.last()) {
            let f = t.filter(p);
            assert forall|i: int| 0 <= i < f.len() implies f[i] != s.last() by {
                assert(f.contains(f[i]));
                t.lemma_filter_contains_rev(p, f[i]);
            }
        }
    }
}

/// Deleting keeps the invariant.
pub proof fn lemma_delete_wf(s: Seq<RecordView>, vault: Seq<u8>, paths: Seq<Seq<char>>)
    requires
        index_wf(s, vault),
    ensures
        index_wf(after_delete(s, paths), vault),
        forall|r: RecordView| after_delete(s, paths).contains(r) <==> s.contains(r) && !doomed(r, paths),
{
    let p = survives(paths);
    let f = s.filter(p);
    assert(s.no_duplicates());
    lemma_filter_no_duplicates(s, p);
    assert forall|r: RecordView| f.contains(r) <==> s.contains(r) && !doomed(r, paths) by {
        if f.contains(r) {
            s.lemma_filter_contains_rev(p, r);
            let k = choose|k: int| 0 <= k < f.len() && f[k] == r;
            assert(p(f[k]));
        }
        if s.contains(r) && !doomed(r, paths) {
            let k = choose|k: int| 0 <= k < s.len() && s[k] == r;
            assert(p(s[k]));
        }
    }
    assert forall|i: int| 0 <= i < f.len() implies (#[trigger] f[i]).vault_id == vault && f[i].id.len() == 12 by {
        assert(f.contains(f[i]));
    }
    assert forall|i: int, j: int|
        0 <= i < f.len() && 0 <= j < f.len() && i != j implies (#[trigger] f[i]).id != (#[trigger] f[j]).id
            && f[i].path != f[j].path by {
        assert(f.contains(f[i]));
        assert(f.contains(f[j]));
        let a = choose|a: int| 0 <= a < s.len() && s[a] == f[i];
        let b = choose|b: int| 0 <= b < s.len() && s[b] == f[j];
        assert(s[a] != s[b]);
    }
    assert forall|i: int| 0 <= i < f.len() && (#[trigger] f[i]).parent is Some implies exists|j: int|
        0 <= j < f.len() && is_parent(#[trigger] f[j], f[i]) by {
        assert(f.contains(f[i]));
        let a = choose|a: int| 0 <= a < s.len() && s[a] == f[i];
        let j = choose|j: int| 0 <= j < s.len() && is_parent(#[trigger] s[j], s[a]);
        assert(!doomed(f[i], paths));
        if doomed(s[j], paths) {
            let m = choose|m: int| 0 <= m < paths.len() && within(#[trigger] paths[m], s[j].path);
            lemma_beneath_parent(s[a].path);
            lemma_beneath_within(paths[m], s[j].path, s[a].path);
            assert(within(paths[m], f[i].path));
        }
        assert(f.contains(s[j]));
        let k = choose|k: int| 0 <= k < f.len() && f[k] == s[j];
        assert(is_parent(f[k], f[i]));
    }
}

/// Inserting a record that the index accepts keeps the invariant.
pub proof fn lemma_insert_wf(s: Seq<RecordView>, vault: Seq<u8>, r: RecordView)
    requires
        index_wf(s, vault),
        insert_outcome(s, vault, r) is Ok,
        r.id.len() == 12,
    ensures
        index_wf(s.push(r), vault),
{
    let t = s.push(r);
    assert forall|i: int| 0 <= i < t.len() && (#[trigger] t[i]).parent is Some implies exists|j: int|
        0 <= j < t.len() && is_parent(#[trigger] t[j], t[i]) by {
        if i < s.len() {
            let j = choose|j: int| 0 <= j < s.len() && is_parent(#[trigger] s[j], s[i]);
            assert(t[j] == s[j]);
        } else {
            let j = choose|j: int| 0 <= j < s.len() && is_parent(#[trigger] s[j], r);
            assert(t[j] == s[j]);
        }
    }
}

/// Keeping every element of a sequence keeps the sequence.
pub proof fn lemma_filter_keeps_all<A>(s: Seq<A>, p: spec_fn(A) -> bool)
    requires
        forall|i: int| 0 <= i < s.len() ==> p(#[trigger] s[i]),
    ensures
        s.filter(p) == s,
    decreases s.len(),
{
    if s.len() > 0 {
        let t = s.drop_last();
        assert(t.push(s.last()) =~= s);
        lemma_filter_keeps_all(t, p);
        t.lemma_filter_push(s.last(), p);
    } else {
        reveal(Seq::filter);
    }
}

/// The index of one vault: the records that mirror the vault's directory tree.
pub struct VaultIndex {
    vault_id: Xid,
    records: Vec<VaultFile>,
}

impl View for VaultIndex {
    type V = Seq<RecordView>;

    closed spec fn view(&self) -> Seq<RecordView> {
        views(self.records@)
    }
}

impl VaultIndex {
    /// The vault this index belongs to.
    pub closed spec fn vault(&self) -> Seq<u8> {
        self.vault_id@
    }

    pub open spec fn wf(&self) -> bool {
        index_wf(self@, self.vault())
    }

    /// An empty index for a vault.
    pub fn new(vault_id: Xid) -> (r: VaultIndex)
        ensures
            r.wf(),
            r@ == Seq::<RecordView>::empty(),
            r.vault() == vault_id@,
    {
        let r = VaultIndex { vault_id, records: Vec::new() };
        assert(r@ =~= Seq::<RecordView>::empty());
        r
    }

    /// The vault this index belongs to.
    pub fn vault_id(&self) -> (r: Xid)
        ensures
            r@ == self.vault(),
    {
        self.vault_id
    }

    /// The records, in the order in which they were written.
    pub fn records(&self) -> (r: &Vec<VaultFile>)
        ensures
            views(r@) == self@,
    {
        &self.records
    }

    /// Number of records.
    pub fn len(&self) -> (r: usize)
        ensures
            r == self@.len(),
    {
        self.records.len()
    }

    /// Position of the record with the given path.
    pub fn position_of_path(&self, path: &str) -> (r: Option<usize>)
        ensures
            match r {
                Some(i) => i < self@.len() && self@[i as int].path == path@,
                None => !has_path(self@, path@),
            },
    {
        let mut i: usize = 0;
        while i < self.records.len()
            invariant
                i <= self.records@.len(),
                forall|k: int| 0 <= k < i ==> (#[trigger] self@[k]).path != path@,
            decreases self.records@.len() - i,
        {
            if same_text(self.records[i].path_id.as_str(), path) {
                return Some(i);
            }
            i = i + 1;
        }
        None
    }

    /// Position of the record with the given identifier.
    pub fn position_of_id(&self, id: &Xid) -> (r: Option<usize>)
        ensures
            match r {
                Some(i) => i < self@.len() && self@[i as int].id == id@,
                None => !has_id(self@, id@),
            },
    {
        let mut i: usize = 0;
        while i < self.records.len()
            invariant
                i <= self.records@.len(),
                forall|k: int| 0 <= k < i ==> (#[trigger] self@[k]).id != id@,
            decreases self.records@.len() - i,
        {
            if compare_ids(&self.records[i].id, id) == 0 {
                return Some(i);
            }
            i = i + 1;
        }
        None
    }

    /// The record with the given path, if one is indexed.
    pub fn find_by_path(&self, path: &str) -> (r: Option<VaultFile>)
        ensures
            match r {
                Some(f) => self@.contains(f@) && f@.path == path@,
                None => !has_path(self@, path@),
            },
    {
        match self.position_of_path(path) {
            Some(i) => Some(self.records[i].duplicate()),
            None => None,
        }
    }

    /// The identifier of the folder record at `path`, if one is indexed.
    pub fn find_folder(&self, path: &str) -> (r: Option<Xid>)
        requires
            self.wf(),
        ensures
            match r {
                Some(x) => exists|i: int|
                    0 <= i < self@.len() && (#[trigger] self@[i]).path == path@ && self@[i].kind
                        == FileType::Folder && self@[i].id == x@,
                None => forall|i: int|
                    0 <= i < self@.len() && (#[trigger] self@[i]).path == path@ ==> self@[i].kind
                        != FileType::Folder,
            },
    {
        match self.position_of_path(path) {
            Some(i) => {
                if self.records[i].file_type == FileType::Folder {
                    Some(self.records[i].id)
                } else {
                    None
                }
            },
            None => None,
        }
    }

    /// Whether `rec`'s parent reference resolves to the folder record of its parent
    /// directory.
    fn check_parent(&self, rec: &VaultFile) -> (r: bool)
        requires
            self.wf(),
        ensures
            r == parent_ok(self@, rec@),
    {
        match rec.parent_id {
            None => true,
            Some(p) => {
                match self.position_of_id(&p) {
                    None => false,
                    Some(j) => {
                        let q = &self.records[j];
                        let has_slash = last_slash_index(rec.path_id.as_str()).is_some();
                        let dir = parent_path(rec.path_id.as_str());
                        let ok = q.file_type == FileType::Folder && has_slash && same_text(
                            q.path_id.as_str(),
                            dir.as_str(),
                        );
                        proof {
                            assert(self@[j as int] == q@);
                            if !ok && parent_ok(self@, rec@) {
                                let k = choose|k: int| 0 <= k < self@.len() && is_parent(#[trigger] self@[k], rec@);
                                assert(self@[k].id == self@[j as int].id);
                            }
                        }
                        ok
                    },
                }
            },
        }
    }

    /// Unconditional insert.
    pub fn insert(&mut self, rec: VaultFile) -> (r: Result<(), StoreError>)
        requires
            old(self).wf(),
        ensures
            final(self).wf(),
            final(self).vault() == old(self).vault(),
            r == insert_outcome(old(self)@, old(self).vault(), rec@),
            r is Ok ==> final(self)@ == old(self)@.push(rec@),
            r is Err ==> final(self)@ == old(self)@,
    {
        if compare_ids(&rec.vault_id, &self.vault_id) != 0 {
            return Err(StoreError::WrongVault);
        }
        if self.position_of_id(&rec.id).is_some() {
            return Err(StoreError::DuplicateId);
        }
        if self.position_of_path(rec.path_id.as_str()).is_some() {
            return Err(StoreError::DuplicatePath);
        }
        if !self.check_parent(&rec) {
            return Err(StoreError::MissingParent);
        }
        let ghost s = self@;
        let ghost v = rec@;
        self.records.push(rec);
        proof {
            assert(self@ =~= s.push(v));
            lemma_insert_wf(s, self.vault_id@, v);
        }
        Ok(())
    }

    /// Insert unless a record with the same path is already indexed; reports whether it
    /// inserted. A record whose path is new is inserted as by `insert`, refusals
    /// included.
    pub fn insert_if_absent(&mut self, rec: VaultFile) -> (r: Result<bool, StoreError>)
        requires
            old(self).wf(),
        ensures
            final(self).wf(),
            final(self).vault() == old(self).vault(),
            has_path(old(self)@, rec@.path) ==> r == Ok::<bool, StoreError>(false) && final(self)@
                == old(self)@,
            !has_path(old(self)@, rec@.path) ==> match insert_outcome(
                old(self)@,
                old(self).vault(),
                rec@,
            ) {
                Ok(_) => r == Ok::<bool, StoreError>(true) && final(self)@ == old(self)@.push(rec@),
                Err(e) => r == Err::<bool, StoreError>(e) && final(self)@ == old(self)@,
            },
    {
        if self.position_of_path(rec.path_id.as_str()).is_some() {
            return Ok(false);
        }
        match self.insert(rec) {
            Ok(()) => Ok(true),
            Err(e) => Err(e),
        }
    }

    /// Whether a deletion of `paths` removes `rec`.
    fn is_doomed(rec: &VaultFile, paths: &Vec<String>) -> (r: bool)
        ensures
            r == doomed(rec@, texts(paths@)),
    {
        let mut m: usize = 0;
        while m < paths.len()
            invariant
                m <= paths@.len(),
                forall|k: int| 0 <= k < m ==> !within(#[trigger] texts(paths@)[k], rec@.path),
            decreases paths@.len() - m,
        {
            if is_within(paths[m].as_str(), rec.path_id.as_str()) {
                assert(within(texts(paths@)[m as int], rec@.path));
                return true;
            }
            m = m + 1;
        }
        false
    }

    /// Deletes the records at `paths`, and every record beneath them.
    pub fn delete_paths(&mut self, paths: &Vec<String>)
        requires
            old(self).wf(),
        ensures
            final(self).wf(),
            final(self).vault() == old(self).vault(),
            final(self)@ == after_delete(old(self)@, texts(paths@)),
    {
        let ghost s = self@;
        let ghost ps = texts(paths@);
        let ghost p = survives(ps);
        let mut kept: Vec<VaultFile> = Vec::new();
        let mut i: usize = 0;
        while i < self.records.len()
            invariant
                i <= self.records@.len(),
                s == views(self.records@),
                ps == texts(paths@),
                p == survives(ps),
                views(kept@) == s.take(i as int).filter(p),
            decreases self.records@.len() - i,
        {
            let keep = !Self::is_doomed(&self.records[i], paths);
            proof {
                assert(s.take(i + 1) =~= s.take(i as int).push(s[i as int]));
                s.take(i as int).lemma_filter_push(s[i as int], p);
            }
            if keep {
                let ghost before = kept@;
                kept.push(self.records[i].duplicate());
                assert(views(kept@) =~= views(before).push(s[i as int]));
            }
            i = i + 1;
        }
        assert(s.take(s.len() as int) =~= s);
        proof {
            lemma_delete_wf(s, self.vault_id@, ps);
        }
        self.records = kept;
    }

    /// Deletes every record of the vault.
    pub fn delete_all(&mut self)
        requires
            old(self).wf(),
        ensures
            final(self).wf(),
            final(self).vault() == old(self).vault(),
            final(self)@ == Seq::<RecordView>::empty(),
    {
        self.records = Vec::new();
        assert(self@ =~= Seq::<RecordView>::empty());
    }

    /// Replaces the whole index by `recs`, inserted one after another, all or nothing:
    /// where one insert fails the index stays as it was.
    pub fn rebuild(&mut self, recs: Vec<VaultFile>) -> (r: Result<usize, StoreError>)
        requires
            old(self).wf(),
        ensures
            final(self).wf(),
            final(self).vault() == old(self).vault(),
            (r is Ok) == rebuild_ok(old(self).vault(), views(recs@)),
            match r {
                Ok(n) => n == recs@.len() && final(self)@ == views(recs@),
                Err(e) => final(self)@ == old(self)@ && exists|k: int|
                    0 <= k < recs@.len() && (forall|m: int|
                        0 <= m < k ==> (#[trigger] insert_outcome(
                            views(recs@).take(m),
                            old(self).vault(),
                            views(recs@)[m],
                        )) is Ok) && insert_outcome(views(recs@).take(k), old(self).vault(), views(recs@)[k])
                        == Err::<(), StoreError>(e),
            },
    {
        let ghost rs = views(recs@);
        let ghost vault = self.vault_id@;
        let mut fresh = VaultIndex::new(self.vault_id);
        let mut k: usize = 0;
        while k < recs.len()
            invariant
                k <= recs@.len(),
                rs == views(recs@),
                vault == self.vault_id@,
                self.wf(),
                fresh.wf(),
                fresh.vault() == vault,
                fresh@ == rs.take(k as int),
                forall|m: int| 0 <= m < k ==> (#[trigger] insert_outcome(rs.take(m), vault, rs[m])) is Ok,
            decreases recs@.len() - k,
        {
            let rec = recs[k].duplicate();
            match fresh.insert(rec) {
                Ok(()) => {},
                Err(e) => {
                    assert(rs[k as int] == recs@[k as int]@);
                    assert(insert_outcome(rs.take(k as int), vault, rs[k as int]) is Err);
                    return Err(e);
                },
            }
            assert(rs.take(k + 1) =~= rs.take(k as int).push(rs[k as int]));
            k = k + 1;
        }
        assert(rs.take(recs@.len() as int) =~= rs);
        let n = recs.len();
        self.records = fresh.records;
        Ok(n)
    }
}

} // verus!
