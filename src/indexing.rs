use vstd::prelude::*;

use crate::folders::FileType;
use crate::models::{EntryMeta, RecordView, VaultFile};
use crate::paths::{
    beneath, file_name, last_slash, last_slash_index, lemma_last_slash_bounds, name_of, parent_of,
    parent_path, same_text, within,
};
use crate::store::{
    after_delete, doomed, has_id, has_path, index_wf, insert_outcome, is_parent, lemma_delete_wf,
    lemma_filter_keeps_all, lemma_insert_wf, rebuild_ok, survives, texts, views,
    StoreError, VaultIndex,
};
use crate::walker::{
    lemma_preorder_distinct, lemma_preorder_walk_ok, listing_entries, walk_directory, walk_ok, DirNode,
};
use crate::xid::Xid;

verus! {

/// One entry produced by walking a vault's directory tree.
pub struct WalkEntry {
    pub path: String,
    pub file_type: FileType,
    pub created_at: Option<i64>,
    pub size: Option<i64>,
}

/// A walk entry as plain mathematical values.
pub struct WalkEntryView {
    pub path: Seq<char>,
    pub kind: FileType,
    pub created_at: Option<i64>,
    pub size: Option<i64>,
}

impl View for WalkEntry {
    type V = WalkEntryView;

    open spec fn view(&self) -> WalkEntryView {
        WalkEntryView {
            path: self.path@,
            kind: self.file_type,
            created_at: self.created_at,
            size: self.size,
        }
    }
}

/// The views of a sequence of walk entries.
pub open spec fn entry_views(v: Seq<WalkEntry>) -> Seq<WalkEntryView> {
    v.map_values(|e: WalkEntry| e@)
}

/// The byte views of a sequence of identifiers.
pub open spec fn id_views(v: Seq<Xid>) -> Seq<Seq<u8>> {
    v.map_values(|x: Xid| x@)
}

/// Index of the latest folder entry before position `k` whose path is `p`, or -1.
pub open spec fn folder_before(es: Seq<WalkEntryView>, k: int, p: Seq<char>) -> int
    decreases k,
{
    if k <= 0 {
        -1
    } else if es[k - 1].kind == FileType::Folder && es[k - 1].path == p {
        k - 1
    } else {
        folder_before(es, k - 1, p)
    }
}

/// Position of the folder entry that a full rebuild makes the parent of entry `k`.
pub open spec fn parent_entry(es: Seq<WalkEntryView>, k: int) -> int {
    if last_slash(es[k].path) >= 0 {
        folder_before(es, k, parent_of(es[k].path))
    } else {
        -1
    }
}

/// The size kept for an entry: files only.
pub open spec fn kept_size(kind: FileType, size: Option<i64>) -> Option<i64> {
    if kind == FileType::File {
        size
    } else {
        None
    }
}

/// The record that a full rebuild writes for entry `k`, with identifier `ids[k]`.
pub open spec fn planned_record(
    vault: Seq<u8>,
    es: Seq<WalkEntryView>,
    ids: Seq<Seq<u8>>,
    k: int,
) -> RecordView {
    RecordView {
        id: ids[k],
        vault_id: vault,
        path: es[k].path,
        name: name_of(es[k].path),
        kind: es[k].kind,
        parent: if parent_entry(es, k) >= 0 {
            Some(ids[parent_entry(es, k)])
        } else {
            None
        },
        created_at: es[k].created_at,
        size: kept_size(es[k].kind, es[k].size),
    }
}

/// The records that a full rebuild writes, one per entry and in walk order.
pub open spec fn planned(vault: Seq<u8>, es: Seq<WalkEntryView>, ids: Seq<Seq<u8>>) -> Seq<
    RecordView,
> {
    Seq::new(es.len(), |k: int| planned_record(vault, es, ids, k))
}

/// The shape of an index that identifiers do not change: each record's path, kind, and
/// the path of its parent folder record where it has one.
pub open spec fn topology(s: Seq<RecordView>) -> Seq<(Seq<char>, FileType, Option<Seq<char>>)> {
    s.map_values(
        |r: RecordView|
            (r.path, r.kind, if r.parent is Some {
                Some(parent_of(r.path))
            } else {
                None
            }),
    )
}

/// The walk names each path at most once.
pub open spec fn paths_distinct(es: Seq<WalkEntryView>) -> bool {
    forall|i: int, j: int| 0 <= i < j < es.len() ==> (#[trigger] es[i]).path != (#[trigger] es[j]).path
}

/// Twelve-byte identifiers, pairwise distinct.
pub open spec fn ids_fresh(ids: Seq<Seq<u8>>) -> bool {
    &&& forall|i: int| 0 <= i < ids.len() ==> (#[trigger] ids[i]).len() == 12
    &&& forall|i: int, j: int| 0 <= i < j < ids.len() ==> #[trigger] ids[i] != #[trigger] ids[j]
}

proof fn lemma_folder_before(es: Seq<WalkEntryView>, k: int, p: Seq<char>)
    requires
        0 <= k <= es.len(),
    ensures
        -1 <= folder_before(es, k, p) < k,
        folder_before(es, k, p) >= 0 ==> es[folder_before(es, k, p)].kind == FileType::Folder
            && es[folder_before(es, k, p)].path == p,
        folder_before(es, k, p) < 0 ==> forall|j: int|
            0 <= j < k && (#[trigger] es[j]).path == p ==> es[j].kind != FileType::Folder,
    decreases k,
{
    if k > 0 {
        lemma_folder_before(es, k - 1, p);
    }
}

/// Writing the planned records one after another succeeds each time, when the walk
/// names each path once and the identifiers are distinct.
proof fn lemma_planned_rebuild_ok(vault: Seq<u8>, es: Seq<WalkEntryView>, ids: Seq<Seq<u8>>)
    requires
        vault.len() == 12,
        ids.len() == es.len(),
        paths_distinct(es),
        ids_fresh(ids),
    ensures
        rebuild_ok(vault, planned(vault, es, ids)),
{
    let rs = planned(vault, es, ids);
    assert forall|k: int| 0 <= k < rs.len() implies (#[trigger] insert_outcome(
        rs.take(k),
        vault,
        rs[k],
    )) is Ok by {
        let s = rs.take(k);
        if has_id(s, rs[k].id) {
            let i = choose|i: int| 0 <= i < s.len() && (#[trigger] s[i]).id == rs[k].id;
            assert(ids[i] != ids[k]);
        }
        if has_path(s, rs[k].path) {
            let i = choose|i: int| 0 <= i < s.len() && (#[trigger] s[i]).path == rs[k].path;
            assert(es[i].path != es[k].path);
        }
        if rs[k].parent is Some {
            let j = parent_entry(es, k);
            lemma_folder_before(es, k, parent_of(es[k].path));
            assert(s[j] == rs[j]);
            assert(is_parent(s[j], rs[k]));
        }
    }
}

/// A full rebuild leaves exactly one record per walked entry, in walk order, each with
/// the entry's path and kind; where every entry lies beneath the vault's root, so does
/// every record.
pub proof fn lemma_rebuild_complete(
    vault: Seq<u8>,
    root: Seq<char>,
    es: Seq<WalkEntryView>,
    ids: Seq<Seq<u8>>,
)
    requires
        vault.len() == 12,
        ids.len() == es.len(),
        paths_distinct(es),
        ids_fresh(ids),
    ensures
        rebuild_ok(vault, planned(vault, es, ids)),
        planned(vault, es, ids).len() == es.len(),
        forall|k: int|
            0 <= k < es.len() ==> (#[trigger] planned(vault, es, ids)[k]).path == es[k].path
                && planned(vault, es, ids)[k].kind == es[k].kind,
        (forall|k: int| 0 <= k < es.len() ==> beneath(root, (#[trigger] es[k]).path))
            ==> forall|k: int|
            0 <= k < es.len() ==> beneath(
                root,
                (#[trigger] planned(vault, es, ids)[k]).path,
            ),
{
    lemma_planned_rebuild_ok(vault, es, ids);
}

/// Every parent reference of a well-formed index resolves to a folder record whose path
/// is the exact parent directory of the child's path.
pub proof fn lemma_hierarchy(s: Seq<RecordView>, vault: Seq<u8>, i: int)
    requires
        index_wf(s, vault),
        0 <= i < s.len(),
        s[i].parent is Some,
    ensures
        exists|j: int|
            0 <= j < s.len() && (#[trigger] s[j]).id == s[i].parent->0 && s[j].kind
                == FileType::Folder && s[j].path == parent_of(s[i].path) && s[j].vault_id == vault,
{
    let j = choose|j: int| 0 <= j < s.len() && is_parent(#[trigger] s[j], s[i]);
    assert(s[j].vault_id == vault);
}

/// Two full rebuilds of the same walk give the same paths and the same parent/child
/// topology, whatever identifiers each minted.
pub proof fn lemma_rebuild_idempotent(
    vault: Seq<u8>,
    es: Seq<WalkEntryView>,
    ids1: Seq<Seq<u8>>,
    ids2: Seq<Seq<u8>>,
)
    requires
        ids1.len() == es.len(),
        ids2.len() == es.len(),
    ensures
        topology(planned(vault, es, ids1)) == topology(planned(vault, es, ids2)),
{
    assert(topology(planned(vault, es, ids1)) =~= topology(planned(vault, es, ids2)));
}

/// Builds the records of a full rebuild: one per entry, in walk order. A folder's
/// identifier is remembered when it is met, so each later entry of that folder gets it
/// as its parent.
pub fn plan_reindex(vault_id: &Xid, entries: &Vec<WalkEntry>, ids: &Vec<Xid>) -> (r: Vec<VaultFile>)
    requires
        ids@.len() == entries@.len(),
    ensures
        views(r@) == planned(vault_id@, entry_views(entries@), id_views(ids@)),
{
    let ghost es = entry_views(entries@);
    let ghost is = id_views(ids@);
    let mut out: Vec<VaultFile> = Vec::new();
    let mut folders: Vec<(String, Xid)> = Vec::new();
    let mut k: usize = 0;
    while k < entries.len()
        invariant
            k <= entries@.len(),
            ids@.len() == entries@.len(),
            es == entry_views(entries@),
            is == id_views(ids@),
            views(out@) == planned(vault_id@, es, is).take(k as int),
            folders@.len() == k,
            forall|j: int|
                0 <= j < k ==> (#[trigger] folders@[j]).0@ == es[j].path && folders@[j].1@ == is[j],
        decreases entries@.len() - k,
    {
        let e = &entries[k];
        let ghost p = es[k as int].path;
        proof {
            lemma_last_slash_bounds(p);
        }
        let mut parent: Option<Xid> = None;
        if last_slash_index(e.path.as_str()).is_some() {
            let dir = parent_path(e.path.as_str());
            let mut j: usize = k;
            while j > 0 && parent.is_none()
                invariant
                    j <= k,
                    k < entries@.len(),
                    ids@.len() == entries@.len(),
                    es == entry_views(entries@),
                    is == id_views(ids@),
                    folders@.len() == k,
                    forall|m: int|
                        0 <= m < k ==> (#[trigger] folders@[m]).0@ == es[m].path && folders@[m].1@
                            == is[m],
                    dir@ == parent_of(p),
                    p == es[k as int].path,
                    parent is None ==> folder_before(es, k as int, dir@) == folder_before(es, j as int, dir@),
                    parent is Some ==> folder_before(es, k as int, dir@) >= 0 && parent->0@ == is[folder_before(es, k as int, dir@)],
                decreases j,
            {
                let f = &folders[j - 1];
                if entries[j - 1].file_type == FileType::Folder && same_text(f.0.as_str(), dir.as_str()) {
                    parent = Some(f.1);
                    assert(es[j - 1].kind == FileType::Folder);
                }
                j = j - 1;
            }
            proof {
                if parent is None {
                    assert(folder_before(es, j as int, dir@) == -1);
                }
            }
        }
        let size = match e.file_type {
            FileType::File => e.size,
            FileType::Folder => None,
        };
        let rec = VaultFile {
            id: ids[k],
            vault_id: *vault_id,
            path_id: e.path.clone(),
            name: file_name(e.path.as_str()),
            file_type: e.file_type,
            parent_id: parent,
            created_at: e.created_at,
            size,
        };
        let ghost before = out@;
        assert(rec@ == planned_record(vault_id@, es, is, k as int));
        out.push(rec);
        folders.push((e.path.clone(), ids[k]));
        assert(views(out@) =~= views(before).push(rec@));
        assert(planned(vault_id@, es, is).take(k + 1) =~= planned(vault_id@, es, is).take(k as int).push(
            planned_record(vault_id@, es, is, k as int),
        ));
        k = k + 1;
    }
    assert(planned(vault_id@, es, is).take(entries@.len() as int) =~= planned(vault_id@, es, is));
    out
}


/// Replaces the vault's index by the records of a full rebuild of `entries`, with
/// identifier `ids[k]` for entry `k`; all or nothing.
pub fn reindex_with_ids(index: &mut VaultIndex, entries: &Vec<WalkEntry>, ids: &Vec<Xid>) -> (r: Result<
    usize,
    StoreError,
>)
    requires
        old(index).wf(),
        ids@.len() == entries@.len(),
    ensures
        final(index).wf(),
        final(index).vault() == old(index).vault(),
        (r is Ok) == rebuild_ok(
            old(index).vault(),
            planned(old(index).vault(), entry_views(entries@), id_views(ids@)),
        ),
        match r {
            Ok(n) => n == entries@.len() && final(index)@ == planned(
                old(index).vault(),
                entry_views(entries@),
                id_views(ids@),
            ),
            Err(e) => final(index)@ == old(index)@ && exists|k: int|
                0 <= k < entries@.len() && #[trigger] insert_outcome(
                    planned(old(index).vault(), entry_views(entries@), id_views(ids@)).take(k),
                    old(index).vault(),
                    planned(old(index).vault(), entry_views(entries@), id_views(ids@))[k],
                ) == Err::<(), StoreError>(e),
        },
{
    let vault_id = index.vault_id();
    let recs = plan_reindex(&vault_id, entries, ids);
    assert(views(recs@).len() == recs@.len());
    index.rebuild(recs)
}

/// Without distinct identifiers, the one way a planned insert can fail is a repeated
/// identifier.
proof fn lemma_planned_step(vault: Seq<u8>, es: Seq<WalkEntryView>, ids: Seq<Seq<u8>>, k: int)
    requires
        ids.len() == es.len(),
        paths_distinct(es),
        0 <= k < es.len(),
    ensures
        insert_outcome(planned(vault, es, ids).take(k), vault, planned(vault, es, ids)[k]) is Ok
            || insert_outcome(planned(vault, es, ids).take(k), vault, planned(vault, es, ids)[k])
            == Err::<(), StoreError>(StoreError::DuplicateId),
{
    let rs = planned(vault, es, ids);
    let s = rs.take(k);
    if has_path(s, rs[k].path) {
        let i = choose|i: int| 0 <= i < s.len() && (#[trigger] s[i]).path == rs[k].path;
        assert(es[i].path != es[k].path);
    }
    if rs[k].parent is Some {
        let j = parent_entry(es, k);
        lemma_folder_before(es, k, parent_of(es[k].path));
        assert(s[j] == rs[j]);
        assert(is_parent(s[j], rs[k]));
    }
}

/// A walk of one entry, or none, writes without failing: nothing can collide.
proof fn lemma_short_walk_ok(vault: Seq<u8>, es: Seq<WalkEntryView>, ids: Seq<Seq<u8>>)
    requires
        ids.len() == es.len(),
        es.len() <= 1,
    ensures
        rebuild_ok(vault, planned(vault, es, ids)),
{
    let rs = planned(vault, es, ids);
    if es.len() == 1 {
        assert(rs.take(0) =~= Seq::<RecordView>::empty());
        assert(parent_entry(es, 0) == -1) by {
            lemma_folder_before(es, 0, parent_of(es[0].path));
        }
        assert(insert_outcome(rs.take(0), vault, rs[0]) is Ok);
    }
}

/// After a rebuild from a walk in order, a record has no parent exactly when its parent
/// directory is the vault's root, and every record lies beneath the root.
pub proof fn lemma_rebuild_parents(
    vault: Seq<u8>,
    root: Seq<char>,
    es: Seq<WalkEntryView>,
    ids: Seq<Seq<u8>>,
)
    requires
        ids.len() == es.len(),
        walk_ok(root, es),
    ensures
        forall|k: int|
            0 <= k < es.len() ==> ((#[trigger] planned(vault, es, ids)[k]).parent is None
                <==> parent_of(es[k].path) == root),
        forall|k: int| 0 <= k < es.len() ==> beneath(root, (#[trigger] planned(vault, es, ids)[k]).path),
{
    assert forall|k: int| 0 <= k < es.len() implies ((#[trigger] planned(vault, es, ids)[k]).parent
        is None <==> parent_of(es[k].path) == root) by {
        let path = es[k].path;
        assert(beneath(root, path));
        lemma_last_slash_bounds(path);
        assert(path[root.len() as int] == '/');
        assert(last_slash(path) >= 0);
        let p = parent_of(path);
        lemma_folder_before(es, k, p);
        if p == root {
            if folder_before(es, k, p) >= 0 {
                let j = folder_before(es, k, p);
                assert(beneath(root, es[j].path));
            }
        } else {
            let j = choose|j: int|
                0 <= j < k && (#[trigger] es[j]).kind == FileType::Folder && es[j].path == p;
        }
    }
}

/// A full rebuild from the listing of a vault's root, with distinct fresh
/// identifiers, succeeds and leaves one record per walked entry; every record lies
/// beneath the root, and a record has no parent exactly when its parent directory is
/// the root (otherwise its parent is the folder record of that directory).
#[verifier::rlimit(80)]
pub proof fn lemma_listing_rebuild(
    vault: Seq<u8>,
    root: Seq<char>,
    listing: Option<Vec<DirNode>>,
    ids: Seq<Seq<u8>>,
)
    requires
        vault.len() == 12,
        ids.len() == listing_entries(root, listing).len(),
        ids_fresh(ids),
    ensures
        rebuild_ok(vault, planned(vault, listing_entries(root, listing), ids)),
        planned(vault, listing_entries(root, listing), ids).len() == listing_entries(root, listing).len(),
        forall|k: int|
            0 <= k < ids.len() ==> ((#[trigger] planned(vault, listing_entries(root, listing), ids)[k]).parent
                is None <==> parent_of(listing_entries(root, listing)[k].path) == root),
        forall|k: int|
            0 <= k < ids.len() ==> beneath(
                root,
                (#[trigger] planned(vault, listing_entries(root, listing), ids)[k]).path,
            ),
{
    let es = listing_entries(root, listing);
    match listing {
        Some(v) => {
            lemma_preorder_walk_ok(root, v@);
            lemma_preorder_distinct(root, v@);
        },
        None => {},
    }
    lemma_planned_rebuild_ok(vault, es, ids);
    lemma_rebuild_parents(vault, root, es, ids);
}

/// The rebuild of a vault's index from a walk of its root in order.
#[verifier::rlimit(60)]
fn rebuild_from_walk(index: &mut VaultIndex, root: &str, entries: &Vec<WalkEntry>) -> (r: Result<
    usize,
    StoreError,
>)
    requires
        old(index).wf(),
        walk_ok(root@, entry_views(entries@)),
        paths_distinct(entry_views(entries@)),
    ensures
        final(index).wf(),
        final(index).vault() == old(index).vault(),
        entries@.len() <= 1 ==> r is Ok,
        match r {
            Ok(n) => n == entries@.len() && exists|ids: Seq<Seq<u8>>|
                ids.len() == n && final(index)@ == #[trigger] planned(
                    old(index).vault(),
                    entry_views(entries@),
                    ids,
                ),
            Err(e) => final(index)@ == old(index)@ && e == StoreError::DuplicateId,
        },
        r is Ok ==> forall|k: int|
            0 <= k < final(index)@.len() ==> ((#[trigger] final(index)@[k]).parent is None
                <==> parent_of(final(index)@[k].path) == root@) && beneath(root@, final(index)@[k].path),
{
    let mut ids: Vec<Xid> = Vec::new();
    let mut k: usize = 0;
    while k < entries.len()
        invariant
            k <= entries@.len(),
            ids@.len() == k,
        decreases entries@.len() - k,
    {
        ids.push(Xid::new());
        k = k + 1;
    }
    let ghost vault = index.vault();
    let ghost es = entry_views(entries@);
    let ghost is = id_views(ids@);
    let r = reindex_with_ids(index, entries, &ids);
    proof {
        assert(is.len() == es.len());
        if es.len() <= 1 {
            lemma_short_walk_ok(vault, es, is);
        }
        if r is Ok {
            assert(index@ == planned(vault, es, is));
            lemma_rebuild_parents(vault, root@, es, is);
        }
        if r is Err {
            let rs = planned(vault, es, is);
            let k = choose|k: int| 0 <= k < entries@.len() && #[trigger] insert_outcome(rs.take(k), vault, rs[k]) == Err::<(), StoreError>(r->Err_0);
            lemma_planned_step(vault, es, is, k);
        }
    }
    r
}

/// Full rebuild of a vault's index from the listing of its root, read from disk: the
/// listing is walked depth first, and every record of the vault is replaced by one
/// freshly identified record per entry, all or nothing. A walk of at most one entry
/// always succeeds; otherwise the only possible failure is a repeated identifier, and
/// the index is then left as it was. After success every record lies beneath the root,
/// and a record has no parent exactly when its parent directory is the root.
pub fn reindex_local_folder_vault(
    index: &mut VaultIndex,
    root: &str,
    listing: &Option<Vec<DirNode>>,
) -> (r: Result<usize, StoreError>)
    requires
        old(index).wf(),
    ensures
        final(index).wf(),
        final(index).vault() == old(index).vault(),
        listing_entries(root@, *listing).len() <= 1 ==> r is Ok,
        match r {
            Ok(n) => n == listing_entries(root@, *listing).len() && exists|ids: Seq<Seq<u8>>|
                ids.len() == n && final(index)@ == #[trigger] planned(
                    old(index).vault(),
                    listing_entries(root@, *listing),
                    ids,
                ),
            Err(e) => final(index)@ == old(index)@ && e == StoreError::DuplicateId,
        },
        r is Ok ==> forall|k: int|
            0 <= k < final(index)@.len() ==> ((#[trigger] final(index)@[k]).parent is None
                <==> parent_of(final(index)@[k].path) == root@) && beneath(root@, final(index)@[k].path),
{
    let entries = walk_directory(root, listing);
    rebuild_from_walk(index, root, &entries)
}

/// The identifier of the folder record at path `p`, if there is one.
pub open spec fn folder_at(s: Seq<RecordView>, p: Seq<char>) -> Option<Seq<u8>> {
    if exists|i: int| 0 <= i < s.len() && (#[trigger] s[i]).path == p && s[i].kind == FileType::Folder {
        Some(
            s[choose|i: int| 0 <= i < s.len() && (#[trigger] s[i]).path == p && s[i].kind == FileType::Folder].id,
        )
    } else {
        None
    }
}

/// The record that reconciliation writes for an existing entry at `path`.
pub open spec fn fresh_record(
    s: Seq<RecordView>,
    vault: Seq<u8>,
    path: Seq<char>,
    m: EntryMeta,
    id: Seq<u8>,
) -> RecordView {
    RecordView {
        id: id,
        vault_id: vault,
        path: path,
        name: name_of(path),
        kind: m.file_type,
        parent: if last_slash(path) >= 0 {
            folder_at(s, parent_of(path))
        } else {
            None
        },
        created_at: m.created_at,
        size: kept_size(m.file_type, m.size),
    }
}

/// The index after reconciling `path` with what the disk holds there: a missing entry
/// is deleted with everything beneath it; an existing one is inserted unless a record
/// with its path is already there. Where the new identifier is taken nothing changes
/// (and `reconcile_outcome` reports it).
pub open spec fn reconciled(
    s: Seq<RecordView>,
    vault: Seq<u8>,
    path: Seq<char>,
    observed: Option<EntryMeta>,
    id: Seq<u8>,
) -> Seq<RecordView> {
    match observed {
        None => after_delete(s, seq![path]),
        Some(m) => if has_path(s, path) || has_id(s, id) {
            s
        } else {
            s.push(fresh_record(s, vault, path, m, id))
        },
    }
}

/// Whether reconciliation succeeds: it fails only where an existing entry's path is not
/// indexed yet and the new identifier is already taken.
pub open spec fn reconcile_outcome(
    s: Seq<RecordView>,
    path: Seq<char>,
    observed: Option<EntryMeta>,
    id: Seq<u8>,
) -> Result<(), StoreError> {
    match observed {
        None => Ok(()),
        Some(_) => if !has_path(s, path) && has_id(s, id) {
            Err(StoreError::DuplicateId)
        } else {
            Ok(())
        },
    }
}

/// Reconciliation keeps the invariant.
pub proof fn lemma_reconcile_wf(
    s: Seq<RecordView>,
    vault: Seq<u8>,
    path: Seq<char>,
    observed: Option<EntryMeta>,
    id: Seq<u8>,
)
    requires
        index_wf(s, vault),
        id.len() == 12,
    ensures
        index_wf(reconciled(s, vault, path, observed, id), vault),
{
    match observed {
        None => {
            lemma_delete_wf(s, vault, seq![path]);
        },
        Some(m) => {
            if !(has_path(s, path) || has_id(s, id)) {
                let r = fresh_record(s, vault, path, m, id);
                if r.parent is Some {
                    let i = choose|i: int|
                        0 <= i < s.len() && (#[trigger] s[i]).path == parent_of(path) && s[i].kind
                            == FileType::Folder;
                    assert(is_parent(s[i], r));
                }
                lemma_insert_wf(s, vault, r);
            }
        },
    }
}

/// The single-path reconciliation rule, with the identifier that an inserted record
/// gets.
pub fn reconcile_path(index: &mut VaultIndex, path: &str, observed: Option<EntryMeta>, new_id: Xid) -> (r:
    Result<(), StoreError>)
    requires
        old(index).wf(),
    ensures
        final(index).wf(),
        final(index).vault() == old(index).vault(),
        final(index)@ == reconciled(old(index)@, old(index).vault(), path@, observed, new_id@),
        r == reconcile_outcome(old(index)@, path@, observed, new_id@),
{
    let ghost s = index@;
    let ghost vault = index.vault();
    match observed {
        None => {
            let mut doomed_paths: Vec<String> = Vec::new();
            doomed_paths.push(String::from_str(path));
            assert(texts(doomed_paths@) =~= seq![path@]);
            index.delete_paths(&doomed_paths);
            Ok(())
        },
        Some(m) => {
            proof {
                lemma_last_slash_bounds(path@);
            }
            let parent = if last_slash_index(path).is_some() {
                let dir = parent_path(path);
                let found = index.find_folder(dir.as_str());
                proof {
                    if found is Some {
                        let i = choose|i: int|
                            0 <= i < s.len() && (#[trigger] s[i]).path == dir@ && s[i].kind
                                == FileType::Folder && s[i].id == found->0@;
                        let c = choose|c: int|
                            0 <= c < s.len() && (#[trigger] s[c]).path == dir@ && s[c].kind
                                == FileType::Folder;
                        assert(i == c);
                    }
                }
                found
            } else {
                None
            };
            let rec = VaultFile {
                id: new_id,
                vault_id: index.vault_id(),
                path_id: String::from_str(path),
                name: file_name(path),
                file_type: m.file_type,
                parent_id: parent,
                created_at: m.created_at,
                size: match m.file_type {
                    FileType::File => m.size,
                    FileType::Folder => None,
                },
            };
            assert(rec@ == fresh_record(s, vault, path@, m, new_id@));
            proof {
                if !(has_path(s, path@) || has_id(s, new_id@)) && rec@.parent is Some {
                    let i = choose|i: int|
                        0 <= i < s.len() && (#[trigger] s[i]).path == parent_of(path@) && s[i].kind
                            == FileType::Folder;
                    assert(is_parent(s[i], rec@));
                }
            }
            match index.insert_if_absent(rec) {
                Ok(_) => Ok(()),
                Err(e) => Err(e),
            }
        },
    }
}

/// The single-path reconciliation rule: `observed` is what the disk holds at `path` now
/// (`None` where nothing is there). A missing entry is deleted with everything beneath
/// it; an existing one gets a freshly identified record unless its path is already
/// indexed, so a repeated notification never makes a second record. The one failure is
/// a freshly minted identifier that is already taken; the index is then unchanged.
pub fn reindex_local_folder_vault_file(index: &mut VaultIndex, path: &str, observed: Option<EntryMeta>) -> (r:
    Result<(), StoreError>)
    requires
        old(index).wf(),
    ensures
        final(index).wf(),
        final(index).vault() == old(index).vault(),
        exists|id: Seq<u8>|
            id.len() == 12 && final(index)@ == #[trigger] reconciled(
                old(index)@,
                old(index).vault(),
                path@,
                observed,
                id,
            ) && r == reconcile_outcome(old(index)@, path@, observed, id),
        observed is None ==> r is Ok && final(index)@ == after_delete(old(index)@, seq![path@]),
        observed is Some && has_path(old(index)@, path@) ==> r is Ok && final(index)@ == old(index)@,
        r is Ok && observed is Some ==> has_path(final(index)@, path@),
        r is Err ==> final(index)@ == old(index)@ && r == Err::<(), StoreError>(StoreError::DuplicateId),
{
    let id = Xid::new();
    let ghost s = index@;
    let r = reconcile_path(index, path, observed, id);
    proof {
        if r is Ok && observed is Some && !has_path(s, path@) {
            assert(index@[s.len() as int].path == path@);
        }
    }
    r
}

/// Creating an entry and reconciling it successfully gives a record with its path; doing
/// it a second time, with any new identifier, changes nothing and leaves exactly one
/// record with that path.
pub proof fn lemma_create_then_query(
    s: Seq<RecordView>,
    vault: Seq<u8>,
    p: Seq<char>,
    m: EntryMeta,
    id1: Seq<u8>,
    id2: Seq<u8>,
)
    requires
        index_wf(s, vault),
        id1.len() == 12,
        id2.len() == 12,
        reconcile_outcome(s, p, Some(m), id1) is Ok,
    ensures
        has_path(reconciled(s, vault, p, Some(m), id1), p),
        reconciled(reconciled(s, vault, p, Some(m), id1), vault, p, Some(m), id2) == reconciled(
            s,
            vault,
            p,
            Some(m),
            id1,
        ),
        forall|i: int, j: int|
            0 <= i < reconciled(s, vault, p, Some(m), id1).len() && 0 <= j < reconciled(
                s,
                vault,
                p,
                Some(m),
                id1,
            ).len() && (#[trigger] reconciled(s, vault, p, Some(m), id1)[i]).path == p && (
            #[trigger] reconciled(s, vault, p, Some(m), id1)[j]).path == p ==> i == j,
{
    let s1 = reconciled(s, vault, p, Some(m), id1);
    lemma_reconcile_wf(s, vault, p, Some(m), id1);
    if !has_path(s, p) {
        assert(s1[s.len() as int].path == p);
    }
}

/// After deleting a path, no record has it, and deleting it again changes nothing.
pub proof fn lemma_delete_converges(s: Seq<RecordView>, vault: Seq<u8>, p: Seq<char>)
    requires
        index_wf(s, vault),
    ensures
        !has_path(after_delete(s, seq![p]), p),
        after_delete(after_delete(s, seq![p]), seq![p]) == after_delete(s, seq![p]),
{
    let ps = seq![p];
    let f = after_delete(s, ps);
    lemma_delete_wf(s, vault, ps);
    if has_path(f, p) {
        let i = choose|i: int| 0 <= i < f.len() && (#[trigger] f[i]).path == p;
        assert(f.contains(f[i]));
        assert(within(ps[0], f[i].path));
    }
    assert forall|i: int| 0 <= i < f.len() implies (#[trigger] survives(ps)(f[i])) by {
        assert(f.contains(f[i]));
    }
    lemma_filter_keeps_all(f, survives(ps));
}

/// A rename seen as two notifications, the old path (now missing) first and then the
/// new path (now present): where the second reconciliation succeeds, the index ends
/// with exactly one record at the new path and none at the old one.
pub proof fn lemma_rename_old_first(
    s: Seq<RecordView>,
    vault: Seq<u8>,
    old_path: Seq<char>,
    new_path: Seq<char>,
    m: EntryMeta,
    id1: Seq<u8>,
    id2: Seq<u8>,
)
    requires
        index_wf(s, vault),
        id1.len() == 12,
        id2.len() == 12,
        !within(old_path, new_path),
        reconcile_outcome(reconciled(s, vault, old_path, None, id1), new_path, Some(m), id2) is Ok,
    ensures
        ({
            let a = reconciled(
                reconciled(s, vault, old_path, None, id1),
                vault,
                new_path,
                Some(m),
                id2,
            );
            &&& !has_path(a, old_path)
            &&& has_path(a, new_path)
            &&& forall|i: int, j: int|
                0 <= i < a.len() && 0 <= j < a.len() && (#[trigger] a[i]).path == new_path && (
                #[trigger] a[j]).path == new_path ==> i == j
        }),
{
    let ps = seq![old_path];
    let s1 = reconciled(s, vault, old_path, None, id1);
    lemma_delete_converges(s, vault, old_path);
    lemma_delete_wf(s, vault, ps);
    let a = reconciled(s1, vault, new_path, Some(m), id2);
    lemma_create_then_query(s1, vault, new_path, m, id2, id2);
    lemma_reconcile_wf(s1, vault, new_path, Some(m), id2);
    if has_path(a, old_path) {
        let i = choose|i: int| 0 <= i < a.len() && (#[trigger] a[i]).path == old_path;
        if i < s1.len() {
            assert(s1[i].path == old_path);
        }
    }
}

/// A rename seen as two notifications, the new path (now present) first and then the
/// old path (now missing): where the first reconciliation succeeds, the index ends with
/// exactly one record at the new path and none at the old one.
pub proof fn lemma_rename_new_first(
    s: Seq<RecordView>,
    vault: Seq<u8>,
    old_path: Seq<char>,
    new_path: Seq<char>,
    m: EntryMeta,
    id1: Seq<u8>,
    id2: Seq<u8>,
)
    requires
        index_wf(s, vault),
        id1.len() == 12,
        id2.len() == 12,
        !within(old_path, new_path),
        reconcile_outcome(s, new_path, Some(m), id1) is Ok,
    ensures
        ({
            let b = reconciled(
                reconciled(s, vault, new_path, Some(m), id1),
                vault,
                old_path,
                None,
                id2,
            );
            &&& !has_path(b, old_path)
            &&& has_path(b, new_path)
            &&& forall|i: int, j: int|
                0 <= i < b.len() && 0 <= j < b.len() && (#[trigger] b[i]).path == new_path && (
                #[trigger] b[j]).path == new_path ==> i == j
        }),
{
    let ps = seq![old_path];
    let t1 = reconciled(s, vault, new_path, Some(m), id1);
    lemma_create_then_query(s, vault, new_path, m, id1, id1);
    lemma_reconcile_wf(s, vault, new_path, Some(m), id1);
    let b = reconciled(t1, vault, old_path, None, id2);
    lemma_delete_converges(t1, vault, old_path);
    lemma_delete_wf(t1, vault, ps);
    let k = choose|k: int| 0 <= k < t1.len() && (#[trigger] t1[k]).path == new_path;
    if doomed(t1[k], ps) {
        assert(within(ps[0], t1[k].path));
    }
    assert(t1.contains(t1[k]));
    assert(b.contains(t1[k]));
    let kb = choose|kb: int| 0 <= kb < b.len() && b[kb] == t1[k];
    assert(b[kb].path == new_path);
}

} // verus!
