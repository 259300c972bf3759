use floppy::folders::FileType;
use floppy::indexing::{
    plan_reindex, reconcile_path, reindex_local_folder_vault, reindex_local_folder_vault_file,
    reindex_with_ids, WalkEntry,
};
use floppy::models::{EntryMeta, VaultFile};
use floppy::store::{StoreError, VaultIndex};
use floppy::walker::{walk_directory, DirNode};
use floppy::xid::Xid;

fn entry(path: &str, file_type: FileType) -> WalkEntry {
    WalkEntry {
        path: path.to_string(),
        file_type,
        created_at: Some(1_700_000_000),
        size: Some(42),
    }
}

fn file(name: &str) -> DirNode {
    DirNode::File { name: name.to_string(), created_at: Some(1_700_000_000), size: Some(42) }
}

fn folder(name: &str, children: Option<Vec<DirNode>>) -> DirNode {
    DirNode::Folder { name: name.to_string(), created_at: Some(1_700_000_000), size: Some(4096), children }
}

/// The tree whose walk is `sample_walk`.
fn sample_tree() -> Option<Vec<DirNode>> {
    Some(vec![
        folder("a", Some(vec![file("b.txt"), folder("d", Some(vec![file("e.txt")]))])),
        file("c.txt"),
    ])
}

fn sample_walk() -> Vec<WalkEntry> {
    vec![
        entry("/v/a", FileType::Folder),
        entry("/v/a/b.txt", FileType::File),
        entry("/v/a/d", FileType::Folder),
        entry("/v/a/d/e.txt", FileType::File),
        entry("/v/c.txt", FileType::File),
    ]
}

fn id(n: u8) -> Xid {
    Xid([0, 0, 0, 0, 0, 0, 0, 0, 0, 0, 0, n])
}

fn file_meta() -> EntryMeta {
    EntryMeta {
        file_type: FileType::File,
        created_at: None,
        size: Some(7),
    }
}

fn find<'a>(index: &'a VaultIndex, path: &str) -> Vec<&'a VaultFile> {
    index.records().iter().filter(|r| r.path_id == path).collect()
}

fn parent_path_of(index: &VaultIndex, rec: &VaultFile) -> Option<String> {
    rec.parent_id.map(|p| {
        index
            .records()
            .iter()
            .find(|r| r.id.as_bytes() == p.as_bytes())
            .expect("parent record is indexed")
            .path_id
            .clone()
    })
}

#[test]
fn full_rebuild_writes_one_record_per_entry() {
    let mut index = VaultIndex::new(id(200));
    let walk = sample_walk();
    let n = reindex_local_folder_vault(&mut index, "/v", &sample_tree()).unwrap();
    assert_eq!(n, 5);
    assert_eq!(index.len(), 5);
    for (rec, e) in index.records().iter().zip(walk.iter()) {
        assert_eq!(rec.path_id, e.path);
        assert_eq!(rec.file_type, e.file_type);
        assert!(rec.path_id.starts_with("/v/"));
        assert_eq!(rec.vault_id.as_bytes(), id(200).as_bytes());
    }
}

#[test]
fn full_rebuild_replaces_previous_records() {
    let mut index = VaultIndex::new(id(200));
    reindex_local_folder_vault(&mut index, "/v", &sample_tree()).unwrap();
    let smaller = Some(vec![file("only.txt")]);
    assert_eq!(reindex_local_folder_vault(&mut index, "/v", &smaller), Ok(1));
    assert_eq!(index.len(), 1);
    assert_eq!(index.records()[0].path_id, "/v/only.txt");
}

#[test]
fn full_rebuild_of_empty_walk_empties_the_index() {
    let mut index = VaultIndex::new(id(200));
    reindex_local_folder_vault(&mut index, "/v", &sample_tree()).unwrap();
    assert_eq!(reindex_local_folder_vault(&mut index, "/v", &Some(Vec::new())), Ok(0));
    assert_eq!(index.len(), 0);
    reindex_local_folder_vault(&mut index, "/v", &sample_tree()).unwrap();
    assert_eq!(reindex_local_folder_vault(&mut index, "/v", &None), Ok(0));
    assert_eq!(index.len(), 0);
}

#[test]
fn hierarchy_links_each_entry_to_its_parent_folder() {
    let mut index = VaultIndex::new(id(200));
    reindex_local_folder_vault(&mut index, "/v", &sample_tree()).unwrap();
    for rec in index.records() {
        match parent_path_of(&index, rec) {
            Some(p) => {
                let (dir, _) = rec.path_id.rsplit_once('/').unwrap();
                assert_eq!(p, dir);
            }
            None => assert!(rec.path_id == "/v/a" || rec.path_id == "/v/c.txt"),
        }
    }
    let b = find(&index, "/v/a/b.txt")[0];
    let a = find(&index, "/v/a")[0];
    assert_eq!(b.parent_id.unwrap().as_bytes(), a.id.as_bytes());
    assert_eq!(b.name, "b.txt");
    assert_eq!(b.size, Some(42));
    assert_eq!(a.size, None);
    let e = find(&index, "/v/a/d/e.txt")[0];
    assert_eq!(parent_path_of(&index, e), Some("/v/a/d".to_string()));
}

#[test]
fn child_listed_before_its_folder_gets_no_parent() {
    let walk = vec![entry("/v/a/b.txt", FileType::File), entry("/v/a", FileType::Folder)];
    let ids = vec![id(1), id(2)];
    let plan = plan_reindex(&id(200), &walk, &ids);
    assert!(plan[0].parent_id.is_none());
    assert!(plan[1].parent_id.is_none());
}

#[test]
fn file_is_never_a_parent() {
    let walk = vec![entry("/v/a", FileType::File), entry("/v/a/b.txt", FileType::File)];
    let ids = vec![id(1), id(2)];
    let plan = plan_reindex(&id(200), &walk, &ids);
    assert!(plan[1].parent_id.is_none());
}

#[test]
fn rebuilding_twice_keeps_paths_and_topology() {
    let walk = sample_tree();
    let mut first = VaultIndex::new(id(200));
    let mut second = VaultIndex::new(id(200));
    reindex_local_folder_vault(&mut first, "/v", &walk).unwrap();
    reindex_local_folder_vault(&mut second, "/v", &walk).unwrap();
    let shape = |index: &VaultIndex| -> Vec<(String, FileType, Option<String>)> {
        index
            .records()
            .iter()
            .map(|r| (r.path_id.clone(), r.file_type, parent_path_of(index, r)))
            .collect()
    };
    assert_eq!(shape(&first), shape(&second));
    // Reindexing the same index again gives the same shape too.
    let before = shape(&first);
    reindex_local_folder_vault(&mut first, "/v", &walk).unwrap();
    assert_eq!(shape(&first), before);
}

#[test]
fn rebuild_with_repeated_identifier_leaves_index_unchanged() {
    let mut index = VaultIndex::new(id(200));
    reindex_with_ids(&mut index, &vec![entry("/v/x", FileType::File)], &vec![id(9)]).unwrap();
    let walk = vec![entry("/v/a", FileType::File), entry("/v/b", FileType::File)];
    let r = reindex_with_ids(&mut index, &walk, &vec![id(1), id(1)]);
    assert_eq!(r, Err(StoreError::DuplicateId));
    assert_eq!(index.len(), 1);
    assert_eq!(index.records()[0].path_id, "/v/x");
}

#[test]
fn rebuild_with_repeated_path_is_refused() {
    let mut index = VaultIndex::new(id(200));
    let walk = vec![entry("/v/a", FileType::File), entry("/v/a", FileType::File)];
    let r = reindex_with_ids(&mut index, &walk, &vec![id(1), id(2)]);
    assert_eq!(r, Err(StoreError::DuplicatePath));
    assert_eq!(index.len(), 0);
}

#[test]
fn create_then_query_finds_one_record() {
    let mut index = VaultIndex::new(id(200));
    assert_eq!(reindex_local_folder_vault_file(&mut index, "/v/new.txt", Some(file_meta())), Ok(()));
    assert_eq!(find(&index, "/v/new.txt").len(), 1);
    assert_eq!(reindex_local_folder_vault_file(&mut index, "/v/new.txt", Some(file_meta())), Ok(()));
    assert_eq!(find(&index, "/v/new.txt").len(), 1);
    assert_eq!(index.len(), 1);
    let rec = find(&index, "/v/new.txt")[0];
    assert_eq!(rec.name, "new.txt");
    assert_eq!(rec.size, Some(7));
}

#[test]
fn created_entry_links_to_indexed_parent_folder() {
    let mut index = VaultIndex::new(id(200));
    let folder = EntryMeta {
        file_type: FileType::Folder,
        created_at: None,
        size: Some(4096),
    };
    assert_eq!(reconcile_path(&mut index, "/v/a", Some(folder), id(1)), Ok(()));
    assert_eq!(reconcile_path(&mut index, "/v/a/b.txt", Some(file_meta()), id(2)), Ok(()));
    let b = find(&index, "/v/a/b.txt")[0];
    assert_eq!(b.parent_id.unwrap().as_bytes(), id(1).as_bytes());
    assert_eq!(find(&index, "/v/a")[0].size, None);
}

#[test]
fn reconcile_with_taken_identifier_fails_and_changes_nothing() {
    let mut index = VaultIndex::new(id(200));
    assert_eq!(reconcile_path(&mut index, "/v/a.txt", Some(file_meta()), id(1)), Ok(()));
    assert_eq!(
        reconcile_path(&mut index, "/v/b.txt", Some(file_meta()), id(1)),
        Err(StoreError::DuplicateId)
    );
    assert_eq!(index.len(), 1);
    assert!(find(&index, "/v/b.txt").is_empty());
}

#[test]
fn delete_converges_after_repeated_removal() {
    let mut index = VaultIndex::new(id(200));
    reindex_local_folder_vault(&mut index, "/v", &sample_tree()).unwrap();
    let gone = vec!["/v/a/b.txt".to_string()];
    index.delete_paths(&gone);
    assert!(find(&index, "/v/a/b.txt").is_empty());
    assert_eq!(index.len(), 4);
    index.delete_paths(&gone);
    assert!(find(&index, "/v/a/b.txt").is_empty());
    assert_eq!(index.len(), 4);
}

#[test]
fn missing_path_is_deleted_by_reconciliation() {
    let mut index = VaultIndex::new(id(200));
    reindex_local_folder_vault(&mut index, "/v", &sample_tree()).unwrap();
    assert_eq!(reindex_local_folder_vault_file(&mut index, "/v/a/b.txt", None), Ok(()));
    assert_eq!(reindex_local_folder_vault_file(&mut index, "/v/a/b.txt", None), Ok(()));
    assert!(find(&index, "/v/a/b.txt").is_empty());
    assert_eq!(index.len(), 4);
}

#[test]
fn deleting_a_folder_deletes_what_lies_beneath() {
    let mut index = VaultIndex::new(id(200));
    let mut walk = sample_walk();
    walk.push(entry("/v/ab", FileType::File));
    let ids: Vec<Xid> = (1..=walk.len() as u8).map(id).collect();
    reindex_with_ids(&mut index, &walk, &ids).unwrap();
    index.delete_paths(&vec!["/v/a".to_string()]);
    let left: Vec<&str> = index.records().iter().map(|r| r.path_id.as_str()).collect();
    assert_eq!(left, vec!["/v/c.txt", "/v/ab"]);
}

#[test]
fn rename_old_notification_first() {
    let mut index = VaultIndex::new(id(200));
    assert_eq!(reconcile_path(&mut index, "/v/old.txt", Some(file_meta()), id(1)), Ok(()));
    assert_eq!(reindex_local_folder_vault_file(&mut index, "/v/old.txt", None), Ok(()));
    assert_eq!(reindex_local_folder_vault_file(&mut index, "/v/new.txt", Some(file_meta())), Ok(()));
    assert!(find(&index, "/v/old.txt").is_empty());
    assert_eq!(find(&index, "/v/new.txt").len(), 1);
    assert_eq!(index.len(), 1);
}

#[test]
fn rename_new_notification_first() {
    let mut index = VaultIndex::new(id(200));
    assert_eq!(reconcile_path(&mut index, "/v/old.txt", Some(file_meta()), id(1)), Ok(()));
    assert_eq!(reindex_local_folder_vault_file(&mut index, "/v/new.txt", Some(file_meta())), Ok(()));
    assert_eq!(reindex_local_folder_vault_file(&mut index, "/v/old.txt", None), Ok(()));
    assert!(find(&index, "/v/old.txt").is_empty());
    assert_eq!(find(&index, "/v/new.txt").len(), 1);
    assert_eq!(index.len(), 1);
}

#[test]
fn walk_is_depth_first_with_folders_first() {
    let walk = walk_directory("/v", &sample_tree());
    let expected = sample_walk();
    assert_eq!(walk.len(), expected.len());
    for (got, want) in walk.iter().zip(expected.iter()) {
        assert_eq!(got.path, want.path);
        assert_eq!(got.file_type, want.file_type);
    }
    assert_eq!(walk[1].size, Some(42));
    assert_eq!(walk[0].size, Some(4096));
}

#[test]
fn unreadable_root_gives_empty_walk() {
    assert!(walk_directory("/v", &None).is_empty());
}

#[test]
fn unreadable_folder_keeps_folder_without_contents() {
    let tree = Some(vec![folder("locked", None), file("x.txt")]);
    let walk = walk_directory("/v", &tree);
    let paths: Vec<&str> = walk.iter().map(|e| e.path.as_str()).collect();
    assert_eq!(paths, vec!["/v/locked", "/v/x.txt"]);
}

#[test]
fn names_that_are_not_one_component_are_skipped() {
    let tree = Some(vec![file(""), file("a/b"), folder("bad/name", Some(vec![file("x")])), file("ok")]);
    let walk = walk_directory("/v", &tree);
    let paths: Vec<&str> = walk.iter().map(|e| e.path.as_str()).collect();
    assert_eq!(paths, vec!["/v/ok"]);
}

#[test]
fn rebuild_gives_no_parent_exactly_to_root_children() {
    let mut index = VaultIndex::new(id(200));
    reindex_local_folder_vault(&mut index, "/v", &sample_tree()).unwrap();
    for rec in index.records() {
        let (dir, _) = rec.path_id.rsplit_once('/').unwrap();
        assert_eq!(rec.parent_id.is_none(), dir == "/v");
    }
}

#[test]
fn repeated_names_in_one_listing_keep_the_last() {
    let tree = Some(vec![file("x.txt"), folder("x.txt", Some(vec![file("y")])), file("z")]);
    let walk = walk_directory("/v", &tree);
    let paths: Vec<&str> = walk.iter().map(|e| e.path.as_str()).collect();
    assert_eq!(paths, vec!["/v/x.txt", "/v/x.txt/y", "/v/z"]);
    assert_eq!(walk[0].file_type, FileType::Folder);
    let mut index = VaultIndex::new(id(200));
    assert_eq!(reindex_local_folder_vault(&mut index, "/v", &tree), Ok(3));
}

#[test]
fn reconciling_an_indexed_path_again_changes_nothing() {
    let mut index = VaultIndex::new(id(200));
    assert_eq!(reconcile_path(&mut index, "/v/a.txt", Some(file_meta()), id(1)), Ok(()));
    // The path is indexed, so a taken identifier does not matter.
    assert_eq!(reconcile_path(&mut index, "/v/a.txt", Some(file_meta()), id(1)), Ok(()));
    assert_eq!(index.len(), 1);
    assert_eq!(index.records()[0].id.as_bytes(), id(1).as_bytes());
}
