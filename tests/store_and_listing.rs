use floppy::folders::FileType;
use floppy::listing::{list_vault_files, text_contains, trim_text};
use floppy::models::VaultFile;
use floppy::store::{StoreError, VaultIndex};
use floppy::watcher::{next_action, started, Notification, WatchAction, WatcherState};
use floppy::xid::Xid;

fn id(n: u8) -> Xid {
    Xid([0, 0, 0, 0, 0, 0, 0, 0, 0, 0, 0, n])
}

fn record(vault: u8, n: u8, path: &str, file_type: FileType, parent: Option<u8>) -> VaultFile {
    VaultFile {
        id: id(n),
        vault_id: id(vault),
        path_id: path.to_string(),
        name: path.rsplit('/').next().unwrap().to_string(),
        file_type,
        parent_id: parent.map(id),
        created_at: None,
        size: None,
    }
}

fn ids_of(files: &[VaultFile]) -> Vec<u8> {
    files.iter().map(|f| f.id.as_bytes()[11]).collect()
}

fn paths(v: &[&str]) -> Vec<String> {
    v.iter().map(|s| s.to_string()).collect()
}

#[test]
fn insert_reports_each_refusal() {
    let mut index = VaultIndex::new(id(200));
    assert_eq!(index.insert(record(200, 1, "/v/a", FileType::Folder, None)), Ok(()));
    assert_eq!(
        index.insert(record(201, 2, "/v/b", FileType::File, None)),
        Err(StoreError::WrongVault)
    );
    assert_eq!(
        index.insert(record(200, 1, "/v/b", FileType::File, None)),
        Err(StoreError::DuplicateId)
    );
    assert_eq!(
        index.insert(record(200, 2, "/v/a", FileType::File, None)),
        Err(StoreError::DuplicatePath)
    );
    assert_eq!(
        index.insert(record(200, 3, "/v/b/c", FileType::File, Some(1))),
        Err(StoreError::MissingParent)
    );
    assert_eq!(
        index.insert(record(200, 4, "/v/a/c", FileType::File, Some(9))),
        Err(StoreError::MissingParent)
    );
    assert_eq!(index.insert(record(200, 5, "/v/a/c", FileType::File, Some(1))), Ok(()));
    assert_eq!(
        index.insert(record(200, 6, "/v/a/c/d", FileType::File, Some(5))),
        Err(StoreError::MissingParent)
    );
    assert_eq!(index.len(), 2);
}

#[test]
fn insert_if_absent_ignores_known_paths_only() {
    let mut index = VaultIndex::new(id(200));
    assert_eq!(index.insert_if_absent(record(200, 1, "/v/a", FileType::File, None)), Ok(true));
    assert_eq!(index.insert_if_absent(record(200, 2, "/v/a", FileType::File, None)), Ok(false));
    assert_eq!(
        index.insert_if_absent(record(200, 1, "/v/b", FileType::File, None)),
        Err(StoreError::DuplicateId)
    );
    assert_eq!(
        index.insert_if_absent(record(200, 3, "/v/c/d", FileType::File, Some(1))),
        Err(StoreError::MissingParent)
    );
    assert_eq!(index.len(), 1);
}

#[test]
fn find_folder_only_finds_folders() {
    let mut index = VaultIndex::new(id(200));
    index.insert(record(200, 1, "/v/a", FileType::Folder, None)).unwrap();
    index.insert(record(200, 2, "/v/f", FileType::File, None)).unwrap();
    assert_eq!(index.find_folder("/v/a").unwrap().as_bytes(), id(1).as_bytes());
    assert!(index.find_folder("/v/f").is_none());
    assert!(index.find_folder("/v/zz").is_none());
    assert_eq!(index.find_by_path("/v/f").unwrap().file_type, FileType::File);
    assert!(index.find_by_path("/v/zz").is_none());
}

#[test]
fn delete_all_empties_the_index() {
    let mut index = VaultIndex::new(id(200));
    index.insert(record(200, 1, "/v/a", FileType::Folder, None)).unwrap();
    index.delete_all();
    assert_eq!(index.len(), 0);
}

#[test]
fn rebuild_keeps_index_on_failure() {
    let mut index = VaultIndex::new(id(200));
    index.insert(record(200, 1, "/v/a", FileType::Folder, None)).unwrap();
    let bad = vec![record(200, 2, "/v/b", FileType::File, None), record(200, 3, "/v/b", FileType::File, None)];
    assert_eq!(index.rebuild(bad), Err(StoreError::DuplicatePath));
    assert_eq!(index.len(), 1);
    let good = vec![record(200, 2, "/v/b", FileType::Folder, None), record(200, 3, "/v/b/c", FileType::File, Some(2))];
    assert_eq!(index.rebuild(good), Ok(2));
    assert_eq!(ids_of(index.records()), vec![2, 3]);
}

fn listing_index() -> VaultIndex {
    let mut index = VaultIndex::new(id(200));
    // Written out of identifier order on purpose.
    for (n, path) in [(7, "/v/g.txt"), (2, "/v/Report.TXT"), (9, "/v/i.txt"), (4, "/v/d.txt"), (1, "/v/a")] {
        let kind = if n == 1 { FileType::Folder } else { FileType::File };
        index.insert(record(200, n, path, kind, None)).unwrap();
    }
    index.insert(record(200, 5, "/v/a/report-2.txt", FileType::File, Some(1))).unwrap();
    index
}

#[test]
fn listing_is_in_ascending_identifier_order() {
    let index = listing_index();
    let all = list_vault_files(&index, None, None, None);
    assert_eq!(ids_of(&all), vec![1, 2, 4, 7, 9]);
    let inside = list_vault_files(&index, Some(id(1)), None, None);
    assert_eq!(ids_of(&inside), vec![5]);
    let after = list_vault_files(&index, None, Some(id(4)), None);
    assert_eq!(ids_of(&after), vec![7, 9]);
    let after_missing = list_vault_files(&index, None, Some(id(3)), None);
    assert_eq!(ids_of(&after_missing), vec![4, 7, 9]);
}

#[test]
fn pagination_never_repeats_or_skips() {
    let index = listing_index();
    let full = ids_of(&list_vault_files(&index, None, None, None));
    for page_size in 1..=full.len() + 1 {
        let mut seen: Vec<u8> = Vec::new();
        let mut after: Option<Xid> = None;
        loop {
            let listed = list_vault_files(&index, None, after, None);
            let page: Vec<&VaultFile> = listed.iter().take(page_size).collect();
            if page.is_empty() {
                break;
            }
            seen.extend(page.iter().map(|f| f.id.as_bytes()[11]));
            after = Some(page[page.len() - 1].id);
        }
        assert_eq!(seen, full);
    }
}

#[test]
fn search_ignores_case() {
    let index = listing_index();
    let found = list_vault_files(&index, None, None, Some("report"));
    assert_eq!(ids_of(&found), vec![2]);
    let found_upper = list_vault_files(&index, Some(id(1)), None, Some("REPORT"));
    assert_eq!(ids_of(&found_upper), vec![5]);
    assert!(list_vault_files(&index, None, None, Some("xyz")).is_empty());
    assert_eq!(list_vault_files(&index, None, None, Some("")).len(), 5);
    assert_eq!(list_vault_files(&index, None, None, Some(" \t ")).len(), 5);
    assert_eq!(ids_of(&list_vault_files(&index, None, None, Some("  rePort "))), vec![2]);
    assert!(list_vault_files(&index, None, None, Some("t .")).is_empty());
}

#[test]
fn text_contains_edge_cases() {
    assert!(text_contains("report.txt", ""));
    assert!(text_contains("report.txt", "port"));
    assert!(text_contains("report.txt", "report.txt"));
    assert!(!text_contains("report.txt", "report.txt!"));
    assert!(!text_contains("", "a"));
    assert!(!text_contains("abc", "ac"));
}

#[test]
fn watcher_start_and_failure() {
    assert_eq!(started(true), WatcherState::Watching);
    assert_eq!(started(false), WatcherState::Stopped);
    let (s, a) = next_action(WatcherState::Watching, "/v", &Notification::Failed);
    assert_eq!(s, WatcherState::Stopped);
    assert!(matches!(a, WatchAction::Stop));
    let (s, a) = next_action(WatcherState::Stopped, "/v", &Notification::Create(paths(&["/v/a"])));
    assert_eq!(s, WatcherState::Stopped);
    assert!(matches!(a, WatchAction::Stop));
    let (s, a) = next_action(WatcherState::Watching, "/v", &Notification::Other);
    assert_eq!(s, WatcherState::Watching);
    assert!(matches!(a, WatchAction::Nothing));
}

#[test]
fn watcher_skips_root_and_outside_paths() {
    let n = Notification::Create(paths(&["/v", "/v/a.txt", "/w/b.txt", "/vx", "/v/c/d"]));
    match next_action(WatcherState::Watching, "/v", &n) {
        (WatcherState::Watching, WatchAction::Reconcile(ps)) => assert_eq!(ps, paths(&["/v/a.txt", "/v/c/d"])),
        _ => panic!("expected reconciliation"),
    }
    let n = Notification::Modify(paths(&["/v/x"]));
    match next_action(WatcherState::Watching, "/v", &n) {
        (WatcherState::Watching, WatchAction::Reconcile(ps)) => assert_eq!(ps, paths(&["/v/x"])),
        _ => panic!("expected reconciliation"),
    }
    let n = Notification::Remove(paths(&["/v/x", "/v"]));
    match next_action(WatcherState::Watching, "/v", &n) {
        (WatcherState::Watching, WatchAction::Delete(ps)) => assert_eq!(ps, paths(&["/v/x"])),
        _ => panic!("expected deletion"),
    }
}

#[test]
fn trimming_removes_white_space_at_both_ends() {
    assert_eq!(trim_text("  a b \n"), "a b");
    assert_eq!(trim_text("\u{3000}x\u{a0}"), "x");
    assert_eq!(trim_text("   "), "");
    assert_eq!(trim_text(""), "");
    assert_eq!(trim_text("abc"), "abc");
}
