use dircheck::changes::{ChangeCounts, ChangeType};
use dircheck::classify::{classify, ItemState, ItemType, ObservedEntry, Outcome};
use dircheck::paths::{path_cmp, PathOrder};
use dircheck::store::Store;
use dircheck::AuditError;

fn file_entry(path: &[u8], mtime: i64, size: i64, digest: Option<Vec<u8>>) -> ObservedEntry {
    ObservedEntry {
        path: path.to_vec(),
        item_type: ItemType::File,
        last_modified: mtime,
        file_size: Some(size),
        digest,
    }
}

fn dir_entry(path: &[u8], mtime: i64) -> ObservedEntry {
    ObservedEntry {
        path: path.to_vec(),
        item_type: ItemType::Directory,
        last_modified: mtime,
        file_size: None,
        digest: None,
    }
}

fn run_scan(store: &mut Store, root: i64, deep: bool, time: i64, entries: Vec<ObservedEntry>) -> i64 {
    let sid = store.scan_begin(root, deep, time).unwrap();
    store.reconcile(sid, &entries).unwrap();
    store.scan_finalize(sid).unwrap();
    sid
}

#[test]
fn change_type_codes() {
    assert_eq!(ChangeType::Add.as_db_str(), "A");
    assert_eq!(ChangeType::Delete.as_db_str(), "D");
    assert_eq!(ChangeType::Modify.as_db_str(), "M");
    assert_eq!(ChangeType::TypeChange.as_db_str(), "T");
    assert_eq!(ChangeType::NoChange.as_db_str(), "N");
    assert_eq!(ChangeType::from_db_str("A"), Some(ChangeType::Add));
    assert_eq!(ChangeType::from_db_str("N"), Some(ChangeType::NoChange));
    assert_eq!(ChangeType::from_db_str("X"), None);
    assert_eq!(ChangeType::from_db_str(""), None);
    assert_eq!(ChangeType::from_db_str("AA"), None);
}

#[test]
fn change_counts_accounting() {
    let mut cc = ChangeCounts::new();
    assert_eq!(cc.get(ChangeType::Add), 0);
    cc.increment(ChangeType::Add);
    cc.increment(ChangeType::Add);
    cc.set(ChangeType::Delete, 7);
    assert_eq!(cc.get(ChangeType::Add), 2);
    assert_eq!(cc.get(ChangeType::Delete), 7);
    assert_eq!(cc.get(ChangeType::Modify), 0);
}

#[test]
fn byte_path_order() {
    assert_eq!(path_cmp(&b"a.txt".to_vec(), &b"sub".to_vec()), PathOrder::Before);
    assert_eq!(path_cmp(&b"sub".to_vec(), &b"sub".to_vec()), PathOrder::Same);
    assert_eq!(path_cmp(&b"sub/b.txt".to_vec(), &b"sub".to_vec()), PathOrder::After);
}

// A root with `a.txt` and `sub/`: the first scan adds both, an
// unchanged rescan records nothing, and a delete plus a nested add
// each yield exactly one change.
#[test]
fn three_scans_scenario() {
    let mut store = Store::new();
    let root = store.register_root(b"/data".to_vec()).unwrap();

    let s1 = run_scan(
        &mut store,
        root,
        false,
        100,
        vec![file_entry(b"a.txt", 10, 10, None), dir_entry(b"sub", 11)],
    );
    let cc1 = store.change_counts(s1).unwrap();
    assert_eq!(cc1.get(ChangeType::Add), 2);
    assert_eq!(cc1.get(ChangeType::Delete), 0);

    // Scan 2: nothing changed on disk.
    let s2 = run_scan(
        &mut store,
        root,
        false,
        200,
        vec![file_entry(b"a.txt", 10, 10, None), dir_entry(b"sub", 11)],
    );
    let cc2 = store.change_counts(s2).unwrap();
    assert_eq!(cc2.get(ChangeType::Add), 0);
    assert_eq!(cc2.get(ChangeType::Modify), 0);
    assert_eq!(cc2.get(ChangeType::Delete), 0);
    assert_eq!(cc2.get(ChangeType::TypeChange), 0);
    let scan2 = store.latest_complete_scan(root).unwrap();
    assert_eq!(scan2.id, s2);
    assert_eq!(scan2.file_count, Some(1));
    assert_eq!(scan2.folder_count, Some(1));
    // Idempotence: the items only advanced their last-seen scan.
    let items = store.items_seen_by(s2);
    assert_eq!(items.len(), 2);
    assert_eq!(items[0].path, b"a.txt".to_vec());
    assert_eq!(items[0].last_modified, 10);
    assert_eq!(items[0].file_hash, None);

    // Scan 3: a.txt deleted, sub/b.txt added.
    let s3 = run_scan(
        &mut store,
        root,
        false,
        300,
        vec![dir_entry(b"sub", 11), file_entry(b"sub/b.txt", 12, 3, None)],
    );
    let cc3 = store.change_counts(s3).unwrap();
    assert_eq!(cc3.get(ChangeType::Add), 1);
    assert_eq!(cc3.get(ChangeType::Delete), 1);
    assert_eq!(cc3.get(ChangeType::Modify), 0);
    let changes = store.changes_of_scan(s3);
    assert_eq!(changes.len(), 2);
    assert_eq!(changes[0].change_type, ChangeType::Delete);
    assert_eq!(changes[1].change_type, ChangeType::Add);
}

// A file replaced by a directory of the same name: exactly one
// TypeChange, and size/hash reset to unset.
#[test]
fn type_change_resets_state() {
    let mut store = Store::new();
    let root = store.register_root(b"/r".to_vec()).unwrap();
    run_scan(
        &mut store,
        root,
        false,
        1,
        vec![file_entry(b"x", 5, 42, Some(b"hash-one".to_vec()))],
    );
    let s2 = run_scan(&mut store, root, false, 2, vec![dir_entry(b"x", 6)]);
    let cc = store.change_counts(s2).unwrap();
    assert_eq!(cc.get(ChangeType::TypeChange), 1);
    assert_eq!(cc.get(ChangeType::Add), 0);
    assert_eq!(cc.get(ChangeType::Modify), 0);
    let items = store.items_seen_by(s2);
    assert_eq!(items.len(), 1);
    assert_eq!(items[0].item_type, ItemType::Directory);
    assert_eq!(items[0].file_size, None);
    assert_eq!(items[0].file_hash, None);
}

// Content changes while metadata stays: a shallow scan reports
// NoChange, a deep scan reports Modify with only the hash flagged.
#[test]
fn deep_scan_sees_silent_corruption() {
    let old = ItemState {
        item_type: ItemType::File,
        last_modified: 10,
        file_size: Some(4),
        file_hash: Some(b"old-digest".to_vec()),
    };
    let shallow = file_entry(b"f", 10, 4, None);
    assert_eq!(classify(Some(&old), Some(&shallow), false), Outcome::NoChange);
    let deep = file_entry(b"f", 10, 4, Some(b"new-digest".to_vec()));
    assert_eq!(
        classify(Some(&old), Some(&deep), true),
        Outcome::Modify { metadata_changed: false, hash_changed: Some(true) }
    );
}

#[test]
fn classifier_table() {
    let e = file_entry(b"f", 10, 4, None);
    assert_eq!(classify(None, Some(&e), false), Outcome::Add);
    let old = ItemState {
        item_type: ItemType::File,
        last_modified: 10,
        file_size: Some(4),
        file_hash: None,
    };
    assert_eq!(classify(Some(&old), None, false), Outcome::Delete);
    let dir = dir_entry(b"f", 10);
    assert_eq!(classify(Some(&old), Some(&dir), false), Outcome::TypeChange);
    let touched = file_entry(b"f", 11, 4, None);
    assert_eq!(
        classify(Some(&old), Some(&touched), false),
        Outcome::Modify { metadata_changed: true, hash_changed: None }
    );
}

// A failed scan is never a baseline: after an abort the previous
// complete scan is still the latest.
#[test]
fn failed_scan_is_not_a_baseline() {
    let mut store = Store::new();
    let root = store.register_root(b"/r".to_vec()).unwrap();
    let s1 = run_scan(&mut store, root, false, 1, vec![file_entry(b"a", 1, 1, None)]);

    let s2 = store.scan_begin(root, false, 2).unwrap();
    store.reconcile(s2, &vec![]).unwrap();
    // The store write that would finish the scan fails: abort it.
    store.scan_abort(s2).unwrap();
    let latest = store.latest_complete_scan(root).unwrap();
    assert_eq!(latest.id, s1);
    // The root is free again for the next attempt.
    let s3 = store.scan_begin(root, false, 3).unwrap();
    assert_eq!(s3, 3);
}

#[test]
fn error_taxonomy() {
    let mut store = Store::new();
    let root = store.register_root(b"/r".to_vec()).unwrap();
    assert_eq!(
        store.register_root(b"/r".to_vec()),
        Err(AuditError::DuplicateRootPath)
    );
    assert_eq!(
        store.scan_begin(99, false, 1),
        Err(AuditError::RootNotFound { root_path_id: 99 })
    );
    let s1 = store.scan_begin(root, false, 1).unwrap();
    assert_eq!(
        store.scan_begin(root, true, 2),
        Err(AuditError::ScanInProgress { root_path_id: root })
    );
    assert_eq!(
        store.scan_finalize(42),
        Err(AuditError::ScanNotFound { scan_id: 42 })
    );
    store.reconcile(s1, &vec![]).unwrap();
    store.scan_finalize(s1).unwrap();
    assert_eq!(
        store.scan_finalize(s1),
        Err(AuditError::ScanAlreadyComplete { scan_id: s1 })
    );
    assert_eq!(
        store.scan_abort(s1),
        Err(AuditError::ScanAlreadyComplete { scan_id: s1 })
    );
    assert_eq!(
        store.change_counts(42).err(),
        Some(AuditError::ScanNotFound { scan_id: 42 })
    );
}

// A deleted path that reappears resurrects the same item row, so its
// whole history stays one lineage.
#[test]
fn resurrection_reuses_the_item() {
    let mut store = Store::new();
    let root = store.register_root(b"/r".to_vec()).unwrap();
    let s1 = run_scan(&mut store, root, false, 1, vec![file_entry(b"a", 1, 1, None)]);
    let first = store.items_seen_by(s1);
    let item_id = first[0].id;
    run_scan(&mut store, root, false, 2, vec![]);
    let s3 = run_scan(&mut store, root, false, 3, vec![file_entry(b"a", 3, 1, None)]);
    let again = store.items_seen_by(s3);
    assert_eq!(again.len(), 1);
    assert_eq!(again[0].id, item_id);
    assert!(!again[0].is_tombstone);
    let cc = store.change_counts(s3).unwrap();
    assert_eq!(cc.get(ChangeType::Add), 1);
}
