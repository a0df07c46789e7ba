use prefab_pipeline::storage::AssetStorage;

#[test]
fn a_new_store_holds_nothing() {
    let storage: AssetStorage<u32> = AssetStorage::new();
    assert!(!storage.contains(1));
    assert_eq!(storage.get(1), None);
    assert_eq!(storage.get_version(1), None);
}

#[test]
fn a_staged_asset_is_not_seen_until_it_is_committed() {
    let mut storage = AssetStorage::new();
    storage.update_asset(1, 70u32, 4);
    assert!(!storage.contains(1));
    assert_eq!(storage.get(1), None);
    storage.commit_asset(1, 4);
    assert!(storage.contains(1));
    assert_eq!(storage.get(1), Some(&70));
    assert_eq!(storage.get_for_load_handle(1), Some(&70));
    assert_eq!(storage.get_version(1), Some(4));
    assert_eq!(storage.get_asset_with_version(1), Some((&70, 4)));
}

#[test]
fn a_commit_of_another_version_does_nothing() {
    let mut storage = AssetStorage::new();
    storage.update_asset(1, 70u32, 4);
    storage.commit_asset(1, 5);
    assert!(!storage.contains(1));
    storage.commit_asset(1, 4);
    assert_eq!(storage.get(1), Some(&70));
}

#[test]
fn a_commit_moves_the_asset_out_of_staging() {
    let mut storage = AssetStorage::new();
    storage.update_asset(1, 70u32, 4);
    storage.commit_asset(1, 4);
    storage.remove_asset(1, 4);
    assert!(!storage.contains(1));
    // nothing is left in staging that a second commit could publish
    storage.commit_asset(1, 4);
    assert!(!storage.contains(1));
}

#[test]
fn staging_again_replaces_what_was_staged() {
    let mut storage = AssetStorage::new();
    storage.update_asset(1, 70u32, 4);
    storage.update_asset(1, 71u32, 5);
    storage.commit_asset(1, 4);
    assert!(!storage.contains(1));
    storage.commit_asset(1, 5);
    assert_eq!(storage.get(1), Some(&71));
}

#[test]
fn a_commit_replaces_what_was_published() {
    let mut storage = AssetStorage::new();
    storage.update_asset(1, 70u32, 4);
    storage.commit_asset(1, 4);
    storage.update_asset(1, 71u32, 5);
    assert_eq!(storage.get(1), Some(&70));
    storage.commit_asset(1, 5);
    assert_eq!(storage.get(1), Some(&71));
    assert_eq!(storage.get_version(1), Some(5));
}

#[test]
fn remove_drops_only_the_version_named() {
    let mut storage = AssetStorage::new();
    storage.update_asset(1, 70u32, 4);
    storage.commit_asset(1, 4);
    storage.update_asset(1, 71u32, 5);
    storage.remove_asset(1, 6);
    assert_eq!(storage.get(1), Some(&70));
    storage.remove_asset(1, 5);
    assert_eq!(storage.get(1), Some(&70));
    storage.commit_asset(1, 5);
    assert_eq!(storage.get(1), Some(&70));
    storage.remove_asset(1, 4);
    assert_eq!(storage.get(1), None);
}

#[test]
fn handles_are_kept_apart() {
    let mut storage = AssetStorage::new();
    storage.update_asset(1, 70u32, 0);
    storage.update_asset(2, 80u32, 0);
    storage.commit_asset(2, 0);
    assert_eq!(storage.get(1), None);
    assert_eq!(storage.get(2), Some(&80));
}

#[test]
fn mutate_changes_the_published_asset_in_place() {
    let mut storage = AssetStorage::new();
    storage.update_asset(1, 70u32, 4);
    storage.commit_asset(1, 4);
    storage.mutate_asset_in_storage(1, |asset| asset + 1);
    assert_eq!(storage.get(1), Some(&71));
    assert_eq!(storage.get_version(1), Some(4));
}

#[test]
fn mutate_leaves_alone_what_is_not_published() {
    let mut storage = AssetStorage::new();
    storage.update_asset(1, 70u32, 4);
    storage.mutate_asset_in_storage(1, |asset| asset + 1);
    storage.mutate_asset_in_storage(2, |asset| asset + 1);
    assert!(!storage.contains(2));
    storage.commit_asset(1, 4);
    assert_eq!(storage.get(1), Some(&70));
}

#[test]
fn handles_lists_what_is_published_once_each() {
    let mut storage = AssetStorage::new();
    assert_eq!(storage.handles(), Vec::<u64>::new());
    for handle in [5u64, 1, 9] {
        storage.update_asset(handle, handle as u32, 0);
        storage.commit_asset(handle, 0);
    }
    storage.update_asset(7, 7u32, 0);
    storage.update_asset(9, 90u32, 1);
    storage.commit_asset(9, 1);
    let mut handles = storage.handles();
    handles.sort();
    assert_eq!(handles, vec![1, 5, 9]);
}

#[test]
fn a_default_store_holds_nothing() {
    let storage: AssetStorage<u32> = AssetStorage::default();
    assert!(!storage.contains(0));
    assert!(storage.handles().is_empty());
}
