use prefab_pipeline::cook::cook_prefab;
use prefab_pipeline::storage::AssetStorage;
use prefab_pipeline::types::{LoadHandle, Prefab, PrefabUuid, RawPrefab};

fn record(id: PrefabUuid, dependencies: Vec<LoadHandle>) -> Prefab {
    let mut prefab = Prefab::new(RawPrefab::new(id));
    prefab.dependencies = Some(dependencies);
    prefab
}

fn publish(storage: &mut AssetStorage<Prefab>, handle: LoadHandle, prefab: Prefab) {
    storage.update_asset(handle, prefab, 0);
    storage.commit_asset(handle, 0);
}

#[test]
fn cook_order_of_a_leaf_is_the_leaf() {
    let storage = AssetStorage::new();
    let cooked = cook_prefab(&record(0xA, vec![]), &storage);
    assert_eq!(cooked.cook_order, vec![0xA]);
}

#[test]
fn cook_order_of_a_chain_starts_at_the_far_end() {
    let mut storage = AssetStorage::new();
    publish(&mut storage, 1, record(0xA, vec![]));
    publish(&mut storage, 2, record(0xB, vec![1]));
    publish(&mut storage, 3, record(0xC, vec![2]));
    let cooked = cook_prefab(&record(0xD, vec![3]), &storage);
    assert_eq!(cooked.cook_order, vec![0xA, 0xB, 0xC, 0xD]);
}

#[test]
fn cook_order_enters_a_shared_dependency_once() {
    let mut storage = AssetStorage::new();
    publish(&mut storage, 1, record(0xA, vec![]));
    publish(&mut storage, 2, record(0xB, vec![1]));
    publish(&mut storage, 3, record(0xC, vec![1]));
    let cooked = cook_prefab(&record(0xD, vec![2, 3]), &storage);
    assert_eq!(cooked.cook_order, vec![0xA, 0xB, 0xC, 0xD]);
}

#[test]
fn cook_order_follows_the_order_of_the_dependencies() {
    let mut storage = AssetStorage::new();
    publish(&mut storage, 1, record(0xA, vec![]));
    publish(&mut storage, 2, record(0xB, vec![]));
    publish(&mut storage, 3, record(0xC, vec![]));
    let cooked = cook_prefab(&record(0xD, vec![3, 1, 2]), &storage);
    assert_eq!(cooked.cook_order, vec![0xC, 0xA, 0xB, 0xD]);
}

#[test]
fn cook_order_passes_over_a_missing_dependency() {
    let mut storage = AssetStorage::new();
    publish(&mut storage, 1, record(0xA, vec![]));
    let cooked = cook_prefab(&record(0xD, vec![9, 1]), &storage);
    assert_eq!(cooked.cook_order, vec![0xA, 0xD]);
}

#[test]
fn cook_order_sees_only_what_is_published() {
    let mut storage = AssetStorage::new();
    storage.update_asset(1, record(0xA, vec![]), 0);
    let cooked = cook_prefab(&record(0xD, vec![1]), &storage);
    assert_eq!(cooked.cook_order, vec![0xD]);
}

#[test]
fn cook_order_names_a_repeated_dependency_once() {
    let mut storage = AssetStorage::new();
    publish(&mut storage, 1, record(0xA, vec![]));
    let cooked = cook_prefab(&record(0xD, vec![1, 1, 1]), &storage);
    assert_eq!(cooked.cook_order, vec![0xA, 0xD]);
}

#[test]
fn cook_order_merges_two_records_of_one_identity() {
    let mut storage = AssetStorage::new();
    publish(&mut storage, 1, record(0xA, vec![]));
    publish(&mut storage, 2, record(0xA, vec![]));
    let cooked = cook_prefab(&record(0xD, vec![1, 2]), &storage);
    assert_eq!(cooked.cook_order, vec![0xA, 0xD]);
}

#[test]
fn cook_order_of_a_cycle_ends() {
    let mut storage = AssetStorage::new();
    publish(&mut storage, 1, record(0x1, vec![2]));
    publish(&mut storage, 2, record(0x2, vec![1]));
    let cooked = cook_prefab(&record(0x1, vec![2]), &storage);
    assert_eq!(cooked.cook_order, vec![0x2, 0x1]);
}

#[test]
fn cook_order_puts_every_dependency_first() {
    // 6 builds on 4 and 5; 4 on 1 and 2; 5 on 2 and 3; 3 on 1.
    let mut storage = AssetStorage::new();
    publish(&mut storage, 1, record(0x10, vec![]));
    publish(&mut storage, 2, record(0x20, vec![]));
    publish(&mut storage, 3, record(0x30, vec![1]));
    publish(&mut storage, 4, record(0x40, vec![1, 2]));
    publish(&mut storage, 5, record(0x50, vec![2, 3]));
    let root = record(0x60, vec![4, 5]);
    let order = cook_prefab(&root, &storage).cook_order;
    assert_eq!(order, vec![0x10, 0x20, 0x40, 0x30, 0x50, 0x60]);
    let position = |id: PrefabUuid| order.iter().position(|other| *other == id).unwrap();
    for handle in 1..=5 {
        let asset = storage.get(handle).unwrap();
        for dependency in asset.dependencies.as_ref().unwrap() {
            let before = storage.get(*dependency).unwrap().raw_prefab.prefab_id();
            assert!(position(before) < position(asset.raw_prefab.prefab_id()));
        }
    }
    assert_eq!(*order.last().unwrap(), 0x60);
}

#[test]
fn cook_order_of_a_deep_chain() {
    let mut storage = AssetStorage::new();
    publish(&mut storage, 0, record(0, vec![]));
    for handle in 1..200u64 {
        publish(&mut storage, handle, record(handle as PrefabUuid, vec![handle - 1]));
    }
    let order = cook_prefab(&record(200, vec![199]), &storage).cook_order;
    let expected: Vec<PrefabUuid> = (0..=200).collect();
    assert_eq!(order, expected);
}
