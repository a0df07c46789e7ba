use std::cell::RefCell;
use std::collections::HashMap;

use prefab_pipeline::queue::{ingest, loading_state, resolve_dependencies, Ingested, PrefabProcessingQueue};
use prefab_pipeline::storage::AssetStorage;
use prefab_pipeline::types::{
    LoadError, LoadHandle, LoadNotifier, Loader, Notification, Prefab, PrefabUuid, Processed,
    ProcessingState, RawPrefab,
};

/// Gives each identity a handle of its own, the same one every time.
struct TableLoader {
    next: RefCell<LoadHandle>,
    handles: RefCell<HashMap<PrefabUuid, LoadHandle>>,
    asked: RefCell<Vec<PrefabUuid>>,
}

impl TableLoader {
    fn new() -> Self {
        TableLoader {
            next: RefCell::new(1000),
            handles: RefCell::new(HashMap::new()),
            asked: RefCell::new(Vec::new()),
        }
    }

    fn assign(&self, id: PrefabUuid, handle: LoadHandle) {
        self.handles.borrow_mut().insert(id, handle);
    }
}

impl Loader for TableLoader {
    fn load_asset(&self, id: PrefabUuid) -> LoadHandle {
        self.asked.borrow_mut().push(id);
        let mut handles = self.handles.borrow_mut();
        if let Some(handle) = handles.get(&id) {
            return *handle;
        }
        let mut next = self.next.borrow_mut();
        *next += 1;
        handles.insert(id, *next);
        *next
    }
}

struct Fixture {
    loader: TableLoader,
    processing_queue: PrefabProcessingQueue,
    prefab_storage: AssetStorage<Prefab>,
}

impl Fixture {
    fn setup() -> Self {
        Fixture {
            loader: TableLoader::new(),
            processing_queue: PrefabProcessingQueue::default(),
            prefab_storage: AssetStorage::new(),
        }
    }
}

fn raw(id: PrefabUuid, refs: &[PrefabUuid]) -> Prefab {
    let mut raw_prefab = RawPrefab::new(id);
    for other in refs {
        raw_prefab.add_ref(*other);
    }
    Prefab::new(raw_prefab)
}

fn record(id: PrefabUuid, dependencies: Vec<LoadHandle>, dependers: &[LoadHandle]) -> Prefab {
    let mut prefab = Prefab::new(RawPrefab::new(id));
    prefab.dependencies = Some(dependencies);
    for depender in dependers {
        prefab.dependers.insert(*depender);
    }
    prefab.version = 1;
    prefab
}

fn publish(storage: &mut AssetStorage<Prefab>, handle: LoadHandle, prefab: Prefab) {
    storage.update_asset(handle, prefab, 0);
    storage.commit_asset(handle, 0);
}

fn complete(handle: LoadHandle) -> Notification {
    Notification { load_notifier: LoadNotifier::new(handle), result: Ok(()) }
}

fn order_of(storage: &AssetStorage<Prefab>, handle: LoadHandle) -> Vec<PrefabUuid> {
    storage.get(handle).unwrap().prefab.as_ref().unwrap().cook_order.clone()
}

fn version_of(storage: &AssetStorage<Prefab>, handle: LoadHandle) -> u32 {
    storage.get(handle).unwrap().version
}

#[test]
fn test() {
    let Fixture { loader, mut processing_queue, mut prefab_storage } = Fixture::setup();

    let prefab_handle: LoadHandle = 1;
    let raw_prefab = Prefab::new(RawPrefab::new(0xA));
    let version = 0;

    let load_notifier = LoadNotifier::new(prefab_handle);
    processing_queue.enqueue_processed(Ok(raw_prefab), prefab_handle, load_notifier, version, false);
    processing_queue.process(&mut prefab_storage, &loader);

    prefab_storage.commit_asset(prefab_handle, version);

    let asset = prefab_storage.get(prefab_handle).expect("prefab is not in storage");
    assert!(asset.prefab.is_some());
}

#[test]
fn prefab_with_dependencies() {
    let Fixture { loader, mut processing_queue, mut prefab_storage } = Fixture::setup();

    let mut prefab_root = Prefab::new(RawPrefab::new(0xA));
    let prefab_child = Prefab::new(RawPrefab::new(0xB));

    // add prefab_child to dependencies of prefab_root
    prefab_root.raw_prefab.add_ref(prefab_child.raw_prefab.prefab_id());

    // process the root prefab before child available
    let prefab_handle_root: LoadHandle = 1;
    let load_notifier = LoadNotifier::new(prefab_handle_root);
    let version = 0;

    processing_queue.enqueue_processed(
        Ok(prefab_root),
        prefab_handle_root,
        load_notifier,
        version,
        false,
    );

    processing_queue.process(&mut prefab_storage, &loader);

    // load the child prefab
    let prefab_child_handle: LoadHandle = loader.load_asset(0xB);
    let load_notifier = LoadNotifier::new(prefab_child_handle);

    processing_queue.enqueue_processed(
        Ok(prefab_child),
        prefab_child_handle,
        load_notifier,
        version,
        false,
    );

    processing_queue.process(&mut prefab_storage, &loader);

    prefab_storage.commit_asset(prefab_child_handle, version);

    processing_queue.process(&mut prefab_storage, &loader);

    processing_queue.process(&mut prefab_storage, &loader);

    prefab_storage.commit_asset(prefab_handle_root, version);

    let asset = prefab_storage.get(prefab_handle_root).expect("prefab is not in storage");
    assert!(asset.prefab.is_some());
}

#[test]
fn an_asset_without_dependencies_is_cooked_in_one_pass() {
    let Fixture { loader, mut processing_queue, mut prefab_storage } = Fixture::setup();
    processing_queue.enqueue(1, raw(0xA, &[]), 7);
    let notices = processing_queue.process(&mut prefab_storage, &loader);
    assert_eq!(notices, vec![complete(1)]);
    // staged, not yet published
    assert!(!prefab_storage.contains(1));
    prefab_storage.commit_asset(1, 7);
    let asset = prefab_storage.get(1).unwrap();
    assert_eq!(asset.prefab.as_ref().unwrap().cook_order, vec![0xA]);
    assert_eq!(asset.dependencies, Some(vec![]));
    assert_eq!(asset.version, 1);
    assert_eq!(prefab_storage.get_version(1), Some(7));
    // nothing is left to do
    assert_eq!(processing_queue.process(&mut prefab_storage, &loader), vec![]);
}

#[test]
fn an_envelope_can_ask_to_be_published_at_once() {
    let Fixture { loader, mut processing_queue, mut prefab_storage } = Fixture::setup();
    processing_queue.enqueue_processed(Ok(raw(0xA, &[])), 1, LoadNotifier::new(1), 3, true);
    let notices = processing_queue.process(&mut prefab_storage, &loader);
    assert_eq!(notices, vec![complete(1)]);
    assert_eq!(order_of(&prefab_storage, 1), vec![0xA]);
    assert_eq!(prefab_storage.get_version(1), Some(3));
}

#[test]
fn an_asset_waits_for_what_it_builds_on() {
    let Fixture { loader, mut processing_queue, mut prefab_storage } = Fixture::setup();
    loader.assign(0xA, 1);
    loader.assign(0xB, 2);

    // B builds on A and arrives first
    processing_queue.enqueue(2, raw(0xB, &[0xA]), 0);
    let notices = processing_queue.process(&mut prefab_storage, &loader);
    assert_eq!(notices, vec![]);
    prefab_storage.commit_asset(2, 0);
    assert!(!prefab_storage.contains(2));

    // A arrives; B is looked at before it in the same pass, and waits on
    processing_queue.enqueue(1, raw(0xA, &[]), 0);
    let notices = processing_queue.process(&mut prefab_storage, &loader);
    assert_eq!(notices, vec![complete(1)]);
    prefab_storage.commit_asset(2, 0);
    assert!(!prefab_storage.contains(2));

    // A is staged only: B still waits
    let notices = processing_queue.process(&mut prefab_storage, &loader);
    assert_eq!(notices, vec![]);

    prefab_storage.commit_asset(1, 0);
    let notices = processing_queue.process(&mut prefab_storage, &loader);
    assert_eq!(notices, vec![complete(2)]);
    prefab_storage.commit_asset(2, 0);
    let asset = prefab_storage.get(2).unwrap();
    assert_eq!(asset.prefab.as_ref().unwrap().cook_order, vec![0xA, 0xB]);
    assert_eq!(asset.dependencies, Some(vec![1]));
    assert_eq!(asset.version, 1);
}

#[test]
fn the_loader_is_asked_once_for_each_reference() {
    let Fixture { loader, mut processing_queue, mut prefab_storage } = Fixture::setup();
    loader.assign(0xA, 1);
    loader.assign(0xC, 3);
    processing_queue.enqueue(2, raw(0xB, &[0xC, 0xA]), 0);
    processing_queue.process(&mut prefab_storage, &loader);
    processing_queue.process(&mut prefab_storage, &loader);
    processing_queue.process(&mut prefab_storage, &loader);
    assert_eq!(*loader.asked.borrow(), vec![0xC, 0xA]);
}

#[test]
fn a_decode_failure_is_reported_and_nothing_is_stored() {
    let Fixture { loader, mut processing_queue, mut prefab_storage } = Fixture::setup();
    let error = LoadError { message: String::from("invalid value: integer `9`") };
    processing_queue.enqueue_processed(Err(error.clone()), 5, LoadNotifier::new(5), 0, true);
    let notices = processing_queue.process(&mut prefab_storage, &loader);
    assert_eq!(
        notices,
        vec![Notification { load_notifier: LoadNotifier::new(5), result: Err(error) }]
    );
    assert!(!prefab_storage.contains(5));
    prefab_storage.commit_asset(5, 0);
    assert!(!prefab_storage.contains(5));
    // it is not tried again
    assert_eq!(processing_queue.process(&mut prefab_storage, &loader), vec![]);
    assert!(loader.asked.borrow().is_empty());
}

#[test]
fn a_failure_does_not_hold_up_the_envelopes_behind_it() {
    let Fixture { loader, mut processing_queue, mut prefab_storage } = Fixture::setup();
    let error = LoadError { message: String::from("bad") };
    processing_queue.enqueue_processed(Err(error.clone()), 5, LoadNotifier::new(5), 0, true);
    processing_queue.enqueue_processed(Ok(raw(0xA, &[])), 1, LoadNotifier::new(1), 0, true);
    let notices = processing_queue.process(&mut prefab_storage, &loader);
    assert_eq!(
        notices,
        vec![
            Notification { load_notifier: LoadNotifier::new(5), result: Err(error) },
            complete(1),
        ]
    );
    assert!(prefab_storage.contains(1));
}

#[test]
fn a_change_is_carried_to_the_depender() {
    let Fixture { loader, mut processing_queue, mut prefab_storage } = Fixture::setup();
    loader.assign(0xA, 1);
    loader.assign(0xC, 3);

    let mut a = raw(0xA, &[]);
    a.dependers.insert(2);
    processing_queue.enqueue_processed(Ok(a), 1, LoadNotifier::new(1), 0, true);
    processing_queue.enqueue_processed(Ok(raw(0xB, &[0xA])), 2, LoadNotifier::new(2), 0, true);
    processing_queue.enqueue_processed(Ok(raw(0xC, &[])), 3, LoadNotifier::new(3), 0, true);
    let notices = processing_queue.process(&mut prefab_storage, &loader);
    assert_eq!(notices, vec![complete(1), complete(2), complete(3)]);
    assert_eq!(order_of(&prefab_storage, 2), vec![0xA, 0xB]);
    assert_eq!(version_of(&prefab_storage, 2), 1);

    // A comes again, now building on C, and is committed under a new version
    let mut again = raw(0xA, &[0xC]);
    again.dependers.insert(2);
    processing_queue.enqueue_processed(Ok(again), 1, LoadNotifier::new(1), 1, false);
    processing_queue.process(&mut prefab_storage, &loader);
    prefab_storage.commit_asset(1, 1);
    processing_queue.enqueue_changed(1);
    assert_eq!(version_of(&prefab_storage, 1), 2);
    assert_eq!(order_of(&prefab_storage, 2), vec![0xA, 0xB]);

    // B is not enqueued again
    let notices = processing_queue.process(&mut prefab_storage, &loader);
    assert_eq!(notices, vec![]);
    assert_eq!(order_of(&prefab_storage, 2), vec![0xC, 0xA, 0xB]);
    assert_eq!(version_of(&prefab_storage, 2), 2);
    assert_eq!(prefab_storage.get_version(2), Some(0));
    // A itself is left alone
    assert_eq!(version_of(&prefab_storage, 1), 2);
    assert_eq!(order_of(&prefab_storage, 1), vec![0xC, 0xA]);
}

#[test]
fn a_change_reaches_every_level_in_one_drain() {
    let mut storage = AssetStorage::new();
    let mut queue = PrefabProcessingQueue::new();
    publish(&mut storage, 1, record(0xA, vec![], &[2]));
    publish(&mut storage, 2, record(0xB, vec![1], &[3]));
    publish(&mut storage, 3, record(0xC, vec![2], &[4]));
    publish(&mut storage, 4, record(0xD, vec![3], &[]));
    publish(&mut storage, 5, record(0xE, vec![], &[]));
    queue.enqueue_changed(1);
    queue.propagate_changes(&mut storage);
    assert_eq!(version_of(&storage, 1), 1);
    assert_eq!(version_of(&storage, 2), 2);
    assert_eq!(version_of(&storage, 3), 2);
    assert_eq!(version_of(&storage, 4), 2);
    assert_eq!(version_of(&storage, 5), 1);
    assert_eq!(storage.get(1).unwrap().prefab, None);
    assert_eq!(order_of(&storage, 2), vec![0xA, 0xB]);
    assert_eq!(order_of(&storage, 3), vec![0xA, 0xB, 0xC]);
    assert_eq!(order_of(&storage, 4), vec![0xA, 0xB, 0xC, 0xD]);
    assert_eq!(storage.get(5).unwrap().prefab, None);
    // the signals have been used up
    queue.propagate_changes(&mut storage);
    assert_eq!(version_of(&storage, 2), 2);
}

#[test]
fn a_depender_is_scheduled_once_in_a_pass() {
    // 4 builds on 2 and 3, which both build on 1
    let mut storage = AssetStorage::new();
    let mut queue = PrefabProcessingQueue::new();
    publish(&mut storage, 1, record(0xA, vec![], &[2, 3]));
    publish(&mut storage, 2, record(0xB, vec![1], &[4]));
    publish(&mut storage, 3, record(0xC, vec![1], &[4]));
    publish(&mut storage, 4, record(0xD, vec![2, 3], &[5]));
    publish(&mut storage, 5, record(0xE, vec![4], &[]));
    queue.enqueue_changed(1);
    queue.propagate_changes(&mut storage);
    assert_eq!(version_of(&storage, 2), 2);
    assert_eq!(version_of(&storage, 3), 2);
    // cooked for the change of 2 and for the change of 3
    assert_eq!(version_of(&storage, 4), 3);
    // cooked for the one signal of 4
    assert_eq!(version_of(&storage, 5), 2);
    assert_eq!(order_of(&storage, 4), vec![0xA, 0xB, 0xC, 0xD]);
}

#[test]
fn every_signal_is_followed() {
    let mut storage = AssetStorage::new();
    let mut queue = PrefabProcessingQueue::new();
    publish(&mut storage, 1, record(0xA, vec![], &[2]));
    publish(&mut storage, 2, record(0xB, vec![1], &[]));
    queue.enqueue_changed(1);
    queue.enqueue_changed(1);
    queue.enqueue_changed(9);
    queue.propagate_changes(&mut storage);
    assert_eq!(version_of(&storage, 2), 3);
    assert_eq!(version_of(&storage, 1), 1);
}

#[test]
fn a_cycle_of_dependers_ends() {
    let mut storage = AssetStorage::new();
    let mut queue = PrefabProcessingQueue::new();
    publish(&mut storage, 1, record(0xA, vec![2], &[2]));
    publish(&mut storage, 2, record(0xB, vec![1], &[1]));
    queue.enqueue_changed(1);
    queue.propagate_changes(&mut storage);
    // 1 changed: 2 cooked; 2 changed: 1 cooked; 1 changed again: 2 cooked
    assert_eq!(version_of(&storage, 1), 2);
    assert_eq!(version_of(&storage, 2), 3);
    assert_eq!(order_of(&storage, 1), vec![0xB, 0xA]);
    assert_eq!(order_of(&storage, 2), vec![0xA, 0xB]);
}

#[test]
fn a_depender_that_is_not_published_is_passed_over() {
    let mut storage = AssetStorage::new();
    let mut queue = PrefabProcessingQueue::new();
    publish(&mut storage, 1, record(0xA, vec![], &[2, 3]));
    storage.update_asset(2, record(0xB, vec![1], &[]), 0);
    publish(&mut storage, 3, record(0xC, vec![1], &[]));
    queue.enqueue_changed(1);
    queue.propagate_changes(&mut storage);
    assert_eq!(version_of(&storage, 3), 2);
    storage.commit_asset(2, 0);
    assert_eq!(version_of(&storage, 2), 1);
    assert_eq!(storage.get(2).unwrap().prefab, None);
}

#[test]
fn versions_go_up_by_one_with_every_cook() {
    let Fixture { loader, mut processing_queue, mut prefab_storage } = Fixture::setup();
    for round in 0..5u32 {
        processing_queue.enqueue_processed(Ok(raw(0xA, &[])), 1, LoadNotifier::new(1), round, true);
        processing_queue.process(&mut prefab_storage, &loader);
        assert_eq!(version_of(&prefab_storage, 1), round + 1);
        assert_eq!(prefab_storage.get_version(1), Some(round));
    }
}

#[test]
fn a_cook_counts_from_what_is_published() {
    let Fixture { loader, mut processing_queue, mut prefab_storage } = Fixture::setup();
    // two cooks of the same handle without a commit in between
    processing_queue.enqueue(1, raw(0xA, &[]), 0);
    processing_queue.enqueue(1, raw(0xA, &[]), 1);
    processing_queue.process(&mut prefab_storage, &loader);
    prefab_storage.commit_asset(1, 1);
    assert_eq!(version_of(&prefab_storage, 1), 1);
    // the next cook follows the published one
    processing_queue.enqueue(1, raw(0xA, &[]), 2);
    processing_queue.process(&mut prefab_storage, &loader);
    prefab_storage.commit_asset(1, 2);
    assert_eq!(version_of(&prefab_storage, 1), 2);
}

#[test]
fn envelopes_that_wait_keep_their_order() {
    let Fixture { loader, mut processing_queue, mut prefab_storage } = Fixture::setup();
    loader.assign(0xA, 1);
    processing_queue.enqueue_processed(Ok(raw(0xB, &[0xA])), 2, LoadNotifier::new(2), 0, true);
    processing_queue.enqueue_processed(Ok(raw(0xC, &[0xA])), 3, LoadNotifier::new(3), 0, true);
    processing_queue.enqueue_processed(Ok(raw(0xD, &[0xA])), 4, LoadNotifier::new(4), 0, true);
    assert_eq!(processing_queue.process(&mut prefab_storage, &loader), vec![]);
    assert_eq!(processing_queue.process(&mut prefab_storage, &loader), vec![]);
    publish(&mut prefab_storage, 1, record(0xA, vec![], &[]));
    let notices = processing_queue.process(&mut prefab_storage, &loader);
    assert_eq!(notices, vec![complete(2), complete(3), complete(4)]);
}

#[test]
fn a_chain_enqueued_backwards_is_cooked_level_by_level() {
    let Fixture { loader, mut processing_queue, mut prefab_storage } = Fixture::setup();
    loader.assign(0xA, 1);
    loader.assign(0xB, 2);
    loader.assign(0xC, 3);
    processing_queue.enqueue_processed(Ok(raw(0xC, &[0xB])), 3, LoadNotifier::new(3), 0, true);
    processing_queue.enqueue_processed(Ok(raw(0xB, &[0xA])), 2, LoadNotifier::new(2), 0, true);
    processing_queue.enqueue_processed(Ok(raw(0xA, &[])), 1, LoadNotifier::new(1), 0, true);
    assert_eq!(processing_queue.process(&mut prefab_storage, &loader), vec![complete(1)]);
    assert_eq!(processing_queue.process(&mut prefab_storage, &loader), vec![complete(2)]);
    assert_eq!(processing_queue.process(&mut prefab_storage, &loader), vec![complete(3)]);
    assert_eq!(processing_queue.process(&mut prefab_storage, &loader), vec![]);
    assert_eq!(order_of(&prefab_storage, 1), vec![0xA]);
    assert_eq!(order_of(&prefab_storage, 2), vec![0xA, 0xB]);
    assert_eq!(order_of(&prefab_storage, 3), vec![0xA, 0xB, 0xC]);
}

#[test]
fn a_chain_enqueued_forwards_is_cooked_in_one_pass() {
    let Fixture { loader, mut processing_queue, mut prefab_storage } = Fixture::setup();
    loader.assign(0xA, 1);
    loader.assign(0xB, 2);
    loader.assign(0xC, 3);
    processing_queue.enqueue_processed(Ok(raw(0xA, &[])), 1, LoadNotifier::new(1), 0, true);
    processing_queue.enqueue_processed(Ok(raw(0xB, &[0xA])), 2, LoadNotifier::new(2), 0, true);
    processing_queue.enqueue_processed(Ok(raw(0xC, &[0xB])), 3, LoadNotifier::new(3), 0, true);
    let notices = processing_queue.process(&mut prefab_storage, &loader);
    assert_eq!(notices, vec![complete(1), complete(2), complete(3)]);
    assert_eq!(order_of(&prefab_storage, 3), vec![0xA, 0xB, 0xC]);
}

#[test]
fn a_diamond_is_cooked_whatever_the_order() {
    // D builds on B and C, which both build on A
    let orders: [[usize; 4]; 4] = [[0, 1, 2, 3], [3, 2, 1, 0], [3, 0, 2, 1], [1, 3, 0, 2]];
    for order in orders {
        let Fixture { loader, mut processing_queue, mut prefab_storage } = Fixture::setup();
        loader.assign(0xA, 1);
        loader.assign(0xB, 2);
        loader.assign(0xC, 3);
        loader.assign(0xD, 4);
        for which in order {
            let (handle, prefab) = match which {
                0 => (1, raw(0xA, &[])),
                1 => (2, raw(0xB, &[0xA])),
                2 => (3, raw(0xC, &[0xA])),
                _ => (4, raw(0xD, &[0xB, 0xC])),
            };
            processing_queue.enqueue_processed(Ok(prefab), handle, LoadNotifier::new(handle), 0, true);
        }
        let mut reported = 0;
        for _pass in 0..4 {
            reported += processing_queue.process(&mut prefab_storage, &loader).len();
        }
        assert_eq!(reported, 4);
        assert_eq!(order_of(&prefab_storage, 1), vec![0xA]);
        assert_eq!(order_of(&prefab_storage, 2), vec![0xA, 0xB]);
        assert_eq!(order_of(&prefab_storage, 3), vec![0xA, 0xC]);
        assert_eq!(order_of(&prefab_storage, 4), vec![0xA, 0xB, 0xC, 0xD]);
        assert_eq!(processing_queue.process(&mut prefab_storage, &loader), vec![]);
    }
}

#[test]
fn changes_are_followed_before_the_queue_is_drained() {
    let Fixture { loader, mut processing_queue, mut prefab_storage } = Fixture::setup();
    loader.assign(0xA, 1);
    publish(&mut prefab_storage, 1, record(0xA, vec![], &[2]));
    publish(&mut prefab_storage, 2, record(0xB, vec![1], &[]));
    processing_queue.enqueue_changed(1);
    // a new B arrives in the same pass: it is cooked after the old one was bumped
    processing_queue.enqueue_processed(Ok(raw(0xB, &[0xA])), 2, LoadNotifier::new(2), 1, true);
    let notices = processing_queue.process(&mut prefab_storage, &loader);
    assert_eq!(notices, vec![complete(2)]);
    assert_eq!(version_of(&prefab_storage, 2), 3);
    assert_eq!(prefab_storage.get_version(2), Some(1));
}

#[test]
fn dependencies_are_resolved_once() {
    let loader = TableLoader::new();
    loader.assign(0xA, 11);
    loader.assign(0xB, 12);
    let resolved = resolve_dependencies(raw(0xC, &[0xB, 0xA, 0xB]), &loader);
    assert_eq!(resolved.dependencies, Some(vec![12, 11, 12]));
    assert_eq!(resolved.raw_prefab.prefab_refs, vec![0xB, 0xA, 0xB]);
    assert_eq!(resolved.prefab, None);
    assert_eq!(resolved.version, 0);
    let mut known = raw(0xC, &[0xB]);
    known.dependencies = Some(vec![77]);
    let kept = resolve_dependencies(known, &loader);
    assert_eq!(kept.dependencies, Some(vec![77]));
    assert_eq!(*loader.asked.borrow(), vec![0xB, 0xA, 0xB]);
}

#[test]
fn an_asset_is_loaded_when_all_it_builds_on_is_published() {
    let mut storage = AssetStorage::new();
    publish(&mut storage, 1, record(0xA, vec![], &[]));
    storage.update_asset(2, record(0xB, vec![], &[]), 0);
    match loading_state(record(0xC, vec![1], &[]), &storage) {
        ProcessingState::Loaded(prefab) => assert_eq!(prefab.raw_prefab.prefab_id(), 0xC),
        ProcessingState::Loading(_) => panic!("everything is published"),
    }
    match loading_state(record(0xC, vec![1, 2], &[]), &storage) {
        ProcessingState::Loading(prefab) => assert_eq!(prefab.dependencies, Some(vec![1, 2])),
        ProcessingState::Loaded(_) => panic!("2 is only staged"),
    }
    match loading_state(record(0xC, vec![], &[]), &storage) {
        ProcessingState::Loaded(_) => {}
        ProcessingState::Loading(_) => panic!("nothing to wait for"),
    }
}

#[test]
fn ingest_hands_back_an_envelope_that_has_to_wait() {
    let mut storage = AssetStorage::new();
    let item = Processed {
        data: Ok(record(0xB, vec![1], &[])),
        handle: 2,
        load_notifier: LoadNotifier::new(2),
        version: 4,
        commit: true,
    };
    match ingest(&mut storage, item) {
        Ingested::Requeued(item) => {
            assert_eq!(item.handle, 2);
            assert_eq!(item.version, 4);
            assert!(item.commit);
            assert_eq!(item.data.unwrap().dependencies, Some(vec![1]));
        }
        Ingested::Notified(_) => panic!("1 is not published"),
    }
    storage.commit_asset(2, 4);
    assert!(!storage.contains(2));
}

#[test]
fn ingest_stages_under_the_version_of_the_envelope() {
    let mut storage = AssetStorage::new();
    publish(&mut storage, 2, record(0xB, vec![], &[]));
    let mut incoming = record(0xB, vec![], &[7]);
    incoming.version = 40;
    let item = Processed {
        data: Ok(incoming),
        handle: 2,
        load_notifier: LoadNotifier::new(2),
        version: 4,
        commit: false,
    };
    match ingest(&mut storage, item) {
        Ingested::Notified(notice) => assert_eq!(notice, complete(2)),
        Ingested::Requeued(_) => panic!("nothing to wait for"),
    }
    assert_eq!(storage.get_version(2), Some(0));
    storage.commit_asset(2, 3);
    assert_eq!(storage.get_version(2), Some(0));
    storage.commit_asset(2, 4);
    assert_eq!(storage.get_version(2), Some(4));
    // one more than the version of the record that was published, whatever
    // the record said of itself
    assert_eq!(version_of(&storage, 2), 2);
    assert_eq!(storage.get(2).unwrap().dependers.len(), 1);
}

#[test]
fn a_pass_may_start_on_an_empty_store() {
    let Fixture { loader, mut processing_queue, mut prefab_storage } = Fixture::setup();
    assert!(processing_queue.can_process(&prefab_storage));
    processing_queue.enqueue(1, raw(0xA, &[]), 0);
    processing_queue.enqueue_changed(4);
    assert!(processing_queue.can_process(&prefab_storage));
    let notices = processing_queue.try_process(&mut prefab_storage, &loader);
    assert_eq!(notices, Some(vec![complete(1)]));
}

#[test]
fn no_pass_starts_over_a_record_that_does_not_know_its_dependencies() {
    let Fixture { loader, mut processing_queue, mut prefab_storage } = Fixture::setup();
    loader.assign(0xA, 1);
    publish(&mut prefab_storage, 1, raw(0xA, &[]));
    processing_queue.enqueue_processed(Ok(raw(0xB, &[0xA])), 2, LoadNotifier::new(2), 0, true);
    processing_queue.enqueue_changed(1);
    assert!(!processing_queue.can_process(&prefab_storage));
    assert_eq!(processing_queue.try_process(&mut prefab_storage, &loader), None);
    // nothing was touched: once the record is replaced, the pass is made
    assert!(!prefab_storage.contains(2));
    publish(&mut prefab_storage, 1, record(0xA, vec![], &[]));
    assert!(processing_queue.can_process(&prefab_storage));
    let notices = processing_queue.try_process(&mut prefab_storage, &loader);
    assert_eq!(notices, Some(vec![complete(2)]));
    assert_eq!(order_of(&prefab_storage, 2), vec![0xA, 0xB]);
}

#[test]
fn a_record_that_is_only_staged_does_not_hold_up_a_pass() {
    let Fixture { loader: _, processing_queue, mut prefab_storage } = Fixture::setup();
    prefab_storage.update_asset(1, raw(0xA, &[]), 0);
    assert!(processing_queue.can_process(&prefab_storage));
}

#[test]
fn no_pass_starts_where_a_version_has_no_room() {
    let Fixture { loader, mut processing_queue, mut prefab_storage } = Fixture::setup();
    let mut full = record(0xA, vec![], &[]);
    full.version = u32::MAX - 1;
    publish(&mut prefab_storage, 1, full);
    // one record and no signal: room for one cook is asked for, and is there
    assert!(processing_queue.can_process(&prefab_storage));
    processing_queue.enqueue_changed(7);
    assert!(!processing_queue.can_process(&prefab_storage));
    assert_eq!(processing_queue.try_process(&mut prefab_storage, &loader), None);
    assert_eq!(version_of(&prefab_storage, 1), u32::MAX - 1);
    let mut last = record(0xA, vec![], &[]);
    last.version = u32::MAX;
    publish(&mut prefab_storage, 1, last);
    let mut empty = PrefabProcessingQueue::new();
    assert!(!empty.can_process(&prefab_storage));
    assert_eq!(empty.try_process(&mut prefab_storage, &loader), None);
}

#[test]
fn a_version_may_be_used_up_to_the_last() {
    let mut storage = AssetStorage::new();
    let mut queue = PrefabProcessingQueue::new();
    publish(&mut storage, 1, record(0xA, vec![], &[2]));
    let mut nearly = record(0xB, vec![1], &[]);
    nearly.version = u32::MAX - 3;
    publish(&mut storage, 2, nearly);
    queue.enqueue_changed(1);
    assert!(queue.can_process(&storage));
    queue.propagate_changes(&mut storage);
    assert_eq!(version_of(&storage, 2), u32::MAX - 2);
}
