use prefab_pipeline::types::{
    Dependers, LoadError, LoadNotifier, Notification, Prefab, RawPrefab,
};

#[test]
fn a_new_raw_prefab_names_nothing() {
    let raw = RawPrefab::new(0xABCD);
    assert_eq!(raw.prefab_id(), 0xABCD);
    assert!(raw.prefab_refs.is_empty());
}

#[test]
fn references_keep_their_order() {
    let mut raw = RawPrefab::new(1);
    raw.add_ref(30);
    raw.add_ref(10);
    raw.add_ref(20);
    assert_eq!(raw.prefab_id(), 1);
    assert_eq!(raw.prefab_refs, vec![30, 10, 20]);
}

#[test]
fn a_new_record_is_neither_resolved_nor_cooked() {
    let mut raw = RawPrefab::new(7);
    raw.add_ref(8);
    let prefab = Prefab::new(raw.clone());
    assert_eq!(prefab.raw_prefab, raw);
    assert_eq!(prefab.prefab, None);
    assert_eq!(prefab.dependencies, None);
    assert_eq!(prefab.dependers.len(), 0);
    assert_eq!(prefab.version, 0);
}

#[test]
fn dependers_are_a_set_in_order_of_arrival() {
    let mut dependers = Dependers::new();
    assert_eq!(dependers.len(), 0);
    assert!(dependers.insert(5));
    assert!(dependers.insert(3));
    assert!(!dependers.insert(5));
    assert!(dependers.insert(9));
    assert!(!dependers.insert(3));
    assert_eq!(dependers.len(), 3);
    assert_eq!(dependers.get(0), 5);
    assert_eq!(dependers.get(1), 3);
    assert_eq!(dependers.get(2), 9);
}

#[test]
fn a_notifier_reports_success() {
    let notice = LoadNotifier::new(4).complete();
    assert_eq!(notice, Notification { load_notifier: LoadNotifier::new(4), result: Ok(()) });
}

#[test]
fn a_notifier_reports_the_error_it_was_given() {
    let error = LoadError { message: String::from("unexpected end of input") };
    let notice = LoadNotifier::new(4).error(error.clone());
    assert_eq!(notice.load_notifier.load_handle, 4);
    assert_eq!(notice.result, Err(error));
}
