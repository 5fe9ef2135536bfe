use indexed_bucket::bucket::{BucketError, IndexedBucket, Order};
use indexed_bucket::record::Record;

fn rec(category: &[u8], name: &[u8]) -> Record {
    Record { category: category.to_vec(), name: name.to_vec() }
}

#[test]
fn save_then_may_load_round_trips() {
    let mut bucket = IndexedBucket::new(b"buck");
    bucket.save(b"k1", &rec(b"fruit", b"apple")).unwrap();
    let loaded = bucket.may_load(b"k1").unwrap().unwrap();
    assert_eq!(loaded.category, b"fruit".to_vec());
    assert_eq!(loaded.name, b"apple".to_vec());
}

#[test]
fn remove_empties_and_is_idempotent() {
    let mut bucket = IndexedBucket::new(b"buck");
    bucket.save(b"k1", &rec(b"fruit", b"apple")).unwrap();
    bucket.remove(b"k1").unwrap();
    assert!(bucket.may_load(b"k1").unwrap().is_none());
    bucket.remove(b"k1").unwrap();
    assert!(bucket.may_load(b"k1").unwrap().is_none());
}

#[test]
fn save_makes_pk_findable_by_index_exactly_once() {
    let mut bucket = IndexedBucket::new(b"buck");
    bucket.save(b"k1", &rec(b"fruit", b"apple")).unwrap();
    let pks = bucket.pks_by_index(b"fruit");
    assert_eq!(pks, vec![b"k1".to_vec()]);
}

#[test]
fn scenario_save_load_and_index() {
    let mut bucket = IndexedBucket::new(b"buck");
    bucket.save(b"k1", &rec(b"fruit", b"apple")).unwrap();
    assert_eq!(bucket.load(b"k1").unwrap().name, b"apple".to_vec());
    assert_eq!(bucket.pks_by_index(b"fruit"), vec![b"k1".to_vec()]);
}

#[test]
fn scenario_reindex_moves_pk() {
    let mut bucket = IndexedBucket::new(b"buck");
    bucket.save(b"k1", &rec(b"fruit", b"apple")).unwrap();
    bucket.save(b"k1", &rec(b"veg", b"apple")).unwrap();
    assert_eq!(bucket.pks_by_index(b"fruit"), Vec::<Vec<u8>>::new());
    assert_eq!(bucket.pks_by_index(b"veg"), vec![b"k1".to_vec()]);
}

#[test]
fn scenario_shared_index_ascending_and_order_independent() {
    let mut bucket = IndexedBucket::new(b"buck");
    bucket.save(b"k1", &rec(b"veg", b"apple")).unwrap();
    bucket.save(b"k2", &rec(b"veg", b"carrot")).unwrap();
    assert_eq!(bucket.pks_by_index(b"veg"), vec![b"k1".to_vec(), b"k2".to_vec()]);

    // inserting in the opposite order gives the same ascending answer
    let mut other = IndexedBucket::new(b"buck");
    other.save(b"k2", &rec(b"veg", b"carrot")).unwrap();
    other.save(b"k1", &rec(b"veg", b"apple")).unwrap();
    assert_eq!(other.pks_by_index(b"veg"), vec![b"k1".to_vec(), b"k2".to_vec()]);
}

#[test]
fn scenario_remove_updates_index() {
    let mut bucket = IndexedBucket::new(b"buck");
    bucket.save(b"k1", &rec(b"veg", b"apple")).unwrap();
    bucket.save(b"k2", &rec(b"veg", b"carrot")).unwrap();
    bucket.remove(b"k1").unwrap();
    assert!(bucket.may_load(b"k1").unwrap().is_none());
    assert_eq!(bucket.pks_by_index(b"veg"), vec![b"k2".to_vec()]);
}

#[test]
fn update_behaves_like_load_then_save() {
    let mut updated = IndexedBucket::new(b"buck");
    updated.save(b"k1", &rec(b"fruit", b"apple")).unwrap();
    let out = updated
        .update(b"k1", |old: Option<Record>| -> Result<Record, BucketError> {
            let old = old.unwrap();
            Ok(Record { category: b"veg".to_vec(), name: old.name })
        })
        .unwrap();
    assert_eq!(out.category, b"veg".to_vec());

    let mut manual = IndexedBucket::new(b"buck");
    manual.save(b"k1", &rec(b"fruit", b"apple")).unwrap();
    let old = manual.may_load(b"k1").unwrap().unwrap();
    manual.save(b"k1", &Record { category: b"veg".to_vec(), name: old.name }).unwrap();

    assert_eq!(updated.may_load(b"k1").unwrap().unwrap(), manual.may_load(b"k1").unwrap().unwrap());
    assert_eq!(updated.pks_by_index(b"fruit"), manual.pks_by_index(b"fruit"));
    assert_eq!(updated.pks_by_index(b"veg"), manual.pks_by_index(b"veg"));
}

#[test]
fn update_on_missing_key_gets_none() {
    let mut bucket = IndexedBucket::new(b"buck");
    let out = bucket
        .update(b"k1", |old: Option<Record>| -> Result<Record, BucketError> {
            assert!(old.is_none());
            Ok(rec(b"fruit", b"apple"))
        })
        .unwrap();
    assert_eq!(out.name, b"apple".to_vec());
    assert_eq!(bucket.pks_by_index(b"fruit"), vec![b"k1".to_vec()]);
}

#[test]
fn update_error_leaves_state_unchanged() {
    let mut bucket = IndexedBucket::new(b"buck");
    bucket.save(b"k1", &rec(b"fruit", b"apple")).unwrap();
    let out = bucket.update(b"k1", |_old: Option<Record>| -> Result<Record, u8> { Err(7) });
    assert_eq!(out.unwrap_err(), 7);
    assert_eq!(bucket.load(b"k1").unwrap().category, b"fruit".to_vec());
    assert_eq!(bucket.pks_by_index(b"fruit"), vec![b"k1".to_vec()]);
}

#[test]
fn range_visits_all_pks_in_byte_order() {
    let mut bucket = IndexedBucket::new(b"buck");
    bucket.save(b"bb", &rec(b"fruit", b"pear")).unwrap();
    bucket.save(b"aa", &rec(b"fruit", b"apple")).unwrap();
    bucket.save(b"cc", &rec(b"veg", b"leek")).unwrap();
    let ascending: Vec<Vec<u8>> =
        bucket.range(None, None, Order::Ascending).unwrap().into_iter().map(|p| p.0).collect();
    assert_eq!(ascending, vec![b"aa".to_vec(), b"bb".to_vec(), b"cc".to_vec()]);
    let descending: Vec<Vec<u8>> =
        bucket.range(None, None, Order::Descending).unwrap().into_iter().map(|p| p.0).collect();
    assert_eq!(descending, vec![b"cc".to_vec(), b"bb".to_vec(), b"aa".to_vec()]);
}

#[test]
fn range_respects_bounds() {
    let mut bucket = IndexedBucket::new(b"buck");
    bucket.save(b"aa", &rec(b"fruit", b"apple")).unwrap();
    bucket.save(b"bb", &rec(b"fruit", b"pear")).unwrap();
    bucket.save(b"cc", &rec(b"veg", b"leek")).unwrap();
    let window: Vec<Vec<u8>> = bucket
        .range(Some(b"ab"), Some(b"cc"), Order::Ascending)
        .unwrap()
        .into_iter()
        .map(|p| p.0)
        .collect();
    assert_eq!(window, vec![b"bb".to_vec()]);
}

#[test]
fn items_by_index_pairs_keys_with_records() {
    let mut bucket = IndexedBucket::new(b"buck");
    bucket.save(b"k1", &rec(b"veg", b"apple")).unwrap();
    bucket.save(b"k2", &rec(b"veg", b"carrot")).unwrap();
    bucket.save(b"k3", &rec(b"fruit", b"plum")).unwrap();
    let items = bucket.items_by_index(b"veg").unwrap();
    assert_eq!(items.len(), 2);
    assert_eq!(items[0].0, b"k1".to_vec());
    assert_eq!(items[0].1.name, b"apple".to_vec());
    assert_eq!(items[1].0, b"k2".to_vec());
    assert_eq!(items[1].1.name, b"carrot".to_vec());
}

#[test]
fn load_missing_key_is_not_found() {
    let bucket = IndexedBucket::new(b"buck");
    assert_eq!(bucket.load(b"absent").unwrap_err(), BucketError::NotFound);
}

#[test]
fn index_value_ending_in_maximum_byte_scans_correctly() {
    // the scan prefix for category [255] ends in the maximum byte, so a
    // naive last-byte increment would bound the scan wrongly
    let mut bucket = IndexedBucket::new(b"buck");
    bucket.save(b"ka", &rec(&[255], b"a")).unwrap();
    bucket.save(b"kb", &rec(&[255, 0], b"b")).unwrap();
    bucket.save(b"kc", &rec(&[254, 255], b"c")).unwrap();
    assert_eq!(bucket.pks_by_index(&[255]), vec![b"ka".to_vec()]);
    assert_eq!(bucket.pks_by_index(&[255, 0]), vec![b"kb".to_vec()]);
    assert_eq!(bucket.pks_by_index(&[254, 255]), vec![b"kc".to_vec()]);
}

#[test]
fn empty_primary_key_is_allowed() {
    let mut bucket = IndexedBucket::new(b"buck");
    bucket.save(b"", &rec(b"fruit", b"apple")).unwrap();
    assert_eq!(bucket.load(b"").unwrap().name, b"apple".to_vec());
    assert_eq!(bucket.pks_by_index(b"fruit"), vec![b"".to_vec()]);
}

#[test]
fn overwriting_same_index_keeps_one_entry() {
    let mut bucket = IndexedBucket::new(b"buck");
    bucket.save(b"k1", &rec(b"fruit", b"apple")).unwrap();
    bucket.save(b"k1", &rec(b"fruit", b"pear")).unwrap();
    assert_eq!(bucket.pks_by_index(b"fruit"), vec![b"k1".to_vec()]);
    assert_eq!(bucket.load(b"k1").unwrap().name, b"pear".to_vec());
}

#[test]
fn replace_with_correct_old_value_updates_index() {
    let mut bucket = IndexedBucket::new(b"buck");
    bucket.save(b"k1", &rec(b"fruit", b"apple")).unwrap();
    let old = bucket.may_load(b"k1").unwrap();
    bucket.replace(b"k1", Some(&rec(b"veg", b"apple")), old.as_ref()).unwrap();
    assert_eq!(bucket.pks_by_index(b"veg"), vec![b"k1".to_vec()]);
    assert_eq!(bucket.pks_by_index(b"fruit"), Vec::<Vec<u8>>::new());
    let old = bucket.may_load(b"k1").unwrap();
    bucket.replace(b"k1", None, old.as_ref()).unwrap();
    assert!(bucket.may_load(b"k1").unwrap().is_none());
    assert_eq!(bucket.pks_by_index(b"veg"), Vec::<Vec<u8>>::new());
}

#[test]
fn index_marker_writes_are_idempotent() {
    let mut bucket = IndexedBucket::new(b"buck");
    bucket.save(b"k1", &rec(b"fruit", b"apple")).unwrap();
    // writing the marker that is already present changes nothing
    bucket.add_to_index(b"fruit", b"k1");
    assert_eq!(bucket.pks_by_index(b"fruit"), vec![b"k1".to_vec()]);
    // deleting an absent marker changes nothing
    bucket.remove_from_index(b"veg", b"k1");
    assert_eq!(bucket.pks_by_index(b"fruit"), vec![b"k1".to_vec()]);
}

#[test]
fn distinct_namespaces_do_not_collide() {
    let mut left = IndexedBucket::new(b"one");
    left.save(b"k1", &rec(b"fruit", b"apple")).unwrap();
    let right = IndexedBucket::new(b"two");
    assert!(right.may_load(b"k1").unwrap().is_none());
}
