//! Transactions: ids, revisions, atomicity, conflicts.

use pliantdb::engine::{ContentsMapper, Db};
use pliantdb::error::Error;
use pliantdb::names::CollectionName;
use pliantdb::transaction::{Operation, Transaction};

fn orders() -> CollectionName {
    CollectionName::new("shop".to_string(), "orders".to_string()).unwrap()
}

fn db_with_orders() -> Db<ContentsMapper> {
    let mut db = Db::new(ContentsMapper {});
    db.define_collection(orders()).unwrap();
    db
}

#[test]
fn insert_and_get_round_trip() {
    let mut db = db_with_orders();
    let header = db
        .insert(&orders(), None, b"{\"sku\":\"A\",\"qty\":3}".to_vec(), 10)
        .unwrap();
    assert_eq!(header.id, 1);
    assert_eq!(header.revision.sequence, 1);
    let fetched = db.get(&orders(), 1).unwrap().unwrap();
    assert_eq!(fetched.contents, b"{\"sku\":\"A\",\"qty\":3}".to_vec());
    assert_eq!(fetched.header.id, 1);
}

#[test]
fn transaction_ids_are_monotonic_and_gap_free() {
    let mut db = db_with_orders();
    db.insert(&orders(), None, b"one".to_vec(), 1).unwrap();
    db.insert(&orders(), None, b"two".to_vec(), 2).unwrap();
    db.insert(&orders(), None, b"three".to_vec(), 3).unwrap();
    assert_eq!(db.last_transaction_id(), Some(3));
    let executed = db.list_executed_transactions(None, None).unwrap();
    let ids: Vec<u64> = executed.iter().map(|e| e.transaction_id).collect();
    assert_eq!(ids, vec![1, 2, 3]);
    let from_two = db.list_executed_transactions(Some(2), None).unwrap();
    assert_eq!(from_two[0].transaction_id, 2);
    let capped = db.list_executed_transactions(None, Some(2)).unwrap();
    assert_eq!(capped.len(), 2);
}

#[test]
fn revisions_grow_by_one_per_update() {
    let mut db = db_with_orders();
    let first = db.insert(&orders(), None, b"v1".to_vec(), 1).unwrap();
    assert_eq!(first.revision.sequence, 1);
    let second = db.update(&first, b"v2".to_vec(), 2).unwrap();
    assert_eq!(second.revision.sequence, 2);
    let third = db.update(&second, b"v3".to_vec(), 3).unwrap();
    assert_eq!(third.revision.sequence, 3);
}

#[test]
fn optimistic_conflict_on_stale_revision() {
    let mut db = db_with_orders();
    let stale = db.insert(&orders(), Some(7), b"original".to_vec(), 1).unwrap();
    let fresh = db.update(&stale, b"from x".to_vec(), 2).unwrap();
    // A second writer still holding the old revision is refused.
    match db.update(&stale, b"from y".to_vec(), 3) {
        Err(Error::DocumentConflict(collection, id)) => {
            assert_eq!(collection.name, "orders");
            assert_eq!(id, 7);
        },
        other => panic!("expected a conflict, not {:?}", other.map(|h| h.id)),
    }
    // The first writer's contents stand.
    let fetched = db.get(&orders(), 7).unwrap().unwrap();
    assert_eq!(fetched.contents, b"from x".to_vec());
    assert_eq!(fetched.header.revision, fresh.revision);
}

#[test]
fn idempotent_insert_with_id() {
    let mut db = db_with_orders();
    db.insert(&orders(), Some(4), b"first".to_vec(), 1).unwrap();
    match db.insert(&orders(), Some(4), b"second".to_vec(), 2) {
        Err(Error::DocumentConflict(_, id)) => assert_eq!(id, 4),
        other => panic!("expected a conflict, not {:?}", other.map(|h| h.id)),
    }
    // Exactly one document exists, holding the first write.
    let all = db.list(&orders(), pliantdb::query::Range {
        start: pliantdb::query::Bound::Unbounded,
        end: pliantdb::query::Bound::Unbounded,
    }, pliantdb::query::Sort::Ascending, None).unwrap();
    assert_eq!(all.len(), 1);
    assert_eq!(all[0].contents, b"first".to_vec());
}

#[test]
fn failed_transaction_leaves_no_trace() {
    let mut db = db_with_orders();
    let header = db.insert(&orders(), Some(1), b"kept".to_vec(), 1).unwrap();
    // A batch whose second operation conflicts must apply nothing.
    let mut tx = Transaction::new();
    tx.push(Operation::Insert { collection: orders(), id: Some(2), contents: b"phantom".to_vec() });
    tx.push(Operation::Insert { collection: orders(), id: Some(1), contents: b"clash".to_vec() });
    assert!(db.apply_transaction(&tx, 5).is_err());
    assert!(db.get(&orders(), 2).unwrap().is_none());
    let survivor = db.get(&orders(), 1).unwrap().unwrap();
    assert_eq!(survivor.contents, b"kept".to_vec());
    assert_eq!(survivor.header.revision, header.revision);
    assert_eq!(db.last_transaction_id(), Some(1));
}

#[test]
fn operations_in_a_batch_see_earlier_writes() {
    let mut db = db_with_orders();
    let header = db.insert(&orders(), Some(9), b"a".to_vec(), 1).unwrap();
    let mut tx = Transaction::new();
    tx.push(Operation::Update { header: header.clone(), contents: b"b".to_vec() });
    tx.push(Operation::Delete { header });
    // The delete names the pre-transaction revision, but the update
    // before it in the batch has already moved the document on.
    assert!(db.apply_transaction(&tx, 2).is_err());
    assert_eq!(db.get(&orders(), 9).unwrap().unwrap().contents, b"a".to_vec());
}

#[test]
fn unknown_collection_is_refused() {
    let mut db = db_with_orders();
    let stray = CollectionName::new("shop".to_string(), "carts".to_string()).unwrap();
    assert!(matches!(
        db.insert(&stray, None, b"x".to_vec(), 1),
        Err(Error::CollectionNotFound)
    ));
}

#[test]
fn collection_names_are_unique_ignoring_case() {
    let mut db = Db::new(ContentsMapper {});
    db.define_collection(orders()).unwrap();
    let shouting = CollectionName::new("SHOP".to_string(), "Orders".to_string()).unwrap();
    assert!(matches!(
        db.define_collection(shouting),
        Err(Error::CollectionAlreadyDefined)
    ));
}

#[test]
fn get_multiple_skips_missing_ids() {
    let mut db = db_with_orders();
    db.insert(&orders(), Some(1), b"one".to_vec(), 1).unwrap();
    db.insert(&orders(), Some(3), b"three".to_vec(), 2).unwrap();
    let found = db.get_multiple(&orders(), &vec![3, 2, 1]).unwrap();
    assert_eq!(found.len(), 2);
    assert_eq!(found[0].contents, b"three".to_vec());
    assert_eq!(found[1].contents, b"one".to_vec());
}

#[test]
fn list_orders_and_caps() {
    let mut db = db_with_orders();
    for i in 1..=5u64 {
        db.insert(&orders(), Some(i), vec![i as u8], i as i64).unwrap();
    }
    let range = pliantdb::query::Range {
        start: pliantdb::query::Bound::Included(2),
        end: pliantdb::query::Bound::Excluded(5),
    };
    let ascending = db.list(&orders(), range, pliantdb::query::Sort::Ascending, None).unwrap();
    let ids: Vec<u64> = ascending.iter().map(|d| d.header.id).collect();
    assert_eq!(ids, vec![2, 3, 4]);
    let descending = db
        .list(&orders(), range, pliantdb::query::Sort::Descending, Some(2))
        .unwrap();
    let ids: Vec<u64> = descending.iter().map(|d| d.header.id).collect();
    assert_eq!(ids, vec![4, 3]);
}
