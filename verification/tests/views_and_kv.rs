//! Views: unique-key enforcement and key-ordered queries; and the
//! key-value sidestore.

use pliantdb::engine::{ContentsMapper, Db};
use pliantdb::error::Error;
use pliantdb::key::Key;
use pliantdb::kv::{KeyCheck, KvError, KvStore, Value};
use pliantdb::names::{CollectionName, ViewName};
use pliantdb::query::{AccessPolicy, Bound, QueryKey, Range, Sort};
use pliantdb::transaction::{Operation, Transaction};

fn users() -> CollectionName {
    CollectionName::new("app".to_string(), "users".to_string()).unwrap()
}

fn by_email() -> ViewName {
    ViewName::new(users(), "by_email".to_string()).unwrap()
}

#[test]
fn unique_view_refuses_shared_keys() {
    let mut db = Db::new(ContentsMapper {});
    let users_at = db.define_collection(users()).unwrap();
    db.define_view(by_email(), users_at, true, 1).unwrap();
    let a = db.insert(&users(), None, b"a@x".to_vec(), 1).unwrap();

    // One transaction inserts B with A's email and C with a fresh one.
    let mut tx = Transaction::new();
    tx.push(Operation::Insert { collection: users(), id: Some(50), contents: b"a@x".to_vec() });
    tx.push(Operation::Insert { collection: users(), id: Some(51), contents: b"c@x".to_vec() });
    match db.apply_transaction(&tx, 2) {
        Err(Error::UniqueKeyViolation { view, conflicting_document_id, existing_document_id }) => {
            assert_eq!(view.name, "by_email");
            assert_eq!(existing_document_id, a.id);
            assert_eq!(conflicting_document_id, 50);
        },
        other => panic!("expected a unique key violation, not {:?}", other.is_ok()),
    }
    // Neither B nor C exists.
    assert!(db.get(&users(), 50).unwrap().is_none());
    assert!(db.get(&users(), 51).unwrap().is_none());
}

#[test]
fn unique_view_definition_is_checked_against_existing_documents() {
    let mut db = Db::new(ContentsMapper {});
    let users_at = db.define_collection(users()).unwrap();
    db.insert(&users(), None, b"dup".to_vec(), 1).unwrap();
    db.insert(&users(), None, b"dup".to_vec(), 2).unwrap();
    // A unique view cannot be registered over documents that already
    // share a key; a plain view can.
    assert!(matches!(
        db.define_view(by_email(), users_at, true, 1),
        Err(Error::UniqueKeyViolation { .. })
    ));
    let plain = ViewName::new(users(), "by_anything".to_string()).unwrap();
    db.define_view(plain, users_at, false, 1).unwrap();
}

#[test]
fn query_with_docs_joins_entries_with_their_documents() {
    let mut db = Db::new(ContentsMapper {});
    let games_at = db.define_collection(games()).unwrap();
    let by_score = ViewName::new(games(), "by_score".to_string()).unwrap();
    let view = db.define_view(by_score, games_at, false, 1).unwrap();
    for score in [9u32, 4, 6] {
        db.insert(&games(), None, score.as_big_endian_bytes().unwrap(), 1).unwrap();
    }
    let joined = db
        .query_with_docs(view, None, Sort::Ascending, None, AccessPolicy::UpdateBefore)
        .unwrap();
    assert_eq!(joined.len(), 3);
    for hit in &joined {
        // The joined document is the very one that emitted the entry.
        assert_eq!(hit.document.contents, hit.key);
    }
    assert_eq!(
        u32::from_big_endian_bytes(&joined[0].key).unwrap(),
        4
    );
}

#[test]
fn std_ranges_convert_into_key_ranges() {
    let range = Range::from(3u64..9);
    assert!(matches!(range.start, Bound::Included(3)));
    assert!(matches!(range.end, Bound::Excluded(9)));
    let from = Range::from(3u64..);
    assert!(matches!(from.start, Bound::Included(3)));
    assert!(matches!(from.end, Bound::Unbounded));
    let to = Range::from(..9u64);
    assert!(matches!(to.start, Bound::Unbounded));
    assert!(matches!(to.end, Bound::Excluded(9)));
    let to_inclusive = Range::from(..=9u64);
    assert!(matches!(to_inclusive.end, Bound::Included(9)));
    let all = Range::<u64>::from(..);
    assert!(matches!(all.start, Bound::Unbounded));
    assert!(matches!(all.end, Bound::Unbounded));
}

#[test]
fn unique_view_allows_distinct_keys() {
    let mut db = Db::new(ContentsMapper {});
    let users_at = db.define_collection(users()).unwrap();
    db.define_view(by_email(), users_at, true, 1).unwrap();
    db.insert(&users(), None, b"a@x".to_vec(), 1).unwrap();
    db.insert(&users(), None, b"b@x".to_vec(), 2).unwrap();
    assert_eq!(db.last_transaction_id(), Some(2));
}

fn games() -> CollectionName {
    CollectionName::new("app".to_string(), "games".to_string()).unwrap()
}

#[test]
fn range_query_returns_sources_in_key_order() {
    let mut db = Db::new(ContentsMapper {});
    let games_at = db.define_collection(games()).unwrap();
    let by_score = ViewName::new(games(), "by_score".to_string()).unwrap();
    let view = db.define_view(by_score, games_at, false, 1).unwrap();

    let mut when: i64 = 0;
    for score in [1u32, 2, 1_000_000, 42] {
        when += 1;
        let contents = score.as_big_endian_bytes().unwrap();
        db.insert(&games(), None, contents, when).unwrap();
    }

    let filter = Some(QueryKey::Range(Range {
        start: Bound::Included(2u32.as_big_endian_bytes().unwrap()),
        end: Bound::Excluded(1_000_000u32.as_big_endian_bytes().unwrap()),
    }));
    let hits = db
        .query(view, filter.clone(), Sort::Ascending, None, AccessPolicy::UpdateBefore)
        .unwrap();
    let scores: Vec<u32> = hits
        .iter()
        .map(|entry| u32::from_big_endian_bytes(&entry.key).unwrap())
        .collect();
    assert_eq!(scores, vec![2, 42]);

    let reversed = db
        .query(view, filter, Sort::Descending, None, AccessPolicy::NoUpdate)
        .unwrap();
    let scores: Vec<u32> = reversed
        .iter()
        .map(|entry| u32::from_big_endian_bytes(&entry.key).unwrap())
        .collect();
    assert_eq!(scores, vec![42, 2]);
}

#[test]
fn query_observes_every_committed_transaction() {
    let mut db = Db::new(ContentsMapper {});
    let games_at = db.define_collection(games()).unwrap();
    let by_score = ViewName::new(games(), "all".to_string()).unwrap();
    let view = db.define_view(by_score, games_at, false, 1).unwrap();
    let mut seen: usize = 0;
    for round in 1..=10u64 {
        db.insert(&games(), None, round.as_big_endian_bytes().unwrap(), round as i64).unwrap();
        let hits = db.query(view, None, Sort::Ascending, None, AccessPolicy::UpdateBefore).unwrap();
        assert!(hits.len() > seen);
        seen = hits.len();
        assert_eq!(seen as u64, db.last_transaction_id().unwrap());
    }
}

#[test]
fn delete_docs_removes_matching_sources() {
    let mut db = Db::new(ContentsMapper {});
    let games_at = db.define_collection(games()).unwrap();
    let by_score = ViewName::new(games(), "by_score".to_string()).unwrap();
    let view = db.define_view(by_score, games_at, false, 1).unwrap();
    for score in [5u32, 6, 7] {
        db.insert(&games(), None, score.as_big_endian_bytes().unwrap(), 1).unwrap();
    }
    let filter = Some(QueryKey::Matches(6u32.as_big_endian_bytes().unwrap()));
    let removed = db.delete_docs(view, filter, AccessPolicy::UpdateBefore, 9).unwrap();
    assert_eq!(removed, 1);
    let left = db.query(view, None, Sort::Ascending, None, AccessPolicy::UpdateBefore).unwrap();
    assert_eq!(left.len(), 2);
}

#[test]
fn view_query_builder_runs_against_the_engine() {
    let mut db = Db::new(ContentsMapper {});
    let games_at = db.define_collection(games()).unwrap();
    let by_score = ViewName::new(games(), "by_score".to_string()).unwrap();
    let view = db.define_view(by_score, games_at, false, 1).unwrap();
    for score in [3u32, 1, 2] {
        db.insert(&games(), None, score.as_big_endian_bytes().unwrap(), 1).unwrap();
    }

    let hits = pliantdb::connection::ViewQuery::new(&db)
        .with_key_range(Range { start: Bound::Included(2u32), end: Bound::Unbounded })
        .descending()
        .limit(2)
        .query(view)
        .unwrap();
    let scores: Vec<u32> = hits
        .iter()
        .map(|entry| u32::from_big_endian_bytes(&entry.key).unwrap())
        .collect();
    assert_eq!(scores, vec![3, 2]);

    let exact = pliantdb::connection::ViewQuery::new(&db)
        .with_key(1u32)
        .query(view)
        .unwrap();
    assert_eq!(exact.len(), 1);
}

#[test]
fn kv_set_get_and_conditions() {
    let mut kv = KvStore::new();
    assert!(matches!(kv.set("ns", "greeting", Value::Bytes(b"hi".to_vec()), None, None, false, 0), Ok(None)));
    match kv.get("ns", "greeting", false, 1) {
        Some(Value::Bytes(b)) => assert_eq!(b, b"hi".to_vec()),
        other => panic!("expected the blob back, not {:?}", other.is_some()),
    }
    // A vacancy condition is refused where a live value stands.
    assert!(matches!(
        kv.set("ns", "greeting", Value::Numeric(1), None, Some(KeyCheck::OnlyIfVacant), false, 1),
        Err(KvError::KeyExists)
    ));
    // A presence condition is refused where none does.
    assert!(matches!(
        kv.set("ns", "absent", Value::Numeric(1), None, Some(KeyCheck::OnlyIfPresent), false, 1),
        Err(KvError::MissingKey)
    ));
    // Namespaces keep keys apart.
    assert!(kv.get("other", "greeting", false, 1).is_none());
}

#[test]
fn kv_expiration_hides_values() {
    let mut kv = KvStore::new();
    kv.set("ns", "ttl", Value::Numeric(5), Some(100), None, false, 0).unwrap();
    assert!(kv.get("ns", "ttl", false, 99).is_some());
    assert!(kv.get("ns", "ttl", false, 100).is_none());
    // A new set replaces the expired entry and its expiration.
    kv.set("ns", "ttl", Value::Numeric(6), None, None, false, 150).unwrap();
    assert!(kv.get("ns", "ttl", false, 1_000_000).is_some());
}

#[test]
fn kv_get_can_tombstone() {
    let mut kv = KvStore::new();
    kv.set("ns", "once", Value::Numeric(1), None, None, false, 0).unwrap();
    assert!(kv.get("ns", "once", true, 1).is_some());
    assert!(kv.get("ns", "once", false, 1).is_none());
    assert!(!kv.delete("ns", "once"));
}

#[test]
fn kv_increment_and_decrement() {
    let mut kv = KvStore::new();
    // A missing key counts from zero, and the count is stored.
    assert_eq!(kv.decrement("ns", "fresh", 4, false, 0), Ok(-4));
    assert!(matches!(kv.get("ns", "fresh", false, 0), Some(Value::Numeric(-4))));
    assert_eq!(kv.increment("ns", "n", 5, false, 0), Ok(5));
    assert_eq!(kv.increment("ns", "n", 2, false, 0), Ok(7));
    assert_eq!(kv.decrement("ns", "n", 10, false, 0), Ok(-3));
    // Saturating arithmetic sticks at the ends.
    kv.set("ns", "big", Value::Numeric(i64::MAX), None, None, false, 0).unwrap();
    assert_eq!(kv.increment("ns", "big", 1, true, 0), Ok(i64::MAX));
    // Wrapping arithmetic wraps.
    assert_eq!(kv.increment("ns", "big", 1, false, 0), Ok(i64::MIN));
    // A blob refuses numeric arithmetic.
    kv.set("ns", "blob", Value::Bytes(vec![1]), None, None, false, 0).unwrap();
    assert_eq!(kv.increment("ns", "blob", 1, false, 0), Err(KvError::ValueKindMismatch));
}

#[test]
fn kv_compaction_drops_expired_entries() {
    let mut kv = KvStore::new();
    kv.set("ns", "stays", Value::Numeric(1), None, None, false, 0).unwrap();
    kv.set("ns", "goes", Value::Numeric(2), Some(10), None, false, 0).unwrap();
    kv.compact(50);
    assert!(kv.get("ns", "stays", false, 50).is_some());
    assert!(kv.get("ns", "goes", false, 5).is_none());
}

#[test]
fn kv_set_returns_previous_value() {
    let mut kv = KvStore::new();
    kv.set("ns", "k", Value::Numeric(1), None, None, false, 0).unwrap();
    match kv.set("ns", "k", Value::Numeric(2), None, None, true, 0) {
        Ok(Some(Value::Numeric(n))) => assert_eq!(n, 1),
        other => panic!("expected the previous number, not {:?}", other.is_ok()),
    }
}
