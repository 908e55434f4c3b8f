//! Server lifecycle: schemas and named databases; and grouped
//! reduction over a view.

use pliantdb::engine::{ContentsMapper, Db};
use pliantdb::error::Error;
use pliantdb::key::Key;
use pliantdb::names::{CollectionName, SchemaName, ViewName};
use pliantdb::query::{AccessPolicy, Sort};
use pliantdb::reduce::SumReducer;
use pliantdb::storage::Storage;

fn shop_schema() -> SchemaName {
    SchemaName::new("shop".to_string(), "v1".to_string()).unwrap()
}

#[test]
fn database_lifecycle() {
    let mut storage: Storage<ContentsMapper> = Storage::new();
    storage.register_schema(shop_schema()).unwrap();

    // Registering a second spelling of the same schema is refused.
    let shouting = SchemaName::new("SHOP".to_string(), "V1".to_string()).unwrap();
    assert!(matches!(
        storage.register_schema(shouting),
        Err(Error::SchemaAlreadyRegistered(_))
    ));

    storage
        .create_database("orders-db", &shop_schema(), ContentsMapper {}, false)
        .unwrap();

    // Database names are unique without regard to case.
    assert!(matches!(
        storage.create_database("ORDERS-DB", &shop_schema(), ContentsMapper {}, false),
        Err(Error::DatabaseNameAlreadyTaken(_))
    ));
    // Unless the caller only needs it to exist.
    storage
        .create_database("ORDERS-DB", &shop_schema(), ContentsMapper {}, true)
        .unwrap();

    // An invalid name and an unknown schema are refused.
    assert!(matches!(
        storage.create_database(".bad", &shop_schema(), ContentsMapper {}, false),
        Err(Error::InvalidDatabaseName(_))
    ));
    let stranger = SchemaName::new("other".to_string(), "v9".to_string()).unwrap();
    assert!(matches!(
        storage.create_database("fresh", &stranger, ContentsMapper {}, false),
        Err(Error::SchemaNotRegistered(_))
    ));

    // Opening checks the stored schema.
    assert!(storage.database("orders-db", &shop_schema()).is_ok());
    storage.register_schema(stranger.clone()).unwrap();
    assert!(matches!(
        storage.database("orders-db", &stranger),
        Err(Error::SchemaMismatch { .. })
    ));
    assert!(matches!(
        storage.database("gone", &shop_schema()),
        Err(Error::DatabaseNotFound(_))
    ));

    assert_eq!(storage.list_databases().len(), 1);
    assert_eq!(storage.list_available_schemas().len(), 2);

    // Writing goes through the engine of the stored database.
    let orders = CollectionName::new("shop".to_string(), "orders".to_string()).unwrap();
    {
        let db = storage.database_mut("orders-db").unwrap();
        db.define_collection(orders.clone()).unwrap();
        db.insert(&orders, None, b"first".to_vec(), 1).unwrap();
    }
    let held = storage.database("orders-db", &shop_schema()).unwrap();
    assert!(held.db.get(&orders, 1).unwrap().is_some());

    storage.delete_database("orders-db").unwrap();
    assert!(matches!(
        storage.database("orders-db", &shop_schema()),
        Err(Error::DatabaseNotFound(_))
    ));
}

#[test]
fn reduce_grouped_counts_by_key() {
    let mut db = Db::new(ContentsMapper {});
    let posts = CollectionName::new("blog".to_string(), "posts".to_string()).unwrap();
    let posts_at = db.define_collection(posts.clone()).unwrap();
    let by_tag = ViewName::new(posts.clone(), "by_tag".to_string()).unwrap();
    let view = db.define_view(by_tag, posts_at, false, 1).unwrap();

    for tag in [b"a", b"a", b"b", b"c", b"b", b"a"] {
        db.insert(&posts, None, tag.to_vec(), 1).unwrap();
    }

    let groups = db
        .reduce_grouped(&SumReducer {}, view, None, AccessPolicy::UpdateBefore)
        .unwrap();
    let readable: Vec<(Vec<u8>, u64)> = groups
        .iter()
        .map(|g| (g.key.clone(), u64::from_big_endian_bytes(&g.value).unwrap()))
        .collect();
    assert_eq!(
        readable,
        vec![(b"a".to_vec(), 3), (b"b".to_vec(), 2), (b"c".to_vec(), 1)]
    );

    // The global reduction counts every entry.
    let total = db.reduce(&SumReducer {}, view, None, AccessPolicy::UpdateBefore).unwrap();
    assert_eq!(u64::from_big_endian_bytes(&total).unwrap(), 6);

    // A query in descending order reverses the keys.
    let entries = db.query(view, None, Sort::Descending, Some(1), AccessPolicy::UpdateAfter).unwrap();
    assert_eq!(entries[0].key, b"c".to_vec());
}
