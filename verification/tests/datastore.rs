use ipfs_bitswap::datastore::{Column, DataStoreRequest, RocksDataStore};
use ipfs_bitswap::fs::{Error, IoFailure};
use std::collections::HashMap;

/// Stands for the database: carries a request out on a map.
fn carry_out(
    db: &mut HashMap<(String, Vec<u8>), Vec<u8>>,
    request: DataStoreRequest,
) -> Result<Option<Vec<u8>>, String> {
    match request {
        DataStoreRequest::Open { .. } => Ok(None),
        DataStoreRequest::Get { column, key } => Ok(db.get(&(column.to_string(), key)).cloned()),
        DataStoreRequest::Put { column, key, value } => {
            db.insert((column.to_string(), key), value);
            Ok(None)
        }
        DataStoreRequest::Delete { column, key } => {
            db.remove(&(column.to_string(), key));
            Ok(None)
        }
    }
}

#[test]
fn test_rocks_datastore() {
    let mut db = HashMap::new();
    let mut store = RocksDataStore::new("datastore1".to_string());

    let col = Column::Ipns;
    let key = [1, 2, 3, 4];
    let value = [5, 6, 7, 8];

    assert_eq!(store.init().unwrap(), ());
    assert!(!store.opened());
    let outcome = carry_out(&mut db, store.open()).map(|_| ());
    assert_eq!(store.completed_open(outcome).unwrap(), ());
    assert!(store.opened());

    let outcome = carry_out(&mut db, store.contains(col, &key));
    assert_eq!(store.completed_contains(outcome).unwrap(), false);
    let outcome = carry_out(&mut db, store.get(col, &key));
    assert_eq!(store.completed_get(outcome).unwrap(), None);
    let outcome = carry_out(&mut db, store.remove(col, &key)).map(|_| ());
    assert_eq!(store.completed_write(outcome).unwrap(), ());

    let outcome = carry_out(&mut db, store.put(col, &key, &value)).map(|_| ());
    assert_eq!(store.completed_write(outcome).unwrap(), ());
    let outcome = carry_out(&mut db, store.contains(col, &key));
    assert_eq!(store.completed_contains(outcome).unwrap(), true);
    let outcome = carry_out(&mut db, store.get(col, &key));
    assert_eq!(store.completed_get(outcome).unwrap(), Some(value.to_vec()));

    let outcome = carry_out(&mut db, store.remove(col, &key)).map(|_| ());
    assert_eq!(store.completed_write(outcome).unwrap(), ());
    let outcome = carry_out(&mut db, store.contains(col, &key));
    assert_eq!(store.completed_contains(outcome).unwrap(), false);
    let outcome = carry_out(&mut db, store.get(col, &key));
    assert_eq!(store.completed_get(outcome).unwrap(), None);
}

#[test]
fn requests_name_the_column() {
    assert_eq!(Column::Ipns.resolve(), "ipns");
    let mut store = RocksDataStore::new("db".to_string());
    assert_eq!(
        store.open(),
        DataStoreRequest::Open {
            path: "db".to_string(),
            columns: vec!["ipns"],
            create_if_missing: true,
            create_missing_column_families: true,
        }
    );
    store.completed_open(Ok(())).unwrap();
    assert_eq!(
        store.get(Column::Ipns, &[1]),
        DataStoreRequest::Get { column: "ipns", key: vec![1] }
    );
    assert_eq!(
        store.contains(Column::Ipns, &[1]),
        DataStoreRequest::Get { column: "ipns", key: vec![1] }
    );
    assert_eq!(
        store.put(Column::Ipns, &[1], &[2, 3]),
        DataStoreRequest::Put { column: "ipns", key: vec![1], value: vec![2, 3] }
    );
    assert_eq!(
        store.remove(Column::Ipns, &[1]),
        DataStoreRequest::Delete { column: "ipns", key: vec![1] }
    );
}

#[test]
fn failures_of_the_database_are_handed_on() {
    let mut store = RocksDataStore::new("db".to_string());
    let failed = Error::Io(IoFailure::Other("corrupt".to_string()));
    assert_eq!(store.completed_open(Err("corrupt".to_string())), Err(failed.clone()));
    assert!(!store.opened());
    assert_eq!(store.completed_contains(Err("corrupt".to_string())), Err(failed.clone()));
    assert_eq!(store.completed_get(Err("corrupt".to_string())), Err(failed.clone()));
    assert_eq!(store.completed_write(Err("corrupt".to_string())), Err(failed));
    assert_eq!(store.completed_contains(Ok(Some(Vec::new()))), Ok(true));
}
