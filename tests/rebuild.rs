use std::sync::Arc;

use arrow::array::{ArrayRef, StringArray};
use arrow::record_batch::RecordBatch;
use parquet::arrow::ArrowWriter;
use parquet::file::metadata::{KeyValue, ParquetMetaData};
use parquet::file::properties::WriterProperties;

use parquet_file::catalog::{transaction_location, CatalogError, PreservedCatalog};
use parquet_file::metadata::IoxMetadata;
use parquet_file::path::ObjectPath;
use parquet_file::rebuild::{rebuild_catalog, Error};
use parquet_file::storage::{metadata_key_value, ServerId, Storage};
use parquet_file::store::InMemoryStore;

fn parquet_bytes(metadata: Option<&IoxMetadata>) -> Vec<u8> {
    let array = StringArray::from(vec!["foo", "bar", "baz"]);
    let batch = RecordBatch::try_from_iter(vec![("col", Arc::new(array) as ArrayRef)]).unwrap();
    let props = metadata.map(|m| {
        let (key, value) = metadata_key_value(m);
        WriterProperties::builder()
            .set_key_value_metadata(Some(vec![KeyValue::new(key, value)]))
            .build()
    });
    let mut buf: Vec<u8> = Vec::new();
    let mut writer = ArrowWriter::try_new(&mut buf, batch.schema(), props).unwrap();
    writer.write(&batch).unwrap();
    writer.close().unwrap();
    buf
}

fn make_server_id() -> ServerId {
    ServerId::new(1).unwrap()
}

fn create_parquet_file(
    store: &mut InMemoryStore,
    server_id: ServerId,
    db_name: &str,
    transaction_revision_counter: u64,
    transaction_uuid: u128,
    chunk_id: u32,
) -> (ObjectPath, ParquetMetaData) {
    let storage = Storage::new(server_id, db_name.to_string());
    let metadata = IoxMetadata {
        transaction_revision_counter,
        transaction_uuid,
    };
    storage
        .write_to_object_store(
            store,
            "part1".to_string(),
            chunk_id,
            "table1".to_string(),
            parquet_bytes(Some(&metadata)),
        )
        .unwrap()
}

fn create_parquet_file_without_metadata(
    store: &mut InMemoryStore,
    server_id: ServerId,
    db_name: &str,
    chunk_id: u32,
) {
    let storage = Storage::new(server_id, db_name.to_string());
    let path = storage.location("part1".to_string(), chunk_id, "table1".to_string());
    storage.to_object_store(store, parquet_bytes(None), &path);
}

fn sorted_keys(catalog: &PreservedCatalog<ParquetMetaData>) -> Vec<String> {
    let mut keys: Vec<String> = catalog
        .state()
        .paths()
        .iter()
        .map(|p| p.display())
        .collect();
    keys.sort();
    keys
}

fn expect_err<T>(r: Result<T, Error>) -> Error {
    match r {
        Ok(_) => panic!("rebuild succeeded"),
        Err(e) => e,
    }
}

fn random_uuid() -> u128 {
    uuid::Uuid::new_v4().as_u128()
}

#[test]
fn test_rebuild_successfull() {
    let mut store = InMemoryStore::new();
    let server_id = make_server_id();
    let db_name = "db1";

    // build catalog with some data
    let catalog: PreservedCatalog<ParquetMetaData> =
        PreservedCatalog::new_empty(&store, server_id, db_name.to_string()).unwrap();
    let mut transaction = catalog.open_transaction();
    let (path, md) = create_parquet_file(
        &mut store,
        server_id,
        db_name,
        transaction.revision_counter(),
        transaction.uuid(),
        0,
    );
    transaction.add_parquet(&path, md).unwrap();
    let (path, md) = create_parquet_file(
        &mut store,
        server_id,
        db_name,
        transaction.revision_counter(),
        transaction.uuid(),
        1,
    );
    transaction.add_parquet(&path, md).unwrap();
    let catalog = transaction.commit(&mut store);

    // empty transaction
    let transaction = catalog.open_transaction();
    let catalog = transaction.commit(&mut store);

    let mut transaction = catalog.open_transaction();
    let (path, md) = create_parquet_file(
        &mut store,
        server_id,
        db_name,
        transaction.revision_counter(),
        transaction.uuid(),
        2,
    );
    transaction.add_parquet(&path, md).unwrap();
    let catalog = transaction.commit(&mut store);

    // store catalog state
    let paths_expected = sorted_keys(&catalog);

    // wipe catalog
    drop(catalog);
    PreservedCatalog::<ParquetMetaData>::wipe(&mut store, server_id, &db_name.to_string());

    // rebuild
    let path = ObjectPath::root();
    let catalog =
        rebuild_catalog(&mut store, &path, server_id, db_name.to_string(), false).ok().unwrap();

    // check match
    let paths_actual = sorted_keys(&catalog);
    assert_eq!(paths_actual, paths_expected);
    assert_eq!(catalog.revision_counter(), 3);
}

#[test]
fn test_rebuild_empty() {
    let mut store = InMemoryStore::new();
    let server_id = make_server_id();
    let db_name = "db1";

    // build empty catalog
    let catalog: PreservedCatalog<ParquetMetaData> =
        PreservedCatalog::new_empty(&store, server_id, db_name.to_string()).unwrap();

    // wipe catalog
    drop(catalog);
    PreservedCatalog::<ParquetMetaData>::wipe(&mut store, server_id, &db_name.to_string());

    // rebuild
    let path = ObjectPath::root();
    let catalog =
        rebuild_catalog(&mut store, &path, server_id, db_name.to_string(), false).ok().unwrap();

    // check match
    assert!(catalog.state().paths().is_empty());
    assert_eq!(catalog.revision_counter(), 0);
}

#[test]
fn test_rebuild_fail_transaction_zero() {
    let mut store = InMemoryStore::new();
    let server_id = make_server_id();
    let db_name = "db1";

    // build catalog with same data
    let catalog: PreservedCatalog<ParquetMetaData> =
        PreservedCatalog::new_empty(&store, server_id, db_name.to_string()).unwrap();

    // file with illegal revision counter (zero is always an empty transaction)
    create_parquet_file(&mut store, server_id, db_name, 0, random_uuid(), 0);

    // wipe catalog
    drop(catalog);
    PreservedCatalog::<ParquetMetaData>::wipe(&mut store, server_id, &db_name.to_string());

    // rebuild
    let path = ObjectPath::root();
    let res = rebuild_catalog(&mut store, &path, server_id, db_name.to_string(), false);
    assert!(expect_err(res).message().starts_with(
        "Internal error: Revision cannot be zero (this transaction is always empty):"
    ));
}

#[test]
fn test_rebuild_fail_duplicate_transaction_uuid() {
    let mut store = InMemoryStore::new();
    let server_id = make_server_id();
    let db_name = "db1";

    // build catalog with same data
    let catalog: PreservedCatalog<ParquetMetaData> =
        PreservedCatalog::new_empty(&store, server_id, db_name.to_string()).unwrap();
    let mut transaction = catalog.open_transaction();
    let (path, md) = create_parquet_file(
        &mut store,
        server_id,
        db_name,
        transaction.revision_counter(),
        transaction.uuid(),
        0,
    );
    transaction.add_parquet(&path, md).unwrap();

    // create parquet file with wrong UUID
    create_parquet_file(
        &mut store,
        server_id,
        db_name,
        transaction.revision_counter(),
        random_uuid(),
        1,
    );
    let catalog = transaction.commit(&mut store);

    // wipe catalog
    drop(catalog);
    PreservedCatalog::<ParquetMetaData>::wipe(&mut store, server_id, &db_name.to_string());

    // rebuild
    let path = ObjectPath::root();
    let res = rebuild_catalog(&mut store, &path, server_id, db_name.to_string(), false);
    assert!(expect_err(res)
        .message()
        .starts_with("Found multiple transaction for revision 1:"));
}

#[test]
fn test_rebuild_no_metadata() {
    let mut store = InMemoryStore::new();
    let server_id = make_server_id();
    let db_name = "db1";

    // build catalog with same data
    let catalog: PreservedCatalog<ParquetMetaData> =
        PreservedCatalog::new_empty(&store, server_id, db_name.to_string()).unwrap();

    // file w/o metadata
    create_parquet_file_without_metadata(&mut store, server_id, db_name, 0);

    // wipe catalog
    drop(catalog);
    PreservedCatalog::<ParquetMetaData>::wipe(&mut store, server_id, &db_name.to_string());

    // rebuild (do not ignore errors)
    let path = ObjectPath::root();
    let res = rebuild_catalog(&mut store, &path, server_id, db_name.to_string(), false);
    assert!(expect_err(res)
        .message()
        .starts_with("Cannot read IOx metadata from parquet file"));

    // rebuild (ignore errors)
    let catalog =
        rebuild_catalog(&mut store, &path, server_id, db_name.to_string(), true).ok().unwrap();
    assert!(catalog.state().paths().is_empty());
    assert_eq!(catalog.revision_counter(), 0);
}

#[test]
fn rebuild_keeps_revisions_of_empty_commits_in_between() {
    let mut store = InMemoryStore::new();
    let server_id = make_server_id();
    let db_name = "db1";
    let catalog: PreservedCatalog<ParquetMetaData> =
        PreservedCatalog::new_empty(&store, server_id, db_name.to_string()).unwrap();
    let catalog = catalog.open_transaction().commit(&mut store);
    let catalog = catalog.open_transaction().commit(&mut store);
    let mut transaction = catalog.open_transaction();
    assert_eq!(transaction.revision_counter(), 3);
    let uuid = transaction.uuid();
    let (path, md) = create_parquet_file(&mut store, server_id, db_name, 3, uuid, 7);
    transaction.add_parquet(&path, md).unwrap();
    let catalog = transaction.commit(&mut store);
    assert_eq!(catalog.revision_counter(), 3);
    drop(catalog);

    PreservedCatalog::<ParquetMetaData>::wipe(&mut store, server_id, &db_name.to_string());
    let root = ObjectPath::root();
    let catalog =
        rebuild_catalog(&mut store, &root, server_id, db_name.to_string(), false).ok().unwrap();
    assert_eq!(catalog.revision_counter(), 3);
    assert_eq!(
        sorted_keys(&catalog),
        vec!["1/db1/data/part1/7/table1.parquet".to_string()]
    );
}

#[test]
fn rebuild_without_wipe_fails() {
    let mut store = InMemoryStore::new();
    let server_id = make_server_id();
    let catalog: PreservedCatalog<ParquetMetaData> =
        PreservedCatalog::new_empty(&store, server_id, "db1".to_string()).unwrap();
    let _catalog = catalog.open_transaction().commit(&mut store);
    let root = ObjectPath::root();
    let res = rebuild_catalog(&mut store, &root, server_id, "db1".to_string(), false);
    assert!(matches!(expect_err(res), Error::NewEmptyFailure { .. }));
}

#[test]
fn rebuild_ignores_unreadable_footer_only_when_asked() {
    let mut store = InMemoryStore::new();
    let server_id = make_server_id();
    let storage = Storage::new(server_id, "db1".to_string());
    let path = storage.location("p".to_string(), 1, "t".to_string());
    storage.to_object_store(&mut store, vec![1, 2, 3], &path);
    let root = ObjectPath::root();
    let res = rebuild_catalog(&mut store, &root, server_id, "db1".to_string(), false);
    assert!(matches!(expect_err(res), Error::MetadataReadFailure { .. }));
    let catalog =
        rebuild_catalog(&mut store, &root, server_id, "db1".to_string(), true).ok().unwrap();
    assert_eq!(catalog.revision_counter(), 0);
}

#[test]
fn rebuild_with_ignore_still_rejects_revision_zero() {
    let mut store = InMemoryStore::new();
    let server_id = make_server_id();
    create_parquet_file_without_metadata(&mut store, server_id, "db1", 0);
    create_parquet_file(&mut store, server_id, "db1", 0, random_uuid(), 1);
    let root = ObjectPath::root();
    let res = rebuild_catalog(&mut store, &root, server_id, "db1".to_string(), true);
    assert!(matches!(expect_err(res), Error::RevisionZeroFailure { .. }));
}

fn load_err(r: Result<Option<PreservedCatalog<ParquetMetaData>>, CatalogError>) -> CatalogError {
    match r {
        Ok(_) => panic!("load succeeded"),
        Err(e) => e,
    }
}

#[test]
fn load_replays_committed_transactions() {
    let mut store = InMemoryStore::new();
    let server_id = make_server_id();
    let db_name = "db1";
    let none = PreservedCatalog::load(&store, server_id, db_name.to_string()).unwrap();
    assert!(none.is_none());

    let catalog: PreservedCatalog<ParquetMetaData> =
        PreservedCatalog::new_empty(&store, server_id, db_name.to_string()).unwrap();
    let mut transaction = catalog.open_transaction();
    for chunk_id in 0..2 {
        let (path, md) = create_parquet_file(
            &mut store,
            server_id,
            db_name,
            transaction.revision_counter(),
            transaction.uuid(),
            chunk_id,
        );
        transaction.add_parquet(&path, md).unwrap();
    }
    let catalog = transaction.commit(&mut store);
    let catalog = catalog.open_transaction().commit(&mut store);
    let mut transaction = catalog.open_transaction();
    let (path, md) = create_parquet_file(
        &mut store,
        server_id,
        db_name,
        transaction.revision_counter(),
        transaction.uuid(),
        2,
    );
    transaction.add_parquet(&path, md).unwrap();
    let catalog = transaction.commit(&mut store);
    let expected = sorted_keys(&catalog);
    drop(catalog);

    let loaded = PreservedCatalog::load(&store, server_id, db_name.to_string())
        .unwrap()
        .unwrap();
    assert_eq!(loaded.revision_counter(), 3);
    assert_eq!(sorted_keys(&loaded), expected);

    // the loaded catalog continues the log
    let loaded = loaded.open_transaction().commit(&mut store);
    assert_eq!(loaded.revision_counter(), 4);
    drop(loaded);
    let again = PreservedCatalog::load(&store, server_id, db_name.to_string())
        .unwrap()
        .unwrap();
    assert_eq!(again.revision_counter(), 4);
    assert_eq!(sorted_keys(&again), expected);

    // other databases are not affected, and a wipe empties the log
    assert!(PreservedCatalog::load(&store, server_id, "db2".to_string())
        .unwrap()
        .is_none());
    PreservedCatalog::<ParquetMetaData>::wipe(&mut store, server_id, &db_name.to_string());
    assert!(PreservedCatalog::load(&store, server_id, db_name.to_string())
        .unwrap()
        .is_none());
}

#[test]
fn load_detects_two_transactions_of_one_revision() {
    let mut store = InMemoryStore::new();
    let server_id = make_server_id();
    let db = "db1".to_string();
    let catalog: PreservedCatalog<ParquetMetaData> =
        PreservedCatalog::new_empty(&store, server_id, db.clone()).unwrap();
    let _catalog = catalog.open_transaction_with_uuid(7).commit(&mut store);
    store.put(transaction_location(server_id, &db, 1, 3), vec![]);
    let err = load_err(PreservedCatalog::load(&store, server_id, db));
    assert!(matches!(
        err,
        CatalogError::MultipleTransactions {
            revision_counter: 1,
            uuid1: 3,
            uuid2: 7
        }
    ));
    assert!(err
        .message()
        .starts_with("Found multiple transaction for revision 1:"));
}

#[test]
fn load_detects_a_missing_revision() {
    let mut store = InMemoryStore::new();
    let server_id = make_server_id();
    let db = "db1".to_string();
    let catalog: PreservedCatalog<ParquetMetaData> =
        PreservedCatalog::new_empty(&store, server_id, db.clone()).unwrap();
    let catalog = catalog.open_transaction().commit(&mut store);
    let _catalog = catalog.open_transaction().commit(&mut store);
    let first = ObjectPath::new(
        vec![
            "1".to_string(),
            "db1".to_string(),
            "transactions".to_string(),
            "1".to_string(),
        ],
        None,
    );
    store.delete_under(&first);
    let err = load_err(PreservedCatalog::load(&store, server_id, db));
    assert!(matches!(
        err,
        CatalogError::CatalogLoadCorrupt { revision_counter: 1 }
    ));
}

#[test]
fn load_rejects_an_unreadable_record() {
    let mut store = InMemoryStore::new();
    let server_id = make_server_id();
    let db = "db1".to_string();
    store.put(transaction_location(server_id, &db, 1, 5), vec![0, 0, 0]);
    let err = load_err(PreservedCatalog::load(&store, server_id, db.clone()));
    assert!(matches!(
        err,
        CatalogError::CatalogLoadCorrupt { revision_counter: 1 }
    ));
    assert_eq!(err.message(), "Cannot load transaction of revision 1");
}

#[test]
fn load_rejects_a_record_of_another_revision() {
    let mut store = InMemoryStore::new();
    let server_id = make_server_id();
    let db = "db1".to_string();
    let catalog: PreservedCatalog<ParquetMetaData> =
        PreservedCatalog::new_empty(&store, server_id, db.clone()).unwrap();
    let _catalog = catalog.open_transaction_with_uuid(9).commit(&mut store);
    let bytes = store
        .get(&transaction_location(server_id, &db, 1, 9))
        .unwrap()
        .clone();
    // the record of revision 1 stored as if it were revision 2's
    store.put(transaction_location(server_id, &db, 2, 9), bytes);
    let err = load_err(PreservedCatalog::load(&store, server_id, db));
    assert!(matches!(
        err,
        CatalogError::CatalogLoadCorrupt { revision_counter: 2 }
    ));
}
