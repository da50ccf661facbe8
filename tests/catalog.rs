use parquet_file::catalog::{transaction_location, CatalogError, PreservedCatalog};
use parquet_file::cli::{Command, Config, Get, List};
use parquet_file::hex::{format_uuid, parse_uuid};
use parquet_file::metadata::{IoxMetadata, MetadataError};
use parquet_file::path::ObjectPath;
use parquet_file::rebuild::{collect_revisions, Error, ScannedFile};
use parquet_file::record::{
    bytes_to_text, decode_record, encode_record, text_to_bytes, TransactionRecord,
};
use parquet_file::storage::ServerId;
use parquet_file::store::InMemoryStore;
use parquet_file::test_db::TestError;
use parquet_file::text::{decimal_string, parse_u32};

fn path_of(dirs: &[&str], file_name: Option<&str>) -> ObjectPath {
    ObjectPath::new(
        dirs.iter().map(|d| d.to_string()).collect(),
        file_name.map(|f| f.to_string()),
    )
}

fn scanned(name: &str, revision: u64, uuid: u128) -> ScannedFile<()> {
    ScannedFile {
        path: path_of(&["d"], Some(name)),
        metadata: Ok((
            IoxMetadata {
                transaction_revision_counter: revision,
                transaction_uuid: uuid,
            },
            (),
        )),
    }
}

fn unreadable(name: &str) -> ScannedFile<()> {
    ScannedFile {
        path: path_of(&["d"], Some(name)),
        metadata: Err(MetadataError::IoxMetadataMissing),
    }
}

#[test]
fn commits_advance_revision_by_one() {
    let mut store = InMemoryStore::new();
    let server_id = ServerId::new(1).unwrap();
    let catalog: PreservedCatalog<u8> =
        PreservedCatalog::new_empty(&store, server_id, "db".to_string()).unwrap();
    assert_eq!(catalog.revision_counter(), 0);
    let mut tx = catalog.open_transaction_with_uuid(11);
    assert_eq!(tx.revision_counter(), 1);
    assert_eq!(tx.uuid(), 11);
    tx.add_parquet(&path_of(&["a"], Some("x.parquet")), 1).unwrap();
    let catalog = tx.commit(&mut store);
    assert_eq!(catalog.revision_counter(), 1);
    let catalog = catalog.open_transaction_with_uuid(12).commit(&mut store);
    assert_eq!(catalog.revision_counter(), 2);
    assert_eq!(catalog.state().len(), 1);
    let keys: Vec<String> = store.list(&ObjectPath::root()).iter().map(|p| p.display()).collect();
    assert_eq!(
        keys,
        vec![
            format!("1/db/transactions/1/{}.txn", format_uuid(11)),
            format!("1/db/transactions/2/{}.txn", format_uuid(12)),
        ]
    );
    let expected = transaction_location(server_id, &"db".to_string(), 2, 12);
    assert!(store.get(&expected).is_some());
}

#[test]
fn abort_leaves_catalog_unchanged() {
    let store = InMemoryStore::new();
    let server_id = ServerId::new(1).unwrap();
    let catalog: PreservedCatalog<u8> =
        PreservedCatalog::new_empty(&store, server_id, "db".to_string()).unwrap();
    let mut tx = catalog.open_transaction();
    tx.add_parquet(&path_of(&["a"], Some("x.parquet")), 1).unwrap();
    let catalog = tx.abort();
    assert_eq!(catalog.revision_counter(), 0);
    assert_eq!(catalog.state().len(), 0);
    assert!(store.list(&ObjectPath::root()).is_empty());
}

#[test]
fn adding_a_file_twice_fails() {
    let store = InMemoryStore::new();
    let catalog: PreservedCatalog<u8> =
        PreservedCatalog::new_empty(&store, ServerId::new(1).unwrap(), "db".to_string()).unwrap();
    let mut tx = catalog.open_transaction();
    let p = path_of(&["a"], Some("x.parquet"));
    tx.add_parquet(&p, 1).unwrap();
    let err = tx.add_parquet(&p, 2).unwrap_err();
    assert!(matches!(err, CatalogError::ParquetFileAlreadyExists { .. }));
    assert_eq!(err.message(), "File already exists in catalog: a/x.parquet");
}

#[test]
fn new_empty_fails_on_existing_log_until_wiped() {
    let mut store = InMemoryStore::new();
    let server_id = ServerId::new(1).unwrap();
    let db = "db".to_string();
    let catalog: PreservedCatalog<u8> =
        PreservedCatalog::new_empty(&store, server_id, db.clone()).unwrap();
    let _ = catalog.open_transaction().commit(&mut store);
    store.put(path_of(&["1", "db", "data"], Some("c.parquet")), vec![1]);
    let again: Result<PreservedCatalog<u8>, CatalogError> =
        PreservedCatalog::new_empty(&store, server_id, db.clone());
    assert!(matches!(again, Err(CatalogError::OpenEmptyCatalogExists)));
    let other: Result<PreservedCatalog<u8>, CatalogError> =
        PreservedCatalog::new_empty(&store, server_id, "other".to_string());
    assert!(other.is_ok());
    PreservedCatalog::<u8>::wipe(&mut store, server_id, &db);
    // wiping twice changes nothing more
    PreservedCatalog::<u8>::wipe(&mut store, server_id, &db);
    let keys: Vec<String> = store.list(&ObjectPath::root()).iter().map(|p| p.display()).collect();
    assert_eq!(keys, vec!["1/db/data/c.parquet".to_string()]);
    let again: Result<PreservedCatalog<u8>, CatalogError> =
        PreservedCatalog::new_empty(&store, server_id, db);
    assert!(again.is_ok());
}

#[test]
fn store_put_replaces_and_lists_by_prefix() {
    let mut store = InMemoryStore::new();
    store.put(path_of(&["a", "b"], Some("1")), vec![1]);
    store.put(path_of(&["a"], Some("2")), vec![2]);
    store.put(path_of(&["a", "b"], Some("1")), vec![3]);
    assert_eq!(store.get(&path_of(&["a", "b"], Some("1"))), Some(&vec![3]));
    assert_eq!(store.get(&path_of(&["a"], None)), None);
    let under: Vec<String> = store.list(&path_of(&["a", "b"], None)).iter().map(|p| p.display()).collect();
    assert_eq!(under, vec!["a/b/1".to_string()]);
    assert_eq!(store.list(&ObjectPath::root()).len(), 2);
    assert!(store.any_under(&path_of(&["a"], None)));
    assert!(!store.any_under(&path_of(&["z"], None)));
    store.delete_under(&path_of(&["a", "b"], None));
    assert_eq!(store.list(&ObjectPath::root()).len(), 1);
}

#[test]
fn paths_display_and_classify() {
    assert_eq!(path_of(&[], Some("f")).display(), "f");
    assert_eq!(path_of(&["a", "b"], None).display(), "a/b");
    assert!(path_of(&["a"], Some("x.parquet")).is_parquet());
    assert!(path_of(&["a"], Some(".parquet")).is_parquet());
    assert!(!path_of(&["a"], Some("x.parquet.tmp")).is_parquet());
    assert!(!path_of(&["x.parquet"], None).is_parquet());
    let p = path_of(&["a"], Some("x"));
    assert!(p.same_as(&p.duplicate()));
    assert!(!p.same_as(&path_of(&["a"], None)));
}

#[test]
fn groups_follow_revisions() {
    let files = vec![scanned("a", 2, 5), scanned("b", 1, 4), scanned("c", 2, 5)];
    let groups = collect_revisions(files, false).ok().unwrap();
    assert_eq!(groups.len(), 2);
    assert_eq!((groups[0].revision, groups[0].uuid, groups[0].files.len()), (2, 5, 2));
    assert_eq!((groups[1].revision, groups[1].uuid, groups[1].files.len()), (1, 4, 1));
    assert_eq!(groups[0].files[1].0.display(), "d/c");
}

#[test]
fn diverging_ids_fail_with_ordered_ids() {
    let files = vec![scanned("a", 1, 9), scanned("b", 1, 3)];
    match collect_revisions(files, true) {
        Err(Error::MultipleTransactionsFailure {
            revision_counter,
            uuid1,
            uuid2,
        }) => {
            assert_eq!((revision_counter, uuid1, uuid2), (1, 3, 9));
        }
        _ => panic!("expected a failure for multiple transactions"),
    }
    let err = collect_revisions(vec![scanned("a", 1, 9), scanned("b", 1, 3)], false)
        .err()
        .unwrap();
    assert_eq!(
        err.message(),
        "Found multiple transaction for revision 1: 00000000-0000-0000-0000-000000000003 and 00000000-0000-0000-0000-000000000009"
    );
}

#[test]
fn revision_zero_fails_even_when_ignoring() {
    let files = vec![unreadable("x"), scanned("a", 0, 1)];
    let err = collect_revisions(files, true).err().unwrap();
    assert!(matches!(err, Error::RevisionZeroFailure { .. }));
    assert_eq!(
        err.message(),
        "Internal error: Revision cannot be zero (this transaction is always empty): d/a"
    );
}

#[test]
fn unreadable_records_are_skipped_only_when_ignoring() {
    let files = vec![unreadable("x"), scanned("a", 1, 1)];
    let err = collect_revisions(files, false).err().unwrap();
    assert!(matches!(err, Error::MetadataReadFailure { .. }));
    assert!(err.message().starts_with("Cannot read IOx metadata from parquet file (d/x): "));
    let groups = collect_revisions(vec![unreadable("x"), scanned("a", 1, 1)], true)
        .ok()
        .unwrap();
    assert_eq!(groups.len(), 1);
}

#[test]
fn first_failure_wins() {
    let files = vec![scanned("a", 1, 1), scanned("b", 1, 2), scanned("c", 0, 1)];
    let err = collect_revisions(files, false).err().unwrap();
    assert!(matches!(err, Error::MultipleTransactionsFailure { .. }));
}

#[test]
fn decimal_text_and_parsing() {
    assert_eq!(decimal_string(0), "0");
    assert_eq!(decimal_string(907), "907");
    assert_eq!(decimal_string(u64::MAX), "18446744073709551615");
    assert_eq!(parse_u32("42"), Some(42));
    assert_eq!(parse_u32("+42"), Some(42));
    assert_eq!(parse_u32("007"), Some(7));
    assert_eq!(parse_u32("4294967295"), Some(4294967295));
    assert_eq!(parse_u32("4294967296"), None);
    assert_eq!(parse_u32(""), None);
    assert_eq!(parse_u32("+"), None);
    assert_eq!(parse_u32("-1"), None);
    assert_eq!(parse_u32("1a"), None);
}

#[test]
fn uuid_text_matches_uuid_crate() {
    for id in [0u128, 1, 0x67e5504410b1426f9247bb680e5fe0c8, u128::MAX] {
        let text = format_uuid(id);
        assert_eq!(text, uuid::Uuid::from_u128(id).hyphenated().to_string());
        assert_eq!(parse_uuid(&text), Some(id));
    }
    assert_eq!(
        parse_uuid("67E55044-10B1-426F-9247-BB680E5FE0C8"),
        Some(0x67e5504410b1426f9247bb680e5fe0c8)
    );
    assert_eq!(parse_uuid("67e5504410b1426f9247bb680e5fe0c8"), None);
    assert_eq!(parse_uuid("67e55044-10b1-426f-9247-bb680e5fe0cg"), None);
}

#[test]
fn config_names_database_and_partition() {
    let c = Config {
        command: Command::List(List {
            db_name: "db".to_string(),
        }),
    };
    assert_eq!(c.db_name(), "db");
    assert_eq!(c.partition_key(), None);
    let c = Config {
        command: Command::Get(Get {
            db_name: "d".to_string(),
            partition_key: "p".to_string(),
        }),
    };
    assert_eq!(c.partition_key(), Some(&"p".to_string()));
}

#[test]
fn test_errors_describe_themselves() {
    let e = TestError::General {
        message: "boom".to_string(),
    };
    assert_eq!(e.message(), "Test database error: boom");
}

#[test]
fn records_round_trip_through_bytes() {
    let rec = TransactionRecord {
        revision: 12,
        uuid: 0xabc,
        previous_uuid: Some(0xdef),
        added: vec![
            path_of(&["1", "db", "data", "p:1", "0"], Some("t.parquet")),
            path_of(&[], None),
            path_of(&["ü/ß", ""], Some("")),
        ],
    };
    let text = encode_record(&rec);
    assert!(text.starts_with("2:12"));
    let bytes = text_to_bytes(&text);
    assert_eq!(bytes.len(), 4 * text.chars().count());
    let back = bytes_to_text(&bytes).unwrap();
    assert_eq!(back, text);
    let decoded = decode_record(&back).unwrap();
    assert_eq!(decoded.revision, 12);
    assert_eq!(decoded.uuid, 0xabc);
    assert_eq!(decoded.previous_uuid, Some(0xdef));
    assert_eq!(decoded.added.len(), 3);
    for (a, b) in decoded.added.iter().zip(rec.added.iter()) {
        assert!(a.same_as(b));
    }
    assert!(decode_record("").is_none());
    assert!(decode_record("2:12").is_none());
    assert!(bytes_to_text(&vec![0, 0, 0xd8, 0]).is_none());
    assert!(bytes_to_text(&vec![0, 0]).is_none());
}
