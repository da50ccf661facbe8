use std::sync::Arc;

use arrow::array::{ArrayRef, StringArray};
use arrow::record_batch::RecordBatch;
use parquet::arrow::ArrowWriter;
use parquet::file::metadata::{KeyValue, ParquetMetaDataReader};
use parquet::file::properties::WriterProperties;

use parquet_file::metadata::{
    decode_metadata, encode_metadata, read_iox_metadata, IoxMetadata, MetadataError, METADATA_KEY,
};
use parquet_file::path::ObjectPath;
use parquet_file::storage::{metadata_key_value, Selection, ServerId, Storage};
use parquet_file::store::InMemoryStore;

fn path_of(dirs: &[&str], file_name: Option<&str>) -> ObjectPath {
    ObjectPath::new(
        dirs.iter().map(|d| d.to_string()).collect(),
        file_name.map(|f| f.to_string()),
    )
}

fn write_parquet(batches: Vec<RecordBatch>, schema_of: &RecordBatch, metadata: &IoxMetadata) -> Vec<u8> {
    let (key, value) = metadata_key_value(metadata);
    let props = WriterProperties::builder()
        .set_key_value_metadata(Some(vec![KeyValue::new(key, value)]))
        .build();
    let mut buf: Vec<u8> = Vec::new();
    let mut writer = ArrowWriter::try_new(&mut buf, schema_of.schema(), Some(props)).unwrap();
    for batch in &batches {
        writer.write(batch).unwrap();
    }
    writer.close().unwrap();
    buf
}

fn make_batch() -> RecordBatch {
    let array = StringArray::from(vec!["foo", "bar", "baz"]);
    RecordBatch::try_from_iter(vec![("my_awesome_test_column", Arc::new(array) as ArrayRef)])
        .unwrap()
}

#[test]
fn test_parquet_contains_key_value_metadata() {
    let metadata = IoxMetadata {
        transaction_revision_counter: 42,
        transaction_uuid: uuid::Uuid::new_v4().as_u128(),
    };

    // create parquet file
    let batch = make_batch();
    let bytes = write_parquet(vec![], &batch, &metadata);

    // extract metadata
    let md = ParquetMetaDataReader::new()
        .parse_and_finish(&bytes::Bytes::from(bytes))
        .unwrap();
    let kv_vec = md.file_metadata().key_value_metadata().unwrap();

    // filter out relevant key
    let kv = kv_vec.iter().find(|kv| kv.key == METADATA_KEY).cloned().unwrap();

    // compare with input
    let metadata_roundtrip = decode_metadata(&kv.value.unwrap()).unwrap();
    assert_eq!(metadata_roundtrip, metadata);
}

#[test]
fn test_location_to_from_path() {
    let server_id = ServerId::new(1).unwrap();
    let store = Storage::new(server_id, "my_db".to_string());

    // happy roundtrip
    let path = store.location("p1".to_string(), 42, "my_table".to_string());
    assert_eq!(path.display(), "1/my_db/data/p1/42/my_table.parquet");
    let (partition_key, chunk_id, table_name) = store.parse_location(&path).unwrap();
    assert_eq!(
        (partition_key, chunk_id, table_name),
        ("p1".to_string(), 42, "my_table".to_string())
    );

    // error cases
    assert!(store.parse_location(&path_of(&[], None)).is_err());
    assert!(store
        .parse_location(&path_of(&["too", "short"], Some("my_table.parquet")))
        .is_err());
    assert!(store
        .parse_location(&path_of(
            &["this", "is", "way", "way", "too", "long"],
            Some("my_table.parquet")
        ))
        .is_err());
    assert!(store
        .parse_location(&path_of(
            &["1", "my_db", "data", "p1", "not_a_number"],
            Some("my_table.parquet")
        ))
        .is_err());
    assert!(store
        .parse_location(&path_of(
            &["1", "my_db", "not_data", "p1", "42"],
            Some("my_table.parquet")
        ))
        .is_err());
    assert!(store
        .parse_location(&path_of(
            &["1", "other_db", "data", "p1", "42"],
            Some("my_table.parquet")
        ))
        .is_err());
    assert!(store
        .parse_location(&path_of(
            &["2", "my_db", "data", "p1", "42"],
            Some("my_table.parquet")
        ))
        .is_err());
    assert!(store
        .parse_location(&path_of(&["1", "my_db", "data", "p1", "42"], Some("my_table")))
        .is_err());
    assert!(store
        .parse_location(&path_of(
            &["1", "my_db", "data", "p1", "42"],
            Some("my_table.parquet.tmp")
        ))
        .is_err());
}

#[test]
fn location_round_trips_for_other_values() {
    let store = Storage::new(ServerId::new(4294967295).unwrap(), "db".to_string());
    let path = store.location("".to_string(), 4294967295, "".to_string());
    assert_eq!(path.display(), "4294967295/db/data//4294967295/.parquet");
    let (p, c, t) = store.parse_location(&path).unwrap();
    assert_eq!((p.as_str(), c, t.as_str()), ("", 4294967295, ""));
    let path = store.location("part/x".to_string(), 0, "tab".to_string());
    let (p, c, t) = store.parse_location(&path).unwrap();
    assert_eq!((p.as_str(), c, t.as_str()), ("part/x", 0, "tab"));
}

#[test]
fn location_with_dotted_table_does_not_parse() {
    let store = Storage::new(ServerId::new(1).unwrap(), "db".to_string());
    let path = store.location("p".to_string(), 1, "a.b".to_string());
    assert!(store.parse_location(&path).is_err());
}

#[test]
fn parse_location_accepts_plus_sign_and_rejects_overflow() {
    let store = Storage::new(ServerId::new(1).unwrap(), "db".to_string());
    let (_, c, _) = store
        .parse_location(&path_of(&["1", "db", "data", "p", "+7"], Some("t.parquet")))
        .unwrap();
    assert_eq!(c, 7);
    assert!(store
        .parse_location(&path_of(&["1", "db", "data", "p", "4294967296"], Some("t.parquet")))
        .is_err());
    assert!(store
        .parse_location(&path_of(&["1", "db", "data", "p", ""], Some("t.parquet")))
        .is_err());
}

#[test]
fn server_id_zero_is_rejected() {
    assert!(ServerId::new(0).is_none());
    assert_eq!(ServerId::new(9).unwrap().get(), 9);
}

#[test]
fn metadata_text_is_exact() {
    let m = IoxMetadata {
        transaction_revision_counter: 42,
        transaction_uuid: 0x67e5504410b1426f9247bb680e5fe0c8,
    };
    assert_eq!(
        encode_metadata(&m),
        "{\"transaction_revision_counter\":42,\"transaction_uuid\":\"67e55044-10b1-426f-9247-bb680e5fe0c8\"}"
    );
    assert_eq!(decode_metadata(&encode_metadata(&m)), Some(m));
    let (k, v) = metadata_key_value(&m);
    assert_eq!(k, "IOX:metadata");
    assert_eq!(v, encode_metadata(&m));
}

#[test]
fn metadata_round_trips_at_extremes() {
    for (rev, id) in [(0u64, 0u128), (u64::MAX, u128::MAX), (1, 1)] {
        let m = IoxMetadata {
            transaction_revision_counter: rev,
            transaction_uuid: id,
        };
        assert_eq!(decode_metadata(&encode_metadata(&m)), Some(m));
    }
}

#[test]
fn malformed_metadata_does_not_decode() {
    assert_eq!(decode_metadata(""), None);
    assert_eq!(decode_metadata("{}"), None);
    assert_eq!(
        decode_metadata("{\"transaction_revision_counter\":,\"transaction_uuid\":\"67e55044-10b1-426f-9247-bb680e5fe0c8\"}"),
        None
    );
    assert_eq!(
        decode_metadata("{\"transaction_revision_counter\":18446744073709551616,\"transaction_uuid\":\"67e55044-10b1-426f-9247-bb680e5fe0c8\"}"),
        None
    );
    assert_eq!(
        decode_metadata("{\"transaction_revision_counter\":1,\"transaction_uuid\":\"67e55044-10b1-426f-9247\"}"),
        None
    );
}

#[test]
fn reading_metadata_from_key_values() {
    let m = IoxMetadata {
        transaction_revision_counter: 5,
        transaction_uuid: 77,
    };
    let good = (METADATA_KEY.to_string(), Some(encode_metadata(&m)));
    assert_eq!(read_iox_metadata(&None), Err(MetadataError::IoxMetadataMissing));
    assert_eq!(
        read_iox_metadata(&Some(vec![("other".to_string(), Some("x".to_string()))])),
        Err(MetadataError::IoxMetadataMissing)
    );
    assert_eq!(
        read_iox_metadata(&Some(vec![(METADATA_KEY.to_string(), None)])),
        Err(MetadataError::IoxMetadataMissing)
    );
    assert_eq!(
        read_iox_metadata(&Some(vec![(METADATA_KEY.to_string(), Some("junk".to_string()))])),
        Err(MetadataError::IoxMetadataBroken)
    );
    assert_eq!(
        read_iox_metadata(&Some(vec![("other".to_string(), None), good.clone()])),
        Ok(m)
    );
    // the first entry under the key decides
    assert_eq!(
        read_iox_metadata(&Some(vec![
            (METADATA_KEY.to_string(), Some("junk".to_string())),
            good
        ])),
        Err(MetadataError::IoxMetadataBroken)
    );
}

#[test]
fn written_chunk_is_stored_under_its_location() {
    let mut store = InMemoryStore::new();
    let storage = Storage::new(ServerId::new(1).unwrap(), "my_db".to_string());
    let m = IoxMetadata {
        transaction_revision_counter: 3,
        transaction_uuid: 9,
    };
    let batch = make_batch();
    let bytes = write_parquet(vec![batch.clone()], &batch, &m);
    let (path, md) = storage
        .write_to_object_store(&mut store, "p".to_string(), 33, "t".to_string(), bytes.clone())
        .unwrap();
    assert_eq!(path.display(), "1/my_db/data/p/33/t.parquet");
    assert_eq!(store.get(&path), Some(&bytes));
    assert_eq!(md.file_metadata().num_rows(), 3);
    let kvs: Vec<(String, Option<String>)> = md
        .file_metadata()
        .key_value_metadata()
        .unwrap()
        .iter()
        .map(|kv| (kv.key.clone(), kv.value.clone()))
        .collect();
    assert_eq!(read_iox_metadata(&Some(kvs)), Ok(m));
}

#[test]
fn unreadable_chunk_is_not_stored() {
    let mut store = InMemoryStore::new();
    let storage = Storage::new(ServerId::new(1).unwrap(), "my_db".to_string());
    let r = storage.write_to_object_store(&mut store, "p".to_string(), 1, "t".to_string(), vec![0; 4]);
    assert!(r.is_err());
    assert!(store.list(&ObjectPath::root()).is_empty());
}

#[test]
fn column_indices_follow_selection() {
    let fields: Vec<String> = vec!["a".to_string(), "b".to_string(), "c".to_string()];
    assert_eq!(Storage::column_indices(&Selection::All, &fields), vec![0, 1, 2]);
    let sel = Selection::Columns(vec!["c".to_string(), "a".to_string(), "x".to_string()]);
    assert_eq!(Storage::column_indices(&sel, &fields), vec![0, 2]);
    assert!(Storage::column_indices(&Selection::Columns(vec![]), &fields).is_empty());
}
