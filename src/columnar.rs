//! The columnar file library: reading the footer of a parquet file held in
//! memory.
use vstd::prelude::*;

use parquet::errors::ParquetError;
use parquet::file::metadata::{ParquetMetaData, ParquetMetaDataReader};

use crate::metadata::{key_values_view, read_metadata_spec, IoxMetadata, MetadataError};

verus! {

#[verifier::external_type_specification]
#[verifier::external_body]
pub struct ExParquetError(ParquetError);

#[verifier::external_type_specification]
#[verifier::external_body]
pub struct ExParquetMetaData(ParquetMetaData);

/// Whether the bytes of a file end in a parquet footer that can be read.
pub uninterp spec fn footer_readable(b: Seq<u8>) -> bool;

/// The key/value metadata in the footer of a file, where it has any.
pub uninterp spec fn footer_key_values_of(b: Seq<u8>) -> Option<Seq<(Seq<char>, Option<Seq<char>>)>>;

/// The catalog record a file carries, or why it cannot be had.
pub open spec fn file_record(b: Seq<u8>) -> Result<IoxMetadata, MetadataError> {
    if footer_readable(b) {
        read_metadata_spec(footer_key_values_of(b))
    } else {
        Err(MetadataError::FooterUnreadable)
    }
}

/// Relies on `ParquetMetaDataReader::parse_and_finish`, which reads the
/// footer of a whole file from its bytes alone, and on
/// `FileMetaData::key_value_metadata`, which hands out the footer's key/value
/// pairs as they were decoded.
///
/// The footer decoder reserves room for lists by counts read from the input:
/// a crafted footer of a few bytes can ask for a large allocation, which
/// aborts the process where memory runs out.
#[verifier::external_body]
pub(crate) fn read_footer(data: &Vec<u8>) -> (r: Result<
    (ParquetMetaData, Option<Vec<(String, Option<String>)>>),
    ParquetError,
>)
    ensures
        r is Ok == footer_readable(data@),
        r matches Ok((_, kvs)) ==> key_values_view(kvs) == footer_key_values_of(data@),
{
    let md = ParquetMetaDataReader::new().parse_and_finish(&bytes::Bytes::from(data.clone()))?;
    let kvs = md.file_metadata().key_value_metadata().map(
        |kvs| kvs.iter().map(|kv| (kv.key.clone(), kv.value.clone())).collect(),
    );
    Ok((md, kvs))
}

} // verus!
