//! Where chunk files live in the object store, and how a key is read back.
use vstd::prelude::*;

use crate::columnar::{footer_readable, read_footer};
use crate::metadata::{encode_metadata, metadata_text, IoxMetadata, METADATA_KEY};
use crate::store::{put_spec, InMemoryStore};
use parquet::errors::ParquetError;
use parquet::file::metadata::ParquetMetaData;
use crate::path::{ends_with, parquet_suffix, path_text, text_eq, ObjectPath, PathView};
use crate::text::{
    decimal, decimal_string, lemma_parse_decimal, parse_u32, parse_u32_spec, push_char,
};

verus! {

/// The identity of a server: a positive number.
#[derive(Debug, Clone, Copy, PartialEq, Eq, Structural)]
pub struct ServerId {
    id: u32,
}

impl ServerId {
    /// A server id, or `None` for zero.
    pub fn new(id: u32) -> (r: Option<ServerId>)
        ensures
            r matches Some(s) ==> s.get() == id,
            r is None <==> id == 0,
    {
        if id == 0 {
            None
        } else {
            Some(ServerId { id })
        }
    }

    pub closed spec fn spec_get(&self) -> u32 {
        self.id
    }

    /// The number.
    #[verifier::when_used_as_spec(spec_get)]
    pub fn get(&self) -> (r: u32)
        ensures
            r == self.spec_get(),
    {
        self.id
    }
}

/// The directory that holds a database's chunk files.
pub open spec fn data_dirs(server: u32, db: Seq<char>) -> Seq<Seq<char>> {
    seq![decimal(server as nat), db, "data"@]
}

/// The key of a chunk file:
/// `<server id>/<db>/data/<partition key>/<chunk id>/<table>.parquet`.
pub open spec fn location_spec(
    server: u32,
    db: Seq<char>,
    partition_key: Seq<char>,
    chunk_id: u32,
    table_name: Seq<char>,
) -> PathView {
    PathView {
        dirs: data_dirs(server, db).push(partition_key).push(decimal(chunk_id as nat)),
        file_name: Some(table_name + parquet_suffix()),
    }
}

pub open spec fn has_no_dot(s: Seq<char>) -> bool {
    forall|i: int| 0 <= i < s.len() ==> s[i] != '.'
}

/// The table name in a chunk file's name: the name must be `<table>.parquet`
/// with no other dot.
pub open spec fn table_of(file_name: Seq<char>) -> Option<Seq<char>> {
    if ends_with(file_name, parquet_suffix()) && has_no_dot(
        file_name.subrange(0, file_name.len() - 8),
    ) {
        Some(file_name.subrange(0, file_name.len() - 8))
    } else {
        None
    }
}

/// What a key says of a chunk of this server and database: its partition
/// key, chunk id and table name, or `None` where it is not such a key.
pub open spec fn parse_location_spec(server: u32, db: Seq<char>, p: PathView) -> Option<
    (Seq<char>, u32, Seq<char>),
> {
    if p.dirs.len() == 5 && p.dirs[0] == decimal(server as nat) && p.dirs[1] == db && p.dirs[2]
        == "data"@ && parse_u32_spec(p.dirs[4]) is Some && p.file_name is Some && table_of(
        p.file_name->0,
    ) is Some {
        Some((p.dirs[3], parse_u32_spec(p.dirs[4])->0, table_of(p.file_name->0)->0))
    } else {
        None
    }
}

/// Reading a chunk's key back gives the partition key, chunk id and table
/// name it was made from, for every table name without a dot.
pub proof fn lemma_location_round_trip(
    server: u32,
    db: Seq<char>,
    partition_key: Seq<char>,
    chunk_id: u32,
    table_name: Seq<char>,
)
    requires
        has_no_dot(table_name),
    ensures
        parse_location_spec(server, db, location_spec(server, db, partition_key, chunk_id, table_name))
            == Some((partition_key, chunk_id, table_name)),
{
    let f = table_name + parquet_suffix();
    lemma_parse_decimal(chunk_id);
    assert(f.subrange(f.len() - 8, f.len() as int) =~= parquet_suffix());
    assert(f.subrange(0, f.len() - 8) =~= table_name);
}

/// Errors of chunk storage.
#[derive(Debug)]
pub enum Error {
    /// The key is not the key of a chunk of this server and database.
    LocationParsingFailure { path: ObjectPath },
    /// The footer of the written file could not be read back.
    ExtractingMetadataFailure { source: ParquetError },
}

impl Error {
    /// A description of the error.
    pub fn message(&self) -> (r: String)
        ensures
            r@ == match self {
                Error::LocationParsingFailure { path } => "Cannot parse location: "@ + path_text(
                    path@,
                ),
                Error::ExtractingMetadataFailure { .. } =>
                    "Cannot extract Parquet metadata from byte array"@,
            },
    {
        match self {
            Error::LocationParsingFailure { path } => {
                let mut s = String::from_str("Cannot parse location: ");
                s.append(path.display().as_str());
                s
            },
            Error::ExtractingMetadataFailure { .. } => String::from_str(
                "Cannot extract Parquet metadata from byte array",
            ),
        }
    }
}

/// Which columns a read selects.
pub enum Selection {
    /// Every column.
    All,
    /// The columns with these names.
    Columns(Vec<String>),
}

/// The indices, in order, of the fields whose names a selection takes.
pub open spec fn selected_indices(selection: Seq<Seq<char>>, all: bool, fields: Seq<Seq<char>>) -> Seq<int>
    decreases fields.len(),
{
    if fields.len() == 0 {
        Seq::empty()
    } else if all || selection.contains(fields.last()) {
        selected_indices(selection, all, fields.drop_last()).push(fields.len() - 1)
    } else {
        selected_indices(selection, all, fields.drop_last())
    }
}

fn contains_name(names: &Vec<String>, name: &String) -> (r: bool)
    ensures
        r == names@.map_values(|n: String| n@).contains(name@),
{
    let ghost view = names@.map_values(|n: String| n@);
    let mut i: usize = 0;
    while i < names.len()
        invariant
            i <= names@.len(),
            view == names@.map_values(|n: String| n@),
            forall|j: int| 0 <= j < i ==> view[j] != name@,
        decreases names@.len() - i,
    {
        if text_eq(names[i].as_str(), name.as_str()) {
            assert(view[i as int] == name@);
            return true;
        }
        i = i + 1;
    }
    false
}

/// The metadata key and value that a chunk file of transaction `metadata`
/// carries in its footer.
pub fn metadata_key_value(metadata: &IoxMetadata) -> (r: (String, String))
    ensures
        r.0@ == METADATA_KEY@,
        r.1@ == metadata_text(*metadata),
{
    (String::from_str(METADATA_KEY), encode_metadata(metadata))
}

/// Names chunk files of one database of one server.
#[derive(Debug)]
pub struct Storage {
    server_id: ServerId,
    db_name: String,
}

fn table_name_of(f: &str) -> (r: Option<String>)
    ensures
        r is Some == table_of(f@) is Some,
        r matches Some(t) ==> t@ == table_of(f@)->0,
{
    let n = f.unicode_len();
    if n < 8 {
        return None;
    }
    let suffix: [char; 8] = ['.', 'p', 'a', 'r', 'q', 'u', 'e', 't'];
    let mut i: usize = 0;
    while i < 8
        invariant
            n == f@.len(),
            n >= 8,
            i <= 8,
            suffix@ == parquet_suffix(),
            forall|j: int| 0 <= j < i ==> f@[n - 8 + j] == parquet_suffix()[j],
        decreases 8 - i,
    {
        if f.get_char(n - 8 + i) != suffix[i] {
            assert(f@.subrange(n - 8, n as int)[i as int] != parquet_suffix()[i as int]);
            return None;
        }
        i = i + 1;
    }
    assert(f@.subrange(n - 8, n as int) =~= parquet_suffix());
    let mut name = String::new();
    let mut k: usize = 0;
    while k < n - 8
        invariant
            n == f@.len(),
            n >= 8,
            k <= n - 8,
            name@ == f@.subrange(0, k as int),
            has_no_dot(name@),
        decreases n - 8 - k,
    {
        let c = f.get_char(k);
        if c == '.' {
            assert(f@.subrange(0, n - 8)[k as int] == '.');
            return None;
        }
        push_char(&mut name, c);
        assert(name@ =~= f@.subrange(0, k + 1));
        k = k + 1;
    }
    Some(name)
}

impl Storage {
    pub closed spec fn server(&self) -> u32 {
        self.server_id.id
    }

    pub closed spec fn db(&self) -> Seq<char> {
        self.db_name@
    }

    /// Storage for database `db_name` of server `server_id`.
    pub fn new(server_id: ServerId, db_name: String) -> (r: Storage)
        ensures
            r.server() == server_id.get(),
            r.db() == db_name@,
    {
        Storage { server_id, db_name }
    }

    /// The key of a chunk file.
    pub fn location(&self, partition_key: String, chunk_id: u32, table_name: String) -> (r:
        ObjectPath)
        ensures
            r@ == location_spec(self.server(), self.db(), partition_key@, chunk_id, table_name@),
    {
        let mut path = data_location(self.server_id, &self.db_name);
        path.push_dir(partition_key);
        path.push_dir(decimal_string(chunk_id as u64));
        let mut file_name = table_name;
        file_name.append(".parquet");
        proof {
            reveal_strlit(".parquet");
            assert(".parquet"@ =~= parquet_suffix());
        }
        path.set_file_name(file_name);
        path
    }

    /// Reads a chunk file's key back into partition key, chunk id and table
    /// name.
    pub fn parse_location(&self, path: &ObjectPath) -> (r: Result<(String, u32, String), Error>)
        ensures
            r is Ok == parse_location_spec(self.server(), self.db(), path@) is Some,
            r matches Ok((p, c, t)) ==> (p@, c, t@) == parse_location_spec(
                self.server(),
                self.db(),
                path@,
            )->0,
            r matches Err(Error::LocationParsingFailure { path: e }) ==> e@ == path@,
            r matches Err(e) ==> e is LocationParsingFailure,
    {
        let fail = Err(Error::LocationParsingFailure { path: path.duplicate() });
        if path.dirs.len() != 5 {
            return fail;
        }
        let file_name = match &path.file_name {
            Some(f) => f,
            None => {
                return fail;
            },
        };
        let server = decimal_string(self.server_id.id as u64);
        if !text_eq(path.dirs[0].as_str(), server.as_str()) || !text_eq(
            path.dirs[1].as_str(),
            self.db_name.as_str(),
        ) || !text_eq(path.dirs[2].as_str(), "data") {
            return fail;
        }
        let chunk_id = match parse_u32(path.dirs[4].as_str()) {
            Some(c) => c,
            None => {
                return fail;
            },
        };
        let table_name = match table_name_of(file_name.as_str()) {
            Some(t) => t,
            None => {
                return fail;
            },
        };
        let partition_key = path.dirs[3].clone();
        Ok((partition_key, chunk_id, table_name))
    }
}

impl Storage {
    /// Stores the bytes of a file under `path`.
    pub fn to_object_store(&self, store: &mut InMemoryStore, data: Vec<u8>, path: &ObjectPath)
        requires
            old(store).wf(),
        ensures
            final(store).wf(),
            final(store).entries() == put_spec(old(store).entries(), path@, data@),
    {
        store.put(path.duplicate(), data);
    }

    /// Stores the bytes of a chunk file under its key, after reading its
    /// footer back; gives the key and the footer.
    pub fn write_to_object_store(
        &self,
        store: &mut InMemoryStore,
        partition_key: String,
        chunk_id: u32,
        table_name: String,
        data: Vec<u8>,
    ) -> (r: Result<(ObjectPath, ParquetMetaData), Error>)
        requires
            old(store).wf(),
        ensures
            final(store).wf(),
            r matches Ok((p, _)) ==> p@ == location_spec(
                self.server(),
                self.db(),
                partition_key@,
                chunk_id,
                table_name@,
            ) && final(store).entries() == put_spec(old(store).entries(), p@, data@),
            r is Ok == footer_readable(data@),
            r is Err ==> final(store).entries() == old(store).entries(),
            r matches Err(e) ==> e is ExtractingMetadataFailure,
    {
        let path = self.location(partition_key, chunk_id, table_name);
        let md = match read_footer(&data) {
            Ok((md, _)) => md,
            Err(source) => {
                return Err(Error::ExtractingMetadataFailure { source });
            },
        };
        self.to_object_store(store, data, &path);
        Ok((path, md))
    }

    /// The indices of the fields named `field_names` that `selection` takes,
    /// in field order.
    pub fn column_indices(selection: &Selection, field_names: &Vec<String>) -> (r: Vec<usize>)
        ensures
            r@.map_values(|i: usize| i as int) == selected_indices(
                match selection {
                    Selection::Columns(cols) => cols@.map_values(|n: String| n@),
                    Selection::All => Seq::empty(),
                },
                selection is All,
                field_names@.map_values(|n: String| n@),
            ),
    {
        let ghost sel = match selection {
            Selection::Columns(cols) => cols@.map_values(|n: String| n@),
            Selection::All => Seq::empty(),
        };
        let ghost all = selection is All;
        let ghost fields = field_names@.map_values(|n: String| n@);
        let mut out: Vec<usize> = Vec::new();
        let mut i: usize = 0;
        while i < field_names.len()
            invariant
                i <= field_names@.len(),
                fields == field_names@.map_values(|n: String| n@),
                all == (selection is All),
                sel == match selection {
                    Selection::Columns(cols) => cols@.map_values(|n: String| n@),
                    Selection::All => Seq::empty(),
                },
                out@.map_values(|i: usize| i as int) == selected_indices(
                    sel,
                    all,
                    fields.subrange(0, i as int),
                ),
            decreases field_names@.len() - i,
        {
            let take = match selection {
                Selection::All => true,
                Selection::Columns(cols) => contains_name(cols, &field_names[i]),
            };
            let ghost sub = fields.subrange(0, i as int + 1);
            assert(sub.drop_last() =~= fields.subrange(0, i as int));
            assert(sub.last() == field_names@[i as int]@);
            let ghost before = out@.map_values(|i: usize| i as int);
            if take {
                out.push(i);
                assert(out@.map_values(|i: usize| i as int) =~= before.push(i as int));
            }
            i = i + 1;
        }
        assert(fields.subrange(0, i as int) =~= fields);
        out
    }
}

/// The directory of a database's chunk files: `<server id>/<db>/data`.
pub fn data_location(server_id: ServerId, db_name: &String) -> (r: ObjectPath)
    ensures
        r@.dirs == data_dirs(server_id.get(), db_name@),
        r@.file_name is None,
{
    let mut path = ObjectPath::root();
    path.push_dir(decimal_string(server_id.id as u64));
    path.push_dir(db_name.clone());
    path.push_dir(String::from_str("data"));
    assert(path@.dirs =~= data_dirs(server_id.get(), db_name@));
    path
}

} // verus!
