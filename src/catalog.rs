//! The preserved catalog: a revision-numbered log of transactions in the
//! object store, and the set of chunk files it makes live.
use vstd::prelude::*;

use crate::hex::{format_uuid, uuid_text};
use crate::columnar::{footer_readable, read_footer};
use crate::hex::parse_uuid;
use crate::hex::parse_uuid_spec;
use crate::path::ends_with;
use crate::record::{
    bytes_text, bytes_to_text, decode_record, decode_record_spec, encode_record, parse_u64_spec,
    parse_u64_text, record_text, record_view, text_bytes, text_to_bytes, RecordView,
    TransactionRecord,
};
use crate::store::{index_of, listing, stored_bytes};
use parquet::file::metadata::ParquetMetaData;
use crate::path::{path_text, ObjectPath, PathView};
use crate::storage::ServerId;
use crate::store::{put_spec, without_under, InMemoryStore};
use crate::text::{decimal, decimal_string};

verus! {

/// Errors of the catalog.
#[derive(Debug)]
pub enum CatalogError {
    /// A new empty catalog was asked for where transactions are stored already.
    OpenEmptyCatalogExists,
    /// The file is part of the catalog state already.
    ParquetFileAlreadyExists { path: ObjectPath },
    /// Two transaction objects name one revision; `uuid1 < uuid2`.
    MultipleTransactions { revision_counter: u64, uuid1: u128, uuid2: u128 },
    /// The transaction of this revision is missing, cannot be read, does not
    /// continue the log, or adds a file that cannot be read or is there already.
    CatalogLoadCorrupt { revision_counter: u64 },
}

impl CatalogError {
    /// What [`CatalogError::message`] gives.
    pub open spec fn message_spec(&self) -> Seq<char> {
        match self {
            CatalogError::OpenEmptyCatalogExists =>
                "Catalog already exists, cannot create a new empty one"@,
            CatalogError::ParquetFileAlreadyExists { path } => "File already exists in catalog: "@
                + path_text(path@),
            CatalogError::MultipleTransactions { revision_counter, uuid1, uuid2 } =>
                "Found multiple transaction for revision "@ + decimal(*revision_counter as nat)
                    + ": "@ + uuid_text(*uuid1) + " and "@ + uuid_text(*uuid2),
            CatalogError::CatalogLoadCorrupt { revision_counter } =>
                "Cannot load transaction of revision "@ + decimal(*revision_counter as nat),
        }
    }

    /// A description of the error.
    pub fn message(&self) -> (r: String)
        ensures
            r@ == self.message_spec(),
    {
        match self {
            CatalogError::OpenEmptyCatalogExists => String::from_str(
                "Catalog already exists, cannot create a new empty one",
            ),
            CatalogError::ParquetFileAlreadyExists { path } => {
                let mut s = String::from_str("File already exists in catalog: ");
                let p = path.display();
                s.append(p.as_str());
                s
            },
            CatalogError::MultipleTransactions { revision_counter, uuid1, uuid2 } => {
                let mut s = String::from_str("Found multiple transaction for revision ");
                s.append(decimal_string(*revision_counter).as_str());
                s.append(": ");
                s.append(format_uuid(*uuid1).as_str());
                s.append(" and ");
                s.append(format_uuid(*uuid2).as_str());
                s
            },
            CatalogError::CatalogLoadCorrupt { revision_counter } => {
                let mut s = String::from_str("Cannot load transaction of revision ");
                s.append(decimal_string(*revision_counter).as_str());
                s
            },
        }
    }
}

/// The directory of a database's transaction objects:
/// `<server id>/<db>/transactions`.
pub open spec fn transaction_dirs(server: u32, db: Seq<char>) -> Seq<Seq<char>> {
    seq![decimal(server as nat), db, "transactions"@]
}

/// The key of the transaction object of revision `revision` with id `uuid`:
/// `<server id>/<db>/transactions/<revision>/<uuid>.txn`.
pub open spec fn transaction_location_spec(server: u32, db: Seq<char>, revision: u64, uuid: u128) -> PathView {
    PathView {
        dirs: transaction_dirs(server, db).push(decimal(revision as nat)),
        file_name: Some(uuid_text(uuid) + txn_suffix()),
    }
}

/// The file-name suffix of a transaction object.
pub open spec fn txn_suffix() -> Seq<char> {
    seq!['.', 't', 'x', 'n']
}

/// What the key of a transaction object of this database says: its
/// revision and id.
pub open spec fn parse_transaction_key(server: u32, db: Seq<char>, p: PathView) -> Option<(u64, u128)> {
    match p.file_name {
        Some(f) => if p.dirs.len() == 4 && p.dirs.subrange(0, 3) == transaction_dirs(server, db)
            && parse_u64_spec(p.dirs[3]) is Some && ends_with(f, txn_suffix()) && parse_uuid_spec(
            f.subrange(0, f.len() - 4),
        ) is Some {
            Some((parse_u64_spec(p.dirs[3])->0, parse_uuid_spec(f.subrange(0, f.len() - 4))->0))
        } else {
            None
        },
        None => None,
    }
}

/// The record in the transaction object of `revision` with id `uuid`.
pub open spec fn record_at(
    entries: Seq<(PathView, Seq<u8>)>,
    server: u32,
    db: Seq<char>,
    revision: u64,
    uuid: u128,
) -> Option<RecordView> {
    match index_of(entries, transaction_location_spec(server, db, revision, uuid), 0) {
        Some(i) => match bytes_text(entries[i].1) {
            Some(t) => decode_record_spec(t),
            None => None,
        },
        None => None,
    }
}

/// Whether a record is the one a linear log holds at `revision`: it names
/// that revision, the id, and the id of the revision before.
pub open spec fn record_fits(rec: Option<RecordView>, revision: u64, uuid: u128, before: Seq<u128>) -> bool {
    match rec {
        Some(x) => x.0 == revision && x.1 == uuid && x.2 == previous_of(before),
        None => false,
    }
}

/// Whether a transaction key names a committed revision and its id.
pub open spec fn key_fits(key: Option<(u64, u128)>, revision: u64, history: Seq<u128>) -> bool {
    match key {
        Some((rev, u)) => 1 <= rev <= revision && u == history[rev - 1],
        None => true,
    }
}

/// The keys a record adds; none for no record.
pub open spec fn added_of(rec: Option<RecordView>) -> Seq<PathView> {
    match rec {
        Some(x) => x.3,
        None => Seq::empty(),
    }
}

/// The keys that the records of revisions 1 to `r` add, in order.
pub open spec fn loaded_keys(
    entries: Seq<(PathView, Seq<u8>)>,
    server: u32,
    db: Seq<char>,
    history: Seq<u128>,
    r: nat,
) -> Seq<PathView>
    decreases r,
{
    if r == 0 {
        Seq::empty()
    } else {
        loaded_keys(entries, server, db, history, (r - 1) as nat) + added_of(
            record_at(entries, server, db, r as u64, history[r - 1]),
        )
    }
}

proof fn lemma_loaded_keys_prefix(
    entries: Seq<(PathView, Seq<u8>)>,
    server: u32,
    db: Seq<char>,
    h1: Seq<u128>,
    h2: Seq<u128>,
    r: nat,
)
    requires
        r <= h1.len(),
        r <= h2.len(),
        h1.subrange(0, r as int) == h2.subrange(0, r as int),
    ensures
        loaded_keys(entries, server, db, h1, r) == loaded_keys(entries, server, db, h2, r),
    decreases r,
{
    if r > 0 {
        assert(h1.subrange(0, r - 1) =~= h1.subrange(0, r as int).subrange(0, r - 1));
        assert(h2.subrange(0, r - 1) =~= h2.subrange(0, r as int).subrange(0, r - 1));
        assert(h1[r - 1] == h1.subrange(0, r as int)[r - 1]);
        assert(h2[r - 1] == h2.subrange(0, r as int)[r - 1]);
        lemma_loaded_keys_prefix(entries, server, db, h1, h2, (r - 1) as nat);
    }
}

/// The id before the last one committed, none before the first commit.
pub open spec fn previous_of(history: Seq<u128>) -> Option<u128> {
    if history.len() == 0 {
        None
    } else {
        Some(history.last())
    }
}

/// The bytes of the transaction object of a record.
pub open spec fn transaction_bytes(r: RecordView) -> Seq<u8> {
    text_bytes(record_text(r))
}

/// The object a commit stores reads back as the record it was made from:
/// its bytes hold the record's text, and the text reads as the record.
pub proof fn lemma_transaction_object_round_trip(r: RecordView)
    ensures
        bytes_text(transaction_bytes(r)) == Some(record_text(r)),
        decode_record_spec(record_text(r)) == Some(r),
{
    crate::record::lemma_bytes_round_trip(record_text(r));
    crate::record::lemma_record_round_trip(r);
}

pub open spec fn no_duplicates(s: Seq<PathView>) -> bool {
    forall|i: int, j: int| 0 <= i < j < s.len() ==> s[i] != s[j]
}

/// The live chunk files: each key with the summary recorded for it.
pub struct CatalogState<S> {
    files: Vec<(ObjectPath, S)>,
}

impl<S> CatalogState<S> {
    /// The keys, in the order they were added.
    pub closed spec fn keys(&self) -> Seq<PathView> {
        self.files@.map_values(|e: (ObjectPath, S)| e.0@)
    }

    pub open spec fn wf(&self) -> bool {
        no_duplicates(self.keys())
    }

    /// A state with no file.
    pub fn new_empty() -> (r: CatalogState<S>)
        ensures
            r.keys().len() == 0,
            r.wf(),
    {
        let r = CatalogState { files: Vec::new() };
        assert(r.keys() =~= Seq::<PathView>::empty());
        r
    }

    /// Whether a file is recorded under `path`.
    pub fn contains(&self, path: &ObjectPath) -> (r: bool)
        ensures
            r == self.keys().contains(path@),
    {
        let mut i: usize = 0;
        while i < self.files.len()
            invariant
                i <= self.files@.len(),
                forall|j: int| 0 <= j < i ==> self.keys()[j] != path@,
            decreases self.files@.len() - i,
        {
            assert(self.keys()[i as int] == self.files@[i as int].0@);
            if self.files[i].0.same_as(path) {
                return true;
            }
            i = i + 1;
        }
        false
    }

    /// Records a file; fails where `path` is recorded already.
    pub fn add(&mut self, path: ObjectPath, summary: S) -> (r: Result<(), CatalogError>)
        requires
            old(self).wf(),
        ensures
            final(self).wf(),
            r is Ok == !old(self).keys().contains(path@),
            r is Ok ==> final(self).keys() == old(self).keys().push(path@),
            r is Err ==> final(self).keys() == old(self).keys(),
            r matches Err(CatalogError::ParquetFileAlreadyExists { path: p }) ==> p@ == path@,
            r matches Err(e) ==> e is ParquetFileAlreadyExists,
    {
        if self.contains(&path) {
            return Err(CatalogError::ParquetFileAlreadyExists { path });
        }
        let ghost k = self.keys();
        let ghost p = path@;
        self.files.push((path, summary));
        assert(self.keys() =~= k.push(p));
        Ok(())
    }

    /// The number of files.
    pub fn len(&self) -> (r: usize)
        ensures
            r == self.keys().len(),
    {
        self.files.len()
    }

    /// The keys of the files, in the order they were added.
    pub fn paths(&self) -> (r: Vec<ObjectPath>)
        ensures
            r@.map_values(|p: ObjectPath| p@) == self.keys(),
    {
        let mut out: Vec<ObjectPath> = Vec::new();
        let mut i: usize = 0;
        while i < self.files.len()
            invariant
                i <= self.files@.len(),
                out@.map_values(|p: ObjectPath| p@) == self.keys().subrange(0, i as int),
            decreases self.files@.len() - i,
        {
            let ghost before = out@.map_values(|p: ObjectPath| p@);
            out.push(self.files[i].0.duplicate());
            assert(out@.map_values(|p: ObjectPath| p@) =~= before.push(self.keys()[i as int]));
            assert(self.keys().subrange(0, i as int + 1) =~= self.keys().subrange(0, i as int).push(
                self.keys()[i as int],
            ));
            i = i + 1;
        }
        assert(self.keys().subrange(0, i as int) =~= self.keys());
        out
    }

    /// The keys of the files added at or after position `from`.
    pub fn paths_from(&self, from: usize) -> (r: Vec<ObjectPath>)
        requires
            from <= self.keys().len(),
        ensures
            r@.map_values(|p: ObjectPath| p@) == self.keys().subrange(from as int, self.keys().len() as int),
    {
        let mut out: Vec<ObjectPath> = Vec::new();
        let mut i: usize = from;
        assert(self.keys().subrange(from as int, from as int) =~= Seq::<PathView>::empty());
        while i < self.files.len()
            invariant
                from <= i <= self.files@.len(),
                out@.map_values(|p: ObjectPath| p@) == self.keys().subrange(from as int, i as int),
            decreases self.files@.len() - i,
        {
            let ghost before = out@.map_values(|p: ObjectPath| p@);
            out.push(self.files[i].0.duplicate());
            assert(out@.map_values(|p: ObjectPath| p@) =~= before.push(self.keys()[i as int]));
            assert(self.keys().subrange(from as int, i as int + 1) =~= self.keys().subrange(
                from as int,
                i as int,
            ).push(self.keys()[i as int]));
            i = i + 1;
        }
        out
    }

    fn truncate(&mut self, len: usize)
        requires
            old(self).wf(),
            len <= old(self).keys().len(),
        ensures
            final(self).wf(),
            final(self).keys() == old(self).keys().subrange(0, len as int),
    {
        self.files.truncate(len);
        assert(self.keys() =~= old(self).keys().subrange(0, len as int));
    }
}

/// Relies on `uuid::Uuid::new_v4`: a random id.
#[verifier::external_body]
fn random_uuid() -> (r: u128) {
    uuid::Uuid::new_v4().as_u128()
}

/// The directory of a database's transaction objects.
pub fn transactions_location(server_id: ServerId, db_name: &String) -> (r: ObjectPath)
    ensures
        r@.dirs == transaction_dirs(server_id.get(), db_name@),
        r@.file_name is None,
{
    let mut path = ObjectPath::root();
    path.push_dir(decimal_string(server_id.get() as u64));
    path.push_dir(db_name.clone());
    path.push_dir(String::from_str("transactions"));
    assert(path@.dirs =~= transaction_dirs(server_id.get(), db_name@));
    path
}

/// The key of a transaction object.
pub fn transaction_location(server_id: ServerId, db_name: &String, revision: u64, uuid: u128) -> (r:
    ObjectPath)
    ensures
        r@ == transaction_location_spec(server_id.get(), db_name@, revision, uuid),
{
    let mut path = transactions_location(server_id, db_name);
    path.push_dir(decimal_string(revision));
    let mut name = format_uuid(uuid);
    name.append(".txn");
    proof {
        reveal_strlit(".txn");
        assert(".txn"@ =~= txn_suffix());
    }
    path.set_file_name(name);
    path
}

/// A catalog whose committed transactions are stored in an object store.
pub struct PreservedCatalog<S> {
    server_id: ServerId,
    db_name: String,
    revision_counter: u64,
    previous_uuid: Option<u128>,
    state: CatalogState<S>,
    history: Ghost<Seq<u128>>,
}

impl<S> PreservedCatalog<S> {
    pub closed spec fn server(&self) -> u32 {
        self.server_id.get()
    }

    pub closed spec fn db(&self) -> Seq<char> {
        self.db_name@
    }

    /// The revision of the last committed transaction, 0 for none.
    pub closed spec fn revision(&self) -> u64 {
        self.revision_counter
    }

    /// The ids of the committed transactions: the one of revision `r` at
    /// index `r - 1`.
    pub closed spec fn history(&self) -> Seq<u128> {
        self.history@
    }

    /// The keys of the live files, in the order they were added.
    pub closed spec fn keys(&self) -> Seq<PathView> {
        self.state.keys()
    }

    pub closed spec fn wf(&self) -> bool {
        &&& self.state.wf()
        &&& self.history@.len() == self.revision_counter
        &&& self.previous_uuid == (if self.revision_counter == 0 {
            None
        } else {
            Some(self.history@.last())
        })
    }

    /// A well-formed catalog has distinct keys and one id per committed
    /// revision.
    pub proof fn lemma_wf(&self)
        requires
            self.wf(),
        ensures
            no_duplicates(self.keys()),
            self.history().len() == self.revision(),
    {
    }

    /// A catalog at revision 0, with no file. Fails where the store holds
    /// transaction objects of this database already.
    pub fn new_empty(store: &InMemoryStore, server_id: ServerId, db_name: String) -> (r: Result<
        PreservedCatalog<S>,
        CatalogError,
    >)
        ensures
            r is Err == exists|i: int|
                0 <= i < store.entries().len() && crate::path::under_dirs(
                    #[trigger] store.entries()[i].0,
                    transaction_dirs(server_id.get(), db_name@),
                ),
            r matches Err(e) ==> e is OpenEmptyCatalogExists,
            r matches Ok(c) ==> {
                &&& c.wf()
                &&& c.revision() == 0
                &&& c.history().len() == 0
                &&& c.keys().len() == 0
                &&& c.server() == server_id.get()
                &&& c.db() == db_name@
            },
    {
        let prefix = transactions_location(server_id, &db_name);
        if store.any_under(&prefix) {
            return Err(CatalogError::OpenEmptyCatalogExists);
        }
        Ok(
            PreservedCatalog {
                server_id,
                db_name,
                revision_counter: 0,
                previous_uuid: None,
                state: CatalogState::new_empty(),
                history: Ghost(Seq::empty()),
            },
        )
    }

    /// Deletes every transaction object of the database; chunk files stay.
    pub fn wipe(store: &mut InMemoryStore, server_id: ServerId, db_name: &String)
        requires
            old(store).wf(),
        ensures
            final(store).wf(),
            final(store).entries() == without_under(
                old(store).entries(),
                transaction_dirs(server_id.get(), db_name@),
            ),
    {
        let prefix = transactions_location(server_id, db_name);
        store.delete_under(&prefix);
    }

    /// The revision of the last committed transaction.
    pub fn revision_counter(&self) -> (r: u64)
        ensures
            r == self.revision(),
    {
        self.revision_counter
    }

    /// The live files.
    pub fn state(&self) -> (r: &CatalogState<S>)
        ensures
            r.keys() == self.keys(),
    {
        &self.state
    }

    /// Opens a transaction with a fresh random id. The transaction holds the
    /// catalog until it is committed or aborted.
    pub fn open_transaction(self) -> (r: Transaction<S>)
        requires
            self.wf(),
            self.revision() < u64::MAX,
        ensures
            r.wf(),
            r.base_revision() == self.revision(),
            r.base_history() == self.history(),
            r.base_keys() == self.keys(),
            r.staged().len() == 0,
            r.server() == self.server(),
            r.db() == self.db(),
    {
        let uuid = random_uuid();
        self.open_transaction_with_uuid(uuid)
    }

    /// Opens a transaction with the given id.
    pub fn open_transaction_with_uuid(self, uuid: u128) -> (r: Transaction<S>)
        requires
            self.wf(),
            self.revision() < u64::MAX,
        ensures
            r.wf(),
            r.uuid_spec() == uuid,
            r.base_revision() == self.revision(),
            r.base_history() == self.history(),
            r.base_keys() == self.keys(),
            r.staged().len() == 0,
            r.server() == self.server(),
            r.db() == self.db(),
    {
        let base_len = self.state.len();
        let tx = Transaction { catalog: self, base_len, uuid };
        assert(tx.catalog.state.keys().subrange(0, base_len as int) =~= tx.catalog.state.keys());
        assert(tx.staged() =~= Seq::<PathView>::empty());
        tx
    }
}

/// An open transaction: files staged on top of a catalog's state, published
/// as the next revision by [`Transaction::commit`].
pub struct Transaction<S> {
    catalog: PreservedCatalog<S>,
    base_len: usize,
    uuid: u128,
}

impl<S> Transaction<S> {
    pub closed spec fn wf(&self) -> bool {
        &&& self.catalog.wf()
        &&& self.base_len <= self.catalog.state.keys().len()
        &&& self.catalog.revision_counter < u64::MAX
    }

    pub closed spec fn server(&self) -> u32 {
        self.catalog.server()
    }

    pub closed spec fn db(&self) -> Seq<char> {
        self.catalog.db()
    }

    pub closed spec fn uuid_spec(&self) -> u128 {
        self.uuid
    }

    /// The revision of the catalog the transaction was opened on.
    pub closed spec fn base_revision(&self) -> u64 {
        self.catalog.revision_counter
    }

    pub closed spec fn base_history(&self) -> Seq<u128> {
        self.catalog.history@
    }

    /// The keys the catalog held when the transaction was opened.
    pub closed spec fn base_keys(&self) -> Seq<PathView> {
        self.catalog.state.keys().subrange(0, self.base_len as int)
    }

    /// The keys added by the transaction, in order.
    pub closed spec fn staged(&self) -> Seq<PathView> {
        self.catalog.state.keys().subrange(
            self.base_len as int,
            self.catalog.state.keys().len() as int,
        )
    }

    /// The revision this transaction gets when committed.
    pub fn revision_counter(&self) -> (r: u64)
        requires
            self.wf(),
        ensures
            r == self.base_revision() + 1,
    {
        self.catalog.revision_counter + 1
    }

    /// The id of the transaction.
    pub fn uuid(&self) -> (r: u128)
        ensures
            r == self.uuid_spec(),
    {
        self.uuid
    }

    /// Adds a chunk file; fails where the catalog or this transaction has a
    /// file under `path` already.
    pub fn add_parquet(&mut self, path: &ObjectPath, summary: S) -> (r: Result<(), CatalogError>)
        requires
            old(self).wf(),
        ensures
            final(self).wf(),
            final(self).uuid_spec() == old(self).uuid_spec(),
            final(self).base_revision() == old(self).base_revision(),
            final(self).base_history() == old(self).base_history(),
            final(self).base_keys() == old(self).base_keys(),
            final(self).server() == old(self).server(),
            final(self).db() == old(self).db(),
            r is Ok == !(old(self).base_keys() + old(self).staged()).contains(path@),
            r is Ok ==> final(self).staged() == old(self).staged().push(path@),
            r is Err ==> final(self).staged() == old(self).staged(),
            r matches Err(e) ==> e is ParquetFileAlreadyExists,
    {
        let ghost k = self.catalog.state.keys();
        assert(k =~= self.base_keys() + self.staged());
        let r = self.catalog.state.add(path.duplicate(), summary);
        proof {
            let k2 = self.catalog.state.keys();
            if r is Ok {
                assert(k2.subrange(0, self.base_len as int) =~= k.subrange(0, self.base_len as int));
                assert(k2.subrange(self.base_len as int, k2.len() as int) =~= k.subrange(
                    self.base_len as int,
                    k.len() as int,
                ).push(path@));
            }
        }
        r
    }

    /// Publishes the transaction as the next revision: its object is stored
    /// under [`transaction_location_spec`] and the catalog advances.
    pub fn commit(self, store: &mut InMemoryStore) -> (r: PreservedCatalog<S>)
        requires
            self.wf(),
            old(store).wf(),
        ensures
            r.wf(),
            r.revision() == self.base_revision() + 1,
            r.history() == self.base_history().push(self.uuid_spec()),
            r.keys() == self.base_keys() + self.staged(),
            r.server() == self.server(),
            r.db() == self.db(),
            final(store).wf(),
            final(store).entries() == put_spec(
                old(store).entries(),
                transaction_location_spec(
                    self.server(),
                    self.db(),
                    (self.base_revision() + 1) as u64,
                    self.uuid_spec(),
                ),
                transaction_bytes(
                    (
                        (self.base_revision() + 1) as u64,
                        self.uuid_spec(),
                        previous_of(self.base_history()),
                        self.staged(),
                    ),
                ),
            ),
    {
        let Transaction { catalog, base_len, uuid } = self;
        let revision = catalog.revision_counter + 1;
        let rec = TransactionRecord {
            revision,
            uuid,
            previous_uuid: catalog.previous_uuid,
            added: catalog.state.paths_from(base_len),
        };
        let text = encode_record(&rec);
        let bytes = text_to_bytes(text.as_str());
        let path = transaction_location(catalog.server_id, &catalog.db_name, revision, uuid);
        let ghost b = bytes@;
        store.put(path, bytes);
        let PreservedCatalog { server_id, db_name, revision_counter, previous_uuid, state, history } =
            catalog;
        assert(final(store).entries() == put_spec(
            old(store).entries(),
            transaction_location_spec(server_id.get(), db_name@, revision, uuid),
            b,
        ));
        let ghost keys = state.keys();
        assert(keys =~= keys.subrange(0, base_len as int) + keys.subrange(
            base_len as int,
            keys.len() as int,
        ));
        PreservedCatalog {
            server_id,
            db_name,
            revision_counter: revision,
            previous_uuid: Some(uuid),
            state,
            history: Ghost(history@.push(uuid)),
        }
    }

    /// Drops the staged files and gives the catalog back unchanged.
    pub fn abort(self) -> (r: PreservedCatalog<S>)
        requires
            self.wf(),
        ensures
            r.wf(),
            r.revision() == self.base_revision(),
            r.history() == self.base_history(),
            r.keys() == self.base_keys(),
            r.server() == self.server(),
            r.db() == self.db(),
    {
        let Transaction { catalog, base_len, uuid } = self;
        let mut catalog = catalog;
        catalog.state.truncate(base_len);
        catalog
    }
}

fn ends_with_txn(f: &str) -> (r: bool)
    ensures
        r == ends_with(f@, txn_suffix()),
{
    let n = f.unicode_len();
    if n < 4 {
        return false;
    }
    let r = f.get_char(n - 4) == '.' && f.get_char(n - 3) == 't' && f.get_char(n - 2) == 'x'
        && f.get_char(n - 1) == 'n';
    proof {
        let tail = f@.subrange(n - 4, n as int);
        if r {
            assert(tail =~= txn_suffix());
        } else {
            assert(tail[0] != '.' || tail[1] != 't' || tail[2] != 'x' || tail[3] != 'n');
            assert(tail != txn_suffix());
        }
    }
    r
}

/// Reads the revision and id back from the key of a transaction object.
fn parse_transaction_key_exec(server_id: ServerId, db_name: &String, p: &ObjectPath) -> (r: Option<
    (u64, u128),
>)
    ensures
        r == parse_transaction_key(server_id.get(), db_name@, p@),
{
    let f = match &p.file_name {
        Some(f) => f,
        None => {
            return None;
        },
    };
    if p.dirs.len() != 4 {
        return None;
    }
    let server = decimal_string(server_id.get() as u64);
    let same_dirs = crate::path::text_eq(p.dirs[0].as_str(), server.as_str())
        && crate::path::text_eq(p.dirs[1].as_str(), db_name.as_str()) && crate::path::text_eq(
        p.dirs[2].as_str(),
        "transactions",
    );
    proof {
        let d = p@.dirs.subrange(0, 3);
        if same_dirs {
            assert(d =~= transaction_dirs(server_id.get(), db_name@));
        } else {
            assert(d[0] != transaction_dirs(server_id.get(), db_name@)[0] || d[1]
                != transaction_dirs(server_id.get(), db_name@)[1] || d[2] != transaction_dirs(
                server_id.get(),
                db_name@,
            )[2]);
        }
    }
    if !same_dirs {
        return None;
    }
    let revision = match parse_u64_text(p.dirs[3].as_str()) {
        Some(v) => v,
        None => {
            return None;
        },
    };
    if !ends_with_txn(f.as_str()) {
        return None;
    }
    let n = f.as_str().unicode_len();
    match parse_uuid(f.as_str().substring_char(0, n - 4)) {
        Some(u) => Some((revision, u)),
        None => None,
    }
}

/// Whether the transaction object of revision `rev` with id `u` loads on
/// top of the revisions with ids `before` and keys `keys_before`: its record
/// fits the log, and every file it adds is in the store, has a readable
/// footer, and is new.
#[verifier::opaque]
pub open spec fn next_loads(
    es: Seq<(PathView, Seq<u8>)>,
    server: u32,
    db: Seq<char>,
    rev: u64,
    u: u128,
    before: Seq<u128>,
    keys_before: Seq<PathView>,
) -> bool {
    match record_at(es, server, db, rev, u) {
        Some(x) => {
            &&& x.0 == rev
            &&& x.1 == u
            &&& x.2 == previous_of(before)
            &&& forall|i: int|
                0 <= i < x.3.len() ==> index_of(es, #[trigger] x.3[i], 0) is Some && footer_readable(
                    stored_bytes(es, x.3[i]),
                )
            &&& no_duplicates(keys_before + x.3)
        },
        None => false,
    }
}

/// Whether the records of revisions 1 to `h.len()`, with the ids in `h`,
/// fit the log.
#[verifier::opaque]
pub open spec fn loaded_prefix(es: Seq<(PathView, Seq<u8>)>, server: u32, db: Seq<char>, h: Seq<u128>) -> bool {
    forall|rev: int|
        1 <= rev <= h.len() ==> record_fits(
            record_at(es, server, db, rev as u64, #[trigger] h[rev - 1]),
            rev as u64,
            h[rev - 1],
            h.subrange(0, rev - 1),
        )
}

/// Why loading fails at revision `rc`: a key of revision 0; no key of a
/// revision below the highest; or a transaction that does not load on top of
/// the revisions before it.
pub open spec fn load_corrupt_at(
    es: Seq<(PathView, Seq<u8>)>,
    server: u32,
    db: Seq<char>,
    keys: Seq<PathView>,
    rc: u64,
) -> bool {
    ||| rc == 0 && exists|k: int|
        0 <= k < keys.len() && key_has_revision(
            #[trigger] parse_transaction_key(server, db, keys[k]),
            0,
        )
    ||| rc > 0 && forall|k: int|
        0 <= k < keys.len() ==> !key_has_revision(
            #[trigger] parse_transaction_key(server, db, keys[k]),
            rc,
        )
    ||| rc > 0 && exists|u: u128, h: Seq<u128>|
        h.len() == rc - 1 && (exists|k: int|
            0 <= k < keys.len() && #[trigger] parse_transaction_key(server, db, keys[k]) == Some(
                (rc, u),
            )) && loaded_prefix(es, server, db, h) && !#[trigger] next_loads(
            es,
            server,
            db,
            rc,
            u,
            h,
            loaded_keys(es, server, db, h, h.len()),
        )
}

/// The keys under the directory of a database's transaction objects.
pub open spec fn transaction_keys(es: Seq<(PathView, Seq<u8>)>, server: u32, db: Seq<char>) -> Seq<PathView> {
    listing(es, transaction_dirs(server, db))
}

/// Whether a parsed key names revision `r`.
pub open spec fn key_has_revision(key: Option<(u64, u128)>, r: u64) -> bool {
    match key {
        Some((rev, _)) => rev == r,
        None => false,
    }
}

/// The id of the one transaction of revision `r` among the parsed keys.
fn find_uuid(parsed: &Vec<Option<(u64, u128)>>, r: u64) -> (res: Result<u128, CatalogError>)
    ensures
        res matches Ok(u) ==> forall|j: int|
            0 <= j < parsed@.len() ==> key_fits_one(#[trigger] parsed@[j], r, u),
        res matches Ok(u) ==> exists|j: int| 0 <= j < parsed@.len() && #[trigger] parsed@[j] == Some((r, u)),
        res matches Err(e) ==> e is MultipleTransactions || e is CatalogLoadCorrupt,
        res matches Err(CatalogError::MultipleTransactions { revision_counter, uuid1, uuid2 }) ==> {
            &&& revision_counter == r
            &&& uuid1 < uuid2
            &&& exists|j: int| 0 <= j < parsed@.len() && #[trigger] parsed@[j] == Some((r, uuid1))
            &&& exists|j: int| 0 <= j < parsed@.len() && #[trigger] parsed@[j] == Some((r, uuid2))
        },
        res matches Err(CatalogError::CatalogLoadCorrupt { revision_counter }) ==> revision_counter
            == r && forall|j: int| 0 <= j < parsed@.len() ==> !key_has_revision(#[trigger] parsed@[j], r),
{
    let mut uuid: Option<u128> = None;
    let mut i: usize = 0;
    while i < parsed.len()
        invariant
            i <= parsed@.len(),
            uuid is None ==> forall|j: int| 0 <= j < i ==> !key_has_revision(#[trigger] parsed@[j], r),
            uuid matches Some(u) ==> forall|j: int| 0 <= j < i ==> key_fits_one(#[trigger] parsed@[j], r, u),
            uuid matches Some(u) ==> exists|j: int| 0 <= j < i && #[trigger] parsed@[j] == Some((r, u)),
        decreases parsed@.len() - i,
    {
        match parsed[i] {
            Some((rev, id)) => {
                if rev == r {
                    match uuid {
                        None => {
                            uuid = Some(id);
                            assert(parsed@[i as int] == Some((r, id)));
                        },
                        Some(u) => {
                            if u != id {
                                assert(parsed@[i as int] == Some((r, id)));
                                let (uuid1, uuid2) = if u < id {
                                    (u, id)
                                } else {
                                    (id, u)
                                };
                                return Err(
                                    CatalogError::MultipleTransactions {
                                        revision_counter: r,
                                        uuid1,
                                        uuid2,
                                    },
                                );
                            }
                        },
                    }
                }
            },
            None => {},
        }
        i = i + 1;
    }
    match uuid {
        Some(u) => Ok(u),
        None => Err(CatalogError::CatalogLoadCorrupt { revision_counter: r }),
    }
}

/// Whether a parsed key at or below revision `done` names the id that
/// `history` has for its revision.
pub open spec fn key_known(key: Option<(u64, u128)>, done: u64, history: Seq<u128>) -> bool {
    match key {
        Some((rev, id)) => rev <= done ==> id == history[rev - 1],
        None => true,
    }
}

/// Whether a parsed key of revision `r` names id `u`.
pub open spec fn key_fits_one(key: Option<(u64, u128)>, r: u64, u: u128) -> bool {
    match key {
        Some((rev, id)) => rev == r ==> id == u,
        None => true,
    }
}

fn parse_keys(server_id: ServerId, db_name: &String, keys: &Vec<ObjectPath>) -> (r: Vec<Option<(u64, u128)>>)
    ensures
        r@.len() == keys@.len(),
        forall|k: int|
            0 <= k < keys@.len() ==> #[trigger] r@[k] == parse_transaction_key(
                server_id.get(),
                db_name@,
                keys@[k]@,
            ),
{
    let mut out: Vec<Option<(u64, u128)>> = Vec::new();
    let mut i: usize = 0;
    while i < keys.len()
        invariant
            i <= keys@.len(),
            out@.len() == i,
            forall|k: int|
                0 <= k < i ==> #[trigger] out@[k] == parse_transaction_key(
                    server_id.get(),
                    db_name@,
                    keys@[k]@,
                ),
        decreases keys@.len() - i,
    {
        out.push(parse_transaction_key_exec(server_id, db_name, &keys[i]));
        i = i + 1;
    }
    out
}

/// The highest revision among the parsed keys; fails on revision 0.
fn highest_revision(parsed: &Vec<Option<(u64, u128)>>) -> (r: Result<u64, CatalogError>)
    ensures
        r matches Ok(max) ==> forall|k: int|
            0 <= k < parsed@.len() ==> (#[trigger] parsed@[k] matches Some((rev, _)) ==> 1 <= rev
                <= max),
        r matches Ok(max) ==> (max == 0 <==> forall|k: int|
            0 <= k < parsed@.len() ==> #[trigger] parsed@[k] is None),
        r matches Err(e) ==> e is CatalogLoadCorrupt,
        r matches Err(CatalogError::CatalogLoadCorrupt { revision_counter }) ==> revision_counter == 0
            && exists|k: int| 0 <= k < parsed@.len() && key_has_revision(#[trigger] parsed@[k], 0),
{
    let mut max: u64 = 0;
    let mut j: usize = 0;
    while j < parsed.len()
        invariant
            j <= parsed@.len(),
            forall|x: int|
                0 <= x < j ==> (#[trigger] parsed@[x] matches Some((rev, _)) ==> 1 <= rev <= max),
            max == 0 <==> forall|x: int| 0 <= x < j ==> #[trigger] parsed@[x] is None,
        decreases parsed@.len() - j,
    {
        match parsed[j] {
            Some((rev, _)) => {
                if rev == 0 {
                    assert(key_has_revision(parsed@[j as int], 0));
                    return Err(CatalogError::CatalogLoadCorrupt { revision_counter: 0 });
                }
                if rev > max {
                    max = rev;
                }
            },
            None => {},
        }
        j = j + 1;
    }
    Ok(max)
}

impl PreservedCatalog<ParquetMetaData> {
    /// Replays the transaction object of the next revision, with id `u`.
    #[verifier::rlimit(50)]
    fn load_next(&mut self, store: &InMemoryStore, u: u128) -> (r: Result<(), CatalogError>)
        requires
            old(self).wf(),
            old(self).revision() < u64::MAX,
            old(self).keys() == loaded_keys(
                store.entries(),
                old(self).server(),
                old(self).db(),
                old(self).history(),
                old(self).revision() as nat,
            ),
        ensures
            r is Ok ==> {
                &&& final(self).wf()
                &&& final(self).server() == old(self).server()
                &&& final(self).db() == old(self).db()
                &&& final(self).revision() == old(self).revision() + 1
                &&& final(self).history() == old(self).history().push(u)
                &&& final(self).keys() == loaded_keys(
                    store.entries(),
                    final(self).server(),
                    final(self).db(),
                    final(self).history(),
                    final(self).revision() as nat,
                )
                &&& record_fits(
                    record_at(
                        store.entries(),
                        old(self).server(),
                        old(self).db(),
                        final(self).revision(),
                        u,
                    ),
                    final(self).revision(),
                    u,
                    old(self).history(),
                )
            },
            r is Ok == next_loads(
                store.entries(),
                old(self).server(),
                old(self).db(),
                (old(self).revision() + 1) as u64,
                u,
                old(self).history(),
                old(self).keys(),
            ),
            r matches Err(e) ==> e is CatalogLoadCorrupt,
            r matches Err(CatalogError::CatalogLoadCorrupt { revision_counter }) ==> revision_counter
                == old(self).revision() + 1,
    {
        let ghost es = store.entries();
        let ghost server = self.server();
        proof {
            self.lemma_wf();
            reveal(next_loads);
        }
        let ghost db = self.db();
        let r = self.revision_counter + 1;
        let path = transaction_location(self.server_id, &self.db_name, r, u);
        let bytes = match store.get(&path) {
            Some(b) => b,
            None => {
                return Err(CatalogError::CatalogLoadCorrupt { revision_counter: r });
            },
        };
        let text = match bytes_to_text(bytes) {
            Some(t) => t,
            None => {
                return Err(CatalogError::CatalogLoadCorrupt { revision_counter: r });
            },
        };
        let rec = match decode_record(text.as_str()) {
            Some(rec) => rec,
            None => {
                return Err(CatalogError::CatalogLoadCorrupt { revision_counter: r });
            },
        };
        let ghost rv = record_view(rec);
        assert(record_at(es, server, db, r, u) == Some(rv));
        let links = match (rec.previous_uuid, self.previous_uuid) {
            (Some(a), Some(b)) => a == b,
            (None, None) => true,
            _ => false,
        };
        if rec.revision != r || rec.uuid != u || !links {
            return Err(CatalogError::CatalogLoadCorrupt { revision_counter: r });
        }
        let TransactionRecord { revision: _, uuid: _, previous_uuid: _, added } = rec;
        let ghost paths = rv.3;
        let ghost keys_before = self.state.keys();
        let n = added.len();
        let mut k: usize = 0;
        assert(keys_before + paths.subrange(0, 0) =~= keys_before);
        while k < n
            invariant
                k <= n,
                n == added@.len(),
                paths == added@.map_values(|p: ObjectPath| p@),
                self.state.wf(),
                self.state.keys() == keys_before + paths.subrange(0, k as int),
                es == store.entries(),
                self.revision_counter == old(self).revision_counter,
                self.history@ == old(self).history@,
                self.previous_uuid == old(self).previous_uuid,
                self.server_id == old(self).server_id,
                self.db_name == old(self).db_name,
                record_at(es, server, db, r, u) == Some(rv),
                paths == rv.3,
                rv.0 == r,
                rv.1 == u,
                rv.2 == previous_of(old(self).history@),
                keys_before == old(self).state.keys(),
                server == old(self).server(),
                db == old(self).db(),
                r == old(self).revision_counter + 1,
                forall|j: int|
                    0 <= j < k ==> index_of(es, #[trigger] paths[j], 0) is Some && footer_readable(
                        stored_bytes(es, paths[j]),
                    ),
            decreases n - k,
        {
            assert(paths[k as int] == added@[k as int]@);
            assert(rv.3[k as int] == paths[k as int]);
            let chunk = match store.get(&added[k]) {
                Some(b) => b,
                None => {
                    assert(index_of(es, rv.3[k as int], 0) is None);
                    proof {
                        reveal(next_loads);
                    }
                    return Err(CatalogError::CatalogLoadCorrupt { revision_counter: r });
                },
            };
            assert(chunk@ == stored_bytes(es, rv.3[k as int]));
            let md = match read_footer(chunk) {
                Ok((md, _)) => md,
                Err(_) => {
                    assert(!footer_readable(stored_bytes(es, rv.3[k as int])));
                    proof {
                        reveal(next_loads);
                    }
                    return Err(CatalogError::CatalogLoadCorrupt { revision_counter: r });
                },
            };
            let ghost kb = self.state.keys();
            match self.state.add(added[k].duplicate(), md) {
                Ok(()) => {},
                Err(_) => {
                    proof {
                        let all = keys_before + paths;
                        let prefix = keys_before + paths.subrange(0, k as int);
                        assert(prefix.contains(paths[k as int]));
                        let w = choose|w: int| 0 <= w < prefix.len() && prefix[w] == paths[k as int];
                        let x = keys_before.len() + k;
                        assert(all[w] == prefix[w]);
                        assert(all[x] == paths[k as int]);
                        assert(!no_duplicates(all));
                        reveal(next_loads);
                    }
                    return Err(CatalogError::CatalogLoadCorrupt { revision_counter: r });
                },
            }
            assert(paths[k as int] == added@[k as int]@);
            assert(keys_before + paths.subrange(0, k as int + 1) =~= kb.push(paths[k as int]));
            k = k + 1;
        }
        let ghost h_old = self.history@;
        self.revision_counter = r;
        self.previous_uuid = Some(u);
        self.history = Ghost(h_old.push(u));
        proof {
            let h = self.history@;
            assert(h.subrange(0, r - 1) =~= h_old.subrange(0, r - 1));
            lemma_loaded_keys_prefix(es, server, db, h, h_old, (r - 1) as nat);
            assert(paths.subrange(0, n as int) =~= paths);
            assert(h[r - 1] == u);
            assert(self.state.keys() =~= loaded_keys(es, server, db, h, r as nat));
            assert(self.state.keys() == keys_before + paths);
        }
        Ok(())
    }

    /// Loads the catalog of a database from its transaction objects; `None`
    /// where there are none.
    ///
    /// Every revision from 1 to the highest one found must have exactly one
    /// transaction object, whose record names the revision, its id and the
    /// id of the revision before; the files it adds must be in the store,
    /// readable, and new to the catalog.
    /// Replays revisions 1 to `max` on an empty catalog, each with the one
    /// id the parsed keys name for it.
    #[verifier::rlimit(50)]
    fn load_revisions(
        empty: PreservedCatalog<ParquetMetaData>,
        store: &InMemoryStore,
        parsed: &Vec<Option<(u64, u128)>>,
        max: u64,
    ) -> (r: Result<PreservedCatalog<ParquetMetaData>, CatalogError>)
        requires
            empty.wf(),
            empty.revision() == 0,
            empty.keys().len() == 0,
            forall|k: int|
                0 <= k < parsed@.len() ==> (#[trigger] parsed@[k] matches Some((rev, _)) ==> 1 <= rev
                    <= max),
        ensures
            r matches Ok(c) ==> {
                &&& c.wf()
                &&& c.server() == empty.server()
                &&& c.db() == empty.db()
                &&& c.revision() == max
                &&& c.keys() == loaded_keys(store.entries(), c.server(), c.db(), c.history(), max as nat)
                &&& forall|x: int| 0 <= x < parsed@.len() ==> key_known(#[trigger] parsed@[x], max, c.history())
                &&& loaded_prefix(store.entries(), c.server(), c.db(), c.history())
            },
            r matches Err(e) ==> e is MultipleTransactions || e is CatalogLoadCorrupt,
            r matches Err(CatalogError::MultipleTransactions { revision_counter, uuid1, uuid2 }) ==> {
                &&& uuid1 < uuid2
                &&& exists|j: int| 0 <= j < parsed@.len() && #[trigger] parsed@[j] == Some((revision_counter, uuid1))
                &&& exists|j: int| 0 <= j < parsed@.len() && #[trigger] parsed@[j] == Some((revision_counter, uuid2))
            },
            r matches Err(CatalogError::CatalogLoadCorrupt { revision_counter }) ==> revision_counter > 0 && (
            (forall|j: int| 0 <= j < parsed@.len() ==> !key_has_revision(#[trigger] parsed@[j], revision_counter))
                || exists|u: u128, h: Seq<u128>|
                h.len() == revision_counter - 1 && (exists|j: int|
                    0 <= j < parsed@.len() && #[trigger] parsed@[j] == Some((revision_counter, u)))
                    && loaded_prefix(store.entries(), empty.server(), empty.db(), h) && !#[trigger] next_loads(
                    store.entries(),
                    empty.server(),
                    empty.db(),
                    revision_counter,
                    u,
                    h,
                    loaded_keys(store.entries(), empty.server(), empty.db(), h, h.len()),
                )),
    {
        let ghost es = store.entries();
        let ghost server = empty.server();
        let ghost db = empty.db();
        let mut catalog = empty;
        assert(catalog.keys() =~= loaded_keys(es, server, db, catalog.history(), 0));
        assert(loaded_prefix(es, server, db, catalog.history())) by {
            reveal(loaded_prefix);
        }
        let mut done: u64 = 0;
        while done < max
            invariant
                done <= max,
                catalog.wf(),
                catalog.server() == server,
                catalog.db() == db,
                catalog.revision() == done,
                catalog.keys() == loaded_keys(es, server, db, catalog.history(), done as nat),
                es == store.entries(),
                forall|x: int|
                    0 <= x < parsed@.len() ==> key_known(#[trigger] parsed@[x], done, catalog.history()),
                forall|k: int|
                    0 <= k < parsed@.len() ==> (#[trigger] parsed@[k] matches Some((rev, _)) ==> 1 <= rev
                        <= max),
                loaded_prefix(es, server, db, catalog.history()),
                server == empty.server(),
                db == empty.db(),
            decreases max - done,
        {
            let r = done + 1;
            let u = match find_uuid(parsed, r) {
                Ok(u) => u,
                Err(e) => {
                    return Err(e);
                },
            };
            let ghost h_old = catalog.history();
            proof {
                catalog.lemma_wf();
            }
            match catalog.load_next(store, u) {
                Ok(()) => {},
                Err(e) => {
                    proof {
                        assert(h_old.len() == r - 1);
                        assert(!next_loads(es, server, db, r, u, h_old, loaded_keys(es, server, db, h_old, h_old.len())));
                        assert(loaded_prefix(es, server, db, h_old));
                        assert(exists|j: int| 0 <= j < parsed@.len() && #[trigger] parsed@[j] == Some((r, u)));
                        assert(e matches CatalogError::CatalogLoadCorrupt { revision_counter } && revision_counter == r);
                        assert(exists|u2: u128, h: Seq<u128>|
                            h.len() == r - 1 && (exists|j: int|
                                0 <= j < parsed@.len() && #[trigger] parsed@[j] == Some((r, u2)))
                                && loaded_prefix(es, server, db, h) && !#[trigger] next_loads(
                                es,
                                server,
                                db,
                                r,
                                u2,
                                h,
                                loaded_keys(es, server, db, h, h.len()),
                            ));
                    }
                    return Err(e);
                },
            }
            proof {
                lemma_load_step_prefix(es, server, db, h_old, u, r);
                lemma_load_step_keys(parsed@, h_old, u, r);
            }
            done = r;
        }
        proof {
            catalog.lemma_wf();
        }
        Ok(catalog)
    }

    /// Loads the catalog of a database from its transaction objects; `None`
    /// where there are none.
    ///
    /// Every revision from 1 to the highest one found must have exactly one
    /// transaction object, whose record names the revision, its id and the
    /// id of the revision before; the files it adds must be in the store,
    /// readable, and new to the catalog.
    pub fn load(store: &InMemoryStore, server_id: ServerId, db_name: String) -> (r: Result<
        Option<PreservedCatalog<ParquetMetaData>>,
        CatalogError,
    >)
        ensures
            r matches Ok(Some(c)) ==> {
                &&& c.wf()
                &&& c.server() == server_id.get()
                &&& c.db() == db_name@
                &&& c.revision() > 0
                &&& forall|k: int|
                    0 <= k < transaction_keys(store.entries(), server_id.get(), db_name@).len()
                        ==> key_fits(
                        parse_transaction_key(
                            server_id.get(),
                            db_name@,
                            #[trigger] transaction_keys(store.entries(), server_id.get(), db_name@)[k],
                        ),
                        c.revision(),
                        c.history(),
                    )
                &&& loaded_prefix(store.entries(), server_id.get(), db_name@, c.history())
                &&& c.keys() == loaded_keys(
                    store.entries(),
                    server_id.get(),
                    db_name@,
                    c.history(),
                    c.revision() as nat,
                )
            },
            r matches Err(e) ==> e is MultipleTransactions || e is CatalogLoadCorrupt,
            (r is Ok && r->Ok_0 is None) == (forall|k: int|
                0 <= k < transaction_keys(store.entries(), server_id.get(), db_name@).len()
                    ==> parse_transaction_key(
                    server_id.get(),
                    db_name@,
                    #[trigger] transaction_keys(store.entries(), server_id.get(), db_name@)[k],
                ) is None),
            r matches Err(CatalogError::MultipleTransactions { revision_counter, uuid1, uuid2 }) ==> {
                let keys = transaction_keys(store.entries(), server_id.get(), db_name@);
                &&& uuid1 < uuid2
                &&& exists|k: int|
                    0 <= k < keys.len() && #[trigger] parse_transaction_key(
                        server_id.get(),
                        db_name@,
                        keys[k],
                    ) == Some((revision_counter, uuid1))
                &&& exists|k: int|
                    0 <= k < keys.len() && #[trigger] parse_transaction_key(
                        server_id.get(),
                        db_name@,
                        keys[k],
                    ) == Some((revision_counter, uuid2))
            },
            r matches Err(CatalogError::CatalogLoadCorrupt { revision_counter }) ==> load_corrupt_at(
                store.entries(),
                server_id.get(),
                db_name@,
                transaction_keys(store.entries(), server_id.get(), db_name@),
                revision_counter,
            ),
    {
        let ghost server = server_id.get();
        let ghost db = db_name@;
        let ghost es = store.entries();
        let prefix = transactions_location(server_id, &db_name);
        let keys = store.list(&prefix);
        let ghost kv = keys@.map_values(|p: ObjectPath| p@);
        let parsed = parse_keys(server_id, &db_name, &keys);
        assert forall|k: int| 0 <= k < kv.len() implies parsed@[k] == parse_transaction_key(
            server,
            db,
            #[trigger] kv[k],
        ) by {
            assert(kv[k] == keys@[k]@);
        }
        assert(kv == transaction_keys(es, server, db));
        let max = match highest_revision(&parsed) {
            Ok(m) => m,
            Err(e) => {
                proof {
                    let k = choose|k: int| 0 <= k < parsed@.len() && key_has_revision(#[trigger] parsed@[k], 0);
                    assert(key_has_revision(parse_transaction_key(server, db, kv[k]), 0));
                    assert(parse_transaction_key(server, db, kv[k]) is Some);
                }
                return Err(e);
            },
        };
        if max == 0 {
            return Ok(None);
        }
        proof {
            let k = choose|k: int| 0 <= k < parsed@.len() && !(#[trigger] parsed@[k] is None);
            assert(parse_transaction_key(server, db, kv[k]) is Some);
        }
        let empty = PreservedCatalog {
            server_id,
            db_name,
            revision_counter: 0,
            previous_uuid: None,
            state: CatalogState::new_empty(),
            history: Ghost(Seq::empty()),
        };
        let r = Self::load_revisions(empty, store, &parsed, max);
        proof {
            lemma_load_result(es, server, db, kv, parsed@, max, r);
        }
        match r {
            Ok(c) => Ok(Some(c)),
            Err(e) => Err(e),
        }
    }
}

/// One more revision loaded with id `u` keeps the records before it fitting.
proof fn lemma_load_step_prefix(
    es: Seq<(PathView, Seq<u8>)>,
    server: u32,
    db: Seq<char>,
    h_old: Seq<u128>,
    u: u128,
    r: u64,
)
    requires
        r >= 1,
        h_old.len() == r - 1,
        loaded_prefix(es, server, db, h_old),
        record_fits(record_at(es, server, db, r, u), r, u, h_old),
    ensures
        loaded_prefix(es, server, db, h_old.push(u)),
{
    reveal(loaded_prefix);
    let h = h_old.push(u);
    assert forall|rev: int| 1 <= rev <= h.len() implies record_fits(
        record_at(es, server, db, rev as u64, #[trigger] h[rev - 1]),
        rev as u64,
        h[rev - 1],
        h.subrange(0, rev - 1),
    ) by {
        if rev < r {
            assert(h[rev - 1] == h_old[rev - 1]);
            assert(h.subrange(0, rev - 1) =~= h_old.subrange(0, rev - 1));
        } else {
            assert(h.subrange(0, rev - 1) =~= h_old);
        }
    }
}

/// One more revision loaded with id `u` keeps the parsed keys known.
proof fn lemma_load_step_keys(parsed: Seq<Option<(u64, u128)>>, h_old: Seq<u128>, u: u128, r: u64)
    requires
        r >= 1,
        forall|k: int|
            0 <= k < parsed.len() ==> (#[trigger] parsed[k] matches Some((rev, _)) ==> 1 <= rev),
        h_old.len() == r - 1,
        forall|x: int| 0 <= x < parsed.len() ==> key_known(#[trigger] parsed[x], (r - 1) as u64, h_old),
        forall|x: int| 0 <= x < parsed.len() ==> key_fits_one(#[trigger] parsed[x], r, u),
    ensures
        forall|x: int| 0 <= x < parsed.len() ==> key_known(#[trigger] parsed[x], r, h_old.push(u)),
{
    let h = h_old.push(u);
    assert forall|x: int| 0 <= x < parsed.len() implies key_known(#[trigger] parsed[x], r, h) by {
        if let Some((rev, id)) = parsed[x] {
            if rev < r {
                assert(key_known(parsed[x], (r - 1) as u64, h_old));
                assert(h[rev - 1] == h_old[rev - 1]);
            } else if rev == r {
                assert(key_fits_one(parsed[x], r, u));
            }
        }
    }
}

/// What the parsed keys say of the result of replaying them, said of the
/// keys themselves.
proof fn lemma_load_result(
    es: Seq<(PathView, Seq<u8>)>,
    server: u32,
    db: Seq<char>,
    kv: Seq<PathView>,
    parsed: Seq<Option<(u64, u128)>>,
    max: u64,
    r: Result<PreservedCatalog<ParquetMetaData>, CatalogError>,
)
    requires
        parsed.len() == kv.len(),
        forall|k: int| 0 <= k < kv.len() ==> parsed[k] == parse_transaction_key(server, db, #[trigger] kv[k]),
        forall|k: int|
            0 <= k < parsed.len() ==> (#[trigger] parsed[k] matches Some((rev, _)) ==> 1 <= rev <= max),
        r matches Ok(c) ==> c.revision() == max && forall|x: int|
            0 <= x < parsed.len() ==> key_known(#[trigger] parsed[x], max, c.history()),
        r matches Err(CatalogError::MultipleTransactions { revision_counter, uuid1, uuid2 }) ==> {
            &&& exists|j: int| 0 <= j < parsed.len() && #[trigger] parsed[j] == Some((revision_counter, uuid1))
            &&& exists|j: int| 0 <= j < parsed.len() && #[trigger] parsed[j] == Some((revision_counter, uuid2))
        },
        r matches Err(CatalogError::CatalogLoadCorrupt { revision_counter }) ==> revision_counter > 0 && (
        (forall|j: int| 0 <= j < parsed.len() ==> !key_has_revision(#[trigger] parsed[j], revision_counter))
            || exists|u: u128, h: Seq<u128>|
            h.len() == revision_counter - 1 && (exists|j: int|
                0 <= j < parsed.len() && #[trigger] parsed[j] == Some((revision_counter, u)))
                && loaded_prefix(es, server, db, h) && !#[trigger] next_loads(
                es,
                server,
                db,
                revision_counter,
                u,
                h,
                loaded_keys(es, server, db, h, h.len()),
            )),
    ensures
        r matches Ok(c) ==> forall|k: int|
            0 <= k < kv.len() ==> key_fits(
                parse_transaction_key(server, db, #[trigger] kv[k]),
                c.revision(),
                c.history(),
            ),
        r matches Err(CatalogError::MultipleTransactions { revision_counter, uuid1, uuid2 }) ==> {
            &&& exists|k: int| 0 <= k < kv.len() && #[trigger] parse_transaction_key(server, db, kv[k]) == Some((revision_counter, uuid1))
            &&& exists|k: int| 0 <= k < kv.len() && #[trigger] parse_transaction_key(server, db, kv[k]) == Some((revision_counter, uuid2))
        },
        r matches Err(CatalogError::CatalogLoadCorrupt { revision_counter }) ==> load_corrupt_at(
            es,
            server,
            db,
            kv,
            revision_counter,
        ),
{
    match r {
        Ok(c) => {
            assert forall|k: int| 0 <= k < kv.len() implies key_fits(
                parse_transaction_key(server, db, #[trigger] kv[k]),
                c.revision(),
                c.history(),
            ) by {
                assert(key_known(parsed[k], max, c.history()));
            }
        },
        Err(CatalogError::MultipleTransactions { revision_counter, uuid1, uuid2 }) => {
            let k1 = choose|j: int| 0 <= j < parsed.len() && #[trigger] parsed[j] == Some((revision_counter, uuid1));
            let k2 = choose|j: int| 0 <= j < parsed.len() && #[trigger] parsed[j] == Some((revision_counter, uuid2));
            assert(parse_transaction_key(server, db, kv[k1]) == Some((revision_counter, uuid1)));
            assert(parse_transaction_key(server, db, kv[k2]) == Some((revision_counter, uuid2)));
        },
        Err(CatalogError::CatalogLoadCorrupt { revision_counter }) => {
            let rc = revision_counter;
            if forall|j: int| 0 <= j < parsed.len() ==> !key_has_revision(#[trigger] parsed[j], rc) {
                assert forall|k: int| 0 <= k < kv.len() implies !key_has_revision(
                    #[trigger] parse_transaction_key(server, db, kv[k]),
                    rc,
                ) by {
                    assert(parsed[k] == parse_transaction_key(server, db, kv[k]));
                }
            } else {
                let (u, h) = choose|u: u128, h: Seq<u128>|
                    h.len() == rc - 1 && (exists|j: int|
                        0 <= j < parsed.len() && #[trigger] parsed[j] == Some((rc, u)))
                        && loaded_prefix(es, server, db, h) && !#[trigger] next_loads(
                        es,
                        server,
                        db,
                        rc,
                        u,
                        h,
                        loaded_keys(es, server, db, h, h.len()),
                    );
                let j = choose|j: int| 0 <= j < parsed.len() && #[trigger] parsed[j] == Some((rc, u));
                assert(parse_transaction_key(server, db, kv[j]) == Some((rc, u)));
            }
        },
        Err(_) => {},
    }
}

} // verus!
