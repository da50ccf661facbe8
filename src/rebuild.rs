//! Rebuilding a wiped catalog from the catalog records that chunk files
//! carry.
//!
//! Files are grouped by the revision in their record; the revisions are then
//! replayed in order as transactions with the original ids, revisions without
//! a file as empty transactions. Removals cannot be recovered, and files that
//! were never part of the catalog but carry fitting records are taken in.
use vstd::prelude::*;

use crate::catalog::{
    previous_of, transaction_bytes, transaction_dirs, transaction_location_spec, CatalogError,
    PreservedCatalog, no_duplicates,
};
use crate::columnar::{file_record, read_footer};
use crate::metadata::read_iox_metadata;
use crate::path::{is_parquet_spec, under_dirs};
use crate::store::{index_of, lemma_listing_keys, listing, put_spec, stored_bytes};
use parquet::file::metadata::ParquetMetaData;
use crate::hex::{format_uuid, uuid_text};
use crate::path::path_text;
use crate::text::decimal;
use crate::metadata::{IoxMetadata, MetadataError};
use crate::path::{ObjectPath, PathView};
use crate::storage::ServerId;
use crate::store::InMemoryStore;
use crate::text::push_decimal;

verus! {

/// A chunk file found by a scan, with what reading its catalog record gave.
pub struct ScannedFile<S> {
    pub path: ObjectPath,
    pub metadata: Result<(IoxMetadata, S), MetadataError>,
}

/// The files that a scan found for one revision.
pub struct RevisionGroup<S> {
    pub revision: u64,
    pub uuid: u128,
    pub files: Vec<(ObjectPath, S)>,
}

/// A scanned file as values: its key and its record.
pub type ScanView = (PathView, Result<IoxMetadata, MetadataError>);

/// A revision group as values: revision, id, keys in scan order.
pub type GroupView = (u64, u128, Seq<PathView>);

pub open spec fn scan_view<S>(f: ScannedFile<S>) -> ScanView {
    (
        f.path@,
        match f.metadata {
            Ok((m, _)) => Ok(m),
            Err(e) => Err(e),
        },
    )
}

pub open spec fn group_view<S>(g: RevisionGroup<S>) -> GroupView {
    (g.revision, g.uuid, g.files@.map_values(|e: (ObjectPath, S)| e.0@))
}

pub open spec fn groups_view<S>(gs: Seq<RevisionGroup<S>>) -> Seq<GroupView> {
    gs.map_values(|g: RevisionGroup<S>| group_view(g))
}

/// Why a rebuild failed, as values.
pub enum RebuildFailure {
    NewEmpty,
    ReadFailure { path: PathView },
    MetadataRead { path: PathView, cause: MetadataError },
    MultipleTransactions { revision: u64, uuid1: u128, uuid2: u128 },
    RevisionZero { path: PathView },
    FileRecord,
}

/// Errors of a rebuild.
#[derive(Debug)]
pub enum Error {
    /// The store holds transaction objects of the database already.
    NewEmptyFailure { source: CatalogError },
    /// A listed file could not be read from the store.
    ReadFailure { path: ObjectPath },
    /// The catalog record of a chunk file could not be read.
    MetadataReadFailure { path: ObjectPath, source: MetadataError },
    /// Two files of one revision name different transactions; `uuid1 < uuid2`.
    MultipleTransactionsFailure { revision_counter: u64, uuid1: u128, uuid2: u128 },
    /// A chunk file names revision 0, which is always empty.
    RevisionZeroFailure { path: ObjectPath },
    /// A file could not be added to its transaction.
    FileRecordFailure { source: CatalogError },
}

pub open spec fn failure_of(e: Error) -> RebuildFailure {
    match e {
        Error::NewEmptyFailure { .. } => RebuildFailure::NewEmpty,
        Error::ReadFailure { path } => RebuildFailure::ReadFailure { path: path@ },
        Error::MetadataReadFailure { path, source } => RebuildFailure::MetadataRead {
            path: path@,
            cause: source,
        },
        Error::MultipleTransactionsFailure { revision_counter, uuid1, uuid2 } =>
            RebuildFailure::MultipleTransactions { revision: revision_counter, uuid1, uuid2 },
        Error::RevisionZeroFailure { path } => RebuildFailure::RevisionZero { path: path@ },
        Error::FileRecordFailure { .. } => RebuildFailure::FileRecord,
    }
}

impl Error {
    /// A description of the error.
    pub fn message(&self) -> (r: String)
        ensures
            r@ == match self {
                Error::NewEmptyFailure { source } => "Cannot create new empty catalog: "@
                    + source.message_spec(),
                Error::ReadFailure { path } => "Cannot read store: "@ + path_text(path@),
                Error::MetadataReadFailure { path, source } =>
                    "Cannot read IOx metadata from parquet file ("@ + path_text(path@) + "): "@
                        + source.message_spec(),
                Error::MultipleTransactionsFailure { revision_counter, uuid1, uuid2 } =>
                    "Found multiple transaction for revision "@ + decimal(*revision_counter as nat)
                        + ": "@ + uuid_text(*uuid1) + " and "@ + uuid_text(*uuid2),
                Error::RevisionZeroFailure { path } =>
                    "Internal error: Revision cannot be zero (this transaction is always empty): "@
                        + path_text(path@),
                Error::FileRecordFailure { source } => "Cannot add file to transaction: "@
                    + source.message_spec(),
            },
    {
        match self {
            Error::NewEmptyFailure { source } => {
                let mut s = String::from_str("Cannot create new empty catalog: ");
                s.append(source.message().as_str());
                s
            },
            Error::ReadFailure { path } => {
                let mut s = String::from_str("Cannot read store: ");
                s.append(path.display().as_str());
                s
            },
            Error::MetadataReadFailure { path, source } => {
                let mut s = String::from_str("Cannot read IOx metadata from parquet file (");
                s.append(path.display().as_str());
                s.append("): ");
                s.append(source.message().as_str());
                s
            },
            Error::MultipleTransactionsFailure { revision_counter, uuid1, uuid2 } => {
                let mut s = String::from_str("Found multiple transaction for revision ");
                push_decimal(*revision_counter, &mut s);
                s.append(": ");
                s.append(format_uuid(*uuid1).as_str());
                s.append(" and ");
                s.append(format_uuid(*uuid2).as_str());
                s
            },
            Error::RevisionZeroFailure { path } => {
                let mut s = String::from_str(
                    "Internal error: Revision cannot be zero (this transaction is always empty): ",
                );
                s.append(path.display().as_str());
                s
            },
            Error::FileRecordFailure { source } => {
                let mut s = String::from_str("Cannot add file to transaction: ");
                s.append(source.message().as_str());
                s
            },
        }
    }
}

/// The first index at or after `from` of a group of revision `r`.
pub open spec fn group_index(gs: Seq<GroupView>, r: u64, from: int) -> Option<int>
    decreases gs.len() - from,
{
    if from < 0 || from >= gs.len() {
        None
    } else if gs[from].0 == r {
        Some(from)
    } else {
        group_index(gs, r, from + 1)
    }
}

/// One file of a scan taken into the groups.
pub open spec fn collect_step(gs: Seq<GroupView>, f: ScanView, ignore: bool) -> Result<
    Seq<GroupView>,
    RebuildFailure,
> {
    match f.1 {
        Err(cause) => if ignore {
            Ok(gs)
        } else {
            Err(RebuildFailure::MetadataRead { path: f.0, cause })
        },
        Ok(m) => if m.transaction_revision_counter == 0 {
            Err(RebuildFailure::RevisionZero { path: f.0 })
        } else {
            match group_index(gs, m.transaction_revision_counter, 0) {
                None => Ok(gs.push((m.transaction_revision_counter, m.transaction_uuid, seq![f.0]))),
                Some(i) => if gs[i].1 == m.transaction_uuid {
                    Ok(gs.update(i, (gs[i].0, gs[i].1, gs[i].2.push(f.0))))
                } else {
                    Err(
                        RebuildFailure::MultipleTransactions {
                            revision: m.transaction_revision_counter,
                            uuid1: if gs[i].1 < m.transaction_uuid {
                                gs[i].1
                            } else {
                                m.transaction_uuid
                            },
                            uuid2: if gs[i].1 < m.transaction_uuid {
                                m.transaction_uuid
                            } else {
                                gs[i].1
                            },
                        },
                    )
                },
            }
        },
    }
}

/// The files of a scan taken into `gs` one after the other, stopping at the
/// first failure.
pub open spec fn collect_from(gs: Seq<GroupView>, scans: Seq<ScanView>, ignore: bool) -> Result<
    Seq<GroupView>,
    RebuildFailure,
>
    decreases scans.len(),
{
    if scans.len() == 0 {
        Ok(gs)
    } else {
        match collect_from(gs, scans.drop_last(), ignore) {
            Ok(g) => collect_step(g, scans.last(), ignore),
            Err(e) => Err(e),
        }
    }
}

/// The revision groups of a scan, or the first failure.
pub open spec fn collect_spec(scans: Seq<ScanView>, ignore: bool) -> Result<
    Seq<GroupView>,
    RebuildFailure,
> {
    collect_from(Seq::empty(), scans, ignore)
}

/// The highest revision of the groups, 0 for none.
pub open spec fn max_revision(gs: Seq<GroupView>) -> u64
    decreases gs.len(),
{
    if gs.len() == 0 {
        0
    } else if max_revision(gs.drop_last()) < gs.last().0 {
        gs.last().0
    } else {
        max_revision(gs.drop_last())
    }
}

/// The keys of the group of revision `r`, none where there is no such group.
pub open spec fn group_files(gs: Seq<GroupView>, r: u64) -> Seq<PathView> {
    match group_index(gs, r, 0) {
        Some(i) => gs[i].2,
        None => Seq::empty(),
    }
}

/// The keys that replaying revisions 1 to `r` adds, in order.
pub open spec fn replay_keys(gs: Seq<GroupView>, r: nat) -> Seq<PathView>
    decreases r,
{
    if r == 0 {
        Seq::empty()
    } else {
        replay_keys(gs, (r - 1) as nat) + group_files(gs, r as u64)
    }
}

pub open spec fn revisions_unique(gs: Seq<GroupView>) -> bool {
    forall|i: int, j: int| 0 <= i < j < gs.len() ==> gs[i].0 != gs[j].0
}

pub open spec fn revisions_positive(gs: Seq<GroupView>) -> bool {
    forall|i: int| 0 <= i < gs.len() ==> gs[i].0 > 0
}

pub proof fn lemma_group_index(gs: Seq<GroupView>, r: u64, from: int)
    requires
        0 <= from,
    ensures
        group_index(gs, r, from) matches Some(i) ==> from <= i < gs.len() && gs[i].0 == r,
        group_index(gs, r, from) is None ==> forall|j: int| from <= j < gs.len() ==> gs[j].0 != r,
    decreases gs.len() - from,
{
    if from < gs.len() && gs[from].0 != r {
        lemma_group_index(gs, r, from + 1);
    }
}

proof fn lemma_group_index_unique(gs: Seq<GroupView>, r: u64, i: int)
    requires
        revisions_unique(gs),
        0 <= i < gs.len(),
        gs[i].0 == r,
    ensures
        group_index(gs, r, 0) == Some(i),
{
    lemma_group_index(gs, r, 0);
    if let Some(k) = group_index(gs, r, 0) {
        if k != i {
            if k < i {
                assert(gs[k].0 != gs[i].0);
            } else {
                assert(gs[i].0 != gs[k].0);
            }
        }
    }
}

/// Every step keeps the revisions of the groups distinct and positive.
proof fn lemma_collect_step_shape(gs: Seq<GroupView>, f: ScanView, ignore: bool)
    requires
        revisions_unique(gs),
        revisions_positive(gs),
    ensures
        collect_step(gs, f, ignore) matches Ok(g2) ==> revisions_unique(g2) && revisions_positive(
            g2,
        ),
{
    if let Ok(m) = f.1 {
        lemma_group_index(gs, m.transaction_revision_counter, 0);
    }
}

/// The groups of a scan have distinct, positive revisions.
pub proof fn lemma_collect_shape(gs: Seq<GroupView>, scans: Seq<ScanView>, ignore: bool)
    requires
        revisions_unique(gs),
        revisions_positive(gs),
    ensures
        collect_from(gs, scans, ignore) matches Ok(g2) ==> revisions_unique(g2)
            && revisions_positive(g2),
    decreases scans.len(),
{
    if scans.len() > 0 {
        lemma_collect_shape(gs, scans.drop_last(), ignore);
        if let Ok(g) = collect_from(gs, scans.drop_last(), ignore) {
            lemma_collect_step_shape(g, scans.last(), ignore);
        }
    }
}

/// Once the files of a scan fail, the rest of the scan fails the same way.
pub proof fn lemma_collect_err_sticky(gs: Seq<GroupView>, scans: Seq<ScanView>, k: int, ignore: bool)
    requires
        0 <= k <= scans.len(),
        collect_from(gs, scans.subrange(0, k), ignore) is Err,
    ensures
        collect_from(gs, scans, ignore) == collect_from(gs, scans.subrange(0, k), ignore),
    decreases scans.len(),
{
    if k < scans.len() {
        assert(scans.drop_last().subrange(0, k) =~= scans.subrange(0, k));
        lemma_collect_err_sticky(gs, scans.drop_last(), k, ignore);
    } else {
        assert(scans.subrange(0, k) =~= scans);
    }
}

fn find_group<S>(groups: &Vec<RevisionGroup<S>>, r: u64) -> (i: Option<usize>)
    ensures
        i matches Some(k) ==> group_index(groups_view(groups@), r, 0) == Some(k as int) && k
            < groups@.len(),
        i is None ==> group_index(groups_view(groups@), r, 0) is None,
{
    let ghost gv = groups_view(groups@);
    let mut k: usize = 0;
    while k < groups.len()
        invariant
            k <= groups@.len(),
            gv == groups_view(groups@),
            group_index(gv, r, 0) == group_index(gv, r, k as int),
        decreases groups@.len() - k,
    {
        assert(gv[k as int].0 == groups@[k as int].revision);
        if groups[k].revision == r {
            return Some(k);
        }
        k = k + 1;
    }
    None
}

/// Groups the files of a scan by the revision in their records.
///
/// Files whose record could not be read fail the scan, or are skipped where
/// `ignore_metadata_read_failure` is set. A file of revision 0 fails it, and
/// so does a file whose revision has been seen with another transaction id.
pub fn collect_revisions<S>(files: Vec<ScannedFile<S>>, ignore_metadata_read_failure: bool) -> (r:
    Result<Vec<RevisionGroup<S>>, Error>)
    ensures
        match collect_spec(files@.map_values(|f: ScannedFile<S>| scan_view(f)), ignore_metadata_read_failure) {
            Ok(gv) => r matches Ok(gs) && groups_view(gs@) == gv,
            Err(e) => r matches Err(err) && failure_of(err) == e,
        },
{
    let ghost views = files@.map_values(|f: ScannedFile<S>| scan_view(f));
    let n = files.len();
    let mut rest = files;
    let mut groups: Vec<RevisionGroup<S>> = Vec::new();
    let mut i: usize = 0;
    assert(views.subrange(0, 0) =~= Seq::<ScanView>::empty());
    assert(groups_view(groups@) =~= Seq::<GroupView>::empty());
    while i < n
        invariant
            n == views.len(),
            views == files@.map_values(|f: ScannedFile<S>| scan_view(f)),
            i <= n,
            rest@.len() == n - i,
            forall|j: int| 0 <= j < n - i ==> scan_view(#[trigger] rest@[j]) == views[i + j],
            collect_spec(views.subrange(0, i as int), ignore_metadata_read_failure) == Ok::<
                Seq<GroupView>,
                RebuildFailure,
            >(groups_view(groups@)),
        decreases n - i,
    {
        assert(scan_view(rest@[0]) == views[i as int + 0]);
        let f = rest.remove(0);
        let ghost sub = views.subrange(0, i as int + 1);
        assert(sub.drop_last() =~= views.subrange(0, i as int));
        assert(sub.last() == scan_view(f));
        let ghost gv = groups_view(groups@);
        let ScannedFile { path, metadata } = f;
        match metadata {
            Err(cause) => {
                if !ignore_metadata_read_failure {
                    assert(collect_spec(views.subrange(0, i as int + 1), false) == Err::<
                        Seq<GroupView>,
                        RebuildFailure,
                    >(RebuildFailure::MetadataRead { path: path@, cause }));
                    proof {
                        lemma_collect_err_sticky(Seq::empty(), views, i + 1, false);
                        assert(collect_spec(views, false) == Err::<
                            Seq<GroupView>,
                            RebuildFailure,
                        >(RebuildFailure::MetadataRead { path: path@, cause }));
                    }
                    return Err(Error::MetadataReadFailure { path, source: cause });
                }
            },
            Ok((m, summary)) => {
                let revision = m.transaction_revision_counter;
                let uuid = m.transaction_uuid;
                if revision == 0 {
                    proof {
                        lemma_collect_err_sticky(
                            Seq::empty(),
                            views,
                            i + 1,
                            ignore_metadata_read_failure,
                        );
                    }
                    return Err(Error::RevisionZeroFailure { path });
                }
                match find_group(&groups, revision) {
                    None => {
                        let ghost p = path@;
                        let mut fs: Vec<(ObjectPath, S)> = Vec::new();
                        fs.push((path, summary));
                        assert(fs@.map_values(|e: (ObjectPath, S)| e.0@) =~= seq![p]);
                        groups.push(RevisionGroup { revision, uuid, files: fs });
                        assert(groups_view(groups@) =~= gv.push((revision, uuid, seq![p])));
                    },
                    Some(k) => {
                        let group_uuid = groups[k].uuid;
                        assert(gv[k as int].1 == group_uuid);
                        if group_uuid != uuid {
                            let (uuid1, uuid2) = if group_uuid < uuid {
                                (group_uuid, uuid)
                            } else {
                                (uuid, group_uuid)
                            };
                            proof {
                                lemma_collect_err_sticky(
                                    Seq::empty(),
                                    views,
                                    i + 1,
                                    ignore_metadata_read_failure,
                                );
                            }
                            return Err(
                                Error::MultipleTransactionsFailure {
                                    revision_counter: revision,
                                    uuid1,
                                    uuid2,
                                },
                            );
                        }
                        let ghost p = path@;
                        let mut g = groups.remove(k);
                        let ghost old_files = g.files@.map_values(|e: (ObjectPath, S)| e.0@);
                        assert(old_files == gv[k as int].2);
                        g.files.push((path, summary));
                        assert(g.files@.map_values(|e: (ObjectPath, S)| e.0@) =~= old_files.push(p));
                        groups.insert(k, g);
                        assert(groups_view(groups@) =~= gv.update(
                            k as int,
                            (gv[k as int].0, gv[k as int].1, gv[k as int].2.push(p)),
                        ));
                    },
                }
            },
        }
        i = i + 1;
    }
    assert(views.subrange(0, n as int) =~= views);
    Ok(groups)
}

proof fn lemma_replay_keys_prefix(gs: Seq<GroupView>, a: nat, b: nat)
    requires
        a <= b,
    ensures
        replay_keys(gs, a) == replay_keys(gs, b).subrange(0, replay_keys(gs, a).len() as int),
        replay_keys(gs, a).len() <= replay_keys(gs, b).len(),
    decreases b,
{
    if a < b {
        lemma_replay_keys_prefix(gs, a, (b - 1) as nat);
        let x = replay_keys(gs, (b - 1) as nat);
        assert(replay_keys(gs, b).subrange(0, x.len() as int) =~= x);
        assert(replay_keys(gs, b).subrange(0, replay_keys(gs, a).len() as int) =~= x.subrange(
            0,
            replay_keys(gs, a).len() as int,
        ));
    }
}

proof fn lemma_no_duplicates_prefix(s: Seq<PathView>, k: int)
    requires
        no_duplicates(s),
        0 <= k <= s.len(),
    ensures
        no_duplicates(s.subrange(0, k)),
{
    assert forall|i: int, j: int| 0 <= i < j < k implies s.subrange(0, k)[i] != s.subrange(
        0,
        k,
    )[j] by {
        assert(s.subrange(0, k)[i] == s[i]);
        assert(s.subrange(0, k)[j] == s[j]);
    }
}

proof fn lemma_max_revision(gs: Seq<GroupView>)
    ensures
        forall|i: int| 0 <= i < gs.len() ==> gs[i].0 <= max_revision(gs),
    decreases gs.len(),
{
    if gs.len() > 0 {
        lemma_max_revision(gs.drop_last());
        assert forall|i: int| 0 <= i < gs.len() implies gs[i].0 <= max_revision(gs) by {
            if i < gs.len() - 1 {
                assert(gs.drop_last()[i] == gs[i]);
            }
        }
    }
}

/// Replays revisions 1 to the highest revision of `groups` on an empty
/// catalog: each revision with a group as a transaction with the group's id
/// and files, each other revision as an empty transaction.
pub fn replay_revisions<S>(
    groups: Vec<RevisionGroup<S>>,
    empty: PreservedCatalog<S>,
    store: &mut InMemoryStore,
) -> (r: Result<PreservedCatalog<S>, Error>)
    requires
        empty.wf(),
        empty.revision() == 0,
        empty.keys().len() == 0,
        old(store).wf(),
        revisions_unique(groups_view(groups@)),
        revisions_positive(groups_view(groups@)),
    ensures
        final(store).wf(),
        r is Ok == no_duplicates(
            replay_keys(groups_view(groups@), max_revision(groups_view(groups@)) as nat),
        ),
        r matches Err(e) ==> e is FileRecordFailure,
        r matches Ok(c) ==> {
            &&& c.wf()
            &&& c.server() == empty.server()
            &&& c.db() == empty.db()
            &&& c.revision() == max_revision(groups_view(groups@))
            &&& c.keys() == replay_keys(
                groups_view(groups@),
                max_revision(groups_view(groups@)) as nat,
            )
            &&& forall|i: int|
                0 <= i < groups@.len() ==> c.history()[groups@[i].revision - 1]
                    == #[trigger] groups@[i].uuid
            &&& final(store).entries() == replayed_store(
                old(store).entries(),
                empty.server(),
                empty.db(),
                groups_view(groups@),
                c.history(),
                c.revision() as nat,
            )
        },
{
    let ghost gv = groups_view(groups@);
    let mut max: u64 = 0;
    let mut k: usize = 0;
    while k < groups.len()
        invariant
            k <= groups@.len(),
            gv == groups_view(groups@),
            max == max_revision(gv.subrange(0, k as int)),
        decreases groups@.len() - k,
    {
        let ghost sub = gv.subrange(0, k as int + 1);
        assert(sub.drop_last() =~= gv.subrange(0, k as int));
        assert(sub.last().0 == groups@[k as int].revision);
        if groups[k].revision > max {
            max = groups[k].revision;
        }
        k = k + 1;
    }
    assert(gv.subrange(0, k as int) =~= gv);
    proof {
        lemma_max_revision(gv);
    }
    let ghost orig = groups@;
    let mut work = groups;
    let ghost server = empty.server();
    let ghost db = empty.db();
    let mut catalog = empty;
    let mut done: u64 = 0;
    assert(catalog.keys() =~= replay_keys(gv, 0));
    while done < max
        invariant
            done <= max,
            gv == groups_view(groups@),
            max == max_revision(gv),
            revisions_unique(gv),
            revisions_positive(gv),
            forall|i: int| 0 <= i < gv.len() ==> gv[i].0 <= max,
            work@.len() == gv.len(),
            forall|j: int|
                0 <= j < gv.len() ==> (#[trigger] work@[j]).revision == gv[j].0 && work@[j].uuid
                    == gv[j].1,
            forall|j: int|
                0 <= j < gv.len() && gv[j].0 > done ==> group_view(#[trigger] work@[j]).2
                    == gv[j].2,
            catalog.wf(),
            catalog.revision() == done,
            catalog.keys() == replay_keys(gv, done as nat),
            catalog.server() == server,
            catalog.db() == db,
            forall|j: int|
                0 <= j < gv.len() && gv[j].0 <= done ==> catalog.history()[gv[j].0 - 1]
                    == #[trigger] gv[j].1,
            store.wf(),
            store.entries() == replayed_store(
                old(store).entries(),
                server,
                db,
                gv,
                catalog.history(),
                done as nat,
            ),
        decreases max - done,
    {
        let r = done + 1;
        let ghost before = catalog.history();
        let ghost keys_before = catalog.keys();
        let ghost es_before = store.entries();
        proof {
            catalog.lemma_wf();
        }
        proof {
            assert(groups_view(work@) =~= Seq::new(
                work@.len(),
                |j: int| group_view(work@[j]),
            ));
        }
        match find_group(&work, r) {
            Some(k) => {
                proof {
                    lemma_group_index(groups_view(work@), r, 0);
                    assert(groups_view(work@)[k as int].0 == r);
                    assert(gv[k as int].0 == r);
                    lemma_group_index_unique(gv, r, k as int);
                }
                let RevisionGroup { revision, uuid, files } = work.remove(k);
                work.insert(k, RevisionGroup { revision, uuid, files: Vec::new() });
                let ghost fv = files@.map_values(|e: (ObjectPath, S)| e.0@);
                assert(fv == gv[k as int].2);
                assert(group_files(gv, r) == fv);
                let mut tx = catalog.open_transaction_with_uuid(uuid);
                let n = files.len();
                let mut rest = files;
                let mut i: usize = 0;
                assert(tx.staged() =~= fv.subrange(0, 0));
                while i < n
                    invariant
                        i <= n,
                        n == fv.len(),
                        rest@.len() == n - i,
                        forall|j: int| 0 <= j < n - i ==> (#[trigger] rest@[j]).0@ == fv[i + j],
                        tx.wf(),
                        tx.uuid_spec() == uuid,
                        tx.base_revision() == done,
                        tx.base_history() == before,
                        tx.base_keys() == keys_before,
                        tx.staged() == fv.subrange(0, i as int),
                        tx.server() == server,
                        tx.db() == db,
                        r == done + 1,
                        done < max,
                        gv == groups_view(groups@),
                        max == max_revision(gv),
                        keys_before == replay_keys(gv, done as nat),
                        group_files(gv, r) == fv,
                        before.len() == done,
                        store.wf(),
                        store.entries() == es_before,
                    decreases n - i,
                {
                    assert(rest@[0].0@ == fv[i as int + 0]);
                    let (path, summary) = rest.remove(0);
                    let added = tx.add_parquet(&path, summary);
                    if added.is_err() {
                        proof {
                            let all = replay_keys(gv, max as nat);
                            let upto = replay_keys(gv, r as nat);
                            assert(upto == keys_before + fv);
                            lemma_replay_keys_prefix(gv, r as nat, max as nat);
                            let prefix = keys_before + fv.subrange(0, i as int);
                            assert(prefix.contains(path@));
                            let w = choose|w: int| 0 <= w < prefix.len() && prefix[w] == path@;
                            let x = keys_before.len() + i;
                            assert(upto[w] == prefix[w]);
                            assert(upto[x] == path@);
                            assert(all[w] == upto[w]);
                            assert(all[x] == upto[x]);
                        }
                        return Err(
                            Error::FileRecordFailure {
                                source: match added {
                                    Err(e) => e,
                                    Ok(_) => CatalogError::OpenEmptyCatalogExists,
                                },
                            },
                        );
                    }
                    assert(fv.subrange(0, i as int + 1) =~= fv.subrange(0, i as int).push(path@));
                    i = i + 1;
                }
                assert(fv.subrange(0, n as int) =~= fv);
                catalog = tx.commit(store);
                proof {
                    assert forall|j: int| 0 <= j < gv.len() && gv[j].0 == r implies catalog.history()[gv[j].0
                        - 1] == #[trigger] gv[j].1 by {
                        if j != k {
                            if j < k {
                                assert(gv[j].0 != gv[k as int].0);
                            } else {
                                assert(gv[k as int].0 != gv[j].0);
                            }
                        }
                    }
                }
            },
            None => {
                proof {
                    lemma_group_index(groups_view(work@), r, 0);
                    assert forall|j: int| 0 <= j < gv.len() implies gv[j].0 != r by {
                        assert(groups_view(work@)[j].0 == work@[j].revision);
                    }
                    lemma_group_index(gv, r, 0);
                    if let Some(x) = group_index(gv, r, 0) {
                        assert(gv[x].0 == r);
                    }
                    assert(group_files(gv, r) =~= Seq::<PathView>::empty());
                }
                let tx = catalog.open_transaction();
                assert(tx.staged() =~= group_files(gv, r));
                catalog = tx.commit(store);
                assert(forall|j: int| 0 <= j < gv.len() ==> gv[j].0 != r);
            },
        }
        proof {
            let h = catalog.history();
            assert(h.subrange(0, done as int) =~= before.subrange(0, done as int));
            assert(h.subrange(0, r - 1) =~= before);
            lemma_replayed_store_prefix(old(store).entries(), server, db, gv, h, before, done as nat);
            assert(store.entries() == replayed_store(old(store).entries(), server, db, gv, h, r as nat));
            assert(catalog.keys() =~= replay_keys(gv, r as nat));
            assert forall|j: int| 0 <= j < gv.len() && gv[j].0 <= r implies catalog.history()[gv[j].0
                - 1] == #[trigger] gv[j].1 by {
                if gv[j].0 < r {
                    assert(catalog.history()[gv[j].0 - 1] == before[gv[j].0 - 1]);
                } else {
                    assert(gv[j].0 == r);
                }
            }
        }
        done = r;
    }
    proof {
        catalog.lemma_wf();
        assert forall|i: int| 0 <= i < orig.len() implies catalog.history()[orig[i].revision - 1]
            == #[trigger] orig[i].uuid by {
            assert(gv[i] == group_view(orig[i]));
            assert(gv[i].0 <= max);
            assert(catalog.history()[gv[i].0 - 1] == gv[i].1);
        }
    }
    Ok(catalog)
}

/// The store entries after replaying revisions 1 to `r` on `es`: one
/// transaction object per revision, under the id `history` has for it, with
/// the keys of that revision's group.
pub open spec fn replayed_store(
    es: Seq<(PathView, Seq<u8>)>,
    server: u32,
    db: Seq<char>,
    gs: Seq<GroupView>,
    history: Seq<u128>,
    r: nat,
) -> Seq<(PathView, Seq<u8>)>
    decreases r,
{
    if r == 0 {
        es
    } else {
        put_spec(
            replayed_store(es, server, db, gs, history, (r - 1) as nat),
            transaction_location_spec(server, db, r as u64, history[r - 1]),
            transaction_bytes(
                (
                    r as u64,
                    history[r - 1],
                    previous_of(history.subrange(0, r - 1)),
                    group_files(gs, r as u64),
                ),
            ),
        )
    }
}

proof fn lemma_replayed_store_prefix(
    es: Seq<(PathView, Seq<u8>)>,
    server: u32,
    db: Seq<char>,
    gs: Seq<GroupView>,
    h1: Seq<u128>,
    h2: Seq<u128>,
    r: nat,
)
    requires
        r <= h1.len(),
        r <= h2.len(),
        h1.subrange(0, r as int) == h2.subrange(0, r as int),
    ensures
        replayed_store(es, server, db, gs, h1, r) == replayed_store(es, server, db, gs, h2, r),
    decreases r,
{
    if r > 0 {
        assert(h1.subrange(0, r - 1) =~= h1.subrange(0, r as int).subrange(0, r - 1));
        assert(h2.subrange(0, r - 1) =~= h2.subrange(0, r as int).subrange(0, r - 1));
        assert(h1[r - 1] == h1.subrange(0, r as int)[r - 1]);
        assert(h2[r - 1] == h2.subrange(0, r as int)[r - 1]);
        lemma_replayed_store_prefix(es, server, db, gs, h1, h2, (r - 1) as nat);
    }
}

/// Whether the store holds transaction objects of the database.
pub open spec fn has_transactions(
    entries: Seq<(PathView, Seq<u8>)>,
    server: u32,
    db: Seq<char>,
) -> bool {
    exists|i: int| 0 <= i < entries.len() && under_dirs(#[trigger] entries[i].0, transaction_dirs(server, db))
}

/// Rebuilds a catalog from the files of a scan: groups them by revision and
/// replays the revisions on a new empty catalog.
///
/// Fails as grouping fails; else where the store holds transaction objects
/// of the database; else where a key comes twice. Otherwise the catalog is at
/// the highest revision found, holds every scanned key in revision order, and
/// each revision with files has the id those files name.
pub fn rebuild_from_scans<S>(
    files: Vec<ScannedFile<S>>,
    store: &mut InMemoryStore,
    server_id: ServerId,
    db_name: String,
    ignore_metadata_read_failure: bool,
) -> (r: Result<PreservedCatalog<S>, Error>)
    requires
        old(store).wf(),
    ensures
        final(store).wf(),
        match collect_spec(files@.map_values(|f: ScannedFile<S>| scan_view(f)), ignore_metadata_read_failure) {
            Err(e) => r matches Err(err) && failure_of(err) == e && final(store).entries() == old(
                store,
            ).entries(),
            Ok(gv) => if has_transactions(old(store).entries(), server_id.get(), db_name@) {
                r matches Err(err) && err is NewEmptyFailure && final(store).entries() == old(
                    store,
                ).entries()
            } else {
                &&& r is Ok == no_duplicates(replay_keys(gv, max_revision(gv) as nat))
                &&& r matches Err(err) ==> err is FileRecordFailure
                &&& r matches Ok(c) ==> {
                    &&& c.wf()
                    &&& c.server() == server_id.get()
                    &&& c.db() == db_name@
                    &&& c.revision() == max_revision(gv)
                    &&& c.keys() == replay_keys(gv, max_revision(gv) as nat)
                    &&& forall|i: int|
                        0 <= i < gv.len() ==> c.history()[gv[i].0 - 1] == #[trigger] gv[i].1
                    &&& final(store).entries() == replayed_store(
                        old(store).entries(),
                        server_id.get(),
                        db_name@,
                        gv,
                        c.history(),
                        c.revision() as nat,
                    )
                }
            },
        },
{
    let ghost views = files@.map_values(|f: ScannedFile<S>| scan_view(f));
    let groups = match collect_revisions(files, ignore_metadata_read_failure) {
        Ok(g) => g,
        Err(e) => {
            return Err(e);
        },
    };
    proof {
        lemma_collect_shape(Seq::empty(), views, ignore_metadata_read_failure);
    }
    let ghost gv = groups_view(groups@);
    let catalog = match PreservedCatalog::new_empty(store, server_id, db_name) {
        Ok(c) => c,
        Err(source) => {
            return Err(Error::NewEmptyFailure { source });
        },
    };
    let r = replay_revisions(groups, catalog, store);
    proof {
        if r is Ok {
            let c = r->Ok_0;
            assert forall|i: int| 0 <= i < gv.len() implies c.history()[gv[i].0 - 1]
                == #[trigger] gv[i].1 by {
                assert(gv[i].0 == groups@[i].revision);
                assert(gv[i].1 == groups@[i].uuid);
            }
        }
    }
    r
}

/// Whether a catalog at `revision` with `keys` is what rebuilding from the
/// scan `sv` gives.
pub open spec fn rebuilt_from(sv: Seq<ScanView>, ignore: bool, revision: u64, keys: Seq<PathView>) -> bool {
    match collect_spec(sv, ignore) {
        Ok(gv) => revision == max_revision(gv) && keys == replay_keys(gv, max_revision(gv) as nat),
        Err(_) => false,
    }
}

/// The keys of chunk files among `ps`, in order.
pub open spec fn parquet_paths(ps: Seq<PathView>) -> Seq<PathView>
    decreases ps.len(),
{
    if ps.len() == 0 {
        Seq::empty()
    } else if is_parquet_spec(ps.last()) {
        parquet_paths(ps.drop_last()).push(ps.last())
    } else {
        parquet_paths(ps.drop_last())
    }
}

/// Reads the catalog record of the file under `path`; a file that is not
/// in the store fails with [`Error::ReadFailure`].
pub fn read_parquet(store: &InMemoryStore, path: &ObjectPath) -> (r: Result<
    ScannedFile<ParquetMetaData>,
    Error,
>)
    ensures
        r matches Ok(f) ==> f.path@ == path@ && scan_view(f).1 == file_record(
            stored_bytes(store.entries(), path@),
        ),
        r is Err == (index_of(store.entries(), path@, 0) is None),
        r matches Err(e) ==> e is ReadFailure,
{
    let data = match store.get(path) {
        Some(d) => d,
        None => {
            return Err(Error::ReadFailure { path: path.duplicate() });
        },
    };
    let metadata = match read_footer(data) {
        Err(_) => Err(MetadataError::FooterUnreadable),
        Ok((md, kvs)) => {
            match read_iox_metadata(&kvs) {
                Ok(m) => Ok((m, md)),
                Err(e) => Err(e),
            }
        },
    };
    Ok(ScannedFile { path: path.duplicate(), metadata })
}

/// Creates a new catalog from the chunk files under `search_location`.
///
/// The store must hold no transaction objects of the database: wipe the
/// catalog first. Every file whose name ends in `.parquet` is read; see
/// [`rebuild_from_scans`] for what is built from the records.
pub fn rebuild_catalog(
    store: &mut InMemoryStore,
    search_location: &ObjectPath,
    server_id: ServerId,
    db_name: String,
    ignore_metadata_read_failure: bool,
) -> (r: Result<PreservedCatalog<ParquetMetaData>, Error>)
    requires
        old(store).wf(),
    ensures
        final(store).wf(),
        match collect_spec(
            store_scan(old(store).entries(), search_location@.dirs),
            ignore_metadata_read_failure,
        ) {
            Err(e) => r matches Err(err) && failure_of(err) == e && final(store).entries() == old(
                store,
            ).entries(),
            Ok(gv) => if has_transactions(old(store).entries(), server_id.get(), db_name@) {
                r matches Err(err) && err is NewEmptyFailure && final(store).entries() == old(
                    store,
                ).entries()
            } else {
                &&& r is Ok == no_duplicates(replay_keys(gv, max_revision(gv) as nat))
                &&& r matches Err(err) ==> err is FileRecordFailure
                &&& r matches Ok(c) ==> {
                    &&& c.wf()
                    &&& c.server() == server_id.get()
                    &&& c.db() == db_name@
                    &&& c.revision() == max_revision(gv)
                    &&& c.keys() == replay_keys(gv, max_revision(gv) as nat)
                    &&& forall|i: int|
                        0 <= i < gv.len() ==> c.history()[gv[i].0 - 1] == #[trigger] gv[i].1
                    &&& final(store).entries() == replayed_store(
                        old(store).entries(),
                        server_id.get(),
                        db_name@,
                        gv,
                        c.history(),
                        c.revision() as nat,
                    )
                }
            },
        },
{
    let ghost es = store.entries();
    let paths = store.list(search_location);
    let ghost listed = paths@.map_values(|p: ObjectPath| p@);
    proof {
        lemma_listing_keys(es, search_location@.dirs);
    }
    let mut scans: Vec<ScannedFile<ParquetMetaData>> = Vec::new();
    let mut i: usize = 0;
    assert(listed.subrange(0, 0) =~= Seq::<PathView>::empty());
    assert(scans@.map_values(|f: ScannedFile<ParquetMetaData>| scan_view(f)) =~= with_records(
        es,
        parquet_paths(Seq::<PathView>::empty()),
    ));
    while i < paths.len()
        invariant
            i <= paths@.len(),
            listed == paths@.map_values(|p: ObjectPath| p@),
            listed == listing(es, search_location@.dirs),
            forall|k: int| 0 <= k < listed.len() ==> index_of(es, #[trigger] listed[k], 0) is Some,
            store.wf(),
            store.entries() == es,
            es == old(store).entries(),
            scans@.map_values(|f: ScannedFile<ParquetMetaData>| scan_view(f)) == with_records(
                es,
                parquet_paths(listed.subrange(0, i as int)),
            ),
        decreases paths@.len() - i,
    {
        let ghost sub = listed.subrange(0, i as int + 1);
        assert(sub.drop_last() =~= listed.subrange(0, i as int));
        assert(sub.last() == paths@[i as int]@);
        assert(index_of(es, listed[i as int], 0) is Some);
        if paths[i].is_parquet() {
            let f = match read_parquet(store, &paths[i]) {
                Ok(f) => f,
                Err(e) => {
                    return Err(e);
                },
            };
            let ghost before = scans@.map_values(|f: ScannedFile<ParquetMetaData>| scan_view(f));
            let ghost pp = parquet_paths(listed.subrange(0, i as int));
            scans.push(f);
            assert(parquet_paths(sub) == pp.push(sub.last()));
            assert(with_records(es, pp.push(sub.last())) =~= with_records(es, pp).push(
                (sub.last(), file_record(stored_bytes(es, sub.last()))),
            ));
            assert(scans@.map_values(|f: ScannedFile<ParquetMetaData>| scan_view(f)) =~= before.push(
                scan_view(f),
            ));
        }
        i = i + 1;
    }
    assert(listed.subrange(0, i as int) =~= listed);
    rebuild_from_scans(scans, store, server_id, db_name, ignore_metadata_read_failure)
}

/// A scan as values: each key with the record its stored bytes carry.
pub open spec fn with_records(es: Seq<(PathView, Seq<u8>)>, ps: Seq<PathView>) -> Seq<ScanView> {
    ps.map_values(|p: PathView| (p, file_record(stored_bytes(es, p))))
}

/// The scan that rebuilding reads: every key under `dirs` whose file name
/// ends in `.parquet`, in store order, with the record its bytes carry.
pub open spec fn store_scan(es: Seq<(PathView, Seq<u8>)>, dirs: Seq<Seq<char>>) -> Seq<ScanView> {
    with_records(es, parquet_paths(listing(es, dirs)))
}

} // verus!
