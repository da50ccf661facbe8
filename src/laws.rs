//! What holds of every scan: how rebuilding treats diverging transactions,
//! revision 0 and unreadable records, and that the files a history of
//! commits wrote rebuild that history.
use vstd::prelude::*;

use crate::metadata::IoxMetadata;
use crate::path::PathView;
use crate::rebuild::{
    collect_from, collect_spec, group_files, group_index, lemma_collect_err_sticky,
    lemma_collect_shape, lemma_group_index,
    max_revision, rebuilt_from, replay_keys, revisions_positive, GroupView,
    RebuildFailure, ScanView,
};

verus! {

/// Taking a scan into the groups in two parts is taking it in at once.
proof fn lemma_collect_append(gs: Seq<GroupView>, a: Seq<ScanView>, b: Seq<ScanView>, ignore: bool)
    ensures
        collect_from(gs, a + b, ignore) == match collect_from(gs, a, ignore) {
            Ok(g) => collect_from(g, b, ignore),
            Err(e) => Err(e),
        },
    decreases b.len(),
{
    if b.len() == 0 {
        assert(a + b =~= a);
    } else {
        lemma_collect_append(gs, a, b.drop_last(), ignore);
        assert((a + b).drop_last() =~= a + b.drop_last());
        assert((a + b).last() == b.last());
    }
}

/// After a successful collection, every readable file of the scan is in a
/// group with its revision and id, and earlier groups keep theirs.
proof fn lemma_collect_members(gs: Seq<GroupView>, scans: Seq<ScanView>, ignore: bool)
    requires
        collect_from(gs, scans, ignore) is Ok,
    ensures
        ({
            let g2 = collect_from(gs, scans, ignore)->Ok_0;
            &&& g2.len() >= gs.len()
            &&& forall|x: int| 0 <= x < gs.len() ==> g2[x].0 == gs[x].0 && g2[x].1 == gs[x].1
            &&& forall|k: int|
                0 <= k < scans.len() && (#[trigger] scans[k]).1 is Ok ==> exists|x: int|
                    0 <= x < g2.len() && g2[x].0 == scans[k].1->Ok_0.transaction_revision_counter
                        && g2[x].1 == scans[k].1->Ok_0.transaction_uuid
        }),
    decreases scans.len(),
{
    if scans.len() > 0 {
        let pre = scans.drop_last();
        lemma_collect_members(gs, pre, ignore);
        let g = collect_from(gs, pre, ignore)->Ok_0;
        let g2 = collect_from(gs, scans, ignore)->Ok_0;
        let f = scans.last();
        if let Ok(m) = f.1 {
            lemma_group_index(g, m.transaction_revision_counter, 0);
        }
        assert(g2.len() >= g.len());
        assert forall|x: int| 0 <= x < g.len() implies g2[x].0 == g[x].0 && g2[x].1 == g[x].1 by {
        }
        assert forall|k: int|
            0 <= k < scans.len() && (#[trigger] scans[k]).1 is Ok implies exists|x: int|
                0 <= x < g2.len() && g2[x].0 == scans[k].1->Ok_0.transaction_revision_counter
                    && g2[x].1 == scans[k].1->Ok_0.transaction_uuid by {
            if k < scans.len() - 1 {
                assert(pre[k] == scans[k]);
                let x = choose|x: int|
                    0 <= x < g.len() && g[x].0 == pre[k].1->Ok_0.transaction_revision_counter
                        && g[x].1 == pre[k].1->Ok_0.transaction_uuid;
                assert(g2[x].0 == g[x].0 && g2[x].1 == g[x].1);
            } else {
                let m = f.1->Ok_0;
                match group_index(g, m.transaction_revision_counter, 0) {
                    Some(i) => {
                        assert(g2[i].0 == m.transaction_revision_counter);
                    },
                    None => {
                        assert(g2[g.len() as int].0 == m.transaction_revision_counter);
                    },
                }
            }
        }
    }
}

/// Divergence is detected: where two readable files name one revision and
/// different transaction ids, the scan fails; where nothing before the second
/// file fails, the failure names that revision and the two ids, smaller
/// first. This holds whether or not unreadable records are ignored.
pub proof fn lemma_divergence_detected(scans: Seq<ScanView>, ignore: bool, i: int, j: int)
    requires
        0 <= i < j < scans.len(),
        scans[i].1 is Ok,
        scans[j].1 is Ok,
        scans[i].1->Ok_0.transaction_revision_counter
            == scans[j].1->Ok_0.transaction_revision_counter,
        scans[i].1->Ok_0.transaction_uuid != scans[j].1->Ok_0.transaction_uuid,
    ensures
        collect_spec(scans, ignore) is Err,
        collect_spec(scans.subrange(0, j), ignore) is Ok ==> collect_spec(scans, ignore) == Err::<
            Seq<GroupView>,
            RebuildFailure,
        >(
            RebuildFailure::MultipleTransactions {
                revision: scans[j].1->Ok_0.transaction_revision_counter,
                uuid1: if scans[i].1->Ok_0.transaction_uuid < scans[j].1->Ok_0.transaction_uuid {
                    scans[i].1->Ok_0.transaction_uuid
                } else {
                    scans[j].1->Ok_0.transaction_uuid
                },
                uuid2: if scans[i].1->Ok_0.transaction_uuid < scans[j].1->Ok_0.transaction_uuid {
                    scans[j].1->Ok_0.transaction_uuid
                } else {
                    scans[i].1->Ok_0.transaction_uuid
                },
            },
        ),
{
    let pre = scans.subrange(0, j);
    let upto = scans.subrange(0, j + 1);
    assert(upto.drop_last() =~= pre);
    assert(upto.last() == scans[j]);
    if collect_spec(pre, ignore) is Ok {
        let g = collect_spec(pre, ignore)->Ok_0;
        lemma_collect_members(Seq::empty(), pre, ignore);
        lemma_collect_shape(Seq::empty(), pre, ignore);
        assert(pre[i] == scans[i]);
        let mi = scans[i].1->Ok_0;
        let mj = scans[j].1->Ok_0;
        let x = choose|x: int|
            0 <= x < g.len() && g[x].0 == pre[i].1->Ok_0.transaction_revision_counter && g[x].1
                == pre[i].1->Ok_0.transaction_uuid;
        assert(revisions_positive(g));
        assert(g[x].0 > 0);
        lemma_group_index(g, mj.transaction_revision_counter, 0);
        let y = group_index(g, mj.transaction_revision_counter, 0)->0;
        if y != x {
            if y < x {
                assert(g[y].0 != g[x].0);
            } else {
                assert(g[x].0 != g[y].0);
            }
        }
        assert(collect_spec(upto, ignore) is Err);
        lemma_collect_err_sticky(Seq::empty(), scans, j + 1, ignore);
    } else {
        lemma_collect_err_sticky(Seq::empty(), scans, j, ignore);
    }
}

/// A failure for multiple transactions always names the smaller id first.
pub proof fn lemma_multiple_ids_ordered(gs: Seq<GroupView>, scans: Seq<ScanView>, ignore: bool)
    ensures
        collect_from(gs, scans, ignore) matches Err(RebuildFailure::MultipleTransactions {
            uuid1,
            uuid2,
            ..
        }) ==> uuid1 < uuid2,
    decreases scans.len(),
{
    if scans.len() > 0 {
        lemma_multiple_ids_ordered(gs, scans.drop_last(), ignore);
    }
}

/// Revision 0 is rejected: a readable file that names revision 0 fails the
/// scan; where nothing before it fails, the failure names that file. This
/// holds whether or not unreadable records are ignored.
pub proof fn lemma_revision_zero_rejected(scans: Seq<ScanView>, ignore: bool, k: int)
    requires
        0 <= k < scans.len(),
        scans[k].1 is Ok,
        scans[k].1->Ok_0.transaction_revision_counter == 0,
    ensures
        collect_spec(scans, ignore) is Err,
        collect_spec(scans.subrange(0, k), ignore) is Ok ==> collect_spec(scans, ignore) == Err::<
            Seq<GroupView>,
            RebuildFailure,
        >(RebuildFailure::RevisionZero { path: scans[k].0 }),
{
    let upto = scans.subrange(0, k + 1);
    assert(upto.drop_last() =~= scans.subrange(0, k));
    assert(upto.last() == scans[k]);
    if collect_spec(scans.subrange(0, k), ignore) is Ok {
        lemma_collect_err_sticky(Seq::empty(), scans, k + 1, ignore);
    } else {
        lemma_collect_err_sticky(Seq::empty(), scans, k, ignore);
    }
}

/// The files of a scan whose record could be read, in order.
pub open spec fn readable_only(scans: Seq<ScanView>) -> Seq<ScanView>
    decreases scans.len(),
{
    if scans.len() == 0 {
        Seq::empty()
    } else if scans.last().1 is Ok {
        readable_only(scans.drop_last()).push(scans.last())
    } else {
        readable_only(scans.drop_last())
    }
}

/// Ignoring unreadable records does nothing else: it is the same as
/// rebuilding, without ignoring anything, from the files whose record could
/// be read. Revision 0 and diverging ids fail as before.
pub proof fn lemma_ignore_scope(gs: Seq<GroupView>, scans: Seq<ScanView>)
    ensures
        collect_from(gs, scans, true) == collect_from(gs, readable_only(scans), false),
    decreases scans.len(),
{
    if scans.len() > 0 {
        lemma_ignore_scope(gs, scans.drop_last());
        if scans.last().1 is Ok {
            let r = readable_only(scans);
            assert(r.drop_last() =~= readable_only(scans.drop_last()));
            assert(r.last() == scans.last());
        }
    }
}

/// A history of commits: for revision `r`, at index `r - 1`, the id of the
/// transaction and the keys of the chunk files it added.
pub type CommitHistory = Seq<(u128, Seq<PathView>)>;

/// The scan of the files that one commit wrote, each carrying its record.
pub open spec fn commit_scans(revision: u64, commit: (u128, Seq<PathView>)) -> Seq<ScanView> {
    commit.1.map_values(
        |p: PathView|
            (
                p,
                Ok(IoxMetadata { transaction_revision_counter: revision, transaction_uuid: commit.0 }),
            ),
    )
}

/// The scan of every file a history wrote, in commit order.
pub open spec fn history_scans(h: CommitHistory) -> Seq<ScanView>
    decreases h.len(),
{
    if h.len() == 0 {
        Seq::empty()
    } else {
        history_scans(h.drop_last()) + commit_scans(h.len() as u64, h.last())
    }
}

/// The keys a history added, in commit order.
pub open spec fn history_keys(h: CommitHistory) -> Seq<PathView>
    decreases h.len(),
{
    if h.len() == 0 {
        Seq::empty()
    } else {
        history_keys(h.drop_last()) + h.last().1
    }
}

/// One group per commit that added files.
pub open spec fn history_groups(h: CommitHistory) -> Seq<GroupView>
    decreases h.len(),
{
    if h.len() == 0 {
        Seq::empty()
    } else if h.last().1.len() > 0 {
        history_groups(h.drop_last()).push((h.len() as u64, h.last().0, h.last().1))
    } else {
        history_groups(h.drop_last())
    }
}

proof fn lemma_history_groups_bounds(h: CommitHistory)
    requires
        h.len() < u64::MAX,
    ensures
        forall|x: int|
            0 <= x < history_groups(h).len() ==> 1 <= #[trigger] history_groups(h)[x].0 <= h.len(),
        max_revision(history_groups(h)) <= h.len(),
    decreases h.len(),
{
    if h.len() > 0 {
        lemma_history_groups_bounds(h.drop_last());
        let g = history_groups(h.drop_last());
        if h.last().1.len() > 0 {
            assert forall|x: int| 0 <= x < history_groups(h).len() implies 1
                <= #[trigger] history_groups(h)[x].0 <= h.len() by {
                if x < g.len() {
                    assert(history_groups(h)[x] == g[x]);
                }
            }
            assert(history_groups(h).drop_last() =~= g);
        }
    }
}

proof fn lemma_group_index_push(gs: Seq<GroupView>, x: GroupView, r: u64, from: int)
    requires
        0 <= from <= gs.len(),
    ensures
        group_index(gs.push(x), r, from) == (if group_index(gs, r, from) is Some {
            group_index(gs, r, from)
        } else if x.0 == r {
            Some(gs.len() as int)
        } else {
            None
        }),
    decreases gs.len() - from,
{
    if from < gs.len() {
        assert(gs.push(x)[from] == gs[from]);
        if gs[from].0 != r {
            lemma_group_index_push(gs, x, r, from + 1);
        }
    } else {
        assert(gs.push(x)[from] == x);
        assert(group_index(gs.push(x), r, from + 1) is None);
        assert(group_index(gs, r, from) is None);
    }
}

/// Taking in the files of one commit, at a revision that no group has yet.
proof fn lemma_collect_commit(gs: Seq<GroupView>, revision: u64, commit: (u128, Seq<PathView>), j: int, ignore: bool)
    requires
        revision > 0,
        forall|x: int| 0 <= x < gs.len() ==> gs[x].0 != revision,
        1 <= j <= commit.1.len(),
    ensures
        collect_from(gs, commit_scans(revision, commit).subrange(0, j), ignore) == Ok::<
            Seq<GroupView>,
            RebuildFailure,
        >(gs.push((revision, commit.0, commit.1.subrange(0, j)))),
    decreases j,
{
    let b = commit_scans(revision, commit);
    let sub = b.subrange(0, j);
    assert(sub.drop_last() =~= b.subrange(0, j - 1));
    assert(sub.last() == b[j - 1]);
    lemma_group_index(gs, revision, 0);
    if j == 1 {
        assert(b.subrange(0, 0) =~= Seq::<ScanView>::empty());
        assert(commit.1.subrange(0, 1) =~= seq![commit.1[0]]);
    } else {
        lemma_collect_commit(gs, revision, commit, j - 1, ignore);
        let g = gs.push((revision, commit.0, commit.1.subrange(0, j - 1)));
        lemma_group_index_push(gs, (revision, commit.0, commit.1.subrange(0, j - 1)), revision, 0);
        assert(group_index(g, revision, 0) == Some(gs.len() as int));
        assert(commit.1.subrange(0, j - 1).push(commit.1[j - 1]) =~= commit.1.subrange(0, j));
        assert(g.update(
            gs.len() as int,
            (revision, commit.0, commit.1.subrange(0, j - 1).push(commit.1[j - 1])),
        ) =~= gs.push((revision, commit.0, commit.1.subrange(0, j))));
    }
}

/// The files a history wrote group into one group per commit with files.
proof fn lemma_history_collect(h: CommitHistory, ignore: bool)
    requires
        h.len() < u64::MAX,
    ensures
        collect_spec(history_scans(h), ignore) == Ok::<Seq<GroupView>, RebuildFailure>(
            history_groups(h),
        ),
    decreases h.len(),
{
    if h.len() > 0 {
        let hp = h.drop_last();
        lemma_history_collect(hp, ignore);
        lemma_history_groups_bounds(hp);
        let g = history_groups(hp);
        let b = commit_scans(h.len() as u64, h.last());
        lemma_collect_append(Seq::empty(), history_scans(hp), b, ignore);
        if h.last().1.len() > 0 {
            assert forall|x: int| 0 <= x < g.len() implies g[x].0 != h.len() as u64 by {
                assert(1 <= g[x].0 <= hp.len());
            }
            lemma_collect_commit(g, h.len() as u64, h.last(), h.last().1.len() as int, ignore);
            assert(b.subrange(0, b.len() as int) =~= b);
            assert(h.last().1.subrange(0, h.last().1.len() as int) =~= h.last().1);
        } else {
            assert(b =~= Seq::<ScanView>::empty());
        }
    }
}

/// Replaying the groups of a history gives each revision the keys its
/// commit added.
proof fn lemma_history_group_files(h: CommitHistory, r: int)
    requires
        h.len() < u64::MAX,
        1 <= r <= h.len(),
    ensures
        group_files(history_groups(h), r as u64) == h[r - 1].1,
    decreases h.len(),
{
    let hp = h.drop_last();
    let g = history_groups(hp);
    lemma_history_groups_bounds(hp);
    let n = h.len();
    if h.last().1.len() > 0 {
        lemma_group_index_push(g, (n as u64, h.last().0, h.last().1), r as u64, 0);
    }
    lemma_group_index(g, r as u64, 0);
    if r < n {
        lemma_history_group_files(hp, r);
        assert(hp[r - 1] == h[r - 1]);
        if h.last().1.len() > 0 {
            if let Some(i) = group_index(g, r as u64, 0) {
                assert(history_groups(h)[i] == g[i]);
            }
        }
    } else {
        if let Some(x) = group_index(g, r as u64, 0) {
            assert(1 <= g[x].0 <= hp.len());
        }
        if h.last().1.len() == 0 {
            assert(group_files(history_groups(h), r as u64) =~= h[r - 1].1);
        } else {
            assert(history_groups(h)[g.len() as int] == (n as u64, h.last().0, h.last().1));
        }
    }
}

proof fn lemma_history_replay(h: CommitHistory, r: nat)
    requires
        h.len() < u64::MAX,
        r <= h.len(),
    ensures
        replay_keys(history_groups(h), r) == history_keys(h.subrange(0, r as int)),
    decreases r,
{
    if r == 0 {
        assert(h.subrange(0, 0) =~= CommitHistory::empty());
    } else {
        lemma_history_replay(h, (r - 1) as nat);
        lemma_history_group_files(h, r as int);
        let s = h.subrange(0, r as int);
        assert(s.drop_last() =~= h.subrange(0, r - 1));
        assert(s.last() == h[r - 1]);
    }
}

/// Rebuild fidelity: the chunk files that a history of commits wrote, read
/// in commit order, rebuild a catalog at the history's revision with the
/// history's keys in commit order, where the last commit added a file.
/// Commits without files in between keep their revisions.
pub proof fn lemma_rebuild_fidelity(h: CommitHistory, ignore: bool)
    requires
        h.len() < u64::MAX,
        h.len() == 0 || h.last().1.len() > 0,
    ensures
        rebuilt_from(history_scans(h), ignore, h.len() as u64, history_keys(h)),
{
    lemma_history_collect(h, ignore);
    lemma_history_replay(h, h.len());
    assert(h.subrange(0, h.len() as int) =~= h);
    if h.len() > 0 {
        let hp = h.drop_last();
        lemma_history_groups_bounds(hp);
        assert(history_groups(h).drop_last() =~= history_groups(hp));
    }
}

} // verus!
