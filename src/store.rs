//! An object store held in memory: byte objects under path keys.
use vstd::prelude::*;

use crate::path::{under_dirs, ObjectPath, PathView};

verus! {

/// A store entry as values.
pub open spec fn entry_view(e: (ObjectPath, Vec<u8>)) -> (PathView, Seq<u8>) {
    (e.0@, e.1@)
}

/// The first index of `p` among the keys of `es`, at or after `from`.
pub open spec fn index_of(es: Seq<(PathView, Seq<u8>)>, p: PathView, from: int) -> Option<int>
    decreases es.len() - from,
{
    if from < 0 || from >= es.len() {
        None
    } else if es[from].0 == p {
        Some(from)
    } else {
        index_of(es, p, from + 1)
    }
}

/// The bytes stored under `p`, where there is an entry under it.
pub open spec fn stored_bytes(es: Seq<(PathView, Seq<u8>)>, p: PathView) -> Seq<u8> {
    es[index_of(es, p, 0)->0].1
}

/// The entries after putting `b` under `p`: an entry under `p` is replaced
/// in place, else the new entry comes last.
pub open spec fn put_spec(es: Seq<(PathView, Seq<u8>)>, p: PathView, b: Seq<u8>) -> Seq<
    (PathView, Seq<u8>),
> {
    match index_of(es, p, 0) {
        Some(i) => es.update(i, (p, b)),
        None => es.push((p, b)),
    }
}

/// The keys of the entries that lie under `dirs`, in store order.
pub open spec fn listing(es: Seq<(PathView, Seq<u8>)>, dirs: Seq<Seq<char>>) -> Seq<PathView>
    decreases es.len(),
{
    if es.len() == 0 {
        Seq::empty()
    } else if under_dirs(es.last().0, dirs) {
        listing(es.drop_last(), dirs).push(es.last().0)
    } else {
        listing(es.drop_last(), dirs)
    }
}

/// The entries that do not lie under `dirs`, in store order.
pub open spec fn without_under(es: Seq<(PathView, Seq<u8>)>, dirs: Seq<Seq<char>>) -> Seq<
    (PathView, Seq<u8>),
>
    decreases es.len(),
{
    if es.len() == 0 {
        Seq::empty()
    } else if under_dirs(es.last().0, dirs) {
        without_under(es.drop_last(), dirs)
    } else {
        without_under(es.drop_last(), dirs).push(es.last())
    }
}

pub open spec fn keys_unique(es: Seq<(PathView, Seq<u8>)>) -> bool {
    forall|i: int, j: int| 0 <= i < j < es.len() ==> es[i].0 != es[j].0
}

proof fn lemma_index_of(es: Seq<(PathView, Seq<u8>)>, p: PathView, from: int)
    requires
        0 <= from,
    ensures
        index_of(es, p, from) matches Some(i) ==> from <= i < es.len() && es[i].0 == p,
        index_of(es, p, from) is None ==> forall|j: int| from <= j < es.len() ==> es[j].0 != p,
    decreases es.len() - from,
{
    if from < es.len() && es[from].0 != p {
        lemma_index_of(es, p, from + 1);
    }
}

/// Every listed key is the key of an entry.
pub proof fn lemma_listing_keys(es: Seq<(PathView, Seq<u8>)>, dirs: Seq<Seq<char>>)
    ensures
        forall|k: int|
            0 <= k < listing(es, dirs).len() ==> index_of(es, #[trigger] listing(es, dirs)[k], 0) is Some,
    decreases es.len(),
{
    if es.len() > 0 {
        let pre = es.drop_last();
        lemma_listing_keys(pre, dirs);
        assert forall|k: int| 0 <= k < listing(es, dirs).len() implies index_of(
            es,
            #[trigger] listing(es, dirs)[k],
            0,
        ) is Some by {
            let p = listing(es, dirs)[k];
            let j: int = if k < listing(pre, dirs).len() {
                assert(listing(pre, dirs)[k] == p);
                lemma_index_of(pre, p, 0);
                let j = index_of(pre, p, 0)->0;
                assert(es[j] == pre[j]);
                j
            } else {
                es.len() - 1
            };
            assert(es[j].0 == p);
            lemma_index_of(es, p, 0);
        }
    }
}

proof fn lemma_without_under_unique(es: Seq<(PathView, Seq<u8>)>, dirs: Seq<Seq<char>>)
    requires
        keys_unique(es),
    ensures
        keys_unique(without_under(es, dirs)),
        forall|k: int|
            0 <= k < without_under(es, dirs).len() ==> exists|j: int|
                0 <= j < es.len() && es[j] == #[trigger] without_under(es, dirs)[k],
    decreases es.len(),
{
    if es.len() > 0 {
        let rest = es.drop_last();
        assert(keys_unique(rest));
        lemma_without_under_unique(rest, dirs);
        let w = without_under(rest, dirs);
        assert forall|k: int| 0 <= k < w.len() implies exists|j: int|
            0 <= j < es.len() && es[j] == #[trigger] w[k] by {
            let j = choose|j: int| 0 <= j < rest.len() && rest[j] == w[k];
            assert(es[j] == w[k]);
        }
        if !under_dirs(es.last().0, dirs) {
            let w2 = w.push(es.last());
            assert forall|a: int, b: int| 0 <= a < b < w2.len() implies w2[a].0 != w2[b].0 by {
                if b == w.len() {
                    let j = choose|j: int| 0 <= j < rest.len() && rest[j] == w[a];
                    assert(es[j] == w2[a]);
                    assert(es[es.len() - 1] == w2[b]);
                }
            }
            assert forall|k: int| 0 <= k < w2.len() implies exists|j: int|
                0 <= j < es.len() && es[j] == #[trigger] w2[k] by {
                if k == w.len() {
                    assert(es[es.len() - 1] == w2[k]);
                } else {
                    assert(w2[k] == w[k]);
                }
            }
        }
    }
}

/// Objects in memory, each key at most once.
pub struct InMemoryStore {
    objects: Vec<(ObjectPath, Vec<u8>)>,
}

impl InMemoryStore {
    /// The entries, in store order.
    pub closed spec fn entries(&self) -> Seq<(PathView, Seq<u8>)> {
        self.objects@.map_values(|e: (ObjectPath, Vec<u8>)| entry_view(e))
    }

    pub closed spec fn wf(&self) -> bool {
        keys_unique(self.entries())
    }

    /// An empty store.
    pub fn new() -> (r: InMemoryStore)
        ensures
            r.wf(),
            r.entries().len() == 0,
    {
        let r = InMemoryStore { objects: Vec::new() };
        assert(r.entries() =~= Seq::<(PathView, Seq<u8>)>::empty());
        r
    }

    fn find(&self, path: &ObjectPath) -> (r: Option<usize>)
        ensures
            r matches Some(i) ==> index_of(self.entries(), path@, 0) == Some(i as int) && i
                < self.objects@.len(),
            r is None ==> index_of(self.entries(), path@, 0) is None,
    {
        let mut i: usize = 0;
        while i < self.objects.len()
            invariant
                i <= self.objects@.len(),
                index_of(self.entries(), path@, 0) == index_of(self.entries(), path@, i as int),
            decreases self.objects@.len() - i,
        {
            if self.objects[i].0.same_as(path) {
                assert(self.entries()[i as int].0 == self.objects@[i as int].0@);
                return Some(i);
            }
            assert(self.entries()[i as int].0 == self.objects@[i as int].0@);
            i = i + 1;
        }
        None
    }

    /// Stores `data` under `path`, replacing what was there.
    pub fn put(&mut self, path: ObjectPath, data: Vec<u8>)
        requires
            old(self).wf(),
        ensures
            final(self).wf(),
            final(self).entries() == put_spec(old(self).entries(), path@, data@),
    {
        let ghost es = self.entries();
        let ghost p = path@;
        let ghost b = data@;
        proof {
            lemma_index_of(es, p, 0);
        }
        match self.find(&path) {
            Some(i) => {
                self.objects.set(i, (path, data));
                assert(self.entries() =~= es.update(i as int, (p, b)));
            },
            None => {
                self.objects.push((path, data));
                assert(self.entries() =~= es.push((p, b)));
            },
        }
    }

    /// The bytes stored under `path`.
    pub fn get(&self, path: &ObjectPath) -> (r: Option<&Vec<u8>>)
        ensures
            r is Some == (index_of(self.entries(), path@, 0) is Some),
            r matches Some(b) ==> b@ == self.entries()[index_of(self.entries(), path@, 0)->0].1,
    {
        match self.find(path) {
            Some(i) => {
                assert(self.entries()[i as int].1 == self.objects@[i as int].1@);
                Some(&self.objects[i].1)
            },
            None => None,
        }
    }

    /// The keys under the directories of `prefix`, in store order.
    pub fn list(&self, prefix: &ObjectPath) -> (r: Vec<ObjectPath>)
        ensures
            r@.map_values(|p: ObjectPath| p@) == listing(self.entries(), prefix@.dirs),
    {
        let mut out: Vec<ObjectPath> = Vec::new();
        let mut i: usize = 0;
        while i < self.objects.len()
            invariant
                i <= self.objects@.len(),
                out@.map_values(|p: ObjectPath| p@) == listing(
                    self.entries().subrange(0, i as int),
                    prefix@.dirs,
                ),
            decreases self.objects@.len() - i,
        {
            let ghost sub = self.entries().subrange(0, i as int + 1);
            assert(sub.drop_last() =~= self.entries().subrange(0, i as int));
            assert(sub.last().0 == self.objects@[i as int].0@);
            if self.objects[i].0.starts_with_dirs(prefix) {
                let p = self.objects[i].0.duplicate();
                let ghost before = out@.map_values(|p: ObjectPath| p@);
                out.push(p);
                assert(out@.map_values(|p: ObjectPath| p@) =~= before.push(sub.last().0));
            }
            i = i + 1;
        }
        assert(self.entries().subrange(0, i as int) =~= self.entries());
        out
    }

    /// Whether any key lies under the directories of `prefix`.
    pub fn any_under(&self, prefix: &ObjectPath) -> (r: bool)
        ensures
            r == exists|i: int|
                0 <= i < self.entries().len() && under_dirs(
                    #[trigger] self.entries()[i].0,
                    prefix@.dirs,
                ),
    {
        let mut i: usize = 0;
        while i < self.objects.len()
            invariant
                i <= self.objects@.len(),
                forall|j: int|
                    0 <= j < i ==> !under_dirs(#[trigger] self.entries()[j].0, prefix@.dirs),
            decreases self.objects@.len() - i,
        {
            assert(self.entries()[i as int].0 == self.objects@[i as int].0@);
            if self.objects[i].0.starts_with_dirs(prefix) {
                return true;
            }
            i = i + 1;
        }
        false
    }

    /// Deletes every object under the directories of `prefix`.
    pub fn delete_under(&mut self, prefix: &ObjectPath)
        requires
            old(self).wf(),
        ensures
            final(self).wf(),
            final(self).entries() == without_under(old(self).entries(), prefix@.dirs),
    {
        let ghost es = self.entries();
        let mut kept: Vec<(ObjectPath, Vec<u8>)> = Vec::new();
        let mut old_objects: Vec<(ObjectPath, Vec<u8>)> = Vec::new();
        std::mem::swap(&mut old_objects, &mut self.objects);
        assert(old_objects@.map_values(|e: (ObjectPath, Vec<u8>)| entry_view(e)) == es);
        let n = old_objects.len();
        let mut rest = old_objects;
        let mut i: usize = 0;
        while i < n
            invariant
                n == es.len(),
                i <= n,
                rest@.len() == n - i,
                forall|j: int| 0 <= j < n - i ==> entry_view(#[trigger] rest@[j]) == es[i + j],
                kept@.map_values(|e: (ObjectPath, Vec<u8>)| entry_view(e)) == without_under(
                    es.subrange(0, i as int),
                    prefix@.dirs,
                ),
            decreases n - i,
        {
            assert(entry_view(rest@[0]) == es[i as int + 0]);
            let e = rest.remove(0);
            let ghost sub = es.subrange(0, i as int + 1);
            assert(sub.drop_last() =~= es.subrange(0, i as int));
            assert(entry_view(e) == es[i as int]);
            if !e.0.starts_with_dirs(prefix) {
                let ghost before = kept@.map_values(|e: (ObjectPath, Vec<u8>)| entry_view(e));
                kept.push(e);
                assert(kept@.map_values(|e: (ObjectPath, Vec<u8>)| entry_view(e)) =~= before.push(
                    sub.last(),
                ));
            }
            i = i + 1;
        }
        assert(es.subrange(0, n as int) =~= es);
        self.objects = kept;
        proof {
            lemma_without_under_unique(es, prefix@.dirs);
        }
    }
}

} // verus!
