//! The metadata database model: one record table per resource kind, a
//! repository table per registry, and a discovery cache table per kind.
//!
//! The tables are insertion-ordered association lists with unique keys.
//! Durability is the surrounding program's concern: it loads the rows into
//! this model, calls the engine, and writes the rows back.

use vstd::prelude::*;

use crate::apps::{AppFlags, AppType, InstallScope};
use crate::errors::AppError;
use crate::resources::{
    BuiltinRepoConfig, DiscoveryCacheEntry, HookEventType, InstalledResource, RepoWithMeta,
    ResourceNamespace, CACHE_EXPIRY_SECONDS,
};
use crate::strutil::{eq_str, seq_le, str_le};

verus! {

/// The installed-resource records of one kind, in insertion order, with
/// unique identifiers.
#[derive(Clone, Debug)]
pub struct ResourceTable {
    pub records: Vec<InstalledResource>,
}

impl ResourceTable {
    /// Identifiers are unique.
    pub open spec fn wf(&self) -> bool {
        forall|i: int, j: int|
            0 <= i < j < self.records.len() ==> self.records[i].id@ != self.records[j].id@
    }

    /// Whether a record with this identifier exists.
    pub open spec fn spec_has(&self, id: Seq<char>) -> bool {
        exists|i: int| 0 <= i < self.records.len() && self.records[i].id@ == id
    }

    /// The record with this identifier.
    pub open spec fn spec_at(&self, id: Seq<char>) -> InstalledResource {
        let i = choose|i: int| 0 <= i < self.records.len() && self.records[i].id@ == id;
        self.records[i]
    }

    /// An empty table.
    pub fn new() -> (r: ResourceTable)
        ensures
            r.wf(),
            r.records@.len() == 0,
            forall|id: Seq<char>| !r.spec_has(id),
    {
        ResourceTable { records: Vec::new() }
    }

    /// Index of the record with this identifier, if any.
    fn index_of(&self, id: &str) -> (r: Option<usize>)
        ensures
            match r {
                Some(i) => i < self.records.len() && self.records[i as int].id@ == id@,
                None => !self.spec_has(id@),
            },
    {
        let n = self.records.len();
        let mut i: usize = 0;
        while i < n
            invariant
                i <= n,
                n == self.records.len(),
                forall|j: int| 0 <= j < i ==> self.records[j].id@ != id@,
            decreases n - i,
        {
            if eq_str(self.records[i].id.as_str(), id) {
                return Some(i);
            }
            i += 1;
        }
        None
    }

    /// How many records the table holds.
    pub fn count(&self) -> (r: usize)
        ensures
            r == self.records.len(),
    {
        self.records.len()
    }

    /// Whether the table is empty.
    pub fn is_empty(&self) -> (r: bool)
        ensures
            r == (self.records.len() == 0),
    {
        self.records.len() == 0
    }

    /// Read the record with this identifier.
    pub fn get(&self, id: &str) -> (r: Option<&InstalledResource>)
        requires
            self.wf(),
        ensures
            match r {
                Some(rec) => self.spec_has(id@) && *rec == self.spec_at(id@) && rec.id@ == id@,
                None => !self.spec_has(id@),
            },
    {
        match self.index_of(id) {
            Some(i) => {
                proof {
                    let k = choose|k: int|
                        0 <= k < self.records.len() && self.records[k].id@ == id@;
                    assert(k == i);
                }
                Some(&self.records[i])
            },
            None => None,
        }
    }

    /// Insert a record, or replace the record with the same identifier in
    /// place.
    pub fn save(&mut self, rec: InstalledResource)
        requires
            old(self).wf(),
        ensures
            final(self).wf(),
            final(self).spec_has(rec.id@),
            final(self).spec_at(rec.id@) == rec,
            forall|q: Seq<char>|
                q != rec.id@ ==> final(self).spec_has(q) == old(self).spec_has(q),
            forall|q: Seq<char>|
                q != rec.id@ && old(self).spec_has(q) ==> final(self).spec_at(q) == old(self).spec_at(q),
            final(self).records@.len() == old(self).records@.len() + (
            if old(self).spec_has(rec.id@) {
                0int
            } else {
                1int
            }),
    {
        let ghost pre = *self;
        match self.index_of(rec.id.as_str()) {
            Some(i) => {
                let ghost id = rec.id@;
                self.records.remove(i);
                self.records.insert(i, rec);
                proof {
                    assert(self.records@ =~= pre.records@.update(i as int, rec));
                    lemma_update_frame(pre, *self, i as int, id);
                }
            },
            None => {
                self.records.push(rec);
                proof {
                    lemma_push_frame(pre, *self, rec);
                }
            },
        }
    }

    /// Delete the record with this identifier; reports whether one stood.
    pub fn delete(&mut self, id: &str) -> (r: bool)
        requires
            old(self).wf(),
        ensures
            final(self).wf(),
            r == old(self).spec_has(id@),
            !final(self).spec_has(id@),
            forall|q: Seq<char>| q != id@ ==> final(self).spec_has(q) == old(self).spec_has(q),
            forall|q: Seq<char>|
                q != id@ && old(self).spec_has(q) ==> final(self).spec_at(q) == old(self).spec_at(q),
    {
        let ghost pre = *self;
        match self.index_of(id) {
            Some(i) => {
                self.records.remove(i);
                proof {
                    lemma_remove_frame(pre, *self, i as int, id@);
                    assert forall|k: int|
                        0 <= k < self.records.len() implies self.records[k].id@ != id@ by {
                        if k < i {
                            assert(pre.records[k].id@ == self.records[k].id@);
                        } else {
                            assert(pre.records[k + 1].id@ == self.records[k].id@);
                        }
                    }
                }
                true
            },
            None => false,
        }
    }
}

/// Whether some record of `s` lies in namespace `ns`.
pub open spec fn spec_has_ns(s: Seq<InstalledResource>, ns: Seq<char>) -> bool {
    exists|j: int| 0 <= j < s.len() && s[j].namespace@ == ns
}

/// Whether `ns` occurs among `names`.
pub open spec fn spec_name_listed(names: Seq<String>, ns: Seq<char>) -> bool {
    exists|a: int| 0 <= a < names.len() && names[a]@ == ns
}

/// Whether `ns` occurs among the namespace summaries `list`.
pub open spec fn spec_ns_listed(list: Seq<ResourceNamespace>, ns: Seq<char>) -> bool {
    exists|a: int| 0 <= a < list.len() && list[a].name@ == ns
}

/// Whether the reference `x` occurs in the listing `s`.
pub open spec fn spec_ref_listed(s: Seq<&InstalledResource>, x: &InstalledResource) -> bool {
    exists|j: int| 0 <= j < s.len() && s[j] == x
}

/// The ordering key of a record listing: the display name or the file
/// part.
pub open spec fn spec_rec_key(r: InstalledResource, by_name: bool) -> Seq<char> {
    if by_name {
        r.name@
    } else {
        r.filename@
    }
}

/// Sort a record listing ascending by the chosen key, keeping exactly
/// the same elements.
fn sort_recs_by<'a>(list: Vec<&'a InstalledResource>, by_name: bool) -> (r: Vec<
    &'a InstalledResource,
>)
    ensures
        r@.len() == list@.len(),
        forall|k: int| 0 <= k < r@.len() ==> spec_ref_listed(list@, #[trigger] r@[k]),
        forall|j: int| 0 <= j < list@.len() ==> spec_ref_listed(r@, #[trigger] list@[j]),
        forall|a: int, b: int|
            0 <= a < b < r@.len() ==> seq_le(
                spec_rec_key(*(#[trigger] r@[a]), by_name),
                spec_rec_key(*(#[trigger] r@[b]), by_name),
            ),
{
    let mut source = list;
    let ghost pre = source@;
    let n = source.len();
    let mut out: Vec<&InstalledResource> = Vec::new();
    let mut i: usize = 0;
    while i < n
        invariant
            i <= n,
            n == pre.len(),
            source@ =~= pre.subrange(i as int, n as int),
            out@.len() == i,
            forall|a: int, b: int|
                0 <= a < b < out@.len() ==> seq_le(
                    spec_rec_key(*(#[trigger] out@[a]), by_name),
                    spec_rec_key(*(#[trigger] out@[b]), by_name),
                ),
            forall|k: int| 0 <= k < out@.len() ==> spec_ref_listed(pre, #[trigger] out@[k]),
            forall|j: int| 0 <= j < i ==> spec_ref_listed(out@, #[trigger] pre[j]),
        decreases n - i,
    {
        let e = source.remove(0);
        proof {
            assert(e == pre[i as int]);
            assert(source@ =~= pre.subrange(i + 1, n as int));
        }
        let key: &str = if by_name {
            e.name.as_str()
        } else {
            e.filename.as_str()
        };
        let mut p: usize = 0;
        let m = out.len();
        let mut stop = false;
        while p < m && !stop
            invariant
                p <= m,
                m == out@.len(),
                key@ == spec_rec_key(*e, by_name),
                stop ==> p < m && !seq_le(spec_rec_key(*out@[p as int], by_name), key@),
                forall|k: int|
                    0 <= k < p ==> seq_le(spec_rec_key(*(#[trigger] out@[k]), by_name), key@),
            decreases m - p, (if stop { 0int } else { 1int }),
        {
            let other: &str = if by_name {
                out[p].name.as_str()
            } else {
                out[p].filename.as_str()
            };
            if str_le(other, key) {
                p += 1;
            } else {
                stop = true;
            }
        }
        let ghost prev = out@;
        out.insert(p, e);
        proof {
            assert(out@ =~= prev.subrange(0, p as int).push(e) + prev.subrange(
                p as int,
                prev.len() as int,
            ));
            assert forall|a: int, b: int|
                0 <= a < b < out@.len() implies seq_le(
                spec_rec_key(*(#[trigger] out@[a]), by_name),
                spec_rec_key(*(#[trigger] out@[b]), by_name),
            ) by {
                let a2 = if a < p { a } else { a - 1 };
                let b2 = if b < p { b } else { b - 1 };
                if a == p {
                    assert(out@[b] == prev[b2]);
                    assert(b2 >= p);
                    crate::strutil::lemma_seq_le_total(
                        spec_rec_key(*e, by_name),
                        spec_rec_key(*prev[p as int], by_name),
                    );
                    if b2 > p {
                        crate::strutil::lemma_seq_le_trans(
                            spec_rec_key(*e, by_name),
                            spec_rec_key(*prev[p as int], by_name),
                            spec_rec_key(*prev[b2], by_name),
                        );
                    }
                } else if b == p {
                    assert(out@[a] == prev[a2]);
                } else {
                    assert(out@[a] == prev[a2]);
                    assert(out@[b] == prev[b2]);
                }
            }
            assert forall|j: int|
                0 <= j < i + 1 implies spec_ref_listed(out@, #[trigger] pre[j]) by {
                if j < i {
                    let k = choose|k: int| 0 <= k < prev.len() && prev[k] == pre[j];
                    let k2 = if k < p { k } else { k + 1 };
                    assert(out@[k2] == prev[k]);
                } else {
                    assert(out@[p as int] == pre[j]);
                }
            }
            assert forall|k: int|
                0 <= k < out@.len() implies spec_ref_listed(pre, #[trigger] out@[k]) by {
                let k2 = if k < p { k } else { k - 1 };
                if k == p {
                    assert(out@[k] == pre[i as int]);
                } else {
                    assert(out@[k] == prev[k2]);
                    assert(spec_ref_listed(pre, prev[k2]));
                }
            }
        }
        i += 1;
    }
    proof {
        assert(pre =~= list@);
    }
    out
}

/// How many of `ids` name a record of `t`.
pub open spec fn count_present(ids: Seq<Seq<char>>, t: ResourceTable) -> nat
    decreases ids.len(),
{
    if ids.len() == 0 {
        0
    } else {
        count_present(ids.drop_last(), t) + (if t.spec_has(ids.last()) {
            1nat
        } else {
            0nat
        })
    }
}

/// How many records of `s` lie in namespace `ns`.
pub open spec fn count_ns(s: Seq<InstalledResource>, ns: Seq<char>) -> nat
    decreases s.len(),
{
    if s.len() == 0 {
        0
    } else {
        count_ns(s.drop_last(), ns) + (if s.last().namespace@ == ns {
            1nat
        } else {
            0nat
        })
    }
}

impl ResourceTable {
    /// Set the per-application flags of a record; reports whether it
    /// stood.
    pub fn update_apps(&mut self, id: &str, apps: AppFlags) -> (r: bool)
        requires
            old(self).wf(),
        ensures
            final(self).wf(),
            r == old(self).spec_has(id@),
            old(self).spec_has(id@) ==> final(self).spec_at(id@) == (InstalledResource {
                apps,
                ..old(self).spec_at(id@)
            }),
            forall|q: Seq<char>| final(self).spec_has(q) == old(self).spec_has(q),
            forall|q: Seq<char>|
                q != id@ && old(self).spec_has(q) ==> final(self).spec_at(q) == old(self).spec_at(q),
    {
        match self.index_of(id) {
            Some(i) => {
                let mut rec = self.records.remove(i);
                let ghost pre_rec = rec;
                rec.apps = apps;
                self.records.insert(i, rec);
                proof {
                    let k = choose|k: int|
                        0 <= k < old(self).records.len() && old(self).records[k].id@ == id@;
                    assert(k == i);
                    assert(self.records@ =~= old(self).records@.update(i as int, rec));
                    lemma_update_frame(*old(self), *self, i as int, id@);
                }
                true
            },
            None => false,
        }
    }

    /// Set the scope of a record; reports whether it stood.
    pub fn update_scope(&mut self, id: &str, scope: InstallScope) -> (r: bool)
        requires
            old(self).wf(),
        ensures
            final(self).wf(),
            r == old(self).spec_has(id@),
            old(self).spec_has(id@) ==> final(self).spec_at(id@) == (InstalledResource {
                scope,
                ..old(self).spec_at(id@)
            }),
            forall|q: Seq<char>| final(self).spec_has(q) == old(self).spec_has(q),
            forall|q: Seq<char>|
                q != id@ && old(self).spec_has(q) ==> final(self).spec_at(q) == old(self).spec_at(q),
    {
        match self.index_of(id) {
            Some(i) => {
                let mut rec = self.records.remove(i);
                rec.scope = scope;
                self.records.insert(i, rec);
                proof {
                    let k = choose|k: int|
                        0 <= k < old(self).records.len() && old(self).records[k].id@ == id@;
                    assert(k == i);
                    assert(self.records@ =~= old(self).records@.update(i as int, rec));
                    lemma_update_frame(*old(self), *self, i as int, id@);
                }
                true
            },
            None => false,
        }
    }

    /// Set the stored content hash of a record; reports whether it stood.
    pub fn update_hash(&mut self, id: &str, file_hash: &str) -> (r: bool)
        requires
            old(self).wf(),
        ensures
            final(self).wf(),
            r == old(self).spec_has(id@),
            old(self).spec_has(id@) ==> final(self).spec_has(id@) && (final(self).spec_at(
                id@,
            ).file_hash matches Some(h) && h@ == file_hash@),
            old(self).spec_has(id@) ==> final(self).spec_at(id@) == (InstalledResource {
                file_hash: final(self).spec_at(id@).file_hash,
                ..old(self).spec_at(id@)
            }),
            forall|q: Seq<char>| final(self).spec_has(q) == old(self).spec_has(q),
            forall|q: Seq<char>|
                q != id@ && old(self).spec_has(q) ==> final(self).spec_at(q) == old(self).spec_at(q),
    {
        match self.index_of(id) {
            Some(i) => {
                let mut rec = self.records.remove(i);
                rec.file_hash = Some(String::from_str(file_hash));
                self.records.insert(i, rec);
                proof {
                    let k = choose|k: int|
                        0 <= k < old(self).records.len() && old(self).records[k].id@ == id@;
                    assert(k == i);
                    assert(self.records@ =~= old(self).records@.update(i as int, rec));
                    lemma_update_frame(*old(self), *self, i as int, id@);
                }
                true
            },
            None => false,
        }
    }

    /// Set the global enablement of a hook record; reports whether it
    /// stood.
    pub fn update_enabled(&mut self, id: &str, enabled: bool) -> (r: bool)
        requires
            old(self).wf(),
        ensures
            final(self).wf(),
            r == old(self).spec_has(id@),
            old(self).spec_has(id@) ==> final(self).spec_at(id@) == (InstalledResource {
                enabled,
                ..old(self).spec_at(id@)
            }),
            forall|q: Seq<char>| final(self).spec_has(q) == old(self).spec_has(q),
            forall|q: Seq<char>|
                q != id@ && old(self).spec_has(q) ==> final(self).spec_at(q) == old(self).spec_at(q),
    {
        match self.index_of(id) {
            Some(i) => {
                let mut rec = self.records.remove(i);
                rec.enabled = enabled;
                self.records.insert(i, rec);
                proof {
                    let k = choose|k: int|
                        0 <= k < old(self).records.len() && old(self).records[k].id@ == id@;
                    assert(k == i);
                    assert(self.records@ =~= old(self).records@.update(i as int, rec));
                    lemma_update_frame(*old(self), *self, i as int, id@);
                }
                true
            },
            None => false,
        }
    }

    /// Set the priority of a hook record; reports whether it stood.
    pub fn update_priority(&mut self, id: &str, priority: i32) -> (r: bool)
        requires
            old(self).wf(),
        ensures
            final(self).wf(),
            r == old(self).spec_has(id@),
            old(self).spec_has(id@) ==> final(self).spec_at(id@) == (InstalledResource {
                priority,
                ..old(self).spec_at(id@)
            }),
            forall|q: Seq<char>| final(self).spec_has(q) == old(self).spec_has(q),
            forall|q: Seq<char>|
                q != id@ && old(self).spec_has(q) ==> final(self).spec_at(q) == old(self).spec_at(q),
    {
        match self.index_of(id) {
            Some(i) => {
                let mut rec = self.records.remove(i);
                rec.priority = priority;
                self.records.insert(i, rec);
                proof {
                    let k = choose|k: int|
                        0 <= k < old(self).records.len() && old(self).records[k].id@ == id@;
                    assert(k == i);
                    assert(self.records@ =~= old(self).records@.update(i as int, rec));
                    lemma_update_frame(*old(self), *self, i as int, id@);
                }
                true
            },
            None => false,
        }
    }

    /// Re-assign priorities by position in `ids`: the record named first
    /// gets 10, the next 20, and so on.  Unknown identifiers are skipped;
    /// reports how many records were touched.
    #[verifier::rlimit(100)]
    pub fn reorder(&mut self, ids: &Vec<String>) -> (r: usize)
        requires
            old(self).wf(),
            ids@.len() * 10 + 10 < 0x7FFF_FFFF,
        ensures
            final(self).wf(),
            r == count_present(ids.deep_view(), *old(self)),
            forall|q: Seq<char>| final(self).spec_has(q) == old(self).spec_has(q),
            forall|k: int|
                0 <= k < ids@.len() && old(self).spec_has(ids@[k]@) && (forall|k2: int|
                    k < k2 < ids@.len() ==> ids@[k2]@ != ids@[k]@) ==> final(self).spec_at(
                    ids@[k]@,
                ) == (InstalledResource {
                    priority: (10 * k + 10) as i32,
                    ..old(self).spec_at(ids@[k]@)
                }),
    {
        let n = ids.len();
        let mut touched: usize = 0;
        let mut i: usize = 0;
        proof {
            assert(ids.deep_view().subrange(0, 0) =~= Seq::<Seq<char>>::empty());
        }
        while i < n
            invariant
                i <= n,
                n == ids@.len(),
                n * 10 + 10 < 0x7FFF_FFFF,
                touched <= i,
                touched == count_present(ids.deep_view().subrange(0, i as int), *old(self)),
                self.wf(),
                forall|q: Seq<char>| self.spec_has(q) == old(self).spec_has(q),
                forall|q: Seq<char>|
                    old(self).spec_has(q) && (forall|k: int|
                        0 <= k < i ==> ids@[k]@ != q) ==> self.spec_at(q) == old(self).spec_at(q),
                forall|q: Seq<char>|
                    old(self).spec_has(q) ==> self.spec_at(q) == (InstalledResource {
                        priority: self.spec_at(q).priority,
                        ..old(self).spec_at(q)
                    }),
                forall|k: int|
                    0 <= k < i && old(self).spec_has(ids@[k]@) && (forall|k2: int|
                        k < k2 < i ==> ids@[k2]@ != ids@[k]@) ==> self.spec_at(ids@[k]@)
                        == (InstalledResource {
                        priority: (10 * k + 10) as i32,
                        ..old(self).spec_at(ids@[k]@)
                    }),
            decreases n - i,
        {
            let ghost pre = *self;
            proof {
                assert(ids.deep_view().subrange(0, i + 1).drop_last() =~= ids.deep_view()
                    .subrange(0, i as int));
                assert(ids.deep_view().subrange(0, i + 1).last() == ids@[i as int]@);
            }
            let priority: i32 = ((i as i32) + 1) * 10;
            if self.update_priority(ids[i].as_str(), priority) {
                touched += 1;
                if touched > i {
                    touched = i + 1;
                }
            }
            proof {
                let cur = ids@[i as int]@;
                assert forall|k: int|
                    0 <= k < i + 1 && old(self).spec_has(ids@[k]@) && (forall|k2: int|
                        k < k2 < i + 1 ==> ids@[k2]@ != ids@[k]@) implies self.spec_at(
                    ids@[k]@,
                ) == (InstalledResource {
                    priority: (10 * k + 10) as i32,
                    ..old(self).spec_at(ids@[k]@)
                }) by {
                    if k == i {
                        assert(pre.spec_at(cur) == (InstalledResource {
                            priority: pre.spec_at(cur).priority,
                            ..old(self).spec_at(cur)
                        }));
                    } else {
                        assert(ids@[k]@ != cur);
                    }
                }
            }
            i += 1;
        }
        proof {
            assert(ids.deep_view().subrange(0, n as int) =~= ids.deep_view());
        }
        touched
    }

    /// Count the records in namespace `ns`.
    pub fn count_in_namespace(&self, ns: &str) -> (r: usize)
        ensures
            r == count_ns(self.records@, ns@),
    {
        let n = self.records.len();
        let mut c: usize = 0;
        let mut i: usize = 0;
        while i < n
            invariant
                i <= n,
                c <= i,
                n == self.records.len(),
                c == count_ns(self.records@.subrange(0, i as int), ns@),
            decreases n - i,
        {
            proof {
                assert(self.records@.subrange(0, i + 1).drop_last() =~= self.records@.subrange(
                    0,
                    i as int,
                ));
            }
            if eq_str(self.records[i].namespace.as_str(), ns) {
                c += 1;
            }
            i += 1;
        }
        proof {
            assert(self.records@.subrange(0, n as int) =~= self.records@);
        }
        c
    }

    /// The distinct namespaces of the table, in first-appearance order.
    pub fn namespace_names(&self) -> (r: Vec<String>)
        ensures
            forall|a: int, b: int| 0 <= a < b < r@.len() ==> r@[a]@ != r@[b]@,
            forall|a: int, b: int|
                0 <= a < b < r@.len() ==> seq_le(r@[a]@, r@[b]@),
            forall|a: int| 0 <= a < r@.len() ==> #[trigger] spec_has_ns(self.records@, r@[a]@),
            forall|j: int|
                0 <= j < self.records.len() ==> spec_name_listed(
                    r@,
                    #[trigger] self.records[j].namespace@,
                ),
    {
        let n = self.records.len();
        let mut out: Vec<String> = Vec::new();
        let mut i: usize = 0;
        while i < n
            invariant
                i <= n,
                n == self.records.len(),
                forall|a: int, b: int| 0 <= a < b < out@.len() ==> out@[a]@ != out@[b]@,
                forall|a: int|
                    0 <= a < out@.len() ==> #[trigger] spec_has_ns(self.records@, out@[a]@),
                forall|j: int|
                    0 <= j < i ==> spec_name_listed(
                        out@,
                        #[trigger] self.records[j].namespace@,
                    ),
            decreases n - i,
        {
            let ns = &self.records[i].namespace;
            let mut found = false;
            let m = out.len();
            let mut k: usize = 0;
            while k < m
                invariant
                    k <= m,
                    m == out@.len(),
                    found ==> spec_name_listed(out@, ns@),
                    !found ==> forall|a: int| 0 <= a < k ==> out@[a]@ != ns@,
                decreases m - k,
            {
                if eq_str(out[k].as_str(), ns.as_str()) {
                    found = true;
                }
                k += 1;
            }
            let ghost prev = out@;
            if !found {
                out.push(ns.clone());
                proof {
                    assert(out@[out@.len() - 1]@ == ns@);
                    assert(spec_has_ns(self.records@, ns@));
                    assert forall|j: int|
                        0 <= j < i + 1 implies spec_name_listed(
                        out@,
                        self.records[j].namespace@,
                    ) by {
                        if j < i {
                            let a = choose|a: int|
                                0 <= a < prev.len() && prev[a]@ == self.records[j].namespace@;
                            assert(out@[a]@ == self.records[j].namespace@);
                        } else {
                            assert(out@[out@.len() - 1]@ == self.records[j].namespace@);
                        }
                    }
                    assert forall|a: int|
                        0 <= a < out@.len() implies #[trigger] spec_has_ns(
                        self.records@,
                        out@[a]@,
                    ) by {
                        if a < prev.len() {
                            assert(out@[a]@ == prev[a]@);
                        } else {
                            assert(self.records[i as int].namespace@ == out@[a]@);
                        }
                    }
                }
            } else {
                proof {
                    assert forall|j: int|
                        0 <= j < i + 1 implies spec_name_listed(
                        out@,
                        self.records[j].namespace@,
                    ) by {}
                }
            }
            i += 1;
        }
        // sort the distinct names ascending
        let mut sorted: Vec<String> = Vec::new();
        let ghost pool = out@;
        let m2 = out.len();
        let mut s: usize = 0;
        while s < m2
            invariant
                s <= m2,
                m2 == pool.len(),
                out@ =~= pool.subrange(s as int, m2 as int),
                forall|a: int, b: int| 0 <= a < b < pool.len() ==> pool[a]@ != pool[b]@,
                forall|a: int, b: int|
                    0 <= a < b < sorted@.len() ==> seq_le(sorted@[a]@, sorted@[b]@),
                forall|a: int|
                    0 <= a < sorted@.len() ==> spec_name_listed(
                        pool.subrange(0, s as int),
                        (#[trigger] sorted@[a])@,
                    ),
                forall|j: int|
                    0 <= j < s ==> spec_name_listed(sorted@, (#[trigger] pool[j])@),
                forall|a: int, b: int|
                    0 <= a < b < sorted@.len() ==> sorted@[a]@ != sorted@[b]@,
            decreases m2 - s,
        {
            let e = out.remove(0);
            proof {
                assert(e == pool[s as int]);
                assert(out@ =~= pool.subrange(s + 1, m2 as int));
            }
            let mut p: usize = 0;
            let sl = sorted.len();
            let mut stop = false;
            while p < sl && !stop
                invariant
                    p <= sl,
                    sl == sorted@.len(),
                    stop ==> p < sl && !seq_le(sorted@[p as int]@, e@),
                    forall|k: int| 0 <= k < p ==> seq_le((#[trigger] sorted@[k])@, e@),
                decreases sl - p, (if stop { 0int } else { 1int }),
            {
                if str_le(sorted[p].as_str(), e.as_str()) {
                    p += 1;
                } else {
                    stop = true;
                }
            }
            let ghost prev = sorted@;
            sorted.insert(p, e);
            proof {
                assert(sorted@ =~= prev.subrange(0, p as int).push(pool[s as int])
                    + prev.subrange(p as int, prev.len() as int));
                assert forall|a: int, b: int|
                    0 <= a < b < sorted@.len() implies seq_le(sorted@[a]@, sorted@[b]@) by {
                    let a2 = if a < p { a } else { a - 1 };
                    let b2 = if b < p { b } else { b - 1 };
                    if a == p {
                        assert(sorted@[b] == prev[b2]);
                        assert(b2 >= p);
                        crate::strutil::lemma_seq_le_total(e@, prev[p as int]@);
                        if b2 > p {
                            crate::strutil::lemma_seq_le_trans(
                                e@,
                                prev[p as int]@,
                                prev[b2]@,
                            );
                        }
                    } else if b == p {
                        assert(sorted@[a] == prev[a2]);
                    } else {
                        assert(sorted@[a] == prev[a2]);
                        assert(sorted@[b] == prev[b2]);
                    }
                }
                assert forall|a: int, b: int|
                    0 <= a < b < sorted@.len() implies sorted@[a]@ != sorted@[b]@ by {
                    let a2 = if a < p { a } else { a - 1 };
                    let b2 = if b < p { b } else { b - 1 };
                    if a == p {
                        assert(sorted@[b] == prev[b2]);
                        assert(spec_name_listed(pool.subrange(0, s as int), prev[b2]@));
                        let j = choose|j: int|
                            0 <= j < s && (#[trigger] pool.subrange(0, s as int)[j])@ == prev[
                            b2]@;
                        if sorted@[a]@ == sorted@[b]@ {
                            assert(pool[j]@ == pool[s as int]@);
                        }
                    } else if b == p {
                        assert(sorted@[a] == prev[a2]);
                        assert(spec_name_listed(pool.subrange(0, s as int), prev[a2]@));
                        let j = choose|j: int|
                            0 <= j < s && (#[trigger] pool.subrange(0, s as int)[j])@ == prev[
                            a2]@;
                        if sorted@[a]@ == sorted@[b]@ {
                            assert(pool[j]@ == pool[s as int]@);
                        }
                    } else {
                        assert(sorted@[a] == prev[a2]);
                        assert(sorted@[b] == prev[b2]);
                    }
                }
                assert forall|a: int|
                    0 <= a < sorted@.len() implies spec_name_listed(
                    pool.subrange(0, s + 1),
                    (#[trigger] sorted@[a])@,
                ) by {
                    if a != p {
                        let a2 = if a < p { a } else { a - 1 };
                        assert(sorted@[a] == prev[a2]);
                        assert(spec_name_listed(pool.subrange(0, s as int), prev[a2]@));
                        let j = choose|j: int|
                            0 <= j < s && (#[trigger] pool.subrange(0, s as int)[j])@ == prev[
                            a2]@;
                        assert(pool.subrange(0, s + 1)[j]@ == sorted@[a]@);
                    } else {
                        assert(pool.subrange(0, s + 1)[s as int]@ == sorted@[a]@);
                    }
                }
                assert forall|j: int|
                    0 <= j < s + 1 implies spec_name_listed(
                    sorted@,
                    (#[trigger] pool[j])@,
                ) by {
                    if j < s {
                        let k = choose|k: int|
                            0 <= k < prev.len() && (#[trigger] prev[k])@ == pool[j]@;
                        let k2 = if k < p { k } else { k + 1 };
                        assert(sorted@[k2]@ == pool[j]@);
                    } else {
                        assert(sorted@[p as int]@ == pool[j]@);
                    }
                }
            }
            s += 1;
        }
        proof {
            assert forall|a: int|
                0 <= a < sorted@.len() implies #[trigger] spec_has_ns(
                self.records@,
                sorted@[a]@,
            ) by {
                assert(spec_name_listed(pool.subrange(0, m2 as int), sorted@[a]@));
                let j = choose|j: int|
                    0 <= j < m2 && (#[trigger] pool.subrange(0, m2 as int)[j])@ == sorted@[a]@;
                assert(spec_has_ns(self.records@, pool[j]@));
            }
            assert forall|j: int|
                0 <= j < self.records.len() implies spec_name_listed(
                sorted@,
                #[trigger] self.records[j].namespace@,
            ) by {
                assert(spec_name_listed(pool, self.records[j].namespace@));
                let k = choose|k: int|
                    0 <= k < pool.len() && (#[trigger] pool[k])@ == self.records[j].namespace@;
                assert(spec_name_listed(sorted@, pool[k]@));
            }
        }
        sorted
    }

    /// The namespaces of the table with their record counts, sorted by
    /// namespace ascending; the root namespace is displayed as `Root`.
    pub fn namespaces(&self) -> (r: Vec<ResourceNamespace>)
        ensures
            forall|a: int, b: int| 0 <= a < b < r@.len() ==> r@[a].name@ != r@[b].name@,
            forall|a: int, b: int|
                0 <= a < b < r@.len() ==> seq_le(r@[a].name@, r@[b].name@),
            forall|a: int|
                0 <= a < r@.len() ==> #[trigger] spec_has_ns(self.records@, r@[a].name@),
            forall|j: int|
                0 <= j < self.records.len() ==> spec_ns_listed(
                    r@,
                    #[trigger] self.records[j].namespace@,
                ),
            forall|a: int|
                0 <= a < r@.len() ==> r@[a].count == count_ns(self.records@, r@[a].name@),
            forall|a: int|
                0 <= a < r@.len() ==> r@[a].display_name@ == (if r@[a].name@.len() == 0 {
                    "Root"@
                } else {
                    r@[a].name@
                }),
    {
        proof {
            reveal_strlit("Root");
        }
        let names = self.namespace_names();
        let n = names.len();
        let mut out: Vec<ResourceNamespace> = Vec::new();
        let mut i: usize = 0;
        while i < n
            invariant
                i <= n,
                n == names@.len(),
                out@.len() == i,
                forall|a: int, b: int| 0 <= a < b < names@.len() ==> names@[a]@ != names@[b]@,
                forall|a: int|
                    0 <= a < names@.len() ==> #[trigger] spec_has_ns(
                        self.records@,
                        names@[a]@,
                    ),
                forall|j: int|
                    0 <= j < self.records.len() ==> spec_name_listed(
                        names@,
                        #[trigger] self.records[j].namespace@,
                    ),
                forall|a: int| 0 <= a < i ==> out@[a].name@ == names@[a]@,
                forall|a: int|
                    0 <= a < i ==> out@[a].count == count_ns(self.records@, out@[a].name@),
                forall|a: int|
                    0 <= a < i ==> out@[a].display_name@ == (if out@[a].name@.len() == 0 {
                        "Root"@
                    } else {
                        out@[a].name@
                    }),
            decreases n - i,
        {
            let name = &names[i];
            let count = self.count_in_namespace(name.as_str());
            let display_name = if name.as_str().is_empty() {
                String::from_str("Root")
            } else {
                name.clone()
            };
            out.push(ResourceNamespace { name: name.clone(), display_name, count });
            i += 1;
        }
        proof {
            assert forall|a: int|
                0 <= a < out@.len() implies #[trigger] spec_has_ns(
                self.records@,
                out@[a].name@,
            ) by {
                assert(out@[a].name@ == names@[a]@);
                assert(spec_has_ns(self.records@, names@[a]@));
            }
            assert forall|a: int, b: int|
                0 <= a < b < out@.len() implies out@[a].name@ != out@[b].name@ by {
                assert(out@[a].name@ == names@[a]@);
                assert(out@[b].name@ == names@[b]@);
            }
            assert forall|a: int, b: int|
                0 <= a < b < out@.len() implies seq_le(out@[a].name@, out@[b].name@) by {
                assert(out@[a].name@ == names@[a]@);
                assert(out@[b].name@ == names@[b]@);
                assert(seq_le(names@[a]@, names@[b]@));
            }
            assert forall|j: int|
                0 <= j < self.records.len() implies spec_ns_listed(
                out@,
                #[trigger] self.records[j].namespace@,
            ) by {
                assert(spec_name_listed(names@, self.records[j].namespace@));
                let a = choose|a: int|
                    0 <= a < names@.len() && names@[a]@ == self.records[j].namespace@;
                assert(out@[a].name@ == names@[a]@);
            }
        }
        out
    }

    /// The records lying in namespace `ns`, sorted by their file part
    /// ascending.
    pub fn by_namespace(&self, ns: &str) -> (r: Vec<&InstalledResource>)
        requires
            self.wf(),
        ensures
            r@.len() == count_ns(self.records@, ns@),
            forall|k: int| 0 <= k < r@.len() ==> (#[trigger] r@[k]).namespace@ == ns@,
            forall|k: int|
                0 <= k < r@.len() ==> self.spec_has((#[trigger] r@[k]).id@) && *r@[k]
                    == self.spec_at(r@[k].id@),
            forall|a: int, b: int|
                0 <= a < b < r@.len() ==> seq_le(
                    (#[trigger] r@[a]).filename@,
                    (#[trigger] r@[b]).filename@,
                ),
    {
        let n = self.records.len();
        let mut out: Vec<&InstalledResource> = Vec::new();
        let mut i: usize = 0;
        while i < n
            invariant
                i <= n,
                n == self.records.len(),
                self.wf(),
                out@.len() == count_ns(self.records@.subrange(0, i as int), ns@),
                forall|k: int| 0 <= k < out@.len() ==> (#[trigger] out@[k]).namespace@ == ns@,
                forall|k: int|
                    0 <= k < out@.len() ==> self.spec_has((#[trigger] out@[k]).id@)
                        && *out@[k] == self.spec_at(out@[k].id@),
            decreases n - i,
        {
            proof {
                assert(self.records@.subrange(0, i + 1).drop_last() =~= self.records@.subrange(
                    0,
                    i as int,
                ));
            }
            if eq_str(self.records[i].namespace.as_str(), ns) {
                out.push(&self.records[i]);
                proof {
                    let rec = self.records@[i as int];
                    assert(self.spec_has(rec.id@));
                    let k = choose|k: int|
                        0 <= k < self.records.len() && self.records[k].id@ == rec.id@;
                    assert(k == i);
                }
            }
            i += 1;
        }
        proof {
            assert(self.records@.subrange(0, n as int) =~= self.records@);
        }
        let ghost unsorted = out@;
        let sorted = sort_recs_by(out, false);
        proof {
            assert forall|k: int|
                0 <= k < sorted@.len() implies (#[trigger] sorted@[k]).namespace@ == ns@
                && self.spec_has(sorted@[k].id@) && *sorted@[k] == self.spec_at(
                sorted@[k].id@,
            ) by {
                assert(spec_ref_listed(unsorted, sorted@[k]));
                let j = choose|j: int|
                    0 <= j < unsorted.len() && unsorted[j] == sorted@[k];
                assert(unsorted[j].namespace@ == ns@);
            }
            assert forall|a: int, b: int|
                0 <= a < b < sorted@.len() implies seq_le(
                (#[trigger] sorted@[a]).filename@,
                (#[trigger] sorted@[b]).filename@,
            ) by {
                assert(seq_le(
                    spec_rec_key(*sorted@[a], false),
                    spec_rec_key(*sorted@[b], false),
                ));
            }
        }
        sorted
    }
}

/// After replacing position `i`, whose identifier `id` is kept, every
/// other identifier keeps its presence and its record.
proof fn lemma_update_frame(pre: ResourceTable, post: ResourceTable, i: int, id: Seq<char>)
    requires
        pre.wf(),
        0 <= i < pre.records.len(),
        pre.records[i].id@ == id,
        post.records[i].id@ == id,
        post.records@ == pre.records@.update(i, post.records@[i]),
    ensures
        post.wf(),
        post.spec_has(id),
        post.spec_at(id) == post.records@[i],
        forall|q: Seq<char>| q != id ==> post.spec_has(q) == pre.spec_has(q),
        forall|q: Seq<char>| q != id && pre.spec_has(q) ==> post.spec_at(q) == pre.spec_at(q),
{
    assert forall|a: int, b: int|
        0 <= a < b < post.records.len() implies post.records[a].id@ != post.records[b].id@ by {
        assert(a != i ==> post.records[a] == pre.records[a]);
        assert(b != i ==> post.records[b] == pre.records[b]);
    }
    let k = choose|k: int| 0 <= k < post.records.len() && post.records[k].id@ == id;
    assert(k == i);
    assert forall|q: Seq<char>| q != id implies post.spec_has(q) == pre.spec_has(q) by {
        if pre.spec_has(q) {
            let a = choose|a: int| 0 <= a < pre.records.len() && pre.records[a].id@ == q;
            assert(post.records[a].id@ == q);
        } else if post.spec_has(q) {
            let a = choose|a: int| 0 <= a < post.records.len() && post.records[a].id@ == q;
            assert(pre.records[a].id@ == q);
        }
    }
    assert forall|q: Seq<char>| q != id && pre.spec_has(q) implies post.spec_at(q) == pre.spec_at(
        q,
    ) by {
        let a = choose|a: int| 0 <= a < pre.records.len() && pre.records[a].id@ == q;
        assert(post.records[a].id@ == q);
        let b = choose|b: int| 0 <= b < post.records.len() && post.records[b].id@ == q;
        assert(b == a);
    }
}

/// After pushing a record whose identifier was absent, every other
/// identifier keeps its presence and its record.
proof fn lemma_push_frame(pre: ResourceTable, post: ResourceTable, rec: InstalledResource)
    requires
        pre.wf(),
        !pre.spec_has(rec.id@),
        post.records@ == pre.records@.push(rec),
    ensures
        post.wf(),
        post.spec_has(rec.id@),
        post.spec_at(rec.id@) == rec,
        forall|q: Seq<char>| q != rec.id@ ==> post.spec_has(q) == pre.spec_has(q),
        forall|q: Seq<char>|
            q != rec.id@ && pre.spec_has(q) ==> post.spec_at(q) == pre.spec_at(q),
{
    let n = pre.records.len() as int;
    assert forall|a: int, b: int|
        0 <= a < b < post.records.len() implies post.records[a].id@ != post.records[b].id@ by {
        if b < n {
            assert(post.records[a] == pre.records[a]);
            assert(post.records[b] == pre.records[b]);
        } else {
            assert(post.records[a] == pre.records[a]);
            assert(pre.spec_has(rec.id@) == false);
        }
    }
    assert(post.records@[n] == rec);
    let k = choose|k: int| 0 <= k < post.records.len() && post.records[k].id@ == rec.id@;
    assert(k == n) by {
        if k < n {
            assert(post.records@[k] == pre.records@[k]);
            assert(pre.spec_has(rec.id@));
        }
    }
    assert forall|q: Seq<char>| q != rec.id@ implies post.spec_has(q) == pre.spec_has(q) by {
        if pre.spec_has(q) {
            let a = choose|a: int| 0 <= a < pre.records.len() && pre.records[a].id@ == q;
            assert(post.records[a].id@ == q);
        } else if post.spec_has(q) {
            let a = choose|a: int| 0 <= a < post.records.len() && post.records[a].id@ == q;
            assert(a < n);
            assert(pre.records[a].id@ == q);
        }
    }
    assert forall|q: Seq<char>|
        q != rec.id@ && pre.spec_has(q) implies post.spec_at(q) == pre.spec_at(q) by {
        let a = choose|a: int| 0 <= a < pre.records.len() && pre.records[a].id@ == q;
        assert(post.records[a].id@ == q);
        let b = choose|b: int| 0 <= b < post.records.len() && post.records[b].id@ == q;
        assert(b == a);
    }
}

/// After removing position `i`, which held `id`, every other identifier
/// keeps its presence and its record.
proof fn lemma_remove_frame(pre: ResourceTable, post: ResourceTable, i: int, id: Seq<char>)
    requires
        pre.wf(),
        0 <= i < pre.records.len(),
        pre.records[i].id@ == id,
        post.records@ == pre.records@.remove(i),
    ensures
        post.wf(),
        forall|q: Seq<char>| q != id ==> post.spec_has(q) == pre.spec_has(q),
        forall|q: Seq<char>| q != id && pre.spec_has(q) ==> post.spec_at(q) == pre.spec_at(q),
{
    assert forall|a: int, b: int|
        0 <= a < b < post.records.len() implies post.records[a].id@ != post.records[b].id@ by {
        let a2 = if a < i { a } else { a + 1 };
        let b2 = if b < i { b } else { b + 1 };
        assert(post.records[a] == pre.records[a2]);
        assert(post.records[b] == pre.records[b2]);
    }
    assert forall|q: Seq<char>| q != id implies post.spec_has(q) == pre.spec_has(q) by {
        if pre.spec_has(q) {
            let k = choose|k: int| 0 <= k < pre.records.len() && pre.records[k].id@ == q;
            if k < i {
                assert(post.records[k].id@ == q);
            } else {
                assert(post.records[k - 1].id@ == q);
            }
        } else if post.spec_has(q) {
            let k = choose|k: int| 0 <= k < post.records.len() && post.records[k].id@ == q;
            let k2 = if k < i { k } else { k + 1 };
            assert(pre.records[k2].id@ == q);
        }
    }
    assert forall|q: Seq<char>| q != id && pre.spec_has(q) implies post.spec_at(q) == pre.spec_at(
        q,
    ) by {
        let k = choose|k: int| 0 <= k < pre.records.len() && pre.records[k].id@ == q;
        let kp = if k < i { k } else { k - 1 };
        assert(post.records[kp] == pre.records[k]);
        let k2 = choose|k2: int| 0 <= k2 < post.records.len() && post.records[k2].id@ == q;
        let k3 = if k2 < i { k2 } else { k2 + 1 };
        assert(pre.records[k3].id@ == q);
        assert(k3 == k);
    }
}

} // verus!

use vstd::prelude::*;

verus! {

/// Whether `owner/name` keys one of the repository rows of `s`.
pub open spec fn spec_has_key(s: Seq<RepoWithMeta>, owner: Seq<char>, name: Seq<char>) -> bool {
    exists|i: int| 0 <= i < s.len() && s[i].owner@ == owner && s[i].name@ == name
}

/// The repository row of `s` keyed `owner/name`.
pub open spec fn spec_at_key(
    s: Seq<RepoWithMeta>,
    owner: Seq<char>,
    name: Seq<char>,
) -> RepoWithMeta {
    let i = choose|i: int| 0 <= i < s.len() && s[i].owner@ == owner && s[i].name@ == name;
    s[i]
}

/// The stored descriptions agree with the builtin manifest's.
pub open spec fn spec_descs_match(r: RepoWithMeta, b: BuiltinRepoConfig) -> bool {
    &&& (r.description_zh matches Some(z) && z@ == b.description.zh@)
    &&& (r.description_en matches Some(e) && e@ == b.description.en@)
    &&& (r.description_ja matches Some(j) && j@ == b.description.ja@)
}

/// How many of the builtin entries of `s` have no row in `pre`.
pub open spec fn count_added(s: Seq<BuiltinRepoConfig>, pre: RepoTable) -> nat
    decreases s.len(),
{
    if s.len() == 0 {
        0
    } else {
        count_added(s.drop_last(), pre) + (if !spec_has_key(
            pre.repos@,
            s.last().owner@,
            s.last().name@,
        ) {
            1nat
        } else {
            0nat
        })
    }
}

/// How many of the builtin entries of `s` have a row in `pre` whose
/// descriptions differ from the manifest's.
pub open spec fn count_updated(s: Seq<BuiltinRepoConfig>, pre: RepoTable) -> nat
    decreases s.len(),
{
    if s.len() == 0 {
        0
    } else {
        count_updated(s.drop_last(), pre) + (if spec_has_key(
            pre.repos@,
            s.last().owner@,
            s.last().name@,
        ) && !spec_descs_match(
            spec_at_key(pre.repos@, s.last().owner@, s.last().name@),
            s.last(),
        ) {
            1nat
        } else {
            0nat
        })
    }
}

/// Registry listing order: by insertion time ascending, ties broken by
/// owner and then name.
pub open spec fn spec_repo_le(a: RepoWithMeta, b: RepoWithMeta) -> bool {
    ||| a.added_at < b.added_at
    ||| (a.added_at == b.added_at && seq_le(a.owner@, b.owner@) && (a.owner@ != b.owner@
        || seq_le(a.name@, b.name@)))
}

/// The listing order is total.
proof fn lemma_repo_le_total(a: RepoWithMeta, b: RepoWithMeta)
    ensures
        spec_repo_le(a, b) || spec_repo_le(b, a),
{
    if a.added_at == b.added_at {
        crate::strutil::lemma_seq_le_total(a.owner@, b.owner@);
        crate::strutil::lemma_seq_le_total(a.name@, b.name@);
    }
}

/// The listing order is transitive.
proof fn lemma_repo_le_trans(a: RepoWithMeta, b: RepoWithMeta, c: RepoWithMeta)
    requires
        spec_repo_le(a, b),
        spec_repo_le(b, c),
    ensures
        spec_repo_le(a, c),
{
    if a.added_at == b.added_at && b.added_at == c.added_at {
        crate::strutil::lemma_seq_le_trans(a.owner@, b.owner@, c.owner@);
        if a.owner@ == c.owner@ {
            crate::strutil::lemma_seq_le_antisym(a.owner@, b.owner@);
            assert(a.owner@ == b.owner@ && b.owner@ == c.owner@);
            crate::strutil::lemma_seq_le_trans(a.name@, b.name@, c.name@);
        }
    }
}

/// Whether `x` points at one of the rows of `rows`.
pub open spec fn spec_row_listed(rows: Seq<RepoWithMeta>, x: &RepoWithMeta) -> bool {
    exists|j: int| 0 <= j < rows.len() && rows[j] == *x
}

/// Whether `listing` points at the row `x`.
pub open spec fn spec_listing_has(listing: Seq<&RepoWithMeta>, x: RepoWithMeta) -> bool {
    exists|k: int| 0 <= k < listing.len() && *(#[trigger] listing[k]) == x
}

/// Compare two rows in listing order.
fn repo_le_exec(a: &RepoWithMeta, b: &RepoWithMeta) -> (r: bool)
    ensures
        r == spec_repo_le(*a, *b),
{
    if a.added_at < b.added_at {
        true
    } else if a.added_at > b.added_at {
        false
    } else if eq_str(a.owner.as_str(), b.owner.as_str()) {
        let r = str_le(a.name.as_str(), b.name.as_str());
        proof {
            crate::strutil::lemma_seq_le_total(a.owner@, a.owner@);
        }
        r
    } else {
        str_le(a.owner.as_str(), b.owner.as_str())
    }
}

/// The source-repository rows of one registry, keyed by `owner/name`.
#[derive(Clone, Debug)]
pub struct RepoTable {
    pub repos: Vec<RepoWithMeta>,
}

impl RepoTable {
    /// Keys are unique.
    pub open spec fn wf(&self) -> bool {
        forall|i: int, j: int|
            0 <= i < j < self.repos.len() ==> !(self.repos[i].owner@ == self.repos[j].owner@
                && self.repos[i].name@ == self.repos[j].name@)
    }

    /// Whether a row with this key exists.
    pub open spec fn spec_has(&self, owner: Seq<char>, name: Seq<char>) -> bool {
        spec_has_key(self.repos@, owner, name)
    }

    /// The row with this key.
    pub open spec fn spec_at(&self, owner: Seq<char>, name: Seq<char>) -> RepoWithMeta {
        spec_at_key(self.repos@, owner, name)
    }

    /// An empty registry.
    pub fn new() -> (r: RepoTable)
        ensures
            r.wf(),
            r.repos@.len() == 0,
            forall|o: Seq<char>, n: Seq<char>| !r.spec_has(o, n),
    {
        RepoTable { repos: Vec::new() }
    }

    /// Index of the row with this key, if any.
    fn index_of(&self, owner: &str, name: &str) -> (r: Option<usize>)
        ensures
            match r {
                Some(i) => i < self.repos.len() && self.repos[i as int].owner@ == owner@
                    && self.repos[i as int].name@ == name@,
                None => !self.spec_has(owner@, name@),
            },
    {
        let n = self.repos.len();
        let mut i: usize = 0;
        while i < n
            invariant
                i <= n,
                n == self.repos.len(),
                forall|j: int|
                    0 <= j < i ==> !(self.repos[j].owner@ == owner@ && self.repos[j].name@
                        == name@),
            decreases n - i,
        {
            if eq_str(self.repos[i].owner.as_str(), owner) && eq_str(
                self.repos[i].name.as_str(),
                name,
            ) {
                return Some(i);
            }
            i += 1;
        }
        None
    }

    /// Read the row with this key.
    pub fn get(&self, owner: &str, name: &str) -> (r: Option<&RepoWithMeta>)
        requires
            self.wf(),
        ensures
            match r {
                Some(rec) => self.spec_has(owner@, name@) && *rec == self.spec_at(
                    owner@,
                    name@,
                ),
                None => !self.spec_has(owner@, name@),
            },
    {
        match self.index_of(owner, name) {
            Some(i) => {
                proof {
                    let k = choose|k: int|
                        0 <= k < self.repos.len() && self.repos[k].owner@ == owner@
                            && self.repos[k].name@ == name@;
                    assert(k == i);
                }
                Some(&self.repos[i])
            },
            None => None,
        }
    }

    /// Insert a row, or replace the row with the same key in place.
    pub fn add(&mut self, repo: RepoWithMeta)
        requires
            old(self).wf(),
        ensures
            final(self).wf(),
            final(self).spec_has(repo.owner@, repo.name@),
            final(self).spec_at(repo.owner@, repo.name@) == repo,
            forall|o: Seq<char>, n: Seq<char>|
                !(o == repo.owner@ && n == repo.name@) ==> final(self).spec_has(o, n) == old(self).spec_has(o, n),
            forall|o: Seq<char>, n: Seq<char>|
                !(o == repo.owner@ && n == repo.name@) && old(self).spec_has(o, n) ==> final(self).spec_at(o, n) == old(self).spec_at(o, n),
            final(self).repos@.len() == old(self).repos@.len() + (if old(self).spec_has(
                repo.owner@,
                repo.name@,
            ) {
                0int
            } else {
                1int
            }),
    {
        let ghost pre = *self;
        match self.index_of(repo.owner.as_str(), repo.name.as_str()) {
            Some(i) => {
                let ghost o = repo.owner@;
                let ghost nm = repo.name@;
                self.repos.remove(i);
                self.repos.insert(i, repo);
                proof {
                    assert(self.repos@ =~= pre.repos@.update(i as int, repo));
                    lemma_repo_update_frame(pre, *self, i as int, o, nm);
                }
            },
            None => {
                self.repos.push(repo);
                proof {
                    lemma_repo_push_frame(pre, *self, repo);
                }
            },
        }
    }

    /// Whether the row with this key is marked builtin; an absent row is
    /// not.
    pub fn is_builtin(&self, owner: &str, name: &str) -> (r: bool)
        requires
            self.wf(),
        ensures
            r == (self.spec_has(owner@, name@) && self.spec_at(owner@, name@).builtin),
    {
        match self.get(owner, name) {
            Some(repo) => repo.builtin,
            None => false,
        }
    }

    /// Delete the row with this key, unless it is builtin: builtin
    /// repositories can be disabled but never deleted.  Reports whether a
    /// row was deleted.
    pub fn remove(&mut self, owner: &str, name: &str) -> (r: Result<bool, AppError>)
        requires
            old(self).wf(),
        ensures
            final(self).wf(),
            r is Err <==> (old(self).spec_has(owner@, name@) && old(self).spec_at(
                owner@,
                name@,
            ).builtin),
            r is Err ==> *final(self) == *old(self),
            r matches Ok(b) ==> b == old(self).spec_has(owner@, name@) && !final(self).spec_has(owner@, name@),
            forall|o: Seq<char>, n: Seq<char>|
                !(o == owner@ && n == name@) ==> final(self).spec_has(o, n) == old(self).spec_has(o, n),
            forall|o: Seq<char>, n: Seq<char>|
                !(o == owner@ && n == name@) && old(self).spec_has(o, n) ==> final(self).spec_at(o, n) == old(self).spec_at(o, n),
    {
        proof {
            reveal_strlit("builtin repositories cannot be deleted");
        }
        let ghost pre = *self;
        match self.index_of(owner, name) {
            Some(i) => {
                proof {
                    let k = choose|k: int|
                        0 <= k < self.repos.len() && self.repos[k].owner@ == owner@
                            && self.repos[k].name@ == name@;
                    assert(k == i);
                }
                if self.repos[i].builtin {
                    return Err(
                        AppError::Config(
                            String::from_str("builtin repositories cannot be deleted"),
                        ),
                    );
                }
                self.repos.remove(i);
                proof {
                    lemma_repo_remove_frame(pre, *self, i as int, owner@, name@);
                    assert forall|k: int|
                        0 <= k < self.repos.len() implies !(self.repos[k].owner@ == owner@
                        && self.repos[k].name@ == name@) by {
                        if k < i {
                            assert(self.repos[k] == pre.repos[k]);
                        } else {
                            assert(self.repos[k] == pre.repos[k + 1]);
                        }
                    }
                }
                Ok(true)
            },
            None => Ok(false),
        }
    }

    /// The rows of the registry, sorted by insertion time ascending,
    /// ties broken by owner and then name.
    pub fn sorted(&self) -> (r: Vec<&RepoWithMeta>)
        ensures
            r@.len() == self.repos@.len(),
            forall|k: int| 0 <= k < r@.len() ==> spec_row_listed(self.repos@, #[trigger] r@[k]),
            forall|j: int|
                0 <= j < self.repos@.len() ==> spec_listing_has(
                    r@,
                    #[trigger] self.repos@[j],
                ),
            forall|a: int, b: int|
                0 <= a < b < r@.len() ==> spec_repo_le(*(#[trigger] r@[a]), *(#[trigger] r@[b])),
    {
        let n = self.repos.len();
        let mut out: Vec<&RepoWithMeta> = Vec::new();
        let mut i: usize = 0;
        while i < n
            invariant
                i <= n,
                n == self.repos@.len(),
                out@.len() == i,
                forall|k: int|
                    0 <= k < out@.len() ==> spec_row_listed(self.repos@, #[trigger] out@[k]),
                forall|j: int|
                    0 <= j < i ==> spec_listing_has(out@, #[trigger] self.repos@[j]),
                forall|a: int, b: int|
                    0 <= a < b < out@.len() ==> spec_repo_le(
                        *(#[trigger] out@[a]),
                        *(#[trigger] out@[b]),
                    ),
            decreases n - i,
        {
            let e = &self.repos[i];
            let mut p: usize = 0;
            let m = out.len();
            let mut stop = false;
            while p < m && !stop
                invariant
                    p <= m,
                    m == out@.len(),
                    i < n,
                    n == self.repos@.len(),
                    *e == self.repos@[i as int],
                    stop ==> p < m && !spec_repo_le(*out@[p as int], self.repos@[i as int]),
                    forall|k: int|
                        0 <= k < p ==> spec_repo_le(
                            *(#[trigger] out@[k]),
                            self.repos@[i as int],
                        ),
                decreases m - p, (if stop { 0int } else { 1int }),
            {
                if repo_le_exec(out[p], e) {
                    p += 1;
                } else {
                    stop = true;
                }
            }
            let ghost prev = out@;
            out.insert(p, e);
            proof {
                assert(out@ =~= prev.subrange(0, p as int).push(e) + prev.subrange(
                    p as int,
                    prev.len() as int,
                ));
                assert forall|a: int, b: int|
                    0 <= a < b < out@.len() implies spec_repo_le(
                    *(#[trigger] out@[a]),
                    *(#[trigger] out@[b]),
                ) by {
                    let a2 = if a < p { a } else { a - 1 };
                    let b2 = if b < p { b } else { b - 1 };
                    if a == p {
                        assert(out@[b] == prev[b2]);
                        assert(b2 >= p);
                        lemma_repo_le_total(self.repos@[i as int], *prev[p as int]);
                        if b2 > p {
                            lemma_repo_le_trans(
                                self.repos@[i as int],
                                *prev[p as int],
                                *prev[b2],
                            );
                        }
                    } else if b == p {
                        assert(out@[a] == prev[a2]);
                    } else {
                        assert(out@[a] == prev[a2]);
                        assert(out@[b] == prev[b2]);
                    }
                }
                assert forall|j: int|
                    0 <= j < i + 1 implies spec_listing_has(
                    out@,
                    #[trigger] self.repos@[j],
                ) by {
                    if j < i {
                        let k = choose|k: int|
                            0 <= k < prev.len() && *(#[trigger] prev[k]) == self.repos@[j];
                        let k2 = if k < p { k } else { k + 1 };
                        assert(out@[k2] == prev[k]);
                    } else {
                        assert(*out@[p as int] == self.repos@[j]);
                    }
                }
                assert forall|k: int|
                    0 <= k < out@.len() implies spec_row_listed(
                    self.repos@,
                    #[trigger] out@[k],
                ) by {
                    let k2 = if k < p { k } else { k - 1 };
                    if k == p {
                        assert(*out@[k] == self.repos@[i as int]);
                    } else {
                        assert(out@[k] == prev[k2]);
                        assert(spec_row_listed(self.repos@, prev[k2]));
                    }
                }
            }
            i += 1;
        }
        out
    }

    /// Set the enablement of the row with this key; reports whether it
    /// stood.
    pub fn update_enabled(&mut self, owner: &str, name: &str, enabled: bool) -> (r: bool)
        requires
            old(self).wf(),
        ensures
            final(self).wf(),
            r == old(self).spec_has(owner@, name@),
            old(self).spec_has(owner@, name@) ==> final(self).spec_at(owner@, name@)
                == (RepoWithMeta { enabled, ..old(self).spec_at(owner@, name@) }),
            forall|o: Seq<char>, n: Seq<char>|
                final(self).spec_has(o, n) == old(self).spec_has(o, n),
            forall|o: Seq<char>, n: Seq<char>|
                !(o == owner@ && n == name@) && old(self).spec_has(o, n) ==> final(self).spec_at(o, n) == old(self).spec_at(o, n),
    {
        let ghost pre = *self;
        match self.index_of(owner, name) {
            Some(i) => {
                let mut rec = self.repos.remove(i);
                rec.enabled = enabled;
                self.repos.insert(i, rec);
                proof {
                    let k = choose|k: int|
                        0 <= k < pre.repos.len() && pre.repos[k].owner@ == owner@
                            && pre.repos[k].name@ == name@;
                    assert(k == i);
                    assert(self.repos@ =~= pre.repos@.update(i as int, rec));
                    lemma_repo_update_frame(pre, *self, i as int, owner@, name@);
                }
                true
            },
            None => false,
        }
    }
}

/// After replacing position `i`, whose key is kept, every other key keeps
/// its presence and its row.
proof fn lemma_repo_update_frame(
    pre: RepoTable,
    post: RepoTable,
    i: int,
    owner: Seq<char>,
    name: Seq<char>,
)
    requires
        pre.wf(),
        0 <= i < pre.repos.len(),
        pre.repos[i].owner@ == owner,
        pre.repos[i].name@ == name,
        post.repos[i].owner@ == owner,
        post.repos[i].name@ == name,
        post.repos@ == pre.repos@.update(i, post.repos@[i]),
    ensures
        post.wf(),
        post.spec_has(owner, name),
        post.spec_at(owner, name) == post.repos@[i],
        forall|o: Seq<char>, n: Seq<char>|
            !(o == owner && n == name) ==> post.spec_has(o, n) == pre.spec_has(o, n),
        forall|o: Seq<char>, n: Seq<char>|
            !(o == owner && n == name) && pre.spec_has(o, n) ==> post.spec_at(o, n)
                == pre.spec_at(o, n),
{
    assert forall|a: int, b: int|
        0 <= a < b < post.repos.len() implies !(post.repos[a].owner@ == post.repos[b].owner@
        && post.repos[a].name@ == post.repos[b].name@) by {
        assert(a != i ==> post.repos[a] == pre.repos[a]);
        assert(b != i ==> post.repos[b] == pre.repos[b]);
    }
    let k = choose|k: int|
        0 <= k < post.repos.len() && post.repos[k].owner@ == owner && post.repos[k].name@ == name;
    assert(k == i);
    assert forall|o: Seq<char>, n: Seq<char>|
        !(o == owner && n == name) implies post.spec_has(o, n) == pre.spec_has(o, n) by {
        if pre.spec_has(o, n) {
            let a = choose|a: int|
                0 <= a < pre.repos.len() && pre.repos[a].owner@ == o && pre.repos[a].name@ == n;
            assert(post.repos[a].owner@ == o && post.repos[a].name@ == n);
        } else if post.spec_has(o, n) {
            let a = choose|a: int|
                0 <= a < post.repos.len() && post.repos[a].owner@ == o && post.repos[a].name@
                    == n;
            assert(pre.repos[a].owner@ == o && pre.repos[a].name@ == n);
        }
    }
    assert forall|o: Seq<char>, n: Seq<char>|
        !(o == owner && n == name) && pre.spec_has(o, n) implies post.spec_at(o, n) == pre.spec_at(
        o,
        n,
    ) by {
        let a = choose|a: int|
            0 <= a < pre.repos.len() && pre.repos[a].owner@ == o && pre.repos[a].name@ == n;
        assert(post.repos[a].owner@ == o && post.repos[a].name@ == n);
        let b = choose|b: int|
            0 <= b < post.repos.len() && post.repos[b].owner@ == o && post.repos[b].name@ == n;
        assert(b == a);
    }
}

/// After pushing a row whose key was absent, every other key keeps its
/// presence and its row.
proof fn lemma_repo_push_frame(pre: RepoTable, post: RepoTable, repo: RepoWithMeta)
    requires
        pre.wf(),
        !pre.spec_has(repo.owner@, repo.name@),
        post.repos@ == pre.repos@.push(repo),
    ensures
        post.wf(),
        post.spec_has(repo.owner@, repo.name@),
        post.spec_at(repo.owner@, repo.name@) == repo,
        forall|o: Seq<char>, n: Seq<char>|
            !(o == repo.owner@ && n == repo.name@) ==> post.spec_has(o, n) == pre.spec_has(o, n),
        forall|o: Seq<char>, n: Seq<char>|
            !(o == repo.owner@ && n == repo.name@) && pre.spec_has(o, n) ==> post.spec_at(o, n)
                == pre.spec_at(o, n),
{
    let ln = pre.repos.len() as int;
    assert forall|a: int, b: int|
        0 <= a < b < post.repos.len() implies !(post.repos[a].owner@ == post.repos[b].owner@
        && post.repos[a].name@ == post.repos[b].name@) by {
        if b < ln {
            assert(post.repos[a] == pre.repos[a]);
            assert(post.repos[b] == pre.repos[b]);
        } else {
            assert(post.repos[a] == pre.repos[a]);
        }
    }
    assert(post.repos@[ln] == repo);
    let k = choose|k: int|
        0 <= k < post.repos.len() && post.repos[k].owner@ == repo.owner@ && post.repos[k].name@
            == repo.name@;
    assert(k == ln) by {
        if k < ln {
            assert(post.repos@[k] == pre.repos@[k]);
            assert(pre.spec_has(repo.owner@, repo.name@));
        }
    }
    assert forall|o: Seq<char>, n: Seq<char>|
        !(o == repo.owner@ && n == repo.name@) implies post.spec_has(o, n) == pre.spec_has(
        o,
        n,
    ) by {
        if pre.spec_has(o, n) {
            let a = choose|a: int|
                0 <= a < pre.repos.len() && pre.repos[a].owner@ == o && pre.repos[a].name@ == n;
            assert(post.repos[a].owner@ == o && post.repos[a].name@ == n);
        } else if post.spec_has(o, n) {
            let a = choose|a: int|
                0 <= a < post.repos.len() && post.repos[a].owner@ == o && post.repos[a].name@
                    == n;
            assert(a < ln);
            assert(pre.repos[a].owner@ == o && pre.repos[a].name@ == n);
        }
    }
    assert forall|o: Seq<char>, n: Seq<char>|
        !(o == repo.owner@ && n == repo.name@) && pre.spec_has(o, n) implies post.spec_at(o, n)
        == pre.spec_at(o, n) by {
        let a = choose|a: int|
            0 <= a < pre.repos.len() && pre.repos[a].owner@ == o && pre.repos[a].name@ == n;
        assert(post.repos[a].owner@ == o && post.repos[a].name@ == n);
        let b = choose|b: int|
            0 <= b < post.repos.len() && post.repos[b].owner@ == o && post.repos[b].name@ == n;
        assert(b == a);
    }
}

/// After removing position `i`, which held the key, every other key keeps
/// its presence and its row.
proof fn lemma_repo_remove_frame(
    pre: RepoTable,
    post: RepoTable,
    i: int,
    owner: Seq<char>,
    name: Seq<char>,
)
    requires
        pre.wf(),
        0 <= i < pre.repos.len(),
        pre.repos[i].owner@ == owner,
        pre.repos[i].name@ == name,
        post.repos@ == pre.repos@.remove(i),
    ensures
        post.wf(),
        forall|o: Seq<char>, n: Seq<char>|
            !(o == owner && n == name) ==> post.spec_has(o, n) == pre.spec_has(o, n),
        forall|o: Seq<char>, n: Seq<char>|
            !(o == owner && n == name) && pre.spec_has(o, n) ==> post.spec_at(o, n)
                == pre.spec_at(o, n),
{
    assert forall|a: int, b: int|
        0 <= a < b < post.repos.len() implies !(post.repos[a].owner@ == post.repos[b].owner@
        && post.repos[a].name@ == post.repos[b].name@) by {
        let a2 = if a < i { a } else { a + 1 };
        let b2 = if b < i { b } else { b + 1 };
        assert(post.repos[a] == pre.repos[a2]);
        assert(post.repos[b] == pre.repos[b2]);
    }
    assert forall|o: Seq<char>, n: Seq<char>|
        !(o == owner && n == name) implies post.spec_has(o, n) == pre.spec_has(o, n) by {
        if pre.spec_has(o, n) {
            let k = choose|k: int|
                0 <= k < pre.repos.len() && pre.repos[k].owner@ == o && pre.repos[k].name@ == n;
            if k < i {
                assert(post.repos[k] == pre.repos[k]);
            } else {
                assert(post.repos[k - 1] == pre.repos[k]);
            }
        } else if post.spec_has(o, n) {
            let k = choose|k: int|
                0 <= k < post.repos.len() && post.repos[k].owner@ == o && post.repos[k].name@
                    == n;
            let k2 = if k < i { k } else { k + 1 };
            assert(pre.repos[k2] == post.repos[k]);
        }
    }
    assert forall|o: Seq<char>, n: Seq<char>|
        !(o == owner && n == name) && pre.spec_has(o, n) implies post.spec_at(o, n) == pre.spec_at(
        o,
        n,
    ) by {
        let k = choose|k: int|
            0 <= k < pre.repos.len() && pre.repos[k].owner@ == o && pre.repos[k].name@ == n;
        let kp = if k < i { k } else { k - 1 };
        assert(post.repos[kp] == pre.repos[k]);
        let k2 = choose|k2: int|
            0 <= k2 < post.repos.len() && post.repos[k2].owner@ == o && post.repos[k2].name@
                == n;
        let k3 = if k2 < i { k2 } else { k2 + 1 };
        assert(pre.repos[k3] == post.repos[k2]);
        assert(k3 == k);
    }
}

} // verus!

verus! {

impl RepoTable {
    /// Reconcile the registry with the bundled builtin manifest: missing
    /// builtin repositories are added enabled, existing ones get their
    /// builtin marking and descriptions refreshed while the user's
    /// enablement, branch and insertion time are kept, and rows the
    /// manifest does not name are untouched.  Returns how many rows were
    /// added and how many had their descriptions changed.
    pub fn sync_builtin(&mut self, builtin: &Vec<BuiltinRepoConfig>) -> (r: (usize, usize))
        requires
            old(self).wf(),
            forall|a: int, b: int|
                0 <= a < b < builtin@.len() ==> !(builtin@[a].owner@ == builtin@[b].owner@
                    && builtin@[a].name@ == builtin@[b].name@),
        ensures
            final(self).wf(),
            forall|k: int|
                #![trigger builtin@[k]]
                0 <= k < builtin@.len() ==> {
                    let b = builtin@[k];
                    &&& final(self).spec_has(b.owner@, b.name@)
                    &&& final(self).spec_at(b.owner@, b.name@).builtin
                    &&& spec_descs_match(final(self).spec_at(b.owner@, b.name@), b)
                    &&& final(self).spec_at(b.owner@, b.name@).enabled == (if old(self).spec_has(b.owner@, b.name@) {
                        old(self).spec_at(b.owner@, b.name@).enabled
                    } else {
                        true
                    })
                    &&& final(self).spec_at(b.owner@, b.name@).branch@ == (if old(self).spec_has(b.owner@, b.name@) {
                        old(self).spec_at(b.owner@, b.name@).branch@
                    } else {
                        b.branch@
                    })
                },
            forall|o: Seq<char>, n: Seq<char>|
                !spec_key_in_builtin(builtin@, o, n) ==> final(self).spec_has(o, n) == old(self).spec_has(o, n),
            forall|o: Seq<char>, n: Seq<char>|
                !spec_key_in_builtin(builtin@, o, n) && old(self).spec_has(o, n) ==> final(self).spec_at(o, n) == old(self).spec_at(o, n),
            r.0 == count_added(builtin@, *old(self)),
            r.1 == count_updated(builtin@, *old(self)),
    {
        let n = builtin.len();
        let mut added: usize = 0;
        let mut updated: usize = 0;
        let mut i: usize = 0;
        while i < n
            invariant
                i <= n,
                n == builtin@.len(),
                added <= i,
                updated <= i,
                old(self).wf(),
                self.wf(),
                forall|a: int, b: int|
                    0 <= a < b < builtin@.len() ==> !(builtin@[a].owner@ == builtin@[b].owner@
                        && builtin@[a].name@ == builtin@[b].name@),
                forall|k: int|
                    #![trigger builtin@[k]]
                    0 <= k < i ==> {
                        let b = builtin@[k];
                        &&& self.spec_has(b.owner@, b.name@)
                        &&& self.spec_at(b.owner@, b.name@).builtin
                        &&& spec_descs_match(self.spec_at(b.owner@, b.name@), b)
                        &&& self.spec_at(b.owner@, b.name@).enabled == (if old(self).spec_has(
                            b.owner@,
                            b.name@,
                        ) {
                            old(self).spec_at(b.owner@, b.name@).enabled
                        } else {
                            true
                        })
                        &&& self.spec_at(b.owner@, b.name@).branch@ == (if old(self).spec_has(
                            b.owner@,
                            b.name@,
                        ) {
                            old(self).spec_at(b.owner@, b.name@).branch@
                        } else {
                            b.branch@
                        })
                    },
                forall|o: Seq<char>, n2: Seq<char>|
                    !spec_key_in_builtin(builtin@.subrange(0, i as int), o, n2) ==> self.spec_has(
                        o,
                        n2,
                    ) == old(self).spec_has(o, n2),
                forall|o: Seq<char>, n2: Seq<char>|
                    !spec_key_in_builtin(builtin@.subrange(0, i as int), o, n2) && old(self).spec_has(o, n2) ==> self.spec_at(o, n2) == old(self).spec_at(o, n2),
                added == count_added(builtin@.subrange(0, i as int), *old(self)),
                updated == count_updated(builtin@.subrange(0, i as int), *old(self)),
            decreases n - i,
        {
            let b = &builtin[i];
            let ghost bo = b.owner@;
            let ghost bn = b.name@;
            proof {
                assert(builtin@.subrange(0, i + 1).drop_last() =~= builtin@.subrange(
                    0,
                    i as int,
                ));
                assert forall|o: Seq<char>, n2: Seq<char>|
                    !spec_key_in_builtin(builtin@.subrange(0, i + 1), o, n2) implies
                    !spec_key_in_builtin(builtin@.subrange(0, i as int), o, n2) && !(o == bo
                    && n2 == bn) by {
                    assert(builtin@.subrange(0, i + 1)[i as int] == builtin@[i as int]);
                    if spec_key_in_builtin(builtin@.subrange(0, i as int), o, n2) {
                        let k = choose|k: int|
                            0 <= k < i && builtin@.subrange(0, i as int)[k].owner@ == o
                                && builtin@.subrange(0, i as int)[k].name@ == n2;
                        assert(builtin@.subrange(0, i + 1)[k].owner@ == o);
                    }
                }
                // an earlier builtin key is never this one: the manifest keys are unique
                assert forall|k: int| 0 <= k < i implies !(builtin@[k].owner@ == bo
                    && builtin@[k].name@ == bn) by {}
            }
            let ghost pre_step = *self;
            match self.index_of(b.owner.as_str(), b.name.as_str()) {
                Some(idx) => {
                    proof {
                        let k = choose|k: int|
                            0 <= k < pre_step.repos.len() && pre_step.repos[k].owner@ == bo
                                && pre_step.repos[k].name@ == bn;
                        assert(k == idx);
                    }
                    let descs_same = (match &self.repos[idx].description_zh {
                        Some(z) => eq_str(z.as_str(), b.description.zh.as_str()),
                        None => false,
                    }) && (match &self.repos[idx].description_en {
                        Some(e) => eq_str(e.as_str(), b.description.en.as_str()),
                        None => false,
                    }) && (match &self.repos[idx].description_ja {
                        Some(j) => eq_str(j.as_str(), b.description.ja.as_str()),
                        None => false,
                    });
                    let mut rec = self.repos.remove(idx);
                    rec.builtin = true;
                    rec.description_zh = Some(b.description.zh.clone());
                    rec.description_en = Some(b.description.en.clone());
                    rec.description_ja = Some(b.description.ja.clone());
                    self.repos.insert(idx, rec);
                    proof {
                        assert(self.repos@ =~= pre_step.repos@.update(idx as int, rec));
                        lemma_repo_update_frame(pre_step, *self, idx as int, bo, bn);
                        assert(self.spec_at(bo, bn) == rec);
                        assert(spec_descs_match(rec, builtin@[i as int]));
                        assert(descs_same == spec_descs_match(
                            pre_step.spec_at(bo, bn),
                            builtin@[i as int],
                        ));
                        assert(pre_step.spec_has(bo, bn) == old(self).spec_has(bo, bn));
                        assert(pre_step.spec_at(bo, bn) == old(self).spec_at(bo, bn));
                    }
                    if !descs_same {
                        updated += 1;
                        if updated > i {
                            updated = i + 1;
                        }
                    }
                },
                None => {
                    proof {
                        assert(pre_step.spec_has(bo, bn) == old(self).spec_has(bo, bn));
                    }
                    let row = RepoWithMeta {
                        owner: b.owner.clone(),
                        name: b.name.clone(),
                        branch: b.branch.clone(),
                        enabled: true,
                        builtin: true,
                        description_zh: Some(b.description.zh.clone()),
                        description_en: Some(b.description.en.clone()),
                        description_ja: Some(b.description.ja.clone()),
                        added_at: 0,
                    };
                    self.add(row);
                    added += 1;
                    if added > i {
                        added = i + 1;
                    }
                },
            }
            proof {
                assert forall|o: Seq<char>, n2: Seq<char>|
                    !spec_key_in_builtin(builtin@.subrange(0, i + 1), o, n2) && old(self).spec_has(o, n2) implies self.spec_at(o, n2) == old(self).spec_at(
                    o,
                    n2,
                ) by {
                    assert(builtin@.subrange(0, i + 1)[i as int] == builtin@[i as int]);
                    assert(!(o == bo && n2 == bn));
                    assert(!spec_key_in_builtin(builtin@.subrange(0, i as int), o, n2)) by {
                        if spec_key_in_builtin(builtin@.subrange(0, i as int), o, n2) {
                            let k = choose|k: int|
                                0 <= k < i && builtin@.subrange(0, i as int)[k].owner@ == o
                                    && builtin@.subrange(0, i as int)[k].name@ == n2;
                            assert(builtin@.subrange(0, i + 1)[k].owner@ == o);
                        }
                    }
                    assert(pre_step.spec_at(o, n2) == old(self).spec_at(o, n2));
                }
                assert forall|o: Seq<char>, n2: Seq<char>|
                    !spec_key_in_builtin(builtin@.subrange(0, i + 1), o, n2) implies
                    self.spec_has(o, n2) == old(self).spec_has(o, n2) by {
                    assert(builtin@.subrange(0, i + 1)[i as int] == builtin@[i as int]);
                    assert(!(o == bo && n2 == bn));
                    assert(!spec_key_in_builtin(builtin@.subrange(0, i as int), o, n2)) by {
                        if spec_key_in_builtin(builtin@.subrange(0, i as int), o, n2) {
                            let k = choose|k: int|
                                0 <= k < i && builtin@.subrange(0, i as int)[k].owner@ == o
                                    && builtin@.subrange(0, i as int)[k].name@ == n2;
                            assert(builtin@.subrange(0, i + 1)[k].owner@ == o);
                        }
                    }
                    assert(pre_step.spec_has(o, n2) == old(self).spec_has(o, n2));
                }
            }
            i += 1;
        }
        proof {
            assert(builtin@.subrange(0, n as int) =~= builtin@);
        }
        (added, updated)
    }
}

/// Whether `owner/name` is named by one of the builtin entries of `s`.
pub open spec fn spec_key_in_builtin(
    s: Seq<BuiltinRepoConfig>,
    owner: Seq<char>,
    name: Seq<char>,
) -> bool {
    exists|k: int| 0 <= k < s.len() && s[k].owner@ == owner && s[k].name@ == name
}

} // verus!

verus! {

/// Whether `owner/name@branch` keys one of the cache entries of `s`.
pub open spec fn spec_has_cache(
    s: Seq<DiscoveryCacheEntry>,
    owner: Seq<char>,
    name: Seq<char>,
    branch: Seq<char>,
) -> bool {
    exists|i: int|
        0 <= i < s.len() && s[i].repo_owner@ == owner && s[i].repo_name@ == name
            && s[i].repo_branch@ == branch
}

/// The cache entry of `s` keyed `owner/name@branch`.
pub open spec fn spec_cache_at(
    s: Seq<DiscoveryCacheEntry>,
    owner: Seq<char>,
    name: Seq<char>,
    branch: Seq<char>,
) -> DiscoveryCacheEntry {
    let i = choose|i: int|
        0 <= i < s.len() && s[i].repo_owner@ == owner && s[i].repo_name@ == name
            && s[i].repo_branch@ == branch;
    s[i]
}

/// A cache entry scanned at `at` is stale at `now` once a full expiry
/// window has passed.
pub open spec fn spec_expired(at: int, now: int) -> bool {
    now - at > CACHE_EXPIRY_SECONDS
}

/// The discovery cache of one resource kind, keyed by repository
/// coordinates.
#[derive(Clone, Debug)]
pub struct CacheTable {
    pub entries: Vec<DiscoveryCacheEntry>,
}

impl CacheTable {
    /// Keys are unique.
    pub open spec fn wf(&self) -> bool {
        forall|i: int, j: int|
            0 <= i < j < self.entries.len() ==> !(self.entries[i].repo_owner@
                == self.entries[j].repo_owner@ && self.entries[i].repo_name@
                == self.entries[j].repo_name@ && self.entries[i].repo_branch@
                == self.entries[j].repo_branch@)
    }

    /// Whether an entry with this key exists.
    pub open spec fn spec_has(&self, o: Seq<char>, n: Seq<char>, b: Seq<char>) -> bool {
        spec_has_cache(self.entries@, o, n, b)
    }

    /// The entry with this key.
    pub open spec fn spec_at(
        &self,
        o: Seq<char>,
        n: Seq<char>,
        b: Seq<char>,
    ) -> DiscoveryCacheEntry {
        spec_cache_at(self.entries@, o, n, b)
    }

    /// An empty cache.
    pub fn new() -> (r: CacheTable)
        ensures
            r.wf(),
            r.entries@.len() == 0,
            forall|o: Seq<char>, n: Seq<char>, b: Seq<char>| !r.spec_has(o, n, b),
    {
        CacheTable { entries: Vec::new() }
    }

    fn index_of(&self, owner: &str, name: &str, branch: &str) -> (r: Option<usize>)
        ensures
            match r {
                Some(i) => i < self.entries.len() && self.entries[i as int].repo_owner@
                    == owner@ && self.entries[i as int].repo_name@ == name@ && self.entries[
                    i as int
                ].repo_branch@ == branch@,
                None => !self.spec_has(owner@, name@, branch@),
            },
    {
        let n = self.entries.len();
        let mut i: usize = 0;
        while i < n
            invariant
                i <= n,
                n == self.entries.len(),
                forall|j: int|
                    0 <= j < i ==> !(self.entries[j].repo_owner@ == owner@
                        && self.entries[j].repo_name@ == name@ && self.entries[j].repo_branch@
                        == branch@),
            decreases n - i,
        {
            if eq_str(self.entries[i].repo_owner.as_str(), owner) && eq_str(
                self.entries[i].repo_name.as_str(),
                name,
            ) && eq_str(self.entries[i].repo_branch.as_str(), branch) {
                return Some(i);
            }
            i += 1;
        }
        None
    }

    /// Read the cache entry for a repository branch, unless it has gone
    /// stale: a stale entry is reported as absent.
    pub fn get_cached(&self, owner: &str, name: &str, branch: &str, now: i64) -> (r: Option<
        &DiscoveryCacheEntry,
    >)
        requires
            self.wf(),
        ensures
            match r {
                Some(e) => self.spec_has(owner@, name@, branch@) && *e == self.spec_at(
                    owner@,
                    name@,
                    branch@,
                ) && !spec_expired(e.scanned_at as int, now as int),
                None => !self.spec_has(owner@, name@, branch@) || spec_expired(
                    self.spec_at(owner@, name@, branch@).scanned_at as int,
                    now as int,
                ),
            },
    {
        match self.index_of(owner, name, branch) {
            Some(i) => {
                proof {
                    let k = choose|k: int|
                        0 <= k < self.entries.len() && self.entries[k].repo_owner@ == owner@
                            && self.entries[k].repo_name@ == name@
                            && self.entries[k].repo_branch@ == branch@;
                    assert(k == i);
                }
                let e = &self.entries[i];
                if (now as i128) - (e.scanned_at as i128) > 86400 {
                    None
                } else {
                    Some(e)
                }
            },
            None => None,
        }
    }

    /// Store the resources scanned from a repository branch at time
    /// `now`, replacing any entry already there.
    pub fn save_cached(&mut self, entry: DiscoveryCacheEntry)
        requires
            old(self).wf(),
        ensures
            final(self).wf(),
            final(self).spec_has(entry.repo_owner@, entry.repo_name@, entry.repo_branch@),
            final(self).spec_at(entry.repo_owner@, entry.repo_name@, entry.repo_branch@)
                == entry,
            forall|o: Seq<char>, n: Seq<char>, b: Seq<char>|
                !(o == entry.repo_owner@ && n == entry.repo_name@ && b == entry.repo_branch@)
                    ==> final(self).spec_has(o, n, b) == old(self).spec_has(o, n, b),
            forall|o: Seq<char>, n: Seq<char>, b: Seq<char>|
                !(o == entry.repo_owner@ && n == entry.repo_name@ && b == entry.repo_branch@)
                    && old(self).spec_has(o, n, b) ==> final(self).spec_at(o, n, b) == old(self).spec_at(o, n, b),
    {
        let ghost pre = *self;
        match self.index_of(
            entry.repo_owner.as_str(),
            entry.repo_name.as_str(),
            entry.repo_branch.as_str(),
        ) {
            Some(i) => {
                self.entries.remove(i);
                self.entries.insert(i, entry);
                proof {
                    assert(self.entries@ =~= pre.entries@.update(i as int, entry));
                    lemma_cache_update_frame(
                        pre,
                        *self,
                        i as int,
                        entry.repo_owner@,
                        entry.repo_name@,
                        entry.repo_branch@,
                    );
                }
            },
            None => {
                self.entries.push(entry);
                proof {
                    lemma_cache_push_frame(pre, *self, entry);
                }
            },
        }
    }

    /// Drop the entry of one repository branch; reports whether one
    /// stood.
    pub fn delete_cached(&mut self, owner: &str, name: &str, branch: &str) -> (r: bool)
        requires
            old(self).wf(),
        ensures
            final(self).wf(),
            r == old(self).spec_has(owner@, name@, branch@),
            !final(self).spec_has(owner@, name@, branch@),
            forall|o: Seq<char>, n: Seq<char>, b: Seq<char>|
                !(o == owner@ && n == name@ && b == branch@) ==> final(self).spec_has(o, n, b)
                    == old(self).spec_has(o, n, b),
            forall|o: Seq<char>, n: Seq<char>, b: Seq<char>|
                !(o == owner@ && n == name@ && b == branch@) && old(self).spec_has(o, n, b)
                    ==> final(self).spec_at(o, n, b) == old(self).spec_at(o, n, b),
    {
        let ghost pre = *self;
        match self.index_of(owner, name, branch) {
            Some(i) => {
                self.entries.remove(i);
                proof {
                    lemma_cache_remove_frame(pre, *self, i as int, owner@, name@, branch@);
                    assert forall|k: int|
                        0 <= k < self.entries.len() implies !(self.entries[k].repo_owner@
                        == owner@ && self.entries[k].repo_name@ == name@
                        && self.entries[k].repo_branch@ == branch@) by {
                        if k < i {
                            assert(self.entries[k] == pre.entries[k]);
                        } else {
                            assert(self.entries[k] == pre.entries[k + 1]);
                        }
                    }
                }
                true
            },
            None => false,
        }
    }

    /// Drop the entries of every branch of one repository; reports how
    /// many were dropped.
    pub fn delete_repo(&mut self, owner: &str, name: &str) -> (r: usize)
        requires
            old(self).wf(),
        ensures
            final(self).wf(),
            forall|k: int|
                0 <= k < final(self).entries.len() ==> !((#[trigger] final(self).entries[k]).repo_owner@ == owner@ && final(self).entries[k].repo_name@
                    == name@),
            forall|k: int|
                0 <= k < old(self).entries.len() && !((#[trigger] old(self).entries[k]).repo_owner@
                    == owner@ && old(self).entries[k].repo_name@ == name@) ==> final(self).spec_has(
                    old(self).entries[k].repo_owner@,
                    old(self).entries[k].repo_name@,
                    old(self).entries[k].repo_branch@,
                ),
            forall|k: int|
                0 <= k < final(self).entries.len() ==> old(self).spec_has(
                    (#[trigger] final(self).entries[k]).repo_owner@,
                    final(self).entries[k].repo_name@,
                    final(self).entries[k].repo_branch@,
                ),
            r == old(self).entries.len() - final(self).entries.len(),
    {
        let n = self.entries.len();
        let ghost pre = *self;
        let mut kept: Vec<DiscoveryCacheEntry> = Vec::new();
        let mut i: usize = 0;
        while i < n
            invariant
                i <= n,
                pre == *old(self),
                pre.wf(),
                n == pre.entries.len(),
                self.entries@ =~= pre.entries@.subrange(i as int, n as int),
                kept@.len() <= i,
                forall|a: int, b: int|
                    0 <= a < b < kept@.len() ==> !(kept@[a].repo_owner@ == kept@[b].repo_owner@
                        && kept@[a].repo_name@ == kept@[b].repo_name@ && kept@[a].repo_branch@
                        == kept@[b].repo_branch@),
                forall|k: int|
                    0 <= k < kept@.len() ==> !((#[trigger] kept@[k]).repo_owner@ == owner@
                        && kept@[k].repo_name@ == name@),
                forall|k: int|
                    0 <= k < kept@.len() ==> (exists|j: int|
                        0 <= j < i && pre.entries[j] == #[trigger] kept@[k]),
                forall|j: int|
                    0 <= j < i && !((#[trigger] pre.entries[j]).repo_owner@ == owner@
                        && pre.entries[j].repo_name@ == name@) ==> spec_has_cache(
                        kept@,
                        pre.entries[j].repo_owner@,
                        pre.entries[j].repo_name@,
                        pre.entries[j].repo_branch@,
                    ),
            decreases n - i,
        {
            let e = self.entries.remove(0);
            proof {
                assert(e == pre.entries[i as int]);
                assert(self.entries@ =~= pre.entries@.subrange(i + 1, n as int));
            }
            let keep = !(eq_str(e.repo_owner.as_str(), owner) && eq_str(
                e.repo_name.as_str(),
                name,
            ));
            let ghost prev = kept@;
            if keep {
                kept.push(e);
                proof {
                    assert(kept@[kept@.len() - 1] == pre.entries[i as int]);
                    assert forall|a: int, b: int|
                        0 <= a < b < kept@.len() implies !(kept@[a].repo_owner@
                        == kept@[b].repo_owner@ && kept@[a].repo_name@ == kept@[b].repo_name@
                        && kept@[a].repo_branch@ == kept@[b].repo_branch@) by {
                        assert(kept@[a] == prev[a]);
                        if b == kept@.len() - 1 {
                            let ja = choose|ja: int|
                                0 <= ja < i && pre.entries[ja] == prev[a];
                            assert(pre.entries[ja] == kept@[a]);
                        } else {
                            assert(kept@[b] == prev[b]);
                        }
                    }
                }
            }
            proof {
                assert forall|j: int|
                    0 <= j < i + 1 && !((#[trigger] pre.entries[j]).repo_owner@ == owner@
                        && pre.entries[j].repo_name@ == name@) implies spec_has_cache(
                    kept@,
                    pre.entries[j].repo_owner@,
                    pre.entries[j].repo_name@,
                    pre.entries[j].repo_branch@,
                ) by {
                    if j < i {
                        let k = choose|k: int|
                            0 <= k < prev.len() && prev[k].repo_owner@
                                == pre.entries[j].repo_owner@ && prev[k].repo_name@
                                == pre.entries[j].repo_name@ && prev[k].repo_branch@
                                == pre.entries[j].repo_branch@;
                        assert(kept@[k] == prev[k]);
                    } else {
                        assert(kept@[kept@.len() - 1] == pre.entries[j]);
                    }
                }
            }
            i += 1;
        }
        let removed = n - kept.len();
        self.entries = kept;
        removed
    }

    /// Drop every entry; reports how many were dropped.
    pub fn clear(&mut self) -> (r: usize)
        ensures
            final(self).wf(),
            final(self).entries@.len() == 0,
            forall|o: Seq<char>, n: Seq<char>, b: Seq<char>| !final(self).spec_has(o, n, b),
            r == old(self).entries@.len(),
    {
        let removed = self.entries.len();
        self.entries = Vec::new();
        removed
    }

    /// Drop every entry that has gone stale at `now`; reports how many
    /// were dropped.
    pub fn cleanup_expired(&mut self, now: i64) -> (r: usize)
        requires
            old(self).wf(),
        ensures
            final(self).wf(),
            forall|k: int|
                0 <= k < final(self).entries.len() ==> !spec_expired(
                    (#[trigger] final(self).entries[k]).scanned_at as int,
                    now as int,
                ),
            forall|k: int|
                0 <= k < old(self).entries.len() && !spec_expired(
                    (#[trigger] old(self).entries[k]).scanned_at as int,
                    now as int,
                ) ==> spec_has_cache(
                    final(self).entries@,
                    old(self).entries[k].repo_owner@,
                    old(self).entries[k].repo_name@,
                    old(self).entries[k].repo_branch@,
                ),
            forall|k: int|
                0 <= k < final(self).entries.len() ==> old(self).spec_has(
                    (#[trigger] final(self).entries[k]).repo_owner@,
                    final(self).entries[k].repo_name@,
                    final(self).entries[k].repo_branch@,
                ),
            r == old(self).entries.len() - final(self).entries.len(),
    {
        let n = self.entries.len();
        let ghost pre = *self;
        let mut kept: Vec<DiscoveryCacheEntry> = Vec::new();
        let mut i: usize = 0;
        while i < n
            invariant
                i <= n,
                pre == *old(self),
                pre.wf(),
                n == pre.entries.len(),
                self.entries@ =~= pre.entries@.subrange(i as int, n as int),
                kept@.len() <= i,
                forall|a: int, b: int|
                    0 <= a < b < kept@.len() ==> !(kept@[a].repo_owner@ == kept@[b].repo_owner@
                        && kept@[a].repo_name@ == kept@[b].repo_name@ && kept@[a].repo_branch@
                        == kept@[b].repo_branch@),
                forall|k: int|
                    0 <= k < kept@.len() ==> !spec_expired(
                        (#[trigger] kept@[k]).scanned_at as int,
                        now as int,
                    ),
                forall|k: int|
                    0 <= k < kept@.len() ==> (exists|j: int|
                        0 <= j < i && pre.entries[j] == #[trigger] kept@[k]),
                forall|j: int|
                    0 <= j < i && !spec_expired(
                        (#[trigger] pre.entries[j]).scanned_at as int,
                        now as int,
                    ) ==> spec_has_cache(
                        kept@,
                        pre.entries[j].repo_owner@,
                        pre.entries[j].repo_name@,
                        pre.entries[j].repo_branch@,
                    ),
            decreases n - i,
        {
            let e = self.entries.remove(0);
            proof {
                assert(e == pre.entries[i as int]);
                assert(self.entries@ =~= pre.entries@.subrange(i + 1, n as int));
            }
            let stale = (now as i128) - (e.scanned_at as i128) > 86400;
            let ghost prev = kept@;
            if !stale {
                kept.push(e);
                proof {
                    assert(kept@[kept@.len() - 1] == pre.entries[i as int]);
                    assert forall|a: int, b: int|
                        0 <= a < b < kept@.len() implies !(kept@[a].repo_owner@
                        == kept@[b].repo_owner@ && kept@[a].repo_name@ == kept@[b].repo_name@
                        && kept@[a].repo_branch@ == kept@[b].repo_branch@) by {
                        assert(kept@[a] == prev[a]);
                        if b == kept@.len() - 1 {
                            let ja = choose|ja: int|
                                0 <= ja < i && pre.entries[ja] == prev[a];
                            assert(pre.entries[ja] == kept@[a]);
                        } else {
                            assert(kept@[b] == prev[b]);
                        }
                    }
                }
            }
            proof {
                assert forall|j: int|
                    0 <= j < i + 1 && !spec_expired(
                        (#[trigger] pre.entries[j]).scanned_at as int,
                        now as int,
                    ) implies spec_has_cache(
                    kept@,
                    pre.entries[j].repo_owner@,
                    pre.entries[j].repo_name@,
                    pre.entries[j].repo_branch@,
                ) by {
                    if j < i {
                        let k = choose|k: int|
                            0 <= k < prev.len() && prev[k].repo_owner@
                                == pre.entries[j].repo_owner@ && prev[k].repo_name@
                                == pre.entries[j].repo_name@ && prev[k].repo_branch@
                                == pre.entries[j].repo_branch@;
                        assert(kept@[k] == prev[k]);
                    } else {
                        assert(kept@[kept@.len() - 1] == pre.entries[j]);
                    }
                }
            }
            i += 1;
        }
        let removed = n - kept.len();
        self.entries = kept;
        removed
    }
}

/// After replacing position `i`, whose key is kept, every other key keeps
/// its presence and its entry.
proof fn lemma_cache_update_frame(
    pre: CacheTable,
    post: CacheTable,
    i: int,
    o: Seq<char>,
    n: Seq<char>,
    b: Seq<char>,
)
    requires
        pre.wf(),
        0 <= i < pre.entries.len(),
        pre.entries[i].repo_owner@ == o,
        pre.entries[i].repo_name@ == n,
        pre.entries[i].repo_branch@ == b,
        post.entries[i].repo_owner@ == o,
        post.entries[i].repo_name@ == n,
        post.entries[i].repo_branch@ == b,
        post.entries@ == pre.entries@.update(i, post.entries@[i]),
    ensures
        post.wf(),
        post.spec_has(o, n, b),
        post.spec_at(o, n, b) == post.entries@[i],
        forall|o2: Seq<char>, n2: Seq<char>, b2: Seq<char>|
            !(o2 == o && n2 == n && b2 == b) ==> post.spec_has(o2, n2, b2) == pre.spec_has(
                o2,
                n2,
                b2,
            ),
        forall|o2: Seq<char>, n2: Seq<char>, b2: Seq<char>|
            !(o2 == o && n2 == n && b2 == b) && pre.spec_has(o2, n2, b2) ==> post.spec_at(
                o2,
                n2,
                b2,
            ) == pre.spec_at(o2, n2, b2),
{
    assert forall|x: int, y: int|
        0 <= x < y < post.entries.len() implies !(post.entries[x].repo_owner@
        == post.entries[y].repo_owner@ && post.entries[x].repo_name@
        == post.entries[y].repo_name@ && post.entries[x].repo_branch@
        == post.entries[y].repo_branch@) by {
        assert(x != i ==> post.entries[x] == pre.entries[x]);
        assert(y != i ==> post.entries[y] == pre.entries[y]);
    }
    let k = choose|k: int|
        0 <= k < post.entries.len() && post.entries[k].repo_owner@ == o
            && post.entries[k].repo_name@ == n && post.entries[k].repo_branch@ == b;
    assert(k == i);
    assert forall|o2: Seq<char>, n2: Seq<char>, b2: Seq<char>|
        !(o2 == o && n2 == n && b2 == b) implies post.spec_has(o2, n2, b2) == pre.spec_has(
        o2,
        n2,
        b2,
    ) by {
        if pre.spec_has(o2, n2, b2) {
            let a = choose|a: int|
                0 <= a < pre.entries.len() && pre.entries[a].repo_owner@ == o2
                    && pre.entries[a].repo_name@ == n2 && pre.entries[a].repo_branch@ == b2;
            assert(post.entries[a] == pre.entries[a]);
        } else if post.spec_has(o2, n2, b2) {
            let a = choose|a: int|
                0 <= a < post.entries.len() && post.entries[a].repo_owner@ == o2
                    && post.entries[a].repo_name@ == n2 && post.entries[a].repo_branch@ == b2;
            assert(pre.entries[a] == post.entries[a]);
        }
    }
    assert forall|o2: Seq<char>, n2: Seq<char>, b2: Seq<char>|
        !(o2 == o && n2 == n && b2 == b) && pre.spec_has(o2, n2, b2) implies post.spec_at(
        o2,
        n2,
        b2,
    ) == pre.spec_at(o2, n2, b2) by {
        let a = choose|a: int|
            0 <= a < pre.entries.len() && pre.entries[a].repo_owner@ == o2
                && pre.entries[a].repo_name@ == n2 && pre.entries[a].repo_branch@ == b2;
        assert(post.entries[a] == pre.entries[a]);
        let c = choose|c: int|
            0 <= c < post.entries.len() && post.entries[c].repo_owner@ == o2
                && post.entries[c].repo_name@ == n2 && post.entries[c].repo_branch@ == b2;
        assert(c == a);
    }
}

/// After pushing an entry whose key was absent, every other key keeps its
/// presence and its entry.
proof fn lemma_cache_push_frame(pre: CacheTable, post: CacheTable, e: DiscoveryCacheEntry)
    requires
        pre.wf(),
        !pre.spec_has(e.repo_owner@, e.repo_name@, e.repo_branch@),
        post.entries@ == pre.entries@.push(e),
    ensures
        post.wf(),
        post.spec_has(e.repo_owner@, e.repo_name@, e.repo_branch@),
        post.spec_at(e.repo_owner@, e.repo_name@, e.repo_branch@) == e,
        forall|o2: Seq<char>, n2: Seq<char>, b2: Seq<char>|
            !(o2 == e.repo_owner@ && n2 == e.repo_name@ && b2 == e.repo_branch@) ==> post.spec_has(
                o2,
                n2,
                b2,
            ) == pre.spec_has(o2, n2, b2),
        forall|o2: Seq<char>, n2: Seq<char>, b2: Seq<char>|
            !(o2 == e.repo_owner@ && n2 == e.repo_name@ && b2 == e.repo_branch@) && pre.spec_has(
                o2,
                n2,
                b2,
            ) ==> post.spec_at(o2, n2, b2) == pre.spec_at(o2, n2, b2),
{
    let ln = pre.entries.len() as int;
    assert forall|x: int, y: int|
        0 <= x < y < post.entries.len() implies !(post.entries[x].repo_owner@
        == post.entries[y].repo_owner@ && post.entries[x].repo_name@
        == post.entries[y].repo_name@ && post.entries[x].repo_branch@
        == post.entries[y].repo_branch@) by {
        if y < ln {
            assert(post.entries[x] == pre.entries[x]);
            assert(post.entries[y] == pre.entries[y]);
        } else {
            assert(post.entries[x] == pre.entries[x]);
        }
    }
    assert(post.entries@[ln] == e);
    let k = choose|k: int|
        0 <= k < post.entries.len() && post.entries[k].repo_owner@ == e.repo_owner@
            && post.entries[k].repo_name@ == e.repo_name@ && post.entries[k].repo_branch@
            == e.repo_branch@;
    assert(k == ln) by {
        if k < ln {
            assert(post.entries@[k] == pre.entries@[k]);
            assert(pre.spec_has(e.repo_owner@, e.repo_name@, e.repo_branch@));
        }
    }
    assert forall|o2: Seq<char>, n2: Seq<char>, b2: Seq<char>|
        !(o2 == e.repo_owner@ && n2 == e.repo_name@ && b2 == e.repo_branch@) implies post.spec_has(
        o2,
        n2,
        b2,
    ) == pre.spec_has(o2, n2, b2) by {
        if pre.spec_has(o2, n2, b2) {
            let a = choose|a: int|
                0 <= a < pre.entries.len() && pre.entries[a].repo_owner@ == o2
                    && pre.entries[a].repo_name@ == n2 && pre.entries[a].repo_branch@ == b2;
            assert(post.entries[a] == pre.entries[a]);
        } else if post.spec_has(o2, n2, b2) {
            let a = choose|a: int|
                0 <= a < post.entries.len() && post.entries[a].repo_owner@ == o2
                    && post.entries[a].repo_name@ == n2 && post.entries[a].repo_branch@ == b2;
            assert(a < ln);
            assert(pre.entries[a] == post.entries[a]);
        }
    }
    assert forall|o2: Seq<char>, n2: Seq<char>, b2: Seq<char>|
        !(o2 == e.repo_owner@ && n2 == e.repo_name@ && b2 == e.repo_branch@) && pre.spec_has(
        o2,
        n2,
        b2,
    ) implies post.spec_at(o2, n2, b2) == pre.spec_at(o2, n2, b2) by {
        let a = choose|a: int|
            0 <= a < pre.entries.len() && pre.entries[a].repo_owner@ == o2
                && pre.entries[a].repo_name@ == n2 && pre.entries[a].repo_branch@ == b2;
        assert(post.entries[a] == pre.entries[a]);
        let c = choose|c: int|
            0 <= c < post.entries.len() && post.entries[c].repo_owner@ == o2
                && post.entries[c].repo_name@ == n2 && post.entries[c].repo_branch@ == b2;
        assert(c == a);
    }
}

/// After removing position `i`, which held the key, every other key keeps
/// its presence and its entry.
proof fn lemma_cache_remove_frame(
    pre: CacheTable,
    post: CacheTable,
    i: int,
    o: Seq<char>,
    n: Seq<char>,
    b: Seq<char>,
)
    requires
        pre.wf(),
        0 <= i < pre.entries.len(),
        pre.entries[i].repo_owner@ == o,
        pre.entries[i].repo_name@ == n,
        pre.entries[i].repo_branch@ == b,
        post.entries@ == pre.entries@.remove(i),
    ensures
        post.wf(),
        forall|o2: Seq<char>, n2: Seq<char>, b2: Seq<char>|
            !(o2 == o && n2 == n && b2 == b) ==> post.spec_has(o2, n2, b2) == pre.spec_has(
                o2,
                n2,
                b2,
            ),
        forall|o2: Seq<char>, n2: Seq<char>, b2: Seq<char>|
            !(o2 == o && n2 == n && b2 == b) && pre.spec_has(o2, n2, b2) ==> post.spec_at(
                o2,
                n2,
                b2,
            ) == pre.spec_at(o2, n2, b2),
{
    assert forall|x: int, y: int|
        0 <= x < y < post.entries.len() implies !(post.entries[x].repo_owner@
        == post.entries[y].repo_owner@ && post.entries[x].repo_name@
        == post.entries[y].repo_name@ && post.entries[x].repo_branch@
        == post.entries[y].repo_branch@) by {
        let x2 = if x < i { x } else { x + 1 };
        let y2 = if y < i { y } else { y + 1 };
        assert(post.entries[x] == pre.entries[x2]);
        assert(post.entries[y] == pre.entries[y2]);
    }
    assert forall|o2: Seq<char>, n2: Seq<char>, b2: Seq<char>|
        !(o2 == o && n2 == n && b2 == b) implies post.spec_has(o2, n2, b2) == pre.spec_has(
        o2,
        n2,
        b2,
    ) by {
        if pre.spec_has(o2, n2, b2) {
            let k = choose|k: int|
                0 <= k < pre.entries.len() && pre.entries[k].repo_owner@ == o2
                    && pre.entries[k].repo_name@ == n2 && pre.entries[k].repo_branch@ == b2;
            if k < i {
                assert(post.entries[k] == pre.entries[k]);
            } else {
                assert(post.entries[k - 1] == pre.entries[k]);
            }
        } else if post.spec_has(o2, n2, b2) {
            let k = choose|k: int|
                0 <= k < post.entries.len() && post.entries[k].repo_owner@ == o2
                    && post.entries[k].repo_name@ == n2 && post.entries[k].repo_branch@ == b2;
            let k2 = if k < i { k } else { k + 1 };
            assert(pre.entries[k2] == post.entries[k]);
        }
    }
    assert forall|o2: Seq<char>, n2: Seq<char>, b2: Seq<char>|
        !(o2 == o && n2 == n && b2 == b) && pre.spec_has(o2, n2, b2) implies post.spec_at(
        o2,
        n2,
        b2,
    ) == pre.spec_at(o2, n2, b2) by {
        let k = choose|k: int|
            0 <= k < pre.entries.len() && pre.entries[k].repo_owner@ == o2
                && pre.entries[k].repo_name@ == n2 && pre.entries[k].repo_branch@ == b2;
        let kp = if k < i { k } else { k - 1 };
        assert(post.entries[kp] == pre.entries[k]);
        let k2 = choose|k2: int|
            0 <= k2 < post.entries.len() && post.entries[k2].repo_owner@ == o2
                && post.entries[k2].repo_name@ == n2 && post.entries[k2].repo_branch@ == b2;
        let k3 = if k2 < i { k2 } else { k2 + 1 };
        assert(pre.entries[k3] == post.entries[k2]);
        assert(k3 == k);
    }
}

} // verus!

verus! {

impl ResourceTable {
    /// Indexes of the hook records that fire for `event` in `app`: those
    /// globally enabled, enabled for the application, and of the right
    /// event, ordered by ascending priority.
    #[verifier::rlimit(100)]
    pub fn enabled_by_event(&self, event: &HookEventType, app: &AppType) -> (r: Vec<usize>)
        ensures
            forall|a: int, b: int| 0 <= a < b < r@.len() ==> r@[a] != r@[b],
            forall|k: int|
                0 <= k < r@.len() ==> #[trigger] r@[k] < self.records.len()
                    && self.records[r@[k] as int].enabled && self.records[r@[k] as int].apps
                    .spec_enabled_for(*app) && self.records[r@[k] as int].event_type == *event,
            forall|j: int|
                0 <= j < self.records.len() && (#[trigger] self.records[j]).enabled
                    && self.records[j].apps.spec_enabled_for(*app)
                    && self.records[j].event_type == *event ==> (exists|k: int|
                    0 <= k < r@.len() && r@[k] == j),
            forall|a: int, b: int|
                0 <= a < b < r@.len() ==> self.records[r@[a] as int].priority
                    <= self.records[r@[b] as int].priority,
    {
        let n = self.records.len();
        let mut out: Vec<usize> = Vec::new();
        let mut i: usize = 0;
        while i < n
            invariant
                i <= n,
                n == self.records.len(),
                forall|a: int, b: int| 0 <= a < b < out@.len() ==> out@[a] != out@[b],
                forall|k: int| 0 <= k < out@.len() ==> #[trigger] out@[k] < i,
                forall|k: int|
                    0 <= k < out@.len() ==> self.records[out@[k] as int].enabled
                        && self.records[out@[k] as int].apps.spec_enabled_for(*app)
                        && self.records[out@[k] as int].event_type == *event,
                forall|j: int|
                    0 <= j < i && (#[trigger] self.records[j]).enabled
                        && self.records[j].apps.spec_enabled_for(*app)
                        && self.records[j].event_type == *event ==> (exists|k: int|
                        0 <= k < out@.len() && out@[k] == j),
                forall|a: int, b: int|
                    0 <= a < b < out@.len() ==> self.records[out@[a] as int].priority
                        <= self.records[out@[b] as int].priority,
            decreases n - i,
        {
            let rec = &self.records[i];
            let selected = rec.enabled && rec.apps.is_enabled_for(app) && matches!(
                (rec.event_type, *event),
                (HookEventType::PreToolUse, HookEventType::PreToolUse)
                | (HookEventType::PostToolUse, HookEventType::PostToolUse)
                | (HookEventType::PermissionRequest, HookEventType::PermissionRequest)
                | (HookEventType::SessionEnd, HookEventType::SessionEnd),
            );
            if selected {
                let mut p: usize = 0;
                let m = out.len();
                while p < m && self.records[out[p]].priority <= self.records[i].priority
                    invariant
                        p <= m,
                        m == out@.len(),
                        i < n,
                        n == self.records.len(),
                        forall|k: int| 0 <= k < out@.len() ==> #[trigger] out@[k] < i,
                        forall|k: int|
                            0 <= k < p ==> self.records[out@[k] as int].priority
                                <= self.records[i as int].priority,
                    decreases m - p,
                {
                    p += 1;
                }
                let ghost prev = out@;
                out.insert(p, i);
                proof {
                    assert(out@ =~= prev.subrange(0, p as int).push(i as usize) + prev.subrange(
                        p as int,
                        prev.len() as int,
                    ));
                    assert forall|a: int, b: int|
                        0 <= a < b < out@.len() implies out@[a] != out@[b] by {
                        let a2 = if a < p { a } else { a - 1 };
                        let b2 = if b < p { b } else { b - 1 };
                        if a == p {
                            assert(out@[b] == prev[b2]);
                            assert(prev[b2] < i);
                        } else if b == p {
                            assert(out@[a] == prev[a2]);
                            assert(prev[a2] < i);
                        } else {
                            assert(out@[a] == prev[a2]);
                            assert(out@[b] == prev[b2]);
                        }
                    }
                    assert forall|a: int, b: int|
                        0 <= a < b < out@.len() implies self.records[out@[a] as int].priority
                        <= self.records[out@[b] as int].priority by {
                        let a2 = if a < p { a } else { a - 1 };
                        let b2 = if b < p { b } else { b - 1 };
                        if a == p {
                            assert(out@[b] == prev[b2]);
                            assert(b2 >= p);
                            if b2 == p {
                                assert(self.records[i as int].priority
                                    <= self.records[prev[b2] as int].priority);
                            }
                        } else if b == p {
                            assert(out@[a] == prev[a2]);
                        } else {
                            assert(out@[a] == prev[a2]);
                            assert(out@[b] == prev[b2]);
                        }
                    }
                    assert forall|j: int|
                        0 <= j < i + 1 && (#[trigger] self.records[j]).enabled
                            && self.records[j].apps.spec_enabled_for(*app)
                            && self.records[j].event_type == *event implies (exists|k: int|
                        0 <= k < out@.len() && out@[k] == j) by {
                        if j < i {
                            let k = choose|k: int| 0 <= k < prev.len() && prev[k] == j;
                            let k2 = if k < p { k } else { k + 1 };
                            assert(out@[k2] == j);
                        } else {
                            assert(out@[p as int] == j);
                        }
                    }
                }
            }
            i += 1;
        }
        out
    }
}

/// The full state of the metadata database: one record table per resource
/// kind, the two repository registries, and one discovery cache per
/// remotely discovered kind.
#[derive(Clone, Debug)]
pub struct Database {
    pub agents: ResourceTable,
    pub commands: ResourceTable,
    pub hooks: ResourceTable,
    pub skills: ResourceTable,
    pub command_repos: RepoTable,
    pub skill_repos: RepoTable,
    pub agent_cache: CacheTable,
    pub command_cache: CacheTable,
    pub hook_cache: CacheTable,
}

impl Database {
    /// Every table is well-formed.
    pub open spec fn wf(&self) -> bool {
        &&& self.agents.wf()
        &&& self.commands.wf()
        &&& self.hooks.wf()
        &&& self.skills.wf()
        &&& self.command_repos.wf()
        &&& self.skill_repos.wf()
        &&& self.agent_cache.wf()
        &&& self.command_cache.wf()
        &&& self.hook_cache.wf()
    }

    /// A fresh, empty database.
    pub fn memory() -> (r: Database)
        ensures
            r.wf(),
            r.agents.records@.len() == 0,
            r.commands.records@.len() == 0,
            r.hooks.records@.len() == 0,
            r.skills.records@.len() == 0,
            r.command_repos.repos@.len() == 0,
            r.skill_repos.repos@.len() == 0,
            r.agent_cache.entries@.len() == 0,
            r.command_cache.entries@.len() == 0,
            r.hook_cache.entries@.len() == 0,
    {
        Database {
            agents: ResourceTable::new(),
            commands: ResourceTable::new(),
            hooks: ResourceTable::new(),
            skills: ResourceTable::new(),
            command_repos: RepoTable::new(),
            skill_repos: RepoTable::new(),
            agent_cache: CacheTable::new(),
            command_cache: CacheTable::new(),
            hook_cache: CacheTable::new(),
        }
    }

    /// The namespaces of the installed agents, with counts.
    pub fn get_agent_namespaces(&self) -> (r: Vec<ResourceNamespace>)
        ensures
            forall|a: int, b: int| 0 <= a < b < r@.len() ==> r@[a].name@ != r@[b].name@,
            forall|a: int, b: int|
                0 <= a < b < r@.len() ==> seq_le(r@[a].name@, r@[b].name@),
            forall|a: int|
                0 <= a < r@.len() ==> r@[a].count == count_ns(self.agents.records@, r@[a].name@),
            forall|j: int|
                0 <= j < self.agents.records.len() ==> spec_ns_listed(
                    r@,
                    #[trigger] self.agents.records[j].namespace@,
                ),
            forall|a: int|
                0 <= a < r@.len() ==> #[trigger] spec_has_ns(self.agents.records@, r@[a].name@),
            forall|a: int|
                0 <= a < r@.len() ==> (#[trigger] r@[a]).display_name@ == (
                if r@[a].name@.len() == 0 {
                    "Root"@
                } else {
                    r@[a].name@
                }),
    {
        self.agents.namespaces()
    }

    /// The namespaces of the installed commands, with counts.
    pub fn get_command_namespaces(&self) -> (r: Vec<ResourceNamespace>)
        ensures
            forall|a: int, b: int| 0 <= a < b < r@.len() ==> r@[a].name@ != r@[b].name@,
            forall|a: int, b: int|
                0 <= a < b < r@.len() ==> seq_le(r@[a].name@, r@[b].name@),
            forall|a: int|
                0 <= a < r@.len() ==> r@[a].count == count_ns(
                    self.commands.records@,
                    r@[a].name@,
                ),
            forall|j: int|
                0 <= j < self.commands.records.len() ==> spec_ns_listed(
                    r@,
                    #[trigger] self.commands.records[j].namespace@,
                ),
            forall|a: int|
                0 <= a < r@.len() ==> #[trigger] spec_has_ns(self.commands.records@, r@[a].name@),
            forall|a: int|
                0 <= a < r@.len() ==> (#[trigger] r@[a]).display_name@ == (
                if r@[a].name@.len() == 0 {
                    "Root"@
                } else {
                    r@[a].name@
                }),
    {
        self.commands.namespaces()
    }

    /// The namespaces of the installed hooks, with counts.
    pub fn get_hook_namespaces(&self) -> (r: Vec<ResourceNamespace>)
        ensures
            forall|a: int, b: int| 0 <= a < b < r@.len() ==> r@[a].name@ != r@[b].name@,
            forall|a: int, b: int|
                0 <= a < b < r@.len() ==> seq_le(r@[a].name@, r@[b].name@),
            forall|a: int|
                0 <= a < r@.len() ==> r@[a].count == count_ns(self.hooks.records@, r@[a].name@),
            forall|j: int|
                0 <= j < self.hooks.records.len() ==> spec_ns_listed(
                    r@,
                    #[trigger] self.hooks.records[j].namespace@,
                ),
            forall|a: int|
                0 <= a < r@.len() ==> #[trigger] spec_has_ns(self.hooks.records@, r@[a].name@),
            forall|a: int|
                0 <= a < r@.len() ==> (#[trigger] r@[a]).display_name@ == (
                if r@[a].name@.len() == 0 {
                    "Root"@
                } else {
                    r@[a].name@
                }),
    {
        self.hooks.namespaces()
    }

    /// The distinct namespaces of the installed skills.
    pub fn get_skill_namespaces(&self) -> (r: Vec<String>)
        ensures
            forall|a: int, b: int| 0 <= a < b < r@.len() ==> r@[a]@ != r@[b]@,
            forall|a: int, b: int| 0 <= a < b < r@.len() ==> seq_le(r@[a]@, r@[b]@),
            forall|j: int|
                0 <= j < self.skills.records.len() ==> spec_name_listed(
                    r@,
                    #[trigger] self.skills.records[j].namespace@,
                ),
            forall|a: int|
                0 <= a < r@.len() ==> #[trigger] spec_has_ns(self.skills.records@, r@[a]@),
    {
        self.skills.namespace_names()
    }

    /// The installed skills lying in one namespace, sorted by name
    /// ascending.
    pub fn get_skills_by_namespace(&self, ns: &str) -> (r: Vec<&InstalledResource>)
        requires
            self.wf(),
        ensures
            r@.len() == count_ns(self.skills.records@, ns@),
            forall|k: int| 0 <= k < r@.len() ==> (#[trigger] r@[k]).namespace@ == ns@,
            forall|k: int|
                0 <= k < r@.len() ==> self.skills.spec_has((#[trigger] r@[k]).id@) && *r@[k]
                    == self.skills.spec_at(r@[k].id@),
            forall|a: int, b: int|
                0 <= a < b < r@.len() ==> seq_le(
                    (#[trigger] r@[a]).name@,
                    (#[trigger] r@[b]).name@,
                ),
    {
        let listed = self.skills.by_namespace(ns);
        let ghost unsorted = listed@;
        let sorted = sort_recs_by(listed, true);
        proof {
            assert forall|k: int|
                0 <= k < sorted@.len() implies (#[trigger] sorted@[k]).namespace@ == ns@
                && self.skills.spec_has(sorted@[k].id@) && *sorted@[k] == self.skills.spec_at(
                sorted@[k].id@,
            ) by {
                assert(spec_ref_listed(unsorted, sorted@[k]));
                let j = choose|j: int|
                    0 <= j < unsorted.len() && unsorted[j] == sorted@[k];
                assert(unsorted[j].namespace@ == ns@);
            }
            assert forall|a: int, b: int|
                0 <= a < b < sorted@.len() implies seq_le(
                (#[trigger] sorted@[a]).name@,
                (#[trigger] sorted@[b]).name@,
            ) by {
                assert(seq_le(
                    spec_rec_key(*sorted@[a], true),
                    spec_rec_key(*sorted@[b], true),
                ));
            }
        }
        sorted
    }

    /// Whether no agent is installed.
    pub fn is_agents_table_empty(&self) -> (r: bool)
        ensures
            r == (self.agents.records@.len() == 0),
    {
        self.agents.is_empty()
    }

    /// Whether no command is installed.
    pub fn is_commands_table_empty(&self) -> (r: bool)
        ensures
            r == (self.commands.records@.len() == 0),
    {
        self.commands.is_empty()
    }

    /// Whether no hook is installed.
    pub fn is_hooks_table_empty(&self) -> (r: bool)
        ensures
            r == (self.hooks.records@.len() == 0),
    {
        self.hooks.is_empty()
    }

    /// Forget every installed skill.
    pub fn clear_skills(&mut self)
        ensures
            final(self).skills.records@.len() == 0,
            final(self).skills.wf(),
            final(self).agents == old(self).agents,
            final(self).commands == old(self).commands,
            final(self).hooks == old(self).hooks,
            final(self).command_repos == old(self).command_repos,
            final(self).skill_repos == old(self).skill_repos,
            final(self).agent_cache == old(self).agent_cache,
            final(self).command_cache == old(self).command_cache,
            final(self).hook_cache == old(self).hook_cache,
    {
        self.skills = ResourceTable::new();
    }

    /// The configured command repositories, sorted by insertion time
    /// ascending, ties broken by owner and then name.
    pub fn get_all_command_repos(&self) -> (r: Vec<&RepoWithMeta>)
        ensures
            r@.len() == self.command_repos.repos@.len(),
            forall|k: int|
                0 <= k < r@.len() ==> spec_row_listed(
                    self.command_repos.repos@,
                    #[trigger] r@[k],
                ),
            forall|j: int|
                0 <= j < self.command_repos.repos@.len() ==> spec_listing_has(
                    r@,
                    #[trigger] self.command_repos.repos@[j],
                ),
            forall|a: int, b: int|
                0 <= a < b < r@.len() ==> spec_repo_le(*(#[trigger] r@[a]), *(#[trigger] r@[b])),
    {
        self.command_repos.sorted()
    }

    /// The configured skill repositories, sorted by insertion time
    /// ascending, ties broken by owner and then name.
    pub fn get_skill_repos(&self) -> (r: Vec<&RepoWithMeta>)
        ensures
            r@.len() == self.skill_repos.repos@.len(),
            forall|k: int|
                0 <= k < r@.len() ==> spec_row_listed(
                    self.skill_repos.repos@,
                    #[trigger] r@[k],
                ),
            forall|j: int|
                0 <= j < self.skill_repos.repos@.len() ==> spec_listing_has(
                    r@,
                    #[trigger] self.skill_repos.repos@[j],
                ),
            forall|a: int, b: int|
                0 <= a < b < r@.len() ==> spec_repo_le(*(#[trigger] r@[a]), *(#[trigger] r@[b])),
    {
        self.skill_repos.sorted()
    }

    /// Re-seed the missing builtin command repositories from the bundled
    /// manifest; reports how many were added.
    pub fn restore_builtin_command_repos(&mut self, builtin: &Vec<BuiltinRepoConfig>) -> (r:
        usize)
        requires
            old(self).wf(),
            forall|a: int, b: int|
                0 <= a < b < builtin@.len() ==> !(builtin@[a].owner@ == builtin@[b].owner@
                    && builtin@[a].name@ == builtin@[b].name@),
        ensures
            final(self).wf(),
            r == count_added(builtin@, old(self).command_repos),
            forall|k: int|
                #![trigger builtin@[k]]
                0 <= k < builtin@.len() ==> {
                    let b = builtin@[k];
                    let row = final(self).command_repos.spec_at(b.owner@, b.name@);
                    &&& final(self).command_repos.spec_has(b.owner@, b.name@)
                    &&& row.builtin
                    &&& spec_descs_match(row, b)
                    &&& row.enabled == (if old(self).command_repos.spec_has(b.owner@, b.name@) {
                        old(self).command_repos.spec_at(b.owner@, b.name@).enabled
                    } else {
                        true
                    })
                    &&& row.branch@ == (if old(self).command_repos.spec_has(b.owner@, b.name@) {
                        old(self).command_repos.spec_at(b.owner@, b.name@).branch@
                    } else {
                        b.branch@
                    })
                },
            forall|o: Seq<char>, n: Seq<char>|
                !spec_key_in_builtin(builtin@, o, n) ==> final(self).command_repos.spec_has(o, n)
                    == old(self).command_repos.spec_has(o, n),
            forall|o: Seq<char>, n: Seq<char>|
                !spec_key_in_builtin(builtin@, o, n) && old(self).command_repos.spec_has(o, n)
                    ==> final(self).command_repos.spec_at(o, n) == old(self).command_repos.spec_at(o, n),
            final(self).agents == old(self).agents,
            final(self).commands == old(self).commands,
            final(self).hooks == old(self).hooks,
            final(self).skills == old(self).skills,
            final(self).skill_repos == old(self).skill_repos,
    {
        let (added, _updated) = self.command_repos.sync_builtin(builtin);
        added
    }

    /// Re-seed the missing builtin skill repositories from the bundled
    /// manifest; reports how many were added.
    pub fn restore_builtin_skill_repos(&mut self, builtin: &Vec<BuiltinRepoConfig>) -> (r: usize)
        requires
            old(self).wf(),
            forall|a: int, b: int|
                0 <= a < b < builtin@.len() ==> !(builtin@[a].owner@ == builtin@[b].owner@
                    && builtin@[a].name@ == builtin@[b].name@),
        ensures
            final(self).wf(),
            r == count_added(builtin@, old(self).skill_repos),
            forall|k: int|
                #![trigger builtin@[k]]
                0 <= k < builtin@.len() ==> {
                    let b = builtin@[k];
                    let row = final(self).skill_repos.spec_at(b.owner@, b.name@);
                    &&& final(self).skill_repos.spec_has(b.owner@, b.name@)
                    &&& row.builtin
                    &&& spec_descs_match(row, b)
                    &&& row.enabled == (if old(self).skill_repos.spec_has(b.owner@, b.name@) {
                        old(self).skill_repos.spec_at(b.owner@, b.name@).enabled
                    } else {
                        true
                    })
                    &&& row.branch@ == (if old(self).skill_repos.spec_has(b.owner@, b.name@) {
                        old(self).skill_repos.spec_at(b.owner@, b.name@).branch@
                    } else {
                        b.branch@
                    })
                },
            forall|o: Seq<char>, n: Seq<char>|
                !spec_key_in_builtin(builtin@, o, n) ==> final(self).skill_repos.spec_has(o, n)
                    == old(self).skill_repos.spec_has(o, n),
            forall|o: Seq<char>, n: Seq<char>|
                !spec_key_in_builtin(builtin@, o, n) && old(self).skill_repos.spec_has(o, n)
                    ==> final(self).skill_repos.spec_at(o, n) == old(self).skill_repos.spec_at(o, n),
            final(self).agents == old(self).agents,
            final(self).commands == old(self).commands,
            final(self).hooks == old(self).hooks,
            final(self).skills == old(self).skills,
            final(self).command_repos == old(self).command_repos,
    {
        let (added, _updated) = self.skill_repos.sync_builtin(builtin);
        added
    }

    /// Drop every cached agent discovery; reports how many entries left.
    pub fn clear_all_agent_cache(&mut self) -> (r: usize)
        ensures
            final(self).agent_cache.entries@.len() == 0,
            final(self).agent_cache.wf(),
            r == old(self).agent_cache.entries@.len(),
            final(self).commands == old(self).commands,
            final(self).agents == old(self).agents,
            final(self).hooks == old(self).hooks,
            final(self).skills == old(self).skills,
            final(self).command_repos == old(self).command_repos,
            final(self).skill_repos == old(self).skill_repos,
            final(self).command_cache == old(self).command_cache,
            final(self).hook_cache == old(self).hook_cache,
    {
        self.agent_cache.clear()
    }

    /// Drop every cached command discovery; reports how many entries
    /// left.
    pub fn clear_all_command_cache(&mut self) -> (r: usize)
        ensures
            final(self).command_cache.entries@.len() == 0,
            final(self).command_cache.wf(),
            r == old(self).command_cache.entries@.len(),
            final(self).commands == old(self).commands,
            final(self).agents == old(self).agents,
            final(self).hooks == old(self).hooks,
            final(self).skills == old(self).skills,
            final(self).command_repos == old(self).command_repos,
            final(self).skill_repos == old(self).skill_repos,
            final(self).agent_cache == old(self).agent_cache,
            final(self).hook_cache == old(self).hook_cache,
    {
        self.command_cache.clear()
    }

    /// Drop every cached hook discovery; reports how many entries left.
    pub fn clear_all_hook_cache(&mut self) -> (r: usize)
        ensures
            final(self).hook_cache.entries@.len() == 0,
            final(self).hook_cache.wf(),
            r == old(self).hook_cache.entries@.len(),
            final(self).commands == old(self).commands,
            final(self).agents == old(self).agents,
            final(self).hooks == old(self).hooks,
            final(self).skills == old(self).skills,
            final(self).command_repos == old(self).command_repos,
            final(self).skill_repos == old(self).skill_repos,
            final(self).agent_cache == old(self).agent_cache,
            final(self).command_cache == old(self).command_cache,
    {
        self.hook_cache.clear()
    }
}

} // verus!
