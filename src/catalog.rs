//! The index catalog: creation, soft deletion, listing and lookup, scoped to
//! a tenant when the caller is authenticated, and a read-through cache of
//! lookups by public id.
use vstd::prelude::*;

use crate::error::Error;
use crate::index::{copy_string, Auth, Index, IndexView, NewIndex};

verus! {

/// The subject of an optional caller.
pub open spec fn auth_view(auth: Option<&Auth>) -> Option<Seq<char>> {
    match auth {
        Some(a) => Some(a.authz_id@),
        None => None,
    }
}

/// The project of an optional project filter.
pub open spec fn project_view(project: Option<&String>) -> Option<Seq<char>> {
    match project {
        Some(p) => Some(p@),
        None => None,
    }
}

/// Whether a lookup of `id` by the caller `auth` (`None`: single-tenant)
/// may answer with this index: same id, not deleted, and owned by the
/// caller when there is one.
pub open spec fn can_see(ix: IndexView, id: Seq<char>, auth: Option<Seq<char>>) -> bool {
    &&& ix.id == id
    &&& ix.deleted_at is None
    &&& match auth {
        Some(sub) => ix.authz_id == sub,
        None => true,
    }
}

/// Whether a listing filtered on `project` (`None`: no filter) shows this
/// index.
pub open spec fn listed_in(ix: IndexView, project: Option<Seq<char>>) -> bool {
    &&& ix.deleted_at is None
    &&& match project {
        Some(p) => ix.project_uuid == p,
        None => true,
    }
}

/// The listing of `rows`: the shown indexes, last created first.
pub open spec fn listing(rows: Seq<IndexView>, project: Option<Seq<char>>) -> Seq<IndexView>
    decreases rows.len(),
{
    if rows.len() == 0 {
        Seq::empty()
    } else {
        let rest = listing(rows.drop_first(), project);
        if listed_in(rows[0], project) {
            rest.push(rows[0])
        } else {
            rest
        }
    }
}

/// The catalog's rows as plain values.
pub open spec fn rows_view(rows: Seq<Index>) -> Seq<IndexView> {
    rows.map_values(|i: Index| i@)
}

/// Public ids are unique and creation times never decrease along the rows.
pub open spec fn rows_wf(rows: Seq<IndexView>) -> bool {
    &&& forall|i: int, j: int| 0 <= i < j < rows.len() ==> (#[trigger] rows[i]).id != (#[trigger] rows[j]).id
    &&& forall|i: int, j: int|
        0 <= i < j < rows.len() ==> (#[trigger] rows[i]).created_at <= (#[trigger] rows[j]).created_at
}

/// The index metadata store: every index ever created, deleted ones kept
/// with their deletion time.
pub struct MetadataDatabase {
    indexes: Vec<Index>,
}

impl View for MetadataDatabase {
    type V = Seq<IndexView>;

    closed spec fn view(&self) -> Seq<IndexView> {
        rows_view(self.indexes@)
    }
}

impl MetadataDatabase {
    pub open spec fn wf(&self) -> bool {
        rows_wf(self@)
    }

    /// An empty catalog.
    pub fn new() -> (r: MetadataDatabase)
        ensures
            r.wf(),
            r@ == Seq::<IndexView>::empty(),
    {
        let r = MetadataDatabase { indexes: Vec::new() };
        assert(r@ =~= Seq::<IndexView>::empty());
        r
    }

    /// Position of the row with public id `id`, deleted or not.
    fn position(&self, id: &String) -> (r: Option<usize>)
        requires
            self.wf(),
        ensures
            match r {
                Some(i) => i < self@.len() && self@[i as int].id == id@,
                None => forall|i: int| 0 <= i < self@.len() ==> (#[trigger] self@[i]).id != id@,
            },
    {
        let mut i: usize = 0;
        while i < self.indexes.len()
            invariant
                0 <= i <= self@.len(),
                self@.len() == self.indexes@.len(),
                forall|j: int| 0 <= j < i ==> (#[trigger] self@[j]).id != id@,
            decreases self.indexes.len() - i,
        {
            assert(self@[i as int] == self.indexes@[i as int]@);
            if self.indexes[i].id == *id {
                return Some(i);
            }
            i = i + 1;
        }
        None
    }

    /// The index with public id `id`, unless it is deleted or, for an
    /// authenticated caller, owned by another subject: those answer as an
    /// unknown id does.
    pub fn get_index(&self, id: &String, auth: Option<&Auth>) -> (r: Option<Index>)
        requires
            self.wf(),
        ensures
            match r {
                Some(ix) => exists|i: int|
                    0 <= i < self@.len() && can_see(self@[i], id@, auth_view(auth)) && ix@
                        == #[trigger] self@[i],
                None => forall|i: int|
                    0 <= i < self@.len() ==> !can_see(#[trigger] self@[i], id@, auth_view(auth)),
            },
    {
        match self.position(id) {
            Some(i) => {
                let ix = &self.indexes[i];
                assert(self@[i as int] == ix@);
                let owned = match auth {
                    Some(a) => ix.authz_id == a.authz_id,
                    None => true,
                };
                if ix.deleted_at.is_none() && owned {
                    Some(ix.duplicate())
                } else {
                    assert forall|j: int| 0 <= j < self@.len() implies !can_see(
                        #[trigger] self@[j],
                        id@,
                        auth_view(auth),
                    ) by {
                        if j != i {
                            assert(self@[j].id != self@[i as int].id || j == i);
                        }
                    }
                    None
                }
            },
            None => None,
        }
    }

    /// The listing of the catalog, filtered on a project when one is given:
    /// deleted indexes left out, last created first.
    pub fn get_indexes(&self, project: Option<&String>) -> (r: Vec<Index>)
        requires
            self.wf(),
        ensures
            rows_view(r@) == listing(self@, project_view(project)),
    {
        let ghost rows = self@;
        let mut out: Vec<Index> = Vec::new();
        let mut i: usize = self.indexes.len();
        while i > 0
            invariant
                0 <= i <= self@.len(),
                rows == self@,
                rows.len() == self.indexes@.len(),
                rows_view(out@) == listing(rows.subrange(i as int, rows.len() as int), project_view(project)),
            decreases i,
        {
            i = i - 1;
            let ix = &self.indexes[i];
            assert(rows[i as int] == ix@);
            let shown = match project {
                Some(p) => ix.project_uuid == *p,
                None => true,
            };
            let ghost sub = rows.subrange(i as int, rows.len() as int);
            assert(sub.drop_first() =~= rows.subrange(i as int + 1, rows.len() as int));
            assert(sub[0] == rows[i as int]);
            if ix.deleted_at.is_none() && shown {
                out.push(ix.duplicate());
                assert(rows_view(out@) =~= listing(sub.drop_first(), project_view(project)).push(ix@));
            }
        }
        assert(rows.subrange(0, rows.len() as int) =~= rows);
        out
    }

    /// Creates an index at time `now` (in seconds). Its creation time is
    /// `now`, or the last creation time when the clock went back, so that
    /// listings stay ordered. A public id already used, even by a deleted
    /// index, is refused.
    pub fn create_index(&mut self, new_index: NewIndex, now: u64) -> (r: Result<Index, Error>)
        requires
            old(self).wf(),
        ensures
            final(self).wf(),
            (exists|i: int| 0 <= i < old(self)@.len() && (#[trigger] old(self)@[i]).id == new_index.id@)
                ==> (r matches Err(Error::DuplicateIndex(d)) && d@ == new_index.id@ && final(self)@
                == old(self)@),
            (forall|i: int| 0 <= i < old(self)@.len() ==> (#[trigger] old(self)@[i]).id != new_index.id@)
                ==> ({
                let created = if old(self)@.len() > 0 && old(self)@.last().created_at > now {
                    old(self)@.last().created_at
                } else {
                    now
                };
                let made = IndexView {
                    id: new_index.id@,
                    name: new_index.name@,
                    authz_id: new_index.authz_id@,
                    project_uuid: new_index.project_uuid@,
                    fetch_entries_key: new_index.fetch_entries_key@,
                    fetch_chains_key: new_index.fetch_chains_key@,
                    upsert_entries_key: new_index.upsert_entries_key@,
                    insert_chains_key: new_index.insert_chains_key@,
                    size: None,
                    created_at: created,
                    deleted_at: None,
                };
                &&& r is Ok
                &&& r->Ok_0@ == made
                &&& final(self)@ == old(self)@.push(made)
            }),
    {
        match self.position(&new_index.id) {
            Some(_) => {
                return Err(Error::DuplicateIndex(copy_string(&new_index.id)));
            },
            None => {},
        }
        let n = self.indexes.len();
        let mut created = now;
        if n > 0 {
            let last = self.indexes[n - 1].created_at;
            assert(self@[n - 1] == self.indexes@[n - 1]@);
            if last > now {
                created = last;
            }
        }
        let ix = Index {
            id: new_index.id,
            name: new_index.name,
            authz_id: new_index.authz_id,
            project_uuid: new_index.project_uuid,
            fetch_entries_key: new_index.fetch_entries_key,
            fetch_chains_key: new_index.fetch_chains_key,
            upsert_entries_key: new_index.upsert_entries_key,
            insert_chains_key: new_index.insert_chains_key,
            size: None,
            created_at: created,
            deleted_at: None,
        };
        let out = ix.duplicate();
        let ghost before = self@;
        self.indexes.push(ix);
        assert(self@ =~= before.push(out@));
        Ok(out)
    }

    /// Soft-deletes the index with public id `id` at time `now`: its row
    /// stays, marked deleted. A deleted index, an unknown id and, for an
    /// authenticated caller, an index owned by another subject are all
    /// refused as unknown.
    pub fn delete_index(&mut self, id: &String, auth: Option<&Auth>, now: u64) -> (r: Result<
        (),
        Error,
    >)
        requires
            old(self).wf(),
        ensures
            final(self).wf(),
            final(self)@.len() == old(self)@.len(),
            (forall|i: int| 0 <= i < old(self)@.len() ==> !can_see(#[trigger] old(self)@[i], id@, auth_view(auth)))
                ==> (r matches Err(Error::UnknownIndex(u)) && u@ == id@ && final(self)@ == old(self)@),
            forall|i: int|
                0 <= i < old(self)@.len() && can_see(#[trigger] old(self)@[i], id@, auth_view(auth))
                    ==> r is Ok && final(self)@ == old(self)@.update(
                    i,
                    IndexView { deleted_at: Some(now), ..old(self)@[i] },
                ),
    {
        match self.position(id) {
            Some(i) => {
                assert(self@[i as int] == self.indexes@[i as int]@);
                let owned = match auth {
                    Some(a) => self.indexes[i].authz_id == a.authz_id,
                    None => true,
                };
                if self.indexes[i].deleted_at.is_none() && owned {
                    let ghost before = self@;
                    let mut ix = self.indexes[i].duplicate();
                    ix.deleted_at = Some(now);
                    self.indexes.set(i, ix);
                    assert(self@ =~= before.update(i as int, IndexView { deleted_at: Some(now), ..before[i as int] }));
                    Ok(())
                } else {
                    Err(Error::UnknownIndex(copy_string(id)))
                }
            },
            None => Err(Error::UnknownIndex(copy_string(id))),
        }
    }

    /// Looks `id` up in the cache first, then in the catalog, remembering
    /// what the catalog answered. For an authenticated caller an index owned
    /// by another subject answers as an unknown id does.
    pub fn get_index_with_cache(&self, cache: &mut MetadataCache, id: &String, auth: Option<&Auth>) -> (r:
        Option<Index>)
        requires
            self.wf(),
            old(cache).coherent(self@),
        ensures
            final(cache).coherent(self@),
            match r {
                Some(ix) => exists|i: int|
                    0 <= i < self@.len() && can_see(self@[i], id@, auth_view(auth)) && ix@
                        == #[trigger] self@[i],
                None => forall|i: int|
                    0 <= i < self@.len() ==> !can_see(#[trigger] self@[i], id@, auth_view(auth)),
            },
    {
        match cache.lookup(id) {
            Some(hit) => {
                let owned = match auth {
                    Some(a) => hit.authz_id == a.authz_id,
                    None => true,
                };
                if owned {
                    Some(hit)
                } else {
                    proof {
                        let k = choose|k: int| 0 <= k < self@.len() && self@[k] == hit@ && self@[k].deleted_at is None;
                        assert forall|j: int| 0 <= j < self@.len() implies !can_see(
                            #[trigger] self@[j],
                            id@,
                            auth_view(auth),
                        ) by {
                            if j != k {
                                assert(self@[j].id != self@[k].id);
                            }
                        }
                    }
                    None
                }
            },
            None => {
                let found = self.get_index(id, None);
                match found {
                    Some(ix) => {
                        let owned = match auth {
                            Some(a) => ix.authz_id == a.authz_id,
                            None => true,
                        };
                        let ghost k = choose|k: int|
                            0 <= k < self@.len() && can_see(self@[k], id@, None) && ix@ == #[trigger] self@[k];
                        cache.remember(ix.duplicate(), Ghost(self@));
                        if owned {
                            Some(ix)
                        } else {
                            assert forall|j: int| 0 <= j < self@.len() implies !can_see(
                                #[trigger] self@[j],
                                id@,
                                auth_view(auth),
                            ) by {
                                if j != k {
                                    assert(self@[j].id != self@[k].id);
                                }
                            }
                            None
                        }
                    },
                    None => {
                        assert forall|j: int| 0 <= j < self@.len() implies !can_see(
                            #[trigger] self@[j],
                            id@,
                            auth_view(auth),
                        ) by {
                            assert(!can_see(self@[j], id@, None));
                        }
                        None
                    },
                }
            },
        }
    }

    /// Soft-deletes an index as `delete_index` does and drops it from the
    /// cache.
    pub fn delete_index_with_cache(
        &mut self,
        cache: &mut MetadataCache,
        id: &String,
        auth: Option<&Auth>,
        now: u64,
    ) -> (r: Result<(), Error>)
        requires
            old(self).wf(),
            old(cache).coherent(old(self)@),
        ensures
            final(self).wf(),
            final(cache).coherent(final(self)@),
            final(self)@.len() == old(self)@.len(),
            (forall|i: int| 0 <= i < old(self)@.len() ==> !can_see(#[trigger] old(self)@[i], id@, auth_view(auth)))
                ==> (r matches Err(Error::UnknownIndex(u)) && u@ == id@ && final(self)@ == old(self)@),
            forall|i: int|
                0 <= i < old(self)@.len() && can_see(#[trigger] old(self)@[i], id@, auth_view(auth))
                    ==> r is Ok && final(self)@ == old(self)@.update(
                    i,
                    IndexView { deleted_at: Some(now), ..old(self)@[i] },
                ),
    {
        let ghost before = self@;
        let r = self.delete_index(id, auth, now);
        cache.forget(id, Ghost(before), Ghost(self@));
        r
    }
}

/// Whether `ix` is a row of `rows` that is not deleted.
pub open spec fn live_row(rows: Seq<IndexView>, ix: IndexView) -> bool {
    exists|k: int| 0 <= k < rows.len() && rows[k] == ix && rows[k].deleted_at is None
}

/// Indexes remembered by public id, in front of the catalog.
pub struct MetadataCache {
    entries: Vec<Index>,
}

impl MetadataCache {
    /// Every remembered index is a live row of the catalog `rows`, as it
    /// stands there.
    pub closed spec fn coherent(&self, rows: Seq<IndexView>) -> bool {
        forall|c: int| 0 <= c < self.entries@.len() ==> live_row(rows, #[trigger] self.entries@[c]@)
    }

    /// An empty cache.
    pub fn new() -> (r: MetadataCache)
        ensures
            forall|rows: Seq<IndexView>| r.coherent(rows),
    {
        MetadataCache { entries: Vec::new() }
    }

    /// The remembered index with public id `id`.
    fn lookup(&self, id: &String) -> (r: Option<Index>)
        ensures
            forall|rows: Seq<IndexView>|
                self.coherent(rows) && rows_wf(rows) ==> match r {
                    Some(ix) => ix.id@ == id@ && exists|k: int|
                        0 <= k < rows.len() && rows[k] == ix@ && rows[k].deleted_at is None,
                    None => true,
                },
    {
        let mut i: usize = 0;
        while i < self.entries.len()
            invariant
                0 <= i <= self.entries@.len(),
            decreases self.entries.len() - i,
        {
            if self.entries[i].id == *id {
                let ix = self.entries[i].duplicate();
                assert forall|rows: Seq<IndexView>| self.coherent(rows) && rows_wf(rows) implies exists|k: int|
                    0 <= k < rows.len() && rows[k] == ix@ && rows[k].deleted_at is None by {
                    assert(self.entries@[i as int]@ == ix@);
                }
                return Some(ix);
            }
            i = i + 1;
        }
        None
    }

    /// Remembers a live row of the catalog.
    fn remember(&mut self, ix: Index, rows: Ghost<Seq<IndexView>>)
        requires
            old(self).coherent(rows@),
            exists|k: int| 0 <= k < rows@.len() && rows@[k] == ix@ && rows@[k].deleted_at is None,
        ensures
            final(self).coherent(rows@),
    {
        let ghost before = self.entries@;
        self.entries.push(ix);
        assert forall|c: int| 0 <= c < self.entries@.len() implies live_row(
            rows@,
            #[trigger] self.entries@[c]@,
        ) by {
            if c < before.len() {
                assert(self.entries@[c] == before[c]);
            }
        }
    }

    /// Drops every remembered index with public id `id` after the catalog
    /// changed from `before` to `after` on that id's row alone.
    fn forget(&mut self, id: &String, before: Ghost<Seq<IndexView>>, after: Ghost<Seq<IndexView>>)
        requires
            old(self).coherent(before@),
            before@.len() == after@.len(),
            forall|k: int| 0 <= k < before@.len() && (#[trigger] before@[k]).id != id@ ==> after@[k] == before@[k],
        ensures
            final(self).coherent(after@),
    {
        let mut kept: Vec<Index> = Vec::new();
        let mut i: usize = 0;
        while i < self.entries.len()
            invariant
                0 <= i <= self.entries@.len(),
                self.coherent(before@),
                before@.len() == after@.len(),
                forall|k: int| 0 <= k < before@.len() && (#[trigger] before@[k]).id != id@ ==> after@[k] == before@[k],
                forall|c: int| 0 <= c < kept@.len() ==> live_row(after@, #[trigger] kept@[c]@),
            decreases self.entries.len() - i,
        {
            if !(self.entries[i].id == *id) {
                let ghost c0 = i as int;
                assert(live_row(before@, self.entries@[c0]@));
                let ghost k = choose|k: int|
                    0 <= k < before@.len() && before@[k] == self.entries@[c0]@
                        && before@[k].deleted_at is None;
                assert(after@[k] == before@[k]);
                let ghost old_kept = kept@;
                kept.push(self.entries[i].duplicate());
                assert forall|c: int| 0 <= c < kept@.len() implies live_row(
                    after@,
                    #[trigger] kept@[c]@,
                ) by {
                    if c < old_kept.len() {
                        assert(kept@[c] == old_kept[c]);
                    } else {
                        assert(after@[k] == kept@[c]@);
                    }
                }
            }
            i = i + 1;
        }
        let ghost kv = kept@;
        self.entries = kept;
        assert forall|c: int| 0 <= c < self.entries@.len() implies live_row(
            after@,
            #[trigger] self.entries@[c]@,
        ) by {
            assert(self.entries@[c] == kv[c]);
        }
    }
}

/// Deletion hides an index: once `delete_index` marked row `i`, no lookup
/// of its id answers with it and no listing shows it, while the row itself
/// stays in the catalog.
pub proof fn lemma_deleted_invisible(
    rows: Seq<IndexView>,
    i: int,
    now: u64,
    auth: Option<Seq<char>>,
    project: Option<Seq<char>>,
)
    requires
        rows_wf(rows),
        0 <= i < rows.len(),
    ensures
        ({
            let after = rows.update(i, IndexView { deleted_at: Some(now), ..rows[i] });
            &&& forall|j: int| 0 <= j < after.len() ==> !can_see(#[trigger] after[j], rows[i].id, auth)
            &&& !listing(after, project).contains(after[i])
            &&& after.len() == rows.len()
            &&& after[i] == IndexView { deleted_at: Some(now), ..rows[i] }
        }),
{
    let after = rows.update(i, IndexView { deleted_at: Some(now), ..rows[i] });
    assert forall|j: int| 0 <= j < after.len() implies !can_see(#[trigger] after[j], rows[i].id, auth) by {
        if j != i {
            assert(after[j] == rows[j]);
        }
    }
    lemma_listing_shown(after, project);
}

/// Every index of a listing passes its filter and is a row of the catalog.
pub proof fn lemma_listing_shown(rows: Seq<IndexView>, project: Option<Seq<char>>)
    ensures
        forall|k: int|
            0 <= k < listing(rows, project).len() ==> listed_in(
                #[trigger] listing(rows, project)[k],
                project,
            ) && rows.contains(listing(rows, project)[k]),
    decreases rows.len(),
{
    if rows.len() > 0 {
        lemma_listing_shown(rows.drop_first(), project);
        let rest = listing(rows.drop_first(), project);
        assert forall|k: int| 0 <= k < listing(rows, project).len() implies listed_in(
            #[trigger] listing(rows, project)[k],
            project,
        ) && rows.contains(listing(rows, project)[k]) by {
            if k < rest.len() {
                let x = rest[k];
                assert(rows.drop_first().contains(x));
                let w = choose|w: int| 0 <= w < rows.drop_first().len() && rows.drop_first()[w] == x;
                assert(rows[w + 1] == x);
            } else {
                assert(rows[0] == listing(rows, project)[k]);
            }
        }
    }
}

/// Tenant isolation: when every row with public id `id` belongs to another
/// subject than `sub`, a lookup by `sub` finds nothing, exactly as a lookup
/// of an id that no row holds.
pub proof fn lemma_tenant_isolation(rows: Seq<IndexView>, id: Seq<char>, sub: Seq<char>, unknown: Seq<char>)
    requires
        forall|i: int| 0 <= i < rows.len() && (#[trigger] rows[i]).id == id ==> rows[i].authz_id != sub,
        forall|i: int| 0 <= i < rows.len() ==> (#[trigger] rows[i]).id != unknown,
    ensures
        forall|i: int| 0 <= i < rows.len() ==> !can_see(#[trigger] rows[i], id, Some(sub)),
        forall|i: int| 0 <= i < rows.len() ==> !can_see(#[trigger] rows[i], unknown, Some(sub)),
{
}

/// Listings are ordered from the last created index to the first.
pub proof fn lemma_listing_newest_first(rows: Seq<IndexView>, project: Option<Seq<char>>)
    requires
        rows_wf(rows),
    ensures
        forall|a: int, b: int|
            0 <= a < b < listing(rows, project).len() ==> (#[trigger] listing(rows, project)[a]).created_at
                >= (#[trigger] listing(rows, project)[b]).created_at,
    decreases rows.len(),
{
    if rows.len() > 0 {
        let tail = rows.drop_first();
        assert(rows_wf(tail)) by {
            assert forall|i: int, j: int| 0 <= i < j < tail.len() implies (#[trigger] tail[i]).id != (
            #[trigger] tail[j]).id && tail[i].created_at <= tail[j].created_at by {
                assert(tail[i] == rows[i + 1] && tail[j] == rows[j + 1]);
            }
        }
        lemma_listing_newest_first(tail, project);
        lemma_listing_shown(tail, project);
        let rest = listing(tail, project);
        assert forall|k: int| 0 <= k < rest.len() implies rest[k].created_at >= rows[0].created_at by {
            assert(tail.contains(rest[k]));
            let w = choose|w: int| 0 <= w < tail.len() && tail[w] == rest[k];
            assert(rows[w + 1] == rest[k]);
        }
    }
}

} // verus!
