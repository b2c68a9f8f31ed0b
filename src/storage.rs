//! The storage engine of the Entries and Chains tables: fetch, the
//! compare-and-swap upsert of entries, chain inserts and size accounting,
//! over one ordered key-value map shared by every index.
use vstd::prelude::*;

use crate::counter::{counter_value, decode_counter, encode_counter, u64_be};
use crate::index::{index_key, Index, IndexView};
use crate::keys::{key, key_spec, lemma_keys_of_one_index, size_key, size_key_spec, Table};
use crate::kv::{copy_bytes, KvStore};

verus! {

/// One row of an upsert request: replace the entry under `uid` by
/// `new_value` if its stored value is `old_value` (`None`: if it is absent).
#[derive(Debug)]
pub struct UpsertRow {
    pub uid: Vec<u8>,
    pub old_value: Option<Vec<u8>>,
    pub new_value: Vec<u8>,
}

/// A row as plain sequences: uid, expected old value, new value.
pub type RowModel = (Seq<u8>, Option<Seq<u8>>, Seq<u8>);

/// The contents of an optional byte vector.
pub open spec fn opt_bytes(o: Option<Vec<u8>>) -> Option<Seq<u8>> {
    match o {
        Some(v) => Some(v@),
        None => None,
    }
}

/// The rows of a request as plain sequences.
pub open spec fn rows_model(rows: Seq<UpsertRow>) -> Seq<RowModel> {
    rows.map_values(|r: UpsertRow| (r.uid@, opt_bytes(r.old_value), r.new_value@))
}

/// Pairs of byte vectors as plain sequences.
pub open spec fn pairs_model(pairs: Seq<(Vec<u8>, Vec<u8>)>) -> Seq<(Seq<u8>, Seq<u8>)> {
    pairs.map_values(|p: (Vec<u8>, Vec<u8>)| (p.0@, p.1@))
}

/// What a map holds under `k`.
pub open spec fn lookup(m: Map<Seq<u8>, Seq<u8>>, k: Seq<u8>) -> Option<Seq<u8>> {
    if m.contains_key(k) {
        Some(m[k])
    } else {
        None
    }
}

/// The byte counter of index `id`.
pub open spec fn stored_size(m: Map<Seq<u8>, Seq<u8>>, id: Seq<u8>) -> u64 {
    counter_value(lookup(m, size_key_spec(id)))
}

/// `a + n`, held at `u64::MAX`.
pub open spec fn sat_add(a: u64, n: nat) -> u64 {
    if a + n > u64::MAX {
        u64::MAX
    } else {
        (a + n) as u64
    }
}

/// The map with the counter of index `id` grown by `n`.
pub open spec fn add_size(m: Map<Seq<u8>, Seq<u8>>, id: Seq<u8>, n: nat) -> Map<Seq<u8>, Seq<u8>> {
    m.insert(size_key_spec(id), u64_be(sat_add(stored_size(m, id), n)))
}

/// Whether a row goes through: its expected value is what is stored (both
/// absent, or both present and equal).
pub open spec fn cas_accepts(stored: Option<Seq<u8>>, old: Option<Seq<u8>>) -> bool {
    stored == old
}

/// The value reported for a rejected row: what is stored, or empty when
/// nothing is.
pub open spec fn rejected_value(stored: Option<Seq<u8>>) -> Seq<u8> {
    match stored {
        Some(v) => v,
        None => Seq::empty(),
    }
}

/// One compare-and-swap row: the new map, and the value reported when the
/// row is rejected.
pub open spec fn cas_step(m: Map<Seq<u8>, Seq<u8>>, id: Seq<u8>, row: RowModel) -> (
    Map<Seq<u8>, Seq<u8>>,
    Option<Seq<u8>>,
) {
    let k = key_spec(id, Table::Entries, row.0);
    let s = lookup(m, k);
    if cas_accepts(s, row.1) {
        let m1 = if s is None {
            add_size(m, id, row.2.len())
        } else {
            m
        };
        (m1.insert(k, row.2), None)
    } else {
        (m, Some(rejected_value(s)))
    }
}

/// The rows of an upsert applied in order: the final map and the rejected
/// `(uid, stored value)` pairs.
pub open spec fn upsert_model(m: Map<Seq<u8>, Seq<u8>>, id: Seq<u8>, rows: Seq<RowModel>) -> (
    Map<Seq<u8>, Seq<u8>>,
    Seq<(Seq<u8>, Seq<u8>)>,
)
    decreases rows.len(),
{
    if rows.len() == 0 {
        (m, Seq::empty())
    } else {
        let prev = upsert_model(m, id, rows.drop_last());
        let row = rows.last();
        let step = cas_step(prev.0, id, row);
        match step.1 {
            Some(v) => (step.0, prev.1.push((row.0, v))),
            None => (step.0, prev.1),
        }
    }
}

/// Sum of the lengths of the inserted (previously absent) rows' new values.
pub open spec fn inserted_bytes(m: Map<Seq<u8>, Seq<u8>>, id: Seq<u8>, rows: Seq<RowModel>) -> nat
    decreases rows.len(),
{
    if rows.len() == 0 {
        0
    } else {
        let prev = upsert_model(m, id, rows.drop_last());
        let row = rows.last();
        let s = lookup(prev.0, key_spec(id, Table::Entries, row.0));
        inserted_bytes(m, id, rows.drop_last()) + if s is None && row.1 is None {
            row.2.len()
        } else {
            0
        }
    }
}

/// The present rows of `table` under `uids`, in the order of `uids`.
pub open spec fn fetch_model(
    m: Map<Seq<u8>, Seq<u8>>,
    id: Seq<u8>,
    table: Table,
    uids: Seq<Seq<u8>>,
) -> Seq<(Seq<u8>, Seq<u8>)>
    decreases uids.len(),
{
    if uids.len() == 0 {
        Seq::empty()
    } else {
        let prev = fetch_model(m, id, table, uids.drop_last());
        let k = key_spec(id, table, uids.last());
        if m.contains_key(k) {
            prev.push((uids.last(), m[k]))
        } else {
            prev
        }
    }
}

/// Chain rows written in order, last writer winning.
pub open spec fn chains_put(m: Map<Seq<u8>, Seq<u8>>, id: Seq<u8>, pairs: Seq<(Seq<u8>, Seq<u8>)>) -> Map<
    Seq<u8>,
    Seq<u8>,
>
    decreases pairs.len(),
{
    if pairs.len() == 0 {
        m
    } else {
        chains_put(m, id, pairs.drop_last()).insert(
            key_spec(id, Table::Chains, pairs.last().0),
            pairs.last().1,
        )
    }
}

/// Sum of the lengths of the values.
pub open spec fn total_len(pairs: Seq<(Seq<u8>, Seq<u8>)>) -> nat
    decreases pairs.len(),
{
    if pairs.len() == 0 {
        0
    } else {
        total_len(pairs.drop_last()) + pairs.last().1.len()
    }
}

/// The map after a chain insert: the rows written, then the counter grown
/// by the bytes written.
pub open spec fn insert_chains_model(
    m: Map<Seq<u8>, Seq<u8>>,
    id: Seq<u8>,
    pairs: Seq<(Seq<u8>, Seq<u8>)>,
) -> Map<Seq<u8>, Seq<u8>> {
    chains_put(m, id, pairs).insert(
        size_key_spec(id),
        u64_be(sat_add(stored_size(m, id), total_len(pairs))),
    )
}

/// Reads of an entry allowed after its row lock timed out.
pub const LOCK_TIMEOUT_READS: u32 = 3;

/// What to do after a read that follows a row-lock timeout.
#[derive(Debug)]
pub enum TimeoutStep {
    /// A concurrent writer holds the entry: reject the row with this value.
    Reject(Vec<u8>),
    /// Nothing readable yet: read again.
    ReadAgain,
    /// Every allowed read came back empty: fail with the timeout.
    GiveUp,
}

/// Decides after the `reads_done`-th read (counting from 1) of an entry
/// whose row lock timed out: a value read rejects the row with it; an empty
/// read is retried until `LOCK_TIMEOUT_READS` reads were made.
pub fn after_timeout_read(reads_done: u32, value: Option<Vec<u8>>) -> (r: TimeoutStep)
    requires
        1 <= reads_done <= LOCK_TIMEOUT_READS,
    ensures
        value matches Some(v) ==> (r matches TimeoutStep::Reject(w) && w@ == v@),
        value is None && reads_done < LOCK_TIMEOUT_READS ==> r is ReadAgain,
        value is None && reads_done == LOCK_TIMEOUT_READS ==> r is GiveUp,
{
    match value {
        Some(v) => TimeoutStep::Reject(v),
        None => if reads_done < LOCK_TIMEOUT_READS {
            TimeoutStep::ReadAgain
        } else {
            TimeoutStep::GiveUp
        },
    }
}

/// An index with its size filled in.
pub open spec fn with_size(v: IndexView, n: u64) -> IndexView {
    IndexView { size: Some(n), ..v }
}

/// The Entries and Chains tables of every index, with their byte counters.
pub struct IndexesDatabase {
    kv: KvStore,
}

impl View for IndexesDatabase {
    type V = Map<Seq<u8>, Seq<u8>>;

    closed spec fn view(&self) -> Map<Seq<u8>, Seq<u8>> {
        self.kv@
    }
}

impl IndexesDatabase {
    pub closed spec fn wf(&self) -> bool {
        self.kv.wf()
    }

    /// An empty store.
    pub fn new() -> (r: IndexesDatabase)
        ensures
            r.wf(),
            r@ == Map::<Seq<u8>, Seq<u8>>::empty(),
    {
        IndexesDatabase { kv: KvStore::new() }
    }

    /// The byte counter of an index.
    pub fn size(&self, index: &Index) -> (r: u64)
        requires
            self.wf(),
        ensures
            r == stored_size(self@, index_key(index)),
    {
        self.read_size(index.id_bytes())
    }

    fn read_size(&self, id: &[u8]) -> (r: u64)
        requires
            self.wf(),
        ensures
            r == stored_size(self@, id@),
    {
        let k = size_key(id);
        match self.kv.get(k.as_slice()) {
            Some(v) => match decode_counter(v.as_slice()) {
                Some(n) => n,
                None => 0,
            },
            None => 0,
        }
    }

    /// Fills in the size of the index from its byte counter.
    pub fn set_size(&self, index: &mut Index)
        requires
            self.wf(),
        ensures
            final(index).size == Some(stored_size(self@, index_key(old(index)))),
            final(index).id == old(index).id,
            final(index).name == old(index).name,
            final(index).authz_id == old(index).authz_id,
            final(index).project_uuid == old(index).project_uuid,
            final(index).fetch_entries_key == old(index).fetch_entries_key,
            final(index).fetch_chains_key == old(index).fetch_chains_key,
            final(index).upsert_entries_key == old(index).upsert_entries_key,
            final(index).insert_chains_key == old(index).insert_chains_key,
            final(index).created_at == old(index).created_at,
            final(index).deleted_at == old(index).deleted_at,
    {
        let n = self.size(index);
        index.size = Some(n);
    }

    /// Fills in the size of every index of the list from its byte counter.
    pub fn set_sizes(&self, indexes: &mut Vec<Index>)
        requires
            self.wf(),
        ensures
            final(indexes)@.len() == old(indexes)@.len(),
            forall|i: int|
                0 <= i < old(indexes)@.len() ==> (#[trigger] final(indexes)@[i])@ == with_size(
                    old(indexes)@[i]@,
                    stored_size(self@, index_key(&old(indexes)@[i])),
                ) && final(indexes)@[i].id == old(indexes)@[i].id,
    {
        let ghost before = indexes@;
        let mut i: usize = 0;
        while i < indexes.len()
            invariant
                self.wf(),
                0 <= i <= indexes@.len(),
                indexes@.len() == before.len(),
                forall|j: int|
                    i <= j < before.len() ==> #[trigger] indexes@[j] == before[j],
                forall|j: int|
                    0 <= j < i ==> (#[trigger] indexes@[j])@ == with_size(
                        before[j]@,
                        stored_size(self@, index_key(&before[j])),
                    ) && indexes@[j].id == before[j].id,
            decreases indexes.len() - i,
        {
            let mut ix = indexes[i].duplicate();
            let n = self.size(&ix);
            ix.size = Some(n);
            indexes.set(i, ix);
            i = i + 1;
        }
    }

    /// The stored rows of `table` under the given uids: only present uids
    /// come back, each with its stored value.
    pub fn fetch(&self, index: &Index, table: Table, uids: &Vec<Vec<u8>>) -> (r: Vec<
        (Vec<u8>, Vec<u8>),
    >)
        requires
            self.wf(),
        ensures
            forall|i: int|
                0 <= i < r@.len() ==> {
                    let k = key_spec(index_key(index), table, #[trigger] r@[i].0@);
                    &&& exists|j: int| 0 <= j < uids@.len() && uids@[j]@ == r@[i].0@
                    &&& self@.contains_key(k)
                    &&& r@[i].1@ == self@[k]
                },
            forall|j: int|
                0 <= j < uids@.len() && #[trigger] self@.contains_key(
                    key_spec(index_key(index), table, uids@[j]@),
                ) ==> exists|i: int| 0 <= i < r@.len() && r@[i].0@ == uids@[j]@,
            pairs_model(r@) == fetch_model(self@, index_key(index), table, crate::codec::uids_model(uids@)),
    {
        let ghost us = crate::codec::uids_model(uids@);
        let id = index.id_bytes();
        let mut out: Vec<(Vec<u8>, Vec<u8>)> = Vec::new();
        let mut j: usize = 0;
        while j < uids.len()
            invariant
                self.wf(),
                0 <= j <= uids@.len(),
                id@ == index_key(index),
                forall|i: int|
                    0 <= i < out@.len() ==> {
                        let k = key_spec(index_key(index), table, #[trigger] out@[i].0@);
                        &&& exists|jj: int| 0 <= jj < j && uids@[jj]@ == out@[i].0@
                        &&& self@.contains_key(k)
                        &&& out@[i].1@ == self@[k]
                    },
                forall|jj: int|
                    0 <= jj < j && #[trigger] self@.contains_key(
                        key_spec(index_key(index), table, uids@[jj]@),
                    ) ==> exists|i: int| 0 <= i < out@.len() && out@[i].0@ == uids@[jj]@,
                us == crate::codec::uids_model(uids@),
                pairs_model(out@) == fetch_model(self@, index_key(index), table, us.subrange(0, j as int)),
            decreases uids.len() - j,
        {
            assert(us.subrange(0, j as int + 1).drop_last() =~= us.subrange(0, j as int));
            let uid = &uids[j];
            let k = key(id, table, uid.as_slice());
            let ghost out0 = out@;
            match self.kv.get(k.as_slice()) {
                Some(v) => {
                    let u = copy_bytes(uid.as_slice());
                    out.push((u, v));
                    let ghost n = out@.len() - 1;
                    assert(out@[n].0@ == uids@[j as int]@);
                    assert(pairs_model(out@) =~= pairs_model(out0).push((us[j as int], self@[k@])));
                    assert forall|jj: int|
                        0 <= jj < j + 1 && #[trigger] self@.contains_key(
                            key_spec(index_key(index), table, uids@[jj]@),
                        ) implies exists|i: int| 0 <= i < out@.len() && out@[i].0@ == uids@[jj]@ by {
                        if jj < j {
                            let i = choose|i: int| 0 <= i < out0.len() && out0[i].0@ == uids@[jj]@;
                            assert(out@[i] == out0[i]);
                        }
                    }
                },
                None => {},
            }
            j = j + 1;
        }
        assert(us.subrange(0, j as int) =~= us);
        assert forall|i: int| 0 <= i < out@.len() implies exists|jj: int|
            0 <= jj < uids@.len() && uids@[jj]@ == #[trigger] out@[i].0@ by {
            let jj = choose|jj: int| 0 <= jj < j && uids@[jj]@ == out@[i].0@;
        }
        out
    }

    /// Applies the compare-and-swap rows in order and returns the rejected
    /// `(uid, stored value)` pairs. An inserted row grows the index's byte
    /// counter by the length of its new value.
    pub fn upsert_entries(&mut self, index: &Index, data: &Vec<UpsertRow>) -> (r: Vec<
        (Vec<u8>, Vec<u8>),
    >)
        requires
            old(self).wf(),
        ensures
            final(self).wf(),
            final(self)@ == upsert_model(old(self)@, index_key(index), rows_model(data@)).0,
            pairs_model(r@) == upsert_model(old(self)@, index_key(index), rows_model(data@)).1,
    {
        let id = index.id_bytes();
        let ghost rows = rows_model(data@);
        let ghost m0 = self@;
        let mut rejected: Vec<(Vec<u8>, Vec<u8>)> = Vec::new();
        let mut i: usize = 0;
        while i < data.len()
            invariant
                self.wf(),
                0 <= i <= data@.len(),
                id@ == index_key(index),
                rows == rows_model(data@),
                (self@, pairs_model(rejected@)) == upsert_model(
                    m0,
                    id@,
                    rows.subrange(0, i as int),
                ),
            decreases data.len() - i,
        {
            let ghost prev = rows.subrange(0, i as int);
            assert(rows.subrange(0, i as int + 1).drop_last() =~= prev);
            let row = &data[i];
            let k = key(id, Table::Entries, row.uid.as_slice());
            let existing = self.kv.get(k.as_slice());
            let matches = match (&existing, &row.old_value) {
                (None, None) => true,
                (Some(e), Some(o)) => crate::kv::bytes_eq(e.as_slice(), o.as_slice()),
                _ => false,
            };
            proof {
                assert(opt_bytes(existing) == lookup(self@, k@));
            }
            if matches {
                if existing.is_none() {
                    let current = self.read_size(id);
                    let len = row.new_value.len() as u64;
                    let grown = current.saturating_add(len);
                    let sk = size_key(id);
                    self.kv.put(sk.as_slice(), encode_counter(grown));
                }
                self.kv.put(k.as_slice(), copy_bytes(row.new_value.as_slice()));
            } else {
                let stored = match existing {
                    Some(e) => e,
                    None => Vec::new(),
                };
                rejected.push((copy_bytes(row.uid.as_slice()), stored));
                assert(pairs_model(rejected@) =~= upsert_model(
                    m0,
                    id@,
                    rows.subrange(0, i as int),
                ).1.push((rows[i as int].0, rejected_value(lookup(self@, k@)))));
            }
            i = i + 1;
            assert(self@ =~= upsert_model(m0, id@, rows.subrange(0, i as int)).0);
        }
        assert(rows.subrange(0, i as int) =~= rows);
        rejected
    }

    /// Writes every chain row (last writer wins) and grows the index's byte
    /// counter by the bytes written.
    pub fn insert_chains(&mut self, index: &Index, data: &Vec<(Vec<u8>, Vec<u8>)>)
        requires
            old(self).wf(),
        ensures
            final(self).wf(),
            final(self)@ == insert_chains_model(old(self)@, index_key(index), pairs_model(data@)),
    {
        let id = index.id_bytes();
        let ghost pairs = pairs_model(data@);
        let ghost m0 = self@;
        let start = self.read_size(id);
        let mut size = start;
        let mut i: usize = 0;
        while i < data.len()
            invariant
                self.wf(),
                0 <= i <= data@.len(),
                id@ == index_key(index),
                pairs == pairs_model(data@),
                start == stored_size(m0, id@),
                self@ == chains_put(m0, id@, pairs.subrange(0, i as int)),
                size == sat_add(start, total_len(pairs.subrange(0, i as int))),
            decreases data.len() - i,
        {
            assert(pairs.subrange(0, i as int + 1).drop_last() =~= pairs.subrange(0, i as int));
            let (uid, value) = (&data[i].0, &data[i].1);
            size = size.saturating_add(value.len() as u64);
            let k = key(id, Table::Chains, uid.as_slice());
            self.kv.put(k.as_slice(), copy_bytes(value.as_slice()));
            i = i + 1;
        }
        assert(pairs.subrange(0, i as int) =~= pairs);
        let sk = size_key(id);
        self.kv.put(sk.as_slice(), encode_counter(size));
    }
}

/// Rows whose uid differs from `u` leave the entry under `u` as it was and
/// report no rejection for `u`.
pub proof fn lemma_upsert_untouched(
    m: Map<Seq<u8>, Seq<u8>>,
    id: Seq<u8>,
    rows: Seq<RowModel>,
    u: Seq<u8>,
)
    requires
        forall|i: int| 0 <= i < rows.len() ==> (#[trigger] rows[i]).0 != u,
    ensures
        lookup(upsert_model(m, id, rows).0, key_spec(id, Table::Entries, u)) == lookup(
            m,
            key_spec(id, Table::Entries, u),
        ),
        forall|i: int|
            0 <= i < upsert_model(m, id, rows).1.len() ==> (#[trigger] upsert_model(
                m,
                id,
                rows,
            ).1[i]).0 != u,
    decreases rows.len(),
{
    if rows.len() > 0 {
        let init = rows.drop_last();
        assert forall|i: int| 0 <= i < init.len() implies (#[trigger] init[i]).0 != u by {
            assert(init[i] == rows[i]);
        }
        lemma_upsert_untouched(m, id, init, u);
        let row = rows.last();
        assert(row == rows[rows.len() - 1]);
        lemma_keys_of_one_index(id, Table::Entries, u, Table::Entries, row.0);
    }
}

/// Compare-and-swap correctness of an upsert whose rows have distinct uids:
/// row `j` goes through exactly when its expected value is the value stored
/// before the request (both absent, or both present and equal). Then the
/// entry ends holding the new value and the row is not reported; otherwise
/// the entry keeps its value and the row is reported with that value
/// (empty when absent).
pub proof fn lemma_cas_rows(m: Map<Seq<u8>, Seq<u8>>, id: Seq<u8>, rows: Seq<RowModel>, j: int)
    requires
        forall|a: int, b: int| 0 <= a < b < rows.len() ==> (#[trigger] rows[a]).0 != (#[trigger] rows[b]).0,
        0 <= j < rows.len(),
    ensures
        ({
            let k = key_spec(id, Table::Entries, rows[j].0);
            let s = lookup(m, k);
            let accepted = cas_accepts(s, rows[j].1);
            let res = upsert_model(m, id, rows);
            &&& lookup(res.0, k) == if accepted {
                Some(rows[j].2)
            } else {
                s
            }
            &&& lookup(res.0, k) == Some(rows[j].2) || lookup(res.0, k) == s
            &&& (exists|i: int| 0 <= i < res.1.len() && (#[trigger] res.1[i]).0 == rows[j].0)
                == !accepted
            &&& forall|i: int|
                0 <= i < res.1.len() && (#[trigger] res.1[i]).0 == rows[j].0 ==> res.1[i].1
                    == rejected_value(s)
        }),
    decreases rows.len(),
{
    let n = rows.len() - 1;
    let init = rows.drop_last();
    let row = rows.last();
    assert(row == rows[n]);
    let u = rows[j].0;
    let k = key_spec(id, Table::Entries, u);
    let s = lookup(m, k);
    let prev = upsert_model(m, id, init);
    let res = upsert_model(m, id, rows);
    lemma_keys_of_one_index(id, Table::Entries, u, Table::Entries, row.0);
    if j < n {
        assert forall|a: int, b: int| 0 <= a < b < init.len() implies (#[trigger] init[a]).0 != (
        #[trigger] init[b]).0 by {
            assert(init[a] == rows[a] && init[b] == rows[b]);
        }
        assert(init[j] == rows[j]);
        lemma_cas_rows(m, id, init, j);
        assert(row.0 != u);
        assert(lookup(res.0, k) == lookup(prev.0, k));
        if exists|i: int| 0 <= i < prev.1.len() && (#[trigger] prev.1[i]).0 == u {
            let i = choose|i: int| 0 <= i < prev.1.len() && (#[trigger] prev.1[i]).0 == u;
            assert(res.1[i] == prev.1[i]);
        }
        if exists|i: int| 0 <= i < res.1.len() && (#[trigger] res.1[i]).0 == u {
            let i = choose|i: int| 0 <= i < res.1.len() && (#[trigger] res.1[i]).0 == u;
            assert(i < prev.1.len());
            assert(res.1[i] == prev.1[i]);
        }
        assert forall|i: int|
            0 <= i < res.1.len() && (#[trigger] res.1[i]).0 == u implies res.1[i].1
                == rejected_value(s) by {
            assert(i < prev.1.len());
            assert(res.1[i] == prev.1[i]);
        }
    } else {
        assert forall|i: int| 0 <= i < init.len() implies (#[trigger] init[i]).0 != u by {
            assert(init[i] == rows[i]);
        }
        lemma_upsert_untouched(m, id, init, u);
        assert(lookup(prev.0, k) == s);
        let accepted = cas_accepts(s, row.1);
        if accepted {
            assert(res.1 == prev.1);
            assert(lookup(res.0, k) == Some(row.2));
        } else {
            assert(res.1 == prev.1.push((u, rejected_value(s))));
            assert(res.1[prev.1.len() as int].0 == u);
            assert forall|i: int|
                0 <= i < res.1.len() && (#[trigger] res.1[i]).0 == u implies res.1[i].1
                    == rejected_value(s) by {
                if i < prev.1.len() {
                    assert(res.1[i] == prev.1[i]);
                }
            }
        }
    }
}

/// `sat_add` applied twice is `sat_add` of the sum.
proof fn lemma_sat_add_twice(a: u64, b: nat, c: nat)
    ensures
        sat_add(sat_add(a, b), c) == sat_add(a, b + c),
{
}

/// Size accounting of an upsert: the index's counter grows by exactly the
/// bytes of the rows that inserted an absent entry (held at `u64::MAX`),
/// so it never shrinks.
pub proof fn lemma_upsert_size(m: Map<Seq<u8>, Seq<u8>>, id: Seq<u8>, rows: Seq<RowModel>)
    ensures
        stored_size(upsert_model(m, id, rows).0, id) == sat_add(
            stored_size(m, id),
            inserted_bytes(m, id, rows),
        ),
        stored_size(upsert_model(m, id, rows).0, id) >= stored_size(m, id),
    decreases rows.len(),
{
    if rows.len() > 0 {
        let init = rows.drop_last();
        let row = rows.last();
        lemma_upsert_size(m, id, init);
        let prev = upsert_model(m, id, init);
        let k = key_spec(id, Table::Entries, row.0);
        lemma_keys_of_one_index(id, Table::Entries, row.0, Table::Entries, row.0);
        let s = lookup(prev.0, k);
        if cas_accepts(s, row.1) && s is None {
            let grown = sat_add(stored_size(prev.0, id), row.2.len());
            crate::counter::lemma_counter_round_trip(grown);
            assert(lookup(add_size(prev.0, id, row.2.len()).insert(k, row.2), size_key_spec(id))
                == Some(u64_be(grown)));
            lemma_sat_add_twice(stored_size(m, id), inserted_bytes(m, id, init), row.2.len());
        } else {
            assert(lookup(upsert_model(m, id, rows).0, size_key_spec(id)) == lookup(
                prev.0,
                size_key_spec(id),
            ));
        }
    }
}

/// Size accounting of a chain insert: the index's counter grows by exactly
/// the bytes written (held at `u64::MAX`), so it never shrinks.
pub proof fn lemma_insert_chains_size(
    m: Map<Seq<u8>, Seq<u8>>,
    id: Seq<u8>,
    pairs: Seq<(Seq<u8>, Seq<u8>)>,
)
    ensures
        stored_size(insert_chains_model(m, id, pairs), id) == sat_add(
            stored_size(m, id),
            total_len(pairs),
        ),
        stored_size(insert_chains_model(m, id, pairs), id) >= stored_size(m, id),
{
    crate::counter::lemma_counter_round_trip(sat_add(stored_size(m, id), total_len(pairs)));
}

/// A write on one index that moves its byte counter: an upsert request or
/// a chain insert.
pub ghost enum SizedWrite {
    Upsert(Seq<RowModel>),
    Chains(Seq<(Seq<u8>, Seq<u8>)>),
}

/// The map after one write on index `id`.
pub open spec fn apply_write(m: Map<Seq<u8>, Seq<u8>>, id: Seq<u8>, w: SizedWrite) -> Map<Seq<u8>, Seq<u8>> {
    match w {
        SizedWrite::Upsert(rows) => upsert_model(m, id, rows).0,
        SizedWrite::Chains(pairs) => insert_chains_model(m, id, pairs),
    }
}

/// The bytes one write inserts: new values of rows that were absent, or
/// every chain value.
pub open spec fn write_bytes(m: Map<Seq<u8>, Seq<u8>>, id: Seq<u8>, w: SizedWrite) -> nat {
    match w {
        SizedWrite::Upsert(rows) => inserted_bytes(m, id, rows),
        SizedWrite::Chains(pairs) => total_len(pairs),
    }
}

/// The map after the writes, in order.
pub open spec fn apply_writes(m: Map<Seq<u8>, Seq<u8>>, id: Seq<u8>, ws: Seq<SizedWrite>) -> Map<
    Seq<u8>,
    Seq<u8>,
>
    decreases ws.len(),
{
    if ws.len() == 0 {
        m
    } else {
        apply_write(apply_writes(m, id, ws.drop_last()), id, ws.last())
    }
}

/// The bytes the writes insert, in order.
pub open spec fn writes_bytes(m: Map<Seq<u8>, Seq<u8>>, id: Seq<u8>, ws: Seq<SizedWrite>) -> nat
    decreases ws.len(),
{
    if ws.len() == 0 {
        0
    } else {
        writes_bytes(m, id, ws.drop_last()) + write_bytes(
            apply_writes(m, id, ws.drop_last()),
            id,
            ws.last(),
        )
    }
}

/// Size accounting over any sequence of upserts and chain inserts on one
/// index: the counter ends at its start plus the bytes inserted (held at
/// `u64::MAX`), and it never decreases along the sequence.
pub proof fn lemma_size_accounting(m: Map<Seq<u8>, Seq<u8>>, id: Seq<u8>, ws: Seq<SizedWrite>)
    ensures
        stored_size(apply_writes(m, id, ws), id) == sat_add(stored_size(m, id), writes_bytes(m, id, ws)),
        forall|k: int|
            0 <= k <= ws.len() ==> #[trigger] stored_size(apply_writes(m, id, ws.subrange(0, k)), id)
                <= stored_size(apply_writes(m, id, ws), id),
    decreases ws.len(),
{
    if ws.len() > 0 {
        let init = ws.drop_last();
        lemma_size_accounting(m, id, init);
        let before = apply_writes(m, id, init);
        match ws.last() {
            SizedWrite::Upsert(rows) => {
                lemma_upsert_size(before, id, rows);
            },
            SizedWrite::Chains(pairs) => {
                lemma_insert_chains_size(before, id, pairs);
            },
        }
        lemma_sat_add_twice(stored_size(m, id), writes_bytes(m, id, init), write_bytes(before, id, ws.last()));
        assert forall|k: int|
            0 <= k <= ws.len() implies #[trigger] stored_size(apply_writes(m, id, ws.subrange(0, k)), id)
                <= stored_size(apply_writes(m, id, ws), id) by {
            if k < ws.len() {
                assert(ws.subrange(0, k) =~= init.subrange(0, k));
            } else {
                assert(ws.subrange(0, k) =~= ws);
            }
        }
    } else {
        assert forall|k: int|
            0 <= k <= ws.len() implies #[trigger] stored_size(apply_writes(m, id, ws.subrange(0, k)), id)
                <= stored_size(apply_writes(m, id, ws), id) by {
            assert(ws.subrange(0, k) =~= ws);
        }
    }
}

} // verus!
