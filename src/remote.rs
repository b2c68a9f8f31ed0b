//! The compare-and-swap protocol over a remote store that only offers
//! conditional single-item writes ("put if absent", "update if equal") and
//! batched reads and writes of bounded size. The network calls belong to the
//! caller; these functions decide what to send and what an answer means.
use vstd::prelude::*;

use crate::error::Error;
use crate::keys::{get_uid_attribute_value, item_id_spec};
use crate::kv::copy_bytes;
use crate::storage::{cas_accepts, lookup, rejected_value, opt_bytes, RowModel, UpsertRow};

verus! {

/// Most keys one batched read may carry.
pub const MAX_READ_ELEMENTS: usize = 100;

/// Most items one batched write may carry.
pub const MAX_WRITE_ELEMENTS: usize = 25;

/// The conditional write that carries one upsert row.
#[derive(Debug)]
pub enum ConditionalWrite {
    /// Write `value` under `item_id` only if no item is there.
    PutIfAbsent { item_id: Vec<u8>, value: Vec<u8> },
    /// Replace the value under `item_id` by `new` only if it is `old`.
    UpdateIfEqual { item_id: Vec<u8>, old: Vec<u8>, new: Vec<u8> },
}

/// What the store answered to a conditional write.
#[derive(Debug)]
pub enum WriteOutcome {
    /// The condition held and the item was written.
    Written,
    /// The condition did not hold; nothing was written.
    ConditionFailed,
    /// Any other failure, with the store's message.
    Failed(String),
}

/// A conditional write as plain values: the item id, the expected value
/// (`None`: absent) and the value to write.
pub open spec fn write_view(w: ConditionalWrite) -> (Seq<u8>, Option<Seq<u8>>, Seq<u8>) {
    match w {
        ConditionalWrite::PutIfAbsent { item_id, value } => (item_id@, None, value@),
        ConditionalWrite::UpdateIfEqual { item_id, old, new } => (item_id@, Some(old@), new@),
    }
}

/// How the store treats a conditional write: it writes exactly when what it
/// holds under the id is what the write expects.
pub open spec fn store_applies(m: Map<Seq<u8>, Seq<u8>>, w: (Seq<u8>, Option<Seq<u8>>, Seq<u8>)) -> (
    Map<Seq<u8>, Seq<u8>>,
    bool,
) {
    if lookup(m, w.0) == w.1 {
        (m.insert(w.0, w.2), true)
    } else {
        (m, false)
    }
}

/// The conditional write for one row of an upsert on index `index_id`:
/// "put if absent" when the row expects no value, "update if equal"
/// otherwise.
pub fn plan_upsert_entry(index_id: &[u8], row: &UpsertRow) -> (r: ConditionalWrite)
    ensures
        write_view(r) == (item_id_spec(index_id@, row.uid@), opt_bytes(row.old_value), row.new_value@),
{
    let item_id = get_uid_attribute_value(index_id, row.uid.as_slice());
    match &row.old_value {
        Some(old) => ConditionalWrite::UpdateIfEqual {
            item_id,
            old: copy_bytes(old.as_slice()),
            new: copy_bytes(row.new_value.as_slice()),
        },
        None => ConditionalWrite::PutIfAbsent {
            item_id,
            value: copy_bytes(row.new_value.as_slice()),
        },
    }
}

/// What a conditional write's outcome means for its row: `Ok(false)` when
/// the row went through, `Ok(true)` when the stored value must be read back
/// to report the row as rejected, and the store's failure otherwise.
pub fn after_conditional_write(outcome: WriteOutcome) -> (r: Result<bool, Error>)
    ensures
        outcome is Written ==> r == Ok::<bool, Error>(false),
        outcome is ConditionFailed ==> r == Ok::<bool, Error>(true),
        outcome matches WriteOutcome::Failed(m) ==> (r matches Err(Error::Storage(e)) && e == m),
{
    match outcome {
        WriteOutcome::Written => Ok(false),
        WriteOutcome::ConditionFailed => Ok(true),
        WriteOutcome::Failed(m) => Err(Error::Storage(m)),
    }
}

/// The rejected pair reported for a row whose condition failed, from the
/// value read back (`None`: no item): the stored value, or empty.
pub fn rejected_from_read(uid: &Vec<u8>, stored: Option<Vec<u8>>) -> (r: (Vec<u8>, Vec<u8>))
    ensures
        r.0@ == uid@,
        r.1@ == rejected_value(opt_bytes(stored)),
{
    let value = match stored {
        Some(v) => v,
        None => Vec::new(),
    };
    assert(value@ =~= rejected_value(opt_bytes(stored)));
    (copy_bytes(uid.as_slice()), value)
}

/// The remote protocol realises the compare-and-swap table: the store
/// writes the row's new value exactly when the entry holds the expected
/// value (both absent, or equal), and otherwise keeps it, the row then
/// being reported with the stored value (empty when absent).
pub proof fn lemma_remote_cas(m: Map<Seq<u8>, Seq<u8>>, index_id: Seq<u8>, row: RowModel)
    ensures
        ({
            let id = item_id_spec(index_id, row.0);
            let s = lookup(m, id);
            let (m2, written) = store_applies(m, (id, row.1, row.2));
            &&& written == cas_accepts(s, row.1)
            &&& written ==> lookup(m2, id) == Some(row.2)
            &&& !written ==> m2 == m
            &&& forall|other: Seq<u8>| other != id ==> lookup(m2, other) == lookup(m, other)
        }),
{
}

/// Consecutive batches covering `0..len`: each of `max` items, the last
/// one possibly shorter, none empty.
pub open spec fn is_batching(b: Seq<(usize, usize)>, len: nat, max: nat) -> bool {
    &&& len == 0 ==> b.len() == 0
    &&& len > 0 ==> b.len() > 0 && b[0].0 == 0 && b.last().1 == len
    &&& forall|i: int| 0 <= i < b.len() ==> (#[trigger] b[i]).0 < b[i].1 && b[i].1 - b[i].0 <= max
    &&& forall|i: int| 0 <= i < b.len() - 1 ==> (#[trigger] b[i]).1 == b[i + 1].0 && b[i].1 - b[i].0 == max
}

/// Splits `0..len` into batches of at most `max` items, in order.
pub fn batch_bounds(len: usize, max: usize) -> (r: Vec<(usize, usize)>)
    requires
        max > 0,
    ensures
        is_batching(r@, len as nat, max as nat),
{
    let mut out: Vec<(usize, usize)> = Vec::new();
    let mut start: usize = 0;
    while start < len
        invariant
            start <= len,
            max > 0,
            out@.len() == 0 ==> start == 0,
            out@.len() > 0 ==> out@[0].0 == 0 && out@.last().1 == start,
            forall|i: int| 0 <= i < out@.len() ==> (#[trigger] out@[i]).0 < out@[i].1 && out@[i].1 - out@[i].0 <= max,
            forall|i: int| 0 <= i < out@.len() - 1 ==> (#[trigger] out@[i]).1 == out@[i + 1].0 && out@[i].1 - out@[i].0 == max,
            out@.len() > 0 && out@.last().1 - out@.last().0 < max ==> start == len,
        decreases len - start,
    {
        let end = if len - start > max {
            start + max
        } else {
            len
        };
        let ghost before = out@;
        out.push((start, end));
        assert forall|i: int| 0 <= i < out@.len() - 1 implies (#[trigger] out@[i]).1 == out@[i + 1].0 && out@[i].1
            - out@[i].0 == max by {
            assert(out@[i] == before[i]);
            if i < before.len() - 1 {
                assert(out@[i + 1] == before[i + 1]);
            } else {
                assert(before[i] == before.last());
            }
        }
        start = end;
    }
    out
}

} // verus!
