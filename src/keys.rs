//! Physical key schema of the ordered key-value backends and of the remote
//! conditional-put store.
use vstd::prelude::*;

use crate::error::Error;

verus! {

/// Length in bytes of a row identifier.
pub const UID_LENGTH: usize = 32;

/// The two logical tables of an index.
#[derive(Clone, Copy, Debug, PartialEq, Eq, Structural)]
pub enum Table {
    Entries,
    Chains,
}

/// The discriminator that follows the index id in a physical key.
#[derive(Clone, Copy, Debug, PartialEq, Eq, Structural)]
pub enum Prefix {
    Entries,
    Chains,
    Size,
}

/// The byte written for each discriminator.
pub open spec fn prefix_byte(p: Prefix) -> u8 {
    match p {
        Prefix::Entries => 0,
        Prefix::Chains => 1,
        Prefix::Size => 2,
    }
}

/// The discriminator of each table.
pub open spec fn table_prefix(t: Table) -> Prefix {
    match t {
        Table::Entries => Prefix::Entries,
        Table::Chains => Prefix::Chains,
    }
}

/// Start of every key of one table of one index.
pub open spec fn prefix_spec(id: Seq<u8>, t: Table) -> Seq<u8> {
    id.push(prefix_byte(table_prefix(t)))
}

/// Key of one row of one table of one index.
pub open spec fn key_spec(id: Seq<u8>, t: Table, uid: Seq<u8>) -> Seq<u8> {
    prefix_spec(id, t) + uid
}

/// Key of the byte counter of one index.
pub open spec fn size_key_spec(id: Seq<u8>) -> Seq<u8> {
    id.push(prefix_byte(Prefix::Size))
}

/// Row id in the remote store: the index id followed by the uid.
pub open spec fn item_id_spec(id: Seq<u8>, uid: Seq<u8>) -> Seq<u8> {
    id + uid
}

impl Prefix {
    /// The byte written for this discriminator.
    pub fn as_byte(self) -> (r: u8)
        ensures
            r == prefix_byte(self),
    {
        match self {
            Prefix::Entries => 0,
            Prefix::Chains => 1,
            Prefix::Size => 2,
        }
    }
}

/// The discriminator of a table.
pub fn table_to_prefix(table: Table) -> (r: Prefix)
    ensures
        r == table_prefix(table),
{
    match table {
        Table::Entries => Prefix::Entries,
        Table::Chains => Prefix::Chains,
    }
}

/// Appends `tail` to `out`.
pub(crate) fn append_bytes(out: &mut Vec<u8>, tail: &[u8])
    ensures
        final(out)@ == old(out)@ + tail@,
{
    let mut i: usize = 0;
    while i < tail.len()
        invariant
            0 <= i <= tail@.len(),
            out@ == old(out)@ + tail@.subrange(0, i as int),
        decreases tail.len() - i,
    {
        out.push(tail[i]);
        i = i + 1;
        assert(out@ =~= old(out)@ + tail@.subrange(0, i as int));
    }
    assert(tail@.subrange(0, i as int) =~= tail@);
}

/// Start of every key of one table of one index.
pub fn prefix(index_id: &[u8], table: Table) -> (r: Vec<u8>)
    ensures
        r@ == prefix_spec(index_id@, table),
{
    let mut out: Vec<u8> = Vec::new();
    append_bytes(&mut out, index_id);
    out.push(table_to_prefix(table).as_byte());
    assert(out@ =~= prefix_spec(index_id@, table));
    out
}

/// Key of one row of one table of one index.
pub fn key(index_id: &[u8], table: Table, uid: &[u8]) -> (r: Vec<u8>)
    ensures
        r@ == key_spec(index_id@, table, uid@),
{
    let mut out = prefix(index_id, table);
    append_bytes(&mut out, uid);
    out
}

/// Key of the byte counter of one index.
pub fn size_key(index_id: &[u8]) -> (r: Vec<u8>)
    ensures
        r@ == size_key_spec(index_id@),
{
    let mut out: Vec<u8> = Vec::new();
    append_bytes(&mut out, index_id);
    out.push(Prefix::Size.as_byte());
    assert(out@ =~= size_key_spec(index_id@));
    out
}

/// Row id in the remote store: the index id followed by the uid.
pub fn get_uid_attribute_value(index_id: &[u8], uid: &[u8]) -> (r: Vec<u8>)
    ensures
        r@ == item_id_spec(index_id@, uid@),
{
    let mut out: Vec<u8> = Vec::new();
    append_bytes(&mut out, index_id);
    append_bytes(&mut out, uid);
    assert(out@ =~= item_id_spec(index_id@, uid@));
    out
}

/// Recovers the uid from the tail of a row id of the remote store; fails
/// when the id is shorter than a uid.
pub fn extract_uid_from_stored_id(id: &[u8]) -> (r: Result<Vec<u8>, Error>)
    ensures
        id@.len() >= UID_LENGTH ==> r is Ok && r->Ok_0@ == id@.subrange(
            id@.len() - UID_LENGTH,
            id@.len() as int,
        ),
        id@.len() < UID_LENGTH ==> r matches Err(Error::Storage(_)),
{
    if id.len() < UID_LENGTH {
        return Err(Error::Storage("stored id is shorter than a uid".to_owned()));
    }
    let start = id.len() - UID_LENGTH;
    let mut out: Vec<u8> = Vec::new();
    let mut i: usize = start;
    while i < id.len()
        invariant
            start <= i <= id@.len(),
            start == id@.len() - UID_LENGTH,
            out@ == id@.subrange(start as int, i as int),
        decreases id.len() - i,
    {
        out.push(id[i]);
        i = i + 1;
        assert(out@ =~= id@.subrange(start as int, i as int));
    }
    Ok(out)
}

/// The keys of one index never collide: entries, chains and the counter
/// use disjoint keys, and a key determines its uid.
pub proof fn lemma_keys_of_one_index(id: Seq<u8>, t1: Table, u1: Seq<u8>, t2: Table, u2: Seq<u8>)
    ensures
        key_spec(id, t1, u1) != size_key_spec(id),
        key_spec(id, t1, u1) == key_spec(id, t2, u2) <==> t1 == t2 && u1 == u2,
{
    let k1 = key_spec(id, t1, u1);
    let k2 = key_spec(id, t2, u2);
    assert(k1[id.len() as int] == prefix_byte(table_prefix(t1)));
    assert(k2[id.len() as int] == prefix_byte(table_prefix(t2)));
    assert(size_key_spec(id)[id.len() as int] == 2);
    if k1 == k2 {
        assert(u1 =~= k1.subrange(id.len() as int + 1, k1.len() as int));
        assert(u2 =~= k2.subrange(id.len() as int + 1, k2.len() as int));
    }
}

/// Keys of indexes whose ids have one length determine the index, the
/// table and the uid.
pub proof fn lemma_key_injective(
    id1: Seq<u8>,
    t1: Table,
    u1: Seq<u8>,
    id2: Seq<u8>,
    t2: Table,
    u2: Seq<u8>,
)
    requires
        id1.len() == id2.len(),
        key_spec(id1, t1, u1) == key_spec(id2, t2, u2),
    ensures
        id1 == id2,
        t1 == t2,
        u1 == u2,
{
    let k = key_spec(id1, t1, u1);
    let k2 = key_spec(id2, t2, u2);
    assert(id1 =~= k.subrange(0, id1.len() as int));
    assert(id2 =~= k2.subrange(0, id2.len() as int));
    lemma_keys_of_one_index(id1, t1, u1, t2, u2);
}

/// The uid read back from a remote row id is the uid it was built from.
pub proof fn lemma_item_id_round_trip(id: Seq<u8>, uid: Seq<u8>)
    requires
        uid.len() == UID_LENGTH,
    ensures
        ({
            let s = item_id_spec(id, uid);
            s.subrange(s.len() - UID_LENGTH, s.len() as int) == uid
        }),
{
    let s = item_id_spec(id, uid);
    assert(s.subrange(s.len() - UID_LENGTH, s.len() as int) =~= uid);
}

} // verus!
