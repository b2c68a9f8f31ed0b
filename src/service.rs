//! The request logic of the endpoints: minting an index, and the four signed
//! data-plane operations (fetch entries, fetch chains, upsert entries,
//! insert chains), each from the raw body to the raw response.
use vstd::prelude::*;

use cosmian_crypto_core::reexport::rand_core::{RngCore, SeedableRng};
use cosmian_crypto_core::CsRng;
use rand::distributions::Alphanumeric;
use rand::Rng;

use crate::catalog::MetadataDatabase;
use crate::codec::{
    decode_table, decode_uid_set, decode_upsert_data, encode_table, table_bytes, table_of,
    uid_set_of, upsert_of,
};
use crate::error::Error;
use crate::index::{index_key, Index, NewIndex, PUBLIC_ID_LENGTH, SIGNATURE_SEED_LENGTH};
use crate::keys::Table;
use crate::kv::bytes_eq;
use crate::signature::{body_payload, check_body_signature, signature_accepts, signature_failure};
use crate::storage::{fetch_model, insert_chains_model, upsert_model, IndexesDatabase};

verus! {

/// Whether a character is an ASCII letter or digit.
pub open spec fn is_alphanumeric(c: char) -> bool {
    ('a' <= c && c <= 'z') || ('A' <= c && c <= 'Z') || ('0' <= c && c <= '9')
}

/// Relies on rand's `Alphanumeric` distribution sampled from `thread_rng`:
/// each sample is one of the 62 ASCII letters and digits; five are taken.
#[verifier::external_body]
fn random_public_id() -> (r: String)
    ensures
        r@.len() == PUBLIC_ID_LENGTH,
        forall|i: int| 0 <= i < r@.len() ==> is_alphanumeric(#[trigger] r@[i]),
{
    rand::thread_rng().sample_iter(&Alphanumeric).take(PUBLIC_ID_LENGTH).map(char::from).collect()
}

/// Relies on cosmian_crypto_core's `CsRng` seeded from the operating system
/// (`from_entropy`) filling a buffer of the seed length (`fill_bytes`).
#[verifier::external_body]
fn random_key() -> (r: Vec<u8>)
    ensures
        r@.len() == SIGNATURE_SEED_LENGTH,
{
    let mut rng = CsRng::from_entropy();
    let mut key = vec![0u8; SIGNATURE_SEED_LENGTH];
    rng.fill_bytes(&mut key);
    key
}

/// A byte that differs from the three given.
fn other_byte(a: u8, b: u8, c: u8) -> (r: u8)
    ensures
        r != a && r != b && r != c,
{
    if a != 0 && b != 0 && c != 0 {
        0
    } else if a != 1 && b != 1 && c != 1 {
        1
    } else if a != 2 && b != 2 && c != 2 {
        2
    } else {
        3
    }
}

/// Keeps a drawn key when it differs from the three earlier keys `a`, `b`,
/// `c`; otherwise changes its first byte to one that none of them starts
/// with, so that it differs from all three.
fn separate_key(k: Vec<u8>, a: &Vec<u8>, b: &Vec<u8>, c: &Vec<u8>) -> (r: Vec<u8>)
    requires
        k@.len() == SIGNATURE_SEED_LENGTH,
        a@.len() == SIGNATURE_SEED_LENGTH,
        b@.len() == SIGNATURE_SEED_LENGTH,
        c@.len() == SIGNATURE_SEED_LENGTH,
    ensures
        r@.len() == SIGNATURE_SEED_LENGTH,
        r@ != a@ && r@ != b@ && r@ != c@,
        k@ != a@ && k@ != b@ && k@ != c@ ==> r@ == k@,
{
    let clash = bytes_eq(k.as_slice(), a.as_slice()) || bytes_eq(k.as_slice(), b.as_slice())
        || bytes_eq(k.as_slice(), c.as_slice());
    if !clash {
        return k;
    }
    let mut r = k;
    let first = other_byte(a[0], b[0], c[0]);
    r.set(0, first);
    assert(r@[0] != a@[0] && r@[0] != b@[0] && r@[0] != c@[0]);
    r
}

/// Creates an index named `name` for the owner `authz_id` in the project
/// `project_uuid` (both empty in single-tenant mode) at time `now`: the
/// public id is five random letters and digits, and the four operations get
/// random 16-byte keys, pairwise distinct (a drawn key equal to an earlier
/// one has its first byte changed). Fails only when the drawn id is already
/// held by a row of the catalog, so never on an empty catalog.
pub fn create_index_with_fresh_keys(
    catalog: &mut MetadataDatabase,
    name: String,
    authz_id: String,
    project_uuid: String,
    now: u64,
) -> (r: Result<Index, Error>)
    requires
        old(catalog).wf(),
    ensures
        final(catalog).wf(),
        old(catalog)@.len() == 0 ==> r is Ok,
        r is Err ==> final(catalog)@ == old(catalog)@,
        r is Err ==> (r matches Err(Error::DuplicateIndex(d)) && exists|i: int|
            0 <= i < old(catalog)@.len() && (#[trigger] old(catalog)@[i]).id == d@),
        r matches Ok(ix) ==> {
            &&& ix.id@.len() == PUBLIC_ID_LENGTH
            &&& forall|i: int| 0 <= i < ix.id@.len() ==> is_alphanumeric(#[trigger] ix.id@[i])
            &&& forall|i: int| 0 <= i < old(catalog)@.len() ==> (#[trigger] old(catalog)@[i]).id != ix.id@
            &&& ix.name@ == name@
            &&& ix.authz_id@ == authz_id@
            &&& ix.project_uuid@ == project_uuid@
            &&& ix.fetch_entries_key@.len() == SIGNATURE_SEED_LENGTH
            &&& ix.fetch_chains_key@.len() == SIGNATURE_SEED_LENGTH
            &&& ix.upsert_entries_key@.len() == SIGNATURE_SEED_LENGTH
            &&& ix.insert_chains_key@.len() == SIGNATURE_SEED_LENGTH
            &&& ix.fetch_entries_key@ != ix.fetch_chains_key@
            &&& ix.fetch_entries_key@ != ix.upsert_entries_key@
            &&& ix.fetch_entries_key@ != ix.insert_chains_key@
            &&& ix.fetch_chains_key@ != ix.upsert_entries_key@
            &&& ix.fetch_chains_key@ != ix.insert_chains_key@
            &&& ix.upsert_entries_key@ != ix.insert_chains_key@
            &&& ix.size is None
            &&& ix.deleted_at is None
            &&& final(catalog)@ == old(catalog)@.push(ix@)
        },
{
    let k1 = random_key();
    let k2 = separate_key(random_key(), &k1, &k1, &k1);
    let k3 = separate_key(random_key(), &k1, &k2, &k2);
    let k4 = separate_key(random_key(), &k1, &k2, &k3);
    let new_index = NewIndex {
        id: random_public_id(),
        name,
        authz_id,
        project_uuid,
        fetch_entries_key: k1,
        fetch_chains_key: k2,
        upsert_entries_key: k3,
        insert_chains_key: k4,
    };
    let ghost drawn = new_index.id@;
    let r = catalog.create_index(new_index, now);
    proof {
        if r is Ok {
            assert(forall|i: int| 0 <= i < old(catalog)@.len() ==> (#[trigger] old(catalog)@[i]).id != drawn);
        }
    }
    r
}

/// Fetch of one table: checks the body against `seed`, decodes the uid set
/// and answers the encoded table of the present rows, in the order of the
/// uids.
fn fetch_table(
    store: &IndexesDatabase,
    index: &Index,
    table: Table,
    seed: &Vec<u8>,
    body: &[u8],
    now: u64,
) -> (r: Result<Vec<u8>, Error>)
    requires
        store.wf(),
    ensures
        signature_failure(body@, index_key(index), seed@, now) matches Some(e) ==> r == Err::<Vec<u8>, Error>(e),
        signature_accepts(body@, index_key(index), seed@, now) ==> match uid_set_of(body_payload(body@)) {
            None => r matches Err(Error::MalformedPayload),
            Some(uids) => r is Ok && r->Ok_0@ == table_bytes(
                fetch_model(store@, index_key(index), table, uids),
            ),
        },
{
    let payload = check_body_signature(body, index.id.as_str(), seed.as_slice(), now)?;
    let uids = decode_uid_set(payload.as_slice())?;
    let found = store.fetch(index, table, &uids);
    Ok(encode_table(&found))
}

/// The fetch-entries endpoint: the body is signed with the index's
/// fetch-entries key and carries a uid set; the answer is the encoded table
/// of the present entries.
pub fn fetch_entries(store: &IndexesDatabase, index: &Index, body: &[u8], now: u64) -> (r: Result<
    Vec<u8>,
    Error,
>)
    requires
        store.wf(),
    ensures
        signature_failure(body@, index_key(index), index.fetch_entries_key@, now) matches Some(e) ==> r == Err::<Vec<u8>, Error>(e),
        signature_accepts(body@, index_key(index), index.fetch_entries_key@, now) ==> match uid_set_of(
            body_payload(body@),
        ) {
            None => r matches Err(Error::MalformedPayload),
            Some(uids) => r is Ok && r->Ok_0@ == table_bytes(
                fetch_model(store@, index_key(index), Table::Entries, uids),
            ),
        },
{
    fetch_table(store, index, Table::Entries, &index.fetch_entries_key, body, now)
}

/// The fetch-chains endpoint: the body is signed with the index's
/// fetch-chains key and carries a uid set; the answer is the encoded table
/// of the present chain rows.
pub fn fetch_chains(store: &IndexesDatabase, index: &Index, body: &[u8], now: u64) -> (r: Result<
    Vec<u8>,
    Error,
>)
    requires
        store.wf(),
    ensures
        signature_failure(body@, index_key(index), index.fetch_chains_key@, now) matches Some(e) ==> r == Err::<Vec<u8>, Error>(e),
        signature_accepts(body@, index_key(index), index.fetch_chains_key@, now) ==> match uid_set_of(
            body_payload(body@),
        ) {
            None => r matches Err(Error::MalformedPayload),
            Some(uids) => r is Ok && r->Ok_0@ == table_bytes(
                fetch_model(store@, index_key(index), Table::Chains, uids),
            ),
        },
{
    fetch_table(store, index, Table::Chains, &index.fetch_chains_key, body, now)
}

/// The upsert-entries endpoint: the body is signed with the index's
/// upsert-entries key and carries upsert rows; they are applied as
/// compare-and-swap rows and the answer is the encoded table of the
/// rejected rows with their stored values. Nothing is written unless the
/// body passes the check and decodes.
pub fn upsert_entries(store: &mut IndexesDatabase, index: &Index, body: &[u8], now: u64) -> (r: Result<
    Vec<u8>,
    Error,
>)
    requires
        old(store).wf(),
    ensures
        final(store).wf(),
        r is Err ==> final(store)@ == old(store)@,
        signature_failure(body@, index_key(index), index.upsert_entries_key@, now) matches Some(e) ==> r == Err::<Vec<u8>, Error>(e),
        signature_accepts(body@, index_key(index), index.upsert_entries_key@, now) ==> match upsert_of(
            body_payload(body@),
        ) {
            None => r matches Err(Error::MalformedPayload),
            Some(rows) => r is Ok && r->Ok_0@ == table_bytes(
                upsert_model(old(store)@, index_key(index), rows).1,
            ) && final(store)@ == upsert_model(old(store)@, index_key(index), rows).0,
        },
{
    let payload = check_body_signature(
        body,
        index.id.as_str(),
        index.upsert_entries_key.as_slice(),
        now,
    )?;
    let rows = decode_upsert_data(payload.as_slice())?;
    let rejected = store.upsert_entries(index, &rows);
    Ok(encode_table(&rejected))
}

/// The insert-chains endpoint: the body is signed with the index's
/// insert-chains key and carries a table; every pair is written. Nothing is
/// written unless the body passes the check and decodes.
pub fn insert_chains(store: &mut IndexesDatabase, index: &Index, body: &[u8], now: u64) -> (r: Result<
    (),
    Error,
>)
    requires
        old(store).wf(),
    ensures
        final(store).wf(),
        r is Err ==> final(store)@ == old(store)@,
        signature_failure(body@, index_key(index), index.insert_chains_key@, now) matches Some(e) ==> r == Err::<(), Error>(e),
        signature_accepts(body@, index_key(index), index.insert_chains_key@, now) ==> match table_of(
            body_payload(body@),
        ) {
            None => r matches Err(Error::MalformedPayload),
            Some(pairs) => r is Ok && final(store)@ == insert_chains_model(
                old(store)@,
                index_key(index),
                pairs,
            ),
        },
{
    let payload = check_body_signature(
        body,
        index.id.as_str(),
        index.insert_chains_key.as_slice(),
        now,
    )?;
    let data = decode_table(payload.as_slice())?;
    store.insert_chains(index, &data);
    Ok(())
}

} // verus!
