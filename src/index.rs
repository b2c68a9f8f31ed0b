//! The index record and the caller identity that the catalog and the storage
//! engine share.
use vstd::prelude::*;

verus! {

/// Length in bytes of each per-operation signing key.
pub const SIGNATURE_SEED_LENGTH: usize = 16;

/// Length in characters of a public index id.
pub const PUBLIC_ID_LENGTH: usize = 5;

/// One index: the unit of storage and of access control.
#[derive(Debug)]
pub struct Index {
    /// Public id, used in every data-plane path.
    pub id: String,
    /// Human label.
    pub name: String,
    /// Owning subject; empty in single-tenant mode.
    pub authz_id: String,
    /// Owning project; empty in single-tenant mode.
    pub project_uuid: String,
    pub fetch_entries_key: Vec<u8>,
    pub fetch_chains_key: Vec<u8>,
    pub upsert_entries_key: Vec<u8>,
    pub insert_chains_key: Vec<u8>,
    /// Bytes held for the index, when the backend counts them.
    pub size: Option<u64>,
    /// Creation time, in seconds since the epoch.
    pub created_at: u64,
    /// Soft-delete time, in seconds since the epoch.
    pub deleted_at: Option<u64>,
}

/// What a caller asks for when creating an index; the catalog fills in the
/// times.
#[derive(Debug)]
pub struct NewIndex {
    pub id: String,
    pub name: String,
    pub authz_id: String,
    pub project_uuid: String,
    pub fetch_entries_key: Vec<u8>,
    pub fetch_chains_key: Vec<u8>,
    pub upsert_entries_key: Vec<u8>,
    pub insert_chains_key: Vec<u8>,
}

/// An authenticated caller: the token's subject and the bearer token.
#[derive(Debug)]
pub struct Auth {
    pub authz_id: String,
    pub bearer: String,
}

/// An index as plain values.
pub ghost struct IndexView {
    pub id: Seq<char>,
    pub name: Seq<char>,
    pub authz_id: Seq<char>,
    pub project_uuid: Seq<char>,
    pub fetch_entries_key: Seq<u8>,
    pub fetch_chains_key: Seq<u8>,
    pub upsert_entries_key: Seq<u8>,
    pub insert_chains_key: Seq<u8>,
    pub size: Option<u64>,
    pub created_at: u64,
    pub deleted_at: Option<u64>,
}

impl View for Index {
    type V = IndexView;

    open spec fn view(&self) -> IndexView {
        IndexView {
            id: self.id@,
            name: self.name@,
            authz_id: self.authz_id@,
            project_uuid: self.project_uuid@,
            fetch_entries_key: self.fetch_entries_key@,
            fetch_chains_key: self.fetch_chains_key@,
            upsert_entries_key: self.upsert_entries_key@,
            insert_chains_key: self.insert_chains_key@,
            size: self.size,
            created_at: self.created_at,
            deleted_at: self.deleted_at,
        }
    }
}

/// The bytes of an index's public id, the first part of its physical keys.
pub open spec fn index_key(index: &Index) -> Seq<u8> {
    vstd::utf8::encode_utf8(index.id@)
}

/// A copy of a string.
pub fn copy_string(s: &String) -> (r: String)
    ensures
        r == *s,
{
    s.clone()
}

/// A copy of a byte vector.
pub fn copy_vec(v: &Vec<u8>) -> (r: Vec<u8>)
    ensures
        r@ == v@,
{
    vstd::slice::slice_to_vec(v.as_slice())
}

impl Index {
    /// The bytes of the public id.
    pub fn id_bytes(&self) -> (r: &[u8])
        ensures
            r@ == index_key(self),
    {
        self.id.as_str().as_bytes()
    }

    /// A field-by-field copy.
    pub fn duplicate(&self) -> (r: Index)
        ensures
            r@ == self@,
            r.id == self.id,
    {
        Index {
            id: copy_string(&self.id),
            name: copy_string(&self.name),
            authz_id: copy_string(&self.authz_id),
            project_uuid: copy_string(&self.project_uuid),
            fetch_entries_key: copy_vec(&self.fetch_entries_key),
            fetch_chains_key: copy_vec(&self.fetch_chains_key),
            upsert_entries_key: copy_vec(&self.upsert_entries_key),
            insert_chains_key: copy_vec(&self.insert_chains_key),
            size: self.size,
            created_at: self.created_at,
            deleted_at: self.deleted_at,
        }
    }
}

} // verus!
