use findex_cloud::catalog::{MetadataCache, MetadataDatabase};
use findex_cloud::codec::{
    decode_table, decode_uid_set, decode_upsert_data, encode_table, encode_uid_set,
    encode_upsert_data, read_leb128, write_leb128,
};
use findex_cloud::counter::{decode_counter, encode_counter, merge_add};
use findex_cloud::error::Error;
use findex_cloud::index::{Auth, Index, NewIndex};
use findex_cloud::keys::{
    extract_uid_from_stored_id, get_uid_attribute_value, key, prefix, size_key, table_to_prefix,
    Prefix, Table,
};
use findex_cloud::service::{
    create_index_with_fresh_keys, fetch_chains, fetch_entries, insert_chains, upsert_entries,
};
use findex_cloud::signature::{check_body_signature, check_signed_frame, sign_body};
use findex_cloud::storage::{IndexesDatabase, UpsertRow};

const NOW: u64 = 1_700_000_000;

fn new_index(id: &str, owner: &str, project: &str) -> NewIndex {
    NewIndex {
        id: id.to_string(),
        name: "test".to_string(),
        authz_id: owner.to_string(),
        project_uuid: project.to_string(),
        fetch_entries_key: vec![1; 16],
        fetch_chains_key: vec![2; 16],
        upsert_entries_key: vec![3; 16],
        insert_chains_key: vec![4; 16],
    }
}

fn make_index(id: &str) -> Index {
    let mut catalog = MetadataDatabase::new();
    catalog.create_index(new_index(id, "", ""), NOW).unwrap()
}

fn row(uid: &[u8], old: Option<&[u8]>, new: &[u8]) -> UpsertRow {
    UpsertRow {
        uid: uid.to_vec(),
        old_value: old.map(|o| o.to_vec()),
        new_value: new.to_vec(),
    }
}

fn signed_upsert(index: &Index, rows: &Vec<UpsertRow>) -> Vec<u8> {
    let payload = encode_upsert_data(rows);
    sign_body(&index.id, &index.upsert_entries_key, NOW + 60, &payload).unwrap()
}

fn signed_fetch(index: &Index, seed: &[u8], uids: &Vec<Vec<u8>>) -> Vec<u8> {
    let payload = encode_uid_set(uids);
    sign_body(&index.id, seed, NOW + 60, &payload).unwrap()
}

fn do_upsert(store: &mut IndexesDatabase, index: &Index, rows: Vec<UpsertRow>) -> Vec<(Vec<u8>, Vec<u8>)> {
    let body = signed_upsert(index, &rows);
    let answer = upsert_entries(store, index, &body, NOW).unwrap();
    decode_table(&answer).unwrap()
}

fn do_fetch_entries(store: &IndexesDatabase, index: &Index, uids: Vec<Vec<u8>>) -> Vec<(Vec<u8>, Vec<u8>)> {
    let body = signed_fetch(index, &index.fetch_entries_key, &uids);
    let answer = fetch_entries(store, index, &body, NOW).unwrap();
    decode_table(&answer).unwrap()
}

#[test]
fn create_and_read_back() {
    let mut catalog = MetadataDatabase::new();
    let created = create_index_with_fresh_keys(
        &mut catalog,
        "test".to_string(),
        String::new(),
        String::new(),
        NOW,
    )
    .unwrap();
    assert_eq!(created.id.len(), 5);
    assert!(created.id.chars().all(|c| c.is_ascii_alphanumeric()));
    assert_eq!(created.fetch_entries_key.len(), 16);
    assert_eq!(created.fetch_chains_key.len(), 16);
    assert_eq!(created.upsert_entries_key.len(), 16);
    assert_eq!(created.insert_chains_key.len(), 16);
    let keys = [
        &created.fetch_entries_key,
        &created.fetch_chains_key,
        &created.upsert_entries_key,
        &created.insert_chains_key,
    ];
    for i in 0..4 {
        for j in (i + 1)..4 {
            assert_ne!(keys[i], keys[j]);
        }
    }
    assert_eq!(created.size, None);
    let mut read = catalog.get_index(&created.id, None).unwrap();
    assert_eq!(read.id, created.id);
    assert_eq!(read.name, "test");
    assert_eq!(read.fetch_entries_key, created.fetch_entries_key);
    assert_eq!(read.insert_chains_key, created.insert_chains_key);
    let store = IndexesDatabase::new();
    store.set_size(&mut read);
    assert_eq!(read.size, Some(0));
}

#[test]
fn insert_if_absent() {
    let index = make_index("abcde");
    let mut store = IndexesDatabase::new();
    let uid = vec![0u8; 32];
    let rejected = do_upsert(&mut store, &index, vec![row(&uid, None, &[0xAA, 0xAA])]);
    assert!(rejected.is_empty());
    let fetched = do_fetch_entries(&store, &index, vec![uid.clone()]);
    assert_eq!(fetched, vec![(uid, vec![0xAA, 0xAA])]);
}

#[test]
fn reject_on_conflict() {
    let index = make_index("abcde");
    let mut store = IndexesDatabase::new();
    let uid = vec![7u8; 32];
    let first = do_upsert(&mut store, &index, vec![row(&uid, None, &[0xBB])]);
    let second = do_upsert(&mut store, &index, vec![row(&uid, None, &[0xCC])]);
    assert!(first.is_empty());
    assert_eq!(second, vec![(uid.clone(), vec![0xBB])]);
    let fetched = do_fetch_entries(&store, &index, vec![uid.clone()]);
    assert_eq!(fetched, vec![(uid, vec![0xBB])]);
}

#[test]
fn cas_round_trip() {
    let index = make_index("abcde");
    let mut store = IndexesDatabase::new();
    let uid = vec![0u8; 32];
    assert!(do_upsert(&mut store, &index, vec![row(&uid, None, &[0xAA, 0xAA])]).is_empty());
    let swapped = do_upsert(&mut store, &index, vec![row(&uid, Some(&[0xAA, 0xAA]), &[0xDD, 0xDD])]);
    assert!(swapped.is_empty());
    let stale = do_upsert(&mut store, &index, vec![row(&uid, Some(&[0xAA, 0xAA]), &[0xEE, 0xEE])]);
    assert_eq!(stale, vec![(uid.clone(), vec![0xDD, 0xDD])]);
}

#[test]
fn old_value_on_absent_entry_is_rejected_empty() {
    let index = make_index("abcde");
    let mut store = IndexesDatabase::new();
    let uid = vec![3u8; 32];
    let rejected = do_upsert(&mut store, &index, vec![row(&uid, Some(&[1]), &[2])]);
    assert_eq!(rejected, vec![(uid.clone(), vec![])]);
    assert!(do_fetch_entries(&store, &index, vec![uid]).is_empty());
}

#[test]
fn expired_signature() {
    let index = make_index("abcde");
    let payload = encode_uid_set(&vec![vec![0u8; 32]]);
    let body = sign_body(&index.id, &index.fetch_entries_key, NOW - 1, &payload).unwrap();
    let store = IndexesDatabase::new();
    match fetch_entries(&store, &index, &body, NOW) {
        Err(e) => {
            assert_eq!(e.status_code(), 400);
            match e {
                Error::ExpiredRequest { current, expiration } => {
                    assert_eq!(current, NOW);
                    assert_eq!(expiration, NOW - 1);
                }
                other => panic!("unexpected {other:?}"),
            }
        }
        Ok(_) => panic!("an expired body was accepted"),
    }
}

#[test]
fn expiration_equal_to_now_is_accepted() {
    let index = make_index("abcde");
    let body = sign_body(&index.id, &index.fetch_entries_key, NOW, &[9, 9]).unwrap();
    assert_eq!(
        check_body_signature(&body, &index.id, &index.fetch_entries_key, NOW).unwrap(),
        vec![9, 9]
    );
}

#[test]
fn tampered_payload() {
    let index = make_index("abcde");
    let mut body = signed_fetch(&index, &index.fetch_entries_key, &vec![vec![5u8; 32]]);
    let last = body.len() - 1;
    body[last] ^= 1;
    let store = IndexesDatabase::new();
    let err = fetch_entries(&store, &index, &body, NOW).unwrap_err();
    assert!(matches!(err, Error::InvalidSignature));
    assert_eq!(err.status_code(), 403);
}

#[test]
fn tampered_timestamp_and_swapped_keys() {
    let index = make_index("abcde");
    let body = sign_body(&index.id, &index.fetch_entries_key, NOW + 60, &[1, 2, 3]).unwrap();
    let mut later = body.clone();
    later[39] ^= 1;
    assert!(matches!(
        check_body_signature(&later, &index.id, &index.fetch_entries_key, NOW),
        Err(Error::InvalidSignature)
    ));
    assert!(matches!(
        check_body_signature(&body, "abcdf", &index.fetch_entries_key, NOW),
        Err(Error::InvalidSignature)
    ));
    assert!(matches!(
        check_body_signature(&body, &index.id, &index.fetch_chains_key, NOW),
        Err(Error::InvalidSignature)
    ));
    assert_eq!(
        check_body_signature(&body, &index.id, &index.fetch_entries_key, NOW).unwrap(),
        vec![1, 2, 3]
    );
}

#[test]
fn short_body_and_bad_seed() {
    let err = check_body_signature(&[0u8; 39], "abcde", &[0u8; 16], NOW).unwrap_err();
    assert!(matches!(err, Error::BodyTooShort { length: 39 }));
    assert_eq!(err.status_code(), 400);
    let err = check_body_signature(&[0u8; 40], "abcde", &[0u8; 15], NOW).unwrap_err();
    assert!(matches!(err, Error::InvalidKey));
    assert!(matches!(sign_body("abcde", &[0u8; 17], NOW, &[]), Err(Error::InvalidKey)));
}

#[test]
fn signature_is_not_the_message() {
    let body = sign_body("abcde", &[8u8; 16], 0x0102030405060708, &[42]).unwrap();
    assert_eq!(body.len(), 32 + 8 + 1);
    assert_eq!(&body[32..40], &[1, 2, 3, 4, 5, 6, 7, 8]);
    assert_eq!(body[40], 42);
    assert_ne!(&body[0..32], &[0u8; 32]);
    let other = sign_body("abcde", &[9u8; 16], 0x0102030405060708, &[42]).unwrap();
    assert_ne!(&body[0..32], &other[0..32]);
}

#[test]
fn signed_frame_checks_in_order() {
    let mut body = vec![7u8; 32];
    body.extend_from_slice(&encode_counter(100));
    body.extend_from_slice(&[1, 2]);
    assert_eq!(check_signed_frame(&body, &[7u8; 32], 100).unwrap(), vec![1, 2]);
    assert!(matches!(check_signed_frame(&body, &[6u8; 32], 100), Err(Error::InvalidSignature)));
    assert!(matches!(
        check_signed_frame(&body, &[7u8; 32], 101),
        Err(Error::ExpiredRequest { current: 101, expiration: 100 })
    ));
    assert!(matches!(
        check_signed_frame(&body[..20], &[7u8; 32], 0),
        Err(Error::BodyTooShort { length: 20 })
    ));
}

#[test]
fn cross_tenant_delete() {
    let mut catalog = MetadataDatabase::new();
    let mut cache = MetadataCache::new();
    let a = Auth { authz_id: "alice".to_string(), bearer: String::new() };
    let b = Auth { authz_id: "bob".to_string(), bearer: String::new() };
    let p = catalog.create_index(new_index("ppppp", "alice", "proj"), NOW).unwrap();
    let by_b = catalog.delete_index_with_cache(&mut cache, &p.id, Some(&b), NOW).unwrap_err();
    let unknown = catalog
        .delete_index_with_cache(&mut cache, &"unkno".to_string(), Some(&b), NOW)
        .unwrap_err();
    assert!(matches!(by_b, Error::UnknownIndex(_)));
    assert!(matches!(unknown, Error::UnknownIndex(_)));
    assert_eq!(by_b.status_code(), unknown.status_code());
    assert!(catalog.get_index(&p.id, Some(&b)).is_none());
    assert!(catalog.get_index_with_cache(&mut cache, &p.id, Some(&b)).is_none());
    assert!(catalog.get_index(&p.id, Some(&a)).is_some());
    assert!(catalog.delete_index(&p.id, Some(&a), NOW).is_ok());
}

#[test]
fn soft_delete_hides_index() {
    let mut catalog = MetadataDatabase::new();
    let mut cache = MetadataCache::new();
    let p = catalog.create_index(new_index("aaaaa", "", ""), NOW).unwrap();
    catalog.create_index(new_index("bbbbb", "", ""), NOW + 1).unwrap();
    assert!(catalog.get_index_with_cache(&mut cache, &p.id, None).is_some());
    catalog.delete_index_with_cache(&mut cache, &p.id, None, NOW + 2).unwrap();
    assert!(catalog.get_index(&p.id, None).is_none());
    assert!(catalog.get_index_with_cache(&mut cache, &p.id, None).is_none());
    let listed: Vec<String> = catalog.get_indexes(None).into_iter().map(|i| i.id).collect();
    assert_eq!(listed, vec!["bbbbb".to_string()]);
    assert!(matches!(catalog.delete_index(&p.id, None, NOW + 3), Err(Error::UnknownIndex(_))));
    assert!(matches!(
        catalog.create_index(new_index("aaaaa", "", ""), NOW + 4),
        Err(Error::DuplicateIndex(_))
    ));
}

#[test]
fn listing_newest_first_and_by_project() {
    let mut catalog = MetadataDatabase::new();
    catalog.create_index(new_index("first", "", "north"), 10).unwrap();
    catalog.create_index(new_index("secnd", "", "south"), 20).unwrap();
    let third = catalog.create_index(new_index("third", "", "north"), 5).unwrap();
    assert_eq!(third.created_at, 20);
    let all: Vec<String> = catalog.get_indexes(None).into_iter().map(|i| i.id).collect();
    assert_eq!(all, vec!["third", "secnd", "first"]);
    let north: Vec<String> = catalog
        .get_indexes(Some(&"north".to_string()))
        .into_iter()
        .map(|i| i.id)
        .collect();
    assert_eq!(north, vec!["third", "first"]);
}

#[test]
fn size_counts_inserts_and_chains() {
    let index = make_index("abcde");
    let mut store = IndexesDatabase::new();
    assert_eq!(store.size(&index), 0);
    let u1 = vec![1u8; 32];
    let u2 = vec![2u8; 32];
    do_upsert(&mut store, &index, vec![row(&u1, None, &[1, 2, 3]), row(&u2, None, &[4, 5])]);
    assert_eq!(store.size(&index), 5);
    do_upsert(&mut store, &index, vec![row(&u1, Some(&[1, 2, 3]), &[9, 9, 9])]);
    assert_eq!(store.size(&index), 5);
    do_upsert(&mut store, &index, vec![row(&u2, None, &[7])]);
    assert_eq!(store.size(&index), 5);
    let chains = vec![(vec![3u8; 32], vec![0u8; 10]), (vec![4u8; 32], vec![0u8; 4])];
    let body = sign_body(&index.id, &index.insert_chains_key, NOW + 60, &encode_table(&chains)).unwrap();
    insert_chains(&mut store, &index, &body, NOW).unwrap();
    assert_eq!(store.size(&index), 19);
    let mut listed = vec![index.duplicate()];
    store.set_sizes(&mut listed);
    assert_eq!(listed[0].size, Some(19));
}

#[test]
fn fetch_returns_only_present_uids() {
    let index = make_index("abcde");
    let mut store = IndexesDatabase::new();
    let chains = vec![(vec![3u8; 32], vec![1, 1]), (vec![4u8; 32], vec![2])];
    let body = sign_body(&index.id, &index.insert_chains_key, NOW + 60, &encode_table(&chains)).unwrap();
    insert_chains(&mut store, &index, &body, NOW).unwrap();
    let uids = vec![vec![4u8; 32], vec![9u8; 32]];
    let fetch = signed_fetch(&index, &index.fetch_chains_key, &uids);
    let answer = decode_table(&fetch_chains(&store, &index, &fetch, NOW).unwrap()).unwrap();
    assert_eq!(answer, vec![(vec![4u8; 32], vec![2])]);
    let entries = do_fetch_entries(&store, &index, uids);
    assert!(entries.is_empty());
    let other = make_index("zzzzz");
    let fetch = signed_fetch(&other, &other.fetch_chains_key, &vec![vec![4u8; 32]]);
    let answer = decode_table(&fetch_chains(&store, &other, &fetch, NOW).unwrap()).unwrap();
    assert!(answer.is_empty());
}

#[test]
fn malformed_payload_is_refused_without_writing() {
    let index = make_index("abcde");
    let mut store = IndexesDatabase::new();
    let body = sign_body(&index.id, &index.upsert_entries_key, NOW + 60, &[5, 1]).unwrap();
    let err = upsert_entries(&mut store, &index, &body, NOW).unwrap_err();
    assert!(matches!(err, Error::MalformedPayload));
    assert_eq!(err.status_code(), 400);
    assert_eq!(store.size(&index), 0);
}

#[test]
fn codec_round_trips() {
    let uids = vec![vec![1u8; 32], vec![2u8; 32]];
    let bytes = encode_uid_set(&uids);
    assert_eq!(bytes.len(), 1 + 64);
    assert_eq!(bytes[0], 2);
    assert_eq!(decode_uid_set(&bytes).unwrap(), uids);
    let table = vec![(vec![1u8; 32], vec![0u8; 200]), (vec![2u8; 32], vec![])];
    let bytes = encode_table(&table);
    assert_eq!(bytes.len(), 1 + 32 + 2 + 200 + 32 + 1);
    assert_eq!(&bytes[33..35], &[0xC8, 0x01]);
    assert_eq!(decode_table(&bytes).unwrap(), table);
    let rows = vec![row(&[1u8; 32], None, &[1]), row(&[2u8; 32], Some(&[3, 4]), &[5])];
    let bytes = encode_upsert_data(&rows);
    let back = decode_upsert_data(&bytes).unwrap();
    assert_eq!(back.len(), 2);
    assert_eq!(back[0].old_value, None);
    assert_eq!(back[1].old_value, Some(vec![3, 4]));
    assert_eq!(back[1].new_value, vec![5]);
    assert_eq!(encode_upsert_data(&back), bytes);
}

#[test]
fn codec_refusals() {
    assert!(matches!(decode_uid_set(&[]), Err(Error::MalformedPayload)));
    assert!(matches!(decode_uid_set(&[1, 0, 0]), Err(Error::MalformedPayload)));
    let mut trailing = encode_uid_set(&vec![vec![0u8; 32]]);
    trailing.push(0);
    assert!(matches!(decode_uid_set(&trailing), Err(Error::MalformedPayload)));
    assert!(matches!(decode_table(&[0x80, 0x00]), Err(Error::MalformedPayload)));
    assert_eq!(decode_table(&[0]).unwrap(), vec![]);
}

#[test]
fn leb128_values() {
    let mut out = Vec::new();
    write_leb128(&mut out, 300);
    assert_eq!(out, vec![0xAC, 0x02]);
    assert_eq!(read_leb128(&out, 0), Some((300, 2)));
    let mut max = Vec::new();
    write_leb128(&mut max, u64::MAX);
    assert_eq!(max.len(), 10);
    assert_eq!(max[9], 1);
    assert_eq!(read_leb128(&max, 0), Some((u64::MAX, 10)));
    let mut over = max.clone();
    over[9] = 2;
    assert_eq!(read_leb128(&over, 0), None);
    assert_eq!(read_leb128(&[0x80], 0), None);
}

#[test]
fn counters_and_merge() {
    assert_eq!(encode_counter(0x0102), vec![0, 0, 0, 0, 0, 0, 1, 2]);
    assert_eq!(decode_counter(&[0, 0, 0, 0, 0, 0, 1, 2]), Some(0x0102));
    assert_eq!(decode_counter(&[1, 2]), None);
    let ops = vec![encode_counter(5), encode_counter(7)];
    let existing = encode_counter(30);
    assert_eq!(merge_add(b"k", Some(&existing), &ops), Some(encode_counter(42)));
    assert_eq!(merge_add(b"k", None, &ops), Some(encode_counter(12)));
    assert_eq!(merge_add(b"k", None, &vec![]), Some(encode_counter(0)));
    assert_eq!(merge_add(b"k", Some(&[1, 2, 3]), &ops), None);
    assert_eq!(merge_add(b"k", None, &vec![vec![1]]), None);
    let big = encode_counter(u64::MAX);
    assert_eq!(merge_add(b"k", Some(&big), &vec![encode_counter(1)]), None);
    let first = merge_add(b"k", Some(&existing), &vec![encode_counter(5)]).unwrap();
    assert_eq!(
        merge_add(b"k", Some(&first), &vec![encode_counter(7)]),
        merge_add(b"k", Some(&existing), &ops)
    );
}

#[test]
fn key_schema() {
    assert!(matches!(table_to_prefix(Table::Entries), Prefix::Entries));
    assert!(matches!(table_to_prefix(Table::Chains), Prefix::Chains));
    assert_eq!(Prefix::Size.as_byte(), 2);
    assert_eq!(prefix(b"ab", Table::Chains), vec![b'a', b'b', 1]);
    assert_eq!(key(b"ab", Table::Entries, &[9, 9]), vec![b'a', b'b', 0, 9, 9]);
    assert_eq!(size_key(b"ab"), vec![b'a', b'b', 2]);
    let id = get_uid_attribute_value(b"abcde", &[6u8; 32]);
    assert_eq!(id.len(), 37);
    assert_eq!(extract_uid_from_stored_id(&id).unwrap(), vec![6u8; 32]);
    assert!(matches!(extract_uid_from_stored_id(&[1, 2]), Err(Error::Storage(_))));
}

#[test]
fn status_codes() {
    assert_eq!(Error::InvalidSignature.status_code(), 403);
    assert_eq!(Error::TokenExpired.status_code(), 403);
    assert_eq!(Error::UnknownProject.status_code(), 404);
    assert_eq!(Error::Storage(String::new()).status_code(), 500);
    assert_eq!(Error::Authentication(String::new()).status_code(), 500);
    assert_eq!(Error::InvalidConfiguration.status_code(), 500);
    assert_eq!(Error::DuplicateIndex(String::new()).status_code(), 500);
    assert_eq!(Error::ExpiredRequest { current: 2, expiration: 1 }.status_code(), 400);
    assert_eq!(Error::BodyTooShort { length: 0 }.status_code(), 400);
    assert_eq!(Error::WrongEncoding.status_code(), 400);
    assert_eq!(Error::Json.status_code(), 400);
    assert_eq!(Error::WrongIndexPublicId.status_code(), 400);
    assert_eq!(Error::UnknownIndex(String::new()).status_code(), 400);
    assert_eq!(Error::MalformedPayload.status_code(), 400);
    assert_eq!(Error::InvalidKey.status_code(), 400);
    assert_eq!(Error::BadRequest(String::new()).status_code(), 400);
}

#[test]
fn expired_upsert_is_refused_without_writing() {
    let index = make_index("abcde");
    let mut store = IndexesDatabase::new();
    let rows = vec![row(&[0u8; 32], None, &[0xAA])];
    let body = sign_body(&index.id, &index.upsert_entries_key, NOW - 1, &encode_upsert_data(&rows)).unwrap();
    let err = upsert_entries(&mut store, &index, &body, NOW).unwrap_err();
    assert!(matches!(err, Error::ExpiredRequest { current: NOW, expiration } if expiration == NOW - 1));
    assert_eq!(err.status_code(), 400);
    assert!(do_fetch_entries(&store, &index, vec![vec![0u8; 32]]).is_empty());
    assert_eq!(store.size(&index), 0);
}

#[test]
fn signed_body_layout() {
    let body = sign_body("abcde", &[1u8; 16], NOW - 1, &[0u8; 4]).unwrap();
    assert_eq!(body.len(), 40 + 4);
    let err = check_body_signature(&body, "abcde", &[1u8; 16], NOW).unwrap_err();
    assert!(matches!(err, Error::ExpiredRequest { current: NOW, expiration } if expiration == NOW - 1));
}
