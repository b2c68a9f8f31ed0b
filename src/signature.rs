//! Signed request bodies: a 32-byte KMAC tag, an 8-byte big-endian
//! expiration time, then the payload. The tag covers the expiration time and
//! the payload, under a key derived from the operation's seed and the index's
//! public id.
use vstd::prelude::*;

use cosmian_crypto_core::kdf::Shake;
use cosmian_findex::macros::{Hasher, IntoXof, Kmac, Xof};

use crate::counter::{be_u64, decode_counter, u64_be};
use crate::error::Error;
use crate::index::SIGNATURE_SEED_LENGTH;
use crate::keys::append_bytes;
use vstd::string::StringSliceAdditionalSpecFns;

verus! {

/// Length in bytes of a request signature.
pub const SIGNATURE_LENGTH: usize = 32;

/// Length in bytes of the signature and expiration prefix of a signed body.
pub const SIGNED_PREFIX_LENGTH: usize = 40;

/// Length in bytes of a derived KMAC key.
pub const KMAC_KEY_LENGTH: usize = 32;

/// The 32-byte SHAKE-256 output of `input`.
pub uninterp spec fn shake256_of(input: Seq<u8>) -> Seq<u8>;

/// The 32-byte KMAC-128 tag (empty customisation string) of `message`
/// under `key`.
pub uninterp spec fn kmac128_of(key: Seq<u8>, message: Seq<u8>) -> Seq<u8>;

/// Relies on tiny_keccak's `Shake::v256` (re-exported by cosmian_crypto_core's
/// `kdf` module), absorbed with `input` and finalized into 32 bytes: a
/// function of `input` alone.
#[verifier::external_body]
fn shake256(input: &[u8]) -> (r: Vec<u8>)
    ensures
        r@ == shake256_of(input@),
        r@.len() == KMAC_KEY_LENGTH,
{
    let mut hasher = Shake::v256();
    hasher.update(input);
    let mut out = [0u8; KMAC_KEY_LENGTH];
    hasher.finalize(&mut out);
    out.to_vec()
}

/// Relies on tiny_keccak's `Kmac::v128(key, b"")` (re-exported by
/// cosmian_findex), absorbed with `message` and squeezed into 32 bytes: a
/// function of the key and the message alone.
#[verifier::external_body]
fn kmac128(key: &[u8], message: &[u8]) -> (r: Vec<u8>)
    ensures
        r@ == kmac128_of(key@, message@),
        r@.len() == SIGNATURE_LENGTH,
{
    let mut kmac = Kmac::v128(key, b"");
    kmac.update(message);
    let mut xof = kmac.into_xof();
    let mut out = [0u8; SIGNATURE_LENGTH];
    xof.squeeze(&mut out);
    out.to_vec()
}

/// The derivation label appended to the seed and the index id: "KMAC key".
pub open spec fn kmac_key_label() -> Seq<u8> {
    seq![75u8, 77u8, 65u8, 67u8, 32u8, 107u8, 101u8, 121u8]
}

/// The KMAC key of an operation of an index: SHAKE-256 of the seed, the
/// index id and the label.
pub open spec fn derived_key(seed: Seq<u8>, index_id: Seq<u8>) -> Seq<u8> {
    shake256_of(seed + index_id + kmac_key_label())
}

/// The tag part of a signed body.
pub open spec fn body_tag(body: Seq<u8>) -> Seq<u8> {
    body.subrange(0, SIGNATURE_LENGTH as int)
}

/// The signed part of a body: expiration time and payload.
pub open spec fn body_message(body: Seq<u8>) -> Seq<u8> {
    body.subrange(SIGNATURE_LENGTH as int, body.len() as int)
}

/// The expiration time of a signed body.
pub open spec fn body_expiration(body: Seq<u8>) -> u64 {
    be_u64(body.subrange(SIGNATURE_LENGTH as int, SIGNED_PREFIX_LENGTH as int))
}

/// The payload of a signed body.
pub open spec fn body_payload(body: Seq<u8>) -> Seq<u8> {
    body.subrange(SIGNED_PREFIX_LENGTH as int, body.len() as int)
}

/// Whether a body passes the check once its expected tag is known: long
/// enough, carrying that tag, and not expired at `now`.
pub open spec fn frame_accepts(body: Seq<u8>, expected: Seq<u8>, now: u64) -> bool {
    &&& body.len() >= SIGNED_PREFIX_LENGTH
    &&& body_tag(body) == expected
    &&& now <= body_expiration(body)
}

/// Whether a body passes the signature check of an operation whose seed is
/// `seed`, on the index whose id bytes are `index_id`, at time `now`.
pub open spec fn signature_accepts(body: Seq<u8>, index_id: Seq<u8>, seed: Seq<u8>, now: u64) -> bool {
    &&& seed.len() == SIGNATURE_SEED_LENGTH
    &&& frame_accepts(body, kmac128_of(derived_key(seed, index_id), body_message(body)), now)
}

/// The failures of the signature check.
pub open spec fn is_signature_error(e: Error) -> bool {
    e is BodyTooShort || e is InvalidKey || e is InvalidSignature || e is ExpiredRequest
}

/// The failure of the signature check of a body for an operation whose
/// seed is `seed`, on the index whose id bytes are `index_id`, at time
/// `now`; `None` when the body passes. Checked in order: length, seed
/// length, tag, expiration time.
pub open spec fn signature_failure(body: Seq<u8>, index_id: Seq<u8>, seed: Seq<u8>, now: u64) -> Option<
    Error,
> {
    if body.len() < SIGNED_PREFIX_LENGTH {
        Some(Error::BodyTooShort { length: body.len() as usize })
    } else if seed.len() != SIGNATURE_SEED_LENGTH {
        Some(Error::InvalidKey)
    } else if body_tag(body) != kmac128_of(derived_key(seed, index_id), body_message(body)) {
        Some(Error::InvalidSignature)
    } else if now > body_expiration(body) {
        Some(Error::ExpiredRequest { current: now, expiration: body_expiration(body) })
    } else {
        None
    }
}

/// Checks a signed body against the tag it should carry: the length, then
/// the tag, then the expiration time. Returns the payload.
pub fn check_signed_frame(body: &[u8], expected: &[u8], now: u64) -> (r: Result<Vec<u8>, Error>)
    ensures
        body@.len() < SIGNED_PREFIX_LENGTH ==> (r matches Err(Error::BodyTooShort { length })
            && length == body@.len()),
        body@.len() >= SIGNED_PREFIX_LENGTH && body_tag(body@) != expected@ ==> r matches Err(
            Error::InvalidSignature,
        ),
        body@.len() >= SIGNED_PREFIX_LENGTH && body_tag(body@) == expected@ && now
            > body_expiration(body@) ==> (r matches Err(Error::ExpiredRequest { current, expiration })
            && current == now && expiration == body_expiration(body@)),
        r is Ok <==> frame_accepts(body@, expected@, now),
        r matches Err(e) ==> is_signature_error(e),
        r is Ok ==> r->Ok_0@ == body_payload(body@),
{
    if body.len() < SIGNED_PREFIX_LENGTH {
        return Err(Error::BodyTooShort { length: body.len() });
    }
    let tag = vstd::slice::slice_subrange(body, 0, SIGNATURE_LENGTH);
    if !crate::kv::bytes_eq(tag, expected) {
        return Err(Error::InvalidSignature);
    }
    let ts_bytes = vstd::slice::slice_subrange(body, SIGNATURE_LENGTH, SIGNED_PREFIX_LENGTH);
    let expiration = match decode_counter(ts_bytes) {
        Some(v) => v,
        None => {
            return Err(Error::BodyTooShort { length: body.len() });
        },
    };
    if now > expiration {
        return Err(Error::ExpiredRequest { current: now, expiration });
    }
    let payload = vstd::slice::slice_subrange(body, SIGNED_PREFIX_LENGTH, body.len());
    Ok(crate::kv::copy_bytes(payload))
}

/// The KMAC key of an operation of an index.
fn derive_key(seed: &[u8], index_id: &[u8]) -> (r: Vec<u8>)
    ensures
        r@ == derived_key(seed@, index_id@),
{
    let mut input: Vec<u8> = Vec::new();
    append_bytes(&mut input, seed);
    append_bytes(&mut input, index_id);
    let label: [u8; 8] = [75u8, 77u8, 65u8, 67u8, 32u8, 107u8, 101u8, 121u8];
    append_bytes(&mut input, label.as_slice());
    assert(label@ =~= kmac_key_label());
    shake256(input.as_slice())
}

/// Verifies a signed request body for one operation of one index and
/// returns its payload: a body shorter than the prefix, a seed of the wrong
/// length, a wrong tag and an expired request are refused, in that order.
pub fn check_body_signature(body: &[u8], index_id: &str, seed: &[u8], now: u64) -> (r: Result<
    Vec<u8>,
    Error,
>)
    ensures
        match signature_failure(body@, index_id.spec_bytes(), seed@, now) {
            Some(e) => r == Err::<Vec<u8>, Error>(e),
            None => r is Ok && r->Ok_0@ == body_payload(body@),
        },
        r is Ok <==> signature_accepts(body@, index_id.spec_bytes(), seed@, now),
        r matches Err(e) ==> is_signature_error(e),
{
    if body.len() < SIGNED_PREFIX_LENGTH {
        return Err(Error::BodyTooShort { length: body.len() });
    }
    if seed.len() != SIGNATURE_SEED_LENGTH {
        return Err(Error::InvalidKey);
    }
    let key = derive_key(seed, index_id.as_bytes());
    let message = vstd::slice::slice_subrange(body, SIGNATURE_LENGTH, body.len());
    let expected = kmac128(key.as_slice(), message);
    check_signed_frame(body, expected.as_slice(), now)
}

/// Builds the signed body of a request: the tag, the expiration time and
/// the payload. Fails when the seed does not have the seed length.
pub fn sign_body(index_id: &str, seed: &[u8], expiration: u64, payload: &[u8]) -> (r: Result<
    Vec<u8>,
    Error,
>)
    ensures
        seed@.len() != SIGNATURE_SEED_LENGTH ==> r matches Err(Error::InvalidKey),
        seed@.len() == SIGNATURE_SEED_LENGTH ==> r is Ok && r->Ok_0@.len() == SIGNED_PREFIX_LENGTH
            + payload@.len(),
        seed@.len() == SIGNATURE_SEED_LENGTH ==> r is Ok && r->Ok_0@ == kmac128_of(
            derived_key(seed@, index_id.spec_bytes()),
            u64_be(expiration) + payload@,
        ) + u64_be(expiration) + payload@,
{
    if seed.len() != SIGNATURE_SEED_LENGTH {
        return Err(Error::InvalidKey);
    }
    let key = derive_key(seed, index_id.as_bytes());
    let mut message = crate::counter::encode_counter(expiration);
    append_bytes(&mut message, payload);
    let mut body = kmac128(key.as_slice(), message.as_slice());
    append_bytes(&mut body, message.as_slice());
    assert(body@ =~= kmac128_of(derived_key(seed@, index_id.spec_bytes()), u64_be(expiration) + payload@)
        + u64_be(expiration) + payload@);
    Ok(body)
}

/// Freshness: no body whose expiration time lies before `now` is accepted,
/// whatever the index, the seed or the tag.
pub proof fn lemma_expired_never_accepted(body: Seq<u8>, index_id: Seq<u8>, seed: Seq<u8>, now: u64)
    requires
        body.len() >= SIGNED_PREFIX_LENGTH,
        body_expiration(body) < now,
    ensures
        !signature_accepts(body, index_id, seed, now),
{
}

/// A body built by `sign_body` passes the check for the same index and seed
/// up to its expiration time, and yields the payload it was built from.
pub proof fn lemma_signed_body_accepted(
    index_id: Seq<u8>,
    seed: Seq<u8>,
    expiration: u64,
    payload: Seq<u8>,
    now: u64,
)
    requires
        seed.len() == SIGNATURE_SEED_LENGTH,
        now <= expiration,
        kmac128_of(derived_key(seed, index_id), u64_be(expiration) + payload).len() == SIGNATURE_LENGTH,
    ensures
        ({
            let body = kmac128_of(derived_key(seed, index_id), u64_be(expiration) + payload) + u64_be(
                expiration,
            ) + payload;
            signature_accepts(body, index_id, seed, now) && body_payload(body) == payload
        }),
{
    let tag = kmac128_of(derived_key(seed, index_id), u64_be(expiration) + payload);
    let body = tag + u64_be(expiration) + payload;
    crate::counter::lemma_counter_round_trip(expiration);
    assert(body_tag(body) =~= tag);
    assert(body_message(body) =~= u64_be(expiration) + payload);
    assert(body.subrange(SIGNATURE_LENGTH as int, SIGNED_PREFIX_LENGTH as int) =~= u64_be(
        expiration,
    ));
    assert(body_payload(body) =~= payload);
}

/// Binding: a body accepted for one (index id, seed) pair and also accepted,
/// with the same tag, after swapping the index id, the seed, a timestamp
/// byte or a payload byte, exhibits two distinct KMAC inputs with one tag. So
/// every such swap is refused unless KMAC collides.
pub proof fn lemma_swap_needs_collision(
    body1: Seq<u8>,
    id1: Seq<u8>,
    seed1: Seq<u8>,
    body2: Seq<u8>,
    id2: Seq<u8>,
    seed2: Seq<u8>,
    now: u64,
)
    requires
        signature_accepts(body1, id1, seed1, now),
        signature_accepts(body2, id2, seed2, now),
        body_tag(body1) == body_tag(body2),
    ensures
        kmac128_of(derived_key(seed1, id1), body_message(body1)) == kmac128_of(
            derived_key(seed2, id2),
            body_message(body2),
        ),
{
}

} // verus!
