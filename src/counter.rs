//! Per-index byte counters: eight bytes, big-endian, combined by an
//! associative addition merge operator.
use vstd::prelude::*;

verus! {

/// Number of bytes of a stored counter.
pub const COUNTER_LENGTH: usize = 8;

/// The value of an eight-byte big-endian counter.
pub open spec fn be_u64(s: Seq<u8>) -> u64
    recommends
        s.len() == 8,
{
    (s[0] as u64) << 56u64 | (s[1] as u64) << 48u64 | (s[2] as u64) << 40u64 | (s[3] as u64)
        << 32u64 | (s[4] as u64) << 24u64 | (s[5] as u64) << 16u64 | (s[6] as u64) << 8u64
        | (s[7] as u64)
}

/// The eight big-endian bytes of a counter value.
pub open spec fn u64_be(v: u64) -> Seq<u8> {
    seq![
        (v >> 56u64) as u8,
        (v >> 48u64) as u8,
        (v >> 40u64) as u8,
        (v >> 32u64) as u8,
        (v >> 24u64) as u8,
        (v >> 16u64) as u8,
        (v >> 8u64) as u8,
        v as u8,
    ]
}

/// The value a stored counter stands for: a missing or malformed counter
/// counts as zero.
pub open spec fn counter_value(stored: Option<Seq<u8>>) -> u64 {
    match stored {
        Some(s) => if s.len() == 8 {
            be_u64(s)
        } else {
            0
        },
        None => 0,
    }
}

/// The contents of an optional byte slice.
pub open spec fn bytes_opt_view(o: Option<&[u8]>) -> Option<Seq<u8>> {
    match o {
        Some(b) => Some(b@),
        None => None,
    }
}

/// The sum that merging `operands` into `existing` stands for: `None` when
/// one of the values is not eight bytes long or the sum leaves `u64`.
pub open spec fn merge_total(existing: Option<Seq<u8>>, operands: Seq<Seq<u8>>) -> Option<u64>
    decreases operands.len(),
{
    if operands.len() == 0 {
        match existing {
            None => Some(0u64),
            Some(e) => if e.len() == 8 {
                Some(be_u64(e))
            } else {
                None
            },
        }
    } else {
        let last = operands.last();
        match merge_total(existing, operands.drop_last()) {
            None => None,
            Some(t) => if last.len() == 8 && t + be_u64(last) <= u64::MAX {
                Some((t + be_u64(last)) as u64)
            } else {
                None
            },
        }
    }
}

/// Decoding an encoded counter gives its value back.
pub proof fn lemma_counter_round_trip(v: u64)
    ensures
        u64_be(v).len() == 8,
        be_u64(u64_be(v)) == v,
{
    let s = u64_be(v);
    let (b0, b1, b2, b3, b4, b5, b6, b7) = (s[0], s[1], s[2], s[3], s[4], s[5], s[6], s[7]);
    assert(b0 == (v >> 56u64) as u8 && b1 == (v >> 48u64) as u8 && b2 == (v >> 40u64) as u8 && b3
        == (v >> 32u64) as u8 && b4 == (v >> 24u64) as u8 && b5 == (v >> 16u64) as u8 && b6 == (v
        >> 8u64) as u8 && b7 == v as u8);
    assert(((v >> 56u64) as u8 as u64) << 56u64 | ((v >> 48u64) as u8 as u64) << 48u64 | ((v
        >> 40u64) as u8 as u64) << 40u64 | ((v >> 32u64) as u8 as u64) << 32u64 | ((v >> 24u64) as u8
        as u64) << 24u64 | ((v >> 16u64) as u8 as u64) << 16u64 | ((v >> 8u64) as u8 as u64) << 8u64
        | (v as u8 as u64) == v) by (bit_vector);
}

/// Encoding the value of eight bytes gives the same bytes back.
pub proof fn lemma_counter_bytes_round_trip(s: Seq<u8>)
    requires
        s.len() == 8,
    ensures
        u64_be(be_u64(s)) == s,
{
    let (b0, b1, b2, b3, b4, b5, b6, b7) = (s[0], s[1], s[2], s[3], s[4], s[5], s[6], s[7]);
    let v = be_u64(s);
    assert(v == (b0 as u64) << 56u64 | (b1 as u64) << 48u64 | (b2 as u64) << 40u64 | (b3 as u64)
        << 32u64 | (b4 as u64) << 24u64 | (b5 as u64) << 16u64 | (b6 as u64) << 8u64 | (b7 as u64));
    assert(v == (b0 as u64) << 56u64 | (b1 as u64) << 48u64 | (b2 as u64) << 40u64 | (b3 as u64)
        << 32u64 | (b4 as u64) << 24u64 | (b5 as u64) << 16u64 | (b6 as u64) << 8u64 | (b7 as u64)
        ==> (v >> 56u64) as u8 == b0 && (v >> 48u64) as u8 == b1 && (v >> 40u64) as u8 == b2 && (v
        >> 32u64) as u8 == b3 && (v >> 24u64) as u8 == b4 && (v >> 16u64) as u8 == b5 && (v
        >> 8u64) as u8 == b6 && v as u8 == b7) by (bit_vector);
    assert(u64_be(v) =~= s);
}

/// Writes a counter value as eight big-endian bytes.
pub fn encode_counter(v: u64) -> (r: Vec<u8>)
    ensures
        r@ == u64_be(v),
        r@.len() == 8,
{
    let r = vec![
        (v >> 56u64) as u8,
        (v >> 48u64) as u8,
        (v >> 40u64) as u8,
        (v >> 32u64) as u8,
        (v >> 24u64) as u8,
        (v >> 16u64) as u8,
        (v >> 8u64) as u8,
        v as u8,
    ];
    assert(r@ =~= u64_be(v));
    r
}

/// Reads an eight-byte big-endian counter; `None` for any other length.
pub fn decode_counter(bytes: &[u8]) -> (r: Option<u64>)
    ensures
        r == (if bytes@.len() == 8 {
            Some(be_u64(bytes@))
        } else {
            None::<u64>
        }),
{
    if bytes.len() != COUNTER_LENGTH {
        return None;
    }
    Some(
        (bytes[0] as u64) << 56u64 | (bytes[1] as u64) << 48u64 | (bytes[2] as u64) << 40u64 | (
        bytes[3] as u64) << 32u64 | (bytes[4] as u64) << 24u64 | (bytes[5] as u64) << 16u64 | (
        bytes[6] as u64) << 8u64 | (bytes[7] as u64),
    )
}

/// Merge operator of the counters: the sum of the existing value and of every
/// operand, each an eight-byte big-endian integer. `None` (a failed merge)
/// when a value has another length or the sum does not fit in 64 bits.
pub fn merge_add(_key: &[u8], existing_value: Option<&[u8]>, operands: &Vec<Vec<u8>>) -> (r: Option<
    Vec<u8>,
>)
    ensures
        match merge_total(bytes_opt_view(existing_value), operands.deep_view()) {
            Some(t) => r.is_some() && r.unwrap()@ == u64_be(t),
            None => r.is_none(),
        },
{
    let ghost ex = bytes_opt_view(existing_value);
    let ghost ops = operands.deep_view();
    let mut result: u64 = 0;
    match existing_value {
        Some(e) => {
            match decode_counter(e) {
                Some(v) => {
                    result = v;
                },
                None => {
                    proof {
                        assert(ops.subrange(0, 0) =~= Seq::<Seq<u8>>::empty());
                        lemma_merge_total_none_extends(ex, ops, 0);
                    }
                    return None;
                },
            }
        },
        None => {},
    }
    let mut i: usize = 0;
    while i < operands.len()
        invariant
            0 <= i <= operands.len(),
            ops == operands.deep_view(),
            ex == bytes_opt_view(existing_value),
            merge_total(ex, ops.subrange(0, i as int)) == Some(result),
        decreases operands.len() - i,
    {
        assert(ops.subrange(0, i as int + 1).drop_last() =~= ops.subrange(0, i as int));
        let operand = &operands[i];
        match decode_counter(operand.as_slice()) {
            Some(v) => {
                match result.checked_add(v) {
                    Some(s) => {
                        result = s;
                    },
                    None => {
                        proof {
                            lemma_merge_total_none_extends(ex, ops, i as int + 1);
                        }
                        return None;
                    },
                }
            },
            None => {
                proof {
                    lemma_merge_total_none_extends(ex, ops, i as int + 1);
                }
                return None;
            },
        }
        i = i + 1;
    }
    assert(ops.subrange(0, i as int) =~= ops);
    Some(encode_counter(result))
}

/// Once a merge fails on a prefix of the operands, it fails on any longer
/// prefix.
proof fn lemma_merge_total_none_extends(ex: Option<Seq<u8>>, ops: Seq<Seq<u8>>, k: int)
    requires
        0 <= k <= ops.len(),
        merge_total(ex, ops.subrange(0, k)).is_none(),
    ensures
        merge_total(ex, ops).is_none(),
    decreases ops.len() - k,
{
    if k < ops.len() {
        assert(ops.subrange(0, k + 1).drop_last() =~= ops.subrange(0, k));
        lemma_merge_total_none_extends(ex, ops, k + 1);
    } else {
        assert(ops.subrange(0, k) =~= ops);
    }
}

/// Merging is associative: merging a second batch of operands into the
/// result of merging a first batch gives what merging both batches at once
/// gives, and a merge of both batches fails exactly when one of the two
/// steps fails.
pub proof fn lemma_merge_associative(existing: Option<Seq<u8>>, first: Seq<Seq<u8>>, second: Seq<
    Seq<u8>,
>)
    ensures
        merge_total(existing, first + second) == (match merge_total(existing, first) {
            Some(t) => merge_total(Some(u64_be(t)), second),
            None => None,
        }),
    decreases second.len(),
{
    if second.len() == 0 {
        assert(first + second =~= first);
        match merge_total(existing, first) {
            Some(t) => {
                lemma_counter_round_trip(t);
            },
            None => {},
        }
    } else {
        assert((first + second).drop_last() =~= first + second.drop_last());
        assert((first + second).last() == second.last());
        lemma_merge_associative(existing, first, second.drop_last());
    }
}

} // verus!
