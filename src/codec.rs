//! The binary codec of the data-plane payloads: sets of uids, tables of
//! `(uid, value)` pairs and upsert rows. Counts and value lengths are
//! unsigned LEB128 integers, written in their shortest form; uids are
//! written as their 32 bytes.
use vstd::prelude::*;

use crate::error::Error;
use crate::keys::{append_bytes, UID_LENGTH};
use crate::storage::{opt_bytes, pairs_model, rows_model, RowModel, UpsertRow};

verus! {

/// The shortest unsigned LEB128 encoding of `v`.
pub open spec fn leb128(v: nat) -> Seq<u8>
    decreases v,
{
    if v < 128 {
        seq![v as u8]
    } else {
        seq![(v % 128 + 128) as u8] + leb128(v / 128)
    }
}

/// Bound on the value whose encoding starts at the `n`-th byte of a 64-bit
/// LEB128 integer: `2^(64 - 7 n)`, with 2 for the tenth byte.
pub open spec fn leb_bound(n: nat) -> nat
    decreases 9 - n,
{
    if n >= 9 {
        2
    } else {
        128 * leb_bound(n + 1)
    }
}

/// Reads a 64-bit LEB128 integer from the start of `s`, `n` bytes of it
/// having been read already: the value of the remaining groups and the
/// number of bytes they take. Refuses an encoding longer than the shortest
/// one, and one that does not fit in 64 bits.
pub open spec fn leb_parse(s: Seq<u8>, n: nat) -> Option<(nat, nat)>
    decreases s.len(),
{
    if s.len() == 0 || n > 9 {
        None
    } else {
        let b = s[0];
        if b < 128 {
            if (n > 0 && b == 0) || (n == 9 && b > 1) {
                None
            } else {
                Some((b as nat, 1nat))
            }
        } else if n == 9 {
            None
        } else {
            match leb_parse(s.drop_first(), n + 1) {
                Some((v, c)) => Some((((b - 128) + 128 * v) as nat, c + 1)),
                None => None,
            }
        }
    }
}

proof fn lemma_leb_bound_max(n: nat)
    requires
        n <= 9,
    ensures
        leb_bound(n) <= 0x1_0000_0000_0000_0000,
        n < 9 ==> leb_bound(n) == 128 * leb_bound(n + 1),
    decreases n,
{
    assert(leb_bound(9) == 2);
    assert(leb_bound(8) == 256);
    assert(leb_bound(7) == 32768);
    assert(leb_bound(6) == 4194304);
    assert(leb_bound(5) == 536870912);
    assert(leb_bound(4) == 68719476736);
    assert(leb_bound(3) == 8796093022208);
    assert(leb_bound(2) == 1125899906842624);
    assert(leb_bound(1) == 144115188075855872);
    assert(leb_bound(0) == 18446744073709551616);
    if n > 0 {
        lemma_leb_bound_max((n - 1) as nat);
    }
}

proof fn lemma_leb_bound_min(n: nat)
    ensures
        leb_bound(n) >= 2,
        n < 9 ==> leb_bound(n) >= 256 && leb_bound(n) == 128 * leb_bound(n + 1),
    decreases 9 - n,
{
    if n < 9 {
        lemma_leb_bound_min(n + 1);
    }
}

/// What `leb_parse` reads is below the bound of its position, takes at
/// least one byte, stays within `s`, and is not zero after the first byte.
proof fn lemma_leb_parse_facts(s: Seq<u8>, n: nat)
    requires
        leb_parse(s, n) is Some,
    ensures
        ({
            let (v, c) = leb_parse(s, n).unwrap();
            &&& v < leb_bound(n)
            &&& 1 <= c <= s.len()
            &&& n > 0 ==> v > 0
        }),
    decreases s.len(),
{
    lemma_leb_bound_min(n);
    if s[0] >= 128 {
        lemma_leb_parse_facts(s.drop_first(), n + 1);
    }
}

/// Reading the shortest encoding of `v` gives `v` back, whatever follows.
proof fn lemma_leb_round_trip(v: nat, rest: Seq<u8>, n: nat)
    requires
        n <= 9,
        v < leb_bound(n),
        n == 0 || v > 0,
    ensures
        leb_parse(leb128(v) + rest, n) == Some((v, leb128(v).len())),
    decreases v,
{
    let s = leb128(v) + rest;
    if v < 128 {
        assert(s[0] == v as u8);
    } else {
        if n == 9 {
            assert(false);
        }
        lemma_leb_bound_max(n);
        assert(v / 128 < leb_bound(n + 1));
        assert(s.drop_first() =~= leb128(v / 128) + rest);
        lemma_leb_round_trip(v / 128, rest, n + 1);
        assert(s[0] == (v % 128 + 128) as u8);
    }
}

/// What `leb_parse` reads is written in the shortest form.
proof fn lemma_leb_canonical(s: Seq<u8>, n: nat)
    requires
        leb_parse(s, n) is Some,
    ensures
        s.subrange(0, leb_parse(s, n).unwrap().1 as int) == leb128(leb_parse(s, n).unwrap().0),
    decreases s.len(),
{
    let (v, c) = leb_parse(s, n).unwrap();
    if s[0] < 128 {
        assert(s.subrange(0, 1) =~= seq![s[0]]);
    } else {
        let t = s.drop_first();
        lemma_leb_canonical(t, n + 1);
        lemma_leb_parse_facts(t, n + 1);
        let (w, d) = leb_parse(t, n + 1).unwrap();
        assert(v == (s[0] - 128) + 128 * w);
        assert(v >= 128);
        assert(v % 128 == s[0] - 128);
        assert(v / 128 == w);
        assert(s.subrange(0, c as int) =~= seq![s[0]] + t.subrange(0, d as int));
    }
}

/// Reads a LEB128 integer starting at `pos`, `n` of its bytes having been
/// read: its value and the position after it.
fn read_leb_from(bytes: &[u8], pos: usize, n: usize) -> (r: Option<(u64, usize)>)
    requires
        pos <= bytes@.len(),
        n <= 9,
    ensures
        match leb_parse(bytes@.subrange(pos as int, bytes@.len() as int), n as nat) {
            Some((v, c)) => r == Some((v as u64, (pos + c) as usize)) && v < leb_bound(n as nat),
            None => r is None,
        },
    decreases bytes@.len() - pos,
{
    let ghost s = bytes@.subrange(pos as int, bytes@.len() as int);
    if pos >= bytes.len() {
        return None;
    }
    let b = bytes[pos];
    assert(s[0] == b);
    if b < 128 {
        if (n > 0 && b == 0) || (n == 9 && b > 1) {
            None
        } else {
            proof {
                lemma_leb_bound_max(n as nat);
                lemma_leb_bound_min(n as nat);
            }
            Some((b as u64, pos + 1))
        }
    } else if n == 9 {
        None
    } else {
        assert(s.drop_first() =~= bytes@.subrange(pos + 1, bytes@.len() as int));
        match read_leb_from(bytes, pos + 1, n + 1) {
            None => None,
            Some((v, end)) => {
                proof {
                    lemma_leb_bound_max(n as nat);
                    lemma_leb_parse_facts(s.drop_first(), (n + 1) as nat);
                }
                Some(((b - 128) as u64 + 128 * v, end))
            },
        }
    }
}

/// Reads a LEB128 integer at `pos`: its value and the position after it.
pub fn read_leb128(bytes: &[u8], pos: usize) -> (r: Option<(u64, usize)>)
    requires
        pos <= bytes@.len(),
    ensures
        match leb_parse(bytes@.subrange(pos as int, bytes@.len() as int), 0) {
            Some((v, c)) => r == Some((v as u64, (pos + c) as usize)) && v < 0x1_0000_0000_0000_0000
                && pos + c <= bytes@.len(),
            None => r is None,
        },
{
    let r = read_leb_from(bytes, pos, 0);
    proof {
        lemma_leb_bound_max(0);
        let s = bytes@.subrange(pos as int, bytes@.len() as int);
        if leb_parse(s, 0) is Some {
            lemma_leb_parse_facts(s, 0);
        }
    }
    r
}

/// Appends the shortest LEB128 encoding of `v`.
pub fn write_leb128(out: &mut Vec<u8>, v: u64)
    ensures
        final(out)@ == old(out)@ + leb128(v as nat),
    decreases v,
{
    if v < 128 {
        out.push(v as u8);
        assert(leb128(v as nat) =~= seq![v as u8]);
    } else {
        out.push((v % 128 + 128) as u8);
        let ghost mid = out@;
        write_leb128(out, v / 128);
        assert(out@ =~= old(out)@ + leb128(v as nat));
    }
}

/// A length-prefixed byte string.
pub open spec fn vec_bytes(v: Seq<u8>) -> Seq<u8> {
    leb128(v.len()) + v
}

/// Reads a length-prefixed byte string from the start of `s`: the string
/// and the number of bytes it takes.
pub open spec fn parse_vec(s: Seq<u8>) -> Option<(Seq<u8>, nat)> {
    match leb_parse(s, 0) {
        Some((n, c)) => if c + n <= s.len() {
            Some((s.subrange(c as int, (c + n) as int), c + n))
        } else {
            None
        },
        None => None,
    }
}

proof fn lemma_vec_round_trip(v: Seq<u8>, rest: Seq<u8>)
    requires
        v.len() < 0x1_0000_0000_0000_0000,
    ensures
        parse_vec(vec_bytes(v) + rest) == Some((v, vec_bytes(v).len())),
{
    lemma_leb_bound_max(0);
    assert(leb_bound(0) == 0x1_0000_0000_0000_0000) by {
        lemma_leb_bound_min(0);
        assert(leb_bound(9) == 2);
        assert(leb_bound(8) == 256);
        assert(leb_bound(7) == 32768);
        assert(leb_bound(6) == 4194304);
        assert(leb_bound(5) == 536870912);
        assert(leb_bound(4) == 68719476736);
        assert(leb_bound(3) == 8796093022208);
        assert(leb_bound(2) == 1125899906842624);
        assert(leb_bound(1) == 144115188075855872);
    }
    let s = vec_bytes(v) + rest;
    assert(s =~= leb128(v.len()) + (v + rest));
    lemma_leb_round_trip(v.len(), v + rest, 0);
    let c = leb128(v.len()).len();
    assert(s.subrange(c as int, (c + v.len()) as int) =~= v);
}

proof fn lemma_vec_canonical(s: Seq<u8>)
    requires
        parse_vec(s) is Some,
    ensures
        parse_vec(s).unwrap().1 <= s.len(),
        s.subrange(0, parse_vec(s).unwrap().1 as int) == vec_bytes(parse_vec(s).unwrap().0),
{
    lemma_leb_canonical(s, 0);
    let (n, c) = leb_parse(s, 0).unwrap();
    assert(s.subrange(0, (c + n) as int) =~= s.subrange(0, c as int) + s.subrange(c as int, (c + n) as int));
}

/// Reads `count` items one after the other from the start of `s`: the items
/// and the number of bytes they take.
pub open spec fn parse_list<T>(s: Seq<u8>, count: nat, item: spec_fn(Seq<u8>) -> Option<(T, nat)>) -> Option<
    (Seq<T>, nat),
>
    decreases count,
{
    if count == 0 {
        Some((Seq::empty(), 0nat))
    } else {
        match item(s) {
            Some((x, c)) => if c <= s.len() {
                match parse_list(s.subrange(c as int, s.len() as int), (count - 1) as nat, item) {
                    Some((xs, d)) => Some((seq![x] + xs, c + d)),
                    None => None,
                }
            } else {
                None
            },
            None => None,
        }
    }
}

/// The items written one after the other.
pub open spec fn enc_list<T>(xs: Seq<T>, enc: spec_fn(T) -> Seq<u8>) -> Seq<u8>
    decreases xs.len(),
{
    if xs.len() == 0 {
        Seq::empty()
    } else {
        enc(xs[0]) + enc_list(xs.drop_first(), enc)
    }
}

/// A whole payload: the item count, then the items, and nothing after.
pub open spec fn parse_framed<T>(s: Seq<u8>, item: spec_fn(Seq<u8>) -> Option<(T, nat)>) -> Option<Seq<T>> {
    match leb_parse(s, 0) {
        Some((n, c)) => match parse_list(s.subrange(c as int, s.len() as int), n, item) {
            Some((xs, d)) => if c + d == s.len() {
                Some(xs)
            } else {
                None
            },
            None => None,
        },
        None => None,
    }
}

/// The encoding of a whole payload: the item count, then the items.
pub open spec fn enc_framed<T>(xs: Seq<T>, enc: spec_fn(T) -> Seq<u8>) -> Seq<u8> {
    leb128(xs.len()) + enc_list(xs, enc)
}

proof fn lemma_list_round_trip<T>(
    xs: Seq<T>,
    rest: Seq<u8>,
    item: spec_fn(Seq<u8>) -> Option<(T, nat)>,
    enc: spec_fn(T) -> Seq<u8>,
    valid: spec_fn(T) -> bool,
)
    requires
        forall|x: T, r: Seq<u8>| #[trigger] valid(x) ==> #[trigger] item(enc(x) + r) == Some((x, enc(x).len())),
        forall|i: int| 0 <= i < xs.len() ==> #[trigger] valid(xs[i]),
    ensures
        parse_list(enc_list(xs, enc) + rest, xs.len(), item) == Some((xs, enc_list(xs, enc).len())),
    decreases xs.len(),
{
    if xs.len() > 0 {
        let tail = xs.drop_first();
        assert forall|i: int| 0 <= i < tail.len() implies #[trigger] valid(tail[i]) by {
            assert(tail[i] == xs[i + 1]);
        }
        lemma_list_round_trip(tail, rest, item, enc, valid);
        assert(valid(xs[0]));
        let s = enc_list(xs, enc) + rest;
        let tail_enc = enc_list(tail, enc) + rest;
        assert(s =~= enc(xs[0]) + tail_enc);
        assert(item(enc(xs[0]) + tail_enc) == Some((xs[0], enc(xs[0]).len())));
        assert(s.subrange(enc(xs[0]).len() as int, s.len() as int) =~= tail_enc);
        assert(seq![xs[0]] + tail =~= xs);
    }
}

proof fn lemma_list_canonical<T>(
    s: Seq<u8>,
    count: nat,
    item: spec_fn(Seq<u8>) -> Option<(T, nat)>,
    enc: spec_fn(T) -> Seq<u8>,
)
    requires
        forall|t: Seq<u8>|
            (#[trigger] item(t)) is Some ==> item(t).unwrap().1 <= t.len() && t.subrange(
                0,
                item(t).unwrap().1 as int,
            ) == enc(item(t).unwrap().0),
        parse_list(s, count, item) is Some,
    ensures
        parse_list(s, count, item).unwrap().1 <= s.len(),
        parse_list(s, count, item).unwrap().0.len() == count,
        s.subrange(0, parse_list(s, count, item).unwrap().1 as int) == enc_list(
            parse_list(s, count, item).unwrap().0,
            enc,
        ),
    decreases count,
{
    if count > 0 {
        let (x, c) = item(s).unwrap();
        let t = s.subrange(c as int, s.len() as int);
        lemma_list_canonical(t, (count - 1) as nat, item, enc);
        let (xs, d) = parse_list(t, (count - 1) as nat, item).unwrap();
        let all = seq![x] + xs;
        assert(all.drop_first() =~= xs);
        assert(all[0] == x);
        assert(s.subrange(0, (c + d) as int) =~= s.subrange(0, c as int) + t.subrange(0, d as int));
    }
}

/// Decoding an encoded payload gives its items back.
proof fn lemma_framed_round_trip<T>(
    xs: Seq<T>,
    item: spec_fn(Seq<u8>) -> Option<(T, nat)>,
    enc: spec_fn(T) -> Seq<u8>,
    valid: spec_fn(T) -> bool,
)
    requires
        forall|x: T, r: Seq<u8>| #[trigger] valid(x) ==> #[trigger] item(enc(x) + r) == Some((x, enc(x).len())),
        forall|i: int| 0 <= i < xs.len() ==> #[trigger] valid(xs[i]),
        xs.len() < 0x1_0000_0000_0000_0000,
    ensures
        parse_framed(enc_framed(xs, enc), item) == Some(xs),
{
    let body = enc_list(xs, enc);
    let s = enc_framed(xs, enc);
    lemma_vec_round_trip(Seq::<u8>::empty(), Seq::<u8>::empty());
    lemma_leb_bound_max(0);
    assert(leb_bound(0) == 0x1_0000_0000_0000_0000) by {
        lemma_leb_bound_min(0);
        assert(leb_bound(9) == 2);
        assert(leb_bound(8) == 256);
        assert(leb_bound(7) == 32768);
        assert(leb_bound(6) == 4194304);
        assert(leb_bound(5) == 536870912);
        assert(leb_bound(4) == 68719476736);
        assert(leb_bound(3) == 8796093022208);
        assert(leb_bound(2) == 1125899906842624);
        assert(leb_bound(1) == 144115188075855872);
    }
    lemma_leb_round_trip(xs.len(), body, 0);
    let c = leb128(xs.len()).len();
    assert(s.subrange(c as int, s.len() as int) =~= body + Seq::<u8>::empty());
    lemma_list_round_trip(xs, Seq::<u8>::empty(), item, enc, valid);
}

/// A decoded payload is written exactly as the encoder writes its items.
proof fn lemma_framed_canonical<T>(
    s: Seq<u8>,
    item: spec_fn(Seq<u8>) -> Option<(T, nat)>,
    enc: spec_fn(T) -> Seq<u8>,
)
    requires
        forall|t: Seq<u8>|
            (#[trigger] item(t)) is Some ==> item(t).unwrap().1 <= t.len() && t.subrange(
                0,
                item(t).unwrap().1 as int,
            ) == enc(item(t).unwrap().0),
        parse_framed(s, item) is Some,
    ensures
        enc_framed(parse_framed(s, item).unwrap(), enc) == s,
{
    let (n, c) = leb_parse(s, 0).unwrap();
    lemma_leb_canonical(s, 0);
    let t = s.subrange(c as int, s.len() as int);
    lemma_list_canonical(t, n, item, enc);
    let (xs, d) = parse_list(t, n, item).unwrap();
    assert(s =~= s.subrange(0, c as int) + t.subrange(0, d as int));
}

/// Reads a uid: its 32 bytes.
pub open spec fn parse_uid(s: Seq<u8>) -> Option<(Seq<u8>, nat)> {
    if s.len() >= UID_LENGTH {
        Some((s.subrange(0, UID_LENGTH as int), UID_LENGTH as nat))
    } else {
        None
    }
}

/// Reads a `(uid, value)` pair: the uid, then the length-prefixed value.
pub open spec fn parse_pair(s: Seq<u8>) -> Option<((Seq<u8>, Seq<u8>), nat)> {
    if s.len() < UID_LENGTH {
        None
    } else {
        match parse_vec(s.subrange(UID_LENGTH as int, s.len() as int)) {
            Some((v, c)) => Some(((s.subrange(0, UID_LENGTH as int), v), (UID_LENGTH + c) as nat)),
            None => None,
        }
    }
}

/// Reads an upsert row: the uid, the length-prefixed old value (empty for
/// none), then the length-prefixed new value.
pub open spec fn parse_row(s: Seq<u8>) -> Option<(RowModel, nat)> {
    if s.len() < UID_LENGTH {
        None
    } else {
        let t = s.subrange(UID_LENGTH as int, s.len() as int);
        match parse_vec(t) {
            Some((o, c1)) => match parse_vec(t.subrange(c1 as int, t.len() as int)) {
                Some((n, c2)) => Some(
                    (
                        (
                            s.subrange(0, UID_LENGTH as int),
                            if o.len() == 0 {
                                None
                            } else {
                                Some(o)
                            },
                            n,
                        ),
                        (UID_LENGTH + c1 + c2) as nat,
                    ),
                ),
                None => None,
            },
            None => None,
        }
    }
}

/// The bytes of a uid.
pub open spec fn enc_uid(u: Seq<u8>) -> Seq<u8> {
    u
}

/// The bytes of a `(uid, value)` pair.
pub open spec fn enc_pair(p: (Seq<u8>, Seq<u8>)) -> Seq<u8> {
    p.0 + vec_bytes(p.1)
}

/// The old value as written: empty for none.
pub open spec fn old_or_empty(o: Option<Seq<u8>>) -> Seq<u8> {
    match o {
        Some(v) => v,
        None => Seq::empty(),
    }
}

/// The bytes of an upsert row.
pub open spec fn enc_row(r: RowModel) -> Seq<u8> {
    r.0 + vec_bytes(old_or_empty(r.1)) + vec_bytes(r.2)
}

/// A list of byte vectors as plain sequences.
pub open spec fn uids_model(v: Seq<Vec<u8>>) -> Seq<Seq<u8>> {
    v.map_values(|x: Vec<u8>| x@)
}

/// The uid reader, as a value.
pub open spec fn uid_item() -> spec_fn(Seq<u8>) -> Option<(Seq<u8>, nat)> {
    |t: Seq<u8>| parse_uid(t)
}

/// The pair reader, as a value.
pub open spec fn pair_item() -> spec_fn(Seq<u8>) -> Option<((Seq<u8>, Seq<u8>), nat)> {
    |t: Seq<u8>| parse_pair(t)
}

/// The row reader, as a value.
pub open spec fn row_item() -> spec_fn(Seq<u8>) -> Option<(RowModel, nat)> {
    |t: Seq<u8>| parse_row(t)
}

/// The uid writer, as a value.
pub open spec fn uid_enc() -> spec_fn(Seq<u8>) -> Seq<u8> {
    |u: Seq<u8>| enc_uid(u)
}

/// The pair writer, as a value.
pub open spec fn pair_enc() -> spec_fn((Seq<u8>, Seq<u8>)) -> Seq<u8> {
    |p: (Seq<u8>, Seq<u8>)| enc_pair(p)
}

/// The row writer, as a value.
pub open spec fn row_enc() -> spec_fn(RowModel) -> Seq<u8> {
    |r: RowModel| enc_row(r)
}

/// A uid set payload.
pub open spec fn uid_set_bytes(uids: Seq<Seq<u8>>) -> Seq<u8> {
    enc_framed(uids, uid_enc())
}

/// A table payload.
pub open spec fn table_bytes(pairs: Seq<(Seq<u8>, Seq<u8>)>) -> Seq<u8> {
    enc_framed(pairs, pair_enc())
}

/// An upsert payload.
pub open spec fn upsert_bytes(rows: Seq<RowModel>) -> Seq<u8> {
    enc_framed(rows, row_enc())
}

/// The uids of a uid set payload, if it is one.
pub open spec fn uid_set_of(s: Seq<u8>) -> Option<Seq<Seq<u8>>> {
    parse_framed(s, uid_item())
}

/// The pairs of a table payload, if it is one.
pub open spec fn table_of(s: Seq<u8>) -> Option<Seq<(Seq<u8>, Seq<u8>)>> {
    parse_framed(s, pair_item())
}

/// The rows of an upsert payload, if it is one.
pub open spec fn upsert_of(s: Seq<u8>) -> Option<Seq<RowModel>> {
    parse_framed(s, row_item())
}

/// Appending one item to a list appends its bytes.
proof fn lemma_enc_list_push<T>(xs: Seq<T>, x: T, enc: spec_fn(T) -> Seq<u8>)
    ensures
        enc_list(xs.push(x), enc) == enc_list(xs, enc) + enc(x),
    decreases xs.len(),
{
    if xs.len() == 0 {
        assert(xs.push(x).drop_first() =~= Seq::<T>::empty());
        assert(xs.push(x)[0] == x);
        assert(enc_list(Seq::<T>::empty(), enc) =~= Seq::<u8>::empty());
        assert(enc_list(xs.push(x), enc) =~= enc(x));
    } else {
        assert(xs.push(x).drop_first() =~= xs.drop_first().push(x));
        lemma_enc_list_push(xs.drop_first(), x, enc);
        assert(enc_list(xs.push(x), enc) =~= enc_list(xs, enc) + enc(x));
    }
}

/// Reads a length-prefixed byte string at `pos`.
fn read_vec(bytes: &[u8], pos: usize) -> (r: Option<(Vec<u8>, usize)>)
    requires
        pos <= bytes@.len(),
    ensures
        match parse_vec(bytes@.subrange(pos as int, bytes@.len() as int)) {
            Some((v, c)) => r is Some && r->Some_0.0@ == v && r->Some_0.1 == pos + c,
            None => r is None,
        },
{
    let ghost s = bytes@.subrange(pos as int, bytes@.len() as int);
    match read_leb128(bytes, pos) {
        None => None,
        Some((n, first_end)) => {
            proof {
                lemma_leb_parse_facts(s, 0);
            }
            if n > (bytes.len() - first_end) as u64 {
                return None;
            }
            let end = first_end + n as usize;
            let v = vstd::slice::slice_subrange(bytes, first_end, end);
            let ghost c = leb_parse(s, 0).unwrap().1;
            assert(s.subrange(c as int, c + n) =~= bytes@.subrange(first_end as int, end as int));
            Some((crate::kv::copy_bytes(v), end))
        },
    }
}

/// Reads a uid at `pos`.
fn read_uid(bytes: &[u8], pos: usize) -> (r: Option<(Vec<u8>, usize)>)
    requires
        pos <= bytes@.len(),
    ensures
        match parse_uid(bytes@.subrange(pos as int, bytes@.len() as int)) {
            Some((u, c)) => r is Some && r->Some_0.0@ == u && r->Some_0.1 == pos + c,
            None => r is None,
        },
{
    if bytes.len() - pos < UID_LENGTH {
        return None;
    }
    let u = vstd::slice::slice_subrange(bytes, pos, pos + UID_LENGTH);
    assert(bytes@.subrange(pos as int, bytes@.len() as int).subrange(0, UID_LENGTH as int) =~= u@);
    Some((crate::kv::copy_bytes(u), pos + UID_LENGTH))
}

/// Reads a `(uid, value)` pair at `pos`.
fn read_pair(bytes: &[u8], pos: usize) -> (r: Option<((Vec<u8>, Vec<u8>), usize)>)
    requires
        pos <= bytes@.len(),
    ensures
        match parse_pair(bytes@.subrange(pos as int, bytes@.len() as int)) {
            Some((p, c)) => r is Some && r->Some_0.0.0@ == p.0 && r->Some_0.0.1@ == p.1 && r->Some_0.1
                == pos + c,
            None => r is None,
        },
{
    let ghost s = bytes@.subrange(pos as int, bytes@.len() as int);
    match read_uid(bytes, pos) {
        None => None,
        Some((u, first_end)) => {
            assert(s.subrange(UID_LENGTH as int, s.len() as int) =~= bytes@.subrange(
                first_end as int,
                bytes@.len() as int,
            ));
            match read_vec(bytes, first_end) {
                None => None,
                Some((v, second_end)) => Some(((u, v), second_end)),
            }
        },
    }
}

/// Reads an upsert row at `pos`.
fn read_row(bytes: &[u8], pos: usize) -> (r: Option<(UpsertRow, usize)>)
    requires
        pos <= bytes@.len(),
    ensures
        match parse_row(bytes@.subrange(pos as int, bytes@.len() as int)) {
            Some((row, c)) => r is Some && (r->Some_0.0.uid@, opt_bytes(r->Some_0.0.old_value),
            r->Some_0.0.new_value@) == row && r->Some_0.1 == pos + c,
            None => r is None,
        },
{
    let ghost s = bytes@.subrange(pos as int, bytes@.len() as int);
    match read_uid(bytes, pos) {
        None => None,
        Some((uid, first_end)) => {
            let ghost t = s.subrange(UID_LENGTH as int, s.len() as int);
            assert(t =~= bytes@.subrange(first_end as int, bytes@.len() as int));
            match read_vec(bytes, first_end) {
                None => None,
                Some((o, second_end)) => {
                    let ghost c1 = (second_end - first_end) as nat;
                    assert(t.subrange(c1 as int, t.len() as int) =~= bytes@.subrange(
                        second_end as int,
                        bytes@.len() as int,
                    ));
                    match read_vec(bytes, second_end) {
                        None => None,
                        Some((n, third_end)) => {
                            let old_value = if o.len() == 0 {
                                None
                            } else {
                                Some(o)
                            };
                            Some((UpsertRow { uid, old_value, new_value: n }, third_end))
                        },
                    }
                },
            }
        },
    }
}

/// Decodes a set of uids: the count, then each uid's 32 bytes, and nothing
/// after. Uids come back in the order they are written.
pub fn decode_uid_set(bytes: &[u8]) -> (r: Result<Vec<Vec<u8>>, Error>)
    ensures
        match uid_set_of(bytes@) {
            Some(us) => r is Ok && uids_model(r->Ok_0@) == us,
            None => r matches Err(Error::MalformedPayload),
        },
{
    assert(bytes@.subrange(0, bytes@.len() as int) =~= bytes@);
    let _total = bytes.len();
    let (count, start) = match read_leb128(bytes, 0) {
        Some(x) => x,
        None => {
            return Err(Error::MalformedPayload);
        },
    };
    proof {
        lemma_leb_parse_facts(bytes@, 0);
        lemma_leb_bound_max(0);
        assert(leb_parse(bytes@, 0) == Some((count as nat, start as nat)));
    }
    let ghost whole = bytes@.subrange(start as int, bytes@.len() as int);
    let mut out: Vec<Vec<u8>> = Vec::new();
    let mut pos = start;
    let mut k: u64 = 0;
    while k < count
        invariant
            start <= pos <= bytes@.len(),
            k <= count,
            whole == bytes@.subrange(start as int, bytes@.len() as int),
            leb_parse(bytes@, 0) == Some((count as nat, start as nat)),
            parse_list(whole, count as nat, uid_item()) == match parse_list(
                bytes@.subrange(pos as int, bytes@.len() as int),
                (count - k) as nat,
                uid_item(),
            ) {
                Some((rest, d)) => Some((uids_model(out@) + rest, ((pos - start) + d) as nat)),
                None => None::<(Seq<Seq<u8>>, nat)>,
            },
        decreases count - k,
    {
        let ghost here = bytes@.subrange(pos as int, bytes@.len() as int);
        match read_uid(bytes, pos) {
            None => {
                proof {
                    assert(uid_item()(here) == parse_uid(here));
                    assert(uid_item()(here) is None);
                    assert(parse_list(here, (count - k) as nat, uid_item()) is None);
                    assert(parse_list(whole, count as nat, uid_item()) is None);
                    assert(leb_parse(bytes@, 0) == Some((count as nat, start as nat)));
                }
                return Err(Error::MalformedPayload);
            },
            Some((u, next)) => {
                let ghost c = (next - pos) as nat;
                assert(here.subrange(c as int, here.len() as int) =~= bytes@.subrange(
                    next as int,
                    bytes@.len() as int,
                ));
                let ghost before = uids_model(out@);
                out.push(u);
                assert(uids_model(out@) =~= before.push(u@));
                proof {
                    match parse_list(bytes@.subrange(next as int, bytes@.len() as int), (count - k - 1) as nat, uid_item()) {
                        Some((rest, d)) => {
                            assert(before + (seq![u@] + rest) =~= uids_model(out@) + rest);
                        },
                        None => {},
                    }
                    assert(uid_item()(here) == parse_uid(here));
                    assert(uid_item()(here) == Some((u@, c)));
                    assert(parse_list(here, (count - k) as nat, uid_item()) == match parse_list(
                        bytes@.subrange(next as int, bytes@.len() as int),
                        (count - k - 1) as nat,
                        uid_item(),
                    ) {
                        Some((rest, d)) => Some((seq![u@] + rest, c + d)),
                        None => None,
                    });
                }
                pos = next;
                k = k + 1;
            },
        }
    }
    if pos != bytes.len() {
        return Err(Error::MalformedPayload);
    }
    assert(uids_model(out@) + Seq::<Seq<u8>>::empty() =~= uids_model(out@));
    Ok(out)
}

/// Decodes a table: the count, then each uid and its length-prefixed
/// value, and nothing after. Pairs come back in the order they are written.
pub fn decode_table(bytes: &[u8]) -> (r: Result<Vec<(Vec<u8>, Vec<u8>)>, Error>)
    ensures
        match table_of(bytes@) {
            Some(ps) => r is Ok && pairs_model(r->Ok_0@) == ps,
            None => r matches Err(Error::MalformedPayload),
        },
{
    assert(bytes@.subrange(0, bytes@.len() as int) =~= bytes@);
    let _total = bytes.len();
    let (count, start) = match read_leb128(bytes, 0) {
        Some(x) => x,
        None => {
            return Err(Error::MalformedPayload);
        },
    };
    proof {
        lemma_leb_parse_facts(bytes@, 0);
        lemma_leb_bound_max(0);
        assert(leb_parse(bytes@, 0) == Some((count as nat, start as nat)));
    }
    let ghost whole = bytes@.subrange(start as int, bytes@.len() as int);
    let mut out: Vec<(Vec<u8>, Vec<u8>)> = Vec::new();
    let mut pos = start;
    let mut k: u64 = 0;
    while k < count
        invariant
            start <= pos <= bytes@.len(),
            k <= count,
            whole == bytes@.subrange(start as int, bytes@.len() as int),
            leb_parse(bytes@, 0) == Some((count as nat, start as nat)),
            parse_list(whole, count as nat, pair_item()) == match parse_list(
                bytes@.subrange(pos as int, bytes@.len() as int),
                (count - k) as nat,
                pair_item(),
            ) {
                Some((rest, d)) => Some((pairs_model(out@) + rest, ((pos - start) + d) as nat)),
                None => None::<(Seq<(Seq<u8>, Seq<u8>)>, nat)>,
            },
        decreases count - k,
    {
        let ghost here = bytes@.subrange(pos as int, bytes@.len() as int);
        match read_pair(bytes, pos) {
            None => {
                proof {
                    assert(pair_item()(here) == parse_pair(here));
                    assert(pair_item()(here) is None);
                    assert(parse_list(here, (count - k) as nat, pair_item()) is None);
                    assert(parse_list(whole, count as nat, pair_item()) is None);
                    assert(leb_parse(bytes@, 0) == Some((count as nat, start as nat)));
                }
                return Err(Error::MalformedPayload);
            },
            Some((p, next)) => {
                let ghost c = (next - pos) as nat;
                assert(here.subrange(c as int, here.len() as int) =~= bytes@.subrange(
                    next as int,
                    bytes@.len() as int,
                ));
                let ghost before = pairs_model(out@);
                let ghost pv = (p.0@, p.1@);
                out.push(p);
                assert(pairs_model(out@) =~= before.push(pv));
                proof {
                    match parse_list(bytes@.subrange(next as int, bytes@.len() as int), (count - k - 1) as nat, pair_item()) {
                        Some((rest, d)) => {
                            assert(before + (seq![pv] + rest) =~= pairs_model(out@) + rest);
                        },
                        None => {},
                    }
                    assert(pair_item()(here) == parse_pair(here));
                    assert(pair_item()(here) == Some((pv, c)));
                    assert(parse_list(here, (count - k) as nat, pair_item()) == match parse_list(
                        bytes@.subrange(next as int, bytes@.len() as int),
                        (count - k - 1) as nat,
                        pair_item(),
                    ) {
                        Some((rest, d)) => Some((seq![pv] + rest, c + d)),
                        None => None,
                    });
                }
                pos = next;
                k = k + 1;
            },
        }
    }
    if pos != bytes.len() {
        return Err(Error::MalformedPayload);
    }
    assert(pairs_model(out@) + Seq::<(Seq<u8>, Seq<u8>)>::empty() =~= pairs_model(out@));
    Ok(out)
}

/// Decodes upsert rows: the count, then each uid, length-prefixed old value
/// (empty for none) and length-prefixed new value, and nothing after. Rows
/// come back in the order they are written.
pub fn decode_upsert_data(bytes: &[u8]) -> (r: Result<Vec<UpsertRow>, Error>)
    ensures
        match upsert_of(bytes@) {
            Some(rows) => r is Ok && rows_model(r->Ok_0@) == rows,
            None => r matches Err(Error::MalformedPayload),
        },
{
    assert(bytes@.subrange(0, bytes@.len() as int) =~= bytes@);
    let _total = bytes.len();
    let (count, start) = match read_leb128(bytes, 0) {
        Some(x) => x,
        None => {
            return Err(Error::MalformedPayload);
        },
    };
    proof {
        lemma_leb_parse_facts(bytes@, 0);
        lemma_leb_bound_max(0);
        assert(leb_parse(bytes@, 0) == Some((count as nat, start as nat)));
    }
    let ghost whole = bytes@.subrange(start as int, bytes@.len() as int);
    let mut out: Vec<UpsertRow> = Vec::new();
    let mut pos = start;
    let mut k: u64 = 0;
    while k < count
        invariant
            start <= pos <= bytes@.len(),
            k <= count,
            whole == bytes@.subrange(start as int, bytes@.len() as int),
            leb_parse(bytes@, 0) == Some((count as nat, start as nat)),
            parse_list(whole, count as nat, row_item()) == match parse_list(
                bytes@.subrange(pos as int, bytes@.len() as int),
                (count - k) as nat,
                row_item(),
            ) {
                Some((rest, d)) => Some((rows_model(out@) + rest, ((pos - start) + d) as nat)),
                None => None::<(Seq<RowModel>, nat)>,
            },
        decreases count - k,
    {
        let ghost here = bytes@.subrange(pos as int, bytes@.len() as int);
        match read_row(bytes, pos) {
            None => {
                proof {
                    assert(row_item()(here) == parse_row(here));
                    assert(row_item()(here) is None);
                    assert(parse_list(here, (count - k) as nat, row_item()) is None);
                    assert(parse_list(whole, count as nat, row_item()) is None);
                    assert(leb_parse(bytes@, 0) == Some((count as nat, start as nat)));
                }
                return Err(Error::MalformedPayload);
            },
            Some((row, next)) => {
                let ghost c = (next - pos) as nat;
                assert(here.subrange(c as int, here.len() as int) =~= bytes@.subrange(
                    next as int,
                    bytes@.len() as int,
                ));
                let ghost before = rows_model(out@);
                let ghost rv = (row.uid@, opt_bytes(row.old_value), row.new_value@);
                out.push(row);
                assert(rows_model(out@) =~= before.push(rv));
                proof {
                    match parse_list(bytes@.subrange(next as int, bytes@.len() as int), (count - k - 1) as nat, row_item()) {
                        Some((rest, d)) => {
                            assert(before + (seq![rv] + rest) =~= rows_model(out@) + rest);
                        },
                        None => {},
                    }
                    assert(row_item()(here) == parse_row(here));
                    assert(row_item()(here) == Some((rv, c)));
                    assert(parse_list(here, (count - k) as nat, row_item()) == match parse_list(
                        bytes@.subrange(next as int, bytes@.len() as int),
                        (count - k - 1) as nat,
                        row_item(),
                    ) {
                        Some((rest, d)) => Some((seq![rv] + rest, c + d)),
                        None => None,
                    });
                }
                pos = next;
                k = k + 1;
            },
        }
    }
    if pos != bytes.len() {
        return Err(Error::MalformedPayload);
    }
    assert(rows_model(out@) + Seq::<RowModel>::empty() =~= rows_model(out@));
    Ok(out)
}

/// Appends a length-prefixed byte string.
fn write_vec(out: &mut Vec<u8>, v: &[u8])
    ensures
        final(out)@ == old(out)@ + vec_bytes(v@),
{
    write_leb128(out, v.len() as u64);
    append_bytes(out, v);
    assert(final(out)@ =~= old(out)@ + vec_bytes(v@));
}

/// Encodes a set of uids: the count, then each uid's bytes, in order.
pub fn encode_uid_set(uids: &Vec<Vec<u8>>) -> (r: Vec<u8>)
    ensures
        r@ == uid_set_bytes(uids_model(uids@)),
{
    let ghost xs = uids_model(uids@);
    let mut out: Vec<u8> = Vec::new();
    write_leb128(&mut out, uids.len() as u64);
    let mut i: usize = 0;
    while i < uids.len()
        invariant
            0 <= i <= uids@.len(),
            xs == uids_model(uids@),
            out@ == leb128(uids@.len() as nat) + enc_list(xs.subrange(0, i as int), uid_enc()),
        decreases uids.len() - i,
    {
        proof {
            assert(xs.subrange(0, i as int + 1) =~= xs.subrange(0, i as int).push(xs[i as int]));
            lemma_enc_list_push(xs.subrange(0, i as int), xs[i as int], uid_enc());
        }
        append_bytes(&mut out, uids[i].as_slice());
        i = i + 1;
        assert(out@ =~= leb128(uids@.len() as nat) + enc_list(xs.subrange(0, i as int), uid_enc()));
    }
    assert(xs.subrange(0, i as int) =~= xs);
    out
}

/// Encodes a table: the count, then each uid and its length-prefixed value,
/// in order.
pub fn encode_table(pairs: &Vec<(Vec<u8>, Vec<u8>)>) -> (r: Vec<u8>)
    ensures
        r@ == table_bytes(pairs_model(pairs@)),
{
    let ghost xs = pairs_model(pairs@);
    let mut out: Vec<u8> = Vec::new();
    write_leb128(&mut out, pairs.len() as u64);
    let mut i: usize = 0;
    while i < pairs.len()
        invariant
            0 <= i <= pairs@.len(),
            xs == pairs_model(pairs@),
            out@ == leb128(pairs@.len() as nat) + enc_list(xs.subrange(0, i as int), pair_enc()),
        decreases pairs.len() - i,
    {
        proof {
            assert(xs.subrange(0, i as int + 1) =~= xs.subrange(0, i as int).push(xs[i as int]));
            lemma_enc_list_push(xs.subrange(0, i as int), xs[i as int], pair_enc());
        }
        append_bytes(&mut out, pairs[i].0.as_slice());
        write_vec(&mut out, pairs[i].1.as_slice());
        i = i + 1;
        assert(out@ =~= leb128(pairs@.len() as nat) + enc_list(xs.subrange(0, i as int), pair_enc()));
    }
    assert(xs.subrange(0, i as int) =~= xs);
    out
}

/// Encodes upsert rows: the count, then each uid, length-prefixed old value
/// (empty for none) and length-prefixed new value, in order.
pub fn encode_upsert_data(rows: &Vec<UpsertRow>) -> (r: Vec<u8>)
    ensures
        r@ == upsert_bytes(rows_model(rows@)),
{
    let ghost xs = rows_model(rows@);
    let mut out: Vec<u8> = Vec::new();
    write_leb128(&mut out, rows.len() as u64);
    let mut i: usize = 0;
    while i < rows.len()
        invariant
            0 <= i <= rows@.len(),
            xs == rows_model(rows@),
            out@ == leb128(rows@.len() as nat) + enc_list(xs.subrange(0, i as int), row_enc()),
        decreases rows.len() - i,
    {
        proof {
            assert(xs.subrange(0, i as int + 1) =~= xs.subrange(0, i as int).push(xs[i as int]));
            lemma_enc_list_push(xs.subrange(0, i as int), xs[i as int], row_enc());
        }
        let row = &rows[i];
        append_bytes(&mut out, row.uid.as_slice());
        match &row.old_value {
            Some(o) => write_vec(&mut out, o.as_slice()),
            None => {
                let empty: Vec<u8> = Vec::new();
                write_vec(&mut out, empty.as_slice());
                assert(empty@ =~= Seq::<u8>::empty());
            },
        }
        write_vec(&mut out, row.new_value.as_slice());
        i = i + 1;
        assert(out@ =~= leb128(rows@.len() as nat) + enc_list(xs.subrange(0, i as int), row_enc()));
    }
    assert(xs.subrange(0, i as int) =~= xs);
    out
}

/// A pair whose uid has the uid length and whose value length fits a
/// 64-bit count.
pub open spec fn pair_valid(p: (Seq<u8>, Seq<u8>)) -> bool {
    p.0.len() == UID_LENGTH && p.1.len() < 0x1_0000_0000_0000_0000
}

/// A row whose uid has the uid length, whose value lengths fit a 64-bit
/// count, and whose old value, when present, is not empty (an empty old
/// value is written as none).
pub open spec fn row_valid(r: RowModel) -> bool {
    &&& r.0.len() == UID_LENGTH
    &&& old_or_empty(r.1).len() < 0x1_0000_0000_0000_0000
    &&& r.2.len() < 0x1_0000_0000_0000_0000
    &&& r.1 != Some(Seq::<u8>::empty())
}

proof fn lemma_uid_item(x: Seq<u8>, r: Seq<u8>)
    requires
        x.len() == UID_LENGTH,
    ensures
        uid_item()(uid_enc()(x) + r) == Some((x, uid_enc()(x).len())),
{
    assert((x + r).subrange(0, UID_LENGTH as int) =~= x);
}

proof fn lemma_pair_item(x: (Seq<u8>, Seq<u8>), r: Seq<u8>)
    requires
        pair_valid(x),
    ensures
        pair_item()(pair_enc()(x) + r) == Some((x, pair_enc()(x).len())),
{
    let s = x.0 + vec_bytes(x.1) + r;
    assert(s.subrange(0, UID_LENGTH as int) =~= x.0);
    assert(s.subrange(UID_LENGTH as int, s.len() as int) =~= vec_bytes(x.1) + r);
    lemma_vec_round_trip(x.1, r);
}

proof fn lemma_row_item(x: RowModel, r: Seq<u8>)
    requires
        row_valid(x),
    ensures
        row_item()(row_enc()(x) + r) == Some((x, row_enc()(x).len())),
{
    let o = old_or_empty(x.1);
    let s = x.0 + vec_bytes(o) + vec_bytes(x.2) + r;
    assert(s.subrange(0, UID_LENGTH as int) =~= x.0);
    let t = s.subrange(UID_LENGTH as int, s.len() as int);
    assert(t =~= vec_bytes(o) + (vec_bytes(x.2) + r));
    lemma_vec_round_trip(o, vec_bytes(x.2) + r);
    let c1 = vec_bytes(o).len();
    assert(t.subrange(c1 as int, t.len() as int) =~= vec_bytes(x.2) + r);
    lemma_vec_round_trip(x.2, r);
    assert(s =~= row_enc()(x) + r);
    let oo: Option<Seq<u8>> = if o.len() == 0 {
        None
    } else {
        Some(o)
    };
    if o.len() == 0 {
        assert(o =~= Seq::<u8>::empty());
    }
    assert(oo == x.1);
    assert(parse_row(s) == Some(((x.0, x.1, x.2), (UID_LENGTH + c1 + vec_bytes(x.2).len()) as nat)));
}

proof fn lemma_pair_item_canonical(t: Seq<u8>)
    requires
        pair_item()(t) is Some,
    ensures
        pair_item()(t).unwrap().1 <= t.len(),
        t.subrange(0, pair_item()(t).unwrap().1 as int) == pair_enc()(pair_item()(t).unwrap().0),
{
    let u = t.subrange(UID_LENGTH as int, t.len() as int);
    lemma_vec_canonical(u);
    let (v, c) = parse_vec(u).unwrap();
    assert(t.subrange(0, UID_LENGTH + c) =~= t.subrange(0, UID_LENGTH as int) + u.subrange(0, c as int));
}

proof fn lemma_row_item_canonical(t: Seq<u8>)
    requires
        row_item()(t) is Some,
    ensures
        row_item()(t).unwrap().1 <= t.len(),
        t.subrange(0, row_item()(t).unwrap().1 as int) == row_enc()(row_item()(t).unwrap().0),
{
    let u = t.subrange(UID_LENGTH as int, t.len() as int);
    lemma_vec_canonical(u);
    let (o, c1) = parse_vec(u).unwrap();
    let w = u.subrange(c1 as int, u.len() as int);
    lemma_vec_canonical(w);
    let (n, c2) = parse_vec(w).unwrap();
    let oo: Option<Seq<u8>> = if o.len() == 0 {
        None
    } else {
        Some(o)
    };
    assert(old_or_empty(oo) =~= o);
    assert(t.subrange(0, UID_LENGTH + c1 + c2) =~= t.subrange(0, UID_LENGTH as int) + u.subrange(
        0,
        c1 as int,
    ) + w.subrange(0, c2 as int));
}

/// Decoding an encoded uid set gives the uids back, in order.
pub proof fn lemma_uid_set_round_trip(uids: Seq<Seq<u8>>)
    requires
        forall|i: int| 0 <= i < uids.len() ==> (#[trigger] uids[i]).len() == UID_LENGTH,
        uids.len() < 0x1_0000_0000_0000_0000,
    ensures
        uid_set_of(uid_set_bytes(uids)) == Some(uids),
{
    let valid = |u: Seq<u8>| u.len() == UID_LENGTH;
    assert forall|x: Seq<u8>, r: Seq<u8>| #[trigger] valid(x) implies #[trigger] uid_item()(
        uid_enc()(x) + r,
    ) == Some((x, uid_enc()(x).len())) by {
        lemma_uid_item(x, r);
    }
    assert forall|i: int| 0 <= i < uids.len() implies #[trigger] valid(uids[i]) by {}
    lemma_framed_round_trip(uids, uid_item(), uid_enc(), valid);
}

/// A decoded uid set encodes back to the very bytes it came from.
pub proof fn lemma_uid_set_canonical(bytes: Seq<u8>)
    requires
        uid_set_of(bytes) is Some,
    ensures
        uid_set_bytes(uid_set_of(bytes).unwrap()) == bytes,
{
    assert forall|t: Seq<u8>| (#[trigger] uid_item()(t)) is Some implies uid_item()(t).unwrap().1
        <= t.len() && t.subrange(0, uid_item()(t).unwrap().1 as int) == uid_enc()(
        uid_item()(t).unwrap().0,
    ) by {}
    lemma_framed_canonical(bytes, uid_item(), uid_enc());
}

/// Decoding an encoded table gives its pairs back, in order.
pub proof fn lemma_table_round_trip(pairs: Seq<(Seq<u8>, Seq<u8>)>)
    requires
        forall|i: int| 0 <= i < pairs.len() ==> pair_valid(#[trigger] pairs[i]),
        pairs.len() < 0x1_0000_0000_0000_0000,
    ensures
        table_of(table_bytes(pairs)) == Some(pairs),
{
    let valid = |p: (Seq<u8>, Seq<u8>)| pair_valid(p);
    assert forall|x: (Seq<u8>, Seq<u8>), r: Seq<u8>| #[trigger] valid(x) implies #[trigger] pair_item()(
        pair_enc()(x) + r,
    ) == Some((x, pair_enc()(x).len())) by {
        lemma_pair_item(x, r);
    }
    assert forall|i: int| 0 <= i < pairs.len() implies #[trigger] valid(pairs[i]) by {}
    lemma_framed_round_trip(pairs, pair_item(), pair_enc(), valid);
}

/// A decoded table encodes back to the very bytes it came from.
pub proof fn lemma_table_canonical(bytes: Seq<u8>)
    requires
        table_of(bytes) is Some,
    ensures
        table_bytes(table_of(bytes).unwrap()) == bytes,
{
    assert forall|t: Seq<u8>| (#[trigger] pair_item()(t)) is Some implies pair_item()(t).unwrap().1
        <= t.len() && t.subrange(0, pair_item()(t).unwrap().1 as int) == pair_enc()(
        pair_item()(t).unwrap().0,
    ) by {
        lemma_pair_item_canonical(t);
    }
    lemma_framed_canonical(bytes, pair_item(), pair_enc());
}

/// Decoding encoded upsert rows gives them back, in order.
pub proof fn lemma_upsert_round_trip(rows: Seq<RowModel>)
    requires
        forall|i: int| 0 <= i < rows.len() ==> row_valid(#[trigger] rows[i]),
        rows.len() < 0x1_0000_0000_0000_0000,
    ensures
        upsert_of(upsert_bytes(rows)) == Some(rows),
{
    let valid = |r: RowModel| row_valid(r);
    assert forall|x: RowModel, r: Seq<u8>| #[trigger] valid(x) implies #[trigger] row_item()(
        row_enc()(x) + r,
    ) == Some((x, row_enc()(x).len())) by {
        lemma_row_item(x, r);
    }
    assert forall|i: int| 0 <= i < rows.len() implies #[trigger] valid(rows[i]) by {}
    lemma_framed_round_trip(rows, row_item(), row_enc(), valid);
}

/// Decoded upsert rows encode back to the very bytes they came from.
pub proof fn lemma_upsert_canonical(bytes: Seq<u8>)
    requires
        upsert_of(bytes) is Some,
    ensures
        upsert_bytes(upsert_of(bytes).unwrap()) == bytes,
{
    assert forall|t: Seq<u8>| (#[trigger] row_item()(t)) is Some implies row_item()(t).unwrap().1
        <= t.len() && t.subrange(0, row_item()(t).unwrap().1 as int) == row_enc()(
        row_item()(t).unwrap().0,
    ) by {
        lemma_row_item_canonical(t);
    }
    lemma_framed_canonical(bytes, row_item(), row_enc());
}

} // verus!
