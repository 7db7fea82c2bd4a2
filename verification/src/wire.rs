//! The binary message codec.
//!
//! Requests and responses travel as a tag/length-prefixed field encoding:
//! multi-byte integers are little-endian, strings and byte blobs carry a
//! 32-bit length followed by their bytes (strings as UTF-8), vectors
//! carry a 32-bit count followed by their items, and a value or a
//! request starts with one tag byte naming its variant.
//!
//! The encoding is stated twice: as spec functions over sequences, which
//! the contracts and the round-trip proofs speak of, and as executable
//! functions proved against them. Decoding is strict: a payload decodes
//! only if the parse consumes it exactly, so `decode(encode(m)) == m`
//! holds for every well-formed message.

use crate::error::FrameError;
use crate::pb::pairs_view;
use crate::pb::strs_view;
use crate::pb::values_view;
use crate::pb::CommandRequest;
use crate::pb::CommandResponse;
use crate::pb::Hdel;
use crate::pb::Hexist;
use crate::pb::Hget;
use crate::pb::Hgetall;
use crate::pb::Hmdel;
use crate::pb::Hmexist;
use crate::pb::Hmget;
use crate::pb::Hmset;
use crate::pb::Hset;
use crate::pb::Kvpair;
use crate::pb::KvpairV;
use crate::pb::ReqV;
use crate::pb::RespV;
use crate::pb::Value;
use crate::pb::ValueV;
use vstd::prelude::*;
use vstd::utf8::decode_utf8;
use vstd::utf8::encode_utf8;
use vstd::utf8::encode_utf8_decode_utf8;
use vstd::utf8::encode_utf8_valid_utf8;
use vstd::utf8::valid_utf8;

verus! {

/// A 32-bit integer as four little-endian bytes.
pub open spec fn enc_u32(n: u32) -> Seq<u8> {
    seq![n as u8, (n >> 8) as u8, (n >> 16) as u8, (n >> 24) as u8]
}

/// The 32-bit integer four little-endian bytes stand for.
pub open spec fn u32_from_le(b0: u8, b1: u8, b2: u8, b3: u8) -> u32 {
    (b0 as u32) | ((b1 as u32) << 8) | ((b2 as u32) << 16) | ((b3 as u32) << 24)
}

/// A 64-bit integer as eight little-endian bytes.
pub open spec fn enc_u64(n: u64) -> Seq<u8> {
    seq![
        n as u8,
        (n >> 8) as u8,
        (n >> 16) as u8,
        (n >> 24) as u8,
        (n >> 32) as u8,
        (n >> 40) as u8,
        (n >> 48) as u8,
        (n >> 56) as u8,
    ]
}

/// The 64-bit integer eight little-endian bytes stand for.
pub open spec fn u64_from_le(
    b0: u8,
    b1: u8,
    b2: u8,
    b3: u8,
    b4: u8,
    b5: u8,
    b6: u8,
    b7: u8,
) -> u64 {
    (b0 as u64) | ((b1 as u64) << 8) | ((b2 as u64) << 16) | ((b3 as u64) << 24) | ((b4 as u64)
        << 32) | ((b5 as u64) << 40) | ((b6 as u64) << 48) | ((b7 as u64) << 56)
}

/// Parses a 32-bit integer from the front of `b`.
pub open spec fn dec_u32(b: Seq<u8>) -> Option<(u32, int)> {
    if b.len() >= 4 {
        Some((u32_from_le(b[0], b[1], b[2], b[3]), 4int))
    } else {
        None
    }
}

/// Parses a 64-bit integer from the front of `b`.
pub open spec fn dec_u64(b: Seq<u8>) -> Option<(u64, int)> {
    if b.len() >= 8 {
        Some((u64_from_le(b[0], b[1], b[2], b[3], b[4], b[5], b[6], b[7]), 8int))
    } else {
        None
    }
}

/// A string fits the wire when its UTF-8 form fits a 32-bit length.
pub open spec fn wf_str(s: Seq<char>) -> bool {
    encode_utf8(s).len() <= 0xFFFF_FFFF
}

/// A string as a 32-bit byte length followed by its UTF-8 bytes.
pub open spec fn enc_str(s: Seq<char>) -> Seq<u8> {
    enc_u32(encode_utf8(s).len() as u32) + encode_utf8(s)
}

/// Parses a string from the front of `b`: its byte length, then that
/// many bytes, which must be valid UTF-8.
pub open spec fn dec_str(b: Seq<u8>) -> Option<(Seq<char>, int)> {
    match dec_u32(b) {
        Some((len, c)) => {
            let n = len as int;
            if c + n <= b.len() {
                let bytes = b.subrange(c, c + n);
                if valid_utf8(bytes) {
                    Some((decode_utf8(bytes), c + n))
                } else {
                    None
                }
            } else {
                None
            }
        },
        None => None,
    }
}

/// A byte blob as a 32-bit length followed by the bytes.
pub open spec fn enc_blob(bs: Seq<u8>) -> Seq<u8> {
    enc_u32(bs.len() as u32) + bs
}

/// Parses a byte blob from the front of `b`.
pub open spec fn dec_blob(b: Seq<u8>) -> Option<(Seq<u8>, int)> {
    match dec_u32(b) {
        Some((len, c)) => {
            let n = len as int;
            if c + n <= b.len() {
                Some((b.subrange(c, c + n), c + n))
            } else {
                None
            }
        },
        None => None,
    }
}

/// A value fits the wire when its variable-sized parts fit their 32-bit
/// lengths.
pub open spec fn wf_value(v: ValueV) -> bool {
    match v {
        ValueV::Empty => true,
        ValueV::Str(s) => wf_str(s),
        ValueV::Int(_) => true,
        ValueV::Bool(_) => true,
        ValueV::Double(_) => true,
        ValueV::Binary(bs) => bs.len() <= 0xFFFF_FFFF,
    }
}

/// A value as one tag byte followed by its payload.
pub open spec fn enc_value(v: ValueV) -> Seq<u8> {
    match v {
        ValueV::Empty => seq![0u8],
        ValueV::Str(s) => seq![1u8] + enc_str(s),
        ValueV::Int(i) => seq![2u8] + enc_u64(i as u64),
        ValueV::Bool(b) => seq![3u8, if b { 1u8 } else { 0u8 }],
        ValueV::Double(d) => seq![4u8] + enc_u64(d),
        ValueV::Binary(bs) => seq![5u8] + enc_blob(bs),
    }
}

/// Parses a value from the front of `b`. A boolean byte other than 0 or
/// 1, or an unknown tag, is rejected.
pub open spec fn dec_value(b: Seq<u8>) -> Option<(ValueV, int)> {
    if b.len() < 1 {
        None
    } else if b[0] == 0u8 {
        Some((ValueV::Empty, 1int))
    } else if b[0] == 1u8 {
        match dec_str(b.skip(1)) {
            Some((s, c)) => Some((ValueV::Str(s), 1 + c)),
            None => None,
        }
    } else if b[0] == 2u8 {
        match dec_u64(b.skip(1)) {
            Some((n, c)) => Some((ValueV::Int(n as i64), 1 + c)),
            None => None,
        }
    } else if b[0] == 3u8 {
        if b.len() >= 2 && (b[1] == 0u8 || b[1] == 1u8) {
            Some((ValueV::Bool(b[1] == 1u8), 2int))
        } else {
            None
        }
    } else if b[0] == 4u8 {
        match dec_u64(b.skip(1)) {
            Some((n, c)) => Some((ValueV::Double(n), 1 + c)),
            None => None,
        }
    } else if b[0] == 5u8 {
        match dec_blob(b.skip(1)) {
            Some((bs, c)) => Some((ValueV::Binary(bs), 1 + c)),
            None => None,
        }
    } else {
        None
    }
}

/// A pair fits the wire when its key and value do.
pub open spec fn wf_pair(p: KvpairV) -> bool {
    wf_str(p.key) && wf_value(p.value)
}

/// A pair as its key followed by its value.
pub open spec fn enc_pair(p: KvpairV) -> Seq<u8> {
    enc_str(p.key) + enc_value(p.value)
}

/// Parses a pair from the front of `b`.
pub open spec fn dec_pair(b: Seq<u8>) -> Option<(KvpairV, int)> {
    match dec_str(b) {
        Some((k, c1)) => match dec_value(b.skip(c1)) {
            Some((v, c2)) => Some((KvpairV { key: k, value: v }, c1 + c2)),
            None => None,
        },
        None => None,
    }
}

/// The items of a string list, one after the other.
pub open spec fn enc_strs_items(xs: Seq<Seq<char>>) -> Seq<u8>
    decreases xs.len(),
{
    if xs.len() == 0 {
        Seq::empty()
    } else {
        enc_str(xs[0]) + enc_strs_items(xs.drop_first())
    }
}

/// A string list as a 32-bit count followed by its items.
pub open spec fn enc_strs(xs: Seq<Seq<char>>) -> Seq<u8> {
    enc_u32(xs.len() as u32) + enc_strs_items(xs)
}

/// Parses `n` strings from the front of `b`.
pub open spec fn dec_strs_items(b: Seq<u8>, n: nat) -> Option<(Seq<Seq<char>>, int)>
    decreases n,
{
    if n == 0 {
        Some((Seq::empty(), 0int))
    } else {
        match dec_str(b) {
            Some((s, c1)) => match dec_strs_items(b.skip(c1), (n - 1) as nat) {
                Some((rest, c2)) => Some((seq![s] + rest, c1 + c2)),
                None => None,
            },
            None => None,
        }
    }
}

/// Parses a string list from the front of `b`.
pub open spec fn dec_strs(b: Seq<u8>) -> Option<(Seq<Seq<char>>, int)> {
    match dec_u32(b) {
        Some((n, c)) => match dec_strs_items(b.skip(c), n as nat) {
            Some((xs, c2)) => Some((xs, c + c2)),
            None => None,
        },
        None => None,
    }
}

/// The items of a value list, one after the other.
pub open spec fn enc_values_items(xs: Seq<ValueV>) -> Seq<u8>
    decreases xs.len(),
{
    if xs.len() == 0 {
        Seq::empty()
    } else {
        enc_value(xs[0]) + enc_values_items(xs.drop_first())
    }
}

/// A value list as a 32-bit count followed by its items.
pub open spec fn enc_values(xs: Seq<ValueV>) -> Seq<u8> {
    enc_u32(xs.len() as u32) + enc_values_items(xs)
}

/// Parses `n` values from the front of `b`.
pub open spec fn dec_values_items(b: Seq<u8>, n: nat) -> Option<(Seq<ValueV>, int)>
    decreases n,
{
    if n == 0 {
        Some((Seq::empty(), 0int))
    } else {
        match dec_value(b) {
            Some((v, c1)) => match dec_values_items(b.skip(c1), (n - 1) as nat) {
                Some((rest, c2)) => Some((seq![v] + rest, c1 + c2)),
                None => None,
            },
            None => None,
        }
    }
}

/// Parses a value list from the front of `b`.
pub open spec fn dec_values(b: Seq<u8>) -> Option<(Seq<ValueV>, int)> {
    match dec_u32(b) {
        Some((n, c)) => match dec_values_items(b.skip(c), n as nat) {
            Some((xs, c2)) => Some((xs, c + c2)),
            None => None,
        },
        None => None,
    }
}

/// The items of a pair list, one after the other.
pub open spec fn enc_pairs_items(xs: Seq<KvpairV>) -> Seq<u8>
    decreases xs.len(),
{
    if xs.len() == 0 {
        Seq::empty()
    } else {
        enc_pair(xs[0]) + enc_pairs_items(xs.drop_first())
    }
}

/// A pair list as a 32-bit count followed by its items.
pub open spec fn enc_pairs(xs: Seq<KvpairV>) -> Seq<u8> {
    enc_u32(xs.len() as u32) + enc_pairs_items(xs)
}

/// Parses `n` pairs from the front of `b`.
pub open spec fn dec_pairs_items(b: Seq<u8>, n: nat) -> Option<(Seq<KvpairV>, int)>
    decreases n,
{
    if n == 0 {
        Some((Seq::empty(), 0int))
    } else {
        match dec_pair(b) {
            Some((p, c1)) => match dec_pairs_items(b.skip(c1), (n - 1) as nat) {
                Some((rest, c2)) => Some((seq![p] + rest, c1 + c2)),
                None => None,
            },
            None => None,
        }
    }
}

/// Parses a pair list from the front of `b`.
pub open spec fn dec_pairs(b: Seq<u8>) -> Option<(Seq<KvpairV>, int)> {
    match dec_u32(b) {
        Some((n, c)) => match dec_pairs_items(b.skip(c), n as nat) {
            Some((xs, c2)) => Some((xs, c + c2)),
            None => None,
        },
        None => None,
    }
}

/// A list fits the wire when its count fits 32 bits and every item fits.
pub open spec fn wf_strs(xs: Seq<Seq<char>>) -> bool {
    xs.len() <= 0xFFFF_FFFF && forall|i: int| 0 <= i < xs.len() ==> wf_str(#[trigger] xs[i])
}

/// A list fits the wire when its count fits 32 bits and every item fits.
pub open spec fn wf_values(xs: Seq<ValueV>) -> bool {
    xs.len() <= 0xFFFF_FFFF && forall|i: int| 0 <= i < xs.len() ==> wf_value(#[trigger] xs[i])
}

/// A list fits the wire when its count fits 32 bits and every item fits.
pub open spec fn wf_pairs(xs: Seq<KvpairV>) -> bool {
    xs.len() <= 0xFFFF_FFFF && forall|i: int| 0 <= i < xs.len() ==> wf_pair(#[trigger] xs[i])
}

/// A request fits the wire when each of its parts does.
pub open spec fn wf_req(r: ReqV) -> bool {
    match r {
        ReqV::Hset { table, pair } => wf_str(table) && wf_pair(pair),
        ReqV::Hget { table, key } => wf_str(table) && wf_str(key),
        ReqV::Hgetall { table } => wf_str(table),
        ReqV::Hmget { table, keys } => wf_str(table) && wf_strs(keys),
        ReqV::Hmset { table, pairs } => wf_str(table) && wf_pairs(pairs),
        ReqV::Hdel { table, key } => wf_str(table) && wf_str(key),
        ReqV::Hmdel { table, keys } => wf_str(table) && wf_strs(keys),
        ReqV::Hexist { table, key } => wf_str(table) && wf_str(key),
        ReqV::Hmexist { table, keys } => wf_str(table) && wf_strs(keys),
    }
}

/// A request as one tag byte naming its variant, followed by its fields.
pub open spec fn enc_req(r: ReqV) -> Seq<u8> {
    match r {
        ReqV::Hset { table, pair } => seq![1u8] + enc_str(table) + enc_pair(pair),
        ReqV::Hget { table, key } => seq![2u8] + enc_str(table) + enc_str(key),
        ReqV::Hgetall { table } => seq![3u8] + enc_str(table),
        ReqV::Hmget { table, keys } => seq![4u8] + enc_str(table) + enc_strs(keys),
        ReqV::Hmset { table, pairs } => seq![5u8] + enc_str(table) + enc_pairs(pairs),
        ReqV::Hdel { table, key } => seq![6u8] + enc_str(table) + enc_str(key),
        ReqV::Hmdel { table, keys } => seq![7u8] + enc_str(table) + enc_strs(keys),
        ReqV::Hexist { table, key } => seq![8u8] + enc_str(table) + enc_str(key),
        ReqV::Hmexist { table, keys } => seq![9u8] + enc_str(table) + enc_strs(keys),
    }
}

/// Parses one table-and-key body.
pub open spec fn dec_table_key(b: Seq<u8>) -> Option<((Seq<char>, Seq<char>), int)> {
    match dec_str(b) {
        Some((t, c1)) => match dec_str(b.skip(c1)) {
            Some((k, c2)) => Some(((t, k), c1 + c2)),
            None => None,
        },
        None => None,
    }
}

/// Parses one table-and-keys body.
pub open spec fn dec_table_keys(b: Seq<u8>) -> Option<((Seq<char>, Seq<Seq<char>>), int)> {
    match dec_str(b) {
        Some((t, c1)) => match dec_strs(b.skip(c1)) {
            Some((ks, c2)) => Some(((t, ks), c1 + c2)),
            None => None,
        },
        None => None,
    }
}

/// Parses a request from the front of `b`: an unknown tag, or a payload
/// that carries no operation, is rejected.
pub open spec fn dec_req(b: Seq<u8>) -> Option<(ReqV, int)> {
    if b.len() < 1 {
        None
    } else if b[0] == 1u8 {
        match dec_str(b.skip(1)) {
            Some((t, c1)) => match dec_pair(b.skip(1 + c1)) {
                Some((p, c2)) => Some((ReqV::Hset { table: t, pair: p }, 1 + c1 + c2)),
                None => None,
            },
            None => None,
        }
    } else if b[0] == 2u8 {
        match dec_table_key(b.skip(1)) {
            Some(((t, k), c)) => Some((ReqV::Hget { table: t, key: k }, 1 + c)),
            None => None,
        }
    } else if b[0] == 3u8 {
        match dec_str(b.skip(1)) {
            Some((t, c)) => Some((ReqV::Hgetall { table: t }, 1 + c)),
            None => None,
        }
    } else if b[0] == 4u8 {
        match dec_table_keys(b.skip(1)) {
            Some(((t, ks), c)) => Some((ReqV::Hmget { table: t, keys: ks }, 1 + c)),
            None => None,
        }
    } else if b[0] == 5u8 {
        match dec_str(b.skip(1)) {
            Some((t, c1)) => match dec_pairs(b.skip(1 + c1)) {
                Some((ps, c2)) => Some((ReqV::Hmset { table: t, pairs: ps }, 1 + c1 + c2)),
                None => None,
            },
            None => None,
        }
    } else if b[0] == 6u8 {
        match dec_table_key(b.skip(1)) {
            Some(((t, k), c)) => Some((ReqV::Hdel { table: t, key: k }, 1 + c)),
            None => None,
        }
    } else if b[0] == 7u8 {
        match dec_table_keys(b.skip(1)) {
            Some(((t, ks), c)) => Some((ReqV::Hmdel { table: t, keys: ks }, 1 + c)),
            None => None,
        }
    } else if b[0] == 8u8 {
        match dec_table_key(b.skip(1)) {
            Some(((t, k), c)) => Some((ReqV::Hexist { table: t, key: k }, 1 + c)),
            None => None,
        }
    } else if b[0] == 9u8 {
        match dec_table_keys(b.skip(1)) {
            Some(((t, ks), c)) => Some((ReqV::Hmexist { table: t, keys: ks }, 1 + c)),
            None => None,
        }
    } else {
        None
    }
}

/// A whole payload as one request: the parse must consume every byte.
pub open spec fn dec_req_full(b: Seq<u8>) -> Option<ReqV> {
    match dec_req(b) {
        Some((r, c)) => if c == b.len() {
            Some(r)
        } else {
            None
        },
        None => None,
    }
}

/// A response fits the wire when each of its parts does.
pub open spec fn wf_resp(r: RespV) -> bool {
    wf_str(r.message) && wf_values(r.values) && wf_pairs(r.pairs)
}

/// A response as its status, message, values and pairs.
pub open spec fn enc_resp(r: RespV) -> Seq<u8> {
    enc_u32(r.status) + enc_str(r.message) + enc_values(r.values) + enc_pairs(r.pairs)
}

/// Parses a response from the front of `b`.
pub open spec fn dec_resp(b: Seq<u8>) -> Option<(RespV, int)> {
    match dec_u32(b) {
        Some((status, c1)) => match dec_str(b.skip(c1)) {
            Some((msg, c2)) => match dec_values(b.skip(c1 + c2)) {
                Some((vs, c3)) => match dec_pairs(b.skip(c1 + c2 + c3)) {
                    Some((ps, c4)) => Some(
                        (
                            RespV { status, message: msg, values: vs, pairs: ps },
                            c1 + c2 + c3 + c4,
                        ),
                    ),
                    None => None,
                },
                None => None,
            },
            None => None,
        },
        None => None,
    }
}

/// A whole payload as one response: the parse must consume every byte.
pub open spec fn dec_resp_full(b: Seq<u8>) -> Option<RespV> {
    match dec_resp(b) {
        Some((r, c)) => if c == b.len() {
            Some(r)
        } else {
            None
        },
        None => None,
    }
}

proof fn lemma_u32_le_round(n: u32)
    ensures
        u32_from_le(n as u8, (n >> 8) as u8, (n >> 16) as u8, (n >> 24) as u8) == n,
{
    assert((((n as u8) as u32) | ((((n >> 8) as u8) as u32) << 8) | ((((n >> 16) as u8) as u32)
        << 16) | ((((n >> 24) as u8) as u32) << 24)) == n) by (bit_vector);
}

proof fn lemma_u64_le_round(n: u64)
    ensures
        u64_from_le(
            n as u8,
            (n >> 8) as u8,
            (n >> 16) as u8,
            (n >> 24) as u8,
            (n >> 32) as u8,
            (n >> 40) as u8,
            (n >> 48) as u8,
            (n >> 56) as u8,
        ) == n,
{
    assert((((n as u8) as u64) | ((((n >> 8) as u8) as u64) << 8) | ((((n >> 16) as u8) as u64)
        << 16) | ((((n >> 24) as u8) as u64) << 24) | ((((n >> 32) as u8) as u64) << 32) | ((((n
        >> 40) as u8) as u64) << 40) | ((((n >> 48) as u8) as u64) << 48) | ((((n >> 56) as u8)
        as u64) << 56)) == n) by (bit_vector);
}

proof fn lemma_i64_u64_round(i: i64)
    ensures
        ((i as u64) as i64) == i,
{
    assert(((i as u64) as i64) == i) by (bit_vector);
}

proof fn lemma_dec_u32_enc(n: u32, rest: Seq<u8>)
    ensures
        dec_u32(enc_u32(n) + rest) == Some((n, 4int)),
{
    let b = enc_u32(n) + rest;
    assert(b[0] == n as u8 && b[1] == (n >> 8) as u8 && b[2] == (n >> 16) as u8 && b[3] == (n
        >> 24) as u8);
    lemma_u32_le_round(n);
}

proof fn lemma_dec_u64_enc(n: u64, rest: Seq<u8>)
    ensures
        dec_u64(enc_u64(n) + rest) == Some((n, 8int)),
{
    let b = enc_u64(n) + rest;
    assert(b[0] == n as u8 && b[1] == (n >> 8) as u8 && b[2] == (n >> 16) as u8 && b[3] == (n
        >> 24) as u8 && b[4] == (n >> 32) as u8 && b[5] == (n >> 40) as u8 && b[6] == (n >> 48)
        as u8 && b[7] == (n >> 56) as u8);
    lemma_u64_le_round(n);
}

proof fn lemma_dec_str_enc(s: Seq<char>, rest: Seq<u8>)
    requires
        wf_str(s),
    ensures
        dec_str(enc_str(s) + rest) == Some((s, enc_str(s).len() as int)),
{
    let eu = encode_utf8(s);
    let b = enc_str(s) + rest;
    assert(b =~= enc_u32(eu.len() as u32) + (eu + rest));
    lemma_dec_u32_enc(eu.len() as u32, eu + rest);
    assert(b.subrange(4, 4 + eu.len() as int) =~= eu);
    encode_utf8_valid_utf8(s);
    encode_utf8_decode_utf8(s);
}

proof fn lemma_dec_blob_enc(bs: Seq<u8>, rest: Seq<u8>)
    requires
        bs.len() <= 0xFFFF_FFFF,
    ensures
        dec_blob(enc_blob(bs) + rest) == Some((bs, enc_blob(bs).len() as int)),
{
    let b = enc_blob(bs) + rest;
    assert(b =~= enc_u32(bs.len() as u32) + (bs + rest));
    lemma_dec_u32_enc(bs.len() as u32, bs + rest);
    assert(b.subrange(4, 4 + bs.len() as int) =~= bs);
}

proof fn lemma_dec_value_enc(v: ValueV, rest: Seq<u8>)
    requires
        wf_value(v),
    ensures
        dec_value(enc_value(v) + rest) == Some((v, enc_value(v).len() as int)),
{
    let b = enc_value(v) + rest;
    match v {
        ValueV::Empty => {
            assert(b[0] == 0u8);
        },
        ValueV::Str(s) => {
            assert(b[0] == 1u8);
            assert(b.skip(1) =~= enc_str(s) + rest);
            lemma_dec_str_enc(s, rest);
        },
        ValueV::Int(i) => {
            assert(b[0] == 2u8);
            assert(b.skip(1) =~= enc_u64(i as u64) + rest);
            lemma_dec_u64_enc(i as u64, rest);
            lemma_i64_u64_round(i);
        },
        ValueV::Bool(x) => {
            assert(b[0] == 3u8);
            assert(b[1] == (if x { 1u8 } else { 0u8 }));
        },
        ValueV::Double(d) => {
            assert(b[0] == 4u8);
            assert(b.skip(1) =~= enc_u64(d) + rest);
            lemma_dec_u64_enc(d, rest);
        },
        ValueV::Binary(bs) => {
            assert(b[0] == 5u8);
            assert(b.skip(1) =~= enc_blob(bs) + rest);
            lemma_dec_blob_enc(bs, rest);
        },
    }
}

proof fn lemma_dec_pair_enc(p: KvpairV, rest: Seq<u8>)
    requires
        wf_pair(p),
    ensures
        dec_pair(enc_pair(p) + rest) == Some((p, enc_pair(p).len() as int)),
{
    let b = enc_pair(p) + rest;
    assert(b =~= enc_str(p.key) + (enc_value(p.value) + rest));
    lemma_dec_str_enc(p.key, enc_value(p.value) + rest);
    let c1 = enc_str(p.key).len() as int;
    assert(b.skip(c1) =~= enc_value(p.value) + rest);
    lemma_dec_value_enc(p.value, rest);
}

proof fn lemma_dec_strs_items_enc(xs: Seq<Seq<char>>, rest: Seq<u8>)
    requires
        forall|i: int| 0 <= i < xs.len() ==> wf_str(#[trigger] xs[i]),
    ensures
        dec_strs_items(enc_strs_items(xs) + rest, xs.len() as nat) == Some(
            (xs, enc_strs_items(xs).len() as int),
        ),
    decreases xs.len(),
{
    let b = enc_strs_items(xs) + rest;
    if xs.len() == 0 {
        assert(b =~= rest);
        assert(xs =~= Seq::<Seq<char>>::empty());
    } else {
        let df = xs.drop_first();
        assert(b =~= enc_str(xs[0]) + (enc_strs_items(df) + rest));
        lemma_dec_str_enc(xs[0], enc_strs_items(df) + rest);
        let c1 = enc_str(xs[0]).len() as int;
        assert(b.skip(c1) =~= enc_strs_items(df) + rest);
        assert(forall|i: int| 0 <= i < df.len() ==> wf_str(#[trigger] df[i]));
        lemma_dec_strs_items_enc(df, rest);
        assert(seq![xs[0]] + df =~= xs);
    }
}

proof fn lemma_dec_strs_enc(xs: Seq<Seq<char>>, rest: Seq<u8>)
    requires
        wf_strs(xs),
    ensures
        dec_strs(enc_strs(xs) + rest) == Some((xs, enc_strs(xs).len() as int)),
{
    let b = enc_strs(xs) + rest;
    assert(b =~= enc_u32(xs.len() as u32) + (enc_strs_items(xs) + rest));
    lemma_dec_u32_enc(xs.len() as u32, enc_strs_items(xs) + rest);
    assert(b.skip(4) =~= enc_strs_items(xs) + rest);
    lemma_dec_strs_items_enc(xs, rest);
}

proof fn lemma_dec_values_items_enc(xs: Seq<ValueV>, rest: Seq<u8>)
    requires
        forall|i: int| 0 <= i < xs.len() ==> wf_value(#[trigger] xs[i]),
    ensures
        dec_values_items(enc_values_items(xs) + rest, xs.len() as nat) == Some(
            (xs, enc_values_items(xs).len() as int),
        ),
    decreases xs.len(),
{
    let b = enc_values_items(xs) + rest;
    if xs.len() == 0 {
        assert(b =~= rest);
        assert(xs =~= Seq::<ValueV>::empty());
    } else {
        let df = xs.drop_first();
        assert(b =~= enc_value(xs[0]) + (enc_values_items(df) + rest));
        lemma_dec_value_enc(xs[0], enc_values_items(df) + rest);
        let c1 = enc_value(xs[0]).len() as int;
        assert(b.skip(c1) =~= enc_values_items(df) + rest);
        assert(forall|i: int| 0 <= i < df.len() ==> wf_value(#[trigger] df[i]));
        lemma_dec_values_items_enc(df, rest);
        assert(seq![xs[0]] + df =~= xs);
    }
}

proof fn lemma_dec_values_enc(xs: Seq<ValueV>, rest: Seq<u8>)
    requires
        wf_values(xs),
    ensures
        dec_values(enc_values(xs) + rest) == Some((xs, enc_values(xs).len() as int)),
{
    let b = enc_values(xs) + rest;
    assert(b =~= enc_u32(xs.len() as u32) + (enc_values_items(xs) + rest));
    lemma_dec_u32_enc(xs.len() as u32, enc_values_items(xs) + rest);
    assert(b.skip(4) =~= enc_values_items(xs) + rest);
    lemma_dec_values_items_enc(xs, rest);
}

proof fn lemma_dec_pairs_items_enc(xs: Seq<KvpairV>, rest: Seq<u8>)
    requires
        forall|i: int| 0 <= i < xs.len() ==> wf_pair(#[trigger] xs[i]),
    ensures
        dec_pairs_items(enc_pairs_items(xs) + rest, xs.len() as nat) == Some(
            (xs, enc_pairs_items(xs).len() as int),
        ),
    decreases xs.len(),
{
    let b = enc_pairs_items(xs) + rest;
    if xs.len() == 0 {
        assert(b =~= rest);
        assert(xs =~= Seq::<KvpairV>::empty());
    } else {
        let df = xs.drop_first();
        assert(b =~= enc_pair(xs[0]) + (enc_pairs_items(df) + rest));
        lemma_dec_pair_enc(xs[0], enc_pairs_items(df) + rest);
        let c1 = enc_pair(xs[0]).len() as int;
        assert(b.skip(c1) =~= enc_pairs_items(df) + rest);
        assert(forall|i: int| 0 <= i < df.len() ==> wf_pair(#[trigger] df[i]));
        lemma_dec_pairs_items_enc(df, rest);
        assert(seq![xs[0]] + df =~= xs);
    }
}

proof fn lemma_dec_pairs_enc(xs: Seq<KvpairV>, rest: Seq<u8>)
    requires
        wf_pairs(xs),
    ensures
        dec_pairs(enc_pairs(xs) + rest) == Some((xs, enc_pairs(xs).len() as int)),
{
    let b = enc_pairs(xs) + rest;
    assert(b =~= enc_u32(xs.len() as u32) + (enc_pairs_items(xs) + rest));
    lemma_dec_u32_enc(xs.len() as u32, enc_pairs_items(xs) + rest);
    assert(b.skip(4) =~= enc_pairs_items(xs) + rest);
    lemma_dec_pairs_items_enc(xs, rest);
}

proof fn lemma_dec_table_key_enc(t: Seq<char>, k: Seq<char>, rest: Seq<u8>)
    requires
        wf_str(t),
        wf_str(k),
    ensures
        dec_table_key(enc_str(t) + enc_str(k) + rest) == Some(
            ((t, k), enc_str(t).len() + enc_str(k).len() as int),
        ),
{
    let b = enc_str(t) + enc_str(k) + rest;
    assert(b =~= enc_str(t) + (enc_str(k) + rest));
    lemma_dec_str_enc(t, enc_str(k) + rest);
    let c1 = enc_str(t).len() as int;
    assert(b.skip(c1) =~= enc_str(k) + rest);
    lemma_dec_str_enc(k, rest);
}

proof fn lemma_dec_table_keys_enc(t: Seq<char>, ks: Seq<Seq<char>>, rest: Seq<u8>)
    requires
        wf_str(t),
        wf_strs(ks),
    ensures
        dec_table_keys(enc_str(t) + enc_strs(ks) + rest) == Some(
            ((t, ks), enc_str(t).len() + enc_strs(ks).len() as int),
        ),
{
    let b = enc_str(t) + enc_strs(ks) + rest;
    assert(b =~= enc_str(t) + (enc_strs(ks) + rest));
    lemma_dec_str_enc(t, enc_strs(ks) + rest);
    let c1 = enc_str(t).len() as int;
    assert(b.skip(c1) =~= enc_strs(ks) + rest);
    lemma_dec_strs_enc(ks, rest);
}

proof fn lemma_dec_req_enc_hset(t: Seq<char>, p: KvpairV, rest: Seq<u8>)
    requires
        wf_str(t),
        wf_pair(p),
    ensures
        dec_req(enc_req(ReqV::Hset { table: t, pair: p }) + rest) == Some(
            (ReqV::Hset { table: t, pair: p }, enc_req(ReqV::Hset { table: t, pair: p }).len() as int),
        ),
{
    let b = enc_req(ReqV::Hset { table: t, pair: p }) + rest;
    assert(b[0] == 1u8);
    assert(b.skip(1) =~= enc_str(t) + (enc_pair(p) + rest));
    lemma_dec_str_enc(t, enc_pair(p) + rest);
    let c1 = enc_str(t).len() as int;
    assert(b.skip(1 + c1) =~= enc_pair(p) + rest);
    lemma_dec_pair_enc(p, rest);
}

proof fn lemma_dec_req_enc_hgetall(t: Seq<char>, rest: Seq<u8>)
    requires
        wf_str(t),
    ensures
        dec_req(enc_req(ReqV::Hgetall { table: t }) + rest) == Some(
            (ReqV::Hgetall { table: t }, enc_req(ReqV::Hgetall { table: t }).len() as int),
        ),
{
    let b = enc_req(ReqV::Hgetall { table: t }) + rest;
    assert(b[0] == 3u8);
    assert(b.skip(1) =~= enc_str(t) + rest);
    lemma_dec_str_enc(t, rest);
}

proof fn lemma_dec_req_enc_hmset(t: Seq<char>, ps: Seq<KvpairV>, rest: Seq<u8>)
    requires
        wf_str(t),
        wf_pairs(ps),
    ensures
        dec_req(enc_req(ReqV::Hmset { table: t, pairs: ps }) + rest) == Some(
            (
                ReqV::Hmset { table: t, pairs: ps },
                enc_req(ReqV::Hmset { table: t, pairs: ps }).len() as int,
            ),
        ),
{
    let b = enc_req(ReqV::Hmset { table: t, pairs: ps }) + rest;
    assert(b[0] == 5u8);
    assert(b.skip(1) =~= enc_str(t) + (enc_pairs(ps) + rest));
    lemma_dec_str_enc(t, enc_pairs(ps) + rest);
    let c1 = enc_str(t).len() as int;
    assert(b.skip(1 + c1) =~= enc_pairs(ps) + rest);
    lemma_dec_pairs_enc(ps, rest);
}

proof fn lemma_dec_req_enc_hget(t: Seq<char>, k: Seq<char>, rest: Seq<u8>)
    requires
        wf_str(t),
        wf_str(k),
    ensures
        dec_req(enc_req(ReqV::Hget { table: t, key: k }) + rest) == Some(
            (
                ReqV::Hget { table: t, key: k },
                enc_req(ReqV::Hget { table: t, key: k }).len() as int,
            ),
        ),
{
    let b = enc_req(ReqV::Hget { table: t, key: k }) + rest;
    assert(b[0] == 2u8);
    assert(b.skip(1) =~= enc_str(t) + enc_str(k) + rest);
    lemma_dec_table_key_enc(t, k, rest);
}

proof fn lemma_dec_req_enc_hdel(t: Seq<char>, k: Seq<char>, rest: Seq<u8>)
    requires
        wf_str(t),
        wf_str(k),
    ensures
        dec_req(enc_req(ReqV::Hdel { table: t, key: k }) + rest) == Some(
            (
                ReqV::Hdel { table: t, key: k },
                enc_req(ReqV::Hdel { table: t, key: k }).len() as int,
            ),
        ),
{
    let b = enc_req(ReqV::Hdel { table: t, key: k }) + rest;
    assert(b[0] == 6u8);
    assert(b.skip(1) =~= enc_str(t) + enc_str(k) + rest);
    lemma_dec_table_key_enc(t, k, rest);
}

proof fn lemma_dec_req_enc_hexist(t: Seq<char>, k: Seq<char>, rest: Seq<u8>)
    requires
        wf_str(t),
        wf_str(k),
    ensures
        dec_req(enc_req(ReqV::Hexist { table: t, key: k }) + rest) == Some(
            (
                ReqV::Hexist { table: t, key: k },
                enc_req(ReqV::Hexist { table: t, key: k }).len() as int,
            ),
        ),
{
    let b = enc_req(ReqV::Hexist { table: t, key: k }) + rest;
    assert(b[0] == 8u8);
    assert(b.skip(1) =~= enc_str(t) + enc_str(k) + rest);
    lemma_dec_table_key_enc(t, k, rest);
}

proof fn lemma_dec_req_enc_hmget(t: Seq<char>, ks: Seq<Seq<char>>, rest: Seq<u8>)
    requires
        wf_str(t),
        wf_strs(ks),
    ensures
        dec_req(enc_req(ReqV::Hmget { table: t, keys: ks }) + rest) == Some(
            (
                ReqV::Hmget { table: t, keys: ks },
                enc_req(ReqV::Hmget { table: t, keys: ks }).len() as int,
            ),
        ),
{
    let b = enc_req(ReqV::Hmget { table: t, keys: ks }) + rest;
    assert(b[0] == 4u8);
    assert(b.skip(1) =~= enc_str(t) + enc_strs(ks) + rest);
    lemma_dec_table_keys_enc(t, ks, rest);
}

proof fn lemma_dec_req_enc_hmdel(t: Seq<char>, ks: Seq<Seq<char>>, rest: Seq<u8>)
    requires
        wf_str(t),
        wf_strs(ks),
    ensures
        dec_req(enc_req(ReqV::Hmdel { table: t, keys: ks }) + rest) == Some(
            (
                ReqV::Hmdel { table: t, keys: ks },
                enc_req(ReqV::Hmdel { table: t, keys: ks }).len() as int,
            ),
        ),
{
    let b = enc_req(ReqV::Hmdel { table: t, keys: ks }) + rest;
    assert(b[0] == 7u8);
    assert(b.skip(1) =~= enc_str(t) + enc_strs(ks) + rest);
    lemma_dec_table_keys_enc(t, ks, rest);
}

proof fn lemma_dec_req_enc_hmexist(t: Seq<char>, ks: Seq<Seq<char>>, rest: Seq<u8>)
    requires
        wf_str(t),
        wf_strs(ks),
    ensures
        dec_req(enc_req(ReqV::Hmexist { table: t, keys: ks }) + rest) == Some(
            (
                ReqV::Hmexist { table: t, keys: ks },
                enc_req(ReqV::Hmexist { table: t, keys: ks }).len() as int,
            ),
        ),
{
    let b = enc_req(ReqV::Hmexist { table: t, keys: ks }) + rest;
    assert(b[0] == 9u8);
    assert(b.skip(1) =~= enc_str(t) + enc_strs(ks) + rest);
    lemma_dec_table_keys_enc(t, ks, rest);
}

proof fn lemma_dec_req_enc(r: ReqV, rest: Seq<u8>)
    requires
        wf_req(r),
    ensures
        dec_req(enc_req(r) + rest) == Some((r, enc_req(r).len() as int)),
{
    match r {
        ReqV::Hset { table, pair } => lemma_dec_req_enc_hset(table, pair, rest),
        ReqV::Hget { table, key } => lemma_dec_req_enc_hget(table, key, rest),
        ReqV::Hgetall { table } => lemma_dec_req_enc_hgetall(table, rest),
        ReqV::Hmget { table, keys } => lemma_dec_req_enc_hmget(table, keys, rest),
        ReqV::Hmset { table, pairs } => lemma_dec_req_enc_hmset(table, pairs, rest),
        ReqV::Hdel { table, key } => lemma_dec_req_enc_hdel(table, key, rest),
        ReqV::Hmdel { table, keys } => lemma_dec_req_enc_hmdel(table, keys, rest),
        ReqV::Hexist { table, key } => lemma_dec_req_enc_hexist(table, key, rest),
        ReqV::Hmexist { table, keys } => lemma_dec_req_enc_hmexist(table, keys, rest),
    }
}

proof fn lemma_dec_resp_tail(msg: Seq<char>, vs: Seq<ValueV>, ps: Seq<KvpairV>, rest: Seq<u8>)
    requires
        wf_str(msg),
        wf_values(vs),
        wf_pairs(ps),
    ensures
        ({
            let body = enc_str(msg) + enc_values(vs) + enc_pairs(ps) + rest;
            &&& dec_str(body) == Some((msg, enc_str(msg).len() as int))
            &&& dec_values(body.skip(enc_str(msg).len() as int)) == Some(
                (vs, enc_values(vs).len() as int),
            )
            &&& dec_pairs(body.skip(enc_str(msg).len() + enc_values(vs).len() as int)) == Some(
                (ps, enc_pairs(ps).len() as int),
            )
        }),
{
    let body = enc_str(msg) + enc_values(vs) + enc_pairs(ps) + rest;
    assert(body =~= enc_str(msg) + (enc_values(vs) + (enc_pairs(ps) + rest)));
    lemma_dec_str_enc(msg, enc_values(vs) + (enc_pairs(ps) + rest));
    let c2 = enc_str(msg).len() as int;
    assert(body.skip(c2) =~= enc_values(vs) + (enc_pairs(ps) + rest));
    lemma_dec_values_enc(vs, enc_pairs(ps) + rest);
    let c3 = enc_values(vs).len() as int;
    assert(body.skip(c2 + c3) =~= enc_pairs(ps) + rest);
    lemma_dec_pairs_enc(ps, rest);
}

proof fn lemma_dec_resp_enc(r: RespV, rest: Seq<u8>)
    requires
        wf_resp(r),
    ensures
        dec_resp(enc_resp(r) + rest) == Some((r, enc_resp(r).len() as int)),
{
    let b = enc_resp(r) + rest;
    let body = enc_str(r.message) + enc_values(r.values) + enc_pairs(r.pairs) + rest;
    assert(b =~= enc_u32(r.status) + body);
    lemma_dec_u32_enc(r.status, body);
    assert(b.skip(4) =~= body);
    lemma_dec_resp_tail(r.message, r.values, r.pairs, rest);
    let c2 = enc_str(r.message).len() as int;
    let c3 = enc_values(r.values).len() as int;
    let c4 = enc_pairs(r.pairs).len() as int;
    assert(b.skip(4).skip(c2) =~= b.skip(4 + c2));
    assert(b.skip(4).skip(c2 + c3) =~= b.skip(4 + c2 + c3));
    assert(b.len() as int == 4 + c2 + c3 + c4 + rest.len());
}

/// Round-trip: decoding the encoding of any well-formed request yields
/// exactly that request.
pub proof fn lemma_request_round_trip(r: ReqV)
    requires
        wf_req(r),
    ensures
        dec_req_full(enc_req(r)) == Some(r),
{
    lemma_dec_req_enc(r, Seq::empty());
    assert(enc_req(r) + Seq::<u8>::empty() =~= enc_req(r));
}

/// Round-trip: decoding the encoding of any well-formed response yields
/// exactly that response.
pub proof fn lemma_response_round_trip(r: RespV)
    requires
        wf_resp(r),
    ensures
        dec_resp_full(enc_resp(r)) == Some(r),
{
    lemma_dec_resp_enc(r, Seq::empty());
    assert(enc_resp(r) + Seq::<u8>::empty() =~= enc_resp(r));
}


/// Relies on `String::from_utf8`: it accepts exactly the byte vectors
/// that are valid UTF-8, and yields the string they decode to.
#[verifier::external_body]
fn string_from_utf8(v: Vec<u8>) -> (r: Option<String>)
    ensures
        match r {
            Some(s) => valid_utf8(v@) && s@ == decode_utf8(v@),
            None => !valid_utf8(v@),
        },
{
    String::from_utf8(v).ok()
}

/// Appends a 32-bit integer, little-endian.
fn write_u32_raw(n: u32, buf: &mut Vec<u8>)
    ensures
        final(buf)@ == old(buf)@ + enc_u32(n),
{
    buf.push(#[verifier::truncate] (n as u8));
    buf.push(#[verifier::truncate] ((n >> 8) as u8));
    buf.push(#[verifier::truncate] ((n >> 16) as u8));
    buf.push(#[verifier::truncate] ((n >> 24) as u8));
    proof {
        assert(buf@ =~= old(buf)@ + enc_u32(n));
    }
}

/// Appends a 64-bit integer, little-endian.
fn write_u64_raw(n: u64, buf: &mut Vec<u8>)
    ensures
        final(buf)@ == old(buf)@ + enc_u64(n),
{
    buf.push(#[verifier::truncate] (n as u8));
    buf.push(#[verifier::truncate] ((n >> 8) as u8));
    buf.push(#[verifier::truncate] ((n >> 16) as u8));
    buf.push(#[verifier::truncate] ((n >> 24) as u8));
    buf.push(#[verifier::truncate] ((n >> 32) as u8));
    buf.push(#[verifier::truncate] ((n >> 40) as u8));
    buf.push(#[verifier::truncate] ((n >> 48) as u8));
    buf.push(#[verifier::truncate] ((n >> 56) as u8));
    proof {
        assert(buf@ =~= old(buf)@ + enc_u64(n));
    }
}

/// Appends a length-prefixed string.
fn write_str(s: &str, buf: &mut Vec<u8>) -> (r: Result<(), FrameError>)
    ensures
        r is Ok <==> wf_str(s@),
        r is Ok ==> final(buf)@ == old(buf)@ + enc_str(s@),
{
    let bytes = s.as_bytes();
    if bytes.len() as u64 > 0xFFFF_FFFFu64 {
        return Err(FrameError::TooLarge);
    }
    write_u32_raw(bytes.len() as u32, buf);
    buf.extend_from_slice(bytes);
    proof {
        assert(buf@ =~= old(buf)@ + enc_str(s@));
    }
    Ok(())
}

/// Appends a length-prefixed byte blob.
fn write_blob(bs: &Vec<u8>, buf: &mut Vec<u8>) -> (r: Result<(), FrameError>)
    ensures
        r is Ok <==> bs@.len() <= 0xFFFF_FFFF,
        r is Ok ==> final(buf)@ == old(buf)@ + enc_blob(bs@),
{
    if bs.len() as u64 > 0xFFFF_FFFFu64 {
        return Err(FrameError::TooLarge);
    }
    write_u32_raw(bs.len() as u32, buf);
    buf.extend_from_slice(bs.as_slice());
    proof {
        assert(buf@ =~= old(buf)@ + enc_blob(bs@));
    }
    Ok(())
}

/// Appends one tagged value.
fn write_value(v: &Value, buf: &mut Vec<u8>) -> (r: Result<(), FrameError>)
    ensures
        r is Ok <==> wf_value(v@),
        r is Ok ==> final(buf)@ == old(buf)@ + enc_value(v@),
{
    match v {
        Value::Empty => {
            buf.push(0u8);
            proof {
                assert(buf@ =~= old(buf)@ + enc_value(v@));
            }
            Ok(())
        },
        Value::Str(s) => {
            buf.push(1u8);
            match write_str(s.as_str(), buf) {
                Ok(()) => {
                    proof {
                        assert(buf@ =~= old(buf)@ + enc_value(v@));
                    }
                    Ok(())
                },
                Err(e) => Err(e),
            }
        },
        Value::Int(i) => {
            buf.push(2u8);
            write_u64_raw(#[verifier::truncate] (*i as u64), buf);
            proof {
                assert(buf@ =~= old(buf)@ + enc_value(v@));
            }
            Ok(())
        },
        Value::Bool(b) => {
            buf.push(3u8);
            if *b {
                buf.push(1u8);
            } else {
                buf.push(0u8);
            }
            proof {
                assert(buf@ =~= old(buf)@ + enc_value(v@));
            }
            Ok(())
        },
        Value::Double(d) => {
            buf.push(4u8);
            write_u64_raw(*d, buf);
            proof {
                assert(buf@ =~= old(buf)@ + enc_value(v@));
            }
            Ok(())
        },
        Value::Binary(bs) => {
            buf.push(5u8);
            match write_blob(bs, buf) {
                Ok(()) => {
                    proof {
                        assert(buf@ =~= old(buf)@ + enc_value(v@));
                    }
                    Ok(())
                },
                Err(e) => Err(e),
            }
        },
    }
}

/// Appends one pair: key, then value.
fn write_pair(p: &Kvpair, buf: &mut Vec<u8>) -> (r: Result<(), FrameError>)
    ensures
        r is Ok <==> wf_pair(p@),
        r is Ok ==> final(buf)@ == old(buf)@ + enc_pair(p@),
{
    match write_str(p.key.as_str(), buf) {
        Ok(()) => {},
        Err(e) => {
            return Err(e);
        },
    }
    match write_value(&p.value, buf) {
        Ok(()) => {
            proof {
                assert(buf@ =~= old(buf)@ + enc_pair(p@));
            }
            Ok(())
        },
        Err(e) => Err(e),
    }
}

/// Appends the items of a string list, from `idx` on.
fn write_strs_items(xs: &Vec<String>, idx: usize, buf: &mut Vec<u8>) -> (r: Result<
    (),
    FrameError,
>)
    requires
        idx <= xs@.len(),
    ensures
        r is Ok <==> (forall|j: int| idx <= j < xs@.len() ==> wf_str(#[trigger] xs@[j]@)),
        r is Ok ==> final(buf)@ == old(buf)@ + enc_strs_items(strs_view(xs@).skip(idx as int)),
    decreases xs@.len() - idx,
{
    if idx == xs.len() {
        proof {
            assert(strs_view(xs@).skip(idx as int) =~= Seq::<Seq<char>>::empty());
            assert(buf@ =~= old(buf)@ + enc_strs_items(strs_view(xs@).skip(idx as int)));
        }
        Ok(())
    } else {
        proof {
            assert(strs_view(xs@).skip(idx as int)[0] == xs@[idx as int]@);
            assert(strs_view(xs@).skip(idx as int).drop_first() =~= strs_view(xs@).skip(
                idx as int + 1,
            ));
        }
        match write_str(xs[idx].as_str(), buf) {
            Ok(()) => {},
            Err(e) => {
                return Err(e);
            },
        }
        match write_strs_items(xs, idx + 1, buf) {
            Ok(()) => {
                proof {
                    assert(buf@ =~= old(buf)@ + enc_strs_items(strs_view(xs@).skip(idx as int)));
                }
                Ok(())
            },
            Err(e) => Err(e),
        }
    }
}

proof fn lemma_wf_strs_bridge(xs: Seq<String>)
    ensures
        (forall|j: int| 0 <= j < xs.len() ==> wf_str(#[trigger] xs[j]@)) <==> (forall|i: int|
            0 <= i < strs_view(xs).len() ==> wf_str(#[trigger] strs_view(xs)[i])),
{
    if forall|j: int| 0 <= j < xs.len() ==> wf_str(#[trigger] xs[j]@) {
        assert forall|i: int| 0 <= i < strs_view(xs).len() implies wf_str(
            #[trigger] strs_view(xs)[i],
        ) by {
            assert(strs_view(xs)[i] == xs[i]@);
        }
    }
    if forall|i: int| 0 <= i < strs_view(xs).len() ==> wf_str(#[trigger] strs_view(xs)[i]) {
        assert forall|j: int| 0 <= j < xs.len() implies wf_str(#[trigger] xs[j]@) by {
            assert(strs_view(xs)[j] == xs[j]@);
        }
    }
}

proof fn lemma_wf_values_bridge(xs: Seq<Value>)
    ensures
        (forall|j: int| 0 <= j < xs.len() ==> wf_value(#[trigger] xs[j]@)) <==> (forall|i: int|
            0 <= i < values_view(xs).len() ==> wf_value(#[trigger] values_view(xs)[i])),
{
    if forall|j: int| 0 <= j < xs.len() ==> wf_value(#[trigger] xs[j]@) {
        assert forall|i: int| 0 <= i < values_view(xs).len() implies wf_value(
            #[trigger] values_view(xs)[i],
        ) by {
            assert(values_view(xs)[i] == xs[i]@);
        }
    }
    if forall|i: int| 0 <= i < values_view(xs).len() ==> wf_value(#[trigger] values_view(xs)[i]) {
        assert forall|j: int| 0 <= j < xs.len() implies wf_value(#[trigger] xs[j]@) by {
            assert(values_view(xs)[j] == xs[j]@);
        }
    }
}

proof fn lemma_wf_pairs_bridge(xs: Seq<Kvpair>)
    ensures
        (forall|j: int| 0 <= j < xs.len() ==> wf_pair(#[trigger] xs[j]@)) <==> (forall|i: int|
            0 <= i < pairs_view(xs).len() ==> wf_pair(#[trigger] pairs_view(xs)[i])),
{
    if forall|j: int| 0 <= j < xs.len() ==> wf_pair(#[trigger] xs[j]@) {
        assert forall|i: int| 0 <= i < pairs_view(xs).len() implies wf_pair(
            #[trigger] pairs_view(xs)[i],
        ) by {
            assert(pairs_view(xs)[i] == xs[i]@);
        }
    }
    if forall|i: int| 0 <= i < pairs_view(xs).len() ==> wf_pair(#[trigger] pairs_view(xs)[i]) {
        assert forall|j: int| 0 <= j < xs.len() implies wf_pair(#[trigger] xs[j]@) by {
            assert(pairs_view(xs)[j] == xs[j]@);
        }
    }
}

/// Appends a counted string list.
fn write_strs(xs: &Vec<String>, buf: &mut Vec<u8>) -> (r: Result<(), FrameError>)
    ensures
        r is Ok <==> wf_strs(strs_view(xs@)),
        r is Ok ==> final(buf)@ == old(buf)@ + enc_strs(strs_view(xs@)),
{
    if xs.len() as u64 > 0xFFFF_FFFFu64 {
        return Err(FrameError::TooLarge);
    }
    write_u32_raw(xs.len() as u32, buf);
    proof {
        lemma_wf_strs_bridge(xs@);
    }
    match write_strs_items(xs, 0, buf) {
        Ok(()) => {
            proof {
                assert(strs_view(xs@).skip(0) =~= strs_view(xs@));
                assert(buf@ =~= old(buf)@ + enc_strs(strs_view(xs@)));
            }
            Ok(())
        },
        Err(e) => Err(e),
    }
}

/// Appends the items of a value list, from `idx` on.
fn write_values_items(xs: &Vec<Value>, idx: usize, buf: &mut Vec<u8>) -> (r: Result<
    (),
    FrameError,
>)
    requires
        idx <= xs@.len(),
    ensures
        r is Ok <==> (forall|j: int| idx <= j < xs@.len() ==> wf_value(#[trigger] xs@[j]@)),
        r is Ok ==> final(buf)@ == old(buf)@ + enc_values_items(values_view(xs@).skip(idx as int)),
    decreases xs@.len() - idx,
{
    if idx == xs.len() {
        proof {
            assert(values_view(xs@).skip(idx as int) =~= Seq::<ValueV>::empty());
            assert(buf@ =~= old(buf)@ + enc_values_items(values_view(xs@).skip(idx as int)));
        }
        Ok(())
    } else {
        proof {
            assert(values_view(xs@).skip(idx as int)[0] == xs@[idx as int]@);
            assert(values_view(xs@).skip(idx as int).drop_first() =~= values_view(xs@).skip(
                idx as int + 1,
            ));
        }
        match write_value(&xs[idx], buf) {
            Ok(()) => {},
            Err(e) => {
                return Err(e);
            },
        }
        match write_values_items(xs, idx + 1, buf) {
            Ok(()) => {
                proof {
                    assert(buf@ =~= old(buf)@ + enc_values_items(
                        values_view(xs@).skip(idx as int),
                    ));
                }
                Ok(())
            },
            Err(e) => Err(e),
        }
    }
}

/// Appends a counted value list.
fn write_values(xs: &Vec<Value>, buf: &mut Vec<u8>) -> (r: Result<(), FrameError>)
    ensures
        r is Ok <==> wf_values(values_view(xs@)),
        r is Ok ==> final(buf)@ == old(buf)@ + enc_values(values_view(xs@)),
{
    if xs.len() as u64 > 0xFFFF_FFFFu64 {
        return Err(FrameError::TooLarge);
    }
    write_u32_raw(xs.len() as u32, buf);
    proof {
        lemma_wf_values_bridge(xs@);
    }
    match write_values_items(xs, 0, buf) {
        Ok(()) => {
            proof {
                assert(values_view(xs@).skip(0) =~= values_view(xs@));
                assert(buf@ =~= old(buf)@ + enc_values(values_view(xs@)));
            }
            Ok(())
        },
        Err(e) => Err(e),
    }
}

/// Appends the items of a pair list, from `idx` on.
fn write_pairs_items(xs: &Vec<Kvpair>, idx: usize, buf: &mut Vec<u8>) -> (r: Result<
    (),
    FrameError,
>)
    requires
        idx <= xs@.len(),
    ensures
        r is Ok <==> (forall|j: int| idx <= j < xs@.len() ==> wf_pair(#[trigger] xs@[j]@)),
        r is Ok ==> final(buf)@ == old(buf)@ + enc_pairs_items(pairs_view(xs@).skip(idx as int)),
    decreases xs@.len() - idx,
{
    if idx == xs.len() {
        proof {
            assert(pairs_view(xs@).skip(idx as int) =~= Seq::<KvpairV>::empty());
            assert(buf@ =~= old(buf)@ + enc_pairs_items(pairs_view(xs@).skip(idx as int)));
        }
        Ok(())
    } else {
        proof {
            assert(pairs_view(xs@).skip(idx as int)[0] == xs@[idx as int]@);
            assert(pairs_view(xs@).skip(idx as int).drop_first() =~= pairs_view(xs@).skip(
                idx as int + 1,
            ));
        }
        match write_pair(&xs[idx], buf) {
            Ok(()) => {},
            Err(e) => {
                return Err(e);
            },
        }
        match write_pairs_items(xs, idx + 1, buf) {
            Ok(()) => {
                proof {
                    assert(buf@ =~= old(buf)@ + enc_pairs_items(
                        pairs_view(xs@).skip(idx as int),
                    ));
                }
                Ok(())
            },
            Err(e) => Err(e),
        }
    }
}

/// Appends a counted pair list.
fn write_pairs(xs: &Vec<Kvpair>, buf: &mut Vec<u8>) -> (r: Result<(), FrameError>)
    ensures
        r is Ok <==> wf_pairs(pairs_view(xs@)),
        r is Ok ==> final(buf)@ == old(buf)@ + enc_pairs(pairs_view(xs@)),
{
    if xs.len() as u64 > 0xFFFF_FFFFu64 {
        return Err(FrameError::TooLarge);
    }
    write_u32_raw(xs.len() as u32, buf);
    proof {
        lemma_wf_pairs_bridge(xs@);
    }
    match write_pairs_items(xs, 0, buf) {
        Ok(()) => {
            proof {
                assert(pairs_view(xs@).skip(0) =~= pairs_view(xs@));
                assert(buf@ =~= old(buf)@ + enc_pairs(pairs_view(xs@)));
            }
            Ok(())
        },
        Err(e) => Err(e),
    }
}

/// Appends the binary form of a request; fails with `TooLarge` exactly
/// when some part of the request does not fit its 32-bit length. On a
/// failure the buffer may hold a partial prefix; the frame layer encodes
/// into a scratch buffer, so nothing partial ever reaches the wire.
#[verifier::rlimit(100)]
#[verifier::spinoff_prover]
pub fn encode_request(req: &CommandRequest, buf: &mut Vec<u8>) -> (r: Result<(), FrameError>)
    ensures
        r is Ok <==> wf_req(req@),
        r is Ok ==> final(buf)@ == old(buf)@ + enc_req(req@),
{
    match req {
        CommandRequest::Hset(c) => {
            buf.push(1u8);
            match write_str(c.table.as_str(), buf) {
                Ok(()) => {},
                Err(e) => {
                    return Err(e);
                },
            }
            match write_pair(&c.pair, buf) {
                Ok(()) => {
                    proof {
                        assert(buf@ =~= old(buf)@ + enc_req(req@));
                    }
                    Ok(())
                },
                Err(e) => Err(e),
            }
        },
        CommandRequest::Hget(c) => {
            buf.push(2u8);
            match write_str(c.table.as_str(), buf) {
                Ok(()) => {},
                Err(e) => {
                    return Err(e);
                },
            }
            match write_str(c.key.as_str(), buf) {
                Ok(()) => {
                    proof {
                        assert(buf@ =~= old(buf)@ + enc_req(req@));
                    }
                    Ok(())
                },
                Err(e) => Err(e),
            }
        },
        CommandRequest::Hgetall(c) => {
            buf.push(3u8);
            match write_str(c.table.as_str(), buf) {
                Ok(()) => {
                    proof {
                        assert(buf@ =~= old(buf)@ + enc_req(req@));
                    }
                    Ok(())
                },
                Err(e) => Err(e),
            }
        },
        CommandRequest::Hmget(c) => {
            buf.push(4u8);
            match write_str(c.table.as_str(), buf) {
                Ok(()) => {},
                Err(e) => {
                    return Err(e);
                },
            }
            match write_strs(&c.keys, buf) {
                Ok(()) => {
                    proof {
                        assert(buf@ =~= old(buf)@ + enc_req(req@));
                    }
                    Ok(())
                },
                Err(e) => Err(e),
            }
        },
        CommandRequest::Hmset(c) => {
            buf.push(5u8);
            match write_str(c.table.as_str(), buf) {
                Ok(()) => {},
                Err(e) => {
                    return Err(e);
                },
            }
            match write_pairs(&c.pairs, buf) {
                Ok(()) => {
                    proof {
                        assert(buf@ =~= old(buf)@ + enc_req(req@));
                    }
                    Ok(())
                },
                Err(e) => Err(e),
            }
        },
        CommandRequest::Hdel(c) => {
            buf.push(6u8);
            match write_str(c.table.as_str(), buf) {
                Ok(()) => {},
                Err(e) => {
                    return Err(e);
                },
            }
            match write_str(c.key.as_str(), buf) {
                Ok(()) => {
                    proof {
                        assert(buf@ =~= old(buf)@ + enc_req(req@));
                    }
                    Ok(())
                },
                Err(e) => Err(e),
            }
        },
        CommandRequest::Hmdel(c) => {
            buf.push(7u8);
            match write_str(c.table.as_str(), buf) {
                Ok(()) => {},
                Err(e) => {
                    return Err(e);
                },
            }
            match write_strs(&c.keys, buf) {
                Ok(()) => {
                    proof {
                        assert(buf@ =~= old(buf)@ + enc_req(req@));
                    }
                    Ok(())
                },
                Err(e) => Err(e),
            }
        },
        CommandRequest::Hexist(c) => {
            buf.push(8u8);
            match write_str(c.table.as_str(), buf) {
                Ok(()) => {},
                Err(e) => {
                    return Err(e);
                },
            }
            match write_str(c.key.as_str(), buf) {
                Ok(()) => {
                    proof {
                        assert(buf@ =~= old(buf)@ + enc_req(req@));
                    }
                    Ok(())
                },
                Err(e) => Err(e),
            }
        },
        CommandRequest::Hmexist(c) => {
            buf.push(9u8);
            match write_str(c.table.as_str(), buf) {
                Ok(()) => {},
                Err(e) => {
                    return Err(e);
                },
            }
            match write_strs(&c.keys, buf) {
                Ok(()) => {
                    proof {
                        assert(buf@ =~= old(buf)@ + enc_req(req@));
                    }
                    Ok(())
                },
                Err(e) => Err(e),
            }
        },
    }
}

/// Appends the binary form of a response; fails with `TooLarge` exactly
/// when some part of the response does not fit its 32-bit length.
pub fn encode_response(resp: &CommandResponse, buf: &mut Vec<u8>) -> (r: Result<(), FrameError>)
    ensures
        r is Ok <==> wf_resp(resp@),
        r is Ok ==> final(buf)@ == old(buf)@ + enc_resp(resp@),
{
    write_u32_raw(resp.status, buf);
    match write_str(resp.message.as_str(), buf) {
        Ok(()) => {},
        Err(e) => {
            return Err(e);
        },
    }
    match write_values(&resp.values, buf) {
        Ok(()) => {},
        Err(e) => {
            return Err(e);
        },
    }
    match write_pairs(&resp.pairs, buf) {
        Ok(()) => {
            proof {
                assert(buf@ =~= old(buf)@ + enc_resp(resp@));
            }
            Ok(())
        },
        Err(e) => Err(e),
    }
}

/// Reads a 32-bit integer at `pos`.
fn read_u32(buf: &Vec<u8>, pos: usize) -> (r: Option<(u32, usize)>)
    requires
        pos <= buf@.len(),
    ensures
        r matches Some((v, p2)) ==> (dec_u32(buf@.skip(pos as int)) == Some(
            (v, p2 - pos as int),
        ) && pos <= p2 <= buf@.len()),
        r is None ==> dec_u32(buf@.skip(pos as int)) is None,
{
    if buf.len() - pos >= 4 {
        let v = (buf[pos] as u32) | ((buf[pos + 1] as u32) << 8) | ((buf[pos + 2] as u32) << 16)
            | ((buf[pos + 3] as u32) << 24);
        proof {
            let b = buf@.skip(pos as int);
            assert(b[0] == buf@[pos as int]);
            assert(b[1] == buf@[pos as int + 1]);
            assert(b[2] == buf@[pos as int + 2]);
            assert(b[3] == buf@[pos as int + 3]);
        }
        Some((v, pos + 4))
    } else {
        None
    }
}

/// Reads a 64-bit integer at `pos`.
fn read_u64(buf: &Vec<u8>, pos: usize) -> (r: Option<(u64, usize)>)
    requires
        pos <= buf@.len(),
    ensures
        r matches Some((v, p2)) ==> (dec_u64(buf@.skip(pos as int)) == Some(
            (v, p2 - pos as int),
        ) && pos <= p2 <= buf@.len()),
        r is None ==> dec_u64(buf@.skip(pos as int)) is None,
{
    if buf.len() - pos >= 8 {
        let v = (buf[pos] as u64) | ((buf[pos + 1] as u64) << 8) | ((buf[pos + 2] as u64) << 16)
            | ((buf[pos + 3] as u64) << 24) | ((buf[pos + 4] as u64) << 32) | ((buf[pos + 5]
            as u64) << 40) | ((buf[pos + 6] as u64) << 48) | ((buf[pos + 7] as u64) << 56);
        proof {
            let b = buf@.skip(pos as int);
            assert(b[0] == buf@[pos as int]);
            assert(b[1] == buf@[pos as int + 1]);
            assert(b[2] == buf@[pos as int + 2]);
            assert(b[3] == buf@[pos as int + 3]);
            assert(b[4] == buf@[pos as int + 4]);
            assert(b[5] == buf@[pos as int + 5]);
            assert(b[6] == buf@[pos as int + 6]);
            assert(b[7] == buf@[pos as int + 7]);
        }
        Some((v, pos + 8))
    } else {
        None
    }
}

/// Reads a length-prefixed string at `pos`.
fn read_str(buf: &Vec<u8>, pos: usize) -> (r: Option<(String, usize)>)
    requires
        pos <= buf@.len(),
    ensures
        r matches Some((s, p2)) ==> (dec_str(buf@.skip(pos as int)) == Some(
            (s@, p2 - pos as int),
        ) && pos <= p2 <= buf@.len()),
        r is None ==> dec_str(buf@.skip(pos as int)) is None,
{
    match read_u32(buf, pos) {
        None => None,
        Some((len, p1)) => {
            let n = len as usize;
            if n <= buf.len() - p1 {
                let mut bytes: Vec<u8> = Vec::new();
                let mut i: usize = 0;
                while i < n
                    invariant
                        p1 + n <= buf@.len(),
                        i <= n,
                        bytes@ == buf@.subrange(p1 as int, p1 as int + i as int),
                    decreases n - i,
                {
                    proof {
                        assert(buf.len() == buf@.len());
                    }
                    bytes.push(buf[p1 + i]);
                    i = i + 1;
                    proof {
                        assert(bytes@ =~= buf@.subrange(p1 as int, p1 as int + i as int));
                    }
                }
                let ghost bv = bytes@;
                proof {
                    assert(bv =~= buf@.skip(pos as int).subrange(4, 4 + n as int));
                }
                match string_from_utf8(bytes) {
                    Some(s) => Some((s, p1 + n)),
                    None => None,
                }
            } else {
                None
            }
        },
    }
}

/// Reads a length-prefixed byte blob at `pos`.
fn read_blob(buf: &Vec<u8>, pos: usize) -> (r: Option<(Vec<u8>, usize)>)
    requires
        pos <= buf@.len(),
    ensures
        r matches Some((bs, p2)) ==> (dec_blob(buf@.skip(pos as int)) == Some(
            (bs@, p2 - pos as int),
        ) && pos <= p2 <= buf@.len()),
        r is None ==> dec_blob(buf@.skip(pos as int)) is None,
{
    match read_u32(buf, pos) {
        None => None,
        Some((len, p1)) => {
            let n = len as usize;
            if n <= buf.len() - p1 {
                let mut bytes: Vec<u8> = Vec::new();
                let mut i: usize = 0;
                while i < n
                    invariant
                        p1 + n <= buf@.len(),
                        i <= n,
                        bytes@ == buf@.subrange(p1 as int, p1 as int + i as int),
                    decreases n - i,
                {
                    proof {
                        assert(buf.len() == buf@.len());
                    }
                    bytes.push(buf[p1 + i]);
                    i = i + 1;
                    proof {
                        assert(bytes@ =~= buf@.subrange(p1 as int, p1 as int + i as int));
                    }
                }
                proof {
                    assert(bytes@ =~= buf@.skip(pos as int).subrange(4, 4 + n as int));
                }
                Some((bytes, p1 + n))
            } else {
                None
            }
        },
    }
}

/// Reads one tagged value at `pos`.
fn read_value(buf: &Vec<u8>, pos: usize) -> (r: Option<(Value, usize)>)
    requires
        pos <= buf@.len(),
    ensures
        r matches Some((v, p2)) ==> (dec_value(buf@.skip(pos as int)) == Some(
            (v@, p2 - pos as int),
        ) && pos <= p2 <= buf@.len()),
        r is None ==> dec_value(buf@.skip(pos as int)) is None,
{
    if pos >= buf.len() {
        return None;
    }
    let tag = buf[pos];
    proof {
        assert(buf.len() == buf@.len());
        assert(buf@.skip(pos as int)[0] == buf@[pos as int]);
        assert(buf@.skip(pos as int).skip(1) =~= buf@.skip(pos as int + 1));
    }
    if tag == 0 {
        Some((Value::Empty, pos + 1))
    } else if tag == 1 {
        match read_str(buf, pos + 1) {
            Some((s, p2)) => Some((Value::Str(s), p2)),
            None => None,
        }
    } else if tag == 2 {
        match read_u64(buf, pos + 1) {
            Some((n, p2)) => Some((Value::Int(#[verifier::truncate] (n as i64)), p2)),
            None => None,
        }
    } else if tag == 3 {
        if buf.len() - pos >= 2 {
            let bb = buf[pos + 1];
            proof {
                assert(buf@.skip(pos as int)[1] == buf@[pos as int + 1]);
            }
            if bb == 0 || bb == 1 {
                Some((Value::Bool(bb == 1), pos + 2))
            } else {
                None
            }
        } else {
            None
        }
    } else if tag == 4 {
        match read_u64(buf, pos + 1) {
            Some((n, p2)) => Some((Value::Double(n), p2)),
            None => None,
        }
    } else if tag == 5 {
        match read_blob(buf, pos + 1) {
            Some((bs, p2)) => Some((Value::Binary(bs), p2)),
            None => None,
        }
    } else {
        None
    }
}

/// Reads one pair at `pos`: key, then value.
fn read_pair(buf: &Vec<u8>, pos: usize) -> (r: Option<(Kvpair, usize)>)
    requires
        pos <= buf@.len(),
    ensures
        r matches Some((p, p2)) ==> (dec_pair(buf@.skip(pos as int)) == Some(
            (p@, p2 - pos as int),
        ) && pos <= p2 <= buf@.len()),
        r is None ==> dec_pair(buf@.skip(pos as int)) is None,
{
    match read_str(buf, pos) {
        None => None,
        Some((k, p1)) => {
            proof {
                assert(buf@.skip(pos as int).skip(p1 - pos as int) =~= buf@.skip(p1 as int));
            }
            match read_value(buf, p1) {
                None => None,
                Some((v, p2)) => Some((Kvpair { key: k, value: v }, p2)),
            }
        },
    }
}

/// Reads `n` strings at `pos`, one after the other.
fn read_strs_items(buf: &Vec<u8>, pos: usize, n: u32) -> (r: Option<(Vec<String>, usize)>)
    requires
        pos <= buf@.len(),
    ensures
        r matches Some((xs, p2)) ==> (dec_strs_items(buf@.skip(pos as int), n as nat) == Some(
            (strs_view(xs@), p2 - pos as int),
        ) && pos <= p2 <= buf@.len()),
        r is None ==> dec_strs_items(buf@.skip(pos as int), n as nat) is None,
    decreases n,
{
    if n == 0 {
        let out: Vec<String> = Vec::new();
        proof {
            assert(strs_view(out@) =~= Seq::<Seq<char>>::empty());
        }
        Some((out, pos))
    } else {
        match read_str(buf, pos) {
            None => None,
            Some((s, p1)) => {
                proof {
                    assert(buf@.skip(pos as int).skip(p1 - pos as int) =~= buf@.skip(p1 as int));
                }
                match read_strs_items(buf, p1, n - 1) {
                    None => None,
                    Some((mut rest, p2)) => {
                        let ghost rv = rest@;
                        rest.insert(0, s);
                        proof {
                            assert(strs_view(rest@) =~= seq![s@] + strs_view(rv));
                        }
                        Some((rest, p2))
                    },
                }
            },
        }
    }
}

/// Reads a counted string list at `pos`.
fn read_strs(buf: &Vec<u8>, pos: usize) -> (r: Option<(Vec<String>, usize)>)
    requires
        pos <= buf@.len(),
    ensures
        r matches Some((xs, p2)) ==> (dec_strs(buf@.skip(pos as int)) == Some(
            (strs_view(xs@), p2 - pos as int),
        ) && pos <= p2 <= buf@.len()),
        r is None ==> dec_strs(buf@.skip(pos as int)) is None,
{
    match read_u32(buf, pos) {
        None => None,
        Some((n, p1)) => {
            proof {
                assert(buf@.skip(pos as int).skip(4) =~= buf@.skip(p1 as int));
            }
            match read_strs_items(buf, p1, n) {
                None => None,
                Some((xs, p2)) => Some((xs, p2)),
            }
        },
    }
}

/// Reads `n` values at `pos`, one after the other.
fn read_values_items(buf: &Vec<u8>, pos: usize, n: u32) -> (r: Option<(Vec<Value>, usize)>)
    requires
        pos <= buf@.len(),
    ensures
        r matches Some((xs, p2)) ==> (dec_values_items(buf@.skip(pos as int), n as nat) == Some(
            (values_view(xs@), p2 - pos as int),
        ) && pos <= p2 <= buf@.len()),
        r is None ==> dec_values_items(buf@.skip(pos as int), n as nat) is None,
    decreases n,
{
    if n == 0 {
        let out: Vec<Value> = Vec::new();
        proof {
            assert(values_view(out@) =~= Seq::<ValueV>::empty());
        }
        Some((out, pos))
    } else {
        match read_value(buf, pos) {
            None => None,
            Some((v, p1)) => {
                proof {
                    assert(buf@.skip(pos as int).skip(p1 - pos as int) =~= buf@.skip(p1 as int));
                }
                match read_values_items(buf, p1, n - 1) {
                    None => None,
                    Some((mut rest, p2)) => {
                        let ghost rv = rest@;
                        rest.insert(0, v);
                        proof {
                            assert(values_view(rest@) =~= seq![rest@[0]@] + values_view(rv));
                        }
                        Some((rest, p2))
                    },
                }
            },
        }
    }
}

/// Reads a counted value list at `pos`.
fn read_values(buf: &Vec<u8>, pos: usize) -> (r: Option<(Vec<Value>, usize)>)
    requires
        pos <= buf@.len(),
    ensures
        r matches Some((xs, p2)) ==> (dec_values(buf@.skip(pos as int)) == Some(
            (values_view(xs@), p2 - pos as int),
        ) && pos <= p2 <= buf@.len()),
        r is None ==> dec_values(buf@.skip(pos as int)) is None,
{
    match read_u32(buf, pos) {
        None => None,
        Some((n, p1)) => {
            proof {
                assert(buf@.skip(pos as int).skip(4) =~= buf@.skip(p1 as int));
            }
            match read_values_items(buf, p1, n) {
                None => None,
                Some((xs, p2)) => Some((xs, p2)),
            }
        },
    }
}

/// Reads `n` pairs at `pos`, one after the other.
fn read_pairs_items(buf: &Vec<u8>, pos: usize, n: u32) -> (r: Option<(Vec<Kvpair>, usize)>)
    requires
        pos <= buf@.len(),
    ensures
        r matches Some((xs, p2)) ==> (dec_pairs_items(buf@.skip(pos as int), n as nat) == Some(
            (pairs_view(xs@), p2 - pos as int),
        ) && pos <= p2 <= buf@.len()),
        r is None ==> dec_pairs_items(buf@.skip(pos as int), n as nat) is None,
    decreases n,
{
    if n == 0 {
        let out: Vec<Kvpair> = Vec::new();
        proof {
            assert(pairs_view(out@) =~= Seq::<KvpairV>::empty());
        }
        Some((out, pos))
    } else {
        match read_pair(buf, pos) {
            None => None,
            Some((p, p1)) => {
                proof {
                    assert(buf@.skip(pos as int).skip(p1 - pos as int) =~= buf@.skip(p1 as int));
                }
                match read_pairs_items(buf, p1, n - 1) {
                    None => None,
                    Some((mut rest, p2)) => {
                        let ghost rv = rest@;
                        rest.insert(0, p);
                        proof {
                            assert(pairs_view(rest@) =~= seq![rest@[0]@] + pairs_view(rv));
                        }
                        Some((rest, p2))
                    },
                }
            },
        }
    }
}

/// Reads a counted pair list at `pos`.
fn read_pairs(buf: &Vec<u8>, pos: usize) -> (r: Option<(Vec<Kvpair>, usize)>)
    requires
        pos <= buf@.len(),
    ensures
        r matches Some((xs, p2)) ==> (dec_pairs(buf@.skip(pos as int)) == Some(
            (pairs_view(xs@), p2 - pos as int),
        ) && pos <= p2 <= buf@.len()),
        r is None ==> dec_pairs(buf@.skip(pos as int)) is None,
{
    match read_u32(buf, pos) {
        None => None,
        Some((n, p1)) => {
            proof {
                assert(buf@.skip(pos as int).skip(4) =~= buf@.skip(p1 as int));
            }
            match read_pairs_items(buf, p1, n) {
                None => None,
                Some((xs, p2)) => Some((xs, p2)),
            }
        },
    }
}

/// Reads the body of a set request, after its tag.
#[verifier::rlimit(100)]
fn read_req_hset(buf: &Vec<u8>, pos: usize) -> (r: Option<(CommandRequest, usize)>)
    requires
        pos < buf@.len(),
        buf@[pos as int] == 1u8,
    ensures
        r matches Some((m, p2)) ==> (dec_req(buf@.skip(pos as int)) == Some(
            (m@, p2 - pos as int),
        ) && pos <= p2 <= buf@.len()),
        r is None ==> dec_req(buf@.skip(pos as int)) is None,
{
    proof {
        assert(buf.len() == buf@.len());
        assert(buf@.skip(pos as int)[0] == buf@[pos as int]);
        assert(buf@.skip(pos as int).skip(1) =~= buf@.skip(pos as int + 1));
    }
    match read_str(buf, pos + 1) {
        None => None,
        Some((t, p1)) => {
            proof {
                assert(buf@.skip(pos as int + 1).skip(p1 - (pos as int + 1)) =~= buf@.skip(
                    p1 as int,
                ));
            }
            proof {
                assert(buf@.skip(pos as int).skip(p1 - pos as int) =~= buf@.skip(p1 as int));
            }
            match read_pair(buf, p1) {
                None => None,
                Some((p, p2)) => Some((CommandRequest::Hset(Hset { table: t, pair: p }), p2)),
            }
        },
    }
}

/// Reads the body of a single-key request, after its tag.
#[verifier::rlimit(100)]
fn read_req_one_key(buf: &Vec<u8>, pos: usize) -> (r: Option<(CommandRequest, usize)>)
    requires
        pos < buf@.len(),
        buf@[pos as int] == 2u8 || buf@[pos as int] == 6u8 || buf@[pos as int] == 8u8,
    ensures
        r matches Some((m, p2)) ==> (dec_req(buf@.skip(pos as int)) == Some(
            (m@, p2 - pos as int),
        ) && pos <= p2 <= buf@.len()),
        r is None ==> dec_req(buf@.skip(pos as int)) is None,
{
    let tag = buf[pos];
    proof {
        assert(buf.len() == buf@.len());
        assert(buf@.skip(pos as int)[0] == buf@[pos as int]);
        assert(buf@.skip(pos as int).skip(1) =~= buf@.skip(pos as int + 1));
    }
    match read_str(buf, pos + 1) {
        None => None,
        Some((t, p1)) => {
            proof {
                assert(buf@.skip(pos as int + 1).skip(p1 - (pos as int + 1)) =~= buf@.skip(
                    p1 as int,
                ));
            }
            match read_str(buf, p1) {
                None => None,
                Some((k, p2)) => {
                    if tag == 2 {
                        Some((CommandRequest::Hget(Hget { table: t, key: k }), p2))
                    } else if tag == 6 {
                        Some((CommandRequest::Hdel(Hdel { table: t, key: k }), p2))
                    } else {
                        Some((CommandRequest::Hexist(Hexist { table: t, key: k }), p2))
                    }
                },
            }
        },
    }
}

/// Reads the body of a whole-table read, after its tag.
#[verifier::rlimit(100)]
fn read_req_hgetall(buf: &Vec<u8>, pos: usize) -> (r: Option<(CommandRequest, usize)>)
    requires
        pos < buf@.len(),
        buf@[pos as int] == 3u8,
    ensures
        r matches Some((m, p2)) ==> (dec_req(buf@.skip(pos as int)) == Some(
            (m@, p2 - pos as int),
        ) && pos <= p2 <= buf@.len()),
        r is None ==> dec_req(buf@.skip(pos as int)) is None,
{
    proof {
        assert(buf.len() == buf@.len());
        assert(buf@.skip(pos as int)[0] == buf@[pos as int]);
        assert(buf@.skip(pos as int).skip(1) =~= buf@.skip(pos as int + 1));
    }
    match read_str(buf, pos + 1) {
        None => None,
        Some((t, p2)) => Some((CommandRequest::Hgetall(Hgetall { table: t }), p2)),
    }
}

/// Reads the body of a multi-key request, after its tag.
#[verifier::rlimit(100)]
fn read_req_many_keys(buf: &Vec<u8>, pos: usize) -> (r: Option<(CommandRequest, usize)>)
    requires
        pos < buf@.len(),
        buf@[pos as int] == 4u8 || buf@[pos as int] == 7u8 || buf@[pos as int] == 9u8,
    ensures
        r matches Some((m, p2)) ==> (dec_req(buf@.skip(pos as int)) == Some(
            (m@, p2 - pos as int),
        ) && pos <= p2 <= buf@.len()),
        r is None ==> dec_req(buf@.skip(pos as int)) is None,
{
    let tag = buf[pos];
    proof {
        assert(buf.len() == buf@.len());
        assert(buf@.skip(pos as int)[0] == buf@[pos as int]);
        assert(buf@.skip(pos as int).skip(1) =~= buf@.skip(pos as int + 1));
    }
    match read_str(buf, pos + 1) {
        None => None,
        Some((t, p1)) => {
            proof {
                assert(buf@.skip(pos as int + 1).skip(p1 - (pos as int + 1)) =~= buf@.skip(
                    p1 as int,
                ));
            }
            match read_strs(buf, p1) {
                None => None,
                Some((ks, p2)) => {
                    if tag == 4 {
                        Some((CommandRequest::Hmget(Hmget { table: t, keys: ks }), p2))
                    } else if tag == 7 {
                        Some((CommandRequest::Hmdel(Hmdel { table: t, keys: ks }), p2))
                    } else {
                        Some((CommandRequest::Hmexist(Hmexist { table: t, keys: ks }), p2))
                    }
                },
            }
        },
    }
}

/// Reads the body of a multi-set request, after its tag.
#[verifier::rlimit(100)]
fn read_req_hmset(buf: &Vec<u8>, pos: usize) -> (r: Option<(CommandRequest, usize)>)
    requires
        pos < buf@.len(),
        buf@[pos as int] == 5u8,
    ensures
        r matches Some((m, p2)) ==> (dec_req(buf@.skip(pos as int)) == Some(
            (m@, p2 - pos as int),
        ) && pos <= p2 <= buf@.len()),
        r is None ==> dec_req(buf@.skip(pos as int)) is None,
{
    proof {
        assert(buf.len() == buf@.len());
        assert(buf@.skip(pos as int)[0] == buf@[pos as int]);
        assert(buf@.skip(pos as int).skip(1) =~= buf@.skip(pos as int + 1));
    }
    match read_str(buf, pos + 1) {
        None => None,
        Some((t, p1)) => {
            proof {
                assert(buf@.skip(pos as int + 1).skip(p1 - (pos as int + 1)) =~= buf@.skip(
                    p1 as int,
                ));
            }
            proof {
                assert(buf@.skip(pos as int).skip(p1 - pos as int) =~= buf@.skip(p1 as int));
            }
            match read_pairs(buf, p1) {
                None => None,
                Some((ps, p2)) => Some((CommandRequest::Hmset(Hmset { table: t, pairs: ps }), p2)),
            }
        },
    }
}

/// Reads one request at `pos`: the variant tag, then its fields.
fn read_request(buf: &Vec<u8>, pos: usize) -> (r: Option<(CommandRequest, usize)>)
    requires
        pos <= buf@.len(),
    ensures
        r matches Some((m, p2)) ==> (dec_req(buf@.skip(pos as int)) == Some(
            (m@, p2 - pos as int),
        ) && pos <= p2 <= buf@.len()),
        r is None ==> dec_req(buf@.skip(pos as int)) is None,
{
    if pos >= buf.len() {
        return None;
    }
    let tag = buf[pos];
    proof {
        assert(buf@.skip(pos as int)[0] == buf@[pos as int]);
    }
    if tag == 1 {
        read_req_hset(buf, pos)
    } else if tag == 2 || tag == 6 || tag == 8 {
        read_req_one_key(buf, pos)
    } else if tag == 3 {
        read_req_hgetall(buf, pos)
    } else if tag == 4 || tag == 7 || tag == 9 {
        read_req_many_keys(buf, pos)
    } else if tag == 5 {
        read_req_hmset(buf, pos)
    } else {
        None
    }
}

/// Reads one response at `pos`.
#[verifier::rlimit(100)]
#[verifier::spinoff_prover]
fn read_response(buf: &Vec<u8>, pos: usize) -> (r: Option<(CommandResponse, usize)>)
    requires
        pos <= buf@.len(),
    ensures
        r matches Some((m, p2)) ==> (dec_resp(buf@.skip(pos as int)) == Some(
            (m@, p2 - pos as int),
        ) && pos <= p2 <= buf@.len()),
        r is None ==> dec_resp(buf@.skip(pos as int)) is None,
{
    match read_u32(buf, pos) {
        None => None,
        Some((status, p1)) => {
            proof {
                assert(buf@.skip(pos as int).skip(4) =~= buf@.skip(p1 as int));
            }
            match read_str(buf, p1) {
                None => None,
                Some((msg, p2)) => {
                    proof {
                        assert(buf@.skip(p1 as int).skip(p2 - p1 as int) =~= buf@.skip(
                            p2 as int,
                        ));
                        assert(buf@.skip(pos as int).skip(4 + (p2 - p1 as int)) =~= buf@.skip(
                            p2 as int,
                        ));
                    }
                    match read_values(buf, p2) {
                        None => None,
                        Some((vs, p3)) => {
                            proof {
                                assert(buf@.skip(pos as int).skip(
                                    4 + (p2 - p1 as int) + (p3 - p2 as int),
                                ) =~= buf@.skip(p3 as int));
                            }
                            match read_pairs(buf, p3) {
                                None => None,
                                Some((ps, p4)) => Some(
                                    (
                                        CommandResponse {
                                            status,
                                            message: msg,
                                            values: vs,
                                            pairs: ps,
                                        },
                                        p4,
                                    ),
                                ),
                            }
                        },
                    }
                },
            }
        },
    }
}

/// Decodes a whole payload as one request; rejects anything the strict
/// parse does not consume exactly.
pub fn decode_request(buf: &Vec<u8>) -> (r: Result<CommandRequest, FrameError>)
    ensures
        r matches Ok(m) ==> dec_req_full(buf@) == Some(m@),
        r matches Err(e) ==> dec_req_full(buf@) is None && e == FrameError::Invalid,
{
    proof {
        assert(buf@.skip(0) =~= buf@);
    }
    match read_request(buf, 0) {
        Some((m, p)) => {
            if p == buf.len() {
                Ok(m)
            } else {
                Err(FrameError::Invalid)
            }
        },
        None => Err(FrameError::Invalid),
    }
}

/// Decodes a whole payload as one response; rejects anything the strict
/// parse does not consume exactly.
pub fn decode_response(buf: &Vec<u8>) -> (r: Result<CommandResponse, FrameError>)
    ensures
        r matches Ok(m) ==> dec_resp_full(buf@) == Some(m@),
        r matches Err(e) ==> dec_resp_full(buf@) is None && e == FrameError::Invalid,
{
    proof {
        assert(buf@.skip(0) =~= buf@);
    }
    match read_response(buf, 0) {
        Some((m, p)) => {
            if p == buf.len() {
                Ok(m)
            } else {
                Err(FrameError::Invalid)
            }
        },
        None => Err(FrameError::Invalid),
    }
}

} // verus!
