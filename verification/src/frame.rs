//! The frame layer: a self-delimiting wire unit over any byte stream.
//!
//! A frame is a 4-byte big-endian header followed by a payload. The low
//! 31 bits of the header carry the payload length, so a frame body is at
//! most 2 GiB - 1; the high bit says whether the payload was gzip
//! compressed. A message whose encoding is longer than
//! `COMPRESSION_LIMIT` bytes travels compressed; a shorter one travels
//! verbatim, so small exchanges pay no compression cost.

use crate::error::FrameError;
use crate::pb::CommandRequest;
use crate::pb::CommandResponse;
use crate::wire::dec_req_full;
use crate::wire::dec_resp_full;
use crate::wire::decode_request;
use crate::wire::decode_response;
use crate::wire::enc_req;
use crate::wire::enc_resp;
use crate::wire::encode_request;
use crate::wire::encode_response;
use crate::wire::wf_req;
use crate::wire::wf_resp;
use vstd::prelude::*;

verus! {

/// A payload longer than this many bytes is compressed.
pub const COMPRESSION_LIMIT: usize = 1436;

/// The longest payload a frame can carry: 31 bits of length.
pub const MAX_FRAME: u32 = 0x7FFF_FFFF;

/// What gzip compression yields for the given bytes.
pub uninterp spec fn gzip_of(b: Seq<u8>) -> Seq<u8>;

/// What gzip decompression yields for the given bytes: the bytes some
/// gzip stream compressed, or nothing when the input is not one.
pub uninterp spec fn gunzip_of(b: Seq<u8>) -> Option<Seq<u8>>;

/// Relies on flate2's `GzEncoder`: what it produces depends on the input
/// bytes alone, and gzip decompression restores the input from it.
#[verifier::external_body]
fn gzip_compress(data: &Vec<u8>) -> (r: Vec<u8>)
    ensures
        r@ == gzip_of(data@),
        gunzip_of(r@) == Some(data@),
{
    let mut encoder = flate2::write::GzEncoder::new(Vec::new(), flate2::Compression::default());
    std::io::Write::write_all(&mut encoder, data.as_slice()).expect("writing to a vector sink");
    encoder.finish().expect("finishing a vector sink")
}

/// Relies on flate2's `GzDecoder`: it restores what gzip compressed and
/// reports an error on bytes that are not a gzip stream.
#[verifier::external_body]
fn gzip_decompress(data: &Vec<u8>) -> (r: Result<Vec<u8>, FrameError>)
    ensures
        match r {
            Ok(out) => gunzip_of(data@) == Some(out@),
            Err(e) => gunzip_of(data@) is None && e == FrameError::Invalid,
        },
{
    let mut decoder = flate2::read::GzDecoder::new(data.as_slice());
    let mut out = Vec::new();
    match std::io::Read::read_to_end(&mut decoder, &mut out) {
        Ok(_) => Ok(out),
        Err(_) => Err(FrameError::Invalid),
    }
}

/// The header word of a frame: the length in the low 31 bits, the
/// compression flag in the high bit.
pub open spec fn frame_header(compressed: bool, len: u32) -> u32 {
    if compressed {
        len | 0x8000_0000u32
    } else {
        len
    }
}

/// A 32-bit integer as four big-endian bytes.
pub open spec fn enc_u32_be(n: u32) -> Seq<u8> {
    seq![(n >> 24) as u8, (n >> 16) as u8, (n >> 8) as u8, n as u8]
}

/// The 32-bit integer four big-endian bytes stand for.
pub open spec fn u32_from_be(b0: u8, b1: u8, b2: u8, b3: u8) -> u32 {
    ((b0 as u32) << 24) | ((b1 as u32) << 16) | ((b2 as u32) << 8) | (b3 as u32)
}

/// The whole frame that carries `body`.
pub open spec fn frame_bytes(compressed: bool, body: Seq<u8>) -> Seq<u8> {
    enc_u32_be(frame_header(compressed, body.len() as u32)) + body
}

/// The compression flag of a frame: the high bit of its first byte.
pub open spec fn frame_flag(b: Seq<u8>) -> bool
    recommends
        b.len() >= 4,
{
    (b[0] & 0x80u8) != 0
}

proof fn lemma_header_flag(len: u32)
    requires
        len <= 0x7FFF_FFFF,
    ensures
        (((len | 0x8000_0000u32) >> 24) as u8) & 0x80u8 != 0,
        ((len >> 24) as u8) & 0x80u8 == 0,
{
    assert((((len | 0x8000_0000u32) >> 24) as u8) & 0x80u8 != 0) by (bit_vector);
    assert(len <= 0x7FFF_FFFF ==> ((len >> 24) as u8) & 0x80u8 == 0) by (bit_vector);
}

proof fn lemma_header_split(n: u32)
    ensures
        frame_header((n & 0x8000_0000u32) != 0, n & 0x7FFF_FFFFu32) == n,
        n & 0x7FFF_FFFFu32 <= 0x7FFF_FFFF,
{
    assert((n & 0x8000_0000u32) != 0 ==> ((n & 0x7FFF_FFFFu32) | 0x8000_0000u32) == n)
        by (bit_vector);
    assert((n & 0x8000_0000u32) == 0 ==> (n & 0x7FFF_FFFFu32) == n) by (bit_vector);
    assert(n & 0x7FFF_FFFFu32 <= 0x7FFF_FFFF) by (bit_vector);
}

proof fn lemma_header_inj(flag: bool, len: u32)
    requires
        len <= 0x7FFF_FFFF,
    ensures
        ((frame_header(flag, len) & 0x8000_0000u32) != 0) == flag,
        frame_header(flag, len) & 0x7FFF_FFFFu32 == len,
{
    assert(len <= 0x7FFF_FFFF ==> ((len | 0x8000_0000u32) & 0x8000_0000u32) != 0 && ((len
        | 0x8000_0000u32) & 0x7FFF_FFFFu32) == len) by (bit_vector);
    assert(len <= 0x7FFF_FFFF ==> (len & 0x8000_0000u32) == 0 && (len & 0x7FFF_FFFFu32) == len)
        by (bit_vector);
}

/// Appends a 32-bit integer, big-endian.
fn write_u32_be(n: u32, buf: &mut Vec<u8>)
    ensures
        final(buf)@ == old(buf)@ + enc_u32_be(n),
{
    buf.push(#[verifier::truncate] ((n >> 24) as u8));
    buf.push(#[verifier::truncate] ((n >> 16) as u8));
    buf.push(#[verifier::truncate] ((n >> 8) as u8));
    buf.push(#[verifier::truncate] (n as u8));
    proof {
        assert(buf@ =~= old(buf)@ + enc_u32_be(n));
    }
}

/// Splits one frame header into its compression flag and payload length.
pub fn decode_frame_header(b0: u8, b1: u8, b2: u8, b3: u8) -> (r: (bool, u32))
    ensures
        frame_header(r.0, r.1) == u32_from_be(b0, b1, b2, b3),
        r.1 <= 0x7FFF_FFFF,
{
    let n = ((b0 as u32) << 24) | ((b1 as u32) << 16) | ((b2 as u32) << 8) | (b3 as u32);
    proof {
        lemma_header_split(n);
    }
    ((n & 0x8000_0000u32) != 0, n & 0x7FFF_FFFFu32)
}

/// Appends one whole frame carrying the request.
///
/// Compression boundary: the frame's compression flag is set exactly
/// when the encoded payload is longer than `COMPRESSION_LIMIT` bytes.
/// Fails with `TooLarge` when the payload, or its compressed form, does
/// not fit the 31 bits of length; the buffer is then unchanged.
pub fn encode_request_frame(req: &CommandRequest, buf: &mut Vec<u8>) -> (r: Result<
    (),
    FrameError,
>)
    ensures
        r is Ok ==> wf_req(req@) && ({
            let payload = enc_req(req@);
            if payload.len() > COMPRESSION_LIMIT {
                final(buf)@ == old(buf)@ + frame_bytes(true, gzip_of(payload)) && gzip_of(
                    payload,
                ).len() <= MAX_FRAME && gunzip_of(gzip_of(payload)) == Some(payload)
            } else {
                final(buf)@ == old(buf)@ + frame_bytes(false, payload)
            }
        }),
        r is Ok ==> (frame_flag(final(buf)@.skip(old(buf)@.len() as int)) <==> enc_req(
            req@,
        ).len() > COMPRESSION_LIMIT),
        r is Err <==> !wf_req(req@) || enc_req(req@).len() > MAX_FRAME || (enc_req(req@).len()
            > COMPRESSION_LIMIT && gzip_of(enc_req(req@)).len() > MAX_FRAME),
        r is Err ==> final(buf)@ == old(buf)@,
{
    let mut payload: Vec<u8> = Vec::new();
    match encode_request(req, &mut payload) {
        Ok(()) => {},
        Err(e) => {
            return Err(e);
        },
    }
    if payload.len() as u64 > MAX_FRAME as u64 {
        return Err(FrameError::TooLarge);
    }
    if payload.len() > COMPRESSION_LIMIT {
        let z = gzip_compress(&payload);
        if z.len() as u64 > MAX_FRAME as u64 {
            return Err(FrameError::TooLarge);
        }
        let header = (z.len() as u32) | 0x8000_0000u32;
        write_u32_be(header, buf);
        buf.extend_from_slice(z.as_slice());
        proof {
            lemma_header_flag(z.len() as u32);
            assert(buf@ =~= old(buf)@ + frame_bytes(true, z@));
            assert(buf@.skip(old(buf)@.len() as int) =~= frame_bytes(true, z@));
        }
        Ok(())
    } else {
        let header = payload.len() as u32;
        write_u32_be(header, buf);
        buf.extend_from_slice(payload.as_slice());
        proof {
            lemma_header_flag(payload.len() as u32);
            assert(buf@ =~= old(buf)@ + frame_bytes(false, payload@));
            assert(buf@.skip(old(buf)@.len() as int) =~= frame_bytes(false, payload@));
        }
        Ok(())
    }
}

/// Appends one whole frame carrying the response; the compression
/// boundary and the failure mode are those of the request frames.
pub fn encode_response_frame(resp: &CommandResponse, buf: &mut Vec<u8>) -> (r: Result<
    (),
    FrameError,
>)
    ensures
        r is Ok ==> wf_resp(resp@) && ({
            let payload = enc_resp(resp@);
            if payload.len() > COMPRESSION_LIMIT {
                final(buf)@ == old(buf)@ + frame_bytes(true, gzip_of(payload)) && gzip_of(
                    payload,
                ).len() <= MAX_FRAME && gunzip_of(gzip_of(payload)) == Some(payload)
            } else {
                final(buf)@ == old(buf)@ + frame_bytes(false, payload)
            }
        }),
        r is Ok ==> (frame_flag(final(buf)@.skip(old(buf)@.len() as int)) <==> enc_resp(
            resp@,
        ).len() > COMPRESSION_LIMIT),
        r is Err <==> !wf_resp(resp@) || enc_resp(resp@).len() > MAX_FRAME || (enc_resp(
            resp@,
        ).len() > COMPRESSION_LIMIT && gzip_of(enc_resp(resp@)).len() > MAX_FRAME),
        r is Err ==> final(buf)@ == old(buf)@,
{
    let mut payload: Vec<u8> = Vec::new();
    match encode_response(resp, &mut payload) {
        Ok(()) => {},
        Err(e) => {
            return Err(e);
        },
    }
    if payload.len() as u64 > MAX_FRAME as u64 {
        return Err(FrameError::TooLarge);
    }
    if payload.len() > COMPRESSION_LIMIT {
        let z = gzip_compress(&payload);
        if z.len() as u64 > MAX_FRAME as u64 {
            return Err(FrameError::TooLarge);
        }
        let header = (z.len() as u32) | 0x8000_0000u32;
        write_u32_be(header, buf);
        buf.extend_from_slice(z.as_slice());
        proof {
            lemma_header_flag(z.len() as u32);
            assert(buf@ =~= old(buf)@ + frame_bytes(true, z@));
            assert(buf@.skip(old(buf)@.len() as int) =~= frame_bytes(true, z@));
        }
        Ok(())
    } else {
        let header = payload.len() as u32;
        write_u32_be(header, buf);
        buf.extend_from_slice(payload.as_slice());
        proof {
            lemma_header_flag(payload.len() as u32);
            assert(buf@ =~= old(buf)@ + frame_bytes(false, payload@));
            assert(buf@.skip(old(buf)@.len() as int) =~= frame_bytes(false, payload@));
        }
        Ok(())
    }
}

/// Decodes one frame body as a request, inflating it first when the
/// frame was compressed.
pub fn decode_request_payload(compressed: bool, body: &Vec<u8>) -> (r: Result<
    CommandRequest,
    FrameError,
>)
    ensures
        !compressed ==> (match r {
            Ok(m) => dec_req_full(body@) == Some(m@),
            Err(_) => dec_req_full(body@) is None,
        }),
        compressed ==> (match r {
            Ok(m) => gunzip_of(body@) matches Some(p) && dec_req_full(p) == Some(m@),
            Err(_) => gunzip_of(body@) is None || (gunzip_of(body@) matches Some(p)
                && dec_req_full(p) is None),
        }),
        r matches Err(e) ==> e == FrameError::Invalid,
{
    if compressed {
        match gzip_decompress(body) {
            Ok(p) => decode_request(&p),
            Err(e) => Err(e),
        }
    } else {
        decode_request(body)
    }
}

/// Decodes one frame body as a response, inflating it first when the
/// frame was compressed.
pub fn decode_response_payload(compressed: bool, body: &Vec<u8>) -> (r: Result<
    CommandResponse,
    FrameError,
>)
    ensures
        !compressed ==> (match r {
            Ok(m) => dec_resp_full(body@) == Some(m@),
            Err(_) => dec_resp_full(body@) is None,
        }),
        compressed ==> (match r {
            Ok(m) => gunzip_of(body@) matches Some(p) && dec_resp_full(p) == Some(m@),
            Err(_) => gunzip_of(body@) is None || (gunzip_of(body@) matches Some(p)
                && dec_resp_full(p) is None),
        }),
        r matches Err(e) ==> e == FrameError::Invalid,
{
    if compressed {
        match gzip_decompress(body) {
            Ok(p) => decode_response(&p),
            Err(e) => Err(e),
        }
    } else {
        decode_response(body)
    }
}

/// A copy of the buffer from `from` on.
fn copy_tail(buf: &Vec<u8>, from: usize) -> (r: Vec<u8>)
    requires
        from <= buf@.len(),
    ensures
        r@ == buf@.skip(from as int),
{
    let mut out: Vec<u8> = Vec::new();
    let mut i: usize = from;
    while i < buf.len()
        invariant
            from <= i <= buf@.len(),
            out@ == buf@.subrange(from as int, i as int),
        decreases buf@.len() - i,
    {
        proof {
            assert(buf.len() == buf@.len());
        }
        out.push(buf[i]);
        i = i + 1;
        proof {
            assert(out@ =~= buf@.subrange(from as int, i as int));
        }
    }
    proof {
        assert(out@ =~= buf@.skip(from as int));
    }
    out
}

/// Decodes a buffer that holds exactly one frame as a request.
pub fn decode_request_frame(buf: &Vec<u8>) -> (r: Result<CommandRequest, FrameError>)
    ensures
        r matches Ok(m) ==> buf@.len() >= 4 && ({
            let n = u32_from_be(buf@[0], buf@[1], buf@[2], buf@[3]);
            let flag = (n & 0x8000_0000u32) != 0;
            let len = (n & 0x7FFF_FFFFu32) as int;
            let body = buf@.skip(4);
            &&& buf@.len() == 4 + len
            &&& if flag {
                gunzip_of(body) matches Some(p) && dec_req_full(p) == Some(m@)
            } else {
                dec_req_full(body) == Some(m@)
            }
        }),
        r matches Err(e) ==> e == FrameError::Invalid,
        buf@.len() >= 4 ==> ({
            let n = u32_from_be(buf@[0], buf@[1], buf@[2], buf@[3]);
            let flag = (n & 0x8000_0000u32) != 0;
            let len = (n & 0x7FFF_FFFFu32) as int;
            let body = buf@.skip(4);
            (buf@.len() == 4 + len && (if flag {
                gunzip_of(body) matches Some(p) && dec_req_full(p) is Some
            } else {
                dec_req_full(body) is Some
            })) ==> r is Ok
        }),
{
    if buf.len() < 4 {
        return Err(FrameError::Invalid);
    }
    let (flag, len) = decode_frame_header(buf[0], buf[1], buf[2], buf[3]);
    proof {
        assert(buf.len() == buf@.len());
        lemma_header_inj(flag, len);
    }
    if buf.len() - 4 != len as usize {
        return Err(FrameError::Invalid);
    }
    let body = copy_tail(buf, 4);
    decode_request_payload(flag, &body)
}

/// Decodes a buffer that holds exactly one frame as a response.
pub fn decode_response_frame(buf: &Vec<u8>) -> (r: Result<CommandResponse, FrameError>)
    ensures
        r matches Ok(m) ==> buf@.len() >= 4 && ({
            let n = u32_from_be(buf@[0], buf@[1], buf@[2], buf@[3]);
            let flag = (n & 0x8000_0000u32) != 0;
            let len = (n & 0x7FFF_FFFFu32) as int;
            let body = buf@.skip(4);
            &&& buf@.len() == 4 + len
            &&& if flag {
                gunzip_of(body) matches Some(p) && dec_resp_full(p) == Some(m@)
            } else {
                dec_resp_full(body) == Some(m@)
            }
        }),
        r matches Err(e) ==> e == FrameError::Invalid,
        buf@.len() >= 4 ==> ({
            let n = u32_from_be(buf@[0], buf@[1], buf@[2], buf@[3]);
            let flag = (n & 0x8000_0000u32) != 0;
            let len = (n & 0x7FFF_FFFFu32) as int;
            let body = buf@.skip(4);
            (buf@.len() == 4 + len && (if flag {
                gunzip_of(body) matches Some(p) && dec_resp_full(p) is Some
            } else {
                dec_resp_full(body) is Some
            })) ==> r is Ok
        }),
{
    if buf.len() < 4 {
        return Err(FrameError::Invalid);
    }
    let (flag, len) = decode_frame_header(buf[0], buf[1], buf[2], buf[3]);
    proof {
        assert(buf.len() == buf@.len());
        lemma_header_inj(flag, len);
    }
    if buf.len() - 4 != len as usize {
        return Err(FrameError::Invalid);
    }
    let body = copy_tail(buf, 4);
    decode_response_payload(flag, &body)
}

} // verus!
