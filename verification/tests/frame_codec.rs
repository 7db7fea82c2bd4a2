use kvs::frame::decode_frame_header;
use kvs::frame::decode_request_frame;
use kvs::frame::decode_response_frame;
use kvs::frame::encode_request_frame;
use kvs::frame::encode_response_frame;
use kvs::wire::decode_request;
use kvs::wire::decode_response;
use kvs::wire::encode_request;
use kvs::wire::encode_response;
use kvs::CommandRequest;
use kvs::CommandResponse;
use kvs::FrameError;
use kvs::Kvpair;
use kvs::Value;

fn big_string(n: usize) -> String {
    let mut s = String::new();
    for _ in 0..n {
        s.push('x');
    }
    s
}

#[test]
fn request_roundtrip_small_frame() {
    let cmd = CommandRequest::new_hset("t1", "hello", "world".into());
    let mut buf = Vec::new();
    encode_request_frame(&cmd, &mut buf).unwrap();

    // Small payload: compression flag clear, body verbatim.
    assert_eq!(buf[0] & 0x80, 0);
    let mut payload = Vec::new();
    encode_request(&cmd, &mut payload).unwrap();
    assert_eq!(&buf[4..], &payload[..]);

    let decoded = decode_request_frame(&buf).unwrap();
    assert_eq!(decoded, cmd);
}

#[test]
fn request_roundtrip_compressed_frame() {
    let cmd = CommandRequest::new_hset("table", "key", Value::Str(big_string(2000)));
    let mut buf = Vec::new();
    encode_request_frame(&cmd, &mut buf).unwrap();

    // Large payload: compression flag set, and the body is smaller than
    // the payload it compresses.
    assert_ne!(buf[0] & 0x80, 0);
    let mut payload = Vec::new();
    encode_request(&cmd, &mut payload).unwrap();
    assert!(buf.len() - 4 < payload.len());

    // The body gunzips back to the original payload bytes.
    let mut inflated = Vec::new();
    let mut decoder = flate2::read::GzDecoder::new(&buf[4..]);
    std::io::Read::read_to_end(&mut decoder, &mut inflated).unwrap();
    assert_eq!(inflated, payload);

    let decoded = decode_request_frame(&buf).unwrap();
    assert_eq!(decoded, cmd);
}

#[test]
fn response_roundtrip_both_sides_of_the_boundary() {
    let small = CommandResponse {
        status: 200,
        message: String::new(),
        values: vec![10.into()],
        pairs: vec![],
    };
    let mut buf = Vec::new();
    encode_response_frame(&small, &mut buf).unwrap();
    assert_eq!(buf[0] & 0x80, 0);
    assert_eq!(decode_response_frame(&buf).unwrap(), small);

    let large = CommandResponse {
        status: 200,
        message: String::new(),
        values: vec![],
        pairs: vec![Kvpair::new("k", Value::Str(big_string(3000)))],
    };
    let mut buf = Vec::new();
    encode_response_frame(&large, &mut buf).unwrap();
    assert_ne!(buf[0] & 0x80, 0);
    assert_eq!(decode_response_frame(&buf).unwrap(), large);
}

#[test]
fn compression_boundary_is_exact() {
    // An Hget request encodes as 1 tag byte plus two length-prefixed
    // strings: 9 bytes of fixed overhead plus the text itself.
    let at_limit = CommandRequest::new_hget("t", &big_string(1426));
    let mut payload = Vec::new();
    encode_request(&at_limit, &mut payload).unwrap();
    assert_eq!(payload.len(), 1436);
    let mut buf = Vec::new();
    encode_request_frame(&at_limit, &mut buf).unwrap();
    assert_eq!(buf[0] & 0x80, 0);

    let over_limit = CommandRequest::new_hget("t", &big_string(1427));
    let mut payload = Vec::new();
    encode_request(&over_limit, &mut payload).unwrap();
    assert_eq!(payload.len(), 1437);
    let mut buf = Vec::new();
    encode_request_frame(&over_limit, &mut buf).unwrap();
    assert_ne!(buf[0] & 0x80, 0);
}

#[test]
fn truncated_header_is_invalid() {
    let cmd = CommandRequest::new_hget("score", "u1");
    let mut buf = Vec::new();
    encode_request_frame(&cmd, &mut buf).unwrap();
    let truncated = buf[..2].to_vec();
    assert_eq!(decode_request_frame(&truncated), Err(FrameError::Invalid));
}

#[test]
fn truncated_body_is_invalid() {
    let cmd = CommandRequest::new_hget("score", "u1");
    let mut buf = Vec::new();
    encode_request_frame(&cmd, &mut buf).unwrap();
    let truncated = buf[..buf.len() - 1].to_vec();
    assert_eq!(decode_request_frame(&truncated), Err(FrameError::Invalid));
}

#[test]
fn header_split_matches_layout() {
    let (flag, len) = decode_frame_header(0x80, 0, 0, 5);
    assert!(flag);
    assert_eq!(len, 5);
    let (flag, len) = decode_frame_header(0x00, 0, 1, 0);
    assert!(!flag);
    assert_eq!(len, 256);
}

#[test]
fn all_request_variants_roundtrip() {
    let keys = vec!["a".to_string(), "b".to_string()];
    let pairs = vec![Kvpair::new("a", 1.into()), Kvpair::new("b", true.into())];
    let cmds = vec![
        CommandRequest::new_hset("t", "k", Value::Str("v".to_string())),
        CommandRequest::new_hget("t", "k"),
        CommandRequest::new_hgetall("t"),
        CommandRequest::new_hmget("t", keys.clone()),
        CommandRequest::new_hmset("t", pairs),
        CommandRequest::new_hdel("t", "k"),
        CommandRequest::new_hmdel("t", keys.clone()),
        CommandRequest::new_hexist("t", "k"),
        CommandRequest::new_hmexist("t", keys),
    ];
    for cmd in cmds {
        let mut buf = Vec::new();
        encode_request(&cmd, &mut buf).unwrap();
        assert_eq!(decode_request(&buf).unwrap(), cmd);
    }
}

#[test]
fn all_value_shapes_roundtrip() {
    let values = vec![
        Value::Empty,
        Value::Str("caf\u{e9} \u{4e16}\u{754c}".to_string()),
        Value::Int(-42),
        Value::Int(i64::MAX),
        Value::Int(i64::MIN),
        Value::Bool(true),
        Value::Bool(false),
        Value::Double(f64::to_bits(2.5)),
        Value::Binary(vec![0, 1, 2, 255]),
    ];
    let resp = CommandResponse {
        status: 404,
        message: "Not found for table: t, key: k".to_string(),
        values,
        pairs: vec![Kvpair::new("p", Value::Empty)],
    };
    let mut buf = Vec::new();
    encode_response(&resp, &mut buf).unwrap();
    assert_eq!(decode_response(&buf).unwrap(), resp);
}

#[test]
fn corrupt_payloads_are_rejected() {
    // An unknown request tag.
    let cmd = CommandRequest::new_hget("t", "k");
    let mut buf = Vec::new();
    encode_request(&cmd, &mut buf).unwrap();
    let mut bad_tag = buf.clone();
    bad_tag[0] = 42;
    assert_eq!(decode_request(&bad_tag), Err(FrameError::Invalid));

    // Trailing garbage after a complete request.
    let mut trailing = buf.clone();
    trailing.push(0);
    assert_eq!(decode_request(&trailing), Err(FrameError::Invalid));

    // A string whose bytes are not valid UTF-8: the table name "t"
    // sits right after the tag and its length.
    let mut bad_utf8 = buf.clone();
    bad_utf8[5] = 0xFF;
    assert_eq!(decode_request(&bad_utf8), Err(FrameError::Invalid));

    // A boolean byte that is neither 0 nor 1.
    let resp = CommandResponse {
        status: 200,
        message: String::new(),
        values: vec![Value::Bool(true)],
        pairs: vec![],
    };
    let mut rbuf = Vec::new();
    encode_response(&resp, &mut rbuf).unwrap();
    let n = rbuf.len();
    let mut bad_bool = rbuf.clone();
    bad_bool[n - 1] = 2;
    assert_eq!(decode_response(&bad_bool), Err(FrameError::Invalid));

    // An empty payload.
    let empty: Vec<u8> = Vec::new();
    assert_eq!(decode_request(&empty), Err(FrameError::Invalid));
}
