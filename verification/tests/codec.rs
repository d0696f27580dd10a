use ferdis::codec::{
    bytes_to_string, decode_reply, deserialize_response, deserialize_string, deserialize_u32,
    encode_request, frame_reply, out_arr, out_err, out_nil, out_str, Reply, ResType,
};

#[test]
fn nil_body_bytes() {
    assert_eq!(out_nil(), vec![0u8, 0, 0, 0]);
}

#[test]
fn str_body_bytes() {
    let body = out_str("hi");
    assert_eq!(body, vec![2u8, 0, 0, 0, 2, 0, 0, 0, b'h', b'i']);
}

#[test]
fn err_body_bytes() {
    let body = out_err(2, "no");
    assert_eq!(body, vec![1u8, 0, 0, 0, 2, 0, 0, 0, 2, 0, 0, 0, b'n', b'o']);
}

#[test]
fn arr_body_bytes() {
    let body = out_arr(&vec!["a".to_string(), "b".to_string()]);
    let expected = vec![
        3u8, 0, 0, 0, // tag ARR
        2, 0, 0, 0, // count
        2, 0, 0, 0, 1, 0, 0, 0, b'a', // STR "a"
        2, 0, 0, 0, 1, 0, 0, 0, b'b', // STR "b"
    ];
    assert_eq!(body, expected);
}

#[test]
fn request_frame_bytes() {
    let frame = encode_request(b"get x");
    assert_eq!(frame, vec![5u8, 0, 0, 0, b'g', b'e', b't', b' ', b'x']);
}

#[test]
fn deserialize_u32_little_endian() {
    assert_eq!(deserialize_u32(&[1, 2, 0, 0]), 0x201);
    assert_eq!(deserialize_u32(&[0xff, 0xff, 0xff, 0xff]), u32::MAX);
}

#[test]
fn deserialize_string_decodes_utf8() {
    let s = deserialize_string(&[b'h', b'i', b'!', b'!'], 2);
    assert_eq!(s, "hi");
}

#[test]
fn bytes_to_string_rejects_invalid_utf8() {
    assert!(bytes_to_string(vec![0xff, 0xfe]).is_none());
    assert_eq!(bytes_to_string(vec![0xc3, 0xa9]).unwrap(), "\u{e9}");
}

#[test]
fn reply_round_trip_nil() {
    let frame = frame_reply(&Reply::Nil).unwrap();
    let body = &frame[4..];
    assert_eq!(deserialize_u32(&frame[0..4]) as usize, body.len());
    let resp = deserialize_response(body);
    assert!(matches!(resp.res_type, ResType::NIL));
    assert_eq!(resp.res_code, 0);
    assert!(resp.message.is_none());
}

#[test]
fn reply_round_trip_str() {
    let frame = frame_reply(&Reply::Str { value: "my_value".to_string() }).unwrap();
    let body = &frame[4..];
    let resp = deserialize_response(body);
    assert!(matches!(resp.res_type, ResType::STR));
    assert_eq!(resp.message.unwrap(), "my_value");
}

#[test]
fn reply_round_trip_err() {
    let frame =
        frame_reply(&Reply::Error { code: 2, message: "Insufficient arguments".to_string() })
            .unwrap();
    let body = &frame[4..];
    let resp = deserialize_response(body);
    assert!(matches!(resp.res_type, ResType::ERR));
    assert_eq!(resp.res_code, 2);
    assert_eq!(resp.message.unwrap(), "Insufficient arguments");
}

#[test]
fn reply_too_large_is_refused() {
    let big = "x".repeat(5000);
    assert!(frame_reply(&Reply::Str { value: big }).is_none());
}

#[test]
fn reply_round_trip_arr_via_decoder() {
    let names = vec!["alpha".to_string(), "beta".to_string(), "".to_string()];
    let frame = frame_reply(&Reply::Arr { values: names.clone() }).unwrap();
    match decode_reply(&frame[4..]) {
        Some(Reply::Arr { values }) => assert_eq!(values, names),
        _ => panic!("expected an array reply"),
    }
}

#[test]
fn decode_reply_round_trip_each_shape() {
    let frame = frame_reply(&Reply::Nil).unwrap();
    assert!(matches!(decode_reply(&frame[4..]), Some(Reply::Nil)));

    let frame = frame_reply(&Reply::Str { value: "v".to_string() }).unwrap();
    match decode_reply(&frame[4..]) {
        Some(Reply::Str { value }) => assert_eq!(value, "v"),
        _ => panic!("expected a string reply"),
    }

    let frame = frame_reply(&Reply::Error { code: 3, message: "Too many arguments".to_string() })
        .unwrap();
    match decode_reply(&frame[4..]) {
        Some(Reply::Error { code, message }) => {
            assert_eq!(code, 3);
            assert_eq!(message, "Too many arguments");
        }
        _ => panic!("expected an error reply"),
    }
}

#[test]
fn decode_reply_rejects_malformed_bodies() {
    assert!(decode_reply(&[]).is_none());
    assert!(decode_reply(&[9, 0, 0, 0]).is_none()); // unknown tag
    assert!(decode_reply(&[0, 0, 0, 0, 1]).is_none()); // NIL with a trailing byte
    assert!(decode_reply(&[2, 0, 0, 0, 5, 0, 0, 0, b'x']).is_none()); // short payload
    assert!(decode_reply(&[2, 0, 0, 0, 1, 0, 0, 0, 0xff]).is_none()); // invalid UTF-8
    assert!(decode_reply(&[3, 0, 0, 0, 1, 0, 0, 0]).is_none()); // missing element
}

#[test]
fn res_type_tags_and_names() {
    assert_eq!(ResType::NIL.tag(), 0);
    assert_eq!(ResType::ERR.tag(), 1);
    assert_eq!(ResType::STR.tag(), 2);
    assert_eq!(ResType::ARR.tag(), 3);
    assert_eq!(ResType::from_u32(0).as_str(), "NIL");
    assert_eq!(ResType::from_u32(1).as_str(), "ERR");
    assert_eq!(ResType::from_u32(2).as_str(), "STR");
    assert_eq!(ResType::from_u32(3).as_str(), "ARR");
}
