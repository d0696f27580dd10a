use ferdis::codec::{deserialize_response, deserialize_u32, encode_request, Reply, ResType};
use ferdis::conn::{try_one_request, Conn};
use ferdis::engine::do_request;
use ferdis::oa_map::OAMap;

/// Feed one command through the connection machinery and hand back the
/// reply frame it stages, flushing it completely.
fn send_cmd(conn: &mut Conn, storage: &mut OAMap, cmd: &str) -> Vec<u8> {
    let frame = encode_request(cmd.as_bytes());
    conn.absorb(&frame);
    assert!(try_one_request(conn, storage));
    let reply = conn.wbuf[conn.wbuf_sent..conn.wbuf_size].to_vec();
    let n = conn.wbuf_size - conn.wbuf_sent;
    conn.advance_write(n);
    assert!(conn.wants_read());
    reply
}

fn body(frame: &[u8]) -> &[u8] {
    let len = deserialize_u32(&frame[0..4]) as usize;
    assert_eq!(frame.len(), 4 + len);
    &frame[4..]
}

#[test]
fn command_sequence_end_to_end() {
    let mut conn = Conn::new(7);
    let mut storage = OAMap::new();

    let r = deserialize_response(body(&send_cmd(&mut conn, &mut storage, "get my_key")));
    assert!(matches!(r.res_type, ResType::NIL));

    let r = deserialize_response(body(&send_cmd(&mut conn, &mut storage, "set my_key my_value")));
    assert!(matches!(r.res_type, ResType::NIL));

    let r = deserialize_response(body(&send_cmd(&mut conn, &mut storage, "get my_key")));
    assert!(matches!(r.res_type, ResType::STR));
    assert_eq!(r.message.unwrap(), "my_value");

    let r = deserialize_response(body(&send_cmd(
        &mut conn,
        &mut storage,
        "set my_key other_value",
    )));
    assert!(matches!(r.res_type, ResType::NIL));

    let r = deserialize_response(body(&send_cmd(&mut conn, &mut storage, "get my_key")));
    assert!(matches!(r.res_type, ResType::STR));
    assert_eq!(r.message.unwrap(), "other_value");

    let r = deserialize_response(body(&send_cmd(&mut conn, &mut storage, "del my_key")));
    assert!(matches!(r.res_type, ResType::STR));
    assert_eq!(r.message.unwrap(), "other_value");

    let r = deserialize_response(body(&send_cmd(&mut conn, &mut storage, "get my_key")));
    assert!(matches!(r.res_type, ResType::NIL));

    let r = deserialize_response(body(&send_cmd(&mut conn, &mut storage, "get")));
    assert!(matches!(r.res_type, ResType::ERR));
    assert_eq!(r.res_code, 2);
    assert_eq!(r.message.unwrap(), "Insufficient arguments");

    let r = deserialize_response(body(&send_cmd(&mut conn, &mut storage, "set key")));
    assert!(matches!(r.res_type, ResType::ERR));
    assert_eq!(r.res_code, 2);
    assert_eq!(r.message.unwrap(), "Insufficient arguments");

    let r = deserialize_response(body(&send_cmd(&mut conn, &mut storage, "sadfasdf")));
    assert!(matches!(r.res_type, ResType::ERR));
    assert_eq!(r.res_code, 1);
    assert_eq!(r.message.unwrap(), "Unknown command");
}

#[test]
fn del_and_keys_arity_errors() {
    let mut conn = Conn::new(3);
    let mut storage = OAMap::new();

    let r = deserialize_response(body(&send_cmd(&mut conn, &mut storage, "del")));
    assert!(matches!(r.res_type, ResType::ERR));
    assert_eq!(r.res_code, 2);
    assert_eq!(r.message.unwrap(), "Insufficient arguments");

    let r = deserialize_response(body(&send_cmd(&mut conn, &mut storage, "keys a")));
    assert!(matches!(r.res_type, ResType::ERR));
    assert_eq!(r.res_code, 3);
    assert_eq!(r.message.unwrap(), "Too many arguments");
}

#[test]
fn keys_on_empty_dictionary_is_nil() {
    let mut conn = Conn::new(3);
    let mut storage = OAMap::new();
    let r = deserialize_response(body(&send_cmd(&mut conn, &mut storage, "keys")));
    assert!(matches!(r.res_type, ResType::NIL));
}

#[test]
fn keys_lists_every_present_key() {
    let mut conn = Conn::new(3);
    let mut storage = OAMap::new();
    send_cmd(&mut conn, &mut storage, "set alpha 1");
    send_cmd(&mut conn, &mut storage, "set beta 2");
    let frame = send_cmd(&mut conn, &mut storage, "keys");
    let b = body(&frame);
    assert_eq!(deserialize_u32(&b[0..4]), 3); // ARR tag
    let count = deserialize_u32(&b[4..8]) as usize;
    assert_eq!(count, 2);
    let mut names = Vec::new();
    let mut off = 8;
    for _ in 0..count {
        assert_eq!(deserialize_u32(&b[off..off + 4]), 2); // STR tag
        let len = deserialize_u32(&b[off + 4..off + 8]) as usize;
        names.push(String::from_utf8(b[off + 8..off + 8 + len].to_vec()).unwrap());
        off += 8 + len;
    }
    assert_eq!(off, b.len());
    names.sort();
    assert_eq!(names, vec!["alpha".to_string(), "beta".to_string()]);
}

#[test]
fn pipelined_frames_answered_in_order() {
    let mut conn = Conn::new(9);
    let mut storage = OAMap::new();
    let mut both = encode_request(b"set k v");
    both.extend_from_slice(&encode_request(b"get k"));
    conn.absorb(&both);

    assert!(try_one_request(&mut conn, &mut storage));
    let reply1 = conn.wbuf[conn.wbuf_sent..conn.wbuf_size].to_vec();
    let n = conn.wbuf_size - conn.wbuf_sent;
    conn.advance_write(n);

    assert!(try_one_request(&mut conn, &mut storage));
    let reply2 = conn.wbuf[conn.wbuf_sent..conn.wbuf_size].to_vec();

    let r1 = deserialize_response(body(&reply1));
    assert!(matches!(r1.res_type, ResType::NIL));
    let r2 = deserialize_response(body(&reply2));
    assert!(matches!(r2.res_type, ResType::STR));
    assert_eq!(r2.message.unwrap(), "v");
}

#[test]
fn oversize_request_closes_connection_and_spares_the_dictionary() {
    let mut conn = Conn::new(5);
    let mut storage = OAMap::new();
    send_cmd(&mut conn, &mut storage, "set safe 1");

    let mut other = Conn::new(6);
    let oversize = 5000u32.to_le_bytes();
    other.absorb(&oversize);
    assert!(!try_one_request(&mut other, &mut storage));
    assert!(other.is_closed());

    // A second connection still sees the dictionary untouched.
    let r = deserialize_response(body(&send_cmd(&mut conn, &mut storage, "get safe")));
    assert!(matches!(r.res_type, ResType::STR));
    assert_eq!(r.message.unwrap(), "1");
}

#[test]
fn invalid_utf8_payload_closes_connection() {
    let mut conn = Conn::new(5);
    let mut storage = OAMap::new();
    let frame = encode_request(&[0xff, 0xfe, 0xfd]);
    conn.absorb(&frame);
    assert!(!try_one_request(&mut conn, &mut storage));
    assert!(conn.is_closed());
}

#[test]
fn partial_frame_waits_for_more_bytes() {
    let mut conn = Conn::new(5);
    let mut storage = OAMap::new();
    let frame = encode_request(b"get my_key");
    conn.absorb(&frame[0..6]);
    assert!(!try_one_request(&mut conn, &mut storage));
    assert!(conn.wants_read());
    conn.absorb(&frame[6..]);
    assert!(try_one_request(&mut conn, &mut storage));
    let r = deserialize_response(body(&conn.wbuf[conn.wbuf_sent..conn.wbuf_size].to_vec()));
    assert!(matches!(r.res_type, ResType::NIL));
}

#[test]
fn unknown_verb_reply_comes_from_the_engine() {
    let mut storage = OAMap::new();
    match do_request(b"sadfasdf", &mut storage) {
        Some(Reply::Error { code, message }) => {
            assert_eq!(code, 1);
            assert_eq!(message, "Unknown command");
        }
        other => panic!("unexpected reply {:?}", other.is_some()),
    }
}

#[test]
fn extra_arguments_are_ignored_by_get() {
    let mut storage = OAMap::new();
    do_request(b"set a b", &mut storage);
    match do_request(b"get a trailing junk", &mut storage) {
        Some(Reply::Str { value }) => assert_eq!(value, "b"),
        _ => panic!("expected a string reply"),
    }
}
