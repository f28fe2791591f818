use aster_mc::com::AsError;
use aster_mc::mc::{BackCodec, CmdArena, FrontCodec};
use aster_mc::msg::Message;
use bytes::BytesMut;

fn buf(b: &[u8]) -> BytesMut {
    BytesMut::from(b)
}

fn parse_one(bytes: &[u8]) -> Message {
    let mut b = buf(bytes);
    let mut bc = BackCodec::default();
    bc.decode(&mut b).unwrap().unwrap()
}

#[test]
fn parse_extracts_key() {
    let m = parse_one(b"get abc\r\n");
    assert_eq!(m.get_key().as_slice(), b"abc");
    let m = parse_one(b"set k v\r\n");
    assert_eq!(m.get_key().as_slice(), b"k");
    let m = parse_one(b"STORED\r\n");
    assert_eq!(m.get_key().as_slice(), b"");
}

#[test]
fn parse_consumes_only_first_unit() {
    let mut b = buf(b"STORED\r\nrest");
    let mut bc = BackCodec::default();
    let m = bc.decode(&mut b).unwrap().unwrap();
    assert_eq!(m.get_key().as_slice(), b"");
    assert_eq!(&b[..], b"rest");
}

#[test]
fn parse_incomplete_returns_none_and_keeps_bytes() {
    let mut b = buf(b"get a");
    let mut bc = BackCodec::default();
    assert!(bc.decode(&mut b).unwrap().is_none());
    assert_eq!(&b[..], b"get a");
}

#[test]
fn back_decode_rejects_empty_line() {
    let mut b = buf(b"\r\nget a\r\n");
    let mut bc = BackCodec::default();
    let r = bc.decode(&mut b);
    assert!(matches!(r, Err(AsError::BadMessage)));
    // the empty line's terminator is consumed, the connection goes on
    assert_eq!(&b[..], b"get a\r\n");
}

#[test]
fn version_request_has_no_key() {
    let m = Message::version_request();
    assert_eq!(m.get_key().as_slice(), b"");
}

#[test]
fn front_decode_leaf() {
    let mut arena = CmdArena::new();
    let mut fc = FrontCodec::default();
    let mut b = buf(b"get a\r\n");
    let c = fc.decode(&mut arena, &mut b).unwrap().unwrap();
    assert!(arena.subs(c).is_none());
    assert_eq!(arena.expectation(c), 1);
    assert!(!arena.is_done(c));
    assert!(!arena.is_error(c));
    assert_eq!(&b[..], b"");
}

#[test]
fn front_decode_split_three_keys() {
    let mut arena = CmdArena::new();
    let mut fc = FrontCodec::default();
    let mut b = buf(b"get k1 k2 k3\r\n");
    let c = fc.decode(&mut arena, &mut b).unwrap().unwrap();
    let subs = arena.subs(c).unwrap();
    assert_eq!(subs.len(), 3);
    assert_eq!(arena.expectation(c), 4);
    // each sub routes on its own key and serializes its own single-key unit
    let mut dst = BytesMut::new();
    let mut bc = BackCodec::default();
    bc.encode(&arena, subs[0], &mut dst).unwrap();
    assert_eq!(&dst[..], b"get k1\r\n");
    let empty_tag: Vec<u8> = Vec::new();
    assert_eq!(arena.route_key(subs[2], &empty_tag).as_slice(), b"k3");
}

#[test]
fn front_decode_single_key_get_stays_flat() {
    let mut arena = CmdArena::new();
    let mut fc = FrontCodec::default();
    let mut b = buf(b"get a\r\n");
    let c = fc.decode(&mut arena, &mut b).unwrap().unwrap();
    assert!(arena.subs(c).is_none());
}

#[test]
fn front_decode_malformed_synthesizes_failed_handle() {
    let mut arena = CmdArena::new();
    let mut fc = FrontCodec::default();
    let mut b = buf(b"\r\n");
    let c = fc.decode(&mut arena, &mut b).unwrap().unwrap();
    assert!(arena.is_done(c));
    assert!(arena.is_error(c));
    assert!(arena.subs(c).is_none());
    let mut dst = BytesMut::new();
    fc.encode(&arena, c, &mut dst).unwrap();
    assert_eq!(&dst[..], b"CLIENT_ERROR bad\r\n");
}

#[test]
fn leaf_round_trip_reproduces_reply_frame() {
    let mut arena = CmdArena::new();
    let mut fc = FrontCodec::default();
    let mut b = buf(b"get a\r\n");
    let c = fc.decode(&mut arena, &mut b).unwrap().unwrap();
    arena.set_reply(c, parse_one(b"VALUE a hello\r\n"));
    assert!(arena.is_done(c));
    let mut dst = BytesMut::new();
    fc.encode(&arena, c, &mut dst).unwrap();
    assert_eq!(&dst[..], b"VALUE a hello\r\n");
}

#[test]
fn split_encode_keeps_construction_order() {
    // a 3-key read splits into 3 subs; backend replies arrive k3, k1, k2,
    // but the final frame lists k1, k2, k3 and then the terminator
    let mut arena = CmdArena::new();
    let mut fc = FrontCodec::default();
    let mut b = buf(b"get k1 k2 k3\r\n");
    let c = fc.decode(&mut arena, &mut b).unwrap().unwrap();
    let subs = arena.subs(c).unwrap();
    assert!(!arena.is_done(c));
    arena.set_reply(subs[2], parse_one(b"VALUE k3 c\r\n"));
    assert!(!arena.is_done(c));
    arena.set_reply(subs[0], parse_one(b"VALUE k1 a\r\n"));
    assert!(!arena.is_done(c));
    arena.set_reply(subs[1], parse_one(b"VALUE k2 b\r\n"));
    assert!(arena.is_done(c));
    let mut dst = BytesMut::new();
    fc.encode(&arena, c, &mut dst).unwrap();
    assert_eq!(&dst[..], &b"VALUE k1 a\r\nVALUE k2 b\r\nVALUE k3 c\r\nEND\r\n"[..]);
}

#[test]
fn set_error_converts_to_protocol_reply() {
    let mut arena = CmdArena::new();
    let mut fc = FrontCodec::default();
    let mut b = buf(b"get a\r\n");
    let c = fc.decode(&mut arena, &mut b).unwrap().unwrap();
    arena.set_error(c, &AsError::ConnClosed);
    assert!(arena.is_done(c));
    assert!(arena.is_error(c));
    let mut dst = BytesMut::new();
    fc.encode(&arena, c, &mut dst).unwrap();
    assert_eq!(&dst[..], b"SERVER_ERROR closed\r\n");
}

#[test]
fn route_key_strips_hash_tag() {
    let mut arena = CmdArena::new();
    let mut fc = FrontCodec::default();
    let mut b = buf(b"get a{bc}d\r\n");
    let c = fc.decode(&mut arena, &mut b).unwrap().unwrap();
    let tag: Vec<u8> = vec![b'{', b'}'];
    assert_eq!(arena.route_key(c, &tag).as_slice(), b"bc");
    // a key without the full pattern is hashed whole
    let empty_tag: Vec<u8> = Vec::new();
    assert_eq!(arena.route_key(c, &empty_tag).as_slice(), b"a{bc}d");
    let mut b = buf(b"get plain\r\n");
    let c2 = fc.decode(&mut arena, &mut b).unwrap().unwrap();
    assert_eq!(arena.route_key(c2, &tag).as_slice(), b"plain");
}

#[test]
fn key_hash_hashes_the_trimmed_key() {
    let mut arena = CmdArena::new();
    let mut fc = FrontCodec::default();
    let mut b = buf(b"get a{bc}d\r\n");
    let c = fc.decode(&mut arena, &mut b).unwrap().unwrap();
    let tag: Vec<u8> = vec![b'{', b'}'];
    let h = arena.key_hash(c, &tag, |k: &Vec<u8>| {
        let mut acc: u64 = 0;
        for x in k.iter() {
            acc = acc * 31 + *x as u64;
        }
        acc
    });
    // "bc" = 98, 99
    assert_eq!(h, 98 * 31 + 99);
}
