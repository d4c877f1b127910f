use hanzo_zap::{
    build_handshake, handshake_id, parse_handshake, Builder, Message, HANDSHAKE_ID_LEN_OFFSET,
    HANDSHAKE_ID_MAX, HANDSHAKE_OBJ_SIZE,
};

fn read(bytes: Vec<u8>) -> String {
    parse_handshake(&Message::parse(bytes).unwrap())
}

#[test]
fn roundtrip_handshake() {
    let msg_bytes = build_handshake("hanzo-node");
    let msg = Message::parse(msg_bytes).unwrap();
    assert_eq!(parse_handshake(&msg), "hanzo-node");
}

#[test]
fn handshake_has_fixed_layout() {
    let bytes = build_handshake("ab");
    let mut expected = vec![
        b'Z', b'A', b'P', 0, 1, 0, 0, 0, 16, 0, 0, 0, 80, 0, 0, 0, b'a', b'b',
    ];
    expected.resize(76, 0);
    expected.extend_from_slice(&[2, 0, 0, 0]);
    assert_eq!(bytes, expected);
    assert_eq!(Message::parse(bytes).unwrap().msg_type(), 0);
}

#[test]
fn empty_name_reads_back() {
    assert_eq!(read(build_handshake("")), "");
}

#[test]
fn name_of_sixty_bytes_reads_back() {
    let name = "n".repeat(HANDSHAKE_ID_MAX);
    assert_eq!(read(build_handshake(&name)), name);
}

#[test]
fn long_name_is_cut_at_sixty_bytes() {
    let name = "0123456789".repeat(7);
    assert_eq!(read(build_handshake(&name)), &name[..60]);
}

#[test]
fn cut_between_wide_characters_gives_a_beginning() {
    let name = "é".repeat(40);
    assert_eq!(read(build_handshake(&name)), "é".repeat(30));
}

#[test]
fn cut_inside_a_character_shows_as_replacement() {
    let name = format!("{}é", "x".repeat(59));
    let msg = Message::parse(build_handshake(&name)).unwrap();
    assert_eq!(handshake_id(&msg).len(), 60);
    assert_eq!(parse_handshake(&msg), format!("{}\u{fffd}", "x".repeat(59)));
}

#[test]
fn invalid_name_bytes_show_as_replacement() {
    let mut b = Builder::new(128);
    let mut obj = b.start_object(HANDSHAKE_OBJ_SIZE);
    obj.set_uint8(0, b'a');
    obj.set_uint8(1, 0xff);
    obj.set_uint8(2, b'b');
    obj.set_uint32(HANDSHAKE_ID_LEN_OFFSET, 3);
    obj.finish_as_root();
    assert_eq!(read(b.finish()), "a\u{fffd}b");
}

#[test]
fn claimed_length_over_sixty_is_limited() {
    let mut b = Builder::new(128);
    let mut obj = b.start_object(HANDSHAKE_OBJ_SIZE);
    obj.set_uint8(0, b'a');
    obj.set_uint32(HANDSHAKE_ID_LEN_OFFSET, 1000);
    obj.finish_as_root();
    let msg = Message::parse(b.finish()).unwrap();
    let id = handshake_id(&msg);
    assert_eq!(id.len(), 60);
    assert_eq!(id[0], b'a');
    assert!(id[1..].iter().all(|&x| x == 0));
}

#[test]
fn handshake_without_object_has_no_name() {
    let b = Builder::new(0);
    let mut bytes = b.finish();
    bytes[8] = 200;
    assert_eq!(read(bytes), "");
}
