use hanzo_zap::{
    build_cloud_request, build_cloud_response, parse_cloud_request, parse_cloud_response, Builder,
    Message, CLOUD_REQ_FIXED_SIZE, CLOUD_REQ_METHOD, CLOUD_RESP_FIXED_SIZE, MSG_TYPE_CLOUD,
};

#[test]
fn roundtrip_cloud_request() {
    let body = br#"{"model":"zen4-mini","messages":[{"role":"user","content":"hi"}]}"#;
    let msg_bytes = build_cloud_request("chat.completions", "Bearer tok", body);
    let msg = Message::parse(msg_bytes).unwrap();
    assert_eq!(msg.msg_type(), MSG_TYPE_CLOUD);
    let (method, auth, req_body) = parse_cloud_request(&msg);
    assert_eq!(method, "chat.completions");
    assert_eq!(auth, "Bearer tok");
    assert_eq!(req_body, body.as_slice());
}

#[test]
fn roundtrip_cloud_response() {
    let body = br#"{"id":"cmpl-1","choices":[{"message":{"content":"hello"}}]}"#;
    let msg_bytes = build_cloud_response(200, body, "");
    let msg = Message::parse(msg_bytes).unwrap();
    let (status, resp_body, error) = parse_cloud_response(&msg);
    assert_eq!(status, 200);
    assert_eq!(resp_body, body);
    assert!(error.is_empty());
}

#[test]
fn cloud_response_error() {
    let msg_bytes = build_cloud_response(401, &[], "auth required");
    let msg = Message::parse(msg_bytes).unwrap();
    let (status, body, error) = parse_cloud_response(&msg);
    assert_eq!(status, 401);
    assert!(body.is_empty());
    assert_eq!(error, "auth required");
}

#[test]
fn request_layout() {
    let bytes = build_cloud_request("m", "", &[7, 8]);
    let expected = vec![
        b'Z', b'A', b'P', 0, 1, 0, 0, 100, 16, 0, 0, 0, 43, 0, 0, 0, // header
        24, 0, 0, 0, 1, 0, 0, 0, // method
        0, 0, 0, 0, 0, 0, 0, 0, // auth
        9, 0, 0, 0, 2, 0, 0, 0, // body
        b'm', 7, 8,
    ];
    assert_eq!(bytes, expected);
}

#[test]
fn response_layout() {
    let bytes = build_cloud_response(0x0102_0304, &[9], "no");
    let expected = vec![
        b'Z', b'A', b'P', 0, 1, 0, 0, 100, 16, 0, 0, 0, 39, 0, 0, 0, // header
        4, 3, 2, 1, // status
        16, 0, 0, 0, 1, 0, 0, 0, // body
        9, 0, 0, 0, 2, 0, 0, 0, // error
        9, b'n', b'o',
    ];
    assert_eq!(bytes, expected);
}

#[test]
fn empty_request_reads_back() {
    let msg = Message::parse(build_cloud_request("", "", &[])).unwrap();
    assert_eq!(msg.bytes().len(), 40);
    assert_eq!(parse_cloud_request(&msg), ("", "", &[][..]));
}

#[test]
fn wide_text_reads_back() {
    let msg = Message::parse(build_cloud_request("méthode", "鍵", b"x")).unwrap();
    assert_eq!(parse_cloud_request(&msg), ("méthode", "鍵", &b"x"[..]));
    let msg = Message::parse(build_cloud_response(u32::MAX, b"", "ошибка")).unwrap();
    assert_eq!(parse_cloud_response(&msg), (u32::MAX, vec![], "ошибка".to_string()));
}

#[test]
fn large_body_reads_back() {
    let body: Vec<u8> = (0..100_000u32).map(|i| (i % 251) as u8).collect();
    let msg = Message::parse(build_cloud_request("m", "a", &body)).unwrap();
    assert_eq!(parse_cloud_request(&msg).2, body.as_slice());
}

#[test]
fn text_that_is_not_utf8_reads_as_empty() {
    let mut b = Builder::new(0);
    let mut obj = b.start_object(CLOUD_REQ_FIXED_SIZE);
    obj.set_bytes(CLOUD_REQ_METHOD, &[b'a', 0xff]);
    obj.finish_as_root();
    let msg = Message::parse(b.finish_with_flags(MSG_TYPE_CLOUD << 8)).unwrap();
    assert_eq!(parse_cloud_request(&msg).0, "");
    assert_eq!(msg.root().bytes_field(CLOUD_REQ_METHOD), &[b'a', 0xff]);
}

#[test]
fn response_without_object_reads_as_nothing() {
    let mut bytes = Builder::new(0).finish();
    bytes[8..12].copy_from_slice(&[0xff; 4]);
    let msg = Message::parse(bytes).unwrap();
    assert_eq!(parse_cloud_response(&msg), (0, vec![], String::new()));
    assert_eq!(parse_cloud_request(&msg), ("", "", &[][..]));
    assert_eq!(CLOUD_RESP_FIXED_SIZE, 20);
}
