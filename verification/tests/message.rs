use hanzo_zap::{Builder, Message, ALIGNMENT, HEADER_SIZE, ZAP_MAGIC};

fn root_only(size: usize, fill: impl FnOnce(&mut hanzo_zap::ObjectBuilder<'_>)) -> Message {
    let mut b = Builder::new(0);
    let mut obj = b.start_object(size);
    fill(&mut obj);
    obj.finish_as_root();
    Message::parse(b.finish()).unwrap()
}

#[test]
fn short_buffer_is_refused() {
    assert_eq!(Message::parse(vec![]).err(), Some("buffer too small for ZAP header"));
    assert_eq!(
        Message::parse(ZAP_MAGIC.to_vec()).err(),
        Some("buffer too small for ZAP header")
    );
    assert_eq!(
        Message::parse(vec![0; HEADER_SIZE - 1]).err(),
        Some("buffer too small for ZAP header")
    );
}

#[test]
fn wrong_magic_is_refused() {
    for i in 0..4 {
        let mut bytes = Builder::new(0).finish();
        bytes[i] ^= 1;
        assert_eq!(Message::parse(bytes).err(), Some("invalid ZAP magic bytes"));
    }
}

#[test]
fn wrong_version_is_refused() {
    let mut bytes = Builder::new(0).finish();
    bytes[5] = 1;
    assert_eq!(Message::parse(bytes).err(), Some("unsupported ZAP version"));
    let mut bytes = Builder::new(0).finish();
    bytes[4] = 2;
    assert_eq!(Message::parse(bytes).err(), Some("unsupported ZAP version"));
}

#[test]
fn empty_message_is_a_header() {
    let bytes = Builder::new(0).finish();
    assert_eq!(bytes, [b'Z', b'A', b'P', 0, 1, 0, 0, 0, 0, 0, 0, 0, 16, 0, 0, 0]);
    let msg = Message::parse(bytes.clone()).unwrap();
    assert_eq!(msg.bytes(), bytes.as_slice());
}

#[test]
fn flags_and_type() {
    let msg = Message::parse(Builder::new(0).finish_with_flags(0x1234)).unwrap();
    assert_eq!(msg.flags(), 0x1234);
    assert_eq!(msg.msg_type(), 0x12);
}

#[test]
fn scalars_read_back() {
    let msg = root_only(16, |obj| {
        obj.set_uint32(0, 0xdead_beef);
        obj.set_uint8(9, 7);
        obj.set_uint32(12, 1);
    });
    let root = msg.root();
    assert_eq!(root.uint32(0), 0xdead_beef);
    assert_eq!(root.uint8(9), 7);
    assert_eq!(root.uint8(8), 0);
    assert_eq!(root.uint32(12), 1);
    assert_eq!(root.uint32(4), 0);
}

#[test]
fn later_store_wins() {
    let msg = root_only(8, |obj| {
        obj.set_uint32(0, 1);
        obj.set_uint32(0, 2);
    });
    assert_eq!(msg.root().uint32(0), 2);
    let msg = root_only(8, |obj| {
        obj.set_bytes(0, b"first");
        obj.set_text(0, "second");
    });
    assert_eq!(msg.root().text(0), "second");
}

#[test]
fn object_grows_past_its_declared_size() {
    let msg = root_only(4, |obj| obj.set_uint32(20, 5));
    assert_eq!(msg.bytes().len(), HEADER_SIZE + 24);
    assert_eq!(msg.root().uint32(20), 5);
}

#[test]
fn buffer_grows_past_its_capacity() {
    let data = vec![3u8; 5000];
    let msg = root_only(600, |obj| {
        obj.set_bytes(592, &data);
        obj.set_text(0, "tail");
    });
    assert_eq!(msg.root().bytes_field(592), data.as_slice());
    assert_eq!(msg.root().text(0), "tail");
    assert_eq!(msg.bytes().len(), 16 + 600 + 5004);
}

#[test]
fn objects_are_aligned_and_the_last_one_finished_is_root() {
    let mut b = Builder::new(0);
    let mut first = b.start_object(3);
    first.set_uint8(0, 1);
    first.finish_as_root();
    let mut second = b.start_object(8);
    second.set_text(0, "x");
    second.finish_as_root();
    let bytes = b.finish();
    assert_eq!(bytes[8], 24);
    assert_eq!(24 % ALIGNMENT, 0);
    assert_eq!(&bytes[16..24], &[1, 0, 0, 0, 0, 0, 0, 0]);
    let msg = Message::parse(bytes).unwrap();
    assert_eq!(msg.root().text(0), "x");
}

#[test]
fn null_field_reads_as_empty() {
    let msg = root_only(8, |obj| obj.set_bytes(0, &[]));
    assert_eq!(msg.root().bytes_field(0), b"");
    assert_eq!(msg.root().text(0), "");
    assert_eq!(msg.bytes().len(), 24);
}

#[test]
fn negative_distance_reads_backwards() {
    let msg = root_only(16, |obj| {
        obj.set_uint32(0, 0x6463_6261);
        obj.set_uint32(8, 0u32.wrapping_sub(8));
        obj.set_uint32(12, 4);
    });
    assert_eq!(msg.root().text(8), "abcd");
}

#[test]
fn payload_out_of_the_message_reads_as_empty() {
    // Before the message, past its end, and reaching past its end.
    for (distance, size) in [(0u32.wrapping_sub(17), 1), (100, 0), (8, 1), (4, u32::MAX)] {
        let msg = root_only(8, |obj| {
            obj.set_uint32(0, distance);
            obj.set_uint32(4, size);
        });
        assert_eq!(msg.root().bytes_field(0), b"");
    }
    let msg = root_only(8, |obj| {
        obj.set_uint32(0, 0u32.wrapping_sub(16));
        obj.set_uint32(4, 3);
    });
    assert_eq!(msg.root().bytes_field(0), b"ZAP");
}

#[test]
fn fields_past_the_end_read_as_nothing() {
    let msg = root_only(6, |_| {});
    let root = msg.root();
    assert_eq!(root.uint8(6), 0);
    assert_eq!(root.uint32(3), 0);
    assert_eq!(root.uint32(1 << 40), 0);
    assert_eq!(root.bytes_field(0), b"");
    assert_eq!(root.text(100), "");
}

#[test]
fn unfinished_object_leaves_its_fixed_part() {
    let mut b = Builder::new(0);
    let mut obj = b.start_object(16);
    obj.set_uint32(4, 9);
    obj.set_bytes(8, b"lost");
    let bytes = b.finish();
    assert_eq!(bytes.len(), 32);
    assert_eq!(&bytes[8..12], &[0, 0, 0, 0]);
    assert_eq!(&bytes[16..], &[0, 0, 0, 0, 9, 0, 0, 0, 0, 0, 0, 0, 4, 0, 0, 0]);
}

#[test]
fn capacity_does_not_show_in_the_message() {
    for capacity in [0, 1, 255, 256, 257, 10_000] {
        let mut b = Builder::new(capacity);
        let mut obj = b.start_object(300);
        obj.set_text(0, "same");
        obj.set_uint32(296, 4);
        obj.finish_as_root();
        let bytes = b.finish();
        assert_eq!(bytes.len(), 16 + 300 + 4);
        assert!(bytes[24..312].iter().all(|&x| x == 0));
        let msg = Message::parse(bytes).unwrap();
        assert_eq!(msg.flags(), 0);
        assert_eq!(msg.root().text(0), "same");
        assert_eq!(msg.root().uint32(296), 4);
    }
}

#[test]
fn finishing_an_object_with_nothing_stored_adds_only_its_fixed_part() {
    let mut b = Builder::new(0);
    b.start_object(8).finish_as_root();
    b.start_object(0).finish_as_root();
    let bytes = b.finish();
    assert_eq!(bytes.len(), 24);
    assert_eq!(bytes[8], 24);
}
