use hanzo_zap::{frame_body_len, frame_prefix, FrameTooLarge, MAX_MESSAGE_SIZE};

#[test]
fn prefix_is_the_length() {
    assert_eq!(frame_prefix(&[]), [0, 0, 0, 0]);
    assert_eq!(frame_prefix(&[9; 3]), [3, 0, 0, 0]);
    assert_eq!(frame_prefix(&vec![0; 0x0102_03]), [3, 2, 1, 0]);
}

#[test]
fn framed_length_reads_back() {
    for len in [0usize, 1, 255, 256, 70_000] {
        assert_eq!(frame_body_len(frame_prefix(&vec![0; len])), Ok(len));
    }
}

#[test]
fn limit_is_the_last_length_accepted() {
    assert_eq!(MAX_MESSAGE_SIZE, 10 * 1024 * 1024);
    assert_eq!(frame_body_len([0, 0, 0xa0, 0]), Ok(MAX_MESSAGE_SIZE));
    assert_eq!(
        frame_body_len([1, 0, 0xa0, 0]),
        Err(FrameTooLarge { length: MAX_MESSAGE_SIZE + 1 })
    );
}

#[test]
fn refusal_tells_the_length() {
    let refused = frame_body_len([0xff; 4]).unwrap_err();
    assert_eq!(refused.message(), "ZAP message too large: 4294967295 bytes");
    assert_eq!(
        FrameTooLarge { length: 0 }.message(),
        "ZAP message too large: 0 bytes"
    );
    assert_eq!(
        FrameTooLarge { length: 10_485_761 }.message(),
        "ZAP message too large: 10485761 bytes"
    );
}
