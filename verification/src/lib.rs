//! ZAP wire protocol: message builder, zero-copy reader and framing.
//!
//! A message is one flat buffer. It opens with a sixteen byte header (magic,
//! version, flags, offset of the root object, total size); objects follow, each
//! starting on an eight byte boundary. An object has a fixed part, in which
//! fields sit at known byte offsets, and payloads placed after it. A byte or
//! text field is a pair of 32 bit words: the signed distance from the field to
//! its payload, and the payload's length. All integers are little-endian.
//!
//! [`layout`] says what the bytes mean; the contracts of the executable
//! functions are stated over it, and the laws that reading gives back what was
//! written are proved there and in [`handshake`], [`cloud`] and [`frame`].

pub mod builder;
pub mod cloud;
pub mod endian;
pub mod frame;
pub mod handshake;
pub mod layout;
pub mod message;
pub mod protocol;
pub mod text;

pub use crate::builder::{Builder, ObjectBuilder};
pub use crate::cloud::{
    build_cloud_request, build_cloud_response, parse_cloud_request, parse_cloud_response,
    CLOUD_REQ_AUTH, CLOUD_REQ_BODY, CLOUD_REQ_FIXED_SIZE, CLOUD_REQ_METHOD, CLOUD_RESP_BODY,
    CLOUD_RESP_ERROR, CLOUD_RESP_FIXED_SIZE, CLOUD_RESP_STATUS,
};
pub use crate::frame::{frame_body_len, frame_prefix, FrameTooLarge};
pub use crate::handshake::{
    build_handshake, handshake_id, parse_handshake, HANDSHAKE_ID_LEN_OFFSET, HANDSHAKE_ID_MAX,
    HANDSHAKE_OBJ_SIZE,
};
pub use crate::message::{Message, Object};
pub use crate::protocol::{
    ALIGNMENT, HEADER_SIZE, MAX_MESSAGE_SIZE, MSG_TYPE_CLOUD, REQ_FLAG_REQ, REQ_FLAG_RESP, VERSION,
    ZAP_MAGIC,
};
