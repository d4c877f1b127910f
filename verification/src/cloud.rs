//! Cloud calls: a request names a method, carries credentials and a body; a
//! response carries a status, a body and an error text.

use crate::builder::Builder;
use crate::endian;
use crate::layout;
use crate::message::Message;
use crate::protocol;
use crate::protocol::{HEADER_SIZE, MSG_TYPE_CLOUD};
use vstd::prelude::*;
use vstd::slice::slice_to_vec;
use vstd::utf8::*;

verus! {

/// Request: the method, a text.
pub const CLOUD_REQ_METHOD: usize = 0;

/// Request: the credentials, a text.
pub const CLOUD_REQ_AUTH: usize = 8;

/// Request: the body, bytes.
pub const CLOUD_REQ_BODY: usize = 16;

/// Bytes taken by a request's fixed part.
pub const CLOUD_REQ_FIXED_SIZE: usize = 24;

/// Response: the status, a 32 bit word.
pub const CLOUD_RESP_STATUS: usize = 0;

/// Response: the body, bytes.
pub const CLOUD_RESP_BODY: usize = 4;

/// Response: the error, a text.
pub const CLOUD_RESP_ERROR: usize = 12;

/// Bytes taken by a response's fixed part.
pub const CLOUD_RESP_FIXED_SIZE: usize = 20;

/// A byte field whose payload lies `distance` bytes further on; null where the
/// payload is empty.
pub open spec fn field_ref(distance: int, payload: Seq<u8>) -> Seq<u8> {
    if payload.len() == 0 {
        endian::zeros(8)
    } else {
        endian::le32(distance) + endian::le32(payload.len() as int)
    }
}

/// The header of a cloud message of `size` bytes, whose root object follows it.
pub open spec fn cloud_header(size: int) -> Seq<u8> {
    protocol::header(MSG_TYPE_CLOUD * 0x100, HEADER_SIZE as int, size)
}

/// A request: header, the three fields, then their payloads in the same order.
pub open spec fn request_message(method: Seq<u8>, auth: Seq<u8>, body: Seq<u8>) -> Seq<u8> {
    let fixed = CLOUD_REQ_FIXED_SIZE as int;
    cloud_header(HEADER_SIZE + fixed + method.len() + auth.len() + body.len())
        + field_ref(fixed - CLOUD_REQ_METHOD, method)
        + field_ref(fixed + method.len() - CLOUD_REQ_AUTH, auth)
        + field_ref(fixed + method.len() + auth.len() - CLOUD_REQ_BODY, body)
        + method + auth + body
}

/// A response: header, the status, the two byte fields, then their payloads.
pub open spec fn response_message(status: int, body: Seq<u8>, error: Seq<u8>) -> Seq<u8> {
    let fixed = CLOUD_RESP_FIXED_SIZE as int;
    cloud_header(HEADER_SIZE + fixed + body.len() + error.len())
        + endian::le32(status)
        + field_ref(fixed - CLOUD_RESP_BODY, body)
        + field_ref(fixed + body.len() - CLOUD_RESP_ERROR, error)
        + body + error
}

/// The request fits a vector with 128 bytes to spare, and the distances to its
/// payloads can be computed as signed 32 bit numbers. Any request under 2 GB
/// is such.
pub open spec fn request_fits(method: Seq<u8>, auth: Seq<u8>, body: Seq<u8>) -> bool {
    let payloads = (HEADER_SIZE + CLOUD_REQ_FIXED_SIZE) as int;
    &&& method.len() + auth.len() + body.len() + 128 <= isize::MAX
    &&& auth.len() > 0 ==> layout::distance_fits(
        payloads + method.len(),
        (HEADER_SIZE + CLOUD_REQ_AUTH) as int,
    )
    &&& body.len() > 0 ==> layout::distance_fits(
        payloads + method.len() + auth.len(),
        (HEADER_SIZE + CLOUD_REQ_BODY) as int,
    )
}

/// The response fits a vector with 128 bytes to spare, and the distance to its
/// error text can be computed as a signed 32 bit number. Any response under
/// 2 GB is such.
pub open spec fn response_fits(body: Seq<u8>, error: Seq<u8>) -> bool {
    &&& body.len() + error.len() + 128 <= isize::MAX
    &&& error.len() > 0 ==> layout::distance_fits(
        HEADER_SIZE + CLOUD_RESP_FIXED_SIZE + body.len(),
        (HEADER_SIZE + CLOUD_RESP_ERROR) as int,
    )
}

/// A byte field whose payload is not placed yet.
spec fn open_ref(payload: Seq<u8>) -> Seq<u8> {
    endian::zeros(4) + endian::le32(payload.len() as int)
}

/// `bytes` with a payload placed for the field at `at`, unless it is empty.
spec fn with_payload(bytes: Seq<u8>, at: int, payload: Seq<u8>) -> Seq<u8> {
    if payload.len() == 0 {
        bytes
    } else {
        layout::attached(bytes, at, payload)
    }
}

/// Completing the header of a message whose root object follows it.
proof fn lemma_sealed(rest: Seq<u8>)
    ensures
        layout::sealed(
            layout::flagged(protocol::blank_header() + rest, MSG_TYPE_CLOUD * 0x100),
            HEADER_SIZE as int,
        ) == cloud_header(HEADER_SIZE + rest.len()) + rest,
{
    assert(layout::sealed(
        layout::flagged(protocol::blank_header() + rest, MSG_TYPE_CLOUD * 0x100),
        HEADER_SIZE as int,
    ) =~= cloud_header(HEADER_SIZE + rest.len()) + rest);
}

/// Placing a payload fills in its field, which stands between `front` and
/// `back`, and adds it to the end.
proof fn lemma_with_payload(front: Seq<u8>, back: Seq<u8>, payload: Seq<u8>)
    ensures
        with_payload(front + open_ref(payload) + back, front.len() as int, payload) == front
            + field_ref(8int + back.len(), payload) + back + payload,
{
    let before = front + open_ref(payload) + back;
    let after = front + field_ref(8int + back.len(), payload) + back + payload;
    if payload.len() == 0 {
        assert(open_ref(payload) =~= endian::zeros(8));
        assert(before =~= after);
    } else {
        assert(layout::attached(before, front.len() as int, payload) =~= after);
    }
}

/// Filling in a request's fields one by one gives the whole request.
proof fn lemma_request_layout(m: Seq<u8>, a: Seq<u8>, c: Seq<u8>)
    ensures
        ({
            let fixed = protocol::blank_header() + open_ref(m) + open_ref(a) + open_ref(c);
            let all = with_payload(with_payload(with_payload(fixed, 16, m), 24, a), 32, c);
            layout::sealed(layout::flagged(all, MSG_TYPE_CLOUD * 0x100), HEADER_SIZE as int)
                == request_message(m, a, c)
        }),
{
    let h = protocol::blank_header();
    let (om, oa, oc) = (open_ref(m), open_ref(a), open_ref(c));
    let rm = field_ref(24, m);
    let ra = field_ref(16int + m.len(), a);
    let rc = field_ref(8int + m.len() + a.len(), c);
    lemma_regroup(h, om, oa, oc, rm, ra, rc, m, a, c);
    lemma_with_payload(h, oa + oc, m);
    lemma_with_payload(h + rm, oc + m, a);
    lemma_with_payload(h + rm + ra, m + a, c);
    let rest = rm + ra + rc + m + a + c;
    lemma_sealed(rest);
    lemma_add_flat(cloud_header(HEADER_SIZE + rest.len()), rm, ra, rc, m, a, c);
}

/// The bracketings that a request goes through while its payloads are placed.
proof fn lemma_regroup(
    h: Seq<u8>,
    om: Seq<u8>,
    oa: Seq<u8>,
    oc: Seq<u8>,
    rm: Seq<u8>,
    ra: Seq<u8>,
    rc: Seq<u8>,
    m: Seq<u8>,
    a: Seq<u8>,
    c: Seq<u8>,
)
    ensures
        h + om + oa + oc == h + om + (oa + oc),
        h + rm + (oa + oc) + m == h + rm + oa + (oc + m),
        h + rm + ra + (oc + m) + a == h + rm + ra + oc + (m + a),
        h + rm + ra + rc + (m + a) + c == h + (rm + ra + rc + m + a + c),
{
    lemma_add_assoc(h + om, oa, oc);
    lemma_add_assoc(h + rm, oa, oc);
    lemma_add_assoc(h + rm + oa, oc, m);
    lemma_add_assoc(h + rm + ra, oc, m);
    lemma_add_assoc(h + rm + ra + oc, m, a);
    lemma_add_assoc(h + rm + ra + rc, m, a);
    lemma_add_flat(h, rm, ra, rc, m, a, c);
}

/// Where concatenations are bracketed does not matter.
proof fn lemma_add_assoc(x: Seq<u8>, y: Seq<u8>, z: Seq<u8>)
    ensures
        x + y + z == x + (y + z),
{
    assert(x + y + z =~= x + (y + z));
}

/// The same for a header and six parts.
proof fn lemma_add_flat(
    h: Seq<u8>,
    p1: Seq<u8>,
    p2: Seq<u8>,
    p3: Seq<u8>,
    p4: Seq<u8>,
    p5: Seq<u8>,
    p6: Seq<u8>,
)
    ensures
        h + (p1 + p2 + p3 + p4 + p5 + p6) == h + p1 + p2 + p3 + p4 + p5 + p6,
{
    lemma_add_assoc(h, p1 + p2 + p3 + p4 + p5, p6);
    lemma_add_assoc(h, p1 + p2 + p3 + p4, p5);
    lemma_add_assoc(h, p1 + p2 + p3, p4);
    lemma_add_assoc(h, p1 + p2, p3);
    lemma_add_assoc(h, p1, p2);
}

/// Builds a request.
pub fn build_cloud_request(method: &str, auth: &str, body: &[u8]) -> (res: Vec<u8>)
    requires
        request_fits(encode_utf8(method@), encode_utf8(auth@), body@),
    ensures
        res@ == request_message(encode_utf8(method@), encode_utf8(auth@), body@),
{
    let ghost (m, a, c) = (encode_utf8(method@), encode_utf8(auth@), body@);
    let mut b = Builder::new(
        body.len() + method.as_bytes().len() + auth.as_bytes().len() + 128,
    );
    let mut obj = b.start_object(CLOUD_REQ_FIXED_SIZE);
    let ghost h = protocol::blank_header();
    assert(obj.bytes() =~= h);
    let ghost q0 = obj.payloads();
    obj.set_text(CLOUD_REQ_METHOD, method);
    assert(obj.bytes() =~= h + open_ref(m));
    let ghost q1 = obj.payloads();
    obj.set_text(CLOUD_REQ_AUTH, auth);
    assert(obj.bytes() =~= h + open_ref(m) + open_ref(a));
    let ghost q2 = obj.payloads();
    obj.set_bytes(CLOUD_REQ_BODY, body);
    assert(obj.bytes() =~= h + open_ref(m) + open_ref(a) + open_ref(c));
    let ghost fixed = obj.fixed_part();
    proof {
        layout::lemma_placed_queued(fixed, 16, q0, 0, m);
        layout::lemma_placed_queued(fixed, 16, q1, 8, a);
        layout::lemma_placed_queued(fixed, 16, q2, 16, c);
        assert(layout::placeable(fixed.len() as int, 16, q0));
        assert(layout::placeable(fixed.len() as int, 16, q1));
        assert(layout::placeable(fixed.len() as int, 16, q2));
    }
    obj.finish_as_root();
    let flags: u16 = MSG_TYPE_CLOUD << 8;
    assert(flags == MSG_TYPE_CLOUD * 0x100) by (bit_vector)
        requires
            flags == MSG_TYPE_CLOUD << 8,
    ;
    proof {
        lemma_request_layout(m, a, c);
    }
    b.finish_with_flags(flags)
}

/// Filling in a response's byte fields one by one gives the whole response.
proof fn lemma_response_layout(status: int, c: Seq<u8>, e: Seq<u8>)
    ensures
        ({
            let fixed = protocol::blank_header() + endian::le32(status) + open_ref(c) + open_ref(
                e,
            );
            let all = with_payload(with_payload(fixed, 20, c), 28, e);
            layout::sealed(layout::flagged(all, MSG_TYPE_CLOUD * 0x100), HEADER_SIZE as int)
                == response_message(status, c, e)
        }),
{
    let h = protocol::blank_header();
    let st = endian::le32(status);
    let (oc, oe) = (open_ref(c), open_ref(e));
    let rc = field_ref(16, c);
    let re = field_ref(8int + c.len(), e);
    let none = Seq::<u8>::empty();
    lemma_with_payload(h + st, oe, c);
    lemma_with_payload(h + st + rc, c, e);
    let rest = st + rc + re + c + e;
    lemma_add_flat(h, st, rc, re, c, e, none);
    lemma_sealed(rest);
    lemma_add_flat(cloud_header(HEADER_SIZE + rest.len()), st, rc, re, c, e, none);
    assert(rest + none =~= rest);
    assert(h + st + rc + re + c + e + none =~= h + st + rc + re + c + e);
    assert(response_message(status, c, e) + none =~= response_message(status, c, e));
}

/// Builds a response.
pub fn build_cloud_response(status: u32, body: &[u8], error: &str) -> (res: Vec<u8>)
    requires
        response_fits(body@, encode_utf8(error@)),
    ensures
        res@ == response_message(status as int, body@, encode_utf8(error@)),
{
    let ghost (c, e) = (body@, encode_utf8(error@));
    let mut b = Builder::new(body.len() + error.as_bytes().len() + 128);
    let mut obj = b.start_object(CLOUD_RESP_FIXED_SIZE);
    let ghost h = protocol::blank_header();
    let ghost st = endian::le32(status as int);
    assert(obj.bytes() =~= h);
    let ghost q0 = obj.payloads();
    obj.set_uint32(CLOUD_RESP_STATUS, status);
    assert(obj.bytes() =~= h + st);
    obj.set_bytes(CLOUD_RESP_BODY, body);
    assert(obj.bytes() =~= h + st + open_ref(c));
    let ghost q1 = obj.payloads();
    obj.set_text(CLOUD_RESP_ERROR, error);
    assert(obj.bytes() =~= h + st + open_ref(c) + open_ref(e));
    let ghost fixed = obj.fixed_part();
    proof {
        layout::lemma_placed_queued(fixed, 16, q0, 4, c);
        layout::lemma_placed_queued(fixed, 16, q1, 12, e);
        assert(layout::placeable(fixed.len() as int, 16, q0));
        assert(layout::placeable(fixed.len() as int, 16, q1));
    }
    obj.finish_as_root();
    let flags: u16 = MSG_TYPE_CLOUD << 8;
    assert(flags == MSG_TYPE_CLOUD * 0x100) by (bit_vector)
        requires
            flags == MSG_TYPE_CLOUD << 8,
    ;
    proof {
        lemma_response_layout(status as int, c, e);
    }
    b.finish_with_flags(flags)
}

/// The method, the credentials and the body of a request. A field that the
/// message does not hold, or a text that is not UTF-8, comes out empty.
pub fn parse_cloud_request(msg: &Message) -> (res: (&str, &str, &[u8]))
    ensures
        res.0@ == layout::text_at(msg@, protocol::root_of(msg@) + CLOUD_REQ_METHOD),
        res.1@ == layout::text_at(msg@, protocol::root_of(msg@) + CLOUD_REQ_AUTH),
        res.2@ == layout::bytes_at(msg@, protocol::root_of(msg@) + CLOUD_REQ_BODY),
{
    let root = msg.root();
    let method = root.text(CLOUD_REQ_METHOD);
    let auth = root.text(CLOUD_REQ_AUTH);
    let body = root.bytes_field(CLOUD_REQ_BODY);
    (method, auth, body)
}

/// The status, the body and the error text of a response. A status that the
/// message does not hold is zero; a field that it does not hold, or an error
/// that is not UTF-8, comes out empty.
pub fn parse_cloud_response(msg: &Message) -> (res: (u32, Vec<u8>, String))
    ensures
        res.0 == layout::word_at(msg@, protocol::root_of(msg@) + CLOUD_RESP_STATUS),
        res.1@ == layout::bytes_at(msg@, protocol::root_of(msg@) + CLOUD_RESP_BODY),
        res.2@ == layout::text_at(msg@, protocol::root_of(msg@) + CLOUD_RESP_ERROR),
{
    let root = msg.root();
    let status: u32 = root.uint32(CLOUD_RESP_STATUS);
    let body = slice_to_vec(root.bytes_field(CLOUD_RESP_BODY));
    let error = root.text(CLOUD_RESP_ERROR).to_string();
    (status, body, error)
}

/// A field reads back the payload that it refers to, where the payload follows
/// the field at the distance that the field gives.
proof fn lemma_field_reads_back(front: Seq<u8>, mid: Seq<u8>, payload: Seq<u8>, rest: Seq<u8>)
    requires
        payload.len() <= u32::MAX,
        payload.len() > 0 ==> 8 + mid.len() <= i32::MAX,
    ensures
        layout::bytes_at(
            front + field_ref(8int + mid.len(), payload) + mid + payload + rest,
            front.len() as int,
        ) == payload,
{
    let at = front.len() as int;
    let distance = if payload.len() == 0 {
        0
    } else {
        8int + mid.len()
    };
    let size = payload.len() as int;
    let field = field_ref(8int + mid.len(), payload);
    let data = front + field + mid + payload + rest;
    law_field_ref(8int + mid.len(), payload);
    lemma_add_assoc(front + field, mid, payload);
    lemma_add_assoc(front + field, mid + payload, rest);
    lemma_part(front, field, mid + payload + rest);
    lemma_part(front + field + mid, payload, rest);
    let part = data.subrange(at, at + 8);
    assert(part == field);
    assert(data.subrange(at, at + 4) =~= part.take(4));
    assert(data.subrange(at + 4, at + 8) =~= part.skip(4));
    if size == 0 {
        endian::law_stored_is_little_endian(0);
        assert(part.take(4) =~= endian::le32(0));
        assert(part.skip(4) =~= endian::le32(0));
    }
    layout::law_payload_reading(data, at, distance, size);
    assert(layout::bytes_at(data, at) =~= payload);
}

/// The bytes of a text give the text.
proof fn lemma_text_reads_back(text: Seq<char>)
    ensures
        layout::text_of(encode_utf8(text)) == text,
{
    encode_utf8_valid_utf8(text);
    encode_utf8_decode_utf8(text);
}

/// The header of a cloud message.
proof fn lemma_cloud_header(size: int, rest: Seq<u8>)
    ensures
        cloud_header(size).len() == HEADER_SIZE,
        protocol::is_message(cloud_header(size) + rest),
        protocol::type_of(cloud_header(size) + rest) == MSG_TYPE_CLOUD,
        protocol::root_of(cloud_header(size) + rest) == HEADER_SIZE,
{
    protocol::law_header_fields(MSG_TYPE_CLOUD * 0x100, HEADER_SIZE as int, size, rest);
}

/// The header of a request.
proof fn lemma_request_header(m: Seq<u8>, a: Seq<u8>, c: Seq<u8>)
    ensures
        protocol::is_message(request_message(m, a, c)),
        protocol::type_of(request_message(m, a, c)) == MSG_TYPE_CLOUD,
        protocol::root_of(request_message(m, a, c)) == HEADER_SIZE,
{
    let size = HEADER_SIZE + CLOUD_REQ_FIXED_SIZE + m.len() + a.len() + c.len();
    let rm = field_ref(24, m);
    let ra = field_ref(16int + m.len(), a);
    let rc = field_ref(8int + m.len() + a.len(), c);
    lemma_cloud_header(size, rm + ra + rc + m + a + c);
    lemma_add_flat(cloud_header(size), rm, ra, rc, m, a, c);
}

/// The fields of a request.
proof fn lemma_request_fields(m: Seq<u8>, a: Seq<u8>, c: Seq<u8>)
    requires
        m.len() <= u32::MAX,
        a.len() <= u32::MAX,
        c.len() <= u32::MAX,
        a.len() > 0 ==> 16 + m.len() <= i32::MAX,
        c.len() > 0 ==> 8 + m.len() + a.len() <= i32::MAX,
    ensures
        layout::bytes_at(request_message(m, a, c), 16) == m,
        layout::bytes_at(request_message(m, a, c), 24) == a,
        layout::bytes_at(request_message(m, a, c), 32) == c,
{
    let size = HEADER_SIZE + CLOUD_REQ_FIXED_SIZE + m.len() + a.len() + c.len();
    let h = cloud_header(size);
    let rm = field_ref(24, m);
    let ra = field_ref(16int + m.len(), a);
    let rc = field_ref(8int + m.len() + a.len(), c);
    let none = Seq::<u8>::empty();
    lemma_cloud_header(size, none);
    lemma_ungroup(h, rm, ra, rc, m, a, c);
    lemma_field_reads_back(h, ra + rc, m, a + c);
    lemma_field_reads_back(h + rm, rc + m, a, c);
    lemma_field_reads_back(h + rm + ra, m + a, c, none);
}

/// The bracketings in which each field of a request stands out.
proof fn lemma_ungroup(
    h: Seq<u8>,
    rm: Seq<u8>,
    ra: Seq<u8>,
    rc: Seq<u8>,
    m: Seq<u8>,
    a: Seq<u8>,
    c: Seq<u8>,
)
    ensures
        h + rm + (ra + rc) + m + (a + c) == h + rm + ra + rc + m + a + c,
        h + rm + ra + (rc + m) + a + c == h + rm + ra + rc + m + a + c,
        h + rm + ra + rc + (m + a) + c + Seq::<u8>::empty() == h + rm + ra + rc + m + a + c,
{
    lemma_add_assoc(h + rm, ra, rc);
    lemma_add_assoc(h + rm + ra + rc + m, a, c);
    lemma_add_assoc(h + rm + ra, rc, m);
    lemma_add_assoc(h + rm + ra + rc, m, a);
    let whole = h + rm + ra + rc + m + a + c;
    assert(whole + Seq::<u8>::empty() =~= whole);
}

/// The header of a response.
proof fn lemma_response_header(status: int, c: Seq<u8>, e: Seq<u8>)
    ensures
        protocol::is_message(response_message(status, c, e)),
        protocol::type_of(response_message(status, c, e)) == MSG_TYPE_CLOUD,
        protocol::root_of(response_message(status, c, e)) == HEADER_SIZE,
{
    let size = HEADER_SIZE + CLOUD_RESP_FIXED_SIZE + c.len() + e.len();
    let st = endian::le32(status);
    let rc = field_ref(16, c);
    let re = field_ref(8int + c.len(), e);
    let none = Seq::<u8>::empty();
    lemma_cloud_header(size, st + rc + re + c + e + none);
    lemma_add_flat(cloud_header(size), st, rc, re, c, e, none);
    let whole = response_message(status, c, e);
    assert(whole + none =~= whole);
}

/// The fields of a response.
proof fn lemma_response_fields(status: u32, c: Seq<u8>, e: Seq<u8>)
    requires
        c.len() <= u32::MAX,
        e.len() <= u32::MAX,
        e.len() > 0 ==> 8 + c.len() <= i32::MAX,
    ensures
        layout::word_at(response_message(status as int, c, e), 16) == status,
        layout::bytes_at(response_message(status as int, c, e), 20) == c,
        layout::bytes_at(response_message(status as int, c, e), 28) == e,
{
    let size = HEADER_SIZE + CLOUD_RESP_FIXED_SIZE + c.len() + e.len();
    let h = cloud_header(size);
    let st = endian::le32(status as int);
    let rc = field_ref(16, c);
    let re = field_ref(8int + c.len(), e);
    let none = Seq::<u8>::empty();
    let msg = response_message(status as int, c, e);
    lemma_cloud_header(size, none);
    assert forall|i: int| 0 <= i < 4 implies msg[16 + i] == #[trigger] st[i] by {}
    layout::lemma_word_is(msg, 16, status as int);
    lemma_field_reads_back(h + st, re, c, e);
    lemma_field_reads_back(h + st + rc, c, e, none);
    assert(msg + none =~= msg);
}

/// A reader gets back the request that was built: it is accepted as a cloud
/// message, and has the method, the credentials and the body that went in. A
/// field can tell lengths up to 32 bits, and reaches payloads up to 2 GB away.
pub proof fn law_request_reads_back(method: Seq<char>, auth: Seq<char>, body: Seq<u8>)
    requires
        encode_utf8(method).len() <= u32::MAX,
        encode_utf8(auth).len() <= u32::MAX,
        body.len() <= u32::MAX,
        encode_utf8(auth).len() > 0 ==> 16 + encode_utf8(method).len() <= i32::MAX,
        body.len() > 0 ==> 8 + encode_utf8(method).len() + encode_utf8(auth).len() <= i32::MAX,
    ensures
        ({
            let msg = request_message(encode_utf8(method), encode_utf8(auth), body);
            let root = protocol::root_of(msg);
            &&& protocol::is_message(msg)
            &&& protocol::type_of(msg) == MSG_TYPE_CLOUD
            &&& layout::text_at(msg, root + CLOUD_REQ_METHOD) == method
            &&& layout::text_at(msg, root + CLOUD_REQ_AUTH) == auth
            &&& layout::bytes_at(msg, root + CLOUD_REQ_BODY) == body
        }),
{
    let (m, a) = (encode_utf8(method), encode_utf8(auth));
    lemma_request_header(m, a, body);
    lemma_request_fields(m, a, body);
    lemma_text_reads_back(method);
    lemma_text_reads_back(auth);
}

/// A reader gets back the response that was built: it is accepted as a cloud
/// message, and has the status, the body and the error that went in. A field can
/// tell lengths up to 32 bits, and reaches payloads up to 2 GB away.
pub proof fn law_response_reads_back(status: u32, body: Seq<u8>, error: Seq<char>)
    requires
        body.len() <= u32::MAX,
        encode_utf8(error).len() <= u32::MAX,
        encode_utf8(error).len() > 0 ==> 8 + body.len() <= i32::MAX,
    ensures
        ({
            let msg = response_message(status as int, body, encode_utf8(error));
            let root = protocol::root_of(msg);
            &&& protocol::is_message(msg)
            &&& protocol::type_of(msg) == MSG_TYPE_CLOUD
            &&& layout::word_at(msg, root + CLOUD_RESP_STATUS) == status
            &&& layout::bytes_at(msg, root + CLOUD_RESP_BODY) == body
            &&& layout::text_at(msg, root + CLOUD_RESP_ERROR) == error
        }),
{
    let e = encode_utf8(error);
    lemma_response_header(status as int, body, e);
    lemma_response_fields(status, body, e);
    lemma_text_reads_back(error);
}

/// Where a cloud message's fields stand, and how long its fixed part is.
pub proof fn law_cloud_numbers()
    ensures
        MSG_TYPE_CLOUD == 100,
        CLOUD_REQ_METHOD == 0,
        CLOUD_REQ_AUTH == 8,
        CLOUD_REQ_BODY == 16,
        CLOUD_REQ_FIXED_SIZE == 24,
        CLOUD_RESP_STATUS == 0,
        CLOUD_RESP_BODY == 4,
        CLOUD_RESP_ERROR == 12,
        CLOUD_RESP_FIXED_SIZE == 20,
{
}

/// A byte field has eight bytes: the distance to its payload and the payload's
/// length, or zeros where there is no payload.
pub proof fn law_field_ref(distance: int, payload: Seq<u8>)
    ensures
        field_ref(distance, payload).len() == 8,
        payload.len() == 0 ==> field_ref(distance, payload) == seq![0u8, 0, 0, 0, 0, 0, 0, 0],
        payload.len() > 0 ==> field_ref(distance, payload).take(4) == endian::le32(distance),
        payload.len() > 0 ==> field_ref(distance, payload).skip(4) == endian::le32(
            payload.len() as int,
        ),
{
    let field = field_ref(distance, payload);
    if payload.len() == 0 {
        assert(field =~= seq![0u8, 0, 0, 0, 0, 0, 0, 0]);
    } else {
        assert(field.take(4) =~= endian::le32(distance));
        assert(field.skip(4) =~= endian::le32(payload.len() as int));
    }
}

/// A part of a sequence stands behind what comes before it.
proof fn lemma_part(front: Seq<u8>, part: Seq<u8>, back: Seq<u8>)
    ensures
        (front + part + back).subrange(front.len() as int, (front + part).len() as int) == part,
{
    let all = front + part + back;
    assert(all.subrange(front.len() as int, (front + part).len() as int) =~= part);
}

/// The header of a cloud message, byte by byte.
proof fn lemma_cloud_header_bytes(size: int, rest: Seq<u8>)
    ensures
        ({
            let msg = cloud_header(size) + rest;
            &&& cloud_header(size).len() == 16
            &&& msg.take(8) == seq![0x5au8, 0x41, 0x50, 0x00, 1, 0, 0, 100]
            &&& msg.subrange(8, 12) == endian::le32(16)
            &&& msg.subrange(12, 16) == endian::le32(size)
        }),
{
    let h = cloud_header(size);
    let msg = h + rest;
    protocol::law_header_bytes(25600, 16, size);
    let front = h.take(6);
    assert(h[0] == front[0] && h[1] == front[1] && h[2] == front[2]);
    assert(h[3] == front[3] && h[4] == front[4] && h[5] == front[5]);
    assert(msg.take(8) =~= seq![0x5au8, 0x41, 0x50, 0x00, 1, 0, 0, 100]);
    assert(msg.subrange(8, 12) =~= h.subrange(8, 12));
    assert(msg.subrange(12, 16) =~= h.subrange(12, 16));
}

/// A request part by part: the header, three byte fields at 16, 24 and 32, and
/// from 40 on the method, the credentials and the body.
pub proof fn law_request_parts(m: Seq<u8>, a: Seq<u8>, c: Seq<u8>)
    ensures
        ({
            let msg = request_message(m, a, c);
            let at_a = 40int + m.len();
            let at_c = 40int + m.len() + a.len();
            &&& msg.len() == at_c + c.len()
            &&& msg.take(8) == seq![0x5au8, 0x41, 0x50, 0x00, 1, 0, 0, 100]
            &&& msg.subrange(8, 12) == endian::le32(16)
            &&& msg.subrange(12, 16) == endian::le32(msg.len() as int)
            &&& msg.subrange(16, 24) == field_ref(24, m)
            &&& msg.subrange(24, 32) == field_ref(at_a - 24, a)
            &&& msg.subrange(32, 40) == field_ref(at_c - 32, c)
            &&& msg.subrange(40, at_a) == m
            &&& msg.subrange(at_a, at_c) == a
            &&& msg.skip(at_c) == c
        }),
{
    let size = 40int + m.len() + a.len() + c.len();
    let h = cloud_header(size);
    let rm = field_ref(24, m);
    let ra = field_ref(16int + m.len(), a);
    let rc = field_ref(8int + m.len() + a.len(), c);
    let msg = request_message(m, a, c);
    law_field_ref(24, m);
    law_field_ref(16int + m.len(), a);
    law_field_ref(8int + m.len() + a.len(), c);
    assert(msg == h + rm + ra + rc + m + a + c);
    lemma_add_flat(h, rm, ra, rc, m, a, c);
    lemma_cloud_header_bytes(size, rm + ra + rc + m + a + c);
    lemma_ungroup(h, rm, ra, rc, m, a, c);
    lemma_add_assoc(h + rm + (ra + rc), m, a + c);
    lemma_add_assoc(h + rm, ra + rc, m + (a + c));
    lemma_part(h, rm, ra + rc + (m + (a + c)));
    lemma_add_assoc(h + rm + ra, rc + m, a);
    lemma_add_assoc(h + rm + ra, rc + m + a, c);
    lemma_part(h + rm, ra, rc + m + a + c);
    lemma_add_assoc(h + rm + ra + rc, m + a, c);
    lemma_part(h + rm + ra, rc, m + a + c);
    lemma_add_assoc(h + rm + ra + rc + m, a, c);
    lemma_part(h + rm + ra + rc, m, a + c);
    lemma_part(h + rm + ra + rc + m, a, c);
    assert(msg.skip(40int + m.len() + a.len()) =~= c);
}

/// A response part by part: the header, the status at 16, two byte fields at 20
/// and 28, and from 36 on the body and the error.
pub proof fn law_response_parts(status: int, c: Seq<u8>, e: Seq<u8>)
    ensures
        ({
            let msg = response_message(status, c, e);
            let at_e = 36int + c.len();
            &&& msg.len() == at_e + e.len()
            &&& msg.take(8) == seq![0x5au8, 0x41, 0x50, 0x00, 1, 0, 0, 100]
            &&& msg.subrange(8, 12) == endian::le32(16)
            &&& msg.subrange(12, 16) == endian::le32(msg.len() as int)
            &&& msg.subrange(16, 20) == endian::le32(status)
            &&& msg.subrange(20, 28) == field_ref(16, c)
            &&& msg.subrange(28, 36) == field_ref(at_e - 28, e)
            &&& msg.subrange(36, at_e) == c
            &&& msg.skip(at_e) == e
        }),
{
    let size = 36int + c.len() + e.len();
    let h = cloud_header(size);
    let st = endian::le32(status);
    let rc = field_ref(16, c);
    let re = field_ref(8int + c.len(), e);
    let none = Seq::<u8>::empty();
    let msg = response_message(status, c, e);
    law_field_ref(16, c);
    law_field_ref(8int + c.len(), e);
    assert(msg == h + st + rc + re + c + e);
    lemma_add_flat(h, st, rc, re, c, e, none);
    assert(msg + none =~= msg);
    lemma_cloud_header_bytes(size, st + rc + re + c + e + none);
    lemma_add_assoc(h + st + rc + re, c, e);
    lemma_add_assoc(h + st + rc, re, c + e);
    lemma_add_assoc(h + st, rc, re + (c + e));
    lemma_part(h, st, rc + (re + (c + e)));
    lemma_part(h + st, rc, re + (c + e));
    lemma_part(h + st + rc, re, c + e);
    lemma_part(h + st + rc + re, c, e);
    assert(msg.skip(36int + c.len()) =~= e);
}

/// Which requests can be built: all that leave 128 bytes of a vector, but for
/// those whose credentials or body would start where the distance to them
/// cannot be computed in 32 bits. No request under 2 GB is such.
pub proof fn law_request_fits(m: Seq<u8>, a: Seq<u8>, c: Seq<u8>)
    ensures
        request_fits(m, a, c) <==> {
            &&& m.len() + a.len() + c.len() + 128 <= isize::MAX
            &&& a.len() > 0 ==> !(2147483648 <= (40 + m.len()) % 4294967296 < 2147483648 + 24)
            &&& c.len() > 0 ==> !(2147483648 <= (40 + m.len() + a.len()) % 4294967296 < 2147483648
                + 32)
        },
        m.len() + a.len() + c.len() + 128 < 2147483648 ==> request_fits(m, a, c),
{
    layout::law_distance_fits(40int + m.len(), 24);
    layout::law_distance_fits(40int + m.len() + a.len(), 32);
}

/// Which responses can be built: all that leave 128 bytes of a vector, but for
/// those whose error would start where the distance to it cannot be computed in
/// 32 bits. No response under 2 GB is such.
pub proof fn law_response_fits(c: Seq<u8>, e: Seq<u8>)
    ensures
        response_fits(c, e) <==> {
            &&& c.len() + e.len() + 128 <= isize::MAX
            &&& e.len() > 0 ==> !(2147483648 <= (36 + c.len()) % 4294967296 < 2147483648 + 28)
        },
        c.len() + e.len() + 128 < 2147483648 ==> response_fits(c, e),
{
    layout::law_distance_fits(36int + c.len(), 28);
}

} // verus!
