//! The message header and the protocol's numbers.

use crate::endian;
use vstd::prelude::*;

verus! {

/// The first four bytes of every message: `ZAP` and a zero.
pub const ZAP_MAGIC: [u8; 4] = [0x5a, 0x41, 0x50, 0x00];

/// Bytes taken by the header.
pub const HEADER_SIZE: usize = 16;

/// The one version of the format.
pub const VERSION: u16 = 1;

/// Objects start at multiples of this.
pub const ALIGNMENT: usize = 8;

/// The longest message that a frame may carry: 10 MB.
pub const MAX_MESSAGE_SIZE: usize = 10 * 1024 * 1024;

/// Cloud service (native binary RPC).
pub const MSG_TYPE_CLOUD: u16 = 100;

/// Call correlation: the message is a request.
pub const REQ_FLAG_REQ: u32 = 1;

/// Call correlation: the message is a response.
pub const REQ_FLAG_RESP: u32 = 2;

/// A header: magic, version, flags, offset of the root object, total size.
pub open spec fn header(flags: int, root: int, size: int) -> Seq<u8> {
    ZAP_MAGIC@ + endian::le16(VERSION as int) + endian::le16(flags) + endian::le32(root)
        + endian::le32(size)
}

/// The header of a message under construction, whose flags, root and size are
/// not known yet.
pub open spec fn blank_header() -> Seq<u8> {
    header(0, 0, 0)
}

/// `bytes` opens with a blank header.
pub open spec fn is_blank(bytes: Seq<u8>) -> bool {
    bytes.len() >= HEADER_SIZE && bytes.take(HEADER_SIZE as int) == blank_header()
}

/// `bytes` opens with the magic.
pub open spec fn has_magic(bytes: Seq<u8>) -> bool {
    bytes.take(4) == ZAP_MAGIC@
}

/// `bytes` is long enough to hold a header, and the header opens with the magic
/// and the supported version.
pub open spec fn is_message(bytes: Seq<u8>) -> bool {
    &&& bytes.len() >= HEADER_SIZE
    &&& has_magic(bytes)
    &&& endian::u16_at(bytes, 4) == VERSION
}

/// The flags of a message.
pub open spec fn flags_of(bytes: Seq<u8>) -> int {
    endian::u16_at(bytes, 6)
}

/// The type of a message: the upper byte of its flags.
pub open spec fn type_of(bytes: Seq<u8>) -> int {
    flags_of(bytes) / 0x100
}

/// The offset of a message's root object.
pub open spec fn root_of(bytes: Seq<u8>) -> int {
    endian::u32_at(bytes, 8)
}

/// The total size that a message's header gives.
pub open spec fn size_of(bytes: Seq<u8>) -> int {
    endian::u32_at(bytes, 12)
}

/// Where each part of a header stands.
pub proof fn law_header_fields(flags: int, root: int, size: int, rest: Seq<u8>)
    ensures
        is_message(header(flags, root, size) + rest),
        flags_of(header(flags, root, size) + rest) == flags % 0x1_0000,
        root_of(header(flags, root, size) + rest) == root % 0x1_0000_0000,
        size_of(header(flags, root, size) + rest) == size % 0x1_0000_0000,
{
    let m = header(flags, root, size) + rest;
    endian::law_le16_reads_back(VERSION as int);
    endian::law_le16_reads_back(flags);
    endian::law_le32_reads_back(root);
    endian::law_le32_reads_back(size);
    assert(m.take(4) =~= ZAP_MAGIC@);
    assert(m[4] == endian::le16(VERSION as int)[0]);
    assert(m[5] == endian::le16(VERSION as int)[1]);
    assert(m[6] == endian::le16(flags)[0]);
    assert(m[7] == endian::le16(flags)[1]);
    assert forall|i: int| 0 <= i < 4 implies m[8 + i] == #[trigger] endian::le32(root)[i] by {}
    assert forall|i: int| 0 <= i < 4 implies m[12 + i] == #[trigger] endian::le32(size)[i] by {}
}

/// A blank header is already one that is accepted, with no flags, no root and
/// no size.
pub proof fn law_blank_header(bytes: Seq<u8>)
    requires
        is_blank(bytes),
    ensures
        is_message(bytes),
        flags_of(bytes) == 0,
        root_of(bytes) == 0,
        size_of(bytes) == 0,
{
    law_header_fields(0, 0, 0, bytes.skip(HEADER_SIZE as int));
    assert(blank_header() + bytes.skip(HEADER_SIZE as int) =~= bytes);
}

/// The protocol's numbers, as every peer knows them.
pub proof fn law_protocol_numbers()
    ensures
        ZAP_MAGIC@ == seq![0x5au8, 0x41, 0x50, 0x00],
        HEADER_SIZE == 16,
        VERSION == 1,
        ALIGNMENT == 8,
        MAX_MESSAGE_SIZE == 10485760,
        MSG_TYPE_CLOUD == 100,
        REQ_FLAG_REQ == 1,
        REQ_FLAG_RESP == 2,
{
    assert(ZAP_MAGIC@ =~= seq![0x5au8, 0x41, 0x50, 0x00]);
}

/// Bytes are taken as a message if and only if there are sixteen of them, the
/// first four spell `ZAP` and a zero, and the next two are the version.
pub proof fn law_accepted_bytes(bytes: Seq<u8>)
    ensures
        is_message(bytes) <==> {
            &&& bytes.len() >= 16
            &&& bytes[0] == 0x5a
            &&& bytes[1] == 0x41
            &&& bytes[2] == 0x50
            &&& bytes[3] == 0
            &&& bytes[4] == 1
            &&& bytes[5] == 0
        },
        bytes.len() >= 4 ==> (has_magic(bytes) <==> {
            &&& bytes[0] == 0x5a
            &&& bytes[1] == 0x41
            &&& bytes[2] == 0x50
            &&& bytes[3] == 0
        }),
{
    if bytes.len() >= 4 {
        let front = bytes.take(4);
        assert(front[0] == bytes[0] && front[1] == bytes[1] && front[2] == bytes[2] && front[3]
            == bytes[3]);
        if bytes[0] == 0x5a && bytes[1] == 0x41 && bytes[2] == 0x50 && bytes[3] == 0 {
            assert(front =~= ZAP_MAGIC@);
        }
    }
}

/// No byte but the first six decides whether bytes are taken as a message.
pub proof fn law_acceptance_rests_on_six_bytes(a: Seq<u8>, b: Seq<u8>)
    requires
        a.len() >= 16,
        b.len() >= 16,
        a.take(6) == b.take(6),
    ensures
        is_message(a) == is_message(b),
{
    law_accepted_bytes(a);
    law_accepted_bytes(b);
    let (x, y) = (a.take(6), b.take(6));
    assert(a[0] == x[0] && b[0] == y[0]);
    assert(a[1] == x[1] && b[1] == y[1]);
    assert(a[2] == x[2] && b[2] == y[2]);
    assert(a[3] == x[3] && b[3] == y[3]);
    assert(a[4] == x[4] && b[4] == y[4]);
    assert(a[5] == x[5] && b[5] == y[5]);
}

/// Where a message's flags, type, root and size are read: the type is byte 7,
/// and byte 6 is the lower half of the flags.
pub proof fn law_header_positions(bytes: Seq<u8>)
    ensures
        flags_of(bytes) == bytes[6] + 256 * bytes[7],
        type_of(bytes) == bytes[7],
        root_of(bytes) == bytes[8] + 256 * bytes[9] + 65536 * bytes[10] + 16777216 * bytes[11],
        size_of(bytes) == bytes[12] + 256 * bytes[13] + 65536 * bytes[14] + 16777216 * bytes[15],
{
}

/// The sixteen bytes of a header, one by one.
pub proof fn law_header_bytes(flags: int, root: int, size: int)
    ensures
        header(flags, root, size).len() == 16,
        header(flags, root, size).take(6) == seq![0x5au8, 0x41, 0x50, 0x00, 1, 0],
        header(flags, root, size)[6] == flags % 256,
        header(flags, root, size)[7] == flags / 256 % 256,
        header(flags, root, size).subrange(8, 12) == endian::le32(root),
        header(flags, root, size).subrange(12, 16) == endian::le32(size),
{
    let h = header(flags, root, size);
    assert(h.take(6) =~= seq![0x5au8, 0x41, 0x50, 0x00, 1, 0]);
    assert(h.subrange(8, 12) =~= endian::le32(root));
    assert(h.subrange(12, 16) =~= endian::le32(size));
}

/// A blank header is the magic, the version and ten zeros.
pub proof fn law_blank_bytes(bytes: Seq<u8>)
    ensures
        blank_header() == seq![0x5au8, 0x41, 0x50, 0x00, 1, 0, 0, 0, 0, 0, 0, 0, 0, 0, 0, 0],
        is_blank(bytes) <==> bytes.len() >= 16 && bytes.take(16) == seq![
            0x5au8,
            0x41,
            0x50,
            0x00,
            1,
            0,
            0,
            0,
            0,
            0,
            0,
            0,
            0,
            0,
            0,
            0,
        ],
{
    assert(blank_header() =~= seq![0x5au8, 0x41, 0x50, 0x00, 1, 0, 0, 0, 0, 0, 0, 0, 0, 0, 0, 0]);
}

} // verus!
