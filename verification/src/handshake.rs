//! The handshake: a message in which a node gives its name.
//!
//! The root object has 64 bytes: up to 60 bytes of name, and at offset 60 the
//! name's length as a 32 bit word.

use crate::builder::Builder;
use crate::endian;
use crate::layout;
use crate::message::Message;
use crate::protocol;
use crate::protocol::HEADER_SIZE;
use crate::text;
use vstd::prelude::*;
use vstd::utf8::*;

verus! {

/// Bytes taken by the handshake object.
pub const HANDSHAKE_OBJ_SIZE: usize = 64;

/// The longest name that fits, in bytes.
pub const HANDSHAKE_ID_MAX: usize = 60;

/// Where the name's length stands.
pub const HANDSHAKE_ID_LEN_OFFSET: usize = 60;

/// As much of a name as fits.
pub open spec fn clipped(id: Seq<u8>) -> Seq<u8> {
    if id.len() > HANDSHAKE_ID_MAX {
        id.take(HANDSHAKE_ID_MAX as int)
    } else {
        id
    }
}

/// The handshake that gives the name `id`.
pub open spec fn handshake_message(id: Seq<u8>) -> Seq<u8> {
    protocol::header(0, HEADER_SIZE as int, HEADER_SIZE + HANDSHAKE_OBJ_SIZE)
        + endian::zero_extended(clipped(id), HANDSHAKE_ID_MAX as int) + endian::le32(
        clipped(id).len() as int,
    )
}

/// How many bytes of name the handshake object at `root` claims, at most 60.
pub open spec fn claimed_len(data: Seq<u8>, root: int) -> int {
    let claimed = layout::word_at(data, root + HANDSHAKE_ID_LEN_OFFSET);
    if claimed > HANDSHAKE_ID_MAX {
        HANDSHAKE_ID_MAX as int
    } else {
        claimed
    }
}

/// The name in the handshake object at `root`, with a zero for each byte that
/// lies past the message's end.
pub open spec fn id_at(data: Seq<u8>, root: int) -> Seq<u8> {
    Seq::new(claimed_len(data, root) as nat, |i: int| layout::byte_at(data, root + i) as u8)
}

/// The text of a name: what it encodes where it is UTF-8, and a best effort
/// where it is not.
pub open spec fn id_text(id: Seq<u8>) -> Seq<char> {
    if valid_utf8(id) {
        decode_utf8(id)
    } else {
        text::lossy_utf8(id)
    }
}

/// Builds the handshake that gives the name `node_id`. Of a name longer than 60
/// bytes the first 60 are sent.
pub fn build_handshake(node_id: &str) -> (res: Vec<u8>)
    ensures
        res@ == handshake_message(encode_utf8(node_id@)),
        res@.len() == 80,
        encode_utf8(node_id@).len() <= 60 ==> res@.subrange(16, 16int + encode_utf8(node_id@).len())
            == encode_utf8(node_id@),
        encode_utf8(node_id@).len() > 60 ==> res@.subrange(16, 76) == encode_utf8(node_id@).take(
            60,
        ),
{
    let mut b = Builder::new(128);
    let mut obj = b.start_object(HANDSHAKE_OBJ_SIZE);
    let id_bytes: &[u8] = node_id.as_bytes();
    let sent: usize = if id_bytes.len() > HANDSHAKE_ID_MAX {
        HANDSHAKE_ID_MAX
    } else {
        id_bytes.len()
    };
    let ghost slot = obj.target();
    assert(obj.bytes() =~= protocol::blank_header() + id_bytes@.take(0));
    let mut i: usize = 0;
    while i < sent
        invariant
            i <= sent,
            sent <= id_bytes@.len(),
            sent <= HANDSHAKE_ID_MAX,
            obj.wf(),
            obj.start() == HEADER_SIZE,
            obj.data_size() == HANDSHAKE_OBJ_SIZE,
            obj.payloads().len() == 0,
            obj.bytes() == protocol::blank_header() + id_bytes@.take(i as int),
            *final(obj.target()) == *final(slot),
        decreases sent - i,
    {
        obj.set_uint8(i, id_bytes[i]);
        i += 1;
        assert(obj.bytes() =~= protocol::blank_header() + id_bytes@.take(i as int));
    }
    obj.set_uint32(HANDSHAKE_ID_LEN_OFFSET, sent as u32);
    obj.finish_as_root();
    let res = b.finish();
    assert(id_bytes@.take(sent as int) =~= clipped(id_bytes@));
    assert(res@ =~= handshake_message(id_bytes@));
    proof {
        law_handshake_bytes(id_bytes@);
        assert(id_bytes@.take(id_bytes@.len() as int) =~= id_bytes@);
    }
    res
}

/// The bytes of the name in a handshake.
pub fn handshake_id(msg: &Message) -> (res: Vec<u8>)
    ensures
        res@ == id_at(msg@, protocol::root_of(msg@)),
        res@.len() <= HANDSHAKE_ID_MAX,
        res@.len() <= 60,
        forall|i: int|
            0 <= i < res@.len() ==> #[trigger] res@[i] == msg@[protocol::root_of(msg@) + i],
{
    let root = msg.root();
    let claimed: u32 = root.uint32(HANDSHAKE_ID_LEN_OFFSET);
    let id_len: usize = if claimed as usize > HANDSHAKE_ID_MAX {
        HANDSHAKE_ID_MAX
    } else {
        claimed as usize
    };
    let mut id: Vec<u8> = Vec::with_capacity(id_len);
    let ghost data = msg@;
    let ghost at = protocol::root_of(msg@);
    for i in 0..id_len
        invariant
            root.data() == data,
            root.offset() == at,
            id_len == claimed_len(data, at),
            id@.len() == i,
            forall|j: int| 0 <= j < i ==> id@[j] == layout::byte_at(data, at + j),
    {
        id.push(root.uint8(i));
    }
    assert(id@ =~= id_at(data, at));
    proof {
        law_name_reading(data, at);
    }
    id
}

/// The name in a handshake, as text.
pub fn parse_handshake(msg: &Message) -> (res: String)
    ensures
        res@ == id_text(id_at(msg@, protocol::root_of(msg@))),
        !valid_utf8(id_at(msg@, protocol::root_of(msg@))) ==> res@.contains('\u{fffd}'),
{
    text::from_utf8_lossy(&handshake_id(msg))
}

/// A handshake is accepted as a message, and the name in it is what was put in,
/// as far as it fits.
pub proof fn law_handshake_carries_name(id: Seq<u8>)
    ensures
        protocol::is_message(handshake_message(id)),
        protocol::type_of(handshake_message(id)) == 0,
        id_at(handshake_message(id), protocol::root_of(handshake_message(id))) == clipped(id),
{
    let msg = handshake_message(id);
    let sent = clipped(id);
    let len = endian::le32(sent.len() as int);
    let size = HEADER_SIZE + HANDSHAKE_OBJ_SIZE;
    let h = protocol::header(0, HEADER_SIZE as int, size);
    let name = endian::zero_extended(sent, HANDSHAKE_ID_MAX as int);
    protocol::law_header_fields(0, HEADER_SIZE as int, size, name + len);
    assert(h + (name + len) =~= msg);
    assert forall|i: int| 0 <= i < 4 implies msg[76 + i] == #[trigger] len[i] by {}
    layout::lemma_word_is(msg, 76, sent.len() as int);
    assert(id_at(msg, 16) =~= sent);
}

/// A reader gets back the name that a handshake was built with, where it has at
/// most 60 bytes.
pub proof fn law_handshake_reads_back(id: Seq<char>)
    requires
        encode_utf8(id).len() <= HANDSHAKE_ID_MAX,
    ensures
        ({
            let msg = handshake_message(encode_utf8(id));
            id_text(id_at(msg, protocol::root_of(msg))) == id
        }),
{
    law_handshake_carries_name(encode_utf8(id));
    encode_utf8_valid_utf8(id);
    encode_utf8_decode_utf8(id);
}

/// Of a name that was cut between two characters, a reader gets back the
/// characters that were sent: the name's beginning.
pub proof fn law_handshake_cuts_between_characters(id: Seq<char>)
    requires
        valid_utf8(clipped(encode_utf8(id))),
    ensures
        ({
            let msg = handshake_message(encode_utf8(id));
            let read = id_text(id_at(msg, protocol::root_of(msg)));
            &&& encode_utf8(read) == clipped(encode_utf8(id))
            &&& read.len() <= id.len()
            &&& read == id.take(read.len() as int)
        }),
{
    let sent = clipped(encode_utf8(id));
    law_handshake_carries_name(encode_utf8(id));
    decode_utf8_encode_utf8(sent);
    assert(sent =~= encode_utf8(id).take(sent.len() as int));
    text::law_utf8_prefix(decode_utf8(sent), id);
}

/// The sizes that a handshake is made of.
pub proof fn law_handshake_numbers()
    ensures
        HANDSHAKE_OBJ_SIZE == 64,
        HANDSHAKE_ID_MAX == 60,
        HANDSHAKE_ID_LEN_OFFSET == 60,
{
}

/// A name of up to 60 bytes is sent whole, and of a longer one the first 60
/// bytes are sent.
pub proof fn law_clipped(id: Seq<u8>)
    ensures
        clipped(id).len() == if id.len() > 60 {
            60
        } else {
            id.len() as int
        },
        clipped(id) == id.take(clipped(id).len() as int),
{
    assert(clipped(id) =~= id.take(clipped(id).len() as int));
}

/// A reader gets as many bytes of the name as it has, or 60 where it has more,
/// and they are the ones that it begins with.
pub proof fn law_handshake_keeps_beginning(id: Seq<u8>)
    ensures
        ({
            let msg = handshake_message(id);
            let read = id_at(msg, protocol::root_of(msg));
            &&& id.len() <= 60 ==> read == id
            &&& id.len() > 60 ==> read.len() == 60
            &&& forall|i: int| 0 <= i < id.len() && i < 60 ==> #[trigger] read[i] == id[i]
        }),
{
    law_handshake_carries_name(id);
}

/// Names that begin with the same 60 bytes give the same handshake, and names
/// of up to 60 bytes that differ give different ones.
pub proof fn law_handshakes_tell_names_apart(a: Seq<u8>, b: Seq<u8>)
    ensures
        a.len() >= 60 && b.len() >= 60 && a.take(60) == b.take(60) ==> handshake_message(a)
            == handshake_message(b),
        a.len() <= 60 && b.len() <= 60 && a != b ==> handshake_message(a) != handshake_message(b),
{
    law_clipped(a);
    law_clipped(b);
    law_handshake_carries_name(a);
    law_handshake_carries_name(b);
}

/// A handshake byte by byte: the header of a message of 80 bytes whose root
/// object starts at 16, the name, zeros up to byte 76, and the name's length in
/// four bytes.
pub proof fn law_handshake_bytes(id: Seq<u8>)
    ensures
        ({
            let msg = handshake_message(id);
            let n = if id.len() > 60 {
                60
            } else {
                id.len() as int
            };
            &&& msg.len() == 80
            &&& msg.take(6) == seq![0x5au8, 0x41, 0x50, 0x00, 1, 0]
            &&& msg[6] == 0 && msg[7] == 0
            &&& msg.subrange(8, 12) == endian::le32(16)
            &&& msg.subrange(12, 16) == endian::le32(80)
            &&& msg.subrange(16, 16 + n) == id.take(n)
            &&& forall|i: int| 16 + n <= i < 76 ==> #[trigger] msg[i] == 0
            &&& msg[76] == n && msg[77] == 0 && msg[78] == 0 && msg[79] == 0
        }),
{
    let msg = handshake_message(id);
    let sent = clipped(id);
    let n = sent.len() as int;
    let h = protocol::header(0, 16, 80);
    let len = endian::le32(n);
    law_clipped(id);
    protocol::law_header_bytes(0, 16, 80);
    endian::law_stored_is_little_endian(n);
    assert(msg =~= h + endian::zero_extended(sent, 60) + len);
    assert(msg.take(6) =~= h.take(6));
    assert(msg[6] == h[6] && msg[7] == h[7]);
    assert(msg.subrange(8, 12) =~= h.subrange(8, 12));
    assert(msg.subrange(12, 16) =~= h.subrange(12, 16));
    assert(msg.subrange(16, 16 + n) =~= id.take(n));
    assert(msg[76] == len[0] && msg[77] == len[1] && msg[78] == len[2] && msg[79] == len[3]);
}

/// The name in the object at `root`: the object's first bytes, as many as the
/// word at its byte 60 says, but no more than 60. Of an object that is not whole
/// there is no name.
pub proof fn law_name_reading(data: Seq<u8>, root: int)
    requires
        0 <= root,
    ensures
        root + 64 > data.len() ==> id_at(data, root).len() == 0,
        root + 64 <= data.len() ==> ({
            let claimed = data[root + 60] + 256 * data[root + 61] + 65536 * data[root + 62]
                + 16777216 * data[root + 63];
            &&& claimed <= 60 ==> id_at(data, root) == data.subrange(root, root + claimed)
            &&& claimed > 60 ==> id_at(data, root) == data.subrange(root, root + 60)
        }),
{
    if root + 64 <= data.len() {
        let n = claimed_len(data, root);
        assert(id_at(data, root) =~= data.subrange(root, root + n));
    }
}

/// The text of a name that is UTF-8 has exactly the name's bytes; of another
/// name it is what the lossy conversion gives.
pub proof fn law_id_text(id: Seq<u8>)
    ensures
        valid_utf8(id) ==> encode_utf8(id_text(id)) == id,
        !valid_utf8(id) ==> id_text(id) == text::lossy_utf8(id),
{
    if valid_utf8(id) {
        decode_utf8_encode_utf8(id);
    }
}

} // verus!
