//! Reading messages: a [`Message`] owns the bytes, and an [`Object`] reads the
//! fields of one object in place.

use crate::endian;
use crate::layout;
use crate::protocol;
use crate::protocol::{HEADER_SIZE, VERSION, ZAP_MAGIC};
use vstd::prelude::*;
use vstd::slice::slice_subrange;
use vstd::utf8::*;

verus! {

/// A message whose header has been checked; it owns its bytes.
pub struct Message {
    data: Vec<u8>,
}

impl View for Message {
    type V = Seq<u8>;

    closed spec fn view(&self) -> Seq<u8> {
        self.data@
    }
}

impl Message {
    /// Only bytes with a sound header become a message.
    #[verifier::type_invariant]
    spec fn header_checked(self) -> bool {
        protocol::is_message(self.data@)
    }

    /// Checks the header of `data` and takes it as a message.
    pub fn parse(data: Vec<u8>) -> (res: Result<Self, &'static str>)
        ensures
            match res {
                Ok(msg) => protocol::is_message(data@) && msg@ == data@,
                Err(why) => !protocol::is_message(data@) && why@ == parse_error(data@),
            },
            res is Ok <==> {
                &&& data@.len() >= 16
                &&& data@[0] == 0x5a
                &&& data@[1] == 0x41
                &&& data@[2] == 0x50
                &&& data@[3] == 0
                &&& data@[4] == 1
                &&& data@[5] == 0
            },
            res matches Err(why) ==> why@ == if data@.len() < 16 {
                "buffer too small for ZAP header"@
            } else if data@[0] != 0x5a || data@[1] != 0x41 || data@[2] != 0x50 || data@[3] != 0 {
                "invalid ZAP magic bytes"@
            } else {
                "unsupported ZAP version"@
            },
    {
        proof {
            protocol::law_accepted_bytes(data@);
        }
        if data.len() < HEADER_SIZE {
            return Err("buffer too small for ZAP header");
        }
        if data[0] != ZAP_MAGIC[0] || data[1] != ZAP_MAGIC[1] || data[2] != ZAP_MAGIC[2] || data[3]
            != ZAP_MAGIC[3] {
            assert(data@.take(4)[0] == data@[0]);
            assert(data@.take(4)[1] == data@[1]);
            assert(data@.take(4)[2] == data@[2]);
            assert(data@.take(4)[3] == data@[3]);
            return Err("invalid ZAP magic bytes");
        }
        assert(data@.take(4) =~= ZAP_MAGIC@);
        let version: u16 = endian::read_u16(&data, 4);
        if version != VERSION {
            return Err("unsupported ZAP version");
        }
        Ok(Self { data })
    }

    /// The message's bytes.
    pub fn bytes(&self) -> (res: &[u8])
        ensures
            res@ == self@,
            protocol::is_message(res@),
    {
        proof {
            use_type_invariant(self);
        }
        &self.data
    }

    /// The flags in the header.
    pub fn flags(&self) -> (res: u16)
        ensures
            res == protocol::flags_of(self@),
            res == self@[6] + 256 * self@[7],
    {
        proof {
            use_type_invariant(self);
        }
        endian::read_u16(&self.data, 6)
    }

    /// The message type: the upper byte of the flags.
    pub fn msg_type(&self) -> (res: u16)
        ensures
            res == protocol::type_of(self@),
            res == self@[7],
    {
        let flags: u16 = self.flags();
        assert(flags >> 8 == flags / 0x100) by (bit_vector);
        flags >> 8
    }

    /// The object at the offset that the header gives.
    pub fn root(&self) -> (res: Object<'_>)
        ensures
            res.data() == self@,
            res.offset() == protocol::root_of(self@),
            res.offset() == self@[8] + 256 * self@[9] + 65536 * self@[10] + 16777216 * self@[11],
    {
        proof {
            use_type_invariant(self);
        }
        let offset: u32 = endian::read_u32(&self.data, 8);
        Object { data: &self.data, offset: offset as usize }
    }
}

/// Why `data` is not a message.
pub open spec fn parse_error(data: Seq<u8>) -> Seq<char> {
    if data.len() < HEADER_SIZE {
        "buffer too small for ZAP header"@
    } else if !protocol::has_magic(data) {
        "invalid ZAP magic bytes"@
    } else {
        "unsupported ZAP version"@
    }
}

/// Reads the fields of an object in place.
pub struct Object<'a> {
    data: &'a [u8],
    offset: usize,
}

impl<'a> Object<'a> {
    /// The message that the object lies in.
    pub closed spec fn data(self) -> Seq<u8> {
        self.data@
    }

    /// Where in the message the object starts.
    pub closed spec fn offset(self) -> int {
        self.offset as int
    }

    /// Where the field at `field_offset` starts; nothing where that is past
    /// every position of the message.
    fn position(&self, field_offset: usize) -> (res: Option<usize>)
        ensures
            match res {
                Some(pos) => pos == self.offset() + field_offset,
                None => self.offset() + field_offset > usize::MAX,
            },
    {
        self.offset.checked_add(field_offset)
    }

    /// The byte in the field at `field_offset`; zero past the message's end.
    pub fn uint8(&self, field_offset: usize) -> (res: u8)
        ensures
            res == layout::byte_at(self.data(), self.offset() + field_offset),
            self.offset() + field_offset < self.data().len() ==> res == self.data()[self.offset()
                + field_offset],
            self.offset() + field_offset >= self.data().len() ==> res == 0,
    {
        let len: usize = self.data.len();
        match self.position(field_offset) {
            Some(pos) if pos < len => self.data[pos],
            _ => 0,
        }
    }

    /// The 32 bit word in the field at `field_offset`; zero where the field
    /// reaches past the message's end.
    pub fn uint32(&self, field_offset: usize) -> (res: u32)
        ensures
            res == layout::word_at(self.data(), self.offset() + field_offset),
    {
        let len: usize = self.data.len();
        match self.position(field_offset) {
            Some(pos) if pos <= len && len - pos >= 4 => endian::read_u32(self.data, pos),
            _ => 0,
        }
    }

    /// The payload of the byte field at `field_offset`; empty where the field is
    /// null, or the field or its payload reaches out of the message.
    pub fn bytes_field(&self, field_offset: usize) -> (res: &'a [u8])
        ensures
            res@ == layout::bytes_at(self.data(), self.offset() + field_offset),
    {
        let len: usize = self.data.len();
        let empty: &'a [u8] = &[];
        let pos: usize = match self.position(field_offset) {
            Some(pos) => pos,
            None => {
                return empty;
            },
        };
        if pos > len || len - pos < 8 {
            return empty;
        }
        let rel_offset: i32 = endian::to_signed32(endian::read_u32(self.data, pos));
        if rel_offset == 0 {
            return empty;
        }
        let length: u32 = endian::read_u32(self.data, pos + 4);
        let abs_pos: i128 = pos as i128 + rel_offset as i128;
        let end: i128 = abs_pos + length as i128;
        if abs_pos < 0 || end > len as i128 {
            return empty;
        }
        slice_subrange(self.data, abs_pos as usize, end as usize)
    }

    /// The text in the field at `field_offset`; empty where there is no payload
    /// or it is not UTF-8.
    pub fn text(&self, field_offset: usize) -> (res: &'a str)
        ensures
            res@ == layout::text_at(self.data(), self.offset() + field_offset),
    {
        let b: &'a [u8] = self.bytes_field(field_offset);
        match std::str::from_utf8(b) {
            Ok(s) => s,
            Err(_) => {
                proof {
                    reveal_strlit("");
                }
                ""
            },
        }
    }
}

/// Bytes that are no message are told from each other by their length and their
/// first four bytes.
pub proof fn law_refusals(data: Seq<u8>)
    ensures
        data.len() < 16 ==> parse_error(data) == "buffer too small for ZAP header"@,
        data.len() >= 16 && (data[0] != 0x5a || data[1] != 0x41 || data[2] != 0x50 || data[3] != 0)
            ==> parse_error(data) == "invalid ZAP magic bytes"@,
        data.len() >= 16 && data[0] == 0x5a && data[1] == 0x41 && data[2] == 0x50 && data[3] == 0
            ==> parse_error(data) == "unsupported ZAP version"@,
{
    protocol::law_accepted_bytes(data);
}

} // verus!
