//! Building messages: a [`Builder`] holds the buffer, and an [`ObjectBuilder`]
//! fills in one object of it.

use crate::endian;
use crate::layout;
use crate::protocol;
use crate::protocol::{ALIGNMENT, HEADER_SIZE, VERSION, ZAP_MAGIC};
use vstd::prelude::*;
use vstd::slice::slice_to_vec;
use vstd::utf8::*;

verus! {

/// A message under construction.
///
/// The buffer grows ahead of what is written: only its first `pos` bytes belong
/// to the message.
pub struct Builder {
    buf: Vec<u8>,
    pos: usize,
    root_offset: usize,
}

impl Builder {
    /// The message so far.
    pub closed spec fn bytes(self) -> Seq<u8> {
        self.buf@.take(self.pos as int)
    }

    /// The offset that the header will give for the root object.
    pub closed spec fn root(self) -> int {
        self.root_offset as int
    }

    /// The whole buffer: the message so far, and room for more of it.
    pub closed spec fn buffer(self) -> Seq<u8> {
        self.buf@
    }

    /// The buffer holds the message and is no longer than a vector may be.
    pub closed spec fn holds(self) -> bool {
        self.pos <= self.buf@.len() <= isize::MAX
    }

    /// The buffer is sound, and the message opens with a header that stays blank
    /// until the message is finished.
    pub open spec fn wf(self) -> bool {
        &&& self.holds()
        &&& self.bytes().len() <= isize::MAX
        &&& protocol::is_blank(self.bytes())
    }

    /// The message is what the buffer starts with.
    pub proof fn law_message_opens_buffer(self)
        requires
            self.holds(),
        ensures
            self.bytes().len() <= self.buffer().len() <= isize::MAX,
            self.bytes() == self.buffer().take(self.bytes().len() as int),
    {
    }

    /// Starts a message with a blank header, in a zeroed buffer of `capacity`
    /// bytes, or of 256 where that is more.
    pub fn new(capacity: usize) -> (res: Self)
        requires
            capacity <= isize::MAX,
        ensures
            res.wf(),
            res.bytes() == protocol::blank_header(),
            res.root() == 0,
            res.buffer() == endian::zero_extended(
                protocol::blank_header(),
                if capacity > 256 {
                    capacity as int
                } else {
                    256
                },
            ),
    {
        let cap: usize = if capacity > 256 {
            capacity
        } else {
            256
        };
        let mut buf = vec![0u8; cap];
        endian::copy_into(&mut buf, 0, &ZAP_MAGIC);
        endian::copy_into(&mut buf, 4, &endian::to_le16(VERSION));
        let res = Self { buf, pos: HEADER_SIZE, root_offset: 0 };
        assert(res.buffer() =~= endian::zero_extended(protocol::blank_header(), cap as int));
        assert(res.bytes() =~= protocol::blank_header());
        assert(res.bytes().take(HEADER_SIZE as int) =~= protocol::blank_header());
        res
    }

    /// Makes room for `n` more bytes, zeroed where the buffer has to grow for them.
    fn grow(&mut self, n: usize)
        requires
            old(self).holds(),
            old(self).pos + n <= isize::MAX,
        ensures
            final(self).holds(),
            final(self).pos == old(self).pos,
            final(self).root_offset == old(self).root_offset,
            final(self).pos + n <= final(self).buf@.len(),
            final(self).buf@ == endian::zero_extended(
                old(self).buf@,
                layout::grown(old(self).buf@.len() as int, old(self).pos + n),
            ),
            final(self).bytes() == old(self).bytes(),
    {
        let needed: usize = self.pos + n;
        if needed <= self.buf.len() {
            assert(self.buf@ =~= endian::zero_extended(self.buf@, self.buf@.len() as int));
            return;
        }
        let limit: usize = isize::MAX as usize;
        let doubled: usize = if self.buf.len() <= limit / 2 {
            self.buf.len() * 2
        } else {
            limit
        };
        let new_cap: usize = if doubled > needed {
            doubled
        } else {
            needed
        };
        let ghost before = self.buf@;
        self.buf.resize(new_cap, 0);
        assert(self.buf@ =~= endian::zero_extended(before, new_cap as int)) by {
            assert forall|i: int| 0 <= i < before.len() implies self.buf@[i] == before[i] by {
                assert(self.buf@.subrange(0, before.len() as int)[i] == before[i]);
            }
        }
        assert(self.bytes() =~= old(self).bytes());
    }

    /// Extends the message with zeros up to `end`.
    fn zero_fill(&mut self, end: usize)
        requires
            old(self).holds(),
            end <= isize::MAX,
        ensures
            final(self).holds(),
            final(self).root_offset == old(self).root_offset,
            final(self).pos == if end > old(self).pos {
                end
            } else {
                old(self).pos
            },
            end <= old(self).pos ==> final(self).buf@ == old(self).buf@,
            final(self).bytes() == endian::zero_extended(old(self).bytes(), end as int),
    {
        if end <= self.pos {
            assert(self.bytes() =~= endian::zero_extended(self.bytes(), end as int));
            return;
        }
        let count: usize = end - self.pos;
        self.grow(count);
        let from: usize = self.pos;
        for i in from..end
            invariant
                self.holds(),
                self.pos == from,
                from <= i <= end,
                end <= self.buf@.len(),
                self.root_offset == old(self).root_offset,
                self.bytes() == old(self).bytes(),
                forall|j: int| from <= j < i ==> self.buf@[j] == 0,
        {
            self.buf[i] = 0;
            assert(self.bytes() =~= old(self).bytes());
        }
        let ghost before = *self;
        self.pos = end;
        assert(self.bytes() =~= endian::zero_extended(old(self).bytes(), end as int)) by {
            assert forall|j: int| 0 <= j < from implies self.bytes()[j] == old(self).bytes()[j] by {
                assert(before.bytes()[j] == before.buf@[j]);
            }
        }
    }

    /// Replaces the run of the message that starts at `at` by `data`.
    fn write(&mut self, at: usize, data: &[u8])
        requires
            old(self).holds(),
            at + data@.len() <= old(self).bytes().len(),
        ensures
            final(self).holds(),
            final(self).pos == old(self).pos,
            final(self).root_offset == old(self).root_offset,
            final(self).bytes() == endian::overwrite(old(self).bytes(), at as int, data@),
    {
        endian::copy_into(&mut self.buf, at, data);
        assert(self.bytes() =~= endian::overwrite(old(self).bytes(), at as int, data@));
    }

    /// Adds `data` to the end of the message.
    fn append(&mut self, data: &[u8])
        requires
            old(self).holds(),
            old(self).pos + data@.len() <= isize::MAX,
        ensures
            final(self).holds(),
            final(self).root_offset == old(self).root_offset,
            final(self).pos == old(self).pos + data@.len(),
            final(self).bytes() == old(self).bytes() + data@,
    {
        self.grow(data.len());
        let ghost before = *self;
        let start: usize = self.pos;
        endian::copy_into(&mut self.buf, start, data);
        self.pos = start + data.len();
        assert(self.bytes() =~= before.bytes() + data@);
    }

    /// Extends the message with zeros up to the next multiple of `alignment`.
    fn align(&mut self, alignment: usize)
        requires
            old(self).holds(),
            alignment > 0,
            layout::aligned(old(self).pos as int, alignment as int) <= isize::MAX,
        ensures
            final(self).holds(),
            final(self).root_offset == old(self).root_offset,
            final(self).pos == layout::aligned(old(self).pos as int, alignment as int),
            final(self).bytes() == endian::zero_extended(
                old(self).bytes(),
                layout::aligned(old(self).pos as int, alignment as int),
            ),
    {
        let padding: usize = (alignment - (self.pos % alignment)) % alignment;
        self.zero_fill(self.pos + padding);
    }

    /// Opens an object with a fixed part of `data_size` bytes at the next
    /// aligned position. What the object's builder does ends up in this one.
    pub fn start_object(&mut self, data_size: usize) -> (res: ObjectBuilder<'_>)
        requires
            old(self).wf(),
            layout::aligned(old(self).bytes().len() as int, ALIGNMENT as int) <= isize::MAX,
        ensures
            res.wf(),
            res.start() == layout::aligned(old(self).bytes().len() as int, ALIGNMENT as int),
            res.start() % 8 == 0,
            old(self).bytes().len() <= res.start() < old(self).bytes().len() + 8,
            res.start() == res.bytes().len(),
            res.bytes().take(old(self).bytes().len() as int) == old(self).bytes(),
            forall|i: int| old(self).bytes().len() <= i < res.start() ==> res.bytes()[i] == 0,
            res.bytes() == endian::zero_extended(old(self).bytes(), res.start()),
            res.root() == old(self).root(),
            res.data_size() == data_size,
            res.payloads() == Seq::<layout::Payload>::empty(),
            *final(res.target()) == *final(self),
    {
        proof {
            assert(old(self).bytes().len() == old(self).pos);
            layout::law_aligned(old(self).bytes().len() as int, 8);
        }
        self.align(ALIGNMENT);
        let res = ObjectBuilder {
            start_pos: self.pos,
            data_size,
            deferred: Vec::new(),
            builder: self,
        };
        assert(res.payloads() =~= Seq::<layout::Payload>::empty());
        assert(res.bytes().take(old(self).bytes().len() as int) =~= old(self).bytes());
        proof {
            lemma_blank_kept(old(self).bytes(), res.bytes());
        }
        res
    }

    /// Puts the root and the size into the header and hands out the message.
    fn seal(self) -> (res: Vec<u8>)
        requires
            self.holds(),
            self.bytes().len() >= HEADER_SIZE,
        ensures
            res@ == layout::sealed(self.bytes(), self.root()),
    {
        let mut buf = self.buf;
        endian::copy_into(&mut buf, 8, &endian::to_le32(endian::low32(self.root_offset)));
        endian::copy_into(&mut buf, 12, &endian::to_le32(endian::low32(self.pos)));
        buf.truncate(self.pos);
        proof {
            endian::law_le32_keeps_low_bits(self.root_offset as int);
            endian::law_le32_keeps_low_bits(self.pos as int);
        }
        assert(buf@ =~= layout::sealed(self.bytes(), self.root()));
        buf
    }

    /// Completes the header, without flags, and hands out the message.
    pub fn finish(self) -> (res: Vec<u8>)
        requires
            self.wf(),
        ensures
            res@ == layout::sealed(self.bytes(), self.root()),
            protocol::is_message(res@),
            protocol::flags_of(res@) == 0,
            res@.len() == self.bytes().len(),
            res@.skip(16) == self.bytes().skip(16),
    {
        proof {
            protocol::law_blank_header(self.bytes());
            layout::law_sealed(self.bytes(), self.root());
        }
        self.seal()
    }

    /// Completes the header, with `flags` in it, and hands out the message.
    pub fn finish_with_flags(self, flags: u16) -> (res: Vec<u8>)
        requires
            self.wf(),
        ensures
            res@ == layout::sealed(layout::flagged(self.bytes(), flags as int), self.root()),
            protocol::is_message(res@),
            protocol::flags_of(res@) == flags,
            protocol::type_of(res@) == flags / 256,
            res@.len() == self.bytes().len(),
            res@.skip(16) == self.bytes().skip(16),
    {
        let mut this = self;
        endian::copy_into(&mut this.buf, 6, &endian::to_le16(flags));
        assert(this.bytes() =~= layout::flagged(self.bytes(), flags as int));
        proof {
            protocol::law_blank_header(self.bytes());
            layout::law_flagged(self.bytes(), flags);
            layout::law_sealed(this.bytes(), self.root());
            assert(this.bytes().skip(16) =~= self.bytes().skip(16));
        }
        this.seal()
    }
}

/// A header stays blank as long as its bytes stay.
proof fn lemma_blank_kept(before: Seq<u8>, after: Seq<u8>)
    requires
        protocol::is_blank(before),
        before.len() <= after.len(),
        forall|i: int| 0 <= i < HEADER_SIZE ==> before[i] == after[i],
    ensures
        protocol::is_blank(after),
{
    assert(after.take(HEADER_SIZE as int) =~= before.take(HEADER_SIZE as int));
}

/// A payload kept until its object is finished.
struct DeferredWrite {
    field_offset: usize,
    data: Vec<u8>,
}

/// An object under construction within a message.
pub struct ObjectBuilder<'a> {
    builder: &'a mut Builder,
    start_pos: usize,
    data_size: usize,
    deferred: Vec<DeferredWrite>,
}

impl<'a> ObjectBuilder<'a> {
    /// The message so far.
    pub closed spec fn bytes(self) -> Seq<u8> {
        self.builder.bytes()
    }

    /// The offset that the header will give for the root object.
    pub closed spec fn root(self) -> int {
        self.builder.root()
    }

    /// The whole buffer that the message is built in.
    pub closed spec fn buffer(self) -> Seq<u8> {
        self.builder.buffer()
    }

    /// Where the object starts in the message.
    pub closed spec fn start(self) -> int {
        self.start_pos as int
    }

    /// How many bytes the object's fixed part has at least.
    pub closed spec fn data_size(self) -> int {
        self.data_size as int
    }

    /// The payloads that wait to be placed.
    pub closed spec fn payloads(self) -> Seq<layout::Payload> {
        Seq::new(
            self.deferred@.len(),
            |i: int| (self.deferred@[i].field_offset as int, self.deferred@[i].data@),
        )
    }

    /// The builder that the object belongs to.
    pub closed spec fn target(self) -> &'a mut Builder {
        self.builder
    }

    /// The builder that the object belongs to keeps its buffer sound.
    pub closed spec fn holds(self) -> bool {
        self.builder.holds()
    }

    /// The message is sound, the object starts behind the header and within the
    /// message, and the fields of waiting payloads lie within it too.
    pub open spec fn wf(self) -> bool {
        &&& self.holds()
        &&& self.bytes().len() <= isize::MAX
        &&& protocol::is_blank(self.bytes())
        &&& HEADER_SIZE <= self.start() <= self.bytes().len()
        &&& layout::slots_within(self.bytes().len() as int, self.start(), self.payloads())
    }

    /// The object is the same one as `before`, in a message with the same root.
    pub open spec fn keeps(self, before: Self) -> bool {
        &&& self.start() == before.start()
        &&& self.data_size() == before.data_size()
        &&& self.root() == before.root()
    }

    /// The object's fixed part has its full size, and no payload waits.
    pub open spec fn finished(self) -> bool {
        &&& self.start() + self.data_size() <= self.bytes().len()
        &&& self.payloads() == Seq::<layout::Payload>::empty()
    }

    /// The message so far, with the object's fixed part at full size.
    pub open spec fn fixed_part(self) -> Seq<u8> {
        endian::zero_extended(self.bytes(), self.start() + self.data_size())
    }

    /// The object works on the builder that it belongs to: both have the same
    /// message, root and buffer.
    pub proof fn law_object_of_builder(self)
        ensures
            self.bytes() == self.target().bytes(),
            self.root() == self.target().root(),
            self.buffer() == self.target().buffer(),
            self.holds() == self.target().holds(),
    {
    }

    /// Completing the fixed part keeps every byte of the message so far and adds
    /// zeros up to the end of the fixed part, and none where it is complete.
    pub proof fn law_fixed_part(self)
        requires
            self.start() <= self.bytes().len(),
        ensures
            self.fixed_part().len() == if self.start() + self.data_size() > self.bytes().len() {
                self.start() + self.data_size()
            } else {
                self.bytes().len() as int
            },
            self.fixed_part().take(self.bytes().len() as int) == self.bytes(),
            forall|i: int|
                0 <= i < self.bytes().len() ==> #[trigger] self.fixed_part()[i] == self.bytes()[i],
            forall|i: int|
                self.bytes().len() <= i < self.start() + self.data_size()
                    ==> #[trigger] self.fixed_part()[i] == 0,
    {
        assert(self.fixed_part().take(self.bytes().len() as int) =~= self.bytes());
    }

    /// Finishing an object keeps every byte of the message so far, but for the
    /// four bytes of each waiting payload's distance, and fills the rest of the
    /// fixed part with zeros. Bytes and words that no distance is stored over
    /// read as they read before.
    pub proof fn law_finishing_keeps(self, at: int)
        requires
            self.wf(),
            0 <= at,
        ensures
            ({
                let done = layout::placed(self.fixed_part(), self.start(), self.payloads());
                &&& forall|i: int|
                    0 <= i < self.bytes().len() && (forall|j: int|
                        #![trigger self.payloads()[j]]
                        0 <= j < self.payloads().len() ==> i < self.start() + self.payloads()[j].0
                            || self.start() + self.payloads()[j].0 + 4 <= i)
                        ==> #[trigger] done[i] == self.bytes()[i]
                &&& forall|i: int|
                    self.bytes().len() <= i < self.start() + self.data_size()
                        ==> #[trigger] done[i] == 0
                &&& at < self.bytes().len() && (forall|j: int|
                    #![trigger self.payloads()[j]]
                    0 <= j < self.payloads().len() ==> at < self.start() + self.payloads()[j].0
                        || self.start() + self.payloads()[j].0 + 4 <= at) ==> layout::byte_at(
                    done,
                    at,
                ) == layout::byte_at(self.bytes(), at)
                &&& at + 4 <= self.bytes().len() && (forall|j: int|
                    #![trigger self.payloads()[j]]
                    0 <= j < self.payloads().len() ==> at + 4 <= self.start()
                        + self.payloads()[j].0 || self.start() + self.payloads()[j].0 + 4 <= at)
                    ==> layout::word_at(done, at) == layout::word_at(self.bytes(), at)
            }),
    {
        let done = layout::placed(self.fixed_part(), self.start(), self.payloads());
        let payloads = self.payloads();
        layout::law_placing_keeps(self.fixed_part(), self.start(), payloads, 0);
        layout::lemma_total_len_nonneg(payloads);
        self.law_fixed_part();
        assert forall|i: int|
            0 <= i < self.bytes().len() && (forall|j: int|
                #![trigger self.payloads()[j]]
                0 <= j < self.payloads().len() ==> i < self.start() + self.payloads()[j].0
                    || self.start() + self.payloads()[j].0 + 4 <= i) implies #[trigger] done[i]
            == self.bytes()[i] by {
            layout::lemma_placed_keeps(self.fixed_part(), self.start(), payloads, i);
        }
        assert forall|i: int|
            self.bytes().len() <= i < self.start() + self.data_size() implies #[trigger] done[i]
            == 0 by {
            layout::lemma_placed_keeps(self.fixed_part(), self.start(), payloads, i);
        }
        if at + 4 <= self.bytes().len() && (forall|j: int|
            #![trigger self.payloads()[j]]
            0 <= j < self.payloads().len() ==> at + 4 <= self.start() + self.payloads()[j].0
                || self.start() + self.payloads()[j].0 + 4 <= at) {
            layout::lemma_placed_keeps(self.fixed_part(), self.start(), payloads, at);
            layout::lemma_placed_keeps(self.fixed_part(), self.start(), payloads, at + 1);
            layout::lemma_placed_keeps(self.fixed_part(), self.start(), payloads, at + 2);
            layout::lemma_placed_keeps(self.fixed_part(), self.start(), payloads, at + 3);
        }
    }

    /// Storing a field changes neither where the object starts, nor how long its
    /// fixed part is, nor the root of the message.
    pub proof fn law_keeps(self, before: Self)
        ensures
            self.keeps(before) <==> {
                &&& self.start() == before.start()
                &&& self.data_size() == before.data_size()
                &&& self.root() == before.root()
            },
    {
    }

    /// An object that is given up without being finished leaves the message as
    /// it stood: with what was stored in the object, without the payloads that
    /// waited, and with the root that it had.
    pub proof fn law_unfinished_object(self)
        requires
            self.wf(),
            has_resolved(self),
        ensures
            final(self.target()).wf(),
            final(self.target()).bytes() == self.bytes(),
            final(self.target()).root() == self.root(),
    {
    }

    /// Extends the message with zeros so that the object has `end_offset` bytes.
    fn ensure_field(&mut self, end_offset: usize)
        requires
            old(self).wf(),
            old(self).start() + end_offset <= isize::MAX,
        ensures
            final(self).wf(),
            final(self).bytes() == endian::zero_extended(
                old(self).bytes(),
                old(self).start() + end_offset,
            ),
            old(self).start() + end_offset <= old(self).bytes().len() ==> final(self).buffer()
                == old(self).buffer(),
            final(self).keeps(*old(self)),
            final(self).deferred == old(self).deferred,
            *final(final(self).target()) == *final(old(self).target()),
    {
        let needed: usize = self.start_pos + end_offset;
        self.builder.zero_fill(needed);
        proof {
            lemma_blank_kept(old(self).bytes(), self.bytes());
        }
    }

    /// Stores a 32 bit word in the field at `field_offset`.
    pub fn set_uint32(&mut self, field_offset: usize, v: u32)
        requires
            old(self).wf(),
            old(self).start() + field_offset + 4 <= isize::MAX,
        ensures
            final(self).wf(),
            final(self).bytes() == layout::with_word(
                old(self).bytes(),
                old(self).start() + field_offset,
                v as int,
            ),
            final(self).payloads() == old(self).payloads(),
            final(self).keeps(*old(self)),
            *final(final(self).target()) == *final(old(self).target()),
    {
        self.ensure_field(field_offset + 4);
        let pos: usize = self.start_pos + field_offset;
        self.builder.write(pos, &endian::to_le32(v));
        proof {
            lemma_blank_kept(old(self).bytes(), self.bytes());
        }
    }

    /// Stores a byte in the field at `field_offset`.
    pub fn set_uint8(&mut self, field_offset: usize, v: u8)
        requires
            old(self).wf(),
            old(self).start() + field_offset + 1 <= isize::MAX,
        ensures
            final(self).wf(),
            final(self).bytes() == layout::with_byte(
                old(self).bytes(),
                old(self).start() + field_offset,
                v,
            ),
            final(self).payloads() == old(self).payloads(),
            final(self).keeps(*old(self)),
            *final(final(self).target()) == *final(old(self).target()),
    {
        self.ensure_field(field_offset + 1);
        let pos: usize = self.start_pos + field_offset;
        self.builder.write(pos, &[v]);
        assert(self.bytes() =~= layout::with_byte(old(self).bytes(), pos as int, v));
        proof {
            lemma_blank_kept(old(self).bytes(), self.bytes());
        }
    }

    /// Stores `data` in the byte field at `field_offset`: its length now, the
    /// bytes themselves when the object is finished. Empty `data` makes the
    /// field null.
    pub fn set_bytes(&mut self, field_offset: usize, data: &[u8])
        requires
            old(self).wf(),
            old(self).start() + field_offset + 8 <= isize::MAX,
        ensures
            final(self).wf(),
            final(self).bytes() == layout::with_slot(
                old(self).bytes(),
                old(self).start() + field_offset,
                data@,
            ),
            final(self).payloads() == layout::queued(
                old(self).payloads(),
                field_offset as int,
                data@,
            ),
            final(self).keeps(*old(self)),
            *final(final(self).target()) == *final(old(self).target()),
    {
        self.ensure_field(field_offset + 8);
        let pos: usize = self.start_pos + field_offset;
        if data.is_empty() {
            self.builder.write(pos, &endian::to_le32(0));
            self.builder.write(pos + 4, &endian::to_le32(0));
            assert(self.bytes() =~= layout::with_slot(old(self).bytes(), pos as int, data@));
            proof {
                lemma_blank_kept(old(self).bytes(), self.bytes());
            }
            return;
        }
        self.builder.write(pos + 4, &endian::to_le32(endian::low32(data.len())));
        self.deferred.push(DeferredWrite { field_offset, data: slice_to_vec(data) });
        proof {
            endian::law_le32_keeps_low_bits(data@.len() as int);
            assert(self.payloads() =~= old(self).payloads().push((field_offset as int, data@)));
            lemma_blank_kept(old(self).bytes(), self.bytes());
        }
    }

    /// Stores `text` in the text field at `field_offset`, as its UTF-8 bytes.
    pub fn set_text(&mut self, field_offset: usize, text: &str)
        requires
            old(self).wf(),
            old(self).start() + field_offset + 8 <= isize::MAX,
        ensures
            final(self).wf(),
            final(self).bytes() == layout::with_slot(
                old(self).bytes(),
                old(self).start() + field_offset,
                encode_utf8(text@),
            ),
            final(self).payloads() == layout::queued(
                old(self).payloads(),
                field_offset as int,
                encode_utf8(text@),
            ),
            final(self).keeps(*old(self)),
            *final(final(self).target()) == *final(old(self).target()),
    {
        self.set_bytes(field_offset, text.as_bytes());
    }

    /// Completes the fixed part and places the waiting payloads behind it. Where
    /// there is nothing to complete and nothing to place, as after this call,
    /// everything stays as it is.
    fn do_finish(&mut self)
        requires
            old(self).wf(),
            old(self).start() + old(self).data_size() <= isize::MAX,
            layout::placeable(
                old(self).fixed_part().len() as int,
                old(self).start(),
                old(self).payloads(),
            ),
        ensures
            final(self).wf(),
            final(self).bytes() == layout::placed(
                old(self).fixed_part(),
                old(self).start(),
                old(self).payloads(),
            ),
            final(self).payloads() == Seq::<layout::Payload>::empty(),
            old(self).finished() ==> {
                &&& final(self).bytes() == old(self).bytes()
                &&& final(self).buffer() == old(self).buffer()
            },
            final(self).finished(),
            final(self).keeps(*old(self)),
            *final(final(self).target()) == *final(old(self).target()),
    {
        let ghost fixed = self.fixed_part();
        let ghost start = self.start();
        let ghost payloads = self.payloads();
        self.ensure_field(self.data_size);
        let count: usize = self.deferred.len();
        let mut i: usize = 0;
        let ghost buffer = self.buffer();
        assert(payloads.take(0) =~= Seq::<layout::Payload>::empty());
        while i < count
            invariant
                i <= count,
                count == self.deferred@.len(),
                payloads == self.payloads(),
                start == self.start(),
                HEADER_SIZE <= start <= fixed.len(),
                layout::slots_within(fixed.len() as int, start, payloads),
                layout::placeable(fixed.len() as int, start, payloads),
                self.builder.holds(),
                self.keeps(*old(self)),
                self.bytes() == layout::placed(fixed, start, payloads.take(i as int)),
                i == 0 ==> self.buffer() == buffer,
                *final(self.target()) == *final(old(self).target()),
            decreases count - i,
        {
            proof {
                let done = payloads.take(i as int);
                assert(payloads.take(i + 1).drop_last() =~= done);
                layout::lemma_placeable_prefix(fixed.len() as int, start, payloads, i + 1);
                layout::lemma_placed_len(fixed, start, done);
                layout::lemma_total_len_nonneg(done);
            }
            assert(payloads[i as int] == payloads.take(i + 1).last());
            let field_offset: usize = self.deferred[i].field_offset;
            let data_pos: usize = self.builder.pos;
            self.builder.append(&self.deferred[i].data);
            let field_abs_pos: usize = self.start_pos + field_offset;
            let distance: [u8; 4] = endian::distance32(data_pos, field_abs_pos);
            self.builder.write(field_abs_pos, &distance);
            i += 1;
        }
        self.deferred.clear();
        proof {
            assert(payloads.take(count as int) =~= payloads);
            assert(self.payloads() =~= Seq::<layout::Payload>::empty());
            assert forall|j: int| 0 <= j < HEADER_SIZE implies self.bytes()[j] == old(self).bytes()[j] by {
                layout::lemma_placed_keeps(fixed, start, payloads, j);
            }
            layout::lemma_placed_len(fixed, start, payloads);
            layout::lemma_total_len_nonneg(payloads);
            lemma_blank_kept(old(self).bytes(), self.bytes());
        }
    }

    /// Completes the object, places its payloads, and makes it the root of the
    /// message.
    pub fn finish_as_root(self)
        requires
            self.wf(),
            self.start() + self.data_size() <= isize::MAX,
            layout::placeable(self.fixed_part().len() as int, self.start(), self.payloads()),
        ensures
            final(self.target()).wf(),
            final(self.target()).bytes() == layout::placed(
                self.fixed_part(),
                self.start(),
                self.payloads(),
            ),
            final(self.target()).root() == self.start(),
            final(self.target()).bytes().len() == layout::total_len(self.payloads()) + (
            if self.start() + self.data_size() > self.bytes().len() {
                self.start() + self.data_size()
            } else {
                self.bytes().len() as int
            }),
            forall|i: int|
                0 <= i < self.bytes().len() && (forall|j: int|
                    #![trigger self.payloads()[j]]
                    0 <= j < self.payloads().len() ==> i < self.start() + self.payloads()[j].0
                        || self.start() + self.payloads()[j].0 + 4 <= i)
                    ==> #[trigger] final(self.target()).bytes()[i] == self.bytes()[i],
            forall|i: int|
                self.bytes().len() <= i < self.start() + self.data_size()
                    ==> #[trigger] final(self.target()).bytes()[i] == 0,
    {
        proof {
            self.law_finishing_keeps(0);
            self.law_fixed_part();
            layout::lemma_placed_len(self.fixed_part(), self.start(), self.payloads());
        }
        let mut this = self;
        this.do_finish();
        this.builder.root_offset = this.start_pos;
    }
}

} // verus!
