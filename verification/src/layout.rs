//! What a message's bytes mean: how fields are read out of an object, and what
//! each step of building one does to the bytes.

use crate::endian;
use crate::protocol;
use crate::protocol::HEADER_SIZE;
use vstd::prelude::*;
use vstd::utf8::*;

verus! {

// ── Reading ─────────────────────────────────────────────────────────────

/// The byte at `pos`; zero past the end.
pub open spec fn byte_at(data: Seq<u8>, pos: int) -> int {
    if pos < data.len() {
        data[pos] as int
    } else {
        0
    }
}

/// The 32 bit word at `pos`; zero where it does not lie within `data`.
pub open spec fn word_at(data: Seq<u8>, pos: int) -> int {
    if pos + 4 <= data.len() {
        endian::u32_at(data, pos)
    } else {
        0
    }
}

/// Where the payload of the byte field at `pos` starts.
pub open spec fn payload_start(data: Seq<u8>, pos: int) -> int {
    pos + endian::signed32(endian::u32_at(data, pos))
}

/// How many bytes the payload of the byte field at `pos` has.
pub open spec fn payload_size(data: Seq<u8>, pos: int) -> int {
    endian::u32_at(data, pos + 4)
}

/// The field at `pos` lies within `data`, is not null, and its payload lies
/// within `data` too.
pub open spec fn has_payload(data: Seq<u8>, pos: int) -> bool {
    &&& pos + 8 <= data.len()
    &&& endian::u32_at(data, pos) != 0
    &&& 0 <= payload_start(data, pos)
    &&& payload_start(data, pos) + payload_size(data, pos) <= data.len()
}

/// The payload of the byte field at `pos`; empty where it has none.
pub open spec fn bytes_at(data: Seq<u8>, pos: int) -> Seq<u8> {
    if has_payload(data, pos) {
        data.subrange(
            payload_start(data, pos),
            payload_start(data, pos) + payload_size(data, pos),
        )
    } else {
        Seq::empty()
    }
}

/// The text that `bytes` encodes in UTF-8; empty where they encode none.
pub open spec fn text_of(bytes: Seq<u8>) -> Seq<char> {
    if valid_utf8(bytes) {
        decode_utf8(bytes)
    } else {
        Seq::empty()
    }
}

/// The text in the field at `pos`; empty where it has none or is not UTF-8.
pub open spec fn text_at(data: Seq<u8>, pos: int) -> Seq<char> {
    text_of(bytes_at(data, pos))
}

// ── Writing ─────────────────────────────────────────────────────────────

/// How long a buffer of `len` bytes becomes when `needed` are called for: it
/// stays where they fit, and else doubles, or takes what is needed where that is
/// more. No buffer gets longer than a vector may be.
pub open spec fn grown(len: int, needed: int) -> int {
    if needed <= len {
        len
    } else if needed > 2 * len {
        needed
    } else if 2 * len <= isize::MAX {
        2 * len
    } else {
        isize::MAX as int
    }
}

/// The first multiple of `alignment` from `pos` on.
pub open spec fn aligned(pos: int, alignment: int) -> int {
    pos + (alignment - pos % alignment) % alignment
}

/// `bytes` with a byte stored at `at`, zeros filling any gap before it.
pub open spec fn with_byte(bytes: Seq<u8>, at: int, v: u8) -> Seq<u8> {
    endian::overwrite(endian::zero_extended(bytes, at + 1), at, seq![v])
}

/// `bytes` with a 32 bit word stored at `at`, zeros filling any gap before it.
pub open spec fn with_word(bytes: Seq<u8>, at: int, v: int) -> Seq<u8> {
    endian::overwrite(endian::zero_extended(bytes, at + 4), at, endian::le32(v))
}

/// `bytes` with a byte field prepared at `at`: one without payload is null,
/// and one with a payload has its length stored and its distance left for
/// when the payload is placed.
pub open spec fn with_slot(bytes: Seq<u8>, at: int, data: Seq<u8>) -> Seq<u8> {
    let room = endian::zero_extended(bytes, at + 8);
    if data.len() == 0 {
        endian::overwrite(room, at, endian::le32(0) + endian::le32(0))
    } else {
        endian::overwrite(room, at + 4, endian::le32(data.len() as int))
    }
}

/// A payload that waits to be placed: the field that it belongs to, as an
/// offset into the object, and its bytes.
pub type Payload = (int, Seq<u8>);

/// `payloads` with one more at the end; an empty one is not worth placing.
pub open spec fn queued(payloads: Seq<Payload>, field: int, data: Seq<u8>) -> Seq<Payload> {
    if data.len() == 0 {
        payloads
    } else {
        payloads.push((field, data))
    }
}

/// How many bytes `payloads` have together.
pub open spec fn total_len(payloads: Seq<Payload>) -> int
    decreases payloads.len(),
{
    if payloads.len() == 0 {
        0
    } else {
        total_len(payloads.drop_last()) + payloads.last().1.len()
    }
}

/// `bytes` with `data` added to its end, and the distance to it from `at`
/// stored at `at`.
pub open spec fn attached(bytes: Seq<u8>, at: int, data: Seq<u8>) -> Seq<u8> {
    endian::overwrite(bytes + data, at, endian::le32(bytes.len() - at))
}

/// `bytes` with `payloads` placed at its end in order, and the distance from
/// its field stored for each; the fields belong to the object at `start`.
pub open spec fn placed(bytes: Seq<u8>, start: int, payloads: Seq<Payload>) -> Seq<u8>
    decreases payloads.len(),
{
    if payloads.len() == 0 {
        bytes
    } else {
        let (field, data) = payloads.last();
        attached(placed(bytes, start, payloads.drop_last()), start + field, data)
    }
}

/// The distance from `field_pos` to `data_pos`, each taken as a signed 32 bit
/// number, is again a signed 32 bit number.
pub open spec fn distance_fits(data_pos: int, field_pos: int) -> bool {
    i32::MIN <= endian::signed32(data_pos) - endian::signed32(field_pos) <= i32::MAX
}

/// Each of `payloads`, placed in order behind `len` bytes, stays within the
/// length of a vector and has a distance that can be computed.
pub open spec fn placeable(len: int, start: int, payloads: Seq<Payload>) -> bool
    decreases payloads.len(),
{
    payloads.len() > 0 ==> {
        let before = len + total_len(payloads.drop_last());
        let (field, data) = payloads.last();
        &&& placeable(len, start, payloads.drop_last())
        &&& before + data.len() <= isize::MAX
        &&& distance_fits(before, start + field)
    }
}

/// The fields of `payloads` lie within the first `len` bytes.
pub open spec fn slots_within(len: int, start: int, payloads: Seq<Payload>) -> bool {
    forall|i: int|
        #![trigger payloads[i]]
        0 <= i < payloads.len() ==> 0 <= payloads[i].0 && start + payloads[i].0 + 8 <= len
}

/// No payload's distance is stored at `pos`.
pub open spec fn clear_of(start: int, payloads: Seq<Payload>, pos: int) -> bool {
    forall|j: int|
        #![trigger payloads[j]]
        0 <= j < payloads.len() ==> pos < start + payloads[j].0 || start + payloads[j].0 + 4 <= pos
}

/// `bytes` with the offset of the root object and the total size in its header.
pub open spec fn sealed(bytes: Seq<u8>, root: int) -> Seq<u8> {
    endian::overwrite(
        endian::overwrite(bytes, 8, endian::le32(root)),
        12,
        endian::le32(bytes.len() as int),
    )
}

/// `bytes` with flags in its header.
pub open spec fn flagged(bytes: Seq<u8>, flags: int) -> Seq<u8> {
    endian::overwrite(bytes, 6, endian::le16(flags))
}

// ── Facts about the edits ───────────────────────────────────────────────

/// Placing adds the payloads' bytes and nothing else to the length.
pub proof fn lemma_placed_len(bytes: Seq<u8>, start: int, payloads: Seq<Payload>)
    ensures
        placed(bytes, start, payloads).len() == bytes.len() + total_len(payloads),
    decreases payloads.len(),
{
    if payloads.len() > 0 {
        lemma_placed_len(bytes, start, payloads.drop_last());
    }
}

/// What can be placed can be placed up to any point.
pub proof fn lemma_placeable_prefix(len: int, start: int, payloads: Seq<Payload>, n: int)
    requires
        placeable(len, start, payloads),
        0 <= n <= payloads.len(),
    ensures
        placeable(len, start, payloads.take(n)),
    decreases payloads.len() - n,
{
    if n < payloads.len() {
        lemma_placeable_prefix(len, start, payloads, n + 1);
        assert(payloads.take(n + 1).drop_last() =~= payloads.take(n));
    } else {
        assert(payloads.take(n) =~= payloads);
    }
}

/// Placing changes none of the bytes that are already there but the distances
/// of the fields in question.
pub proof fn lemma_placed_keeps(bytes: Seq<u8>, start: int, payloads: Seq<Payload>, i: int)
    requires
        0 <= i < bytes.len(),
        clear_of(start, payloads, i),
    ensures
        placed(bytes, start, payloads)[i] == bytes[i],
    decreases payloads.len(),
{
    if payloads.len() > 0 {
        let front = payloads.drop_last();
        assert forall|k: int| #![trigger front[k]] 0 <= k < front.len() implies front[k]
            == payloads[k] by {}
        lemma_placed_keeps(bytes, start, front, i);
        lemma_placed_len(bytes, start, front);
        lemma_total_len_nonneg(front);
        assert(payloads.last() == payloads[payloads.len() - 1]);
    }
}

/// Lengths add up to no less than zero.
pub proof fn lemma_total_len_nonneg(payloads: Seq<Payload>)
    ensures
        total_len(payloads) >= 0,
    decreases payloads.len(),
{
    if payloads.len() > 0 {
        lemma_total_len_nonneg(payloads.drop_last());
    }
}

/// Placing one more payload is placing the others and then it.
pub proof fn lemma_placed_queued(
    bytes: Seq<u8>,
    start: int,
    payloads: Seq<Payload>,
    field: int,
    data: Seq<u8>,
)
    ensures
        ({
            let before = placed(bytes, start, payloads);
            &&& placed(bytes, start, queued(payloads, field, data)) == if data.len() == 0 {
                before
            } else {
                attached(before, start + field, data)
            }
            &&& total_len(queued(payloads, field, data)) == total_len(payloads) + data.len()
            &&& forall|len: int|
                #[trigger] placeable(len, start, queued(payloads, field, data)) <==> {
                    &&& placeable(len, start, payloads)
                    &&& data.len() > 0 ==> {
                        &&& len + total_len(payloads) + data.len() <= isize::MAX
                        &&& distance_fits(len + total_len(payloads), start + field)
                    }
                }
        }),
{
    if data.len() > 0 {
        let more = payloads.push((field, data));
        assert(more.drop_last() =~= payloads);
        assert(more.last() == (field, data));
    }
}

// ── What is written is what is read ─────────────────────────────────────

/// Objects start at multiples of the alignment, with less than one alignment
/// of padding before them.
pub proof fn law_aligned(pos: int, alignment: int)
    requires
        0 <= pos,
        0 < alignment,
    ensures
        aligned(pos, alignment) % alignment == 0,
        pos <= aligned(pos, alignment) < pos + alignment,
{
    vstd::arithmetic::div_mod::lemma_fundamental_div_mod(pos, alignment);
    let q = pos / alignment;
    let r = pos % alignment;
    assert(pos == alignment * q + r);
    if r == 0 {
        assert((alignment - r) % alignment == 0) by {
            vstd::arithmetic::div_mod::lemma_mod_self_0(alignment);
        }
    } else {
        vstd::arithmetic::div_mod::lemma_small_mod((alignment - r) as nat, alignment as nat);
        assert(aligned(pos, alignment) == alignment * (q + 1)) by (nonlinear_arith)
            requires
                pos == alignment * q + r,
                aligned(pos, alignment) == pos + (alignment - r),
        ;
        vstd::arithmetic::div_mod::lemma_mod_multiples_basic(q + 1, alignment);
        assert((q + 1) * alignment == alignment * (q + 1)) by (nonlinear_arith);
    }
}

/// A stored byte reads back, and every other byte reads as before.
pub proof fn law_byte_reads_back(bytes: Seq<u8>, at: int, v: u8)
    requires
        0 <= at,
    ensures
        byte_at(with_byte(bytes, at, v), at) == v,
        forall|pos: int|
            0 <= pos && pos != at ==> #[trigger] byte_at(with_byte(bytes, at, v), pos) == byte_at(
                bytes,
                pos,
            ),
{
}

/// A stored word reads back, and every byte outside it reads as before.
pub proof fn law_word_reads_back(bytes: Seq<u8>, at: int, v: u32)
    requires
        0 <= at,
    ensures
        word_at(with_word(bytes, at, v as int), at) == v,
        forall|pos: int|
            0 <= pos && (pos < at || at + 4 <= pos) ==> #[trigger] byte_at(
                with_word(bytes, at, v as int),
                pos,
            ) == byte_at(bytes, pos),
{
    let after = with_word(bytes, at, v as int);
    endian::law_le32_reads_back(v as int);
    assert forall|i: int| 0 <= i < 4 implies after[at + i] == #[trigger] endian::le32(
        v as int,
    )[i] by {}
}

/// A byte field without payload reads as empty; one with a payload has the
/// payload's length in its second word. Bytes outside the field read as before.
pub proof fn law_slot_reads_back(bytes: Seq<u8>, at: int, data: Seq<u8>)
    requires
        0 <= at,
    ensures
        data.len() == 0 ==> bytes_at(with_slot(bytes, at, data), at) == data,
        data.len() > 0 ==> payload_size(with_slot(bytes, at, data), at) == data.len()
            % 0x1_0000_0000,
        forall|pos: int|
            0 <= pos && (pos < at || at + 8 <= pos) ==> #[trigger] byte_at(
                with_slot(bytes, at, data),
                pos,
            ) == byte_at(bytes, pos),
{
    let after = with_slot(bytes, at, data);
    endian::law_le32_reads_back(0);
    endian::law_le32_reads_back(data.len() as int);
    if data.len() == 0 {
        assert forall|i: int| 0 <= i < 4 implies after[at + i] == #[trigger] endian::le32(0)[i] by {
        }
        assert(bytes_at(after, at) =~= data);
    } else {
        assert forall|i: int| 0 <= i < 4 implies after[at + 4 + i] == #[trigger] endian::le32(
            data.len() as int,
        )[i] by {}
    }
}

/// Four bytes of a stored number make a word of it.
pub proof fn lemma_word_is(bytes: Seq<u8>, at: int, n: int)
    requires
        forall|i: int| 0 <= i < 4 ==> bytes[at + i] == #[trigger] endian::le32(n)[i],
    ensures
        endian::u32_at(bytes, at) == n % 0x1_0000_0000,
{
    let w = endian::le32(n);
    endian::law_le32_reads_back(n);
    assert(bytes[at + 0] == w[0]);
    assert(bytes[at + 1] == w[1]);
    assert(bytes[at + 2] == w[2]);
    assert(bytes[at + 3] == w[3]);
}

/// The field of payload `k` is apart from the distances of the others; an
/// earlier payload may have been stored in the same field.
pub open spec fn field_apart(payloads: Seq<Payload>, k: int) -> bool {
    forall|j: int|
        #![trigger payloads[j]]
        0 <= j < payloads.len() && j != k ==> {
            ||| payloads[j].0 + 4 <= payloads[k].0
            ||| payloads[k].0 + 8 <= payloads[j].0
            ||| j < k && payloads[j].0 == payloads[k].0
        }
}

/// Where payload `k` is placed.
pub open spec fn place_of(len: int, payloads: Seq<Payload>, k: int) -> int {
    len + total_len(payloads.take(k))
}

/// After placing, the field of payload `k` holds the distance to it and the
/// length that it held before, and the payload lies where it should.
proof fn lemma_placed_payload(fixed: Seq<u8>, start: int, payloads: Seq<Payload>, k: int)
    requires
        0 <= start,
        0 <= k < payloads.len(),
        slots_within(fixed.len() as int, start, payloads),
        field_apart(payloads, k),
    ensures
        ({
            let after = placed(fixed, start, payloads);
            let at = start + payloads[k].0;
            let pos = place_of(fixed.len() as int, payloads, k);
            &&& fixed.len() <= pos
            &&& pos + payloads[k].1.len() <= after.len()
            &&& endian::u32_at(after, at) == (pos - at) % 0x1_0000_0000
            &&& endian::u32_at(after, at + 4) == endian::u32_at(fixed, at + 4)
            &&& after.subrange(pos, pos + payloads[k].1.len()) == payloads[k].1
        }),
    decreases payloads.len(),
{
    let front = payloads.drop_last();
    let before = placed(fixed, start, front);
    let (field, data) = payloads.last();
    let after = placed(fixed, start, payloads);
    let at = start + payloads[k].0;
    let pos = place_of(fixed.len() as int, payloads, k);
    lemma_placed_len(fixed, start, front);
    lemma_total_len_nonneg(front);
    lemma_total_len_nonneg(payloads.take(k));
    assert(payloads.last() == payloads[payloads.len() - 1]);
    assert(after == attached(before, start + field, data));
    if k == payloads.len() - 1 {
        assert(payloads.take(k) =~= front);
        assert forall|i: int| 0 <= i < 4 implies after[at + i] == #[trigger] endian::le32(
            pos - at,
        )[i] by {}
        lemma_word_is(after, at, pos - at);
        assert forall|i: int| at + 4 <= i < at + 8 implies #[trigger] after[i] == fixed[i] by {
            assert forall|j: int| #![trigger front[j]] 0 <= j < front.len() implies front[j]
                == payloads[j] by {}
            lemma_placed_keeps(fixed, start, front, i);
        }
        assert(after.subrange(pos, pos + data.len()) =~= data);
    } else {
        assert forall|j: int| #![trigger front[j]] 0 <= j < front.len() implies front[j]
            == payloads[j] by {}
        assert(front.take(k) =~= payloads.take(k));
        lemma_placed_payload(fixed, start, front, k);
        assert(payloads[payloads.len() - 1].0 == field);
        assert forall|i: int| at <= i < at + 8 implies #[trigger] after[i] == before[i] by {}
        let len = payloads[k].1.len();
        assert(after.subrange(pos, pos + len) =~= before.subrange(pos, pos + len));
    }
}

/// What is stored in a byte field is what is read from it once the object is
/// finished: of the payloads that wait on an object with the fixed part `fixed`
/// at `start`, payload `k` reads back from its field in the message `msg`,
/// whichever way the header of `msg` was completed. The field must hold the
/// payload's length, be apart from the fields of the others, and lie within 2 GB
/// of the payload.
pub proof fn law_payload_reads_back(
    fixed: Seq<u8>,
    start: int,
    payloads: Seq<Payload>,
    k: int,
    msg: Seq<u8>,
)
    requires
        HEADER_SIZE <= start,
        0 <= k < payloads.len(),
        slots_within(fixed.len() as int, start, payloads),
        field_apart(payloads, k),
        payloads[k].1.len() > 0,
        payload_size(fixed, start + payloads[k].0) == payloads[k].1.len(),
        place_of(fixed.len() as int, payloads, k) - (start + payloads[k].0) <= i32::MAX,
        msg.len() == placed(fixed, start, payloads).len(),
        msg.skip(HEADER_SIZE as int) == placed(fixed, start, payloads).skip(HEADER_SIZE as int),
    ensures
        bytes_at(msg, start + payloads[k].0) == payloads[k].1,
{
    let after = placed(fixed, start, payloads);
    let at = start + payloads[k].0;
    let pos = place_of(fixed.len() as int, payloads, k);
    let len = payloads[k].1.len();
    assert(0 <= payloads[k].0 && at + 8 <= fixed.len());
    lemma_placed_payload(fixed, start, payloads, k);
    endian::law_signed32_of_stored(pos - at);
    lemma_same_behind_header(msg, after, at);
    lemma_same_behind_header(msg, after, at + 4);
    assert(payload_start(msg, at) == pos);
    assert(payload_size(msg, at) == len);
    assert(msg.subrange(pos, pos + len) =~= after.subrange(pos, pos + len)) by {
        assert forall|i: int| pos <= i < pos + len implies msg[i] == after[i] by {
            assert(msg[i] == msg.skip(HEADER_SIZE as int)[i - HEADER_SIZE]);
            assert(after[i] == after.skip(HEADER_SIZE as int)[i - HEADER_SIZE]);
        }
    }
}

/// Messages that agree behind the header have the same words there.
proof fn lemma_same_behind_header(a: Seq<u8>, b: Seq<u8>, at: int)
    requires
        HEADER_SIZE <= at,
        at + 4 <= a.len(),
        a.len() == b.len(),
        a.skip(HEADER_SIZE as int) == b.skip(HEADER_SIZE as int),
    ensures
        endian::u32_at(a, at) == endian::u32_at(b, at),
{
    let (x, y) = (a.skip(HEADER_SIZE as int), b.skip(HEADER_SIZE as int));
    let i = at - HEADER_SIZE;
    assert(a[at] == x[i] && b[at] == y[i]);
    assert(a[at + 1] == x[i + 1] && b[at + 1] == y[i + 1]);
    assert(a[at + 2] == x[i + 2] && b[at + 2] == y[i + 2]);
    assert(a[at + 3] == x[i + 3] && b[at + 3] == y[i + 3]);
}

/// Finishing an object twice is finishing it once: `size` is the size of its
/// fixed part, and once its payloads are placed none waits any more.
pub proof fn law_finish_twice(bytes: Seq<u8>, start: int, size: int, payloads: Seq<Payload>)
    ensures
        ({
            let once = placed(endian::zero_extended(bytes, start + size), start, payloads);
            placed(endian::zero_extended(once, start + size), start, Seq::empty()) == once
        }),
{
    let fixed = endian::zero_extended(bytes, start + size);
    let once = placed(fixed, start, payloads);
    lemma_placed_len(fixed, start, payloads);
    lemma_total_len_nonneg(payloads);
    assert(endian::zero_extended(once, start + size) =~= once);
}

/// Completing the header leaves everything behind it alone, and gives a message
/// that is accepted, with the root and the size that were put in.
pub proof fn law_sealed(bytes: Seq<u8>, root: int)
    requires
        protocol::is_message(bytes),
    ensures
        protocol::is_message(sealed(bytes, root)),
        protocol::flags_of(sealed(bytes, root)) == protocol::flags_of(bytes),
        protocol::root_of(sealed(bytes, root)) == root % 0x1_0000_0000,
        protocol::size_of(sealed(bytes, root)) == bytes.len() % 0x1_0000_0000,
        sealed(bytes, root).len() == bytes.len(),
        sealed(bytes, root).skip(HEADER_SIZE as int) == bytes.skip(HEADER_SIZE as int),
{
    let after = sealed(bytes, root);
    assert(after.take(4) =~= bytes.take(4));
    assert(after.skip(HEADER_SIZE as int) =~= bytes.skip(HEADER_SIZE as int));
    lemma_word_is(after, 8, root);
    lemma_word_is(after, 12, bytes.len() as int);
}

/// Putting flags into the header changes the flags and nothing else.
pub proof fn law_flagged(bytes: Seq<u8>, flags: u16)
    requires
        protocol::is_message(bytes),
    ensures
        protocol::is_message(flagged(bytes, flags as int)),
        protocol::flags_of(flagged(bytes, flags as int)) == flags,
        flagged(bytes, flags as int).len() == bytes.len(),
        flagged(bytes, flags as int).skip(8) == bytes.skip(8),
{
    let after = flagged(bytes, flags as int);
    endian::law_le16_reads_back(flags as int);
    assert(after.take(4) =~= bytes.take(4));
    assert(after.skip(8) =~= bytes.skip(8));
    assert(after[6] == endian::le16(flags as int)[0]);
    assert(after[7] == endian::le16(flags as int)[1]);
}

/// Bytes and words that were stored in an object before it was finished are the
/// ones that are read from the message `msg`, whichever way its header was
/// completed, as long as no payload's distance is stored over them.
pub proof fn law_scalars_read_back(
    fixed: Seq<u8>,
    start: int,
    payloads: Seq<Payload>,
    at: int,
    msg: Seq<u8>,
)
    requires
        HEADER_SIZE <= at,
        msg.len() == placed(fixed, start, payloads).len(),
        msg.skip(HEADER_SIZE as int) == placed(fixed, start, payloads).skip(HEADER_SIZE as int),
    ensures
        at < fixed.len() && clear_of(start, payloads, at) ==> byte_at(msg, at) == byte_at(
            fixed,
            at,
        ),
        at + 4 <= fixed.len() && (forall|i: int|
            at <= i < at + 4 ==> #[trigger] clear_of(start, payloads, i)) ==> word_at(msg, at)
            == word_at(fixed, at),
{
    let after = placed(fixed, start, payloads);
    lemma_placed_len(fixed, start, payloads);
    lemma_total_len_nonneg(payloads);
    assert forall|i: int|
        HEADER_SIZE <= i < fixed.len() && #[trigger] clear_of(start, payloads, i) implies msg[i]
        == fixed[i] by {
        lemma_placed_keeps(fixed, start, payloads, i);
        assert(msg.skip(HEADER_SIZE as int)[i - HEADER_SIZE] == after.skip(HEADER_SIZE as int)[i
            - HEADER_SIZE]);
    }
    if at + 4 <= fixed.len() && (forall|i: int|
        at <= i < at + 4 ==> #[trigger] clear_of(start, payloads, i)) {
        assert(clear_of(start, payloads, at));
        assert(clear_of(start, payloads, at + 1));
        assert(clear_of(start, payloads, at + 2));
        assert(clear_of(start, payloads, at + 3));
    }
}

// ── What each reading and each edit means, byte by byte ─────────────────

/// A byte is read where it stands and a word from the four bytes where it
/// stands; past the end both are zero.
pub proof fn law_scalar_reading(data: Seq<u8>, pos: int)
    requires
        0 <= pos,
    ensures
        pos < data.len() ==> byte_at(data, pos) == data[pos],
        pos >= data.len() ==> byte_at(data, pos) == 0,
        pos + 4 <= data.len() ==> word_at(data, pos) == data[pos] + 256 * data[pos + 1] + 65536
            * data[pos + 2] + 16777216 * data[pos + 3],
        pos + 4 > data.len() ==> word_at(data, pos) == 0,
{
}

/// What is read from the byte field at `pos` whose first word stores `distance`
/// and whose second word stores `size`: the `size` bytes that start `distance`
/// bytes from the field, forwards or backwards, if they all lie within `data`,
/// and nothing if they do not or the distance is zero.
pub proof fn law_payload_reading(data: Seq<u8>, pos: int, distance: int, size: int)
    requires
        0 <= pos,
        pos + 8 <= data.len(),
        -2147483648 <= distance < 2147483648,
        0 <= size < 4294967296,
        data.subrange(pos, pos + 4) == endian::le32(distance),
        data.subrange(pos + 4, pos + 8) == endian::le32(size),
    ensures
        distance != 0 && 0 <= pos + distance && pos + distance + size <= data.len() ==> bytes_at(
            data,
            pos,
        ) == data.subrange(pos + distance, pos + distance + size),
        distance == 0 || pos + distance < 0 || pos + distance + size > data.len() ==> bytes_at(
            data,
            pos,
        ).len() == 0,
{
    let (x, y) = (data.subrange(pos, pos + 4), data.subrange(pos + 4, pos + 8));
    assert forall|i: int| 0 <= i < 4 implies data[pos + i] == #[trigger] endian::le32(
        distance,
    )[i] by {
        assert(data[pos + i] == x[i]);
    }
    assert forall|i: int| 0 <= i < 4 implies data[pos + 4 + i] == #[trigger] endian::le32(
        size,
    )[i] by {
        assert(data[pos + 4 + i] == y[i]);
    }
    lemma_word_is(data, pos, distance);
    lemma_word_is(data, pos + 4, size);
    endian::law_signed32_of_stored(distance);
    assert(size % 0x1_0000_0000 == size);
}

/// A byte field that does not lie within `data` reads as empty.
pub proof fn law_field_past_end(data: Seq<u8>, pos: int)
    requires
        pos + 8 > data.len(),
    ensures
        bytes_at(data, pos).len() == 0,
        text_at(data, pos).len() == 0,
{
    assert(bytes_at(data, pos) =~= Seq::empty());
    assert(valid_utf8(Seq::<u8>::empty()));
    assert(decode_utf8(Seq::<u8>::empty()).len() == 0);
}

/// A text that is read has exactly the payload's bytes; a payload that is not
/// UTF-8 reads as the empty text.
pub proof fn law_text_reading(data: Seq<u8>, pos: int)
    ensures
        valid_utf8(bytes_at(data, pos)) ==> encode_utf8(text_at(data, pos)) == bytes_at(data, pos),
        !valid_utf8(bytes_at(data, pos)) ==> text_at(data, pos).len() == 0,
        forall|bytes: Seq<u8>|
            valid_utf8(bytes) ==> encode_utf8(#[trigger] text_of(bytes)) == bytes,
        forall|bytes: Seq<u8>| !valid_utf8(bytes) ==> (#[trigger] text_of(bytes)).len() == 0,
{
    broadcast use decode_utf8_encode_utf8;

}

/// A buffer has room for what is called for, keeps its length where it had room
/// already, and else at least doubles, as far as a vector may.
pub proof fn law_grown(len: int, needed: int)
    requires
        0 <= len <= isize::MAX,
        needed <= isize::MAX,
    ensures
        needed <= len ==> grown(len, needed) == len,
        needed <= grown(len, needed) <= isize::MAX,
        needed > len && 2 * len <= isize::MAX ==> grown(len, needed) >= 2 * len && (grown(
            len,
            needed,
        ) == needed || grown(len, needed) == 2 * len),
        needed > len && 2 * len > isize::MAX ==> grown(len, needed) == isize::MAX,
{
}

/// Storing a byte sets that byte and no other; where the object has to grow for
/// it, zeros fill the gap.
pub proof fn law_with_byte(bytes: Seq<u8>, at: int, v: u8)
    requires
        0 <= at,
    ensures
        with_byte(bytes, at, v).len() == if at < bytes.len() {
            bytes.len() as int
        } else {
            at + 1
        },
        with_byte(bytes, at, v)[at] == v,
        forall|i: int|
            0 <= i < bytes.len() && i != at ==> #[trigger] with_byte(bytes, at, v)[i] == bytes[i],
        forall|i: int| bytes.len() <= i < at ==> #[trigger] with_byte(bytes, at, v)[i] == 0,
{
}

/// Storing a word sets its four bytes and no others; where the object has to
/// grow for it, zeros fill the gap.
pub proof fn law_with_word(bytes: Seq<u8>, at: int, v: int)
    requires
        0 <= at,
    ensures
        with_word(bytes, at, v).len() == if at + 4 <= bytes.len() {
            bytes.len() as int
        } else {
            at + 4
        },
        with_word(bytes, at, v).subrange(at, at + 4) == endian::le32(v),
        forall|i: int|
            0 <= i < bytes.len() && (i < at || at + 4 <= i) ==> #[trigger] with_word(
                bytes,
                at,
                v,
            )[i] == bytes[i],
        forall|i: int| bytes.len() <= i < at ==> #[trigger] with_word(bytes, at, v)[i] == 0,
{
    assert(with_word(bytes, at, v).subrange(at, at + 4) =~= endian::le32(v));
}

/// Preparing a byte field changes nothing outside its eight bytes. A field for
/// no bytes becomes eight zeros; else its second word becomes the length, and
/// its first word stays until the payload is placed.
pub proof fn law_with_slot(bytes: Seq<u8>, at: int, data: Seq<u8>)
    requires
        0 <= at,
    ensures
        with_slot(bytes, at, data).len() == if at + 8 <= bytes.len() {
            bytes.len() as int
        } else {
            at + 8
        },
        data.len() == 0 ==> forall|i: int|
            at <= i < at + 8 ==> #[trigger] with_slot(bytes, at, data)[i] == 0,
        data.len() > 0 ==> with_slot(bytes, at, data).subrange(at + 4, at + 8) == endian::le32(
            data.len() as int,
        ),
        data.len() > 0 ==> forall|i: int|
            at <= i < at + 4 ==> #[trigger] with_slot(bytes, at, data)[i] == if i < bytes.len() {
                bytes[i]
            } else {
                0
            },
        forall|i: int|
            0 <= i < bytes.len() && (i < at || at + 8 <= i) ==> #[trigger] with_slot(
                bytes,
                at,
                data,
            )[i] == bytes[i],
        forall|i: int| bytes.len() <= i < at ==> #[trigger] with_slot(bytes, at, data)[i] == 0,
{
    let after = with_slot(bytes, at, data);
    endian::law_stored_is_little_endian(0);
    if data.len() > 0 {
        assert(after.subrange(at + 4, at + 8) =~= endian::le32(data.len() as int));
    } else {
        let word = endian::le32(0);
        assert forall|i: int| at <= i < at + 8 implies #[trigger] after[i] == 0 by {
            let j = if i < at + 4 {
                i - at
            } else {
                i - at - 4
            };
            assert((word + word)[i - at] == word[j]);
            assert(j == 0 || j == 1 || j == 2 || j == 3);
        }
    }
}

/// Bytes wait to be placed in the order in which they were stored; no bytes do
/// not wait at all.
pub proof fn law_queued(payloads: Seq<Payload>, field: int, data: Seq<u8>)
    ensures
        data.len() == 0 ==> queued(payloads, field, data) == payloads,
        data.len() > 0 ==> queued(payloads, field, data).len() == payloads.len() + 1 && queued(
            payloads,
            field,
            data,
        ).take(payloads.len() as int) == payloads && queued(
            payloads,
            field,
            data,
        )[payloads.len() as int] == (field, data),
{
    if data.len() > 0 {
        assert(queued(payloads, field, data).take(payloads.len() as int) =~= payloads);
    }
}

/// The lengths of payloads add up, one by one.
pub proof fn law_total_len(payloads: Seq<Payload>, field: int, data: Seq<u8>)
    ensures
        total_len(Seq::empty()) == 0,
        total_len(payloads.push((field, data))) == total_len(payloads) + data.len(),
{
    assert(payloads.push((field, data)).drop_last() =~= payloads);
}

/// Placing nothing changes nothing. Placing one payload more adds its bytes at
/// the end, stores in its field how far it is from the field to them, and
/// changes nothing else.
pub proof fn law_placing(
    bytes: Seq<u8>,
    start: int,
    payloads: Seq<Payload>,
    field: int,
    data: Seq<u8>,
)
    requires
        0 <= start + field,
        start + field + 4 <= bytes.len(),
    ensures
        placed(bytes, start, Seq::empty()) == bytes,
        placed(bytes, start, payloads).len() >= bytes.len(),
        ({
            let before = placed(bytes, start, payloads);
            let after = placed(bytes, start, payloads.push((field, data)));
            let at = start + field;
            &&& after.len() == before.len() + data.len()
            &&& after.skip(before.len() as int) == data
            &&& after.subrange(at, at + 4) == endian::le32(before.len() - at)
            &&& after.take(at) == before.take(at)
            &&& after.subrange(at + 4, before.len() as int) == before.skip(at + 4)
        }),
{
    let more = payloads.push((field, data));
    let before = placed(bytes, start, payloads);
    let after = placed(bytes, start, more);
    let at = start + field;
    lemma_placed_len(bytes, start, payloads);
    lemma_total_len_nonneg(payloads);
    assert(more.drop_last() =~= payloads);
    assert(more.last() == (field, data));
    assert(after == attached(before, at, data));
    assert(after.skip(before.len() as int) =~= data);
    assert(after.subrange(at, at + 4) =~= endian::le32(before.len() - at));
    assert(after.take(at) =~= before.take(at));
    assert(after.subrange(at + 4, before.len() as int) =~= before.skip(at + 4));
}

/// The distance from a field to its payload can be computed unless, with both
/// positions taken as signed 32 bit numbers, the subtraction leaves their range:
/// the field is in the lower 2 GB and the payload at most as far into the upper
/// 2 GB, or the field is in the upper 2 GB and the payload in the lower 2 GB, and
/// at least as far into them.
pub proof fn law_distance_fits(data_pos: int, field_pos: int)
    ensures
        field_pos % 4294967296 < 2147483648 ==> (distance_fits(data_pos, field_pos) <==> !(
        2147483648 <= data_pos % 4294967296 < 2147483648 + field_pos % 4294967296)),
        field_pos % 4294967296 >= 2147483648 ==> (distance_fits(data_pos, field_pos) <==> !(
        field_pos % 4294967296 - 2147483648 <= data_pos % 4294967296 < 2147483648)),
{
}

/// Payloads can be placed one after the other exactly as long as each one still
/// fits a vector and has a distance that can be computed.
pub proof fn law_placeable(len: int, start: int, payloads: Seq<Payload>, field: int, data: Seq<u8>)
    ensures
        placeable(len, start, Seq::empty()),
        placeable(len, start, payloads.push((field, data))) <==> {
            &&& placeable(len, start, payloads)
            &&& len + total_len(payloads) + data.len() <= isize::MAX
            &&& distance_fits(len + total_len(payloads), start + field)
        },
{
    assert(payloads.push((field, data)).drop_last() =~= payloads);
}

/// Any payloads can be placed as long as the message stays under 2 GB.
pub proof fn law_small_is_placeable(len: int, start: int, payloads: Seq<Payload>)
    requires
        0 <= start <= len,
        forall|i: int|
            #![trigger payloads[i]]
            0 <= i < payloads.len() ==> 0 <= payloads[i].0 && start + payloads[i].0 + 8 <= len,
        len + total_len(payloads) < 2147483648,
    ensures
        placeable(len, start, payloads),
    decreases payloads.len(),
{
    if payloads.len() > 0 {
        let front = payloads.drop_last();
        let last = payloads[payloads.len() - 1];
        assert forall|i: int| #![trigger front[i]] 0 <= i < front.len() implies front[i]
            == payloads[i] by {}
        assert(payloads.last() == last);
        lemma_total_len_nonneg(front);
        law_small_is_placeable(len, start, front);
        law_distance_fits(len + total_len(front), start + last.0);
    }
}

/// Completing the header sets bytes 8 to 12 to the root and bytes 12 to 16 to
/// the length, and changes no other byte.
pub proof fn law_sealed_bytes(bytes: Seq<u8>, root: int)
    requires
        bytes.len() >= 16,
    ensures
        sealed(bytes, root).len() == bytes.len(),
        sealed(bytes, root).take(8) == bytes.take(8),
        sealed(bytes, root).subrange(8, 12) == endian::le32(root),
        sealed(bytes, root).subrange(12, 16) == endian::le32(bytes.len() as int),
        sealed(bytes, root).skip(16) == bytes.skip(16),
{
    let after = sealed(bytes, root);
    assert(after.take(8) =~= bytes.take(8));
    assert(after.subrange(8, 12) =~= endian::le32(root));
    assert(after.subrange(12, 16) =~= endian::le32(bytes.len() as int));
    assert(after.skip(16) =~= bytes.skip(16));
}

/// Putting flags into the header sets bytes 6 and 7, the lower half first, and
/// changes no other byte.
pub proof fn law_flagged_bytes(bytes: Seq<u8>, flags: u16)
    requires
        bytes.len() >= 16,
    ensures
        flagged(bytes, flags as int).len() == bytes.len(),
        flagged(bytes, flags as int).take(6) == bytes.take(6),
        flagged(bytes, flags as int)[6] == flags % 256,
        flagged(bytes, flags as int)[7] == flags / 256,
        flagged(bytes, flags as int).skip(8) == bytes.skip(8),
{
    let after = flagged(bytes, flags as int);
    endian::law_stored_is_little_endian(flags as int);
    assert(after.take(6) =~= bytes.take(6));
    assert(after[6] == endian::le16(flags as int)[0]);
    assert(after[7] == endian::le16(flags as int)[1]);
    assert(after.skip(8) =~= bytes.skip(8));
}

/// A message that is finished with a type in the upper half of its flags has
/// that type, whatever the lower half holds, and keeps both halves.
pub proof fn law_type_reads_back(bytes: Seq<u8>, msg_type: u8, low: u8, root: int)
    requires
        protocol::is_message(bytes),
    ensures
        ({
            let msg = sealed(flagged(bytes, msg_type * 256 + low), root);
            &&& protocol::is_message(msg)
            &&& protocol::type_of(msg) == msg_type
            &&& protocol::flags_of(msg) == msg_type * 256 + low
        }),
{
    let flags = (msg_type * 256 + low) as u16;
    law_flagged(bytes, flags);
    law_sealed(flagged(bytes, flags as int), root);
}

/// Placing keeps every byte that was there before, but for the four bytes of
/// each payload's distance, and puts payload `k` behind the payloads before it.
pub proof fn law_placing_keeps(bytes: Seq<u8>, start: int, payloads: Seq<Payload>, k: int)
    requires
        0 <= start,
        forall|j: int|
            #![trigger payloads[j]]
            0 <= j < payloads.len() ==> 0 <= payloads[j].0 && start + payloads[j].0 + 8
                <= bytes.len(),
    ensures
        placed(bytes, start, payloads).len() == bytes.len() + total_len(payloads),
        forall|i: int|
            0 <= i < bytes.len() && (forall|j: int|
                #![trigger payloads[j]]
                0 <= j < payloads.len() ==> i < start + payloads[j].0 || start + payloads[j].0 + 4
                    <= i) ==> #[trigger] placed(bytes, start, payloads)[i] == bytes[i],
        0 <= k < payloads.len() ==> ({
            let at = bytes.len() + total_len(payloads.take(k));
            placed(bytes, start, payloads).subrange(at, at + payloads[k].1.len()) == payloads[k].1
        }),
{
    let after = placed(bytes, start, payloads);
    lemma_placed_len(bytes, start, payloads);
    assert forall|i: int|
        0 <= i < bytes.len() && (forall|j: int|
            #![trigger payloads[j]]
            0 <= j < payloads.len() ==> i < start + payloads[j].0 || start + payloads[j].0 + 4
                <= i) implies #[trigger] after[i] == bytes[i] by {
        lemma_placed_keeps(bytes, start, payloads, i);
    }
    if 0 <= k < payloads.len() {
        lemma_placed_bytes(bytes, start, payloads, k);
    }
}

/// Payload `k` lies behind the payloads before it.
proof fn lemma_placed_bytes(bytes: Seq<u8>, start: int, payloads: Seq<Payload>, k: int)
    requires
        0 <= start,
        0 <= k < payloads.len(),
        slots_within(bytes.len() as int, start, payloads),
    ensures
        ({
            let at = bytes.len() + total_len(payloads.take(k));
            &&& bytes.len() <= at
            &&& at + payloads[k].1.len() <= placed(bytes, start, payloads).len()
            &&& placed(bytes, start, payloads).subrange(at, at + payloads[k].1.len())
                == payloads[k].1
        }),
    decreases payloads.len(),
{
    let front = payloads.drop_last();
    let before = placed(bytes, start, front);
    let after = placed(bytes, start, payloads);
    let at = bytes.len() + total_len(payloads.take(k));
    let end = at + payloads[k].1.len();
    lemma_placed_len(bytes, start, front);
    lemma_total_len_nonneg(front);
    lemma_total_len_nonneg(payloads.take(k));
    assert(payloads.last() == payloads[payloads.len() - 1]);
    if k == payloads.len() - 1 {
        assert(payloads.take(k) =~= front);
    } else {
        assert forall|j: int| #![trigger front[j]] 0 <= j < front.len() implies front[j]
            == payloads[j] by {}
        assert(front.take(k) =~= payloads.take(k));
        lemma_placed_bytes(bytes, start, front, k);
        assert(after.subrange(at, end) =~= before.subrange(at, end));
    }
}

/// Bytes stored in fields that do not overlap are all read back once they are
/// placed, as long as the message stays under 2 GB: `bytes` holds their lengths,
/// in the second words of their fields.
pub proof fn law_payloads_read_back(bytes: Seq<u8>, start: int, payloads: Seq<Payload>, k: int)
    requires
        16 <= start,
        0 <= k < payloads.len(),
        forall|j: int|
            #![trigger payloads[j]]
            0 <= j < payloads.len() ==> 0 <= payloads[j].0 && start + payloads[j].0 + 8
                <= bytes.len(),
        forall|i: int, j: int|
            #![trigger payloads[i], payloads[j]]
            0 <= i < j < payloads.len() ==> payloads[i].0 + 8 <= payloads[j].0 || payloads[j].0 + 8
                <= payloads[i].0,
        payloads[k].1.len() > 0,
        bytes.subrange(start + payloads[k].0 + 4, start + payloads[k].0 + 8) == endian::le32(
            payloads[k].1.len() as int,
        ),
        bytes.len() + total_len(payloads) < 2147483648,
    ensures
        bytes_at(placed(bytes, start, payloads), start + payloads[k].0) == payloads[k].1,
{
    let at = start + payloads[k].0;
    let size = payloads[k].1.len() as int;
    let word = bytes.subrange(at + 4, at + 8);
    assert(at + 8 <= bytes.len());
    assert forall|i: int| 0 <= i < 4 implies bytes[at + 4 + i] == #[trigger] endian::le32(
        size,
    )[i] by {
        assert(bytes[at + 4 + i] == word[i]);
    }
    lemma_word_is(bytes, at + 4, size);
    lemma_total_len_take(payloads, k + 1);
    assert(payloads.take(k + 1).drop_last() =~= payloads.take(k));
    lemma_total_len_nonneg(payloads.take(k));
    assert(field_apart(payloads, k));
    law_payload_reads_back(bytes, start, payloads, k, placed(bytes, start, payloads));
}

/// The first payloads have no more bytes than all of them.
proof fn lemma_total_len_take(payloads: Seq<Payload>, n: int)
    requires
        0 <= n <= payloads.len(),
    ensures
        total_len(payloads.take(n)) <= total_len(payloads),
    decreases payloads.len() - n,
{
    if n < payloads.len() {
        lemma_total_len_take(payloads, n + 1);
        assert(payloads.take(n + 1).drop_last() =~= payloads.take(n));
    } else {
        assert(payloads.take(n) =~= payloads);
    }
}

} // verus!
