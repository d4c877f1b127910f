//! Little-endian integers, and the two edits that build a buffer: overwriting
//! a run of bytes in place and extending with zeros.

use vstd::prelude::*;

verus! {

/// The 16 bit word stored at `at`, least significant byte first.
pub open spec fn u16_at(bytes: Seq<u8>, at: int) -> int {
    bytes[at] + 0x100 * bytes[at + 1]
}

/// The 32 bit word stored at `at`, least significant byte first.
pub open spec fn u32_at(bytes: Seq<u8>, at: int) -> int {
    bytes[at] + 0x100 * bytes[at + 1] + 0x1_0000 * bytes[at + 2] + 0x100_0000 * bytes[at + 3]
}

/// The number that the low 32 bits of `n` stand for in two's complement.
pub open spec fn signed32(n: int) -> int {
    let low = n % 0x1_0000_0000;
    if low < 0x8000_0000 {
        low
    } else {
        low - 0x1_0000_0000
    }
}

/// Byte `i` of `n`, counted from the least significant one; a negative `n`
/// counts in two's complement.
pub open spec fn byte_of(n: int, i: int) -> u8 {
    if i == 0 {
        (n % 0x100) as u8
    } else if i == 1 {
        (n / 0x100 % 0x100) as u8
    } else if i == 2 {
        (n / 0x1_0000 % 0x100) as u8
    } else {
        (n / 0x100_0000 % 0x100) as u8
    }
}

/// The low 16 bits of `n` as two bytes.
pub open spec fn le16(n: int) -> Seq<u8> {
    Seq::new(2, |i: int| byte_of(n, i))
}

/// The low 32 bits of `n` as four bytes.
pub open spec fn le32(n: int) -> Seq<u8> {
    Seq::new(4, |i: int| byte_of(n, i))
}

/// `bytes` with the run that starts at `at` replaced by `data`.
pub open spec fn overwrite(bytes: Seq<u8>, at: int, data: Seq<u8>) -> Seq<u8> {
    Seq::new(
        bytes.len(),
        |i: int|
            if at <= i < at + data.len() {
                data[i - at]
            } else {
                bytes[i]
            },
    )
}

/// `count` zero bytes.
pub open spec fn zeros(count: int) -> Seq<u8> {
    Seq::new(
        if count > 0 {
            count as nat
        } else {
            0
        },
        |i: int| 0u8,
    )
}

/// `bytes`, extended with zeros where it is shorter than `len`.
pub open spec fn zero_extended(bytes: Seq<u8>, len: int) -> Seq<u8> {
    bytes + zeros(len - bytes.len())
}

/// In a word that is read, the first byte counts ones and each further byte 256
/// times what the one before it counts.
pub proof fn law_read_is_little_endian(bytes: Seq<u8>, at: int)
    ensures
        u16_at(bytes, at) == bytes[at] + 256 * bytes[at + 1],
        u32_at(bytes, at) == bytes[at] + 256 * bytes[at + 1] + 65536 * bytes[at + 2] + 16777216
            * bytes[at + 3],
{
}

/// In a word that is stored, byte `i` is the digit of the number that counts
/// powers of 256.
pub proof fn law_stored_is_little_endian(n: int)
    ensures
        le16(n).len() == 2,
        le16(n)[0] == n % 256,
        le16(n)[1] == n / 256 % 256,
        le32(n).len() == 4,
        le32(n)[0] == n % 256,
        le32(n)[1] == n / 256 % 256,
        le32(n)[2] == n / 65536 % 256,
        le32(n)[3] == n / 16777216 % 256,
{
}

/// Raising one byte of a word by `by` raises the word by that many of what the
/// byte counts, and a word of zeros is zero.
pub proof fn law_byte_weight(bytes: Seq<u8>, at: int, by: int)
    requires
        0 <= at,
        at + 4 <= bytes.len(),
    ensures
        0 <= bytes[at] + by < 256 ==> u32_at(bytes.update(at, (bytes[at] + by) as u8), at)
            == u32_at(bytes, at) + by,
        0 <= bytes[at + 1] + by < 256 ==> u32_at(
            bytes.update(at + 1, (bytes[at + 1] + by) as u8),
            at,
        ) == u32_at(bytes, at) + 256 * by,
        0 <= bytes[at + 2] + by < 256 ==> u32_at(
            bytes.update(at + 2, (bytes[at + 2] + by) as u8),
            at,
        ) == u32_at(bytes, at) + 65536 * by,
        0 <= bytes[at + 3] + by < 256 ==> u32_at(
            bytes.update(at + 3, (bytes[at + 3] + by) as u8),
            at,
        ) == u32_at(bytes, at) + 16777216 * by,
        (forall|i: int| at <= i < at + 4 ==> bytes[i] == 0) ==> u32_at(bytes, at) == 0,
{
}

/// A number taken in two's complement lies in the signed 32 bit range and
/// differs from the number by a multiple of 2^32; there is only one such.
pub proof fn law_signed32_is_congruent(n: int)
    ensures
        -2147483648 <= signed32(n) < 2147483648,
        (signed32(n) - n) % 4294967296 == 0,
{
}

/// Overwriting puts `data` at `at`, changes nothing else, and keeps the length.
pub proof fn law_overwrite(bytes: Seq<u8>, at: int, data: Seq<u8>)
    requires
        0 <= at,
        at + data.len() <= bytes.len(),
    ensures
        overwrite(bytes, at, data).len() == bytes.len(),
        overwrite(bytes, at, data).subrange(at, at + data.len()) == data,
        overwrite(bytes, at, data).take(at) == bytes.take(at),
        overwrite(bytes, at, data).skip(at + data.len()) == bytes.skip(at + data.len()),
{
    let after = overwrite(bytes, at, data);
    assert(after.subrange(at, at + data.len()) =~= data);
    assert(after.take(at) =~= bytes.take(at));
    assert(after.skip(at + data.len()) =~= bytes.skip(at + data.len()));
}

/// Extending keeps every byte that was there, reaches `len` where the bytes were
/// shorter, and adds zeros only.
pub proof fn law_zero_extended(bytes: Seq<u8>, len: int)
    ensures
        bytes.len() >= len ==> zero_extended(bytes, len) == bytes,
        bytes.len() < len ==> zero_extended(bytes, len).len() == len,
        zero_extended(bytes, len).take(bytes.len() as int) == bytes,
        forall|i: int|
            bytes.len() <= i < zero_extended(bytes, len).len() ==> #[trigger] zero_extended(
                bytes,
                len,
            )[i] == 0,
        len >= 0 ==> zeros(len).len() == len,
        forall|i: int| 0 <= i < len ==> #[trigger] zeros(len)[i] == 0,
{
    let after = zero_extended(bytes, len);
    if bytes.len() >= len {
        assert(after =~= bytes);
    }
    assert(after.take(bytes.len() as int) =~= bytes);
}

/// What is stored as a 32 bit word reads back as the low 32 bits of the number.
pub proof fn law_le32_reads_back(n: int)
    ensures
        le32(n).len() == 4,
        u32_at(le32(n), 0) == n % 0x1_0000_0000,
{
    let (q1, q2, q3, q4) = (n / 0x100, n / 0x1_0000, n / 0x100_0000, n / 0x1_0000_0000);
    assert(q2 == q1 / 0x100);
    assert(q3 == q2 / 0x100);
    assert(q4 == q3 / 0x100);
    assert(n == n % 0x100 + 0x100 * q1);
    assert(q1 == q1 % 0x100 + 0x100 * q2);
    assert(q2 == q2 % 0x100 + 0x100 * q3);
    assert(q3 == q3 % 0x100 + 0x100 * q4);
}

/// What is stored as a 16 bit word reads back as the low 16 bits of the number.
pub proof fn law_le16_reads_back(n: int)
    ensures
        le16(n).len() == 2,
        u16_at(le16(n), 0) == n % 0x1_0000,
{
}

/// A 32 bit word that is read and stored again gives the same four bytes.
pub proof fn law_u32_stores_back(bytes: Seq<u8>, at: int)
    requires
        0 <= at,
        at + 4 <= bytes.len(),
    ensures
        le32(u32_at(bytes, at)) == bytes.subrange(at, at + 4),
{
    let n = u32_at(bytes, at);
    let (b0, b1, b2, b3) = (
        bytes[at] as int,
        bytes[at + 1] as int,
        bytes[at + 2] as int,
        bytes[at + 3] as int,
    );
    assert(n / 0x100_0000 == b3);
    assert(n / 0x1_0000 == b2 + 0x100 * b3);
    assert(n / 0x100 == b1 + 0x100 * b2 + 0x1_0000 * b3);
    assert((b2 + 0x100 * b3) % 0x100 == b2);
    assert((b1 + 0x100 * b2 + 0x1_0000 * b3) % 0x100 == b1);
    assert(n % 0x100 == b0);
    assert(le32(n) =~= bytes.subrange(at, at + 4));
}

/// Only the low 32 bits of a number reach the bytes that are stored.
pub proof fn law_le32_keeps_low_bits(n: int)
    ensures
        le32(n % 0x1_0000_0000) == le32(n),
{
    let low = n % 0x1_0000_0000;
    let high = n / 0x1_0000_0000;
    assert(n == low + 0x1_0000_0000 * high);
    assert(byte_of(n, 0) == byte_of(low, 0)) by {
        assert(n % 0x100 == low % 0x100);
    }
    assert(byte_of(n, 1) == byte_of(low, 1)) by {
        assert(n / 0x100 == low / 0x100 + 0x100_0000 * high);
    }
    assert(byte_of(n, 2) == byte_of(low, 2)) by {
        assert(n / 0x1_0000 == low / 0x1_0000 + 0x1_0000 * high);
    }
    assert(byte_of(n, 3) == byte_of(low, 3)) by {
        assert(n / 0x100_0000 == low / 0x100_0000 + 0x100 * high);
    }
    assert forall|i: int| 0 <= i < 4 implies #[trigger] le32(low)[i] == le32(n)[i] by {
        assert(i == 0 || i == 1 || i == 2 || i == 3);
    }
    assert(le32(low) =~= le32(n));
}

/// The distance between two positions keeps its low 32 bits when the positions
/// are taken as signed 32 bit numbers.
pub proof fn law_signed32_distance(a: int, b: int)
    ensures
        (signed32(a) - signed32(b)) % 0x1_0000_0000 == (a - b) % 0x1_0000_0000,
{
    let (low_a, high_a) = (a % 0x1_0000_0000, a / 0x1_0000_0000);
    let (low_b, high_b) = (b % 0x1_0000_0000, b / 0x1_0000_0000);
    assert(a == low_a + 0x1_0000_0000 * high_a);
    assert(b == low_b + 0x1_0000_0000 * high_b);
}

/// A distance that fits 32 bits keeps its sign when it is stored and read back,
/// and is not null unless it is zero.
pub proof fn law_signed32_of_stored(n: int)
    requires
        i32::MIN <= n <= i32::MAX,
    ensures
        signed32(n) == n,
        signed32(n % 0x1_0000_0000) == n,
        n % 0x1_0000_0000 == 0 <==> n == 0,
{
    if n >= 0 {
        assert(n % 0x1_0000_0000 == n);
    } else {
        assert(n % 0x1_0000_0000 == n + 0x1_0000_0000);
    }
}

/// Splits a 16 bit word into its bytes.
pub(crate) fn to_le16(v: u16) -> (res: [u8; 2])
    ensures
        res@ == le16(v as int),
{
    [(v % 0x100) as u8, (v / 0x100) as u8]
}

/// Splits a 32 bit word into its bytes.
pub(crate) fn to_le32(v: u32) -> (res: [u8; 4])
    ensures
        res@ == le32(v as int),
{
    [
        (v % 0x100) as u8,
        (v / 0x100 % 0x100) as u8,
        (v / 0x1_0000 % 0x100) as u8,
        (v / 0x100_0000) as u8,
    ]
}

/// The low 32 bits of a length or position.
pub(crate) fn low32(n: usize) -> (res: u32)
    ensures
        res == n as int % 0x1_0000_0000,
{
    (n as u64 % 0x1_0000_0000) as u32
}

/// Reads the 16 bit word at `at`.
pub(crate) fn read_u16(bytes: &[u8], at: usize) -> (res: u16)
    requires
        at + 2 <= bytes@.len(),
    ensures
        res == u16_at(bytes@, at as int),
{
    bytes[at] as u16 + 0x100 * (bytes[at + 1] as u16)
}

/// Reads the 32 bit word at `at`.
pub(crate) fn read_u32(bytes: &[u8], at: usize) -> (res: u32)
    requires
        at + 4 <= bytes@.len(),
    ensures
        res == u32_at(bytes@, at as int),
{
    bytes[at] as u32 + 0x100 * (bytes[at + 1] as u32) + 0x1_0000 * (bytes[at + 2] as u32)
        + 0x100_0000 * (bytes[at + 3] as u32)
}

/// Takes a 32 bit word as a number in two's complement.
pub(crate) fn to_signed32(v: u32) -> (res: i32)
    ensures
        res == signed32(v as int),
{
    if v < 0x8000_0000 {
        v as i32
    } else {
        (v as i64 - 0x1_0000_0000) as i32
    }
}

/// Takes a number in two's complement as a 32 bit word.
pub(crate) fn to_unsigned32(v: i32) -> (res: u32)
    ensures
        res == v as int % 0x1_0000_0000,
{
    if v >= 0 {
        v as u32
    } else {
        (v as i64 + 0x1_0000_0000) as u32
    }
}

/// The distance from `from` to `to`, both taken as signed 32 bit numbers.
pub(crate) fn distance32(to: usize, from: usize) -> (res: [u8; 4])
    requires
        i32::MIN <= signed32(to as int) - signed32(from as int) <= i32::MAX,
    ensures
        res@ == le32(to - from),
{
    let (to_low, from_low): (u32, u32) = (low32(to), low32(from));
    let (to_signed, from_signed): (i32, i32) = (to_signed32(to_low), to_signed32(from_low));
    assert(to_signed == signed32(to as int));
    assert(from_signed == signed32(from as int));
    let rel_offset: i32 = to_signed - from_signed;
    let word: u32 = to_unsigned32(rel_offset);
    proof {
        law_signed32_distance(to as int, from as int);
        assert(word as int == (to - from) % 0x1_0000_0000);
        law_le32_keeps_low_bits(to - from);
    }
    to_le32(word)
}

/// Replaces the run of `buf` that starts at `at` by `data`.
pub(crate) fn copy_into(buf: &mut Vec<u8>, at: usize, data: &[u8])
    requires
        at + data@.len() <= old(buf)@.len(),
    ensures
        final(buf)@ == overwrite(old(buf)@, at as int, data@),
{
    let len: usize = data.len();
    for i in 0..len
        invariant
            len == data@.len(),
            at + len <= buf.len(),
            buf@ == overwrite(old(buf)@, at as int, data@.take(i as int)),
    {
        buf[at + i] = data[i];
    }
    assert(data@.take(len as int) == data@);
}

} // verus!
