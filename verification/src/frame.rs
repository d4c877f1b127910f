//! Framing: on a stream each message follows its length, a 32 bit word.

use crate::endian;
use crate::protocol::MAX_MESSAGE_SIZE;
use vstd::prelude::*;
use vstd::string::StringExecFns;

verus! {

/// The frame that carries `data`: its length, then the bytes.
pub open spec fn frame(data: Seq<u8>) -> Seq<u8> {
    endian::le32(data.len() as int) + data
}

/// What a reader makes of the four bytes before a message: how many bytes to
/// take, or that they are too many.
pub open spec fn announced(prefix: Seq<u8>) -> Result<usize, FrameTooLarge> {
    let length = endian::u32_at(prefix, 0);
    if length > MAX_MESSAGE_SIZE {
        Err(FrameTooLarge { length: length as usize })
    } else {
        Ok(length as usize)
    }
}

/// `n` in decimal.
pub open spec fn decimal(n: nat) -> Seq<char>
    decreases n,
{
    if n < 10 {
        seq![digit(n)]
    } else {
        decimal(n / 10).push(digit(n % 10))
    }
}

/// The digit that stands for `n`.
pub open spec fn digit(n: nat) -> char {
    ('0' as nat + n) as char
}

/// A frame announced a message longer than is accepted.
#[derive(Clone, Copy, Debug, PartialEq, Eq, Structural)]
pub struct FrameTooLarge {
    /// The announced length.
    pub length: usize,
}

impl FrameTooLarge {
    /// The error in words.
    pub fn message(&self) -> (res: String)
        ensures
            res@ == "ZAP message too large: "@ + decimal(self.length as nat) + " bytes"@,
    {
        let mut res = "ZAP message too large: ".to_string();
        res.append(to_decimal(self.length).as_str());
        res.append(" bytes");
        res
    }
}

/// Writes `n` in decimal.
fn to_decimal(n: usize) -> (res: String)
    ensures
        res@ == decimal(n as nat),
    decreases n,
{
    let last: &str = digit_str(n % 10);
    if n < 10 {
        last.to_string()
    } else {
        let mut res = to_decimal(n / 10);
        res.append(last);
        assert(res@ =~= decimal(n as nat));
        res
    }
}

/// The digit for `n` as a text.
fn digit_str(n: usize) -> (res: &'static str)
    requires
        n < 10,
    ensures
        res@ == seq![digit(n as nat)],
{
    let res: &'static str = match n {
        0 => "0",
        1 => "1",
        2 => "2",
        3 => "3",
        4 => "4",
        5 => "5",
        6 => "6",
        7 => "7",
        8 => "8",
        _ => "9",
    };
    proof {
        reveal_strlit("0");
        reveal_strlit("1");
        reveal_strlit("2");
        reveal_strlit("3");
        reveal_strlit("4");
        reveal_strlit("5");
        reveal_strlit("6");
        reveal_strlit("7");
        reveal_strlit("8");
        reveal_strlit("9");
        assert(res@ =~= seq![digit(n as nat)]);
    }
    res
}

/// What a writer sends before `data`: its length. Of a length past 32 bits only
/// the low 32 are sent.
pub fn frame_prefix(data: &[u8]) -> (res: [u8; 4])
    ensures
        res@ == endian::le32(data@.len() as int),
        res@ + data@ == frame(data@),
{
    proof {
        endian::law_le32_keeps_low_bits(data@.len() as int);
    }
    endian::to_le32(endian::low32(data.len()))
}

/// How many bytes a reader takes after `prefix`; a length past the limit is
/// refused.
pub fn frame_body_len(prefix: [u8; 4]) -> (res: Result<usize, FrameTooLarge>)
    ensures
        res == announced(prefix@),
        res is Ok <==> prefix@[0] + 256 * prefix@[1] + 65536 * prefix@[2] + 16777216 * prefix@[3]
            <= 10485760,
        res matches Ok(length) ==> length == prefix@[0] + 256 * prefix@[1] + 65536 * prefix@[2]
            + 16777216 * prefix@[3],
        res matches Err(e) ==> e.length == prefix@[0] + 256 * prefix@[1] + 65536 * prefix@[2]
            + 16777216 * prefix@[3],
{
    let length: usize = endian::read_u32(&prefix, 0) as usize;
    if length > MAX_MESSAGE_SIZE {
        return Err(FrameTooLarge { length });
    }
    Ok(length)
}

/// A reader gets back what a writer framed: it takes as many bytes as the
/// message has, those bytes are the message, and what is left of the stream is
/// what came after the frame.
pub proof fn law_frame_reads_back(data: Seq<u8>, rest: Seq<u8>)
    requires
        data.len() <= MAX_MESSAGE_SIZE,
    ensures
        announced((frame(data) + rest).take(4)) == Ok::<usize, FrameTooLarge>(data.len() as usize),
        (frame(data) + rest).subrange(4, 4int + data.len()) == data,
        (frame(data) + rest).skip(4int + data.len()) == rest,
{
    let stream = frame(data) + rest;
    endian::law_le32_reads_back(data.len() as int);
    assert(stream.take(4) =~= endian::le32(data.len() as int));
    assert(stream.subrange(4, 4int + data.len()) =~= data);
    assert(stream.skip(4int + data.len()) =~= rest);
}

/// A reader refuses every frame whose message is over the limit, as long as the
/// message's length fits 32 bits.
pub proof fn law_large_frame_refused(data: Seq<u8>, rest: Seq<u8>)
    requires
        MAX_MESSAGE_SIZE < data.len() <= u32::MAX,
    ensures
        announced((frame(data) + rest).take(4)) == Err::<usize, FrameTooLarge>(
            FrameTooLarge { length: data.len() as usize },
        ),
{
    endian::law_le32_reads_back(data.len() as int);
    assert((frame(data) + rest).take(4) =~= endian::le32(data.len() as int));
}

/// A frame is four bytes of length and then the message, unchanged.
pub proof fn law_frame_bytes(data: Seq<u8>)
    ensures
        frame(data).len() == 4 + data.len(),
        frame(data)[0] == data.len() % 256,
        frame(data)[1] == data.len() / 256 % 256,
        frame(data)[2] == data.len() / 65536 % 256,
        frame(data)[3] == data.len() / 16777216 % 256,
        frame(data).skip(4) == data,
{
    let len = endian::le32(data.len() as int);
    endian::law_stored_is_little_endian(data.len() as int);
    assert(frame(data)[0] == len[0]);
    assert(frame(data)[1] == len[1]);
    assert(frame(data)[2] == len[2]);
    assert(frame(data)[3] == len[3]);
    assert(frame(data).skip(4) =~= data);
}

/// Up to 10 MB the announced length is taken, and past that it is refused and
/// reported.
pub proof fn law_announced(prefix: Seq<u8>)
    ensures
        ({
            let length = prefix[0] + 256 * prefix[1] + 65536 * prefix[2] + 16777216 * prefix[3];
            &&& length <= 10485760 ==> announced(prefix) == Ok::<usize, FrameTooLarge>(
                length as usize,
            )
            &&& length > 10485760 ==> announced(prefix) == Err::<usize, FrameTooLarge>(
                FrameTooLarge { length: length as usize },
            )
        }),
{
}

/// Decimal digits: one for a number below ten, and else the digits of the number
/// without its last digit, and then that one. No number but zero starts with a
/// zero.
pub proof fn law_decimal(q: nat, d: nat)
    requires
        d < 10,
    ensures
        decimal(d).len() == 1,
        decimal(d)[0] as int == 48 + d,
        q > 0 ==> decimal(10 * q + d).drop_last() == decimal(q),
        q > 0 ==> decimal(10 * q + d).last() as int == 48 + d,
        q > 0 ==> decimal(q)[0] as int != 48,
    decreases q,
{
    if q > 0 {
        let n = 10 * q + d;
        assert(n / 10 == q && n % 10 == d);
        assert(decimal(n).drop_last() =~= decimal(q));
        if q >= 10 {
            law_decimal(q / 10, q % 10);
            lemma_decimal_len(q / 10);
            assert(decimal(q)[0] == decimal(q / 10)[0]);
        }
    }
}

/// Every number has a digit.
proof fn lemma_decimal_len(n: nat)
    ensures
        decimal(n).len() > 0,
    decreases n,
{
}

} // verus!
