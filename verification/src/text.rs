//! Bytes as text. Both conversions are the standard library's.

use vstd::prelude::*;
use vstd::utf8::*;

verus! {

/// Declares `std::str::Utf8Error`, the error of `std::str::from_utf8`. Nothing
/// is said of it.
#[verifier::external_type_specification]
#[verifier::external_body]
pub struct ExUtf8Error(std::str::Utf8Error);

/// `std::str::from_utf8` succeeds on exactly the byte sequences that are valid
/// UTF-8, and then gives the text that they encode.
pub assume_specification[ std::str::from_utf8 ](v: &[u8]) -> (res: Result<
    &str,
    std::str::Utf8Error,
>)
    ensures
        res is Ok <==> valid_utf8(v@),
        res matches Ok(s) ==> s@ == decode_utf8(v@),
;

/// What `String::from_utf8_lossy` makes of bytes.
pub uninterp spec fn lossy_utf8(bytes: Seq<u8>) -> Seq<char>;

/// Calls `String::from_utf8_lossy`. Valid UTF-8 comes out as the text that it
/// encodes; of other bytes each invalid sequence is replaced by U+FFFD, so that
/// character occurs in the result. Which bytes count as one invalid sequence is
/// left unsaid.
#[verifier::external_body]
pub(crate) fn from_utf8_lossy(bytes: &[u8]) -> (res: String)
    ensures
        res@ == lossy_utf8(bytes@),
        valid_utf8(bytes@) ==> res@ == decode_utf8(bytes@),
        !valid_utf8(bytes@) ==> res@.contains('\u{fffd}'),
{
    String::from_utf8_lossy(bytes).into_owned()
}

/// Where the bytes of one text begin with the bytes of another, the text begins
/// with the other.
pub proof fn law_utf8_prefix(part: Seq<char>, whole: Seq<char>)
    requires
        encode_utf8(part).len() <= encode_utf8(whole).len(),
        encode_utf8(part) == encode_utf8(whole).take(encode_utf8(part).len() as int),
    ensures
        part.len() <= whole.len(),
        part == whole.take(part.len() as int),
    decreases part.len(),
{
    if part.len() > 0 {
        let (p, w) = (encode_utf8(part), encode_utf8(whole));
        encode_utf8_first_scalar(part);
        assert(p.len() >= 1);
        assert(whole.len() > 0);
        encode_utf8_first_scalar(whole);
        assert forall|i: int| 0 <= i < p.len() implies #[trigger] p[i] == w[i] by {
            assert(w.take(p.len() as int)[i] == w[i]);
        }
        assert(decode_first_scalar(p) == decode_first_scalar(w));
        char_u32_cast(part[0], part[0] as u32);
        char_u32_cast(whole[0], whole[0] as u32);
        assert(part[0] == whole[0]);
        let n = encode_scalar(part[0] as u32).len() as int;
        let (part_rest, whole_rest) = (part.drop_first(), whole.drop_first());
        let (pr, wr) = (encode_utf8(part_rest), encode_utf8(whole_rest));
        assert(pr =~= p.skip(n));
        assert(wr =~= w.skip(n));
        assert(pr =~= wr.take(pr.len() as int));
        law_utf8_prefix(part_rest, whole_rest);
        assert(part =~= whole.take(part.len() as int)) by {
            assert forall|i: int| 0 <= i < part.len() implies part[i] == whole[i] by {
                if i > 0 {
                    assert(part_rest[i - 1] == whole_rest.take(part_rest.len() as int)[i - 1]);
                }
            }
        }
    } else {
        assert(part =~= whole.take(0));
    }
}

} // verus!
