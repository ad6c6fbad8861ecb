//! Game logs shared as text: the bytes of a log are compressed with deflate
//! (level ten) and written in base64 without padding; loading reverses both
//! steps. Turning a log into bytes and back is left to the caller.
use vstd::prelude::*;
use base64::Engine;
use base64::engine::general_purpose::STANDARD_NO_PAD;
use crate::history::LoadError;

verus! {

/// `base64::DecodeError`, the error of a failed base64 decoding.
#[verifier::external_type_specification]
#[verifier::external_body]
pub struct ExDecodeError(base64::DecodeError);

/// `miniz_oxide::inflate::DecompressError`, the error of a failed inflate.
#[verifier::external_type_specification]
#[verifier::external_body]
pub struct ExDecompressError(miniz_oxide::inflate::DecompressError);

/// The bytes that the text `s` decodes to with the standard base64 alphabet
/// without padding, if it is such an encoding.
pub uninterp spec fn base64_decoded(s: Seq<char>) -> Option<Seq<u8>>;

/// The standard base64 text, without padding, of `b`.
pub uninterp spec fn base64_encoded(b: Seq<u8>) -> Seq<char>;

/// The data that the deflate stream `b` inflates to, if it is one.
pub uninterp spec fn inflated(b: Seq<u8>) -> Option<Seq<u8>>;

/// The deflate stream of `b` at compression level `level`.
pub uninterp spec fn deflated(b: Seq<u8>, level: u8) -> Seq<u8>;

/// `STANDARD_NO_PAD.decode` of base64 0.22: the bytes that `s` encodes, or
/// the error when it is not an encoding.
#[verifier::external_body]
fn decode_base64(s: &str) -> (r: Result<Vec<u8>, base64::DecodeError>)
    ensures
        match r {
            Ok(v) => base64_decoded(s@) == Some(v@),
            Err(_) => base64_decoded(s@).is_none(),
        },
{
    STANDARD_NO_PAD.decode(s)
}

/// `STANDARD_NO_PAD.encode` of base64 0.22: the encoding of `b`, which the
/// same engine decodes back to `b`. (A vector never holds more than
/// `isize::MAX` bytes, so the length computation inside cannot overflow.)
#[verifier::external_body]
fn encode_base64(b: &Vec<u8>) -> (s: String)
    ensures
        s@ == base64_encoded(b@),
        base64_decoded(s@) == Some(b@),
{
    STANDARD_NO_PAD.encode(b)
}

/// `miniz_oxide::inflate::decompress_to_vec`: the inflated data of `b`, or
/// the error when `b` is not a deflate stream.
#[verifier::external_body]
fn inflate(b: &Vec<u8>) -> (r: Result<Vec<u8>, miniz_oxide::inflate::DecompressError>)
    ensures
        match r {
            Ok(v) => inflated(b@) == Some(v@),
            Err(_) => inflated(b@).is_none(),
        },
{
    miniz_oxide::inflate::decompress_to_vec(b)
}

/// `miniz_oxide::deflate::compress_to_vec` at level `level` (zero to ten):
/// a deflate stream that inflates back to `b`.
#[verifier::external_body]
fn deflate(b: &Vec<u8>, level: u8) -> (v: Vec<u8>)
    requires
        level <= 10,
    ensures
        v@ == deflated(b@, level),
        inflated(v@) == Some(b@),
{
    miniz_oxide::deflate::compress_to_vec(b, level)
}

/// The bytes that a shared text stands for: its base64 decoding, inflated.
pub open spec fn shared_bytes(s: Seq<char>) -> Option<Seq<u8>> {
    match base64_decoded(s) {
        Some(b) => inflated(b),
        None => None,
    }
}

/// The bytes of a shared text, or `LoadError` when the text is not base64
/// or does not inflate.
pub fn load_bytes(s: &str) -> (r: Result<Vec<u8>, LoadError>)
    ensures
        match r {
            Ok(v) => shared_bytes(s@) == Some(v@),
            Err(_) => shared_bytes(s@).is_none(),
        },
{
    let k = match decode_base64(s) {
        Ok(k) => k,
        Err(_) => {
            return Err(LoadError);
        },
    };
    match inflate(&k) {
        Ok(v) => Ok(v),
        Err(_) => Err(LoadError),
    }
}

/// The shared text of `bytes`: deflated at level ten, then base64. Loading
/// it gives back `bytes`.
pub fn save_bytes(bytes: &Vec<u8>) -> (s: String)
    ensures
        s@ == base64_encoded(deflated(bytes@, 10)),
        shared_bytes(s@) == Some(bytes@),
{
    let k = deflate(bytes, 10);
    encode_base64(&k)
}

} // verus!
