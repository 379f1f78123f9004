//! Encoding normalization: Shift-JIS bytes to UTF-8 text.
//!
//! The decode policy is strict: a buffer containing any malformed byte
//! sequence is rejected with a `Decode` error rather than patched with
//! replacement characters. Empty input decodes to empty text.

use vstd::prelude::*;

use crate::error::Error;

verus! {

/// What decoding a byte buffer as Shift-JIS yields: the text, with each
/// malformed sequence replaced by U+FFFD, and whether any malformed
/// sequence occurred. The WHATWG decode algorithm this names is a function
/// of the bytes alone.
pub uninterp spec fn sjis_decode(bytes: Seq<u8>) -> (Seq<char>, bool);

/// Relies on `encoding_rs::Encoding::decode` on `SHIFT_JIS`: it implements
/// the (non-streaming) WHATWG decode concept — malformed sequences are
/// replaced with the replacement character, the flag reports whether any
/// occurred — and decoding an empty buffer yields empty text and no errors.
/// It panics only when the worst-case output size overflows `usize`, which
/// the length bound rules out.
#[verifier::external_body]
fn decode_shift_jis(bytes: &[u8]) -> (r: (String, bool))
    requires
        bytes@.len() <= usize::MAX / 8,
    ensures
        (r.0@, r.1) == sjis_decode(bytes@),
        bytes@.len() == 0 ==> r.0@.len() == 0 && !r.1,
{
    let (cow, _, had_errors) = encoding_rs::SHIFT_JIS.decode(bytes);
    (cow.into_owned(), had_errors)
}

/// Decodes a Shift-JIS byte buffer to UTF-8 text; any malformed byte
/// sequence fails the whole decode. The length bound is a machine limit of
/// the decoder's buffer arithmetic.
pub fn to_utf8(bytes: &[u8]) -> (r: Result<String, Error>)
    requires
        bytes@.len() <= usize::MAX / 8,
    ensures
        match r {
            Ok(s) => !sjis_decode(bytes@).1 && s@ == sjis_decode(bytes@).0,
            Err(e) => sjis_decode(bytes@).1 && e is Decode,
        },
        bytes@.len() == 0 ==> r is Ok && r->Ok_0@.len() == 0,
{
    let (s, had_errors) = decode_shift_jis(bytes);
    if had_errors {
        Err(Error::Decode(String::from_str("Shift-JIS to UTF-8 decoding error")))
    } else {
        Ok(s)
    }
}

} // verus!
