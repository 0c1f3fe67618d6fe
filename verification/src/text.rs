//! Names as text.
//!
//! A name is stored as bytes of any origin. It is read as UTF-8 only where a
//! caller asks for text, and only there can it turn out not to be text.

use crate::error::GraphError;
use vstd::prelude::*;
use vstd::string::StringSliceAdditionalSpecFns;
use vstd::utf8::{decode_utf8, encode_utf8_decode_utf8, valid_utf8};

verus! {

/// The text of the name `bytes` of path `path`, or `InvalidUtf8` where the
/// bytes are not UTF-8.
pub open spec fn text_of(bytes: Seq<u8>, path: int) -> Result<Seq<char>, GraphError> {
    if valid_utf8(bytes) {
        Ok(decode_utf8(bytes))
    } else {
        Err(GraphError::InvalidUtf8 { path: path as u64 })
    }
}

/// `std::str::from_utf8`: the text of `bytes` where they are valid UTF-8,
/// nothing where they are not. The text, where there is one, has exactly the
/// bytes that were given.
#[verifier::external_body]
fn utf8_text<'a>(bytes: &'a [u8]) -> (text: Option<&'a str>)
    ensures
        text is Some <==> valid_utf8(bytes@),
        text matches Some(t) ==> t.spec_bytes() == bytes@,
{
    std::str::from_utf8(bytes).ok()
}

/// Reads the name `bytes` of path `path` as text: [`text_of`].
pub fn decode_text<'a>(bytes: &'a [u8], path: u64) -> (res: Result<&'a str, GraphError>)
    ensures
        match res {
            Ok(text) => text_of(bytes@, path as int) == Ok::<Seq<char>, GraphError>(text@),
            Err(e) => text_of(bytes@, path as int) == Err::<Seq<char>, GraphError>(e),
        },
{
    match utf8_text(bytes) {
        Some(text) => {
            proof {
                encode_utf8_decode_utf8(text@);
            }
            Ok(text)
        },
        None => Err(GraphError::InvalidUtf8 { path }),
    }
}

} // verus!
