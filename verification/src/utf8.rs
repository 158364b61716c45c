//! Records read as text.

use std::string::FromUtf8Error;
use vstd::prelude::*;
use vstd::utf8::{decode_utf8, valid_utf8};

verus! {

/// `std::string::FromUtf8Error`: says where bytes stop being UTF-8, and holds the
/// bytes.
#[verifier::external_type_specification]
#[verifier::external_body]
pub struct ExFromUtf8Error(std::string::FromUtf8Error);

/// The bytes that a `FromUtf8Error` holds: those that could not be read as text.
pub uninterp spec fn bytes_held(error: FromUtf8Error) -> Seq<u8>;

/// `String::from_utf8`: the text whose UTF-8 encoding the bytes are, or an error
/// where they are no such encoding. The error holds the bytes, as
/// `FromUtf8Error::into_bytes` gives them back. Nothing is claimed of what it says
/// about them.
#[verifier::external_body]
pub(crate) fn string_from_utf8(bytes: Vec<u8>) -> (text: Result<String, FromUtf8Error>)
    ensures
        match text {
            Ok(s) => valid_utf8(bytes@) && s@ == decode_utf8(bytes@),
            Err(e) => !valid_utf8(bytes@) && bytes_held(e) == bytes@,
        },
{
    String::from_utf8(bytes)
}

} // verus!
