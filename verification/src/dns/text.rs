//! Functions of the standard library on text that the verifier's own
//! library does not specify.
//!
//! Nothing in this file is proved: each item states what the standard
//! library documents.

use vstd::prelude::*;
use vstd::utf8::{encode_utf8, valid_utf8};

verus! {

/// `core::str::Utf8Error`, which says where bytes stop being UTF-8. The
/// verifier sees nothing inside it.
#[verifier::external_type_specification]
#[verifier::external_body]
pub struct ExUtf8Error(core::str::Utf8Error);

/// `core::str::from_utf8`: succeeds on the byte sequences that are
/// well-formed UTF-8, and on no others; the string it gives is the text
/// whose encoding the bytes are.
pub assume_specification[ core::str::from_utf8 ](v: &[u8]) -> (r: Result<
    &str,
    core::str::Utf8Error,
>)
    ensures
        r is Ok <==> valid_utf8(v@),
        r matches Ok(s) ==> encode_utf8(s@) == v@,
;

/// `String::push`: appends one character.
pub assume_specification[ String::push ](s: &mut String, ch: char)
    ensures
        final(s)@ == old(s)@.push(ch),
;

} // verus!
