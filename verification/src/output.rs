//! Packing a finished output buffer into the `String` the encoders return.

use crate::model::{encoding, encoding_bytes};
use vstd::prelude::*;

verus! {

/// Relies on `String::from_utf8`: a vector of ASCII bytes is valid UTF-8 and
/// decodes to the characters with the same code points.
#[verifier::external_body]
fn ascii_bytes_to_string(v: Vec<u8>) -> (r: String)
    requires
        forall|i: int| 0 <= i < v@.len() ==> v@[i] < 128,
    ensures
        r@ == v@.map_values(|b: u8| b as char),
{
    String::from_utf8(v).unwrap()
}

/// Turns a finished output buffer into the returned string. The buffer holds
/// only the two parenthesis bytes, so the string's characters carry exactly
/// the buffer's values.
pub(crate) fn finish(out: Vec<u8>, Ghost(s): Ghost<Seq<u8>>) -> (r: String)
    requires
        out@ == encoding_bytes(s),
    ensures
        r@ == encoding(s),
{
    proof {
        assert forall|i: int| 0 <= i < out@.len() implies out@[i] < 128 by {
            assert(out@[i] == encoding_bytes(s)[i]);
        }
    }
    ascii_bytes_to_string(out)
}

} // verus!
