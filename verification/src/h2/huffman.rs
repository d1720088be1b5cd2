//! Huffman coding, as HPACK puts strings on the wire.

use httlib_huffman::EncoderError;
use vstd::prelude::*;

verus! {

/// The Huffman code of the bytes, if they have one.
pub uninterp spec fn huffman_code(bytes: Seq<u8>) -> Option<Seq<u8>>;

/// Huffman encodes `bytes` with [`httlib_huffman::encode`], which appends the
/// code to the vector it is handed, an empty one here. The code is a function
/// of the bytes alone. The table it looks them up in has an entry for every
/// byte, of 5 to 30 bits, so there is a code for all of them, of at most four
/// bytes for each, and only that of no bytes at all is empty.
///
/// No two strings of bytes share a code, as the one that is coded can be read
/// off it entry by entry. No entry is a prefix of another, nor of the 30 ones
/// that mark the end of a string, so none consists of ones alone. The last byte
/// is filled up with ones, seven at most, which are therefore no entry either.
/// What the code of a byte is is left unsaid.
#[verifier::external_body]
pub(crate) fn encode(bytes: &[u8]) -> (r: Result<Vec<u8>, EncoderError>)
    ensures
        match r {
            Ok(code) => {
                &&& huffman_code(bytes@) == Some(code@)
                &&& code@.len() <= 4 * bytes@.len()
                &&& bytes@.len() > 0 ==> code@.len() > 0
                &&& forall|other: Seq<u8>| #[trigger]
                    huffman_code(other) == Some(code@) ==> other == bytes@
            },
            Err(_) => false,
        },
{
    let mut code = Vec::new();
    httlib_huffman::encode(bytes, &mut code)?;
    Ok(code)
}

} // verus!
