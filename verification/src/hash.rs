//! Content hashing: the key under which the object store files a text.

use vstd::prelude::*;

verus! {

/// The BLAKE3 digest of the UTF-8 bytes of `content`, written as 64
/// lowercase hexadecimal digits.
pub uninterp spec fn blake3_hex(content: Seq<char>) -> Seq<char>;

/// Calls `blake3::hash` on the bytes of `content` and `Hash::to_hex` on the
/// digest. The digest is a function of the bytes alone; the contract gives
/// it the name [`blake3_hex`] and says nothing else of it.
#[verifier::external_body]
pub(crate) fn content_hash(content: &str) -> (h: String)
    ensures
        h@ == blake3_hex(content@),
{
    blake3::hash(content.as_bytes()).to_hex().to_string()
}

} // verus!
