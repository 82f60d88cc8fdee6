//! The [`Encode`] trait: how a value is laid out as bytes in memory.

use vstd::prelude::*;

use vstd::utf8::{decode_utf8, valid_utf8};

use crate::types::{DataSize, MSize, MemoryError};

verus! {

/// Encoding and decoding behaviour of the data types stored in memory.
///
/// Implementors describe their byte layout with the spec functions; the
/// executable methods must agree with them.
pub trait Encode: Sized {
    /// The bytes that [`Encode::encode`] produces for `self`.
    spec fn spec_encode(&self) -> Seq<u8>;

    /// The value that [`Encode::size`] returns for `self`.
    spec fn spec_size(&self) -> MSize;

    /// The size characteristic of the type.
    spec fn spec_data_size() -> DataSize;

    /// The alignment of the type in bytes.
    spec fn spec_alignment() -> MSize;

    /// `value` is what decoding `data` gives.
    spec fn spec_decodes(data: Seq<u8>, value: Self) -> bool;

    /// The error that decoding `data` gives, if decoding fails.
    spec fn spec_decode_error(data: Seq<u8>) -> Option<MemoryError>;

    /// The size characteristic of the data type: a fixed size in bytes, or dynamic.
    fn data_size() -> (r: DataSize)
        ensures
            r == Self::spec_data_size(),
    ;

    /// The alignment requirement in bytes for the data type.
    fn alignment() -> (r: MSize)
        ensures
            r == Self::spec_alignment(),
            r > 0,
    ;

    /// Encodes the value into bytes.
    fn encode(&self) -> (r: Vec<u8>)
        ensures
            r@ == self.spec_encode(),
    ;

    /// Decodes a value from bytes.
    fn decode(data: &[u8]) -> (r: Result<Self, MemoryError>)
        ensures
            match r {
                Ok(v) => Self::spec_decode_error(data@) is None && Self::spec_decodes(data@, v),
                Err(e) => Self::spec_decode_error(data@) == Some(e),
            },
    ;

    /// Returns the size in bytes of the encoded value.
    fn size(&self) -> (r: MSize)
        ensures
            r == self.spec_size(),
    ;
}

/// Builds a string from UTF-8 bytes with `String::from_utf8`; `None` when the
/// bytes are not valid UTF-8.
///
/// Trusted: the standard library documents that `from_utf8` succeeds exactly on
/// valid UTF-8 and then holds the decoded characters; this states it with
/// vstd's definitions of valid UTF-8 and of its decoding.
#[verifier::external_body]
pub(crate) fn string_from_utf8(bytes: Vec<u8>) -> (r: Option<String>)
    ensures
        match r {
            Some(s) => valid_utf8(bytes@) && s@ == decode_utf8(bytes@),
            None => !valid_utf8(bytes@),
        },
{
    String::from_utf8(bytes).ok()
}

/// `n` zero bytes.
pub open spec fn zeros(n: nat) -> Seq<u8> {
    Seq::new(n, |i: int| 0u8)
}

/// `mem` with `bytes` written at `at`.
pub open spec fn write_bytes(mem: Seq<u8>, at: int, bytes: Seq<u8>) -> Seq<u8> {
    mem.subrange(0, at) + bytes + mem.subrange(at + bytes.len(), mem.len() as int)
}

} // verus!
