//! Raw records: a value stored in a table page behind its 2-byte length.

use vstd::bytes::{
    lemma_auto_spec_u16_to_from_le_bytes, spec_u16_from_le_bytes, spec_u16_to_le_bytes,
    u16_from_le_bytes, u16_to_le_bytes,
};
use vstd::prelude::*;
use vstd::slice::slice_subrange;

use crate::encode::Encode;
use crate::types::{DataSize, DecodeError, MSize, MemoryError, DEFAULT_ALIGNMENT};

verus! {

/// Size in bytes of the length that precedes a record.
pub const RECORD_LEN_SIZE: MSize = 2;

/// A raw record stored in memory: its length, then its data.
pub struct RawRecord<E: Encode> {
    length: MSize,
    data: E,
}

/// The length announced by the first two bytes of `data`.
pub open spec fn announced_length(data: Seq<u8>) -> int {
    spec_u16_from_le_bytes(data.subrange(0, 2)) as int
}

impl<E: Encode> RawRecord<E> {
    /// The length of the record's data.
    pub closed spec fn spec_length(&self) -> MSize {
        self.length
    }

    /// The record's data.
    pub closed spec fn spec_data(&self) -> E {
        self.data
    }

    /// Creates a new raw record from the given data; its length is the size of
    /// the data.
    pub fn new(data: E) -> (r: Self)
        ensures
            r.spec_length() == data.spec_size(),
            r.spec_data() == data,
    {
        let length = data.size();
        RawRecord { length, data }
    }

    /// Returns the length of the record's data.
    pub fn length(&self) -> (r: MSize)
        ensures
            r == self.spec_length(),
    {
        self.length
    }

    /// Returns the record's data.
    pub fn data(&self) -> (r: &E)
        ensures
            *r == self.spec_data(),
    {
        &self.data
    }
}

impl<E: Encode> Encode for RawRecord<E> {
    open spec fn spec_encode(&self) -> Seq<u8> {
        spec_u16_to_le_bytes(self.spec_length()) + self.spec_data().spec_encode()
    }

    open spec fn spec_size(&self) -> MSize {
        RECORD_LEN_SIZE.saturating_add(self.spec_length())
    }

    open spec fn spec_data_size() -> DataSize {
        DataSize::Dynamic
    }

    open spec fn spec_alignment() -> MSize {
        DEFAULT_ALIGNMENT
    }

    open spec fn spec_decodes(data: Seq<u8>, value: Self) -> bool {
        &&& value.spec_length() == announced_length(data)
        &&& E::spec_decodes(data.subrange(2, 2 + announced_length(data)), value.spec_data())
    }

    open spec fn spec_decode_error(data: Seq<u8>) -> Option<MemoryError> {
        if data.len() < 2 || data.len() < 2 + announced_length(data) {
            Some(MemoryError::DecodeError(DecodeError::TooShort))
        } else {
            E::spec_decode_error(data.subrange(2, 2 + announced_length(data)))
        }
    }

    fn data_size() -> (r: DataSize) {
        DataSize::Dynamic
    }

    fn alignment() -> (r: MSize) {
        DEFAULT_ALIGNMENT
    }

    /// The size of the length plus the size of the data.
    fn size(&self) -> (r: MSize) {
        RECORD_LEN_SIZE.saturating_add(self.length)
    }

    fn encode(&self) -> (r: Vec<u8>) {
        let mut encoded = u16_to_le_bytes(self.length);
        let mut data = self.data.encode();
        encoded.append(&mut data);
        encoded
    }

    fn decode(data: &[u8]) -> (r: Result<Self, MemoryError>) {
        if data.len() < 2 {
            return Err(MemoryError::DecodeError(DecodeError::TooShort));
        }
        let length = u16_from_le_bytes(slice_subrange(data, 0, 2));
        if data.len() < 2 + length as usize {
            return Err(MemoryError::DecodeError(DecodeError::TooShort));
        }
        let data_slice = slice_subrange(data, 2, 2 + length as usize);
        let data_decoded = E::decode(data_slice)?;
        Ok(RawRecord { length, data: data_decoded })
    }
}

/// Decoding the bytes of a raw record, followed by anything, gives its length
/// back and decodes its data from exactly the data's bytes, provided that the
/// length is the number of bytes of the data.
pub proof fn lemma_raw_record_roundtrip<E: Encode>(record: RawRecord<E>, rest: Seq<u8>)
    requires
        record.spec_length() == record.spec_data().spec_encode().len(),
    ensures
        ({
            let bytes = record.spec_encode() + rest;
            let inner = record.spec_data().spec_encode();
            &&& RawRecord::<E>::spec_decode_error(bytes) == E::spec_decode_error(inner)
            &&& forall|v: RawRecord<E>|
                #[trigger] RawRecord::<E>::spec_decodes(bytes, v) <==> (v.spec_length()
                    == record.spec_length() && E::spec_decodes(inner, v.spec_data()))
        }),
{
    lemma_auto_spec_u16_to_from_le_bytes();
    let bytes = record.spec_encode() + rest;
    let inner = record.spec_data().spec_encode();
    assert(bytes.subrange(0, 2) =~= spec_u16_to_le_bytes(record.spec_length()));
    assert(bytes.subrange(2, 2 + inner.len() as int) =~= inner);
}

} // verus!
