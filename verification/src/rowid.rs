//! Row identifiers: 16-byte primary keys.
//!
//! A row id is the byte form of a UUID.  The record layer never inspects
//! its structure; it only needs the two sentinel values that bracket every
//! possible id in byte order, and the exact 16-byte width that makes the id
//! a safe fixed-width suffix of every key.

use vstd::prelude::*;

use crate::byteorder::repeat_byte;
use crate::error::ExothermError;

verus! {

/// A 16-byte row identifier.
#[derive(Debug, Clone, PartialEq, Eq)]
pub struct RowId {
    bytes: Vec<u8>,
}

impl View for RowId {
    type V = Seq<u8>;

    closed spec fn view(&self) -> Seq<u8> {
        self.bytes@
    }
}

impl RowId {
    /// Every row id holds exactly 16 bytes.
    pub open spec fn wf(&self) -> bool {
        self@.len() == 16
    }

    /// The id whose bytes are all zero; the low sentinel on range
    /// endpoints.
    pub fn nil() -> (r: RowId)
        ensures
            r@ == repeat_byte(0, 16),
            r.wf(),
    {
        let bytes: Vec<u8> = vec![0u8; 16];
        proof {
            assert(bytes@ =~= repeat_byte(0, 16));
        }
        RowId { bytes }
    }

    /// The id whose bytes are all `0xff`; the high sentinel on range
    /// endpoints.
    pub fn max() -> (r: RowId)
        ensures
            r@ == repeat_byte(0xff, 16),
            r.wf(),
    {
        let bytes: Vec<u8> = vec![0xffu8; 16];
        proof {
            assert(bytes@ =~= repeat_byte(0xff, 16));
        }
        RowId { bytes }
    }

    /// Wraps 16 bytes as a row id.
    pub fn from_bytes(bytes: Vec<u8>) -> (r: RowId)
        requires
            bytes@.len() == 16,
        ensures
            r@ == bytes@,
            r.wf(),
    {
        RowId { bytes }
    }

    /// Reads a row id out of an index entry's payload; anything but
    /// exactly 16 bytes is rejected.
    pub fn from_slice(bytes: &Vec<u8>) -> (r: Result<RowId, ExothermError>)
        ensures
            bytes@.len() == 16 ==> (r matches Ok(id) && id@ == bytes@ && id.wf()),
            bytes@.len() != 16 ==> (r matches Err(e) && e is UuidParse),
    {
        if bytes.len() == 16 {
            Ok(RowId { bytes: crate::byteorder::copy_bytes(bytes) })
        } else {
            Err(ExothermError::UuidParse)
        }
    }

    /// A copy of the id that holds the same bytes.
    pub fn duplicate(&self) -> (r: RowId)
        ensures
            r@ == self@,
    {
        RowId { bytes: crate::byteorder::copy_bytes(&self.bytes) }
    }

    /// The bytes of the id.
    pub fn as_bytes(&self) -> (r: &Vec<u8>)
        ensures
            r@ == self@,
    {
        &self.bytes
    }

    /// Appends the id's bytes to a key under construction.
    pub fn append_to(&self, key: &mut Vec<u8>)
        ensures
            final(key)@ == old(key)@ + self@,
    {
        let mut i: usize = 0;
        while i < self.bytes.len()
            invariant
                i <= self.bytes@.len(),
                key@ == old(key)@ + self.bytes@.take(i as int),
            decreases self.bytes@.len() - i,
        {
            key.push(self.bytes[i]);
            proof {
                assert(old(key)@ + self.bytes@.take(i + 1) =~= (old(key)@ + self.bytes@.take(
                    i as int,
                )).push(self.bytes@[i as int]));
            }
            i += 1;
        }
        proof {
            assert(self.bytes@.take(self.bytes@.len() as int) =~= self.bytes@);
        }
    }

    /// Whether two ids hold the same bytes.
    pub fn same_as(&self, other: &RowId) -> (r: bool)
        ensures
            r == (self@ == other@),
    {
        crate::byteorder::bytes_eq(&self.bytes, &other.bytes)
    }
}

} // verus!
