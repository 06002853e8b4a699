//! Conversions from stored values to field values.
//!
//! A stored value converts to exactly the logical type its kind
//! names; everything else is rejected, carrying the offending value.
//! The optional forms additionally accept `Absent` as "no value".

use vstd::prelude::*;

use crate::error::ConvertError;
use crate::rowid::RowId;
use crate::values_indices::{DbVal, DbValue};

verus! {

impl DbValue {
    /// The UTF-8 bytes of a text value.
    pub fn into_text(self) -> (r: Result<Vec<u8>, ConvertError>)
        ensures
            match r {
                Ok(b) => self@ matches DbVal::Text(t) && b@ == t,
                Err(e) => !(self@ is Text) && (e matches ConvertError::CantConvert { from }
                    && from@ == self@),
            },
    {
        match self {
            DbValue::Text(t) => Ok(t),
            other => Err(ConvertError::CantConvert { from: other }),
        }
    }

    /// The bytes of a blob value.
    pub fn into_blob(self) -> (r: Result<Vec<u8>, ConvertError>)
        ensures
            match r {
                Ok(b) => self@ matches DbVal::Blob(t) && b@ == t,
                Err(e) => !(self@ is Blob) && (e matches ConvertError::CantConvert { from }
                    && from@ == self@),
            },
    {
        match self {
            DbValue::Blob(t) => Ok(t),
            other => Err(ConvertError::CantConvert { from: other }),
        }
    }

    /// The element bit patterns of a vector value.
    pub fn into_vector(self) -> (r: Result<Vec<u32>, ConvertError>)
        ensures
            match r {
                Ok(b) => self@ matches DbVal::Vector(e) && b@ == e,
                Err(e) => !(self@ is Vector) && (e matches ConvertError::CantConvert { from }
                    && from@ == self@),
            },
    {
        match self {
            DbValue::Vector(e) => Ok(e),
            other => Err(ConvertError::CantConvert { from: other }),
        }
    }

    /// The boolean of a boolean value.
    pub fn into_bool(self) -> (r: Result<bool, ConvertError>)
        ensures
            match r {
                Ok(b) => self@ == DbVal::Bool(b),
                Err(e) => !(self@ is Bool) && (e matches ConvertError::CantConvert { from }
                    && from@ == self@),
            },
    {
        match self {
            DbValue::Bool(b) => Ok(b),
            other => Err(ConvertError::CantConvert { from: other }),
        }
    }

    /// The number of an unsigned 32-bit value.
    pub fn into_u32(self) -> (r: Result<u32, ConvertError>)
        ensures
            match r {
                Ok(x) => self@ == DbVal::Uint32(x),
                Err(e) => !(self@ is Uint32) && (e matches ConvertError::CantConvert { from }
                    && from@ == self@),
            },
    {
        match self {
            DbValue::Uint32(x) => Ok(x),
            other => Err(ConvertError::CantConvert { from: other }),
        }
    }

    /// The number of an unsigned 64-bit value.
    pub fn into_u64(self) -> (r: Result<u64, ConvertError>)
        ensures
            match r {
                Ok(x) => self@ == DbVal::Uint64(x),
                Err(e) => !(self@ is Uint64) && (e matches ConvertError::CantConvert { from }
                    && from@ == self@),
            },
    {
        match self {
            DbValue::Uint64(x) => Ok(x),
            other => Err(ConvertError::CantConvert { from: other }),
        }
    }

    /// The number of a signed 32-bit value.
    pub fn into_i32(self) -> (r: Result<i32, ConvertError>)
        ensures
            match r {
                Ok(x) => self@ == DbVal::Int32(x),
                Err(e) => !(self@ is Int32) && (e matches ConvertError::CantConvert { from }
                    && from@ == self@),
            },
    {
        match self {
            DbValue::Int32(x) => Ok(x),
            other => Err(ConvertError::CantConvert { from: other }),
        }
    }

    /// The number of a signed 64-bit value.
    pub fn into_i64(self) -> (r: Result<i64, ConvertError>)
        ensures
            match r {
                Ok(x) => self@ == DbVal::Int64(x),
                Err(e) => !(self@ is Int64) && (e matches ConvertError::CantConvert { from }
                    && from@ == self@),
            },
    {
        match self {
            DbValue::Int64(x) => Ok(x),
            other => Err(ConvertError::CantConvert { from: other }),
        }
    }

    /// The IEEE 754 bit pattern of a single-precision value.
    pub fn into_float_bits(self) -> (r: Result<u32, ConvertError>)
        ensures
            match r {
                Ok(x) => self@ == DbVal::Float(x),
                Err(e) => !(self@ is Float) && (e matches ConvertError::CantConvert { from }
                    && from@ == self@),
            },
    {
        match self {
            DbValue::Float(x) => Ok(x),
            other => Err(ConvertError::CantConvert { from: other }),
        }
    }

    /// The IEEE 754 bit pattern of a double-precision value.
    pub fn into_double_bits(self) -> (r: Result<u64, ConvertError>)
        ensures
            match r {
                Ok(x) => self@ == DbVal::Double(x),
                Err(e) => !(self@ is Double) && (e matches ConvertError::CantConvert { from }
                    && from@ == self@),
            },
    {
        match self {
            DbValue::Double(x) => Ok(x),
            other => Err(ConvertError::CantConvert { from: other }),
        }
    }

    /// The row id of an id value.
    pub fn into_uuid(self) -> (r: Result<RowId, ConvertError>)
        ensures
            match r {
                Ok(id) => self@ matches DbVal::Uuid(b) && id@ == b,
                Err(e) => !(self@ is Uuid) && (e matches ConvertError::CantConvert { from }
                    && from@ == self@),
            },
    {
        match self {
            DbValue::Uuid(id) => Ok(id),
            other => Err(ConvertError::CantConvert { from: other }),
        }
    }

    /// The UTF-8 bytes of an optional text field: `Absent` reads as
    /// "no value".
    pub fn into_opt_text(self) -> (r: Result<Option<Vec<u8>>, ConvertError>)
        ensures
            match r {
                Ok(opt) => match opt {
                    Some(b) => self@ matches DbVal::Text(t) && b@ == t,
                    None => self@ is Absent,
                },
                Err(e) => !(self@ is Text) && !(self@ is Absent) && (
                e matches ConvertError::CantConvert { from } && from@ == self@),
            },
    {
        match self {
            DbValue::Text(t) => Ok(Some(t)),
            DbValue::Absent => Ok(None),
            other => Err(ConvertError::CantConvert { from: other }),
        }
    }

    /// The number of an optional unsigned 32-bit field.
    pub fn into_opt_u32(self) -> (r: Result<Option<u32>, ConvertError>)
        ensures
            match r {
                Ok(opt) => match opt {
                    Some(x) => self@ == DbVal::Uint32(x),
                    None => self@ is Absent,
                },
                Err(e) => !(self@ is Uint32) && !(self@ is Absent) && (
                e matches ConvertError::CantConvert { from } && from@ == self@),
            },
    {
        match self {
            DbValue::Uint32(x) => Ok(Some(x)),
            DbValue::Absent => Ok(None),
            other => Err(ConvertError::CantConvert { from: other }),
        }
    }

    /// The number of an optional unsigned 64-bit field.
    pub fn into_opt_u64(self) -> (r: Result<Option<u64>, ConvertError>)
        ensures
            match r {
                Ok(opt) => match opt {
                    Some(x) => self@ == DbVal::Uint64(x),
                    None => self@ is Absent,
                },
                Err(e) => !(self@ is Uint64) && !(self@ is Absent) && (
                e matches ConvertError::CantConvert { from } && from@ == self@),
            },
    {
        match self {
            DbValue::Uint64(x) => Ok(Some(x)),
            DbValue::Absent => Ok(None),
            other => Err(ConvertError::CantConvert { from: other }),
        }
    }

    /// The number of an optional signed 32-bit field.
    pub fn into_opt_i32(self) -> (r: Result<Option<i32>, ConvertError>)
        ensures
            match r {
                Ok(opt) => match opt {
                    Some(x) => self@ == DbVal::Int32(x),
                    None => self@ is Absent,
                },
                Err(e) => !(self@ is Int32) && !(self@ is Absent) && (
                e matches ConvertError::CantConvert { from } && from@ == self@),
            },
    {
        match self {
            DbValue::Int32(x) => Ok(Some(x)),
            DbValue::Absent => Ok(None),
            other => Err(ConvertError::CantConvert { from: other }),
        }
    }

    /// The number of an optional signed 64-bit field.
    pub fn into_opt_i64(self) -> (r: Result<Option<i64>, ConvertError>)
        ensures
            match r {
                Ok(opt) => match opt {
                    Some(x) => self@ == DbVal::Int64(x),
                    None => self@ is Absent,
                },
                Err(e) => !(self@ is Int64) && !(self@ is Absent) && (
                e matches ConvertError::CantConvert { from } && from@ == self@),
            },
    {
        match self {
            DbValue::Int64(x) => Ok(Some(x)),
            DbValue::Absent => Ok(None),
            other => Err(ConvertError::CantConvert { from: other }),
        }
    }

    /// The bit pattern of an optional single-precision field.
    pub fn into_opt_float_bits(self) -> (r: Result<Option<u32>, ConvertError>)
        ensures
            match r {
                Ok(opt) => match opt {
                    Some(x) => self@ == DbVal::Float(x),
                    None => self@ is Absent,
                },
                Err(e) => !(self@ is Float) && !(self@ is Absent) && (
                e matches ConvertError::CantConvert { from } && from@ == self@),
            },
    {
        match self {
            DbValue::Float(x) => Ok(Some(x)),
            DbValue::Absent => Ok(None),
            other => Err(ConvertError::CantConvert { from: other }),
        }
    }

    /// The bit pattern of an optional double-precision field.
    pub fn into_opt_double_bits(self) -> (r: Result<Option<u64>, ConvertError>)
        ensures
            match r {
                Ok(opt) => match opt {
                    Some(x) => self@ == DbVal::Double(x),
                    None => self@ is Absent,
                },
                Err(e) => !(self@ is Double) && !(self@ is Absent) && (
                e matches ConvertError::CantConvert { from } && from@ == self@),
            },
    {
        match self {
            DbValue::Double(x) => Ok(Some(x)),
            DbValue::Absent => Ok(None),
            other => Err(ConvertError::CantConvert { from: other }),
        }
    }
}

} // verus!
