//! Errors surfaced by the record layer.

use vstd::prelude::*;

use crate::values_indices::DbValue;

verus! {

/// A stored value did not have the logical kind its field declares.
/// Carries the value that was found.
#[derive(Debug)]
pub enum ConvertError {
    CantConvert { from: DbValue },
}

/// Everything the record layer can report to a caller.
#[derive(Debug)]
pub enum ExothermError {
    /// A key was asked for while the tenant is still the unset sentinel.
    TenantError,
    /// A query was submitted over a key whose purpose is not an index.
    IndexKeyError,
    /// A bounded query named two different index columns.
    UnequalColumns,
    /// A stored corpus could not be read back as a value vector.
    Serialization,
    /// An index entry's payload is not a 16-byte row id.
    UuidParse,
    /// A field of a decoded row did not convert to its declared kind.
    RowDecode(ConvertError),
}

impl ExothermError {
    /// A short description, for callers that want to print the error.
    pub fn describe(&self) -> (r: &'static str)
        ensures
            r@.len() > 0,
    {
        let s = match self {
            ExothermError::TenantError => "a tenant must be set before a key can be generated",
            ExothermError::IndexKeyError => "queries need an index key, not a row key",
            ExothermError::UnequalColumns => "a bounded query cannot span different columns",
            ExothermError::Serialization => "the stored corpus bytes are malformed",
            ExothermError::UuidParse => "an index entry does not hold a 16-byte row id",
            ExothermError::RowDecode(_) => "a stored value does not match its declared kind",
        };
        proof {
            reveal_strlit("a tenant must be set before a key can be generated");
            reveal_strlit("queries need an index key, not a row key");
            reveal_strlit("a bounded query cannot span different columns");
            reveal_strlit("the stored corpus bytes are malformed");
            reveal_strlit("an index entry does not hold a 16-byte row id");
            reveal_strlit("a stored value does not match its declared kind");
        }
        s
    }
}

} // verus!
