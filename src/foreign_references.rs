//! References from a record to other records, as the reference finder reports
//! them.

use vstd::prelude::*;

verus! {

/// Whether a reference points at another record or is the record's own identifier.
#[derive(Clone, Copy, Debug, PartialEq, Eq, Structural)]
pub enum RefKind {
    Foreign,
    Primary,
}

impl RefKind {
    /// The kind's name: `foreign` or `primary`.
    pub fn as_str(&self) -> (r: &'static str)
        ensures
            r@ == match *self {
                RefKind::Foreign => "foreign"@,
                RefKind::Primary => "primary"@,
            },
    {
        match self {
            RefKind::Foreign => "foreign",
            RefKind::Primary => "primary",
        }
    }
}

/// A reference found in a record.
#[derive(Debug, PartialEq)]
pub struct ForeignReference {
    /// The URI referred to.
    pub uri: String,
    /// The class of the record referred to.
    pub object_type: String,
    /// The URI of that class.
    pub object_type_uri: String,
    /// The slot that holds the reference.
    pub slot_name: String,
    /// The path of slots from the record's root to the reference.
    pub slot_path: Vec<String>,
    /// The kind of the reference.
    pub kind: RefKind,
}

} // verus!
