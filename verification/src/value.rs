//! The property-list value tree that the extractor walks.

use vstd::prelude::*;

verus! {

/// Minimum size in bytes of a bookmark record: its fixed header alone is
/// 48 bytes, so anything shorter cannot be one.
pub const MIN_BOOKMARK_SIZE: usize = 48;

/// A property-list value, as a deserializer hands it over.
///
/// Only the variants the extractor inspects are kept apart; every other
/// plist kind (strings, integers, booleans, dates, ...) collapses into
/// `Other`, which the extractor deliberately skips.
#[derive(Debug)]
pub enum PlistValue {
    /// An ordered mapping from string keys to values, insertion order
    /// preserved.
    Dictionary(Vec<(String, PlistValue)>),
    /// An ordered sequence of values.
    Array(Vec<PlistValue>),
    /// An opaque byte payload.
    Data(Vec<u8>),
    /// Any other plist kind.
    Other,
}

impl PlistValue {
    /// The variant's name, for diagnostics.
    pub open spec fn spec_variant_name(self) -> Seq<char> {
        match self {
            PlistValue::Dictionary(_) => "dictionary"@,
            PlistValue::Array(_) => "array"@,
            PlistValue::Data(_) => "data"@,
            PlistValue::Other => "other"@,
        }
    }

    /// The variant's name, for diagnostics.
    pub fn variant_name(&self) -> (r: &'static str)
        ensures
            r@ == self.spec_variant_name(),
    {
        match self {
            PlistValue::Dictionary(_) => "dictionary",
            PlistValue::Array(_) => "array",
            PlistValue::Data(_) => "data",
            PlistValue::Other => "other",
        }
    }
}

} // verus!
