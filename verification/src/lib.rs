//! Extraction of embedded bookmark records from macOS login-items
//! property lists.
//!
//! A login-items file is a keyed archive: a dictionary whose `$objects`
//! entry holds the flattened graph of archived values as an array. Some of
//! those values are raw bookmark records (binary alias data); this crate
//! locates them and returns their bytes, in the order the array holds them.
//! Deserializing the file itself is left to the caller, who hands the
//! already-typed value tree over as a [`value::PlistValue`].

pub mod extract;
pub mod value;
