//! The library's error type.
use vstd::prelude::*;

verus! {

/// The outside type `std::io::Error`, held as an opaque value.
#[verifier::external_type_specification]
#[verifier::external_body]
pub struct ExIoError(std::io::Error);

/// The outside type `object::read::Error`, held as an opaque value.
#[verifier::external_type_specification]
#[verifier::external_body]
pub struct ExObjectError(object::read::Error);

/// The outside type `gimli::Error`, held as an opaque value.
#[verifier::external_type_specification]
#[verifier::external_body]
pub struct ExGimliError(gimli::Error);

/// The outside type `serde_json::Error`, held as an opaque value.
#[verifier::external_type_specification]
#[verifier::external_body]
pub struct ExJsonError(serde_json::Error);

/// Everything that can go wrong while loading or comparing binaries.
#[derive(Debug)]
pub enum BinateError {
    Io(std::io::Error),
    ObjectParse(object::read::Error),
    Dwarf(gimli::Error),
    UnsupportedArch(String),
    SectionNotFound(String),
    Json(serde_json::Error),
}

} // verus!
