//! Errors from loading and reading the catalog.

use vstd::prelude::*;

use crate::text::{decimal, push_decimal, push_str};

verus! {

/// Something went wrong opening or reading a catalog artifact.
///
/// Artifacts arrive over the network, so every failure here is expected to happen sooner or
/// later and none of them panic.
#[derive(Debug)]
pub enum CatalogError {
    /// The file could not be read; the message is the system's own.
    Io { path: String, message: String },
    /// The bytes are not a valid archive. Usually a truncated download.
    Corrupt(String),
    /// The artifact was written by a different version of the format.
    VersionMismatch { expected: u32, found: u32 },
    Serialize(String),
}

impl CatalogError {
    pub open spec fn message(&self) -> Seq<char> {
        match self {
            CatalogError::Io { path, .. } => "could not read catalog at "@ + path@,
            CatalogError::Corrupt(m) => "catalog is corrupt or not a catalog archive: "@ + m@,
            CatalogError::VersionMismatch { expected, found } => "catalog format version "@ + decimal(
                *found as nat,
            ) + " cannot be read by this build (expects "@ + decimal(*expected as nat)
                + "); download the matching artifact"@,
            CatalogError::Serialize(m) => "could not serialize catalog: "@ + m@,
        }
    }

    pub fn to_string(&self) -> (r: String)
        ensures
            r@ == self.message(),
    {
        let mut out = String::new();
        match self {
            CatalogError::Io { path, .. } => {
                push_str(&mut out, "could not read catalog at ");
                push_str(&mut out, path.as_str());
            },
            CatalogError::Corrupt(m) => {
                push_str(&mut out, "catalog is corrupt or not a catalog archive: ");
                push_str(&mut out, m.as_str());
            },
            CatalogError::VersionMismatch { expected, found } => {
                push_str(&mut out, "catalog format version ");
                push_decimal(&mut out, *found as u64);
                push_str(&mut out, " cannot be read by this build (expects ");
                push_decimal(&mut out, *expected as u64);
                push_str(&mut out, "); download the matching artifact");
            },
            CatalogError::Serialize(m) => {
                push_str(&mut out, "could not serialize catalog: ");
                push_str(&mut out, m.as_str());
            },
        }
        assert(out@ =~= self.message());
        out
    }
}

} // verus!
