//! Startup parameters that define a named spool.

use std::path::PathBuf;
use vstd::prelude::*;

verus! {

/// `std::path::PathBuf`, carried through as an opaque value.
#[verifier::external_type_specification]
#[verifier::external_body]
pub struct ExPathBuf(PathBuf);

/// The storage backend behind a spool. Chosen at startup and fixed from then on.
#[derive(Clone, Copy, Debug, PartialEq, Eq, Structural)]
pub enum SpoolKind {
    /// One file per message under the spool's root path.
    LocalDisk,
    /// A single embedded ordered key-value store.
    RocksDB,
}

impl Default for SpoolKind {
    fn default() -> (kind: Self)
        ensures
            kind == SpoolKind::LocalDisk,
    {
        SpoolKind::LocalDisk
    }
}

/// The definition of one named spool.
pub struct DefineSpoolParams {
    pub name: String,
    pub path: PathBuf,
    pub kind: SpoolKind,
    pub flush: bool,
}

impl DefineSpoolParams {
    /// A definition with the default backend and lazy flushing, as when an
    /// operator gives only a name and a path.
    pub fn with_defaults(name: String, path: PathBuf) -> (params: Self)
        ensures
            params.name == name,
            params.path == path,
            params.kind == SpoolKind::LocalDisk,
            params.flush == false,
    {
        DefineSpoolParams { name, path, kind: SpoolKind::default(), flush: false }
    }
}

} // verus!
