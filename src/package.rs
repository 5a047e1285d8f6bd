//! What a resolution produces: commands, a default entrypoint and the volumes
//! that make up the package's filesystem.
use std::collections::BTreeMap;
use std::path::PathBuf;

use vstd::prelude::*;

use crate::identifier::WebcIdentifier;

verus! {

#[verifier::external_type_specification]
#[verifier::external_body]
pub struct ExCommand(webc::metadata::Command);

#[verifier::external_type_specification]
#[verifier::external_body]
pub struct ExVolume(webc::Volume);

/// Relies on the derived `Clone` of `webc::metadata::Command`: the copy is equal.
pub assume_specification[ <webc::metadata::Command as Clone>::clone ](command:
    &webc::metadata::Command) -> (r: webc::metadata::Command)
    ensures
        r == *command,
;

/// Relies on the derived `Clone` of `webc::Volume`, which shares the same
/// volume behind a reference count.
pub assume_specification[ <webc::Volume as Clone>::clone ](volume: &webc::Volume) -> (r:
    webc::Volume)
    ensures
        r == *volume,
;

/// A command that a package exposes, with the metadata the package declares for it.
#[derive(Debug, Clone, PartialEq, Eq)]
pub struct ResolvedCommand {
    pub metadata: webc::metadata::Command,
}

/// A volume and where it is mounted in the package's filesystem.
#[derive(Debug, Clone)]
pub struct FileSystemMapping {
    pub mount_path: PathBuf,
    pub volume: webc::Volume,
}

/// A package that is ready to run.
#[derive(Debug, Clone)]
pub struct ResolvedPackage {
    pub commands: BTreeMap<String, ResolvedCommand>,
    pub entrypoint: Option<String>,
    /// A mapping from paths to the volumes that should be mounted there. Later
    /// mappings shadow earlier ones where their paths overlap.
    pub filesystem: Vec<FileSystemMapping>,
}

/// Why a package could not be resolved.
#[derive(Debug, Clone)]
pub enum ResolverError {
    /// The identifier could not be found at its locator.
    UnknownPackage(WebcIdentifier),
    /// Any other failure (network, package data, I/O, a dependency cycle),
    /// described for diagnostics.
    Other(String),
}

} // verus!
