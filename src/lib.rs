//! Package identifiers, resolved packages and the bookkeeping that a package
//! resolver needs: a single-flight result cache and dependency-cycle detection.
pub mod cache;
pub mod chain;
pub mod identifier;
pub mod package;

pub use cache::{CacheTable, Lookup, Slot};
pub use chain::ResolutionChain;
pub use identifier::{Locator, ParseError, WebcIdentifier};
pub use package::{FileSystemMapping, ResolvedCommand, ResolvedPackage, ResolverError};
