//! Version-diff engine: report which compilation units were added, removed
//! or changed between consecutive content-distinct releases of an artifact.
//!
//! The engine is a total preorder over version strings ([`version`]), two
//! content indexers that reduce a release to a unit-to-fingerprint mapping
//! ([`jar`] and [`source`]), a set difference over two such mappings
//! ([`diff`]), a compaction scan that walks an ordered release list and
//! reports only transitions whose content actually changed ([`scan`]), and a
//! grouped, capped rendering of the changed units ([`group`]).  Fetching
//! releases over the network or from a repository clone is the caller's
//! concern; the engine works on bytes, paths and strings it is handed.

use vstd::prelude::*;

pub mod artifact;
pub mod diff;
pub mod group;
pub mod index;
pub mod jar;
pub mod metadata;
pub mod scan;
pub mod source;
pub mod strutil;
pub mod submodules;
pub mod version;

verus! {

} // verus!
