//! Media catalog indexing and reconciliation engine.
//!
//! The crate keeps a catalog of media tracks, grouped into libraries, in sync
//! with the filesystem: a scan walks a library root, diffs the walked paths
//! against the stored tracks, removes what disappeared (together with the
//! playlist memberships that reference it) and inserts what is new.

pub mod decimal;
pub mod paths;
pub mod scan;
pub mod store;
pub mod track;
pub mod tracklist;
