//! Text with provenance: a fragment rope whose characters keep a stable
//! logical identity across slicing and substitution, an append-only arena
//! for derived buffers, and a bidirectional relation between the identities
//! of source characters and the identities of the characters derived from
//! them.

pub mod arena;
pub mod pattern;
pub mod relation;
pub mod rope;
pub mod transforms;
