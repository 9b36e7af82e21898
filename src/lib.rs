//! Link graph of a vault of markdown notes: wikilink parsing, target
//! normalization and resolution, graph and backlink computation, and the
//! path checks that keep file access inside the vault.

pub mod text;
pub mod wikilink;
pub mod paths;
pub mod order;
pub mod backlinks;
pub mod graph;
pub mod vault;
