//! A self-describing structure-layout engine.
//!
//! A stored blob carries an encoded layout table (SDNA) describing the struct
//! layouts it was written under.  This crate decodes that table, indexes its
//! struct definitions by type name, reads the fixed-size block headers that
//! precede each stored record, and reconciles a byte buffer encoded under an
//! old struct definition into the shape of the current one: added fields are
//! zero-filled, removed fields are dropped, renamed types and members are
//! resolved through an alias table, and old-address fields are carried across
//! pointer-width changes as plain integers.

pub mod arena;
pub mod bhead;
pub mod errors;
pub mod ghash;
pub mod meshdata;
pub mod pool;
pub mod reconcile;
pub mod sdna;
pub mod wire;
