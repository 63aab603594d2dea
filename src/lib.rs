//! Converts provisioning documents between two forms: one where file contents
//! are embedded inline as data URLs, and one where each content lives in a
//! separate file and the document holds a placeholder that refers to it.
//!
//! - `tree`: the document tree (`Node`) and its model (`Json`).
//! - `codec`: inline content and placeholders.
//! - `location`: where external content lives under the root.
//! - `extract`: disassembly, the walker that takes inline content out.
//! - `embed`: assembly, the walker that puts external content back.
//! - `defaults`: stripping of default-valued fields.
//! - `target`: what to do with an output target that already exists.
//! - `laws`: round trip, idempotence, fan-out, naming and containment.
pub mod tree;
pub mod text;
pub mod codec;
pub mod error;
pub mod location;
pub mod extract;
pub mod embed;
pub mod defaults;
pub mod target;
pub mod laws;
