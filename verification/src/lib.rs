//! Deterministic, cheap defenses against prompt injection for LLM-facing code.
//!
//! The user prompt runs through a layered pipeline: unicode normalization
//! (NFKC, zero-width and BiDi stripping, homoglyph folding), fence-marker
//! redaction, a multilingual phrase catalog, and base64/hex payload
//! detection; a decision step then accepts or refuses the result. Both parts
//! are finally wrapped in tagged framing.
//!
//! Every layer's contract states its result as a function of its input, and
//! `ArmorBuilder::build` states the whole run as the composition of those
//! functions.

pub mod armored;
pub mod builder;
pub mod catalog;
pub mod config;
pub mod decider;
pub mod error;
pub mod finding;
pub mod laws;
pub mod layers;
pub mod util;

pub use armored::{Armored, ArmoredPrompt};
pub use builder::{Armor, ArmorBuilder};
pub use config::{ArmorConfig, Framing, Policy};
pub use error::ArmorError;
pub use finding::{Encoding, Finding, FindingKind, Severity, UnicodeAnomaly};
