//! Per-builder configuration: thresholds, policies, framing.

use vstd::prelude::*;

verus! {

/// What a layer does with what it finds.
#[derive(Debug, Clone, Copy, PartialEq, Eq, Structural)]
pub enum Policy {
    /// Replace the finding with `[REDACTED:...]` and continue.
    Sanitize,
    /// Record the finding but do not mutate the text. The encoding layer
    /// still redacts a payload that decodes to a dangerous pattern; such a
    /// finding is Critical and refuses the input anyway.
    WarnOnly,
    /// Any finding of this kind makes the pipeline refuse the input.
    Strict,
}

/// How the final prompt pair is wrapped.
#[derive(Debug, Clone, Copy, PartialEq, Eq, Structural)]
pub enum Framing {
    /// Wrap system with `<system>...</system>` + data-not-instructions notice,
    /// wrap user with `<user_data>...</user_data>`.
    Tagged,
    /// No wrapping; return the sanitized strings verbatim.
    Bare,
}

/// Per-builder configuration: thresholds, policies, framing.
#[derive(Debug, Clone)]
pub struct ArmorConfig {
    /// Share of the input, in parts per million of its bytes, that
    /// sanitization may remove before the input is refused as unsalvageable
    /// (500_000 = 50%).
    pub max_signal_loss_ppm: u32,
    /// Hard cap on user input bytes; above it the input is refused without
    /// running the pipeline (DoS guard).
    pub max_input_bytes: usize,
    pub fence_policy: Policy,
    pub pattern_policy: Policy,
    pub encoding_policy: Policy,
    pub framing: Framing,
}

/// The default configuration: 50% signal loss, 1 MiB input cap, fence and
/// pattern findings sanitized, encoding findings only reported, tagged framing.
pub open spec fn default_config() -> ArmorConfig {
    ArmorConfig {
        max_signal_loss_ppm: 500_000,
        max_input_bytes: 1_048_576,
        fence_policy: Policy::Sanitize,
        pattern_policy: Policy::Sanitize,
        encoding_policy: Policy::WarnOnly,
        framing: Framing::Tagged,
    }
}

impl Default for ArmorConfig {
    fn default() -> (r: Self)
        ensures
            r == default_config(),
    {
        ArmorConfig {
            max_signal_loss_ppm: 500_000,
            max_input_bytes: 1_048_576,
            fence_policy: Policy::Sanitize,
            pattern_policy: Policy::Sanitize,
            encoding_policy: Policy::WarnOnly,
            framing: Framing::Tagged,
        }
    }
}

impl ArmorConfig {
    /// A field-by-field copy.
    pub fn copy(&self) -> (r: ArmorConfig)
        ensures
            r == *self,
    {
        ArmorConfig {
            max_signal_loss_ppm: self.max_signal_loss_ppm,
            max_input_bytes: self.max_input_bytes,
            fence_policy: self.fence_policy,
            pattern_policy: self.pattern_policy,
            encoding_policy: self.encoding_policy,
            framing: self.framing,
        }
    }
}

} // verus!
