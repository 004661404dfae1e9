//! Output types: `Armored` (sanitized parts and findings) and
//! `ArmoredPrompt` (the final pair sent to the LLM).

use vstd::prelude::*;
use crate::config::Framing;
use crate::finding::{copy_findings, finding_views, Finding, FindingView};
use crate::layers::fence::{framed_system, framed_user, framing_wrap};

verus! {

/// The final prompt pair, with the findings as warnings.
#[derive(Debug, Clone)]
pub struct ArmoredPrompt {
    pub system: String,
    pub user: String,
    pub warnings: Vec<Finding>,
}

/// Sanitized system and user text, the findings, and the framing to apply.
#[derive(Debug, Clone)]
pub struct Armored {
    pub system_sanitized: String,
    pub user_sanitized: String,
    pub findings: Vec<Finding>,
    pub framing: Framing,
}

/// Mathematical model of an [`Armored`].
pub struct ArmoredView {
    pub system: Seq<char>,
    pub user: Seq<char>,
    pub findings: Seq<FindingView>,
    pub framing: Framing,
}

/// Mathematical model of an [`ArmoredPrompt`].
pub struct PromptView {
    pub system: Seq<char>,
    pub user: Seq<char>,
    pub warnings: Seq<FindingView>,
}

impl View for Armored {
    type V = ArmoredView;

    open spec fn view(&self) -> ArmoredView {
        ArmoredView {
            system: self.system_sanitized@,
            user: self.user_sanitized@,
            findings: finding_views(self.findings@),
            framing: self.framing,
        }
    }
}

impl View for ArmoredPrompt {
    type V = PromptView;

    open spec fn view(&self) -> PromptView {
        PromptView { system: self.system@, user: self.user@, warnings: finding_views(self.warnings@) }
    }
}

/// The prompt pair rendered from `a`: tagged framing wraps both parts, bare
/// framing passes them through; the findings become the warnings.
pub open spec fn rendered(a: ArmoredView) -> PromptView {
    match a.framing {
        Framing::Tagged => PromptView {
            system: framed_system(a.system),
            user: framed_user(a.user),
            warnings: a.findings,
        },
        Framing::Bare => PromptView { system: a.system, user: a.user, warnings: a.findings },
    }
}

impl Armored {
    /// Render the final prompt pair. Cheap and deterministic: every call on
    /// the same value gives the same pair.
    pub fn render(&self) -> (p: ArmoredPrompt)
        ensures
            p@ == rendered(self@),
            p@.warnings == self@.findings,
    {
        let (system, user) = match self.framing {
            Framing::Tagged => framing_wrap(self.system_sanitized.as_str(), self.user_sanitized.as_str()),
            Framing::Bare => (self.system_sanitized.clone(), self.user_sanitized.clone()),
        };
        ArmoredPrompt { system, user, warnings: copy_findings(self.findings.as_slice()) }
    }

    /// The findings of every layer, in pipeline order.
    pub fn findings(&self) -> (r: &[Finding])
        ensures
            r@ == self.findings@,
    {
        self.findings.as_slice()
    }
}

} // verus!
