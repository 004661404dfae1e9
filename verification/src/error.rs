//! The single error type returned from the armor pipeline.

use vstd::prelude::*;
use crate::finding::{finding_views, Finding, FindingView};
use crate::util::{decimal, push_decimal};
use vstd::string::StringExecFns;

verus! {

/// Why the pipeline refused an input.
#[derive(Debug, Clone)]
pub enum ArmorError {
    /// The input was too adversarial to forward: a Critical finding, a
    /// finding under a `Strict` policy, or too much of it sanitized away.
    /// `original_len` and `sanitized_len` are the byte lengths of the user
    /// input before and after the pipeline; the share of signal lost is
    /// `1 - sanitized_len / original_len` (0 for an empty input).
    Unsalvageable { findings: Vec<Finding>, original_len: usize, sanitized_len: usize },
    /// The user input is empty.
    EmptyInput,
    /// The user input is longer than the configured cap (DoS guard).
    InputTooLarge { actual: usize, limit: usize },
}

/// Mathematical model of an [`ArmorError`].
pub enum ErrorView {
    Unsalvageable(Seq<FindingView>, usize, usize),
    EmptyInput,
    InputTooLarge(usize, usize),
}

impl View for ArmorError {
    type V = ErrorView;

    open spec fn view(&self) -> ErrorView {
        match self {
            ArmorError::Unsalvageable { findings, original_len, sanitized_len } => ErrorView::Unsalvageable(
                finding_views(findings@),
                *original_len,
                *sanitized_len,
            ),
            ArmorError::EmptyInput => ErrorView::EmptyInput,
            ArmorError::InputTooLarge { actual, limit } => ErrorView::InputTooLarge(*actual, *limit),
        }
    }
}

/// Tenths of a percent of the input lost to sanitization, rounded half up;
/// 0 when nothing was lost (or the input was empty).
pub open spec fn lost_tenths(original: nat, sanitized: nat) -> nat {
    if original == 0 || sanitized >= original {
        0
    } else {
        (((original - sanitized) * 2000 + original) / (2 * original as int)) as nat
    }
}

/// The human-readable message of an error.
pub open spec fn error_message(e: ErrorView) -> Seq<char> {
    match e {
        ErrorView::Unsalvageable(fs, original, sanitized) => {
            let t = lost_tenths(original as nat, sanitized as nat);
            "input unsalvageable: "@ + decimal(fs.len()) + " findings, signal lost "@ + decimal(t / 10) + "."@
                + decimal(t % 10) + "%"@
        },
        ErrorView::EmptyInput => "user input empty"@,
        ErrorView::InputTooLarge(actual, limit) => "input too large: "@ + decimal(actual as nat) + " bytes > limit "@
            + decimal(limit as nat) + " bytes (DoS guard)"@,
    }
}

proof fn lemma_lost_tenths_bound(o: int, s: int)
    by (nonlinear_arith)
    requires
        0 <= s < o,
    ensures
        0 <= ((o - s) * 2000 + o) / (2 * o) <= 1000,
{
    assert((o - s) * 2000 + o <= 2001 * o);
    assert(2001 * o < 1001 * (2 * o));
}

fn lost_tenths_exec(original: usize, sanitized: usize) -> (t: usize)
    ensures
        t == lost_tenths(original as nat, sanitized as nat),
        t <= 1000,
{
    if original == 0 || sanitized >= original {
        0
    } else {
        proof {
            lemma_lost_tenths_bound(original as int, sanitized as int);
        }
        let o = original as u128;
        let d = (original - sanitized) as u128;
        assert(d * 2000 + o <= 2001 * (usize::MAX as u128)) by (nonlinear_arith)
            requires
                d <= o,
                o <= usize::MAX,
        ;
        let t = (d * 2000 + o) / (2 * o);
        t as usize
    }
}

impl ArmorError {
    /// The human-readable message of the error (see [`error_message`]).
    pub fn message(&self) -> (m: String)
        ensures
            m@ == error_message(self@),
    {
        match self {
            ArmorError::Unsalvageable { findings, original_len, sanitized_len } => {
                let t = lost_tenths_exec(*original_len, *sanitized_len);
                let mut m = String::from_str("input unsalvageable: ");
                push_decimal(&mut m, findings.len());
                m.append(" findings, signal lost ");
                push_decimal(&mut m, t / 10);
                m.append(".");
                push_decimal(&mut m, t % 10);
                m.append("%");
                proof {
                    assert(finding_views(findings@).len() == findings@.len());
                }
                m
            },
            ArmorError::EmptyInput => String::from_str("user input empty"),
            ArmorError::InputTooLarge { actual, limit } => {
                let mut m = String::from_str("input too large: ");
                push_decimal(&mut m, *actual);
                m.append(" bytes > limit ");
                push_decimal(&mut m, *limit);
                m.append(" bytes (DoS guard)");
                m
            },
        }
    }
}

} // verus!
