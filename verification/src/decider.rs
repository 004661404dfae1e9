//! Final decision: (findings, signal loss, config) to accept or refuse.

use vstd::prelude::*;
use crate::config::{ArmorConfig, Policy};
use crate::error::{ArmorError, ErrorView};
use crate::finding::{copy_findings, finding_views, Finding, FindingKind, FindingView, KindView, Severity};

verus! {

/// More than `max_ppm` parts per million of the `original` bytes were lost
/// (`1 - sanitized / original > max_ppm / 10^6`).
pub open spec fn signal_loss_exceeded(original: int, sanitized: int, max_ppm: int) -> bool {
    sanitized < original && (original - sanitized) * 1_000_000 > max_ppm * original
}

/// A finding whose category is under a `Strict` policy.
pub open spec fn strict_hit(f: FindingView, c: ArmorConfig) -> bool {
    match f.kind {
        KindView::FenceMarker(_) => c.fence_policy == Policy::Strict,
        KindView::DangerousPattern(_, _) => c.pattern_policy == Policy::Strict,
        KindView::EncodedPayload(_, _) => c.encoding_policy == Policy::Strict,
        KindView::UnicodeAnomaly(_) => false,
    }
}

/// Whether the pipeline refuses the input: for an empty input, any finding;
/// otherwise a Critical finding, a finding under a `Strict` policy, or
/// signal loss above the threshold.
pub open spec fn rejects(original: int, sanitized: int, fs: Seq<FindingView>, c: ArmorConfig) -> bool {
    if original == 0 {
        fs.len() > 0
    } else {
        ||| exists|i: int| 0 <= i < fs.len() && (#[trigger] fs[i]).severity == Severity::Critical
        ||| exists|i: int| 0 <= i < fs.len() && strict_hit(#[trigger] fs[i], c)
        ||| signal_loss_exceeded(original, sanitized, c.max_signal_loss_ppm as int)
    }
}

fn is_strict_hit(f: &Finding, c: &ArmorConfig) -> (r: bool)
    ensures
        r == strict_hit(f@, *c),
{
    match f.kind {
        FindingKind::FenceMarker { .. } => c.fence_policy == Policy::Strict,
        FindingKind::DangerousPattern { .. } => c.pattern_policy == Policy::Strict,
        FindingKind::EncodedPayload { .. } => c.encoding_policy == Policy::Strict,
        FindingKind::UnicodeAnomaly { .. } => false,
    }
}

/// Accept (`Ok`) or refuse (`Err(Unsalvageable)`) a sanitized input.
pub fn decide(
    original_len: usize,
    sanitized_len: usize,
    findings: &[Finding],
    config: &ArmorConfig,
) -> (res: Result<(), ArmorError>)
    ensures
        res is Err <==> rejects(
            original_len as int,
            sanitized_len as int,
            finding_views(findings@),
            *config,
        ),
        res matches Err(e) ==> e@ == ErrorView::Unsalvageable(
            finding_views(findings@),
            original_len,
            sanitized_len,
        ),
{
    let ghost fs = finding_views(findings@);
    if original_len == 0 {
        return if findings.len() == 0 {
            Ok(())
        } else {
            Err(ArmorError::Unsalvageable { findings: copy_findings(findings), original_len, sanitized_len })
        };
    }
    let mut has_critical = false;
    let mut strict_triggered = false;
    let mut i: usize = 0;
    while i < findings.len()
        invariant
            i <= findings@.len(),
            fs == finding_views(findings@),
            has_critical == exists|j: int| 0 <= j < i && (#[trigger] fs[j]).severity == Severity::Critical,
            strict_triggered == exists|j: int| 0 <= j < i && strict_hit(#[trigger] fs[j], *config),
        decreases findings@.len() - i,
    {
        let f = &findings[i];
        proof {
            assert(fs[i as int] == f@);
        }
        if f.severity == Severity::Critical {
            has_critical = true;
        }
        if is_strict_hit(f, config) {
            strict_triggered = true;
        }
        i += 1;
    }
    proof {
        let m = config.max_signal_loss_ppm as nat;
        let o = original_len as nat;
        assert(m * o <= 0xFFFF_FFFF * 0xFFFF_FFFF_FFFF_FFFF) by (nonlinear_arith)
            requires
                m <= 0xFFFF_FFFF,
                o <= 0xFFFF_FFFF_FFFF_FFFF,
        ;
    }
    let lost = sanitized_len < original_len && ((original_len - sanitized_len) as u128) * 1_000_000
        > (config.max_signal_loss_ppm as u128) * (original_len as u128);
    if has_critical || strict_triggered || lost {
        return Err(ArmorError::Unsalvageable { findings: copy_findings(findings), original_len, sanitized_len });
    }
    Ok(())
}

} // verus!
