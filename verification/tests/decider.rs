use rust_prompt_armor::decider::decide;
use rust_prompt_armor::{ArmorConfig, ArmorError, Encoding, Finding, FindingKind, Policy, Severity, UnicodeAnomaly};

fn fnd(kind: FindingKind, severity: Severity) -> Finding {
    Finding { kind, severity, span: None, sanitized: true, detail: "".into() }
}

#[test]
fn ok_when_below_threshold_no_critical() {
    let res = decide(
        100,
        80,
        &[fnd(FindingKind::UnicodeAnomaly { kind: UnicodeAnomaly::ZeroWidth }, Severity::Low)],
        &ArmorConfig::default(),
    );
    assert!(res.is_ok());
}

#[test]
fn err_when_signal_loss_exceeds_threshold() {
    let res = decide(
        100,
        30,
        &[fnd(FindingKind::FenceMarker { marker: "<|im_end|>" }, Severity::High)],
        &ArmorConfig::default(),
    );
    assert!(matches!(res, Err(ArmorError::Unsalvageable { .. })));
}

#[test]
fn err_on_critical_regardless_of_signal_loss() {
    let res = decide(
        100,
        99,
        &[fnd(
            FindingKind::EncodedPayload { encoding: Encoding::Base64, decoded_hit: Some("ignore previous".into()) },
            Severity::Critical,
        )],
        &ArmorConfig::default(),
    );
    assert!(matches!(res, Err(ArmorError::Unsalvageable { .. })));
}

#[test]
fn err_on_strict_pattern_policy_any_finding() {
    let mut config = ArmorConfig::default();
    config.pattern_policy = Policy::Strict;
    let res = decide(
        100,
        90,
        &[fnd(FindingKind::DangerousPattern { matched: "ignore previous".into(), distance: 0 }, Severity::Low)],
        &config,
    );
    assert!(matches!(res, Err(ArmorError::Unsalvageable { .. })));
}

#[test]
fn ok_on_warnonly_encoding_no_critical_no_strict() {
    let res = decide(
        100,
        100,
        &[fnd(FindingKind::EncodedPayload { encoding: Encoding::Hex, decoded_hit: None }, Severity::Low)],
        &ArmorConfig::default(),
    );
    assert!(res.is_ok());
}

#[test]
fn empty_input_with_no_findings_is_ok() {
    let res = decide(0, 0, &[], &ArmorConfig::default());
    assert!(res.is_ok());
}

#[test]
fn empty_input_with_findings_is_err() {
    let res = decide(
        0,
        0,
        &[fnd(FindingKind::FenceMarker { marker: "<|im_end|>" }, Severity::High)],
        &ArmorConfig::default(),
    );
    assert!(matches!(res, Err(ArmorError::Unsalvageable { .. })));
}

#[test]
fn signal_loss_exactly_at_threshold_is_ok() {
    // 50 of 100 bytes lost is exactly the default limit, which is not above it.
    assert!(decide(100, 50, &[], &ArmorConfig::default()).is_ok());
    assert!(decide(100, 49, &[], &ArmorConfig::default()).is_err());
    // Growth (negative loss) never trips the limit.
    assert!(decide(10, 40, &[], &ArmorConfig::default()).is_ok());
}

#[test]
fn refusal_carries_findings_and_lengths() {
    let f = fnd(FindingKind::FenceMarker { marker: "[INST]" }, Severity::High);
    let mut config = ArmorConfig::default();
    config.fence_policy = Policy::Strict;
    match decide(200, 150, &[f.clone()], &config) {
        Err(ArmorError::Unsalvageable { findings, original_len, sanitized_len }) => {
            assert_eq!(findings, vec![f]);
            assert_eq!(original_len, 200);
            assert_eq!(sanitized_len, 150);
        }
        other => panic!("expected Unsalvageable, got {other:?}"),
    }
}

#[test]
fn unicode_findings_never_strict() {
    let mut config = ArmorConfig::default();
    config.fence_policy = Policy::Strict;
    config.pattern_policy = Policy::Strict;
    config.encoding_policy = Policy::Strict;
    let res = decide(
        10,
        10,
        &[fnd(FindingKind::UnicodeAnomaly { kind: UnicodeAnomaly::BiDi }, Severity::Medium)],
        &config,
    );
    assert!(res.is_ok());
}

#[test]
fn refusal_stays_with_more_loss() {
    let config = ArmorConfig::default();
    assert!(decide(1000, 499, &[], &config).is_err());
    for fewer in [0usize, 1, 250, 498] {
        assert!(decide(1000, fewer, &[], &config).is_err());
    }
}
