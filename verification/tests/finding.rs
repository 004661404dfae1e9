use rust_prompt_armor::{Encoding, Finding, FindingKind, Severity, UnicodeAnomaly};

#[test]
fn severity_ordering() {
    assert!(Severity::Low < Severity::Medium);
    assert!(Severity::Medium < Severity::High);
    assert!(Severity::High < Severity::Critical);
}

#[test]
fn finding_equality_by_value() {
    let a = Finding {
        kind: FindingKind::FenceMarker { marker: "<|im_end|>" },
        severity: Severity::High,
        span: Some(5..15),
        sanitized: true,
        detail: "ChatML end marker".into(),
    };
    let b = a.clone();
    assert_eq!(a, b);
}

#[test]
fn finding_kinds_distinct() {
    let unicode = FindingKind::UnicodeAnomaly { kind: UnicodeAnomaly::ZeroWidth };
    let fence = FindingKind::FenceMarker { marker: "<|im_end|>" };
    assert_ne!(unicode, fence);
}

#[test]
fn types_are_send_sync_clone() {
    fn assert_traits<T: Send + Sync + Clone>() {}
    assert_traits::<Finding>();
    assert_traits::<FindingKind>();
    assert_traits::<UnicodeAnomaly>();
    assert_traits::<Encoding>();
    assert_traits::<Severity>();
}
