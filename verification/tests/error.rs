use rust_prompt_armor::{ArmorError, Finding, FindingKind, Severity, UnicodeAnomaly};

#[test]
fn unsalvageable_display_includes_count_and_pct() {
    // 735 of 1000 bytes lost: 73.5%.
    let err = ArmorError::Unsalvageable {
        findings: vec![Finding {
            kind: FindingKind::UnicodeAnomaly { kind: UnicodeAnomaly::ZeroWidth },
            severity: Severity::Low,
            span: None,
            sanitized: true,
            detail: "test".into(),
        }],
        original_len: 1000,
        sanitized_len: 265,
    };
    let s = err.message();
    assert!(s.contains("1 findings"), "got: {s}");
    assert!(s.contains("73.5%"), "got: {s}");
}

#[test]
fn empty_input_display() {
    assert_eq!(ArmorError::EmptyInput.message(), "user input empty");
}

#[test]
fn input_too_large_display() {
    let err = ArmorError::InputTooLarge { actual: 2_000_000, limit: 1_048_576 };
    let s = err.message();
    assert!(s.contains("2000000"), "got: {s}");
    assert!(s.contains("1048576"), "got: {s}");
}

#[test]
fn error_is_send_sync_clone() {
    fn assert_traits<T: Send + Sync + Clone>() {}
    assert_traits::<ArmorError>();
}

#[test]
fn messages_are_exact() {
    assert_eq!(
        ArmorError::InputTooLarge { actual: 12, limit: 3 }.message(),
        "input too large: 12 bytes > limit 3 bytes (DoS guard)"
    );
    let no_loss = ArmorError::Unsalvageable { findings: vec![], original_len: 10, sanitized_len: 40 };
    assert_eq!(no_loss.message(), "input unsalvageable: 0 findings, signal lost 0.0%");
    let third = ArmorError::Unsalvageable { findings: vec![], original_len: 3, sanitized_len: 1 };
    assert_eq!(third.message(), "input unsalvageable: 0 findings, signal lost 66.7%");
    let all = ArmorError::Unsalvageable { findings: vec![], original_len: 7, sanitized_len: 0 };
    assert_eq!(all.message(), "input unsalvageable: 0 findings, signal lost 100.0%");
    let empty = ArmorError::Unsalvageable { findings: vec![], original_len: 0, sanitized_len: 0 };
    assert_eq!(empty.message(), "input unsalvageable: 0 findings, signal lost 0.0%");
}
