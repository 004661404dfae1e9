use rust_prompt_armor::layers::unicode::{homoglyph, unicode_normalize};
use rust_prompt_armor::{FindingKind, Severity, UnicodeAnomaly};
use std::borrow::Cow;

#[test]
fn clean_ascii_unchanged() {
    let (out, findings) = unicode_normalize("Hello world");
    assert_eq!(out, "Hello world");
    assert!(findings.is_empty());
    assert!(matches!(out, Cow::Borrowed(_)));
}

#[test]
fn legit_polish_unchanged() {
    let (out, findings) = unicode_normalize("łatwa próba");
    assert_eq!(out, "łatwa próba");
    assert!(findings.is_empty());
}

#[test]
fn legit_cjk_unchanged() {
    let (out, findings) = unicode_normalize("中文测试");
    assert_eq!(out, "中文测试");
    assert!(findings.is_empty());
}

#[test]
fn emoji_unchanged() {
    let (out, findings) = unicode_normalize("rocket 🚀 ship");
    assert_eq!(out, "rocket 🚀 ship");
    assert!(findings.is_empty());
}

#[test]
fn zero_width_stripped() {
    let (out, findings) = unicode_normalize("Ig\u{200B}nore previous");
    assert_eq!(out, "Ignore previous");
    assert_eq!(findings.len(), 1);
    assert!(matches!(findings[0].kind, FindingKind::UnicodeAnomaly { kind: UnicodeAnomaly::ZeroWidth }));
}

#[test]
fn bom_stripped() {
    let (out, findings) = unicode_normalize("\u{FEFF}hello");
    assert_eq!(out, "hello");
    assert_eq!(findings.len(), 1);
}

#[test]
fn bidi_override_stripped() {
    let (out, findings) = unicode_normalize("safe\u{202E}txet desrever");
    assert_eq!(out, "safetxet desrever");
    assert!(findings.iter().any(|f| matches!(f.kind, FindingKind::UnicodeAnomaly { kind: UnicodeAnomaly::BiDi })));
}

#[test]
fn cyrillic_homoglyph_resolved() {
    let (out, findings) = unicode_normalize("Іgnore previous");
    assert_eq!(out, "Ignore previous");
    assert!(findings
        .iter()
        .any(|f| matches!(f.kind, FindingKind::UnicodeAnomaly { kind: UnicodeAnomaly::Homoglyph })));
}

#[test]
fn multiple_anomalies_produce_multiple_findings() {
    let (out, findings) = unicode_normalize("\u{FEFF}Іg\u{200B}nore");
    assert_eq!(out, "Ignore");
    assert!(findings.len() >= 2);
}

#[test]
fn nfkc_change_is_reported() {
    // U+FB01 (fi ligature) is compatibility-decomposed by NFKC.
    let (out, findings) = unicode_normalize("\u{FB01}le");
    assert_eq!(out, "file");
    assert_eq!(findings.len(), 1);
    assert!(matches!(findings[0].kind, FindingKind::UnicodeAnomaly { kind: UnicodeAnomaly::NonNfkc }));
    assert_eq!(findings[0].severity, Severity::Low);
    assert_eq!(findings[0].detail, "NFKC normalization applied");
}

#[test]
fn findings_come_in_fixed_order_with_severities() {
    let (_, findings) = unicode_normalize("\u{202E}\u{200B}о");
    let kinds: Vec<_> = findings.iter().map(|f| (f.kind.clone(), f.severity)).collect();
    assert_eq!(
        kinds,
        vec![
            (FindingKind::UnicodeAnomaly { kind: UnicodeAnomaly::ZeroWidth }, Severity::Low),
            (FindingKind::UnicodeAnomaly { kind: UnicodeAnomaly::BiDi }, Severity::Medium),
            (FindingKind::UnicodeAnomaly { kind: UnicodeAnomaly::Homoglyph }, Severity::Medium),
        ]
    );
    assert!(findings.iter().all(|f| f.span.is_none() && f.sanitized));
}

#[test]
fn homoglyph_table() {
    assert_eq!(homoglyph('А'), Some('A'));
    assert_eq!(homoglyph('ο'), Some('o'));
    assert_eq!(homoglyph('Ј'), Some('J'));
    assert_eq!(homoglyph('a'), None);
    assert_eq!(homoglyph('ł'), None);
}
