use rust_prompt_armor::catalog::{all_default, default_en, default_pl, default_ru, default_ua, default_zh};

#[test]
fn each_language_is_nonempty() {
    assert!(!default_en().is_empty());
    assert!(!default_pl().is_empty());
    assert!(!default_ua().is_empty());
    assert!(!default_zh().is_empty());
    assert!(!default_ru().is_empty());
}

#[test]
fn all_default_concatenates() {
    let expected = default_en().len() + default_pl().len() + default_ua().len() + default_zh().len()
        + default_ru().len();
    assert_eq!(all_default().len(), expected);
}

#[test]
fn all_default_is_cached() {
    let p1 = all_default().as_ptr();
    let p2 = all_default().as_ptr();
    assert_eq!(p1, p2, "catalog not shared between calls");
}

#[test]
fn no_duplicate_within_language() {
    for (name, list) in [
        ("en", default_en()),
        ("pl", default_pl()),
        ("ua", default_ua()),
        ("zh", default_zh()),
        ("ru", default_ru()),
    ] {
        let mut sorted: Vec<&&str> = list.iter().collect();
        sorted.sort();
        for w in sorted.windows(2) {
            assert_ne!(w[0], w[1], "duplicate in {name}: {:?}", w[0]);
        }
    }
}

#[test]
fn patterns_are_lowercase() {
    for &p in all_default() {
        let lower = p.to_lowercase();
        assert_eq!(p, lower, "non-lowercase pattern: {p:?}");
    }
}

#[test]
fn all_default_is_languages_in_order() {
    let mut expected: Vec<&str> = Vec::new();
    expected.extend_from_slice(default_en());
    expected.extend_from_slice(default_pl());
    expected.extend_from_slice(default_ua());
    expected.extend_from_slice(default_zh());
    expected.extend_from_slice(default_ru());
    assert_eq!(all_default(), expected.as_slice());
    assert!(default_en().contains(&"ignore previous"));
}
