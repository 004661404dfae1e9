use rust_prompt_armor::util::safe_replace_range;

#[test]
fn ascii_replace_unchanged() {
    let (out, range) = safe_replace_range("hello world", 6..11, "[X]");
    assert_eq!(out, "hello [X]");
    assert_eq!(range, 6..11);
}

#[test]
fn two_byte_char_polish_l() {
    let (out, range) = safe_replace_range("łatwy", 1..3, "[X]");
    assert_eq!(out, "[X]twy");
    assert_eq!(range, 0..3);
}

#[test]
fn three_byte_char_cjk() {
    let (out, range) = safe_replace_range("中文", 1..4, "[X]");
    assert_eq!(out, "[X]");
    assert_eq!(range, 0..6);
}

#[test]
fn four_byte_emoji() {
    let (out, range) = safe_replace_range("a🚀b", 2..4, "[X]");
    assert_eq!(out, "a[X]b");
    assert_eq!(range, 1..5);
}

#[test]
fn range_at_end_of_string() {
    let (out, range) = safe_replace_range("hello", 3..10, "");
    assert_eq!(out, "hel");
    assert_eq!(range, 3..5);
}

#[test]
fn empty_replacement_just_deletes() {
    let (out, range) = safe_replace_range("hello world", 5..6, "");
    assert_eq!(out, "helloworld");
    assert_eq!(range, 5..6);
}

#[test]
fn output_is_always_valid_utf8() {
    let cases = ["łatwy", "中文", "a🚀b", "ёлки", "ігри"];
    for s in cases {
        for start in 0..=s.len() {
            for end in start..=s.len() {
                let (out, _) = safe_replace_range(s, start..end, "[X]");
                assert!(
                    std::str::from_utf8(out.as_bytes()).is_ok(),
                    "invalid UTF-8 produced from '{s}' range {start}..{end}"
                );
            }
        }
    }
}

#[test]
fn start_past_end_of_text_appends() {
    let (out, range) = safe_replace_range("abc", 7..9, "!");
    assert_eq!(out, "abc!");
    assert_eq!(range, 3..3);
}
