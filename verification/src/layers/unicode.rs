//! Unicode normalization: zero-width strip, BiDi strip, homoglyph
//! resolution, then NFKC.

use vstd::prelude::*;
use crate::finding::{finding_views, Finding, FindingKind, FindingView, KindView, Severity, UnicodeAnomaly};
use crate::util::push_char;
use std::borrow::Cow;
use vstd::std_specs::iter::IteratorSpec;
use vstd::string::StringExecFns;

verus! {

broadcast use vstd::string::group_string_axioms;

/// Zero-width characters: ZERO WIDTH SPACE, ZERO WIDTH NON-JOINER, ZERO
/// WIDTH JOINER, WORD JOINER and ZERO WIDTH NO-BREAK SPACE (BOM).
pub open spec fn is_zero_width(c: char) -> bool {
    c == '\u{200B}' || c == '\u{200C}' || c == '\u{200D}' || c == '\u{2060}' || c == '\u{FEFF}'
}

/// BiDi embedding, override and isolate controls.
pub open spec fn is_bidi(c: char) -> bool {
    ('\u{202A}' <= c <= '\u{202E}') || ('\u{2066}' <= c <= '\u{2069}')
}

/// The Latin letter that a Cyrillic or Greek look-alike resolves to.
pub open spec fn homoglyph_of(c: char) -> Option<char> {
    match c {
        '\u{0410}' => Some('A'),  // А
        '\u{0412}' => Some('B'),  // В
        '\u{0415}' => Some('E'),  // Е
        '\u{041A}' => Some('K'),  // К
        '\u{041C}' => Some('M'),  // М
        '\u{041D}' => Some('H'),  // Н
        '\u{041E}' => Some('O'),  // О
        '\u{0420}' => Some('P'),  // Р
        '\u{0421}' => Some('C'),  // С
        '\u{0422}' => Some('T'),  // Т
        '\u{0425}' => Some('X'),  // Х
        '\u{0406}' => Some('I'),  // І
        '\u{0408}' => Some('J'),  // Ј
        '\u{0430}' => Some('a'),  // а
        '\u{0435}' => Some('e'),  // е
        '\u{043E}' => Some('o'),  // о
        '\u{0440}' => Some('p'),  // р
        '\u{0441}' => Some('c'),  // с
        '\u{0445}' => Some('x'),  // х
        '\u{0443}' => Some('y'),  // у
        '\u{0456}' => Some('i'),  // і
        '\u{0458}' => Some('j'),  // ј
        '\u{0391}' => Some('A'),  // Α
        '\u{0392}' => Some('B'),  // Β
        '\u{0395}' => Some('E'),  // Ε
        '\u{0396}' => Some('Z'),  // Ζ
        '\u{0397}' => Some('H'),  // Η
        '\u{0399}' => Some('I'),  // Ι
        '\u{039A}' => Some('K'),  // Κ
        '\u{039C}' => Some('M'),  // Μ
        '\u{039D}' => Some('N'),  // Ν
        '\u{039F}' => Some('O'),  // Ο
        '\u{03A1}' => Some('P'),  // Ρ
        '\u{03A4}' => Some('T'),  // Τ
        '\u{03A5}' => Some('Y'),  // Υ
        '\u{03A7}' => Some('X'),  // Χ
        '\u{03BF}' => Some('o'),  // ο
        _ => None,
    }
}

/// The text with zero-width and BiDi characters removed and homoglyphs
/// replaced by their Latin letters.
pub open spec fn strip_and_map(s: Seq<char>) -> Seq<char>
    decreases s.len(),
{
    if s.len() == 0 {
        seq![]
    } else {
        let prev = strip_and_map(s.drop_last());
        let c = s.last();
        if is_zero_width(c) || is_bidi(c) {
            prev
        } else {
            match homoglyph_of(c) {
                Some(l) => prev.push(l),
                None => prev.push(c),
            }
        }
    }
}

/// Whether some character of `s` satisfies `p`.
pub open spec fn any_char(s: Seq<char>, p: spec_fn(char) -> bool) -> bool {
    exists|i: int| 0 <= i < s.len() && p(#[trigger] s[i])
}

/// What `UnicodeNormalization::nfkc` of the `unicode-normalization` crate
/// yields for a string (Normalization Form KC).
pub uninterp spec fn nfkc(s: Seq<char>) -> Seq<char>;

/// Collects `nfkc()` of the `unicode-normalization` crate into a string;
/// the result is named [`nfkc`].
#[verifier::external_body]
fn nfkc_string(s: &str) -> (r: String)
    ensures
        r@ == nfkc(s@),
{
    unicode_normalization::UnicodeNormalization::nfkc(s).collect()
}

/// The finding reported for one kind of Unicode anomaly.
pub open spec fn anomaly_finding(kind: UnicodeAnomaly) -> FindingView {
    FindingView {
        kind: KindView::UnicodeAnomaly(kind),
        severity: match kind {
            UnicodeAnomaly::ZeroWidth => Severity::Low,
            UnicodeAnomaly::BiDi => Severity::Medium,
            UnicodeAnomaly::Homoglyph => Severity::Medium,
            UnicodeAnomaly::NonNfkc => Severity::Low,
        },
        span: None,
        sanitized: true,
        detail: match kind {
            UnicodeAnomaly::ZeroWidth => "zero-width characters stripped"@,
            UnicodeAnomaly::BiDi => "BiDi override characters stripped"@,
            UnicodeAnomaly::Homoglyph => "Cyrillic/Greek homoglyphs resolved to Latin"@,
            UnicodeAnomaly::NonNfkc => "NFKC normalization applied"@,
        },
    }
}

/// One finding if `cond` holds.
pub open spec fn finding_if(cond: bool, kind: UnicodeAnomaly) -> Seq<FindingView> {
    if cond {
        seq![anomaly_finding(kind)]
    } else {
        seq![]
    }
}

/// The findings for `s`, in the order zero-width, BiDi, homoglyph, NFKC.
pub open spec fn unicode_findings(s: Seq<char>) -> Seq<FindingView> {
    let m = strip_and_map(s);
    finding_if(any_char(s, |c: char| is_zero_width(c)), UnicodeAnomaly::ZeroWidth) + finding_if(
        any_char(s, |c: char| is_bidi(c)),
        UnicodeAnomaly::BiDi,
    ) + finding_if(
        any_char(s, |c: char| homoglyph_of(c) is Some),
        UnicodeAnomaly::Homoglyph,
    ) + finding_if(nfkc(m) != m, UnicodeAnomaly::NonNfkc)
}

fn is_zero_width_char(c: char) -> (r: bool)
    ensures
        r == is_zero_width(c),
{
    c == '\u{200B}' || c == '\u{200C}' || c == '\u{200D}' || c == '\u{2060}' || c == '\u{FEFF}'
}

fn is_bidi_char(c: char) -> (r: bool)
    ensures
        r == is_bidi(c),
{
    ('\u{202A}' <= c && c <= '\u{202E}') || ('\u{2066}' <= c && c <= '\u{2069}')
}

/// Minimal homoglyph map: Cyrillic / Greek letters that visually mimic Latin.
pub fn homoglyph(c: char) -> (r: Option<char>)
    ensures
        r == homoglyph_of(c),
{
    Some(match c {
        '\u{0410}' => 'A',
        '\u{0412}' => 'B',
        '\u{0415}' => 'E',
        '\u{041A}' => 'K',
        '\u{041C}' => 'M',
        '\u{041D}' => 'H',
        '\u{041E}' => 'O',
        '\u{0420}' => 'P',
        '\u{0421}' => 'C',
        '\u{0422}' => 'T',
        '\u{0425}' => 'X',
        '\u{0406}' => 'I',
        '\u{0408}' => 'J',
        '\u{0430}' => 'a',
        '\u{0435}' => 'e',
        '\u{043E}' => 'o',
        '\u{0440}' => 'p',
        '\u{0441}' => 'c',
        '\u{0445}' => 'x',
        '\u{0443}' => 'y',
        '\u{0456}' => 'i',
        '\u{0458}' => 'j',
        '\u{0391}' => 'A',
        '\u{0392}' => 'B',
        '\u{0395}' => 'E',
        '\u{0396}' => 'Z',
        '\u{0397}' => 'H',
        '\u{0399}' => 'I',
        '\u{039A}' => 'K',
        '\u{039C}' => 'M',
        '\u{039D}' => 'N',
        '\u{039F}' => 'O',
        '\u{03A1}' => 'P',
        '\u{03A4}' => 'T',
        '\u{03A5}' => 'Y',
        '\u{03A7}' => 'X',
        '\u{03BF}' => 'o',
        _ => return None,
    })
}

fn anomaly(kind: UnicodeAnomaly) -> (f: Finding)
    ensures
        f@ == anomaly_finding(kind),
{
    let (severity, detail) = match kind {
        UnicodeAnomaly::ZeroWidth => (Severity::Low, "zero-width characters stripped"),
        UnicodeAnomaly::BiDi => (Severity::Medium, "BiDi override characters stripped"),
        UnicodeAnomaly::Homoglyph => (Severity::Medium, "Cyrillic/Greek homoglyphs resolved to Latin"),
        UnicodeAnomaly::NonNfkc => (Severity::Low, "NFKC normalization applied"),
    };
    Finding {
        kind: FindingKind::UnicodeAnomaly { kind },
        severity,
        span: None,
        sanitized: true,
        detail: String::from_str(detail),
    }
}

/// With nothing to strip or map, stripping and mapping changes nothing.
pub proof fn lemma_strip_identity(s: Seq<char>)
    requires
        !any_char(s, |c: char| is_zero_width(c)),
        !any_char(s, |c: char| is_bidi(c)),
        !any_char(s, |c: char| homoglyph_of(c) is Some),
    ensures
        strip_and_map(s) == s,
    decreases s.len(),
{
    if s.len() > 0 {
        let t = s.drop_last();
        assert(!any_char(t, |c: char| is_zero_width(c))) by {
            if any_char(t, |c: char| is_zero_width(c)) {
                let i = choose|i: int| 0 <= i < t.len() && is_zero_width(#[trigger] t[i]);
                assert(s[i] == t[i]);
            }
        }
        assert(!any_char(t, |c: char| is_bidi(c))) by {
            if any_char(t, |c: char| is_bidi(c)) {
                let i = choose|i: int| 0 <= i < t.len() && is_bidi(#[trigger] t[i]);
                assert(s[i] == t[i]);
            }
        }
        assert(!any_char(t, |c: char| homoglyph_of(c) is Some)) by {
            if any_char(t, |c: char| homoglyph_of(c) is Some) {
                let i = choose|i: int| 0 <= i < t.len() && homoglyph_of(#[trigger] t[i]) is Some;
                assert(s[i] == t[i]);
            }
        }
        lemma_strip_identity(t);
        let c = s.last();
        assert(s[s.len() - 1] == c);
        assert(!is_zero_width(c) && !is_bidi(c) && homoglyph_of(c) is None);
        assert(s =~= t.push(c));
    }
}

/// Normalize `input`: strip zero-width and BiDi characters, resolve
/// Cyrillic/Greek homoglyphs to Latin, then apply NFKC. Each kind of change
/// is reported once. With nothing to report the input comes back borrowed;
/// in every case the text equals `nfkc(strip_and_map(input))`.
pub fn unicode_normalize(input: &str) -> (res: (Cow<'_, str>, Vec<Finding>))
    ensures
        finding_views(res.1@) == unicode_findings(input@),
        res.0@ == nfkc(strip_and_map(input@)),
        unicode_findings(input@).len() == 0 ==> res.0 is Borrowed && res.0@ == input@,
        unicode_findings(input@).len() > 0 ==> res.0 is Owned,
{
    let ghost s = input@;
    let mut out = String::new();
    let mut any_zero_width = false;
    let mut any_bidi = false;
    let mut any_homoglyph = false;
    let mut it = input.chars();
    let ghost mut i: int = 0;
    proof {
        assert(s.take(0) =~= Seq::<char>::empty());
    }
    loop
        invariant
            0 <= i <= s.len(),
            it.remaining() == s.skip(i),
            it.obeys_prophetic_iter_laws(),
            out@ == strip_and_map(s.take(i)),
            any_zero_width == any_char(s.take(i), |c: char| is_zero_width(c)),
            any_bidi == any_char(s.take(i), |c: char| is_bidi(c)),
            any_homoglyph == any_char(s.take(i), |c: char| homoglyph_of(c) is Some),
        ensures
            i == s.len(),
            out@ == strip_and_map(s),
            any_zero_width == any_char(s, |c: char| is_zero_width(c)),
            any_bidi == any_char(s, |c: char| is_bidi(c)),
            any_homoglyph == any_char(s, |c: char| homoglyph_of(c) is Some),
        decreases s.len() - i,
    {
        let ghost t = s.take(i);
        match it.next() {
            Some(c) => {
                proof {
                    assert(c == s[i]);
                    let t2 = s.take(i + 1);
                    assert(t2.drop_last() =~= t);
                    assert(t2.last() == c);
                    assert(t2[i] == c);
                    assert(any_char(t2, |c: char| is_zero_width(c)) == (any_char(t, |c: char| is_zero_width(c)) || is_zero_width(c))) by {
                        if any_char(t, |c: char| is_zero_width(c)) {
                            let j = choose|j: int| 0 <= j < t.len() && is_zero_width(#[trigger] t[j]);
                            assert(t2[j] == t[j]);
                        }
                        if any_char(t2, |c: char| is_zero_width(c)) && !is_zero_width(c) {
                            let j = choose|j: int| 0 <= j < t2.len() && is_zero_width(#[trigger] t2[j]);
                            assert(t[j] == t2[j]);
                        }
                    }
                    assert(any_char(t2, |c: char| is_bidi(c)) == (any_char(t, |c: char| is_bidi(c)) || is_bidi(c))) by {
                        if any_char(t, |c: char| is_bidi(c)) {
                            let j = choose|j: int| 0 <= j < t.len() && is_bidi(#[trigger] t[j]);
                            assert(t2[j] == t[j]);
                        }
                        if any_char(t2, |c: char| is_bidi(c)) && !is_bidi(c) {
                            let j = choose|j: int| 0 <= j < t2.len() && is_bidi(#[trigger] t2[j]);
                            assert(t[j] == t2[j]);
                        }
                    }
                    assert(any_char(t2, |c: char| homoglyph_of(c) is Some) == (any_char(t, |c: char| homoglyph_of(c) is Some) || homoglyph_of(c) is Some)) by {
                        if any_char(t, |c: char| homoglyph_of(c) is Some) {
                            let j = choose|j: int| 0 <= j < t.len() && homoglyph_of(#[trigger] t[j]) is Some;
                            assert(t2[j] == t[j]);
                        }
                        if any_char(t2, |c: char| homoglyph_of(c) is Some) && !(homoglyph_of(c) is Some) {
                            let j = choose|j: int| 0 <= j < t2.len() && homoglyph_of(#[trigger] t2[j]) is Some;
                            assert(t[j] == t2[j]);
                        }
                    }
                    assert(s.skip(i + 1) =~= s.skip(i).drop_first());
                }
                if is_zero_width_char(c) {
                    any_zero_width = true;
                } else if is_bidi_char(c) {
                    any_bidi = true;
                } else {
                    match homoglyph(c) {
                        Some(latin) => {
                            any_homoglyph = true;
                            push_char(&mut out, latin);
                        },
                        None => {
                            push_char(&mut out, c);
                        },
                    }
                }
                proof {
                    i = i + 1;
                }
            },
            None => {
                proof {
                    assert(s.take(i) =~= s);
                }
                break;
            },
        }
    }
    let nfkc_out = nfkc_string(out.as_str());
    let any_nfkc_change = !(nfkc_out == out);
    let mut findings: Vec<Finding> = Vec::new();
    if any_zero_width {
        findings.push(anomaly(UnicodeAnomaly::ZeroWidth));
    }
    if any_bidi {
        findings.push(anomaly(UnicodeAnomaly::BiDi));
    }
    if any_homoglyph {
        findings.push(anomaly(UnicodeAnomaly::Homoglyph));
    }
    if any_nfkc_change {
        findings.push(anomaly(UnicodeAnomaly::NonNfkc));
    }
    proof {
        let m = strip_and_map(s);
        assert(finding_views(findings@) =~= unicode_findings(s));
    }
    if findings.len() == 0 {
        proof {
            lemma_strip_identity(s);
        }
        (Cow::Borrowed(input), findings)
    } else {
        (Cow::Owned(nfkc_out), findings)
    }
}

/// The unicode layer as a function of the text: normalized text and findings.
pub open spec fn unicode_layer(t: Seq<char>) -> (Seq<char>, Seq<FindingView>) {
    (nfkc(strip_and_map(t)), unicode_findings(t))
}

} // verus!
