//! Properties that relate several operations of the library.

use vstd::prelude::*;
use crate::armored::{rendered, ArmoredView};
use crate::builder::{build_outcome, BuilderView};
use crate::config::{Framing, Policy};
use crate::decider::{rejects, signal_loss_exceeded, strict_hit};
use crate::finding::{FindingView, KindView, Severity};
use crate::layers::encoding::{
    base64_decoded, base64_standard, base64_standard_no_pad, decoded_text,
    candidate_order, encoding_candidates, encoding_fold, encoding_layer, recheck, CandidateView, ENCODED_REPLACEMENT,
};
use crate::layers::fence::{
    contains_bytes, fence_layer, fence_markers, lemma_marker_free_no_hits, lemma_no_hits_no_findings, marker_free,
    marker_hits, occurs_at,
};
use crate::layers::patterns::{fuzzy_candidate, fuzzy_eligible, pattern_finding, pattern_layer, pattern_tokens, warn_findings, Hit};
use crate::layers::unicode::{homoglyph_of, lemma_strip_identity, unicode_findings, unicode_layer};
use crate::util::{bytes_of, lemma_encode_concat, replaced_bytes};
use vstd::utf8::*;

verus! {

broadcast use vstd::utf8::group_utf8_lib;

/// An accepted run carries no Critical finding and no finding of a kind
/// whose policy is `Strict`, and sanitization removed no more of the user
/// prompt than the configured signal-loss limit allows.
pub proof fn law_accepted_run_is_within_policy(b: BuilderView)
    ensures
        build_outcome(b) matches Ok(a) ==> {
            &&& forall|i: int| 0 <= i < a.findings.len() ==> (#[trigger] a.findings[i]).severity != Severity::Critical
            &&& forall|i: int| 0 <= i < a.findings.len() ==> !strict_hit(#[trigger] a.findings[i], b.config)
            &&& !signal_loss_exceeded(
                bytes_of(b.user).len() as int,
                bytes_of(a.user).len() as int,
                b.config.max_signal_loss_ppm as int,
            )
        },
{
}

/// Under `WarnOnly` the pattern layer reports but never changes the text.
pub proof fn law_pattern_warn_only_keeps_text(t: Seq<char>, extra: Seq<Seq<char>>)
    ensures
        pattern_layer(t, extra, Policy::WarnOnly).0 == t,
{
}

/// `Strict` redacts exactly as `Sanitize` does; it differs only in the
/// decision that follows.
pub proof fn law_pattern_strict_redacts_as_sanitize(t: Seq<char>, extra: Seq<Seq<char>>)
    ensures
        pattern_layer(t, extra, Policy::Strict) == pattern_layer(t, extra, Policy::Sanitize),
{
}

/// Text without any unicode anomaly leaves the unicode layer unchanged.
pub proof fn law_unicode_clean_text_unchanged(t: Seq<char>)
    ensures
        unicode_findings(t).len() == 0 ==> unicode_layer(t).0 == t,
{
    if unicode_findings(t).len() == 0 {
        lemma_strip_identity(t);
    }
}

/// Text in which no fence marker occurs passes the fence layer unchanged and
/// without findings, whatever the policy; with the fence layer's own
/// guarantee that its redacted output is marker-free, fencing twice is
/// fencing once.
pub proof fn law_fence_clean_text_unchanged(t: Seq<char>, policy: Policy)
    ensures
        marker_free(bytes_of(t)) ==> fence_layer(t, policy) == (t, Seq::<FindingView>::empty()),
{
    if marker_free(bytes_of(t)) {
        lemma_marker_free_no_hits(bytes_of(t), 0);
        assert(marker_hits(bytes_of(t), 0) =~= Seq::<(int, int, int)>::empty());
        lemma_no_hits_no_findings(fence_markers().len() as int, policy != Policy::WarnOnly);
    }
}

/// Under `WarnOnly` the fence layer reports markers but never changes the
/// text.
pub proof fn law_fence_warn_only_keeps_text(t: Seq<char>)
    ensures
        fence_layer(t, Policy::WarnOnly).0 == t,
{
}

/// In the tagged rendering of a marker-free user text (as every accepted
/// run's is), the data block cannot be closed from inside: the closing tag
/// `</user_data>` occurs in the rendered user part only as its last bytes.
pub proof fn law_user_data_closed_only_at_end(a: ArmoredView, j: int)
    requires
        a.framing == Framing::Tagged,
        marker_free(bytes_of(a.user)),
        occurs_at(bytes_of(rendered(a).user), bytes_of("</user_data>"@), j),
    ensures
        j + bytes_of("</user_data>"@).len() == bytes_of(rendered(a).user).len(),
{
    reveal_strlit("<user_data>\n");
    reveal_strlit("\n</user_data>");
    reveal_strlit("</user_data>");
    let pre = "<user_data>\n"@;
    let post = "\n</user_data>"@;
    let tag = "</user_data>"@;
    is_ascii_chars_encode_utf8(pre);
    is_ascii_chars_encode_utf8(post);
    is_ascii_chars_encode_utf8(tag);
    let pb = bytes_of(pre);
    let ub = bytes_of(a.user);
    let sb = bytes_of(post);
    let tb = bytes_of(tag);
    lemma_encode_concat(pre, a.user);
    lemma_encode_concat(pre + a.user, post);
    let all = bytes_of(rendered(a).user);
    assert(all == pb + ub + sb);
    assert(tb.len() == 12 && pb.len() == 12 && sb.len() == 13);
    assert(all[j + 0] == tb[0]);
    assert(tb[0] == 0x3c);
    if j < 12 {
        assert(all[j] == pb[j]);
        if j == 0 {
            assert(all[j + 1] == tb[1]);
            assert(all[1] == pb[1]);
        } else {
            assert(pb[j] == pre[j] as u8);
        }
    } else if j + 12 <= 12 + ub.len() {
        assert(occurs_at(ub, tb, j - 12)) by {
            assert forall|k: int| 0 <= k < tb.len() implies #[trigger] ub[j - 12 + k] == tb[k] by {
                assert(all[j + k] == tb[k]);
                assert(all[j + k] == ub[j - 12 + k]);
            }
        }
        assert(fence_markers()[0] == tag);
        assert(!contains_bytes(ub, bytes_of(fence_markers()[0])));
    } else if j < 12 + ub.len() {
        let k = 12 + ub.len() - j;
        assert(all[j + k] == tb[k]);
        assert(all[j + k] == sb[0]);
        assert(tb[k] == tag[k] as u8);
    } else {
        let o = j - 12 - ub.len();
        assert(all[j] == sb[o]);
        if o == 0 {
            assert(sb[0] == post[0] as u8);
        }
    }
}

/// The kind of a finding that names the pattern a decoded payload hit.
pub open spec fn is_payload_hit(k: KindView) -> bool {
    match k {
        KindView::EncodedPayload(_, Some(_)) => true,
        _ => false,
    }
}

/// Every finding that names a decoded payload's pattern is Critical.
pub open spec fn payload_hits_critical(fs: Seq<FindingView>) -> bool {
    forall|i: int| 0 <= i < fs.len() && is_payload_hit((#[trigger] fs[i]).kind) ==> fs[i].severity == Severity::Critical
}

proof fn lemma_fold_payload_hits_critical(
    cur: Seq<u8>,
    order: Seq<Hit>,
    cands: Seq<CandidateView>,
    extra: Seq<Seq<char>>,
    redact_benign: bool,
)
    ensures
        payload_hits_critical(encoding_fold(cur, order, cands, extra, redact_benign).1),
    decreases order.len(),
{
    if order.len() > 0 {
        let r = encoding_fold(cur, order, cands, extra, redact_benign);
        let c = cands[order[0].2 as int];
        let hit = recheck(c.3, extra);
        let nb = if hit is Some || redact_benign {
            replaced_bytes(cur, c.0 as int, c.1 as int, bytes_of(ENCODED_REPLACEMENT@))
        } else {
            cur
        };
        lemma_fold_payload_hits_critical(nb, order.drop_first(), cands, extra, redact_benign);
        let rest = encoding_fold(nb, order.drop_first(), cands, extra, redact_benign);
        assert forall|i: int| 0 <= i < r.1.len() && is_payload_hit((#[trigger] r.1[i]).kind) implies r.1[i].severity
            == Severity::Critical by {
            if i > 0 {
                assert(r.1[i] == rest.1[i - 1]);
            }
        }
    }
}

/// Every encoded payload whose decoded text hits a dangerous pattern is
/// reported Critical, so (by [`law_accepted_run_is_within_policy`]) a run
/// with such a payload is always refused, whatever the policies say.
pub proof fn law_payload_hit_is_critical(t: Seq<char>, extra: Seq<Seq<char>>, policy: Policy)
    ensures
        payload_hits_critical(encoding_layer(t, extra, policy).1),
{
    let b = bytes_of(t);
    let cands = encoding_candidates(b);
    if cands.len() > 0 {
        lemma_fold_payload_hits_critical(b, candidate_order(cands), cands, extra, policy != Policy::WarnOnly);
    }
}

/// Each finding has a span `(s, e)` with `lo <= s <= e <= hi`, and each
/// span ends no later than any later one starts.
pub open spec fn spans_left_to_right(fs: Seq<FindingView>, lo: int, hi: int) -> bool {
    &&& forall|i: int|
        0 <= i < fs.len() ==> ((#[trigger] fs[i]).span is Some && lo <= (fs[i].span->0).0 <= (fs[i].span->0).1 <= hi)
    &&& forall|i: int, j: int|
        0 <= i < j < fs.len() ==> ((#[trigger] fs[i]).span->0).1 <= ((#[trigger] fs[j]).span->0).0
}

/// Findings reported without touching the text read left to right and
/// never overlap: a hit that starts inside the previous reported one is
/// dropped, and every span lies within the input.
pub proof fn law_warn_findings_left_to_right(hits: Seq<Hit>, pats: Seq<Seq<char>>, input_len: int, last_end: int)
    requires
        0 <= last_end <= input_len,
        forall|i: int| 0 <= i < hits.len() ==> (#[trigger] hits[i]).0 <= hits[i].1,
    ensures
        spans_left_to_right(warn_findings(hits, pats, input_len, last_end), last_end, input_len),
    decreases hits.len(),
{
    if hits.len() > 0 {
        let h = hits[0];
        let rest = hits.drop_first();
        assert forall|i: int| 0 <= i < rest.len() implies (#[trigger] rest[i]).0 <= rest[i].1 by {
            assert(rest[i] == hits[i + 1]);
        }
        if h.0 < last_end {
            law_warn_findings_left_to_right(rest, pats, input_len, last_end);
        } else {
            let e = if h.1 as int <= input_len { h.1 as int } else { input_len };
            let st = if h.0 as int <= e { h.0 as int } else { e };
            law_warn_findings_left_to_right(rest, pats, input_len, e);
            lemma_warn_step(hits, pats, input_len, last_end, st, e);
        }
    }
}

proof fn lemma_warn_step(hits: Seq<Hit>, pats: Seq<Seq<char>>, input_len: int, last_end: int, st: int, e: int)
    requires
        hits.len() > 0,
        last_end <= hits[0].0,
        last_end <= st <= e <= input_len,
        e == (if hits[0].1 as int <= input_len { hits[0].1 as int } else { input_len }),
        st == (if hits[0].0 as int <= e { hits[0].0 as int } else { e }),
        spans_left_to_right(warn_findings(hits.drop_first(), pats, input_len, e), e, input_len),
    ensures
        spans_left_to_right(warn_findings(hits, pats, input_len, last_end), last_end, input_len),
{
    let fs = warn_findings(hits, pats, input_len, last_end);
    let tail = warn_findings(hits.drop_first(), pats, input_len, e);
    let f = pattern_finding(pats[hits[0].2 as int], hits[0].3, (st, e), false);
    assert(fs == seq![f] + tail);
    assert(f.span == Some((st, e)));
    assert forall|i: int| 0 <= i < fs.len() implies ((#[trigger] fs[i]).span is Some && last_end <= (
    fs[i].span->0).0 <= (fs[i].span->0).1 <= input_len) by {
        if i > 0 {
            assert(fs[i] == tail[i - 1]);
        }
    }
    assert forall|i: int, j: int| 0 <= i < j < fs.len() implies ((#[trigger] fs[i]).span->0).1 <= ((
    #[trigger] fs[j]).span->0).0 by {
        assert(fs[j] == tail[j - 1]);
        if i > 0 {
            assert(fs[i] == tail[i - 1]);
        }
    }
}

/// Refusal is monotone in what sanitization removed: an input refused with
/// `sanitized` bytes left is refused with any fewer bytes left too.
pub proof fn law_refusal_monotone_in_loss(
    original: int,
    sanitized: int,
    fewer: int,
    fs: Seq<FindingView>,
    c: crate::config::ArmorConfig,
)
    requires
        0 <= fewer <= sanitized,
        rejects(original, sanitized, fs, c),
    ensures
        rejects(original, fewer, fs, c),
{
    if original != 0 && signal_loss_exceeded(original, sanitized, c.max_signal_loss_ppm as int) {
        assert((original - fewer) * 1_000_000 >= (original - sanitized) * 1_000_000);
    }
}

/// A base64 candidate is decoded with the padded standard alphabet, and when
/// that fails, with the unpadded one: an unpadded payload is decoded too,
/// and a padded one is never decoded differently.
pub proof fn law_base64_falls_back_to_unpadded(s: Seq<u8>)
    ensures
        base64_standard(s) is None ==> decoded_text(base64_decoded(s)) == decoded_text(base64_standard_no_pad(s)),
        base64_standard(s) is Some ==> base64_decoded(s) == base64_standard(s),
{
}

/// Under a `Strict` policy every finding of that layer's kind is a strict
/// hit, whatever its severity; unicode findings never are.
pub proof fn law_strict_policy_covers_its_kind(f: FindingView, c: crate::config::ArmorConfig)
    ensures
        f.kind is EncodedPayload && c.encoding_policy == Policy::Strict ==> strict_hit(f, c),
        f.kind is DangerousPattern && c.pattern_policy == Policy::Strict ==> strict_hit(f, c),
        f.kind is FenceMarker && c.fence_policy == Policy::Strict ==> strict_hit(f, c),
        f.kind is FenceMarker && c.fence_policy != Policy::Strict ==> !strict_hit(f, c),
        f.kind is DangerousPattern && c.pattern_policy != Policy::Strict ==> !strict_hit(f, c),
        f.kind is EncodedPayload && c.encoding_policy != Policy::Strict ==> !strict_hit(f, c),
        f.kind is UnicodeAnomaly ==> !strict_hit(f, c),
{
}

/// A non-empty input with any finding of a kind whose policy is `Strict` is
/// refused, whatever the findings' severities and the signal loss.
pub proof fn law_strict_finding_refuses(
    original: int,
    sanitized: int,
    fs: Seq<FindingView>,
    c: crate::config::ArmorConfig,
    i: int,
)
    requires
        original != 0,
        0 <= i < fs.len(),
        (fs[i].kind is EncodedPayload && c.encoding_policy == Policy::Strict) || (fs[i].kind is DangerousPattern
            && c.pattern_policy == Policy::Strict) || (fs[i].kind is FenceMarker && c.fence_policy
            == Policy::Strict),
    ensures
        rejects(original, sanitized, fs, c),
{
    assert(strict_hit(fs[i], c));
}

/// Every ASCII pattern longer than `2 * MAX_TOTAL_DISTANCE` characters with
/// at least one and at most as many tokens as the input is compared with
/// the input's windows, single-word patterns included.
pub proof fn law_typo_eligible_patterns_are_compared(p: Seq<char>, ntoks: int)
    ensures
        fuzzy_eligible(p) && 0 < pattern_tokens(p).len() <= ntoks ==> fuzzy_candidate(p, ntoks),
        !(0 < pattern_tokens(p).len() <= ntoks) ==> !fuzzy_candidate(p, ntoks),
{
}

/// The look-alike table: each Cyrillic or Greek letter resolves to the
/// Latin letter it is drawn like.
pub proof fn law_homoglyph_table()
    ensures
        homoglyph_of('\u{0410}') == Some('A'),
        homoglyph_of('\u{0412}') == Some('B'),
        homoglyph_of('\u{0415}') == Some('E'),
        homoglyph_of('\u{041A}') == Some('K'),
        homoglyph_of('\u{041C}') == Some('M'),
        homoglyph_of('\u{041D}') == Some('H'),
        homoglyph_of('\u{041E}') == Some('O'),
        homoglyph_of('\u{0420}') == Some('P'),
        homoglyph_of('\u{0421}') == Some('C'),
        homoglyph_of('\u{0422}') == Some('T'),
        homoglyph_of('\u{0425}') == Some('X'),
        homoglyph_of('\u{0406}') == Some('I'),
        homoglyph_of('\u{0408}') == Some('J'),
        homoglyph_of('\u{0430}') == Some('a'),
        homoglyph_of('\u{0435}') == Some('e'),
        homoglyph_of('\u{043E}') == Some('o'),
        homoglyph_of('\u{0440}') == Some('p'),
        homoglyph_of('\u{0441}') == Some('c'),
        homoglyph_of('\u{0445}') == Some('x'),
        homoglyph_of('\u{0443}') == Some('y'),
        homoglyph_of('\u{0456}') == Some('i'),
        homoglyph_of('\u{0458}') == Some('j'),
        homoglyph_of('\u{0391}') == Some('A'),
        homoglyph_of('\u{0392}') == Some('B'),
        homoglyph_of('\u{0395}') == Some('E'),
        homoglyph_of('\u{0396}') == Some('Z'),
        homoglyph_of('\u{0397}') == Some('H'),
        homoglyph_of('\u{0399}') == Some('I'),
        homoglyph_of('\u{039A}') == Some('K'),
        homoglyph_of('\u{039C}') == Some('M'),
        homoglyph_of('\u{039D}') == Some('N'),
        homoglyph_of('\u{039F}') == Some('O'),
        homoglyph_of('\u{03A1}') == Some('P'),
        homoglyph_of('\u{03A4}') == Some('T'),
        homoglyph_of('\u{03A5}') == Some('Y'),
        homoglyph_of('\u{03A7}') == Some('X'),
        homoglyph_of('\u{03BF}') == Some('o'),
        homoglyph_of('a') is None,
        homoglyph_of('p') is None,
{
}

/// A capital Cyrillic (U+0400 to U+042F) or Greek (U+0391 to U+03A9) letter.
pub open spec fn is_capital_letter(c: char) -> bool {
    ('\u{0400}' <= c <= '\u{042F}') || ('\u{0391}' <= c <= '\u{03A9}')
}

/// The small letter of a capital Cyrillic or Greek letter (other characters
/// are left alone).
pub open spec fn small_letter(c: char) -> char {
    if '\u{0410}' <= c <= '\u{042F}' || '\u{0391}' <= c <= '\u{03A9}' {
        ((c as u32) + 0x20) as char
    } else if '\u{0400}' <= c <= '\u{040F}' {
        ((c as u32) + 0x50) as char
    } else {
        c
    }
}

/// The small Latin letter of a capital one.
pub open spec fn latin_small(c: char) -> char {
    if 'A' <= c <= 'Z' {
        ((c as u32) + 0x20) as char
    } else {
        c
    }
}

/// Homoglyphs keep the case: a capital resolves to a capital Latin letter,
/// a small letter to a small one; and where both cases of a letter are
/// look-alikes, the small one resolves to the small form of what the capital
/// resolves to.
pub proof fn law_homoglyph_keeps_case(c: char)
    ensures
        homoglyph_of(c) is Some && is_capital_letter(c) ==> 'A' <= homoglyph_of(c)->0 <= 'Z',
        homoglyph_of(c) is Some && !is_capital_letter(c) ==> 'a' <= homoglyph_of(c)->0 <= 'z',
        homoglyph_of(c) is Some && is_capital_letter(c) && homoglyph_of(small_letter(c)) is Some ==> homoglyph_of(
            small_letter(c),
        ) == Some(latin_small(homoglyph_of(c)->0)),
{
}

/// The rendered prompt carries the armored value's findings as its
/// warnings, whatever the framing; bare framing passes both texts through
/// and tagged framing keeps the user text between its data tags.
pub proof fn law_render_keeps_findings_and_text(a: ArmoredView)
    ensures
        rendered(a).warnings == a.findings,
        a.framing == Framing::Bare ==> rendered(a).system == a.system && rendered(a).user == a.user,
        a.framing == Framing::Tagged ==> rendered(a).user == "<user_data>\n"@ + a.user + "\n</user_data>"@,
{
}

} // verus!
