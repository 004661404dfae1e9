//! Dangerous-pattern detection: exact multi-pattern match (first pass) and
//! Levenshtein fuzzy match over whitespace-separated tokens (second pass).

use vstd::prelude::*;
use vstd::string::StringSliceAdditionalSpecFns;
use vstd::utf8::*;
use crate::catalog::{all_default, default_phrases, str_views};
use crate::config::Policy;
use crate::laws::{law_warn_findings_left_to_right, spans_left_to_right};
use crate::layers::fence::{lemma_redaction_bytes, lemma_redaction_keeps_marker_free, marker_free, redaction_shape};
use crate::finding::{finding_views, Finding, FindingKind, FindingView, KindView, Severity};
use crate::util::{
    byte_len, bytes_of, decimal, lemma_after_ascii, lemma_snap_bounds, push_decimal, replaced_bytes, safe_replace_range,
    snap_left_spec, snap_right_spec,
};
use std::borrow::Cow;
use vstd::string::StringExecFns;

verus! {

broadcast use vstd::utf8::group_utf8_lib;

// ---------------------------------------------------------------------
// Tokenizing on ASCII whitespace
// ---------------------------------------------------------------------

/// A separator byte: ASCII whitespace, plus the vertical tab when `vt` holds
/// (the vertical tab is Unicode whitespace but not ASCII whitespace).
pub open spec fn is_sep(c: u8, vt: bool) -> bool {
    c == 0x20 || c == 0x09 || c == 0x0a || c == 0x0c || c == 0x0d || (vt && c == 0x0b)
}

/// First index at or after `i` that is not a separator.
pub open spec fn skip_seps(b: Seq<u8>, i: int, vt: bool) -> int
    decreases b.len() - i,
{
    if 0 <= i < b.len() && is_sep(b[i], vt) {
        skip_seps(b, i + 1, vt)
    } else {
        i
    }
}

/// First index at or after `i` that is a separator (or the end).
pub open spec fn skip_word(b: Seq<u8>, i: int, vt: bool) -> int
    decreases b.len() - i,
{
    if 0 <= i < b.len() && !is_sep(b[i], vt) {
        skip_word(b, i + 1, vt)
    } else {
        i
    }
}

pub proof fn lemma_skip_seps(b: Seq<u8>, i: int, vt: bool)
    requires
        0 <= i <= b.len(),
    ensures
        i <= skip_seps(b, i, vt) <= b.len(),
        skip_seps(b, i, vt) < b.len() ==> !is_sep(b[skip_seps(b, i, vt)], vt),
        forall|k: int| i <= k < skip_seps(b, i, vt) ==> is_sep(#[trigger] b[k], vt),
    decreases b.len() - i,
{
    if i < b.len() && is_sep(b[i], vt) {
        lemma_skip_seps(b, i + 1, vt);
    }
}

pub proof fn lemma_skip_word(b: Seq<u8>, i: int, vt: bool)
    requires
        0 <= i <= b.len(),
    ensures
        i <= skip_word(b, i, vt) <= b.len(),
        i < b.len() && !is_sep(b[i], vt) ==> i < skip_word(b, i, vt),
        skip_word(b, i, vt) < b.len() ==> is_sep(b[skip_word(b, i, vt)], vt),
        forall|k: int| i <= k < skip_word(b, i, vt) ==> !is_sep(#[trigger] b[k], vt),
    decreases b.len() - i,
{
    if i < b.len() && !is_sep(b[i], vt) {
        lemma_skip_word(b, i + 1, vt);
    }
}

/// Byte ranges of the maximal separator-free runs of `b` at or after `i`.
pub open spec fn tokens_from(b: Seq<u8>, i: int, vt: bool) -> Seq<(int, int)>
    decreases b.len() - i,
    when 0 <= i <= b.len()
{
    let s = skip_seps(b, i, vt);
    proof {
        lemma_skip_seps(b, i, vt);
    }
    if s >= b.len() {
        seq![]
    } else {
        let e = skip_word(b, s, vt);
        proof {
            lemma_skip_word(b, s, vt);
        }
        seq![(s, e)] + tokens_from(b, e, vt)
    }
}

/// Byte ranges of the tokens of `b` split on ASCII whitespace.
pub open spec fn ws_tokens(b: Seq<u8>) -> Seq<(int, int)> {
    tokens_from(b, 0, false)
}

proof fn lemma_tokens_from_bounds(b: Seq<u8>, i: int, vt: bool)
    requires
        0 <= i <= b.len(),
    ensures
        forall|k: int|
            0 <= k < tokens_from(b, i, vt).len() ==> {
                let t = #[trigger] tokens_from(b, i, vt)[k];
                &&& i <= t.0 < t.1 <= b.len()
                &&& !is_sep(b[t.0], vt)
                &&& (t.1 < b.len() ==> is_sep(b[t.1], vt))
                &&& (t.0 > i ==> is_sep(b[t.0 - 1], vt))
            },
    decreases b.len() - i,
{
    lemma_skip_seps(b, i, vt);
    let s = skip_seps(b, i, vt);
    if s < b.len() {
        lemma_skip_word(b, s, vt);
        let e = skip_word(b, s, vt);
        lemma_tokens_from_bounds(b, e, vt);
        let ts = tokens_from(b, i, vt);
        assert forall|k: int| 0 <= k < ts.len() implies {
            let t = #[trigger] ts[k];
            &&& i <= t.0 < t.1 <= b.len()
            &&& !is_sep(b[t.0], vt)
            &&& (t.1 < b.len() ==> is_sep(b[t.1], vt))
            &&& (t.0 > i ==> is_sep(b[t.0 - 1], vt))
        } by {
            if k > 0 {
                assert(ts[k] == tokens_from(b, e, vt)[k - 1]);
            } else {
                if s > i {
                    assert(is_sep(b[s - 1], vt));
                }
            }
        }
    }
}

/// Tokenize on ASCII whitespace, returning (byte offset, token) pairs.
pub fn tokenize_whitespace(s: &str) -> (r: Vec<(usize, &str)>)
    ensures
        r@.len() == ws_tokens(s.spec_bytes()).len(),
        forall|k: int|
            0 <= k < r@.len() ==> {
                let t = ws_tokens(s.spec_bytes())[k];
                &&& (#[trigger] r@[k]).0 == t.0
                &&& r@[k].1.spec_bytes() == s.spec_bytes().subrange(t.0, t.1)
            },
{
    tokenize_with(s, false)
}

fn is_sep_byte(c: u8, vt: bool) -> (r: bool)
    ensures
        r == is_sep(c, vt),
{
    c == 0x20 || c == 0x09 || c == 0x0a || c == 0x0c || c == 0x0d || (vt && c == 0x0b)
}

fn tokenize_with(s: &str, vt: bool) -> (r: Vec<(usize, &str)>)
    ensures
        r@.len() == tokens_from(s.spec_bytes(), 0, vt).len(),
        forall|k: int|
            0 <= k < r@.len() ==> {
                let t = tokens_from(s.spec_bytes(), 0, vt)[k];
                &&& (#[trigger] r@[k]).0 == t.0
                &&& r@[k].1.spec_bytes() == s.spec_bytes().subrange(t.0, t.1)
            },
{
    let ghost b = s.spec_bytes();
    let bytes = s.as_bytes();
    let n = bytes.len();
    let mut out: Vec<(usize, &str)> = Vec::new();
    let mut i: usize = 0;
    proof {
        lemma_tokens_from_bounds(b, 0, vt);
    }
    while i < n
        invariant_except_break
            i == 0 || i >= n || is_sep(b[i as int], vt),
            out@.len() + tokens_from(b, i as int, vt).len() == tokens_from(b, 0, vt).len(),
            forall|k: int|
                0 <= k < tokens_from(b, i as int, vt).len() ==> #[trigger] tokens_from(
                    b,
                    i as int,
                    vt,
                )[k] == tokens_from(b, 0, vt)[out@.len() + k],
        invariant
            bytes@ == b,
            n == b.len(),
            i <= n,
            b == s.spec_bytes(),
            valid_utf8(b),
            forall|k: int|
                0 <= k < out@.len() ==> {
                    let t = tokens_from(b, 0, vt)[k];
                    &&& (#[trigger] out@[k]).0 == t.0
                    &&& out@[k].1.spec_bytes() == b.subrange(t.0, t.1)
                },
        ensures
            out@.len() == tokens_from(b, 0, vt).len(),
            forall|k: int|
                0 <= k < out@.len() ==> {
                    let t = tokens_from(b, 0, vt)[k];
                    &&& (#[trigger] out@[k]).0 == t.0
                    &&& out@[k].1.spec_bytes() == b.subrange(t.0, t.1)
                },
        decreases n - i,
    {
        proof {
            lemma_skip_seps(b, i as int, vt);
        }
        let ghost i0 = i as int;
        while i < n && is_sep_byte(bytes[i], vt)
            invariant
                bytes@ == b,
                n == b.len(),
                i0 <= i <= n,
                skip_seps(b, i as int, vt) == skip_seps(b, i0, vt),
                i > i0 ==> is_sep(b[i - 1], vt),
                i0 == 0 || i0 >= n || is_sep(b[i0], vt),
            decreases n - i,
        {
            i += 1;
        }
        if i >= n {
            proof {
                assert(tokens_from(b, i0, vt) =~= Seq::<(int, int)>::empty());
            }
            break;
        }
        assert(i < n);
        let start = i;
        proof {
            lemma_skip_word(b, start as int, vt);
        }
        while i < n && !is_sep_byte(bytes[i], vt)
            invariant
                bytes@ == b,
                n == b.len(),
                start <= i <= n,
                skip_word(b, i as int, vt) == skip_word(b, start as int, vt),
            decreases n - i,
        {
            i += 1;
        }
        proof {
            if start > 0 {
                lemma_after_ascii(b, start - 1);
            } else {
                is_char_boundary_start_end_of_seq(b);
            }
            if start < n {
                is_char_boundary_iff_not_is_continuation_byte(b, start as int);
            }
        }
        let (_, rest) = s.split_at(start);
        proof {
            let rb = rest.spec_bytes();
            assert(rb =~= b.subrange(start as int, n as int));
            if i < n {
                assert(rb[i - start] == b[i as int]);
                is_char_boundary_iff_not_is_continuation_byte(rb, i - start);
            } else {
                is_char_boundary_start_end_of_seq(rb);
            }
        }
        let (tok, _) = rest.split_at(i - start);
        proof {
            assert(tok.spec_bytes() =~= b.subrange(start as int, i as int));
            let t = tokens_from(b, i0, vt);
            assert(t[0] == (start as int, i as int));
            assert(tokens_from(b, i as int, vt) =~= t.drop_first());
        }
        out.push((start, tok));
        proof {
            let t = tokens_from(b, i0, vt);
            assert(t[0] == tokens_from(b, 0, vt)[out@.len() - 1]);
            assert forall|k: int| 0 <= k < tokens_from(b, i as int, vt).len() implies #[trigger] tokens_from(
                b,
                i as int,
                vt,
            )[k] == tokens_from(b, 0, vt)[out@.len() + k] by {
                assert(tokens_from(b, i as int, vt)[k] == t[k + 1]);
            }
        }
    }
    out
}

// ---------------------------------------------------------------------
// Outside functions
// ---------------------------------------------------------------------

/// What `str::to_lowercase` returns for a string.
pub uninterp spec fn lowercase(s: Seq<char>) -> Seq<char>;

/// Calls `str::to_lowercase`, whose result is named [`lowercase`].
#[verifier::external_body]
fn to_lowercase(s: &str) -> (r: String)
    ensures
        r@ == lowercase(s@),
{
    s.to_lowercase()
}

/// What a leftmost-longest, ASCII-case-insensitive Aho-Corasick automaton
/// over `patterns` reports on `haystack`: `None` when the automaton cannot be
/// built, else the (start byte, end byte, pattern index) of each
/// non-overlapping match, in order.
pub uninterp spec fn leftmost_longest_matches(patterns: Seq<Seq<char>>, haystack: Seq<char>) -> Option<
    Seq<(usize, usize, usize)>,
>;

/// Builds an `aho_corasick::AhoCorasick` automaton (leftmost-longest,
/// ASCII-case-insensitive) over `patterns` and collects `find_iter` on
/// `haystack`. The result is named [`leftmost_longest_matches`]; besides
/// that, the contract claims what the crate documents of every match: its
/// pattern index is the position of a given pattern and its span lies within
/// the haystack.
#[verifier::external_body]
fn find_leftmost_longest(patterns: &Vec<&str>, haystack: &str) -> (r: Option<
    Vec<(usize, usize, usize)>,
>)
    ensures
        match r {
            Some(v) => leftmost_longest_matches(str_views(patterns@), haystack@) == Some(v@),
            None => leftmost_longest_matches(str_views(patterns@), haystack@) is None,
        },
        r matches Some(v) ==> forall|k: int|
            0 <= k < v@.len() ==> {
                &&& (#[trigger] v@[k]).0 <= v@[k].1 <= haystack.spec_bytes().len()
                &&& v@[k].2 < patterns@.len()
            },
{
    let ac = aho_corasick::AhoCorasickBuilder::new()
        .match_kind(aho_corasick::MatchKind::LeftmostLongest)
        .ascii_case_insensitive(true)
        .build(patterns)
        .ok()?;
    Some(ac.find_iter(haystack).map(|m| (m.start(), m.end(), m.pattern().as_usize())).collect())
}

/// The Levenshtein distance: the minimum number of single-character
/// insertions, deletions and substitutions that turn `a` into `b`.
pub open spec fn levenshtein(a: Seq<char>, b: Seq<char>) -> nat
    decreases a.len() + b.len(),
{
    if a.len() == 0 {
        b.len()
    } else if b.len() == 0 {
        a.len()
    } else {
        let del = levenshtein(a.drop_last(), b) + 1;
        let ins = levenshtein(a, b.drop_last()) + 1;
        let sub = levenshtein(a.drop_last(), b.drop_last()) + (if a.last() == b.last() {
            0nat
        } else {
            1nat
        });
        if del <= ins && del <= sub {
            del
        } else if ins <= sub {
            ins
        } else {
            sub
        }
    }
}

/// Calls `strsim::levenshtein`, which computes the Levenshtein distance
/// between the characters of `a` and `b`.
#[verifier::external_body]
fn edit_distance(a: &str, b: &str) -> (r: usize)
    ensures
        r == levenshtein(a@, b@),
{
    strsim::levenshtein(a, b)
}

// ---------------------------------------------------------------------
// What the detector finds
// ---------------------------------------------------------------------

/// A detected occurrence: (start byte, end byte, pattern index, edit distance).
pub type Hit = (usize, usize, usize, u8);

/// Largest total edit distance of a fuzzy match.
pub const MAX_TOTAL_DISTANCE: usize = 2;

/// The patterns searched for: the default catalog followed by `extra`.
pub open spec fn combined_patterns(extra: Seq<Seq<char>>) -> Seq<Seq<char>> {
    default_phrases() + extra
}

/// The exact matches of `pats` in `lowered` that stand at word boundaries,
/// with distance 0.
pub open spec fn exact_hits(pats: Seq<Seq<char>>, lowered: Seq<char>) -> Seq<Hit> {
    match leftmost_longest_matches(pats, lowered) {
        Some(ms) => word_matches(bytes_of(lowered), ms),
        None => seq![],
    }
}

/// A letter, digit or underscore (ASCII): a byte that continues a word.
pub open spec fn is_word_byte(c: u8) -> bool {
    (0x30 <= c <= 0x39) || (0x41 <= c <= 0x5a) || (0x61 <= c <= 0x7a) || c == 0x5f
}

/// The match `b[s..e]` neither starts nor ends inside a word: where its first
/// (last) byte is a word byte, the byte before (after) it is not.
pub open spec fn at_word_boundaries(b: Seq<u8>, s: int, e: int) -> bool {
    &&& (s <= 0 || s >= b.len() || !is_word_byte(b[s - 1]) || !is_word_byte(b[s]))
    &&& (e <= 0 || e >= b.len() || !is_word_byte(b[e]) || !is_word_byte(b[e - 1]))
}

/// The matches of `ms` that stand at word boundaries of `b`, with distance 0.
pub open spec fn word_matches(b: Seq<u8>, ms: Seq<(usize, usize, usize)>) -> Seq<Hit>
    decreases ms.len(),
{
    if ms.len() == 0 {
        seq![]
    } else {
        let m = ms.last();
        let prev = word_matches(b, ms.drop_last());
        if at_word_boundaries(b, m.0 as int, m.1 as int) {
            prev.push((m.0, m.1, m.2, 0u8))
        } else {
            prev
        }
    }
}

proof fn lemma_word_matches_members(b: Seq<u8>, ms: Seq<(usize, usize, usize)>)
    ensures
        forall|k: int|
            0 <= k < word_matches(b, ms).len() ==> exists|j: int|
                0 <= j < ms.len() && #[trigger] word_matches(b, ms)[k] == (ms[j].0, ms[j].1, ms[j].2, 0u8),
    decreases ms.len(),
{
    if ms.len() > 0 {
        lemma_word_matches_members(b, ms.drop_last());
        let prev = word_matches(b, ms.drop_last());
        assert forall|k: int| 0 <= k < word_matches(b, ms).len() implies exists|j: int|
            0 <= j < ms.len() && #[trigger] word_matches(b, ms)[k] == (ms[j].0, ms[j].1, ms[j].2, 0u8) by {
            if k < prev.len() {
                let j = choose|j: int| 0 <= j < ms.drop_last().len() && prev[k] == (ms.drop_last()[j].0, ms.drop_last()[j].1, ms.drop_last()[j].2, 0u8);
                assert(ms.drop_last()[j] == ms[j]);
            } else {
                assert(word_matches(b, ms)[k] == (ms[ms.len() - 1].0, ms[ms.len() - 1].1, ms[ms.len() - 1].2, 0u8));
            }
        }
    }
}

/// The characters of the token of `b` at byte range `t`.
pub open spec fn token_text(b: Seq<u8>, t: (int, int)) -> Seq<char> {
    decode_utf8(b.subrange(t.0, t.1))
}

/// The tokens of a pattern, split on whitespace (for an ASCII pattern the
/// whitespace characters are the ASCII ones and the vertical tab).
pub open spec fn pattern_tokens(p: Seq<char>) -> Seq<(int, int)> {
    tokens_from(bytes_of(p), 0, true)
}

/// Total length of a list of token ranges (for ASCII tokens: their characters).
pub open spec fn tokens_len_sum(ts: Seq<(int, int)>) -> int
    decreases ts.len(),
{
    if ts.len() == 0 {
        0
    } else {
        tokens_len_sum(ts.drop_last()) + (ts.last().1 - ts.last().0)
    }
}

/// A pattern may match with typos (distance 1 to `MAX_TOTAL_DISTANCE`)
/// when it is ASCII and longer than `2 * MAX_TOTAL_DISTANCE` characters.
pub open spec fn fuzzy_eligible(p: Seq<char>) -> bool {
    &&& is_ascii_chars(p)
    &&& tokens_len_sum(pattern_tokens(p)) > 2 * MAX_TOTAL_DISTANCE
}

/// A pattern is compared token by token with windows of the input when it
/// has at least one token and no more tokens than the input, and either may
/// match with typos or has several words (so that its words still match
/// when separated by a run of whitespace).
pub open spec fn fuzzy_candidate(p: Seq<char>, ntoks: int) -> bool {
    let pt = pattern_tokens(p);
    &&& 0 < pt.len() <= ntoks
    &&& (fuzzy_eligible(p) || pt.len() >= 2)
}

/// Sum of the distances between the first `j` tokens of the input window
/// starting at token `w` and the first `j` pattern tokens.
pub open spec fn window_distance(
    lb: Seq<u8>,
    lt: Seq<(int, int)>,
    w: int,
    pb: Seq<u8>,
    pt: Seq<(int, int)>,
    j: int,
) -> nat
    decreases j,
{
    if j <= 0 {
        0
    } else {
        window_distance(lb, lt, w, pb, pt, j - 1) + levenshtein(
            token_text(lb, lt[w + j - 1]),
            token_text(pb, pt[j - 1]),
        )
    }
}

/// Whether `[s, e)` overlaps one of `hits`.
pub open spec fn overlaps_any(hits: Seq<Hit>, s: int, e: int) -> bool {
    exists|i: int| 0 <= i < hits.len() && !(e <= (#[trigger] hits[i]).0 || s >= hits[i].1)
}

/// Token-wise hits of one pattern at windows `w, w+1, ...` of the input
/// tokens: a window whose words equal the pattern's (whatever whitespace
/// separates them), or, for a pattern that may match with typos, one within
/// `MAX_TOTAL_DISTANCE`; in both cases only where no exact match overlaps.
pub open spec fn fuzzy_windows(
    lb: Seq<u8>,
    lt: Seq<(int, int)>,
    pb: Seq<u8>,
    pt: Seq<(int, int)>,
    pid: int,
    exact: Seq<Hit>,
    w: int,
) -> Seq<Hit>
    decreases lt.len() - w,
{
    if w < 0 || w + pt.len() > lt.len() || pt.len() == 0 {
        seq![]
    } else {
        let d = window_distance(lb, lt, w, pb, pt, pt.len() as int);
        let s = lt[w].0;
        let e = lt[w + pt.len() - 1].1;
        let here = if (d == 0 || fuzzy_eligible(decode_utf8(pb))) && d <= MAX_TOTAL_DISTANCE && !overlaps_any(
            exact,
            s,
            e,
        ) {
            seq![(s as usize, e as usize, pid as usize, d as u8)]
        } else {
            seq![]
        };
        here + fuzzy_windows(lb, lt, pb, pt, pid, exact, w + 1)
    }
}

/// Fuzzy hits of pattern `pid` in the lowered input bytes `lb`.
pub open spec fn fuzzy_for(pats: Seq<Seq<char>>, pid: int, lb: Seq<u8>, exact: Seq<Hit>) -> Seq<
    Hit,
> {
    let p = pats[pid];
    let lt = ws_tokens(lb);
    if fuzzy_candidate(p, lt.len() as int) {
        fuzzy_windows(lb, lt, bytes_of(p), pattern_tokens(p), pid, exact, 0)
    } else {
        seq![]
    }
}

/// Fuzzy hits of the first `n` patterns, pattern by pattern.
pub open spec fn fuzzy_upto(pats: Seq<Seq<char>>, n: int, lb: Seq<u8>, exact: Seq<Hit>) -> Seq<Hit>
    decreases n,
{
    if n <= 0 {
        seq![]
    } else {
        fuzzy_upto(pats, n - 1, lb, exact) + fuzzy_for(pats, n - 1, lb, exact)
    }
}

/// Everything the detector finds in `lowered`: the exact matches followed by
/// the fuzzy matches that overlap none of them.
pub open spec fn detected_hits(pats: Seq<Seq<char>>, lowered: Seq<char>) -> Seq<Hit> {
    let exact = exact_hits(pats, lowered);
    exact + fuzzy_upto(pats, pats.len() as int, bytes_of(lowered), exact)
}

// ---------------------------------------------------------------------
// Exact and fuzzy passes
// ---------------------------------------------------------------------

fn is_word_byte_exec(c: u8) -> (r: bool)
    ensures
        r == is_word_byte(c),
{
    (0x30 <= c && c <= 0x39) || (0x41 <= c && c <= 0x5a) || (0x61 <= c && c <= 0x7a) || c == 0x5f
}

fn word_boundaries(b: &[u8], s: usize, e: usize) -> (r: bool)
    ensures
        r == at_word_boundaries(b@, s as int, e as int),
{
    let n = b.len();
    let start_ok = s == 0 || s >= n || !is_word_byte_exec(b[s - 1]) || !is_word_byte_exec(b[s]);
    let end_ok = e == 0 || e >= n || !is_word_byte_exec(b[e]) || !is_word_byte_exec(b[e - 1]);
    start_ok && end_ok
}

fn exact_matches(pats: &Vec<&str>, lowered: &str) -> (r: Vec<Hit>)
    ensures
        r@ == exact_hits(str_views(pats@), lowered@),
        forall|k: int|
            0 <= k < r@.len() ==> {
                &&& (#[trigger] r@[k]).0 <= r@[k].1 <= lowered.spec_bytes().len()
                &&& r@[k].2 < pats@.len()
            },
{
    let found = find_leftmost_longest(pats, lowered);
    let mut out: Vec<Hit> = Vec::new();
    match found {
        Some(ms) => {
            let bytes = lowered.as_bytes();
            let ghost lb = lowered.spec_bytes();
            let mut i: usize = 0;
            proof {
                assert(ms@.subrange(0, 0) =~= Seq::<(usize, usize, usize)>::empty());
            }
            while i < ms.len()
                invariant
                    i <= ms@.len(),
                    bytes@ == lb,
                    lb == lowered.spec_bytes(),
                    out@ == word_matches(lb, ms@.subrange(0, i as int)),
                    forall|k: int|
                        0 <= k < ms@.len() ==> {
                            &&& (#[trigger] ms@[k]).0 <= ms@[k].1 <= lowered.spec_bytes().len()
                            &&& ms@[k].2 < pats@.len()
                        },
                decreases ms@.len() - i,
            {
                let m = ms[i];
                proof {
                    assert(ms@.subrange(0, i + 1).drop_last() =~= ms@.subrange(0, i as int));
                    assert(ms@.subrange(0, i + 1).last() == m);
                }
                if word_boundaries(bytes, m.0, m.1) {
                    out.push((m.0, m.1, m.2, 0u8));
                }
                i += 1;
            }
            proof {
                assert(ms@.subrange(0, ms@.len() as int) =~= ms@);
                lemma_word_matches_members(lb, ms@);
                assert forall|k: int| 0 <= k < out@.len() implies {
                    &&& (#[trigger] out@[k]).0 <= out@[k].1 <= lowered.spec_bytes().len()
                    &&& out@[k].2 < pats@.len()
                } by {
                    let j = choose|j: int| 0 <= j < ms@.len() && word_matches(lb, ms@)[k] == (ms@[j].0, ms@[j].1, ms@[j].2, 0u8);
                    assert(ms@[j].0 <= ms@[j].1);
                }
            }
        },
        None => {},
    }
    out
}

proof fn lemma_window_distance_mono(
    lb: Seq<u8>,
    lt: Seq<(int, int)>,
    w: int,
    pb: Seq<u8>,
    pt: Seq<(int, int)>,
    j: int,
    k: int,
)
    requires
        j <= k,
    ensures
        window_distance(lb, lt, w, pb, pt, j) <= window_distance(lb, lt, w, pb, pt, k),
    decreases k - j,
{
    if j < k {
        lemma_window_distance_mono(lb, lt, w, pb, pt, j, k - 1);
    }
}

/// Relates a list of token slices to the token ranges of their text.
pub open spec fn tokens_match(toks: Seq<(usize, &str)>, b: Seq<u8>, ranges: Seq<(int, int)>) -> bool {
    &&& toks.len() == ranges.len()
    &&& forall|k: int|
        0 <= k < toks.len() ==> {
            &&& (#[trigger] toks[k]).0 == ranges[k].0
            &&& toks[k].1.spec_bytes() == b.subrange(ranges[k].0, ranges[k].1)
        }
}

/// Total distance of the window at token `w`, saturated at `MAX_TOTAL_DISTANCE + 1`.
fn window_total(
    toks: &Vec<(usize, &str)>,
    w: usize,
    ptoks: &Vec<(usize, &str)>,
    Ghost(lb): Ghost<Seq<u8>>,
    Ghost(pb): Ghost<Seq<u8>>,
) -> (r: usize)
    requires
        tokens_match(toks@, lb, ws_tokens(lb)),
        tokens_match(ptoks@, pb, tokens_from(pb, 0, true)),
        w + ptoks@.len() <= toks@.len(),
    ensures
        r <= MAX_TOTAL_DISTANCE ==> r == window_distance(
            lb,
            ws_tokens(lb),
            w as int,
            pb,
            tokens_from(pb, 0, true),
            ptoks@.len() as int,
        ),
        r > MAX_TOTAL_DISTANCE ==> window_distance(
            lb,
            ws_tokens(lb),
            w as int,
            pb,
            tokens_from(pb, 0, true),
            ptoks@.len() as int,
        ) > MAX_TOTAL_DISTANCE,
{
    let ghost lt = ws_tokens(lb);
    let ghost pt = tokens_from(pb, 0, true);
    let k = ptoks.len();
    let mut total: usize = 0;
    let mut j: usize = 0;
    while j < k
        invariant
            lt == ws_tokens(lb),
            pt == tokens_from(pb, 0, true),
            tokens_match(toks@, lb, lt),
            tokens_match(ptoks@, pb, pt),
            w + k <= toks.len(),
            k == ptoks@.len(),
            j <= k,
            total <= MAX_TOTAL_DISTANCE,
            total == window_distance(lb, lt, w as int, pb, pt, j as int),
        decreases k - j,
    {
        let a = toks[w + j].1;
        let b = ptoks[j].1;
        let d = edit_distance(a, b);
        proof {
            assert(a@ == token_text(lb, lt[w + j]));
            assert(b@ == token_text(pb, pt[j as int]));
        }
        proof {
            assert(window_distance(lb, lt, w as int, pb, pt, j + 1) == total + d);
        }
        if d > MAX_TOTAL_DISTANCE - total {
            proof {
                lemma_window_distance_mono(lb, lt, w as int, pb, pt, j + 1, k as int);
            }
            return MAX_TOTAL_DISTANCE + 1;
        }
        total = total + d;
        j += 1;
    }
    total
}

fn overlaps_exact(exact: &Vec<Hit>, s: usize, e: usize) -> (r: bool)
    ensures
        r == overlaps_any(exact@, s as int, e as int),
{
    let mut i: usize = 0;
    while i < exact.len()
        invariant
            i <= exact@.len(),
            forall|k: int| 0 <= k < i ==> (e <= (#[trigger] exact@[k]).0 || s >= exact@[k].1),
        decreases exact@.len() - i,
    {
        if !(e <= exact[i].0 || s >= exact[i].1) {
            proof {
                assert(!(e <= exact@[i as int].0 || s >= exact@[i as int].1));
            }
            return true;
        }
        i += 1;
    }
    false
}

proof fn lemma_tokens_len_sum_prefix(ts: Seq<(int, int)>, j: int)
    requires
        0 <= j < ts.len(),
    ensures
        tokens_len_sum(ts.take(j + 1)) == tokens_len_sum(ts.take(j)) + (ts[j].1 - ts[j].0),
{
    assert(ts.take(j + 1).drop_last() =~= ts.take(j));
}

proof fn lemma_tokens_len_sum_mono(ts: Seq<(int, int)>, j: int, k: int)
    requires
        0 <= j <= k <= ts.len(),
        forall|i: int| 0 <= i < ts.len() ==> (#[trigger] ts[i]).0 <= ts[i].1,
    ensures
        tokens_len_sum(ts.take(j)) <= tokens_len_sum(ts.take(k)),
    decreases k - j,
{
    if j < k {
        lemma_tokens_len_sum_mono(ts, j, k - 1);
        lemma_tokens_len_sum_prefix(ts, k - 1);
    }
}

/// Fuzzy hits of one pattern.
fn fuzzy_for_pattern(
    pat: &str,
    pid: usize,
    toks: &Vec<(usize, &str)>,
    exact: &Vec<Hit>,
    Ghost(lb): Ghost<Seq<u8>>,
) -> (r: Vec<Hit>)
    requires
        tokens_match(toks@, lb, ws_tokens(lb)),
        lb.len() <= usize::MAX,
    ensures
        r@ == (if fuzzy_candidate(pat@, toks@.len() as int) {
            fuzzy_windows(
                lb,
                ws_tokens(lb),
                bytes_of(pat@),
                pattern_tokens(pat@),
                pid as int,
                exact@,
                0,
            )
        } else {
            seq![]
        }),
{
    let ghost lt = ws_tokens(lb);
    let ghost pb = bytes_of(pat@);
    let ghost pt = pattern_tokens(pat@);
    let mut out: Vec<Hit> = Vec::new();
    let ascii = pat.is_ascii();
    let ptoks = tokenize_with(pat, true);
    let k = ptoks.len();
    if k == 0 || k > toks.len() {
        return out;
    }
    proof {
        lemma_tokens_from_bounds(pb, 0, true);
        lemma_tokens_from_bounds(lb, 0, false);
    }
    // the pattern's characters (its bytes, the pattern being ASCII)
    let mut sum: usize = 0;
    let mut j: usize = 0;
    let mut long_enough = false;
    proof {
        assert(pt.take(k as int) =~= pt);
    }
    while j < k
        invariant_except_break
            !long_enough,
        invariant
            pt.take(k as int) == pt,
            pt == tokens_from(pb, 0, true),
            tokens_match(ptoks@, pb, pt),
            k == ptoks@.len(),
            j <= k,
            sum <= 2 * MAX_TOTAL_DISTANCE,
            sum == tokens_len_sum(pt.take(j as int)),
            forall|i: int| 0 <= i < pt.len() ==> (#[trigger] pt[i]).0 <= pt[i].1,
            forall|i: int| 0 <= i < pt.len() ==> (#[trigger] pt[i]).1 <= pb.len(),
        ensures
            long_enough == (tokens_len_sum(pt) > 2 * MAX_TOTAL_DISTANCE),
        decreases k - j,
    {
        let l = crate::util::byte_len(ptoks[j].1);
        proof {
            lemma_tokens_len_sum_prefix(pt, j as int);
            assert(l == pt[j as int].1 - pt[j as int].0);
        }
        if l > 2 * MAX_TOTAL_DISTANCE - sum {
            long_enough = true;
            proof {
                lemma_tokens_len_sum_mono(pt, j + 1, k as int);
            }
            break;
        }
        sum = sum + l;
        j += 1;
    }
    let typos = ascii && long_enough;
    proof {
        assert(decode_utf8(pb) == pat@);
        assert(typos == fuzzy_eligible(pat@));
    }
    if !typos && k < 2 {
        return out;
    }
    let mut w: usize = 0;
    while w <= toks.len() - k
        invariant
            lt == ws_tokens(lb),
            pb == bytes_of(pat@),
            typos == fuzzy_eligible(decode_utf8(pb)),
            pt == pattern_tokens(pat@),
            tokens_match(toks@, lb, lt),
            tokens_match(ptoks@, pb, pt),
            k == ptoks@.len(),
            0 < k <= toks@.len(),
            w <= toks@.len(),
            lb.len() <= usize::MAX,
            forall|i: int| 0 <= i < lt.len() ==> (#[trigger] lt[i]).0 < lt[i].1 <= lb.len(),
            out@ + fuzzy_windows(lb, lt, pb, pt, pid as int, exact@, w as int) == fuzzy_windows(
                lb,
                lt,
                pb,
                pt,
                pid as int,
                exact@,
                0,
            ),
        decreases toks@.len() - w,
    {
        let d = window_total(toks, w, &ptoks, Ghost(lb), Ghost(pb));
        let ghost here: Seq<Hit> = seq![];
        if (d == 0 || typos) && d <= MAX_TOTAL_DISTANCE {
            let s = toks[w].0;
            let last = toks[w + k - 1];
            let e = last.0 + crate::util::byte_len(last.1);
            if !overlaps_exact(exact, s, e) {
                out.push((s, e, pid, d as u8));
                proof {
                    here = seq![(s, e, pid, d as u8)];
                }
            }
        }
        proof {
            let rest = fuzzy_windows(lb, lt, pb, pt, pid as int, exact@, w + 1);
            assert(fuzzy_windows(lb, lt, pb, pt, pid as int, exact@, w as int) == here + rest);
            assert(out@ + rest =~= (out@.subrange(0, out@.len() - here.len()) + here) + rest);
        }
        w += 1;
    }
    proof {
        assert(fuzzy_windows(lb, lt, pb, pt, pid as int, exact@, w as int) =~= Seq::<Hit>::empty());
        assert(out@ =~= out@ + Seq::<Hit>::empty());
    }
    out
}

proof fn lemma_fuzzy_windows_pid(
    lb: Seq<u8>,
    lt: Seq<(int, int)>,
    pb: Seq<u8>,
    pt: Seq<(int, int)>,
    pid: int,
    exact: Seq<Hit>,
    w: int,
)
    requires
        0 <= pid <= usize::MAX,
    ensures
        forall|i: int|
            0 <= i < fuzzy_windows(lb, lt, pb, pt, pid, exact, w).len() ==> (#[trigger] fuzzy_windows(
                lb,
                lt,
                pb,
                pt,
                pid,
                exact,
                w,
            )[i]).2 == pid,
    decreases lt.len() - w,
{
    if !(w < 0 || w + pt.len() > lt.len() || pt.len() == 0) {
        lemma_fuzzy_windows_pid(lb, lt, pb, pt, pid, exact, w + 1);
        let all = fuzzy_windows(lb, lt, pb, pt, pid, exact, w);
        let rest = fuzzy_windows(lb, lt, pb, pt, pid, exact, w + 1);
        let here = all.subrange(0, all.len() - rest.len());
        assert(all =~= here + rest);
        assert forall|i: int| 0 <= i < all.len() implies (#[trigger] all[i]).2 == pid by {
            if i >= here.len() {
                assert(all[i] == rest[i - here.len()]);
            }
        }
    }
}

proof fn lemma_fuzzy_upto_pid(pats: Seq<Seq<char>>, n: int, lb: Seq<u8>, exact: Seq<Hit>)
    requires
        0 <= n <= pats.len(),
        pats.len() <= usize::MAX,
    ensures
        forall|i: int|
            0 <= i < fuzzy_upto(pats, n, lb, exact).len() ==> (#[trigger] fuzzy_upto(
                pats,
                n,
                lb,
                exact,
            )[i]).2 < n,
    decreases n,
{
    if n > 0 {
        lemma_fuzzy_upto_pid(pats, n - 1, lb, exact);
        let p = pats[n - 1];
        let lt = ws_tokens(lb);
        lemma_fuzzy_windows_pid(lb, lt, bytes_of(p), pattern_tokens(p), n - 1, exact, 0);
        let a = fuzzy_upto(pats, n - 1, lb, exact);
        let b = fuzzy_for(pats, n - 1, lb, exact);
        assert forall|i: int| 0 <= i < (a + b).len() implies (#[trigger] (a + b)[i]).2 < n by {
            if i >= a.len() {
                assert((a + b)[i] == b[i - a.len()]);
            }
        }
    }
}

/// Tokens come in order: each ends no later than any later one starts.
proof fn lemma_tokens_ascending(b: Seq<u8>, i: int, vt: bool)
    requires
        0 <= i <= b.len(),
    ensures
        forall|k: int, l: int|
            0 <= k < l < tokens_from(b, i, vt).len() ==> (#[trigger] tokens_from(b, i, vt)[k]).1 <= (
            #[trigger] tokens_from(b, i, vt)[l]).0,
    decreases b.len() - i,
{
    lemma_skip_seps(b, i, vt);
    let s = skip_seps(b, i, vt);
    if s < b.len() {
        lemma_skip_word(b, s, vt);
        let e = skip_word(b, s, vt);
        lemma_tokens_ascending(b, e, vt);
        lemma_tokens_from_bounds(b, e, vt);
        let ts = tokens_from(b, i, vt);
        let rest = tokens_from(b, e, vt);
        assert forall|k: int, l: int| 0 <= k < l < ts.len() implies (#[trigger] ts[k]).1 <= (#[trigger] ts[l]).0 by {
            assert(ts[l] == rest[l - 1]);
            if k > 0 {
                assert(ts[k] == rest[k - 1]);
            }
        }
    }
}

proof fn lemma_fuzzy_windows_spans(
    lb: Seq<u8>,
    pb: Seq<u8>,
    pt: Seq<(int, int)>,
    pid: int,
    exact: Seq<Hit>,
    w: int,
)
    requires
        lb.len() <= usize::MAX,
    ensures
        forall|i: int|
            0 <= i < fuzzy_windows(lb, ws_tokens(lb), pb, pt, pid, exact, w).len() ==> (#[trigger] fuzzy_windows(
                lb,
                ws_tokens(lb),
                pb,
                pt,
                pid,
                exact,
                w,
            )[i]).0 <= fuzzy_windows(lb, ws_tokens(lb), pb, pt, pid, exact, w)[i].1,
    decreases ws_tokens(lb).len() - w,
{
    let lt = ws_tokens(lb);
    if !(w < 0 || w + pt.len() > lt.len() || pt.len() == 0) {
        lemma_fuzzy_windows_spans(lb, pb, pt, pid, exact, w + 1);
        lemma_tokens_from_bounds(lb, 0, false);
        lemma_tokens_ascending(lb, 0, false);
        let all = fuzzy_windows(lb, lt, pb, pt, pid, exact, w);
        let rest = fuzzy_windows(lb, lt, pb, pt, pid, exact, w + 1);
        let here = all.subrange(0, all.len() - rest.len());
        assert(all =~= here + rest);
        let last = w + pt.len() - 1;
        assert(lt[w].0 <= lt[last].1) by {
            if last > w {
                assert(lt[w].1 <= lt[last].0);
            }
        }
        assert forall|i: int| 0 <= i < all.len() implies (#[trigger] all[i]).0 <= all[i].1 by {
            if i >= here.len() {
                assert(all[i] == rest[i - here.len()]);
            }
        }
    }
}

/// Every fuzzy hit starts no later than it ends.
proof fn lemma_fuzzy_upto_spans(pats: Seq<Seq<char>>, n: int, lb: Seq<u8>, exact: Seq<Hit>)
    requires
        0 <= n <= pats.len(),
        lb.len() <= usize::MAX,
    ensures
        forall|i: int|
            0 <= i < fuzzy_upto(pats, n, lb, exact).len() ==> (#[trigger] fuzzy_upto(pats, n, lb, exact)[i]).0
                <= fuzzy_upto(pats, n, lb, exact)[i].1,
    decreases n,
{
    if n > 0 {
        lemma_fuzzy_upto_spans(pats, n - 1, lb, exact);
        let p = pats[n - 1];
        lemma_fuzzy_windows_spans(lb, bytes_of(p), pattern_tokens(p), n - 1, exact, 0);
        let a = fuzzy_upto(pats, n - 1, lb, exact);
        let b = fuzzy_for(pats, n - 1, lb, exact);
        assert forall|i: int| 0 <= i < (a + b).len() implies (#[trigger] (a + b)[i]).0 <= (a + b)[i].1 by {
            if i >= a.len() {
                assert((a + b)[i] == b[i - a.len()]);
            }
        }
    }
}

/// Fuzzy hits of every pattern.
fn fuzzy_pass(
    pats: &Vec<&str>,
    toks: &Vec<(usize, &str)>,
    exact: &Vec<Hit>,
    Ghost(lb): Ghost<Seq<u8>>,
) -> (r: Vec<Hit>)
    requires
        tokens_match(toks@, lb, ws_tokens(lb)),
        lb.len() <= usize::MAX,
    ensures
        r@ == fuzzy_upto(str_views(pats@), pats@.len() as int, lb, exact@),
{
    let ghost views = str_views(pats@);
    let mut out: Vec<Hit> = Vec::new();
    let mut i: usize = 0;
    while i < pats.len()
        invariant
            views == str_views(pats@),
            tokens_match(toks@, lb, ws_tokens(lb)),
            lb.len() <= usize::MAX,
            i <= pats@.len(),
            out@ == fuzzy_upto(views, i as int, lb, exact@),
        decreases pats@.len() - i,
    {
        let mut more = fuzzy_for_pattern(pats[i], i, toks, exact, Ghost(lb));
        proof {
            assert(views[i as int] == pats@[i as int]@);
        }
        out.append(&mut more);
        i += 1;
    }
    out
}

/// Appends `extra` to the default catalog.
fn combine_patterns<'p>(extra: &[&'p str]) -> (r: Vec<&'p str>)
    ensures
        str_views(r@) == combined_patterns(str_views(extra@)),
{
    let defaults = all_default();
    let mut out: Vec<&'p str> = Vec::new();
    let mut i: usize = 0;
    while i < defaults.len()
        invariant
            i <= defaults@.len(),
            out@.len() == i,
            forall|k: int| 0 <= k < i ==> (#[trigger] out@[k])@ == defaults@[k]@,
        decreases defaults@.len() - i,
    {
        out.push(defaults[i]);
        i += 1;
    }
    let mut j: usize = 0;
    let n = defaults.len();
    while j < extra.len()
        invariant
            n == defaults@.len(),
            j <= extra@.len(),
            out@.len() == n + j,
            forall|k: int| 0 <= k < n ==> (#[trigger] out@[k])@ == defaults@[k]@,
            forall|k: int| 0 <= k < j ==> (#[trigger] out@[n + k])@ == extra@[k]@,
        decreases extra@.len() - j,
    {
        out.push(extra[j]);
        j += 1;
    }
    proof {
        assert forall|k: int| 0 <= k < out@.len() implies (#[trigger] str_views(out@)[k]) == (str_views(defaults@) + str_views(extra@))[k] by {
            if k >= n {
                assert(out@[n + (k - n)] == out@[k]);
            }
        }
        assert(str_views(out@) =~= str_views(defaults@) + str_views(extra@));
    }
    out
}

// ---------------------------------------------------------------------
// Ordering the hits
// ---------------------------------------------------------------------

/// Whether `a` may stay before `b` when sorting by start (ascending or descending).
pub open spec fn in_order(a: Hit, b: Hit, desc: bool) -> bool {
    if desc {
        a.0 >= b.0
    } else {
        a.0 <= b.0
    }
}

/// Inserts `x` into the sorted `s` after every element that may precede it.
pub open spec fn insert_sorted(s: Seq<Hit>, x: Hit, desc: bool) -> Seq<Hit>
    decreases s.len(),
{
    if s.len() == 0 {
        seq![x]
    } else if in_order(s.last(), x, desc) {
        s.push(x)
    } else {
        insert_sorted(s.drop_last(), x, desc).push(s.last())
    }
}

/// The stable sort of `s` by start position (ascending, or descending when `desc`).
pub open spec fn sort_by_start(s: Seq<Hit>, desc: bool) -> Seq<Hit>
    decreases s.len(),
{
    if s.len() == 0 {
        s
    } else {
        insert_sorted(sort_by_start(s.drop_last(), desc), s.last(), desc)
    }
}

fn keeps_order(a: Hit, b: Hit, desc: bool) -> (r: bool)
    ensures
        r == in_order(a, b, desc),
{
    if desc {
        a.0 >= b.0
    } else {
        a.0 <= b.0
    }
}

fn insert_hit(v: &mut Vec<Hit>, x: Hit, desc: bool)
    ensures
        final(v)@ == insert_sorted(old(v)@, x, desc),
{
    let ghost s = v@;
    let mut i = v.len();
    proof {
        assert(s.take(s.len() as int) =~= s);
        assert(s.skip(s.len() as int) =~= Seq::<Hit>::empty());
        assert(insert_sorted(s, x, desc) =~= insert_sorted(s, x, desc) + Seq::<Hit>::empty());
    }
    while i > 0 && !keeps_order(v[i - 1], x, desc)
        invariant
            v@ == s,
            i <= s.len(),
            insert_sorted(s, x, desc) == insert_sorted(s.take(i as int), x, desc) + s.skip(i as int),
        decreases i,
    {
        proof {
            let t = s.take(i as int);
            assert(t.drop_last() =~= s.take(i - 1));
            assert(t.last() == s[i - 1]);
            assert(insert_sorted(t, x, desc) == insert_sorted(s.take(i - 1), x, desc).push(s[i - 1]));
            assert(insert_sorted(s.take(i - 1), x, desc).push(s[i - 1]) + s.skip(i as int)
                =~= insert_sorted(s.take(i - 1), x, desc) + s.skip(i - 1));
        }
        i -= 1;
    }
    proof {
        if i == 0 {
            assert(s.take(0) =~= Seq::<Hit>::empty());
            assert(s.skip(0) =~= s);
        } else {
            let t = s.take(i as int);
            assert(t.last() == s[i - 1]);
            assert(insert_sorted(t, x, desc) == t.push(x));
        }
        assert(s.insert(i as int, x) =~= insert_sorted(s.take(i as int), x, desc) + s.skip(i as int));
    }
    v.insert(i, x);
}

/// Stable insertion sort by start position.
pub fn sort_hits(hits: &Vec<Hit>, desc: bool) -> (r: Vec<Hit>)
    ensures
        r@ == sort_by_start(hits@, desc),
{
    let mut out: Vec<Hit> = Vec::new();
    let mut k: usize = 0;
    while k < hits.len()
        invariant
            k <= hits@.len(),
            out@ == sort_by_start(hits@.take(k as int), desc),
        decreases hits@.len() - k,
    {
        proof {
            let t = hits@.take(k + 1);
            assert(t.drop_last() =~= hits@.take(k as int));
            assert(t.last() == hits@[k as int]);
        }
        insert_hit(&mut out, hits[k], desc);
        k += 1;
    }
    proof {
        assert(hits@.take(hits@.len() as int) =~= hits@);
    }
    out
}

proof fn lemma_insert_sorted_members(s: Seq<Hit>, x: Hit, desc: bool)
    ensures
        insert_sorted(s, x, desc).len() == s.len() + 1,
        forall|i: int|
            0 <= i < insert_sorted(s, x, desc).len() ==> (#[trigger] insert_sorted(s, x, desc)[i]
                == x || s.contains(insert_sorted(s, x, desc)[i])),
    decreases s.len(),
{
    if s.len() > 0 && !in_order(s.last(), x, desc) {
        lemma_insert_sorted_members(s.drop_last(), x, desc);
        let r = insert_sorted(s.drop_last(), x, desc);
        assert forall|i: int| 0 <= i < r.push(s.last()).len() implies (#[trigger] r.push(s.last())[i]
            == x || s.contains(r.push(s.last())[i])) by {
            if i < r.len() {
                if r[i] != x {
                    let j = choose|j: int| 0 <= j < s.drop_last().len() && s.drop_last()[j] == r[i];
                    assert(s[j] == r[i]);
                }
            } else {
                assert(s[s.len() - 1] == s.last());
            }
        }
    } else if s.len() > 0 {
        assert forall|i: int| 0 <= i < s.push(x).len() implies (#[trigger] s.push(x)[i] == x
            || s.contains(s.push(x)[i])) by {
            if i < s.len() {
                assert(s[i] == s.push(x)[i]);
            }
        }
    }
}

/// Every element of the sorted list is an element of the input.
pub proof fn lemma_sort_members(s: Seq<Hit>, desc: bool)
    ensures
        sort_by_start(s, desc).len() == s.len(),
        forall|i: int|
            0 <= i < sort_by_start(s, desc).len() ==> s.contains(
                #[trigger] sort_by_start(s, desc)[i],
            ),
    decreases s.len(),
{
    if s.len() > 0 {
        lemma_sort_members(s.drop_last(), desc);
        let r = sort_by_start(s.drop_last(), desc);
        lemma_insert_sorted_members(r, s.last(), desc);
        let q = insert_sorted(r, s.last(), desc);
        assert forall|i: int| 0 <= i < q.len() implies s.contains(#[trigger] q[i]) by {
            if q[i] == s.last() {
                assert(s[s.len() - 1] == q[i]);
            } else {
                let j = choose|j: int| 0 <= j < r.len() && r[j] == q[i];
                let m = choose|m: int| 0 <= m < s.drop_last().len() && s.drop_last()[m] == r[j];
                assert(s[m] == q[i]);
            }
        }
    }
}

// ---------------------------------------------------------------------
// Findings
// ---------------------------------------------------------------------

/// What replaces a detected pattern when the policy mutates the text.
pub const REPLACEMENT: &'static str = "[REDACTED:pattern]";

/// Human-readable detail of a pattern finding.
pub open spec fn pattern_detail(pat: Seq<char>, distance: u8, sanitized: bool) -> Seq<char> {
    let verb = if sanitized {
        "redacted"@
    } else {
        "detected"@
    };
    if distance == 0 {
        "pattern '"@ + pat + "' (exact) "@ + verb
    } else {
        "pattern '"@ + pat + "' (fuzzy, L"@ + decimal(distance as nat) + ") "@ + verb
    }
}

/// The finding reported for pattern `pat` at byte range `span`.
pub open spec fn pattern_finding(pat: Seq<char>, distance: u8, span: (int, int), sanitized: bool) -> FindingView {
    FindingView {
        kind: KindView::DangerousPattern(pat, distance),
        severity: Severity::High,
        span: Some(span),
        sanitized,
        detail: pattern_detail(pat, distance, sanitized),
    }
}

fn make_pattern_finding(pat: &str, distance: u8, start: usize, end: usize, sanitized: bool) -> (f: Finding)
    ensures
        f@ == pattern_finding(pat@, distance, (start as int, end as int), sanitized),
{
    let mut d = String::from_str("pattern '");
    d.append(pat);
    if distance == 0 {
        d.append("' (exact) ");
    } else {
        d.append("' (fuzzy, L");
        push_decimal(&mut d, distance as usize);
        d.append(") ");
    }
    if sanitized {
        d.append("redacted");
    } else {
        d.append("detected");
    }
    Finding {
        kind: FindingKind::DangerousPattern { matched: String::from_str(pat), distance },
        severity: Severity::High,
        span: Some(start..end),
        sanitized,
        detail: d,
    }
}

/// Smaller of two integers.
pub open spec fn min_int(a: int, b: int) -> int {
    if a <= b {
        a
    } else {
        b
    }
}

/// Findings reported without touching the text: hits in order of start,
/// each clamped to the input, dropping a hit that starts before the end of
/// the previous reported one.
pub open spec fn warn_findings(hits: Seq<Hit>, pats: Seq<Seq<char>>, input_len: int, last_end: int) -> Seq<
    FindingView,
>
    decreases hits.len(),
{
    if hits.len() == 0 {
        seq![]
    } else {
        let h = hits[0];
        if h.0 < last_end {
            warn_findings(hits.drop_first(), pats, input_len, last_end)
        } else {
            let e = min_int(h.1 as int, input_len);
            let s = min_int(h.0 as int, e);
            seq![pattern_finding(pats[h.2 as int], h.3, (s, e), false)] + warn_findings(
                hits.drop_first(),
                pats,
                input_len,
                e,
            )
        }
    }
}

/// The text and findings after redacting `hits` one after the other (the
/// hits are given right-to-left, so earlier offsets stay meaningful); each
/// range is clamped to the current text and snapped to character boundaries.
pub open spec fn sanitize_fold(b: Seq<u8>, hits: Seq<Hit>, pats: Seq<Seq<char>>) -> (Seq<u8>, Seq<
    FindingView,
>)
    decreases hits.len(),
{
    if hits.len() == 0 {
        (b, seq![])
    } else {
        let h = hits[0];
        let e = min_int(h.1 as int, b.len() as int);
        let s = min_int(h.0 as int, e);
        let nb = replaced_bytes(b, s, e, bytes_of(REPLACEMENT@));
        let f = pattern_finding(
            pats[h.2 as int],
            h.3,
            (snap_left_spec(b, s), snap_right_spec(b, e)),
            true,
        );
        let rest = sanitize_fold(nb, hits.drop_first(), pats);
        (rest.0, seq![f] + rest.1)
    }
}

fn warn_emit(hits: &Vec<Hit>, pats: &Vec<&str>, input_len: usize) -> (r: Vec<Finding>)
    requires
        forall|i: int| 0 <= i < hits@.len() ==> (#[trigger] hits@[i]).2 < pats@.len(),
    ensures
        finding_views(r@) == warn_findings(hits@, str_views(pats@), input_len as int, 0),
{
    let ghost views = str_views(pats@);
    let mut out: Vec<Finding> = Vec::new();
    let mut last_end: usize = 0;
    let mut i: usize = 0;
    proof {
        assert(hits@.skip(0) =~= hits@);
        assert(finding_views(out@) + warn_findings(hits@, views, input_len as int, 0) =~= warn_findings(hits@, views, input_len as int, 0));
    }
    while i < hits.len()
        invariant
            views == str_views(pats@),
            forall|i: int| 0 <= i < hits@.len() ==> (#[trigger] hits@[i]).2 < pats@.len(),
            i <= hits@.len(),
            finding_views(out@) + warn_findings(hits@.skip(i as int), views, input_len as int, last_end as int)
                == warn_findings(hits@, views, input_len as int, 0),
        decreases hits@.len() - i,
    {
        let h = hits[i];
        let ghost rest = hits@.skip(i + 1);
        proof {
            assert(hits@.skip(i as int).drop_first() =~= rest);
            assert(hits@.skip(i as int)[0] == h);
        }
        if h.0 < last_end {
            i += 1;
            continue;
        }
        let end = if h.1 < input_len { h.1 } else { input_len };
        let start = if h.0 < end { h.0 } else { end };
        let f = make_pattern_finding(pats[h.2], h.3, start, end, false);
        let ghost before = finding_views(out@);
        out.push(f);
        proof {
            assert(views[h.2 as int] == pats@[h.2 as int]@);
            assert(finding_views(out@) =~= before + seq![f@]);
            assert(warn_findings(hits@.skip(i as int), views, input_len as int, last_end as int)
                == seq![f@] + warn_findings(rest, views, input_len as int, end as int));
            assert(finding_views(out@) + warn_findings(rest, views, input_len as int, end as int)
                =~= before + (seq![f@] + warn_findings(rest, views, input_len as int, end as int)));
        }
        last_end = end;
        i += 1;
    }
    proof {
        assert(hits@.skip(i as int) =~= Seq::<Hit>::empty());
        assert(finding_views(out@) =~= finding_views(out@) + Seq::<FindingView>::empty());
    }
    out
}

/// The pattern redaction cannot complete a fence marker.
proof fn lemma_pattern_redaction_shape()
    ensures
        redaction_shape(bytes_of(REPLACEMENT@)),
{
    reveal_strlit("[REDACTED:pattern]");
    lemma_redaction_bytes(REPLACEMENT@);
}

fn sanitize_apply(input: &str, hits: &Vec<Hit>, pats: &Vec<&str>) -> (r: (String, Vec<Finding>))
    requires
        forall|i: int| 0 <= i < hits@.len() ==> (#[trigger] hits@[i]).2 < pats@.len(),
    ensures
        bytes_of(r.0@) == sanitize_fold(input.spec_bytes(), hits@, str_views(pats@)).0,
        finding_views(r.1@) == sanitize_fold(input.spec_bytes(), hits@, str_views(pats@)).1,
        marker_free(input.spec_bytes()) ==> marker_free(bytes_of(r.0@)),
{
    let ghost views = str_views(pats@);
    let ghost goal = sanitize_fold(input.spec_bytes(), hits@, views);
    let mut current = String::from_str(input);
    let mut out: Vec<Finding> = Vec::new();
    let mut i: usize = 0;
    proof {
        assert(hits@.skip(0) =~= hits@);
        assert(finding_views(out@) + goal.1 =~= goal.1);
    }
    while i < hits.len()
        invariant
            views == str_views(pats@),
            goal == sanitize_fold(input.spec_bytes(), hits@, views),
            forall|i: int| 0 <= i < hits@.len() ==> (#[trigger] hits@[i]).2 < pats@.len(),
            i <= hits@.len(),
            sanitize_fold(bytes_of(current@), hits@.skip(i as int), views).0 == goal.0,
            finding_views(out@) + sanitize_fold(bytes_of(current@), hits@.skip(i as int), views).1
                == goal.1,
            marker_free(input.spec_bytes()) ==> marker_free(bytes_of(current@)),
        decreases hits@.len() - i,
    {
        let h = hits[i];
        let ghost rest = hits@.skip(i + 1);
        let ghost b = bytes_of(current@);
        proof {
            assert(hits@.skip(i as int).drop_first() =~= rest);
            assert(hits@.skip(i as int)[0] == h);
        }
        let len = byte_len(current.as_str());
        let end = if h.1 < len { h.1 } else { len };
        let start = if h.0 < end { h.0 } else { end };
        let (next, range) = safe_replace_range(current.as_str(), start..end, REPLACEMENT);
        let f = make_pattern_finding(pats[h.2], h.3, range.start, range.end, true);
        let ghost before = finding_views(out@);
        out.push(f);
        proof {
            assert(views[h.2 as int] == pats@[h.2 as int]@);
            assert(finding_views(out@) =~= before + seq![f@]);
            let step = sanitize_fold(b, hits@.skip(i as int), views);
            let tail = sanitize_fold(bytes_of(next@), rest, views);
            assert(step.0 == tail.0);
            assert(step.1 == seq![f@] + tail.1);
            assert(finding_views(out@) + tail.1 =~= before + (seq![f@] + tail.1));
            if marker_free(input.spec_bytes()) {
                lemma_snap_bounds(b, start as int, end as int);
                lemma_pattern_redaction_shape();
                lemma_redaction_keeps_marker_free(b, range.start as int, range.end as int, bytes_of(REPLACEMENT@));
            }
        }
        current = next;
        i += 1;
    }
    proof {
        assert(hits@.skip(i as int) =~= Seq::<Hit>::empty());
        assert(finding_views(out@) =~= finding_views(out@) + Seq::<FindingView>::empty());
    }
    (current, out)
}

// ---------------------------------------------------------------------
// The layer
// ---------------------------------------------------------------------

/// The hits found in `input` with the default catalog and `extra`.
pub open spec fn pattern_hits(input: Seq<char>, extra: Seq<Seq<char>>) -> Seq<Hit> {
    detected_hits(combined_patterns(extra), lowercase(input))
}

/// Run pattern detection over `input` with the default catalog followed by
/// `extra`. Returns the (possibly redacted) text and the findings.
///
/// Matching runs on the lowercased input: first the exact leftmost-longest,
/// ASCII-case-insensitive matches of every pattern, then, for each ASCII
/// pattern longer than four characters, every window of input tokens whose
/// summed per-token Levenshtein distance to the pattern's tokens is 1 or 2
/// and that overlaps no exact match. With no hit the input comes back
/// borrowed and untouched. Under `WarnOnly` the input also comes back
/// untouched and the hits are reported left to right; under `Sanitize` and
/// `Strict` every hit is replaced by `[REDACTED:pattern]`, right to left.
pub fn pattern_detect<'a>(input: &'a str, extra: &[&str], policy: Policy) -> (res: (
    Cow<'a, str>,
    Vec<Finding>,
))
    ensures
        ({
            let pats = combined_patterns(str_views(extra@));
            let hits = pattern_hits(input@, str_views(extra@));
            &&& hits.len() == 0 ==> res.0 is Borrowed && res.0@ == input@ && res.1@.len() == 0
            &&& hits.len() > 0 && policy == Policy::WarnOnly ==> {
                &&& res.0 is Borrowed
                &&& res.0@ == input@
                &&& finding_views(res.1@) == warn_findings(
                    sort_by_start(hits, false),
                    pats,
                    input.spec_bytes().len() as int,
                    0,
                )
            }
            &&& hits.len() > 0 && policy != Policy::WarnOnly ==> {
                &&& res.0 is Owned
                &&& bytes_of(res.0@) == sanitize_fold(
                    input.spec_bytes(),
                    sort_by_start(hits, true),
                    pats,
                ).0
                &&& finding_views(res.1@) == sanitize_fold(
                    input.spec_bytes(),
                    sort_by_start(hits, true),
                    pats,
                ).1
            }
        }),
        marker_free(input.spec_bytes()) ==> marker_free(bytes_of(res.0@)),
        policy == Policy::WarnOnly ==> spans_left_to_right(finding_views(res.1@), 0, input.spec_bytes().len() as int),
{
    let combined = combine_patterns(extra);
    let ghost pats = str_views(combined@);
    let lowered = to_lowercase(input);
    let low = lowered.as_str();
    let ghost lb = low.spec_bytes();
    let exact = exact_matches(&combined, low);
    let toks = tokenize_whitespace(low);
    let n = byte_len(low);
    let mut fuzzy = fuzzy_pass(&combined, &toks, &exact, Ghost(lb));
    let nc = combined.len();
    proof {
        assert(pats.len() == nc);
        lemma_fuzzy_upto_pid(pats, pats.len() as int, lb, exact@);
    }
    let ghost exact_v = exact@;
    let ghost fuzzy_v = fuzzy@;
    let mut matches = exact;
    matches.append(&mut fuzzy);
    proof {
        assert(matches@ == detected_hits(pats, lowered@));
        lemma_fuzzy_upto_spans(pats, pats.len() as int, lb, exact_v);
        assert forall|i: int| 0 <= i < matches@.len() implies (#[trigger] matches@[i]).2 < combined@.len()
            && matches@[i].0 <= matches@[i].1 by {
            if i >= exact_v.len() {
                assert(matches@[i] == fuzzy_v[i - exact_v.len()]);
            } else {
                assert(matches@[i] == exact_v[i]);
            }
        }
    }
    if matches.len() == 0 {
        return (Cow::Borrowed(input), Vec::new());
    }
    match policy {
        Policy::WarnOnly => {
            let sorted = sort_hits(&matches, false);
            proof {
                lemma_sort_members(matches@, false);
                assert forall|i: int| 0 <= i < sorted@.len() implies (#[trigger] sorted@[i]).2 < combined@.len()
                    && sorted@[i].0 <= sorted@[i].1 by {
                    assert(matches@.contains(sorted@[i]));
                }
                law_warn_findings_left_to_right(sorted@, pats, input.spec_bytes().len() as int, 0);
            }
            let findings = warn_emit(&sorted, &combined, byte_len(input));
            (Cow::Borrowed(input), findings)
        },
        _ => {
            let sorted = sort_hits(&matches, true);
            proof {
                lemma_sort_members(matches@, true);
                assert forall|i: int| 0 <= i < sorted@.len() implies (#[trigger] sorted@[i]).2 < combined@.len() by {
                    assert(matches@.contains(sorted@[i]));
                }
            }
            let (text, findings) = sanitize_apply(input, &sorted, &combined);
            (Cow::Owned(text), findings)
        },
    }
}

/// The pattern layer as a function of the text: resulting text and findings.
pub open spec fn pattern_layer(t: Seq<char>, extra: Seq<Seq<char>>, policy: Policy) -> (Seq<char>, Seq<FindingView>) {
    let pats = combined_patterns(extra);
    let hits = pattern_hits(t, extra);
    if hits.len() == 0 {
        (t, seq![])
    } else if policy == Policy::WarnOnly {
        (t, warn_findings(sort_by_start(hits, false), pats, bytes_of(t).len() as int, 0))
    } else {
        let r = sanitize_fold(bytes_of(t), sort_by_start(hits, true), pats);
        (decode_utf8(r.0), r.1)
    }
}

} // verus!
