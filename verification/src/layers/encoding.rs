//! Encoding detection: scan for long base64/hex substrings, try to decode
//! them, re-check the decoded text with pattern detection, and escalate to
//! Critical on a hit.

use vstd::prelude::*;
use vstd::string::StringSliceAdditionalSpecFns;
use vstd::utf8::*;
use crate::catalog::str_views;
use crate::config::Policy;
use crate::finding::{finding_views, Encoding, Finding, FindingKind, FindingView, KindView, Severity};
use crate::layers::patterns::{
    combined_patterns, lemma_sort_members, pattern_detect, pattern_hits, sort_by_start, sort_hits,
    warn_findings, Hit,
};
use crate::util::{bytes_of, lemma_snap_bounds, replaced_bytes, safe_replace_range, snap_left_spec, snap_right_spec};
use crate::layers::fence::{lemma_redaction_bytes, lemma_redaction_keeps_marker_free, marker_free, redaction_shape};
use std::borrow::Cow;
use vstd::string::StringExecFns;

verus! {

broadcast use vstd::utf8::group_utf8_lib;

// ---------------------------------------------------------------------
// Shannon entropy of a byte string, in 16-bit fixed point
// ---------------------------------------------------------------------

/// `2^k`.
pub open spec fn two_pow(k: nat) -> nat
    decreases k,
{
    if k == 0 {
        1
    } else {
        2 * two_pow((k - 1) as nat)
    }
}

/// `floor(log2 x)` for `x >= 1`.
pub open spec fn ilog2(x: nat) -> nat
    decreases x,
{
    if x < 2 {
        0
    } else {
        1 + ilog2(x / 2)
    }
}

/// One in the 32-bit fixed point used for mantissas.
pub open spec fn q32() -> nat {
    0x1_0000_0000
}

/// The next `steps` binary digits of `log2(m / 2^32)` for a mantissa
/// `2^32 <= m < 2^33`, by repeated squaring (each squaring doubles the
/// logarithm; a square of 2 or more contributes a one digit and is halved).
pub open spec fn log2_fraction(m: nat, steps: nat) -> nat
    decreases steps,
{
    if steps == 0 {
        0
    } else {
        let sq = m * m / q32();
        if sq >= 2 * q32() {
            two_pow((steps - 1) as nat) + log2_fraction(sq / 2, (steps - 1) as nat)
        } else {
            log2_fraction(sq, (steps - 1) as nat)
        }
    }
}

/// `log2 x` in fixed point with 16 fractional bits (truncated), for `x >= 1`.
pub open spec fn log2_q16(x: nat) -> nat {
    let k = ilog2(x);
    k * 0x10000 + log2_fraction(x * q32() / two_pow(k), 16)
}

/// Occurrences of byte value `v` in `s`.
pub open spec fn count_byte(s: Seq<u8>, v: int) -> nat
    decreases s.len(),
{
    if s.len() == 0 {
        0
    } else {
        count_byte(s.drop_last(), v) + (if s.last() == v {
            1nat
        } else {
            0nat
        })
    }
}

/// `sum c * log2(c)` (fixed point) over the byte values `u < v` that occur
/// `c > 0` times in `s`.
pub open spec fn weighted_logs(s: Seq<u8>, v: int) -> nat
    decreases v,
{
    if v <= 0 {
        0
    } else {
        let c = count_byte(s, v - 1);
        weighted_logs(s, v - 1) + (if c > 0 {
            c * log2_q16(c)
        } else {
            0nat
        })
    }
}

/// Entropy threshold in bits per byte, times 2^16 (3.5 bits).
pub open spec fn min_entropy_q16() -> nat {
    229376
}

/// Whether the Shannon entropy `H = log2 n - (1/n) sum c log2 c` of the byte
/// distribution of `s` is below 3.5 bits, i.e. `n log2 n - sum c log2 c < 3.5 n`,
/// with the logarithms taken in 16-bit fixed point. The empty string has
/// entropy 0.
pub open spec fn low_entropy(s: Seq<u8>) -> bool {
    let n = s.len();
    n == 0 || n * log2_q16(n) < weighted_logs(s, 256) + min_entropy_q16() * n
}

proof fn lemma_two_pow_ilog2(x: nat)
    requires
        x >= 1,
    ensures
        two_pow(ilog2(x)) <= x < 2 * two_pow(ilog2(x)),
        ilog2(x) < 64 ==> two_pow(ilog2(x)) <= 0x8000_0000_0000_0000,
    decreases x,
{
    if x >= 2 {
        lemma_two_pow_ilog2(x / 2);
    }
    if ilog2(x) < 64 {
        lemma_two_pow_mono(ilog2(x), 63);
        lemma_two_pow_63();
    }
}

proof fn lemma_two_pow_63()
    ensures
        two_pow(63) == 0x8000_0000_0000_0000,
        two_pow(64) == 0x1_0000_0000_0000_0000,
{
    reveal_with_fuel(two_pow, 65);
}

proof fn lemma_two_pow_mono(a: nat, b: nat)
    requires
        a <= b,
    ensures
        two_pow(a) <= two_pow(b),
    decreases b,
{
    if a < b {
        lemma_two_pow_mono(a, (b - 1) as nat);
    }
}

proof fn lemma_ilog2_u64(x: nat)
    requires
        1 <= x <= u64::MAX,
    ensures
        ilog2(x) < 64,
{
    lemma_two_pow_ilog2(x);
    if ilog2(x) >= 64 {
        lemma_two_pow_mono(64, ilog2(x));
        lemma_two_pow_63();
    }
}

fn log2_q16_exec(x: u64) -> (r: u64)
    requires
        x >= 1,
    ensures
        r == log2_q16(x as nat),
        r < 0x40_0000,
{
    let mut k: u64 = 0;
    let mut y: u64 = x;
    let mut p: u128 = 1;
    proof {
        lemma_ilog2_u64(x as nat);
    }
    while y >= 2
        invariant
            1 <= y <= x,
            ilog2(x as nat) == k + ilog2(y as nat),
            ilog2(x as nat) < 64,
            p == two_pow(k as nat),
        decreases y,
    {
        proof {
            lemma_two_pow_mono((k + 1) as nat, 63);
            lemma_two_pow_63();
        }
        y = y / 2;
        k = k + 1;
        p = p * 2;
    }
    proof {
        lemma_two_pow_ilog2(x as nat);
    }
    let mut m: u128 = (x as u128) * 0x1_0000_0000 / p;
    proof {
        let xx = x as nat;
        let pp = p as nat;
        assert(pp <= xx < 2 * pp);
        assert(q32() <= xx * q32() / pp < 2 * q32()) by (nonlinear_arith)
            requires
                pp <= xx < 2 * pp,
                pp >= 1,
                q32() == 0x1_0000_0000,
        {
            assert(pp * q32() <= xx * q32());
            assert(xx * q32() < 2 * pp * q32());
        }
    }
    let ghost m0 = m as nat;
    assert(ilog2(y as nat) == 0);
    let mut frac: u64 = 0;
    let mut step: u64 = 16;
    while step > 0
        invariant
            k == ilog2(x as nat),
            k < 64,
            m0 == (x as nat) * q32() / two_pow(k as nat),
            q32() <= m < 2 * q32(),
            step <= 16,
            frac < two_pow((16 - step) as nat),
            frac * two_pow(step as nat) + log2_fraction(m as nat, step as nat) == log2_fraction(m0, 16),
        decreases step,
    {
        let ghost m_old = m as nat;
        let ghost f_old = frac as nat;
        proof {
            lemma_two_pow_16();
            lemma_two_pow_mono((16 - step) as nat, 16);
            assert(two_pow((16 - step + 1) as nat) == 2 * two_pow((16 - step) as nat));
            assert(two_pow(step as nat) == 2 * two_pow((step - 1) as nat));
            assert(f_old * two_pow(step as nat) == (2 * f_old) * two_pow((step - 1) as nat)) by (nonlinear_arith)
                requires
                    two_pow(step as nat) == 2 * two_pow((step - 1) as nat),
            ;
            assert(m_old * m_old < 4 * q32() * q32()) by (nonlinear_arith)
                requires
                    m_old < 2 * q32(),
            ;
            assert(m_old * m_old >= q32() * q32()) by (nonlinear_arith)
                requires
                    m_old >= q32(),
            ;
        }
        let sq: u128 = m * m / 0x1_0000_0000;
        proof {
            assert(q32() <= sq < 4 * q32()) by (nonlinear_arith)
                requires
                    q32() * q32() <= m_old * m_old < 4 * q32() * q32(),
                    sq == m_old * m_old / q32(),
                    q32() == 0x1_0000_0000,
            ;
        }
        if sq >= 0x2_0000_0000 {
            m = sq / 2;
            frac = frac * 2 + 1;
        } else {
            m = sq;
            frac = frac * 2;
        }
        step = step - 1;
        proof {
            assert((2 * f_old + 1) * two_pow(step as nat) == (2 * f_old) * two_pow(step as nat) + two_pow(step as nat)) by (nonlinear_arith);
        }
    }
    proof {
        lemma_two_pow_16();
        assert(step == 0);
        assert(log2_fraction(m as nat, 0) == 0);
        assert((frac as nat) * two_pow(step as nat) == frac) by (nonlinear_arith)
            requires
                two_pow(step as nat) == 1,
        ;
        assert(frac == log2_fraction(m0, 16));
        assert(log2_q16(x as nat) == (k as nat) * 0x10000 + log2_fraction(m0, 16));
    }
    k * 0x10000 + frac
}

proof fn lemma_two_pow_16()
    ensures
        two_pow(16) == 0x10000,
        two_pow(0) == 1,
{
    reveal_with_fuel(two_pow, 17);
}

proof fn lemma_count_byte_step(s: Seq<u8>, i: int, v: int)
    requires
        0 <= i < s.len(),
    ensures
        count_byte(s.take(i + 1), v) == count_byte(s.take(i), v) + (if s[i] == v {
            1nat
        } else {
            0nat
        }),
{
    assert(s.take(i + 1).drop_last() =~= s.take(i));
}

proof fn lemma_count_byte_bound(s: Seq<u8>, v: int)
    ensures
        count_byte(s, v) <= s.len(),
    decreases s.len(),
{
    if s.len() > 0 {
        lemma_count_byte_bound(s.drop_last(), v);
    }
}

/// Whether the Shannon entropy of the bytes of `s` is below 3.5 bits (see
/// [`low_entropy`]).
pub fn shannon_entropy_is_low(s: &[u8]) -> (r: bool)
    ensures
        r == low_entropy(s@),
{
    let n = s.len();
    if n == 0 {
        return true;
    }
    let mut counts: Vec<u64> = Vec::new();
    let mut v: usize = 0;
    while v < 256
        invariant
            v <= 256,
            counts@.len() == v,
            forall|u: int| 0 <= u < v ==> (#[trigger] counts@[u]) == 0,
        decreases 256 - v,
    {
        counts.push(0);
        v += 1;
    }
    let mut i: usize = 0;
    proof {
        assert forall|u: int| 0 <= u < 256 implies (#[trigger] counts@[u]) == count_byte(s@.take(0), u) by {
            assert(s@.take(0).len() == 0);
        }
    }
    while i < n
        invariant
            n == s@.len(),
            i <= n,
            counts@.len() == 256,
            forall|u: int| 0 <= u < 256 ==> (#[trigger] counts@[u]) == count_byte(s@.take(i as int), u),
        decreases n - i,
    {
        let b = s[i] as usize;
        proof {
            assert forall|u: int| 0 <= u < 256 implies count_byte(s@.take(i + 1), u) == count_byte(s@.take(i as int), u) + (if s@[i as int] == u { 1nat } else { 0nat }) by {
                lemma_count_byte_step(s@, i as int, u);
            }
            lemma_count_byte_bound(s@.take(i as int), b as int);
        }
        let c = counts[b];
        counts.set(b, c + 1);
        i += 1;
    }
    proof {
        assert(s@.take(n as int) =~= s@);
    }
    let mut total: u128 = 0;
    let mut u: usize = 0;
    while u < 256
        invariant
            n == s@.len(),
            u <= 256,
            counts@.len() == 256,
            forall|w: int| 0 <= w < 256 ==> (#[trigger] counts@[w]) == count_byte(s@, w),
            total == weighted_logs(s@, u as int),
            total <= u * 0x1_0000_0000_0000_0000_0000_00,
        decreases 256 - u,
    {
        let c = counts[u];
        if c > 0 {
            let l = log2_q16_exec(c);
            proof {
                assert((c as nat) * (l as nat) <= 0xFFFF_FFFF_FFFF_FFFF * 0x40_0000) by (nonlinear_arith)
                    requires
                        c <= 0xFFFF_FFFF_FFFF_FFFF,
                        l < 0x40_0000,
                ;
            }
            total = total + (c as u128) * (l as u128);
        }
        u += 1;
    }
    let ln = log2_q16_exec(n as u64);
    proof {
        assert((n as nat) * (ln as nat) <= 0xFFFF_FFFF_FFFF_FFFF * 0x40_0000) by (nonlinear_arith)
            requires
                n <= 0xFFFF_FFFF_FFFF_FFFF,
                ln < 0x40_0000,
        ;
    }
    (n as u128) * (ln as u128) < total + 229376 * (n as u128)
}

// ---------------------------------------------------------------------
// Finding encoded-looking substrings
// ---------------------------------------------------------------------

/// The regular expression for base64-looking substrings.
pub const BASE64_REGEX: &'static str = "[A-Za-z0-9+/]{20,}={0,2}";

/// The regular expression for hex-looking substrings.
pub const HEX_REGEX: &'static str = "[0-9a-fA-F]{40,}";

/// Compiled-size limit of both regular expressions.
pub const REGEX_SIZE_LIMIT: usize = 1048576;

/// A byte of the base64 alphabet (`[A-Za-z0-9+/]`) or, when `hex`, a hex digit.
pub open spec fn in_class(c: u8, hex: bool) -> bool {
    if hex {
        (0x30 <= c <= 0x39) || (0x41 <= c <= 0x46) || (0x61 <= c <= 0x66)
    } else {
        (0x41 <= c <= 0x5a) || (0x61 <= c <= 0x7a) || (0x30 <= c <= 0x39) || c == 0x2b || c
            == 0x2f
    }
}

/// End of the run of class bytes starting at `i`.
pub open spec fn run_end(b: Seq<u8>, i: int, hex: bool) -> int
    decreases b.len() - i,
{
    if 0 <= i < b.len() && in_class(b[i], hex) {
        run_end(b, i + 1, hex)
    } else {
        i
    }
}

/// End after at most `2 - k` padding bytes `=` starting at `i`.
pub open spec fn pad_end(b: Seq<u8>, i: int, k: int) -> int
    decreases 2 - k,
{
    if k < 2 && 0 <= i < b.len() && b[i] == 0x3d {
        pad_end(b, i + 1, k + 1)
    } else {
        i
    }
}

/// Shortest run that counts: 20 base64 bytes or 40 hex digits.
pub open spec fn min_run(hex: bool) -> int {
    if hex {
        40
    } else {
        20
    }
}

/// The non-overlapping leftmost-first matches, at or after byte `i`, of
/// `[A-Za-z0-9+/]{20,}={0,2}` (or `[0-9a-fA-F]{40,}` when `hex`) in `b`:
/// the earliest start of a long enough run, extended greedily.
pub open spec fn class_runs(b: Seq<u8>, i: int, hex: bool) -> Seq<(usize, usize)>
    decreases b.len() - i,
{
    if i < 0 || i >= b.len() {
        seq![]
    } else {
        let e = run_end(b, i, hex);
        if e - i >= min_run(hex) {
            let e2 = if hex {
                e
            } else {
                pad_end(b, e, 0)
            };
            proof {
                lemma_run_end(b, i, hex);
                lemma_pad_end(b, e, 0);
            }
            seq![(i as usize, e2 as usize)] + class_runs(b, e2, hex)
        } else {
            class_runs(b, i + 1, hex)
        }
    }
}

pub proof fn lemma_run_end(b: Seq<u8>, i: int, hex: bool)
    requires
        0 <= i <= b.len(),
    ensures
        i <= run_end(b, i, hex) <= b.len(),
        forall|k: int| i <= k < run_end(b, i, hex) ==> in_class(#[trigger] b[k], hex),
    decreases b.len() - i,
{
    if i < b.len() && in_class(b[i], hex) {
        lemma_run_end(b, i + 1, hex);
    }
}

pub proof fn lemma_pad_end(b: Seq<u8>, i: int, k: int)
    requires
        0 <= i <= b.len(),
        0 <= k <= 2,
    ensures
        i <= pad_end(b, i, k) <= b.len(),
        forall|j: int| i <= j < pad_end(b, i, k) ==> #[trigger] b[j] == 0x3d,
    decreases 2 - k,
{
    if k < 2 && i < b.len() && b[i] == 0x3d {
        lemma_pad_end(b, i + 1, k + 1);
    }
}

/// What `regex::Regex::find_iter` reports, as (start byte, end byte) pairs,
/// for `pattern` compiled with `size_limit` (`None` when it does not compile).
pub uninterp spec fn regex_find_spans(pattern: Seq<char>, size_limit: usize, haystack: Seq<char>) -> Option<
    Seq<(usize, usize)>,
>;

/// Compiles `pattern` with `regex::RegexBuilder` (with `size_limit`) and
/// collects the spans of `find_iter` on `haystack`. The result is named
/// [`regex_find_spans`]; for the two expressions of this layer the contract
/// states it: leftmost-first, non-overlapping, greedy matches (see
/// [`class_runs`]).
#[verifier::external_body]
fn regex_spans(pattern: &str, size_limit: usize, haystack: &str) -> (r: Option<Vec<(usize, usize)>>)
    ensures
        match r {
            Some(v) => regex_find_spans(pattern@, size_limit, haystack@) == Some(v@),
            None => regex_find_spans(pattern@, size_limit, haystack@) is None,
        },
        r matches Some(v) ==> (pattern@ == BASE64_REGEX@ && size_limit == REGEX_SIZE_LIMIT ==> v@
            == class_runs(haystack.spec_bytes(), 0, false)),
        r matches Some(v) ==> (pattern@ == HEX_REGEX@ && size_limit == REGEX_SIZE_LIMIT ==> v@
            == class_runs(haystack.spec_bytes(), 0, true)),
        (pattern@ == BASE64_REGEX@ || pattern@ == HEX_REGEX@) && size_limit == REGEX_SIZE_LIMIT ==> r is Some,
{
    let re = regex::RegexBuilder::new(pattern).size_limit(size_limit).build().ok()?;
    Some(re.find_iter(haystack).map(|m| (m.start(), m.end())).collect())
}

/// What `base64::engine::general_purpose::STANDARD.decode` returns (`None` on error).
pub uninterp spec fn base64_standard(input: Seq<u8>) -> Option<Seq<u8>>;

/// What `base64::engine::general_purpose::STANDARD_NO_PAD.decode` returns (`None` on error).
pub uninterp spec fn base64_standard_no_pad(input: Seq<u8>) -> Option<Seq<u8>>;

/// Calls `STANDARD.decode` of the `base64` crate; the result is named [`base64_standard`].
#[verifier::external_body]
fn decode_base64_standard(input: &[u8]) -> (r: Option<Vec<u8>>)
    ensures
        match r {
            Some(v) => base64_standard(input@) == Some(v@),
            None => base64_standard(input@) is None,
        },
{
    base64::Engine::decode(&base64::engine::general_purpose::STANDARD, input).ok()
}

/// Calls `STANDARD_NO_PAD.decode` of the `base64` crate; the result is named
/// [`base64_standard_no_pad`].
#[verifier::external_body]
fn decode_base64_standard_no_pad(input: &[u8]) -> (r: Option<Vec<u8>>)
    ensures
        match r {
            Some(v) => base64_standard_no_pad(input@) == Some(v@),
            None => base64_standard_no_pad(input@) is None,
        },
{
    base64::Engine::decode(&base64::engine::general_purpose::STANDARD_NO_PAD, input).ok()
}

/// Value of a hex digit (either case).
pub open spec fn hex_value(c: u8) -> int {
    if 0x30 <= c <= 0x39 {
        c - 0x30
    } else if 0x41 <= c <= 0x46 {
        c - 0x41 + 10
    } else {
        c - 0x61 + 10
    }
}

/// Hex decoding: an even number of hex digits (either case), two per byte.
pub open spec fn hex_decoded(d: Seq<u8>) -> Option<Seq<u8>> {
    if d.len() % 2 == 0 && forall|i: int| 0 <= i < d.len() ==> in_class(#[trigger] d[i], true) {
        Some(Seq::new(d.len() / 2, |i: int| (hex_value(d[2 * i]) * 16 + hex_value(d[2 * i + 1])) as u8))
    } else {
        None
    }
}

/// Calls `hex::decode`, which fails on an odd length or a non-hex byte and
/// otherwise turns each pair of hex digits into one byte.
#[verifier::external_body]
fn decode_hex(input: &[u8]) -> (r: Option<Vec<u8>>)
    ensures
        match r {
            Some(v) => hex_decoded(input@) == Some(v@),
            None => hex_decoded(input@) is None,
        },
{
    hex::decode(input).ok()
}

/// Calls `std::str::from_utf8`, which accepts exactly the valid UTF-8 byte
/// strings, and copies the text.
#[verifier::external_body]
fn utf8_text(bytes: &[u8]) -> (r: Option<String>)
    ensures
        match r {
            Some(t) => valid_utf8(bytes@) && t@ == decode_utf8(bytes@),
            None => !valid_utf8(bytes@),
        },
{
    std::str::from_utf8(bytes).ok().map(|t| t.to_string())
}

pub proof fn lemma_class_runs_bounds(b: Seq<u8>, i: int, hex: bool)
    requires
        0 <= i,
        b.len() <= usize::MAX,
    ensures
        forall|k: int|
            0 <= k < class_runs(b, i, hex).len() ==> {
                let r = #[trigger] class_runs(b, i, hex)[k];
                &&& i <= r.0 < r.1 <= b.len()
                &&& (r.1 - r.0) >= min_run(hex)
                &&& in_class(b[r.0 as int], hex)
            },
    decreases b.len() - i,
{
    if i < b.len() {
        let e = run_end(b, i, hex);
        lemma_run_end(b, i, hex);
        if e - i >= min_run(hex) {
            let e2 = if hex {
                e
            } else {
                pad_end(b, e, 0)
            };
            lemma_pad_end(b, e, 0);
            lemma_class_runs_bounds(b, e2, hex);
            let rs = class_runs(b, i, hex);
            assert forall|k: int| 0 <= k < rs.len() implies {
                let r = #[trigger] rs[k];
                &&& i <= r.0 < r.1 <= b.len()
                &&& (r.1 - r.0) >= min_run(hex)
                &&& in_class(b[r.0 as int], hex)
            } by {
                if k > 0 {
                    assert(rs[k] == class_runs(b, e2, hex)[k - 1]);
                }
            }
        } else {
            lemma_class_runs_bounds(b, i + 1, hex);
            assert(class_runs(b, i, hex) == class_runs(b, i + 1, hex));
        }
    }
}

// ---------------------------------------------------------------------
// Candidates
// ---------------------------------------------------------------------

/// An encoded-looking substring: (start byte, end byte, encoding, decoded text).
pub type CandidateView = (usize, usize, Encoding, Seq<char>);

/// Decoded bytes as text: empty when decoding failed or the bytes are not UTF-8.
pub open spec fn decoded_text(d: Option<Seq<u8>>) -> Seq<char> {
    match d {
        Some(v) => if valid_utf8(v) {
            decode_utf8(v)
        } else {
            seq![]
        },
        None => seq![],
    }
}

/// Base64 decoding: the padded standard engine, else the unpadded one.
pub open spec fn base64_decoded(bytes: Seq<u8>) -> Option<Seq<u8>> {
    match base64_standard(bytes) {
        Some(v) => Some(v),
        None => base64_standard_no_pad(bytes),
    }
}

/// Base64 candidates among `spans`: at least 20 bytes and not low-entropy.
pub open spec fn base64_candidates(b: Seq<u8>, spans: Seq<(usize, usize)>) -> Seq<CandidateView>
    decreases spans.len(),
{
    if spans.len() == 0 {
        seq![]
    } else {
        let prev = base64_candidates(b, spans.drop_last());
        let sp = spans.last();
        let sub = b.subrange(sp.0 as int, sp.1 as int);
        if sp.1 - sp.0 < 20 || low_entropy(sub) {
            prev
        } else {
            prev.push((sp.0, sp.1, Encoding::Base64, decoded_text(base64_decoded(sub))))
        }
    }
}

/// Hex candidates among `spans`: at least 40 digits, an even number of them.
pub open spec fn hex_candidates(b: Seq<u8>, spans: Seq<(usize, usize)>) -> Seq<CandidateView>
    decreases spans.len(),
{
    if spans.len() == 0 {
        seq![]
    } else {
        let prev = hex_candidates(b, spans.drop_last());
        let sp = spans.last();
        let sub = b.subrange(sp.0 as int, sp.1 as int);
        if sp.1 - sp.0 < 40 || (sp.1 - sp.0) % 2 != 0 {
            prev
        } else {
            prev.push((sp.0, sp.1, Encoding::Hex, decoded_text(hex_decoded(sub))))
        }
    }
}

/// All candidates of the text with bytes `b`: base64 ones, then hex ones.
pub open spec fn encoding_candidates(b: Seq<u8>) -> Seq<CandidateView> {
    base64_candidates(b, class_runs(b, 0, false)) + hex_candidates(b, class_runs(b, 0, true))
}

/// The pattern that re-checking decoded text hits: the first (leftmost)
/// pattern reported by non-mutating pattern detection, if any.
pub open spec fn recheck(decoded: Seq<char>, extra: Seq<Seq<char>>) -> Option<Seq<char>> {
    let hits = pattern_hits(decoded, extra);
    if decoded.len() == 0 || hits.len() == 0 {
        None
    } else {
        Some(combined_patterns(extra)[sort_by_start(hits, false)[0].2 as int])
    }
}

/// What replaces an encoded payload that decodes to a dangerous pattern.
pub const ENCODED_REPLACEMENT: &'static str = "[REDACTED:encoded_payload]";

/// The payload redaction cannot complete a fence marker.
proof fn lemma_encoded_redaction_shape()
    ensures
        redaction_shape(bytes_of(ENCODED_REPLACEMENT@)),
{
    reveal_strlit("[REDACTED:encoded_payload]");
    lemma_redaction_bytes(ENCODED_REPLACEMENT@);
}

/// Name of an encoding as printed in details.
pub open spec fn encoding_name(e: Encoding) -> Seq<char> {
    match e {
        Encoding::Base64 => "Base64"@,
        Encoding::Hex => "Hex"@,
    }
}

/// The finding for candidate `c` given the re-check result; a benign
/// candidate is redacted only when `redacted`.
pub open spec fn encoded_finding(
    c: CandidateView,
    hit: Option<Seq<char>>,
    span: (int, int),
    redacted: bool,
) -> FindingView {
    match hit {
        Some(p) => FindingView {
            kind: KindView::EncodedPayload(c.2, Some(p)),
            severity: Severity::Critical,
            span: Some(span),
            sanitized: true,
            detail: "encoded payload decoded to pattern '"@ + p + "', redacted"@,
        },
        None => FindingView {
            kind: KindView::EncodedPayload(c.2, None),
            severity: Severity::Low,
            span: Some(span),
            sanitized: redacted,
            detail: encoding_name(c.2) + "-like substring (decoded benign or non-UTF-8)"@ + (if redacted {
                ", redacted"@
            } else {
                seq![]
            }),
        },
    }
}

/// Processing candidates in `order` (indices into `cands`, right to left):
/// a candidate whose decoded text hits a pattern is replaced (with its range
/// snapped to character boundaries) and reported Critical; any other is
/// reported Low, and replaced as well when `redact_benign`.
pub open spec fn encoding_fold(
    cur: Seq<u8>,
    order: Seq<Hit>,
    cands: Seq<CandidateView>,
    extra: Seq<Seq<char>>,
    redact_benign: bool,
) -> (Seq<u8>, Seq<FindingView>)
    decreases order.len(),
{
    if order.len() == 0 {
        (cur, seq![])
    } else {
        let c = cands[order[0].2 as int];
        let hit = recheck(c.3, extra);
        let s = c.0 as int;
        let e = c.1 as int;
        let redact = hit is Some || redact_benign;
        let (nb, span) = if redact {
            (
                replaced_bytes(cur, s, e, bytes_of(ENCODED_REPLACEMENT@)),
                (snap_left_spec(cur, s), snap_right_spec(cur, e)),
            )
        } else {
            (cur, (s, e))
        };
        let rest = encoding_fold(nb, order.drop_first(), cands, extra, redact_benign);
        (rest.0, seq![encoded_finding(c, hit, span, redact)] + rest.1)
    }
}

/// The order in which candidates are processed: by start, right to left.
pub open spec fn candidate_order(cands: Seq<CandidateView>) -> Seq<Hit> {
    sort_by_start(
        Seq::new(cands.len(), |i: int| (cands[i].0, cands[i].1, i as usize, 0u8)),
        true,
    )
}

/// An encoded-looking substring found in the input.
pub type Candidate = (usize, usize, Encoding, String);

/// Models of candidates.
pub open spec fn candidate_views(v: Seq<Candidate>) -> Seq<CandidateView> {
    v.map_values(|c: Candidate| (c.0, c.1, c.2, c.3@))
}

fn decoded_string(d: Option<Vec<u8>>) -> (r: String)
    ensures
        r@ == decoded_text(
            match d {
                Some(v) => Some(v@),
                None => None,
            },
        ),
{
    match d {
        Some(v) => match utf8_text(v.as_slice()) {
            Some(t) => t,
            None => String::new(),
        },
        None => String::new(),
    }
}

fn collect_candidates(
    bytes: &[u8],
    spans: &Vec<(usize, usize)>,
    hex: bool,
    out: &mut Vec<Candidate>,
)
    requires
        forall|k: int|
            0 <= k < spans@.len() ==> (#[trigger] spans@[k]).0 <= spans@[k].1 <= bytes@.len(),
    ensures
        candidate_views(final(out)@) == candidate_views(old(out)@) + (if hex {
            hex_candidates(bytes@, spans@)
        } else {
            base64_candidates(bytes@, spans@)
        }),
{
    let ghost start = candidate_views(out@);
    let mut i: usize = 0;
    proof {
        assert(spans@.take(0) =~= Seq::<(usize, usize)>::empty());
        assert(candidate_views(out@) =~= start + Seq::<CandidateView>::empty());
    }
    while i < spans.len()
        invariant
            forall|k: int|
                0 <= k < spans@.len() ==> (#[trigger] spans@[k]).0 <= spans@[k].1 <= bytes@.len(),
            i <= spans@.len(),
            candidate_views(out@) == start + (if hex {
                hex_candidates(bytes@, spans@.take(i as int))
            } else {
                base64_candidates(bytes@, spans@.take(i as int))
            }),
        decreases spans@.len() - i,
    {
        let (s, e) = spans[i];
        let ghost prefix = spans@.take(i as int);
        proof {
            assert(spans@.take(i + 1).drop_last() =~= prefix);
            assert(spans@.take(i + 1).last() == spans@[i as int]);
        }
        let sub = &bytes[s..e];
        let ghost before = candidate_views(out@);
        if hex {
            if e - s >= 40 && (e - s) % 2 == 0 {
                let decoded = decoded_string(decode_hex(sub));
                out.push((s, e, Encoding::Hex, decoded));
                proof {
                    assert(candidate_views(out@) =~= before.push((s, e, Encoding::Hex, decoded@)));
                }
            }
        } else {
            if e - s >= 20 && !shannon_entropy_is_low(sub) {
                let first = decode_base64_standard(sub);
                let decoded = match first {
                    Some(v) => decoded_string(Some(v)),
                    None => decoded_string(decode_base64_standard_no_pad(sub)),
                };
                out.push((s, e, Encoding::Base64, decoded));
                proof {
                    assert(candidate_views(out@) =~= before.push((s, e, Encoding::Base64, decoded@)));
                }
            }
        }
        i += 1;
    }
    proof {
        assert(spans@.take(spans@.len() as int) =~= spans@);
    }
}

/// The pattern hit when re-checking decoded text (see [`recheck`]).
fn recheck_decoded(decoded: &String, extra: &[&str]) -> (r: Option<String>)
    ensures
        match r {
            Some(p) => recheck(decoded@, str_views(extra@)) == Some(p@),
            None => recheck(decoded@, str_views(extra@)) is None,
        },
{
    let text = decoded.as_str();
    if text.is_empty() {
        return None;
    }
    let (_, findings) = pattern_detect(text, extra, Policy::WarnOnly);
    let ghost hits = pattern_hits(decoded@, str_views(extra@));
    if findings.len() == 0 {
        proof {
            if hits.len() > 0 {
                lemma_sort_members(hits, false);
                let sorted = sort_by_start(hits, false);
                assert(sorted.len() > 0);
                assert(warn_findings(sorted, combined_patterns(str_views(extra@)), text.spec_bytes().len() as int, 0).len() > 0);
                assert(finding_views(findings@).len() == findings@.len());
            }
        }
        return None;
    }
    proof {
        lemma_sort_members(hits, false);
        if hits.len() == 0 {
            assert(false);
        }
        let sorted = sort_by_start(hits, false);
        let pats = combined_patterns(str_views(extra@));
        let ws = warn_findings(sorted, pats, text.spec_bytes().len() as int, 0);
        assert(ws[0].kind == KindView::DangerousPattern(pats[sorted[0].2 as int], sorted[0].3));
        assert(findings@[0]@ == ws[0]);
    }
    match &findings[0].kind {
        FindingKind::DangerousPattern { matched, .. } => Some(matched.clone()),
        _ => None,
    }
}

fn make_encoded_finding(encoding: Encoding, hit: Option<String>, start: usize, end: usize, redacted: bool) -> (f: Finding)
    ensures
        f@ == encoded_finding(
            (0, 0, encoding, seq![]),
            match hit {
                Some(p) => Some(p@),
                None => None,
            },
            (start as int, end as int),
            redacted,
        ),
{
    match hit {
        Some(p) => {
            let mut d = String::from_str("encoded payload decoded to pattern '");
            d.append(p.as_str());
            d.append("', redacted");
            Finding {
                kind: FindingKind::EncodedPayload { encoding, decoded_hit: Some(p) },
                severity: Severity::Critical,
                span: Some(start..end),
                sanitized: true,
                detail: d,
            }
        },
        None => {
            let mut d = match encoding {
                Encoding::Base64 => String::from_str("Base64"),
                Encoding::Hex => String::from_str("Hex"),
            };
            d.append("-like substring (decoded benign or non-UTF-8)");
            if redacted {
                d.append(", redacted");
            }
            Finding {
                kind: FindingKind::EncodedPayload { encoding, decoded_hit: None },
                severity: Severity::Low,
                span: Some(start..end),
                sanitized: redacted,
                detail: d,
            }
        },
    }
}

/// Scan `input` for long base64 / hex substrings, decode them, and re-check
/// the decoded text for dangerous patterns.
///
/// Base64 candidates are matches of `[A-Za-z0-9+/]{20,}={0,2}` whose byte
/// entropy is not below 3.5 bits; hex candidates are matches of
/// `[0-9a-fA-F]{40,}` of even length. They are processed right to left: a
/// candidate whose decoded UTF-8 text contains a pattern (default catalog
/// plus `extra_patterns`) is replaced by `[REDACTED:encoded_payload]` and
/// reported Critical whatever the policy; any other is reported Low, and
/// replaced as well unless `policy` is `WarnOnly`. With no candidate the
/// input comes back borrowed.
pub fn encoding_detect<'a>(input: &'a str, extra_patterns: &[&str], policy: Policy) -> (res: (
    Cow<'a, str>,
    Vec<Finding>,
))
    ensures
        ({
            let b = input.spec_bytes();
            let cands = encoding_candidates(b);
            let extra = str_views(extra_patterns@);
            &&& cands.len() == 0 ==> res.0 is Borrowed && res.0@ == input@ && res.1@.len() == 0
            &&& cands.len() > 0 ==> {
                &&& res.0 is Owned
                &&& bytes_of(res.0@) == encoding_fold(
                    b,
                    candidate_order(cands),
                    cands,
                    extra,
                    policy != Policy::WarnOnly,
                ).0
                &&& finding_views(res.1@) == encoding_fold(
                    b,
                    candidate_order(cands),
                    cands,
                    extra,
                    policy != Policy::WarnOnly,
                ).1
            }
        }),
        marker_free(input.spec_bytes()) ==> marker_free(bytes_of(res.0@)),
{
    let ghost b = input.spec_bytes();
    let ghost extra = str_views(extra_patterns@);
    let bytes = input.as_bytes();
    let n = bytes.len();
    proof {
        lemma_class_runs_bounds(b, 0, false);
        lemma_class_runs_bounds(b, 0, true);
    }
    let mut cands: Vec<Candidate> = Vec::new();
    let b64 = match regex_spans(BASE64_REGEX, REGEX_SIZE_LIMIT, input) {
        Some(v) => v,
        None => Vec::new(),
    };
    collect_candidates(bytes, &b64, false, &mut cands);
    let hx = match regex_spans(HEX_REGEX, REGEX_SIZE_LIMIT, input) {
        Some(v) => v,
        None => Vec::new(),
    };
    collect_candidates(bytes, &hx, true, &mut cands);
    let ghost cv = candidate_views(cands@);
    proof {
        assert(cv =~= encoding_candidates(b));
    }
    if cands.len() == 0 {
        return (Cow::Borrowed(input), Vec::new());
    }
    let mut keys: Vec<Hit> = Vec::new();
    let mut i: usize = 0;
    while i < cands.len()
        invariant
            cv == candidate_views(cands@),
            i <= cands@.len(),
            keys@ =~= Seq::new(i as nat, |j: int| (cv[j].0, cv[j].1, j as usize, 0u8)),
        decreases cands@.len() - i,
    {
        keys.push((cands[i].0, cands[i].1, i, 0u8));
        i += 1;
    }
    let order = sort_hits(&keys, true);
    proof {
        lemma_sort_members(keys@, true);
        assert forall|k: int| 0 <= k < order@.len() implies (#[trigger] order@[k]).2 < cands@.len() by {
            assert(keys@.contains(order@[k]));
        }
    }
    let redact_benign = match policy {
        Policy::WarnOnly => false,
        _ => true,
    };
    let ghost goal = encoding_fold(b, order@, cv, extra, redact_benign);
    let mut current = String::from_str(input);
    let mut findings: Vec<Finding> = Vec::new();
    let mut k: usize = 0;
    proof {
        assert(order@.skip(0) =~= order@);
        assert(finding_views(findings@) + goal.1 =~= goal.1);
    }
    while k < order.len()
        invariant
            cv == candidate_views(cands@),
            extra == str_views(extra_patterns@),
            redact_benign == (policy != Policy::WarnOnly),
            goal == encoding_fold(b, order@, cv, extra, redact_benign),
            forall|j: int| 0 <= j < order@.len() ==> (#[trigger] order@[j]).2 < cands@.len(),
            k <= order@.len(),
            encoding_fold(bytes_of(current@), order@.skip(k as int), cv, extra, redact_benign).0 == goal.0,
            finding_views(findings@) + encoding_fold(bytes_of(current@), order@.skip(k as int), cv, extra, redact_benign).1
                == goal.1,
            marker_free(b) ==> marker_free(bytes_of(current@)),
        decreases order@.len() - k,
    {
        let o = order[k];
        let c = &cands[o.2];
        let ghost cur = bytes_of(current@);
        let ghost rest = order@.skip(k + 1);
        proof {
            assert(order@.skip(k as int).drop_first() =~= rest);
            assert(order@.skip(k as int)[0] == o);
            assert(cv[o.2 as int] == (c.0, c.1, c.2, c.3@));
        }
        let hit = recheck_decoded(&c.3, extra_patterns);
        let ghost before = finding_views(findings@);
        let is_hit = hit.is_some();
        if is_hit || redact_benign {
            let (next, range) = safe_replace_range(current.as_str(), c.0..c.1, ENCODED_REPLACEMENT);
            let f = make_encoded_finding(c.2, hit, range.start, range.end, true);
            findings.push(f);
            proof {
                let tail = encoding_fold(bytes_of(next@), rest, cv, extra, redact_benign);
                assert(finding_views(findings@) =~= before + seq![f@]);
                assert(finding_views(findings@) + tail.1 =~= before + (seq![f@] + tail.1));
                if marker_free(b) {
                    lemma_snap_bounds(cur, c.0 as int, c.1 as int);
                    lemma_encoded_redaction_shape();
                    lemma_redaction_keeps_marker_free(
                        cur,
                        range.start as int,
                        range.end as int,
                        bytes_of(ENCODED_REPLACEMENT@),
                    );
                }
            }
            current = next;
        } else {
            let f = make_encoded_finding(c.2, hit, c.0, c.1, false);
            findings.push(f);
            proof {
                let tail = encoding_fold(cur, rest, cv, extra, redact_benign);
                assert(finding_views(findings@) =~= before + seq![f@]);
                assert(finding_views(findings@) + tail.1 =~= before + (seq![f@] + tail.1));
            }
        }
        k += 1;
    }
    proof {
        assert(order@.skip(k as int) =~= Seq::<Hit>::empty());
        assert(finding_views(findings@) =~= finding_views(findings@) + Seq::<FindingView>::empty());
        assert(keys@ =~= Seq::new(cv.len(), |j: int| (cv[j].0, cv[j].1, j as usize, 0u8)));
    }
    (Cow::Owned(current), findings)
}

/// The encoding layer as a function of the text and its policy: resulting
/// text and findings.
pub open spec fn encoding_layer(t: Seq<char>, extra: Seq<Seq<char>>, policy: Policy) -> (Seq<char>, Seq<
    FindingView,
>) {
    let b = bytes_of(t);
    let cands = encoding_candidates(b);
    if cands.len() == 0 {
        (t, seq![])
    } else {
        let r = encoding_fold(b, candidate_order(cands), cands, extra, policy != Policy::WarnOnly);
        (decode_utf8(r.0), r.1)
    }
}

} // verus!
