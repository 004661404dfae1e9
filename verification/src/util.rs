//! UTF-8-boundary-safe text helpers used by the sanitization layers.

use vstd::prelude::*;
use vstd::string::*;
use vstd::utf8::*;

verus! {

broadcast use vstd::utf8::group_utf8_lib;

/// The UTF-8 bytes of a character sequence.
pub open spec fn bytes_of(s: Seq<char>) -> Seq<u8> {
    encode_utf8(s)
}

/// Encoding distributes over concatenation.
pub proof fn lemma_encode_concat(a: Seq<char>, b: Seq<char>)
    ensures
        encode_utf8(a + b) == encode_utf8(a) + encode_utf8(b),
    decreases a.len(),
{
    if a.len() == 0 {
        assert(a + b =~= b);
        assert(encode_utf8(a) =~= Seq::<u8>::empty());
        assert(encode_utf8(a) + encode_utf8(b) =~= encode_utf8(b));
    } else {
        lemma_encode_concat(a.drop_first(), b);
        assert((a + b).drop_first() =~= a.drop_first() + b);
        assert((a + b)[0] == a[0]);
        assert(encode_utf8(a + b) =~= encode_scalar(a[0] as u32) + encode_utf8(a.drop_first() + b));
        assert(encode_utf8(a) =~= encode_scalar(a[0] as u32) + encode_utf8(a.drop_first()));
    }
}

/// Walking left from `i` (inclusive) to the nearest character boundary.
pub open spec fn walk_left(b: Seq<u8>, i: int) -> int
    decreases i,
{
    if i <= 0 || is_char_boundary(b, i) {
        if i <= 0 { 0 } else { i }
    } else {
        walk_left(b, i - 1)
    }
}

/// Walking right from `i` (inclusive) to the nearest character boundary.
pub open spec fn walk_right(b: Seq<u8>, i: int) -> int
    decreases b.len() - i,
{
    if i >= b.len() || is_char_boundary(b, i) {
        if i >= b.len() { b.len() as int } else { i }
    } else {
        walk_right(b, i + 1)
    }
}

/// Start of a replaced range after snapping `idx` left to a character boundary.
pub open spec fn snap_left_spec(b: Seq<u8>, idx: int) -> int {
    if idx >= b.len() { b.len() as int } else { walk_left(b, idx) }
}

/// End of a replaced range after snapping `idx` right to a character boundary.
pub open spec fn snap_right_spec(b: Seq<u8>, idx: int) -> int {
    if idx >= b.len() { b.len() as int } else { walk_right(b, idx) }
}

/// The bytes produced by replacing `b[start..end]` (after snapping) with `r`.
pub open spec fn replaced_bytes(b: Seq<u8>, start: int, end: int, r: Seq<u8>) -> Seq<u8> {
    b.subrange(0, snap_left_spec(b, start)) + r + b.subrange(snap_right_spec(b, end), b.len() as int)
}

proof fn lemma_walk_left(b: Seq<u8>, i: int)
    requires
        valid_utf8(b),
        i <= b.len(),
    ensures
        0 <= walk_left(b, i) <= (if i < 0 { 0 } else { i }),
        is_char_boundary(b, walk_left(b, i)),
    decreases i,
{
    is_char_boundary_start_end_of_seq(b);
    if i <= 0 || is_char_boundary(b, i) {
    } else {
        lemma_walk_left(b, i - 1);
    }
}

proof fn lemma_walk_right(b: Seq<u8>, i: int)
    requires
        valid_utf8(b),
        0 <= i,
    ensures
        (if i > b.len() { b.len() as int } else { i }) <= walk_right(b, i) <= b.len(),
        is_char_boundary(b, walk_right(b, i)),
    decreases b.len() - i,
{
    is_char_boundary_start_end_of_seq(b);
    if i >= b.len() || is_char_boundary(b, i) {
    } else {
        lemma_walk_right(b, i + 1);
    }
}

/// The snapped positions are character boundaries within the text.
pub proof fn lemma_snap_bounds(b: Seq<u8>, start: int, end: int)
    requires
        valid_utf8(b),
        0 <= start,
        0 <= end,
    ensures
        0 <= snap_left_spec(b, start) <= b.len(),
        snap_left_spec(b, start) <= start,
        0 <= snap_right_spec(b, end) <= b.len(),
        end <= b.len() ==> end <= snap_right_spec(b, end),
        is_char_boundary(b, snap_left_spec(b, start)),
        is_char_boundary(b, snap_right_spec(b, end)),
{
    is_char_boundary_start_end_of_seq(b);
    if start < b.len() {
        lemma_walk_left(b, start);
    }
    if end < b.len() {
        lemma_walk_right(b, end);
    }
}

/// The number of bytes of `s`.
pub fn byte_len(s: &str) -> (n: usize)
    ensures
        n == s.spec_bytes().len(),
{
    s.as_bytes().len()
}

fn snap_left(s: &str, idx: usize) -> (r: usize)
    ensures
        r == snap_left_spec(s.spec_bytes(), idx as int),
{
    let n = byte_len(s);
    if idx >= n {
        return n;
    }
    let mut i = idx;
    while i > 0 && !s.is_char_boundary(i)
        invariant
            i <= idx < s.spec_bytes().len(),
            walk_left(s.spec_bytes(), i as int) == walk_left(s.spec_bytes(), idx as int),
        decreases i,
    {
        i -= 1;
    }
    i
}

fn snap_right(s: &str, idx: usize) -> (r: usize)
    ensures
        r == snap_right_spec(s.spec_bytes(), idx as int),
{
    let n = byte_len(s);
    if idx >= n {
        return n;
    }
    let mut i = idx;
    while i < n && !s.is_char_boundary(i)
        invariant
            idx <= i <= s.spec_bytes().len(),
            n == s.spec_bytes().len(),
            walk_right(s.spec_bytes(), i as int) == walk_right(s.spec_bytes(), idx as int),
        decreases s.spec_bytes().len() - i,
    {
        i += 1;
    }
    i
}

/// Replace bytes `range` of `s` with `replacement`, snapping the range
/// outward to the nearest character boundaries when it falls inside a
/// multi-byte sequence. Returns the new string and the range that was
/// actually replaced.
pub fn safe_replace_range(s: &str, range: std::ops::Range<usize>, replacement: &str) -> (res: (
    String,
    std::ops::Range<usize>,
))
    ensures
        res.1.start == snap_left_spec(s.spec_bytes(), range.start as int),
        res.1.end == snap_right_spec(s.spec_bytes(), range.end as int),
        bytes_of(res.0@) == replaced_bytes(
            s.spec_bytes(),
            range.start as int,
            range.end as int,
            replacement.spec_bytes(),
        ),
{
    let start = snap_left(s, range.start);
    let end = snap_right(s, range.end);
    proof {
        lemma_snap_bounds(s.spec_bytes(), range.start as int, range.end as int);
    }
    let (pre, _) = s.split_at(start);
    let (_, post) = s.split_at(end);
    let mut out = String::new();
    out.append(pre);
    out.append(replacement);
    out.append(post);
    proof {
        lemma_encode_concat(pre@, replacement@);
        lemma_encode_concat(pre@ + replacement@, post@);
        assert(out@ == pre@ + replacement@ + post@);
    }
    (out, start..end)
}

/// In valid UTF-8, the byte after an ASCII byte starts a character.
pub proof fn lemma_after_ascii(b: Seq<u8>, j: int)
    requires
        valid_utf8(b),
        0 <= j,
        j + 1 < b.len(),
        b[j] < 0x80,
    ensures
        !is_continuation_byte(b[j + 1]),
        is_char_boundary(b, j + 1),
{
    is_char_boundary_iff_not_is_continuation_byte(b, j);
    valid_utf8_split(b, j);
    let suffix = b.subrange(j, b.len() as int);
    reveal_with_fuel(valid_utf8, 2);
    assert(pop_first_scalar(suffix) =~= b.subrange(j + 1, b.len() as int));
    assert(valid_first_scalar(b.subrange(j + 1, b.len() as int)));
    is_char_boundary_iff_not_is_continuation_byte(b, j + 1);
}

/// Appends one character to a string (`String::push`).
#[verifier::external_body]
pub(crate) fn push_char(s: &mut String, c: char)
    ensures
        final(s)@ == old(s)@.push(c),
{
    s.push(c)
}

/// The character of a decimal digit.
pub open spec fn digit_char(d: int) -> char {
    (d + 48) as char
}

/// The decimal notation of `n`.
pub open spec fn decimal(n: nat) -> Seq<char>
    decreases n,
{
    if n < 10 {
        seq![digit_char(n as int)]
    } else {
        decimal(n / 10).push(digit_char((n % 10) as int))
    }
}

fn digit(d: u8) -> (c: char)
    requires
        d < 10,
    ensures
        c == digit_char(d as int),
{
    (d + 48) as char
}

/// Appends the decimal notation of `n` to `s`.
pub fn push_decimal(s: &mut String, n: usize)
    ensures
        final(s)@ == old(s)@ + decimal(n as nat),
    decreases n,
{
    let ghost s0 = s@;
    if n >= 10 {
        push_decimal(s, n / 10);
    }
    push_char(s, digit((n % 10) as u8));
    proof {
        if n < 10 {
            assert(s@ =~= s0 + decimal(n as nat));
        } else {
            assert(decimal(n as nat) == decimal((n / 10) as nat).push(digit_char((n % 10) as int)));
            assert(s@ =~= s0 + decimal(n as nat));
        }
    }
}

} // verus!
