//! Line structure of a text, stated over its UTF-8 bytes.
use vstd::prelude::*;
use vstd::utf8::*;

verus! {

broadcast use vstd::utf8::group_utf8_lib;

/// The byte that ends a line.
pub const NEWLINE: u8 = 10;

/// Offsets of the newline bytes of `t`, in increasing order.
pub open spec fn newlines(t: Seq<u8>) -> Seq<int>
    decreases t.len(),
{
    if t.len() == 0 {
        seq![]
    } else {
        let before = newlines(t.drop_last());
        if t.last() == NEWLINE {
            before.push(t.len() - 1)
        } else {
            before
        }
    }
}

/// Number of newline bytes strictly before offset `p`.
pub open spec fn newlines_before(t: Seq<u8>, p: int) -> int {
    newlines(t.subrange(0, p)).len() as int
}

/// The 1-indexed number of the line that holds offset `p`.
pub open spec fn line_number_at(t: Seq<u8>, p: int) -> int {
    newlines_before(t, p) + 1
}

/// Offset of the first byte of line `n`; 0 where line `n` has no preceding newline.
pub open spec fn line_start(t: Seq<u8>, n: int) -> int {
    let nl = newlines(t);
    if n > 1 && n - 2 < nl.len() {
        nl[n - 2] + 1
    } else {
        0
    }
}

/// Number of lines of `t`: a last line without terminator counts, an empty
/// remainder after the last newline does not.
pub open spec fn line_count(t: Seq<u8>) -> int {
    let nl = newlines(t);
    if t.len() == 0 || t.last() == NEWLINE {
        nl.len() as int
    } else {
        nl.len() + 1int
    }
}

/// Offset just past the end of line `n`: past its newline, or the end of the
/// text for a last line without one; 0 where line `n` does not exist.
pub open spec fn line_end(t: Seq<u8>, n: int) -> int {
    let nl = newlines(t);
    if n >= 1 && n - 1 < nl.len() {
        nl[n - 1] + 1
    } else if n >= 1 && n == line_count(t) {
        t.len() as int
    } else {
        0
    }
}

/// The line that address `n` stands for: line numbers up to 1 stand for line
/// 1, and numbers past the last line for the last line.
pub open spec fn addressed_line(t: Seq<u8>, n: int) -> int {
    if n > line_count(t) {
        if line_count(t) >= 1 { line_count(t) } else { 1 }
    } else if n < 1 {
        1
    } else {
        n
    }
}

/// The half-open byte range of the line that `n` addresses, its terminator
/// excluded. An empty text has the one range `[0, 0)`.
pub open spec fn line_region(t: Seq<u8>, n: int) -> (int, int) {
    let nl = newlines(t);
    let k = addressed_line(t, n);
    let start = if k <= 1 { 0 } else { nl[k - 2] + 1 };
    let end = if k - 1 < nl.len() { nl[k - 1] } else { t.len() as int };
    (start, end)
}

/// The bytes of line `n`, its terminator excluded.
pub open spec fn line_bytes(t: Seq<u8>, n: int) -> Seq<u8> {
    t.subrange(line_region(t, n).0, line_region(t, n).1)
}

/// `p` is an offset into `t` that falls between two characters.
pub open spec fn is_boundary(t: Seq<u8>, p: int) -> bool {
    0 <= p <= t.len() && is_char_boundary(t, p)
}

/// The recorded offsets lie within `t`, hold newlines, and increase.
pub proof fn lemma_newlines_facts(t: Seq<u8>)
    ensures
        forall|k: int|
            0 <= k < newlines(t).len() ==> 0 <= #[trigger] newlines(t)[k] < t.len() && t[newlines(
                t,
            )[k]] == NEWLINE,
        forall|j: int, k: int|
            0 <= j < k < newlines(t).len() ==> #[trigger] newlines(t)[j] < #[trigger] newlines(
                t,
            )[k],
        newlines(t).len() <= t.len(),
    decreases t.len(),
{
    if t.len() > 0 {
        let u = t.drop_last();
        lemma_newlines_facts(u);
        assert forall|k: int| 0 <= k < newlines(u).len() implies t[newlines(u)[k]] == NEWLINE by {
            assert(t[newlines(u)[k]] == u[newlines(u)[k]]);
        }
    }
}

/// The newlines of a prefix are a prefix of the newlines.
pub proof fn lemma_newlines_prefix(t: Seq<u8>, i: int)
    requires
        0 <= i <= t.len(),
    ensures
        newlines(t.subrange(0, i)) =~= newlines(t).subrange(0, newlines(t.subrange(0, i)).len() as int),
        newlines(t.subrange(0, i)).len() <= newlines(t).len(),
    decreases t.len() - i,
{
    if i == t.len() {
        assert(t.subrange(0, i) =~= t);
    } else {
        lemma_newlines_prefix(t, i + 1);
        let u = t.subrange(0, i + 1);
        assert(u.drop_last() =~= t.subrange(0, i));
    }
}

/// One more byte of prefix adds its offset exactly when it is a newline.
pub proof fn lemma_newlines_step(t: Seq<u8>, i: int)
    requires
        0 <= i < t.len(),
    ensures
        newlines(t.subrange(0, i + 1)) == if t[i] == NEWLINE {
            newlines(t.subrange(0, i)).push(i)
        } else {
            newlines(t.subrange(0, i))
        },
{
    let u = t.subrange(0, i + 1);
    assert(u.drop_last() =~= t.subrange(0, i));
}

/// An ASCII byte, a newline among them, starts a character, and so does the byte after it.
pub proof fn lemma_ascii_boundaries(t: Seq<u8>, i: int)
    requires
        valid_utf8(t),
        0 <= i < t.len(),
        t[i] < 0x80,
    ensures
        is_char_boundary(t, i),
        is_char_boundary(t, i + 1),
{
    assert(is_leading_byte_width_1(t[i]));
    is_char_boundary_iff_is_leading_byte(t, i);
    if i + 1 < t.len() {
        valid_utf8_split(t, i);
        let rest = t.subrange(i, t.len() as int);
        assert(rest[0] == t[i]);
        let after = pop_first_scalar(rest);
        assert(after =~= t.subrange(i + 1, t.len() as int));
        reveal_with_fuel(valid_utf8, 2);
        assert(valid_first_scalar(after));
        assert(after[0] == t[i + 1]);
        is_char_boundary_iff_not_is_continuation_byte(t, i + 1);
    } else {
        is_char_boundary_start_end_of_seq(t);
    }
}

/// A boundary of a text is a boundary of every prefix that reaches it.
pub proof fn lemma_boundary_in_prefix(t: Seq<u8>, s: int, e: int)
    requires
        valid_utf8(t),
        0 <= s <= e <= t.len(),
        is_char_boundary(t, s),
        is_char_boundary(t, e),
    ensures
        valid_utf8(t.subrange(0, e)),
        is_char_boundary(t.subrange(0, e), s),
{
    let a = t.subrange(0, e);
    valid_utf8_split(t, e);
    if s < e {
        assert(a[s] == t[s]);
        is_char_boundary_iff_not_is_continuation_byte(t, s);
        is_char_boundary_iff_not_is_continuation_byte(a, s);
    } else {
        is_char_boundary_start_end_of_seq(a);
    }
}

/// Encoding distributes over concatenation.
pub proof fn lemma_encode_concat(a: Seq<char>, b: Seq<char>)
    ensures
        encode_utf8(a + b) == encode_utf8(a) + encode_utf8(b),
    decreases a.len(),
{
    if a.len() == 0 {
        assert(a + b =~= b);
    } else {
        lemma_encode_concat(a.drop_first(), b);
        assert((a + b).drop_first() =~= a.drop_first() + b);
        assert(encode_utf8(a + b) =~= encode_utf8(a) + encode_utf8(b));
    }
}

/// Every line region lies within the text, in order, on character boundaries.
pub proof fn lemma_line_region_valid(t: Seq<u8>, n: int)
    requires
        valid_utf8(t),
    ensures
        0 <= line_region(t, n).0 <= line_region(t, n).1 <= t.len(),
        is_char_boundary(t, line_region(t, n).0),
        is_char_boundary(t, line_region(t, n).1),
{
    let nl = newlines(t);
    lemma_newlines_facts(t);
    let k = addressed_line(t, n);
    let (s, e) = line_region(t, n);
    is_char_boundary_start_end_of_seq(t);
    if e < t.len() {
        lemma_ascii_boundaries(t, e);
    }
    if k > 1 {
        lemma_ascii_boundaries(t, nl[k - 2]);
        if k - 1 < nl.len() {
            assert(nl[k - 2] < nl[k - 1]);
        }
    }
}

/// The start and the end of line `n` are 0 or character boundaries within the text.
pub proof fn lemma_line_start_end_valid(t: Seq<u8>, n: int)
    requires
        valid_utf8(t),
    ensures
        is_boundary(t, line_start(t, n)),
        is_boundary(t, line_end(t, n)),
{
    let nl = newlines(t);
    lemma_newlines_facts(t);
    is_char_boundary_start_end_of_seq(t);
    if n > 1 && n - 2 < nl.len() {
        lemma_ascii_boundaries(t, nl[n - 2]);
    }
    if n >= 1 && n - 1 < nl.len() {
        lemma_ascii_boundaries(t, nl[n - 1]);
    }
}

/// Where two valid texts meet is a character boundary of their concatenation.
pub proof fn lemma_boundary_at_join(a: Seq<u8>, b: Seq<u8>)
    requires
        valid_utf8(a),
        valid_utf8(b),
    ensures
        valid_utf8(a + b),
        is_char_boundary(a + b, a.len() as int),
{
    valid_utf8_concat(a, b);
    let ab = a + b;
    if b.len() > 0 {
        assert(ab[a.len() as int] == b[0]);
        assert(valid_first_scalar(b));
        is_char_boundary_iff_not_is_continuation_byte(ab, a.len() as int);
    } else {
        assert(ab =~= a);
        is_char_boundary_start_end_of_seq(a);
    }
}

/// A line that exists starts just past the newline before it (or at 0) and
/// ends at its own newline (or at the end of the text).
pub proof fn lemma_line_region_of_counted_line(t: Seq<u8>, k: int)
    requires
        1 <= k <= line_count(t),
    ensures
        line_region(t, k).0 == (if k == 1 { 0 } else { newlines(t)[k - 2] + 1 }),
        line_region(t, k).1 == (if k - 1 < newlines(t).len() { newlines(t)[k - 1] } else { t.len() as int }),
{
}

/// The window of `n` lines around line `l` starts `n / 2` lines before it,
/// never before line 1; this is the number of lines it skips.
pub open spec fn window_skip(l: int, n: int) -> int {
    if n / 2 >= l {
        0
    } else {
        l - n / 2 - 1
    }
}

/// Addresses out of range degrade to lines that exist: line numbers up to 1
/// address line 1, numbers past the last line address the last line, and in
/// an empty text every number addresses the empty range at 0.
pub proof fn lemma_out_of_range_lines(t: Seq<u8>, n: int)
    ensures
        n <= 1 ==> line_region(t, n) == line_region(t, 1),
        n > line_count(t) >= 1 ==> line_region(t, n) == line_region(t, line_count(t)),
        t.len() == 0 ==> line_region(t, n) == (0int, 0int),
{
}

/// The region of an existing line starts on that line.
pub proof fn lemma_line_region_starts_on_its_line(t: Seq<u8>, k: int)
    requires
        1 <= k <= line_count(t),
    ensures
        line_number_at(t, line_region(t, k).0) == k,
{
    let nl = newlines(t);
    lemma_newlines_facts(t);
    if k > 1 {
        let p = nl[k - 2] + 1;
        lemma_newlines_prefix(t, p);
        lemma_newlines_step(t, p - 1);
        let c = newlines(t.subrange(0, p)).len() as int;
        assert(newlines(t.subrange(0, p))[c - 1] == p - 1);
        assert(nl[c - 1] == nl[k - 2]);
    }
}

} // verus!
