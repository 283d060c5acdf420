//! The text buffer and its line addressing.
use vstd::prelude::*;
use vstd::string::*;
use vstd::utf8::*;
use crate::text::{
    is_boundary, lemma_ascii_boundaries, lemma_boundary_at_join, lemma_boundary_in_prefix,
    lemma_encode_concat, lemma_line_region_of_counted_line, lemma_line_region_valid,
    lemma_line_start_end_valid, lemma_newlines_facts, lemma_newlines_prefix, lemma_newlines_step,
    line_bytes, line_count, line_end, line_number_at, line_region, line_start, newlines,
    newlines_before, window_skip, NEWLINE,
};

verus! {

broadcast use vstd::utf8::group_utf8_lib;

/// A byte offset into a buffer's text.
#[derive(Debug)]
pub struct Point(pub usize);

/// A half-open byte range `[start, end)` of a buffer's text.
#[derive(Debug)]
pub struct Region(pub usize, pub usize);

impl Point {
    /// The offset lies within `t`, between two characters.
    pub open spec fn within(self, t: Seq<u8>) -> bool {
        is_boundary(t, self.0 as int)
    }
}

impl Region {
    /// The range lies within `t`, in order, and both its ends fall between characters.
    pub open spec fn within(self, t: Seq<u8>) -> bool {
        &&& self.0 <= self.1
        &&& is_boundary(t, self.0 as int)
        &&& is_boundary(t, self.1 as int)
    }
}

/// The document: its text and the current line (1-indexed).
///
/// The current line is stored as set; reads that address past the end of
/// the text clamp to its last line.
pub struct Buffer {
    pub contents: String,
    pub line: usize,
}

impl Default for Buffer {
    fn default() -> (b: Self)
        ensures
            b.contents@ == Seq::<char>::empty(),
            b.line == 1,
    {
        Buffer { contents: String::new(), line: 1 }
    }
}

/// Offset of the newline numbered `k` (from 0) in `bytes`, if there is one.
fn nth_newline(bytes: &[u8], k: usize) -> (r: Option<usize>)
    ensures
        r == (if k < newlines(bytes@).len() {
            Some(newlines(bytes@)[k as int] as usize)
        } else {
            None::<usize>
        }),
        r matches Some(i) ==> i < bytes.len(),
{
    let ghost t = bytes@;
    let mut i: usize = 0;
    let mut count: usize = 0;
    while i < bytes.len()
        invariant
            i <= t.len(),
            t == bytes@,
            count <= k,
            count == newlines(t.subrange(0, i as int)).len(),
            newlines(t.subrange(0, i as int)) == newlines(t).subrange(0, count as int),
        decreases t.len() - i,
    {
        proof {
            lemma_newlines_step(t, i as int);
            lemma_newlines_prefix(t, i as int + 1);
        }
        if bytes[i] == NEWLINE {
            assert(newlines(t)[count as int] == newlines(t.subrange(0, i as int + 1))[count as int]);
            if count == k {
                return Some(i);
            }
            count = count + 1;
        }
        i = i + 1;
    }
    assert(t.subrange(0, i as int) =~= t);
    None
}

/// The part of `s` between byte offsets `from` and `to`.
pub(crate) fn substr(s: &str, from: usize, to: usize) -> (r: &str)
    requires
        from <= to,
        is_boundary(encode_utf8(s@), from as int),
        is_boundary(encode_utf8(s@), to as int),
    ensures
        encode_utf8(r@) == encode_utf8(s@).subrange(from as int, to as int),
{
    proof {
        lemma_boundary_in_prefix(encode_utf8(s@), from as int, to as int);
    }
    let (head, _) = s.split_at(to);
    let (_, piece) = head.split_at(from);
    assert(piece.spec_bytes() =~= encode_utf8(s@).subrange(from as int, to as int));
    piece
}

/// Number of newline bytes among the first `p` bytes of `bytes`.
fn count_newlines(bytes: &[u8], p: usize) -> (r: usize)
    requires
        p <= bytes@.len(),
    ensures
        r == newlines_before(bytes@, p as int),
        r <= p,
{
    let ghost t = bytes@;
    let mut i: usize = 0;
    let mut count: usize = 0;
    while i < p
        invariant
            i <= p <= t.len(),
            t == bytes@,
            count == newlines_before(t, i as int),
            count <= i,
        decreases p - i,
    {
        proof {
            lemma_newlines_step(t, i as int);
        }
        if bytes[i] == NEWLINE {
            count = count + 1;
        }
        i = i + 1;
    }
    count
}

/// Number of lines of `bytes`.
fn count_lines(bytes: &[u8]) -> (r: usize)
    ensures
        r == line_count(bytes@),
{
    let len = bytes.len();
    if len == 0 {
        return 0;
    }
    let before = count_newlines(bytes, len - 1);
    proof {
        lemma_newlines_step(bytes@, len - 1);
        assert(bytes@.subrange(0, len as int) =~= bytes@);
    }
    before + 1
}

impl Buffer {
    /// The text as UTF-8 bytes, the space that points and regions address.
    pub open spec fn text(&self) -> Seq<u8> {
        encode_utf8(self.contents@)
    }

    /// A buffer holding `s`, positioned on line 1.
    pub fn with_contents(s: &str) -> (b: Self)
        ensures
            b.contents@ == s@,
            b.line == 1,
    {
        Buffer { contents: String::from_str(s), line: 1 }
    }

    /// The region of the current line.
    pub fn current_line(&self) -> (r: Region)
        ensures
            r.0 == line_region(self.text(), self.line as int).0,
            r.1 == line_region(self.text(), self.line as int).1,
            r.within(self.text()),
    {
        self.line_at(self.line)
    }

    /// The region of line `line`, its terminator excluded.
    ///
    /// Line numbers up to 1 give the first line, and numbers past the last
    /// line give the last line.
    pub fn line_at(&self, line: usize) -> (r: Region)
        ensures
            r.0 == line_region(self.text(), line as int).0,
            r.1 == line_region(self.text(), line as int).1,
            r.within(self.text()),
    {
        let bytes = self.contents.as_str().as_bytes();
        let len = bytes.len();
        proof {
            lemma_line_region_valid(self.text(), line as int);
            lemma_newlines_facts(self.text());
        }
        let count = count_lines(bytes);
        let k = if line > count {
            if count >= 1 {
                count
            } else {
                1
            }
        } else if line < 1 {
            1
        } else {
            line
        };
        let start = if k <= 1 {
            0
        } else {
            match nth_newline(bytes, k - 2) {
                Some(s) => s + 1,
                None => 0,
            }
        };
        let end = match nth_newline(bytes, k - 1) {
            Some(e) => e,
            None => len,
        };
        Region(start, end)
    }

    /// Offset of the first byte of line `n`; 0 where line `n` has no preceding newline.
    pub fn beginning_of_line(&self, n: usize) -> (p: Point)
        ensures
            p.0 == line_start(self.text(), n as int),
            p.within(self.text()),
    {
        proof {
            lemma_line_start_end_valid(self.text(), n as int);
            lemma_newlines_facts(self.text());
        }
        if n > 1 {
            let bytes = self.contents.as_str().as_bytes();
            match nth_newline(bytes, n - 2) {
                Some(i) => Point(i + 1),
                None => Point(0),
            }
        } else {
            Point(0)
        }
    }

    /// Offset just past the end of line `n`: past its newline, or the end of
    /// the text for a last line without one; 0 where line `n` does not exist.
    pub fn end_of_line(&self, n: usize) -> (p: Point)
        ensures
            p.0 == line_end(self.text(), n as int),
            p.within(self.text()),
    {
        proof {
            lemma_line_start_end_valid(self.text(), n as int);
            lemma_newlines_facts(self.text());
        }
        if n >= 1 {
            let bytes = self.contents.as_str().as_bytes();
            match nth_newline(bytes, n - 1) {
                Some(i) => Point(i + 1),
                None => if n == count_lines(bytes) {
                    Point(bytes.len())
                } else {
                    Point(0)
                },
            }
        } else {
            Point(0)
        }
    }

    /// The number of the line that holds offset `p`: the newlines before it,
    /// plus one. `p` stays below the largest `usize` so that the number fits.
    pub fn line_at_point(&self, p: &Point) -> (n: usize)
        requires
            p.0 <= self.text().len(),
            p.0 < usize::MAX,
        ensures
            n == line_number_at(self.text(), p.0 as int),
    {
        count_newlines(self.contents.as_str().as_bytes(), p.0) + 1
    }

    /// The number of the line on which region `r` starts (as `line_at_point`).
    pub fn region_line_number(&self, r: &Region) -> (n: usize)
        requires
            r.0 <= self.text().len(),
            r.0 < usize::MAX,
        ensures
            n == line_number_at(self.text(), r.0 as int),
    {
        count_newlines(self.contents.as_str().as_bytes(), r.0) + 1
    }

    /// The text of region `r`.
    pub fn region_text(&self, r: &Region) -> (s: &str)
        requires
            r.within(self.text()),
        ensures
            encode_utf8(s@) == self.text().subrange(r.0 as int, r.1 as int),
    {
        substr(self.contents.as_str(), r.0, r.1)
    }

    /// Splices `s` into the text at `p`; returns the point just after it.
    pub fn insert(&mut self, p: Point, s: &str) -> (q: Point)
        requires
            p.within(old(self).text()),
        ensures
            final(self).text() == old(self).text().subrange(0, p.0 as int) + encode_utf8(s@)
                + old(self).text().subrange(p.0 as int, old(self).text().len() as int),
            final(self).line == old(self).line,
            q.0 == p.0 + encode_utf8(s@).len(),
            q.within(final(self).text()),
            final(self).text().subrange(p.0 as int, q.0 as int) == encode_utf8(s@),
    {
        let ghost t = self.text();
        let (a, b) = self.contents.as_str().split_at(p.0);
        let mut joined = String::from_str(a);
        joined.append(s);
        joined.append(b);
        let inserted = s.as_bytes().len();
        // The joined text has a `usize` length, so the offset after `s` fits too.
        let joined_len = joined.as_str().as_bytes().len();
        proof {
            lemma_encode_concat(a@, s@);
            lemma_encode_concat(a@ + s@, b@);
            lemma_boundary_at_join(encode_utf8(a@ + s@), encode_utf8(b@));
            assert(encode_utf8(a@) =~= t.subrange(0, p.0 as int));
            assert(encode_utf8(b@) =~= t.subrange(p.0 as int, t.len() as int));
        }
        assert(p.0 + inserted <= joined_len);
        self.contents = joined;
        Point(p.0 + inserted)
    }

    /// Puts `s` in place of region `r`; returns the region that `s` now covers.
    pub fn replace(&mut self, r: Region, s: &str) -> (q: Region)
        requires
            r.within(old(self).text()),
        ensures
            final(self).text() == old(self).text().subrange(0, r.0 as int) + encode_utf8(s@)
                + old(self).text().subrange(r.1 as int, old(self).text().len() as int),
            final(self).line == old(self).line,
            q.0 == r.0,
            q.1 == r.0 + encode_utf8(s@).len(),
            q.within(final(self).text()),
            final(self).text().subrange(q.0 as int, q.1 as int) == encode_utf8(s@),
    {
        let ghost t = self.text();
        proof {
            lemma_boundary_in_prefix(t, r.0 as int, r.1 as int);
        }
        let (head, tail) = self.contents.as_str().split_at(r.1);
        let (keep, _) = head.split_at(r.0);
        let mut joined = String::from_str(keep);
        joined.append(s);
        joined.append(tail);
        let inserted = s.as_bytes().len();
        // The joined text has a `usize` length, so the end of `s` in it fits too.
        let joined_len = joined.as_str().as_bytes().len();
        proof {
            assert(encode_utf8(keep@) =~= t.subrange(0, r.0 as int));
            assert(encode_utf8(tail@) =~= t.subrange(r.1 as int, t.len() as int));
            lemma_encode_concat(keep@, s@);
            lemma_encode_concat(keep@ + s@, tail@);
            lemma_encode_concat(keep@, s@ + tail@);
            assert(keep@ + (s@ + tail@) =~= keep@ + s@ + tail@);
            lemma_boundary_at_join(encode_utf8(keep@), encode_utf8(s@ + tail@));
            lemma_boundary_at_join(encode_utf8(keep@ + s@), encode_utf8(tail@));
        }
        assert(r.0 + inserted <= joined_len);
        self.contents = joined;
        Region(r.0, r.0 + inserted)
    }

    /// Every line with its number, from 1, in order.
    pub fn lines(&self) -> (v: Vec<(usize, &str)>)
        ensures
            v@.len() == line_count(self.text()),
            forall|i: int|
                0 <= i < v@.len() ==> (#[trigger] v@[i]).0 == i + 1 && encode_utf8(v@[i].1@)
                    == line_bytes(self.text(), i + 1),
    {
        let ghost t = self.text();
        let whole = self.contents.as_str();
        let bytes = whole.as_bytes();
        let len = bytes.len();
        proof {
            lemma_newlines_facts(t);
        }
        let mut v: Vec<(usize, &str)> = Vec::new();
        let mut start: usize = 0;
        let mut i: usize = 0;
        while i < len
            invariant
                t == bytes@,
                t == encode_utf8(whole@),
                len == t.len(),
                start <= i <= len,
                v@.len() <= start,
                v@.len() == newlines(t.subrange(0, i as int)).len(),
                newlines(t.subrange(0, i as int)) == newlines(t).subrange(0, v@.len() as int),
                start == (if v@.len() == 0 { 0 } else { newlines(t)[v@.len() - 1] + 1 }),
                forall|j: int|
                    0 <= j < v@.len() ==> (#[trigger] v@[j]).0 == j + 1 && encode_utf8(v@[j].1@)
                        == line_bytes(t, j + 1),
                forall|k: int|
                    0 <= k < newlines(t).len() ==> 0 <= #[trigger] newlines(t)[k] < t.len()
                        && t[newlines(t)[k]] == NEWLINE,
            decreases len - i,
        {
            proof {
                lemma_newlines_step(t, i as int);
                lemma_newlines_prefix(t, i as int + 1);
            }
            if bytes[i] == NEWLINE {
                let k = v.len();
                proof {
                    assert(newlines(t)[k as int] == newlines(t.subrange(0, i as int + 1))[k as int]);
                    lemma_line_region_of_counted_line(t, k + 1);
                    lemma_ascii_boundaries(t, i as int);
                    if k > 0 {
                        lemma_ascii_boundaries(t, newlines(t)[k - 1]);
                    }
                }
                let piece = substr(whole, start, i);
                v.push((k + 1, piece));
                start = i + 1;
            }
            i = i + 1;
        }
        assert(t.subrange(0, len as int) =~= t);
        if start < len {
            let k = v.len();
            proof {
                lemma_line_region_of_counted_line(t, k + 1);
                is_char_boundary_start_end_of_seq(t);
                if k > 0 {
                    lemma_ascii_boundaries(t, newlines(t)[k - 1]);
                }
            }
            let piece = substr(whole, start, len);
            v.push((k + 1, piece));
        } else {
            proof {
                if len > 0 {
                    assert(newlines(t)[v@.len() - 1] == len - 1);
                }
            }
        }
        v
    }

    /// The lines of a window of `n` lines around line `l`: `n / 2` before it
    /// and the rest from it on, cut at the start and at the end of the text.
    pub fn lines_around(&self, l: usize, n: usize) -> (v: Vec<(usize, &str)>)
        ensures
            v@.len() == if window_skip(l as int, n as int) >= line_count(self.text()) {
                0
            } else if window_skip(l as int, n as int) + n > line_count(self.text()) {
                line_count(self.text()) - window_skip(l as int, n as int)
            } else {
                n as int
            },
            forall|i: int|
                0 <= i < v@.len() ==> (#[trigger] v@[i]).0 == window_skip(l as int, n as int) + i
                    + 1 && encode_utf8(v@[i].1@) == line_bytes(
                    self.text(),
                    window_skip(l as int, n as int) + i + 1,
                ),
    {
        let (before, after) = split_integer(n);
        let take = before + after;
        let skip = if before >= l {
            0
        } else {
            l - before - 1
        };
        let all = self.lines();
        let count = all.len();
        let end = if skip >= count {
            skip
        } else if take > count - skip {
            count
        } else {
            skip + take
        };
        let mut v: Vec<(usize, &str)> = Vec::new();
        let mut k: usize = skip;
        while k < end
            invariant
                skip <= k <= end <= skip + take,
                end == skip || end <= all@.len(),
                v@.len() == k - skip,
                forall|i: int| 0 <= i < v@.len() ==> #[trigger] v@[i] == all@[skip + i],
            decreases end - k,
        {
            v.push(all[k]);
            k = k + 1;
        }
        v
    }
}

/// Splits a window of `n` lines into the lines before its centre and the
/// lines from it on; an odd line goes to the second part.
pub fn split_integer(n: usize) -> (r: (usize, usize))
    ensures
        r.0 == n / 2,
        r.1 == n - n / 2,
{
    if n % 2 == 0 {
        (n / 2, n / 2)
    } else {
        (n / 2, n / 2 + 1)
    }
}

} // verus!
