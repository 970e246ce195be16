//! Byte-offset to line/column lookup.
//!
//! A one-time scan records the byte offset at which each line starts; a byte
//! offset then maps to its 0-based line by binary search. Offsets and plain
//! columns are in bytes; `position_in` / `offset_in` also count columns in
//! UTF-16 code units, the two position encodings an LSP client can negotiate.
use vstd::prelude::*;
use vstd::utf8::*;
use vstd::string::StringSliceAdditionalSpecFns;
use crate::text::{
    char_len_utf16, char_len_utf8, char_utf16_len, lemma_boundary_at, lemma_boundary_after_ascii, lemma_utf8_len_push,
    lemma_view_is_decoded, str_utf16_len, lemma_utf16_len_concat, lemma_encode_concat, utf16_len, utf8_len,
};

verus! {

/// The newline byte.
pub const NEWLINE: u8 = 0x0A;

/// Byte offsets at which the lines of `b` start: 0, and one past each `\n`.
pub open spec fn line_starts(b: Seq<u8>) -> Seq<int>
    decreases b.len(),
{
    if b.len() == 0 {
        seq![0]
    } else {
        let r = line_starts(b.drop_last());
        if b.last() == NEWLINE {
            r.push(b.len() as int)
        } else {
            r
        }
    }
}

/// Number of entries of `starts` that are at most `pos`.
pub open spec fn count_at_most(starts: Seq<int>, pos: int) -> nat
    decreases starts.len(),
{
    if starts.len() == 0 {
        0
    } else {
        count_at_most(starts.drop_last(), pos) + if starts.last() <= pos { 1nat } else { 0nat }
    }
}

/// The 0-based line holding byte offset `pos`: one less than the number of line
/// starts at or before `pos`.
pub open spec fn spec_line_at(starts: Seq<int>, pos: int) -> int {
    count_at_most(starts, pos) - 1
}

/// Line starts are well formed: the first is 0 and they strictly increase.
pub open spec fn sorted_starts(s: Seq<int>) -> bool {
    &&& s.len() >= 1
    &&& s[0] == 0
    &&& forall|i: int, j: int| 0 <= i < j < s.len() ==> s[i] < s[j]
}

pub proof fn lemma_line_starts(b: Seq<u8>)
    ensures
        sorted_starts(line_starts(b)),
        forall|i: int| 0 <= i < line_starts(b).len() ==> 0 <= #[trigger] line_starts(b)[i] <= b.len(),
        forall|i: int|
            0 < i < line_starts(b).len() ==> b[#[trigger] line_starts(b)[i] - 1] == NEWLINE,
    decreases b.len(),
{
    if b.len() > 0 {
        let init = b.drop_last();
        lemma_line_starts(init);
        let r = line_starts(init);
        assert forall|i: int| 0 < i < r.len() implies b[#[trigger] r[i] - 1] == NEWLINE by {
            assert(init[r[i] - 1] == NEWLINE);
        }
    }
}

/// Every `\n` of a text ends a line: the offset right after it starts the
/// next line.
pub proof fn law_newline_starts_a_line(b: Seq<u8>, p: int)
    requires
        0 <= p < b.len(),
        b[p] == NEWLINE,
    ensures
        line_starts(b).contains(p + 1),
    decreases b.len(),
{
    let init = b.drop_last();
    if p + 1 == b.len() {
        assert(line_starts(b).last() == p + 1);
        assert(line_starts(b)[line_starts(b).len() - 1] == p + 1);
    } else {
        assert(init[p] == b[p]);
        law_newline_starts_a_line(init, p);
        let r = line_starts(init);
        let i = choose|i: int| 0 <= i < r.len() && r[i] == p + 1;
        if b.last() == NEWLINE {
            assert(r.push(b.len() as int)[i] == p + 1);
        }
        assert(line_starts(b)[i] == p + 1);
    }
}

/// Every line start of a valid UTF-8 text is a character boundary.
pub proof fn lemma_line_starts_boundaries(b: Seq<u8>)
    requires
        valid_utf8(b),
    ensures
        forall|i: int| 0 <= i < line_starts(b).len() ==> is_char_boundary(b, #[trigger] line_starts(b)[i]),
{
    lemma_line_starts(b);
    assert forall|i: int| 0 <= i < line_starts(b).len() implies is_char_boundary(b, #[trigger] line_starts(b)[i]) by {
        let s = line_starts(b)[i];
        if i == 0 {
            is_char_boundary_start_end_of_seq(b);
        } else {
            lemma_boundary_after_ascii(b, s - 1);
        }
    }
}

/// The number of sorted starts at most `pos` is the index of the first start
/// past it.
proof fn lemma_count_at_most(starts: Seq<int>, pos: int, k: int)
    requires
        0 <= k <= starts.len(),
        forall|i: int, j: int| 0 <= i < j < starts.len() ==> starts[i] < starts[j],
        forall|i: int| 0 <= i < k ==> starts[i] <= pos,
        forall|i: int| k <= i < starts.len() ==> starts[i] > pos,
    ensures
        count_at_most(starts, pos) == k,
    decreases starts.len(),
{
    if starts.len() > 0 {
        let init = starts.drop_last();
        if k == starts.len() {
            lemma_count_at_most(init, pos, k - 1);
        } else {
            lemma_count_at_most(init, pos, k);
        }
    }
}

/// The first line past the last of `starts`, at which line `line` ends (before
/// its `\n`), clamped to `len`.
pub open spec fn spec_line_end(starts: Seq<int>, line: int, len: int) -> int {
    if line + 1 < starts.len() {
        if starts[line + 1] - 1 < len {
            starts[line + 1] - 1
        } else {
            len
        }
    } else {
        len
    }
}

/// The last character boundary of `b` at or before `p` (0 at the least).
pub open spec fn floor_boundary(b: Seq<u8>, p: int) -> int
    decreases p,
{
    if p <= 0 {
        0
    } else if is_char_boundary(b, p) {
        p
    } else {
        floor_boundary(b, p - 1)
    }
}

/// Code-unit encoding of columns: the two position encodings an LSP client can
/// negotiate.
#[derive(Debug, Clone, Copy, PartialEq, Eq, Structural)]
pub enum PositionEncoding {
    /// Columns in UTF-8 bytes.
    Utf8,
    /// Columns in UTF-16 code units (the LSP default).
    Utf16,
}

/// Code units of one character in `enc`.
pub open spec fn char_units(c: char, enc: PositionEncoding) -> nat {
    match enc {
        PositionEncoding::Utf8 => encode_scalar(c as u32).len(),
        PositionEncoding::Utf16 => char_utf16_len(c),
    }
}

/// Code units of a character sequence in `enc`.
pub open spec fn units_of(cs: Seq<char>, enc: PositionEncoding) -> nat {
    match enc {
        PositionEncoding::Utf8 => utf8_len(cs),
        PositionEncoding::Utf16 => utf16_len(cs),
    }
}

/// How many leading characters of `cs` fit in `column` code units: characters
/// are taken one by one while the next one still fits.
pub open spec fn fit_count(cs: Seq<char>, column: nat, enc: PositionEncoding) -> nat
    decreases cs.len(),
{
    if cs.len() == 0 || column == 0 {
        0
    } else if char_units(cs[0], enc) > column {
        0
    } else {
        1 + fit_count(cs.drop_first(), (column - char_units(cs[0], enc)) as nat, enc)
    }
}

/// The `(line, column)` that `position_in` gives for byte offset `pos` of a
/// text with bytes `b` and line starts `starts`.
pub open spec fn spec_position(starts: Seq<int>, b: Seq<u8>, pos: int, enc: PositionEncoding) -> (int, int) {
    let p = floor_boundary(b, if pos < b.len() { pos } else { b.len() as int });
    let line = spec_line_at(starts, p);
    (line, units_of(decode_utf8(b.subrange(starts[line], p)), enc) as int)
}

/// The byte offset that `offset_in` gives for `(line, column)` of a text with
/// bytes `b` and line starts `starts`.
pub open spec fn spec_offset(starts: Seq<int>, b: Seq<u8>, line: int, column: int, enc: PositionEncoding) -> int {
    if line >= starts.len() {
        b.len() as int
    } else {
        let ls = starts[line];
        let le = spec_line_end(starts, line, b.len() as int);
        let cs = decode_utf8(b.subrange(ls, le));
        ls + utf8_len(cs.take(fit_count(cs, column as nat, enc) as int))
    }
}

/// Maps byte offsets to 0-based line (and column) numbers.
#[derive(Debug)]
pub struct LineIndex {
    /// Byte offset of the start of each line. Always begins with `0`.
    starts: Vec<usize>,
}

impl View for LineIndex {
    type V = Seq<int>;

    /// The byte offsets at which the lines start.
    closed spec fn view(&self) -> Seq<int> {
        self.starts@.map_values(|s: usize| s as int)
    }
}

impl Clone for LineIndex {
    /// A copy of the index.
    fn clone(&self) -> (r: LineIndex)
        ensures
            r@ == self@,
    {
        proof {
            use_type_invariant(self);
        }
        let starts = self.starts.clone();
        assert(starts@.map_values(|s: usize| s as int) =~= self@);
        LineIndex { starts }
    }
}

impl LineIndex {
    #[verifier::type_invariant]
    spec fn well_formed(&self) -> bool {
        sorted_starts(self@)
    }

    /// Build the index by scanning `text` once for newline (`\n`) boundaries.
    pub fn new(text: &str) -> (r: LineIndex)
        ensures
            r@ == line_starts(text.spec_bytes()),
    {
        let b = text.as_bytes();
        let n = b.len();
        let mut starts: Vec<usize> = Vec::new();
        starts.push(0);
        let mut i: usize = 0;
        while i < n
            invariant
                i <= n,
                n == b@.len(),
                b@ == text.spec_bytes(),
                starts@.map_values(|s: usize| s as int) == line_starts(b@.take(i as int)),
            decreases n - i,
        {
            let ghost before = starts@;
            assert(b@.take(i + 1).drop_last() =~= b@.take(i as int));
            if b[i] == NEWLINE {
                starts.push(i + 1);
                assert(starts@.map_values(|s: usize| s as int) =~= before.map_values(|s: usize| s as int).push(i + 1));
            }
            i = i + 1;
        }
        assert(b@.take(n as int) =~= b@);
        proof {
            lemma_line_starts(b@);
        }
        LineIndex { starts }
    }

    /// 0-based source line containing byte offset `pos`.
    pub fn line_at(&self, pos: usize) -> (r: usize)
        ensures
            r == spec_line_at(self@, pos as int),
            r < self@.len(),
            self@[r as int] <= pos,
    {
        proof {
            use_type_invariant(self);
        }
        let ghost v = self@;
        assert(forall|i: int| 0 <= i < self.starts@.len() ==> #[trigger] v[i] == self.starts@[i] as int);
        // Find the first start past `pos`; the one before it starts the line.
        let mut lo: usize = 1;
        let mut hi: usize = self.starts.len();
        while lo < hi
            invariant
                1 <= lo <= hi <= self.starts@.len(),
                v == self@,
                sorted_starts(v),
                forall|i: int| 0 <= i < self.starts@.len() ==> #[trigger] v[i] == self.starts@[i] as int,
                forall|i: int| 0 <= i < lo ==> #[trigger] v[i] <= pos,
                forall|i: int| hi <= i < v.len() ==> #[trigger] v[i] > pos,
            decreases hi - lo,
        {
            let mid = lo + (hi - lo) / 2;
            if self.starts[mid] <= pos {
                assert forall|i: int| 0 <= i < mid + 1 implies #[trigger] v[i] <= pos by {
                    if i < mid {
                        assert(v[i] < v[mid as int]);
                    }
                }
                lo = mid + 1;
            } else {
                assert forall|i: int| mid <= i < v.len() implies #[trigger] v[i] > pos by {
                    if i > mid {
                        assert(v[mid as int] < v[i]);
                    }
                }
                hi = mid;
            }
        }
        proof {
            lemma_count_at_most(v, pos as int, lo as int);
        }
        lo - 1
    }

    /// 0-based byte column of byte offset `pos` within its line.
    pub fn col_at(&self, pos: usize) -> (r: usize)
        ensures
            r == pos - self@[spec_line_at(self@, pos as int)],
    {
        let line = self.line_at(pos);
        proof {
            use_type_invariant(self);
        }
        assert(self@[line as int] == self.starts@[line as int] as int);
        pos - self.starts[line]
    }

    /// 0-based `(line, column)` of byte offset `pos`, columns in bytes.
    pub fn line_col(&self, pos: usize) -> (r: (usize, usize))
        ensures
            r.0 == spec_line_at(self@, pos as int),
            r.1 == pos - self@[spec_line_at(self@, pos as int)],
    {
        let line = self.line_at(pos);
        assert(self@[line as int] == self.starts@[line as int] as int);
        (line, pos - self.starts[line])
    }

    /// Byte offset of the start of 0-based `line`, if it exists.
    pub fn line_start(&self, line: usize) -> (r: Option<usize>)
        ensures
            line < self@.len() ==> (r matches Some(s) && s == self@[line as int]),
            line >= self@.len() ==> r is None,
    {
        if line < self.starts.len() {
            assert(self@[line as int] == self.starts@[line as int] as int);
            Some(self.starts[line])
        } else {
            None
        }
    }

    /// 0-based `(line, column)` of byte offset `pos`, with the column counted
    /// in `enc` code units. `text` is the string this index was built from.
    ///
    /// `pos` is clamped to `text.len()` and rounded down to a UTF-8 character
    /// boundary, so an offset inside a multi-byte character is taken as the
    /// start of that character.
    pub fn position_in(&self, text: &str, pos: usize, enc: PositionEncoding) -> (r: (usize, usize))
        requires
            self@ == line_starts(text.spec_bytes()),
        ensures
            r.0 == spec_position(self@, text.spec_bytes(), pos as int, enc).0,
            r.1 == spec_position(self@, text.spec_bytes(), pos as int, enc).1,
    {
        proof {
            use_type_invariant(self);
            lemma_view_is_decoded(text);
            lemma_line_starts(text.spec_bytes());
            lemma_line_starts_boundaries(text.spec_bytes());
        }
        let ghost b = text.spec_bytes();
        let len = text.as_bytes().len();
        let mut pos = if pos < len { pos } else { len };
        let ghost p0 = pos as int;
        while pos > 0 && !text.is_char_boundary(pos)
            invariant
                pos <= len,
                len == b.len(),
                b == text.spec_bytes(),
                floor_boundary(b, p0) == floor_boundary(b, pos as int),
            decreases pos,
        {
            pos = pos - 1;
        }
        proof {
            if pos == 0 {
                is_char_boundary_start_end_of_seq(b);
            }
        }
        assert(floor_boundary(b, pos as int) == pos);
        let line = self.line_at(pos);
        let start = self.starts[line];
        assert(self@[line as int] == start as int);
        assert(is_char_boundary(b, start as int));
        let (_before, rest) = text.split_at(start);
        proof {
            lemma_view_is_decoded(rest);
            let rb = rest.spec_bytes();
            assert(rb =~= b.subrange(start as int, len as int));
            if pos < len {
                is_char_boundary_iff_not_is_continuation_byte(b, pos as int);
                assert(rb[pos - start] == b[pos as int]);
            }
            lemma_boundary_at(rb, pos - start);
        }
        let (slice, _after) = rest.split_at(pos - start);
        proof {
            lemma_view_is_decoded(slice);
            assert(slice.spec_bytes() =~= b.subrange(start as int, pos as int));
            encode_utf8_decode_utf8(slice@);
        }
        let col = match enc {
            PositionEncoding::Utf8 => pos - start,
            PositionEncoding::Utf16 => str_utf16_len(slice),
        };
        (line, col)
    }

    /// Byte offset of 0-based `(line, column)` in `text`, with the column
    /// counted in `enc` code units: the inverse of [`Self::position_in`] at
    /// character boundaries (see [`law_offset_inverts_position`]).
    /// `text` is the string this index was built from.
    ///
    /// Out-of-range positions clamp: a line past the end maps to `text.len()`,
    /// and a column past the end of its line (or landing inside a character)
    /// stops at the last boundary that fits, never beyond the line's `\n`.
    pub fn offset_in(&self, text: &str, line: usize, column: usize, enc: PositionEncoding) -> (r: usize)
        requires
            self@ == line_starts(text.spec_bytes()),
        ensures
            r == spec_offset(self@, text.spec_bytes(), line as int, column as int, enc),
    {
        proof {
            use_type_invariant(self);
            lemma_view_is_decoded(text);
            lemma_line_starts(text.spec_bytes());
            lemma_line_starts_boundaries(text.spec_bytes());
        }
        let ghost b = text.spec_bytes();
        let len = text.as_bytes().len();
        if line >= self.starts.len() {
            return len;
        }
        let line_start = self.starts[line];
        assert(self@[line as int] == line_start as int);
        let line_end = if line + 1 < self.starts.len() {
            let next = self.starts[line + 1];
            assert(self@[line + 1] == next as int);
            if next - 1 < len {
                next - 1
            } else {
                len
            }
        } else {
            len
        };
        assert(line_end == spec_line_end(self@, line as int, b.len() as int));
        assert(line_start <= line_end);
        assert(is_char_boundary(b, line_start as int));
        let (_before, rest) = text.split_at(line_start);
        let ghost rb = rest.spec_bytes();
        proof {
            lemma_view_is_decoded(rest);
            assert(rb =~= b.subrange(line_start as int, len as int));
            if line_end < len {
                assert(b[line_end as int] == NEWLINE);
                assert(rb[line_end - line_start] == b[line_end as int]);
            }
            lemma_boundary_at(rb, line_end - line_start);
        }
        let (line_text, _after) = rest.split_at(line_end - line_start);
        let ghost cs = line_text@;
        proof {
            lemma_view_is_decoded(line_text);
            assert(line_text.spec_bytes() =~= b.subrange(line_start as int, line_end as int));
            assert(line_end <= len);
        }
        let mut remaining = column;
        let mut off = line_start;
        let mut done = false;
        let ghost mut consumed: int = 0;
        assert(cs.skip(0) =~= cs);
        assert(cs.take(0) =~= Seq::<char>::empty());
        for c in it: line_text.chars()
            invariant
                it.seq() == cs,
                cs == line_text@,
                0 <= consumed <= it.index(),
                !done ==> consumed == it.index(),
                line_start <= off,
                off == line_start + utf8_len(cs.take(consumed)),
                line_start + utf8_len(cs) == line_end,
                line_end <= len,
                !done ==> fit_count(cs, column as nat, enc) == consumed + fit_count(
                    cs.skip(consumed),
                    remaining as nat,
                    enc,
                ),
                done ==> fit_count(cs, column as nat, enc) == consumed,
        {
            if !done {
                assert(cs.skip(consumed)[0] == c);
                let units = match enc {
                    PositionEncoding::Utf8 => char_len_utf8(c),
                    PositionEncoding::Utf16 => char_len_utf16(c),
                };
                if remaining == 0 || units > remaining {
                    done = true;
                } else {
                    let w = char_len_utf8(c);
                    proof {
                        assert(cs.take(consumed + 1) =~= cs.take(consumed).push(c));
                        lemma_utf8_len_push(cs.take(consumed), c);
                        crate::text::lemma_utf8_len_prefix(cs, consumed + 1);
                        assert(cs.skip(consumed).drop_first() =~= cs.skip(consumed + 1));
                    }
                    remaining = remaining - units;
                    off = off + w;
                    proof {
                        consumed = consumed + 1;
                    }
                }
            }
        }
        proof {
            if !done {
                assert(cs.skip(consumed) =~= Seq::<char>::empty());
            }
        }
        off
    }
}

// ---------------------------------------------------------------------------
// Laws

/// The count of sorted line starts at or before an offset names the line that
/// holds it: that line starts at or before the offset, the next one after it.
pub proof fn lemma_line_at_bounds(starts: Seq<int>, pos: int)
    requires
        sorted_starts(starts),
        0 <= pos,
    ensures
        0 <= spec_line_at(starts, pos) < starts.len(),
        starts[spec_line_at(starts, pos)] <= pos,
        spec_line_at(starts, pos) + 1 < starts.len() ==> pos < starts[spec_line_at(starts, pos) + 1],
    decreases starts.len(),
{
    let init = starts.drop_last();
    if starts.len() == 1 {
        assert(count_at_most(init, pos) == 0);
    } else {
        assert forall|k: int| 0 <= k < init.len() implies #[trigger] init[k] == starts[k] by {}
        assert(sorted_starts(init)) by {
            assert forall|i: int, j: int| 0 <= i < j < init.len() implies init[i] < init[j] by {
                assert(init[i] == starts[i] && init[j] == starts[j]);
            }
        }
        lemma_line_at_bounds(init, pos);
        let l0 = spec_line_at(init, pos);
        assert(starts.last() == starts[starts.len() - 1]);
        assert(init[l0] == starts[l0]);
        if starts.last() <= pos {
            if l0 + 1 < init.len() {
                assert(init[l0 + 1] == starts[l0 + 1]);
                assert(starts[l0 + 1] < starts[starts.len() - 1]);
                assert(false);
            }
            assert(count_at_most(starts, pos) == count_at_most(init, pos) + 1);
        } else {
            assert(count_at_most(starts, pos) == count_at_most(init, pos));
            if l0 + 1 < init.len() {
                assert(init[l0 + 1] == starts[l0 + 1]);
            }
        }
    }
}

/// `line_at` inverts `line_start`: the start offset of every line of an index
/// lies on that line.
pub proof fn law_line_start_is_on_its_line(text: Seq<u8>, line: int)
    requires
        0 <= line < line_starts(text).len(),
    ensures
        spec_line_at(line_starts(text), line_starts(text)[line]) == line,
{
    let starts = line_starts(text);
    lemma_line_starts(text);
    assert forall|i: int| 0 <= i < line + 1 implies starts[i] <= starts[line] by {
        if i < line {
            assert(starts[i] < starts[line]);
        }
    }
    assert forall|i: int| line + 1 <= i < starts.len() implies starts[i] > starts[line] by {
        assert(starts[line] < starts[i]);
    }
    lemma_count_at_most(starts, starts[line], line + 1);
}

/// Units of a sequence split off its first character.
proof fn lemma_units_cons(c: char, rest: Seq<char>, enc: PositionEncoding)
    ensures
        units_of(seq![c] + rest, enc) == char_units(c, enc) + units_of(rest, enc),
        char_units(c, enc) >= 1,
{
    char_is_scalar(c);
    lemma_encode_concat(seq![c], rest);
    crate::text::lemma_utf8_len_push(Seq::<char>::empty(), c);
    assert(Seq::<char>::empty().push(c) =~= seq![c]);
    assert(encode_utf8(Seq::<char>::empty()) =~= Seq::<u8>::empty());
    lemma_utf16_len_concat(seq![c], rest);
    assert(seq![c].drop_last() =~= Seq::<char>::empty());
    assert(utf16_len(Seq::<char>::empty()) == 0);
    assert(utf16_len(seq![c]) == char_utf16_len(c));
    assert(encode_utf8(seq![c]) == encode_scalar(c as u32));
    assert(utf8_len(seq![c] + rest) == encode_scalar(c as u32).len() + utf8_len(rest));
}

/// A column that counts exactly the units of a prefix fits exactly that prefix.
proof fn lemma_fit_prefix(p: Seq<char>, s: Seq<char>, enc: PositionEncoding)
    ensures
        fit_count(p + s, units_of(p, enc), enc) == p.len(),
    decreases p.len(),
{
    if p.len() > 0 {
        let c = p[0];
        let q = p.drop_first();
        assert(p =~= seq![c] + q);
        lemma_units_cons(c, q, enc);
        assert((p + s).drop_first() =~= q + s);
        assert((p + s)[0] == c);
        lemma_fit_prefix(q, s, enc);
    }
}

/// `offset_in` inverts `position_in`: for every character boundary `q` of a
/// text, and either encoding, the `(line, column)` that `position_in` gives for
/// `q` is mapped back to `q` by `offset_in`.
pub proof fn law_offset_inverts_position(text: Seq<char>, q: int, enc: PositionEncoding)
    requires
        0 <= q <= encode_utf8(text).len(),
        is_char_boundary(encode_utf8(text), q),
    ensures
        ({
            let b = encode_utf8(text);
            let starts = line_starts(b);
            let pos = spec_position(starts, b, q, enc);
            spec_offset(starts, b, pos.0, pos.1, enc) == q
        }),
{
    let b = encode_utf8(text);
    let starts = line_starts(b);
    encode_utf8_valid_utf8(text);
    lemma_line_starts(b);
    lemma_line_starts_boundaries(b);
    assert(floor_boundary(b, q) == q);
    let l = spec_line_at(starts, q);
    lemma_line_at_bounds(starts, q);
    let ls = starts[l];
    let le = spec_line_end(starts, l, b.len() as int);
    assert(ls <= q <= le);
    assert(is_char_boundary(b, ls));
    // The line's bytes, and its prefix up to `q`.
    let x = b.subrange(ls, le);
    valid_utf8_split(b, ls);
    let y = b.subrange(ls, b.len() as int);
    assert(valid_utf8(y));
    if le < b.len() {
        assert(b[le] == NEWLINE);
        assert(y[le - ls] == b[le]);
    }
    lemma_boundary_at(y, le - ls);
    valid_utf8_split(y, le - ls);
    assert(y.subrange(0, le - ls) =~= x);
    if q < le {
        is_char_boundary_iff_not_is_continuation_byte(b, q);
        assert(x[q - ls] == b[q]);
    }
    lemma_boundary_at(x, q - ls);
    decode_utf8_split(x, q - ls);
    let pre = x.subrange(0, q - ls);
    let suf = x.subrange(q - ls, x.len() as int);
    assert(pre =~= b.subrange(ls, q));
    valid_utf8_split(x, q - ls);
    let cs = decode_utf8(x);
    let p = decode_utf8(pre);
    lemma_fit_prefix(p, decode_utf8(suf), enc);
    assert(cs.take(p.len() as int) =~= p);
    decode_utf8_encode_utf8(pre);
}

/// `offset_in` never leaves the requested line: for a line of the text, the
/// offset lies between the line's start and the end of its content (before
/// its `\n`), whatever the column.
pub proof fn law_offset_stays_in_line(text: Seq<char>, line: int, column: int, enc: PositionEncoding)
    requires
        0 <= line < line_starts(encode_utf8(text)).len(),
        column >= 0,
    ensures
        ({
            let b = encode_utf8(text);
            let starts = line_starts(b);
            let off = spec_offset(starts, b, line, column, enc);
            starts[line] <= off <= spec_line_end(starts, line, b.len() as int)
        }),
{
    let b = encode_utf8(text);
    let starts = line_starts(b);
    encode_utf8_valid_utf8(text);
    lemma_line_starts(b);
    lemma_line_starts_boundaries(b);
    let ls = starts[line];
    let le = spec_line_end(starts, line, b.len() as int);
    if line + 1 < starts.len() {
        assert(starts[line] < starts[line + 1]);
    }
    assert(ls <= le);
    valid_utf8_split(b, ls);
    let y = b.subrange(ls, b.len() as int);
    if le < b.len() {
        assert(b[le] == NEWLINE);
        assert(y[le - ls] == b[le]);
    }
    lemma_boundary_at(y, le - ls);
    valid_utf8_split(y, le - ls);
    let x = b.subrange(ls, le);
    assert(y.subrange(0, le - ls) =~= x);
    let cs = decode_utf8(x);
    lemma_fit_count_bound(cs, column as nat, enc);
    let k = fit_count(cs, column as nat, enc) as int;
    crate::text::lemma_utf8_len_prefix(cs, k);
    decode_utf8_encode_utf8(x);
}

proof fn lemma_fit_count_bound(cs: Seq<char>, column: nat, enc: PositionEncoding)
    ensures
        fit_count(cs, column, enc) <= cs.len(),
    decreases cs.len(),
{
    if cs.len() > 0 && column > 0 && char_units(cs[0], enc) <= column {
        lemma_fit_count_bound(cs.drop_first(), (column - char_units(cs[0], enc)) as nat, enc);
    }
}

} // verus!
