//! Source identifiers, byte ranges, spans and the line index that turns byte
//! offsets into line and column numbers.
use vstd::prelude::*;

use crate::text::{byte_len, byte_offset, char_width, lemma_byte_offset_mono, lemma_byte_offset_step, lemma_byte_offset_strict, lemma_byte_offset_zero, to_chars};

verus! {

pub broadcast group group_text_range {
    TextRange::lemma_parts,
    TextRange::lemma_ext,
}

/// Identifies one source text (a file, an `--expr` argument, a REPL line).
#[derive(Debug, Clone, Copy, PartialEq, Eq, Structural, Hash, Default)]
pub struct SourceId(pub u32);

/// A half-open range of byte offsets `start..end`.
#[derive(Debug, Clone, Copy, PartialEq, Eq, Structural, Hash, Default)]
pub struct TextRange {
    start: usize,
    end: usize,
}

impl TextRange {
    pub closed spec fn spec_start(self) -> usize {
        self.start
    }

    pub closed spec fn spec_end(self) -> usize {
        self.end
    }

    /// The range `start..end`.
    pub closed spec fn spec_new(start: usize, end: usize) -> TextRange {
        TextRange { start, end }
    }

    /// A range is determined by its two ends.
    pub broadcast proof fn lemma_parts(start: usize, end: usize)
        ensures
            #[trigger] TextRange::spec_new(start, end).spec_start() == start,
            TextRange::spec_new(start, end).spec_end() == end,
    {
    }

    pub broadcast proof fn lemma_ext(r: TextRange)
        ensures
            #[trigger] TextRange::spec_new(r.spec_start(), r.spec_end()) == r,
    {
    }

    pub fn new(start: usize, end: usize) -> (r: Self)
        ensures
            r == TextRange::spec_new(start, end),
    {
        Self { start, end }
    }

    pub fn start(self) -> (r: usize)
        ensures
            r == self.spec_start(),
    {
        self.start
    }

    pub fn end(self) -> (r: usize)
        ensures
            r == self.spec_end(),
    {
        self.end
    }

    /// Number of bytes covered; a reversed range has length zero.
    pub fn len(self) -> (r: usize)
        ensures
            r == if self.spec_end() >= self.spec_start() {
                self.spec_end() - self.spec_start()
            } else {
                0
            },
    {
        self.end.saturating_sub(self.start)
    }

    pub fn is_empty(self) -> (r: bool)
        ensures
            r == (self.spec_start() == self.spec_end()),
    {
        self.start == self.end
    }
}

/// A byte range within one source.
#[derive(Debug, Clone, Copy, PartialEq, Eq, Structural, Hash, Default)]
pub struct Span {
    pub source_id: SourceId,
    pub range: TextRange,
}

impl Span {
    pub open spec fn spec_start(self) -> usize {
        self.range.spec_start()
    }

    pub open spec fn spec_end(self) -> usize {
        self.range.spec_end()
    }

    /// The span of `source_id` from `start` to `end`.
    pub open spec fn spec_new(source_id: SourceId, start: usize, end: usize) -> Span {
        Span { source_id, range: TextRange::spec_new(start, end) }
    }

    pub fn new(source_id: SourceId, start: usize, end: usize) -> (r: Self)
        ensures
            r == Span::spec_new(source_id, start, end),
    {
        Self { source_id, range: TextRange::new(start, end) }
    }

    pub fn start(self) -> (r: usize)
        ensures
            r == self.spec_start(),
    {
        self.range.start()
    }

    pub fn end(self) -> (r: usize)
        ensures
            r == self.spec_end(),
    {
        self.range.end()
    }

    /// The smallest span of `self`'s source that contains both spans.
    pub open spec fn spec_cover(self, other: Span) -> Span {
        Span::spec_new(
            self.source_id,
            if self.spec_start() <= other.spec_start() {
                self.spec_start()
            } else {
                other.spec_start()
            },
            if self.spec_end() >= other.spec_end() {
                self.spec_end()
            } else {
                other.spec_end()
            },
        )
    }

    /// The smallest span of `self`'s source that contains both spans.
    pub fn cover(self, other: Span) -> (r: Span)
        ensures
            r == self.spec_cover(other),
            r.source_id == self.source_id,
            r.spec_start() <= self.spec_start(),
            r.spec_start() <= other.spec_start(),
            r.spec_start() == self.spec_start() || r.spec_start() == other.spec_start(),
            r.spec_end() >= self.spec_end(),
            r.spec_end() >= other.spec_end(),
            r.spec_end() == self.spec_end() || r.spec_end() == other.spec_end(),
    {
        let start = if self.start() <= other.start() {
            self.start()
        } else {
            other.start()
        };
        let end = if self.end() >= other.end() {
            self.end()
        } else {
            other.end()
        };
        Span::new(self.source_id, start, end)
    }
}

/// Line start offsets of a character sequence, considering its first `n`
/// characters: offset zero, then the offset just after each `'\n'`.
pub open spec fn line_starts_upto(cs: Seq<char>, n: nat) -> Seq<usize>
    decreases n,
{
    if n == 0 {
        seq![0usize]
    } else if cs[n - 1] == '\n' {
        line_starts_upto(cs, (n - 1) as nat).push(byte_offset(cs, n as int) as usize)
    } else {
        line_starts_upto(cs, (n - 1) as nat)
    }
}

/// Line start offsets of a whole source text.
pub open spec fn line_starts(cs: Seq<char>) -> Seq<usize> {
    line_starts_upto(cs, cs.len())
}

/// Offsets that start at zero and strictly increase.
pub open spec fn strictly_increasing_from_zero(s: Seq<usize>) -> bool {
    &&& s.len() > 0
    &&& s[0] == 0
    &&& forall|i: int, j: int| 0 <= i < j < s.len() ==> s[i] < s[j]
}

/// Index of the line holding byte offset `offset`: the last line start that
/// is not after `offset`.
pub open spec fn line_of(starts: Seq<usize>, offset: usize) -> int {
    choose|k: int|
        0 <= k < starts.len() && #[trigger] starts[k] <= offset && (k + 1 == starts.len() || offset
            < starts[k + 1])
}

/// Whether a one-based column of `offset` fits in a machine integer: the
/// offset is below the largest one, or it lies past the first line.
pub open spec fn line_col_ok(starts: Seq<usize>, offset: usize) -> bool {
    offset < usize::MAX || (starts.len() > 1 && starts[1] <= offset)
}

/// Maps byte offsets to one-based line and column numbers.
#[derive(Debug)]
pub struct LineIndex {
    starts: Vec<usize>,
}

impl LineIndex {
    #[verifier::type_invariant]
    spec fn inv(self) -> bool {
        strictly_increasing_from_zero(self.starts@)
    }

    /// The byte offsets at which the lines start.
    pub closed spec fn starts(self) -> Seq<usize> {
        self.starts@
    }

    pub fn new(source: &str) -> (r: Self)
        requires
            byte_len(source@) <= usize::MAX,
        ensures
            r.starts() == line_starts(source@),
            strictly_increasing_from_zero(r.starts()),
    {
        let cs = to_chars(source);
        let mut starts: Vec<usize> = Vec::new();
        starts.push(0);
        let mut i: usize = 0;
        let mut offset: usize = 0;
        proof {
            lemma_byte_offset_zero(cs@);
        }
        while i < cs.len()
            invariant
                cs@ == source@,
                byte_len(cs@) <= usize::MAX,
                i <= cs@.len(),
                offset == byte_offset(cs@, i as int),
                starts@ == line_starts_upto(cs@, i as nat),
                strictly_increasing_from_zero(starts@),
                starts@.last() <= offset,
            decreases cs@.len() - i,
        {
            let ch = cs[i];
            let w = char_width(ch);
            proof {
                lemma_byte_offset_step(cs@, i as int);
                lemma_byte_offset_mono(cs@, (i + 1) as int, cs@.len() as int);
                lemma_byte_offset_strict(cs@, i as int, (i + 1) as int);
            }
            offset = offset + w;
            i = i + 1;
            if ch == '\n' {
                starts.push(offset);
            }
        }
        assert(line_starts(source@) == line_starts_upto(cs@, i as nat));
        LineIndex { starts }
    }

    /// Whether `line_col` can locate `offset`.
    pub fn can_locate(&self, offset: usize) -> (r: bool)
        ensures
            r == line_col_ok(self.starts(), offset),
    {
        offset < usize::MAX || (self.starts.len() > 1 && self.starts[1] <= offset)
    }

    /// One-based line and column of a byte offset.  The line is the number
    /// of line starts not after the offset; the column counts bytes from the
    /// start of that line.
    pub fn line_col(&self, offset: usize) -> (r: (usize, usize))
        requires
            line_col_ok(self.starts(), offset),
        ensures
            strictly_increasing_from_zero(self.starts()),
            r.0 == line_of(self.starts(), offset) + 1,
            r.1 == offset - self.starts()[line_of(self.starts(), offset)] + 1,
            1 <= r.0 <= self.starts().len(),
            forall|k: int| 0 <= k < self.starts().len() ==> (#[trigger] self.starts()[k] <= offset <==> k < r.0),
            r.1 == offset - self.starts()[r.0 - 1] + 1,
    {
        proof {
            use_type_invariant(self);
        }
        // Binary search for the number of line starts not after `offset`.
        let mut lo: usize = 0;
        let mut hi: usize = self.starts.len();
        while lo < hi
            invariant
                strictly_increasing_from_zero(self.starts@),
                0 <= lo <= hi <= self.starts@.len(),
                forall|k: int| 0 <= k < lo ==> self.starts@[k] <= offset,
                forall|k: int| hi <= k < self.starts@.len() ==> self.starts@[k] > offset,
            decreases hi - lo,
        {
            let mid = lo + (hi - lo) / 2;
            if self.starts[mid] <= offset {
                lo = mid + 1;
            } else {
                hi = mid;
            }
        }
        let line = lo - 1;
        proof {
            let k = line as int;
            assert(0 <= k < self.starts@.len() && self.starts@[k] <= offset && (k + 1
                == self.starts@.len() || offset < self.starts@[k + 1]));
            lemma_line_of_unique(self.starts@, offset, k);
        }
        let column = offset - self.starts[line];
        (line + 1, column + 1)
    }
}

impl Clone for LineIndex {
    fn clone(&self) -> (r: Self)
        ensures
            r.starts() == self.starts(),
    {
        proof {
            use_type_invariant(self);
        }
        let starts = self.starts.clone();
        assert(starts@ =~= self.starts@);
        LineIndex { starts }
    }
}

/// The line holding an offset is unique.
pub proof fn lemma_line_of_unique(starts: Seq<usize>, offset: usize, k: int)
    requires
        strictly_increasing_from_zero(starts),
        0 <= k < starts.len(),
        starts[k] <= offset,
        k + 1 == starts.len() || offset < starts[k + 1],
    ensures
        line_of(starts, offset) == k,
{
    let c = line_of(starts, offset);
    assert(0 <= c < starts.len() && starts[c] <= offset && (c + 1 == starts.len() || offset
        < starts[c + 1]));
    if c < k {
        assert(starts[c + 1] <= starts[k]);
    } else if c > k {
        assert(starts[k + 1] <= starts[c]);
    }
}

} // verus!
