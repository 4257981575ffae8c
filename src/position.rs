//! Source positions: from a byte offset in a file to its line and column.

use vstd::prelude::*;

verus! {

/// A place in a file of the source table, zero-indexed.
#[derive(Clone, Copy, PartialEq, Eq, Structural, Debug)]
pub struct Location {
    pub file: usize,
    pub zi_line: usize,
    pub zi_column: usize,
}

/// The number of line feeds in `s`.
pub open spec fn count_newlines(s: Seq<u8>) -> nat
    decreases s.len(),
{
    if s.len() == 0 {
        0
    } else {
        count_newlines(s.drop_last()) + if s.last() == 10u8 { 1nat } else { 0nat }
    }
}

/// The offset just after the last line feed of `s`, or 0.
pub open spec fn line_start(s: Seq<u8>) -> int
    decreases s.len(),
{
    if s.len() == 0 {
        0
    } else if s.last() == 10u8 {
        s.len() as int
    } else {
        line_start(s.drop_last())
    }
}

pub proof fn lemma_counts_bounded(s: Seq<u8>)
    ensures
        count_newlines(s) <= s.len(),
        0 <= line_start(s) <= s.len(),
    decreases s.len(),
{
    if s.len() > 0 {
        lemma_counts_bounded(s.drop_last());
    }
}

impl Location {
    pub fn new(file: usize, zi_line: usize, zi_column: usize) -> (r: Location)
        ensures
            r == (Location { file, zi_line, zi_column }),
    {
        Location { file, zi_line, zi_column }
    }

    /// The line number as people count lines, from one.
    pub fn line_number(&self) -> (r: usize)
        requires
            self.zi_line < usize::MAX,
        ensures
            r == self.zi_line + 1,
    {
        self.zi_line + 1
    }
}

/// The position of byte offset `offset` of `text`, the file with index
/// `file`: its line is the number of line feeds before it, its column the
/// distance from the start of that line.
pub fn position_of(text: &[u8], file: usize, offset: usize) -> (r: Location)
    requires
        offset <= text@.len(),
    ensures
        r.file == file,
        r.zi_line == count_newlines(text@.subrange(0, offset as int)),
        r.zi_column == offset - line_start(text@.subrange(0, offset as int)),
{
    let mut line: usize = 0;
    let mut start: usize = 0;
    let mut i: usize = 0;
    assert(text@.subrange(0, 0) =~= Seq::<u8>::empty());
    while i < offset
        invariant
            i <= offset <= text@.len(),
            line == count_newlines(text@.subrange(0, i as int)),
            start == line_start(text@.subrange(0, i as int)),
            line <= i,
            start <= i,
        decreases offset - i,
    {
        assert(text@.subrange(0, i + 1).drop_last() =~= text@.subrange(0, i as int));
        if text[i] == 10 {
            line = line + 1;
            start = i + 1;
        }
        i = i + 1;
    }
    Location { file, zi_line: line, zi_column: offset - start }
}

} // verus!
