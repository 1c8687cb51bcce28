//! Reading a JSONL trace line by line: the first line is the header, each
//! following line an entry, and the trace ends at the end of the text or
//! at the first blank line. Turning a line's JSON into a header or an
//! entry is left to the caller; this module decides which line is which.
use vstd::prelude::*;

use crate::error::Error;
use crate::header::{validation_of, TraceHeader};
use crate::text::{trim, trim_chars};

verus! {

/// The end of the line that starts at `pos`: just past its `'\n'`, or the
/// end of the text when it has none.
pub open spec fn line_end(text: Seq<char>, pos: int) -> int
    decreases text.len() - pos,
{
    if pos >= text.len() {
        text.len() as int
    } else if text[pos] == '\n' {
        pos + 1
    } else {
        line_end(text, pos + 1)
    }
}

/// A line ends past its start, within the text.
pub proof fn lemma_line_end_bounds(text: Seq<char>, pos: int)
    requires
        0 <= pos <= text.len(),
    ensures
        pos <= line_end(text, pos) <= text.len(),
        pos < text.len() ==> pos < line_end(text, pos),
    decreases text.len() - pos,
{
    if pos < text.len() && text[pos] != '\n' {
        lemma_line_end_bounds(text, pos + 1);
    }
}

/// Read the line that starts at `pos` (with its `'\n'`, if any); return it
/// and where the next line starts.
pub fn read_line(text: &Vec<char>, pos: usize) -> (r: (Vec<char>, usize))
    requires
        pos <= text@.len(),
    ensures
        r.1 == line_end(text@, pos as int),
        r.0@ == text@.subrange(pos as int, r.1 as int),
{
    let mut end = pos;
    proof {
        lemma_line_end_bounds(text@, pos as int);
    }
    while end < text.len() && text[end] != '\n'
        invariant
            pos <= end <= text@.len(),
            line_end(text@, pos as int) == line_end(text@, end as int),
        decreases text@.len() - end,
    {
        end += 1;
    }
    if end < text.len() {
        end += 1;
    }
    let line = crate::text::slice_chars(text, pos, end);
    (line, end)
}

/// The header line of a trace's text and where the entries start; a text
/// whose first line is empty (an empty text) has no header.
pub fn header_line(text: &Vec<char>) -> (r: Result<(Vec<char>, usize), Error>)
    ensures
        match r {
            Ok((line, next)) => {
                &&& line_end(text@, 0) > 0
                &&& next == line_end(text@, 0)
                &&& line@ == text@.subrange(0, next as int)
            },
            Err(e) => e == Error::MissingHeader && line_end(text@, 0) == 0,
        },
{
    proof {
        lemma_line_end_bounds(text@, 0);
    }
    let (line, next) = read_line(text, 0);
    if line.len() == 0 {
        return Err(Error::MissingHeader);
    }
    Ok((line, next))
}

/// A trace being read: its header and its text, with the position of the
/// next unread line.
pub struct TraceReader {
    header: TraceHeader,
    text: Vec<char>,
    pos: usize,
}

impl TraceReader {
    /// The reader's header.
    pub closed spec fn header_view(&self) -> TraceHeader {
        self.header
    }

    /// The whole text being read.
    pub closed spec fn text(&self) -> Seq<char> {
        self.text@
    }

    /// The position of the next unread line.
    pub closed spec fn position(&self) -> int {
        self.pos as int
    }

    /// Whether the position lies within the text.
    pub closed spec fn wf(&self) -> bool {
        self.pos <= self.text@.len()
    }

    /// A reader of the entries of `text` from `pos` (where
    /// [`header_line`] says they start), under a header parsed from the
    /// header line; the header must be valid.
    pub fn new(header: TraceHeader, text: Vec<char>, pos: usize) -> (r: Result<TraceReader, Error>)
        requires
            pos <= text@.len(),
        ensures
            match r {
                Ok(rd) => {
                    &&& validation_of(header) is Ok
                    &&& rd.wf()
                    &&& rd.header_view() == header
                    &&& rd.text() == text@
                    &&& rd.position() == pos
                },
                Err(e) => e matches Error::InvalidHeader(m) && validation_of(header) == Err::<(), Seq<char>>(
                    m@,
                ),
            },
    {
        match header.validate() {
            Ok(()) => Ok(TraceReader { header, text, pos }),
            Err(e) => Err(e),
        }
    }

    /// The parsed header.
    pub fn header(&self) -> (r: &TraceHeader)
        ensures
            *r == self.header_view(),
    {
        &self.header
    }

    /// The next entry line, trimmed; `None` at the end of the text or at a
    /// blank line, which ends the trace.
    pub fn next_line(&mut self) -> (r: Option<Vec<char>>)
        requires
            old(self).wf(),
        ensures
            final(self).wf(),
            final(self).header_view() == old(self).header_view(),
            final(self).text() == old(self).text(),
            final(self).position() == line_end(old(self).text(), old(self).position()),
            ({
                let line = trim(
                    old(self).text().subrange(old(self).position(), final(self).position()),
                );
                match r {
                    Some(l) => l@ == line && line.len() > 0,
                    None => line.len() == 0,
                }
            }),
    {
        proof {
            lemma_line_end_bounds(self.text@, self.pos as int);
        }
        let (line, next) = read_line(&self.text, self.pos);
        self.pos = next;
        let t = trim_chars(&line);
        if t.len() == 0 {
            None
        } else {
            Some(t)
        }
    }
}

/// A reader of any supported trace text format; JSONL is the one there is.
pub enum AnyTraceReader {
    Jsonl(TraceReader),
}

impl AnyTraceReader {
    /// The parsed header.
    pub fn header(&self) -> (r: &TraceHeader)
        ensures
            match self {
                AnyTraceReader::Jsonl(rd) => *r == rd.header_view(),
            },
    {
        match self {
            AnyTraceReader::Jsonl(rd) => rd.header(),
        }
    }
}

} // verus!
