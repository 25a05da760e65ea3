//! Projection of the syntax classifier's styled chunks onto outline item text.

use vstd::prelude::*;

verus! {

/// A run of buffer text that the syntax classifier reports as one piece,
/// with the style class it was given, if any.
#[derive(Clone, Copy, Debug, PartialEq, Eq, Structural)]
pub struct Chunk {
    pub len: usize,
    pub style: Option<u32>,
}

/// A styled span of an outline item's text, as byte offsets into that text.
#[derive(Clone, Copy, Debug, PartialEq, Eq, Structural)]
pub struct Highlight {
    pub start: usize,
    pub end: usize,
    pub style: u32,
}

/// An immutable view of a buffer: its bytes, and the classifier's chunks,
/// which cover the bytes from offset 0 in order.
pub struct Snapshot {
    pub text: Vec<u8>,
    pub chunks: Vec<Chunk>,
}

/// The number of bytes that a sequence of chunks covers.
pub open spec fn total_len(chunks: Seq<Chunk>) -> int
    decreases chunks.len(),
{
    if chunks.len() == 0 {
        0
    } else {
        total_len(chunks.drop_last()) + chunks.last().len
    }
}

impl Snapshot {
    /// The chunks cover the text exactly.
    pub open spec fn wf(&self) -> bool {
        total_len(self.chunks@) == self.text@.len()
    }

    /// A snapshot of `text` classified into `chunks`; none where the chunks
    /// do not cover the text exactly.
    pub fn new(text: Vec<u8>, chunks: Vec<Chunk>) -> (r: Option<Snapshot>)
        ensures
            match r {
                Some(s) => s.wf() && s.text@ == text@ && s.chunks@ == chunks@,
                None => total_len(chunks@) != text@.len(),
            },
    {
        let text_len = text.len();
        let mut covered: usize = 0;
        let mut i: usize = 0;
        assert(chunks@.take(0) =~= Seq::<Chunk>::empty());
        while i < chunks.len()
            invariant
                text_len == text@.len(),
                i <= chunks@.len(),
                covered == total_len(chunks@.take(i as int)),
                covered <= text_len,
            decreases chunks@.len() - i,
        {
            assert(chunks@.take(i + 1).drop_last() =~= chunks@.take(i as int));
            let len = chunks[i].len;
            if len > text_len - covered {
                proof {
                    lemma_total_len_monotone(chunks@, i + 1, chunks@.len() as int);
                    assert(chunks@.take(chunks@.len() as int) =~= chunks@);
                }
                return None;
            }
            covered = covered + len;
            i = i + 1;
        }
        assert(chunks@.take(chunks@.len() as int) =~= chunks@);
        if covered == text_len {
            Some(Snapshot { text, chunks })
        } else {
            None
        }
    }
}

/// The span that chunk `c`, starting at buffer offset `pos`, contributes when
/// the buffer range `a..b` is projected onto text starting at `cursor`.
pub open spec fn chunk_span(c: Chunk, pos: int, cursor: int, a: int, b: int) -> Seq<Highlight> {
    let s = if pos > a { pos } else { a };
    let e = if pos + c.len < b { pos + c.len } else { b };
    if s < e && c.style is Some {
        seq![Highlight { start: (cursor + s - a) as usize, end: (cursor + e - a) as usize, style: c.style->Some_0 }]
    } else {
        seq![]
    }
}

/// The styled spans of buffer range `a..b`, in chunk order, moved so that
/// buffer offset `a` lands on text offset `cursor`.
pub open spec fn range_spans(chunks: Seq<Chunk>, cursor: int, a: int, b: int) -> Seq<Highlight>
    decreases chunks.len(),
{
    if chunks.len() == 0 {
        seq![]
    } else {
        range_spans(chunks.drop_last(), cursor, a, b) + chunk_span(
            chunks.last(),
            total_len(chunks.drop_last()),
            cursor,
            a,
            b,
        )
    }
}

/// What projecting a range yields: nothing when no chunk in it is styled.
pub open spec fn projected(chunks: Seq<Chunk>, cursor: int, a: int, b: int) -> Option<Seq<Highlight>> {
    let spans = range_spans(chunks, cursor, a, b);
    if spans.len() == 0 {
        None
    } else {
        Some(spans)
    }
}

pub open spec fn view_highlights(r: Option<Vec<Highlight>>) -> Option<Seq<Highlight>> {
    match r {
        Some(v) => Some(v@),
        None => None,
    }
}

proof fn lemma_total_len_monotone(chunks: Seq<Chunk>, i: int, j: int)
    requires
        0 <= i <= j <= chunks.len(),
    ensures
        total_len(chunks.take(i)) <= total_len(chunks.take(j)),
    decreases j - i,
{
    if i < j {
        assert(chunks.take(j).drop_last() =~= chunks.take(j - 1));
        lemma_total_len_monotone(chunks, i, j - 1);
    }
}

/// Reads the classifier's styles for buffer bytes `buffer_start..buffer_end`
/// and places them on outline text starting at `text_cursor_start`.
pub fn highlights_for_range(
    text_cursor_start: usize,
    buffer_start: usize,
    buffer_end: usize,
    snapshot: &Snapshot,
) -> (r: Option<Vec<Highlight>>)
    requires
        snapshot.wf(),
        buffer_start <= buffer_end <= snapshot.text@.len(),
        text_cursor_start + (buffer_end - buffer_start) <= usize::MAX,
    ensures
        view_highlights(r) == projected(
            snapshot.chunks@,
            text_cursor_start as int,
            buffer_start as int,
            buffer_end as int,
        ),
{
    let ghost chunks = snapshot.chunks@;
    let mut highlights: Vec<Highlight> = Vec::new();
    let mut pos: usize = 0;
    let mut i: usize = 0;
    let text_len = snapshot.text.len();
    assert(chunks.take(0) =~= Seq::<Chunk>::empty());
    while i < snapshot.chunks.len()
        invariant
            chunks == snapshot.chunks@,
            text_len == snapshot.text@.len(),
            snapshot.wf(),
            buffer_start <= buffer_end <= snapshot.text@.len(),
            text_cursor_start + (buffer_end - buffer_start) <= usize::MAX,
            i <= chunks.len(),
            pos == total_len(chunks.take(i as int)),
            highlights@ == range_spans(
                chunks.take(i as int),
                text_cursor_start as int,
                buffer_start as int,
                buffer_end as int,
            ),
        decreases chunks.len() - i,
    {
        let c = snapshot.chunks[i];
        proof {
            assert(chunks.take(i + 1).drop_last() =~= chunks.take(i as int));
            lemma_total_len_monotone(chunks, i + 1, chunks.len() as int);
            assert(chunks.take(chunks.len() as int) =~= chunks);
            assert(chunks.take(i + 1).last() == c);
        }
        let end = pos + c.len;
        let s = if pos > buffer_start {
            pos
        } else {
            buffer_start
        };
        let e = if end < buffer_end {
            end
        } else {
            buffer_end
        };
        if s < e {
            match c.style {
                Some(style) => {
                    highlights.push(
                        Highlight {
                            start: text_cursor_start + (s - buffer_start),
                            end: text_cursor_start + (e - buffer_start),
                            style,
                        },
                    );
                },
                None => {},
            }
        }
        pos = end;
        i = i + 1;
    }
    assert(chunks.take(chunks.len() as int) =~= chunks);
    if highlights.len() > 0 {
        Some(highlights)
    } else {
        None
    }
}

} // verus!
