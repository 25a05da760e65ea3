//! Conversion of language-server positions (line and UTF-16 column) into byte
//! offsets of one buffer snapshot.

use vstd::prelude::*;

verus! {

/// A position as a language server reports it: a zero-based line and a
/// zero-based column counted in UTF-16 code units.
#[derive(Clone, Copy, Debug, PartialEq, Eq, Structural)]
pub struct Point {
    pub line: u32,
    pub character: u32,
}

/// A range as a language server reports it.
#[derive(Clone, Copy, Debug, PartialEq, Eq, Structural)]
pub struct LspRange {
    pub start: Point,
    pub end: Point,
}

/// The UTF-16 code units that the character starting with byte `b` takes: two
/// for a four-byte sequence, none for a continuation byte, else one.
pub open spec fn utf16_width(b: u8) -> int {
    if 0x80 <= b && b < 0xC0 {
        0
    } else if b >= 0xF0 {
        2
    } else {
        1
    }
}

/// The offset where line `line` begins, counting lines from offset `i`; the
/// end of the text where there are not that many lines.
pub open spec fn line_start(text: Seq<u8>, i: int, line: int) -> int
    decreases text.len() - i,
{
    if line <= 0 || i >= text.len() || i < 0 {
        if i < text.len() { i } else { text.len() as int }
    } else if text[i] == 10 {
        line_start(text, i + 1, line - 1)
    } else {
        line_start(text, i + 1, line)
    }
}

/// The offset reached from `i` by moving `units` UTF-16 code units along one
/// line: it stops at the end of the line and never inside a character.
pub open spec fn column_offset(text: Seq<u8>, i: int, units: int) -> int
    decreases text.len() - i,
{
    if i < 0 || i >= text.len() || text[i] == 10 || utf16_width(text[i]) > units {
        if i < text.len() { i } else { text.len() as int }
    } else {
        column_offset(text, i + 1, units - utf16_width(text[i]))
    }
}

/// The byte offset of point `p` in `text`, clipped to the text.
pub open spec fn point_offset(text: Seq<u8>, p: Point) -> int {
    column_offset(text, line_start(text, 0, p.line as int), p.character as int)
}

proof fn lemma_line_start_bounds(text: Seq<u8>, i: int, line: int)
    requires
        0 <= i,
    ensures
        0 <= line_start(text, i, line) <= text.len(),
    decreases text.len() - i,
{
    if !(line <= 0 || i >= text.len()) {
        if text[i] == 10 {
            lemma_line_start_bounds(text, i + 1, line - 1);
        } else {
            lemma_line_start_bounds(text, i + 1, line);
        }
    }
}

/// Converts a language-server position into a byte offset of `text`,
/// clipping a line past the end to the end of the text and a column past the
/// end of its line to that line's end.
pub fn point_to_offset(text: &Vec<u8>, p: Point) -> (r: usize)
    ensures
        r == point_offset(text@, p),
        r <= text@.len(),
{
    let len = text.len();
    let mut i: usize = 0;
    let mut line: u32 = p.line;
    while line > 0 && i < len
        invariant
            len == text@.len(),
            i <= len,
            line_start(text@, i as int, line as int) == line_start(text@, 0, p.line as int),
        decreases len - i,
    {
        if text[i] == 10 {
            line = line - 1;
        }
        i = i + 1;
    }
    proof {
        lemma_line_start_bounds(text@, 0, p.line as int);
    }
    let mut units: u32 = p.character;
    loop
        invariant
            len == text@.len(),
            i <= len,
            column_offset(text@, i as int, units as int) == point_offset(text@, p),
        decreases len - i,
    {
        if i >= len {
            return i;
        }
        let b = text[i];
        if b == 10 {
            return i;
        }
        let width: u32 = if 0x80 <= b && b < 0xC0 {
            0
        } else if b >= 0xF0 {
            2
        } else {
            1
        };
        if width > units {
            return i;
        }
        units = units - width;
        i = i + 1;
    }
}

} // verus!
