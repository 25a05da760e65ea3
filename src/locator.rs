//! Locating a symbol's name in the buffer text, so that the outline entry can
//! carry the syntax styles of the declaration it names.

use vstd::prelude::*;

use crate::highlight::{
    chunk_span, highlights_for_range, projected, range_spans, total_len, view_highlights, Chunk, Highlight, Snapshot,
};
use crate::search::{find_bytes, find_from, occurs_at, space_len, split_words, words, words_scan};

verus! {

/// One step of the word-by-word match: the state is the spans found so far,
/// whether any word was styled, and where the next search starts, relative to
/// `start`.
pub open spec fn word_step(
    st: (Seq<Highlight>, bool, int),
    w: (usize, usize),
    name: Seq<u8>,
    offset: int,
    text: Seq<u8>,
    chunks: Seq<Chunk>,
    start: int,
    end: int,
) -> (Seq<Highlight>, bool, int) {
    let word = name.subrange(w.0 as int, w.1 as int);
    match find_from(text, start + st.2, end, word) {
        Some(p) => match projected(chunks, offset + w.0, p, p + word.len()) {
            Some(hs) => (st.0 + hs, true, p + word.len() - start),
            None => (st.0, st.1, p + word.len() - start),
        },
        None => st,
    }
}

/// The word-by-word match over the words `ws` of `name`, searching forward
/// through `text[start..end]`.
pub open spec fn word_fallback(
    ws: Seq<(usize, usize)>,
    name: Seq<u8>,
    offset: int,
    text: Seq<u8>,
    chunks: Seq<Chunk>,
    start: int,
    end: int,
) -> (Seq<Highlight>, bool, int)
    decreases ws.len(),
{
    if ws.len() == 0 {
        (seq![], false, 0)
    } else {
        word_step(
            word_fallback(ws.drop_last(), name, offset, text, chunks, start, end),
            ws.last(),
            name,
            offset,
            text,
            chunks,
            start,
            end,
        )
    }
}

/// The lower end of the window searched for the verbatim name.
pub open spec fn window_start(n: int, start: int, sel: int) -> int {
    let lo = if sel > n { sel - n } else { 0 };
    if lo > start { lo } else { start }
}

/// The upper end of the window searched for the verbatim name.
pub open spec fn window_end(n: int, end: int, sel: int) -> int {
    if sel + 2 * n < end { sel + 2 * n } else { end }
}

/// The highlights of `name` read from the buffer: first the name found
/// verbatim in a window around `sel`, else each word found in turn within
/// `start..end`; nothing for an empty name or a range outside the text.
pub open spec fn located_highlights(
    name: Seq<u8>,
    offset: int,
    text: Seq<u8>,
    chunks: Seq<Chunk>,
    start: int,
    end: int,
    sel: int,
) -> Option<Seq<Highlight>> {
    let n = name.len() as int;
    if n == 0 || !(0 <= start <= end <= text.len()) {
        None
    } else {
        let ss = window_start(n, start, sel);
        let se = window_end(n, end, sel);
        let verbatim = if ss < se {
            match find_from(text, ss, se, name) {
                Some(p) => projected(chunks, offset, p, p + n),
                None => None,
            }
        } else {
            None
        };
        if verbatim is Some {
            verbatim
        } else {
            let st = word_fallback(words(name), name, offset, text, chunks, start, end);
            if st.1 {
                Some(st.0)
            } else {
                None
            }
        }
    }
}

proof fn lemma_find_from_bounds(hay: Seq<u8>, from: int, to: int, needle: Seq<u8>)
    ensures
        match find_from(hay, from, to, needle) {
            Some(p) => from <= p && p + needle.len() <= to && occurs_at(hay, p, needle),
            None => true,
        },
    decreases to - from + 1,
{
    if !(from < 0 || from + needle.len() > to) && !occurs_at(hay, from, needle) {
        lemma_find_from_bounds(hay, from + 1, to, needle);
    }
}

proof fn lemma_words_scan_bounds(s: Seq<u8>, i: int, start: Option<int>)
    requires
        0 <= i <= s.len() <= usize::MAX,
        match start {
            Some(st) => 0 <= st < i,
            None => true,
        },
    ensures
        forall|k: int|
            0 <= k < words_scan(s, i, start).len() ==> {
                let w = #[trigger] words_scan(s, i, start)[k];
                0 <= w.0 < w.1 <= s.len()
            },
    decreases s.len() - i,
{
    if i < s.len() {
        if space_len(s, i) > 0 {
            lemma_words_scan_bounds(s, i + space_len(s, i), None);
            match start {
                Some(st) => {
                    let rest = words_scan(s, i + space_len(s, i), None);
                    assert(words_scan(s, i, start) == seq![(st as usize, i as usize)] + rest);
                    assert forall|k: int| 0 < k < words_scan(s, i, start).len() implies
                        #[trigger] words_scan(s, i, start)[k] == rest[k - 1] by {}
                },
                None => {
                    assert(words_scan(s, i, start) == words_scan(s, i + space_len(s, i), None));
                },
            }
        } else {
            match start {
                Some(st) => {
                    lemma_words_scan_bounds(s, i + 1, Some(st));
                    assert(words_scan(s, i, start) == words_scan(s, i + 1, Some(st)));
                },
                None => {
                    lemma_words_scan_bounds(s, i + 1, Some(i));
                    assert(words_scan(s, i, start) == words_scan(s, i + 1, Some(i)));
                },
            }
        }
    } else {
        match start {
            Some(st) => {
                assert(words_scan(s, i, start) == seq![(st as usize, s.len() as usize)]);
                assert(words_scan(s, i, start)[0] == (st as usize, s.len() as usize));
            },
            None => {},
        }
    }
}

proof fn lemma_range_spans_bounds(chunks: Seq<Chunk>, cursor: int, a: int, b: int)
    requires
        a <= b,
        0 <= cursor,
        cursor + (b - a) <= usize::MAX,
    ensures
        forall|k: int|
            0 <= k < range_spans(chunks, cursor, a, b).len() ==> {
                let h = #[trigger] range_spans(chunks, cursor, a, b)[k];
                cursor <= h.start < h.end <= cursor + (b - a)
            },
    decreases chunks.len(),
{
    if chunks.len() > 0 {
        lemma_range_spans_bounds(chunks.drop_last(), cursor, a, b);
        let rest = range_spans(chunks.drop_last(), cursor, a, b);
        let last = chunk_span(chunks.last(), total_len(chunks.drop_last()), cursor, a, b);
        let all = range_spans(chunks, cursor, a, b);
        assert(all == rest + last);
        assert forall|k: int| 0 <= k < all.len() implies ({
            let h = #[trigger] all[k];
            cursor <= h.start < h.end <= cursor + (b - a)
        }) by {
            if k < rest.len() {
                assert(all[k] == rest[k]);
            } else {
                assert(all[k] == last[k - rest.len()]);
            }
        }
    }
}

proof fn lemma_word_fallback_within_words(
    ws: Seq<(usize, usize)>,
    name: Seq<u8>,
    offset: int,
    text: Seq<u8>,
    chunks: Seq<Chunk>,
    start: int,
    end: int,
)
    requires
        0 <= offset,
        offset + name.len() <= usize::MAX,
        forall|j: int| 0 <= j < ws.len() ==> {
            let w = #[trigger] ws[j];
            0 <= w.0 < w.1 <= name.len()
        },
    ensures
        forall|k: int|
            0 <= k < word_fallback(ws, name, offset, text, chunks, start, end).0.len() ==> exists|j: int|
                0 <= j < ws.len() && offset + ws[j].0 <= (#[trigger] word_fallback(
                    ws,
                    name,
                    offset,
                    text,
                    chunks,
                    start,
                    end,
                ).0[k]).start && word_fallback(ws, name, offset, text, chunks, start, end).0[k].end <= offset
                    + ws[j].1,
    decreases ws.len(),
{
    if ws.len() > 0 {
        let prefix = ws.drop_last();
        assert forall|j: int| 0 <= j < prefix.len() implies ({
            let w = #[trigger] prefix[j];
            0 <= w.0 < w.1 <= name.len()
        }) by {
            assert(prefix[j] == ws[j]);
        }
        lemma_word_fallback_within_words(prefix, name, offset, text, chunks, start, end);
        let st = word_fallback(prefix, name, offset, text, chunks, start, end);
        let all = word_fallback(ws, name, offset, text, chunks, start, end).0;
        let w = ws.last();
        let word = name.subrange(w.0 as int, w.1 as int);
        let last_j = ws.len() - 1;
        assert(ws[last_j] == w);
        match find_from(text, start + st.2, end, word) {
            Some(p) => {
                lemma_range_spans_bounds(chunks, offset + w.0, p, p + word.len());
                assert forall|k: int| 0 <= k < all.len() implies exists|j: int|
                    0 <= j < ws.len() && offset + ws[j].0 <= (#[trigger] all[k]).start && all[k].end <= offset
                        + ws[j].1 by {
                    if k < st.0.len() {
                        assert(all[k] == st.0[k]);
                        let j = choose|j: int|
                            0 <= j < prefix.len() && offset + prefix[j].0 <= st.0[k].start && st.0[k].end
                                <= offset + prefix[j].1;
                        assert(prefix[j] == ws[j]);
                    } else {
                        let spans = range_spans(chunks, offset + w.0, p, p + word.len());
                        assert(all[k] == spans[k - st.0.len()]);
                    }
                }
            },
            None => {
                assert forall|k: int| 0 <= k < all.len() implies exists|j: int|
                    0 <= j < ws.len() && offset + ws[j].0 <= (#[trigger] all[k]).start && all[k].end <= offset
                        + ws[j].1 by {
                    let j = choose|j: int|
                        0 <= j < prefix.len() && offset + prefix[j].0 <= st.0[k].start && st.0[k].end <= offset
                            + prefix[j].1;
                    assert(prefix[j] == ws[j]);
                }
            },
        }
    }
}

/// The word-by-word match has styled a word exactly where it found spans.
pub proof fn lemma_word_fallback_styled(
    ws: Seq<(usize, usize)>,
    name: Seq<u8>,
    offset: int,
    text: Seq<u8>,
    chunks: Seq<Chunk>,
    start: int,
    end: int,
)
    ensures
        word_fallback(ws, name, offset, text, chunks, start, end).1 <==> word_fallback(
            ws,
            name,
            offset,
            text,
            chunks,
            start,
            end,
        ).0.len() > 0,
    decreases ws.len(),
{
    if ws.len() > 0 {
        lemma_word_fallback_styled(ws.drop_last(), name, offset, text, chunks, start, end);
    }
}

/// Highlights, where there are any, are never an empty list.
pub proof fn lemma_located_nonempty(
    name: Seq<u8>,
    offset: int,
    text: Seq<u8>,
    chunks: Seq<Chunk>,
    start: int,
    end: int,
    sel: int,
)
    ensures
        located_highlights(name, offset, text, chunks, start, end, sel) is Some ==> located_highlights(
            name,
            offset,
            text,
            chunks,
            start,
            end,
            sel,
        )->Some_0.len() > 0,
{
    lemma_word_fallback_styled(words(name), name, offset, text, chunks, start, end);
}

/// Where a name is matched word by word, the highlights are segmented by
/// word: each span lies within one word of the name, moved by the name's
/// offset in the outline text.
pub proof fn lemma_word_highlights_stay_in_words(
    name: Seq<u8>,
    offset: int,
    text: Seq<u8>,
    chunks: Seq<Chunk>,
    start: int,
    end: int,
)
    requires
        0 <= offset,
        offset + name.len() <= usize::MAX,
    ensures
        ({
            let ws = words(name);
            let spans = word_fallback(ws, name, offset, text, chunks, start, end).0;
            forall|k: int|
                0 <= k < spans.len() ==> exists|j: int|
                    0 <= j < ws.len() && offset + ws[j].0 <= (#[trigger] spans[k]).start && spans[k].end <= offset
                        + ws[j].1
        }),
{
    lemma_words_scan_bounds(name, 0, None);
    lemma_word_fallback_within_words(words(name), name, offset, text, chunks, start, end);
}

/// Reads syntax highlights for the symbol `name` from the buffer, placing them
/// on outline text where the name starts at `name_offset_in_text`.
///
/// The name is first searched verbatim in a window around the selection start
/// (from one name length before it to two after, within the symbol's range),
/// so that a name such as `impl Trait for Type` is styled as one piece. Where
/// it does not stand there verbatim, each word, as whitespace separates them, is looked
/// for in turn, moving forward through the symbol's range, and styled where
/// found; a word that is not found adds nothing and the scan goes on.
pub fn highlights_from_buffer(
    name: &Vec<u8>,
    name_offset_in_text: usize,
    snapshot: &Snapshot,
    range_start: usize,
    range_end: usize,
    selection_start_offset: usize,
) -> (r: Option<Vec<Highlight>>)
    requires
        snapshot.wf(),
        name_offset_in_text + name@.len() <= usize::MAX,
    ensures
        view_highlights(r) == located_highlights(
            name@,
            name_offset_in_text as int,
            snapshot.text@,
            snapshot.chunks@,
            range_start as int,
            range_end as int,
            selection_start_offset as int,
        ),
        name@.len() == 0 ==> r is None,
        r is Some ==> r->Some_0@.len() > 0,
{
    let ghost text = snapshot.text@;
    let ghost chunks = snapshot.chunks@;
    let ghost offset = name_offset_in_text as int;
    proof {
        lemma_located_nonempty(
            name@,
            offset,
            text,
            chunks,
            range_start as int,
            range_end as int,
            selection_start_offset as int,
        );
    }
    let n = name.len();
    if n == 0 {
        return None;
    }
    let text_len = snapshot.text.len();
    if !(range_start <= range_end && range_end <= text_len) {
        return None;
    }
    let sel = selection_start_offset;
    let lo = if sel > n {
        sel - n
    } else {
        0
    };
    let search_start = if lo > range_start {
        lo
    } else {
        range_start
    };
    let search_end = if sel >= range_end {
        range_end
    } else if range_end - sel <= n || range_end - sel - n <= n {
        range_end
    } else {
        sel + n + n
    };
    assert(search_start == window_start(n as int, range_start as int, sel as int));
    assert(search_end == window_end(n as int, range_end as int, sel as int));
    assert(name@.subrange(0, n as int) =~= name@);
    if search_start < search_end {
        let found = find_bytes(&snapshot.text, search_start, search_end, name, 0, n);
        proof {
            lemma_find_from_bounds(text, search_start as int, search_end as int, name@);
        }
        match found {
            Some(at) => {
                let r = highlights_for_range(name_offset_in_text, at, at + n, snapshot);
                if r.is_some() {
                    return r;
                }
            },
            None => {},
        }
    }
    let ws = split_words(name);
    proof {
        lemma_words_scan_bounds(name@, 0, None);
    }
    assert(ws@ == words_scan(name@, 0, None));
    let mut highlights: Vec<Highlight> = Vec::new();
    let mut got_any = false;
    let mut buf_from: usize = 0;
    let mut k: usize = 0;
    assert(ws@.take(0) =~= Seq::<(usize, usize)>::empty());
    while k < ws.len()
        invariant
            text == snapshot.text@,
            chunks == snapshot.chunks@,
            snapshot.wf(),
            offset == name_offset_in_text,
            offset + name@.len() <= usize::MAX,
            range_start <= range_end <= text.len(),
            ws@ == words(name@),
            forall|j: int|
                0 <= j < ws@.len() ==> {
                    let w = #[trigger] ws@[j];
                    0 <= w.0 < w.1 <= name@.len()
                },
            k <= ws@.len(),
            range_start + buf_from <= range_end,
            (highlights@, got_any, buf_from as int) == word_fallback(
                ws@.take(k as int),
                name@,
                offset,
                text,
                chunks,
                range_start as int,
                range_end as int,
            ),
        decreases ws@.len() - k,
    {
        let (w_start, w_end) = ws[k];
        proof {
            assert(ws@.take(k + 1).drop_last() =~= ws@.take(k as int));
            assert(ws@.take(k + 1).last() == ws@[k as int]);
        }
        let found = find_bytes(&snapshot.text, range_start + buf_from, range_end, name, w_start, w_end);
        proof {
            lemma_find_from_bounds(
                text,
                range_start + buf_from,
                range_end as int,
                name@.subrange(w_start as int, w_end as int),
            );
        }
        match found {
            Some(at) => {
                let word_len = w_end - w_start;
                match highlights_for_range(name_offset_in_text + w_start, at, at + word_len, snapshot) {
                    Some(mut word_highlights) => {
                        highlights.append(&mut word_highlights);
                        got_any = true;
                    },
                    None => {},
                }
                buf_from = at + word_len - range_start;
            },
            None => {},
        }
        k = k + 1;
    }
    assert(ws@.take(ws@.len() as int) =~= ws@);
    if got_any {
        Some(highlights)
    } else {
        None
    }
}

} // verus!
