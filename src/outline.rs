//! Outline items and the ancestor filter, which picks the chain of symbols
//! enclosing a cursor.

use vstd::prelude::*;

use crate::highlight::{Highlight, Snapshot};
use crate::locator::{highlights_from_buffer, located_highlights};

verus! {

/// A half-open range of byte offsets into one buffer snapshot.
#[derive(Clone, Copy, Debug, PartialEq, Eq, Structural)]
pub struct ByteRange {
    pub start: usize,
    pub end: usize,
}

/// One entry of a document outline: a symbol with its nesting depth, the
/// range it covers, the range of its name, its display text and the styled
/// spans of that text.
#[derive(Debug)]
pub struct OutlineItem {
    pub depth: usize,
    pub range: ByteRange,
    pub source_range_for_text: ByteRange,
    pub text: Vec<u8>,
    pub highlight_ranges: Vec<Highlight>,
    pub body_range: Option<ByteRange>,
    pub annotation_range: Option<ByteRange>,
}

#[verifier::ext_equal]
pub struct OutlineItemView {
    pub depth: usize,
    pub range: ByteRange,
    pub source_range_for_text: ByteRange,
    pub text: Seq<u8>,
    pub highlight_ranges: Seq<Highlight>,
    pub body_range: Option<ByteRange>,
    pub annotation_range: Option<ByteRange>,
}

impl View for OutlineItem {
    type V = OutlineItemView;

    open spec fn view(&self) -> OutlineItemView {
        OutlineItemView {
            depth: self.depth,
            range: self.range,
            source_range_for_text: self.source_range_for_text,
            text: self.text@,
            highlight_ranges: self.highlight_ranges@,
            body_range: self.body_range,
            annotation_range: self.annotation_range,
        }
    }
}

/// The values of a list of outline items.
pub open spec fn items_view(items: Seq<OutlineItem>) -> Seq<OutlineItemView> {
    items.map_values(|item: OutlineItem| item@)
}

impl OutlineItem {
    /// A copy of this item.
    pub fn duplicate(&self) -> (r: OutlineItem)
        ensures
            r@ == self@,
    {
        let text = self.text.clone();
        let highlight_ranges = self.highlight_ranges.clone();
        assert(text@ =~= self.text@);
        assert(highlight_ranges@ =~= self.highlight_ranges@);
        OutlineItem {
            depth: self.depth,
            range: self.range,
            source_range_for_text: self.source_range_for_text,
            text,
            highlight_ranges,
            body_range: self.body_range,
            annotation_range: self.annotation_range,
        }
    }
}

/// Copies a list of outline items.
pub fn duplicate_items(items: &Vec<OutlineItem>) -> (r: Vec<OutlineItem>)
    ensures
        items_view(r@) == items_view(items@),
{
    let mut out: Vec<OutlineItem> = Vec::new();
    let mut i: usize = 0;
    while i < items.len()
        invariant
            i <= items@.len(),
            out@.len() == i,
            items_view(out@) == items_view(items@.take(i as int)),
        decreases items@.len() - i,
    {
        let item = items[i].duplicate();
        let ghost prev = out@;
        out.push(item);
        assert forall|k: int| 0 <= k < i + 1 implies #[trigger] items_view(out@)[k] == items_view(
            items@.take(i + 1),
        )[k] by {
            if k < i {
                assert(items_view(prev)[k] == items_view(items@.take(i as int))[k]);
            }
        }
        assert(items_view(out@) =~= items_view(items@.take(i + 1)));
        i = i + 1;
    }
    assert(items@.take(items@.len() as int) =~= items@);
    out
}

/// `cursor` lies in `r`, both ends included.
pub open spec fn range_contains(r: ByteRange, cursor: int) -> bool {
    r.start <= cursor && cursor <= r.end
}

/// The items whose range contains `cursor`, in their order.
pub open spec fn containing(items: Seq<OutlineItemView>, cursor: int) -> Seq<OutlineItemView>
    decreases items.len(),
{
    if items.len() == 0 {
        seq![]
    } else {
        let rest = containing(items.drop_last(), cursor);
        if range_contains(items.last().range, cursor) {
            rest.push(items.last())
        } else {
            rest
        }
    }
}

/// Keeps an item only where its depth is greater than that of the item kept
/// last; the first item is always kept.
pub open spec fn keep_deepening(items: Seq<OutlineItemView>) -> Seq<OutlineItemView>
    decreases items.len(),
{
    if items.len() == 0 {
        seq![]
    } else {
        let kept = keep_deepening(items.drop_last());
        if kept.len() == 0 || items.last().depth > kept.last().depth {
            kept.push(items.last())
        } else {
            kept
        }
    }
}

/// The chain of items enclosing `cursor`, outermost first.
pub open spec fn ancestors(items: Seq<OutlineItemView>, cursor: int) -> Seq<OutlineItemView> {
    keep_deepening(containing(items, cursor))
}

proof fn lemma_ancestors_step(s: Seq<OutlineItemView>, cursor: int)
    requires
        s.len() > 0,
    ensures
        ancestors(s, cursor) == ({
            let kept = ancestors(s.drop_last(), cursor);
            let x = s.last();
            if range_contains(x.range, cursor) && (kept.len() == 0 || x.depth > kept.last().depth) {
                kept.push(x)
            } else {
                kept
            }
        }),
{
    let c = containing(s, cursor);
    let rest = containing(s.drop_last(), cursor);
    if range_contains(s.last().range, cursor) {
        assert(c == rest.push(s.last()));
        assert(c.drop_last() =~= rest);
    }
}

/// Every item of the chain encloses the cursor, and each lies deeper than
/// the one before it.
pub proof fn lemma_ancestors_nest(items: Seq<OutlineItemView>, cursor: int)
    ensures
        forall|k: int|
            0 <= k < ancestors(items, cursor).len() ==> range_contains(
                #[trigger] ancestors(items, cursor)[k].range,
                cursor,
            ),
        forall|k: int|
            0 < k < ancestors(items, cursor).len() ==> #[trigger] ancestors(items, cursor)[k].depth > ancestors(
                items,
                cursor,
            )[k - 1].depth,
    decreases items.len(),
{
    if items.len() > 0 {
        lemma_ancestors_nest(items.drop_last(), cursor);
        lemma_ancestors_step(items, cursor);
        let kept = ancestors(items.drop_last(), cursor);
        let all = ancestors(items, cursor);
        assert forall|k: int| 0 <= k < all.len() implies range_contains(#[trigger] all[k].range, cursor) by {
            if k < kept.len() {
                assert(all[k] == kept[k]);
            }
        }
        assert forall|k: int| 0 < k < all.len() implies #[trigger] all[k].depth > all[k - 1].depth by {
            if k < kept.len() {
                assert(all[k] == kept[k] && all[k - 1] == kept[k - 1]);
            }
        }
    }
}

/// Selects from `items` the chain of symbols that enclose `cursor`, outermost
/// first: the items whose range contains the cursor, in order, of which each
/// is kept only if it is deeper than the one kept before it.
pub fn ancestor_chain(items: &Vec<OutlineItem>, cursor: usize) -> (r: Vec<OutlineItem>)
    ensures
        items_view(r@) == ancestors(items_view(items@), cursor as int),
        items@.len() == 0 ==> r@.len() == 0,
{
    let ghost all = items_view(items@);
    let mut out: Vec<OutlineItem> = Vec::new();
    let mut i: usize = 0;
    assert(all.take(0) =~= Seq::<OutlineItemView>::empty());
    while i < items.len()
        invariant
            all == items_view(items@),
            i <= items@.len(),
            items_view(out@) == ancestors(all.take(i as int), cursor as int),
        decreases items@.len() - i,
    {
        let item = &items[i];
        proof {
            assert(all.take(i + 1).drop_last() =~= all.take(i as int));
            assert(all.take(i + 1).last() == item@);
            lemma_ancestors_step(all.take(i + 1), cursor as int);
        }
        if item.range.start <= cursor && cursor <= item.range.end {
            let n = out.len();
            if n == 0 || item.depth > out[n - 1].depth {
                let copy = item.duplicate();
                out.push(copy);
                assert(items_view(out@) =~= items_view(out@.drop_last()).push(copy@));
            }
        }
        i = i + 1;
    }
    assert(all.take(items@.len() as int) =~= all);
    out
}

/// An item with the highlights that the buffer gives its name, where any are
/// found; else the item as it was.
pub open spec fn with_buffer_highlights(item: OutlineItemView, snapshot: &Snapshot) -> OutlineItemView {
    match located_highlights(
        item.text,
        0,
        snapshot.text@,
        snapshot.chunks@,
        item.range.start as int,
        item.range.end as int,
        item.source_range_for_text.start as int,
    ) {
        Some(h) => OutlineItemView { highlight_ranges: h, ..item },
        None => item,
    }
}

/// Gives each item the syntax highlights found for its name in the buffer,
/// leaving items whose name is not found as they were.
pub fn apply_syntax_highlights(items: &mut Vec<OutlineItem>, snapshot: &Snapshot)
    requires
        snapshot.wf(),
    ensures
        final(items)@.len() == old(items)@.len(),
        forall|i: int|
            0 <= i < old(items)@.len() ==> #[trigger] final(items)@[i]@ == with_buffer_highlights(
                old(items)@[i]@,
                snapshot,
            ),
{
    let ghost before = items@;
    let mut i: usize = 0;
    while i < items.len()
        invariant
            snapshot.wf(),
            i <= items@.len(),
            items@.len() == before.len(),
            forall|j: int| 0 <= j < i ==> #[trigger] items@[j]@ == with_buffer_highlights(before[j]@, snapshot),
            forall|j: int| i <= j < before.len() ==> #[trigger] items@[j] == before[j],
        decreases items@.len() - i,
    {
        assert(items@[i as int].text@.len() == items@[i as int].text.len());
        let found = highlights_from_buffer(
            &items[i].text,
            0,
            snapshot,
            items[i].range.start,
            items[i].range.end,
            items[i].source_range_for_text.start,
        );
        match found {
            Some(h) => {
                let old_item = &items[i];
                let text = old_item.text.clone();
                assert(text@ =~= old_item.text@);
                let updated = OutlineItem {
                    depth: old_item.depth,
                    range: old_item.range,
                    source_range_for_text: old_item.source_range_for_text,
                    text,
                    highlight_ranges: h,
                    body_range: old_item.body_range,
                    annotation_range: old_item.annotation_range,
                };
                items[i] = updated;
            },
            None => {},
        }
        i = i + 1;
    }
}

/// An edit of a buffer: the bytes `start..old_end` were replaced by
/// `new_len` bytes.
#[derive(Clone, Copy, Debug, PartialEq, Eq, Structural)]
pub struct BufferEdit {
    pub start: usize,
    pub old_end: usize,
    pub new_len: usize,
}

/// Where offset `o` lands after `edit`, in text of `limit` bytes: before the
/// edit it stays, inside the replaced bytes it moves to the edit's start,
/// after them it moves by the change in length; never past the text's end.
pub open spec fn shifted_offset(o: int, edit: BufferEdit, limit: int) -> int {
    let moved = if o <= edit.start {
        o
    } else if o < edit.old_end {
        edit.start as int
    } else {
        o - edit.old_end + edit.start + edit.new_len
    };
    if moved > limit {
        limit
    } else {
        moved
    }
}

pub open spec fn shifted_range(r: ByteRange, edit: BufferEdit, limit: int) -> ByteRange {
    ByteRange {
        start: shifted_offset(r.start as int, edit, limit) as usize,
        end: shifted_offset(r.end as int, edit, limit) as usize,
    }
}

pub open spec fn shifted_opt_range(r: Option<ByteRange>, edit: BufferEdit, limit: int) -> Option<ByteRange> {
    match r {
        Some(r) => Some(shifted_range(r, edit, limit)),
        None => None,
    }
}

/// An item with its buffer ranges carried across `edit`; its text and the
/// highlights of that text stay.
pub open spec fn shifted_item(item: OutlineItemView, edit: BufferEdit, limit: int) -> OutlineItemView {
    OutlineItemView {
        range: shifted_range(item.range, edit, limit),
        source_range_for_text: shifted_range(item.source_range_for_text, edit, limit),
        body_range: shifted_opt_range(item.body_range, edit, limit),
        annotation_range: shifted_opt_range(item.annotation_range, edit, limit),
        ..item
    }
}

/// Items with their buffer ranges carried across `edit`.
pub open spec fn shifted_items(items: Seq<OutlineItemView>, edit: BufferEdit, limit: int) -> Seq<OutlineItemView> {
    items.map_values(|item: OutlineItemView| shifted_item(item, edit, limit))
}

fn shift_offset(o: usize, edit: BufferEdit, limit: usize) -> (r: usize)
    requires
        edit.start <= edit.old_end,
        edit.start + edit.new_len <= limit,
    ensures
        r as int == shifted_offset(o as int, edit, limit as int),
{
    if o <= edit.start {
        if o > limit {
            limit
        } else {
            o
        }
    } else if o < edit.old_end {
        edit.start
    } else if o - edit.old_end > limit - (edit.start + edit.new_len) {
        limit
    } else {
        o - edit.old_end + edit.start + edit.new_len
    }
}

fn shift_range(r: ByteRange, edit: BufferEdit, limit: usize) -> (s: ByteRange)
    requires
        edit.start <= edit.old_end,
        edit.start + edit.new_len <= limit,
    ensures
        s == shifted_range(r, edit, limit as int),
{
    ByteRange { start: shift_offset(r.start, edit, limit), end: shift_offset(r.end, edit, limit) }
}

fn shift_opt_range(r: Option<ByteRange>, edit: BufferEdit, limit: usize) -> (s: Option<ByteRange>)
    requires
        edit.start <= edit.old_end,
        edit.start + edit.new_len <= limit,
    ensures
        s == shifted_opt_range(r, edit, limit as int),
{
    match r {
        Some(r) => Some(shift_range(r, edit, limit)),
        None => None,
    }
}

/// Copies of `items` with their buffer ranges carried across `edit`, into
/// text of `limit` bytes.
pub fn shift_items(items: &Vec<OutlineItem>, edit: BufferEdit, limit: usize) -> (r: Vec<OutlineItem>)
    requires
        edit.start <= edit.old_end,
        edit.start + edit.new_len <= limit,
    ensures
        items_view(r@) == shifted_items(items_view(items@), edit, limit as int),
{
    let mut out: Vec<OutlineItem> = Vec::new();
    let mut i: usize = 0;
    while i < items.len()
        invariant
            edit.start <= edit.old_end,
            edit.start + edit.new_len <= limit,
            i <= items@.len(),
            out@.len() == i,
            forall|k: int| 0 <= k < i ==> #[trigger] out@[k]@ == shifted_item(items@[k]@, edit, limit as int),
        decreases items@.len() - i,
    {
        let item = &items[i];
        let copy = item.duplicate();
        let shifted = OutlineItem {
            depth: copy.depth,
            range: shift_range(copy.range, edit, limit),
            source_range_for_text: shift_range(copy.source_range_for_text, edit, limit),
            text: copy.text,
            highlight_ranges: copy.highlight_ranges,
            body_range: shift_opt_range(copy.body_range, edit, limit),
            annotation_range: shift_opt_range(copy.annotation_range, edit, limit),
        };
        assert(shifted@ =~= shifted_item(item@, edit, limit as int));
        out.push(shifted);
        i = i + 1;
    }
    assert(items_view(out@) =~= shifted_items(items_view(items@), edit, limit as int));
    out
}

} // verus!
