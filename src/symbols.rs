//! Normalization of a language server's document symbols, nested or flat,
//! into a flat list of depth-annotated outline items.

use vstd::prelude::*;

use crate::outline::{items_view, ByteRange, OutlineItem, OutlineItemView};
use crate::position::{point_offset, point_to_offset, LspRange};
use crate::search::bytes_equal;

verus! {

/// A symbol of a nested (hierarchical) server response.
pub struct DocumentSymbol {
    pub name: Vec<u8>,
    pub range: LspRange,
    pub selection_range: LspRange,
    pub children: Vec<DocumentSymbol>,
}

/// A symbol of a flat server response, which names its container instead of
/// nesting inside it.
pub struct SymbolInformation {
    pub name: Vec<u8>,
    pub range: LspRange,
    pub container_name: Option<Vec<u8>>,
}

/// The two shapes in which a server reports the symbols of a document.
pub enum DocumentSymbolResponse {
    Nested(Vec<DocumentSymbol>),
    Flat(Vec<SymbolInformation>),
}

/// The byte range of a server range in `text`.
pub open spec fn byte_range_of(text: Seq<u8>, r: LspRange) -> ByteRange {
    ByteRange { start: point_offset(text, r.start) as usize, end: point_offset(text, r.end) as usize }
}

/// The outline item for a symbol named `name` at `depth`.
pub open spec fn symbol_item(
    name: Seq<u8>,
    depth: int,
    range: LspRange,
    selection: LspRange,
    text: Seq<u8>,
) -> OutlineItemView {
    OutlineItemView {
        depth: depth as usize,
        range: byte_range_of(text, range),
        source_range_for_text: byte_range_of(text, selection),
        text: name,
        highlight_ranges: seq![],
        body_range: None,
        annotation_range: None,
    }
}

/// A nested symbol and its descendants in document order, the symbol at
/// `depth` and each level below it one deeper. A symbol without a name is
/// malformed and is left out; its children take its place, at its depth.
pub open spec fn flatten_node(t: DocumentSymbol, depth: int, text: Seq<u8>) -> Seq<OutlineItemView>
    decreases t, t.children@.len() + 1,
{
    if t.name@.len() == 0 {
        flatten_children(t, 0, depth, text)
    } else if depth >= usize::MAX {
        seq![symbol_item(t.name@, depth, t.range, t.selection_range, text)]
    } else {
        seq![symbol_item(t.name@, depth, t.range, t.selection_range, text)] + flatten_children(
            t,
            0,
            depth + 1,
            text,
        )
    }
}

/// The children of `t` from the `i`-th on, flattened at `depth`.
pub open spec fn flatten_children(t: DocumentSymbol, i: int, depth: int, text: Seq<u8>) -> Seq<
    OutlineItemView,
>
    decreases t, t.children@.len() - i,
{
    if i < 0 || i >= t.children@.len() {
        seq![]
    } else {
        flatten_node(t.children@[i], depth, text) + flatten_children(t, i + 1, depth, text)
    }
}

/// The top-level symbols from the `i`-th on, flattened from depth 0.
pub open spec fn flatten_roots(roots: Seq<DocumentSymbol>, i: int, text: Seq<u8>) -> Seq<OutlineItemView>
    decreases roots.len() - i,
{
    if i < 0 || i >= roots.len() {
        seq![]
    } else {
        flatten_node(roots[i], 0, text) + flatten_roots(roots, i + 1, text)
    }
}

/// The last position of `name` in `chain`, or -1.
pub open spec fn last_index_of(chain: Seq<Seq<u8>>, name: Seq<u8>) -> int
    decreases chain.len(),
{
    if chain.len() == 0 {
        -1
    } else if chain.last() == name {
        chain.len() - 1
    } else {
        last_index_of(chain.drop_last(), name)
    }
}

/// The flat symbols as outline items, with the chain of names open after the
/// last one. A symbol nests one level below the latest symbol of the open
/// chain that bears its container's name, and at depth 0 where none does;
/// the chain is then cut after that container and the symbol ends it.
/// Symbols without a name are left out.
pub open spec fn flat_fold(symbols: Seq<SymbolInformation>, text: Seq<u8>) -> (Seq<Seq<u8>>, Seq<OutlineItemView>)
    decreases symbols.len(),
{
    if symbols.len() == 0 {
        (seq![], seq![])
    } else {
        let (chain, out) = flat_fold(symbols.drop_last(), text);
        let s = symbols.last();
        if s.name@.len() == 0 {
            (chain, out)
        } else {
            let j = match s.container_name {
                Some(c) => last_index_of(chain, c@),
                None => -1,
            };
            (chain.take(j + 1).push(s.name@), out.push(symbol_item(s.name@, j + 1, s.range, s.range, text)))
        }
    }
}

/// The outline items that a server response normalizes to.
pub open spec fn normalized(response: DocumentSymbolResponse, text: Seq<u8>) -> Seq<OutlineItemView> {
    match response {
        DocumentSymbolResponse::Nested(roots) => flatten_roots(roots@, 0, text),
        DocumentSymbolResponse::Flat(symbols) => flat_fold(symbols@, text).1,
    }
}

/// The depths of `s` start at `d`, never drop below it, and rise by at most
/// one from each item to the next.
pub open spec fn depths_from(s: Seq<OutlineItemView>, d: int) -> bool {
    &&& (s.len() > 0 ==> s[0].depth == d)
    &&& forall|k: int| 0 <= k < s.len() ==> #[trigger] s[k].depth >= d
    &&& forall|k: int| 0 < k < s.len() ==> #[trigger] s[k].depth <= s[k - 1].depth + 1
}

/// A flat outline in which every item sits at most one level below the item
/// before it, the first at the top level.
pub open spec fn well_nested(s: Seq<OutlineItemView>) -> bool {
    depths_from(s, 0)
}

proof fn lemma_depths_concat(a: Seq<OutlineItemView>, b: Seq<OutlineItemView>, d: int)
    requires
        depths_from(a, d),
        depths_from(b, d),
    ensures
        depths_from(a + b, d),
{
    let c = a + b;
    assert forall|k: int| 0 < k < c.len() implies #[trigger] c[k].depth <= c[k - 1].depth + 1 by {
        if k < a.len() {
            assert(c[k] == a[k] && c[k - 1] == a[k - 1]);
        } else if k == a.len() {
            assert(c[k] == b[0] && c[k - 1] == a[k - 1]);
        } else {
            assert(c[k] == b[k - a.len()] && c[k - 1] == b[k - 1 - a.len()]);
        }
    }
    assert forall|k: int| 0 <= k < c.len() implies #[trigger] c[k].depth >= d by {
        if k < a.len() {
            assert(c[k] == a[k]);
        } else {
            assert(c[k] == b[k - a.len()]);
        }
    }
}

proof fn lemma_flatten_node_depths(t: DocumentSymbol, depth: int, text: Seq<u8>)
    requires
        0 <= depth <= usize::MAX,
    ensures
        depths_from(flatten_node(t, depth, text), depth),
    decreases t, t.children@.len() + 1,
{
    if t.name@.len() == 0 {
        lemma_flatten_children_depths(t, 0, depth, text);
    } else if depth < usize::MAX {
        let head = seq![symbol_item(t.name@, depth, t.range, t.selection_range, text)];
        let rest = flatten_children(t, 0, depth + 1, text);
        lemma_flatten_children_depths(t, 0, depth + 1, text);
        let all = head + rest;
        assert forall|k: int| 0 < k < all.len() implies #[trigger] all[k].depth <= all[k - 1].depth + 1 by {
            if k == 1 {
                assert(all[1] == rest[0]);
            } else {
                assert(all[k] == rest[k - 1] && all[k - 1] == rest[k - 2]);
            }
        }
        assert forall|k: int| 0 <= k < all.len() implies #[trigger] all[k].depth >= depth by {
            if k > 0 {
                assert(all[k] == rest[k - 1]);
            }
        }
    }
}

proof fn lemma_flatten_children_depths(t: DocumentSymbol, i: int, depth: int, text: Seq<u8>)
    requires
        0 <= depth <= usize::MAX,
    ensures
        depths_from(flatten_children(t, i, depth, text), depth),
    decreases t, t.children@.len() - i,
{
    if 0 <= i < t.children@.len() {
        lemma_flatten_node_depths(t.children@[i], depth, text);
        lemma_flatten_children_depths(t, i + 1, depth, text);
        lemma_depths_concat(
            flatten_node(t.children@[i], depth, text),
            flatten_children(t, i + 1, depth, text),
            depth,
        );
    }
}

proof fn lemma_flatten_roots_depths(roots: Seq<DocumentSymbol>, i: int, text: Seq<u8>)
    ensures
        depths_from(flatten_roots(roots, i, text), 0),
    decreases roots.len() - i,
{
    if 0 <= i < roots.len() {
        lemma_flatten_node_depths(roots[i], 0, text);
        lemma_flatten_roots_depths(roots, i + 1, text);
        lemma_depths_concat(flatten_node(roots[i], 0, text), flatten_roots(roots, i + 1, text), 0);
    }
}

proof fn lemma_last_index_of_bounds(chain: Seq<Seq<u8>>, name: Seq<u8>)
    ensures
        -1 <= last_index_of(chain, name) < chain.len(),
    decreases chain.len(),
{
    if chain.len() > 0 && chain.last() != name {
        lemma_last_index_of_bounds(chain.drop_last(), name);
    }
}

proof fn lemma_flat_fold_depths(symbols: Seq<SymbolInformation>, text: Seq<u8>)
    requires
        symbols.len() <= usize::MAX,
    ensures
        ({
            let (chain, out) = flat_fold(symbols, text);
            &&& depths_from(out, 0)
            &&& chain.len() <= symbols.len()
            &&& (out.len() == 0 <==> chain.len() == 0)
            &&& (out.len() > 0 ==> out.last().depth == chain.len() - 1)
        }),
    decreases symbols.len(),
{
    if symbols.len() > 0 {
        lemma_flat_fold_depths(symbols.drop_last(), text);
        let (chain, out) = flat_fold(symbols.drop_last(), text);
        let s = symbols.last();
        if s.name@.len() != 0 {
            let j = match s.container_name {
                Some(c) => last_index_of(chain, c@),
                None => -1,
            };
            match s.container_name {
                Some(c) => lemma_last_index_of_bounds(chain, c@),
                None => {},
            }
            let item = symbol_item(s.name@, j + 1, s.range, s.range, text);
            let next = out.push(item);
            assert(next.last() == item);
            assert forall|k: int| 0 < k < next.len() implies #[trigger] next[k].depth <= next[k - 1].depth + 1 by {
                if k < out.len() {
                    assert(next[k] == out[k] && next[k - 1] == out[k - 1]);
                }
            }
            assert forall|k: int| 0 <= k < next.len() implies #[trigger] next[k].depth >= 0 by {
                if k < out.len() {
                    assert(next[k] == out[k]);
                }
            }
        }
    }
}

/// Normalizing a server response, nested or flat, yields a well-nested
/// outline: the first item is at the top level and each item is at most one
/// level deeper than the one before it.
pub proof fn lemma_normalized_is_well_nested(response: DocumentSymbolResponse, text: Seq<u8>)
    requires
        response is Flat ==> response->Flat_0@.len() <= usize::MAX,
    ensures
        well_nested(normalized(response, text)),
{
    match response {
        DocumentSymbolResponse::Nested(roots) => lemma_flatten_roots_depths(roots@, 0, text),
        DocumentSymbolResponse::Flat(symbols) => lemma_flat_fold_depths(symbols@, text),
    }
}

proof fn lemma_parent_before(s: Seq<OutlineItemView>, i: int, m: int)
    requires
        well_nested(s),
        0 <= m <= i < s.len(),
        s[i].depth > 0,
        forall|k: int| m <= k < i ==> #[trigger] s[k].depth >= s[i].depth,
    ensures
        exists|j: int|
            0 <= j < i && s[j].depth + 1 == s[i].depth && forall|k: int|
                j < k < i ==> #[trigger] s[k].depth > s[j].depth,
    decreases m,
{
    if m == 0 {
        if i == 0 {
            assert(s[0].depth == 0);
        } else {
            assert(s[0].depth >= s[i].depth);
        }
    } else {
        assert(s[m].depth <= s[m - 1].depth + 1);
        if s[m - 1].depth + 1 == s[i].depth {
            let j = m - 1;
            assert(forall|k: int| j < k < i ==> #[trigger] s[k].depth > s[j].depth);
        } else {
            lemma_parent_before(s, i, m - 1);
        }
    }
}

/// In a well-nested outline every item below the top level has its parent
/// before it: an earlier item exactly one level up, such that every item
/// between the two lies deeper than the parent. The parent thus precedes all
/// of its descendants, which follow it without a break.
pub proof fn lemma_well_nested_has_parent(s: Seq<OutlineItemView>, i: int)
    requires
        well_nested(s),
        0 <= i < s.len(),
        s[i].depth > 0,
    ensures
        exists|j: int|
            0 <= j < i && s[j].depth + 1 == s[i].depth && forall|k: int|
                j < k < i ==> #[trigger] s[k].depth > s[j].depth,
{
    lemma_parent_before(s, i, i);
}

/// Normalizing any server response, nested or flat, yields a flat outline in
/// which every item below the top level has its parent before it, exactly
/// one level up, with all of the parent's descendants following it without
/// a break.
pub proof fn lemma_normalized_parents_precede(response: DocumentSymbolResponse, text: Seq<u8>, i: int)
    requires
        response is Flat ==> response->Flat_0@.len() <= usize::MAX,
        0 <= i < normalized(response, text).len(),
        normalized(response, text)[i].depth > 0,
    ensures
        ({
            let s = normalized(response, text);
            exists|j: int|
                0 <= j < i && s[j].depth + 1 == s[i].depth && forall|k: int|
                    j < k < i ==> #[trigger] s[k].depth > s[j].depth
        }),
{
    lemma_normalized_is_well_nested(response, text);
    lemma_well_nested_has_parent(normalized(response, text), i);
}

/// Over the response's own tree: a named symbol at `depth` comes first among
/// the items it yields, every item of its descendants follows it one level
/// deeper or more, and each named child yields its own item exactly one
/// level below it.
pub proof fn lemma_symbol_precedes_descendants(t: DocumentSymbol, depth: int, text: Seq<u8>)
    requires
        t.name@.len() > 0,
        0 <= depth < usize::MAX,
    ensures
        flatten_node(t, depth, text)[0] == symbol_item(t.name@, depth, t.range, t.selection_range, text),
        forall|k: int| 1 <= k < flatten_node(t, depth, text).len() ==> #[trigger] flatten_node(t, depth, text)[k].depth > depth,
        forall|i: int|
            0 <= i < t.children@.len() && (#[trigger] t.children@[i]).name@.len() > 0 ==> flatten_node(
                t.children@[i],
                depth + 1,
                text,
            )[0].depth == depth + 1,
{
    let rest = flatten_children(t, 0, depth + 1, text);
    lemma_flatten_children_depths(t, 0, depth + 1, text);
    let all = flatten_node(t, depth, text);
    assert forall|k: int| 1 <= k < all.len() implies #[trigger] all[k].depth > depth by {
        assert(all[k] == rest[k - 1]);
    }
}

fn symbol_to_item(name: &Vec<u8>, depth: usize, range: LspRange, selection: LspRange, text: &Vec<u8>) -> (r:
    OutlineItem)
    ensures
        r@ == symbol_item(name@, depth as int, range, selection, text@),
{
    let copy = name.clone();
    assert(copy@ =~= name@);
    let highlight_ranges = Vec::new();
    assert(highlight_ranges@ =~= Seq::empty());
    OutlineItem {
        depth,
        range: ByteRange { start: point_to_offset(text, range.start), end: point_to_offset(text, range.end) },
        source_range_for_text: ByteRange {
            start: point_to_offset(text, selection.start),
            end: point_to_offset(text, selection.end),
        },
        text: copy,
        highlight_ranges,
        body_range: None,
        annotation_range: None,
    }
}

proof fn lemma_items_view_push(s: Seq<OutlineItem>, x: OutlineItem)
    ensures
        items_view(s.push(x)) == items_view(s).push(x@),
{
    assert(items_view(s.push(x)) =~= items_view(s).push(x@));
}

fn flatten_node_into(t: &DocumentSymbol, depth: usize, text: &Vec<u8>, out: &mut Vec<OutlineItem>)
    ensures
        items_view(final(out)@) == items_view(old(out)@) + flatten_node(*t, depth as int, text@),
    decreases t, t.children@.len() + 1,
{
    let ghost before = items_view(out@);
    if t.name.len() == 0 {
        let mut k: usize = 0;
        assert(items_view(out@) + flatten_children(*t, 0, depth as int, text@) =~= before + flatten_node(
            *t,
            depth as int,
            text@,
        ));
        while k < t.children.len()
            invariant
                t.name@.len() == 0,
                k <= t.children@.len(),
                items_view(out@) + flatten_children(*t, k as int, depth as int, text@) == before + flatten_node(
                    *t,
                    depth as int,
                    text@,
                ),
            decreases t.children@.len() - k,
        {
            let ghost mid = items_view(out@);
            flatten_node_into(&t.children[k], depth, text, out);
            assert(items_view(out@) + flatten_children(*t, k + 1, depth as int, text@) =~= mid
                + flatten_children(*t, k as int, depth as int, text@));
            k = k + 1;
        }
        assert(items_view(out@) + flatten_children(*t, k as int, depth as int, text@) =~= items_view(out@));
        return;
    }
    let item = symbol_to_item(&t.name, depth, t.range, t.selection_range, text);
    proof {
        lemma_items_view_push(out@, item);
    }
    out.push(item);
    let ghost head = seq![symbol_item(t.name@, depth as int, t.range, t.selection_range, text@)];
    if depth == usize::MAX {
        assert(items_view(out@) =~= before + head);
        return;
    }
    let mut k: usize = 0;
    assert(items_view(out@) + flatten_children(*t, 0, depth + 1, text@) =~= before + flatten_node(
        *t,
        depth as int,
        text@,
    ));
    while k < t.children.len()
        invariant
            depth < usize::MAX,
            k <= t.children@.len(),
            items_view(out@) + flatten_children(*t, k as int, depth + 1, text@) == before + flatten_node(
                *t,
                depth as int,
                text@,
            ),
        decreases t.children@.len() - k,
    {
        let ghost mid = items_view(out@);
        flatten_node_into(&t.children[k], depth + 1, text, out);
        assert(items_view(out@) + flatten_children(*t, k + 1, depth + 1, text@) =~= mid
            + flatten_children(*t, k as int, depth + 1, text@));
        k = k + 1;
    }
    assert(items_view(out@) + flatten_children(*t, k as int, depth + 1, text@) =~= items_view(out@));
}

/// The view of a chain of names.
pub open spec fn names_view(chain: Seq<Vec<u8>>) -> Seq<Seq<u8>> {
    chain.map_values(|v: Vec<u8>| v@)
}

/// The depth of a symbol whose container is `name`: one below the latest
/// symbol of the open chain with that name, or 0 where none has it.
fn depth_below(chain: &Vec<Vec<u8>>, name: &Vec<u8>) -> (r: usize)
    ensures
        r as int == last_index_of(names_view(chain@), name@) + 1,
{
    let ghost cv = names_view(chain@);
    let mut j: usize = chain.len();
    assert(cv.take(j as int) =~= cv);
    loop
        invariant
            cv == names_view(chain@),
            j <= chain@.len(),
            last_index_of(cv, name@) == last_index_of(cv.take(j as int), name@),
        decreases j,
    {
        if j == 0 {
            return 0;
        }
        assert(cv.take(j as int).drop_last() =~= cv.take(j - 1));
        assert(cv.take(j as int).last() == chain@[j - 1]@);
        if bytes_equal(&chain[j - 1], name) {
            return j;
        }
        j = j - 1;
    }
}

fn flat_items(symbols: &Vec<SymbolInformation>, text: &Vec<u8>) -> (r: Vec<OutlineItem>)
    ensures
        items_view(r@) == flat_fold(symbols@, text@).1,
        well_nested(items_view(r@)),
{
    let n = symbols.len();
    let mut out: Vec<OutlineItem> = Vec::new();
    let mut chain: Vec<Vec<u8>> = Vec::new();
    let mut k: usize = 0;
    assert(symbols@.take(0) =~= Seq::<SymbolInformation>::empty());
    assert(names_view(chain@) =~= Seq::empty());
    assert(items_view(out@) =~= Seq::empty());
    while k < n
        invariant
            n == symbols@.len(),
            k <= symbols@.len(),
            (names_view(chain@), items_view(out@)) == flat_fold(symbols@.take(k as int), text@),
        decreases symbols@.len() - k,
    {
        let s = &symbols[k];
        proof {
            assert(symbols@.take(k + 1).drop_last() =~= symbols@.take(k as int));
            assert(symbols@.take(k + 1).last() == *s);
        }
        if s.name.len() > 0 {
            let depth: usize = match &s.container_name {
                Some(c) => {
                    proof {
                        lemma_last_index_of_bounds(names_view(chain@), c@);
                    }
                    depth_below(&chain, c)
                },
                None => 0,
            };
            let item = symbol_to_item(&s.name, depth, s.range, s.range, text);
            proof {
                lemma_items_view_push(out@, item);
            }
            out.push(item);
            let ghost cv = names_view(chain@);
            chain.truncate(depth);
            let copy = s.name.clone();
            assert(copy@ =~= s.name@);
            chain.push(copy);
            assert(names_view(chain@) =~= cv.take(depth as int).push(s.name@));
        }
        k = k + 1;
    }
    assert(symbols@.take(symbols@.len() as int) =~= symbols@);
    proof {
        lemma_flat_fold_depths(symbols@, text@);
    }
    out
}

/// Turns a server response into the flat, depth-annotated outline items it
/// describes, with byte ranges in `text`. Symbols without a name are skipped.
pub fn outline_items_from_response(response: &DocumentSymbolResponse, text: &Vec<u8>) -> (r: Vec<
    OutlineItem,
>)
    ensures
        items_view(r@) == normalized(*response, text@),
        well_nested(items_view(r@)),
{
    match response {
        DocumentSymbolResponse::Nested(roots) => {
            let mut out: Vec<OutlineItem> = Vec::new();
            let mut k: usize = 0;
            assert(items_view(out@) + flatten_roots(roots@, 0, text@) =~= flatten_roots(roots@, 0, text@));
            while k < roots.len()
                invariant
                    k <= roots@.len(),
                    items_view(out@) + flatten_roots(roots@, k as int, text@) == flatten_roots(roots@, 0, text@),
                decreases roots@.len() - k,
            {
                let ghost mid = items_view(out@);
                flatten_node_into(&roots[k], 0, text, &mut out);
                assert(items_view(out@) + flatten_roots(roots@, k + 1, text@) =~= mid + flatten_roots(
                    roots@,
                    k as int,
                    text@,
                ));
                k = k + 1;
            }
            assert(items_view(out@) + flatten_roots(roots@, k as int, text@) =~= items_view(out@));
            proof {
                lemma_flatten_roots_depths(roots@, 0, text@);
            }
            out
        },
        DocumentSymbolResponse::Flat(symbols) => {
            flat_items(symbols, text)
        },
    }
}

} // verus!
