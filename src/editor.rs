//! The per-editor outline state: which symbol source each buffer uses, the
//! cache of server-provided symbols, and the fetch waves that refresh it.

use vstd::prelude::*;

use itertools::Itertools;

use crate::highlight::Snapshot;
use crate::outline::{
    ancestor_chain, ancestors, apply_syntax_highlights, duplicate_items, items_view, shift_items, shifted_items,
    with_buffer_highlights, BufferEdit, OutlineItem, OutlineItemView,
};
use crate::symbols::{normalized, outline_items_from_response, DocumentSymbolResponse};

verus! {

/// The authoritative symbol source of a buffer.
#[derive(Clone, Copy, Debug, PartialEq, Eq, Structural)]
pub enum OutlineSource {
    /// Symbols fetched from the language server.
    ServerProvided,
    /// The outline derived locally from the syntax tree.
    SyntaxDerived,
}

/// An open buffer: its identity, its current snapshot, and the outline that
/// the syntax tree gives it.
pub struct Buffer {
    pub id: u64,
    pub snapshot: Snapshot,
    pub syntax_outline: Vec<OutlineItem>,
}

/// One fetch wave: the buffers to request symbols for, and the number that
/// their results must carry back.
pub struct FetchWave {
    pub wave: u64,
    pub buffers: Vec<u64>,
}

/// What a caller asking for a buffer's whole outline gets now.
pub enum OutlineItems {
    /// The outline, available at once.
    Ready(Vec<OutlineItem>),
    /// Nothing is cached yet: the caller should fetch the symbols from the
    /// server and pass the response to `outline_items_from_fetch`.
    FetchRequired,
}

/// The outline state of one editor.
pub struct Editor {
    buffers: Vec<Buffer>,
    lsp_document_symbols: Vec<Option<Vec<OutlineItem>>>,
    latest_wave: Vec<u64>,
    next_wave: u64,
    full_mode: bool,
    has_project: bool,
}

/// The abstract state of an editor; the four sequences run in parallel, one
/// entry per open buffer. A latest wave of 0 means none was issued.
#[verifier::ext_equal]
pub struct EditorView {
    pub buffers: Seq<Buffer>,
    pub symbols: Seq<Option<Seq<OutlineItemView>>>,
    pub latest_wave: Seq<u64>,
    pub next_wave: u64,
    pub full_mode: bool,
    pub has_project: bool,
}

pub open spec fn opt_items_view(o: Option<Vec<OutlineItem>>) -> Option<Seq<OutlineItemView>> {
    match o {
        Some(v) => Some(items_view(v@)),
        None => None,
    }
}

impl View for Editor {
    type V = EditorView;

    closed spec fn view(&self) -> EditorView {
        EditorView {
            buffers: self.buffers@,
            symbols: self.lsp_document_symbols@.map_values(|o: Option<Vec<OutlineItem>>| opt_items_view(o)),
            latest_wave: self.latest_wave@,
            next_wave: self.next_wave,
            full_mode: self.full_mode,
            has_project: self.has_project,
        }
    }
}

/// The position of buffer `id` among `buffers`, or -1 where it is not open.
pub open spec fn buffer_index(buffers: Seq<Buffer>, id: u64) -> int
    decreases buffers.len(),
{
    if buffers.len() == 0 {
        -1
    } else if buffers.last().id == id {
        buffers.len() - 1
    } else {
        buffer_index(buffers.drop_last(), id)
    }
}

impl EditorView {
    pub open spec fn wf(self) -> bool {
        &&& self.symbols.len() == self.buffers.len()
        &&& self.latest_wave.len() == self.buffers.len()
        &&& self.next_wave >= 1
        &&& forall|i: int, j: int|
            0 <= i < j < self.buffers.len() ==> #[trigger] self.buffers[i].id != #[trigger] self.buffers[j].id
        &&& forall|i: int| 0 <= i < self.buffers.len() ==> (#[trigger] self.buffers[i]).snapshot.wf()
        &&& forall|i: int| 0 <= i < self.buffers.len() ==> #[trigger] self.latest_wave[i] < self.next_wave
    }

    /// The position of buffer `id`, or -1.
    pub open spec fn index_of(self, id: u64) -> int {
        buffer_index(self.buffers, id)
    }

    /// Which source is authoritative for buffer `id`, given `enabled`, its
    /// document-symbols setting as it stands: the server's where the buffer
    /// is open in a project with a server and the setting is on; else the
    /// local syntax outline.
    pub open spec fn selected_source(self, id: u64, enabled: bool) -> OutlineSource {
        let i = self.index_of(id);
        if self.has_project && i >= 0 && enabled {
            OutlineSource::ServerProvided
        } else {
            OutlineSource::SyntaxDerived
        }
    }

    /// Buffer `i` takes part in a refresh restricted to `for_buffer`, where
    /// `enabled` lists the buffers whose setting enables document symbols.
    pub open spec fn targeted(self, i: int, for_buffer: Option<u64>, enabled: Seq<u64>) -> bool {
        &&& enabled.contains(self.buffers[i].id)
        &&& match for_buffer {
            Some(b) => self.buffers[i].id == b,
            None => true,
        }
    }

    /// The ids of the first `k` buffers that a refresh targets, in order.
    pub open spec fn targeted_ids(self, for_buffer: Option<u64>, enabled: Seq<u64>, k: int) -> Seq<u64>
        decreases k,
    {
        if k <= 0 {
            seq![]
        } else {
            let rest = self.targeted_ids(for_buffer, enabled, k - 1);
            if self.targeted(k - 1, for_buffer, enabled) {
                rest.push(self.buffers[k - 1].id)
            } else {
                rest
            }
        }
    }

    /// A refresh: where the editor is a full editor in a project and some
    /// buffer is targeted, a new wave is issued for the targeted buffers, each
    /// of which records it as its latest wave.
    pub open spec fn refreshed(self, for_buffer: Option<u64>, enabled: Seq<u64>) -> (EditorView, Option<(u64, Seq<u64>)>) {
        let ids = dedup_first(self.targeted_ids(for_buffer, enabled, self.buffers.len() as int));
        if !self.full_mode || !self.has_project || ids.len() == 0 || self.next_wave == u64::MAX {
            (self, None)
        } else {
            let w = self.next_wave;
            (
                EditorView {
                    latest_wave: Seq::new(
                        self.latest_wave.len(),
                        |i: int| if self.targeted(i, for_buffer, enabled) { w } else { self.latest_wave[i] },
                    ),
                    next_wave: (w + 1) as u64,
                    ..self
                },
                Some((w, ids)),
            )
        }
    }

    /// The result of wave `wave` for buffer `id` arriving: written to the
    /// cache, normalized and highlighted against the buffer's snapshot, only
    /// where the buffer is still open and `wave` is its latest wave.
    pub open spec fn completed(self, wave: u64, id: u64, response: DocumentSymbolResponse) -> EditorView {
        let i = self.index_of(id);
        if i >= 0 && wave > 0 && self.latest_wave[i] == wave {
            let snapshot = self.buffers[i].snapshot;
            EditorView {
                symbols: self.symbols.update(i, Some(highlighted(normalized(response, snapshot.text@), &snapshot))),
                ..self
            }
        } else {
            self
        }
    }

    /// The chain of cached server symbols enclosing `cursor` in buffer `id`;
    /// nothing where the buffer is closed or its cache is absent or empty.
    pub open spec fn lsp_at_cursor(self, id: u64, cursor: int) -> Option<(u64, Seq<OutlineItemView>)> {
        let i = self.index_of(id);
        if i < 0 {
            None
        } else {
            match self.symbols[i] {
                Some(items) => if items.len() == 0 {
                    None
                } else {
                    Some((id, ancestors(items, cursor)))
                },
                None => None,
            }
        }
    }

    /// The chain of symbols enclosing `cursor` in buffer `id`, from the source
    /// selected for the buffer under its setting `enabled`.
    pub open spec fn outline_at_cursor(self, id: u64, cursor: int, enabled: bool) -> Option<(u64, Seq<OutlineItemView>)> {
        let i = self.index_of(id);
        if i < 0 {
            None
        } else if self.selected_source(id, enabled) == OutlineSource::ServerProvided {
            self.lsp_at_cursor(id, cursor)
        } else {
            Some((id, ancestors(items_view(self.buffers[i].syntax_outline@), cursor)))
        }
    }

    /// The whole outline of buffer `id` as it can be had now; `None` where the
    /// server's symbols are selected but no fetch has completed for the
    /// buffer, so that a fetch is needed. A cached empty outline is a result
    /// of its own: the server reported no symbols.
    pub open spec fn outline_now(self, id: u64, enabled: bool) -> Option<Seq<OutlineItemView>> {
        let i = self.index_of(id);
        if i < 0 {
            Some(seq![])
        } else if self.selected_source(id, enabled) == OutlineSource::ServerProvided {
            self.symbols[i]
        } else {
            Some(items_view(self.buffers[i].syntax_outline@))
        }
    }
}

/// A cache entry with its ranges carried across `edit`.
pub open spec fn shifted_entry(entry: Option<Seq<OutlineItemView>>, edit: BufferEdit, limit: int) -> Option<
    Seq<OutlineItemView>,
> {
    match entry {
        Some(items) => Some(shifted_items(items, edit, limit)),
        None => None,
    }
}

/// Items with the syntax highlights that the snapshot gives their names.
pub open spec fn highlighted(items: Seq<OutlineItemView>, snapshot: &Snapshot) -> Seq<OutlineItemView> {
    items.map_values(|item: OutlineItemView| with_buffer_highlights(item, snapshot))
}

/// The response normalized and highlighted against `snapshot`.
fn highlighted_response(response: &DocumentSymbolResponse, snapshot: &Snapshot) -> (r: Vec<OutlineItem>)
    requires
        snapshot.wf(),
    ensures
        items_view(r@) == highlighted(normalized(*response, snapshot.text@), snapshot),
{
    let mut items = outline_items_from_response(response, &snapshot.text);
    let ghost plain = items@;
    apply_syntax_highlights(&mut items, snapshot);
    assert(items_view(items@) =~= highlighted(normalized(*response, snapshot.text@), snapshot)) by {
        assert forall|j: int| 0 <= j < items@.len() implies #[trigger] items_view(items@)[j] == highlighted(
            normalized(*response, snapshot.text@),
            snapshot,
        )[j] by {
            assert(items@[j]@ == with_buffer_highlights(plain[j]@, snapshot));
            assert(items_view(plain)[j] == plain[j]@);
        }
    }
    items
}

/// `s` with each value kept at its first occurrence only.
pub open spec fn dedup_first(s: Seq<u64>) -> Seq<u64>
    decreases s.len(),
{
    if s.len() == 0 {
        seq![]
    } else {
        let rest = dedup_first(s.drop_last());
        if s.drop_last().contains(s.last()) {
            rest
        } else {
            rest.push(s.last())
        }
    }
}

/// Relies on itertools' `Itertools::unique`: it yields each distinct item
/// once, where it first occurs, in the order of the input.
#[verifier::external_body]
fn unique_ids(ids: Vec<u64>) -> (r: Vec<u64>)
    ensures
        r@ == dedup_first(ids@),
{
    ids.into_iter().unique().collect()
}

proof fn lemma_buffer_index(buffers: Seq<Buffer>, id: u64)
    ensures
        -1 <= buffer_index(buffers, id) < buffers.len(),
        buffer_index(buffers, id) >= 0 ==> buffers[buffer_index(buffers, id)].id == id,
        buffer_index(buffers, id) == -1 ==> forall|i: int| 0 <= i < buffers.len() ==> #[trigger] buffers[i].id != id,
    decreases buffers.len(),
{
    if buffers.len() > 0 && buffers.last().id != id {
        lemma_buffer_index(buffers.drop_last(), id);
        assert forall|i: int| 0 <= i < buffers.len() - 1 implies #[trigger] buffers[i] == buffers.drop_last()[i] by {}
    }
}

proof fn lemma_index_of_unique(e: EditorView, id: u64, i: int)
    requires
        e.wf(),
        0 <= i < e.buffers.len(),
        e.buffers[i].id == id,
    ensures
        e.index_of(id) == i,
{
    lemma_buffer_index(e.buffers, id);
    let j = e.index_of(id);
    if j != i {
        if j < i {
            assert(e.buffers[j].id != e.buffers[i].id);
        } else {
            assert(e.buffers[i].id != e.buffers[j].id);
        }
    }
}

/// The value of a chain of outline items for a buffer.
pub open spec fn chain_view(r: Option<(u64, Vec<OutlineItem>)>) -> Option<(u64, Seq<OutlineItemView>)> {
    match r {
        Some((id, items)) => Some((id, items_view(items@))),
        None => None,
    }
}

/// Whether `id` is among `ids`.
fn contains_id(ids: &Vec<u64>, id: u64) -> (r: bool)
    ensures
        r == ids@.contains(id),
{
    let mut k: usize = 0;
    while k < ids.len()
        invariant
            k <= ids@.len(),
            forall|j: int| 0 <= j < k ==> ids@[j] != id,
        decreases ids@.len() - k,
    {
        if ids[k] == id {
            assert(ids@[k as int] == id);
            return true;
        }
        k = k + 1;
    }
    false
}

/// The value of a fetch wave.
pub open spec fn wave_view(r: Option<FetchWave>) -> Option<(u64, Seq<u64>)> {
    match r {
        Some(w) => Some((w.wave, w.buffers@)),
        None => None,
    }
}

impl Editor {
    /// An editor with no open buffer; `full_mode` tells a full editor from a
    /// single-line one, `has_project` whether a project with language servers
    /// stands behind it.
    pub fn new(full_mode: bool, has_project: bool) -> (r: Editor)
        ensures
            r@.wf(),
            r@.buffers.len() == 0,
            r@.next_wave == 1,
            r@.full_mode == full_mode,
            r@.has_project == has_project,
    {
        let r = Editor {
            buffers: Vec::new(),
            lsp_document_symbols: Vec::new(),
            latest_wave: Vec::new(),
            next_wave: 1,
            full_mode,
            has_project,
        };
        assert(r@.symbols =~= Seq::empty());
        r
    }

    fn find_buffer(&self, id: u64) -> (r: Option<usize>)
        requires
            self@.wf(),
        ensures
            match r {
                Some(i) => i as int == self@.index_of(id) && i < self@.buffers.len(),
                None => self@.index_of(id) == -1,
            },
    {
        let ghost bufs = self.buffers@;
        let mut j: usize = self.buffers.len();
        assert(bufs.take(j as int) =~= bufs);
        loop
            invariant
                bufs == self.buffers@,
                j <= bufs.len(),
                buffer_index(bufs, id) == buffer_index(bufs.take(j as int), id),
            decreases j,
        {
            if j == 0 {
                return None;
            }
            assert(bufs.take(j as int).drop_last() =~= bufs.take(j - 1));
            if self.buffers[j - 1].id == id {
                return Some(j - 1);
            }
            j = j - 1;
        }
    }

    /// Opens `buffer`; refused where a buffer of that id is open already.
    pub fn open_buffer(&mut self, buffer: Buffer) -> (r: bool)
        requires
            old(self)@.wf(),
            buffer.snapshot.wf(),
        ensures
            final(self)@.wf(),
            r == (old(self)@.index_of(buffer.id) == -1),
            r ==> final(self)@ == (EditorView {
                buffers: old(self)@.buffers.push(buffer),
                symbols: old(self)@.symbols.push(None),
                latest_wave: old(self)@.latest_wave.push(0),
                ..old(self)@
            }),
            !r ==> final(self)@ == old(self)@,
    {
        let ghost before = self@;
        proof {
            lemma_buffer_index(before.buffers, buffer.id);
        }
        match self.find_buffer(buffer.id) {
            Some(_) => false,
            None => {
                self.buffers.push(buffer);
                self.lsp_document_symbols.push(None);
                self.latest_wave.push(0);
                assert(self@.symbols =~= before.symbols.push(None));
                assert forall|i: int, j: int| 0 <= i < j < self@.buffers.len() implies #[trigger] self@.buffers[i].id
                    != #[trigger] self@.buffers[j].id by {
                    if j == before.buffers.len() {
                        assert(self@.buffers[i] == before.buffers[i]);
                    } else {
                        assert(self@.buffers[i] == before.buffers[i] && self@.buffers[j] == before.buffers[j]);
                    }
                }
                assert forall|i: int| 0 <= i < self@.buffers.len() implies (#[trigger] self@.buffers[i]).snapshot.wf() by {
                    if i < before.buffers.len() {
                        assert(self@.buffers[i] == before.buffers[i]);
                    }
                }
                assert forall|i: int| 0 <= i < self@.buffers.len() implies #[trigger] self@.latest_wave[i]
                    < self@.next_wave by {
                    if i < before.buffers.len() {
                        assert(self@.latest_wave[i] == before.latest_wave[i]);
                    }
                }
                assert(self@ =~= EditorView {
                    buffers: before.buffers.push(buffer),
                    symbols: before.symbols.push(None),
                    latest_wave: before.latest_wave.push(0),
                    ..before
                });
                true
            },
        }
    }

    /// Closes buffer `id`, dropping its cached symbols; a fetch for it that
    /// completes later finds it gone and is discarded.
    pub fn close_buffer(&mut self, id: u64) -> (r: bool)
        requires
            old(self)@.wf(),
        ensures
            final(self)@.wf(),
            r == (old(self)@.index_of(id) >= 0),
            r ==> ({
                let i = old(self)@.index_of(id);
                final(self)@ == EditorView {
                    buffers: old(self)@.buffers.remove(i),
                    symbols: old(self)@.symbols.remove(i),
                    latest_wave: old(self)@.latest_wave.remove(i),
                    ..old(self)@
                }
            }),
            !r ==> final(self)@ == old(self)@,
    {
        let ghost before = self@;
        match self.find_buffer(id) {
            None => false,
            Some(i) => {
                let _ = self.buffers.remove(i);
                let _ = self.lsp_document_symbols.remove(i);
                let _ = self.latest_wave.remove(i);
                let ghost after = EditorView {
                    buffers: before.buffers.remove(i as int),
                    symbols: before.symbols.remove(i as int),
                    latest_wave: before.latest_wave.remove(i as int),
                    ..before
                };
                assert(self@ =~= after);
                assert forall|a: int, b: int| 0 <= a < b < after.buffers.len() implies #[trigger] after.buffers[a].id
                    != #[trigger] after.buffers[b].id by {
                    let a0 = if a < i { a } else { a + 1 };
                    let b0 = if b < i { b } else { b + 1 };
                    assert(after.buffers[a] == before.buffers[a0]);
                    assert(after.buffers[b] == before.buffers[b0]);
                }
                assert forall|a: int| 0 <= a < after.buffers.len() implies (#[trigger] after.buffers[a]).snapshot.wf() by {
                    let a0 = if a < i { a } else { a + 1 };
                    assert(after.buffers[a] == before.buffers[a0]);
                }
                assert forall|a: int| 0 <= a < after.buffers.len() implies #[trigger] after.latest_wave[a]
                    < after.next_wave by {
                    let a0 = if a < i { a } else { a + 1 };
                    assert(after.latest_wave[a] == before.latest_wave[a0]);
                }
                true
            },
        }
    }

    /// Replaces the snapshot and syntax outline of buffer `id` after `edit`.
    /// Its cached server symbols stay until a fetch replaces them, with their
    /// ranges carried across the edit into the new snapshot.
    pub fn edit_buffer(
        &mut self,
        id: u64,
        edit: BufferEdit,
        snapshot: Snapshot,
        syntax_outline: Vec<OutlineItem>,
    ) -> (r: bool)
        requires
            old(self)@.wf(),
            snapshot.wf(),
            edit.start <= edit.old_end,
            edit.start + edit.new_len <= snapshot.text@.len(),
        ensures
            final(self)@.wf(),
            r == (old(self)@.index_of(id) >= 0),
            r ==> final(self)@ == (EditorView {
                buffers: old(self)@.buffers.update(
                    old(self)@.index_of(id),
                    Buffer { id, snapshot, syntax_outline },
                ),
                symbols: old(self)@.symbols.update(
                    old(self)@.index_of(id),
                    shifted_entry(old(self)@.symbols[old(self)@.index_of(id)], edit, snapshot.text@.len() as int),
                ),
                ..old(self)@
            }),
            !r ==> final(self)@ == old(self)@,
    {
        let ghost before = self@;
        match self.find_buffer(id) {
            None => false,
            Some(i) => {
                proof {
                    lemma_buffer_index(before.buffers, id);
                }
                let limit = snapshot.text.len();
                let shifted = match &self.lsp_document_symbols[i] {
                    Some(items) => {
                        assert(before.symbols[i as int] == opt_items_view(self.lsp_document_symbols@[i as int]));
                        Some(shift_items(items, edit, limit))
                    },
                    None => None,
                };
                self.lsp_document_symbols[i] = shifted;
                self.buffers[i] = Buffer { id, snapshot, syntax_outline };
                let ghost after = self@;
                assert(after.symbols =~= before.symbols.update(
                    i as int,
                    shifted_entry(before.symbols[i as int], edit, limit as int),
                ));
                assert(after =~= EditorView {
                    buffers: before.buffers.update(i as int, Buffer { id, snapshot, syntax_outline }),
                    symbols: before.symbols.update(i as int, shifted_entry(before.symbols[i as int], edit, limit as int)),
                    ..before
                });
                assert forall|a: int, b: int| 0 <= a < b < after.buffers.len() implies #[trigger] after.buffers[a].id
                    != #[trigger] after.buffers[b].id by {
                    assert(after.buffers[a].id == before.buffers[a].id);
                    assert(after.buffers[b].id == before.buffers[b].id);
                }
                assert forall|a: int| 0 <= a < after.buffers.len() implies (#[trigger] after.buffers[a]).snapshot.wf() by {
                    if a != i {
                        assert(after.buffers[a] == before.buffers[a]);
                    }
                }
                true
            },
        }
    }

    /// Whether the document-symbols setting takes effect for buffer `id`:
    /// `enabled` is the setting as read for the buffer at this call; it
    /// counts where the buffer is open.
    pub fn lsp_symbols_enabled(&self, id: u64, enabled: bool) -> (r: bool)
        requires
            self@.wf(),
        ensures
            r == (self@.index_of(id) >= 0 && enabled),
    {
        match self.find_buffer(id) {
            None => false,
            Some(_) => enabled,
        }
    }

    /// The source selected for buffer `id`, given its document-symbols
    /// setting `enabled` as read at this call.
    pub fn selected_source(&self, id: u64, enabled: bool) -> (r: OutlineSource)
        requires
            self@.wf(),
        ensures
            r == self@.selected_source(id, enabled),
            r == OutlineSource::ServerProvided <==> (self@.has_project && self@.index_of(id) >= 0 && enabled),
    {
        if self.has_project && self.lsp_symbols_enabled(id, enabled) {
            OutlineSource::ServerProvided
        } else {
            OutlineSource::SyntaxDerived
        }
    }

    /// Whether buffer `id` takes its outline from the server's symbols, given
    /// its document-symbols setting `enabled` as read at this call.
    pub fn uses_lsp_document_symbols(&self, id: u64, enabled: bool) -> (r: bool)
        requires
            self@.wf(),
        ensures
            r == (self@.has_project && self@.index_of(id) >= 0 && enabled),
    {
        match self.selected_source(id, enabled) {
            OutlineSource::ServerProvided => true,
            OutlineSource::SyntaxDerived => false,
        }
    }

    /// Decides a refresh of the server's symbols, for buffer `for_buffer` only
    /// or for every open buffer; `enabled` lists the buffers whose
    /// document-symbols setting is on, as read at this call. Where this is a
    /// full editor in a project and some such buffer is open, a new wave is
    /// issued:
    /// it names those buffers once each, in order, and becomes the latest wave
    /// of each, so that results of any earlier wave for them are discarded.
    /// The caller waits out the debounce interval, fetches the symbols of each
    /// buffer, and hands each response to `complete_document_symbols_fetch`.
    pub fn refresh_document_symbols(&mut self, for_buffer: Option<u64>, enabled: &Vec<u64>) -> (r: Option<
        FetchWave,
    >)
        requires
            old(self)@.wf(),
        ensures
            final(self)@.wf(),
            (final(self)@, wave_view(r)) == old(self)@.refreshed(for_buffer, enabled@),
    {
        let ghost before = self@;
        if !self.full_mode || !self.has_project {
            return None;
        }
        let n = self.buffers.len();
        let mut ids: Vec<u64> = Vec::new();
        let mut k: usize = 0;
        while k < n
            invariant
                before == self@,
                before.wf(),
                n == before.buffers.len(),
                k <= n,
                ids@ == before.targeted_ids(for_buffer, enabled@, k as int),
            decreases n - k,
        {
            let id = self.buffers[k].id;
            let wanted = match for_buffer {
                Some(b) => b == id,
                None => true,
            };
            if wanted && contains_id(enabled, id) {
                ids.push(id);
            }
            k = k + 1;
        }
        let ids = unique_ids(ids);
        if ids.len() == 0 || self.next_wave == u64::MAX {
            return None;
        }
        let wave = self.next_wave;
        let mut i: usize = 0;
        while i < n
            invariant
                before.wf(),
                n == before.buffers.len(),
                i <= n,
                self@.buffers == before.buffers,
                self@.symbols == before.symbols,
                self.next_wave == wave,
                self@.next_wave == before.next_wave,
                self@.full_mode == before.full_mode,
                self@.has_project == before.has_project,
                wave == before.next_wave,
                self@.latest_wave.len() == n,
                forall|j: int|
                    0 <= j < i ==> #[trigger] self@.latest_wave[j] == if before.targeted(j, for_buffer, enabled@) {
                        wave
                    } else {
                        before.latest_wave[j]
                    },
                forall|j: int| i <= j < n ==> #[trigger] self@.latest_wave[j] == before.latest_wave[j],
            decreases n - i,
        {
            let wanted = match for_buffer {
                Some(b) => b == self.buffers[i].id,
                None => true,
            };
            if wanted && contains_id(enabled, self.buffers[i].id) {
                self.latest_wave[i] = wave;
            }
            i = i + 1;
        }
        self.next_wave = wave + 1;
        let ghost expected = before.refreshed(for_buffer, enabled@).0;
        assert(self@.latest_wave =~= expected.latest_wave);
        assert(self@ =~= expected);
        Some(FetchWave { wave, buffers: ids })
    }

    /// Takes the server's response for buffer `id` from wave `wave`. It is
    /// normalized, highlighted against the buffer's snapshot and written to
    /// the cache, replacing the entry whole, only where the buffer is still
    /// open and `wave` is its latest wave; else it is discarded. Returns
    /// whether it was written.
    pub fn complete_document_symbols_fetch(&mut self, wave: u64, id: u64, response: &DocumentSymbolResponse) -> (r:
        bool)
        requires
            old(self)@.wf(),
        ensures
            final(self)@.wf(),
            final(self)@ == old(self)@.completed(wave, id, *response),
            r == (old(self)@.index_of(id) >= 0 && wave > 0 && old(self)@.latest_wave[old(self)@.index_of(id)]
                == wave),
    {
        let ghost before = self@;
        match self.find_buffer(id) {
            None => false,
            Some(i) => {
                if wave == 0 || self.latest_wave[i] != wave {
                    return false;
                }
                let snapshot = &self.buffers[i].snapshot;
                assert(before.buffers[i as int].snapshot.wf());
                let items = highlighted_response(response, snapshot);
                self.lsp_document_symbols[i] = Some(items);
                assert(self@ =~= before.completed(wave, id, *response));
                true
            },
        }
    }

    /// Whether `wave` is still the latest wave of buffer `id`, so that a fetch
    /// for it is worth making; false where the buffer is closed.
    pub fn is_latest_wave(&self, id: u64, wave: u64) -> (r: bool)
        requires
            self@.wf(),
        ensures
            r == (self@.index_of(id) >= 0 && wave > 0 && self@.latest_wave[self@.index_of(id)] == wave),
    {
        match self.find_buffer(id) {
            None => false,
            Some(i) => wave > 0 && self.latest_wave[i] == wave,
        }
    }

    /// The chain of cached server symbols that enclose `cursor` in buffer
    /// `id`, outermost first. Never triggers a fetch.
    pub fn lsp_symbols_at_cursor(&self, id: u64, cursor: usize) -> (r: Option<(u64, Vec<OutlineItem>)>)
        requires
            self@.wf(),
        ensures
            chain_view(r) == self@.lsp_at_cursor(id, cursor as int),
    {
        match self.find_buffer(id) {
            None => None,
            Some(i) => match &self.lsp_document_symbols[i] {
                None => None,
                Some(items) => {
                    assert(self@.symbols[i as int] == opt_items_view(self.lsp_document_symbols@[i as int]));
                    if items.len() == 0 {
                        None
                    } else {
                        Some((id, ancestor_chain(items, cursor)))
                    }
                },
            },
        }
    }

    /// The chain of symbols that enclose `cursor` in buffer `id`, outermost
    /// first, from the source selected for the buffer under its
    /// document-symbols setting `enabled`, as read at this call. The local
    /// syntax outline needs no fetch.
    pub fn outline_symbols_at_cursor(&self, id: u64, cursor: usize, enabled: bool) -> (r: Option<
        (u64, Vec<OutlineItem>),
    >)
        requires
            self@.wf(),
        ensures
            chain_view(r) == self@.outline_at_cursor(id, cursor as int, enabled),
    {
        match self.find_buffer(id) {
            None => None,
            Some(i) => {
                if self.uses_lsp_document_symbols(id, enabled) {
                    self.lsp_symbols_at_cursor(id, cursor)
                } else {
                    Some((id, ancestor_chain(&self.buffers[i].syntax_outline, cursor)))
                }
            },
        }
    }

    /// The whole outline of buffer `id` for outline views and breadcrumbs:
    /// the cached server symbols, or the syntax outline, where the selected
    /// source has them now; `FetchRequired` where the server's symbols are
    /// selected but no fetch has completed for the buffer. A buffer that is
    /// not open has an empty outline. `enabled` is the buffer's
    /// document-symbols setting, as read at this call.
    pub fn buffer_outline_items(&self, id: u64, enabled: bool) -> (r: OutlineItems)
        requires
            self@.wf(),
        ensures
            match r {
                OutlineItems::Ready(items) => self@.outline_now(id, enabled) == Some(items_view(items@)),
                OutlineItems::FetchRequired => self@.outline_now(id, enabled) is None,
            },
    {
        match self.find_buffer(id) {
            None => {
                let empty: Vec<OutlineItem> = Vec::new();
                assert(items_view(empty@) =~= Seq::empty());
                OutlineItems::Ready(empty)
            },
            Some(i) => {
                if self.uses_lsp_document_symbols(id, enabled) {
                    match &self.lsp_document_symbols[i] {
                        Some(items) => {
                            assert(self@.symbols[i as int] == opt_items_view(self.lsp_document_symbols@[i as int]));
                            OutlineItems::Ready(duplicate_items(items))
                        },
                        None => OutlineItems::FetchRequired,
                    }
                } else {
                    OutlineItems::Ready(duplicate_items(&self.buffers[i].syntax_outline))
                }
            },
        }
    }

    /// The outline items of a response fetched for buffer `id` on behalf of
    /// `buffer_outline_items`: normalized and highlighted against the
    /// buffer's snapshot, without touching the cache. Empty where the buffer
    /// is not open.
    pub fn outline_items_from_fetch(&self, id: u64, response: &DocumentSymbolResponse) -> (r: Vec<OutlineItem>)
        requires
            self@.wf(),
        ensures
            self@.index_of(id) < 0 ==> r@.len() == 0,
            self@.index_of(id) >= 0 ==> ({
                let snapshot = self@.buffers[self@.index_of(id)].snapshot;
                items_view(r@) == highlighted(normalized(*response, snapshot.text@), &snapshot)
            }),
    {
        match self.find_buffer(id) {
            None => Vec::new(),
            Some(i) => {
                let snapshot = &self.buffers[i].snapshot;
                assert(self@.buffers[i as int].snapshot.wf());
                let items = highlighted_response(response, snapshot);
                items
            },
        }
    }
}

proof fn lemma_dedup_first_contains(s: Seq<u64>, x: u64)
    ensures
        dedup_first(s).contains(x) ==> s.contains(x),
    decreases s.len(),
{
    if s.len() > 0 {
        lemma_dedup_first_contains(s.drop_last(), x);
        let rest = dedup_first(s.drop_last());
        if dedup_first(s).contains(x) && !s.drop_last().contains(s.last()) && !rest.contains(x) {
            let k = choose|k: int| 0 <= k < dedup_first(s).len() && dedup_first(s)[k] == x;
            assert(k == rest.len());
            assert(s[s.len() - 1] == x);
        }
        if s.drop_last().contains(x) {
            let k = choose|k: int| 0 <= k < s.drop_last().len() && s.drop_last()[k] == x;
            assert(s[k] == x);
        }
    }
}

proof fn lemma_targeted_ids_contains(e: EditorView, for_buffer: Option<u64>, enabled: Seq<u64>, k: int, id: u64)
    requires
        0 <= k <= e.buffers.len(),
        e.targeted_ids(for_buffer, enabled, k).contains(id),
    ensures
        exists|i: int| 0 <= i < k && e.targeted(i, for_buffer, enabled) && #[trigger] e.buffers[i].id == id,
    decreases k,
{
    let rest = e.targeted_ids(for_buffer, enabled, k - 1);
    if rest.contains(id) {
        lemma_targeted_ids_contains(e, for_buffer, enabled, k - 1, id);
    } else {
        let j = choose|j: int| 0 <= j < e.targeted_ids(for_buffer, enabled, k).len() && e.targeted_ids(for_buffer, enabled, k)[j] == id;
        if !e.targeted(k - 1, for_buffer, enabled) {
            assert(rest[j] == id);
        }
        assert(j == rest.len());
        assert(e.buffers[k - 1].id == id);
    }
}

/// Of two fetch waves issued one after the other that both include buffer
/// `id`, only the later one's result ever reaches its cache: the earlier
/// one's result is discarded whether it arrives before or after the later
/// one's.
pub proof fn lemma_later_wave_wins(
    e: EditorView,
    first: Option<u64>,
    first_enabled: Seq<u64>,
    second: Option<u64>,
    second_enabled: Seq<u64>,
    id: u64,
    early: DocumentSymbolResponse,
    late: DocumentSymbolResponse,
)
    requires
        e.wf(),
        e.refreshed(first, first_enabled).1 is Some,
        e.refreshed(first, first_enabled).1->Some_0.1.contains(id),
        e.refreshed(first, first_enabled).0.refreshed(second, second_enabled).1 is Some,
        e.refreshed(first, first_enabled).0.refreshed(second, second_enabled).1->Some_0.1.contains(id),
    ensures
        ({
            let e1 = e.refreshed(first, first_enabled).0;
            let w1 = e.refreshed(first, first_enabled).1->Some_0.0;
            let e2 = e1.refreshed(second, second_enabled).0;
            let w2 = e1.refreshed(second, second_enabled).1->Some_0.0;
            &&& w1 < w2
            &&& e2.completed(w1, id, early) == e2
            &&& e2.completed(w2, id, late).completed(w1, id, early) == e2.completed(w2, id, late)
        }),
{
    let e1 = e.refreshed(first, first_enabled).0;
    let e2 = e1.refreshed(second, second_enabled).0;
    let ids2 = dedup_first(e1.targeted_ids(second, second_enabled, e1.buffers.len() as int));
    lemma_dedup_first_contains(e1.targeted_ids(second, second_enabled, e1.buffers.len() as int), id);
    lemma_targeted_ids_contains(e1, second, second_enabled, e1.buffers.len() as int, id);
    let i = choose|i: int| 0 <= i < e1.buffers.len() && e1.targeted(i, second, second_enabled) && #[trigger] e1.buffers[i].id == id;
    lemma_index_of_unique(e, id, i);
    assert(e2.index_of(id) == i);
    assert(e2.latest_wave[i] == e1.next_wave);
    let e3 = e2.completed(e1.next_wave, id, late);
    assert(e3.index_of(id) == i);
    assert(e3.latest_wave == e2.latest_wave);
}

/// The selector follows the setting as read at each call, with no fetch in
/// between and the editor left as it is: with document symbols off, the
/// chain at any cursor comes from the local syntax outline; on, in a
/// project, it comes from the cached server symbols.
pub proof fn lemma_switching_source(e: EditorView, id: u64, cursor: int)
    requires
        e.wf(),
        e.index_of(id) >= 0,
    ensures
        e.outline_at_cursor(id, cursor, false) == Some(
            (id, ancestors(items_view(e.buffers[e.index_of(id)].syntax_outline@), cursor)),
        ),
        e.has_project ==> e.outline_at_cursor(id, cursor, true) == e.lsp_at_cursor(id, cursor),
        e.has_project ==> e.selected_source(id, true) == OutlineSource::ServerProvided,
        e.selected_source(id, false) == OutlineSource::SyntaxDerived,
{
    lemma_buffer_index(e.buffers, id);
}

} // verus!
