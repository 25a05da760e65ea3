use document_symbols::editor::{Buffer, Editor, FetchWave, OutlineItems, OutlineSource};
use document_symbols::highlight::{Chunk, Highlight, Snapshot};
use document_symbols::outline::{ancestor_chain, BufferEdit, ByteRange, OutlineItem};
use document_symbols::position::{LspRange, Point};
use document_symbols::symbols::{
    outline_items_from_response, DocumentSymbol, DocumentSymbolResponse, SymbolInformation,
};

const BUFFER: u64 = 7;

/// An editor with the document-symbols setting of each buffer kept beside
/// it, as a settings store would; each call reads the setting afresh.
struct Session {
    editor: Editor,
    enabled: Vec<u64>,
}

impl Session {
    fn new(full_mode: bool, has_project: bool) -> Session {
        Session { editor: Editor::new(full_mode, has_project), enabled: Vec::new() }
    }

    fn setting(&self, id: u64) -> bool {
        self.enabled.contains(&id)
    }

    fn open_buffer(&mut self, buffer: Buffer, enabled: bool) -> bool {
        let id = buffer.id;
        let opened = self.editor.open_buffer(buffer);
        if opened {
            self.set_document_symbols_enabled(id, enabled);
        }
        opened
    }

    fn set_document_symbols_enabled(&mut self, id: u64, enabled: bool) -> bool {
        self.enabled.retain(|&b| b != id);
        if enabled {
            self.enabled.push(id);
        }
        true
    }

    fn refresh_document_symbols(&mut self, for_buffer: Option<u64>) -> Option<FetchWave> {
        self.editor.refresh_document_symbols(for_buffer, &self.enabled)
    }

    fn complete_document_symbols_fetch(&mut self, wave: u64, id: u64, response: &DocumentSymbolResponse) -> bool {
        self.editor.complete_document_symbols_fetch(wave, id, response)
    }

    fn outline_symbols_at_cursor(&self, id: u64, cursor: usize) -> Option<(u64, Vec<OutlineItem>)> {
        self.editor.outline_symbols_at_cursor(id, cursor, self.setting(id))
    }

    fn buffer_outline_items(&self, id: u64) -> OutlineItems {
        self.editor.buffer_outline_items(id, self.setting(id))
    }

    fn uses_lsp_document_symbols(&self, id: u64) -> bool {
        self.editor.uses_lsp_document_symbols(id, self.setting(id))
    }

    fn lsp_symbols_enabled(&self, id: u64) -> bool {
        self.editor.lsp_symbols_enabled(id, self.setting(id))
    }

    fn selected_source(&self, id: u64) -> OutlineSource {
        self.editor.selected_source(id, self.setting(id))
    }
}

const FUNCTION_STYLE: u32 = 3;
const KEYWORD_STYLE: u32 = 1;

fn lsp_range(start_line: u32, start_char: u32, end_line: u32, end_char: u32) -> LspRange {
    LspRange {
        start: Point { line: start_line, character: start_char },
        end: Point { line: end_line, character: end_char },
    }
}

fn nested_symbol(
    name: &str,
    range: LspRange,
    selection_range: LspRange,
    children: Vec<DocumentSymbol>,
) -> DocumentSymbol {
    DocumentSymbol { name: name.as_bytes().to_vec(), range, selection_range, children }
}

fn plain_snapshot(text: &str) -> Snapshot {
    Snapshot {
        text: text.as_bytes().to_vec(),
        chunks: vec![Chunk { len: text.len(), style: None }],
    }
}

fn item(depth: usize, start: usize, end: usize, text: &str) -> OutlineItem {
    OutlineItem {
        depth,
        range: ByteRange { start, end },
        source_range_for_text: ByteRange { start, end },
        text: text.as_bytes().to_vec(),
        highlight_ranges: Vec::new(),
        body_range: None,
        annotation_range: None,
    }
}

fn names(items: &[OutlineItem]) -> Vec<String> {
    items.iter().map(|i| String::from_utf8(i.text.clone()).unwrap()).collect()
}

fn main_source() -> &'static str {
    "fn main() {\n    let x = 1;\n}\n"
}

fn main_response(name: &str) -> DocumentSymbolResponse {
    DocumentSymbolResponse::Nested(vec![nested_symbol(
        name,
        lsp_range(0, 0, 2, 1),
        lsp_range(0, 3, 0, 7),
        Vec::new(),
    )])
}

fn syntax_outline_of_main() -> Vec<OutlineItem> {
    vec![item(0, 0, 29, "fn main")]
}

fn editor_with_buffer(text: &str, enabled: bool, syntax_outline: Vec<OutlineItem>) -> Session {
    let mut editor = Session::new(true, true);
    let buffer = Buffer { id: BUFFER, snapshot: plain_snapshot(text), syntax_outline };
    assert!(editor.open_buffer(buffer, enabled));
    editor
}

/// Runs one refresh wave for the buffer and answers it with `response`.
fn refresh_with(editor: &mut Session, response: &DocumentSymbolResponse) -> usize {
    match editor.refresh_document_symbols(None) {
        Some(wave) => {
            for id in &wave.buffers {
                editor.complete_document_symbols_fetch(wave.wave, *id, response);
            }
            wave.buffers.len()
        }
        None => 0,
    }
}

fn chain_names(editor: &Session, cursor: usize) -> Option<Vec<String>> {
    editor.outline_symbols_at_cursor(BUFFER, cursor).map(|(_, items)| names(&items))
}

#[test]
fn test_lsp_document_symbols_fetches_when_enabled() {
    let mut editor = editor_with_buffer(main_source(), true, syntax_outline_of_main());
    assert!(refresh_with(&mut editor, &main_response("main")) > 0);
    let symbols = chain_names(&editor, 5).expect("Should have outline symbols after LSP response");
    assert_eq!(symbols, vec!["main"]);
}

#[test]
fn test_lsp_document_symbols_nested() {
    let text = "struct Foo {\n    bar: u32,\n    baz: String,\n}\n";
    let mut editor = editor_with_buffer(text, true, Vec::new());
    let response = DocumentSymbolResponse::Nested(vec![nested_symbol(
        "Foo",
        lsp_range(0, 0, 3, 1),
        lsp_range(0, 7, 0, 10),
        vec![
            nested_symbol("bar", lsp_range(1, 4, 1, 13), lsp_range(1, 4, 1, 7), Vec::new()),
            nested_symbol("baz", lsp_range(2, 4, 2, 15), lsp_range(2, 4, 2, 7), Vec::new()),
        ],
    )]);
    assert!(refresh_with(&mut editor, &response) > 0);
    // the cursor sits in `ba|r`
    let symbols = chain_names(&editor, 19).expect("Should have outline symbols");
    assert_eq!(symbols, vec!["Foo", "bar"]);
}

#[test]
fn test_lsp_document_symbols_switch_tree_sitter_to_lsp_and_back() {
    let mut editor = editor_with_buffer(main_source(), false, syntax_outline_of_main());
    let response = main_response("lsp_main_symbol");

    let symbols = chain_names(&editor, 5).expect("Should have tree-sitter outline symbols");
    assert_eq!(symbols, vec!["fn main"], "Tree-sitter should produce 'fn main'");

    assert!(editor.set_document_symbols_enabled(BUFFER, true));
    assert!(refresh_with(&mut editor, &response) > 0);
    let symbols = chain_names(&editor, 17).expect("Should have LSP outline symbols after switching to LSP");
    assert_eq!(symbols, vec!["lsp_main_symbol"], "After switching to LSP, should see LSP symbols");

    assert!(editor.set_document_symbols_enabled(BUFFER, false));
    let symbols = chain_names(&editor, 5).expect("Should have tree-sitter symbols after switching back");
    assert_eq!(
        symbols,
        vec!["fn main"],
        "After switching back to tree-sitter, should see tree-sitter symbols again"
    );
}

#[test]
fn test_lsp_document_symbols_caches_results() {
    let mut editor = editor_with_buffer(main_source(), true, syntax_outline_of_main());
    let first_count = refresh_with(&mut editor, &main_response("main"));
    assert!(first_count > 0, "Should have made at least one request");

    // moving the cursor within the same buffer version reads the cache
    assert_eq!(chain_names(&editor, 5), Some(vec!["main".to_string()]));
    assert_eq!(chain_names(&editor, 17), Some(vec!["main".to_string()]));
    let second_count = match editor.buffer_outline_items(BUFFER) {
        OutlineItems::Ready(items) => {
            assert_eq!(names(&items), vec!["main"]);
            first_count
        }
        OutlineItems::FetchRequired => first_count + 1,
    };
    assert_eq!(first_count, second_count, "Moving cursor without editing should use cached symbols");
}

#[test]
fn test_lsp_document_symbols_flat_response() {
    let mut editor = editor_with_buffer(main_source(), true, syntax_outline_of_main());
    let response = DocumentSymbolResponse::Flat(vec![SymbolInformation {
        name: b"main".to_vec(),
        range: lsp_range(0, 0, 2, 1),
        container_name: None,
    }]);
    assert!(refresh_with(&mut editor, &response) > 0);
    let symbols = chain_names(&editor, 5).expect("Should have outline symbols from flat response");
    assert_eq!(symbols, vec!["main"]);
}

#[test]
fn test_breadcrumbs_use_lsp_symbols() {
    let text = "mod MyModule {\n    fn my_function() {\n        let x = 1;\n    }\n}\n";
    let mut editor = editor_with_buffer(text, true, Vec::new());
    let response = DocumentSymbolResponse::Nested(vec![nested_symbol(
        "MyModule",
        lsp_range(0, 0, 4, 1),
        lsp_range(0, 4, 0, 12),
        vec![nested_symbol(
            "my_function",
            lsp_range(1, 4, 3, 5),
            lsp_range(1, 7, 1, 18),
            Vec::new(),
        )],
    )]);
    assert!(refresh_with(&mut editor, &response) > 0);
    // the cursor sits in `my_fu|nction`
    let (_buffer_id, symbols) =
        editor.outline_symbols_at_cursor(BUFFER, 27).expect("Should have outline symbols from LSP");
    assert_eq!(names(&symbols), vec!["MyModule", "my_function"]);
}

#[test]
fn test_lsp_document_symbols_empty_response() {
    let mut editor = editor_with_buffer(main_source(), true, syntax_outline_of_main());
    assert!(refresh_with(&mut editor, &DocumentSymbolResponse::Nested(Vec::new())) > 0);
    assert!(
        editor.outline_symbols_at_cursor(BUFFER, 5).is_none(),
        "Empty LSP response should result in no outline symbols"
    );
}

#[test]
fn test_lsp_document_symbols_disabled_by_default() {
    let mut editor = editor_with_buffer(main_source(), false, syntax_outline_of_main());
    let request_count = refresh_with(&mut editor, &main_response("should_not_appear"));
    let symbols = chain_names(&editor, 5).expect("Should have tree-sitter outline symbols");
    assert_eq!(symbols, vec!["fn main"], "With document_symbols off, should use tree-sitter");
    assert_eq!(
        request_count, 0,
        "Should not have made any LSP document symbol requests when setting is off"
    );
}

#[test]
fn ancestor_filter_drops_later_sibling() {
    let items = vec![item(0, 0, 100, "A"), item(1, 10, 50, "B"), item(1, 60, 90, "C")];
    let chain = ancestor_chain(&items, 30);
    assert_eq!(names(&chain), vec!["A", "B"]);
}

#[test]
fn ancestor_filter_keeps_only_deepening_items() {
    // both siblings contain the cursor: only the first survives
    let items = vec![item(0, 0, 100, "A"), item(1, 10, 50, "B"), item(1, 20, 40, "C"), item(2, 25, 35, "D")];
    assert_eq!(names(&ancestor_chain(&items, 30)), vec!["A", "B", "D"]);
    // ends are inclusive
    assert_eq!(names(&ancestor_chain(&items, 100)), vec!["A"]);
    assert_eq!(names(&ancestor_chain(&items, 101)), Vec::<String>::new());
}

#[test]
fn ancestor_filter_on_empty_cache_is_empty() {
    let chain = ancestor_chain(&Vec::new(), 30);
    assert!(chain.is_empty());
    let editor = editor_with_buffer(main_source(), true, syntax_outline_of_main());
    assert!(editor.editor.lsp_symbols_at_cursor(BUFFER, 5).is_none());
    assert!(editor.editor.lsp_symbols_at_cursor(99, 5).is_none());
}

#[test]
fn later_wave_wins_over_late_earlier_result() {
    let mut editor = editor_with_buffer(main_source(), true, Vec::new());
    let early = editor.refresh_document_symbols(Some(BUFFER)).expect("first wave");
    let late = editor.refresh_document_symbols(Some(BUFFER)).expect("second wave");
    assert!(late.wave > early.wave);
    assert_eq!(late.buffers, vec![BUFFER]);
    assert!(editor.complete_document_symbols_fetch(late.wave, BUFFER, &main_response("late")));
    assert!(!editor.complete_document_symbols_fetch(early.wave, BUFFER, &main_response("early")));
    assert_eq!(chain_names(&editor, 5), Some(vec!["late".to_string()]));
}

#[test]
fn closed_buffer_drops_fetch_result() {
    let mut editor = editor_with_buffer(main_source(), true, Vec::new());
    let wave = editor.refresh_document_symbols(None).expect("wave");
    assert!(editor.editor.close_buffer(BUFFER));
    assert!(!editor.complete_document_symbols_fetch(wave.wave, BUFFER, &main_response("main")));
    assert!(editor.outline_symbols_at_cursor(BUFFER, 5).is_none());
}

#[test]
fn refresh_without_project_or_in_single_line_editor_issues_nothing() {
    let mut editor = Session::new(true, false);
    let buffer = Buffer { id: BUFFER, snapshot: plain_snapshot(main_source()), syntax_outline: Vec::new() };
    assert!(editor.open_buffer(buffer, true));
    assert!(editor.refresh_document_symbols(None).is_none());
    assert_eq!(editor.selected_source(BUFFER), OutlineSource::SyntaxDerived);

    let mut editor = Session::new(false, true);
    let buffer = Buffer { id: BUFFER, snapshot: plain_snapshot(main_source()), syntax_outline: Vec::new() };
    assert!(editor.open_buffer(buffer, true));
    assert!(editor.refresh_document_symbols(None).is_none());
    assert_eq!(editor.selected_source(BUFFER), OutlineSource::ServerProvided);
}

#[test]
fn refresh_names_each_enabled_buffer_once() {
    let mut editor = Session::new(true, true);
    for (id, enabled) in [(1u64, true), (2, false), (3, true)] {
        let buffer = Buffer { id, snapshot: plain_snapshot("x"), syntax_outline: Vec::new() };
        assert!(editor.open_buffer(buffer, enabled));
    }
    let buffer = Buffer { id: 3, snapshot: plain_snapshot("y"), syntax_outline: Vec::new() };
    assert!(!editor.open_buffer(buffer, true));
    let wave = editor.refresh_document_symbols(None).expect("wave");
    assert_eq!(wave.buffers, vec![1, 3]);
    let only = editor.refresh_document_symbols(Some(3)).expect("wave");
    assert_eq!(only.buffers, vec![3]);
    assert!(editor.refresh_document_symbols(Some(2)).is_none());
    // buffer 1 was not part of the later wave: its result still counts
    assert!(editor.complete_document_symbols_fetch(wave.wave, 1, &DocumentSymbolResponse::Nested(Vec::new())));
    assert!(!editor.complete_document_symbols_fetch(wave.wave, 3, &DocumentSymbolResponse::Nested(Vec::new())));
}

#[test]
fn failed_fetch_keeps_stale_entry() {
    let mut editor = editor_with_buffer(main_source(), true, Vec::new());
    assert!(refresh_with(&mut editor, &main_response("main")) > 0);
    // a new wave whose fetch fails never completes
    assert!(editor.refresh_document_symbols(None).is_some());
    let no_change = BufferEdit { start: 0, old_end: 0, new_len: 0 };
    assert!(editor.editor.edit_buffer(BUFFER, no_change, plain_snapshot(main_source()), Vec::new()));
    assert_eq!(chain_names(&editor, 5), Some(vec!["main".to_string()]));
}

#[test]
fn switching_to_local_outline_needs_no_fetch() {
    let mut editor = editor_with_buffer(main_source(), true, syntax_outline_of_main());
    assert!(refresh_with(&mut editor, &main_response("main")) > 0);
    assert!(editor.uses_lsp_document_symbols(BUFFER));
    assert!(editor.set_document_symbols_enabled(BUFFER, false));
    assert!(!editor.uses_lsp_document_symbols(BUFFER));
    assert!(!editor.lsp_symbols_enabled(BUFFER));
    assert_eq!(chain_names(&editor, 5), Some(vec!["fn main".to_string()]));
    assert!(editor.set_document_symbols_enabled(BUFFER, true));
    assert_eq!(chain_names(&editor, 5), Some(vec!["main".to_string()]));
}

#[test]
fn buffer_outline_items_asks_for_fetch_when_cache_is_empty() {
    let editor = editor_with_buffer(main_source(), true, syntax_outline_of_main());
    assert!(matches!(editor.buffer_outline_items(BUFFER), OutlineItems::FetchRequired));
    let items = editor.editor.outline_items_from_fetch(BUFFER, &main_response("main"));
    assert_eq!(names(&items), vec!["main"]);
    match editor.buffer_outline_items(99) {
        OutlineItems::Ready(items) => assert!(items.is_empty()),
        OutlineItems::FetchRequired => panic!("a closed buffer has an empty outline"),
    }
    let mut fetched_empty = editor_with_buffer(main_source(), true, syntax_outline_of_main());
    assert!(refresh_with(&mut fetched_empty, &DocumentSymbolResponse::Nested(Vec::new())) > 0);
    match fetched_empty.buffer_outline_items(BUFFER) {
        OutlineItems::Ready(items) => assert!(items.is_empty()),
        OutlineItems::FetchRequired => panic!("an empty response is a cached result"),
    }
    let local = editor_with_buffer(main_source(), false, syntax_outline_of_main());
    match local.buffer_outline_items(BUFFER) {
        OutlineItems::Ready(items) => assert_eq!(names(&items), vec!["fn main"]),
        OutlineItems::FetchRequired => panic!("the syntax outline is local"),
    }
}

#[test]
fn nested_response_is_flattened_depth_first() {
    let text = "struct Foo {\n    bar: u32,\n    baz: String,\n}\n";
    let response = DocumentSymbolResponse::Nested(vec![nested_symbol(
        "Foo",
        lsp_range(0, 0, 3, 1),
        lsp_range(0, 7, 0, 10),
        vec![
            nested_symbol("bar", lsp_range(1, 4, 1, 13), lsp_range(1, 4, 1, 7), Vec::new()),
            nested_symbol(
                "",
                lsp_range(2, 4, 2, 15),
                lsp_range(2, 4, 2, 7),
                vec![nested_symbol("baz", lsp_range(2, 4, 2, 15), lsp_range(2, 4, 2, 7), Vec::new())],
            ),
        ],
    )]);
    let items = outline_items_from_response(&response, &text.as_bytes().to_vec());
    assert_eq!(names(&items), vec!["Foo", "bar", "baz"]);
    let depths: Vec<usize> = items.iter().map(|i| i.depth).collect();
    assert_eq!(depths, vec![0, 1, 1]);
    assert_eq!(items[0].range, ByteRange { start: 0, end: 45 });
    assert_eq!(items[0].source_range_for_text, ByteRange { start: 7, end: 10 });
    assert_eq!(items[1].range, ByteRange { start: 17, end: 26 });
}

#[test]
fn flat_response_nests_by_container_name() {
    let text = "mod a {\n fn f() {}\n}\nfn g() {}\n";
    let symbol = |name: &str, container: Option<&str>| SymbolInformation {
        name: name.as_bytes().to_vec(),
        range: lsp_range(0, 0, 0, 1),
        container_name: container.map(|c| c.as_bytes().to_vec()),
    };
    let response = DocumentSymbolResponse::Flat(vec![
        symbol("a", None),
        symbol("f", Some("a")),
        symbol("inner", Some("f")),
        symbol("g", Some("a")),
        symbol("h", Some("missing")),
        symbol("", Some("h")),
    ]);
    let items = outline_items_from_response(&response, &text.as_bytes().to_vec());
    assert_eq!(names(&items), vec!["a", "f", "inner", "g", "h"]);
    let depths: Vec<usize> = items.iter().map(|i| i.depth).collect();
    assert_eq!(depths, vec![0, 1, 2, 1, 0]);
}

#[test]
fn end_to_end_main_is_highlighted_and_alone_in_chain() {
    let source = "fn main() { let x = 1; }";
    let snapshot = Snapshot {
        text: source.as_bytes().to_vec(),
        chunks: vec![
            Chunk { len: 2, style: Some(KEYWORD_STYLE) },
            Chunk { len: 1, style: None },
            Chunk { len: 4, style: Some(FUNCTION_STYLE) },
            Chunk { len: 17, style: None },
        ],
    };
    let mut editor = Session::new(true, true);
    assert!(editor.open_buffer(Buffer { id: BUFFER, snapshot, syntax_outline: Vec::new() }, true));
    let response = DocumentSymbolResponse::Nested(vec![nested_symbol(
        "main",
        lsp_range(0, 0, 0, 24),
        lsp_range(0, 3, 0, 7),
        Vec::new(),
    )]);
    assert!(refresh_with(&mut editor, &response) > 0);
    let (id, chain) = editor.outline_symbols_at_cursor(BUFFER, 15).expect("chain");
    assert_eq!(id, BUFFER);
    assert_eq!(chain.len(), 1);
    assert_eq!(chain[0].text, b"main".to_vec());
    assert_eq!(chain[0].highlight_ranges, vec![Highlight { start: 0, end: 4, style: FUNCTION_STYLE }]);
}

#[test]
fn cached_ranges_follow_an_edit() {
    let mut editor = editor_with_buffer(main_source(), true, Vec::new());
    assert!(refresh_with(&mut editor, &main_response("main")) > 0);
    // `// c\n` is inserted at the start of the buffer
    let edited = format!("// c\n{}", main_source());
    let edit = BufferEdit { start: 0, old_end: 0, new_len: 5 };
    assert!(editor.editor.edit_buffer(BUFFER, edit, plain_snapshot(&edited), Vec::new()));
    // a range that starts where the text is inserted keeps its start
    assert_eq!(chain_names(&editor, 30), Some(vec!["main".to_string()]));
    assert_eq!(chain_names(&editor, 34), Some(Vec::<String>::new()));
    match editor.buffer_outline_items(BUFFER) {
        OutlineItems::Ready(items) => {
            assert_eq!(items[0].range, ByteRange { start: 0, end: 33 });
            assert_eq!(items[0].source_range_for_text, ByteRange { start: 8, end: 12 });
        }
        OutlineItems::FetchRequired => panic!("the cache holds the symbols"),
    }
    // deleting `main` moves the name range to the edit's start
    let edit = BufferEdit { start: 8, old_end: 12, new_len: 0 };
    let shorter = format!("// c\nfn () {{\n    let x = 1;\n}}\n");
    assert!(editor.editor.edit_buffer(BUFFER, edit, plain_snapshot(&shorter), Vec::new()));
    match editor.buffer_outline_items(BUFFER) {
        OutlineItems::Ready(items) => {
            assert_eq!(items[0].range, ByteRange { start: 0, end: 29 });
            assert_eq!(items[0].source_range_for_text, ByteRange { start: 8, end: 8 });
        }
        OutlineItems::FetchRequired => panic!("the cache holds the symbols"),
    }
}

#[test]
fn superseded_wave_is_not_latest() {
    let mut editor = editor_with_buffer(main_source(), true, Vec::new());
    let early = editor.refresh_document_symbols(None).expect("wave");
    assert!(editor.editor.is_latest_wave(BUFFER, early.wave));
    let late = editor.refresh_document_symbols(None).expect("wave");
    assert!(!editor.editor.is_latest_wave(BUFFER, early.wave));
    assert!(editor.editor.is_latest_wave(BUFFER, late.wave));
    assert!(!editor.editor.is_latest_wave(99, late.wave));
}

#[test]
fn selector_reads_the_setting_at_each_call() {
    let mut editor = Editor::new(true, true);
    let buffer = Buffer { id: BUFFER, snapshot: plain_snapshot(main_source()), syntax_outline: syntax_outline_of_main() };
    assert!(editor.open_buffer(buffer));
    assert!(editor.uses_lsp_document_symbols(BUFFER, true));
    assert!(!editor.uses_lsp_document_symbols(BUFFER, false));
    assert!(editor.uses_lsp_document_symbols(BUFFER, true));
    assert!(editor.lsp_symbols_enabled(BUFFER, true));
    assert!(!editor.lsp_symbols_enabled(99, true));
    let chain = editor.outline_symbols_at_cursor(BUFFER, 5, false).expect("local chain");
    assert_eq!(names(&chain.1), vec!["fn main"]);
    assert!(editor.outline_symbols_at_cursor(BUFFER, 5, true).is_none());
}
