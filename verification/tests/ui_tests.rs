use rust_note_search::model::{SearchMatch, SearchResult, SearchStrategy};
use rust_note_search::tui::{strategy_label, view_title, TuiAction, TuiKey, TuiMouse, TuiState, TuiView};
use rust_note_search::ui::{
    first_match_range, highlighted_snippet_line, inspirational_quote, is_legacy_demo_root,
    centered_padding, right_padding, point_in_inner_area, preferred_update_root, preview_texts, result_index_at, result_page_summary, result_pages,
    wrap_text_by_width, InputLine, Rect,
};
use unicode_width::{UnicodeWidthChar, UnicodeWidthStr};

#[test]
fn input_line_edits_at_cursor() {
    let mut input = InputLine::default();
    input.insert('r');
    input.insert('s');
    input.move_left();
    input.insert('u');

    assert_eq!(input.text(), "rus");
}

#[test]
fn input_line_handles_chinese_width_and_delete() {
    let mut input = InputLine::default();
    input.insert('所');
    input.insert('有');
    input.insert('权');
    input.move_left();
    input.delete();

    assert_eq!(input.text(), "所有");
    assert_eq!(
        input.prefix_width(),
        "所有".chars().map(|ch| ch.width().unwrap_or(0)).sum::<usize>()
    );
}

#[test]
fn input_line_backspace_undoes_insert() {
    let mut input = InputLine::default();
    input.set_text("abc");
    input.move_left();
    input.insert('x');
    assert_eq!(input.text(), "abxc");
    input.backspace();
    assert_eq!(input.text(), "abc");
    assert_eq!(input.char_len(), 3);
    input.move_to_start();
    input.backspace();
    assert_eq!(input.text(), "abc");
    input.delete();
    assert_eq!(input.text(), "bc");
    input.move_to_end();
    input.delete();
    assert_eq!(input.text(), "bc");
    input.clear();
    assert!(input.is_empty());
}

#[test]
fn prefix_width_counts_wide_characters() {
    let mut input = InputLine::default();
    input.set_text("a所b");
    assert_eq!(input.prefix_width(), 4);
    input.move_left();
    assert_eq!(input.prefix_width(), 3);
}

#[test]
fn maps_mouse_click_to_result_index() {
    let area = Rect::new(10, 5, 30, 10);

    assert_eq!(result_index_at(area, 11, 6, 3), Some(0));
    assert_eq!(result_index_at(area, 11, 8, 3), Some(2));
    assert_eq!(result_index_at(area, 11, 9, 3), None);
    assert_eq!(result_index_at(area, 9, 6, 3), None);
}

#[test]
fn clicks_on_the_border_are_outside() {
    let area = Rect::new(0, 0, 5, 5);
    assert!(!point_in_inner_area(area, 0, 1));
    assert!(!point_in_inner_area(area, 4, 1));
    assert!(point_in_inner_area(area, 1, 1));
    assert!(point_in_inner_area(area, 3, 3));
    assert!(!point_in_inner_area(area, 3, 4));
}

#[test]
fn highlighted_snippet_supports_chinese_terms() {
    let line = highlighted_snippet_line("支持所有权模型", &["所有权".to_string()]).expect("spans");

    assert_eq!(line.len(), 3);
    assert_eq!(line[1], "所有权");
}

#[test]
fn snippet_line_without_match_is_one_span() {
    let line = highlighted_snippet_line("plain text", &["zzz".to_string()]).expect("spans");
    assert_eq!(line, vec!["plain text".to_string()]);
}

#[test]
fn first_match_is_the_earliest() {
    let range = first_match_range("Rust and Ownership", &["ownership".to_string(), "RUST".to_string()]);
    assert_eq!(range, Some((0, 4)));
    assert_eq!(first_match_range("abc", &["".to_string()]), None);
}

#[test]
fn preview_text_wraps_to_multiple_rows() {
    let lines = wrap_text_by_width("ownership appears in a long preview line", 12);

    assert!(lines.len() > 1);
    assert!(lines.iter().all(|line| UnicodeWidthStr::width(line.as_str()) <= 12));
}

#[test]
fn wrapping_counts_wide_characters_and_skips_leading_space() {
    assert_eq!(wrap_text_by_width("所有权 模型", 4), vec!["所有".to_string(), "权".to_string(), "模型".to_string()]);
    assert_eq!(wrap_text_by_width("", 4), vec![String::new()]);
    assert_eq!(wrap_text_by_width("ab cd", 0), vec!["a", "b", "c", "d"]);
}

#[test]
fn update_root_migrates_legacy_demo_notes_to_knowledge_base() {
    let exists = std::path::Path::new("knowledge_base").exists();
    let root = preferred_update_root("demo_notes", exists);

    if exists {
        assert_eq!(root, "knowledge_base");
    } else {
        assert_eq!(root, "demo_notes");
    }
}

#[test]
fn update_root_keeps_custom_knowledge_base() {
    let custom = "my_notes";

    assert_eq!(preferred_update_root(custom, true), custom);
}

#[test]
fn legacy_root_is_recognized_by_last_component() {
    assert!(is_legacy_demo_root("/home/me/demo_notes"));
    assert!(is_legacy_demo_root("demo_notes/"));
    assert!(!is_legacy_demo_root("demo_notes/sub"));
    assert_eq!(preferred_update_root("/x/demo_notes", true), "knowledge_base");
}

#[test]
fn quotes_cycle_with_seed() {
    assert_eq!(inspirational_quote(0), "Practice makes perfect.");
    assert_eq!(inspirational_quote(5), "Small steps compound into mastery.");
    assert_eq!(inspirational_quote(7), "Search, learn, connect.");
}

fn match_on_page(page: Option<u32>) -> SearchMatch {
    SearchMatch {
        snippet: String::new(),
        matched_terms: Vec::new(),
        token_position: 0,
        char_start: 0,
        char_end: 0,
        page,
    }
}

fn result_with_pages(pages: &[Option<u32>]) -> SearchResult {
    SearchResult {
        doc_id: 0,
        title: String::new(),
        path: String::new(),
        matched_terms: Vec::new(),
        snippet: String::new(),
        matches: pages.iter().map(|p| match_on_page(*p)).collect(),
        hits: Vec::new(),
    }
}

#[test]
fn page_summary_lists_sorted_distinct_pages() {
    assert_eq!(result_page_summary(&result_with_pages(&[None])), "pages: -");
    assert_eq!(result_page_summary(&result_with_pages(&[Some(3), Some(1), Some(3)])), "pages: p.1,p.3");
    assert_eq!(
        result_page_summary(&result_with_pages(&[Some(9), Some(2), Some(5), Some(7)])),
        "pages: p.2,p.5,p.7+"
    );
}

#[test]
fn result_pages_lists_every_page() {
    assert_eq!(result_pages(&result_with_pages(&[None])), None);
    assert_eq!(result_pages(&result_with_pages(&[])), None);
    assert_eq!(
        result_pages(&result_with_pages(&[Some(9), None, Some(2), Some(5), Some(7), Some(2)])),
        Some("pages: 2,5,7,9".to_string())
    );
    assert_eq!(result_pages(&result_with_pages(&[Some(12)])), Some("pages: 12".to_string()));
}

#[test]
fn slash_select_enters_search_view() {
    let mut state = TuiState::new();
    state.input.set_text("/select");
    let action = state.execute_command();

    assert_eq!(action, TuiAction::Refresh);
    assert_eq!(state.view, TuiView::Search);
}

#[test]
fn back_navigation_returns_to_previous_view() {
    let mut state = TuiState::new();
    state.input.set_text("/select");
    state.execute_command();
    state.go_back();

    assert_eq!(state.view, TuiView::Home);
    assert_eq!(state.status, "已返回到首页。");
    state.go_back();
    assert_eq!(state.status, "已经在第一个页面，无法继续返回。");
}

#[test]
fn unknown_and_quit_commands() {
    let mut state = TuiState::new();
    state.input.set_text("  /Foo ");
    assert_eq!(state.execute_command(), TuiAction::Nothing);
    assert_eq!(state.status, "未知命令：/foo。输入 /help 查看可用命令。");
    state.input.set_text("/EXIT");
    assert_eq!(state.execute_command(), TuiAction::Quit);
    state.input.set_text("/update");
    assert_eq!(state.execute_command(), TuiAction::Update);
}

#[test]
fn results_keep_selection_in_range() {
    let mut state = TuiState::new();
    state.input.set_text("/select");
    state.execute_command();
    state.apply_results(3);
    state.move_down(0);
    state.move_down(0);
    state.move_down(0);
    assert_eq!(state.selected, 2);
    state.apply_results(1);
    assert_eq!(state.selected, 0);
    assert_eq!(state.status, "找到 1 条结果。按回车或点击结果可打开文件。");
    state.apply_results(0);
    assert_eq!(state.status, "没有匹配结果。请修改关键词，或输入 /help 查看命令。");
}

#[test]
fn keys_type_queries_and_quit() {
    let mut state = TuiState::new();
    assert_eq!(state.handle_key(TuiKey::Char('x'), false, false, 0, None), TuiAction::Nothing);
    assert_eq!(state.input.text(), "x");
    assert_eq!(state.last_search_query, "");
    assert_eq!(state.handle_key(TuiKey::Char('u'), true, false, 0, None), TuiAction::Nothing);
    assert_eq!(state.input.text(), "");
    assert_eq!(state.handle_key(TuiKey::Char('q'), false, false, 0, None), TuiAction::Quit);
    assert_eq!(state.handle_key(TuiKey::Esc, false, false, 0, None), TuiAction::Quit);

    state.input.set_text("/select");
    assert_eq!(state.handle_key(TuiKey::Enter, false, false, 0, None), TuiAction::Refresh);
    assert_eq!(state.view, TuiView::Search);
    assert_eq!(state.handle_key(TuiKey::Char('r'), false, false, 0, None), TuiAction::Refresh);
    assert_eq!(state.last_search_query, "r");
    assert_eq!(state.handle_key(TuiKey::Char('q'), false, false, 0, None), TuiAction::Refresh);
    assert_eq!(state.last_search_query, "rq");
    assert_eq!(state.handle_key(TuiKey::Char('c'), true, false, 0, None), TuiAction::Quit);
    assert_eq!(state.input.text(), "rq");

    state.handle_key(TuiKey::Left, false, false, 0, None);
    state.handle_key(TuiKey::Backspace, false, false, 0, None);
    assert_eq!(state.input.text(), "q");
    assert_eq!(state.last_search_query, "q");
    state.handle_key(TuiKey::Char('a'), true, false, 0, None);
    state.handle_key(TuiKey::Delete, false, false, 0, None);
    assert_eq!(state.input.text(), "");
    assert_eq!(state.last_search_query, "");
    assert_eq!(state.handle_key(TuiKey::Char('/'), false, false, 0, None), TuiAction::Nothing);
    assert_eq!(state.last_search_query, "");
}

#[test]
fn enter_opens_and_backspace_goes_back() {
    let mut state = TuiState::new();
    state.input.set_text("/select");
    state.handle_key(TuiKey::Enter, false, false, 0, None);
    state.handle_key(TuiKey::Char('z'), false, false, 0, None);
    state.apply_results(2);
    assert_eq!(state.handle_key(TuiKey::Down, false, false, 0, None), TuiAction::Nothing);
    assert_eq!(state.selected, 1);
    assert_eq!(state.handle_key(TuiKey::Enter, false, false, 0, None), TuiAction::Open);
    assert_eq!(state.handle_key(TuiKey::Home, false, false, 0, None), TuiAction::Nothing);
    assert_eq!(state.selected, 0);
    state.handle_key(TuiKey::End, false, false, 0, None);
    assert_eq!(state.selected, 1);

    state.handle_key(TuiKey::Backspace, false, false, 0, None);
    assert_eq!(state.handle_key(TuiKey::Backspace, false, false, 0, None), TuiAction::Nothing);
    assert_eq!(state.view, TuiView::Home);
    assert_eq!(state.handle_key(TuiKey::Down, false, false, 5, None), TuiAction::Nothing);
    assert_eq!(state.content_scroll, 1);
    state.handle_key(TuiKey::End, false, false, 5, Some(5));
    assert_eq!(state.content_scroll, 5);
    state.handle_key(TuiKey::Up, false, false, 5, None);
    assert_eq!(state.content_scroll, 4);
    assert_eq!(state.handle_key(TuiKey::Left, false, true, 0, None), TuiAction::Nothing);
    assert_eq!(state.status, "已经在第一个页面，无法继续返回。");
}

#[test]
fn mouse_selects_results_and_scrolls_pages() {
    let mut state = TuiState::new();
    assert_eq!(state.handle_mouse(TuiMouse::Click(Some(1)), 0), TuiAction::Nothing);
    assert_eq!(state.selected, 0);
    assert_eq!(state.handle_mouse(TuiMouse::ScrollDown(true), 10), TuiAction::Nothing);
    assert_eq!(state.content_scroll, 3);
    state.handle_mouse(TuiMouse::ScrollDown(false), 10);
    assert_eq!(state.content_scroll, 3);
    state.handle_mouse(TuiMouse::ScrollDown(true), 4);
    assert_eq!(state.content_scroll, 4);
    state.handle_mouse(TuiMouse::ScrollUp(true), 4);
    assert_eq!(state.content_scroll, 1);
    state.handle_mouse(TuiMouse::ScrollUp(true), 4);
    assert_eq!(state.content_scroll, 0);

    state.input.set_text("/select");
    state.execute_command();
    state.apply_results(3);
    assert_eq!(state.handle_mouse(TuiMouse::Click(Some(2)), 0), TuiAction::Open);
    assert_eq!(state.selected, 2);
    assert_eq!(state.handle_mouse(TuiMouse::Click(None), 0), TuiAction::Nothing);
    assert_eq!(state.selected, 2);
}

#[test]
fn strategy_page_chooses_search_strategy() {
    let mut state = TuiState::new();
    assert_eq!(state.strategy, SearchStrategy::Bm25);
    state.input.set_text("/strategy");
    assert_eq!(state.execute_command(), TuiAction::Nothing);
    assert_eq!(state.view, TuiView::Strategy);
    assert_eq!(view_title(state.view), "检索策略");
    assert_eq!(state.status, "请选择检索策略：BM25 (default) 或 Hybrid。");

    assert_eq!(state.handle_mouse(TuiMouse::Click(Some(1)), 0), TuiAction::Nothing);
    assert_eq!(state.strategy, SearchStrategy::Hybrid);
    assert_eq!(state.status, "已选择检索策略：Hybrid。");
    state.handle_mouse(TuiMouse::Click(Some(2)), 0);
    assert_eq!(state.strategy, SearchStrategy::Hybrid);
    state.handle_mouse(TuiMouse::Click(Some(0)), 0);
    assert_eq!(state.strategy, SearchStrategy::Bm25);
    assert_eq!(state.status, "已选择检索策略：BM25 (default)。");
    assert_eq!(strategy_label(SearchStrategy::Hybrid), "Hybrid");

    state.input.set_text("/select");
    state.execute_command();
    state.handle_key(TuiKey::Backspace, false, false, 0, None);
    assert_eq!(state.view, TuiView::Strategy);
    assert_eq!(state.strategy, SearchStrategy::Bm25);
}

#[test]
fn preview_lists_matches_with_pages() {
    let mut result = result_with_pages(&[Some(3), None]);
    result.matches[0].snippet = "first [rust] hit".to_string();
    result.matches[1].snippet = "second".to_string();
    assert_eq!(preview_texts(&result), vec!["1. p.3  first [rust] hit".to_string(), "2. second".to_string()]);

    let mut bare = result_with_pages(&[]);
    bare.snippet = "only the snippet".to_string();
    assert_eq!(preview_texts(&bare), vec!["only the snippet".to_string()]);
}

#[test]
fn index_update_reports_and_searches_again() {
    let mut state = TuiState::new();
    assert_eq!(state.index_updated(3, 40, "knowledge_base"), TuiAction::Nothing);
    assert_eq!(state.status, "索引已更新：3 个文档，40 个词项。知识库根目录：knowledge_base");

    state.input.set_text("/select");
    state.execute_command();
    state.handle_key(TuiKey::Char('x'), false, false, 0, None);
    state.input.clear();
    assert_eq!(state.index_updated(1, 2, "kb"), TuiAction::Refresh);
    assert_eq!(state.input.text(), "x");

    state.update_failed("知识库根目录不存在：kb");
    assert_eq!(state.status, "更新失败：知识库根目录不存在：kb");
    assert_eq!(state.view, TuiView::Search);
}

#[test]
fn padding_uses_display_width() {
    assert_eq!(centered_padding("ab", 6), 2);
    assert_eq!(centered_padding("所有", 7), 1);
    assert_eq!(right_padding("所有", 6), 2);
    assert_eq!(right_padding("a wide title", 4), 0);
    assert_eq!(centered_padding("", 5), 2);
}
