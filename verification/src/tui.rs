//! The states of the terminal interface and how commands and keys move
//! between them. Searching, rebuilding the index and drawing are done by
//! the caller, as the actions returned here ask.
use vstd::prelude::*;
use crate::analysis::{push_decimal, push_lit};
use crate::model::{SearchState, SearchStrategy};
use crate::text::{ascii_lower, chars_of, spec_ascii_lower, string_from_chars};
use crate::textfmt::{decimal, trim, trim_chars, trim_start, trim_start_chars};
use crate::ui::InputLine;

verus! {

#[derive(Debug, Clone, Copy, PartialEq, Eq, Structural)]
pub enum TuiView {
    Home,
    Search,
    Help,
    Files,
    Terms,
    Stats,
    Strategy,
}

pub open spec fn view_title_spec(v: TuiView) -> Seq<char> {
    match v {
        TuiView::Home => "首页"@,
        TuiView::Search => "搜索"@,
        TuiView::Help => "帮助"@,
        TuiView::Files => "知识库目录"@,
        TuiView::Terms => "高频词"@,
        TuiView::Stats => "索引统计"@,
        TuiView::Strategy => "检索策略"@,
    }
}

/// The title of a view.
pub fn view_title(v: TuiView) -> (t: &'static str)
    ensures
        t@ == view_title_spec(v),
{
    match v {
        TuiView::Home => "首页",
        TuiView::Search => "搜索",
        TuiView::Help => "帮助",
        TuiView::Files => "知识库目录",
        TuiView::Terms => "高频词",
        TuiView::Stats => "索引统计",
        TuiView::Strategy => "检索策略",
    }
}

/// A command typed on the input line.
#[derive(Debug, Clone, Copy, PartialEq, Eq, Structural)]
pub enum TuiCommand {
    Help,
    Select,
    Files,
    Terms,
    Stats,
    Strategy,
    Home,
    Clear,
    Update,
    Quit,
    Empty,
    Unknown,
}

/// What the caller is to do after a step.
#[derive(Debug, Clone, Copy, PartialEq, Eq, Structural)]
pub enum TuiAction {
    Nothing,
    Quit,
    Refresh,
    Update,
    Open,
}

/// A key as the interface reads it.
#[derive(Debug, Clone, Copy, PartialEq, Eq, Structural)]
pub enum TuiKey {
    Esc,
    Char(char),
    Backspace,
    Delete,
    Enter,
    Left,
    Right,
    Up,
    Down,
    Home,
    End,
    Other,
}

/// A mouse event as the interface reads it: a left click, with the
/// result under the pointer where there is one, or a turn of the wheel,
/// with whether the pointer is over the page's content.
#[derive(Debug, Clone, Copy, PartialEq, Eq, Structural)]
pub enum TuiMouse {
    Click(Option<usize>),
    ScrollDown(bool),
    ScrollUp(bool),
    Other,
}

/// What a key press does.
pub enum KeyStep {
    Quit,
    CursorStart,
    CursorEnd,
    ClearInput,
    Insert(char),
    Back,
    DeleteBack,
    DeleteForward,
    Submit,
    CursorLeft,
    CursorRight,
    Up,
    Down,
    Home,
    End,
    Ignore,
}

/// What `key` does with the Control and Alt modifiers as given, where
/// `input_empty` says whether nothing is typed: `q` on an empty line, Esc
/// and Control-C quit; Control-A, -E and -U move to the start, to the end
/// and clear; other characters are typed; Backspace on an empty line and
/// Alt-Left go back.
pub open spec fn key_step(key: TuiKey, control: bool, alt: bool, input_empty: bool) -> KeyStep {
    match key {
        TuiKey::Esc => KeyStep::Quit,
        TuiKey::Char(c) => if c == 'q' && input_empty {
            KeyStep::Quit
        } else if control && c == 'c' {
            KeyStep::Quit
        } else if control && c == 'a' {
            KeyStep::CursorStart
        } else if control && c == 'e' {
            KeyStep::CursorEnd
        } else if control && c == 'u' {
            KeyStep::ClearInput
        } else {
            KeyStep::Insert(c)
        },
        TuiKey::Backspace => if input_empty {
            KeyStep::Back
        } else {
            KeyStep::DeleteBack
        },
        TuiKey::Delete => KeyStep::DeleteForward,
        TuiKey::Enter => KeyStep::Submit,
        TuiKey::Left => if alt {
            KeyStep::Back
        } else {
            KeyStep::CursorLeft
        },
        TuiKey::Right => KeyStep::CursorRight,
        TuiKey::Up => KeyStep::Up,
        TuiKey::Down => KeyStep::Down,
        TuiKey::Home => KeyStep::Home,
        TuiKey::End => KeyStep::End,
        TuiKey::Other => KeyStep::Ignore,
    }
}

/// The command for the text of the input line, trimmed and lowercased.
pub open spec fn command_of(c: Seq<char>) -> TuiCommand {
    if c == "/help"@ {
        TuiCommand::Help
    } else if c == "/select"@ {
        TuiCommand::Select
    } else if c == "/files"@ {
        TuiCommand::Files
    } else if c == "/terms"@ {
        TuiCommand::Terms
    } else if c == "/stats"@ {
        TuiCommand::Stats
    } else if c == "/strategy"@ {
        TuiCommand::Strategy
    } else if c == "/home"@ {
        TuiCommand::Home
    } else if c == "/clear"@ {
        TuiCommand::Clear
    } else if c == "/update"@ {
        TuiCommand::Update
    } else if c == "/quit"@ || c == "/exit"@ {
        TuiCommand::Quit
    } else if c.len() == 0 {
        TuiCommand::Empty
    } else {
        TuiCommand::Unknown
    }
}

/// Each command of the help text is recognised by its own text and by no
/// other: `/quit` and `/exit` both quit, empty input is empty, and only a
/// text that is none of the commands is unknown.
#[verifier::spinoff_prover]
pub proof fn lemma_command_table(c: Seq<char>)
    ensures
        (command_of(c) == TuiCommand::Help) <==> c == "/help"@,
        (command_of(c) == TuiCommand::Select) <==> c == "/select"@,
        (command_of(c) == TuiCommand::Files) <==> c == "/files"@,
        (command_of(c) == TuiCommand::Terms) <==> c == "/terms"@,
        (command_of(c) == TuiCommand::Stats) <==> c == "/stats"@,
        (command_of(c) == TuiCommand::Strategy) <==> c == "/strategy"@,
        (command_of(c) == TuiCommand::Home) <==> c == "/home"@,
        (command_of(c) == TuiCommand::Clear) <==> c == "/clear"@,
        (command_of(c) == TuiCommand::Update) <==> c == "/update"@,
        (command_of(c) == TuiCommand::Quit) <==> (c == "/quit"@ || c == "/exit"@),
        (command_of(c) == TuiCommand::Empty) <==> c.len() == 0,
        (command_of(c) == TuiCommand::Unknown) <==> (c.len() > 0 && c != "/help"@ && c != "/select"@ && c
            != "/files"@ && c != "/terms"@ && c != "/stats"@ && c != "/strategy"@ && c != "/home"@ && c
            != "/clear"@ && c != "/update"@ && c != "/quit"@ && c != "/exit"@),
{
    reveal_strlit("/help");
    reveal_strlit("/select");
    reveal_strlit("/files");
    reveal_strlit("/terms");
    reveal_strlit("/stats");
    reveal_strlit("/strategy");
    reveal_strlit("/home");
    reveal_strlit("/clear");
    reveal_strlit("/update");
    reveal_strlit("/quit");
    reveal_strlit("/exit");
    assert("/help"@.len() == 5 && "/help"@[1] == 'h');
    assert("/select"@.len() == 7 && "/select"@[1] == 's');
    assert("/files"@.len() == 6 && "/files"@[1] == 'f');
    assert("/terms"@.len() == 6 && "/terms"@[1] == 't');
    assert("/stats"@.len() == 6 && "/stats"@[1] == 's');
    assert("/strategy"@.len() == 9 && "/strategy"@[1] == 's');
    assert("/home"@.len() == 5 && "/home"@[1] == 'h');
    assert("/clear"@.len() == 6 && "/clear"@[1] == 'c');
    assert("/update"@.len() == 7 && "/update"@[1] == 'u');
    assert("/quit"@.len() == 5 && "/quit"@[1] == 'q');
    assert("/exit"@.len() == 5 && "/exit"@[1] == 'e');
    assert("/help"@[2] == 'e' && "/home"@[2] == 'o');
}

/// Every spelling of a command that trims and lowercases to it runs it:
/// `/quit`, ` /QUIT ` and `/Exit` all quit.
pub proof fn lemma_quit_spellings(input: Seq<char>)
    requires
        normalized(input) == "/quit"@ || normalized(input) == "/exit"@,
    ensures
        command_of(normalized(input)) == TuiCommand::Quit,
{
    lemma_command_table(normalized(input));
}

/// `s` trimmed, with ASCII letters lowercased.
pub open spec fn normalized(s: Seq<char>) -> Seq<char> {
    trim(s).map_values(|c: char| spec_ascii_lower(c))
}

fn is_lit(c: &Vec<char>, lit: &str) -> (r: bool)
    ensures
        r == (c@ == lit@),
{
    let l = chars_of(lit);
    crate::text::chars_eq(c.as_slice(), l.as_slice())
}

/// The command typed, and its normalized text.
pub fn parse_command(input: &str) -> (r: (TuiCommand, String))
    ensures
        r.1@ == normalized(input@),
        r.0 == command_of(normalized(input@)),
{
    let cs = chars_of(input);
    let t = trim_chars(cs.as_slice());
    let mut low: Vec<char> = Vec::new();
    let mut i: usize = 0;
    while i < t.len()
        invariant
            i <= t@.len(),
            low@ == t@.take(i as int).map_values(|c: char| spec_ascii_lower(c)),
        decreases t.len() - i,
    {
        low.push(ascii_lower(t[i]));
        i = i + 1;
        assert(low@ =~= t@.take(i as int).map_values(|c: char| spec_ascii_lower(c)));
    }
    assert(t@.take(t@.len() as int) == t@);
    let cmd = if is_lit(&low, "/help") {
        TuiCommand::Help
    } else if is_lit(&low, "/select") {
        TuiCommand::Select
    } else if is_lit(&low, "/files") {
        TuiCommand::Files
    } else if is_lit(&low, "/terms") {
        TuiCommand::Terms
    } else if is_lit(&low, "/stats") {
        TuiCommand::Stats
    } else if is_lit(&low, "/strategy") {
        TuiCommand::Strategy
    } else if is_lit(&low, "/home") {
        TuiCommand::Home
    } else if is_lit(&low, "/clear") {
        TuiCommand::Clear
    } else if is_lit(&low, "/update") {
        TuiCommand::Update
    } else if is_lit(&low, "/quit") || is_lit(&low, "/exit") {
        TuiCommand::Quit
    } else if low.len() == 0 {
        TuiCommand::Empty
    } else {
        TuiCommand::Unknown
    };
    (cmd, string_from_chars(low.as_slice()))
}

/// Whether the text of the input line is a command: its first character
/// after leading whitespace is `/`.
pub open spec fn is_command_text(s: Seq<char>) -> bool {
    trim_start(s).len() > 0 && trim_start(s)[0] == '/'
}

pub fn is_command_input(s: &str) -> (r: bool)
    ensures
        r == is_command_text(s@),
{
    let cs = chars_of(s);
    let t = trim_start_chars(cs.as_slice());
    t.len() > 0 && t[0] == '/'
}

pub open spec fn welcome_status() -> Seq<char> {
    "输入 /help 查看命令，输入 /select 进入搜索。"@
}

pub open spec fn first_page_status() -> Seq<char> {
    "已经在第一个页面，无法继续返回。"@
}

pub open spec fn returned_status(v: TuiView) -> Seq<char> {
    "已返回到"@ + view_title_spec(v) + "。"@
}

pub open spec fn unknown_status(command: Seq<char>) -> Seq<char> {
    "未知命令："@ + command + "。输入 /help 查看可用命令。"@
}

pub open spec fn found_status(n: nat) -> Seq<char> {
    "找到 "@ + decimal(n) + " 条结果。按回车或点击结果可打开文件。"@
}

pub open spec fn no_results_status() -> Seq<char> {
    "没有匹配结果。请修改关键词，或输入 /help 查看命令。"@
}

/// The status shown on entering the view that a command selects.
pub open spec fn command_status(c: TuiCommand) -> Seq<char> {
    match c {
        TuiCommand::Help => "正在展示 TUI 命令说明。"@,
        TuiCommand::Select => "已进入搜索模式，直接输入关键词开始搜索。"@,
        TuiCommand::Files => "正在展示当前索引中的知识库目录。"@,
        TuiCommand::Terms => "正在展示当前索引的高频词。"@,
        TuiCommand::Stats => "正在展示索引统计信息。"@,
        TuiCommand::Strategy => "请选择检索策略：BM25 (default) 或 Hybrid。"@,
        TuiCommand::Home => welcome_status(),
        TuiCommand::Clear => "搜索内容已清空。"@,
        _ => Seq::empty(),
    }
}

/// The selection after moving down from `selected` among `count` results.
pub open spec fn next_selection(selected: int, count: int) -> int {
    if count == 0 {
        selected
    } else if selected < count - 1 {
        selected + 1
    } else {
        count - 1
    }
}

/// Moving down through results goes to the next one and stops at the last:
/// from a result it lands on a result, one further unless already at the
/// end, and moving up from there comes back.
pub proof fn lemma_next_selection(selected: int, count: int)
    requires
        0 <= selected < count,
    ensures
        0 <= next_selection(selected, count) < count,
        selected + 1 < count ==> next_selection(selected, count) == selected + 1,
        selected + 1 == count ==> next_selection(selected, count) == selected,
        selected + 1 < count ==> next_selection(selected, count) - 1 == selected,
{
}

/// The status after rebuilding the index.
pub open spec fn updated_status(documents: nat, terms: nat, root: Seq<char>) -> Seq<char> {
    "索引已更新："@ + decimal(documents) + " 个文档，"@ + decimal(terms) + " 个词项。知识库根目录："@ + root
}

/// The state of the interface, besides the index and the results.
pub struct TuiState {
    pub view: TuiView,
    pub view_history: Vec<TuiView>,
    pub input: InputLine,
    pub last_search_query: String,
    pub selected: usize,
    pub result_count: usize,
    pub state: SearchState,
    pub status: String,
    pub content_scroll: usize,
    pub strategy: SearchStrategy,
}

/// The strategy listed at row `i` of the strategy page.
pub open spec fn strategy_at(i: int) -> Option<SearchStrategy> {
    if i == 0 {
        Some(SearchStrategy::Bm25)
    } else if i == 1 {
        Some(SearchStrategy::Hybrid)
    } else {
        None
    }
}

pub open spec fn strategy_label_spec(s: SearchStrategy) -> Seq<char> {
    match s {
        SearchStrategy::Bm25 => "BM25 (default)"@,
        SearchStrategy::Hybrid => "Hybrid"@,
    }
}

/// The name of a strategy on the strategy page.
pub fn strategy_label(s: SearchStrategy) -> (t: &'static str)
    ensures
        t@ == strategy_label_spec(s),
{
    match s {
        SearchStrategy::Bm25 => "BM25 (default)",
        SearchStrategy::Hybrid => "Hybrid",
    }
}

/// The status after choosing strategy `s`.
pub open spec fn picked_status(s: SearchStrategy) -> Seq<char> {
    "已选择检索策略："@ + strategy_label_spec(s) + "。"@
}

fn lit_string(s: &str) -> (r: String)
    ensures
        r@ == s@,
{
    let cs = chars_of(s);
    string_from_chars(cs.as_slice())
}

/// `f` differs from `o` at most in the selection and the scroll position.
pub open spec fn same_except_position(o: TuiState, f: TuiState) -> bool {
    &&& f.strategy == o.strategy
    &&& f.view == o.view
    &&& f.view_history == o.view_history
    &&& f.input == o.input
    &&& f.last_search_query == o.last_search_query
    &&& f.result_count == o.result_count
    &&& f.state == o.state
    &&& f.status == o.status
}

/// `f` is `o` with the input line edited to `chars` and the cursor at
/// `cursor`; on the search page a line that is no command becomes the query
/// and a search is asked for.
pub open spec fn edited(o: TuiState, f: TuiState, chars: Seq<char>, cursor: int, a: TuiAction) -> bool {
    &&& f.strategy == o.strategy
    &&& f.input.chars() == chars
    &&& f.input.cursor() == cursor
    &&& f.view == o.view
    &&& f.view_history == o.view_history
    &&& f.selected == o.selected
    &&& f.result_count == o.result_count
    &&& f.state == o.state
    &&& f.status == o.status
    &&& f.content_scroll == o.content_scroll
    &&& if o.view == TuiView::Search && !is_command_text(chars) {
        f.last_search_query@ == chars && a == TuiAction::Refresh
    } else {
        f.last_search_query == o.last_search_query && a == TuiAction::Nothing
    }
}

/// `f` is `o` with the cursor of the input line moved to `cursor`.
pub open spec fn cursor_moved(o: TuiState, f: TuiState, cursor: int) -> bool {
    &&& f.strategy == o.strategy
    &&& f.input.chars() == o.input.chars()
    &&& f.input.cursor() == cursor
    &&& f.view == o.view
    &&& f.view_history == o.view_history
    &&& f.last_search_query == o.last_search_query
    &&& f.selected == o.selected
    &&& f.result_count == o.result_count
    &&& f.state == o.state
    &&& f.status == o.status
    &&& f.content_scroll == o.content_scroll
}

/// The outcome of a key press on `o` (see `TuiState::handle_key`).
pub open spec fn key_done(
    o: TuiState,
    f: TuiState,
    key: TuiKey,
    control: bool,
    alt: bool,
    down_scroll: usize,
    end_scroll: Option<usize>,
    a: TuiAction,
) -> bool {
    let line = o.input.chars();
    let cursor = o.input.cursor() as int;
    match key_step(key, control, alt, line.len() == 0) {
        KeyStep::Quit => a == TuiAction::Quit && f == o,
        KeyStep::CursorStart => a == TuiAction::Nothing && cursor_moved(o, f, 0),
        KeyStep::CursorEnd => a == TuiAction::Nothing && cursor_moved(o, f, line.len() as int),
        KeyStep::CursorLeft => a == TuiAction::Nothing && cursor_moved(o, f, if cursor > 0 { cursor - 1 } else { 0 }),
        KeyStep::CursorRight => a == TuiAction::Nothing && cursor_moved(
            o,
            f,
            if cursor < line.len() { cursor + 1 } else { line.len() as int },
        ),
        KeyStep::ClearInput => edited(o, f, Seq::empty(), 0, a),
        KeyStep::Insert(c) => edited(o, f, line.insert(cursor, c), cursor + 1, a),
        KeyStep::DeleteBack => if cursor == 0 {
            edited(o, f, line, 0, a)
        } else {
            edited(o, f, line.remove(cursor - 1), cursor - 1, a)
        },
        KeyStep::DeleteForward => edited(o, f, if cursor < line.len() { line.remove(cursor) } else { line }, cursor, a),
        KeyStep::Back => went_back(o, f, a),
        KeyStep::Submit => if is_command_text(line) {
            command_done(o, f, a)
        } else if o.view == TuiView::Search {
            a == TuiAction::Open && f == o
        } else {
            a == TuiAction::Nothing && f == o
        },
        KeyStep::Up => a == TuiAction::Nothing && same_except_position(o, f) && (if o.view == TuiView::Search {
            f.selected == (if o.selected > 0 { o.selected - 1 } else { 0 }) && f.content_scroll == (if o.selected
                > 0 {
                0
            } else {
                o.content_scroll as int
            })
        } else {
            f.selected == o.selected && f.content_scroll == (if o.content_scroll > 0 {
                o.content_scroll - 1
            } else {
                0
            })
        }),
        KeyStep::Down => a == TuiAction::Nothing && same_except_position(o, f) && (if o.view == TuiView::Search {
            let next = next_selection(o.selected as int, o.result_count as int);
            f.selected == next && f.content_scroll == (if next != o.selected {
                0
            } else {
                o.content_scroll as int
            })
        } else {
            f.selected == o.selected && f.content_scroll == (if o.content_scroll + 1 <= down_scroll {
                o.content_scroll + 1
            } else {
                down_scroll as int
            })
        }),
        KeyStep::Home => a == TuiAction::Nothing && same_except_position(o, f) && f.selected == (if o.view
            == TuiView::Search {
            0
        } else {
            o.selected
        }) && f.content_scroll == 0,
        KeyStep::End => a == TuiAction::Nothing && same_except_position(o, f) && (if o.view == TuiView::Search {
            f.content_scroll == 0 && f.selected == (if o.result_count > 0 {
                o.result_count - 1
            } else {
                o.selected as int
            })
        } else {
            f.selected == o.selected && f.content_scroll == match end_scroll {
                Some(m) => m,
                None => o.content_scroll,
            }
        }),
        KeyStep::Ignore => a == TuiAction::Nothing && f == o,
    }
}

/// `f` is `o` after going to `view` with `status` (see `switch_view`).
pub open spec fn switched(o: TuiState, f: TuiState, view: TuiView, status: String) -> bool {
    &&& f.strategy == o.strategy
    &&& f.view == view
    &&& f.content_scroll == 0
    &&& f.status == status
    &&& f.view_history@ == if o.view != view {
        o.view_history@.push(o.view)
    } else {
        o.view_history@
    }
    &&& f.input == o.input
    &&& f.last_search_query == o.last_search_query
    &&& f.selected == o.selected
    &&& f.result_count == o.result_count
    &&& f.state == o.state
}

/// `f` is `o` after going back (see `go_back`).
pub open spec fn went_back(o: TuiState, f: TuiState, a: TuiAction) -> bool {
    &&& f.strategy == o.strategy
    &&& f.last_search_query == o.last_search_query
    &&& f.selected == o.selected
    &&& f.result_count == o.result_count
    &&& f.state == o.state
    &&& o.view_history@.len() == 0 ==> {
        &&& f.status@ == first_page_status()
        &&& f.view == o.view
        &&& f.view_history@ == o.view_history@
        &&& f.input == o.input
        &&& f.content_scroll == o.content_scroll
        &&& a == TuiAction::Nothing
    }
    &&& o.view_history@.len() > 0 ==> {
        let prev = o.view_history@.last();
        &&& f.view == prev
        &&& f.view_history@ == o.view_history@.drop_last()
        &&& f.status@ == returned_status(prev)
        &&& f.content_scroll == 0
        &&& (prev == TuiView::Search ==> f.input.chars() == o.last_search_query@ && a == TuiAction::Refresh)
        &&& (prev != TuiView::Search ==> f.input.chars().len() == 0 && a == TuiAction::Nothing)
    }
}

/// `f` is `o` after running the command typed on its input line (see
/// `execute_command`).
/// The view that a command goes to, if it goes to one.
pub open spec fn command_view(c: TuiCommand) -> Option<TuiView> {
    match c {
        TuiCommand::Help => Some(TuiView::Help),
        TuiCommand::Select => Some(TuiView::Search),
        TuiCommand::Files => Some(TuiView::Files),
        TuiCommand::Terms => Some(TuiView::Terms),
        TuiCommand::Stats => Some(TuiView::Stats),
        TuiCommand::Strategy => Some(TuiView::Strategy),
        TuiCommand::Home => Some(TuiView::Home),
        _ => None,
    }
}

pub open spec fn command_done(o: TuiState, f: TuiState, a: TuiAction) -> bool {
    let command = normalized(o.input.chars());
    let c = command_of(command);
    &&& f.strategy == o.strategy
    &&& c == TuiCommand::Quit ==> a == TuiAction::Quit
    &&& c == TuiCommand::Update ==> a == TuiAction::Update
    &&& match command_view(c) {
        Some(v) => {
            &&& f.view == v
            &&& f.view_history@ == if o.view != v {
                o.view_history@.push(o.view)
            } else {
                o.view_history@
            }
            &&& f.status@ == command_status(c)
            &&& f.content_scroll == 0
            &&& f.selected == o.selected
            &&& f.result_count == o.result_count
            &&& f.state == o.state
        },
        None => {
            &&& f.view == o.view
            &&& f.view_history == o.view_history
            &&& c != TuiCommand::Clear ==> {
                &&& f.selected == o.selected
                &&& f.result_count == o.result_count
                &&& f.state == o.state
                &&& f.content_scroll == o.content_scroll
            }
        },
    }
    &&& c == TuiCommand::Select ==> f.input.chars() == o.last_search_query@ && a == TuiAction::Refresh
    &&& (command_view(c) is Some && c != TuiCommand::Select) ==> f.input.chars().len() == 0 && a
        == TuiAction::Nothing
    &&& (c == TuiCommand::Quit || c == TuiCommand::Update) ==> f.input.chars().len() == 0
    &&& (c != TuiCommand::Select && c != TuiCommand::Clear) ==> f.last_search_query == o.last_search_query
    &&& c == TuiCommand::Clear ==> {
        &&& f.input.chars().len() == 0
        &&& f.last_search_query@.len() == 0
        &&& f.result_count == 0
        &&& f.selected == 0
        &&& f.state == SearchState::Empty
        &&& f.content_scroll == 0
        &&& f.status@ == command_status(c)
        &&& a == TuiAction::Nothing
    }
    &&& c == TuiCommand::Unknown ==> f.status@ == unknown_status(command) && a == TuiAction::Nothing
    &&& c == TuiCommand::Empty ==> a == TuiAction::Nothing && f.status == o.status
}

impl TuiState {
    /// The interface as it starts: on the home page, with nothing typed.
    pub fn new() -> (s: Self)
        ensures
            s.view == TuiView::Home,
            s.view_history@.len() == 0,
            s.input.chars().len() == 0,
            s.last_search_query@.len() == 0,
            s.selected == 0,
            s.result_count == 0,
            s.state == SearchState::Empty,
            s.status@ == welcome_status(),
            s.content_scroll == 0,
            s.strategy == SearchStrategy::Bm25,
    {
        TuiState {
            view: TuiView::Home,
            view_history: Vec::new(),
            input: InputLine::new(),
            last_search_query: String::new(),
            selected: 0,
            result_count: 0,
            state: SearchState::Empty,
            status: lit_string("输入 /help 查看命令，输入 /select 进入搜索。"),
            content_scroll: 0,
            strategy: SearchStrategy::Bm25,
        }
    }

    /// Shows `view` with `status`, scrolled to the top.
    pub fn set_view(&mut self, view: TuiView, status: String)
        ensures
            final(self).view == view,
            final(self).content_scroll == 0,
            final(self).status == status,
            final(self).view_history == old(self).view_history,
            final(self).input == old(self).input,
            final(self).last_search_query == old(self).last_search_query,
            final(self).selected == old(self).selected,
            final(self).result_count == old(self).result_count,
            final(self).state == old(self).state,
            final(self).strategy == old(self).strategy,
    {
        self.view = view;
        self.content_scroll = 0;
        self.status = status;
    }

    /// Goes to `view`, remembering the view left where it differs.
    pub fn switch_view(&mut self, view: TuiView, status: String)
        ensures
            switched(*old(self), *final(self), view, status),
    {
        if self.view != view {
            let v = self.view;
            self.view_history.push(v);
        }
        self.set_view(view, status);
    }

    /// Returns to the previous view; on the search page the last query is
    /// typed again and a search is asked for.
    pub fn go_back(&mut self) -> (a: TuiAction)
        ensures
            went_back(*old(self), *final(self), a),
    {
        match self.view_history.pop() {
            None => {
                self.status = lit_string("已经在第一个页面，无法继续返回。");
                TuiAction::Nothing
            },
            Some(prev) => {
                let mut msg: Vec<char> = Vec::new();
                push_lit(&mut msg, "已返回到");
                push_lit(&mut msg, view_title(prev));
                push_lit(&mut msg, "。");
                assert(msg@ =~= returned_status(prev));
                self.set_view(prev, string_from_chars(msg.as_slice()));
                if prev == TuiView::Search {
                    let q = self.last_search_query.clone();
                    self.input.set_text(q.as_str());
                    TuiAction::Refresh
                } else {
                    self.input.clear();
                    TuiAction::Nothing
                }
            },
        }
    }

    /// Runs the command typed on the input line, which is cleared.
    pub fn execute_command(&mut self) -> (a: TuiAction)
        ensures
            command_done(*old(self), *final(self), a),
    {
        let (c, command) = parse_command(self.input.text());
        self.input.clear();
        match c {
            TuiCommand::Help => {
                self.switch_view(TuiView::Help, lit_string("正在展示 TUI 命令说明。"));
                TuiAction::Nothing
            },
            TuiCommand::Select => {
                self.switch_view(TuiView::Search, lit_string("已进入搜索模式，直接输入关键词开始搜索。"));
                let q = self.last_search_query.clone();
                self.input.set_text(q.as_str());
                TuiAction::Refresh
            },
            TuiCommand::Files => {
                self.switch_view(TuiView::Files, lit_string("正在展示当前索引中的知识库目录。"));
                TuiAction::Nothing
            },
            TuiCommand::Terms => {
                self.switch_view(TuiView::Terms, lit_string("正在展示当前索引的高频词。"));
                TuiAction::Nothing
            },
            TuiCommand::Stats => {
                self.switch_view(TuiView::Stats, lit_string("正在展示索引统计信息。"));
                TuiAction::Nothing
            },
            TuiCommand::Strategy => {
                self.switch_view(TuiView::Strategy, lit_string("请选择检索策略：BM25 (default) 或 Hybrid。"));
                TuiAction::Nothing
            },
            TuiCommand::Home => {
                self.switch_view(TuiView::Home, lit_string("输入 /help 查看命令，输入 /select 进入搜索。"));
                TuiAction::Nothing
            },
            TuiCommand::Clear => {
                self.input.clear();
                self.last_search_query = String::new();
                self.result_count = 0;
                self.selected = 0;
                self.state = SearchState::Empty;
                self.content_scroll = 0;
                self.status = lit_string("搜索内容已清空。");
                TuiAction::Nothing
            },
            TuiCommand::Update => TuiAction::Update,
            TuiCommand::Quit => TuiAction::Quit,
            TuiCommand::Empty => TuiAction::Nothing,
            TuiCommand::Unknown => {
                let mut msg: Vec<char> = Vec::new();
                push_lit(&mut msg, "未知命令：");
                push_lit(&mut msg, command.as_str());
                push_lit(&mut msg, "。输入 /help 查看可用命令。");
                assert(msg@ =~= unknown_status(command@));
                self.status = string_from_chars(msg.as_slice());
                TuiAction::Nothing
            },
        }
    }

    /// Records that a search for an empty query shows nothing.
    pub fn clear_results(&mut self)
        ensures
            final(self).result_count == 0,
            final(self).selected == 0,
            final(self).content_scroll == 0,
            final(self).state == SearchState::Empty,
            final(self).view == old(self).view,
            final(self).status == old(self).status,
            final(self).strategy == old(self).strategy,
    {
        self.result_count = 0;
        self.selected = 0;
        self.content_scroll = 0;
        self.state = SearchState::Empty;
    }

    /// Records that a search found `count` results: the selection stays
    /// within them and the status says how many there are.
    pub fn apply_results(&mut self, count: usize)
        ensures
            final(self).result_count == count,
            final(self).selected == if count == 0 {
                0
            } else if old(self).selected < count - 1 {
                old(self).selected as int
            } else {
                count - 1
            },
            final(self).content_scroll == 0,
            final(self).state == if count == 0 { SearchState::NoResults } else { SearchState::HasQuery },
            final(self).status@ == if count == 0 { no_results_status() } else { found_status(count as nat) },
            final(self).view == old(self).view,
            final(self).strategy == old(self).strategy,
    {
        let last: usize = if count > 0 { count - 1 } else { 0 };
        self.selected = if self.selected < last { self.selected } else { last };
        self.result_count = count;
        self.content_scroll = 0;
        if count == 0 {
            self.state = SearchState::NoResults;
            self.status = lit_string("没有匹配结果。请修改关键词，或输入 /help 查看命令。");
        } else {
            self.state = SearchState::HasQuery;
            let mut msg: Vec<char> = Vec::new();
            push_lit(&mut msg, "找到 ");
            push_decimal(&mut msg, count as u64);
            push_lit(&mut msg, " 条结果。按回车或点击结果可打开文件。");
            assert(msg@ =~= found_status(count as nat));
            self.status = string_from_chars(msg.as_slice());
        }
    }

    /// Up: the previous result on the search page, else scrolls up a line.
    pub fn move_up(&mut self)
        ensures
            same_except_position(*old(self), *final(self)),
            old(self).view == TuiView::Search ==> final(self).selected == (if old(self).selected > 0 {
                old(self).selected - 1
            } else {
                0
            }) && final(self).content_scroll == (if old(self).selected > 0 {
                0
            } else {
                old(self).content_scroll as int
            }),
            old(self).view != TuiView::Search ==> final(self).selected == old(self).selected
                && final(self).content_scroll == (if old(self).content_scroll > 0 {
                old(self).content_scroll - 1
            } else {
                0
            }),
    {
        if self.view == TuiView::Search {
            if self.selected > 0 {
                self.selected = self.selected - 1;
                self.content_scroll = 0;
            }
        } else {
            self.content_scroll = if self.content_scroll > 0 { self.content_scroll - 1 } else { 0 };
        }
    }

    /// Down: the next result on the search page, else scrolls down a line,
    /// as far as `max_scroll`.
    pub fn move_down(&mut self, max_scroll: usize)
        ensures
            same_except_position(*old(self), *final(self)),
            old(self).view == TuiView::Search ==> {
                let next = next_selection(old(self).selected as int, old(self).result_count as int);
                &&& final(self).selected == next
                &&& final(self).content_scroll == if next != old(self).selected {
                    0
                } else {
                    old(self).content_scroll as int
                }
            },
            old(self).view != TuiView::Search ==> final(self).selected == old(self).selected
                && final(self).content_scroll == (if old(self).content_scroll + 1 <= max_scroll {
                old(self).content_scroll + 1
            } else {
                max_scroll as int
            }),
    {
        if self.view == TuiView::Search {
            if self.result_count > 0 {
                let last = self.result_count - 1;
                let next = if self.selected < last { self.selected + 1 } else { last };
                if next != self.selected {
                    self.selected = next;
                    self.content_scroll = 0;
                }
            }
        } else {
            self.scroll_content(1, max_scroll);
        }
    }

    /// Scrolls down by `amount` lines, as far as `max_scroll`.
    pub fn scroll_content(&mut self, amount: usize, max_scroll: usize)
        ensures
            same_except_position(*old(self), *final(self)),
            final(self).content_scroll == (if old(self).content_scroll + amount <= max_scroll {
                old(self).content_scroll + amount
            } else {
                max_scroll as int
            }),
            final(self).selected == old(self).selected,
            final(self).view == old(self).view,
    {
        self.content_scroll = if amount <= max_scroll && self.content_scroll <= max_scroll - amount {
            self.content_scroll + amount
        } else {
            max_scroll
        };
    }

    /// Home: the first result on the search page, and the top of the page.
    pub fn move_home(&mut self)
        ensures
            same_except_position(*old(self), *final(self)),
            final(self).selected == if old(self).view == TuiView::Search { 0 } else { old(self).selected },
            final(self).content_scroll == 0,
    {
        if self.view == TuiView::Search {
            self.selected = 0;
        }
        self.content_scroll = 0;
    }

    /// After an edit of the input line: on the search page a line that is
    /// no command becomes the query, and a search is asked for.
    fn after_input_change(&mut self) -> (a: TuiAction)
        ensures
            final(self).input == old(self).input,
            final(self).view == old(self).view,
            final(self).view_history == old(self).view_history,
            final(self).selected == old(self).selected,
            final(self).result_count == old(self).result_count,
            final(self).state == old(self).state,
            final(self).status == old(self).status,
            final(self).content_scroll == old(self).content_scroll,
            final(self).strategy == old(self).strategy,
            if old(self).view == TuiView::Search && !is_command_text(old(self).input.chars()) {
                final(self).last_search_query@ == old(self).input.chars() && a == TuiAction::Refresh
            } else {
                final(self).last_search_query == old(self).last_search_query && a == TuiAction::Nothing
            },
    {
        if self.view == TuiView::Search && !is_command_input(self.input.text()) {
            self.last_search_query = lit_string(self.input.text());
            TuiAction::Refresh
        } else {
            TuiAction::Nothing
        }
    }

    /// Handles a key press: edits the input line, moves the selection or
    /// the page, goes back or runs a command, and says what the caller is
    /// to do next (search, rebuild, open the selected result, or quit).
    /// `down_scroll` bounds scrolling down a line; `end_scroll` is where End
    /// scrolls a page to, where it is known.
    pub fn handle_key(
        &mut self,
        key: TuiKey,
        control: bool,
        alt: bool,
        down_scroll: usize,
        end_scroll: Option<usize>,
    ) -> (a: TuiAction)
        requires
            key is Char ==> old(self).input.chars().len() < usize::MAX,
        ensures
            key_done(*old(self), *final(self), key, control, alt, down_scroll, end_scroll, a),
    {
        let empty = self.input.is_empty();
        match key {
            TuiKey::Esc => TuiAction::Quit,
            TuiKey::Char(c) => {
                if c == 'q' && empty {
                    TuiAction::Quit
                } else if control && c == 'c' {
                    TuiAction::Quit
                } else if control && c == 'a' {
                    self.input.move_to_start();
                    TuiAction::Nothing
                } else if control && c == 'e' {
                    self.input.move_to_end();
                    TuiAction::Nothing
                } else if control && c == 'u' {
                    self.input.clear();
                    self.after_input_change()
                } else {
                    self.input.insert(c);
                    self.after_input_change()
                }
            },
            TuiKey::Backspace => {
                if empty {
                    self.go_back()
                } else {
                    self.input.backspace();
                    self.after_input_change()
                }
            },
            TuiKey::Delete => {
                self.input.delete();
                self.after_input_change()
            },
            TuiKey::Enter => {
                if is_command_input(self.input.text()) {
                    self.execute_command()
                } else if self.view == TuiView::Search {
                    TuiAction::Open
                } else {
                    TuiAction::Nothing
                }
            },
            TuiKey::Left => {
                if alt {
                    self.go_back()
                } else {
                    self.input.move_left();
                    TuiAction::Nothing
                }
            },
            TuiKey::Right => {
                self.input.move_right();
                TuiAction::Nothing
            },
            TuiKey::Up => {
                self.move_up();
                TuiAction::Nothing
            },
            TuiKey::Down => {
                self.move_down(down_scroll);
                TuiAction::Nothing
            },
            TuiKey::Home => {
                self.move_home();
                TuiAction::Nothing
            },
            TuiKey::End => {
                self.move_end(end_scroll);
                TuiAction::Nothing
            },
            TuiKey::Other => TuiAction::Nothing,
        }
    }

    /// Handles a mouse event: a click on a result of the search page selects
    /// it and asks for it to be opened; a click on a row of the strategy page
    /// chooses that strategy; the wheel over the content scrolls it by three
    /// lines, down as far as `max_scroll`.
    pub fn handle_mouse(&mut self, event: TuiMouse, max_scroll: usize) -> (a: TuiAction)
        ensures
            ({
                let o = *old(self);
                let f = *final(self);
                match event {
                    TuiMouse::Click(Some(i)) => if o.view == TuiView::Search {
                        same_except_position(o, f) && f.selected == i && f.content_scroll == 0 && a == TuiAction::Open
                    } else if o.view == TuiView::Strategy && strategy_at(i as int) is Some {
                        &&& f.strategy == strategy_at(i as int)->0
                        &&& f.status@ == picked_status(f.strategy)
                        &&& f.view == o.view && f.view_history == o.view_history && f.input == o.input
                        &&& f.last_search_query == o.last_search_query && f.selected == o.selected
                        &&& f.result_count == o.result_count && f.state == o.state
                        &&& f.content_scroll == o.content_scroll
                        &&& a == TuiAction::Nothing
                    } else {
                        f == o && a == TuiAction::Nothing
                    },
                    TuiMouse::ScrollDown(true) => a == TuiAction::Nothing && same_except_position(o, f) && f.selected
                        == o.selected && f.content_scroll == (if o.content_scroll + 3 <= max_scroll {
                        o.content_scroll + 3
                    } else {
                        max_scroll as int
                    }),
                    TuiMouse::ScrollUp(true) => a == TuiAction::Nothing && same_except_position(o, f) && f.selected
                        == o.selected && f.content_scroll == (if o.content_scroll >= 3 {
                        o.content_scroll - 3
                    } else {
                        0
                    }),
                    _ => f == o && a == TuiAction::Nothing,
                }
            }),
    {
        match event {
            TuiMouse::Click(Some(i)) => {
                if self.view == TuiView::Search {
                    self.selected = i;
                    self.content_scroll = 0;
                    TuiAction::Open
                } else if self.view == TuiView::Strategy && i < 2 {
                    let chosen = if i == 0 { SearchStrategy::Bm25 } else { SearchStrategy::Hybrid };
                    self.strategy = chosen;
                    let mut msg: Vec<char> = Vec::new();
                    push_lit(&mut msg, "已选择检索策略：");
                    push_lit(&mut msg, strategy_label(chosen));
                    push_lit(&mut msg, "。");
                    assert(msg@ =~= picked_status(chosen));
                    self.status = string_from_chars(msg.as_slice());
                    TuiAction::Nothing
                } else {
                    TuiAction::Nothing
                }
            },
            TuiMouse::ScrollDown(true) => {
                self.scroll_content(3, max_scroll);
                TuiAction::Nothing
            },
            TuiMouse::ScrollUp(true) => {
                self.content_scroll = if self.content_scroll >= 3 { self.content_scroll - 3 } else { 0 };
                TuiAction::Nothing
            },
            _ => TuiAction::Nothing,
        }
    }

    /// Reports a rebuilt index of `documents` documents and `terms` terms
    /// under `root`; on the search page the last query is typed again and a
    /// search is asked for.
    pub fn index_updated(&mut self, documents: usize, terms: usize, root: &str) -> (a: TuiAction)
        ensures
            final(self).status@ == updated_status(documents as nat, terms as nat, root@),
            final(self).view == old(self).view,
            final(self).view_history == old(self).view_history,
            final(self).last_search_query == old(self).last_search_query,
            final(self).selected == old(self).selected,
            final(self).result_count == old(self).result_count,
            final(self).state == old(self).state,
            final(self).content_scroll == old(self).content_scroll,
            final(self).strategy == old(self).strategy,
            old(self).view == TuiView::Search ==> final(self).input.chars() == old(self).last_search_query@ && a
                == TuiAction::Refresh,
            old(self).view != TuiView::Search ==> final(self).input == old(self).input && a == TuiAction::Nothing,
    {
        let mut msg: Vec<char> = Vec::new();
        push_lit(&mut msg, "索引已更新：");
        push_decimal(&mut msg, documents as u64);
        push_lit(&mut msg, " 个文档，");
        push_decimal(&mut msg, terms as u64);
        push_lit(&mut msg, " 个词项。知识库根目录：");
        push_lit(&mut msg, root);
        assert(msg@ =~= updated_status(documents as nat, terms as nat, root@));
        self.status = string_from_chars(msg.as_slice());
        if self.view == TuiView::Search {
            let q = self.last_search_query.clone();
            self.input.set_text(q.as_str());
            TuiAction::Refresh
        } else {
            TuiAction::Nothing
        }
    }

    /// Reports that rebuilding the index failed, for `reason`.
    pub fn update_failed(&mut self, reason: &str)
        ensures
            final(self).status@ == "更新失败："@ + reason@,
            final(self).view == old(self).view,
            final(self).view_history == old(self).view_history,
            final(self).input == old(self).input,
            final(self).last_search_query == old(self).last_search_query,
            final(self).selected == old(self).selected,
            final(self).result_count == old(self).result_count,
            final(self).state == old(self).state,
            final(self).content_scroll == old(self).content_scroll,
            final(self).strategy == old(self).strategy,
    {
        let mut msg: Vec<char> = Vec::new();
        push_lit(&mut msg, "更新失败：");
        push_lit(&mut msg, reason);
        self.status = string_from_chars(msg.as_slice());
    }

    /// End: the last result on the search page, else the bottom of the page.
    pub fn move_end(&mut self, max_scroll: Option<usize>)
        ensures
            same_except_position(*old(self), *final(self)),
            old(self).view == TuiView::Search ==> final(self).content_scroll == 0 && final(self).selected == (
            if old(self).result_count > 0 {
                old(self).result_count - 1
            } else {
                old(self).selected as int
            }),
            old(self).view != TuiView::Search ==> final(self).selected == old(self).selected
                && final(self).content_scroll == match max_scroll {
                Some(m) => m,
                None => old(self).content_scroll,
            },
    {
        if self.view == TuiView::Search {
            if self.result_count > 0 {
                self.selected = self.result_count - 1;
            }
            self.content_scroll = 0;
        } else {
            match max_scroll {
                Some(m) => {
                    self.content_scroll = m;
                },
                None => {},
            }
        }
    }
}

/// Running a command that goes to another view and then going back
/// returns to the view shown before the command, with the history of views
/// as it was (as typing `/select` on the home page and going back returns
/// to the home page).
pub proof fn lemma_back_after_command(o: TuiState, m: TuiState, f: TuiState, a1: TuiAction, a2: TuiAction)
    requires
        command_view(command_of(normalized(o.input.chars()))) matches Some(v) && v != o.view,
        command_done(o, m, a1),
        went_back(m, f, a2),
    ensures
        f.view == o.view,
        f.view_history@ == o.view_history@,
        f.last_search_query == m.last_search_query,
{
    assert(m.view_history@.drop_last() =~= o.view_history@);
}

/// Going to another view and then back returns to the view left, with the
/// history of views as it was.
pub proof fn lemma_back_after_switch(
    o: TuiState,
    m: TuiState,
    f: TuiState,
    to: TuiView,
    status: String,
    a: TuiAction,
)
    requires
        o.view != to,
        switched(o, m, to, status),
        went_back(m, f, a),
    ensures
        f.view == o.view,
        f.view_history@ == o.view_history@,
        f.last_search_query == o.last_search_query,
        o.view == TuiView::Search ==> a == TuiAction::Refresh && f.input.chars() == o.last_search_query@,
        o.view != TuiView::Search ==> a == TuiAction::Nothing,
{
    assert(m.view_history@.drop_last() =~= o.view_history@);
}

} // verus!
