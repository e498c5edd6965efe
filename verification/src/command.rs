//! The commands that keys are bound to.

use vstd::prelude::*;

use crate::chars::same_text;

verus! {

/// What the user can ask for.
#[derive(Clone, Copy, Debug, PartialEq, Eq, Structural)]
pub enum Command {
    Quit,
    Suspend,
    Abort,
    Save,
    SaveAll,
    SaveNoFormat,
    SaveAs,
    TabNext,
    TabPrev,
    KillBuffer,
    CursorUp,
    CursorDown,
    CursorLeft,
    CursorRight,
    CursorLineStart,
    CursorLineEnd,
    CursorPageUp,
    CursorPageDown,
    CursorFileStart,
    CursorFileEnd,
    CursorWordLeft,
    CursorWordRight,
    InsertNewline,
    InsertTab,
    DeleteBack,
    DeleteForward,
    SetMark,
    KillRegion,
    KillLine,
    Yank,
    Undo,
    Redo,
    JumpBack,
    JumpForward,
    MatchBracket,
    NextIssue,
    PrevIssue,
    ExpandDir,
    CollapseDir,
    CollapseAll,
    OpenSelected,
    OpenSelectedBg,
    ToggleSidePanel,
    ToggleFocus,
    FindFile,
    FindFileTabComplete,
    InBufferSearch,
    OpenFileSearch,
    CloseFileSearch,
    ToggleSearchCase,
    ToggleSearchRegex,
    ToggleSearchReplace,
    ReplaceAll,
    LspGotoDefinition,
    LspRename,
    LspCodeAction,
    LspToggleInlayHints,
    LspFormat,
    Outline,
    ReflowParagraph,
    SortImports,
    KbdMacroStart,
    KbdMacroEnd,
    KbdMacroExecute,
    InsertChar(char),
    Wait(u64),
}

/// What the main loop does after a key.
#[derive(Clone, Copy, Debug, PartialEq, Eq, Structural)]
pub enum DispatchOutcome {
    Continue,
    /// The user asked to leave.
    Quit,
    /// The user asked for the editor to be put in the background.
    Suspend,
}

/// A command belongs into a keyboard macro that is being recorded: all do
/// but those that leave or suspend the editor, that wait, and that start or
/// end the recording.
pub open spec fn recordable(cmd: Command) -> bool {
    !(cmd is Quit || cmd is Suspend || cmd is Wait || cmd is KbdMacroStart || cmd is KbdMacroEnd)
}

/// Whether a command belongs into a macro that is being recorded.
pub fn should_record(cmd: &Command) -> (r: bool)
    ensures
        r == recordable(*cmd),
{
    match cmd {
        Command::Quit
        | Command::Suspend
        | Command::Wait(_)
        | Command::KbdMacroStart
        | Command::KbdMacroEnd => false,
        _ => true,
    }
}

/// Whether a command may join the group of edits that is open: typing does.
pub fn is_coalescable_insert(cmd: &Command) -> (r: bool)
    ensures
        r == (*cmd is InsertChar),
{
    match cmd {
        Command::InsertChar(_) => true,
        _ => false,
    }
}

/// A command leaves the cursor where an edit or a jump put it, so that the
/// column it aims for has to be found anew.
pub open spec fn edit_like(cmd: Command) -> bool {
    cmd is InsertChar || cmd is InsertNewline || cmd is DeleteBack || cmd is DeleteForward
        || cmd is KillRegion || cmd is KillLine || cmd is Undo || cmd is Redo || cmd is JumpBack
        || cmd is JumpForward
}

/// Whether a command moves the cursor through an edit.
pub fn is_edit_like(cmd: &Command) -> (r: bool)
    ensures
        r == edit_like(*cmd),
{
    match cmd {
        Command::InsertChar(_)
        | Command::InsertNewline
        | Command::DeleteBack
        | Command::DeleteForward
        | Command::KillRegion
        | Command::KillLine
        | Command::Undo
        | Command::Redo
        | Command::JumpBack
        | Command::JumpForward => true,
        _ => false,
    }
}

/// The command with a given name.
pub open spec fn named_command(s: Seq<char>) -> Option<Command> {
    if s == "quit"@ {
        Some(Command::Quit)
    } else if s == "suspend"@ {
        Some(Command::Suspend)
    } else if s == "abort"@ {
        Some(Command::Abort)
    } else if s == "save"@ {
        Some(Command::Save)
    } else if s == "save_all"@ {
        Some(Command::SaveAll)
    } else if s == "save_no_format"@ {
        Some(Command::SaveNoFormat)
    } else if s == "save_as"@ {
        Some(Command::SaveAs)
    } else if s == "next_tab"@ {
        Some(Command::TabNext)
    } else if s == "prev_tab"@ {
        Some(Command::TabPrev)
    } else if s == "kill_buffer"@ {
        Some(Command::KillBuffer)
    } else if s == "move_up"@ {
        Some(Command::CursorUp)
    } else if s == "move_down"@ {
        Some(Command::CursorDown)
    } else if s == "move_left"@ {
        Some(Command::CursorLeft)
    } else if s == "move_right"@ {
        Some(Command::CursorRight)
    } else if s == "line_start"@ {
        Some(Command::CursorLineStart)
    } else if s == "line_end"@ {
        Some(Command::CursorLineEnd)
    } else if s == "page_up"@ {
        Some(Command::CursorPageUp)
    } else if s == "page_down"@ {
        Some(Command::CursorPageDown)
    } else if s == "file_start"@ {
        Some(Command::CursorFileStart)
    } else if s == "file_end"@ {
        Some(Command::CursorFileEnd)
    } else if s == "word_left"@ {
        Some(Command::CursorWordLeft)
    } else if s == "word_right"@ {
        Some(Command::CursorWordRight)
    } else if s == "insert_newline"@ {
        Some(Command::InsertNewline)
    } else if s == "insert_tab"@ {
        Some(Command::InsertTab)
    } else if s == "delete_backward"@ {
        Some(Command::DeleteBack)
    } else if s == "delete_forward"@ {
        Some(Command::DeleteForward)
    } else if s == "set_mark"@ {
        Some(Command::SetMark)
    } else if s == "kill_region"@ {
        Some(Command::KillRegion)
    } else if s == "kill_line"@ {
        Some(Command::KillLine)
    } else if s == "yank"@ {
        Some(Command::Yank)
    } else if s == "undo"@ {
        Some(Command::Undo)
    } else if s == "redo"@ {
        Some(Command::Redo)
    } else if s == "jump_back"@ {
        Some(Command::JumpBack)
    } else if s == "jump_forward"@ {
        Some(Command::JumpForward)
    } else if s == "match_bracket"@ {
        Some(Command::MatchBracket)
    } else if s == "next_issue"@ {
        Some(Command::NextIssue)
    } else if s == "prev_issue"@ {
        Some(Command::PrevIssue)
    } else if s == "expand_dir"@ {
        Some(Command::ExpandDir)
    } else if s == "collapse_dir"@ {
        Some(Command::CollapseDir)
    } else if s == "collapse_all"@ {
        Some(Command::CollapseAll)
    } else if s == "open_selected"@ {
        Some(Command::OpenSelected)
    } else if s == "open_selected_bg"@ {
        Some(Command::OpenSelectedBg)
    } else if s == "toggle_side_panel"@ {
        Some(Command::ToggleSidePanel)
    } else if s == "toggle_focus"@ {
        Some(Command::ToggleFocus)
    } else if s == "find_file"@ {
        Some(Command::FindFile)
    } else if s == "find_file_tab_complete"@ {
        Some(Command::FindFileTabComplete)
    } else if s == "in_buffer_search"@ {
        Some(Command::InBufferSearch)
    } else if s == "open_file_search"@ {
        Some(Command::OpenFileSearch)
    } else if s == "close_file_search"@ {
        Some(Command::CloseFileSearch)
    } else if s == "toggle_search_case"@ {
        Some(Command::ToggleSearchCase)
    } else if s == "toggle_search_regex"@ {
        Some(Command::ToggleSearchRegex)
    } else if s == "toggle_search_replace"@ {
        Some(Command::ToggleSearchReplace)
    } else if s == "replace_all"@ {
        Some(Command::ReplaceAll)
    } else if s == "lsp_goto_definition"@ {
        Some(Command::LspGotoDefinition)
    } else if s == "lsp_rename"@ {
        Some(Command::LspRename)
    } else if s == "lsp_code_action"@ {
        Some(Command::LspCodeAction)
    } else if s == "lsp_toggle_inlay_hints"@ {
        Some(Command::LspToggleInlayHints)
    } else if s == "lsp_format"@ {
        Some(Command::LspFormat)
    } else if s == "outline"@ {
        Some(Command::Outline)
    } else if s == "reflow_paragraph"@ {
        Some(Command::ReflowParagraph)
    } else if s == "sort_imports"@ {
        Some(Command::SortImports)
    } else if s == "kbd_macro_start"@ {
        Some(Command::KbdMacroStart)
    } else if s == "kbd_macro_end"@ {
        Some(Command::KbdMacroEnd)
    } else if s == "kbd_macro_execute"@ {
        Some(Command::KbdMacroExecute)
    } else {
        None
    }
}

/// What is said of a string that names no command.
pub open spec fn unknown_command(s: Seq<char>) -> Seq<char> {
    "unknown command `"@ + s + "`"@
}

/// Reads the name of a command, such as `next_tab`.
pub fn parse_command(s: &str) -> (r: Result<Command, String>)
    ensures
        match r {
            Ok(c) => named_command(s@) == Some(c),
            Err(e) => named_command(s@) is None && e@ == unknown_command(s@),
        },
{
    if same_text(s, "quit") {
        Ok(Command::Quit)
    } else if same_text(s, "suspend") {
        Ok(Command::Suspend)
    } else if same_text(s, "abort") {
        Ok(Command::Abort)
    } else if same_text(s, "save") {
        Ok(Command::Save)
    } else if same_text(s, "save_all") {
        Ok(Command::SaveAll)
    } else if same_text(s, "save_no_format") {
        Ok(Command::SaveNoFormat)
    } else if same_text(s, "save_as") {
        Ok(Command::SaveAs)
    } else if same_text(s, "next_tab") {
        Ok(Command::TabNext)
    } else if same_text(s, "prev_tab") {
        Ok(Command::TabPrev)
    } else if same_text(s, "kill_buffer") {
        Ok(Command::KillBuffer)
    } else if same_text(s, "move_up") {
        Ok(Command::CursorUp)
    } else if same_text(s, "move_down") {
        Ok(Command::CursorDown)
    } else if same_text(s, "move_left") {
        Ok(Command::CursorLeft)
    } else if same_text(s, "move_right") {
        Ok(Command::CursorRight)
    } else if same_text(s, "line_start") {
        Ok(Command::CursorLineStart)
    } else if same_text(s, "line_end") {
        Ok(Command::CursorLineEnd)
    } else if same_text(s, "page_up") {
        Ok(Command::CursorPageUp)
    } else if same_text(s, "page_down") {
        Ok(Command::CursorPageDown)
    } else if same_text(s, "file_start") {
        Ok(Command::CursorFileStart)
    } else if same_text(s, "file_end") {
        Ok(Command::CursorFileEnd)
    } else if same_text(s, "word_left") {
        Ok(Command::CursorWordLeft)
    } else if same_text(s, "word_right") {
        Ok(Command::CursorWordRight)
    } else if same_text(s, "insert_newline") {
        Ok(Command::InsertNewline)
    } else if same_text(s, "insert_tab") {
        Ok(Command::InsertTab)
    } else if same_text(s, "delete_backward") {
        Ok(Command::DeleteBack)
    } else if same_text(s, "delete_forward") {
        Ok(Command::DeleteForward)
    } else if same_text(s, "set_mark") {
        Ok(Command::SetMark)
    } else if same_text(s, "kill_region") {
        Ok(Command::KillRegion)
    } else if same_text(s, "kill_line") {
        Ok(Command::KillLine)
    } else if same_text(s, "yank") {
        Ok(Command::Yank)
    } else if same_text(s, "undo") {
        Ok(Command::Undo)
    } else if same_text(s, "redo") {
        Ok(Command::Redo)
    } else if same_text(s, "jump_back") {
        Ok(Command::JumpBack)
    } else if same_text(s, "jump_forward") {
        Ok(Command::JumpForward)
    } else if same_text(s, "match_bracket") {
        Ok(Command::MatchBracket)
    } else if same_text(s, "next_issue") {
        Ok(Command::NextIssue)
    } else if same_text(s, "prev_issue") {
        Ok(Command::PrevIssue)
    } else if same_text(s, "expand_dir") {
        Ok(Command::ExpandDir)
    } else if same_text(s, "collapse_dir") {
        Ok(Command::CollapseDir)
    } else if same_text(s, "collapse_all") {
        Ok(Command::CollapseAll)
    } else if same_text(s, "open_selected") {
        Ok(Command::OpenSelected)
    } else if same_text(s, "open_selected_bg") {
        Ok(Command::OpenSelectedBg)
    } else if same_text(s, "toggle_side_panel") {
        Ok(Command::ToggleSidePanel)
    } else if same_text(s, "toggle_focus") {
        Ok(Command::ToggleFocus)
    } else if same_text(s, "find_file") {
        Ok(Command::FindFile)
    } else if same_text(s, "find_file_tab_complete") {
        Ok(Command::FindFileTabComplete)
    } else if same_text(s, "in_buffer_search") {
        Ok(Command::InBufferSearch)
    } else if same_text(s, "open_file_search") {
        Ok(Command::OpenFileSearch)
    } else if same_text(s, "close_file_search") {
        Ok(Command::CloseFileSearch)
    } else if same_text(s, "toggle_search_case") {
        Ok(Command::ToggleSearchCase)
    } else if same_text(s, "toggle_search_regex") {
        Ok(Command::ToggleSearchRegex)
    } else if same_text(s, "toggle_search_replace") {
        Ok(Command::ToggleSearchReplace)
    } else if same_text(s, "replace_all") {
        Ok(Command::ReplaceAll)
    } else if same_text(s, "lsp_goto_definition") {
        Ok(Command::LspGotoDefinition)
    } else if same_text(s, "lsp_rename") {
        Ok(Command::LspRename)
    } else if same_text(s, "lsp_code_action") {
        Ok(Command::LspCodeAction)
    } else if same_text(s, "lsp_toggle_inlay_hints") {
        Ok(Command::LspToggleInlayHints)
    } else if same_text(s, "lsp_format") {
        Ok(Command::LspFormat)
    } else if same_text(s, "outline") {
        Ok(Command::Outline)
    } else if same_text(s, "reflow_paragraph") {
        Ok(Command::ReflowParagraph)
    } else if same_text(s, "sort_imports") {
        Ok(Command::SortImports)
    } else if same_text(s, "kbd_macro_start") {
        Ok(Command::KbdMacroStart)
    } else if same_text(s, "kbd_macro_end") {
        Ok(Command::KbdMacroEnd)
    } else if same_text(s, "kbd_macro_execute") {
        Ok(Command::KbdMacroExecute)
    } else {
        let mut e = "unknown command `".to_owned();
        e.push_str(s);
        e.push_str("`");
        Err(e)
    }
}

} // verus!
