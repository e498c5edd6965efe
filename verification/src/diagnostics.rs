//! What language servers and version control say of files.

use vstd::prelude::*;

use crate::maps::PathMap;

verus! {

#[derive(Clone, Copy, Debug, PartialEq, Eq, Structural)]
pub enum DiagnosticSeverity {
    Error,
    Warning,
    Info,
    Hint,
}

/// A remark of a language server on a range of a file.
pub struct Diagnostic {
    pub start_line: usize,
    pub start_col: usize,
    pub end_line: usize,
    pub end_col: usize,
    pub severity: DiagnosticSeverity,
    pub message: String,
    /// Who makes the remark.
    pub source: Option<String>,
    pub code: Option<String>,
}

fn copy_text(s: &Option<String>) -> (r: Option<String>)
    ensures
        r == *s,
{
    match s {
        Some(t) => Some(t.clone()),
        None => None,
    }
}

impl Diagnostic {
    pub fn copy(&self) -> (d: Diagnostic)
        ensures
            d == *self,
    {
        Diagnostic {
            start_line: self.start_line,
            start_col: self.start_col,
            end_line: self.end_line,
            end_col: self.end_col,
            severity: self.severity,
            message: self.message.clone(),
            source: copy_text(&self.source),
            code: copy_text(&self.code),
        }
    }
}

/// The remarks on one file, made for the content with a given hash.
pub struct BufferDiagnostics {
    pub hash: u64,
    pub diagnostics: Vec<Diagnostic>,
}

pub struct DiagnosticsStates {
    pub by_path: PathMap<BufferDiagnostics>,
}

/// Why a place is worth a visit.
#[derive(Clone, Copy, Debug, PartialEq, Eq, Structural)]
pub enum IssueCategory {
    LspError,
    LspWarning,
    Unstaged,
    StagedModified,
    StagedNew,
    Untracked,
}

/// Changed lines of a file.
#[derive(Clone, Copy, Debug, PartialEq, Eq, Structural)]
pub struct LineStatus {
    pub category: IssueCategory,
    pub start: usize,
    pub end: usize,
}

/// What version control says of files.
pub struct GitState {
    pub file_statuses: PathMap<Vec<IssueCategory>>,
    pub line_statuses: PathMap<Vec<LineStatus>>,
}

impl DiagnosticsStates {
    pub fn new() -> (d: DiagnosticsStates)
        ensures
            d.by_path.map() == Map::<Seq<char>, BufferDiagnostics>::empty(),
    {
        DiagnosticsStates { by_path: PathMap::new() }
    }
}

impl GitState {
    pub fn new() -> (g: GitState)
        ensures
            g.file_statuses.map() == Map::<Seq<char>, Vec<IssueCategory>>::empty(),
            g.line_statuses.map() == Map::<Seq<char>, Vec<LineStatus>>::empty(),
    {
        GitState { file_statuses: PathMap::new(), line_statuses: PathMap::new() }
    }
}

} // verus!
