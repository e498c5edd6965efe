//! The runtime of a terminal text editor: how keys become commands, how
//! commands change tabs, buffers and overlays, and how results that come
//! back from the outside world are folded into that state.

use vstd::prelude::*;

pub mod alerts;
pub mod basic;
pub mod browser;
pub mod buffers;
pub mod cells;
pub mod chars;
pub mod chat;
pub mod code_actions;
pub mod columns;
pub mod command;
pub mod completions;
pub mod config;
pub mod cursor;
pub mod diag_offer;
pub mod diagnostics;
pub mod dispatch;
pub mod edit;
pub mod editor;
pub mod edits;
pub mod file_search;
pub mod find_file;
pub mod hits;
pub mod input;
pub mod isearch;
pub mod issues;
pub mod jumps;
pub mod keymap;
pub mod keys;
pub mod kill;
pub mod listing;
pub mod lsp_apply;
pub mod lsp_state;
pub mod maps;
pub mod moves;
pub mod nav;
pub mod paths;
pub mod rename;
pub mod replace_all;
pub mod replace_one;
pub mod rewrite;
pub mod save;
pub mod screen;
pub mod seqs;
pub mod session;
pub mod store;
pub mod tab_ops;
pub mod tabs;
pub mod text;
pub mod truth;
pub mod undo;
pub mod undo_global;
pub mod words;
pub mod workspace;

verus! {

} // verus!
