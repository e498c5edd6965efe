# led_runtime

The runtime of a terminal editor: tabs and buffers, editing with undo and redo,
searching and replacing, completion, key bindings, sessions, and the dispatcher that
turns keys into commands. Everything under `src/` is verified with Verus; `app/` is the
ordinary Rust around it that touches files, the environment and the clock.

- `src/text.rs`, `src/columns.rs`, `src/edits.rs`, `src/buffers.rs`, `src/tabs.rs` model
  the data: a rope is its text, a cursor column is a grapheme cluster, a buffer is a text
  with versions and a history, and the open tabs are a list with a focus.
- `src/cells.rs` counts the display cells that a cursor aims for after an edit or a jump to
  a definition. How wide a cluster is drawn is told to it by whoever draws.
- `src/edit.rs`, `src/kill.rs`, `src/undo.rs`, `src/save.rs`, `src/cursor.rs` and the
  modules of the overlays say what each command makes of them.
- `src/truth.rs` says when a history tells how a text came about, and that undoing all of
  it then leads back to the first text. The functions that edit say that they keep it so.
  Some do only under a condition that they state: replacing a hit, or taking that back,
  where the text is no longer the one that was found; replacing everything, which is not
  recorded; taking over groups from another editor or an earlier run; and sending a turn
  of a chat, whose padding is not recorded either.
- `src/editor.rs` and `src/dispatch.rs` put the commands together; `src/basic.rs` is the
  same for the plainest editor.
- `src/config.rs` and `src/session.rs` read what the user configured and what an earlier
  run kept.

Contracts are stated over views: each function says that the view after the call is a
spec function of the view before it. Laws that relate several functions are public proof
functions next to them.
