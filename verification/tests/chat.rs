use led_runtime::alerts::AlertState;
use led_runtime::buffers::BufferEdits;
use led_runtime::chat::{
    count_trailing_newlines, mint_session_uuid, new_chat, parse_effort, parse_permission_mode,
    submit, ChatPrefs, ChatSessions, Effort, PermissionMode,
};
use led_runtime::columns::Cursor;
use led_runtime::edits::EditedBuffer;
use led_runtime::maps::PathMap;
use led_runtime::paths::CanonPath;
use led_runtime::tabs::Tabs;
use ropey::Rope;

struct Chat {
    tabs: Tabs,
    edits: BufferEdits,
    sessions: ChatSessions,
    prefs: ChatPrefs,
    alerts: AlertState,
}

fn opened(effort: Option<Effort>) -> Chat {
    let mut c = Chat {
        tabs: Tabs::new(),
        edits: BufferEdits::new(),
        sessions: PathMap::new(),
        prefs: ChatPrefs::new(),
        alerts: AlertState::new(),
    };
    new_chat(
        &mut c.tabs,
        &mut c.edits,
        &mut c.sessions,
        &mut c.prefs,
        &mut c.alerts,
        "0123456789",
        &CanonPath::new("/c/1.chat"),
        effort,
        None,
        0,
    );
    c
}

impl Chat {
    fn write(&mut self, s: &str) {
        self.edits.put("/c/1.chat".to_string(), EditedBuffer::fresh(Rope::from_str(s)));
    }

    fn send(&mut self) {
        submit(&mut self.tabs, &mut self.edits, &mut self.sessions, &mut self.prefs);
    }

    fn text(&self) -> String {
        self.edits.get("/c/1.chat").unwrap().rope.to_string()
    }
}

#[test]
fn a_new_chat_opens_an_empty_tab() {
    let c = opened(None);
    assert_eq!(c.tabs.len(), 1);
    assert_eq!(c.tabs.active, Some(c.tabs.at(0).id));
    assert_eq!(c.text(), "");
    assert_eq!(c.sessions.get("/c/1.chat").unwrap().session, "0123456789");
    assert_eq!(c.alerts.info.unwrap().text, "New chat #01234567 (effort=medium)");
    assert!(c.prefs.overrides.is_empty());
}

#[test]
fn overrides_are_kept_per_chat() {
    let c = opened(Some(Effort::High));
    let o = c.prefs.overrides.get("0123456789").unwrap();
    assert_eq!(o.effort, Some(Effort::High));
    assert_eq!(o.permission_mode, None);
    assert_eq!(c.alerts.info.unwrap().text, "New chat #01234567 (effort=high)");
}

#[test]
fn sending_pads_the_text_and_queues_it() {
    let mut c = opened(None);
    c.write("hello");
    c.send();
    assert_eq!(c.text(), "hello\n\n");
    assert_eq!(c.prefs.sends.len(), 1);
    assert_eq!(c.prefs.sends[0].session, "0123456789");
    assert_eq!(c.prefs.sends[0].text, "hello");
    let s = c.sessions.get("/c/1.chat").unwrap();
    assert_eq!(s.user_ranges, vec![(0, 5)]);
    assert_eq!(s.submit_offset, 7);
    assert_eq!(s.response_anchor, 7);
    assert_eq!(c.tabs.at(0).cursor, Cursor { line: 2, col: 0, preferred_col: 0 });
    c.send();
    assert_eq!(c.prefs.sends.len(), 1);
}

#[test]
fn a_text_that_ends_in_line_feeds_is_left_alone() {
    for text in ["hi\n", "hi\n\n\n"] {
        let mut c = opened(None);
        c.write(text);
        c.send();
        assert_eq!(c.text(), text);
        assert_eq!(c.prefs.sends[0].text, text);
        let s = c.sessions.get("/c/1.chat").unwrap();
        assert_eq!(s.submit_offset, text.len());
        assert_eq!(s.response_anchor, text.len());
        assert_eq!(s.user_ranges, vec![(0, text.len())]);
    }
}

#[test]
fn blank_text_is_not_sent() {
    let mut c = opened(None);
    c.write(" \n\t");
    c.send();
    assert!(c.prefs.sends.is_empty());
    assert_eq!(c.text(), " \n\t");
}

#[test]
fn settings_are_read() {
    assert_eq!(parse_effort("MED"), Some(Effort::Medium));
    assert_eq!(parse_effort("low"), Some(Effort::Low));
    assert_eq!(parse_effort("max"), Some(Effort::XHigh));
    assert_eq!(parse_effort("none"), None);
    assert_eq!(parse_permission_mode("accept_edits"), Some(PermissionMode::AcceptEdits));
    assert_eq!(parse_permission_mode("plan"), Some(PermissionMode::Plan));
    assert_eq!(parse_permission_mode("Plan"), None);
}

#[test]
fn session_ids_come_from_the_time() {
    assert_eq!(mint_session_uuid(0), "00000000-0000-4000-8000-000000000000");
    assert_eq!(mint_session_uuid(1), "bf58476d-1ce4-45b9-9e37-79b97f4a7c15");
}

#[test]
fn trailing_line_feeds_are_counted() {
    let rope = Rope::from_str("a\n\nb\n\n\n");
    assert_eq!(count_trailing_newlines(&rope, 7), 3);
    assert_eq!(count_trailing_newlines(&rope, 4), 0);
    assert_eq!(count_trailing_newlines(&rope, 3), 2);
    assert_eq!(count_trailing_newlines(&rope, 0), 0);
}

#[test]
fn nothing_happens_when_the_text_ends_before_the_offset() {
    let mut c = opened(None);
    c.write("hello");
    c.send();
    c.write("hey");
    c.send();
    assert_eq!(c.text(), "hey");
    assert_eq!(c.prefs.sends.len(), 1);
    assert_eq!(c.sessions.get("/c/1.chat").unwrap().submit_offset, 7);
}
