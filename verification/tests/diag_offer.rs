use led_runtime::columns::Cursor;
use led_runtime::diag_offer::{offer_diagnostics, OfferOutcome};
use led_runtime::diagnostics::{Diagnostic, DiagnosticSeverity};
use led_runtime::edits::{hash_rope, EditedBuffer};
use ropey::Rope;

fn diag(line: usize, message: &str) -> Diagnostic {
    Diagnostic {
        start_line: line,
        start_col: 0,
        end_line: line,
        end_col: 5,
        severity: DiagnosticSeverity::Error,
        message: message.to_string(),
        source: None,
        code: None,
    }
}

fn cur(line: usize, col: usize) -> Cursor {
    Cursor { line, col, preferred_col: col }
}

fn accepted(out: OfferOutcome) -> Vec<Diagnostic> {
    match out {
        OfferOutcome::Accept(d) => d,
        OfferOutcome::Reject => panic!("expected accept"),
    }
}

fn saved(text: &str) -> (EditedBuffer, u64) {
    let rope = Rope::from_str(text);
    let hash = hash_rope(&rope);
    let mut eb = EditedBuffer::fresh(rope);
    eb.history.insert_save_point(0, hash);
    (eb, hash)
}

#[test]
fn fast_path_accepts_when_hash_matches() {
    let rope = Rope::from_str("one\ntwo\nthree\n");
    let h = hash_rope(&rope);
    let eb = EditedBuffer::fresh(rope);
    let d = accepted(offer_diagnostics(&eb, h, vec![diag(1, "err")]));
    assert_eq!(d.len(), 1);
    assert_eq!(d[0].start_line, 1);
}

#[test]
fn reject_when_no_matching_save_point() {
    let eb = EditedBuffer::fresh(Rope::from_str("one\ntwo\n"));
    let out = offer_diagnostics(&eb, 0xDEADBEEF, vec![diag(0, "err")]);
    assert!(matches!(out, OfferOutcome::Reject));
}

#[test]
fn replay_clears_diagnostic_on_same_row_edit() {
    let (mut eb, hash) = saved("fn main() {}\n");
    eb.rope.insert_char(2, 'x');
    eb.version = 1;
    eb.history.record_insert_char(1, 2, 'x', cur(0, 2), cur(0, 3));
    eb.history.finalise();
    let d = accepted(offer_diagnostics(&eb, hash, vec![diag(0, "expected semicolon")]));
    assert!(d.is_empty());
}

#[test]
fn replay_shifts_diagnostic_past_structural_insert() {
    let (mut eb, hash) = saved("a\nb\nc\n");
    eb.rope.insert_char(0, '\n');
    eb.version = 1;
    eb.history.record_insert(1, 0, "\n".to_string(), cur(0, 0), cur(1, 0));
    eb.history.finalise();
    let d = accepted(offer_diagnostics(&eb, hash, vec![diag(2, "err on c")]));
    assert_eq!(d.len(), 1);
    assert_eq!(d[0].start_line, 3);
    assert_eq!(d[0].end_line, 3);
}

#[test]
fn replay_accepts_verbatim_when_edits_reverse_to_save_content() {
    let (mut eb, hash) = saved("hello\n");
    eb.rope.insert_char(5, 'x');
    eb.version = 1;
    eb.history.record_insert_char(1, 5, 'x', cur(0, 5), cur(0, 6));
    eb.history.finalise();
    eb.rope.remove(5..6);
    eb.version = 2;
    eb.history.record_delete(2, 5, "x".to_string(), cur(0, 6), cur(0, 5));
    eb.history.finalise();
    assert_eq!(hash_rope(&eb.rope), hash);
    let d = accepted(offer_diagnostics(&eb, hash, vec![diag(0, "err")]));
    assert_eq!(d.len(), 1);
}

#[test]
fn remarks_above_an_edit_stay_where_they_are() {
    let (mut eb, hash) = saved("a\nb\nc\n");
    eb.rope.insert_char(5, '!');
    eb.version = 1;
    eb.history.record_insert_char(1, 5, '!', cur(2, 1), cur(2, 2));
    eb.history.finalise();
    let d = accepted(offer_diagnostics(&eb, hash, vec![diag(0, "one"), diag(2, "gone")]));
    assert_eq!(d.len(), 1);
    assert_eq!((d[0].start_line, d[0].message.as_str()), (0, "one"));
}
