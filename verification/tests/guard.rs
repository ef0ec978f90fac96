use inkling::guard::{restore_sequence, Guard};

#[test]
fn restore_is_idempotent() {
    let mut guard = Guard::new();
    guard.set_cursor_hidden(true);
    guard.set_alt_screen(true);
    let first = guard.restore();
    assert!(!guard.cursor_hidden());
    assert!(!guard.alt_screen());
    assert_eq!(first, b"\x1b[?2026l\x1b[0m\x1b[?25h\x1b[?1049l".to_vec());
    // Must not re-emit the cursor or screen changes.
    assert_eq!(guard.restore(), b"\x1b[?2026l\x1b[0m".to_vec());
    assert_eq!(guard.restore(), b"\x1b[?2026l\x1b[0m".to_vec());
}

#[test]
fn arming_twice_is_harmless() {
    let mut guard = Guard::new();
    assert!(guard.arm());
    assert!(!guard.arm());
}

#[test]
fn only_what_was_changed_is_restored() {
    assert_eq!(restore_sequence(true, false), b"\x1b[?2026l\x1b[0m\x1b[?25h".to_vec());
    assert_eq!(restore_sequence(false, true), b"\x1b[?2026l\x1b[0m\x1b[?1049l".to_vec());
    assert_eq!(restore_sequence(false, false), b"\x1b[?2026l\x1b[0m".to_vec());
}
