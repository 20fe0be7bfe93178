use irc_tui::app::{App, Event};
use irc_tui::keys::{KeyCode, KeyPress};

fn with_nicks(nicks: &[&str]) -> App {
    let mut app = App::new("me");
    app.buffers[0].nicks = nicks.iter().map(|n| n.to_string()).collect();
    app
}

fn key(code: KeyCode) -> KeyPress {
    KeyPress { code, ctrl: false, alt: false }
}

fn ctrl(c: char) -> KeyPress {
    KeyPress { code: KeyCode::Char(c), ctrl: true, alt: false }
}

fn alt(c: char) -> KeyPress {
    KeyPress { code: KeyCode::Char(c), ctrl: false, alt: true }
}

fn type_str(app: &mut App, s: &str) {
    for c in s.chars() {
        app.on_key(key(KeyCode::Char(c)), 0);
    }
}

#[test]
fn completes_at_line_start_with_colon() {
    let mut app = with_nicks(&["@Alice", "+bob"]);
    app.input = "al".to_string();
    app.cursor = 2;
    app.complete_nick();
    assert_eq!(app.input, "Alice: ");
    assert_eq!(app.cursor, 7);
}

#[test]
fn completes_mid_line_with_space() {
    let mut app = with_nicks(&["carol", "bob"]);
    app.input = "hi B and".to_string();
    app.cursor = 4;
    app.complete_nick();
    assert_eq!(app.input, "hi bob  and");
    assert_eq!(app.cursor, 7);
}

#[test]
fn completion_takes_first_match() {
    let mut app = with_nicks(&["dan", "dave"]);
    app.input = "da".to_string();
    app.cursor = 2;
    app.complete_nick();
    assert_eq!(app.input, "dan: ");
}

#[test]
fn completion_without_match_or_word_changes_nothing() {
    let mut app = with_nicks(&["alice"]);
    app.input = "zz".to_string();
    app.cursor = 2;
    app.complete_nick();
    assert_eq!(app.input, "zz");
    assert_eq!(app.cursor, 2);
    app.input = "hi ".to_string();
    app.cursor = 3;
    app.complete_nick();
    assert_eq!(app.input, "hi ");
}

#[test]
fn try_complete_reports_success() {
    let mut app = with_nicks(&["alice"]);
    app.input = "a".to_string();
    app.cursor = 1;
    assert!(app.try_complete_nick());
    assert_eq!(app.input, "alice: ");
}

#[test]
fn typing_and_editing_keys() {
    let mut app = App::new("me");
    type_str(&mut app, "héllo");
    assert_eq!(app.input, "héllo");
    assert_eq!(app.cursor, 6);
    app.on_key(key(KeyCode::Backspace), 0);
    assert_eq!(app.input, "héll");
    assert_eq!(app.cursor, 5);
    app.on_key(key(KeyCode::Home), 0);
    assert_eq!(app.cursor, 0);
    app.on_key(key(KeyCode::Delete), 0);
    assert_eq!(app.input, "éll");
    app.on_key(key(KeyCode::End), 0);
    assert_eq!(app.cursor, 4);
    app.on_key(key(KeyCode::Right), 0);
    assert_eq!(app.cursor, 4);
    app.on_key(key(KeyCode::Left), 0);
    assert_eq!(app.cursor, 3);
    app.on_key(ctrl('u'), 0);
    assert_eq!(app.input, "l");
    assert_eq!(app.cursor, 0);
    app.on_key(key(KeyCode::Left), 0);
    assert_eq!(app.cursor, 0);
}

#[test]
fn ctrl_c_quits_and_other_ctrl_letters_type() {
    let mut app = App::new("me");
    app.on_key(ctrl('a'), 0);
    assert_eq!(app.input, "a");
    app.on_key(ctrl('c'), 0);
    assert!(app.quit);
}

#[test]
fn buffer_switch_keys() {
    let mut app = App::new("me");
    app.apply_at(Event::Status { buffer: "#a".into(), text: "x".into() }, "t".into());
    app.apply_at(Event::Status { buffer: "#b".into(), text: "y".into() }, "t".into());
    app.on_key(alt('3'), 0);
    assert_eq!(app.current, 2);
    app.on_key(alt('0'), 0);
    assert_eq!(app.current, 2);
    app.on_key(alt('9'), 0);
    assert_eq!(app.current, 2);
    app.on_key(ctrl('n'), 0);
    assert_eq!(app.current, 0);
    app.on_key(ctrl('p'), 0);
    assert_eq!(app.current, 2);
    assert!(app.input.is_empty());
}

#[test]
fn page_keys_scroll() {
    let mut app = App::new("me");
    app.on_key(key(KeyCode::PageUp), 15);
    assert_eq!(app.buf().scroll, 10);
    app.on_key(key(KeyCode::PageUp), 15);
    assert_eq!(app.buf().scroll, 15);
    app.on_key(key(KeyCode::PageDown), 15);
    assert_eq!(app.buf().scroll, 5);
}

#[test]
fn enter_submits_and_resets_scroll() {
    let mut app = App::new("me");
    app.buffers[0].scroll = 4;
    type_str(&mut app, "hi");
    let line = app.on_key(key(KeyCode::Enter), 0);
    assert_eq!(line.as_deref(), Some("hi"));
    assert_eq!(app.buf().scroll, 0);
    assert_eq!(app.buf().msgs[0].text, "hi");
    assert_eq!(app.on_key(key(KeyCode::Enter), 0), None);
}

#[test]
fn tab_key_completes() {
    let mut app = with_nicks(&["+bob"]);
    type_str(&mut app, "b");
    app.on_key(key(KeyCode::Tab), 0);
    assert_eq!(app.input, "bob: ");
    assert_eq!(app.cursor, 5);
}

#[test]
fn handle_key_refuses_a_cursor_inside_a_character() {
    let mut app = App::new("me");
    app.input = "é".to_string();
    app.cursor = 2;
    assert!(!app.key_allowed(key(KeyCode::Backspace), 0));
    assert_eq!(app.handle_key(key(KeyCode::Backspace), 0), None);
    assert_eq!(app.input, "é");
    assert_eq!(app.handle_key(key(KeyCode::Home), 0), Some(None));
    assert_eq!(app.cursor, 0);
}

#[test]
fn other_keys_do_nothing() {
    let mut app = App::new("me");
    type_str(&mut app, "x");
    assert_eq!(app.on_key(key(KeyCode::Other), 0), None);
    assert_eq!(app.input, "x");
    assert_eq!(app.cursor, 1);
}
