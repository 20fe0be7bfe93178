use irc_tui::app::{App, Buffer, Event, Kind, Msg};

fn msg(text: &str) -> Msg {
    Msg { ts: "12:00".to_string(), nick: Some("alice".to_string()), text: text.to_string(), kind: Kind::Privmsg }
}

fn names(app: &App) -> Vec<String> {
    app.buffers.iter().map(|b| b.name.clone()).collect()
}

fn buffer<'a>(app: &'a App, name: &str) -> &'a Buffer {
    app.buffers.iter().find(|b| b.name == name).unwrap()
}

#[test]
fn new_app_has_status_buffer() {
    let app = App::new("me");
    assert_eq!(app.nick, "me");
    assert_eq!(names(&app), vec!["*status*".to_string()]);
    assert_eq!(app.current, 0);
    assert_eq!(app.input, "");
    assert_eq!(app.cursor, 0);
    assert!(!app.quit);
    let b = app.buf();
    assert!(b.msgs.is_empty() && b.nicks.is_empty());
    assert_eq!(b.scroll, 0);
    assert!(!b.unread && !b.highlight);
}

#[test]
fn push_to_other_buffer_creates_it_and_marks_unread() {
    let mut app = App::new("me");
    app.push("#rust", msg("hello there"));
    assert_eq!(names(&app), vec!["*status*".to_string(), "#rust".to_string()]);
    let b = buffer(&app, "#rust");
    assert_eq!(b.msgs.len(), 1);
    assert_eq!(b.msgs[0].text, "hello there");
    assert!(b.unread);
    assert!(!b.highlight);
    assert_eq!(app.current, 0);
}

#[test]
fn push_mentioning_nick_highlights_ignoring_case() {
    let mut app = App::new("Me");
    app.push("#rust", msg("hey ME, look"));
    assert!(buffer(&app, "#rust").highlight);
    app.push("#other", msg("nothing here"));
    assert!(!buffer(&app, "#other").highlight);
}

#[test]
fn push_to_current_buffer_leaves_marks() {
    let mut app = App::new("me");
    app.push("*status*", msg("me me me"));
    let b = app.buf();
    assert_eq!(b.msgs.len(), 1);
    assert!(!b.unread && !b.highlight);
}

#[test]
fn push_to_existing_buffer_appends_in_order() {
    let mut app = App::new("me");
    app.push("#a", msg("one"));
    app.push("#a", msg("two"));
    assert_eq!(app.buffers.len(), 2);
    let texts: Vec<&str> = buffer(&app, "#a").msgs.iter().map(|m| m.text.as_str()).collect();
    assert_eq!(texts, vec!["one", "two"]);
}

#[test]
fn scrollback_drops_oldest_thousand_past_limit() {
    let mut app = App::new("me");
    for i in 0..5000 {
        app.push("*status*", msg(&i.to_string()));
    }
    assert_eq!(app.buf().msgs.len(), 5000);
    app.push("*status*", msg("5000"));
    assert_eq!(app.buf().msgs.len(), 4001);
    assert_eq!(app.buf().msgs[0].text, "1000");
    assert_eq!(app.buf().msgs[4000].text, "5000");
}

#[test]
fn switch_clears_marks_and_ignores_missing() {
    let mut app = App::new("me");
    app.push("#rust", msg("hi me"));
    app.switch(1);
    assert_eq!(app.current, 1);
    assert!(!app.buffers[1].unread && !app.buffers[1].highlight);
    app.switch(7);
    assert_eq!(app.current, 1);
}

#[test]
fn next_buffer_wraps_both_ways() {
    let mut app = App::new("me");
    app.push("#a", msg("x"));
    app.push("#b", msg("y"));
    app.next_buffer(1);
    assert_eq!(app.current, 1);
    app.next_buffer(1);
    assert_eq!(app.current, 2);
    app.next_buffer(1);
    assert_eq!(app.current, 0);
    app.next_buffer(-1);
    assert_eq!(app.current, 2);
    assert!(!app.buffers[2].unread);
    app.next_buffer(-4);
    assert_eq!(app.current, 1);
}

#[test]
fn scroll_is_clamped() {
    let mut app = App::new("me");
    app.scroll(10, 25);
    assert_eq!(app.buf().scroll, 10);
    app.scroll(10, 25);
    app.scroll(10, 25);
    assert_eq!(app.buf().scroll, 25);
    app.scroll(-100, 25);
    assert_eq!(app.buf().scroll, 0);
}

#[test]
fn names_event_sorts_by_rank_then_name() {
    let mut app = App::new("me");
    app.apply_at(
        Event::Names {
            buffer: "#rust".to_string(),
            nicks: vec!["dave".into(), "+bob".into(), "@zed".into(), "Carol".into(), "@alice".into()],
        },
        "00:00".to_string(),
    );
    let b = buffer(&app, "#rust");
    assert_eq!(b.nicks, vec!["@alice", "@zed", "+bob", "Carol", "dave"]);
    assert!(b.msgs.is_empty());
}

#[test]
fn join_adds_nick_once_and_announces() {
    let mut app = App::new("me");
    app.apply_at(Event::Names { buffer: "#r".into(), nicks: vec!["carol".into()] }, "01:02".into());
    app.apply_at(Event::Join { buffer: "#r".into(), nick: "bob".into() }, "01:03".into());
    app.apply_at(Event::Join { buffer: "#r".into(), nick: "bob".into() }, "01:04".into());
    let b = buffer(&app, "#r");
    assert_eq!(b.nicks, vec!["bob", "carol"]);
    assert_eq!(b.msgs.len(), 2);
    assert_eq!(b.msgs[0].text, "--> bob joined");
    assert_eq!(b.msgs[0].ts, "01:03");
    assert!(b.msgs[0].nick.is_none());
    assert!(b.msgs[0].kind == Kind::Status);
}

#[test]
fn part_removes_nick_and_announces() {
    let mut app = App::new("me");
    app.apply_at(
        Event::Names { buffer: "#r".into(), nicks: vec!["a".into(), "b".into(), "c".into()] },
        "01:02".into(),
    );
    app.apply_at(Event::Part { buffer: "#r".into(), nick: "b".into() }, "01:05".into());
    let b = buffer(&app, "#r");
    assert_eq!(b.nicks, vec!["a", "c"]);
    assert_eq!(b.msgs.last().unwrap().text, "<-- b left");
}

#[test]
fn line_action_status_events_make_messages() {
    let mut app = App::new("me");
    app.apply_at(Event::Line { buffer: "#r".into(), nick: "al".into(), text: "hi".into() }, "t1".into());
    app.apply_at(Event::Action { buffer: "#r".into(), nick: "al".into(), text: "waves".into() }, "t2".into());
    app.apply_at(Event::Status { buffer: "#r".into(), text: "topic".into() }, "t3".into());
    let b = buffer(&app, "#r");
    assert!(b.msgs[0].kind == Kind::Privmsg && b.msgs[0].nick.as_deref() == Some("al"));
    assert!(b.msgs[1].kind == Kind::Action && b.msgs[1].text == "waves");
    assert!(b.msgs[2].kind == Kind::Status && b.msgs[2].nick.is_none());
    assert_eq!(b.msgs[2].ts, "t3");
}

#[test]
fn apply_stamps_with_clock_time() {
    let mut app = App::new("me");
    app.apply(Event::Status { buffer: "*status*".into(), text: "x".into() });
    let ts = &app.buf().msgs[0].ts;
    let b = ts.as_bytes();
    assert_eq!(b.len(), 5);
    assert_eq!(b[2], b':');
    let h: u32 = ts[0..2].parse().unwrap();
    let m: u32 = ts[3..5].parse().unwrap();
    assert!(h < 24 && m < 60);
}

#[test]
fn submit_echoes_plain_lines() {
    let mut app = App::new("me");
    app.input = "hello".to_string();
    app.cursor = 5;
    let r = app.submit_at("09:30".to_string());
    assert_eq!(r.as_deref(), Some("hello"));
    assert_eq!(app.input, "");
    assert_eq!(app.cursor, 0);
    let m = &app.buf().msgs[0];
    assert_eq!(m.text, "hello");
    assert_eq!(m.nick.as_deref(), Some("me"));
    assert_eq!(m.ts, "09:30");
}

#[test]
fn submit_command_is_not_echoed() {
    let mut app = App::new("me");
    app.input = "/join #rust".to_string();
    let r = app.submit();
    assert_eq!(r.as_deref(), Some("/join #rust"));
    assert!(app.buf().msgs.is_empty());
    assert_eq!(app.input, "");
}

#[test]
fn submit_empty_gives_none() {
    let mut app = App::new("me");
    assert!(app.submit().is_none());
    assert!(app.buf().msgs.is_empty());
}

#[test]
fn nick_sort_is_stable_for_equal_keys() {
    let mut v: Vec<String> = vec!["bob".into(), "Bob".into()];
    irc_tui::nicks::sort_nicks(&mut v);
    assert_eq!(v, vec!["bob", "Bob"]);
    let mut v: Vec<String> = vec!["Bob".into(), "@x".into(), "bob".into()];
    irc_tui::nicks::sort_nicks(&mut v);
    assert_eq!(v, vec!["@x", "Bob", "bob"]);
}
