use irc_tui::app::{App, Event, Kind, Msg};
use irc_tui::clock::{clock_stamp, timestamp};
use irc_tui::demo::{fake_greeting, fake_line};
use irc_tui::layout::{layout, panes_of, Panes};
use irc_tui::render::{
    chat_view, cursor_column, max_scroll, nick_lines, nicklist_title, prompt_line, render_lines,
    tab_spans, StyledLine,
};
use irc_tui::ui::{chat_height, chat_width, decimal, nick_color, truncate, visible_range, Area, Color, Style};
use irc_tui::wrap::wrap;

fn area(width: u16, height: u16) -> Area {
    Area { x: 0, y: 0, width, height }
}

fn texts(line: &StyledLine) -> Vec<String> {
    line.spans.iter().map(|s| s.text.clone()).collect()
}

fn fg(c: Color) -> Style {
    Style { fg: Some(c), bg: None, bold: false }
}

const PLAIN: Style = Style { fg: None, bg: None, bold: false };

#[test]
fn chat_geometry() {
    assert_eq!(chat_width(area(80, 24)), 80 - 18 - 19);
    assert_eq!(chat_width(area(30, 24)), 0);
    assert_eq!(chat_width(area(10, 24)), 0);
    assert_eq!(chat_height(area(80, 24)), 22);
    assert_eq!(chat_height(area(80, 1)), 0);
}

#[test]
fn nick_colors_follow_the_hash() {
    assert_eq!(nick_color("alice"), Color::Red);
    assert_eq!(nick_color("bob"), Color::Cyan);
    assert_eq!(nick_color("carol"), Color::Green);
    assert_eq!(nick_color("dave"), Color::Magenta);
    assert_eq!(nick_color(""), Color::Red);
    assert_eq!(nick_color("bob"), nick_color("bob"));
}

#[test]
fn wrap_fills_greedily() {
    assert_eq!(wrap("hello world foo", 11), vec!["hello world", "foo"]);
    assert_eq!(wrap("a b c", 3), vec!["a b", "c"]);
    assert_eq!(wrap("  spaced\t\tout  ", 20), vec!["spaced out"]);
}

#[test]
fn wrap_cuts_long_words() {
    assert_eq!(wrap("abcdefgh", 3), vec!["abc", "def", "gh"]);
    assert_eq!(wrap("xy abcdef", 3), vec!["xy", "abc", "def"]);
    assert_eq!(wrap("ab abcdef", 4), vec!["ab", "abcd", "ef"]);
}

#[test]
fn wrap_edge_cases() {
    assert_eq!(wrap("keep  as is", 0), vec!["keep  as is"]);
    assert_eq!(wrap("", 5), vec![""]);
    assert_eq!(wrap("   ", 5), vec![""]);
    assert_eq!(wrap("héllo wörld", 5), vec!["héllo", "wörld"]);
    for line in wrap("the quick brown fox jumps over the lazy dog", 7) {
        assert!(line.chars().count() <= 7);
    }
}

#[test]
fn truncate_counts_characters() {
    assert_eq!(truncate("abcdef", 3), "abc");
    assert_eq!(truncate("ab", 3), "ab");
    assert_eq!(truncate("ééé", 2), "éé");
}

#[test]
fn decimal_digits() {
    assert_eq!(decimal(0), "0");
    assert_eq!(decimal(7), "7");
    assert_eq!(decimal(120), "120");
}

#[test]
fn visible_range_cases() {
    assert_eq!(visible_range(100, 0, 20), (80, 100));
    assert_eq!(visible_range(100, 30, 20), (50, 70));
    assert_eq!(visible_range(100, 500, 20), (0, 1));
    assert_eq!(visible_range(5, 0, 20), (0, 5));
    assert_eq!(visible_range(0, 3, 20), (0, 0));
}

#[test]
fn clock_stamps() {
    assert_eq!(clock_stamp(0), "00:00");
    assert_eq!(clock_stamp(3661), "01:01");
    assert_eq!(clock_stamp(86399), "23:59");
    assert_eq!(clock_stamp(86400 + 45 * 60), "00:45");
    let t = timestamp();
    assert_eq!(t.len(), 5);
    assert_eq!(&t[2..3], ":");
}

fn app_with(msgs: Vec<Msg>) -> App {
    let mut app = App::new("me");
    app.buffers[0].msgs = msgs;
    app
}

#[test]
fn render_privmsg_line() {
    let app = app_with(vec![Msg {
        ts: "12:34".into(),
        nick: Some("alice".into()),
        text: "hello world".into(),
        kind: Kind::Privmsg,
    }]);
    let lines = render_lines(&app, 40);
    assert_eq!(lines.len(), 1);
    assert_eq!(texts(&lines[0]), vec!["12:34 ", "    <alice> ", "hello world"]);
    assert_eq!(lines[0].spans[0].style, fg(Color::DarkGray));
    assert_eq!(lines[0].spans[1].style, fg(Color::Red));
    assert_eq!(lines[0].spans[2].style, PLAIN);
}

#[test]
fn render_wraps_with_gutter() {
    let app = app_with(vec![Msg {
        ts: "00:01".into(),
        nick: Some("a_very_long_nickname".into()),
        text: "aaa bbb".into(),
        kind: Kind::Privmsg,
    }]);
    let lines = render_lines(&app, 3);
    assert_eq!(lines.len(), 2);
    assert_eq!(texts(&lines[0]), vec!["00:01 ", "<a_very_lon ", "aaa"]);
    assert_eq!(texts(&lines[1]), vec![" ".repeat(18), "bbb".to_string()]);
    assert_eq!(lines[1].spans[0].style, PLAIN);
}

#[test]
fn render_action_and_status() {
    let app = app_with(vec![
        Msg { ts: "t".into(), nick: Some("bob".into()), text: "waves".into(), kind: Kind::Action },
        Msg { ts: "u".into(), nick: None, text: "--> x joined".into(), kind: Kind::Status },
    ]);
    let lines = render_lines(&app, 0);
    assert_eq!(texts(&lines[0]), vec!["t ", "          * ", "bob waves"]);
    assert_eq!(lines[0].spans[1].style, fg(Color::Cyan));
    assert_eq!(lines[0].spans[2].style, fg(Color::Magenta));
    assert_eq!(texts(&lines[1]), vec!["u ", "         -- ", "--> x joined"]);
    assert_eq!(lines[1].spans[2].style, fg(Color::DarkGray));
}

#[test]
fn tab_bar_styles() {
    let mut app = App::new("me");
    app.push("#a", Msg { ts: "t".into(), nick: None, text: "x".into(), kind: Kind::Status });
    app.push("#b", Msg { ts: "t".into(), nick: None, text: "hey me".into(), kind: Kind::Status });
    app.apply_at(Event::Names { buffer: "#c".into(), nicks: vec![] }, "t".into());
    let line = tab_spans(&app);
    assert_eq!(texts(&line), vec![" 1:*status* ", "", " 2:#a ", "", " 3:#b ", "", " 4:#c ", ""]);
    assert_eq!(line.spans[0].style, Style { fg: Some(Color::Black), bg: Some(Color::Cyan), bold: false });
    assert_eq!(line.spans[2].style, fg(Color::Yellow));
    assert_eq!(line.spans[4].style, Style { fg: Some(Color::Black), bg: Some(Color::Red), bold: false });
    assert_eq!(line.spans[6].style, fg(Color::DarkGray));
    assert_eq!(line.spans[1].style, PLAIN);
}

#[test]
fn nick_list_and_title() {
    let mut app = App::new("me");
    app.buffers[0].nicks = vec!["@alice".into(), "+bob".into(), "carol".into()];
    let lines = nick_lines(&app);
    assert_eq!(lines.len(), 3);
    assert_eq!(texts(&lines[0]), vec!["@alice"]);
    assert_eq!(lines[0].spans[0].style, fg(Color::Red));
    assert_eq!(lines[1].spans[0].style, fg(Color::Cyan));
    assert_eq!(nicklist_title(&app), " 3 ");
}

#[test]
fn prompt_and_cursor() {
    let mut app = App::new("me");
    app.input = "hi".into();
    app.cursor = 2;
    let line = prompt_line(&app);
    assert_eq!(texts(&line), vec!["[me] ", "hi"]);
    assert_eq!(line.spans[0].style, Style { fg: None, bg: None, bold: true });
    assert_eq!(cursor_column(3, &app), 3 + 5 + 2);
}

#[test]
fn screen_layout() {
    let p = layout(Area { x: 0, y: 0, width: 80, height: 24 });
    assert_eq!(
        p,
        Panes {
            tabs: Area { x: 0, y: 0, width: 80, height: 1 },
            chat: Area { x: 0, y: 1, width: 62, height: 22 },
            nicklist: Area { x: 62, y: 1, width: 18, height: 22 },
            prompt: Area { x: 0, y: 23, width: 80, height: 1 },
        }
    );
}

#[test]
fn scripted_server_events() {
    let evs = fake_greeting();
    assert_eq!(evs.len(), 2);
    match &evs[1] {
        Event::Names { buffer, nicks } => {
            assert_eq!(buffer, "#rust");
            assert_eq!(nicks, &vec!["@alice", "+bob", "carol", "dave"]);
        }
        other => panic!("unexpected {:?}", other),
    }
    match fake_line(5) {
        Event::Line { buffer, nick, text } => {
            assert_eq!(buffer, "#rust");
            assert_eq!(nick, "bob");
            assert!(text.starts_with("me: "));
        }
        other => panic!("unexpected {:?}", other),
    }
}

#[test]
fn chat_view_scrolls_and_limits() {
    let msgs: Vec<Msg> = (0..30)
        .map(|i| Msg { ts: "t".into(), nick: None, text: i.to_string(), kind: Kind::Status })
        .collect();
    let mut app = app_with(msgs);
    let a = area(80, 12);
    assert_eq!(max_scroll(&app, a), 20);
    let v = chat_view(&app, a);
    assert_eq!(v.len(), 10);
    assert_eq!(v[0].spans[2].text, "20");
    assert_eq!(v[9].spans[2].text, "29");
    app.buffers[0].scroll = 5;
    let v = chat_view(&app, a);
    assert_eq!(v[0].spans[2].text, "15");
    assert_eq!(v[9].spans[2].text, "24");
    app.buffers[0].scroll = 100;
    let v = chat_view(&app, a);
    assert_eq!(v.len(), 1);
    assert_eq!(v[0].spans[2].text, "0");
}

#[test]
fn panes_are_assigned_from_splits() {
    let rows = vec![
        Area { x: 0, y: 0, width: 10, height: 1 },
        Area { x: 0, y: 1, width: 10, height: 5 },
        Area { x: 0, y: 6, width: 10, height: 1 },
    ];
    let cols = vec![Area { x: 0, y: 1, width: 4, height: 5 }, Area { x: 4, y: 1, width: 6, height: 5 }];
    let p = panes_of(&rows, &cols);
    assert_eq!(p.tabs, rows[0]);
    assert_eq!(p.prompt, rows[2]);
    assert_eq!(p.chat, cols[0]);
    assert_eq!(p.nicklist, cols[1]);
}

#[test]
fn small_layouts_stay_inside_the_terminal() {
    for h in 0..4u16 {
        let a = Area { x: 2, y: 3, width: 30, height: h };
        let p = layout(a);
        for pane in [p.tabs, p.chat, p.nicklist, p.prompt] {
            assert!(pane.x >= a.x && pane.y >= a.y);
            assert!(pane.x + pane.width <= a.x + a.width);
            assert!(pane.y + pane.height <= a.y + a.height);
        }
        assert_eq!(p.tabs.width, 30);
        assert_eq!(p.chat.y, p.nicklist.y);
    }
}

#[test]
fn wrap_keeps_every_visible_character() {
    let text = "one\u{00A0}two three\tfour  fivesixseven";
    let lines = wrap(text, 5);
    let joined: String = lines.concat().chars().filter(|c| !c.is_whitespace()).collect();
    let original: String = text.chars().filter(|c| !c.is_whitespace()).collect();
    assert_eq!(joined, original);
    for w in lines.windows(2) {
        assert!(w[0].chars().count() + 1 + w[1].chars().count() > 5);
    }
}

#[test]
fn chat_lines_fit_the_pane() {
    let mut app = App::new("me");
    app.buffers[0].msgs = vec![
        Msg { ts: "12:34".into(), nick: Some("alice".into()), text: "abc".into(), kind: Kind::Privmsg },
        Msg {
            ts: "12:35".into(),
            nick: Some("bob".into()),
            text: "aaa bbb ccc ddd eee fff ggg hhh".into(),
            kind: Kind::Action,
        },
    ];
    let a = area(40, 10);
    let inner = 40 - 18 - 1;
    for line in chat_view(&app, a) {
        let n: usize = line.spans.iter().map(|s| s.text.chars().count()).sum();
        assert!(n <= inner);
    }
    let first = &render_lines(&app, chat_width(a))[0];
    let n: usize = first.spans.iter().map(|s| s.text.chars().count()).sum();
    assert_eq!(n, 18 + 3);
}

#[test]
fn whitespace_matches_std_for_every_char() {
    for v in 0u32..=0x10FFFF {
        if let Some(c) = char::from_u32(v) {
            assert_eq!(irc_tui::text::is_whitespace(c), c.is_whitespace(), "U+{:04X}", v);
        }
    }
}
