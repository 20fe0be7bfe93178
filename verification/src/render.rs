//! The styled lines that make up the screen: scrollback, tab bar, nick list
//! and prompt.

use vstd::prelude::*;
use vstd::string::*;
use crate::app::{App, AppView, Kind, Msg, MsgView};
use crate::nicks::strings_view;
use crate::text::{chars_of, copy_str, string_of, strip_sigils, strip_sigils_of};
use crate::ui::{
    chat_height, chat_height_spec, chat_width, chat_width_spec, sat_sub, visible_range, visible_range_spec, Area, decimal, decimal_spec, fg, nick_color, nick_color_spec, pad_left, plain, spaces, truncate,
    truncated, Color, Style, GUTTER, LABEL_W,
};
use crate::wrap::{wrap, wrap_spec};

verus! {

/// A run of text in one style.
pub struct StyledSpan {
    pub text: String,
    pub style: Style,
}

/// A line of styled runs.
pub struct StyledLine {
    pub spans: Vec<StyledSpan>,
}

pub struct SpanView {
    pub text: Seq<char>,
    pub style: Style,
}

impl View for StyledSpan {
    type V = SpanView;

    open spec fn view(&self) -> SpanView {
        SpanView { text: self.text@, style: self.style }
    }
}

impl View for StyledLine {
    type V = Seq<SpanView>;

    open spec fn view(&self) -> Seq<SpanView> {
        self.spans@.map_values(|s: StyledSpan| s@)
    }
}

pub open spec fn lines_view(v: Seq<StyledLine>) -> Seq<Seq<SpanView>> {
    v.map_values(|l: StyledLine| l@)
}

pub open spec fn span(text: Seq<char>, style: Style) -> SpanView {
    SpanView { text, style }
}

/// The nick of a message, or nothing.
pub open spec fn msg_nick(m: MsgView) -> Seq<char> {
    match m.nick {
        Some(n) => n,
        None => Seq::empty(),
    }
}

/// What the gutter shows for a message: `<nick>`, `*` for an action, `--`
/// for a status line.
pub open spec fn msg_label(m: MsgView) -> Seq<char> {
    match m.kind {
        Kind::Privmsg => "<"@ + msg_nick(m) + ">"@,
        Kind::Action => "*"@,
        Kind::Status => "--"@,
    }
}

/// The style of the gutter label: the nick's colour, or grey for status.
pub open spec fn label_style(m: MsgView) -> Style {
    match m.kind {
        Kind::Status => fg(Color::DarkGray),
        _ => fg(nick_color_spec(msg_nick(m))),
    }
}

/// The style of the message text.
pub open spec fn body_style(m: MsgView) -> Style {
    match m.kind {
        Kind::Privmsg => plain(),
        Kind::Action => fg(Color::Magenta),
        Kind::Status => fg(Color::DarkGray),
    }
}

/// The text of a message as shown: an action is preceded by its nick.
pub open spec fn msg_body(m: MsgView) -> Seq<char> {
    match m.kind {
        Kind::Action => msg_nick(m) + " "@ + m.text,
        _ => m.text,
    }
}

/// The screen lines of one message: the first carries the time stamp and
/// the right-aligned label, the others an empty gutter.
pub open spec fn msg_lines(m: MsgView, width: nat) -> Seq<Seq<SpanView>> {
    let chunks = wrap_spec(msg_body(m), width);
    Seq::new(
        chunks.len(),
        |i: int|
            if i == 0 {
                seq![
                    span(m.ts + " "@, fg(Color::DarkGray)),
                    span(pad_left(truncated(msg_label(m), LABEL_W as nat), LABEL_W as nat) + " "@, label_style(m)),
                    span(chunks[0], body_style(m)),
                ]
            } else {
                seq![span(spaces(GUTTER as nat), plain()), span(chunks[i], body_style(m))]
            },
    )
}

/// The screen lines of a scrollback, oldest first.
pub open spec fn render_spec(msgs: Seq<MsgView>, width: nat) -> Seq<Seq<SpanView>>
    decreases msgs.len(),
{
    if msgs.len() == 0 {
        Seq::empty()
    } else {
        render_spec(msgs.drop_last(), width) + msg_lines(msgs.last(), width)
    }
}

fn styled(text: String, style: Style) -> (s: StyledSpan)
    ensures
        s@ == span(text@, style),
{
    StyledSpan { text, style }
}

fn padded_label(label: &str) -> (s: String)
    ensures
        s@ == pad_left(truncated(label@, LABEL_W as nat), LABEL_W as nat) + " "@,
{
    let t = truncate(label, LABEL_W);
    let n = chars_of(t.as_str()).len();
    let mut s = String::new();
    if n < LABEL_W {
        let mut i: usize = 0;
        while i < LABEL_W - n
            invariant
                i <= LABEL_W - n,
                s@ == spaces(i as nat),
            decreases LABEL_W - n - i,
        {
            crate::text::push_char(&mut s, ' ');
            proof {
                assert(spaces((i + 1) as nat) == spaces(i as nat).push(' '));
            }
            i = i + 1;
        }
    }
    s.append(t.as_str());
    s.append(" ");
    proof {
        if n >= LABEL_W {
            assert(s@ == t@ + " "@);
        } else {
            assert(spaces((LABEL_W - n) as nat) == Seq::new(
                (LABEL_W - t@.len()) as nat,
                |i: int| ' ',
            ));
        }
    }
    s
}

fn gutter() -> (s: String)
    ensures
        s@ == spaces(GUTTER as nat),
{
    let mut s = String::new();
    let mut i: usize = 0;
    while i < GUTTER
        invariant
            i <= GUTTER,
            s@ == spaces(i as nat),
        decreases GUTTER - i,
    {
        crate::text::push_char(&mut s, ' ');
        proof {
            assert(spaces((i + 1) as nat) == spaces(i as nat).push(' '));
        }
        i = i + 1;
    }
    s
}

fn msg_nick_of(m: &Msg) -> (n: String)
    ensures
        n@ == msg_nick(m@),
{
    match &m.nick {
        Some(n) => n.clone(),
        None => String::new(),
    }
}

fn push_styled_line(out: &mut Vec<StyledLine>, spans: Vec<StyledSpan>)
    ensures
        lines_view(final(out)@) == lines_view(old(out)@).push(spans@.map_values(|s: StyledSpan| s@)),
{
    let ghost prev = out@;
    let l = StyledLine { spans };
    let ghost lv = l@;
    out.push(l);
    proof {
        assert(lines_view(out@) =~= lines_view(prev).push(lv));
    }
}

fn render_msg(out: &mut Vec<StyledLine>, m: &Msg, width: usize)
    ensures
        lines_view(final(out)@) == lines_view(old(out)@) + msg_lines(m@, width as nat),
{
    let n = msg_nick_of(m);
    let (label, lstyle, bstyle) = match m.kind {
        Kind::Privmsg => {
            let mut l = copy_str("<");
            l.append(n.as_str());
            l.append(">");
            (l, Style { fg: Some(nick_color(n.as_str())), bg: None, bold: false }, Style {
                fg: None,
                bg: None,
                bold: false,
            })
        },
        Kind::Action => (
            copy_str("*"),
            Style { fg: Some(nick_color(n.as_str())), bg: None, bold: false },
            Style { fg: Some(Color::Magenta), bg: None, bold: false },
        ),
        Kind::Status => (
            copy_str("--"),
            Style { fg: Some(Color::DarkGray), bg: None, bold: false },
            Style { fg: Some(Color::DarkGray), bg: None, bold: false },
        ),
    };
    let body = match m.kind {
        Kind::Action => {
            let mut b = n.clone();
            b.append(" ");
            b.append(m.text.as_str());
            b
        },
        _ => m.text.clone(),
    };
    proof {
        assert(label@ == msg_label(m@));
        assert(lstyle == label_style(m@));
        assert(bstyle == body_style(m@));
        assert(body@ == msg_body(m@));
    }
    let chunks = wrap(body.as_str(), width);
    let ghost expected = msg_lines(m@, width as nat);
    let ghost start = lines_view(out@);
    let mut i: usize = 0;
    while i < chunks.len()
        invariant
            i <= chunks@.len(),
            strings_view(chunks@) == wrap_spec(msg_body(m@), width as nat),
            expected == msg_lines(m@, width as nat),
            label@ == msg_label(m@),
            lstyle == label_style(m@),
            bstyle == body_style(m@),
            lines_view(out@) == start + expected.take(i as int),
        decreases chunks@.len() - i,
    {
        let mut spans: Vec<StyledSpan> = Vec::new();
        if i == 0 {
            let mut t = m.ts.clone();
            t.append(" ");
            spans.push(styled(t, Style { fg: Some(Color::DarkGray), bg: None, bold: false }));
            spans.push(styled(padded_label(label.as_str()), lstyle));
        } else {
            spans.push(styled(gutter(), Style { fg: None, bg: None, bold: false }));
        }
        let ghost before = spans@;
        spans.push(styled(chunks[i].clone(), bstyle));
        proof {
            assert(strings_view(chunks@)[i as int] == chunks@[i as int]@);
            assert(spans@.map_values(|s: StyledSpan| s@) =~= expected[i as int]);
        }
        push_styled_line(out, spans);
        proof {
            assert(expected.take(i + 1) == expected.take(i as int).push(expected[i as int]));
            assert(lines_view(out@) =~= start + expected.take(i + 1));
        }
        i = i + 1;
    }
    proof {
        assert(expected.take(chunks@.len() as int) == expected);
    }
}

/// The screen lines of the current buffer's scrollback, with message text
/// wrapped to `width` columns.
pub fn render_lines(app: &App, width: usize) -> (lines: Vec<StyledLine>)
    requires
        crate::app::has_current(app@),
    ensures
        lines_view(lines@) == render_spec(app@.buffers[app.current as int].msgs, width as nat),
{
    let msgs = &app.buf().msgs;
    let ghost mv = msgs@.map_values(|m: Msg| m@);
    let mut out: Vec<StyledLine> = Vec::new();
    let mut i: usize = 0;
    proof {
        assert(lines_view(out@) =~= Seq::<Seq<SpanView>>::empty());
        assert(mv.take(0) =~= Seq::<MsgView>::empty());
    }
    while i < msgs.len()
        invariant
            i <= msgs@.len(),
            mv == msgs@.map_values(|m: Msg| m@),
            lines_view(out@) == render_spec(mv.take(i as int), width as nat),
        decreases msgs@.len() - i,
    {
        render_msg(&mut out, &msgs[i], width);
        proof {
            assert(mv.take(i + 1).drop_last() == mv.take(i as int));
            assert(mv.take(i + 1).last() == msgs@[i as int]@);
        }
        i = i + 1;
    }
    proof {
        assert(mv.take(msgs@.len() as int) == mv);
    }
    out
}

/// How far the current buffer can scroll back in a terminal of this size:
/// the screen lines of its scrollback beyond one pane.
pub fn max_scroll(app: &App, area: Area) -> (m: usize)
    requires
        crate::app::has_current(app@),
    ensures
        m == sat_sub(
            render_spec(app@.buffers[app@.current as int].msgs, chat_width_spec(area) as nat).len() as int,
            chat_height_spec(area),
        ),
{
    let total = render_lines(app, chat_width(area)).len();
    total.saturating_sub(chat_height(area))
}

/// The lines the chat pane shows: the current buffer's screen lines,
/// scrolled back by its scroll offset, as many as fit.
pub fn chat_view(app: &App, area: Area) -> (lines: Vec<StyledLine>)
    requires
        crate::app::has_current(app@),
    ensures
        ({
            let all = render_spec(app@.buffers[app@.current as int].msgs, chat_width_spec(area) as nat);
            let (start, end) = visible_range_spec(
                all.len(),
                app@.buffers[app@.current as int].scroll as nat,
                chat_height_spec(area) as nat,
            );
            lines_view(lines@) == all.subrange(start as int, end as int)
        }),
        chat_width_spec(area) > 0 && stamps_ok(app@.buffers[app@.current as int].msgs)
            ==> lines_within(lines_view(lines@), (GUTTER + chat_width_spec(area)) as nat),
{
    let mut all = render_lines(app, chat_width(area));
    let (start, end) = visible_range(all.len(), app.buf().scroll, chat_height(area));
    let ghost whole = lines_view(all@);
    let tail = all.split_off(start);
    let mut view = tail;
    view.truncate(end - start);
    proof {
        assert(lines_view(view@) =~= whole.subrange(start as int, end as int));
        let msgs = app@.buffers[app@.current as int].msgs;
        if chat_width_spec(area) > 0 && stamps_ok(msgs) {
            rendered_lines_fit(msgs, chat_width_spec(area) as nat);
            assert forall|i: int| 0 <= i < lines_view(view@).len() implies line_width(
                #[trigger] lines_view(view@)[i],
            ) <= GUTTER + chat_width_spec(area) by {
                assert(lines_view(view@)[i] == whole[start + i]);
            }
        }
    }
    view
}

/// The number of characters of a styled line.
pub open spec fn line_width(l: Seq<SpanView>) -> nat
    decreases l.len(),
{
    if l.len() == 0 {
        0
    } else {
        line_width(l.drop_last()) + l.last().text.len()
    }
}

/// Every line has at most `w` characters.
pub open spec fn lines_within(lines: Seq<Seq<SpanView>>, w: nat) -> bool {
    forall|i: int| 0 <= i < lines.len() ==> line_width(#[trigger] lines[i]) <= w
}

/// Every message carries a five-character time stamp, as `timestamp` makes.
pub open spec fn stamps_ok(msgs: Seq<MsgView>) -> bool {
    forall|i: int| 0 <= i < msgs.len() ==> (#[trigger] msgs[i]).ts.len() == 5
}

proof fn lemma_msg_lines_fit(m: MsgView, width: nat)
    requires
        width > 0,
        m.ts.len() == 5,
    ensures
        lines_within(msg_lines(m, width), (GUTTER + width) as nat),
{
    crate::wrap::wrap_lines_fit(msg_body(m), width);
    let chunks = wrap_spec(msg_body(m), width);
    let lines = msg_lines(m, width);
    reveal_strlit(" ");
    assert(" "@.len() == 1);
    let label = truncated(msg_label(m), LABEL_W as nat);
    assert(label.len() <= LABEL_W);
    assert(pad_left(label, LABEL_W as nat).len() == LABEL_W);
    assert forall|i: int| 0 <= i < lines.len() implies line_width(#[trigger] lines[i]) <= GUTTER
        + width by {
        let l = lines[i];
        assert(chunks[i].len() <= width);
        if i == 0 {
            let l1 = l.drop_last().drop_last();
            assert(l1.drop_last() =~= Seq::<SpanView>::empty());
            assert(l1.last() == l[0]);
            assert(l[0].text == m.ts + " "@);
            assert(line_width(l1) == line_width(l1.drop_last()) + l1.last().text.len());
            assert(line_width(l1) == 6);
            assert(l.drop_last().last() == l[1]);
            assert(l[1].text.len() == LABEL_W + 1);
            assert(line_width(l.drop_last()) == 6 + LABEL_W + 1);
        } else {
            let l1 = l.drop_last();
            assert(l1.drop_last() =~= Seq::<SpanView>::empty());
            assert(l1.last() == l[0]);
            assert(l[0].text == spaces(GUTTER as nat));
            assert(line_width(l1) == line_width(l1.drop_last()) + l1.last().text.len());
            assert(line_width(l1) == GUTTER);
        }
    }
}

/// With a positive text width and five-character time stamps, no screen
/// line of a scrollback is wider than the gutter and the text width.
pub proof fn rendered_lines_fit(msgs: Seq<MsgView>, width: nat)
    requires
        width > 0,
        stamps_ok(msgs),
    ensures
        lines_within(render_spec(msgs, width), (GUTTER + width) as nat),
    decreases msgs.len(),
{
    if msgs.len() > 0 {
        let rest = msgs.drop_last();
        assert(stamps_ok(rest)) by {
            assert forall|i: int| 0 <= i < rest.len() implies (#[trigger] rest[i]).ts.len()
                == 5 by {
                assert(rest[i] == msgs[i]);
            }
        }
        rendered_lines_fit(rest, width);
        lemma_msg_lines_fit(msgs.last(), width);
        let a = render_spec(rest, width);
        let b = msg_lines(msgs.last(), width);
        assert forall|i: int| 0 <= i < (a + b).len() implies line_width(#[trigger] (a + b)[i])
            <= GUTTER + width by {
            if i < a.len() {
                assert((a + b)[i] == a[i]);
            } else {
                assert((a + b)[i] == b[i - a.len()]);
            }
        }
    }
}

/// The style of the tab of buffer `i`: the current one stands out, then
/// highlighted, then unread ones.
pub open spec fn tab_style(a: AppView, i: int) -> Style {
    if i == a.current {
        Style { fg: Some(Color::Black), bg: Some(Color::Cyan), bold: false }
    } else if a.buffers[i].highlight {
        Style { fg: Some(Color::Black), bg: Some(Color::Red), bold: false }
    } else if a.buffers[i].unread {
        fg(Color::Yellow)
    } else {
        fg(Color::DarkGray)
    }
}

/// The tab of buffer `i`: its number, counting from one, and its name.
pub open spec fn tab_label(i: int, name: Seq<char>) -> Seq<char> {
    " "@ + decimal_spec((i + 1) as nat) + ":"@ + name + " "@
}

/// The spans of the tabs of the first `n` buffers.
pub open spec fn tabs_spec(a: AppView, n: nat) -> Seq<SpanView>
    decreases n,
{
    if n == 0 {
        Seq::empty()
    } else {
        let i = n - 1;
        tabs_spec(a, i as nat) + seq![
            span(tab_label(i, a.buffers[i].name), tab_style(a, i)),
            span(Seq::empty(), plain()),
        ]
    }
}

/// The tab bar: one tab per buffer.
pub fn tab_spans(app: &App) -> (line: StyledLine)
    ensures
        line@ == tabs_spec(app@, app@.buffers.len()),
{
    let mut spans: Vec<StyledSpan> = Vec::new();
    let mut i: usize = 0;
    proof {
        assert(spans@.map_values(|s: StyledSpan| s@) =~= Seq::<SpanView>::empty());
    }
    while i < app.buffers.len()
        invariant
            i <= app.buffers@.len(),
            spans@.map_values(|s: StyledSpan| s@) == tabs_spec(app@, i as nat),
        decreases app.buffers@.len() - i,
    {
        let b = &app.buffers[i];
        let style = if i == app.current {
            Style { fg: Some(Color::Black), bg: Some(Color::Cyan), bold: false }
        } else if b.highlight {
            Style { fg: Some(Color::Black), bg: Some(Color::Red), bold: false }
        } else if b.unread {
            Style { fg: Some(Color::Yellow), bg: None, bold: false }
        } else {
            Style { fg: Some(Color::DarkGray), bg: None, bold: false }
        };
        let mut label = copy_str(" ");
        label.append(decimal(i + 1).as_str());
        label.append(":");
        label.append(b.name.as_str());
        label.append(" ");
        let ghost prev = spans@;
        spans.push(styled(label, style));
        spans.push(styled(String::new(), Style { fg: None, bg: None, bold: false }));
        proof {
            assert(app@.buffers[i as int] == b@);
            assert(spans@.map_values(|s: StyledSpan| s@) =~= prev.map_values(|s: StyledSpan| s@)
                + seq![
                span(tab_label(i as int, app@.buffers[i as int].name), tab_style(app@, i as int)),
                span(Seq::empty(), plain()),
            ]);
        }
        i = i + 1;
    }
    StyledLine { spans }
}

/// The lines of the nick list: each nick in the colour of its bare name.
pub open spec fn nick_lines_spec(nicks: Seq<Seq<char>>) -> Seq<Seq<SpanView>> {
    Seq::new(
        nicks.len(),
        |i: int| seq![span(nicks[i], fg(nick_color_spec(strip_sigils(nicks[i]))))],
    )
}

/// The nick list of the current buffer, one nick per line.
pub fn nick_lines(app: &App) -> (lines: Vec<StyledLine>)
    requires
        crate::app::has_current(app@),
    ensures
        lines_view(lines@) == nick_lines_spec(app@.buffers[app.current as int].nicks),
{
    let nicks = &app.buf().nicks;
    let ghost nv = strings_view(nicks@);
    let mut out: Vec<StyledLine> = Vec::new();
    let mut i: usize = 0;
    while i < nicks.len()
        invariant
            i <= nicks@.len(),
            nv == strings_view(nicks@),
            lines_view(out@) == nick_lines_spec(nv).take(i as int),
        decreases nicks@.len() - i,
    {
        let n = &nicks[i];
        let bare = strip_sigils_of(&chars_of(n.as_str()));
        let bare_s = string_of(&bare, 0, bare.len());
        let color = nick_color(bare_s.as_str());
        let mut spans: Vec<StyledSpan> = Vec::new();
        spans.push(styled(n.clone(), Style { fg: Some(color), bg: None, bold: false }));
        proof {
            assert(bare@.subrange(0, bare@.len() as int) == bare@);
            assert(nv[i as int] == n@);
            assert(spans@.map_values(|s: StyledSpan| s@) =~= nick_lines_spec(nv)[i as int]);
        }
        let ghost prev = lines_view(out@);
        push_styled_line(&mut out, spans);
        proof {
            assert(lines_view(out@) =~= nick_lines_spec(nv).take(i + 1));
        }
        i = i + 1;
    }
    proof {
        assert(nick_lines_spec(nv).take(nicks@.len() as int) =~= nick_lines_spec(nv));
    }
    out
}

/// The title of the nick list: how many nicks there are.
pub fn nicklist_title(app: &App) -> (t: String)
    requires
        crate::app::has_current(app@),
    ensures
        t@ == " "@ + decimal_spec(app@.buffers[app.current as int].nicks.len()) + " "@,
{
    let mut t = copy_str(" ");
    t.append(decimal(app.buf().nicks.len()).as_str());
    t.append(" ");
    t
}

/// The prompt before the input line: the user's nick in brackets.
pub open spec fn prompt_text(nick: Seq<char>) -> Seq<char> {
    "["@ + nick + "] "@
}

/// The input line: the bold prompt, then the text typed so far.
pub fn prompt_line(app: &App) -> (line: StyledLine)
    ensures
        line@ == seq![
            span(prompt_text(app@.nick), Style { fg: None, bg: None, bold: true }),
            span(app@.input, plain()),
        ],
{
    let mut p = copy_str("[");
    p.append(app.nick.as_str());
    p.append("] ");
    let mut spans: Vec<StyledSpan> = Vec::new();
    spans.push(styled(p, Style { fg: None, bg: None, bold: true }));
    spans.push(styled(app.input.clone(), Style { fg: None, bg: None, bold: false }));
    proof {
        assert(spans@.map_values(|s: StyledSpan| s@) =~= seq![
            span(prompt_text(app@.nick), Style { fg: None, bg: None, bold: true }),
            span(app@.input, plain()),
        ]);
    }
    StyledLine { spans }
}

/// The screen column of the cursor on a prompt line that starts at column
/// `x`: past the prompt's characters and then `cursor` more.
pub open spec fn cursor_column_spec(x: u16, nick: Seq<char>, cursor: usize) -> int {
    x + ((nick.len() + 3 + cursor) as u16)
}

/// The screen column of the cursor.
pub fn cursor_column(x: u16, app: &App) -> (c: u16)
    requires
        app@.nick.len() + 3 + app.cursor <= usize::MAX,
        cursor_column_spec(x, app@.nick, app.cursor) <= u16::MAX,
    ensures
        c == cursor_column_spec(x, app@.nick, app.cursor),
{
    let n = chars_of(app.nick.as_str()).len() + 3;
    x + ((n + app.cursor) as u16)
}

} // verus!
