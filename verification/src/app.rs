//! The client's state: buffers with their scrollback and nick lists, the
//! input line, and the events that change them.

use vstd::prelude::*;
use crate::text::{chars_of, contains_chars, contains_seq, copy_str, lowercase, to_lowercase};
use crate::nicks::{stable_sort_of, lemma_filter_sorted, nicks_sorted, copy_nick, has_nick, sort_nicks, sorted_nicks, strings_view, without_nick};
use crate::clock::{is_clock_text, timestamp};
use vstd::string::*;

verus! {

/// Something that happened on the connection, addressed to a buffer.
#[derive(Debug)]
pub enum Event {
    Line { buffer: String, nick: String, text: String },
    Action { buffer: String, nick: String, text: String },
    Status { buffer: String, text: String },
    Names { buffer: String, nicks: Vec<String> },
    Join { buffer: String, nick: String },
    Part { buffer: String, nick: String },
}

/// How a message is shown.
#[derive(Clone, Copy, PartialEq, Eq, Structural, Debug)]
pub enum Kind {
    Privmsg,
    Action,
    Status,
}

/// One line of scrollback.
pub struct Msg {
    pub ts: String,
    pub nick: Option<String>,
    pub text: String,
    pub kind: Kind,
}

/// A channel, query or status window.
pub struct Buffer {
    pub name: String,
    pub msgs: Vec<Msg>,
    pub nicks: Vec<String>,
    pub scroll: usize,
    pub unread: bool,
    pub highlight: bool,
}

/// The whole client.
pub struct App {
    pub nick: String,
    pub buffers: Vec<Buffer>,
    pub current: usize,
    pub input: String,
    pub cursor: usize,
    pub quit: bool,
}

// ---------------------------------------------------------------------------
// Mathematical model
// ---------------------------------------------------------------------------

pub enum EventView {
    Line { buffer: Seq<char>, nick: Seq<char>, text: Seq<char> },
    Action { buffer: Seq<char>, nick: Seq<char>, text: Seq<char> },
    Status { buffer: Seq<char>, text: Seq<char> },
    Names { buffer: Seq<char>, nicks: Seq<Seq<char>> },
    Join { buffer: Seq<char>, nick: Seq<char> },
    Part { buffer: Seq<char>, nick: Seq<char> },
}

pub struct MsgView {
    pub ts: Seq<char>,
    pub nick: Option<Seq<char>>,
    pub text: Seq<char>,
    pub kind: Kind,
}

pub struct BufferView {
    pub name: Seq<char>,
    pub msgs: Seq<MsgView>,
    pub nicks: Seq<Seq<char>>,
    pub scroll: usize,
    pub unread: bool,
    pub highlight: bool,
}

pub struct AppView {
    pub nick: Seq<char>,
    pub buffers: Seq<BufferView>,
    pub current: usize,
    pub input: Seq<char>,
    pub cursor: usize,
    pub quit: bool,
}

pub open spec fn opt_str_view(o: Option<String>) -> Option<Seq<char>> {
    match o {
        Some(s) => Some(s@),
        None => None,
    }
}

impl View for Msg {
    type V = MsgView;

    open spec fn view(&self) -> MsgView {
        MsgView { ts: self.ts@, nick: opt_str_view(self.nick), text: self.text@, kind: self.kind }
    }
}

impl View for Buffer {
    type V = BufferView;

    open spec fn view(&self) -> BufferView {
        BufferView {
            name: self.name@,
            msgs: self.msgs@.map_values(|m: Msg| m@),
            nicks: strings_view(self.nicks@),
            scroll: self.scroll,
            unread: self.unread,
            highlight: self.highlight,
        }
    }
}

impl View for App {
    type V = AppView;

    open spec fn view(&self) -> AppView {
        AppView {
            nick: self.nick@,
            buffers: self.buffers@.map_values(|b: Buffer| b@),
            current: self.current,
            input: self.input@,
            cursor: self.cursor,
            quit: self.quit,
        }
    }
}

impl View for Event {
    type V = EventView;

    open spec fn view(&self) -> EventView {
        match self {
            Event::Line { buffer, nick, text } => EventView::Line {
                buffer: buffer@,
                nick: nick@,
                text: text@,
            },
            Event::Action { buffer, nick, text } => EventView::Action {
                buffer: buffer@,
                nick: nick@,
                text: text@,
            },
            Event::Status { buffer, text } => EventView::Status { buffer: buffer@, text: text@ },
            Event::Names { buffer, nicks } => EventView::Names {
                buffer: buffer@,
                nicks: strings_view(nicks@),
            },
            Event::Join { buffer, nick } => EventView::Join { buffer: buffer@, nick: nick@ },
            Event::Part { buffer, nick } => EventView::Part { buffer: buffer@, nick: nick@ },
        }
    }
}

/// Most messages a buffer keeps after an append.
pub open spec fn scrollback_limit() -> nat {
    5000
}

/// An empty buffer with this name.
pub open spec fn new_buffer(name: Seq<char>) -> BufferView {
    BufferView {
        name,
        msgs: Seq::empty(),
        nicks: Seq::empty(),
        scroll: 0,
        unread: false,
        highlight: false,
    }
}

/// The state of a freshly started client.
pub open spec fn initial_app(nick: Seq<char>) -> AppView {
    AppView {
        nick,
        buffers: seq![new_buffer("*status*"@)],
        current: 0,
        input: Seq::empty(),
        cursor: 0,
        quit: false,
    }
}

/// `i` is the first buffer called `name`.
pub open spec fn is_first_named(bufs: Seq<BufferView>, name: Seq<char>, i: int) -> bool {
    &&& 0 <= i < bufs.len()
    &&& bufs[i].name == name
    &&& forall|j: int| 0 <= j < i ==> #[trigger] bufs[j].name != name
}

/// Where the buffer called `name` is, or will be once it is created.
pub open spec fn slot(bufs: Seq<BufferView>, name: Seq<char>) -> int {
    if exists|i: int| is_first_named(bufs, name, i) {
        choose|i: int| is_first_named(bufs, name, i)
    } else {
        bufs.len() as int
    }
}

/// The buffers, with one called `name` added at the end if none was.
pub open spec fn with_buffer(bufs: Seq<BufferView>, name: Seq<char>) -> Seq<BufferView> {
    if slot(bufs, name) < bufs.len() {
        bufs
    } else {
        bufs.push(new_buffer(name))
    }
}

/// A scrollback after an append: past the limit, the oldest thousand go.
pub open spec fn capped(msgs: Seq<MsgView>) -> Seq<MsgView> {
    if msgs.len() > scrollback_limit() {
        msgs.skip(1000)
    } else {
        msgs
    }
}

/// Whether a message text mentions the nick, ignoring case.
pub open spec fn mentions(text: Seq<char>, nick: Seq<char>) -> bool {
    contains_seq(lowercase(text), lowercase(nick))
}

/// The client after `m` is appended to the buffer called `target`.
pub open spec fn push_spec(a: AppView, target: Seq<char>, m: MsgView) -> AppView {
    let is_current = a.buffers[a.current as int].name == target;
    let bufs = with_buffer(a.buffers, target);
    let i = slot(a.buffers, target);
    let b = bufs[i];
    let b2 = BufferView {
        msgs: capped(b.msgs.push(m)),
        unread: if is_current {
            b.unread
        } else {
            true
        },
        highlight: if is_current {
            b.highlight
        } else {
            b.highlight || mentions(m.text, a.nick)
        },
        ..b
    };
    AppView { buffers: bufs.update(i, b2), ..a }
}

/// The client after switching to buffer `i`; nothing changes when there is
/// no such buffer.
pub open spec fn switch_spec(a: AppView, i: int) -> AppView {
    if 0 <= i < a.buffers.len() {
        AppView {
            current: i as usize,
            buffers: a.buffers.update(
                i,
                BufferView { unread: false, highlight: false, ..a.buffers[i] },
            ),
            ..a
        }
    } else {
        a
    }
}

/// The buffer `delta` places after the current one, wrapping around.
pub open spec fn cycled(a: AppView, delta: int) -> int {
    ((a.current as isize) as int + delta) % (a.buffers.len() as int)
}

/// `v` limited to the range `[lo, hi]`.
pub open spec fn clamp(v: int, lo: int, hi: int) -> int {
    if v < lo {
        lo
    } else if v > hi {
        hi
    } else {
        v
    }
}

/// The current buffer's scroll offset after a scroll by `delta`.
pub open spec fn scrolled(scroll: usize, delta: int, max: usize) -> usize {
    clamp((scroll as isize) as int + delta, 0, max as int) as usize
}

/// The client after the current buffer is scrolled by `delta` lines.
pub open spec fn scroll_spec(a: AppView, delta: int, max: usize) -> AppView {
    let b = a.buffers[a.current as int];
    AppView {
        buffers: a.buffers.update(
            a.current as int,
            BufferView { scroll: scrolled(b.scroll, delta, max), ..b },
        ),
        ..a
    }
}

/// `v` is a value of `isize`.
pub open spec fn fits_isize(v: int) -> bool {
    isize::MIN <= v && v <= isize::MAX
}

/// Every nick list is in nick-list order.
pub open spec fn all_nicks_sorted(a: AppView) -> bool {
    forall|i: int| 0 <= i < a.buffers.len() ==> nicks_sorted(#[trigger] a.buffers[i].nicks)
}

/// The client's current buffer exists.
pub open spec fn has_current(a: AppView) -> bool {
    a.current < a.buffers.len()
}


/// The nick list of the buffer called `buffer`, once it exists.
pub open spec fn nicks_of(a: AppView, buffer: Seq<char>) -> Seq<Seq<char>> {
    with_buffer(a.buffers, buffer)[slot(a.buffers, buffer)].nicks
}

/// The client with the nick list of the buffer called `buffer` replaced
/// (the buffer is created if there is none).
pub open spec fn with_nicks(a: AppView, buffer: Seq<char>, nicks: Seq<Seq<char>>) -> AppView {
    let bufs = with_buffer(a.buffers, buffer);
    let i = slot(a.buffers, buffer);
    AppView { buffers: bufs.update(i, BufferView { nicks, ..bufs[i] }), ..a }
}

/// A nick list after `nick` joins.
pub open spec fn joined(nicks: Seq<Seq<char>>, nick: Seq<char>) -> Seq<Seq<char>> {
    if nicks.contains(nick) {
        nicks
    } else {
        sorted_nicks(nicks.push(nick))
    }
}

/// A nick list after `nick` leaves.
pub open spec fn parted(nicks: Seq<Seq<char>>, nick: Seq<char>) -> Seq<Seq<char>> {
    nicks.filter(|n: Seq<char>| n != nick)
}

/// The status line that announces a join.
pub open spec fn join_text(nick: Seq<char>) -> Seq<char> {
    "--> "@ + nick + " joined"@
}

/// The status line that announces a part.
pub open spec fn part_text(nick: Seq<char>) -> Seq<char> {
    "<-- "@ + nick + " left"@
}

/// A status message.
pub open spec fn status_msg(ts: Seq<char>, text: Seq<char>) -> MsgView {
    MsgView { ts, nick: None, text, kind: Kind::Status }
}

/// The client after event `ev`, its messages stamped `ts`.
pub open spec fn apply_spec(a: AppView, ev: EventView, ts: Seq<char>) -> AppView {
    match ev {
        EventView::Line { buffer, nick, text } => push_spec(
            a,
            buffer,
            MsgView { ts, nick: Some(nick), text, kind: Kind::Privmsg },
        ),
        EventView::Action { buffer, nick, text } => push_spec(
            a,
            buffer,
            MsgView { ts, nick: Some(nick), text, kind: Kind::Action },
        ),
        EventView::Status { buffer, text } => push_spec(a, buffer, status_msg(ts, text)),
        EventView::Names { buffer, nicks } => with_nicks(a, buffer, sorted_nicks(nicks)),
        EventView::Join { buffer, nick } => push_spec(
            with_nicks(a, buffer, joined(nicks_of(a, buffer), nick)),
            buffer,
            status_msg(ts, join_text(nick)),
        ),
        EventView::Part { buffer, nick } => push_spec(
            with_nicks(a, buffer, parted(nicks_of(a, buffer), nick)),
            buffer,
            status_msg(ts, part_text(nick)),
        ),
    }
}

/// The events that `apply` takes without failing: those that append to the
/// current buffer need it to exist.
pub open spec fn apply_ok(a: AppView, ev: EventView) -> bool {
    match ev {
        EventView::Names { .. } => true,
        EventView::Join { buffer, .. } => a.current < with_buffer(a.buffers, buffer).len(),
        EventView::Part { buffer, .. } => a.current < with_buffer(a.buffers, buffer).len(),
        _ => a.current < a.buffers.len(),
    }
}

/// The client and the returned line after the input line is submitted.
pub open spec fn submit_spec(a: AppView, ts: Seq<char>) -> (AppView, Option<Seq<char>>) {
    if a.input.len() == 0 {
        (a, None)
    } else {
        let line = a.input;
        let cleared = AppView { input: Seq::empty(), cursor: 0, ..a };
        let target = a.buffers[a.current as int].name;
        if line[0] == '/' {
            (cleared, Some(line))
        } else {
            (
                apply_spec(
                    cleared,
                    EventView::Line { buffer: target, nick: a.nick, text: line },
                    ts,
                ),
                Some(line),
            )
        }
    }
}


// ---------------------------------------------------------------------------
// Laws of the model
// ---------------------------------------------------------------------------

/// The buffer called `name` sits at `slot` once it exists, and creating it
/// adds exactly one buffer at the end.
pub proof fn lemma_slot(bufs: Seq<BufferView>, name: Seq<char>)
    ensures
        0 <= slot(bufs, name) <= bufs.len(),
        slot(bufs, name) < with_buffer(bufs, name).len(),
        with_buffer(bufs, name)[slot(bufs, name)].name == name,
        with_buffer(bufs, name).len() == bufs.len() || with_buffer(bufs, name).len() == bufs.len()
            + 1,
        forall|j: int| 0 <= j < bufs.len() ==> #[trigger] with_buffer(bufs, name)[j] == bufs[j],
        slot(bufs, name) == bufs.len() ==> forall|j: int|
            0 <= j < bufs.len() ==> #[trigger] bufs[j].name != name,
{
    if exists|i: int| is_first_named(bufs, name, i) {
        let i = choose|i: int| is_first_named(bufs, name, i);
        assert(is_first_named(bufs, name, i));
    } else {
        assert forall|j: int| 0 <= j < bufs.len() implies #[trigger] bufs[j].name != name by {
            if bufs[j].name == name {
                lemma_first_named_exists(bufs, name, j);
            }
        }
    }
}

/// A buffer called `name` at `j` means there is a first one.
proof fn lemma_first_named_exists(bufs: Seq<BufferView>, name: Seq<char>, j: int)
    requires
        0 <= j < bufs.len(),
        bufs[j].name == name,
    ensures
        exists|i: int| is_first_named(bufs, name, i),
    decreases j,
{
    if forall|k: int| 0 <= k < j ==> #[trigger] bufs[k].name != name {
        assert(is_first_named(bufs, name, j));
    } else {
        let k = choose|k: int| 0 <= k < j && #[trigger] bufs[k].name == name;
        lemma_first_named_exists(bufs, name, k);
    }
}

/// Appending a message keeps the current buffer, the input line and the
/// nick, and only ever adds a buffer.
pub proof fn lemma_push_frame(a: AppView, target: Seq<char>, m: MsgView)
    requires
        has_current(a),
    ensures
        ({
            let r = push_spec(a, target, m);
            &&& r.current == a.current
            &&& r.nick == a.nick
            &&& r.input == a.input
            &&& r.cursor == a.cursor
            &&& r.quit == a.quit
            &&& r.buffers.len() == with_buffer(a.buffers, target).len()
            &&& has_current(r)
        }),
{
    lemma_slot(a.buffers, target);
}

/// Replacing a nick list keeps everything but that buffer's nick list.
pub proof fn lemma_with_nicks_frame(a: AppView, buffer: Seq<char>, nicks: Seq<Seq<char>>)
    ensures
        ({
            let r = with_nicks(a, buffer, nicks);
            &&& r.current == a.current
            &&& r.nick == a.nick
            &&& r.input == a.input
            &&& r.cursor == a.cursor
            &&& r.quit == a.quit
            &&& r.buffers.len() == with_buffer(a.buffers, buffer).len()
            &&& with_buffer(r.buffers, buffer) == r.buffers
            &&& slot(r.buffers, buffer) == slot(a.buffers, buffer)
        }),
{
    lemma_slot(a.buffers, buffer);
    let r = with_nicks(a, buffer, nicks);
    let i = slot(a.buffers, buffer);
    lemma_slot(r.buffers, buffer);
    assert(r.buffers[i].name == buffer);
    lemma_first_named_exists(r.buffers, buffer, i);
    let c = slot(r.buffers, buffer);
    assert(is_first_named(r.buffers, buffer, c));
    if c < i {
        assert(r.buffers[c] == with_buffer(a.buffers, buffer)[c]);
        if i < a.buffers.len() {
            assert(is_first_named(a.buffers, buffer, i));
            assert(a.buffers[c].name != buffer);
        } else {
            assert(a.buffers[c].name != buffer);
        }
    } else if c > i {
        assert(r.buffers[i].name != buffer);
    }
}

/// Every event keeps the current buffer, the input line and the nick, and
/// only ever adds buffers.
pub proof fn lemma_apply_frame(a: AppView, ev: EventView, ts: Seq<char>)
    requires
        apply_ok(a, ev),
    ensures
        ({
            let r = apply_spec(a, ev, ts);
            &&& r.current == a.current
            &&& r.nick == a.nick
            &&& r.input == a.input
            &&& r.cursor == a.cursor
            &&& r.quit == a.quit
            &&& r.buffers.len() >= a.buffers.len()
            &&& (has_current(a) ==> has_current(r))
            &&& (!(ev is Names) ==> has_current(r))
        }),
{
    lemma_slot(a.buffers, ev_buffer(ev));
    match ev {
        EventView::Line { buffer, nick, text } => {
            lemma_push_frame(a, buffer, MsgView { ts, nick: Some(nick), text, kind: Kind::Privmsg });
        },
        EventView::Action { buffer, nick, text } => {
            lemma_push_frame(a, buffer, MsgView { ts, nick: Some(nick), text, kind: Kind::Action });
        },
        EventView::Status { buffer, text } => {
            lemma_push_frame(a, buffer, status_msg(ts, text));
        },
        EventView::Names { buffer, nicks } => {
            lemma_with_nicks_frame(a, buffer, sorted_nicks(nicks));
        },
        EventView::Join { buffer, nick } => {
            let n = joined(nicks_of(a, buffer), nick);
            lemma_with_nicks_frame(a, buffer, n);
            lemma_push_frame(with_nicks(a, buffer, n), buffer, status_msg(ts, join_text(nick)));
        },
        EventView::Part { buffer, nick } => {
            let n = parted(nicks_of(a, buffer), nick);
            lemma_with_nicks_frame(a, buffer, n);
            lemma_push_frame(with_nicks(a, buffer, n), buffer, status_msg(ts, part_text(nick)));
        },
    }
}

/// The buffer an event is addressed to.
pub open spec fn ev_buffer(ev: EventView) -> Seq<char> {
    match ev {
        EventView::Line { buffer, .. } => buffer,
        EventView::Action { buffer, .. } => buffer,
        EventView::Status { buffer, .. } => buffer,
        EventView::Names { buffer, .. } => buffer,
        EventView::Join { buffer, .. } => buffer,
        EventView::Part { buffer, .. } => buffer,
    }
}

/// Appending a message leaves every nick list as it was.
pub proof fn lemma_push_keeps_sorted(a: AppView, target: Seq<char>, m: MsgView)
    requires
        has_current(a),
        all_nicks_sorted(a),
    ensures
        all_nicks_sorted(push_spec(a, target, m)),
{
    lemma_slot(a.buffers, target);
    let r = push_spec(a, target, m);
    let bufs = with_buffer(a.buffers, target);
    assert forall|j: int| 0 <= j < r.buffers.len() implies nicks_sorted(
        #[trigger] r.buffers[j].nicks,
    ) by {
        assert(r.buffers[j].nicks == bufs[j].nicks);
        if j < a.buffers.len() {
            assert(bufs[j] == a.buffers[j]);
        } else {
            assert(bufs[j].nicks == Seq::<Seq<char>>::empty());
        }
    }
}

/// Putting a sorted nick list in place keeps every nick list sorted.
pub proof fn lemma_with_nicks_keeps_sorted(a: AppView, buffer: Seq<char>, nicks: Seq<Seq<char>>)
    requires
        all_nicks_sorted(a),
        nicks_sorted(nicks),
    ensures
        all_nicks_sorted(with_nicks(a, buffer, nicks)),
{
    lemma_slot(a.buffers, buffer);
    let r = with_nicks(a, buffer, nicks);
    let bufs = with_buffer(a.buffers, buffer);
    let i = slot(a.buffers, buffer);
    assert forall|j: int| 0 <= j < r.buffers.len() implies nicks_sorted(
        #[trigger] r.buffers[j].nicks,
    ) by {
        if j != i {
            if j < a.buffers.len() {
                assert(bufs[j] == a.buffers[j]);
            } else {
                assert(bufs[j].nicks == Seq::<Seq<char>>::empty());
            }
        }
    }
}

/// The nick list of the buffer called `buffer`, before an event, is sorted
/// when all are.
pub proof fn lemma_nicks_of_sorted(a: AppView, buffer: Seq<char>)
    requires
        all_nicks_sorted(a),
    ensures
        nicks_sorted(nicks_of(a, buffer)),
{
    lemma_slot(a.buffers, buffer);
    let i = slot(a.buffers, buffer);
    if i < a.buffers.len() {
        assert(nicks_sorted(a.buffers[i].nicks));
    } else {
        assert(nicks_of(a, buffer) == Seq::<Seq<char>>::empty());
    }
}

/// Submitting keeps the current buffer and only ever adds buffers.
pub proof fn lemma_submit_frame(a: AppView, ts: Seq<char>)
    requires
        has_current(a),
    ensures
        submit_spec(a, ts).0.current == a.current,
        submit_spec(a, ts).0.buffers.len() >= a.buffers.len(),
        has_current(submit_spec(a, ts).0),
{
    if a.input.len() > 0 && a.input[0] != '/' {
        let cleared = AppView { input: Seq::empty(), cursor: 0, ..a };
        lemma_apply_frame(
            cleared,
            EventView::Line { buffer: a.buffers[a.current as int].name, nick: a.nick, text: a.input },
            ts,
        );
    }
}

// ---------------------------------------------------------------------------
// Executable code
// ---------------------------------------------------------------------------

impl Buffer {
    fn new(name: &str) -> (b: Self)
        ensures
            b@ == new_buffer(name@),
    {
        let b = Buffer {
            name: copy_str(name),
            msgs: Vec::new(),
            nicks: Vec::new(),
            scroll: 0,
            unread: false,
            highlight: false,
        };
        proof {
            assert(b@.msgs == Seq::<MsgView>::empty());
            assert(b@.nicks == Seq::<Seq<char>>::empty());
        }
        b
    }
}

proof fn lemma_view_push(bufs: Seq<Buffer>, b: Buffer)
    ensures
        bufs.push(b).map_values(|x: Buffer| x@) == bufs.map_values(|x: Buffer| x@).push(b@),
{
    assert(bufs.push(b).map_values(|x: Buffer| x@) =~= bufs.map_values(|x: Buffer| x@).push(
        b@,
    ));
}

proof fn lemma_view_update(bufs: Seq<Buffer>, i: int, b: Buffer)
    requires
        0 <= i < bufs.len(),
    ensures
        bufs.update(i, b).map_values(|x: Buffer| x@) == bufs.map_values(|x: Buffer| x@).update(
            i,
            b@,
        ),
{
    assert(bufs.update(i, b).map_values(|x: Buffer| x@) =~= bufs.map_values(|x: Buffer| x@).update(
        i,
        b@,
    ));
}

impl App {
    /// A client with one buffer, `*status*`, and an empty input line.
    pub fn new(nick: &str) -> (app: Self)
        ensures
            app@ == initial_app(nick@),
    {
        let mut buffers: Vec<Buffer> = Vec::new();
        buffers.push(Buffer::new("*status*"));
        let app = App {
            nick: copy_str(nick),
            buffers,
            current: 0,
            input: String::new(),
            cursor: 0,
            quit: false,
        };
        proof {
            assert(app@.buffers =~= seq![new_buffer("*status*"@)]);
        }
        app
    }

    /// The current buffer.
    pub fn buf(&self) -> (b: &Buffer)
        requires
            has_current(self@),
        ensures
            *b == self.buffers@[self.current as int],
            b@ == self@.buffers[self.current as int],
    {
        &self.buffers[self.current]
    }

    /// The buffer called `name`, created at the end of the list if there is
    /// none.
    fn buf_mut(&mut self, name: &str) -> (b: &mut Buffer)
        ensures
            ({
                let bufs = with_buffer(old(self)@.buffers, name@);
                let i = slot(old(self)@.buffers, name@);
                &&& 0 <= i < bufs.len()
                &&& b@ == bufs[i]
                &&& final(self)@ == AppView { buffers: bufs.update(i, final(b)@), ..old(self)@ }
                &&& final(self).buffers@.len() == bufs.len()
            }),
    {
        let ghost bufs0 = self@.buffers;
        let target = copy_str(name);
        let mut i: usize = 0;
        while i < self.buffers.len()
            invariant
                i <= self.buffers@.len(),
                self@.buffers == bufs0,
                *self == *old(self),
                target@ == name@,
                forall|j: int| 0 <= j < i ==> #[trigger] bufs0[j].name != name@,
            decreases self.buffers@.len() - i,
        {
            if self.buffers[i].name == target {
                proof {
                    assert(is_first_named(bufs0, name@, i as int));
                    let c = choose|c: int| is_first_named(bufs0, name@, c);
                    if c < i {
                        assert(bufs0[c].name != name@);
                    } else if c > i {
                        assert(bufs0[i as int].name != name@);
                    }
                }
                let b = &mut self.buffers[i];
                proof {
                    lemma_view_update(old(self).buffers@, i as int, *final(b));
                    assert(slot(bufs0, name@) == i);
                    assert(with_buffer(bufs0, name@) == bufs0);
                    assert(b@ == bufs0[i as int]);
                }
                return b;
            }
            i = i + 1;
        }
        proof {
            assert(!exists|c: int| is_first_named(bufs0, name@, c));
        }
        let nb = Buffer::new(name);
        proof {
            lemma_view_push(self.buffers@, nb);
        }
        self.buffers.push(nb);
        let n = self.buffers.len();
        let b = &mut self.buffers[n - 1];
        proof {
            lemma_view_update(old(self).buffers@.push(nb), (n - 1) as int, *final(b));
        }
        b
    }

    /// Makes buffer `i` current and clears its activity marks; does nothing
    /// when there is no buffer `i`.
    pub fn switch(&mut self, i: usize)
        ensures
            final(self)@ == switch_spec(old(self)@, i as int),
    {
        if i < self.buffers.len() {
            self.current = i;
            let b = &mut self.buffers[i];
            b.unread = false;
            b.highlight = false;
            proof {
                lemma_view_update(old(self).buffers@, i as int, *final(b));
            }
        }
    }

    /// Switches `delta` buffers forward (backward when negative), wrapping
    /// around the list.
    pub fn next_buffer(&mut self, delta: isize)
        requires
            old(self)@.buffers.len() > 0,
            old(self)@.buffers.len() <= isize::MAX,
            fits_isize((old(self).current as isize) as int + delta),
        ensures
            final(self)@ == switch_spec(old(self)@, cycled(old(self)@, delta as int)),
    {
        let n = self.buffers.len();
        let s: isize = self.current as isize + delta;
        let i: usize;
        if s >= 0 {
            i = (s as usize) % n;
            proof {
                assert((s as usize) as int == s as int);
            }
        } else {
            let mag: usize = ((-(s + 1)) as usize) + 1;
            let m = mag % n;
            if m == 0 {
                i = 0;
            } else {
                i = n - m;
            }
            proof {
                assert(mag as int == -(s as int));
                let q = (mag as int) / (n as int);
                assert(mag as int == q * (n as int) + m as int) by (nonlinear_arith)
                    requires
                        n > 0,
                        q == (mag as int) / (n as int),
                        m as int == (mag as int) % (n as int),
                ;
                if m == 0 {
                    assert((s as int) == (-q) * (n as int)) by (nonlinear_arith)
                        requires
                            mag as int == q * (n as int),
                            mag as int == -(s as int),
                    ;
                    vstd::arithmetic::div_mod::lemma_mod_multiples_basic(-q, n as int);
                    assert((-q) * (n as int) == (n as int) * (-q)) by (nonlinear_arith);
                } else {
                    assert((s as int) == (-q - 1) * (n as int) + (n - m) as int) by (nonlinear_arith)
                        requires
                            mag as int == q * (n as int) + m as int,
                            mag as int == -(s as int),
                    ;
                    vstd::arithmetic::div_mod::lemma_fundamental_div_mod_converse(
                        s as int,
                        n as int,
                        -q - 1,
                        (n - m) as int,
                    );
                }
            }
        }
        self.switch(i);
    }

    /// Scrolls the current buffer by `delta` lines, keeping the offset
    /// within `0..=max`.
    pub fn scroll(&mut self, delta: isize, max: usize)
        requires
            has_current(old(self)@),
            max <= isize::MAX,
            fits_isize((old(self)@.buffers[old(self)@.current as int].scroll as isize) as int + delta),
        ensures
            final(self)@ == scroll_spec(old(self)@, delta as int, max),
    {
        let cur = self.current;
        let b = &mut self.buffers[cur];
        let v: isize = b.scroll as isize + delta;
        let hi: isize = max as isize;
        let c: isize = if v < 0 {
            0
        } else if v > hi {
            hi
        } else {
            v
        };
        b.scroll = c as usize;
        proof {
            lemma_view_update(old(self).buffers@, cur as int, *final(b));
        }
    }

    /// Appends `msg` to the buffer called `buffer`, creating the buffer if
    /// needed. Past 5000 messages the oldest thousand are dropped. A buffer
    /// other than the current one is marked unread, and highlighted when the
    /// text mentions the user's nick.
    pub fn push(&mut self, buffer: &str, msg: Msg)
        requires
            has_current(old(self)@),
        ensures
            final(self)@ == push_spec(old(self)@, buffer@, msg@),
    {
        let target = copy_str(buffer);
        let is_current = self.buffers[self.current].name == target;
        let me = self.nick.clone();
        let text_l = to_lowercase(msg.text.as_str());
        let me_l = to_lowercase(me.as_str());
        let hl = contains_chars(&chars_of(text_l.as_str()), &chars_of(me_l.as_str()));
        let ghost m = msg@;
        let b = self.buf_mut(buffer);
        let ghost b0 = b@;
        b.msgs.push(msg);
        proof {
            assert(b.msgs@.map_values(|x: Msg| x@) =~= b0.msgs.push(m));
        }
        if b.msgs.len() > 5000 {
            let ghost all = b.msgs@;
            let rest = b.msgs.split_off(1000);
            b.msgs = rest;
            proof {
                assert(b.msgs@.map_values(|x: Msg| x@) =~= all.map_values(|x: Msg| x@).skip(1000));
            }
        }
        if !is_current {
            b.unread = true;
            b.highlight = b.highlight || hl;
        }
    }

    /// Whether there is a buffer called `name`.
    pub fn has_buffer(&self, name: &str) -> (r: bool)
        ensures
            r == (slot(self@.buffers, name@) < self@.buffers.len()),
    {
        let target = copy_str(name);
        let mut i: usize = 0;
        while i < self.buffers.len()
            invariant
                i <= self.buffers@.len(),
                target@ == name@,
                forall|j: int| 0 <= j < i ==> #[trigger] self@.buffers[j].name != name@,
            decreases self.buffers@.len() - i,
        {
            if self.buffers[i].name == target {
                proof {
                    assert(self@.buffers[i as int].name == name@);
                    lemma_first_named_exists(self@.buffers, name@, i as int);
                    lemma_slot(self@.buffers, name@);
                }
                return true;
            }
            i = i + 1;
        }
        proof {
            lemma_slot(self@.buffers, name@);
            if slot(self@.buffers, name@) < self@.buffers.len() {
                let k = slot(self@.buffers, name@);
                assert(self@.buffers[k].name != name@);
            }
        }
        false
    }

    /// Whether `apply` takes this event in this state: the same as
    /// `apply_ok`.
    pub fn apply_allowed(&self, ev: &Event) -> (r: bool)
        ensures
            r == apply_ok(self@, ev@),
    {
        proof {
            lemma_slot(self@.buffers, crate::app::ev_buffer(ev@));
        }
        match ev {
            Event::Names { .. } => true,
            Event::Join { buffer, .. } | Event::Part { buffer, .. } => {
                if self.current < self.buffers.len() {
                    true
                } else {
                    self.current == self.buffers.len() && !self.has_buffer(buffer.as_str())
                }
            },
            _ => self.current < self.buffers.len(),
        }
    }

    /// Applies `ev` with its messages stamped `ts`.
    pub fn apply_at(&mut self, ev: Event, ts: String)
        requires
            apply_ok(old(self)@, ev@),
        ensures
            final(self)@ == apply_spec(old(self)@, ev@, ts@),
            all_nicks_sorted(old(self)@) ==> all_nicks_sorted(final(self)@),
            ev@ matches EventView::Names { nicks, .. } ==> stable_sort_of(nicks, sorted_nicks(nicks)),
            ev@ matches EventView::Join { buffer, nick } ==> (!nicks_of(old(self)@, buffer).contains(
                nick,
            ) ==> stable_sort_of(
                nicks_of(old(self)@, buffer).push(nick),
                sorted_nicks(nicks_of(old(self)@, buffer).push(nick)),
            )),
    {
        let ghost a = self@;
        let ghost sorted_before = all_nicks_sorted(self@);
        proof {
            lemma_apply_frame(a, ev@, ts@);
        }
        match ev {
            Event::Line { buffer, nick, text } => {
                let m = Msg { ts, nick: Some(nick), text, kind: Kind::Privmsg };
                proof {
                    if sorted_before {
                        lemma_push_keeps_sorted(a, buffer@, m@);
                    }
                }
                self.push(buffer.as_str(), m);
            },
            Event::Action { buffer, nick, text } => {
                let m = Msg { ts, nick: Some(nick), text, kind: Kind::Action };
                proof {
                    if sorted_before {
                        lemma_push_keeps_sorted(a, buffer@, m@);
                    }
                }
                self.push(buffer.as_str(), m);
            },
            Event::Status { buffer, text } => {
                let m = Msg { ts, nick: None, text, kind: Kind::Status };
                proof {
                    if sorted_before {
                        lemma_push_keeps_sorted(a, buffer@, m@);
                    }
                }
                self.push(buffer.as_str(), m);
            },
            Event::Names { buffer, nicks } => {
                let b = self.buf_mut(buffer.as_str());
                b.nicks = nicks;
                sort_nicks(&mut b.nicks);
                proof {
                    if sorted_before {
                        lemma_with_nicks_keeps_sorted(a, buffer@, b@.nicks);
                    }
                }
            },
            Event::Join { buffer, nick } => {
                let b = self.buf_mut(buffer.as_str());
                if !has_nick(&b.nicks, &nick) {
                    let ghost n0 = b.nicks@;
                    b.nicks.push(copy_nick(&nick));
                    proof {
                        assert(strings_view(b.nicks@) =~= strings_view(n0).push(nick@));
                    }
                    sort_nicks(&mut b.nicks);
                }
                proof {
                    if sorted_before {
                        lemma_nicks_of_sorted(a, buffer@);
                        lemma_with_nicks_keeps_sorted(a, buffer@, b@.nicks);
                    }
                }
                let mut text = copy_str("--> ");
                text.append(nick.as_str());
                text.append(" joined");
                let m = Msg { ts, nick: None, text, kind: Kind::Status };
                proof {
                    lemma_with_nicks_frame(a, buffer@, joined(nicks_of(a, buffer@), nick@));
                    if sorted_before {
                        lemma_push_keeps_sorted(self@, buffer@, m@);
                    }
                }
                self.push(buffer.as_str(), m);
            },
            Event::Part { buffer, nick } => {
                let b = self.buf_mut(buffer.as_str());
                let kept = without_nick(&b.nicks, &nick);
                b.nicks = kept;
                proof {
                    if sorted_before {
                        lemma_nicks_of_sorted(a, buffer@);
                        lemma_filter_sorted(nicks_of(a, buffer@), |n: Seq<char>| n != nick@);
                        lemma_with_nicks_keeps_sorted(a, buffer@, b@.nicks);
                    }
                }
                let mut text = copy_str("<-- ");
                text.append(nick.as_str());
                text.append(" left");
                let m = Msg { ts, nick: None, text, kind: Kind::Status };
                proof {
                    lemma_with_nicks_frame(a, buffer@, parted(nicks_of(a, buffer@), nick@));
                    if sorted_before {
                        lemma_push_keeps_sorted(self@, buffer@, m@);
                    }
                }
                self.push(buffer.as_str(), m);
            },
        }
    }

    /// Applies `ev`, its messages stamped with the present time.
    pub fn apply(&mut self, ev: Event)
        requires
            apply_ok(old(self)@, ev@),
        ensures
            exists|ts: Seq<char>|
                is_clock_text(ts) && final(self)@ == #[trigger] apply_spec(old(self)@, ev@, ts),
            all_nicks_sorted(old(self)@) ==> all_nicks_sorted(final(self)@),
            ev@ matches EventView::Names { nicks, .. } ==> stable_sort_of(nicks, sorted_nicks(nicks)),
            ev@ matches EventView::Join { buffer, nick } ==> (!nicks_of(old(self)@, buffer).contains(
                nick,
            ) ==> stable_sort_of(
                nicks_of(old(self)@, buffer).push(nick),
                sorted_nicks(nicks_of(old(self)@, buffer).push(nick)),
            )),
    {
        let ts = timestamp();
        let ghost t = ts@;
        let ghost e = ev@;
        self.apply_at(ev, ts);
        proof {
            assert(is_clock_text(t) && self@ == apply_spec(old(self)@, e, t));
        }
    }

    /// Submits the input line, stamping an echoed message with `ts`: the
    /// line is returned and the input cleared; unless it is a command (it
    /// starts with `/`) it is shown in the current buffer as said by the user.
    /// An empty input line gives `None` and changes nothing.
    pub fn submit_at(&mut self, ts: String) -> (r: Option<String>)
        requires
            old(self)@.input.len() == 0 || has_current(old(self)@),
        ensures
            (final(self)@, opt_str_view(r)) == submit_spec(old(self)@, ts@),
    {
        if self.input.as_str().is_empty() {
            return None;
        }
        let line = self.input.clone();
        self.input = String::new();
        self.cursor = 0;
        let target = self.buf().name.clone();
        if line.as_str().get_char(0) != '/' {
            let nick = self.nick.clone();
            let text = line.clone();
            self.apply_at(Event::Line { buffer: target, nick, text }, ts);
        }
        Some(line)
    }

    /// Submits the input line, stamping an echoed message with the present
    /// time (see `submit_at`).
    pub fn submit(&mut self) -> (r: Option<String>)
        requires
            old(self)@.input.len() == 0 || has_current(old(self)@),
        ensures
            exists|ts: Seq<char>|
                is_clock_text(ts) && (final(self)@, opt_str_view(r)) == #[trigger] submit_spec(
                    old(self)@,
                    ts,
                ),
    {
        let ts = timestamp();
        let ghost t = ts@;
        let r = self.submit_at(ts);
        proof {
            assert(is_clock_text(t) && (self@, opt_str_view(r)) == submit_spec(old(self)@, t));
        }
        r
    }
}

} // verus!
