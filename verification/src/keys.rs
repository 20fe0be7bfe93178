//! Key presses: what each one does to the client.

use vstd::prelude::*;
use crate::app::{App, AppView, BufferView, cycled, fits_isize, scroll_spec, submit_spec, switch_spec};
use crate::clock::{is_clock_text, timestamp};
use crate::complete::{complete_spec, completion_fits, cursor_ok};
use crate::text::{utf8_len_capped, char_index_of, char_pos, char_width, char_width_of, chars_of, is_boundary, push_char, string_of, utf8_len};

verus! {

/// The key of a key press.
#[derive(Clone, Copy, PartialEq, Eq, Structural, Debug)]
pub enum KeyCode {
    Char(char),
    PageUp,
    PageDown,
    Tab,
    Left,
    Right,
    Home,
    End,
    Backspace,
    Delete,
    Enter,
    Other,
}

/// A key press, with the state of the Control and Alt modifiers.
#[derive(Clone, Copy, PartialEq, Eq, Structural, Debug)]
pub struct KeyPress {
    pub code: KeyCode,
    pub ctrl: bool,
    pub alt: bool,
}

/// Lines that Page Up and Page Down scroll by.
pub open spec fn page() -> int {
    10
}

/// The byte length of the input line, as `String::len` gives it.
pub open spec fn input_bytes(a: AppView) -> usize {
    utf8_len(a.input) as usize
}

pub open spec fn is_ascii_digit(c: char) -> bool {
    '0' <= c && c <= '9'
}

/// The client with these input line and cursor.
pub open spec fn with_input(a: AppView, input: Seq<char>, cursor: int) -> AppView {
    AppView { input, cursor: cursor as usize, ..a }
}

/// Whether the press of `c` with these modifiers is one of the commands
/// rather than typed text.
pub open spec fn char_command(c: char, ctrl: bool, alt: bool) -> bool {
    ||| ctrl && (c == 'c' || c == 'n' || c == 'p' || c == 'u')
    ||| alt && is_ascii_digit(c)
}

/// The client, and the line to send if any, after a key press; a submitted
/// echo is stamped `ts`.
pub open spec fn key_spec(a: AppView, k: KeyPress, max: usize, ts: Seq<char>) -> (
    AppView,
    Option<Seq<char>>,
) {
    match k.code {
        KeyCode::Char(c) => {
            if k.ctrl && c == 'c' {
                (AppView { quit: true, ..a }, None)
            } else if k.alt && is_ascii_digit(c) {
                let d = c as u32 - '0' as u32;
                (if d > 0 {
                    switch_spec(a, d - 1)
                } else {
                    a
                }, None)
            } else if k.ctrl && c == 'n' {
                (switch_spec(a, cycled(a, 1)), None)
            } else if k.ctrl && c == 'p' {
                (switch_spec(a, cycled(a, -1)), None)
            } else if k.ctrl && c == 'u' {
                (with_input(a, a.input.skip(char_pos(a.input, a.cursor as int)), 0), None)
            } else {
                (
                    with_input(
                        a,
                        a.input.insert(char_pos(a.input, a.cursor as int), c),
                        a.cursor + char_width(c),
                    ),
                    None,
                )
            }
        },
        KeyCode::PageUp => (scroll_spec(a, page(), max), None),
        KeyCode::PageDown => (scroll_spec(a, -page(), max), None),
        KeyCode::Tab => (complete_spec(a), None),
        KeyCode::Left => (with_input(a, a.input, if a.cursor > 0 {
            a.cursor - 1
        } else {
            0
        }), None),
        KeyCode::Right => (with_input(a, a.input, if a.cursor + 1 < input_bytes(a) {
            a.cursor + 1
        } else {
            input_bytes(a) as int
        }), None),
        KeyCode::Home => (with_input(a, a.input, 0), None),
        KeyCode::End => (with_input(a, a.input, input_bytes(a) as int), None),
        KeyCode::Backspace => {
            if a.cursor > 0 {
                (
                    with_input(
                        a,
                        a.input.remove(char_pos(a.input, a.cursor - 1)),
                        a.cursor - 1,
                    ),
                    None,
                )
            } else {
                (a, None)
            }
        },
        KeyCode::Delete => {
            if a.cursor < input_bytes(a) {
                (
                    with_input(a, a.input.remove(char_pos(a.input, a.cursor as int)), a.cursor as int),
                    None,
                )
            } else {
                (a, None)
            }
        },
        KeyCode::Enter => {
            let (s, line) = submit_spec(a, ts);
            let b = s.buffers[s.current as int];
            (
                AppView {
                    buffers: s.buffers.update(s.current as int, BufferView { scroll: 0, ..b }),
                    ..s
                },
                line,
            )
        },
        KeyCode::Other => (a, None),
    }
}

/// The key presses that the client handles without failing in this state.
pub open spec fn key_ok(a: AppView, k: KeyPress, max: usize) -> bool {
    match k.code {
        KeyCode::Char(c) => {
            if k.ctrl && c == 'c' {
                true
            } else if k.alt && is_ascii_digit(c) {
                true
            } else if k.ctrl && (c == 'n' || c == 'p') {
                &&& a.buffers.len() > 0
                &&& a.buffers.len() <= isize::MAX
                &&& fits_isize((a.current as isize) as int + if c == 'n' {
                    1int
                } else {
                    -1int
                })
            } else if k.ctrl && c == 'u' {
                is_boundary(a.input, a.cursor as int)
            } else {
                is_boundary(a.input, a.cursor as int) && a.cursor + char_width(c) <= usize::MAX
            }
        },
        KeyCode::PageUp | KeyCode::PageDown => {
            &&& a.current < a.buffers.len()
            &&& max <= isize::MAX
            &&& fits_isize(
                (a.buffers[a.current as int].scroll as isize) as int + if k.code is PageUp {
                    page()
                } else {
                    -page()
                },
            )
        },
        KeyCode::Tab => cursor_ok(a) && completion_fits(a),
        KeyCode::Right => a.cursor < usize::MAX,
        KeyCode::Backspace => a.cursor > 0 ==> is_boundary(a.input, a.cursor - 1) && a.cursor - 1
            < utf8_len(a.input),
        KeyCode::Delete => a.cursor < input_bytes(a) ==> is_boundary(a.input, a.cursor as int),
        KeyCode::Enter => a.current < a.buffers.len(),
        _ => true,
    }
}

impl App {
    fn replace_input(&mut self, input: String, cursor: usize)
        ensures
            final(self)@ == with_input(old(self)@, input@, cursor as int),
    {
        self.input = input;
        self.cursor = cursor;
    }

    /// Handles a key press, stamping a submitted echo with `ts`; returns the
    /// submitted line, which the caller sends.
    pub fn on_key_at(&mut self, key: KeyPress, max_scroll: usize, ts: String) -> (r: Option<
        String,
    >)
        requires
            key_ok(old(self)@, key, max_scroll),
        ensures
            (final(self)@, crate::app::opt_str_view(r)) == key_spec(
                old(self)@,
                key,
                max_scroll,
                ts@,
            ),
    {
        match key.code {
            KeyCode::Char(c) => {
                if key.ctrl && c == 'c' {
                    self.quit = true;
                } else if key.alt && '0' <= c && c <= '9' {
                    let d = (c as u32) - ('0' as u32);
                    if d > 0 {
                        self.switch((d - 1) as usize);
                    }
                } else if key.ctrl && c == 'n' {
                    self.next_buffer(1);
                } else if key.ctrl && c == 'p' {
                    self.next_buffer(-1);
                } else if key.ctrl && c == 'u' {
                    let cs = chars_of(self.input.as_str());
                    let k = char_index_of(&cs, self.cursor).unwrap();
                    let rest = string_of(&cs, k, cs.len());
                    proof {
                        assert(cs@.subrange(k as int, cs@.len() as int) == cs@.skip(k as int));
                    }
                    self.replace_input(rest, 0);
                } else {
                    let cs = chars_of(self.input.as_str());
                    let k = char_index_of(&cs, self.cursor).unwrap();
                    let mut line = string_of(&cs, 0, k);
                    push_char(&mut line, c);
                    let rest = string_of(&cs, k, cs.len());
                    line.append(rest.as_str());
                    let cursor = self.cursor + char_width_of(c);
                    proof {
                        assert(line@ == cs@.insert(k as int, c));
                    }
                    self.replace_input(line, cursor);
                }
                None
            },
            KeyCode::PageUp => {
                self.scroll(10, max_scroll);
                None
            },
            KeyCode::PageDown => {
                self.scroll(-10, max_scroll);
                None
            },
            KeyCode::Tab => {
                self.complete_nick();
                None
            },
            KeyCode::Left => {
                self.cursor = if self.cursor > 0 {
                    self.cursor - 1
                } else {
                    0
                };
                None
            },
            KeyCode::Right => {
                let n = self.input.as_str().len();
                self.cursor = if self.cursor + 1 < n {
                    self.cursor + 1
                } else {
                    n
                };
                None
            },
            KeyCode::Home => {
                self.cursor = 0;
                None
            },
            KeyCode::End => {
                self.cursor = self.input.as_str().len();
                None
            },
            KeyCode::Backspace => {
                if self.cursor > 0 {
                    let b = self.cursor - 1;
                    let cs = chars_of(self.input.as_str());
                    let k = char_index_of(&cs, b).unwrap();
                    proof {
                        if k == cs@.len() {
                            crate::text::lemma_utf8_len_full(cs@);
                        }
                    }
                    let mut line = string_of(&cs, 0, k);
                    let rest = string_of(&cs, k + 1, cs.len());
                    line.append(rest.as_str());
                    proof {
                        assert(line@ == cs@.remove(k as int));
                    }
                    self.replace_input(line, b);
                }
                None
            },
            KeyCode::Delete => {
                if self.cursor < self.input.as_str().len() {
                    let cs = chars_of(self.input.as_str());
                    let k = char_index_of(&cs, self.cursor).unwrap();
                    proof {
                        if k == cs@.len() {
                            crate::text::lemma_utf8_len_full(cs@);
                        }
                    }
                    let mut line = string_of(&cs, 0, k);
                    let rest = string_of(&cs, k + 1, cs.len());
                    line.append(rest.as_str());
                    proof {
                        assert(line@ == cs@.remove(k as int));
                    }
                    let c = self.cursor;
                    self.replace_input(line, c);
                }
                None
            },
            KeyCode::Enter => {
                proof {
                    crate::app::lemma_submit_frame(self@, ts@);
                }
                let line = self.submit_at(ts);
                let cur = self.current;
                let ghost s = self@;
                self.buffers[cur].scroll = 0;
                proof {
                    assert(self@.buffers =~= s.buffers.update(
                        cur as int,
                        BufferView { scroll: 0, ..s.buffers[cur as int] },
                    ));
                }
                line
            },
            KeyCode::Other => None,
        }
    }

    /// Handles a key press, stamping a submitted echo with the present time;
    /// returns the submitted line, which the caller sends.
    pub fn on_key(&mut self, key: KeyPress, max_scroll: usize) -> (r: Option<String>)
        requires
            key_ok(old(self)@, key, max_scroll),
        ensures
            exists|ts: Seq<char>|
                is_clock_text(ts) && (final(self)@, crate::app::opt_str_view(r)) == #[trigger] key_spec(
                    old(self)@,
                    key,
                    max_scroll,
                    ts,
                ),
    {
        let ts = timestamp();
        let ghost t = ts@;
        let r = self.on_key_at(key, max_scroll, ts);
        proof {
            assert(is_clock_text(t) && (self@, crate::app::opt_str_view(r)) == key_spec(
                old(self)@,
                key,
                max_scroll,
                t,
            ));
        }
        r
    }

    /// Whether a key press can be handled in this state: the same as
    /// `key_ok`.
    pub fn key_allowed(&self, key: KeyPress, max_scroll: usize) -> (r: bool)
        ensures
            r == key_ok(self@, key, max_scroll),
    {
        match key.code {
            KeyCode::Char(c) => {
                if key.ctrl && c == 'c' {
                    true
                } else if key.alt && '0' <= c && c <= '9' {
                    true
                } else if key.ctrl && (c == 'n' || c == 'p') {
                    let n = self.buffers.len();
                    let cur = self.current as isize;
                    n > 0 && n <= (isize::MAX as usize) && (if c == 'n' {
                        cur < isize::MAX
                    } else {
                        cur > isize::MIN
                    })
                } else if key.ctrl && c == 'u' {
                    let cs = chars_of(self.input.as_str());
                    char_index_of(&cs, self.cursor).is_some()
                } else {
                    let cs = chars_of(self.input.as_str());
                    char_index_of(&cs, self.cursor).is_some() && self.cursor <= usize::MAX
                        - char_width_of(c)
                }
            },
            KeyCode::PageUp | KeyCode::PageDown => {
                if self.current >= self.buffers.len() || max_scroll > (isize::MAX as usize) {
                    false
                } else {
                    let s = self.buffers[self.current].scroll as isize;
                    match key.code {
                        KeyCode::PageUp => s <= isize::MAX - 10,
                        _ => s >= isize::MIN + 10,
                    }
                }
            },
            KeyCode::Tab => {
                if self.current >= self.buffers.len() {
                    false
                } else {
                    let cs = chars_of(self.input.as_str());
                    if char_index_of(&cs, self.cursor).is_none() {
                        false
                    } else {
                        self.completion_check()
                    }
                }
            },
            KeyCode::Right => self.cursor < usize::MAX,
            KeyCode::Backspace => {
                if self.cursor == 0 {
                    true
                } else {
                    let cs = chars_of(self.input.as_str());
                    let b = self.cursor - 1;
                    let in_line = match utf8_len_capped(&cs, usize::MAX) {
                        Some(n) => b < n,
                        None => true,
                    };
                    char_index_of(&cs, b).is_some() && in_line
                }
            },
            KeyCode::Delete => {
                if self.cursor < self.input.as_str().len() {
                    let cs = chars_of(self.input.as_str());
                    char_index_of(&cs, self.cursor).is_some()
                } else {
                    true
                }
            },
            KeyCode::Enter => self.current < self.buffers.len(),
            _ => true,
        }
    }

    /// Handles a key press where that cannot fail: `None`, with nothing
    /// changed, for the presses that `key_ok` rules out; otherwise what
    /// `on_key` returns.
    pub fn handle_key(&mut self, key: KeyPress, max_scroll: usize) -> (r: Option<Option<String>>)
        ensures
            r is None <==> !key_ok(old(self)@, key, max_scroll),
            r is None ==> *final(self) == *old(self),
            r matches Some(line) ==> exists|ts: Seq<char>|
                is_clock_text(ts) && (final(self)@, crate::app::opt_str_view(line))
                    == #[trigger] key_spec(old(self)@, key, max_scroll, ts),
    {
        if self.key_allowed(key, max_scroll) {
            Some(self.on_key(key, max_scroll))
        } else {
            None
        }
    }
}

} // verus!
