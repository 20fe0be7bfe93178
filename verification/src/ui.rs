//! What the screen shows: geometry of the chat pane, colours, styled lines
//! of text, and the pieces of the tab bar, nick list and prompt.

use vstd::prelude::*;
use vstd::utf8::encode_utf8;
use crate::text::push_char;

verus! {

/// A rectangle of terminal cells.
#[derive(Clone, Copy, PartialEq, Eq, Structural, Debug)]
pub struct Area {
    pub x: u16,
    pub y: u16,
    pub width: u16,
    pub height: u16,
}

/// The colours the client uses.
#[derive(Clone, Copy, PartialEq, Eq, Structural, Debug)]
pub enum Color {
    Black,
    Red,
    Green,
    Yellow,
    Blue,
    Magenta,
    Cyan,
    DarkGray,
    LightRed,
    LightGreen,
}

/// How text is drawn: foreground, background, bold.
#[derive(Clone, Copy, PartialEq, Eq, Structural, Debug)]
pub struct Style {
    pub fg: Option<Color>,
    pub bg: Option<Color>,
    pub bold: bool,
}

/// Width of the column of time stamps and nicks before message text.
pub const GUTTER: usize = 18;

/// Width of the nick list pane.
pub const NICKLIST_W: u16 = 18;

/// Cells that the nick column of the gutter takes: the gutter less the
/// time stamp and its space (6) and the space after the label, so that the
/// first line of a message has as wide a prefix as the others.
pub const LABEL_W: usize = 11;

/// `a - b`, or zero when `b` is larger.
pub open spec fn sat_sub(a: int, b: int) -> int {
    if a >= b {
        a - b
    } else {
        0
    }
}

/// Columns left for message text: the width less the nick list, the gutter
/// and a border.
pub open spec fn chat_width_spec(area: Area) -> int {
    sat_sub(sat_sub(area.width as int, NICKLIST_W as int), GUTTER + 1)
}

/// Rows of the chat pane: the height less the tab bar and the prompt.
pub open spec fn chat_height_spec(area: Area) -> int {
    sat_sub(area.height as int, 2)
}

/// Columns left for message text in a terminal of this size.
pub fn chat_width(area: Area) -> (w: usize)
    ensures
        w == chat_width_spec(area),
{
    (area.width.saturating_sub(NICKLIST_W) as usize).saturating_sub(GUTTER + 1)
}

/// Rows of the chat pane in a terminal of this size: all but the tab bar
/// and the prompt.
pub fn chat_height(area: Area) -> (h: usize)
    ensures
        h == chat_height_spec(area),
{
    area.height.saturating_sub(2) as usize
}

/// The style with no colours and no bold.
pub open spec fn plain() -> Style {
    Style { fg: None, bg: None, bold: false }
}

/// The style with this foreground colour.
pub open spec fn fg(c: Color) -> Style {
    Style { fg: Some(c), bg: None, bold: false }
}

/// The colours a nick can be drawn in.
pub open spec fn palette(i: int) -> Color {
    if i == 0 {
        Color::Red
    } else if i == 1 {
        Color::Green
    } else if i == 2 {
        Color::Yellow
    } else if i == 3 {
        Color::Blue
    } else if i == 4 {
        Color::Magenta
    } else if i == 5 {
        Color::Cyan
    } else if i == 6 {
        Color::LightRed
    } else {
        Color::LightGreen
    }
}

/// The hash of a byte string: each byte added to 31 times the hash so far,
/// modulo 2^32.
pub open spec fn nick_hash(bytes: Seq<u8>) -> u32
    decreases bytes.len(),
{
    if bytes.len() == 0 {
        0
    } else {
        nick_hash(bytes.drop_last()).wrapping_mul(31).wrapping_add(bytes.last() as u32)
    }
}

/// The colour of a nick: fixed by the hash of its UTF-8 bytes.
pub open spec fn nick_color_spec(nick: Seq<char>) -> Color {
    palette((nick_hash(encode_utf8(nick)) % 8) as int)
}

fn palette_color(i: u32) -> (c: Color)
    requires
        i < 8,
    ensures
        c == palette(i as int),
{
    if i == 0 {
        Color::Red
    } else if i == 1 {
        Color::Green
    } else if i == 2 {
        Color::Yellow
    } else if i == 3 {
        Color::Blue
    } else if i == 4 {
        Color::Magenta
    } else if i == 5 {
        Color::Cyan
    } else if i == 6 {
        Color::LightRed
    } else {
        Color::LightGreen
    }
}

/// The colour a nick is drawn in, the same every time for the same nick.
pub fn nick_color(nick: &str) -> (c: Color)
    ensures
        c == nick_color_spec(nick@),
{
    let bytes = nick.as_bytes();
    let mut h: u32 = 0;
    let mut i: usize = 0;
    while i < bytes.len()
        invariant
            i <= bytes@.len(),
            bytes@ == encode_utf8(nick@),
            h == nick_hash(bytes@.take(i as int)),
        decreases bytes@.len() - i,
    {
        proof {
            assert(bytes@.take(i + 1).drop_last() == bytes@.take(i as int));
        }
        h = h.wrapping_mul(31).wrapping_add(bytes[i] as u32);
        i = i + 1;
    }
    proof {
        assert(bytes@.take(bytes@.len() as int) == bytes@);
    }
    palette_color(h % 8)
}

/// The first `w` characters of `s`, or all of it when it is shorter.
pub open spec fn truncated(s: Seq<char>, w: nat) -> Seq<char> {
    if s.len() <= w {
        s
    } else {
        s.take(w as int)
    }
}

/// At most `w` characters of `s`.
pub fn truncate(s: &str, w: usize) -> (r: String)
    ensures
        r@ == truncated(s@, w as nat),
{
    let cs = crate::text::chars_of(s);
    if cs.len() <= w {
        crate::text::copy_str(s)
    } else {
        let r = crate::text::string_of(&cs, 0, w);
        proof {
            assert(cs@.subrange(0, w as int) == cs@.take(w as int));
        }
        r
    }
}

/// `n` in decimal.
pub open spec fn decimal_spec(n: nat) -> Seq<char>
    decreases n,
{
    if n < 10 {
        seq![crate::clock::digit(n)]
    } else {
        decimal_spec(n / 10).push(crate::clock::digit(n % 10))
    }
}

/// `n` in decimal.
pub fn decimal(n: usize) -> (s: String)
    ensures
        s@ == decimal_spec(n as nat),
    decreases n,
{
    let d = ((n % 10) as u8 + 48u8) as char;
    if n < 10 {
        let mut s = String::new();
        push_char(&mut s, d);
        s
    } else {
        let mut s = decimal(n / 10);
        push_char(&mut s, d);
        s
    }
}

/// `s` padded on the left with spaces to `w` characters.
pub open spec fn pad_left(s: Seq<char>, w: nat) -> Seq<char> {
    if s.len() >= w {
        s
    } else {
        Seq::new((w - s.len()) as nat, |i: int| ' ') + s
    }
}

/// `n` spaces.
pub open spec fn spaces(n: nat) -> Seq<char> {
    Seq::new(n, |i: int| ' ')
}

fn push_spaces(s: &mut String, n: usize)
    ensures
        final(s)@ == old(s)@ + spaces(n as nat),
{
    let mut i: usize = 0;
    while i < n
        invariant
            i <= n,
            s@ == old(s)@ + spaces(i as nat),
        decreases n - i,
    {
        push_char(s, ' ');
        proof {
            assert(spaces((i + 1) as nat) == spaces(i as nat).push(' '));
        }
        i = i + 1;
    }
}

/// The lines of a scrollback of `total` lines that a pane of `height`
/// rows shows, scrolled back by `scroll` lines (at most to the first line).
pub open spec fn visible_range_spec(total: nat, scroll: nat, height: nat) -> (nat, nat) {
    let last = if total >= 1 {
        (total - 1) as nat
    } else {
        0
    };
    let s = if scroll <= last {
        scroll
    } else {
        last
    };
    let end = (total - s) as nat;
    let start = if end >= height {
        (end - height) as nat
    } else {
        0
    };
    (start, end)
}

/// The range of lines to show: `(start, end)`.
pub fn visible_range(total: usize, scroll: usize, height: usize) -> (r: (usize, usize))
    ensures
        (r.0 as nat, r.1 as nat) == visible_range_spec(total as nat, scroll as nat, height as nat),
        r.0 <= r.1 <= total,
        r.1 - r.0 <= height,
{
    let s = if scroll < total.saturating_sub(1) {
        scroll
    } else {
        total.saturating_sub(1)
    };
    let end = total.saturating_sub(s);
    let start = end.saturating_sub(height);
    (start, end)
}

} // verus!
