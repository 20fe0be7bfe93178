//! The scripted server that feeds the client before a real connection
//! exists: a greeting, then one channel line per tick.

use vstd::prelude::*;
use crate::app::{Event, EventView};
use crate::nicks::strings_view;
use crate::text::copy_str;

verus! {

/// The nick of the `i`-th scripted line (of four, repeating).
pub open spec fn chatter_nick(i: nat) -> Seq<char> {
    if i % 4 == 0 {
        "alice"@
    } else if i % 4 == 1 {
        "bob"@
    } else if i % 4 == 2 {
        "carol"@
    } else {
        "dave"@
    }
}

/// The text of the `i`-th scripted line.
pub open spec fn chatter_text(i: nat) -> Seq<char> {
    if i % 4 == 0 {
        "the borrow checker is just type errors with extra steps"@
    } else if i % 4 == 1 {
        "me: has anyone actually read RFC 2812 all the way through"@
    } else if i % 4 == 2 {
        "only the parts that were still true"@
    } else {
        "PING timeouts are the real protocol"@
    }
}

/// The events the scripted server sends on connecting: a status line and
/// the names of `#rust`.
pub fn fake_greeting() -> (evs: Vec<Event>)
    ensures
        evs@.len() == 2,
        evs@[0]@ == (EventView::Status {
            buffer: "*status*"@,
            text: "connected to irc.example.net"@,
        }),
        evs@[1]@ == (EventView::Names {
            buffer: "#rust"@,
            nicks: seq!["@alice"@, "+bob"@, "carol"@, "dave"@],
        }),
{
    let mut nicks: Vec<String> = Vec::new();
    nicks.push(copy_str("@alice"));
    nicks.push(copy_str("+bob"));
    nicks.push(copy_str("carol"));
    nicks.push(copy_str("dave"));
    let mut evs: Vec<Event> = Vec::new();
    evs.push(
        Event::Status {
            buffer: copy_str("*status*"),
            text: copy_str("connected to irc.example.net"),
        },
    );
    evs.push(Event::Names { buffer: copy_str("#rust"), nicks });
    proof {
        assert(strings_view(nicks@) =~= seq!["@alice"@, "+bob"@, "carol"@, "dave"@]);
    }
    evs
}

/// The `i`-th scripted channel line, sent to `#rust`.
pub fn fake_line(i: usize) -> (ev: Event)
    ensures
        ev@ == (EventView::Line {
            buffer: "#rust"@,
            nick: chatter_nick(i as nat),
            text: chatter_text(i as nat),
        }),
{
    let k = i % 4;
    let (nick, text) = if k == 0 {
        ("alice", "the borrow checker is just type errors with extra steps")
    } else if k == 1 {
        ("bob", "me: has anyone actually read RFC 2812 all the way through")
    } else if k == 2 {
        ("carol", "only the parts that were still true")
    } else {
        ("dave", "PING timeouts are the real protocol")
    };
    Event::Line { buffer: copy_str("#rust"), nick: copy_str(nick), text: copy_str(text) }
}

} // verus!
