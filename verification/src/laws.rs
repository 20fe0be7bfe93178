//! Properties of the client that hold across operations.

use vstd::prelude::*;
use crate::app::{
    apply_ok, apply_spec, ev_buffer, has_current, is_first_named, joined, lemma_apply_frame,
    lemma_slot, lemma_submit_frame, lemma_with_nicks_frame, mentions, new_buffer, nicks_of, parted,
    push_spec, scroll_spec, scrollback_limit, scrolled, slot, submit_spec, switch_spec, cycled, with_buffer,
    with_nicks, AppView, BufferView, EventView, Kind, MsgView,
};
use crate::complete::{
    completion_index, completion_prefix, last_word, lemma_word_start_exists, word_start,
    complete_spec, completed_cursor, completion_fits, completion_nick, completion_start,
    completion_suffix, cursor_ok, has_completion,
};
use crate::keys::{key_spec, KeyCode, KeyPress};
use crate::nicks::{lemma_stable_sort_exists, nicks_sorted, sorted_nicks, stable_sort_of};
use crate::text::{contains_seq, occurs_at};
use crate::text::{lemma_char_pos, lemma_utf8_len_take_strict, strip_sigils, lowercase, sigil_run, char_pos, char_width, is_boundary, lemma_utf8_len_concat, lemma_utf8_len_push, utf8_len};

verus! {

/// No two buffers have the same name.
pub open spec fn names_distinct(bufs: Seq<BufferView>) -> bool {
    forall|i: int, j: int|
        0 <= i < bufs.len() && 0 <= j < bufs.len() && i != j ==> #[trigger] bufs[i].name
            != #[trigger] bufs[j].name
}

/// Every buffer keeps at most the scrollback limit of messages.
pub open spec fn scrollback_bounded(bufs: Seq<BufferView>) -> bool {
    forall|i: int| 0 <= i < bufs.len() ==> (#[trigger] bufs[i]).msgs.len() <= scrollback_limit()
}

/// Replacing the buffer at `slot` by one of the same name keeps it the
/// first buffer of that name.
proof fn lemma_slot_stable(bufs: Seq<BufferView>, name: Seq<char>, b: BufferView)
    requires
        b.name == name,
    ensures
        ({
            let i = slot(bufs, name);
            let r = with_buffer(bufs, name).update(i, b);
            &&& slot(r, name) == i
            &&& with_buffer(r, name) == r
        }),
{
    lemma_slot(bufs, name);
    let i = slot(bufs, name);
    let r = with_buffer(bufs, name).update(i, b);
    lemma_slot(r, name);
    assert(r[i].name == name);
    let c = slot(r, name);
    if c == r.len() {
        assert(r[i].name != name);
    }
    assert(is_first_named(r, name, c));
    if c < i {
        assert(r[c] == with_buffer(bufs, name)[c]);
        if i < bufs.len() {
            assert(is_first_named(bufs, name, i));
            assert(bufs[c].name != name);
        } else {
            assert(bufs[c].name != name);
        }
    } else if c > i {
        assert(r[i].name != name);
    }
}

/// What was appended is read back: after `push`, the buffer called
/// `target` exists, still sits where it was found or created, and its last
/// message is the one appended.
pub proof fn push_then_read(a: AppView, target: Seq<char>, m: MsgView)
    requires
        has_current(a),
    ensures
        ({
            let r = push_spec(a, target, m);
            let i = slot(a.buffers, target);
            &&& 0 <= i < r.buffers.len()
            &&& slot(r.buffers, target) == i
            &&& r.buffers[i].name == target
            &&& r.buffers[i].msgs.len() > 0
            &&& r.buffers[i].msgs.last() == m
        }),
{
    lemma_slot(a.buffers, target);
    let i = slot(a.buffers, target);
    let r = push_spec(a, target, m);
    lemma_slot_stable(a.buffers, target, r.buffers[i]);
    let msgs = with_buffer(a.buffers, target)[i].msgs.push(m);
    if msgs.len() > scrollback_limit() {
        assert(msgs.skip(1000).last() == m);
    }
}

/// Appending keeps every buffer within the scrollback limit.
pub proof fn push_keeps_scrollback_bounded(a: AppView, target: Seq<char>, m: MsgView)
    requires
        has_current(a),
        scrollback_bounded(a.buffers),
    ensures
        scrollback_bounded(push_spec(a, target, m).buffers),
{
    lemma_slot(a.buffers, target);
    let r = push_spec(a, target, m);
    let i = slot(a.buffers, target);
    let bufs = with_buffer(a.buffers, target);
    assert forall|j: int| 0 <= j < r.buffers.len() implies (#[trigger] r.buffers[j]).msgs.len()
        <= scrollback_limit() by {
        if j != i {
            if j < a.buffers.len() {
                assert(r.buffers[j] == a.buffers[j]);
            } else {
                assert(bufs[j] == new_buffer(target));
            }
        }
    }
}

/// A message to the current buffer leaves its activity marks alone; one to
/// another buffer marks it unread, and highlighted when it mentions the
/// user's nick. No other buffer changes.
pub proof fn push_marks_activity(a: AppView, target: Seq<char>, m: MsgView)
    requires
        has_current(a),
    ensures
        ({
            let r = push_spec(a, target, m);
            let i = slot(a.buffers, target);
            let before = with_buffer(a.buffers, target);
            &&& a.buffers[a.current as int].name == target ==> {
                &&& r.buffers[i].unread == before[i].unread
                &&& r.buffers[i].highlight == before[i].highlight
            }
            &&& a.buffers[a.current as int].name != target ==> {
                &&& r.buffers[i].unread
                &&& r.buffers[i].highlight == (before[i].highlight || mentions(m.text, a.nick))
            }
            &&& forall|j: int| 0 <= j < r.buffers.len() && j != i ==> r.buffers[j] == before[j]
        }),
{
    lemma_slot(a.buffers, target);
}

/// Events never rename a buffer into a clash: buffer names stay distinct.
pub proof fn apply_keeps_names_distinct(a: AppView, ev: EventView, ts: Seq<char>)
    requires
        apply_ok(a, ev),
        names_distinct(a.buffers),
    ensures
        names_distinct(apply_spec(a, ev, ts).buffers),
{
    let name = ev_buffer(ev);
    lemma_slot(a.buffers, name);
    let bufs = with_buffer(a.buffers, name);
    let i = slot(a.buffers, name);
    assert(names_distinct(bufs)) by {
        assert forall|p: int, q: int|
            0 <= p < bufs.len() && 0 <= q < bufs.len() && p != q implies #[trigger] bufs[p].name
            != #[trigger] bufs[q].name by {
            if p < a.buffers.len() && q < a.buffers.len() {
            } else if p == a.buffers.len() {
                assert(bufs[q] == a.buffers[q]);
            } else {
                assert(bufs[p] == a.buffers[p]);
            }
        }
    }
    let r = apply_spec(a, ev, ts);
    lemma_apply_frame(a, ev, ts);
    // Every buffer of the result is the one of `bufs` at the same place, up
    // to its messages, nicks and marks.
    assert forall|p: int| 0 <= p < r.buffers.len() implies (#[trigger] r.buffers[p]).name
        == bufs[p].name by {
        lemma_names_kept(a, ev, ts, p);
    }
    assert forall|p: int, q: int|
        0 <= p < r.buffers.len() && 0 <= q < r.buffers.len() && p != q implies #[trigger] r.buffers[p].name
        != #[trigger] r.buffers[q].name by {
        lemma_names_kept(a, ev, ts, p);
        lemma_names_kept(a, ev, ts, q);
    }
}

proof fn lemma_names_kept(a: AppView, ev: EventView, ts: Seq<char>, p: int)
    requires
        apply_ok(a, ev),
        0 <= p < apply_spec(a, ev, ts).buffers.len(),
    ensures
        apply_spec(a, ev, ts).buffers.len() == with_buffer(a.buffers, ev_buffer(ev)).len(),
        apply_spec(a, ev, ts).buffers[p].name == with_buffer(a.buffers, ev_buffer(ev))[p].name,
{
    let name = ev_buffer(ev);
    lemma_slot(a.buffers, name);
    let i = slot(a.buffers, name);
    match ev {
        EventView::Join { buffer, nick } => {
            let n = joined(nicks_of(a, buffer), nick);
            let a1 = with_nicks(a, buffer, n);
            lemma_with_nicks_frame(a, buffer, n);
            lemma_slot(a1.buffers, buffer);
        },
        EventView::Part { buffer, nick } => {
            let n = parted(nicks_of(a, buffer), nick);
            let a1 = with_nicks(a, buffer, n);
            lemma_with_nicks_frame(a, buffer, n);
            lemma_slot(a1.buffers, buffer);
        },
        _ => {},
    }
}

/// Switching to an existing buffer makes it current and clears its unread
/// and highlight marks; switching to a missing one changes nothing.
pub proof fn switch_clears_marks(a: AppView, i: int)
    requires
        a.buffers.len() <= usize::MAX,
    ensures
        0 <= i < a.buffers.len() ==> {
            let r = switch_spec(a, i);
            &&& r.current == i
            &&& !r.buffers[i].unread
            &&& !r.buffers[i].highlight
            &&& r.buffers[i].msgs == a.buffers[i].msgs
        },
        !(0 <= i < a.buffers.len()) ==> switch_spec(a, i) == a,
{
}

/// Cycling forward by `d` buffers and then back by `d` returns to the
/// buffer one started from.
pub proof fn cycle_round_trip(a: AppView, d: int)
    requires
        has_current(a),
        a.buffers.len() <= isize::MAX,
    ensures
        ({
            let b = switch_spec(a, cycled(a, d));
            &&& b.buffers.len() == a.buffers.len()
            &&& switch_spec(b, cycled(b, -d)).current == a.current
        }),
{
    let n = a.buffers.len() as int;
    assert((a.current as isize) as int == a.current as int);
    let j = (a.current + d) % n;
    vstd::arithmetic::div_mod::lemma_mod_bound(a.current + d, n);
    let b = switch_spec(a, j);
    assert(b.current == j);
    assert((b.current as isize) as int == j);
    vstd::arithmetic::div_mod::lemma_add_mod_noop(a.current + d, -d, n);
    vstd::arithmetic::div_mod::lemma_mod_twice(a.current + d, n);
    vstd::arithmetic::div_mod::lemma_small_mod(a.current as nat, n as nat);
    vstd::arithmetic::div_mod::lemma_mod_bound(-d, n);
    vstd::arithmetic::div_mod::lemma_add_mod_noop(j, -d, n);
    vstd::arithmetic::div_mod::lemma_mod_twice(-d, n);
}

/// Scrolling never leaves `0..=max`, and Page Up then Page Down returns to
/// the same place when the page fits.
pub proof fn scroll_bounds(s: usize, delta: int, max: usize)
    requires
        max <= isize::MAX,
        s <= max,
    ensures
        scrolled(s, delta, max) <= max,
        s + 10 <= max ==> scrolled(scrolled(s, 10, max), -10, max) == s,
{
    assert((s as isize) as int == s as int);
    if s + 10 <= max {
        let t = scrolled(s, 10, max);
        assert(t == s + 10);
        assert((t as isize) as int == t as int);
    }
}

/// After a completion the cursor stands on a character boundary of the new
/// line, right after the inserted nick and its suffix.
pub proof fn completion_keeps_cursor_on_boundary(a: AppView)
    requires
        cursor_ok(a),
        completion_fits(a),
    ensures
        is_boundary(complete_spec(a).input, complete_spec(a).cursor as int),
{
    if has_completion(a) {
        let ks = char_pos(a.input, completion_start(a));
        let k = char_pos(a.input, a.cursor as int);
        let head = a.input.take(ks) + completion_nick(a) + completion_suffix(a);
        let line = head + a.input.skip(k);
        lemma_utf8_len_concat(a.input.take(ks), completion_nick(a));
        lemma_utf8_len_concat(a.input.take(ks) + completion_nick(a), completion_suffix(a));
        assert(line.take(head.len() as int) == head);
        assert(utf8_len(head) == completed_cursor(a));
        assert(0 <= head.len() <= line.len() && utf8_len(line.take(head.len() as int))
            == completed_cursor(a));
    } else {
        let k = char_pos(a.input, a.cursor as int);
        assert(0 <= k <= a.input.len() && utf8_len(a.input.take(k)) == a.cursor);
    }
}

/// Typing a character inserts it at the cursor and moves the cursor past
/// it, onto a character boundary of the new line.
pub proof fn typing_inserts_at_cursor(a: AppView, c: char, ts: Seq<char>, max: usize)
    requires
        is_boundary(a.input, a.cursor as int),
        a.cursor + char_width(c) <= usize::MAX,
    ensures
        ({
            let k = char_pos(a.input, a.cursor as int);
            let r = key_spec(a, KeyPress { code: KeyCode::Char(c), ctrl: false, alt: false }, max, ts).0;
            &&& r.input == a.input.insert(k, c)
            &&& r.cursor == a.cursor + char_width(c)
            &&& is_boundary(r.input, r.cursor as int)
        }),
{
    let k = char_pos(a.input, a.cursor as int);
    let line = a.input.insert(k, c);
    assert(line.take(k + 1) == a.input.take(k).push(c));
    lemma_utf8_len_push(a.input.take(k), c);
    assert(0 <= k + 1 <= line.len() && utf8_len(line.take(k + 1)) == a.cursor + char_width(c));
}

/// Submitting a non-empty line returns it and clears the input; a line
/// that is not a command is shown in the current buffer as the user's.
pub proof fn submit_echoes(a: AppView, ts: Seq<char>)
    requires
        has_current(a),
        names_distinct(a.buffers),
        a.input.len() > 0,
    ensures
        ({
            let (r, line) = submit_spec(a, ts);
            let b = r.buffers[a.current as int];
            &&& line == Some(a.input)
            &&& r.input.len() == 0
            &&& r.cursor == 0
            &&& r.current == a.current
            &&& a.input[0] != '/' ==> {
                &&& b.msgs.len() > 0
                &&& b.msgs.last().text == a.input
                &&& b.msgs.last().nick == Some(a.nick)
                &&& b.msgs.last().kind == Kind::Privmsg
            }
        }),
{
    lemma_submit_frame(a, ts);
    if a.input[0] != '/' {
        let cleared = AppView { input: Seq::empty(), cursor: 0, ..a };
        let target = a.buffers[a.current as int].name;
        let m = MsgView { ts, nick: Some(a.nick), text: a.input, kind: Kind::Privmsg };
        lemma_current_is_slot(a.buffers, a.current as int);
        push_then_read(cleared, target, m);
    }
}

/// With distinct names, a buffer is the one its name leads to.
proof fn lemma_current_is_slot(bufs: Seq<BufferView>, c: int)
    requires
        0 <= c < bufs.len(),
        names_distinct(bufs),
    ensures
        slot(bufs, bufs[c].name) == c,
{
    let name = bufs[c].name;
    lemma_slot(bufs, name);
    assert(is_first_named(bufs, name, c));
    let s = slot(bufs, name);
    if s != c {
        if s == bufs.len() {
            assert(bufs[c].name != name);
        } else {
            assert(bufs[s].name == name);
        }
    }
}

/// Cycling lands on an existing buffer, which becomes current with its
/// marks cleared; no other buffer changes.
pub proof fn cycle_switches(a: AppView, delta: int)
    requires
        a.buffers.len() > 0,
        a.buffers.len() <= usize::MAX,
    ensures
        ({
            let i = cycled(a, delta);
            let r = switch_spec(a, i);
            &&& 0 <= i < a.buffers.len()
            &&& r.current == i
            &&& !r.buffers[i].unread
            &&& !r.buffers[i].highlight
            &&& r.buffers.len() == a.buffers.len()
            &&& forall|j: int| 0 <= j < a.buffers.len() && j != i ==> r.buffers[j] == a.buffers[j]
        }),
{
    vstd::arithmetic::div_mod::lemma_mod_bound(
        (a.current as isize) as int + delta,
        a.buffers.len() as int,
    );
}

/// The command keys do what the operations they stand for do: Alt with a
/// digit switches to that buffer (Alt-0 to none), Ctrl-N and Ctrl-P cycle,
/// Page Up and Page Down scroll by ten lines, Tab completes; none sends
/// anything.
pub proof fn command_keys(a: AppView, c: char, max: usize, ts: Seq<char>)
    ensures
        '0' <= c && c <= '9' ==> key_spec(
            a,
            KeyPress { code: KeyCode::Char(c), ctrl: false, alt: true },
            max,
            ts,
        ) == (if c == '0' {
            a
        } else {
            switch_spec(a, c as u32 - '1' as u32)
        }, None::<Seq<char>>),
        key_spec(a, KeyPress { code: KeyCode::Char('n'), ctrl: true, alt: false }, max, ts) == (
            switch_spec(a, cycled(a, 1)),
            None::<Seq<char>>,
        ),
        key_spec(a, KeyPress { code: KeyCode::Char('p'), ctrl: true, alt: false }, max, ts) == (
            switch_spec(a, cycled(a, -1)),
            None::<Seq<char>>,
        ),
        key_spec(a, KeyPress { code: KeyCode::PageUp, ctrl: false, alt: false }, max, ts) == (
            scroll_spec(a, 10, max),
            None::<Seq<char>>,
        ),
        key_spec(a, KeyPress { code: KeyCode::PageDown, ctrl: false, alt: false }, max, ts) == (
            scroll_spec(a, -10, max),
            None::<Seq<char>>,
        ),
        key_spec(a, KeyPress { code: KeyCode::Tab, ctrl: false, alt: false }, max, ts) == (
            complete_spec(a),
            None::<Seq<char>>,
        ),
{
}

proof fn lemma_strip_shorter(s: Seq<char>)
    ensures
        utf8_len(strip_sigils(s)) <= utf8_len(s),
{
    lemma_sigil_run_exists(s);
    let k = choose|k: int| sigil_run(s, k);
    assert(s == s.take(k) + s.skip(k));
    lemma_utf8_len_concat(s.take(k), s.skip(k));
}

proof fn lemma_sigil_run_exists(s: Seq<char>)
    ensures
        exists|k: int| sigil_run(s, k),
    decreases s.len(),
{
    if s.len() == 0 || !(s[0] == '@' || s[0] == '+') {
        assert(sigil_run(s, 0));
    } else {
        lemma_sigil_run_exists(s.drop_first());
        let k = choose|k: int| sigil_run(s.drop_first(), k);
        assert forall|j: int| 0 <= j < k + 1 implies crate::text::is_sigil(#[trigger] s[j]) by {
            if j > 0 {
                assert(s[j] == s.drop_first()[j - 1]);
            }
        }
        if k + 1 < s.len() {
            assert(s[k + 1] == s.drop_first()[k]);
        }
        assert(sigil_run(s, k + 1));
    }
}

proof fn lemma_suffix_len()
    ensures
        utf8_len(": "@) == 2,
        utf8_len(" "@) == 1,
{
    reveal_strlit(": ");
    reveal_strlit(" ");
    assert(": "@ == Seq::<char>::empty().push(':').push(' '));
    assert(" "@ == Seq::<char>::empty().push(' '));
    lemma_utf8_len_push(Seq::<char>::empty(), ':');
    lemma_utf8_len_push(Seq::<char>::empty().push(':'), ' ');
    lemma_utf8_len_push(Seq::<char>::empty(), ' ');
    assert(utf8_len(Seq::<char>::empty()) == 0);
}

/// Completion cannot fail when lower-casing keeps the byte length of the
/// word before the cursor (as for ASCII) and the longest result fits in
/// `usize`: the replaced range then starts where the word does.
pub proof fn completion_fits_when_case_keeps_length(a: AppView)
    requires
        cursor_ok(a),
        ({
            let k = char_pos(a.input, a.cursor as int);
            let w = last_word(a.input.take(k));
            utf8_len(lowercase(w)) == utf8_len(w)
        }),
        forall|i: int|
            0 <= i < a.buffers[a.current as int].nicks.len() ==> a.cursor + utf8_len(
                #[trigger] a.buffers[a.current as int].nicks[i],
            ) + 2 <= usize::MAX,
    ensures
        completion_fits(a),
{
    if has_completion(a) {
        let k = char_pos(a.input, a.cursor as int);
        let t = a.input.take(k);
        lemma_word_start_exists(t);
        let ws = choose|w: int| word_start(t, w);
        let w = t.skip(ws);
        assert(t == t.take(ws) + w);
        lemma_utf8_len_concat(t.take(ws), w);
        assert(t.take(ws) == a.input.take(ws));
        assert(completion_start(a) == utf8_len(a.input.take(ws)));
        assert(0 <= ws <= a.input.len() && utf8_len(a.input.take(ws)) == completion_start(a));
        let nicks = a.buffers[a.current as int].nicks;
        let i = completion_index(nicks, completion_prefix(a));
        lemma_strip_shorter(nicks[i]);
        lemma_suffix_len();
    }
}

/// A message to a buffer other than the current one marks it unread, and
/// highlights it exactly when the lower-case nick occurs somewhere in the
/// lower-case text, from its very first character on (or it was already
/// highlighted).
pub proof fn highlight_iff_nick_occurs(a: AppView, target: Seq<char>, m: MsgView)
    requires
        has_current(a),
        a.buffers[a.current as int].name != target,
    ensures
        ({
            let r = push_spec(a, target, m);
            let i = slot(a.buffers, target);
            let t = lowercase(m.text);
            let n = lowercase(a.nick);
            &&& r.buffers[i].unread
            &&& r.buffers[i].highlight == (with_buffer(a.buffers, target)[i].highlight || exists|
                p: int,
            |
                0 <= p && p + n.len() <= t.len() && #[trigger] t.subrange(p, p + n.len()) == n)
        }),
        lowercase(a.nick).len() <= lowercase(m.text).len() && lowercase(m.text).subrange(
            0,
            lowercase(a.nick).len() as int,
        ) == lowercase(a.nick) ==> push_spec(a, target, m).buffers[slot(a.buffers, target)].highlight,
{
    lemma_slot(a.buffers, target);
    let t = lowercase(m.text);
    let n = lowercase(a.nick);
    if contains_seq(t, n) {
        let p = choose|p: int| #[trigger] occurs_at(t, n, p);
        assert(0 <= p && p + n.len() <= t.len() && t.subrange(p, p + n.len()) == n);
    }
    if exists|p: int| 0 <= p && p + n.len() <= t.len() && #[trigger] t.subrange(p, p + n.len()) == n {
        let p = choose|p: int| 0 <= p && p + n.len() <= t.len() && #[trigger] t.subrange(p, p + n.len()) == n;
        assert(occurs_at(t, n, p));
    }
    if n.len() <= t.len() && t.subrange(0, n.len() as int) == n {
        assert(occurs_at(t, n, 0));
    }
}

/// The nick that completion inserts is, without its status prefixes, the
/// first nick of the current buffer whose lower-case bare name begins with
/// the lower-case word before the cursor; when no nick begins so, or the
/// word is empty, nothing changes.
pub proof fn completion_picks_first_prefix_match(a: AppView)
    requires
        has_current(a),
    ensures
        ({
            let prefix = completion_prefix(a);
            let nicks = a.buffers[a.current as int].nicks;
            &&& has_completion(a) ==> exists|i: int|
                0 <= i < nicks.len() && prefix.len() > 0 && prefix.len() <= lowercase(
                    strip_sigils(#[trigger] nicks[i]),
                ).len() && lowercase(strip_sigils(nicks[i])).subrange(0, prefix.len() as int)
                    == prefix && (forall|j: int|
                    0 <= j < i ==> !(prefix.len() <= lowercase(strip_sigils(#[trigger] nicks[j])).len()
                        && lowercase(strip_sigils(nicks[j])).subrange(0, prefix.len() as int)
                        == prefix)) && completion_nick(a) == strip_sigils(nicks[i])
            &&& (prefix.len() > 0 && exists|j: int|
                0 <= j < nicks.len() && prefix.len() <= lowercase(
                    strip_sigils(#[trigger] nicks[j]),
                ).len() && lowercase(strip_sigils(nicks[j])).subrange(0, prefix.len() as int)
                    == prefix) ==> has_completion(a)
            &&& !has_completion(a) ==> complete_spec(a) == a
        }),
{
    let prefix = completion_prefix(a);
    let nicks = a.buffers[a.current as int].nicks;
    if has_completion(a) {
        let i = completion_index(nicks, prefix);
        assert(crate::complete::is_first_completion(nicks, prefix, i));
        assert forall|j: int| 0 <= j < i implies !(prefix.len() <= lowercase(
            strip_sigils(#[trigger] nicks[j]),
        ).len() && lowercase(strip_sigils(nicks[j])).subrange(0, prefix.len() as int) == prefix) by {
            assert(!crate::complete::completes(nicks[j], prefix));
        }
    }
    if prefix.len() > 0 && exists|j: int|
        0 <= j < nicks.len() && prefix.len() <= lowercase(strip_sigils(#[trigger] nicks[j])).len()
            && lowercase(strip_sigils(nicks[j])).subrange(0, prefix.len() as int) == prefix {
        let j = choose|j: int|
            0 <= j < nicks.len() && prefix.len() <= lowercase(strip_sigils(#[trigger] nicks[j])).len()
                && lowercase(strip_sigils(nicks[j])).subrange(0, prefix.len() as int) == prefix;
        assert(crate::complete::completes(nicks[j], prefix));
        lemma_first_completion_exists(nicks, prefix, j);
    }
}

proof fn lemma_first_completion_exists(nicks: Seq<Seq<char>>, prefix: Seq<char>, j: int)
    requires
        0 <= j < nicks.len(),
        crate::complete::completes(nicks[j], prefix),
    ensures
        exists|i: int| crate::complete::is_first_completion(nicks, prefix, i),
    decreases j,
{
    if forall|k: int| 0 <= k < j ==> !crate::complete::completes(#[trigger] nicks[k], prefix) {
        assert(crate::complete::is_first_completion(nicks, prefix, j));
    } else {
        let k = choose|k: int| 0 <= k < j && crate::complete::completes(#[trigger] nicks[k], prefix);
        lemma_first_completion_exists(nicks, prefix, k);
    }
}

/// The cursor keys move only the cursor: Left one byte back (not past the
/// start), Right one byte on (not past the end of the line), Home to the
/// start, End to the end; the line itself and everything else stay.
pub proof fn cursor_keys_move_by_one(a: AppView, max: usize, ts: Seq<char>, ctrl: bool, alt: bool)
    requires
        a.cursor < usize::MAX,
        utf8_len(a.input) <= usize::MAX,
    ensures
        ({
            let right = key_spec(a, KeyPress { code: KeyCode::Right, ctrl, alt }, max, ts);
            let left = key_spec(a, KeyPress { code: KeyCode::Left, ctrl, alt }, max, ts);
            let home = key_spec(a, KeyPress { code: KeyCode::Home, ctrl, alt }, max, ts);
            let end = key_spec(a, KeyPress { code: KeyCode::End, ctrl, alt }, max, ts);
            let bytes = utf8_len(a.input) as int;
            &&& right.1 is None && left.1 is None && home.1 is None && end.1 is None
            &&& right.0 == AppView {
                cursor: (if a.cursor + 1 < bytes {
                    a.cursor + 1
                } else {
                    bytes
                }) as usize,
                ..a
            }
            &&& left.0 == AppView {
                cursor: (if a.cursor > 0 {
                    a.cursor - 1
                } else {
                    0
                }) as usize,
                ..a
            }
            &&& home.0 == AppView { cursor: 0, ..a }
            &&& end.0 == AppView { cursor: bytes as usize, ..a }
        }),
{
}

/// A `Names` reply replaces the buffer's nick list by the list it carries,
/// sorted: whatever the buffer held before, its list afterwards holds the
/// reply's nicks, each as often, in nick-list order, with nicks the order
/// does not tell apart kept as the reply had them.
pub proof fn names_replace_the_list(
    a: AppView,
    buffer: Seq<char>,
    nicks: Seq<Seq<char>>,
    ts: Seq<char>,
)
    ensures
        ({
            let r = apply_spec(a, EventView::Names { buffer, nicks }, ts);
            &&& stable_sort_of(nicks, nicks_of(r, buffer))
            &&& nicks_of(r, buffer).to_multiset() == nicks.to_multiset()
            &&& nicks_sorted(nicks_of(r, buffer))
        }),
{
    lemma_with_nicks_frame(a, buffer, sorted_nicks(nicks));
    lemma_slot(a.buffers, buffer);
    lemma_stable_sort_exists(nicks);
}

/// Completion replaces the word before the cursor and nothing else: the
/// line keeps what came before the word and what followed the cursor; in
/// between stands the nick, then `": "` when the word began the line and
/// `" "` otherwise; the cursor lands on the character boundary right after
/// them.
pub proof fn completion_replaces_the_word(a: AppView)
    requires
        cursor_ok(a),
        completion_fits(a),
        has_completion(a),
    ensures
        ({
            let r = complete_spec(a);
            let k = char_pos(a.input, a.cursor as int);
            let ks = char_pos(a.input, completion_start(a));
            let n = completion_nick(a);
            let sfx = if ks == 0 {
                ": "@
            } else {
                " "@
            };
            let m = ks + n.len() + sfx.len();
            &&& 0 <= ks <= k <= a.input.len()
            &&& r.input.len() == m + (a.input.len() - k)
            &&& r.input.subrange(0, ks) == a.input.subrange(0, ks)
            &&& r.input.subrange(ks, ks + n.len()) == n
            &&& r.input.subrange(ks + n.len(), m) == sfx
            &&& r.input.subrange(m, r.input.len() as int) == a.input.subrange(k, a.input.len() as int)
            &&& is_boundary(r.input, r.cursor as int)
            &&& char_pos(r.input, r.cursor as int) == m
            &&& r.buffers == a.buffers && r.current == a.current && r.nick == a.nick
        }),
{
    let k = char_pos(a.input, a.cursor as int);
    let ks = char_pos(a.input, completion_start(a));
    let start = completion_start(a);
    assert(0 <= ks <= a.input.len() && utf8_len(a.input.take(ks)) == start);
    assert(0 <= k <= a.input.len() && utf8_len(a.input.take(k)) == a.cursor);
    if ks > k {
        lemma_utf8_len_take_strict(a.input, k, ks);
    }
    if ks == 0 {
        assert(a.input.take(0) =~= Seq::<char>::empty());
        assert(start == 0);
    } else {
        lemma_utf8_len_take_strict(a.input, 0, ks);
        assert(a.input.take(0) =~= Seq::<char>::empty());
        assert(utf8_len(Seq::<char>::empty()) == 0);
    }
    let n = completion_nick(a);
    let sfx = completion_suffix(a);
    let head = a.input.take(ks) + n + sfx;
    let line = head + a.input.skip(k);
    assert(complete_spec(a).input == line);
    lemma_utf8_len_concat(a.input.take(ks), n);
    lemma_utf8_len_concat(a.input.take(ks) + n, sfx);
    assert(line.take(head.len() as int) == head);
    lemma_char_pos(line, head.len() as int);
    assert(line.subrange(0, ks) =~= a.input.subrange(0, ks));
    assert(line.subrange(ks, ks + n.len()) =~= n);
    assert(line.subrange(ks + n.len(), head.len() as int) =~= sfx);
    assert(line.subrange(head.len() as int, line.len() as int) =~= a.input.subrange(
        k,
        a.input.len() as int,
    ));
}

proof fn lemma_filter_count(s: Seq<Seq<char>>, nick: Seq<char>, v: Seq<char>)
    ensures
        parted(s, nick).to_multiset().count(v) == if v == nick {
            0
        } else {
            s.to_multiset().count(v)
        },
    decreases s.len(),
{
    broadcast use vstd::seq_lib::to_multiset_build;
    broadcast use vstd::multiset::group_multiset_axioms;

    reveal(Seq::filter);
    if s.len() == 0 {
        assert(s.to_multiset() =~= vstd::multiset::Multiset::empty()) by {
            broadcast use vstd::seq_lib::group_to_multiset_ensures;
        }
        assert(parted(s, nick) =~= s);
    } else {
        let t = s.drop_last();
        lemma_filter_count(t, nick, v);
        assert(t.push(s.last()) == s);
        assert(parted(s, nick) == if s.last() != nick {
            parted(t, nick).push(s.last())
        } else {
            parted(t, nick)
        });
    }
}

/// The buffer's nick list after a `Join`, before the announcement is
/// appended, is its list with the nick added: a nick already there is not
/// added twice, and a new one is added once and sorted in.
pub proof fn join_adds_the_nick(a: AppView, buffer: Seq<char>, nick: Seq<char>, ts: Seq<char>)
    requires
        apply_ok(a, EventView::Join { buffer, nick }),
    ensures
        ({
            let old_nicks = nicks_of(a, buffer);
            let r = apply_spec(a, EventView::Join { buffer, nick }, ts);
            let i = slot(a.buffers, buffer);
            let b = r.buffers[i];
            &&& 0 <= i < r.buffers.len()
            &&& b.name == buffer
            &&& b.nicks.contains(nick)
            &&& old_nicks.contains(nick) ==> b.nicks == old_nicks
            &&& !old_nicks.contains(nick) ==> b.nicks.to_multiset() == old_nicks.to_multiset().insert(
                nick,
            ) && nicks_sorted(b.nicks)
            &&& b.msgs.last().text == "--> "@ + nick + " joined"@
            &&& b.msgs.last().nick is None
        }),
{
    let old_nicks = nicks_of(a, buffer);
    let n = joined(old_nicks, nick);
    let a1 = with_nicks(a, buffer, n);
    lemma_slot(a.buffers, buffer);
    lemma_with_nicks_frame(a, buffer, n);
    let i = slot(a.buffers, buffer);
    let m = crate::app::status_msg(ts, crate::app::join_text(nick));
    push_then_read(a1, buffer, m);
    assert(with_buffer(a1.buffers, buffer)[i].nicks == n);
    if !old_nicks.contains(nick) {
        lemma_stable_sort_exists(old_nicks.push(nick));
        let sorted = sorted_nicks(old_nicks.push(nick));
        broadcast use vstd::seq_lib::to_multiset_build;

        assert(sorted.to_multiset().count(nick) > 0) by {
            broadcast use vstd::multiset::group_multiset_axioms;

        }
        broadcast use vstd::seq_lib::to_multiset_contains;

    }
}

/// After a `Part` the nick is gone from the buffer's list, every other
/// nick is there as often as before, and the part is announced.
pub proof fn part_removes_the_nick(a: AppView, buffer: Seq<char>, nick: Seq<char>, ts: Seq<char>)
    requires
        apply_ok(a, EventView::Part { buffer, nick }),
    ensures
        ({
            let old_nicks = nicks_of(a, buffer);
            let r = apply_spec(a, EventView::Part { buffer, nick }, ts);
            let i = slot(a.buffers, buffer);
            let b = r.buffers[i];
            &&& 0 <= i < r.buffers.len()
            &&& b.name == buffer
            &&& !b.nicks.contains(nick)
            &&& forall|v: Seq<char>|
                v != nick ==> #[trigger] b.nicks.to_multiset().count(v) == old_nicks.to_multiset().count(
                    v,
                )
            &&& b.msgs.last().text == "<-- "@ + nick + " left"@
        }),
{
    let old_nicks = nicks_of(a, buffer);
    let n = parted(old_nicks, nick);
    let a1 = with_nicks(a, buffer, n);
    lemma_slot(a.buffers, buffer);
    lemma_with_nicks_frame(a, buffer, n);
    let i = slot(a.buffers, buffer);
    let m = crate::app::status_msg(ts, crate::app::part_text(nick));
    push_then_read(a1, buffer, m);
    assert(with_buffer(a1.buffers, buffer)[i].nicks == n);
    assert forall|v: Seq<char>| v != nick implies #[trigger] n.to_multiset().count(v)
        == old_nicks.to_multiset().count(v) by {
        lemma_filter_count(old_nicks, nick, v);
    }
    lemma_filter_count(old_nicks, nick, nick);
    if n.contains(nick) {
        broadcast use vstd::seq_lib::to_multiset_contains;

        assert(n.to_multiset().count(nick) > 0);
    }
}

/// The editing keys: Backspace deletes the character that ends one byte
/// before the cursor and moves the cursor back a byte; Delete deletes the
/// character at the cursor; Ctrl-U deletes everything before the cursor
/// and puts the cursor at the start. At the ends of the line Backspace and
/// Delete do nothing.
pub proof fn editing_keys(a: AppView, max: usize, ts: Seq<char>)
    ensures
        ({
            let bs = key_spec(a, KeyPress { code: KeyCode::Backspace, ctrl: false, alt: false }, max, ts);
            let j = char_pos(a.input, a.cursor - 1);
            &&& bs.1 is None
            &&& a.cursor == 0 ==> bs.0 == a
            &&& a.cursor > 0 && 0 <= j < a.input.len() ==> bs.0 == AppView {
                input: a.input.take(j) + a.input.skip(j + 1),
                cursor: (a.cursor - 1) as usize,
                ..a
            }
        }),
        ({
            let del = key_spec(a, KeyPress { code: KeyCode::Delete, ctrl: false, alt: false }, max, ts);
            let k = char_pos(a.input, a.cursor as int);
            &&& del.1 is None
            &&& a.cursor >= utf8_len(a.input) as usize ==> del.0 == a
            &&& a.cursor < utf8_len(a.input) as usize && 0 <= k < a.input.len() ==> del.0 == AppView {
                input: a.input.take(k) + a.input.skip(k + 1),
                ..a
            }
        }),
        ({
            let cu = key_spec(a, KeyPress { code: KeyCode::Char('u'), ctrl: true, alt: false }, max, ts);
            let k = char_pos(a.input, a.cursor as int);
            &&& cu.1 is None
            &&& cu.0 == AppView { input: a.input.skip(k), cursor: 0, ..a }
        }),
{
    let j = char_pos(a.input, a.cursor - 1);
    let k = char_pos(a.input, a.cursor as int);
    if 0 <= j < a.input.len() {
        assert(a.input.remove(j) =~= a.input.take(j) + a.input.skip(j + 1));
    }
    if 0 <= k < a.input.len() {
        assert(a.input.remove(k) =~= a.input.take(k) + a.input.skip(k + 1));
    }
}

/// The word completion looks at is the text between the last space before
/// the cursor (or the start of the line) and the cursor, in lower case.
pub proof fn completion_word_is_last_word(a: AppView)
    requires
        is_boundary(a.input, a.cursor as int),
    ensures
        ({
            let k = char_pos(a.input, a.cursor as int);
            exists|ws: int|
                0 <= ws <= k && (forall|j: int| ws <= j < k ==> #[trigger] a.input[j] != ' ') && (ws
                    == 0 || a.input[ws - 1] == ' ') && completion_prefix(a) == lowercase(
                    #[trigger] a.input.subrange(ws, k),
                )
        }),
{
    let k = char_pos(a.input, a.cursor as int);
    let t = a.input.take(k);
    lemma_word_start_exists(t);
    let ws = choose|w: int| word_start(t, w);
    assert(word_start(t, ws));
    assert(t.skip(ws) =~= a.input.subrange(ws, k));
    assert forall|j: int| ws <= j < k implies #[trigger] a.input[j] != ' ' by {
        assert(t[j] == a.input[j]);
    }
    if ws > 0 {
        assert(t[ws - 1] == a.input[ws - 1]);
    }
    assert(completion_prefix(a) == lowercase(a.input.subrange(ws, k)));
}

} // verus!
