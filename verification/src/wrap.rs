//! Greedy word wrapping by character count.

use vstd::prelude::*;
use crate::nicks::strings_view;
use crate::text::{chars_of, copy_str, is_whitespace, string_of, white_space};

verus! {

/// Splitting `s` at whitespace, left to right: the words so far and the
/// word in progress.
pub open spec fn scan_words(s: Seq<char>) -> (Seq<Seq<char>>, Seq<char>)
    decreases s.len(),
{
    if s.len() == 0 {
        (Seq::empty(), Seq::empty())
    } else {
        let (ws, cur) = scan_words(s.drop_last());
        let c = s.last();
        if white_space(c) {
            if cur.len() > 0 {
                (ws.push(cur), Seq::empty())
            } else {
                (ws, cur)
            }
        } else {
            (ws, cur.push(c))
        }
    }
}

/// The maximal runs of non-whitespace characters of `s`, in order.
pub open spec fn words(s: Seq<char>) -> Seq<Seq<char>> {
    let (ws, cur) = scan_words(s);
    if cur.len() > 0 {
        ws.push(cur)
    } else {
        ws
    }
}

/// Cuts full lines of `width` characters off the line in progress while it
/// is longer than that.
pub open spec fn chop(out: Seq<Seq<char>>, cur: Seq<char>, width: nat) -> (Seq<Seq<char>>, Seq<char>)
    decreases cur.len(),
{
    if width > 0 && cur.len() > width {
        chop(out.push(cur.take(width as int)), cur.skip(width as int), width)
    } else {
        (out, cur)
    }
}

/// Adds one word to the lines: to the line in progress when it fits there
/// after a space, else on a new line; then cuts what is too long.
pub open spec fn fill_step(out: Seq<Seq<char>>, cur: Seq<char>, w: Seq<char>, width: nat) -> (
    Seq<Seq<char>>,
    Seq<char>,
) {
    if cur.len() == 0 {
        chop(out, w, width)
    } else if cur.len() + 1 + w.len() <= width {
        chop(out, cur + seq![' '] + w, width)
    } else {
        chop(out.push(cur), w, width)
    }
}

/// The finished lines and the line in progress after the words `ws`.
pub open spec fn fill(ws: Seq<Seq<char>>, width: nat) -> (Seq<Seq<char>>, Seq<char>)
    decreases ws.len(),
{
    if ws.len() == 0 {
        (Seq::empty(), Seq::empty())
    } else {
        let (out, cur) = fill(ws.drop_last(), width);
        fill_step(out, cur, ws.last(), width)
    }
}

/// `text` wrapped into lines of at most `width` characters (unwrapped when
/// `width` is zero): words are joined by single spaces, a word longer than
/// a line is cut, and there is always at least one line.
pub open spec fn wrap_spec(text: Seq<char>, width: nat) -> Seq<Seq<char>> {
    if width == 0 {
        seq![text]
    } else {
        let (out, cur) = fill(words(text), width);
        if cur.len() > 0 || out.len() == 0 {
            out.push(cur)
        } else {
            out
        }
    }
}

/// Every line has at most `width` characters.
pub open spec fn lines_fit(lines: Seq<Seq<char>>, width: nat) -> bool {
    forall|i: int| 0 <= i < lines.len() ==> (#[trigger] lines[i]).len() <= width
}

proof fn lemma_chop_fits(out: Seq<Seq<char>>, cur: Seq<char>, width: nat)
    requires
        width > 0,
        lines_fit(out, width),
    ensures
        lines_fit(chop(out, cur, width).0, width),
        chop(out, cur, width).1.len() <= width,
    decreases cur.len(),
{
    if cur.len() > width {
        let o2 = out.push(cur.take(width as int));
        assert(lines_fit(o2, width)) by {
            assert forall|i: int| 0 <= i < o2.len() implies (#[trigger] o2[i]).len() <= width by {
                if i < out.len() {
                    assert(o2[i] == out[i]);
                }
            }
        }
        lemma_chop_fits(o2, cur.skip(width as int), width);
    }
}

proof fn lemma_fill_fits(ws: Seq<Seq<char>>, width: nat)
    requires
        width > 0,
    ensures
        lines_fit(fill(ws, width).0, width),
        fill(ws, width).1.len() <= width,
    decreases ws.len(),
{
    if ws.len() > 0 {
        lemma_fill_fits(ws.drop_last(), width);
        let (out, cur) = fill(ws.drop_last(), width);
        let w = ws.last();
        if cur.len() == 0 {
            lemma_chop_fits(out, w, width);
        } else if cur.len() + 1 + w.len() <= width {
            lemma_chop_fits(out, cur + seq![' '] + w, width);
        } else {
            let o2 = out.push(cur);
            assert(lines_fit(o2, width)) by {
                assert forall|i: int| 0 <= i < o2.len() implies (#[trigger] o2[i]).len()
                    <= width by {
                    if i < out.len() {
                        assert(o2[i] == out[i]);
                    }
                }
            }
            lemma_chop_fits(o2, w, width);
        }
    }
}

/// Wrapping to a positive width gives at least one line, and no line is
/// longer than the width.
pub proof fn wrap_lines_fit(text: Seq<char>, width: nat)
    requires
        width > 0,
    ensures
        wrap_spec(text, width).len() >= 1,
        lines_fit(wrap_spec(text, width), width),
{
    lemma_fill_fits(words(text), width);
    let (out, cur) = fill(words(text), width);
    if cur.len() > 0 || out.len() == 0 {
        let o2 = out.push(cur);
        assert forall|i: int| 0 <= i < o2.len() implies (#[trigger] o2[i]).len() <= width by {
            if i < out.len() {
                assert(o2[i] == out[i]);
            }
        }
    }
}

/// The characters of the lines, one line after another.
pub open spec fn concat(lines: Seq<Seq<char>>) -> Seq<char>
    decreases lines.len(),
{
    if lines.len() == 0 {
        Seq::empty()
    } else {
        concat(lines.drop_last()) + lines.last()
    }
}

/// The characters of `s` that are not whitespace, in order.
pub open spec fn visible(s: Seq<char>) -> Seq<char> {
    s.filter(|c: char| !white_space(c))
}

/// No character of `s` is whitespace.
pub open spec fn no_white(s: Seq<char>) -> bool {
    forall|i: int| 0 <= i < s.len() ==> !white_space(#[trigger] s[i])
}

/// Every word is non-empty and free of whitespace.
pub open spec fn good_words(ws: Seq<Seq<char>>) -> bool {
    forall|i: int| 0 <= i < ws.len() ==> (#[trigger] ws[i]).len() > 0 && no_white(ws[i])
}

proof fn lemma_concat_push(lines: Seq<Seq<char>>, l: Seq<char>)
    ensures
        concat(lines.push(l)) == concat(lines) + l,
{
    assert(lines.push(l).drop_last() == lines);
}

proof fn lemma_visible_push(s: Seq<char>, c: char)
    ensures
        visible(s.push(c)) == if white_space(c) {
            visible(s)
        } else {
            visible(s).push(c)
        },
{
    reveal(Seq::filter);
    assert(s.push(c).drop_last() == s);
}

proof fn lemma_visible_add(a: Seq<char>, b: Seq<char>)
    ensures
        visible(a + b) == visible(a) + visible(b),
{
    Seq::filter_distributes_over_add(a, b, |c: char| !white_space(c));
}

proof fn lemma_visible_no_white(s: Seq<char>)
    requires
        no_white(s),
    ensures
        visible(s) == s,
    decreases s.len(),
{
    if s.len() > 0 {
        lemma_visible_no_white(s.drop_last());
        lemma_visible_push(s.drop_last(), s.last());
        assert(s.drop_last().push(s.last()) == s);
    } else {
        reveal(Seq::filter);
    }
}

proof fn lemma_scan_words(s: Seq<char>)
    ensures
        good_words(scan_words(s).0),
        no_white(scan_words(s).1),
        concat(scan_words(s).0) + scan_words(s).1 == visible(s),
    decreases s.len(),
{
    if s.len() == 0 {
        reveal(Seq::filter);
        assert(concat(Seq::<Seq<char>>::empty()) + Seq::<char>::empty() == Seq::<char>::empty());
    } else {
        let t = s.drop_last();
        let c = s.last();
        lemma_scan_words(t);
        let (ws, cur) = scan_words(t);
        assert(t.push(c) == s);
        lemma_visible_push(t, c);
        if white_space(c) {
            if cur.len() > 0 {
                lemma_concat_push(ws, cur);
                assert(concat(ws.push(cur)) + Seq::<char>::empty() == concat(ws.push(cur)));
                assert(good_words(ws.push(cur))) by {
                    assert forall|i: int| 0 <= i < ws.push(cur).len() implies (#[trigger] ws.push(
                        cur,
                    )[i]).len() > 0 && no_white(ws.push(cur)[i]) by {
                        if i < ws.len() {
                            assert(ws.push(cur)[i] == ws[i]);
                        }
                    }
                }
            }
        } else {
            assert(concat(ws) + cur.push(c) == (concat(ws) + cur).push(c));
            assert(no_white(cur.push(c))) by {
                assert forall|i: int| 0 <= i < cur.push(c).len() implies !white_space(
                    #[trigger] cur.push(c)[i],
                ) by {
                    if i < cur.len() {
                        assert(cur.push(c)[i] == cur[i]);
                    }
                }
            }
        }
    }
}

proof fn lemma_words(s: Seq<char>)
    ensures
        good_words(words(s)),
        concat(words(s)) == visible(s),
{
    lemma_scan_words(s);
    let (ws, cur) = scan_words(s);
    if cur.len() > 0 {
        lemma_concat_push(ws, cur);
        assert forall|i: int| 0 <= i < ws.push(cur).len() implies (#[trigger] ws.push(cur)[i]).len()
            > 0 && no_white(ws.push(cur)[i]) by {
            if i < ws.len() {
                assert(ws.push(cur)[i] == ws[i]);
            }
        }
    } else {
        assert(cur == Seq::<char>::empty());
        assert(concat(ws) + cur == concat(ws));
    }
}

proof fn lemma_chop_concat(out: Seq<Seq<char>>, cur: Seq<char>, width: nat)
    ensures
        concat(chop(out, cur, width).0) + chop(out, cur, width).1 == concat(out) + cur,
    decreases cur.len(),
{
    if width > 0 && cur.len() > width {
        let o2 = out.push(cur.take(width as int));
        lemma_chop_concat(o2, cur.skip(width as int), width);
        lemma_concat_push(out, cur.take(width as int));
        assert(cur.take(width as int) + cur.skip(width as int) == cur);
        assert(concat(out) + cur.take(width as int) + cur.skip(width as int) == concat(out) + cur);
    }
}

proof fn lemma_fill_visible(ws: Seq<Seq<char>>, width: nat)
    requires
        good_words(ws),
    ensures
        visible(concat(fill(ws, width).0) + fill(ws, width).1) == concat(ws),
    decreases ws.len(),
{
    if ws.len() == 0 {
        reveal(Seq::filter);
        assert(concat(Seq::<Seq<char>>::empty()) + Seq::<char>::empty() == Seq::<char>::empty());
    } else {
        let rest = ws.drop_last();
        assert(good_words(rest)) by {
            assert forall|i: int| 0 <= i < rest.len() implies (#[trigger] rest[i]).len() > 0
                && no_white(rest[i]) by {
                assert(rest[i] == ws[i]);
            }
        }
        lemma_fill_visible(rest, width);
        let (out, cur) = fill(rest, width);
        let w = ws.last();
        assert(no_white(w));
        lemma_visible_no_white(w);
        lemma_visible_add(concat(out), cur);
        if cur.len() == 0 {
            lemma_chop_concat(out, w, width);
            lemma_visible_add(concat(out), w);
            assert(visible(cur) == Seq::<char>::empty()) by {
                reveal(Seq::filter);
            }
        } else if cur.len() + 1 + w.len() <= width {
            lemma_chop_concat(out, cur + seq![' '] + w, width);
            assert(concat(out) + (cur + seq![' '] + w) == (concat(out) + cur).push(' ') + w);
            lemma_visible_add((concat(out) + cur).push(' '), w);
            reveal_strlit(" ");
            assert(white_space(' '));
            lemma_visible_push(concat(out) + cur, ' ');
        } else {
            lemma_chop_concat(out.push(cur), w, width);
            lemma_concat_push(out, cur);
            lemma_visible_add(concat(out) + cur, w);
        }
    }
}

/// Wrapping keeps the text: the characters of the lines, leaving out
/// whitespace, are those of the text, leaving out whitespace, in order.
pub proof fn wrap_keeps_text(text: Seq<char>, width: nat)
    ensures
        visible(concat(wrap_spec(text, width))) == visible(text),
{
    if width == 0 {
        assert(seq![text].drop_last() =~= Seq::<Seq<char>>::empty());
        assert(concat(Seq::<Seq<char>>::empty()) == Seq::<char>::empty());
        assert(Seq::<char>::empty() + text =~= text);
        assert(concat(seq![text]) == text);
    } else {
        lemma_words(text);
        lemma_fill_visible(words(text), width);
        let (out, cur) = fill(words(text), width);
        assert(visible(concat(out) + cur) == visible(text));
        if cur.len() > 0 || out.len() == 0 {
            lemma_concat_push(out, cur);
        } else {
            assert(cur =~= Seq::<char>::empty());
            assert(concat(out) + cur =~= concat(out));
        }
    }
}

/// No line break could have been avoided: each line, a space and the next
/// line together are wider than `width`.
pub open spec fn greedy(lines: Seq<Seq<char>>, width: nat) -> bool {
    forall|i: int|
        0 <= i < lines.len() - 1 ==> (#[trigger] lines[i]).len() + 1 + lines[i + 1].len() > width
}

/// The state of filling: full lines so far and the line in progress.
spec fn fill_inv(out: Seq<Seq<char>>, cur: Seq<char>, width: nat) -> bool {
    &&& greedy(out, width)
    &&& out.len() > 0 ==> out.last().len() + 1 + cur.len() > width && cur.len() > 0
}

proof fn lemma_greedy_push(out: Seq<Seq<char>>, l: Seq<char>, width: nat)
    requires
        greedy(out, width),
        out.len() > 0 ==> out.last().len() + 1 + l.len() > width,
    ensures
        greedy(out.push(l), width),
{
    let o2 = out.push(l);
    assert forall|i: int| 0 <= i < o2.len() - 1 implies (#[trigger] o2[i]).len() + 1 + o2[i
        + 1].len() > width by {
        assert(o2[i] == out[i]);
        if i + 1 < out.len() {
            assert(o2[i + 1] == out[i + 1]);
        }
    }
}

proof fn lemma_chop_greedy(out: Seq<Seq<char>>, cur: Seq<char>, width: nat)
    requires
        width > 0,
        greedy(out, width),
        out.len() > 0 ==> out.last().len() + 1 + cur.len() > width,
        cur.len() > 0,
    ensures
        fill_inv(chop(out, cur, width).0, chop(out, cur, width).1, width),
        chop(out, cur, width).1.len() > 0,
    decreases cur.len(),
{
    if cur.len() > width {
        let head = cur.take(width as int);
        lemma_greedy_push(out, head, width);
        lemma_chop_greedy(out.push(head), cur.skip(width as int), width);
    }
}

proof fn lemma_fill_greedy(ws: Seq<Seq<char>>, width: nat)
    requires
        width > 0,
        good_words(ws),
    ensures
        fill_inv(fill(ws, width).0, fill(ws, width).1, width),
        fill(ws, width).0.len() == 0 ==> ws.len() == 0 || fill(ws, width).1.len() > 0,
    decreases ws.len(),
{
    if ws.len() > 0 {
        let rest = ws.drop_last();
        assert(good_words(rest)) by {
            assert forall|i: int| 0 <= i < rest.len() implies (#[trigger] rest[i]).len() > 0
                && no_white(rest[i]) by {
                assert(rest[i] == ws[i]);
            }
        }
        lemma_fill_greedy(rest, width);
        let (out, cur) = fill(rest, width);
        let w = ws.last();
        assert(w.len() > 0);
        if cur.len() == 0 {
            lemma_chop_greedy(out, w, width);
        } else if cur.len() + 1 + w.len() <= width {
            lemma_chop_greedy(out, cur + seq![' '] + w, width);
        } else {
            lemma_greedy_push(out, cur, width);
            lemma_chop_greedy(out.push(cur), w, width);
        }
    } else {
        assert(greedy(Seq::<Seq<char>>::empty(), width));
    }
}

/// Wrapping fills lines greedily: no line and the next would fit on one
/// line after a space.
pub proof fn wrap_is_greedy(text: Seq<char>, width: nat)
    requires
        width > 0,
    ensures
        greedy(wrap_spec(text, width), width),
{
    lemma_words(text);
    lemma_fill_greedy(words(text), width);
    let (out, cur) = fill(words(text), width);
    if cur.len() > 0 || out.len() == 0 {
        lemma_greedy_push(out, cur, width);
    }
}

/// The characters of a line before its first space.
pub open spec fn first_word(l: Seq<char>) -> Seq<char>
    decreases l.len(),
{
    if l.len() == 0 || l[0] == ' ' {
        Seq::empty()
    } else {
        seq![l[0]] + first_word(l.drop_first())
    }
}

/// Every word fits on a line.
pub open spec fn words_fit(ws: Seq<Seq<char>>, width: nat) -> bool {
    forall|i: int| 0 <= i < ws.len() ==> (#[trigger] ws[i]).len() <= width
}

/// No line could have taken the first word of the next one after a space.
pub open spec fn breaks_needed(lines: Seq<Seq<char>>, width: nat) -> bool {
    forall|i: int|
        0 <= i < lines.len() - 1 ==> (#[trigger] lines[i]).len() + 1 + first_word(lines[i + 1]).len()
            > width
}

proof fn lemma_first_word_join(a: Seq<char>, b: Seq<char>)
    ensures
        first_word(a + seq![' '] + b) == first_word(a),
    decreases a.len(),
{
    let j = a + seq![' '] + b;
    if a.len() == 0 {
        assert(j[0] == ' ');
    } else if a[0] == ' ' {
        assert(j[0] == ' ');
    } else {
        assert(j[0] == a[0]);
        assert(j.drop_first() =~= a.drop_first() + seq![' '] + b);
        lemma_first_word_join(a.drop_first(), b);
    }
}

proof fn lemma_first_word_whole(w: Seq<char>)
    requires
        no_white(w),
    ensures
        first_word(w) == w,
    decreases w.len(),
{
    if w.len() > 0 {
        assert(white_space(' '));
        assert(w[0] != ' ');
        assert(no_white(w.drop_first())) by {
            assert forall|i: int| 0 <= i < w.drop_first().len() implies !white_space(
                #[trigger] w.drop_first()[i],
            ) by {
                assert(w.drop_first()[i] == w[i + 1]);
            }
        }
        lemma_first_word_whole(w.drop_first());
        assert(seq![w[0]] + w.drop_first() =~= w);
    } else {
        assert(w =~= Seq::<char>::empty());
    }
}

proof fn lemma_breaks_push(out: Seq<Seq<char>>, l: Seq<char>, width: nat)
    requires
        breaks_needed(out, width),
        out.len() > 0 ==> out.last().len() + 1 + first_word(l).len() > width,
    ensures
        breaks_needed(out.push(l), width),
{
    let o2 = out.push(l);
    assert forall|i: int| 0 <= i < o2.len() - 1 implies (#[trigger] o2[i]).len() + 1 + first_word(
        o2[i + 1],
    ).len() > width by {
        assert(o2[i] == out[i]);
        if i + 1 < out.len() {
            assert(o2[i + 1] == out[i + 1]);
        }
    }
}

proof fn lemma_fill_breaks(ws: Seq<Seq<char>>, width: nat)
    requires
        width > 0,
        good_words(ws),
        words_fit(ws, width),
    ensures
        ({
            let (out, cur) = fill(ws, width);
            &&& breaks_needed(out, width)
            &&& cur.len() <= width
            &&& out.len() > 0 ==> cur.len() > 0 && out.last().len() + 1 + first_word(cur).len()
                > width
        }),
    decreases ws.len(),
{
    if ws.len() > 0 {
        let rest = ws.drop_last();
        assert(good_words(rest) && words_fit(rest, width)) by {
            assert forall|i: int| 0 <= i < rest.len() implies (#[trigger] rest[i]).len() > 0
                && no_white(rest[i]) && rest[i].len() <= width by {
                assert(rest[i] == ws[i]);
            }
        }
        lemma_fill_breaks(rest, width);
        let (out, cur) = fill(rest, width);
        let w = ws.last();
        assert(w.len() > 0 && no_white(w) && w.len() <= width);
        lemma_first_word_whole(w);
        if cur.len() == 0 {
            assert(chop(out, w, width) == (out, w));
        } else if cur.len() + 1 + w.len() <= width {
            let joined = cur + seq![' '] + w;
            assert(chop(out, joined, width) == (out, joined));
            lemma_first_word_join(cur, w);
        } else {
            assert(chop(out.push(cur), w, width) == (out.push(cur), w));
            lemma_breaks_push(out, cur, width);
        }
    } else {
        assert(breaks_needed(Seq::<Seq<char>>::empty(), width));
    }
}

/// When every word fits on a line, a line ends only where the next word
/// would not fit after a space: no line could take the next line's first
/// word.
pub proof fn wrap_breaks_only_where_needed(text: Seq<char>, width: nat)
    requires
        width > 0,
        words_fit(words(text), width),
    ensures
        breaks_needed(wrap_spec(text, width), width),
{
    lemma_words(text);
    lemma_fill_breaks(words(text), width);
    let (out, cur) = fill(words(text), width);
    if cur.len() > 0 || out.len() == 0 {
        lemma_breaks_push(out, cur, width);
    }
}

/// Cutting a line at every space, left to right: the pieces so far and the
/// piece in progress.
pub open spec fn space_scan(l: Seq<char>) -> (Seq<Seq<char>>, Seq<char>)
    decreases l.len(),
{
    if l.len() == 0 {
        (Seq::empty(), Seq::empty())
    } else {
        let (ps, cur) = space_scan(l.drop_last());
        if l.last() == ' ' {
            (ps.push(cur), Seq::empty())
        } else {
            (ps, cur.push(l.last()))
        }
    }
}

/// The pieces of a line between its spaces, in order.
pub open spec fn space_pieces(l: Seq<char>) -> Seq<Seq<char>> {
    space_scan(l).0.push(space_scan(l).1)
}

/// The pieces between spaces of every line, one line after another.
pub open spec fn all_pieces(lines: Seq<Seq<char>>) -> Seq<Seq<char>>
    decreases lines.len(),
{
    if lines.len() == 0 {
        Seq::empty()
    } else {
        all_pieces(lines.drop_last()) + space_pieces(lines.last())
    }
}

proof fn lemma_space_scan_word(w: Seq<char>)
    requires
        no_white(w),
    ensures
        space_scan(w) == (Seq::<Seq<char>>::empty(), w),
    decreases w.len(),
{
    if w.len() > 0 {
        assert(white_space(' '));
        let t = w.drop_last();
        assert(no_white(t)) by {
            assert forall|i: int| 0 <= i < t.len() implies !white_space(#[trigger] t[i]) by {
                assert(t[i] == w[i]);
            }
        }
        lemma_space_scan_word(t);
        assert(w.last() != ' ');
        assert(t.push(w.last()) == w);
    } else {
        assert(w =~= Seq::<char>::empty());
    }
}

proof fn lemma_space_scan_join(a: Seq<char>, w: Seq<char>)
    requires
        no_white(w),
    ensures
        space_scan(a + seq![' '] + w) == (space_pieces(a), w),
    decreases w.len(),
{
    assert(white_space(' '));
    let j = a + seq![' '] + w;
    if w.len() == 0 {
        assert(j.drop_last() =~= a);
        assert(j.last() == ' ');
        assert(w =~= Seq::<char>::empty());
    } else {
        let t = w.drop_last();
        assert(no_white(t)) by {
            assert forall|i: int| 0 <= i < t.len() implies !white_space(#[trigger] t[i]) by {
                assert(t[i] == w[i]);
            }
        }
        lemma_space_scan_join(a, t);
        assert(j.drop_last() =~= a + seq![' '] + t);
        assert(j.last() == w.last());
        assert(w.last() != ' ');
        assert(t.push(w.last()) == w);
    }
}

proof fn lemma_all_pieces_push(lines: Seq<Seq<char>>, l: Seq<char>)
    ensures
        all_pieces(lines.push(l)) == all_pieces(lines) + space_pieces(l),
{
    assert(lines.push(l).drop_last() == lines);
}

proof fn lemma_fill_pieces(ws: Seq<Seq<char>>, width: nat)
    requires
        width > 0,
        good_words(ws),
        words_fit(ws, width),
    ensures
        ({
            let (out, cur) = fill(ws, width);
            &&& cur.len() <= width
            &&& ws.len() == 0 ==> out.len() == 0 && cur.len() == 0
            &&& ws.len() > 0 ==> cur.len() > 0 && all_pieces(out) + space_pieces(cur) == ws
        }),
    decreases ws.len(),
{
    if ws.len() > 0 {
        let rest = ws.drop_last();
        assert(good_words(rest) && words_fit(rest, width)) by {
            assert forall|i: int| 0 <= i < rest.len() implies (#[trigger] rest[i]).len() > 0
                && no_white(rest[i]) && rest[i].len() <= width by {
                assert(rest[i] == ws[i]);
            }
        }
        lemma_fill_pieces(rest, width);
        let (out, cur) = fill(rest, width);
        let w = ws.last();
        assert(w.len() > 0 && no_white(w) && w.len() <= width);
        lemma_space_scan_word(w);
        assert(space_pieces(w) == seq![w]);
        assert(rest.push(w) == ws);
        if cur.len() == 0 {
            assert(chop(out, w, width) == (out, w));
            assert(rest.len() == 0);
            assert(all_pieces(out) == Seq::<Seq<char>>::empty());
            assert(ws =~= seq![w]);
            assert(Seq::<Seq<char>>::empty() + seq![w] =~= seq![w]);
        } else if cur.len() + 1 + w.len() <= width {
            let joined = cur + seq![' '] + w;
            assert(chop(out, joined, width) == (out, joined));
            lemma_space_scan_join(cur, w);
            assert(space_pieces(joined) == space_pieces(cur).push(w));
            assert(all_pieces(out) + space_pieces(cur).push(w) =~= (all_pieces(out) + space_pieces(
                cur,
            )).push(w));
        } else {
            assert(chop(out.push(cur), w, width) == (out.push(cur), w));
            lemma_all_pieces_push(out, cur);
            assert(all_pieces(out.push(cur)) + seq![w] =~= (all_pieces(out) + space_pieces(
                cur,
            )).push(w));
        }
    }
}

/// When every word fits on a line, no word is cut: cutting the lines at
/// their spaces gives back exactly the words of the text, in order (and a
/// text without words gives one empty line).
pub proof fn wrap_keeps_words_whole(text: Seq<char>, width: nat)
    requires
        width > 0,
        words_fit(words(text), width),
    ensures
        words(text).len() > 0 ==> all_pieces(wrap_spec(text, width)) == words(text),
        words(text).len() == 0 ==> wrap_spec(text, width) == seq![Seq::<char>::empty()],
{
    lemma_words(text);
    lemma_fill_pieces(words(text), width);
    let (out, cur) = fill(words(text), width);
    if words(text).len() > 0 {
        lemma_all_pieces_push(out, cur);
    } else {
        assert(out.push(cur) =~= seq![Seq::<char>::empty()]);
    }
}

/// A word cut into lines of exactly `width` characters, the last one
/// holding the rest.
pub open spec fn chunks(w: Seq<char>, width: nat) -> Seq<Seq<char>>
    decreases w.len(),
{
    if width == 0 || w.len() <= width {
        seq![w]
    } else {
        seq![w.take(width as int)] + chunks(w.skip(width as int), width)
    }
}

proof fn lemma_chop_chunks(out: Seq<Seq<char>>, cur: Seq<char>, width: nat)
    requires
        width > 0,
    ensures
        chop(out, cur, width).0.push(chop(out, cur, width).1) == out + chunks(cur, width),
    decreases cur.len(),
{
    if cur.len() > width {
        let head = cur.take(width as int);
        lemma_chop_chunks(out.push(head), cur.skip(width as int), width);
        assert(out.push(head) + chunks(cur.skip(width as int), width) =~= out + (seq![head]
            + chunks(cur.skip(width as int), width)));
    } else {
        assert(out.push(cur) =~= out + seq![cur]);
    }
}

/// A text of one word too long for a line is cut into full lines of
/// `width` characters, the rest on the last line.
pub proof fn wrap_cuts_long_word(text: Seq<char>, width: nat)
    requires
        width > 0,
        words(text).len() == 1,
    ensures
        wrap_spec(text, width) == chunks(words(text)[0], width),
{
    lemma_words(text);
    let w = words(text)[0];
    assert(w.len() > 0);
    let ws = words(text);
    assert(ws.drop_last() =~= Seq::<Seq<char>>::empty());
    assert(fill(ws.drop_last(), width) == (Seq::<Seq<char>>::empty(), Seq::<char>::empty()));
    lemma_chop_chunks(Seq::empty(), w, width);
    lemma_chop_greedy(Seq::empty(), w, width);
    assert(Seq::<Seq<char>>::empty() + chunks(w, width) =~= chunks(w, width));
}

/// The words of a text, each cut as `chunks` cuts it, one after another.
pub open spec fn cut_words(ws: Seq<Seq<char>>, width: nat) -> Seq<Seq<char>>
    decreases ws.len(),
{
    if ws.len() == 0 {
        Seq::empty()
    } else {
        cut_words(ws.drop_last(), width) + chunks(ws.last(), width)
    }
}

proof fn lemma_chunks_words(w: Seq<char>, width: nat)
    requires
        width > 0,
        w.len() > 0,
        no_white(w),
    ensures
        chunks(w, width).len() > 0,
        good_words(chunks(w, width)),
        chunks(w, width).last().len() <= width,
        w.len() <= width ==> chunks(w, width) == seq![w],
    decreases w.len(),
{
    if w.len() > width {
        let t = w.skip(width as int);
        assert(no_white(t)) by {
            assert forall|i: int| 0 <= i < t.len() implies !white_space(#[trigger] t[i]) by {
                assert(t[i] == w[i + width]);
            }
        }
        lemma_chunks_words(t, width);
        let h = w.take(width as int);
        assert(no_white(h)) by {
            assert forall|i: int| 0 <= i < h.len() implies !white_space(#[trigger] h[i]) by {
                assert(h[i] == w[i]);
            }
        }
        let c = seq![h] + chunks(t, width);
        assert forall|i: int| 0 <= i < c.len() implies (#[trigger] c[i]).len() > 0 && no_white(
            c[i],
        ) by {
            if i > 0 {
                assert(c[i] == chunks(t, width)[i - 1]);
            }
        }
        assert(c.last() == chunks(t, width).last());
    }
}

proof fn lemma_all_pieces_words(out: Seq<Seq<char>>, l: Seq<Seq<char>>)
    requires
        good_words(l),
    ensures
        all_pieces(out + l) == all_pieces(out) + l,
    decreases l.len(),
{
    if l.len() == 0 {
        assert(out + l =~= out);
        assert(all_pieces(out) + l =~= all_pieces(out));
    } else {
        let t = l.drop_last();
        assert(good_words(t)) by {
            assert forall|i: int| 0 <= i < t.len() implies (#[trigger] t[i]).len() > 0 && no_white(
                t[i],
            ) by {
                assert(t[i] == l[i]);
            }
        }
        lemma_all_pieces_words(out, t);
        assert(out + l =~= (out + t).push(l.last()));
        lemma_all_pieces_push(out + t, l.last());
        lemma_space_scan_word(l.last());
        assert(all_pieces(out) + t + seq![l.last()] =~= all_pieces(out) + l);
    }
}

proof fn lemma_chop_pieces(out: Seq<Seq<char>>, w: Seq<char>, width: nat)
    requires
        width > 0,
        w.len() > 0,
        no_white(w),
    ensures
        ({
            let (o, c) = chop(out, w, width);
            &&& all_pieces(o) + space_pieces(c) == all_pieces(out) + chunks(w, width)
            &&& c.len() > 0
            &&& c.len() <= width
        }),
{
    lemma_chop_chunks(out, w, width);
    lemma_chunks_words(w, width);
    lemma_chop_fits_len(out, w, width);
    let (o, c) = chop(out, w, width);
    let ch = chunks(w, width);
    assert(o.push(c) == out + ch);
    assert((o.push(c))[o.len() as int] == c);
    assert((out + ch)[(out + ch).len() - 1] == ch[ch.len() - 1]);
    assert(ch[ch.len() - 1].len() > 0);
    assert(o == out + ch.drop_last()) by {
        assert(o =~= (out + ch).drop_last());
        assert((out + ch).drop_last() =~= out + ch.drop_last());
    }
    assert(c == ch.last());
    assert(good_words(ch.drop_last())) by {
        assert forall|i: int| 0 <= i < ch.drop_last().len() implies (#[trigger] ch.drop_last()[
            i
        ]).len() > 0 && no_white(ch.drop_last()[i]) by {
            assert(ch.drop_last()[i] == ch[i]);
        }
    }
    lemma_all_pieces_words(out, ch.drop_last());
    lemma_space_scan_word(c);
    assert(ch.drop_last().push(c) == ch);
    assert(all_pieces(out) + ch.drop_last() + seq![c] =~= all_pieces(out) + ch);
}

proof fn lemma_chop_fits_len(out: Seq<Seq<char>>, cur: Seq<char>, width: nat)
    requires
        width > 0,
    ensures
        chop(out, cur, width).1.len() <= width,
    decreases cur.len(),
{
    if cur.len() > width {
        lemma_chop_fits_len(out.push(cur.take(width as int)), cur.skip(width as int), width);
    }
}

proof fn lemma_fill_cut_pieces(ws: Seq<Seq<char>>, width: nat)
    requires
        width > 0,
        good_words(ws),
    ensures
        ({
            let (out, cur) = fill(ws, width);
            &&& cur.len() <= width
            &&& ws.len() == 0 ==> out.len() == 0 && cur.len() == 0
            &&& ws.len() > 0 ==> cur.len() > 0 && all_pieces(out) + space_pieces(cur) == cut_words(
                ws,
                width,
            )
        }),
    decreases ws.len(),
{
    if ws.len() > 0 {
        let rest = ws.drop_last();
        assert(good_words(rest)) by {
            assert forall|i: int| 0 <= i < rest.len() implies (#[trigger] rest[i]).len() > 0
                && no_white(rest[i]) by {
                assert(rest[i] == ws[i]);
            }
        }
        lemma_fill_cut_pieces(rest, width);
        let (out, cur) = fill(rest, width);
        let w = ws.last();
        assert(w.len() > 0 && no_white(w));
        lemma_chunks_words(w, width);
        if cur.len() == 0 {
            lemma_chop_pieces(out, w, width);
            assert(rest.len() == 0);
            assert(all_pieces(out) == Seq::<Seq<char>>::empty());
            assert(cut_words(rest, width) == Seq::<Seq<char>>::empty());
        } else if cur.len() + 1 + w.len() <= width {
            let joined = cur + seq![' '] + w;
            assert(chop(out, joined, width) == (out, joined));
            lemma_space_scan_join(cur, w);
            assert(chunks(w, width) == seq![w]);
            assert(all_pieces(out) + space_pieces(cur).push(w) =~= (all_pieces(out) + space_pieces(
                cur,
            )) + seq![w]);
        } else {
            lemma_chop_pieces(out.push(cur), w, width);
            lemma_all_pieces_push(out, cur);
            assert(all_pieces(out) + space_pieces(cur) + chunks(w, width) =~= cut_words(
                rest,
                width,
            ) + chunks(w, width));
        }
    }
}

/// Wrapping keeps every word together unless it is longer than a line:
/// cutting the lines at their spaces gives the words of the text in order,
/// where a word longer than `width` appears cut into pieces of `width`
/// characters and a shorter rest, each piece starting a line of its own
/// (so a long word never shares its first line with the word before).
pub proof fn wrap_pieces_are_cut_words(text: Seq<char>, width: nat)
    requires
        width > 0,
        words(text).len() > 0,
    ensures
        all_pieces(wrap_spec(text, width)) == cut_words(words(text), width),
{
    lemma_words(text);
    lemma_fill_cut_pieces(words(text), width);
    let (out, cur) = fill(words(text), width);
    lemma_all_pieces_push(out, cur);
}

/// The view of a list of character vectors.
pub open spec fn char_vecs_view(v: Seq<Vec<char>>) -> Seq<Seq<char>> {
    v.map_values(|c: Vec<char>| c@)
}

fn split_words(cs: &Vec<char>) -> (r: Vec<Vec<char>>)
    ensures
        char_vecs_view(r@) == words(cs@),
{
    let mut ws: Vec<Vec<char>> = Vec::new();
    let mut cur: Vec<char> = Vec::new();
    let mut i: usize = 0;
    while i < cs.len()
        invariant
            i <= cs@.len(),
            (char_vecs_view(ws@), cur@) == scan_words(cs@.take(i as int)),
        decreases cs@.len() - i,
    {
        let c = cs[i];
        proof {
            assert(cs@.take(i + 1).drop_last() == cs@.take(i as int));
            assert(cs@.take(i + 1).last() == c);
        }
        if is_whitespace(c) {
            if cur.len() > 0 {
                let ghost prev = ws@;
                let done = cur;
                let ghost d = done@;
                ws.push(done);
                cur = Vec::new();
                proof {
                    assert(char_vecs_view(ws@) =~= char_vecs_view(prev).push(d));
                }
            }
        } else {
            cur.push(c);
        }
        i = i + 1;
    }
    proof {
        assert(cs@.take(cs@.len() as int) == cs@);
    }
    if cur.len() > 0 {
        let ghost prev = ws@;
        let ghost d = cur@;
        ws.push(cur);
        proof {
            assert(char_vecs_view(ws@) =~= char_vecs_view(prev).push(d));
        }
    }
    ws
}

fn push_line(out: &mut Vec<Vec<char>>, line: Vec<char>)
    ensures
        char_vecs_view(final(out)@) == char_vecs_view(old(out)@).push(line@),
{
    let ghost prev = out@;
    let ghost l = line@;
    out.push(line);
    proof {
        assert(char_vecs_view(out@) =~= char_vecs_view(prev).push(l));
    }
}

fn slice_chars(cs: &Vec<char>, from: usize, to: usize) -> (r: Vec<char>)
    requires
        from <= to <= cs@.len(),
    ensures
        r@ == cs@.subrange(from as int, to as int),
{
    let mut r: Vec<char> = Vec::new();
    let mut i = from;
    while i < to
        invariant
            from <= i <= to <= cs@.len(),
            r@ == cs@.subrange(from as int, i as int),
        decreases to - i,
    {
        r.push(cs[i]);
        proof {
            assert(cs@.subrange(from as int, i + 1) == cs@.subrange(from as int, i as int).push(
                cs@[i as int],
            ));
        }
        i = i + 1;
    }
    r
}

fn chop_exec(out: &mut Vec<Vec<char>>, cur: Vec<char>, width: usize) -> (r: Vec<char>)
    requires
        width > 0,
    ensures
        (char_vecs_view(final(out)@), r@) == chop(char_vecs_view(old(out)@), cur@, width as nat),
{
    let ghost cur0 = cur@;
    let mut cur = cur;
    while cur.len() > width
        invariant
            width > 0,
            chop(char_vecs_view(out@), cur@, width as nat) == chop(
                char_vecs_view(old(out)@),
                cur0,
                width as nat,
            ),
        decreases cur@.len(),
    {
        let head = slice_chars(&cur, 0, width);
        let tail = slice_chars(&cur, width, cur.len());
        proof {
            assert(head@ == cur@.take(width as int));
            assert(tail@ == cur@.skip(width as int));
        }
        push_line(out, head);
        cur = tail;
    }
    cur
}

fn join_with_space(a: &Vec<char>, b: &Vec<char>) -> (r: Vec<char>)
    ensures
        r@ == a@ + seq![' '] + b@,
{
    let mut r = slice_chars(a, 0, a.len());
    r.push(' ');
    let mut i: usize = 0;
    let ghost base = r@;
    while i < b.len()
        invariant
            i <= b@.len(),
            base == a@ + seq![' '],
            r@ == base + b@.take(i as int),
        decreases b@.len() - i,
    {
        r.push(b[i]);
        proof {
            assert(b@.take(i + 1) == b@.take(i as int).push(b@[i as int]));
        }
        i = i + 1;
    }
    proof {
        assert(a@.subrange(0, a@.len() as int) == a@);
        assert(b@.take(b@.len() as int) == b@);
    }
    r
}

/// `text` wrapped into lines of at most `width` characters, counting
/// characters (not display cells); a `width` of zero leaves it whole.
pub fn wrap(text: &str, width: usize) -> (r: Vec<String>)
    ensures
        strings_view(r@) == wrap_spec(text@, width as nat),
{
    if width == 0 {
        let mut r: Vec<String> = Vec::new();
        r.push(copy_str(text));
        proof {
            assert(strings_view(r@) =~= seq![text@]);
        }
        return r;
    }
    let cs = chars_of(text);
    let ws = split_words(&cs);
    let mut out: Vec<Vec<char>> = Vec::new();
    let mut cur: Vec<char> = Vec::new();
    let mut j: usize = 0;
    proof {
        assert(char_vecs_view(out@) =~= Seq::<Seq<char>>::empty());
    }
    while j < ws.len()
        invariant
            width > 0,
            j <= ws@.len(),
            char_vecs_view(ws@) == words(text@),
            (char_vecs_view(out@), cur@) == fill(char_vecs_view(ws@).take(j as int), width as nat),
            cur@.len() <= width,
        decreases ws@.len() - j,
    {
        let ghost all = char_vecs_view(ws@);
        proof {
            assert(all.take(j + 1).drop_last() == all.take(j as int));
            assert(all.take(j + 1).last() == ws@[j as int]@);
            lemma_fill_fits(all.take(j + 1), width as nat);
        }
        let w = &ws[j];
        if cur.len() == 0 {
            let wc = slice_chars(w, 0, w.len());
            proof {
                assert(w@.subrange(0, w@.len() as int) == w@);
            }
            cur = chop_exec(&mut out, wc, width);
        } else if cur.len() < width && w.len() <= width - cur.len() - 1 {
            let joined = join_with_space(&cur, w);
            cur = chop_exec(&mut out, joined, width);
        } else {
            let done = cur;
            push_line(&mut out, done);
            let wc = slice_chars(w, 0, w.len());
            proof {
                assert(w@.subrange(0, w@.len() as int) == w@);
            }
            cur = chop_exec(&mut out, wc, width);
        }
        j = j + 1;
    }
    proof {
        assert(char_vecs_view(ws@).take(ws@.len() as int) == char_vecs_view(ws@));
    }
    if cur.len() > 0 || out.len() == 0 {
        push_line(&mut out, cur);
    }
    let mut r: Vec<String> = Vec::new();
    let mut k: usize = 0;
    while k < out.len()
        invariant
            k <= out@.len(),
            strings_view(r@) == char_vecs_view(out@).take(k as int),
        decreases out@.len() - k,
    {
        let line = &out[k];
        let s = string_of(line, 0, line.len());
        let ghost prev = r@;
        r.push(s);
        proof {
            assert(line@.subrange(0, line@.len() as int) == line@);
            assert(strings_view(r@) =~= strings_view(prev).push(s@));
            assert(char_vecs_view(out@).take(k + 1) =~= char_vecs_view(out@).take(k as int).push(
                out@[k as int]@,
            ));
        }
        k = k + 1;
    }
    proof {
        assert(char_vecs_view(out@).take(out@.len() as int) == char_vecs_view(out@));
    }
    r
}

} // verus!
