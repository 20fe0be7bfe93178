//! Nick completion on the input line.
//!
//! The cursor is a byte offset into the input line; completion replaces the
//! word before the cursor with the first nick of the current buffer that it
//! begins, followed by `": "` at the start of the line and `" "` elsewhere.

use vstd::prelude::*;
use vstd::string::*;
use crate::app::{App, AppView};
use crate::nicks::strings_view;
use crate::text::{
    char_index_of, char_pos, chars_of, utf8_len_capped, is_boundary, lowercase, starts_with, starts_with_chars,
    string_of, strip_sigils, strip_sigils_of, to_lowercase, utf8_len,
};

verus! {

/// `w` is where the last space-separated word of `s` begins.
pub open spec fn word_start(s: Seq<char>, w: int) -> bool {
    &&& 0 <= w <= s.len()
    &&& forall|j: int| w <= j < s.len() ==> #[trigger] s[j] != ' '
    &&& (w == 0 || s[w - 1] == ' ')
}

/// The characters of `s` after its last space.
pub open spec fn last_word(s: Seq<char>) -> Seq<char> {
    s.skip(choose|w: int| word_start(s, w))
}

/// A nick that the lower-case `prefix` begins, ignoring status prefixes
/// and case.
pub open spec fn completes(nick: Seq<char>, prefix: Seq<char>) -> bool {
    starts_with(lowercase(strip_sigils(nick)), prefix)
}

/// `i` is the first nick of the list that `prefix` begins.
pub open spec fn is_first_completion(nicks: Seq<Seq<char>>, prefix: Seq<char>, i: int) -> bool {
    &&& 0 <= i < nicks.len()
    &&& completes(nicks[i], prefix)
    &&& forall|j: int| 0 <= j < i ==> !completes(#[trigger] nicks[j], prefix)
}

/// The index of the first nick that `prefix` begins, or the length of the
/// list when there is none.
pub open spec fn completion_index(nicks: Seq<Seq<char>>, prefix: Seq<char>) -> int {
    if exists|i: int| is_first_completion(nicks, prefix, i) {
        choose|i: int| is_first_completion(nicks, prefix, i)
    } else {
        nicks.len() as int
    }
}

/// The lower-case word before the cursor.
pub open spec fn completion_prefix(a: AppView) -> Seq<char> {
    lowercase(last_word(a.input.take(char_pos(a.input, a.cursor as int))))
}

/// Whether completion finds a nick to insert.
pub open spec fn has_completion(a: AppView) -> bool {
    let prefix = completion_prefix(a);
    let nicks = a.buffers[a.current as int].nicks;
    prefix.len() > 0 && completion_index(nicks, prefix) < nicks.len()
}

/// The nick that completion inserts.
pub open spec fn completion_nick(a: AppView) -> Seq<char> {
    let nicks = a.buffers[a.current as int].nicks;
    strip_sigils(nicks[completion_index(nicks, completion_prefix(a))])
}

/// Where the replaced text begins: the cursor, less the byte length of the
/// lower-case word.
pub open spec fn completion_start(a: AppView) -> int {
    a.cursor - utf8_len(completion_prefix(a))
}

/// What follows the inserted nick.
pub open spec fn completion_suffix(a: AppView) -> Seq<char> {
    if completion_start(a) == 0 {
        ": "@
    } else {
        " "@
    }
}

/// The cursor after a completion.
pub open spec fn completed_cursor(a: AppView) -> int {
    completion_start(a) + utf8_len(completion_nick(a)) + utf8_len(completion_suffix(a))
}

/// A completion, when there is one, replaces a range that starts on a
/// character boundary and leaves a cursor that fits in `usize`.
pub open spec fn completion_fits(a: AppView) -> bool {
    has_completion(a) ==> {
        &&& completion_start(a) >= 0
        &&& is_boundary(a.input, completion_start(a))
        &&& completed_cursor(a) <= usize::MAX
    }
}

/// The input line can be looked at: the current buffer exists and the
/// cursor is on a character boundary.
pub open spec fn cursor_ok(a: AppView) -> bool {
    a.current < a.buffers.len() && is_boundary(a.input, a.cursor as int)
}

/// The client after nick completion.
pub open spec fn complete_spec(a: AppView) -> AppView {
    if !has_completion(a) {
        a
    } else {
        let k = char_pos(a.input, a.cursor as int);
        let ks = char_pos(a.input, completion_start(a));
        AppView {
            input: a.input.take(ks) + completion_nick(a) + completion_suffix(a) + a.input.skip(k),
            cursor: completed_cursor(a) as usize,
            ..a
        }
    }
}

/// Every sequence has a last word.
pub proof fn lemma_word_start_exists(s: Seq<char>)
    ensures
        exists|w: int| word_start(s, w),
    decreases s.len(),
{
    if s.len() == 0 {
        assert(word_start(s, 0));
    } else if s.last() == ' ' {
        assert(word_start(s, s.len() as int));
    } else {
        lemma_word_start_exists(s.drop_last());
        let w = choose|w: int| word_start(s.drop_last(), w);
        assert forall|j: int| w <= j < s.len() implies #[trigger] s[j] != ' ' by {
            if j < s.len() - 1 {
                assert(s[j] == s.drop_last()[j]);
            }
        }
        if w > 0 {
            assert(s[w - 1] == s.drop_last()[w - 1]);
        }
        assert(word_start(s, w));
    }
}

proof fn lemma_word_start_unique(s: Seq<char>, w1: int, w2: int)
    requires
        word_start(s, w1),
        word_start(s, w2),
    ensures
        w1 == w2,
{
    if w1 < w2 {
        assert(s[w2 - 1] != ' ');
    } else if w2 < w1 {
        assert(s[w1 - 1] != ' ');
    }
}

/// Where the last word of `s[..k]` begins.
fn last_word_start(s: &Vec<char>, k: usize) -> (w: usize)
    requires
        k <= s@.len(),
    ensures
        word_start(s@.take(k as int), w as int),
        last_word(s@.take(k as int)) == s@.subrange(w as int, k as int),
{
    let ghost t = s@.take(k as int);
    let mut w = k;
    while w > 0 && s[w - 1] != ' '
        invariant
            w <= k <= s@.len(),
            t == s@.take(k as int),
            forall|j: int| w <= j < k ==> #[trigger] t[j] != ' ',
        decreases w,
    {
        w = w - 1;
    }
    proof {
        assert(word_start(t, w as int));
        let c = choose|c: int| word_start(t, c);
        lemma_word_start_unique(t, c, w as int);
        assert(t.skip(w as int) == s@.subrange(w as int, k as int));
    }
    w
}

/// The first nick that `prefix` begins, with its status prefixes removed.
fn find_completion(nicks: &Vec<String>, prefix: &Vec<char>) -> (r: Option<String>)
    ensures
        match r {
            Some(n) => {
                let i = completion_index(strings_view(nicks@), prefix@);
                &&& 0 <= i < nicks@.len()
                &&& n@ == strip_sigils(strings_view(nicks@)[i])
            },
            None => completion_index(strings_view(nicks@), prefix@) == nicks@.len(),
        },
{
    let ghost v = strings_view(nicks@);
    let mut i: usize = 0;
    while i < nicks.len()
        invariant
            i <= nicks@.len(),
            v == strings_view(nicks@),
            forall|j: int| 0 <= j < i ==> !completes(#[trigger] v[j], prefix@),
        decreases nicks@.len() - i,
    {
        let cs = chars_of(nicks[i].as_str());
        let bare = strip_sigils_of(&cs);
        let bare_s = string_of(&bare, 0, bare.len());
        let low = to_lowercase(bare_s.as_str());
        proof {
            assert(bare@.subrange(0, bare@.len() as int) == bare@);
            assert(v[i as int] == nicks@[i as int]@);
        }
        if starts_with_chars(&chars_of(low.as_str()), prefix) {
            proof {
                assert(is_first_completion(v, prefix@, i as int));
                let c = choose|c: int| is_first_completion(v, prefix@, c);
                if c < i {
                    assert(!completes(v[c], prefix@));
                } else if c > i {
                    assert(!completes(v[i as int], prefix@));
                }
            }
            return Some(bare_s);
        }
        i = i + 1;
    }
    proof {
        assert(!exists|c: int| is_first_completion(v, prefix@, c));
    }
    None
}

impl App {
    /// Whether nick completion can run to the end from this state: it
    /// returns the same as `completion_fits`.
    pub(crate) fn completion_check(&self) -> (r: bool)
        requires
            cursor_ok(self@),
        ensures
            r == completion_fits(self@),
    {
        let input = chars_of(self.input.as_str());
        let k = char_index_of(&input, self.cursor).unwrap();
        let ws = last_word_start(&input, k);
        let word = string_of(&input, ws, k);
        let prefix = to_lowercase(word.as_str());
        if prefix.as_str().is_empty() {
            return true;
        }
        let pchars = chars_of(prefix.as_str());
        let hit = find_completion(&self.buffers[self.current].nicks, &pchars);
        proof {
            assert(self@.buffers[self.current as int].nicks == strings_view(
                self.buffers@[self.current as int].nicks@,
            ));
            assert(pchars@ == completion_prefix(self@));
        }
        match hit {
            None => true,
            Some(n) => {
                let plen = match utf8_len_capped(&pchars, self.cursor) {
                    None => {
                        return false;
                    },
                    Some(p) => p,
                };
                let start = self.cursor - plen;
                let suffix: &str = if start == 0 {
                    ": "
                } else {
                    " "
                };
                match char_index_of(&input, start) {
                    None => false,
                    Some(_) => {
                        match utf8_len_capped(&chars_of(n.as_str()), usize::MAX - start) {
                            None => false,
                            Some(nlen) => {
                                match utf8_len_capped(
                                    &chars_of(suffix),
                                    usize::MAX - start - nlen,
                                ) {
                                    None => false,
                                    Some(_) => true,
                                }
                            },
                        }
                    },
                }
            },
        }
    }

    /// Completes the word before the cursor to the first nick of the
    /// current buffer that it begins, ignoring case and status prefixes; the
    /// nick is followed by `": "` at the start of the line and by `" "`
    /// elsewhere, and the cursor moves past it. Nothing changes when the word
    /// is empty or no nick matches.
    pub fn complete_nick(&mut self)
        requires
            cursor_ok(old(self)@),
            completion_fits(old(self)@),
        ensures
            final(self)@ == complete_spec(old(self)@),
    {
        let input = chars_of(self.input.as_str());
        let k = char_index_of(&input, self.cursor).unwrap();
        let ws = last_word_start(&input, k);
        let word = string_of(&input, ws, k);
        let prefix = to_lowercase(word.as_str());
        if prefix.as_str().is_empty() {
            return;
        }
        let pchars = chars_of(prefix.as_str());
        let hit = find_completion(&self.buffers[self.current].nicks, &pchars);
        match hit {
            None => {},
            Some(n) => {
                let plen = utf8_len_capped(&pchars, self.cursor).unwrap();
                let start = self.cursor - plen;
                let suffix: &str = if start == 0 {
                    ": "
                } else {
                    " "
                };
                let ks = char_index_of(&input, start).unwrap();
                let mut line = string_of(&input, 0, ks);
                line.append(n.as_str());
                line.append(suffix);
                let rest = string_of(&input, k, input.len());
                line.append(rest.as_str());
                let nlen = utf8_len_capped(&chars_of(n.as_str()), usize::MAX - start).unwrap();
                let slen = utf8_len_capped(&chars_of(suffix), usize::MAX - start - nlen).unwrap();
                let cursor = start + nlen + slen;
                self.input = line;
                self.cursor = cursor;
                proof {
                    assert(input@.subrange(0, ks as int) == input@.take(ks as int));
                    assert(input@.subrange(k as int, input@.len() as int) == input@.skip(k as int));
                }
            },
        }
    }

    /// Nick completion where it can run to the end: returns whether it ran;
    /// when it did not (`completion_fits` fails) nothing changes.
    pub fn try_complete_nick(&mut self) -> (done: bool)
        requires
            cursor_ok(old(self)@),
        ensures
            done == completion_fits(old(self)@),
            done ==> final(self)@ == complete_spec(old(self)@),
            !done ==> *final(self) == *old(self),
    {
        if self.completion_check() {
            self.complete_nick();
            true
        } else {
            false
        }
    }
}

} // verus!
