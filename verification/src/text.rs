//! Character-level helpers on strings, with their specifications.
//!
//! Strings are viewed as sequences of `char`; where the client works with
//! byte offsets (the cursor of the input line), `utf8_len` gives the number
//! of bytes of the UTF-8 encoding of a character sequence.

use vstd::prelude::*;
use vstd::std_specs::iter::IteratorSpec;
use vstd::string::*;
use vstd::utf8::*;

verus! {

// ---------------------------------------------------------------------------
// UTF-8 lengths and byte offsets
// ---------------------------------------------------------------------------

/// Number of bytes that the UTF-8 encoding of `c` takes.
pub open spec fn char_width(c: char) -> nat {
    if (c as u32) < 0x80 {
        1
    } else if (c as u32) < 0x800 {
        2
    } else if (c as u32) < 0x10000 {
        3
    } else {
        4
    }
}

/// Number of bytes of the UTF-8 encoding of `s`.
pub open spec fn utf8_len(s: Seq<char>) -> nat {
    encode_utf8(s).len()
}

/// `b` is the byte offset of a character boundary of `s`.
pub open spec fn is_boundary(s: Seq<char>, b: int) -> bool {
    exists|k: int| 0 <= k <= s.len() && #[trigger] utf8_len(s.take(k)) == b
}

/// The character index of the boundary at byte offset `b` of `s`.
pub open spec fn char_pos(s: Seq<char>, b: int) -> int {
    choose|k: int| 0 <= k <= s.len() && #[trigger] utf8_len(s.take(k)) == b
}

proof fn lemma_encode_concat(a: Seq<char>, b: Seq<char>)
    ensures
        encode_utf8(a + b) == encode_utf8(a) + encode_utf8(b),
    decreases a.len(),
{
    if a.len() == 0 {
        assert(a + b == b);
        assert(encode_utf8(a) == Seq::<u8>::empty());
        assert(Seq::<u8>::empty() + encode_utf8(b) == encode_utf8(b));
    } else {
        assert((a + b).drop_first() == a.drop_first() + b);
        assert((a + b)[0] == a[0]);
        lemma_encode_concat(a.drop_first(), b);
        assert(encode_scalar(a[0] as u32) + (encode_utf8(a.drop_first()) + encode_utf8(b))
            == (encode_scalar(a[0] as u32) + encode_utf8(a.drop_first())) + encode_utf8(b));
    }
}

proof fn lemma_scalar_width(c: char)
    ensures
        encode_scalar(c as u32).len() == char_width(c),
{
    broadcast use char_is_scalar;

    assert(is_scalar(c as u32));
}

/// Appending a character adds its width to the UTF-8 length.
pub proof fn lemma_utf8_len_push(s: Seq<char>, c: char)
    ensures
        utf8_len(s.push(c)) == utf8_len(s) + char_width(c),
{
    lemma_encode_concat(s, seq![c]);
    assert(s.push(c) == s + seq![c]);
    lemma_scalar_width(c);
    assert(seq![c].drop_first() == Seq::<char>::empty());
    assert(encode_utf8(seq![c]) == encode_scalar(c as u32) + encode_utf8(Seq::<char>::empty()));
}

/// The UTF-8 length of a concatenation is the sum of the lengths.
pub proof fn lemma_utf8_len_concat(a: Seq<char>, b: Seq<char>)
    ensures
        utf8_len(a + b) == utf8_len(a) + utf8_len(b),
{
    lemma_encode_concat(a, b);
}

/// The UTF-8 length of the prefix of length `k + 1`.
pub proof fn lemma_utf8_len_take_succ(s: Seq<char>, k: int)
    requires
        0 <= k < s.len(),
    ensures
        utf8_len(s.take(k + 1)) == utf8_len(s.take(k)) + char_width(s[k]),
{
    assert(s.take(k + 1) == s.take(k).push(s[k]));
    lemma_utf8_len_push(s.take(k), s[k]);
}

/// Longer prefixes have strictly longer encodings.
pub proof fn lemma_utf8_len_take_strict(s: Seq<char>, i: int, j: int)
    requires
        0 <= i < j <= s.len(),
    ensures
        utf8_len(s.take(i)) < utf8_len(s.take(j)),
    decreases j - i,
{
    lemma_utf8_len_take_succ(s, j - 1);
    if i < j - 1 {
        lemma_utf8_len_take_strict(s, i, j - 1);
    }
}

/// A boundary determines its character index.
pub proof fn lemma_char_pos(s: Seq<char>, k: int)
    requires
        0 <= k <= s.len(),
    ensures
        is_boundary(s, utf8_len(s.take(k)) as int),
        char_pos(s, utf8_len(s.take(k)) as int) == k,
{
    let b = utf8_len(s.take(k)) as int;
    assert(0 <= k <= s.len() && utf8_len(s.take(k)) == b);
    let c = char_pos(s, b);
    if c < k {
        lemma_utf8_len_take_strict(s, c, k);
    } else if c > k {
        lemma_utf8_len_take_strict(s, k, c);
    }
}

/// The whole sequence ends at a boundary.
pub proof fn lemma_utf8_len_full(s: Seq<char>)
    ensures
        s.take(s.len() as int) == s,
        utf8_len(s.take(s.len() as int)) == utf8_len(s),
{
    assert(s.take(s.len() as int) == s);
}

/// Number of bytes of the UTF-8 encoding of `c`.
pub fn char_width_of(c: char) -> (w: usize)
    ensures
        w == char_width(c),
        1 <= w <= 4,
{
    let v = c as u32;
    if v < 0x80 {
        1
    } else if v < 0x800 {
        2
    } else if v < 0x10000 {
        3
    } else {
        4
    }
}

/// The character index of the byte offset `b` of `s`, if `b` falls on a
/// character boundary.
pub fn char_index_of(s: &Vec<char>, b: usize) -> (r: Option<usize>)
    ensures
        r is Some <==> is_boundary(s@, b as int),
        r matches Some(k) ==> k <= s@.len() && k == char_pos(s@, b as int) && utf8_len(
            s@.take(k as int),
        ) == b,
{
    let mut acc: usize = 0;
    let mut i: usize = 0;
    while i < s.len()
        invariant
            i <= s@.len(),
            acc == utf8_len(s@.take(i as int)),
            acc <= b,
            forall|k: int| 0 <= k < i ==> utf8_len(#[trigger] s@.take(k)) < b,
        decreases s@.len() - i,
    {
        if acc == b {
            proof {
                lemma_char_pos(s@, i as int);
            }
            return Some(i);
        }
        let w = char_width_of(s[i]);
        proof {
            lemma_utf8_len_take_succ(s@, i as int);
        }
        if w > b - acc {
            proof {
                assert forall|k: int| 0 <= k <= s@.len() implies utf8_len(#[trigger] s@.take(k))
                    != b by {
                    if k > i + 1 {
                        lemma_utf8_len_take_strict(s@, i + 1, k);
                    }
                }
            }
            return None;
        }
        acc = acc + w;
        i = i + 1;
    }
    if acc == b {
        proof {
            lemma_char_pos(s@, i as int);
        }
        Some(i)
    } else {
        proof {
            assert forall|k: int| 0 <= k <= s@.len() implies utf8_len(#[trigger] s@.take(k))
                != b by {
                if k == s@.len() {
                    assert(k == i);
                }
            }
        }
        None
    }
}

/// Number of bytes of the UTF-8 encoding of the first `k` characters of `s`.
pub fn utf8_len_of_prefix(s: &Vec<char>, k: usize) -> (n: usize)
    requires
        k <= s@.len(),
        utf8_len(s@) <= usize::MAX,
    ensures
        n == utf8_len(s@.take(k as int)),
{
    let mut acc: usize = 0;
    let mut i: usize = 0;
    while i < k
        invariant
            i <= k <= s@.len(),
            utf8_len(s@) <= usize::MAX,
            acc == utf8_len(s@.take(i as int)),
        decreases k - i,
    {
        proof {
            lemma_utf8_len_take_succ(s@, i as int);
            lemma_utf8_len_full(s@);
            if i + 1 < s@.len() {
                lemma_utf8_len_take_strict(s@, i + 1, s@.len() as int);
            }
        }
        acc = acc + char_width_of(s[i]);
        i = i + 1;
    }
    acc
}

/// The UTF-8 length of `s` if it is at most `cap`.
pub fn utf8_len_capped(s: &Vec<char>, cap: usize) -> (r: Option<usize>)
    ensures
        r is Some <==> utf8_len(s@) <= cap,
        r matches Some(n) ==> n == utf8_len(s@),
{
    let mut acc: usize = 0;
    let mut i: usize = 0;
    while i < s.len()
        invariant
            i <= s@.len(),
            acc == utf8_len(s@.take(i as int)),
            acc <= cap,
        decreases s@.len() - i,
    {
        let w = char_width_of(s[i]);
        proof {
            lemma_utf8_len_take_succ(s@, i as int);
        }
        if w > cap - acc {
            proof {
                lemma_utf8_len_full(s@);
                if i + 1 < s@.len() {
                    lemma_utf8_len_take_strict(s@, i + 1, s@.len() as int);
                }
            }
            return None;
        }
        acc = acc + w;
        i = i + 1;
    }
    proof {
        lemma_utf8_len_full(s@);
    }
    Some(acc)
}

// ---------------------------------------------------------------------------
// Building strings
// ---------------------------------------------------------------------------

/// `String::push`: appends one character.
#[verifier::external_body]
pub(crate) fn push_char(s: &mut String, c: char)
    ensures
        final(s)@ == old(s)@.push(c),
{
    s.push(c);
}

/// The characters of `s`, in order.
pub fn chars_of(s: &str) -> (r: Vec<char>)
    ensures
        r@ == s@,
{
    let mut out: Vec<char> = Vec::new();
    for c in it: s.chars()
        invariant
            it.seq() == s@,
            out@ == it.seq().take(it.index()),
    {
        out.push(c);
    }
    out
}

/// The string made of the characters `cs[from..to]`.
pub fn string_of(cs: &Vec<char>, from: usize, to: usize) -> (r: String)
    requires
        from <= to <= cs@.len(),
    ensures
        r@ == cs@.subrange(from as int, to as int),
{
    let mut out = String::new();
    let mut i = from;
    while i < to
        invariant
            from <= i <= to <= cs@.len(),
            out@ == cs@.subrange(from as int, i as int),
        decreases to - i,
    {
        push_char(&mut out, cs[i]);
        proof {
            assert(cs@.subrange(from as int, i + 1) == cs@.subrange(from as int, i as int).push(
                cs@[i as int],
            ));
        }
        i = i + 1;
    }
    out
}

/// A copy of `s`.
pub fn copy_str(s: &str) -> (r: String)
    ensures
        r@ == s@,
{
    s.to_owned()
}

// ---------------------------------------------------------------------------
// Searching
// ---------------------------------------------------------------------------

/// `needle` occurs in `hay` at position `i`.
pub open spec fn occurs_at(hay: Seq<char>, needle: Seq<char>, i: int) -> bool {
    0 <= i && i + needle.len() <= hay.len() && hay.subrange(i, i + needle.len()) == needle
}

/// `needle` occurs somewhere in `hay` (the empty needle occurs everywhere).
pub open spec fn contains_seq(hay: Seq<char>, needle: Seq<char>) -> bool {
    exists|i: int| #[trigger] occurs_at(hay, needle, i)
}

/// `s` begins with `p`.
pub open spec fn starts_with(s: Seq<char>, p: Seq<char>) -> bool {
    p.len() <= s.len() && s.take(p.len() as int) == p
}

fn matches_at(hay: &Vec<char>, needle: &Vec<char>, i: usize) -> (r: bool)
    requires
        i + needle@.len() <= hay@.len(),
    ensures
        r == occurs_at(hay@, needle@, i as int),
{
    let n = hay.len();
    let mut j: usize = 0;
    while j < needle.len()
        invariant
            n == hay@.len(),
            j <= needle@.len(),
            i + needle@.len() <= hay@.len(),
            forall|t: int| 0 <= t < j ==> hay@[i + t] == needle@[t],
        decreases needle@.len() - j,
    {
        if hay[i + j] != needle[j] {
            proof {
                assert(hay@.subrange(i as int, i + needle@.len())[j as int] != needle@[j as int]);
            }
            return false;
        }
        j = j + 1;
    }
    proof {
        assert(hay@.subrange(i as int, i + needle@.len()) == needle@);
    }
    true
}

/// Whether `needle` occurs in `hay`.
pub fn contains_chars(hay: &Vec<char>, needle: &Vec<char>) -> (r: bool)
    ensures
        r == contains_seq(hay@, needle@),
{
    if needle.len() > hay.len() {
        proof {
            assert forall|i: int| !#[trigger] occurs_at(hay@, needle@, i) by {}
        }
        return false;
    }
    let last = hay.len() - needle.len();
    let mut i: usize = 0;
    while i <= last
        invariant
            last == hay@.len() - needle@.len(),
            i <= last + 1,
            forall|t: int| 0 <= t < i ==> !#[trigger] occurs_at(hay@, needle@, t),
        decreases last + 1 - i,
    {
        if matches_at(hay, needle, i) {
            return true;
        }
        if i == last {
            proof {
                assert forall|t: int| !#[trigger] occurs_at(hay@, needle@, t) by {}
            }
            return false;
        }
        i = i + 1;
    }
    proof {
        assert forall|t: int| !#[trigger] occurs_at(hay@, needle@, t) by {}
    }
    false
}

/// Whether `s` begins with `p`.
pub fn starts_with_chars(s: &Vec<char>, p: &Vec<char>) -> (r: bool)
    ensures
        r == starts_with(s@, p@),
{
    if p.len() > s.len() {
        return false;
    }
    let r = matches_at(s, p, 0);
    proof {
        assert(s@.subrange(0, p@.len() as int) == s@.take(p@.len() as int));
    }
    r
}

// ---------------------------------------------------------------------------
// Nick sigils
// ---------------------------------------------------------------------------

/// The channel-status prefixes of a nick: operator and voice.
pub open spec fn is_sigil(c: char) -> bool {
    c == '@' || c == '+'
}

/// `k` is the length of the run of sigils at the start of `s`.
pub open spec fn sigil_run(s: Seq<char>, k: int) -> bool {
    &&& 0 <= k <= s.len()
    &&& forall|j: int| 0 <= j < k ==> is_sigil(#[trigger] s[j])
    &&& (k == s.len() || !is_sigil(s[k]))
}

/// `s` without its leading `@` and `+` characters.
pub open spec fn strip_sigils(s: Seq<char>) -> Seq<char> {
    s.skip(choose|k: int| sigil_run(s, k))
}

proof fn lemma_sigil_run_unique(s: Seq<char>, k1: int, k2: int)
    requires
        sigil_run(s, k1),
        sigil_run(s, k2),
    ensures
        k1 == k2,
{
    if k1 < k2 {
        assert(is_sigil(s[k1]));
    } else if k2 < k1 {
        assert(is_sigil(s[k2]));
    }
}

/// `s` without its leading `@` and `+` characters.
pub fn strip_sigils_of(s: &Vec<char>) -> (r: Vec<char>)
    ensures
        r@ == strip_sigils(s@),
{
    let mut k: usize = 0;
    while k < s.len() && (s[k] == '@' || s[k] == '+')
        invariant
            k <= s@.len(),
            forall|j: int| 0 <= j < k ==> is_sigil(#[trigger] s@[j]),
        decreases s@.len() - k,
    {
        k = k + 1;
    }
    proof {
        assert(sigil_run(s@, k as int));
        let c = choose|c: int| sigil_run(s@, c);
        lemma_sigil_run_unique(s@, c, k as int);
    }
    let mut out: Vec<char> = Vec::new();
    let mut i = k;
    while i < s.len()
        invariant
            k <= i <= s@.len(),
            out@ == s@.subrange(k as int, i as int),
        decreases s@.len() - i,
    {
        out.push(s[i]);
        proof {
            assert(s@.subrange(k as int, i + 1) == s@.subrange(k as int, i as int).push(s@[i as int]));
        }
        i = i + 1;
    }
    out
}

// ---------------------------------------------------------------------------
// Unicode properties, from std
// ---------------------------------------------------------------------------

/// What `str::to_lowercase` returns for a string with these characters.
pub uninterp spec fn lowercase(s: Seq<char>) -> Seq<char>;

/// The Unicode `White_Space` property: tab, line feed, vertical tab, form
/// feed, carriage return, space, next line, no-break space, Ogham space
/// mark, the spaces U+2000 to U+200A, line and paragraph separators, narrow
/// no-break space, medium mathematical space and ideographic space.
pub open spec fn white_space(c: char) -> bool {
    let v = c as u32;
    ||| 0x09 <= v && v <= 0x0D
    ||| v == 0x20
    ||| v == 0x85
    ||| v == 0xA0
    ||| v == 0x1680
    ||| 0x2000 <= v && v <= 0x200A
    ||| v == 0x2028
    ||| v == 0x2029
    ||| v == 0x202F
    ||| v == 0x205F
    ||| v == 0x3000
}

/// Calls `str::to_lowercase`: the lowercase mapping of every character, as
/// Unicode defines it; the contract names its result and says nothing more.
#[verifier::external_body]
pub(crate) fn to_lowercase(s: &str) -> (r: String)
    ensures
        r@ == lowercase(s@),
{
    s.to_lowercase()
}

/// Whether `c` is whitespace: what `char::is_whitespace` gives, the Unicode
/// `White_Space` property.
pub fn is_whitespace(c: char) -> (r: bool)
    ensures
        r == white_space(c),
{
    let v = c as u32;
    (0x09 <= v && v <= 0x0D) || v == 0x20 || v == 0x85 || v == 0xA0 || v == 0x1680 || (0x2000
        <= v && v <= 0x200A) || v == 0x2028 || v == 0x2029 || v == 0x202F || v == 0x205F || v
        == 0x3000
}

} // verus!
