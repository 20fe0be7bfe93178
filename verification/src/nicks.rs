//! Nick lists: their order, and membership changes.

use vstd::prelude::*;
use vstd::utf8::encode_utf8;
use crate::text::{chars_of, copy_str, lowercase, string_of, strip_sigils, strip_sigils_of, to_lowercase};

verus! {

/// The view of a list of strings.
pub open spec fn strings_view(v: Seq<String>) -> Seq<Seq<char>> {
    v.map_values(|s: String| s@)
}

/// Where a nick goes in the list: operators first, then voiced nicks, then
/// the rest.
pub open spec fn nick_rank(n: Seq<char>) -> u8 {
    if n.len() > 0 && n[0] == '@' {
        0
    } else if n.len() > 0 && n[0] == '+' {
        1
    } else {
        2
    }
}

/// The name by which nicks of one rank are ordered: the nick without its
/// status prefixes, in lower case.
pub open spec fn nick_sort_name(n: Seq<char>) -> Seq<char> {
    lowercase(strip_sigils(n))
}

/// Lexicographic order of byte strings.
pub open spec fn bytes_le(a: Seq<u8>, b: Seq<u8>) -> bool {
    exists|k: int|
        0 <= k <= a.len() && k <= b.len() && #[trigger] a.take(k) == b.take(k) && (k == a.len() || (
        k < b.len() && a[k] < b[k]))
}

/// The order of the nick list: by rank, then by the bytes of the sort name.
pub open spec fn nick_le(x: Seq<char>, y: Seq<char>) -> bool {
    ||| nick_rank(x) < nick_rank(y)
    ||| nick_rank(x) == nick_rank(y) && bytes_le(
        encode_utf8(nick_sort_name(x)),
        encode_utf8(nick_sort_name(y)),
    )
}

/// Two nicks that the order does not tell apart.
pub open spec fn same_key(x: Seq<char>, y: Seq<char>) -> bool {
    nick_rank(x) == nick_rank(y) && nick_sort_name(x) == nick_sort_name(y)
}

/// `s` is ordered by `nick_le`.
pub open spec fn nicks_sorted(s: Seq<Seq<char>>) -> bool {
    forall|i: int, j: int| 0 <= i < j < s.len() ==> nick_le(#[trigger] s[i], #[trigger] s[j])
}

/// `after` is `before` sorted by `nick_le`, with nicks that the order does
/// not tell apart kept in their former order.
pub open spec fn stable_sort_of(before: Seq<Seq<char>>, after: Seq<Seq<char>>) -> bool {
    &&& nicks_sorted(after)
    &&& after.to_multiset() == before.to_multiset()
    &&& forall|k: Seq<char>| key_class(after, k) == #[trigger] key_class(before, k)
}

/// The entries of `s` that the order does not tell apart from `k`, in order.
pub open spec fn key_class(s: Seq<Seq<char>>, k: Seq<char>) -> Seq<Seq<char>> {
    s.filter(|x: Seq<char>| same_key(x, k))
}

/// Dropping entries from a sorted list leaves it sorted.
pub proof fn lemma_filter_sorted(s: Seq<Seq<char>>, pred: spec_fn(Seq<char>) -> bool)
    requires
        nicks_sorted(s),
    ensures
        nicks_sorted(s.filter(pred)),
    decreases s.len(),
{
    reveal(Seq::filter);
    if s.len() > 0 {
        let rest = s.drop_last();
        assert(nicks_sorted(rest)) by {
            assert forall|i: int, j: int| 0 <= i < j < rest.len() implies nick_le(
                #[trigger] rest[i],
                #[trigger] rest[j],
            ) by {
                assert(rest[i] == s[i] && rest[j] == s[j]);
            }
        }
        lemma_filter_sorted(rest, pred);
        let f = rest.filter(pred);
        if pred(s.last()) {
            let g = f.push(s.last());
            assert forall|i: int, j: int| 0 <= i < j < g.len() implies nick_le(
                #[trigger] g[i],
                #[trigger] g[j],
            ) by {
                if j == g.len() - 1 {
                    assert(f.contains(g[i]));
                    rest.lemma_filter_contains_rev(pred, g[i]);
                    let k = choose|k: int| 0 <= k < rest.len() && rest[k] == g[i];
                    assert(s[k] == g[i]);
                    assert(nick_le(s[k], s[s.len() - 1]));
                } else {
                    assert(g[i] == f[i] && g[j] == f[j]);
                }
            }
        }
    }
}

/// The stable sort of a nick list by `nick_le` (there is at most one, see
/// `lemma_stable_sort_unique`).
pub open spec fn sorted_nicks(nicks: Seq<Seq<char>>) -> Seq<Seq<char>> {
    choose|r: Seq<Seq<char>>| stable_sort_of(nicks, r)
}

proof fn lemma_bytes_le_antisym(a: Seq<u8>, b: Seq<u8>)
    requires
        bytes_le(a, b),
        bytes_le(b, a),
    ensures
        a == b,
{
    let k1 = choose|k: int|
        0 <= k <= a.len() && k <= b.len() && #[trigger] a.take(k) == b.take(k) && (k == a.len() || (
        k < b.len() && a[k] < b[k]));
    let k2 = choose|k: int|
        0 <= k <= b.len() && k <= a.len() && #[trigger] b.take(k) == a.take(k) && (k == b.len() || (
        k < a.len() && b[k] < a[k]));
    if k1 < a.len() {
        assert(a[k1] < b[k1]);
        if k2 < k1 {
            assert(a.take(k1)[k2] == b.take(k1)[k2]);
        } else if k2 > k1 {
            assert(a.take(k2)[k1] == b.take(k2)[k1]);
        }
        assert(false);
    }
    if k2 < b.len() {
        assert(b[k2] < a[k2]);
        if k2 < k1 {
            assert(a.take(k1)[k2] == b.take(k1)[k2]);
        }
        assert(false);
    }
    assert(a == a.take(k1));
    assert(b == b.take(k2));
}

/// Nicks ordered both ways have the same key.
pub proof fn lemma_nick_le_antisym(x: Seq<char>, y: Seq<char>)
    requires
        nick_le(x, y),
        nick_le(y, x),
    ensures
        same_key(x, y),
{
    broadcast use vstd::utf8::encode_utf8_decode_utf8;

    lemma_bytes_le_antisym(encode_utf8(nick_sort_name(x)), encode_utf8(nick_sort_name(y)));
    assert(vstd::utf8::decode_utf8(encode_utf8(nick_sort_name(x))) == nick_sort_name(x));
    assert(vstd::utf8::decode_utf8(encode_utf8(nick_sort_name(y))) == nick_sort_name(y));
}

proof fn lemma_class_member(r: Seq<Seq<char>>, k: Seq<char>, x: Seq<char>)
    requires
        key_class(r, k).contains(x),
    ensures
        r.contains(x),
{
    r.lemma_filter_contains_rev(|n: Seq<char>| same_key(n, k), x);
}

proof fn lemma_class_prepend(t: Seq<Seq<char>>, x: Seq<char>, k: Seq<char>)
    ensures
        key_class(seq![x] + t, k) == (if same_key(x, k) {
            seq![x] + key_class(t, k)
        } else {
            key_class(t, k)
        }),
{
    t.lemma_filter_prepend(x, |n: Seq<char>| same_key(n, k));
}

/// Two sorted lists with the same entries of every key are equal.
proof fn lemma_sorted_classes_equal(r1: Seq<Seq<char>>, r2: Seq<Seq<char>>)
    requires
        nicks_sorted(r1),
        nicks_sorted(r2),
        forall|k: Seq<char>| key_class(r1, k) == #[trigger] key_class(r2, k),
    ensures
        r1 == r2,
    decreases r1.len() + r2.len(),
{
    if r1.len() == 0 && r2.len() == 0 {
        assert(r1 =~= r2);
    } else if r1.len() == 0 || r2.len() == 0 {
        let x = if r1.len() > 0 {
            r1[0]
        } else {
            r2[0]
        };
        let big = if r1.len() > 0 {
            r1
        } else {
            r2
        };
        let small = if r1.len() > 0 {
            r2
        } else {
            r1
        };
        assert(big == seq![x] + big.drop_first());
        lemma_class_prepend(big.drop_first(), x, x);
        assert(key_class(big, x).len() > 0);
        assert(small == Seq::<Seq<char>>::empty());
        reveal(Seq::filter);
        assert(key_class(small, x).len() == 0);
        assert(key_class(r1, x) == key_class(r2, x));
    } else {
        let x1 = r1[0];
        let x2 = r2[0];
        let t1 = r1.drop_first();
        let t2 = r2.drop_first();
        assert(r1 == seq![x1] + t1);
        assert(r2 == seq![x2] + t2);
        lemma_class_prepend(t1, x1, x1);
        assert(key_class(r1, x1)[0] == x1);
        assert(key_class(r2, x1).contains(x1));
        lemma_class_member(r2, x1, x1);
        let j = choose|j: int| 0 <= j < r2.len() && r2[j] == x1;
        if j > 0 {
            assert(nick_le(r2[0], r2[j]));
        }
        lemma_class_prepend(t2, x2, x2);
        assert(key_class(r2, x2).contains(x2));
        lemma_class_member(r1, x2, x2);
        let i = choose|i: int| 0 <= i < r1.len() && r1[i] == x2;
        if i > 0 {
            assert(nick_le(r1[0], r1[i]));
        }
        if j == 0 || i == 0 {
            assert(same_key(x1, x2));
        } else {
            lemma_nick_le_antisym(x1, x2);
        }
        lemma_class_prepend(t2, x2, x1);
        assert(x1 == x2);
        assert forall|k: Seq<char>| key_class(t1, k) == #[trigger] key_class(t2, k) by {
            lemma_class_prepend(t1, x1, k);
            lemma_class_prepend(t2, x2, k);
            if same_key(x1, k) {
                assert(key_class(t1, k) == key_class(r1, k).drop_first());
                assert(key_class(t2, k) == key_class(r2, k).drop_first());
            }
        }
        assert(nicks_sorted(t1)) by {
            assert forall|p: int, q: int| 0 <= p < q < t1.len() implies nick_le(
                #[trigger] t1[p],
                #[trigger] t1[q],
            ) by {
                assert(t1[p] == r1[p + 1] && t1[q] == r1[q + 1]);
            }
        }
        assert(nicks_sorted(t2)) by {
            assert forall|p: int, q: int| 0 <= p < q < t2.len() implies nick_le(
                #[trigger] t2[p],
                #[trigger] t2[q],
            ) by {
                assert(t2[p] == r2[p + 1] && t2[q] == r2[q + 1]);
            }
        }
        lemma_sorted_classes_equal(t1, t2);
    }
}

/// A nick list has at most one stable sort.
pub proof fn lemma_stable_sort_unique(
    nicks: Seq<Seq<char>>,
    r1: Seq<Seq<char>>,
    r2: Seq<Seq<char>>,
)
    requires
        stable_sort_of(nicks, r1),
        stable_sort_of(nicks, r2),
    ensures
        r1 == r2,
{
    assert forall|k: Seq<char>| key_class(r1, k) == #[trigger] key_class(r2, k) by {
        assert(key_class(r1, k) == key_class(nicks, k));
        assert(key_class(r2, k) == key_class(nicks, k));
    }
    lemma_sorted_classes_equal(r1, r2);
}

proof fn lemma_filter_forward(
    s: Seq<Seq<char>>,
    pred: spec_fn(Seq<char>) -> bool,
    i: int,
    j: int,
)
    requires
        0 <= i < j < s.len(),
        pred(s[i]),
        pred(s[j]),
    ensures
        exists|a: int, b: int|
            0 <= a < b < s.filter(pred).len() && #[trigger] s.filter(pred)[a] == s[i]
                && #[trigger] s.filter(pred)[b] == s[j],
    decreases s.len(),
{
    reveal(Seq::filter);
    let t = s.drop_last();
    let f = t.filter(pred);
    assert(s.filter(pred) == f.push(s.last()) || s.filter(pred) == f);
    if j == s.len() - 1 {
        assert(s.filter(pred) == f.push(s[j]));
        assert(t[i] == s[i]);
        t.lemma_filter_contains(pred, i);
        let a = choose|a: int| 0 <= a < f.len() && f[a] == t[i];
        assert(s.filter(pred)[a] == s[i] && s.filter(pred)[f.len() as int] == s[j]);
    } else {
        assert(t[i] == s[i] && t[j] == s[j]);
        lemma_filter_forward(t, pred, i, j);
        let (a, b) = choose|a: int, b: int|
            0 <= a < b < f.len() && #[trigger] f[a] == t[i] && #[trigger] f[b] == t[j];
        assert(s.filter(pred)[a] == f[a] && s.filter(pred)[b] == f[b]);
    }
}

proof fn lemma_filter_backward(
    s: Seq<Seq<char>>,
    pred: spec_fn(Seq<char>) -> bool,
    a: int,
    b: int,
)
    requires
        0 <= a < b < s.filter(pred).len(),
    ensures
        exists|p: int, q: int|
            0 <= p < q < s.len() && #[trigger] s[p] == s.filter(pred)[a] && #[trigger] s[q]
                == s.filter(pred)[b],
    decreases s.len(),
{
    reveal(Seq::filter);
    let t = s.drop_last();
    let f = t.filter(pred);
    if pred(s.last()) && b == f.len() {
        assert(s.filter(pred) == f.push(s.last()));
        assert(f.contains(f[a]));
        t.lemma_filter_contains_rev(pred, f[a]);
        let p = choose|p: int| 0 <= p < t.len() && t[p] == f[a];
        assert(s[p] == s.filter(pred)[a] && s[s.len() - 1] == s.filter(pred)[b]);
    } else {
        assert(b < f.len());
        assert(s.filter(pred)[a] == f[a] && s.filter(pred)[b] == f[b]);
        lemma_filter_backward(t, pred, a, b);
        let (p, q) = choose|p: int, q: int|
            0 <= p < q < t.len() && #[trigger] t[p] == f[a] && #[trigger] t[q] == f[b];
        assert(s[p] == t[p] && s[q] == t[q]);
    }
}

/// Stability by position: two entries whose keys the order does not tell
/// apart come out of the sort in the order they went in.
pub proof fn sort_keeps_order_of_equal_keys(
    before: Seq<Seq<char>>,
    after: Seq<Seq<char>>,
    i: int,
    j: int,
)
    requires
        stable_sort_of(before, after),
        0 <= i < j < before.len(),
        same_key(before[i], before[j]),
    ensures
        exists|p: int, q: int|
            0 <= p < q < after.len() && #[trigger] after[p] == before[i] && #[trigger] after[q]
                == before[j],
{
    let k = before[i];
    let pred = |x: Seq<char>| same_key(x, k);
    lemma_filter_forward(before, pred, i, j);
    let (a, b) = choose|a: int, b: int|
        0 <= a < b < before.filter(pred).len() && #[trigger] before.filter(pred)[a] == before[i]
            && #[trigger] before.filter(pred)[b] == before[j];
    assert(key_class(after, k) == key_class(before, k));
    assert(after.filter(pred) == before.filter(pred));
    lemma_filter_backward(after, pred, a, b);
}

/// Lexicographic order of byte strings, first byte first.
spec fn lex(a: Seq<u8>, b: Seq<u8>) -> bool
    decreases a.len(),
{
    if a.len() == 0 {
        true
    } else if b.len() == 0 {
        false
    } else {
        a[0] < b[0] || (a[0] == b[0] && lex(a.drop_first(), b.drop_first()))
    }
}

proof fn lemma_lex_bytes_le(a: Seq<u8>, b: Seq<u8>)
    ensures
        lex(a, b) == bytes_le(a, b),
    decreases a.len(),
{
    if a.len() == 0 {
        assert(a.take(0) == b.take(0));
    } else if b.len() == 0 {
        if bytes_le(a, b) {
            let k = choose|k: int|
                0 <= k <= a.len() && k <= b.len() && #[trigger] a.take(k) == b.take(k) && (k
                    == a.len() || (k < b.len() && a[k] < b[k]));
            assert(k == 0);
        }
    } else {
        lemma_lex_bytes_le(a.drop_first(), b.drop_first());
        let a1 = a.drop_first();
        let b1 = b.drop_first();
        if a[0] < b[0] {
            assert(a.take(0) == b.take(0));
        } else if a[0] == b[0] && lex(a1, b1) {
            let k = choose|k: int|
                0 <= k <= a1.len() && k <= b1.len() && #[trigger] a1.take(k) == b1.take(k) && (k
                    == a1.len() || (k < b1.len() && a1[k] < b1[k]));
            assert(a.take(k + 1) =~= seq![a[0]] + a1.take(k));
            assert(b.take(k + 1) =~= seq![b[0]] + b1.take(k));
            assert(a.take(k + 1) == b.take(k + 1));
        }
        if bytes_le(a, b) {
            let k = choose|k: int|
                0 <= k <= a.len() && k <= b.len() && #[trigger] a.take(k) == b.take(k) && (k
                    == a.len() || (k < b.len() && a[k] < b[k]));
            if k > 0 {
                assert(a.take(k)[0] == b.take(k)[0]);
                assert(a1.take(k - 1) =~= a.take(k).drop_first());
                assert(b1.take(k - 1) =~= b.take(k).drop_first());
                assert(a1.take(k - 1) == b1.take(k - 1));
                if k < a.len() {
                    assert(a1[k - 1] == a[k] && b1[k - 1] == b[k]);
                }
                assert(bytes_le(a1, b1));
            }
        }
    }
}

proof fn lemma_lex_total(a: Seq<u8>, b: Seq<u8>)
    ensures
        lex(a, b) || lex(b, a),
    decreases a.len(),
{
    if a.len() > 0 && b.len() > 0 {
        lemma_lex_total(a.drop_first(), b.drop_first());
    }
}

proof fn lemma_lex_refl(a: Seq<u8>)
    ensures
        lex(a, a),
    decreases a.len(),
{
    if a.len() > 0 {
        lemma_lex_refl(a.drop_first());
    }
}

proof fn lemma_lex_trans(a: Seq<u8>, b: Seq<u8>, c: Seq<u8>)
    requires
        lex(a, b),
        lex(b, c),
    ensures
        lex(a, c),
    decreases a.len(),
{
    if a.len() > 0 && b.len() > 0 && c.len() > 0 {
        if a[0] == b[0] && b[0] == c[0] {
            lemma_lex_trans(a.drop_first(), b.drop_first(), c.drop_first());
        }
    }
}

proof fn lemma_nick_le_total(x: Seq<char>, y: Seq<char>)
    ensures
        nick_le(x, y) || nick_le(y, x),
{
    let ex = encode_utf8(nick_sort_name(x));
    let ey = encode_utf8(nick_sort_name(y));
    lemma_lex_total(ex, ey);
    lemma_lex_bytes_le(ex, ey);
    lemma_lex_bytes_le(ey, ex);
}

proof fn lemma_nick_le_trans(x: Seq<char>, y: Seq<char>, z: Seq<char>)
    requires
        nick_le(x, y),
        nick_le(y, z),
    ensures
        nick_le(x, z),
{
    let ex = encode_utf8(nick_sort_name(x));
    let ey = encode_utf8(nick_sort_name(y));
    let ez = encode_utf8(nick_sort_name(z));
    lemma_lex_bytes_le(ex, ey);
    lemma_lex_bytes_le(ey, ez);
    lemma_lex_bytes_le(ex, ez);
    if nick_rank(x) == nick_rank(y) && nick_rank(y) == nick_rank(z) {
        lemma_lex_trans(ex, ey, ez);
    }
}

proof fn lemma_same_key_le(x: Seq<char>, y: Seq<char>)
    requires
        same_key(x, y),
    ensures
        nick_le(x, y),
{
    let ex = encode_utf8(nick_sort_name(x));
    lemma_lex_refl(ex);
    lemma_lex_bytes_le(ex, ex);
}

/// How many leading entries of `r` come no later than `x`.
spec fn le_prefix(r: Seq<Seq<char>>, x: Seq<char>) -> int
    decreases r.len(),
{
    if r.len() == 0 || !nick_le(r[0], x) {
        0
    } else {
        1 + le_prefix(r.drop_first(), x)
    }
}

proof fn lemma_le_prefix(r: Seq<Seq<char>>, x: Seq<char>)
    requires
        nicks_sorted(r),
    ensures
        0 <= le_prefix(r, x) <= r.len(),
        forall|j: int| 0 <= j < le_prefix(r, x) ==> nick_le(#[trigger] r[j], x),
        forall|j: int| le_prefix(r, x) <= j < r.len() ==> !nick_le(#[trigger] r[j], x),
    decreases r.len(),
{
    if r.len() > 0 {
        if nick_le(r[0], x) {
            let t = r.drop_first();
            assert(nicks_sorted(t)) by {
                assert forall|p: int, q: int| 0 <= p < q < t.len() implies nick_le(
                    #[trigger] t[p],
                    #[trigger] t[q],
                ) by {
                    assert(t[p] == r[p + 1] && t[q] == r[q + 1]);
                }
            }
            lemma_le_prefix(t, x);
            assert forall|j: int| 0 <= j < le_prefix(r, x) implies nick_le(#[trigger] r[j], x) by {
                if j > 0 {
                    assert(r[j] == t[j - 1]);
                }
            }
            assert forall|j: int| le_prefix(r, x) <= j < r.len() implies !nick_le(
                #[trigger] r[j],
                x,
            ) by {
                assert(r[j] == t[j - 1]);
            }
        } else {
            assert forall|j: int| 0 <= j < r.len() implies !nick_le(#[trigger] r[j], x) by {
                if j > 0 && nick_le(r[j], x) {
                    assert(nick_le(r[0], r[j]));
                    lemma_nick_le_trans(r[0], r[j], x);
                }
            }
        }
    }
}

/// A list sorted by inserting its entries one by one, each after every
/// entry that comes no later than it.
spec fn insertion_sorted(s: Seq<Seq<char>>) -> Seq<Seq<char>>
    decreases s.len(),
{
    if s.len() == 0 {
        s
    } else {
        let r = insertion_sorted(s.drop_last());
        r.insert(le_prefix(r, s.last()), s.last())
    }
}

proof fn lemma_filter_none(s: Seq<Seq<char>>, pred: spec_fn(Seq<char>) -> bool)
    requires
        forall|j: int| 0 <= j < s.len() ==> !pred(#[trigger] s[j]),
    ensures
        s.filter(pred) == Seq::<Seq<char>>::empty(),
{
    if s.filter(pred).len() > 0 {
        s.lemma_filter_pred(pred, 0);
        assert(s.filter(pred).contains(s.filter(pred)[0]));
        s.lemma_filter_contains_rev(pred, s.filter(pred)[0]);
    }
    assert(s.filter(pred) =~= Seq::<Seq<char>>::empty());
}

proof fn lemma_insertion_sorted(s: Seq<Seq<char>>)
    ensures
        stable_sort_of(s, insertion_sorted(s)),
    decreases s.len(),
{
    broadcast use vstd::seq_lib::to_multiset_build, vstd::seq_lib::to_multiset_insert;

    if s.len() == 0 {
        assert forall|k: Seq<char>| key_class(s, k) == #[trigger] key_class(s, k) by {}
    } else {
        let t = s.drop_last();
        let x = s.last();
        lemma_insertion_sorted(t);
        let r = insertion_sorted(t);
        let p = le_prefix(r, x);
        lemma_le_prefix(r, x);
        let out = r.insert(p, x);
        assert(out == insertion_sorted(s));
        assert(out =~= r.take(p) + seq![x] + r.skip(p));
        assert forall|i: int, j: int| 0 <= i < j < out.len() implies nick_le(
            #[trigger] out[i],
            #[trigger] out[j],
        ) by {
            if j < p {
                assert(out[i] == r[i] && out[j] == r[j]);
            } else if j == p {
                assert(out[i] == r[i]);
            } else if i < p {
                assert(out[i] == r[i] && out[j] == r[j - 1]);
                assert(nick_le(r[i], r[j - 1]));
            } else if i == p {
                assert(out[j] == r[j - 1]);
                lemma_nick_le_total(r[j - 1], x);
            } else {
                assert(out[i] == r[i - 1] && out[j] == r[j - 1]);
            }
        }
        assert(s == t.push(x));
        assert(out.to_multiset() == r.to_multiset().insert(x));
        assert forall|k: Seq<char>| key_class(out, k) == #[trigger] key_class(s, k) by {
            let pred = |n: Seq<char>| same_key(n, k);
            reveal(Seq::filter);
            assert(s.drop_last() == t);
            assert(key_class(t, k) == key_class(r, k));
            Seq::filter_distributes_over_add(r.take(p) + seq![x], r.skip(p), pred);
            Seq::filter_distributes_over_add(r.take(p), seq![x], pred);
            Seq::filter_distributes_over_add(r.take(p), r.skip(p), pred);
            assert(r == r.take(p) + r.skip(p));
            assert(seq![x].drop_last() =~= Seq::<Seq<char>>::empty());
            if same_key(x, k) {
                assert(seq![x].filter(pred) == seq![x]);
                assert forall|j: int| 0 <= j < r.skip(p).len() implies !pred(
                    #[trigger] r.skip(p)[j],
                ) by {
                    assert(r.skip(p)[j] == r[p + j]);
                    if same_key(r[p + j], k) {
                        lemma_same_key_le(r[p + j], x);
                    }
                }
                lemma_filter_none(r.skip(p), pred);
                assert(r.skip(p).filter(pred) + Seq::<Seq<char>>::empty() == r.skip(p).filter(pred));
            } else {
                assert(seq![x].last() == x);
                assert(Seq::<Seq<char>>::empty().filter(pred) =~= Seq::<Seq<char>>::empty());
                assert(seq![x].filter(pred) =~= Seq::<Seq<char>>::empty());
            }
        }
    }
}

/// Every nick list has a stable sort.
pub proof fn lemma_stable_sort_exists(nicks: Seq<Seq<char>>)
    ensures
        stable_sort_of(nicks, sorted_nicks(nicks)),
{
    lemma_insertion_sorted(nicks);
}

/// The sort key of a nick: its rank and its sort name.
pub fn nick_key(n: &String) -> (r: (u8, String))
    ensures
        r.0 == nick_rank(n@),
        r.1@ == nick_sort_name(n@),
{
    let cs = chars_of(n.as_str());
    let rank: u8 = if cs.len() > 0 && cs[0] == '@' {
        0
    } else if cs.len() > 0 && cs[0] == '+' {
        1
    } else {
        2
    };
    let bare = strip_sigils_of(&cs);
    let bare_s = string_of(&bare, 0, bare.len());
    proof {
        assert(bare@.subrange(0, bare@.len() as int) == bare@);
    }
    (rank, to_lowercase(bare_s.as_str()))
}

/// Calls `slice::sort_by_key` with `nick_key`: a stable sort, by the
/// documentation, under the order of `(u8, String)`, which is numeric and
/// then lexicographic by bytes. The contract states exactly that.
#[verifier::external_body]
fn stable_sort_by_nick_key(nicks: &mut Vec<String>)
    ensures
        stable_sort_of(strings_view(old(nicks)@), strings_view(final(nicks)@)),
{
    nicks.sort_by_key(|n| nick_key(n));
}

/// Sorts a nick list: operators, voiced, then the rest, each group by name
/// without case.
pub fn sort_nicks(nicks: &mut Vec<String>)
    ensures
        strings_view(final(nicks)@) == sorted_nicks(strings_view(old(nicks)@)),
        stable_sort_of(strings_view(old(nicks)@), strings_view(final(nicks)@)),
{
    stable_sort_by_nick_key(nicks);
    proof {
        let a = strings_view(old(nicks)@);
        let r = strings_view(nicks@);
        assert(stable_sort_of(a, r));
        lemma_stable_sort_unique(a, r, sorted_nicks(a));
    }
}

/// Whether `nick` is in the list.
pub fn has_nick(nicks: &Vec<String>, nick: &String) -> (r: bool)
    ensures
        r == strings_view(nicks@).contains(nick@),
{
    let mut i: usize = 0;
    while i < nicks.len()
        invariant
            i <= nicks@.len(),
            forall|j: int| 0 <= j < i ==> #[trigger] nicks@[j]@ != nick@,
        decreases nicks@.len() - i,
    {
        if nicks[i] == *nick {
            proof {
                assert(strings_view(nicks@)[i as int] == nick@);
            }
            return true;
        }
        i = i + 1;
    }
    proof {
        assert forall|j: int| 0 <= j < strings_view(nicks@).len() implies strings_view(nicks@)[j]
            != nick@ by {
            assert(nicks@[j]@ != nick@);
        }
    }
    false
}

/// The list without every entry equal to `nick`, in the same order.
pub fn without_nick(nicks: &Vec<String>, nick: &String) -> (r: Vec<String>)
    ensures
        strings_view(r@) == strings_view(nicks@).filter(|n: Seq<char>| n != nick@),
{
    let ghost pred = |n: Seq<char>| n != nick@;
    let mut out: Vec<String> = Vec::new();
    let mut i: usize = 0;
    while i < nicks.len()
        invariant
            i <= nicks@.len(),
            pred == (|n: Seq<char>| n != nick@),
            strings_view(out@) == strings_view(nicks@).take(i as int).filter(pred),
        decreases nicks@.len() - i,
    {
        let ghost before = strings_view(nicks@).take(i as int);
        proof {
            assert(strings_view(nicks@).take(i + 1) == before.push(nicks@[i as int]@));
            reveal(Seq::filter);
            assert(before.push(nicks@[i as int]@).drop_last() == before);
        }
        if !(nicks[i] == *nick) {
            let c = nicks[i].clone();
            let ghost prev = out@;
            out.push(c);
            proof {
                assert(strings_view(out@) =~= strings_view(prev).push(c@));
            }
        }
        i = i + 1;
    }
    proof {
        assert(strings_view(nicks@).take(nicks@.len() as int) == strings_view(nicks@));
    }
    out
}

/// A copy of a nick.
pub fn copy_nick(n: &String) -> (r: String)
    ensures
        r@ == n@,
{
    copy_str(n.as_str())
}

} // verus!
