//! The run optimizer.
//!
//! A stream of marks (open a style, one character, close the style) is read
//! as a sequence of characters, each carrying the style key in effect at it.
//! Whitespace that sits unstyled between two stretches of the same style is
//! taken into that style, and the result is written back with the fewest
//! marks: one open where the style changes, one close where it ends.
use vstd::prelude::*;

verus! {

/// One token of a style stream; styles are named by keys.
#[derive(Debug, Clone, Copy, PartialEq, Eq, Structural)]
pub enum Mark {
    Open(u64),
    Glyph(char),
    Close,
}

/// Unicode's White_Space characters, as `char::is_whitespace` lists them.
pub open spec fn is_ws(c: char) -> bool {
    c == ' ' || ('\t' <= c && c <= '\r') || c == '\u{85}' || c == '\u{a0}' || c == '\u{1680}' || (
    '\u{2000}' <= c && c <= '\u{200a}') || c == '\u{2028}' || c == '\u{2029}' || c == '\u{202f}'
        || c == '\u{205f}' || c == '\u{3000}'
}

pub fn is_whitespace(c: char) -> (r: bool)
    ensures
        r == is_ws(c),
{
    c == ' ' || ('\t' <= c && c <= '\r') || c == '\u{85}' || c == '\u{a0}' || c == '\u{1680}' || (
    '\u{2000}' <= c && c <= '\u{200a}') || c == '\u{2028}' || c == '\u{2029}' || c == '\u{202f}'
        || c == '\u{205f}' || c == '\u{3000}'
}

/// The key in effect after the marks `ms`.
pub open spec fn current_key(ms: Seq<Mark>) -> Option<u64>
    decreases ms.len(),
{
    if ms.len() == 0 {
        None
    } else {
        match ms.last() {
            Mark::Open(k) => Some(k),
            Mark::Close => None,
            Mark::Glyph(_) => current_key(ms.drop_last()),
        }
    }
}

/// The characters of `ms`, in order.
pub open spec fn chars_of(ms: Seq<Mark>) -> Seq<char>
    decreases ms.len(),
{
    if ms.len() == 0 {
        Seq::empty()
    } else {
        match ms.last() {
            Mark::Glyph(c) => chars_of(ms.drop_last()).push(c),
            _ => chars_of(ms.drop_last()),
        }
    }
}

/// The key in effect at each character of `ms`.
pub open spec fn keys_of(ms: Seq<Mark>) -> Seq<Option<u64>>
    decreases ms.len(),
{
    if ms.len() == 0 {
        Seq::empty()
    } else {
        match ms.last() {
            Mark::Glyph(_) => keys_of(ms.drop_last()).push(current_key(ms.drop_last())),
            _ => keys_of(ms.drop_last()),
        }
    }
}

/// Character `j` is unstyled whitespace.
pub open spec fn is_gap(cs: Seq<char>, es: Seq<Option<u64>>, j: int) -> bool {
    es[j] is None && is_ws(cs[j])
}

/// The key of the nearest character before `j` that is not unstyled
/// whitespace (none if there is no such character).
pub open spec fn left_anchor(cs: Seq<char>, es: Seq<Option<u64>>, j: int) -> Option<u64>
    decreases j,
{
    if j <= 0 {
        None
    } else if is_gap(cs, es, j - 1) {
        left_anchor(cs, es, j - 1)
    } else {
        es[j - 1]
    }
}

/// The key of the nearest character after `j` that is not unstyled
/// whitespace (none if there is no such character).
pub open spec fn right_anchor(cs: Seq<char>, es: Seq<Option<u64>>, j: int) -> Option<u64>
    decreases es.len() - j,
{
    if j + 1 >= es.len() {
        None
    } else if is_gap(cs, es, j + 1) {
        right_anchor(cs, es, j + 1)
    } else {
        es[j + 1]
    }
}

/// Character `j` is unstyled whitespace between two stretches of one style.
pub open spec fn is_bridged(cs: Seq<char>, es: Seq<Option<u64>>, j: int) -> bool {
    is_gap(cs, es, j) && left_anchor(cs, es, j) is Some && left_anchor(cs, es, j)
        == right_anchor(cs, es, j)
}

/// The keys after bridged whitespace has taken the style around it.
pub open spec fn bridged(cs: Seq<char>, es: Seq<Option<u64>>) -> Seq<Option<u64>> {
    Seq::new(
        es.len(),
        |j: int|
            if is_bridged(cs, es, j) {
                left_anchor(cs, es, j)
            } else {
                es[j]
            },
    )
}

/// `ms` followed by the marks that change the style from `from` to `to`.
pub open spec fn switch_to(ms: Seq<Mark>, from: Option<u64>, to: Option<u64>) -> Seq<Mark> {
    if from == to {
        ms
    } else {
        let closed = if from is Some {
            ms.push(Mark::Close)
        } else {
            ms
        };
        match to {
            Some(k) => closed.push(Mark::Open(k)),
            None => closed,
        }
    }
}

/// The key of character `i - 1`, none for `i == 0`.
pub open spec fn key_before(fs: Seq<Option<u64>>, i: int) -> Option<u64> {
    if i <= 0 {
        None
    } else {
        fs[i - 1]
    }
}

/// The mark for character `i` of `cs`.
pub open spec fn glyph_at(cs: Seq<char>, i: int) -> Mark {
    Mark::Glyph(cs[i])
}

/// The fewest marks that give the first `n` characters their keys.
pub open spec fn encode_prefix(cs: Seq<char>, fs: Seq<Option<u64>>, n: int) -> Seq<Mark>
    decreases n,
{
    if n <= 0 {
        Seq::empty()
    } else {
        switch_to(encode_prefix(cs, fs, n - 1), key_before(fs, n - 1), fs[n - 1]).push(
            glyph_at(cs, n - 1),
        )
    }
}

/// The fewest marks that give the characters `cs` the keys `fs`, with every
/// style closed at the end.
pub open spec fn encode(cs: Seq<char>, fs: Seq<Option<u64>>) -> Seq<Mark> {
    let body = encode_prefix(cs, fs, cs.len() as int);
    if key_before(fs, cs.len() as int) is Some {
        body.push(Mark::Close)
    } else {
        body
    }
}

/// What the optimizer makes of the marks `ms`.
pub open spec fn optimized(ms: Seq<Mark>) -> Seq<Mark> {
    encode(chars_of(ms), bridged(chars_of(ms), keys_of(ms)))
}

proof fn lemma_chars_keys_len(ms: Seq<Mark>)
    ensures
        chars_of(ms).len() == keys_of(ms).len(),
    decreases ms.len(),
{
    if ms.len() > 0 {
        lemma_chars_keys_len(ms.drop_last());
    }
}

proof fn lemma_push(ms: Seq<Mark>, m: Mark)
    ensures
        current_key(ms.push(m)) == match m {
            Mark::Open(k) => Some(k),
            Mark::Close => None,
            Mark::Glyph(_) => current_key(ms),
        },
        chars_of(ms.push(m)) == match m {
            Mark::Glyph(c) => chars_of(ms).push(c),
            _ => chars_of(ms),
        },
        keys_of(ms.push(m)) == match m {
            Mark::Glyph(_) => keys_of(ms).push(current_key(ms)),
            _ => keys_of(ms),
        },
{
    assert(ms.push(m).drop_last() =~= ms);
}

proof fn lemma_switch_to(ms: Seq<Mark>, from: Option<u64>, to: Option<u64>)
    ensures
        chars_of(switch_to(ms, from, to)) == chars_of(ms),
        keys_of(switch_to(ms, from, to)) == keys_of(ms),
        current_key(ms) == from ==> current_key(switch_to(ms, from, to)) == to,
{
    if from != to {
        let closed = if from is Some {
            ms.push(Mark::Close)
        } else {
            ms
        };
        if from is Some {
            lemma_push(ms, Mark::Close);
        }
        if let Some(k) = to {
            lemma_push(closed, Mark::Open(k));
        }
    }
}

/// The characters and keys that an encoding gives back are those encoded.
proof fn lemma_encode_prefix(cs: Seq<char>, fs: Seq<Option<u64>>, n: int)
    requires
        cs.len() == fs.len(),
        0 <= n <= cs.len(),
    ensures
        chars_of(encode_prefix(cs, fs, n)) == cs.take(n),
        keys_of(encode_prefix(cs, fs, n)) == fs.take(n),
        current_key(encode_prefix(cs, fs, n)) == key_before(fs, n),
    decreases n,
{
    if n > 0 {
        lemma_encode_prefix(cs, fs, n - 1);
        let prev = encode_prefix(cs, fs, n - 1);
        let switched = switch_to(prev, key_before(fs, n - 1), fs[n - 1]);
        lemma_switch_to(prev, key_before(fs, n - 1), fs[n - 1]);
        lemma_push(switched, glyph_at(cs, n - 1));
        assert(current_key(switched) == fs[n - 1]);
        assert(cs.take(n) =~= cs.take(n - 1).push(cs[n - 1]));
        assert(fs.take(n) =~= fs.take(n - 1).push(fs[n - 1]));
    } else {
        assert(cs.take(0) =~= Seq::<char>::empty());
        assert(fs.take(0) =~= Seq::<Option<u64>>::empty());
    }
}

proof fn lemma_encode(cs: Seq<char>, fs: Seq<Option<u64>>)
    requires
        cs.len() == fs.len(),
    ensures
        chars_of(encode(cs, fs)) == cs,
        keys_of(encode(cs, fs)) == fs,
{
    let n = cs.len() as int;
    lemma_encode_prefix(cs, fs, n);
    lemma_push(encode_prefix(cs, fs, n), Mark::Close);
    assert(cs.take(n) =~= cs);
    assert(fs.take(n) =~= fs);
}

proof fn lemma_gap_of_bridged(cs: Seq<char>, es: Seq<Option<u64>>, j: int)
    requires
        cs.len() == es.len(),
        0 <= j < es.len(),
        is_gap(cs, bridged(cs, es), j),
    ensures
        is_gap(cs, es, j),
        !is_bridged(cs, es, j),
{
}

/// Bridging keeps the left anchors.
proof fn lemma_left_anchor_bridged(cs: Seq<char>, es: Seq<Option<u64>>, j: int)
    requires
        cs.len() == es.len(),
        0 <= j <= es.len(),
    ensures
        left_anchor(cs, bridged(cs, es), j) == left_anchor(cs, es, j),
    decreases j,
{
    let fs = bridged(cs, es);
    if j > 0 {
        lemma_left_anchor_bridged(cs, es, j - 1);
        if is_gap(cs, fs, j - 1) {
            lemma_gap_of_bridged(cs, es, j - 1);
        }
    }
}

/// Bridging keeps the right anchors.
proof fn lemma_right_anchor_bridged(cs: Seq<char>, es: Seq<Option<u64>>, j: int)
    requires
        cs.len() == es.len(),
        -1 <= j < es.len(),
    ensures
        right_anchor(cs, bridged(cs, es), j) == right_anchor(cs, es, j),
    decreases es.len() - j,
{
    let fs = bridged(cs, es);
    if j + 1 < es.len() {
        lemma_right_anchor_bridged(cs, es, j + 1);
        if is_gap(cs, fs, j + 1) {
            lemma_gap_of_bridged(cs, es, j + 1);
        }
    }
}

/// Bridging twice bridges nothing more.
proof fn lemma_bridged_idempotent(cs: Seq<char>, es: Seq<Option<u64>>)
    requires
        cs.len() == es.len(),
    ensures
        bridged(cs, bridged(cs, es)) == bridged(cs, es),
{
    let fs = bridged(cs, es);
    assert forall|j: int| 0 <= j < fs.len() implies bridged(cs, fs)[j] == fs[j] by {
        if is_gap(cs, fs, j) {
            lemma_gap_of_bridged(cs, es, j);
            lemma_left_anchor_bridged(cs, es, j);
            lemma_right_anchor_bridged(cs, es, j);
        }
    }
    assert(bridged(cs, fs) =~= fs);
}

/// Optimizing the optimizer's output changes nothing.
pub proof fn lemma_optimized_idempotent(ms: Seq<Mark>)
    ensures
        optimized(optimized(ms)) == optimized(ms),
{
    let cs = chars_of(ms);
    lemma_chars_keys_len(ms);
    let fs = bridged(cs, keys_of(ms));
    lemma_encode(cs, fs);
    lemma_bridged_idempotent(cs, keys_of(ms));
}

/// Every key that `ms` opens is below `n`.
pub open spec fn keys_below(ms: Seq<Mark>, n: u64) -> bool {
    forall|i: int| 0 <= i < ms.len() ==> (#[trigger] ms[i] matches Mark::Open(k) ==> k < n)
}

pub open spec fn key_below(k: Option<u64>, n: u64) -> bool {
    k matches Some(v) ==> v < n
}

proof fn lemma_keys_of_below(ms: Seq<Mark>, n: u64)
    requires
        keys_below(ms, n),
    ensures
        key_below(current_key(ms), n),
        forall|j: int| 0 <= j < keys_of(ms).len() ==> key_below(#[trigger] keys_of(ms)[j], n),
    decreases ms.len(),
{
    if ms.len() > 0 {
        assert(keys_below(ms.drop_last(), n)) by {
            assert forall|i: int| 0 <= i < ms.drop_last().len() implies (
            #[trigger] ms.drop_last()[i] matches Mark::Open(k) ==> k < n) by {
                assert(ms.drop_last()[i] == ms[i]);
            }
        }
        lemma_keys_of_below(ms.drop_last(), n);
        assert(ms[ms.len() - 1] == ms.last());
        let p = ms.drop_last();
        if ms.last() is Glyph {
            assert(keys_of(ms) == keys_of(p).push(current_key(p)));
            assert forall|j: int| 0 <= j < keys_of(ms).len() implies key_below(
                #[trigger] keys_of(ms)[j],
                n,
            ) by {
                if j < keys_of(p).len() {
                    assert(keys_of(ms)[j] == keys_of(p)[j]);
                }
            }
        }
    }
}

proof fn lemma_left_anchor_below(cs: Seq<char>, es: Seq<Option<u64>>, j: int, n: u64)
    requires
        forall|t: int| 0 <= t < es.len() ==> key_below(#[trigger] es[t], n),
        j <= es.len(),
    ensures
        key_below(left_anchor(cs, es, j), n),
    decreases j,
{
    if j > 0 {
        lemma_left_anchor_below(cs, es, j - 1, n);
    }
}

proof fn lemma_encode_below(cs: Seq<char>, fs: Seq<Option<u64>>, m: int, n: u64)
    requires
        forall|t: int| 0 <= t < fs.len() ==> key_below(#[trigger] fs[t], n),
        0 <= m <= fs.len(),
        m <= cs.len(),
    ensures
        keys_below(encode_prefix(cs, fs, m), n),
    decreases m,
{
    if m > 0 {
        lemma_encode_below(cs, fs, m - 1, n);
        let prev = encode_prefix(cs, fs, m - 1);
        let sw = switch_to(prev, key_before(fs, m - 1), fs[m - 1]);
        assert(keys_below(sw, n)) by {
            assert forall|i: int| 0 <= i < sw.len() implies (#[trigger] sw[i] matches Mark::Open(
                k,
            ) ==> k < n) by {
                if i < prev.len() {
                    assert(sw[i] == prev[i]);
                }
            }
        }
        let r = sw.push(glyph_at(cs, m - 1));
        assert forall|i: int| 0 <= i < r.len() implies (#[trigger] r[i] matches Mark::Open(k) ==> k
            < n) by {
            if i < sw.len() {
                assert(r[i] == sw[i]);
            }
        }
    }
}

/// The optimizer opens no key that its input does not open below `n`.
pub proof fn lemma_optimized_keys_below(ms: Seq<Mark>, n: u64)
    requires
        keys_below(ms, n),
    ensures
        keys_below(optimized(ms), n),
{
    let cs = chars_of(ms);
    let es = keys_of(ms);
    lemma_chars_keys_len(ms);
    lemma_keys_of_below(ms, n);
    let fs = bridged(cs, es);
    assert forall|t: int| 0 <= t < fs.len() implies key_below(#[trigger] fs[t], n) by {
        lemma_left_anchor_below(cs, es, t, n);
    }
    lemma_encode_below(cs, fs, cs.len() as int, n);
    let body = encode_prefix(cs, fs, cs.len() as int);
    let r = optimized(ms);
    assert forall|i: int| 0 <= i < r.len() implies (#[trigger] r[i] matches Mark::Open(k) ==> k
        < n) by {
        if i < body.len() {
            assert(r[i] == body[i]);
        }
    }
}

/// At most one style is open at a time: every open comes when none is in
/// effect and is followed by a character, every close ends the style in
/// effect, and nothing is left open at the end.
pub open spec fn flat_scopes(ms: Seq<Mark>) -> bool {
    &&& forall|i: int|
        0 <= i < ms.len() && #[trigger] ms[i] is Open ==> current_key(ms.take(i)) is None && i + 1
            < ms.len() && ms[i + 1] is Glyph
    &&& forall|i: int| 0 <= i < ms.len() && #[trigger] ms[i] is Close ==> current_key(ms.take(i)) is Some
    &&& current_key(ms) is None
}

/// The prefix form of [`flat_scopes`]: the last style may still be open.
spec fn flat_prefix(ms: Seq<Mark>) -> bool {
    &&& forall|i: int|
        0 <= i < ms.len() && #[trigger] ms[i] is Open ==> current_key(ms.take(i)) is None && i + 1
            < ms.len() && ms[i + 1] is Glyph
    &&& forall|i: int| 0 <= i < ms.len() && #[trigger] ms[i] is Close ==> current_key(ms.take(i)) is Some
    &&& (ms.len() == 0 || ms.last() is Glyph)
}

proof fn lemma_take_push(ms: Seq<Mark>, m: Mark, i: int)
    requires
        0 <= i <= ms.len(),
    ensures
        ms.push(m).take(i) == ms.take(i),
{
    assert(ms.push(m).take(i) =~= ms.take(i));
}

proof fn lemma_flat_prefix(cs: Seq<char>, fs: Seq<Option<u64>>, n: int)
    requires
        cs.len() == fs.len(),
        0 <= n <= cs.len(),
    ensures
        flat_prefix(encode_prefix(cs, fs, n)),
    decreases n,
{
    if n > 0 {
        lemma_flat_prefix(cs, fs, n - 1);
        lemma_encode_prefix(cs, fs, n - 1);
        let p = encode_prefix(cs, fs, n - 1);
        let from = key_before(fs, n - 1);
        let to = fs[n - 1];
        let closed = if from is Some {
            p.push(Mark::Close)
        } else {
            p
        };
        if from is Some {
            lemma_push(p, Mark::Close);
            lemma_take_push(p, Mark::Close, p.len() as int);
            assert(p.take(p.len() as int) =~= p);
        }
        let sw = switch_to(p, from, to);
        let r = sw.push(glyph_at(cs, n - 1));
        assert(r == encode_prefix(cs, fs, n));
        assert forall|i: int| 0 <= i < r.len() && #[trigger] r[i] is Open implies current_key(
            r.take(i),
        ) is None && i + 1 < r.len() && r[i + 1] is Glyph by {
            lemma_take_push(sw, glyph_at(cs, n - 1), i);
            if i < p.len() {
                assert(r[i] == p[i]);
                assert(sw.take(i) =~= p.take(i));
                if i + 1 < p.len() {
                    assert(r[i + 1] == p[i + 1]);
                } else {
                    assert(p.last() is Glyph);
                }
            } else {
                assert(from != to);
                assert(to is Some);
                assert(i == closed.len());
                assert(sw.take(i) =~= closed);
                if from is Some {
                    lemma_push(p, Mark::Close);
                }
            }
        }
        assert forall|i: int| 0 <= i < r.len() && #[trigger] r[i] is Close implies current_key(
            r.take(i),
        ) is Some by {
            lemma_take_push(sw, glyph_at(cs, n - 1), i);
            if i < p.len() {
                assert(r[i] == p[i]);
                assert(sw.take(i) =~= p.take(i));
            } else {
                assert(i == p.len());
                assert(sw.take(i) =~= p);
            }
        }
    }
}

/// The optimizer's output never nests styles, never opens an empty one and
/// leaves none open.
pub proof fn lemma_optimized_flat(ms: Seq<Mark>)
    ensures
        flat_scopes(optimized(ms)),
{
    let cs = chars_of(ms);
    lemma_chars_keys_len(ms);
    let fs = bridged(cs, keys_of(ms));
    let n = cs.len() as int;
    lemma_flat_prefix(cs, fs, n);
    lemma_encode_prefix(cs, fs, n);
    let body = encode_prefix(cs, fs, n);
    let r = optimized(ms);
    if key_before(fs, n) is Some {
        lemma_push(body, Mark::Close);
        assert forall|i: int| 0 <= i < r.len() && #[trigger] r[i] is Open implies current_key(
            r.take(i),
        ) is None && i + 1 < r.len() && r[i + 1] is Glyph by {
            lemma_take_push(body, Mark::Close, i);
            assert(r[i] == body[i]);
            assert(r[i + 1] == body[i + 1]);
        }
        assert forall|i: int| 0 <= i < r.len() && #[trigger] r[i] is Close implies current_key(
            r.take(i),
        ) is Some by {
            lemma_take_push(body, Mark::Close, i);
            if i < body.len() {
                assert(r[i] == body[i]);
            } else {
                assert(body.take(i) =~= body);
            }
        }
    }
}

fn keys_equal(a: Option<u64>, b: Option<u64>) -> (r: bool)
    ensures
        r == (a == b),
{
    match (a, b) {
        (None, None) => true,
        (Some(x), Some(y)) => x == y,
        _ => false,
    }
}

/// Splits marks into their characters and the key in effect at each.
fn split_marks(ms: &Vec<Mark>) -> (r: (Vec<char>, Vec<Option<u64>>))
    ensures
        r.0@ == chars_of(ms@),
        r.1@ == keys_of(ms@),
{
    let mut cs: Vec<char> = Vec::new();
    let mut es: Vec<Option<u64>> = Vec::new();
    let mut cur: Option<u64> = None;
    let mut i: usize = 0;
    while i < ms.len()
        invariant
            i <= ms@.len(),
            cs@ == chars_of(ms@.take(i as int)),
            es@ == keys_of(ms@.take(i as int)),
            cur == current_key(ms@.take(i as int)),
        decreases ms@.len() - i,
    {
        proof {
            assert(ms@.take(i as int + 1) =~= ms@.take(i as int).push(ms@[i as int]));
            lemma_push(ms@.take(i as int), ms@[i as int]);
        }
        match ms[i] {
            Mark::Open(k) => {
                cur = Some(k);
            },
            Mark::Close => {
                cur = None;
            },
            Mark::Glyph(c) => {
                cs.push(c);
                es.push(cur);
            },
        }
        i = i + 1;
    }
    proof {
        assert(ms@.take(i as int) =~= ms@);
    }
    (cs, es)
}

/// The keys after bridging.
fn bridge(cs: &Vec<char>, es: &Vec<Option<u64>>) -> (fs: Vec<Option<u64>>)
    requires
        cs@.len() == es@.len(),
    ensures
        fs@ == bridged(cs@, es@),
{
    let n = es.len();
    let mut lefts: Vec<Option<u64>> = Vec::new();
    let mut gaps: Vec<bool> = Vec::new();
    let mut la: Option<u64> = None;
    let mut j: usize = 0;
    while j < n
        invariant
            n == es@.len(),
            n == cs@.len(),
            j <= n,
            lefts@.len() == j,
            gaps@.len() == j,
            forall|t: int| 0 <= t < j ==> lefts@[t] == left_anchor(cs@, es@, t),
            forall|t: int| 0 <= t < j ==> gaps@[t] == is_gap(cs@, es@, t),
            la == left_anchor(cs@, es@, j as int),
        decreases n - j,
    {
        lefts.push(la);
        let gap = es[j].is_none() && is_whitespace(cs[j]);
        gaps.push(gap);
        if !gap {
            la = es[j];
        }
        j = j + 1;
    }
    let mut rights: Vec<Option<u64>> = Vec::new();
    let mut k: usize = 0;
    while k < n
        invariant
            n == es@.len(),
            k <= n,
            rights@.len() == k,
            forall|t: int| 0 <= t < k ==> rights@[t] is None,
        decreases n - k,
    {
        rights.push(None);
        k = k + 1;
    }
    let mut ra: Option<u64> = None;
    let mut j: usize = n;
    while j > 0
        invariant
            n == es@.len(),
            n == cs@.len(),
            j <= n,
            rights@.len() == n,
            gaps@.len() == n,
            forall|t: int| 0 <= t < n ==> gaps@[t] == is_gap(cs@, es@, t),
            forall|t: int| j <= t < n ==> rights@[t] == right_anchor(cs@, es@, t),
            ra == right_anchor(cs@, es@, j - 1),
        decreases j,
    {
        j = j - 1;
        rights.set(j, ra);
        if !gaps[j] {
            ra = es[j];
        }
    }
    let mut fs: Vec<Option<u64>> = Vec::new();
    let mut j: usize = 0;
    while j < n
        invariant
            n == es@.len(),
            n == cs@.len(),
            j <= n,
            lefts@.len() == n,
            rights@.len() == n,
            gaps@.len() == n,
            forall|t: int| 0 <= t < n ==> lefts@[t] == left_anchor(cs@, es@, t),
            forall|t: int| 0 <= t < n ==> rights@[t] == right_anchor(cs@, es@, t),
            forall|t: int| 0 <= t < n ==> gaps@[t] == is_gap(cs@, es@, t),
            fs@.len() == j,
            forall|t: int| 0 <= t < j ==> fs@[t] == bridged(cs@, es@)[t],
        decreases n - j,
    {
        if gaps[j] && lefts[j].is_some() && keys_equal(lefts[j], rights[j]) {
            fs.push(lefts[j]);
        } else {
            fs.push(es[j]);
        }
        j = j + 1;
    }
    assert(fs@ =~= bridged(cs@, es@));
    fs
}

/// Pushes the marks that change the style from `from` to `to`.
fn push_switch(out: &mut Vec<Mark>, from: Option<u64>, to: Option<u64>)
    ensures
        final(out)@ == switch_to(old(out)@, from, to),
{
    if !keys_equal(from, to) {
        if from.is_some() {
            out.push(Mark::Close);
        }
        if let Some(k) = to {
            out.push(Mark::Open(k));
        }
    }
}

/// Reduces a style stream to the fewest marks that style every character as
/// before, with unstyled whitespace between two stretches of one style
/// taken into it.
pub fn optimize(ms: &Vec<Mark>) -> (r: Vec<Mark>)
    ensures
        r@ == optimized(ms@),
{
    let (cs, es) = split_marks(ms);
    proof {
        lemma_chars_keys_len(ms@);
    }
    let fs = bridge(&cs, &es);
    let mut out: Vec<Mark> = Vec::new();
    let mut prev: Option<u64> = None;
    let mut j: usize = 0;
    while j < cs.len()
        invariant
            cs@.len() == fs@.len(),
            j <= cs@.len(),
            out@ == encode_prefix(cs@, fs@, j as int),
            prev == key_before(fs@, j as int),
        decreases cs@.len() - j,
    {
        push_switch(&mut out, prev, fs[j]);
        out.push(Mark::Glyph(cs[j]));
        prev = fs[j];
        j = j + 1;
    }
    if prev.is_some() {
        out.push(Mark::Close);
    }
    out
}

} // verus!
