//! What holds of the sentinel functions together: rendering and finding
//! agree, a scan is unique, tokens never overlap, and the flush boundary
//! never releases any byte of a token that more input could still complete.

use vstd::prelude::*;
use vstd::utf8::{
    encode_scalar, encode_utf8, encode_utf8_first_scalar, encode_utf8_valid_utf8,
    is_char_boundary_iff_not_is_continuation_byte, is_continuation_byte, is_leading_byte_width_3,
    length_of_first_scalar, valid_utf8, valid_utf8_concat, valid_utf8_split,
};
use super::flush_point;
use super::grammar::{
    agrees, begins_with_token, complete_at, hold_point, is_scan_of, is_token_prefix,
    ascii_bytes, is_token_span, is_valid_sentinel, lemma_byte_token_index, lemma_empty_no_token,
    lemma_encode_utf8_concat, lemma_token_layout, lemma_nothing_starts_inside,
    lemma_partial_starts_open, lemma_token_len, lemma_token_unique, partial_at, rendered,
    token_bytes,
};
use super::utf8_prefix::{is_longest_utf8_prefix, lemma_longest_utf8_prefix_unique, utf8_prefix_len};

verus! {

/* Finding what was rendered */

/// The bytes of a rendered valid sentinel contain exactly one token: the
/// sentinel itself, spanning the whole text. With the contracts of `render`
/// and `find_complete`, finding in a rendered sentinel gives back one match,
/// at `0..len`, holding that sentinel.
pub proof fn lemma_render_then_find(entity_type: Seq<char>, id: Seq<char>)
    requires
        is_valid_sentinel(entity_type, id),
    ensures
        is_scan_of(
            token_bytes(entity_type, id),
            seq![(0int, token_bytes(entity_type, id).len() as int, entity_type, id)],
        ),
{
    let t = token_bytes(entity_type, id);
    let ms = seq![(0int, t.len() as int, entity_type, id)];
    assert(t.skip(0) =~= t);
    assert(t.take(t.len() as int) =~= t);
    assert(is_token_span(t, ms[0]));
    assert forall|p: int| #[trigger] complete_at(t, p) implies exists|k: int|
        0 <= k < ms.len() && ms[k].0 == p by {
        if 0 < p < t.len() {
            lemma_nothing_starts_inside(t, 0, entity_type, id, p);
        } else if p == t.len() {
            lemma_empty_no_token(t.skip(p));
        }
        assert(ms[0].0 == p);
    }
}

/// Each match of a scan spans exactly the UTF-8 of its sentinel's surface
/// form.
pub proof fn lemma_span_is_rendered(buf: Seq<u8>, m: (int, int, Seq<char>, Seq<char>))
    requires
        is_token_span(buf, m),
    ensures
        0 <= m.0 <= m.1 <= buf.len(),
        buf.subrange(m.0, m.1) == encode_utf8(rendered(m.2, m.3)),
{
    let t = token_bytes(m.2, m.3);
    assert(buf.subrange(m.0, m.1) =~= buf.skip(m.0).take(t.len() as int));
}

/* Matches fall on character boundaries */

proof fn lemma_encode_single(x: char)
    ensures
        encode_utf8(seq![x]) == encode_scalar(x as u32),
{
    assert(seq![x][0] == x);
    assert(seq![x].drop_first() =~= Seq::<char>::empty());
    assert(encode_utf8(Seq::<char>::empty()) =~= Seq::<u8>::empty());
    assert(encode_scalar(x as u32) + Seq::<u8>::empty() =~= encode_scalar(x as u32));
}

proof fn lemma_encode_take_step(c: Seq<char>, i: int)
    requires
        0 <= i < c.len(),
    ensures
        encode_utf8(c.take(i + 1)) == encode_utf8(c.take(i)) + encode_scalar(c[i] as u32),
{
    assert(c.take(i + 1) =~= c.take(i) + seq![c[i]]);
    lemma_encode_utf8_concat(c.take(i), seq![c[i]]);
    lemma_encode_single(c[i]);
}

/// A byte of `encode_utf8(c)` that is not a continuation byte starts a
/// character: the bytes before it encode a prefix of `c`.
proof fn lemma_char_start_at(c: Seq<char>, p: int)
    requires
        0 <= p < encode_utf8(c).len(),
        !is_continuation_byte(encode_utf8(c)[p]),
    ensures
        exists|i: int| 0 <= i < c.len() && #[trigger] encode_utf8(c.take(i)).len() == p,
    decreases c.len(),
{
    let e = encode_utf8(c);
    assert(c.len() > 0);
    encode_utf8_first_scalar(c);
    let e0 = encode_scalar(c[0] as u32);
    let k = e0.len() as int;
    let r = c.drop_first();
    assert(e == e0 + encode_utf8(r));
    if p < k {
        if p > 0 {
            assert(e[p] == e0[p]);
        }
        assert(c.take(0) =~= Seq::<char>::empty());
        assert(encode_utf8(c.take(0)).len() == 0);
    } else {
        assert(encode_utf8(r)[p - k] == e[p]);
        lemma_char_start_at(r, p - k);
        let i = choose|i: int| 0 <= i < r.len() && #[trigger] encode_utf8(r.take(i)).len() == p - k;
        assert(c.take(i + 1) =~= seq![c[0]] + r.take(i));
        lemma_encode_utf8_concat(seq![c[0]], r.take(i));
        lemma_encode_single(c[0]);
        assert(encode_utf8(c.take(i + 1)).len() == p);
    }
}

/// A character whose encoding starts with a three-byte lead byte ends three
/// bytes later.
proof fn lemma_char_width_3(c: Seq<char>, i: int)
    requires
        0 <= i < c.len(),
        encode_utf8(c.take(i)).len() < encode_utf8(c).len(),
        is_leading_byte_width_3(encode_utf8(c)[encode_utf8(c.take(i)).len() as int]),
    ensures
        encode_utf8(c.take(i + 1)).len() == encode_utf8(c.take(i)).len() + 3,
{
    let p = encode_utf8(c.take(i)).len() as int;
    assert(c =~= c.take(i) + c.skip(i));
    lemma_encode_utf8_concat(c.take(i), c.skip(i));
    let f = encode_utf8(c.skip(i));
    encode_utf8_first_scalar(c.skip(i));
    assert(f[0] == encode_utf8(c)[p]);
    assert(length_of_first_scalar(f) == 3);
    assert(c.skip(i)[0] == c[i]);
    lemma_encode_take_step(c, i);
}

/// A token span begins with the lead byte of `⟦` and ends with the three
/// bytes of `⟧`, the first of which is a lead byte too.
proof fn lemma_span_lead_bytes(b: Seq<u8>, m: (int, int, Seq<char>, Seq<char>))
    requires
        is_token_span(b, m),
    ensures
        0 <= m.0,
        m.0 + 10 <= m.1 <= b.len(),
        b[m.0] == 0xE2,
        b[m.1 - 3] == 0xE2,
{
    let t = token_bytes(m.2, m.3);
    let l = t.len() as int;
    lemma_token_layout(m.2, m.3);
    lemma_byte_token_index(ascii_bytes(m.2), ascii_bytes(m.3));
    assert(b.skip(m.0).take(l)[0] == b[m.0]);
    assert(b.skip(m.0).take(l)[l - 3] == b[m.0 + l - 3]);
}

/// Each match of a scan of a text starts and ends on a character boundary
/// of the text, and holds a type and id that follow the grammar.
pub proof fn lemma_match_on_char_boundaries(text: Seq<char>, m: (int, int, Seq<char>, Seq<char>))
    requires
        is_token_span(encode_utf8(text), m),
    ensures
        0 <= m.0 < m.1 <= encode_utf8(text).len(),
        is_valid_sentinel(m.2, m.3),
        exists|i: int| 0 <= i <= text.len() && #[trigger] encode_utf8(text.take(i)).len() == m.0,
        exists|j: int| 0 <= j <= text.len() && #[trigger] encode_utf8(text.take(j)).len() == m.1,
{
    lemma_span_lead_bytes(encode_utf8(text), m);
    lemma_char_start_at(text, m.0);
    lemma_char_start_at(text, m.1 - 3);
    let i = choose|i: int|
        0 <= i < text.len() && #[trigger] encode_utf8(text.take(i)).len() == m.1 - 3;
    lemma_char_width_3(text, i);
}

/* A scan is unique */

proof fn lemma_same_start_same_match(
    buf: Seq<u8>,
    m1: (int, int, Seq<char>, Seq<char>),
    m2: (int, int, Seq<char>, Seq<char>),
)
    requires
        is_token_span(buf, m1),
        is_token_span(buf, m2),
        m1.0 == m2.0,
    ensures
        m1 == m2,
{
    let s = buf.skip(m1.0);
    let t1 = token_bytes(m1.2, m1.3);
    let t2 = token_bytes(m2.2, m2.3);
    assert(agrees(s, t1)) by {
        assert forall|j: int| 0 <= j < s.len() && j < t1.len() implies s[j] == t1[j] by {
            assert(s.take(t1.len() as int)[j] == s[j]);
        }
    }
    assert(agrees(s, t2)) by {
        assert forall|j: int| 0 <= j < s.len() && j < t2.len() implies s[j] == t2[j] by {
            assert(s.take(t2.len() as int)[j] == s[j]);
        }
    }
    lemma_token_unique(s, m1.2, m1.3, m2.2, m2.3);
}

proof fn lemma_scan_entry(
    buf: Seq<u8>,
    a: Seq<(int, int, Seq<char>, Seq<char>)>,
    b: Seq<(int, int, Seq<char>, Seq<char>)>,
    k: int,
)
    requires
        is_scan_of(buf, a),
        is_scan_of(buf, b),
        0 <= k < a.len(),
        forall|j: int| 0 <= j < k ==> a[j] == b[j],
    ensures
        k < b.len(),
        a[k] == b[k],
{
    assert(is_token_span(buf, a[k]));
    assert(begins_with_token(buf.skip(a[k].0), a[k].2, a[k].3));
    assert(complete_at(buf, a[k].0));
    let k2 = choose|k2: int| 0 <= k2 < b.len() && b[k2].0 == a[k].0;
    if k2 < k {
        assert(a[k2] == b[k2]);
        assert(a[k2].0 < a[k].0);
    }
    if k2 > k {
        assert(b[k].0 < b[k2].0);
        assert(is_token_span(buf, b[k]));
        assert(begins_with_token(buf.skip(b[k].0), b[k].2, b[k].3));
        assert(complete_at(buf, b[k].0));
        let k3 = choose|k3: int| 0 <= k3 < a.len() && a[k3].0 == b[k].0;
        if k3 >= k {
            if k3 > k {
                assert(a[k].0 < a[k3].0);
            }
        }
        assert(a[k3] == b[k3]);
        assert(b[k3].0 < b[k].0);
    }
    assert(is_token_span(buf, b[k]));
    lemma_same_start_same_match(buf, a[k], b[k]);
}

proof fn lemma_scan_agree_upto(
    buf: Seq<u8>,
    a: Seq<(int, int, Seq<char>, Seq<char>)>,
    b: Seq<(int, int, Seq<char>, Seq<char>)>,
    k: int,
)
    requires
        is_scan_of(buf, a),
        is_scan_of(buf, b),
        0 <= k <= a.len(),
    ensures
        k <= b.len(),
        forall|j: int| 0 <= j < k ==> a[j] == b[j],
    decreases k,
{
    if k > 0 {
        lemma_scan_agree_upto(buf, a, b, k - 1);
        lemma_scan_entry(buf, a, b, k - 1);
    }
}

/// There is only one scan of a buffer: whatever satisfies the contract of
/// `find_complete` on the same text is the same list of matches.
pub proof fn lemma_scan_unique(
    buf: Seq<u8>,
    a: Seq<(int, int, Seq<char>, Seq<char>)>,
    b: Seq<(int, int, Seq<char>, Seq<char>)>,
)
    requires
        is_scan_of(buf, a),
        is_scan_of(buf, b),
    ensures
        a == b,
{
    lemma_scan_agree_upto(buf, a, b, a.len() as int);
    lemma_scan_agree_upto(buf, b, a, b.len() as int);
    assert(a =~= b);
}

/// Tokens never overlap: a complete token that starts after another one
/// starts no earlier than where the other ends.
pub proof fn lemma_tokens_do_not_overlap(
    buf: Seq<u8>,
    p: int,
    entity_type: Seq<char>,
    id: Seq<char>,
    q: int,
)
    requires
        0 <= p <= buf.len(),
        begins_with_token(buf.skip(p), entity_type, id),
        complete_at(buf, q),
        p < q,
    ensures
        p + token_bytes(entity_type, id).len() <= q,
{
    if q < p + token_bytes(entity_type, id).len() {
        lemma_nothing_starts_inside(buf, p, entity_type, id, q);
    }
}

/* The flush boundary */

proof fn lemma_first_partial_exists(buf: Seq<u8>, p: int)
    requires
        partial_at(buf, p),
    ensures
        exists|m: int| #[trigger]
            partial_at(buf, m) && forall|q: int| 0 <= q < m ==> !partial_at(buf, q),
    decreases p,
{
    if exists|q: int| 0 <= q < p && partial_at(buf, q) {
        let q = choose|q: int| 0 <= q < p && partial_at(buf, q);
        lemma_first_partial_exists(buf, q);
    } else {
        assert(partial_at(buf, p) && forall|q: int| 0 <= q < p ==> !partial_at(buf, q));
    }
}

/// The hold point is the first live token's start, or the end of the buffer
/// when no token is live.
pub proof fn lemma_hold_point(buf: Seq<u8>)
    ensures
        0 <= hold_point(buf) <= buf.len(),
        forall|q: int| 0 <= q < hold_point(buf) ==> !#[trigger] partial_at(buf, q),
        hold_point(buf) < buf.len() ==> partial_at(buf, hold_point(buf)),
{
    if exists|p: int| partial_at(buf, p) {
        let p = choose|p: int| partial_at(buf, p);
        lemma_first_partial_exists(buf, p);
        let h = hold_point(buf);
        assert(partial_at(buf, h) && forall|q: int| 0 <= q < h ==> !partial_at(buf, q));
    }
}

proof fn lemma_longest_upto(buf: Seq<u8>, k: int)
    requires
        0 <= k <= buf.len(),
    ensures
        exists|u: int|
            0 <= u <= k && #[trigger] valid_utf8(buf.take(u)) && forall|m: int|
                u < m <= k ==> !valid_utf8(#[trigger] buf.take(m)),
    decreases k,
{
    if k == 0 {
        assert(buf.take(0) =~= Seq::<u8>::empty());
        assert(valid_utf8(buf.take(0)));
    } else if valid_utf8(buf.take(k)) {
        assert(forall|m: int| k < m <= k ==> !valid_utf8(#[trigger] buf.take(m)));
    } else {
        lemma_longest_upto(buf, k - 1);
        let u = choose|u: int|
            0 <= u <= k - 1 && #[trigger] valid_utf8(buf.take(u)) && forall|m: int|
                u < m <= k - 1 ==> !valid_utf8(#[trigger] buf.take(m));
        assert(forall|m: int| u < m <= k ==> !valid_utf8(#[trigger] buf.take(m)));
    }
}

/// Every buffer has a longest valid UTF-8 prefix, and `utf8_prefix_len`
/// names it.
pub proof fn lemma_utf8_prefix_len(buf: Seq<u8>)
    ensures
        is_longest_utf8_prefix(buf, utf8_prefix_len(buf)),
{
    lemma_longest_upto(buf, buf.len() as int);
    let u = choose|u: int|
        0 <= u <= buf.len() && #[trigger] valid_utf8(buf.take(u)) && forall|m: int|
            u < m <= buf.len() ==> !valid_utf8(#[trigger] buf.take(m));
    assert(is_longest_utf8_prefix(buf, u));
}

/// Streaming safety. Whatever bytes `rest` arrive after `buf`, a complete
/// token of the joined stream that starts in the released part
/// `buf[..flush_point(buf)]` also ends there: the released bytes never hold
/// part of a token that is completed by later bytes.
pub proof fn lemma_flush_never_splits_a_token(
    buf: Seq<u8>,
    rest: Seq<u8>,
    p: int,
    entity_type: Seq<char>,
    id: Seq<char>,
)
    requires
        0 <= p < flush_point(buf),
        begins_with_token((buf + rest).skip(p), entity_type, id),
    ensures
        p + token_bytes(entity_type, id).len() <= flush_point(buf),
{
    lemma_hold_point(buf);
    lemma_utf8_prefix_len(buf);
    let n = flush_point(buf);
    let h = hold_point(buf);
    let u = utf8_prefix_len(buf);
    let t = token_bytes(entity_type, id);
    let l = t.len() as int;
    let joined = buf + rest;
    lemma_token_len(entity_type, id);
    assert(joined.skip(p).take(l) == t);
    if p + l > n {
        if p + l <= buf.len() {
            // The token lies inside `buf`.
            assert(buf.skip(p).take(l) =~= joined.skip(p).take(l));
            assert(begins_with_token(buf.skip(p), entity_type, id));
            if n == h {
                assert(h < buf.len());
                lemma_nothing_starts_inside(buf, p, entity_type, id, h);
            } else {
                // `buf[..p + l]` would be a longer valid prefix than `u`.
                assert(n == u);
                let v = buf.take(u);
                assert(t[0] == 0xE2) by {
                    assert(buf.skip(p).take(l)[0] == buf[p]);
                    lemma_token_len(entity_type, id);
                    assert(joined.skip(p).take(l)[0] == joined[p]);
                    assert(is_token_prefix(t.take(1), entity_type, id));
                    lemma_partial_starts_open(t.take(1));
                }
                assert(v[p] == buf[p]);
                assert(buf[p] == buf.skip(p).take(l)[0]);
                is_char_boundary_iff_not_is_continuation_byte(v, p);
                valid_utf8_split(v, p);
                assert(v.subrange(0, p) =~= buf.take(p));
                encode_utf8_valid_utf8(rendered(entity_type, id));
                valid_utf8_concat(buf.take(p), t);
                assert(buf.take(p) + t =~= buf.take(p + l));
                assert(!valid_utf8(buf.take(p + l)));
            }
        } else {
            // The token runs past the end of `buf`: it is live at `p`.
            let s = buf.skip(p);
            assert(s =~= t.take(s.len() as int)) by {
                assert forall|j: int| 0 <= j < s.len() implies s[j] == t.take(s.len() as int)[j] by {
                    assert(joined.skip(p).take(l)[j] == joined[p + j]);
                }
            }
            assert(is_token_prefix(s, entity_type, id));
            assert(partial_at(buf, p));
        }
    }
}

/// The flush point is the greatest safe cut of `buf`: the bytes before it
/// are valid UTF-8 and no live token starts among them, and every cut with
/// both properties lies at or before it.
pub proof fn lemma_flush_point_is_greatest_safe_cut(buf: Seq<u8>)
    ensures
        0 <= flush_point(buf) <= buf.len(),
        valid_utf8(buf.take(flush_point(buf))),
        forall|q: int| 0 <= q < flush_point(buf) ==> !#[trigger] partial_at(buf, q),
        forall|m: int|
            #![trigger buf.take(m)]
            0 <= m <= buf.len() && valid_utf8(buf.take(m)) && (forall|q: int|
                0 <= q < m ==> !#[trigger] partial_at(buf, q)) ==> m <= flush_point(buf),
{
    lemma_hold_point(buf);
    lemma_utf8_prefix_len(buf);
    let h = hold_point(buf);
    let u = utf8_prefix_len(buf);
    let n = flush_point(buf);
    if h < u {
        // `h` starts a live token, so it is a character boundary of the valid
        // prefix and the bytes before it are valid UTF-8 too.
        lemma_partial_starts_open(buf.skip(h));
        assert(buf.skip(h)[0] == buf[h]);
        let v = buf.take(u);
        assert(v[h] == 0xE2);
        is_char_boundary_iff_not_is_continuation_byte(v, h);
        valid_utf8_split(v, h);
        assert(v.subrange(0, h) =~= buf.take(h));
    }
    assert forall|m: int|
        #![trigger buf.take(m)]
        0 <= m <= buf.len() && valid_utf8(buf.take(m)) && (forall|q: int|
            0 <= q < m ==> !#[trigger] partial_at(buf, q)) implies m <= n by {
        if m > n {
            if h <= u {
                assert(partial_at(buf, h));
            } else {
                assert(!valid_utf8(buf.take(m)));
            }
        }
    }
}

/// When `buf` is valid UTF-8 and no token is live in it, everything is
/// released.
pub proof fn lemma_flush_releases_everything(buf: Seq<u8>)
    requires
        valid_utf8(buf),
        forall|q: int| 0 <= q <= buf.len() ==> !#[trigger] partial_at(buf, q),
    ensures
        flush_point(buf) == buf.len(),
{
    lemma_hold_point(buf);
    lemma_utf8_prefix_len(buf);
    assert(buf.take(buf.len() as int) =~= buf);
    assert(is_longest_utf8_prefix(buf, buf.len() as int));
    lemma_longest_utf8_prefix_unique(buf, buf.len() as int, utf8_prefix_len(buf));
}

/* Cutting where nothing is held changes nothing that is found */

/// Every match of `ms` moved `n` bytes to the right.
pub open spec fn shifted(
    ms: Seq<(int, int, Seq<char>, Seq<char>)>,
    n: int,
) -> Seq<(int, int, Seq<char>, Seq<char>)> {
    ms.map_values(|m: (int, int, Seq<char>, Seq<char>)| (m.0 + n, m.1 + n, m.2, m.3))
}

proof fn lemma_left_span(b1: Seq<u8>, b2: Seq<u8>, m: (int, int, Seq<char>, Seq<char>))
    requires
        is_token_span(b1, m),
    ensures
        is_token_span(b1 + b2, m),
        m.0 < b1.len(),
{
    let l = token_bytes(m.2, m.3).len() as int;
    lemma_token_len(m.2, m.3);
    assert((b1 + b2).skip(m.0).take(l) =~= b1.skip(m.0).take(l));
}

proof fn lemma_right_span(b1: Seq<u8>, b2: Seq<u8>, m: (int, int, Seq<char>, Seq<char>))
    requires
        is_token_span(b2, m),
    ensures
        is_token_span(b1 + b2, (m.0 + b1.len(), m.1 + b1.len(), m.2, m.3)),
{
    assert((b1 + b2).skip(m.0 + b1.len()) =~= b2.skip(m.0));
}

/// A token of the join starts either in `b1`, where it lies whole when
/// nothing of `b1` is held, or in `b2`.
proof fn lemma_join_token(b1: Seq<u8>, b2: Seq<u8>, p: int)
    requires
        complete_at(b1 + b2, p),
        flush_point(b1) == b1.len(),
    ensures
        p < b1.len() ==> complete_at(b1, p),
        p >= b1.len() ==> complete_at(b2, p - b1.len()),
{
    let joined = b1 + b2;
    let n = b1.len() as int;
    let (ty, id) = choose|ty: Seq<char>, id: Seq<char>| begins_with_token(joined.skip(p), ty, id);
    if p < n {
        lemma_flush_never_splits_a_token(b1, b2, p, ty, id);
        let l = token_bytes(ty, id).len() as int;
        assert(joined.skip(p).take(l) =~= b1.skip(p).take(l));
        assert(begins_with_token(b1.skip(p), ty, id));
    } else {
        assert(joined.skip(p) =~= b2.skip(p - n));
        assert(begins_with_token(b2.skip(p - n), ty, id));
    }
}

/// When the flush boundary of `b1` releases all of it, the scan of `b1`
/// followed by `b2` is the scan of `b1`, then the scan of `b2` with every
/// offset moved past `b1`.
pub proof fn lemma_scan_of_join(
    b1: Seq<u8>,
    b2: Seq<u8>,
    a: Seq<(int, int, Seq<char>, Seq<char>)>,
    c: Seq<(int, int, Seq<char>, Seq<char>)>,
)
    requires
        is_scan_of(b1, a),
        is_scan_of(b2, c),
        flush_point(b1) == b1.len(),
    ensures
        is_scan_of(b1 + b2, a + shifted(c, b1.len() as int)),
{
    let joined = b1 + b2;
    let n = b1.len() as int;
    let sc = shifted(c, n);
    let r = a + sc;
    assert forall|k: int| 0 <= k < r.len() implies #[trigger] is_token_span(joined, r[k]) && (k
        < a.len() ==> r[k].0 < n) && (k >= a.len() ==> r[k].0 >= n) by {
        if k < a.len() {
            assert(r[k] == a[k]);
            assert(is_token_span(b1, a[k]));
            lemma_left_span(b1, b2, a[k]);
        } else {
            assert(r[k] == sc[k - a.len()]);
            assert(is_token_span(b2, c[k - a.len()]));
            lemma_right_span(b1, b2, c[k - a.len()]);
        }
    }
    assert forall|j: int, k: int| 0 <= j < k < r.len() implies r[j].0 < r[k].0 by {
        assert(is_token_span(joined, r[j]));
        assert(is_token_span(joined, r[k]));
        if k < a.len() {
            assert(r[j] == a[j] && r[k] == a[k]);
        } else if j >= a.len() {
            assert(r[j] == sc[j - a.len()] && r[k] == sc[k - a.len()]);
        }
    }
    assert forall|p: int| #[trigger] complete_at(joined, p) implies exists|k: int|
        0 <= k < r.len() && r[k].0 == p by {
        lemma_join_token(b1, b2, p);
        if p < n {
            let k = choose|k: int| 0 <= k < a.len() && a[k].0 == p;
            assert(r[k] == a[k]);
        } else {
            let k = choose|k: int| 0 <= k < c.len() && c[k].0 == p - n;
            assert(r[a.len() + k] == sc[k]);
        }
    }
}

/// The same for texts: when nothing of `x` is held back, finding in `x`
/// followed by `y` finds what is found in `x`, then what is found in `y`
/// with every offset moved past the bytes of `x`.
pub proof fn lemma_find_in_joined_text(
    x: Seq<char>,
    y: Seq<char>,
    a: Seq<(int, int, Seq<char>, Seq<char>)>,
    c: Seq<(int, int, Seq<char>, Seq<char>)>,
)
    requires
        is_scan_of(encode_utf8(x), a),
        is_scan_of(encode_utf8(y), c),
        flush_point(encode_utf8(x)) == encode_utf8(x).len(),
    ensures
        is_scan_of(encode_utf8(x + y), a + shifted(c, encode_utf8(x).len() as int)),
{
    lemma_encode_utf8_concat(x, y);
    lemma_scan_of_join(encode_utf8(x), encode_utf8(y), a, c);
}

} // verus!
