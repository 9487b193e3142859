//! The mathematical model of the sentinel grammar `⟦TYPE·id⟧`.
//!
//! A token is described twice: at the level of characters, as the text that
//! [`rendered`] spells out, and at the level of the UTF-8 bytes that the
//! scanners read, as [`token_bytes`]. The lemmas of this module tie the two
//! together and establish the facts the scanners rely on: a token is fixed by
//! its bytes, and no token can begin strictly inside another one.

use vstd::prelude::*;
use vstd::utf8::*;
use super::{OPEN, CLOSE, SEP};

verus! {

/* Characters */

/// `[A-Z]`: the first character of an entity type.
pub open spec fn is_type_start_char(c: char) -> bool {
    'A' <= c <= 'Z'
}

/// `[A-Z0-9_]`: any character of an entity type.
pub open spec fn is_type_char(c: char) -> bool {
    ('A' <= c <= 'Z') || ('0' <= c <= '9') || c == '_'
}

/// `[0-9a-f]`: any character of an identifier.
pub open spec fn is_id_char(c: char) -> bool {
    ('0' <= c <= '9') || ('a' <= c <= 'f')
}

/// An entity type is `[A-Z][A-Z0-9_]*`.
pub open spec fn is_valid_entity_type(s: Seq<char>) -> bool {
    &&& s.len() > 0
    &&& is_type_start_char(s[0])
    &&& forall|i: int| 0 <= i < s.len() ==> #[trigger] is_type_char(s[i])
}

/// An identifier is `[0-9a-f]+`.
pub open spec fn is_valid_id(s: Seq<char>) -> bool {
    &&& s.len() > 0
    &&& forall|i: int| 0 <= i < s.len() ==> #[trigger] is_id_char(s[i])
}

/// Both parts of a sentinel follow the grammar.
pub open spec fn is_valid_sentinel(entity_type: Seq<char>, id: Seq<char>) -> bool {
    is_valid_entity_type(entity_type) && is_valid_id(id)
}

/// The surface form `⟦TYPE·id⟧` of a sentinel.
pub open spec fn rendered(entity_type: Seq<char>, id: Seq<char>) -> Seq<char> {
    seq![OPEN] + entity_type + seq![SEP] + id + seq![CLOSE]
}

/* Bytes */

/// The UTF-8 bytes of the surface form: what a scanner sees of a token.
pub open spec fn token_bytes(entity_type: Seq<char>, id: Seq<char>) -> Seq<u8> {
    encode_utf8(rendered(entity_type, id))
}

/// `s` begins with the complete token for a valid `entity_type`/`id`.
pub open spec fn begins_with_token(s: Seq<u8>, entity_type: Seq<char>, id: Seq<char>) -> bool {
    &&& is_valid_sentinel(entity_type, id)
    &&& token_bytes(entity_type, id).len() <= s.len()
    &&& s.take(token_bytes(entity_type, id).len() as int) == token_bytes(entity_type, id)
}

/// `s` is non-empty and a proper prefix of the token for a valid
/// `entity_type`/`id`: more bytes could still complete it.
pub open spec fn is_token_prefix(s: Seq<u8>, entity_type: Seq<char>, id: Seq<char>) -> bool {
    &&& is_valid_sentinel(entity_type, id)
    &&& 0 < s.len() < token_bytes(entity_type, id).len()
    &&& s == token_bytes(entity_type, id).take(s.len() as int)
}

/// `s` begins with some complete token.
pub open spec fn starts_with_token(s: Seq<u8>) -> bool {
    exists|entity_type: Seq<char>, id: Seq<char>| #[trigger] begins_with_token(s, entity_type, id)
}

/// `s` is a live, unfinished token: a proper prefix of some token.
pub open spec fn is_partial_token(s: Seq<u8>) -> bool {
    exists|entity_type: Seq<char>, id: Seq<char>| #[trigger] is_token_prefix(s, entity_type, id)
}

/// A complete token starts at byte `p` of `buf`.
pub open spec fn complete_at(buf: Seq<u8>, p: int) -> bool {
    0 <= p <= buf.len() && starts_with_token(buf.skip(p))
}

/// An unfinished token runs from byte `p` of `buf` to its end.
pub open spec fn partial_at(buf: Seq<u8>, p: int) -> bool {
    0 <= p <= buf.len() && is_partial_token(buf.skip(p))
}

/// A match found in `buf`: `(start, end, entity type, id)`, where the token
/// of that type and id occupies `buf[start..end]`.
pub open spec fn is_token_span(buf: Seq<u8>, m: (int, int, Seq<char>, Seq<char>)) -> bool {
    &&& 0 <= m.0 <= buf.len()
    &&& begins_with_token(buf.skip(m.0), m.2, m.3)
    &&& m.1 == m.0 + token_bytes(m.2, m.3).len()
}

/// `ms` lists every complete token of `buf`, left to right: each entry is a
/// token span, the entries start in increasing order, and every position at
/// which a complete token starts is the start of an entry.
pub open spec fn is_scan_of(buf: Seq<u8>, ms: Seq<(int, int, Seq<char>, Seq<char>)>) -> bool {
    &&& forall|k: int| 0 <= k < ms.len() ==> #[trigger] is_token_span(buf, ms[k])
    &&& forall|j: int, k: int| 0 <= j < k < ms.len() ==> ms[j].0 < ms[k].0
    &&& forall|p: int| #[trigger]
        complete_at(buf, p) ==> exists|k: int| 0 <= k < ms.len() && ms[k].0 == p
}

/// The first position from which an unfinished token runs to the end of
/// `buf`; the length of `buf` when there is none. Bytes from here on must be
/// held until more arrive.
pub open spec fn hold_point(buf: Seq<u8>) -> int {
    if exists|p: int| partial_at(buf, p) {
        choose|p: int|
            #[trigger] partial_at(buf, p) && forall|q: int| 0 <= q < p ==> !partial_at(buf, q)
    } else {
        buf.len() as int
    }
}

/* The byte layout that the scanners read */

/// UTF-8 of `⟦`.
pub open spec fn open_bytes() -> Seq<u8> {
    seq![0xE2u8, 0x9Fu8, 0xA6u8]
}

/// UTF-8 of `·`.
pub open spec fn sep_bytes() -> Seq<u8> {
    seq![0xC2u8, 0xB7u8]
}

/// UTF-8 of `⟧`.
pub open spec fn close_bytes() -> Seq<u8> {
    seq![0xE2u8, 0x9Fu8, 0xA7u8]
}

/// The byte `[A-Z]`.
pub open spec fn is_type_start_byte(b: u8) -> bool {
    0x41 <= b <= 0x5A
}

/// The byte `[A-Z0-9_]`.
pub open spec fn is_type_byte(b: u8) -> bool {
    (0x41 <= b <= 0x5A) || (0x30 <= b <= 0x39) || b == 0x5F
}

/// The byte `[0-9a-f]`.
pub open spec fn is_id_byte(b: u8) -> bool {
    (0x30 <= b <= 0x39) || (0x61 <= b <= 0x66)
}

/// `[A-Z][A-Z0-9_]*` over bytes.
pub open spec fn valid_type_bytes(t: Seq<u8>) -> bool {
    &&& t.len() > 0
    &&& is_type_start_byte(t[0])
    &&& forall|i: int| 0 <= i < t.len() ==> #[trigger] is_type_byte(t[i])
}

/// `[0-9a-f]+` over bytes.
pub open spec fn valid_id_bytes(d: Seq<u8>) -> bool {
    &&& d.len() > 0
    &&& forall|i: int| 0 <= i < d.len() ==> #[trigger] is_id_byte(d[i])
}

/// The token built from the bytes of its type and id.
pub open spec fn byte_token(t: Seq<u8>, d: Seq<u8>) -> Seq<u8> {
    open_bytes() + t + sep_bytes() + d + close_bytes()
}

/// Each character of an ASCII text as its byte.
pub open spec fn ascii_bytes(s: Seq<char>) -> Seq<u8> {
    s.map_values(|c: char| c as u8)
}

/// Each byte below 0x80 as its character.
pub open spec fn ascii_chars(b: Seq<u8>) -> Seq<char> {
    b.map_values(|x: u8| x as char)
}

/// Every byte of `b` is below 0x80.
pub open spec fn all_ascii_bytes(b: Seq<u8>) -> bool {
    forall|i: int| 0 <= i < b.len() ==> #[trigger] b[i] < 0x80
}

/// `s` and `b` agree on every position that both have.
pub open spec fn agrees(s: Seq<u8>, b: Seq<u8>) -> bool {
    forall|j: int| 0 <= j < s.len() && j < b.len() ==> s[j] == b[j]
}

/* Lemmas */

/// The UTF-8 encoding of a concatenation is the concatenation of the encodings.
pub proof fn lemma_encode_utf8_concat(a: Seq<char>, b: Seq<char>)
    ensures
        encode_utf8(a + b) == encode_utf8(a) + encode_utf8(b),
    decreases a.len(),
{
    if a.len() == 0 {
        assert(a + b =~= b);
        assert(encode_utf8(a) + encode_utf8(b) =~= encode_utf8(b));
    } else {
        assert((a + b).drop_first() =~= a.drop_first() + b);
        assert((a + b)[0] == a[0]);
        lemma_encode_utf8_concat(a.drop_first(), b);
        let e0 = encode_scalar(a[0] as u32);
        assert(e0 + (encode_utf8(a.drop_first()) + encode_utf8(b)) =~= (e0 + encode_utf8(
            a.drop_first(),
        )) + encode_utf8(b));
    }
}

/// The UTF-8 encodings of the three delimiters.
pub proof fn lemma_delimiter_bytes()
    ensures
        encode_utf8(seq![OPEN]) == open_bytes(),
        encode_utf8(seq![SEP]) == sep_bytes(),
        encode_utf8(seq![CLOSE]) == close_bytes(),
{
    let o: u32 = OPEN as u32;
    let s: u32 = SEP as u32;
    let c: u32 = CLOSE as u32;
    assert(o == 0x27E6);
    assert(s == 0xB7);
    assert(c == 0x27E7);
    assert(leading_byte_width_3(o) == 0xE2 && second_last_continuation_byte(o) == 0x9F
        && last_continuation_byte(o) == 0xA6) by (bit_vector)
        requires
            o == 0x27E6,
    ;
    assert(leading_byte_width_2(s) == 0xC2 && last_continuation_byte(s) == 0xB7) by (bit_vector)
        requires
            s == 0xB7,
    ;
    assert(leading_byte_width_3(c) == 0xE2 && second_last_continuation_byte(c) == 0x9F
        && last_continuation_byte(c) == 0xA7) by (bit_vector)
        requires
            c == 0x27E7,
    ;
    assert(encode_utf8(Seq::<char>::empty()) =~= Seq::<u8>::empty());
    assert(has_width_3_encoding(o) && has_width_2_encoding(s) && has_width_3_encoding(c));
    assert(seq![OPEN][0] == OPEN && seq![SEP][0] == SEP && seq![CLOSE][0] == CLOSE);
    assert(seq![OPEN].drop_first() =~= Seq::<char>::empty());
    assert(seq![SEP].drop_first() =~= Seq::<char>::empty());
    assert(seq![CLOSE].drop_first() =~= Seq::<char>::empty());
    assert(encode_utf8(seq![OPEN]) =~= open_bytes());
    assert(encode_utf8(seq![SEP]) =~= sep_bytes());
    assert(encode_utf8(seq![CLOSE]) =~= close_bytes());
}

/// An ASCII text is encoded byte for byte.
pub proof fn lemma_ascii_encode(s: Seq<char>)
    requires
        is_ascii_chars(s),
    ensures
        encode_utf8(s) == ascii_bytes(s),
{
    is_ascii_chars_encode_utf8(s);
    assert(encode_utf8(s) =~= ascii_bytes(s));
}

/// The characters of a valid sentinel are ASCII, and their bytes follow the
/// byte grammar.
pub proof fn lemma_valid_sentinel_ascii(entity_type: Seq<char>, id: Seq<char>)
    requires
        is_valid_sentinel(entity_type, id),
    ensures
        is_ascii_chars(entity_type),
        is_ascii_chars(id),
        valid_type_bytes(ascii_bytes(entity_type)),
        valid_id_bytes(ascii_bytes(id)),
        ascii_chars(ascii_bytes(entity_type)) == entity_type,
        ascii_chars(ascii_bytes(id)) == id,
{
    assert forall|i: int| 0 <= i < entity_type.len() implies is_type_byte(
        #[trigger] ascii_bytes(entity_type)[i],
    ) && ('\0' <= entity_type[i] <= '\u{7f}') by {
        assert(is_type_char(entity_type[i]));
    }
    assert forall|i: int| 0 <= i < id.len() implies is_id_byte(#[trigger] ascii_bytes(id)[i]) && (
    '\0' <= id[i] <= '\u{7f}') by {
        assert(is_id_char(id[i]));
    }
    assert(is_type_start_char(entity_type[0]));
    assert(ascii_chars(ascii_bytes(entity_type)) =~= entity_type);
    assert(ascii_chars(ascii_bytes(id)) =~= id);
}

/// The bytes of a valid sentinel's token: `⟦`, the type, `·`, the id, `⟧`.
pub proof fn lemma_token_layout(entity_type: Seq<char>, id: Seq<char>)
    requires
        is_valid_sentinel(entity_type, id),
    ensures
        token_bytes(entity_type, id) == byte_token(ascii_bytes(entity_type), ascii_bytes(id)),
        valid_type_bytes(ascii_bytes(entity_type)),
        valid_id_bytes(ascii_bytes(id)),
{
    lemma_valid_sentinel_ascii(entity_type, id);
    lemma_delimiter_bytes();
    lemma_ascii_encode(entity_type);
    lemma_ascii_encode(id);
    let a = seq![OPEN] + entity_type;
    let b = a + seq![SEP];
    let c = b + id;
    lemma_encode_utf8_concat(seq![OPEN], entity_type);
    lemma_encode_utf8_concat(a, seq![SEP]);
    lemma_encode_utf8_concat(b, id);
    lemma_encode_utf8_concat(c, seq![CLOSE]);
}

/// Position by position, what a byte token holds.
pub proof fn lemma_byte_token_index(t: Seq<u8>, d: Seq<u8>)
    ensures
        byte_token(t, d).len() == t.len() + d.len() + 8,
        byte_token(t, d)[0] == 0xE2,
        byte_token(t, d)[1] == 0x9F,
        byte_token(t, d)[2] == 0xA6,
        forall|j: int| 0 <= j < t.len() ==> byte_token(t, d)[3 + j] == #[trigger] t[j],
        byte_token(t, d)[3 + t.len() as int] == 0xC2,
        byte_token(t, d)[4 + t.len() as int] == 0xB7,
        forall|j: int| 0 <= j < d.len() ==> byte_token(t, d)[5 + t.len() + j] == #[trigger] d[j],
        byte_token(t, d)[5 + t.len() as int + d.len() as int] == 0xE2,
        byte_token(t, d)[6 + t.len() as int + d.len() as int] == 0x9F,
        byte_token(t, d)[7 + t.len() as int + d.len() as int] == 0xA7,
{
    let o = open_bytes();
    let a = o + t;
    let b = a + sep_bytes();
    let c = b + d;
    assert(a[0] == 0xE2 && a[1] == 0x9F && a[2] == 0xA6);
    assert forall|j: int| 0 <= j < t.len() implies byte_token(t, d)[3 + j] == #[trigger] t[j] by {
        assert(a[3 + j] == t[j]);
        assert(b[3 + j] == t[j]);
        assert(c[3 + j] == t[j]);
    }
    assert(b[3 + t.len() as int] == 0xC2 && b[4 + t.len() as int] == 0xB7);
    assert forall|j: int| 0 <= j < d.len() implies byte_token(t, d)[5 + t.len() + j]
        == #[trigger] d[j] by {
        assert(c[5 + t.len() + j] == d[j]);
    }
}

/// A sequence of bytes below 0x80 is valid UTF-8, decodes to its ASCII
/// characters, and keeps the grammar when read as characters.
pub proof fn lemma_ascii_chars_of(t: Seq<u8>)
    requires
        all_ascii_bytes(t),
    ensures
        ascii_bytes(ascii_chars(t)) == t,
        is_ascii_chars(ascii_chars(t)),
        valid_utf8(t),
        decode_utf8(t) == ascii_chars(t),
        valid_type_bytes(t) ==> is_valid_entity_type(ascii_chars(t)),
        valid_id_bytes(t) ==> is_valid_id(ascii_chars(t)),
{
    let c = ascii_chars(t);
    assert forall|i: int| 0 <= i < c.len() implies '\0' <= #[trigger] c[i] <= '\u{7f}' by {
        assert(t[i] < 0x80);
    }
    assert(ascii_bytes(c) =~= t);
    lemma_ascii_encode(c);
    encode_utf8_valid_utf8(c);
    encode_utf8_decode_utf8(c);
    if valid_type_bytes(t) {
        assert forall|i: int| 0 <= i < c.len() implies is_type_char(#[trigger] c[i]) by {
            assert(is_type_byte(t[i]));
        }
        assert(is_type_start_byte(t[0]));
    }
    if valid_id_bytes(t) {
        assert forall|i: int| 0 <= i < c.len() implies is_id_char(#[trigger] c[i]) by {
            assert(is_id_byte(t[i]));
        }
    }
}

/// Bytes that follow the type grammar are ASCII.
pub proof fn lemma_type_id_bytes_ascii(t: Seq<u8>, d: Seq<u8>)
    requires
        valid_type_bytes(t),
        valid_id_bytes(d),
    ensures
        all_ascii_bytes(t),
        all_ascii_bytes(d),
{
    assert forall|i: int| 0 <= i < t.len() implies #[trigger] t[i] < 0x80 by {
        assert(is_type_byte(t[i]));
    }
    assert forall|i: int| 0 <= i < d.len() implies #[trigger] d[i] < 0x80 by {
        assert(is_id_byte(d[i]));
    }
}

/// Two byte tokens that both agree with `s`, where `s` reaches at least to
/// the end of the shorter one, are the same token: the byte grammar is
/// prefix-free.
pub proof fn lemma_byte_token_unique(s: Seq<u8>, t1: Seq<u8>, d1: Seq<u8>, t2: Seq<u8>, d2: Seq<u8>)
    requires
        valid_type_bytes(t1),
        valid_id_bytes(d1),
        valid_type_bytes(t2),
        valid_id_bytes(d2),
        agrees(s, byte_token(t1, d1)),
        agrees(s, byte_token(t2, d2)),
        s.len() >= byte_token(t1, d1).len() || s.len() >= byte_token(t2, d2).len(),
    ensures
        t1 == t2,
        d1 == d2,
{
    let b1 = byte_token(t1, d1);
    let b2 = byte_token(t2, d2);
    lemma_byte_token_index(t1, d1);
    lemma_byte_token_index(t2, d2);
    let a = t1.len() as int;
    let b = t2.len() as int;
    if a < b {
        let j = 3 + a;
        assert(s[j] == b1[j]);
        assert(s[j] == b2[j]);
        assert(is_type_byte(t2[a]));
        assert(false);
    }
    if b < a {
        let j = 3 + b;
        assert(s[j] == b1[j]);
        assert(s[j] == b2[j]);
        assert(is_type_byte(t1[b]));
        assert(false);
    }
    assert forall|j: int| 0 <= j < a implies t1[j] == t2[j] by {
        assert(s[3 + j] == b1[3 + j]);
        assert(s[3 + j] == b2[3 + j]);
    }
    assert(t1 =~= t2);
    let c = d1.len() as int;
    let e = d2.len() as int;
    if c < e {
        let j = 5 + a + c;
        assert(s[j] == b1[j]);
        assert(s[j] == b2[j]);
        assert(is_id_byte(d2[c]));
        assert(false);
    }
    if e < c {
        let j = 5 + a + e;
        assert(s[j] == b1[j]);
        assert(s[j] == b2[j]);
        assert(is_id_byte(d1[e]));
        assert(false);
    }
    assert forall|j: int| 0 <= j < c implies d1[j] == d2[j] by {
        assert(s[5 + a + j] == b1[5 + a + j]);
        assert(s[5 + a + j] == b2[5 + a + j]);
    }
    assert(d1 =~= d2);
}

/// The same at the level of characters: a token is fixed by its bytes.
pub proof fn lemma_token_unique(
    s: Seq<u8>,
    ty1: Seq<char>,
    id1: Seq<char>,
    ty2: Seq<char>,
    id2: Seq<char>,
)
    requires
        is_valid_sentinel(ty1, id1),
        is_valid_sentinel(ty2, id2),
        agrees(s, token_bytes(ty1, id1)),
        agrees(s, token_bytes(ty2, id2)),
        s.len() >= token_bytes(ty1, id1).len() || s.len() >= token_bytes(ty2, id2).len(),
    ensures
        ty1 == ty2,
        id1 == id2,
{
    lemma_token_layout(ty1, id1);
    lemma_token_layout(ty2, id2);
    lemma_valid_sentinel_ascii(ty1, id1);
    lemma_valid_sentinel_ascii(ty2, id2);
    lemma_byte_token_unique(s, ascii_bytes(ty1), ascii_bytes(id1), ascii_bytes(ty2), ascii_bytes(id2));
}

/// A token or a live prefix of one lies at the start of `s` only if
/// `s` agrees with the bytes of some valid token.
pub proof fn lemma_no_token_agrees(s: Seq<u8>)
    requires
        forall|t: Seq<u8>, d: Seq<u8>|
            valid_type_bytes(t) && valid_id_bytes(d) ==> !#[trigger] agrees(s, byte_token(t, d)),
    ensures
        !starts_with_token(s),
        !is_partial_token(s),
{
    if starts_with_token(s) {
        let (ty, id) = choose|ty: Seq<char>, id: Seq<char>| begins_with_token(s, ty, id);
        lemma_token_layout(ty, id);
        let tb = token_bytes(ty, id);
        assert forall|j: int| 0 <= j < s.len() && j < tb.len() implies s[j] == tb[j] by {
            assert(s.take(tb.len() as int)[j] == s[j]);
        }
        assert(agrees(s, byte_token(ascii_bytes(ty), ascii_bytes(id))));
    }
    if is_partial_token(s) {
        let (ty, id) = choose|ty: Seq<char>, id: Seq<char>| is_token_prefix(s, ty, id);
        lemma_token_layout(ty, id);
        let tb = token_bytes(ty, id);
        assert forall|j: int| 0 <= j < s.len() && j < tb.len() implies s[j] == tb[j] by {
            assert(tb.take(s.len() as int)[j] == tb[j]);
        }
        assert(agrees(s, byte_token(ascii_bytes(ty), ascii_bytes(id))));
    }
}

/// `s` running out partway through the bytes of a valid token is a live
/// prefix, and then no complete token starts it.
pub proof fn lemma_partial_from_bytes(s: Seq<u8>, t: Seq<u8>, d: Seq<u8>)
    requires
        valid_type_bytes(t),
        valid_id_bytes(d),
        0 < s.len() < byte_token(t, d).len(),
        agrees(s, byte_token(t, d)),
    ensures
        is_partial_token(s),
        !starts_with_token(s),
        is_token_prefix(s, ascii_chars(t), ascii_chars(d)),
{
    lemma_type_id_bytes_ascii(t, d);
    lemma_ascii_chars_of(t);
    lemma_ascii_chars_of(d);
    let ty = ascii_chars(t);
    let id = ascii_chars(d);
    lemma_token_layout(ty, id);
    assert(s =~= token_bytes(ty, id).take(s.len() as int));
    assert(is_token_prefix(s, ty, id));
    if starts_with_token(s) {
        let (ty2, id2) = choose|ty2: Seq<char>, id2: Seq<char>| begins_with_token(s, ty2, id2);
        let tb2 = token_bytes(ty2, id2);
        assert forall|j: int| 0 <= j < s.len() && j < tb2.len() implies s[j] == tb2[j] by {
            assert(s.take(tb2.len() as int)[j] == s[j]);
        }
        lemma_token_unique(s, ty, id, ty2, id2);
    }
}

/// `s` beginning with the bytes of a valid token begins with that token, and
/// then is no live prefix.
pub proof fn lemma_complete_from_bytes(s: Seq<u8>, t: Seq<u8>, d: Seq<u8>)
    requires
        valid_type_bytes(t),
        valid_id_bytes(d),
        byte_token(t, d).len() <= s.len(),
        agrees(s, byte_token(t, d)),
    ensures
        begins_with_token(s, ascii_chars(t), ascii_chars(d)),
        token_bytes(ascii_chars(t), ascii_chars(d)) == byte_token(t, d),
        !is_partial_token(s),
{
    lemma_type_id_bytes_ascii(t, d);
    lemma_ascii_chars_of(t);
    lemma_ascii_chars_of(d);
    let ty = ascii_chars(t);
    let id = ascii_chars(d);
    lemma_token_layout(ty, id);
    let tb = token_bytes(ty, id);
    assert(s.take(tb.len() as int) =~= tb);
    if is_partial_token(s) {
        let (ty2, id2) = choose|ty2: Seq<char>, id2: Seq<char>| is_token_prefix(s, ty2, id2);
        let tb2 = token_bytes(ty2, id2);
        assert forall|j: int| 0 <= j < s.len() && j < tb2.len() implies s[j] == tb2[j] by {
            assert(tb2.take(s.len() as int)[j] == tb2[j]);
        }
        lemma_token_unique(s, ty, id, ty2, id2);
    }
}

/// Inside a byte token the byte 0xE2 occurs only where `⟧` begins, and
/// there it is followed two bytes later by 0xA7 rather than 0xA6.
proof fn lemma_inner_bytes(t: Seq<u8>, d: Seq<u8>, k: int)
    requires
        valid_type_bytes(t),
        valid_id_bytes(d),
        0 < k < byte_token(t, d).len(),
    ensures
        byte_token(t, d)[k] != 0xE2 || (k + 2 < byte_token(t, d).len() && byte_token(t, d)[k
            + 2] == 0xA7),
{
    let b = byte_token(t, d);
    lemma_byte_token_index(t, d);
    lemma_type_id_bytes_ascii(t, d);
    let a = t.len() as int;
    let c = d.len() as int;
    if k < 3 {
        assert(b[k] == 0x9F || b[k] == 0xA6);
    } else if k < 3 + a {
        assert(b[k] == t[k - 3]);
        assert(t[k - 3] < 0x80);
    } else if k < 5 + a {
        assert(b[k] == 0xC2 || b[k] == 0xB7);
    } else if k < 5 + a + c {
        assert(b[k] == d[k - 5 - a]);
        assert(d[k - 5 - a] < 0x80);
    } else if k == 5 + a + c {
        assert(b[k + 2] == 0xA7);
    } else {
        assert(b[k] == 0x9F || b[k] == 0xA7);
    }
}

/// No token, complete or live, starts strictly inside a complete token.
pub proof fn lemma_nothing_starts_inside(
    buf: Seq<u8>,
    p: int,
    entity_type: Seq<char>,
    id: Seq<char>,
    q: int,
)
    requires
        0 <= p <= buf.len(),
        begins_with_token(buf.skip(p), entity_type, id),
        p < q < p + token_bytes(entity_type, id).len(),
    ensures
        !complete_at(buf, q),
        !partial_at(buf, q),
{
    let tb = token_bytes(entity_type, id);
    let t = ascii_bytes(entity_type);
    let d = ascii_bytes(id);
    lemma_token_layout(entity_type, id);
    let s = buf.skip(q);
    let k = q - p;
    lemma_inner_bytes(t, d, k);
    assert(buf.skip(p).take(tb.len() as int)[k] == tb[k]);
    assert(s[0] == tb[k]);
    if tb[k] == 0xE2 {
        assert(buf.skip(p).take(tb.len() as int)[k + 2] == tb[k + 2]);
        assert(s[2] == 0xA7);
    }
    assert forall|t2: Seq<u8>, d2: Seq<u8>|
        valid_type_bytes(t2) && valid_id_bytes(d2) implies !#[trigger] agrees(
        s,
        byte_token(t2, d2),
    ) by {
        lemma_byte_token_index(t2, d2);
    }
    lemma_no_token_agrees(s);
}

/// The empty sequence holds no token, complete or live.
pub proof fn lemma_empty_no_token(s: Seq<u8>)
    requires
        s.len() == 0,
    ensures
        !starts_with_token(s),
        !is_partial_token(s),
{
    if starts_with_token(s) {
        let (ty, id) = choose|ty: Seq<char>, id: Seq<char>| begins_with_token(s, ty, id);
        lemma_token_layout(ty, id);
        lemma_byte_token_index(ascii_bytes(ty), ascii_bytes(id));
    }
}

/// `s` agrees with a byte token when it agrees with each of its parts, as far
/// as `s` reaches.
pub proof fn lemma_agrees_parts(s: Seq<u8>, t: Seq<u8>, d: Seq<u8>)
    requires
        agrees(s, open_bytes()),
        s.len() <= 3 || agrees(s.skip(3), t),
        s.len() <= 3 + t.len() || agrees(s.skip(3 + t.len() as int), sep_bytes()),
        s.len() <= 5 + t.len() || agrees(s.skip(5 + t.len() as int), d),
        s.len() <= 5 + t.len() + d.len() || agrees(s.skip(5 + t.len() as int + d.len() as int), close_bytes()),
    ensures
        agrees(s, byte_token(t, d)),
{
    let b = byte_token(t, d);
    lemma_byte_token_index(t, d);
    let a = t.len() as int;
    let c = d.len() as int;
    assert forall|j: int| 0 <= j < s.len() && j < b.len() implies s[j] == b[j] by {
        if j < 3 {
            assert(s[j] == open_bytes()[j]);
        } else if j < 3 + a {
            assert(s.skip(3)[j - 3] == t[j - 3]);
        } else if j < 5 + a {
            assert(s.skip(3 + a)[j - 3 - a] == sep_bytes()[j - 3 - a]);
        } else if j < 5 + a + c {
            assert(s.skip(5 + a)[j - 5 - a] == d[j - 5 - a]);
        } else {
            assert(s.skip(5 + a + c)[j - 5 - a - c] == close_bytes()[j - 5 - a - c]);
        }
    }
}

/// A token is at least ten bytes long: three delimiters and two non-empty
/// fields.
pub proof fn lemma_token_len(entity_type: Seq<char>, id: Seq<char>)
    requires
        is_valid_sentinel(entity_type, id),
    ensures
        token_bytes(entity_type, id).len() >= 10,
{
    lemma_token_layout(entity_type, id);
    lemma_byte_token_index(ascii_bytes(entity_type), ascii_bytes(id));
}

/// A live token begins with the first byte of `⟦`, a UTF-8 leading byte.
pub proof fn lemma_partial_starts_open(s: Seq<u8>)
    requires
        is_partial_token(s),
    ensures
        s.len() > 0,
        s[0] == 0xE2,
{
    let (ty, id) = choose|ty: Seq<char>, id: Seq<char>| is_token_prefix(s, ty, id);
    lemma_token_layout(ty, id);
    lemma_byte_token_index(ascii_bytes(ty), ascii_bytes(id));
    assert(s[0] == token_bytes(ty, id).take(s.len() as int)[0]);
}

} // verus!
