//! Token sentinel format: the surface form of a redaction token and the
//! matchers that find it in text and in a stream of bytes.
//!
//! A sentinel is `⟦{TYPE}·{id}⟧`, e.g. `⟦API_KEY·0⟧` or `⟦SSN·4f2a⟧`:
//!
//! - open `⟦` (U+27E6), close `⟧` (U+27E7), separator `·` (U+00B7): balanced,
//!   multi-byte delimiters that practically never occur in source code;
//! - `{TYPE}` is `[A-Z][A-Z0-9_]*`, the entity type (`SSN`, `API_KEY`, ...);
//! - `{id}` is `[0-9a-f]+`, a per-session identifier: a decimal index or a
//!   lowercase hex hash.
//!
//! The grammar is modelled in [`grammar`]; the scanners work on bytes so that
//! a delimiter split partway through its UTF-8 encoding at the end of a
//! buffer is still recognised as the start of a token.

pub mod grammar;
mod scan;
pub mod utf8_prefix;
pub mod laws;

use vstd::prelude::*;
use vstd::slice::slice_subrange;
use vstd::utf8::{
    encode_utf8, is_char_boundary_iff_not_is_continuation_byte, valid_utf8, valid_utf8_split,
};
use self::grammar::{
    complete_at, hold_point, is_scan_of, is_token_span, lemma_empty_no_token, lemma_nothing_starts_inside,
    lemma_partial_starts_open, lemma_token_len, partial_at, rendered,
};
use self::scan::{classify, Prefix};
use self::utf8_prefix::{last_utf8_boundary, lemma_longest_utf8_prefix_unique, utf8_prefix_len};

verus! {

/// Opening delimiter, `⟦` (U+27E6).
pub const OPEN: char = '⟦';

/// Closing delimiter, `⟧` (U+27E7).
pub const CLOSE: char = '⟧';

/// Type/id separator, `·` (U+00B7).
pub const SEP: char = '·';

/// Format string for a token vault that substitutes `{entity_type}` and
/// `{index}`: the index lands in the `{id}` field of the grammar.
pub const OCTARINE_FORMAT: &'static str = "⟦{entity_type}·{index}⟧";

/// std's `From<&str> for String`, which `Into<String>` goes through for a
/// string slice: std documents that it converts the `&str` into a `String`,
/// that is, the new string holds the same text.
pub assume_specification<'a>[ <String as From<&'a str>>::from ](s: &str) -> (r: String)
    ensures
        r@ == s@,
;

/// A parsed sentinel token: its entity type and identifier.
#[derive(Debug, Clone, PartialEq, Eq)]
pub struct Sentinel {
    /// Entity type, e.g. `SSN` or `API_KEY` (`[A-Z][A-Z0-9_]*`).
    pub entity_type: String,
    /// Stable identifier, e.g. `0` or `4f2a` (`[0-9a-f]+`).
    pub id: String,
}

impl View for Sentinel {
    type V = (Seq<char>, Seq<char>);

    open spec fn view(&self) -> (Seq<char>, Seq<char>) {
        (self.entity_type@, self.id@)
    }
}

impl Sentinel {
    /// Construct a sentinel from its parts: each field holds what converting
    /// the argument into a `String` gives.
    pub fn new<E: Into<String>, I: Into<String>>(entity_type: E, id: I) -> (s: Self)
        ensures
            call_ensures(<E as Into<String>>::into, (entity_type,), s.entity_type),
            call_ensures(<I as Into<String>>::into, (id,), s.id),
    {
        Sentinel { entity_type: entity_type.into(), id: id.into() }
    }

    /// Render the surface form, e.g. `⟦API_KEY·0⟧`.
    pub fn render(&self) -> (r: String)
        ensures
            r@ == rendered(self.entity_type@, self.id@),
    {
        let mut r = String::new();
        r.append("⟦");
        r.append(self.entity_type.as_str());
        r.append("·");
        r.append(self.id.as_str());
        r.append("⟧");
        proof {
            reveal_strlit("⟦");
            reveal_strlit("·");
            reveal_strlit("⟧");
            assert("⟦"@ =~= seq![OPEN]);
            assert("·"@ =~= seq![SEP]);
            assert("⟧"@ =~= seq![CLOSE]);
            assert(r@ =~= rendered(self.entity_type@, self.id@));
        }
        r
    }
}

/// A complete sentinel located in a string, with its byte span `start..end`.
#[derive(Debug, Clone, PartialEq, Eq)]
pub struct Match {
    /// Byte offset of the opening delimiter.
    pub start: usize,
    /// Byte offset just past the closing delimiter.
    pub end: usize,
    /// The parsed token.
    pub sentinel: Sentinel,
}

impl View for Match {
    type V = (int, int, Seq<char>, Seq<char>);

    open spec fn view(&self) -> (int, int, Seq<char>, Seq<char>) {
        (self.start as int, self.end as int, self.sentinel.entity_type@, self.sentinel.id@)
    }
}

/// Find every complete sentinel in `text`, left to right, non-overlapping.
pub fn find_complete(text: &str) -> (matches: Vec<Match>)
    ensures
        is_scan_of(encode_utf8(text@), matches@.map_values(|m: Match| m@)),
{
    let buf = text.as_bytes();
    let ghost b = buf@;
    let mut matches: Vec<Match> = Vec::new();
    let mut i: usize = 0;
    while i < buf.len()
        invariant
            i <= buf.len(),
            buf@ == b,
            b == encode_utf8(text@),
            forall|k: int| 0 <= k < matches@.len() ==> #[trigger] is_token_span(b, matches@[k]@),
            forall|k: int|
                0 <= k < matches@.len() ==> #[trigger] matches@[k].start < i && matches@[k].end <= i,
            forall|j: int, k: int|
                0 <= j < k < matches@.len() ==> matches@[j].start < matches@[k].start,
            forall|p: int|
                0 <= p < i && #[trigger] complete_at(b, p) ==> exists|k: int|
                    0 <= k < matches@.len() && matches@[k].start == p,
        decreases buf.len() - i,
    {
        let rest = slice_subrange(buf, i, buf.len());
        if let Prefix::Complete { len, sentinel } = classify(rest) {
            let ghost ty = sentinel.entity_type@;
            let ghost id = sentinel.id@;
            proof {
                assert(rest@ =~= b.skip(i as int));
                lemma_token_len(ty, id);
                assert forall|p: int| i < p < i + len implies !complete_at(b, p) by {
                    lemma_nothing_starts_inside(b, i as int, ty, id, p);
                }
            }
            assert(is_token_span(b, (i as int, (i + len) as int, ty, id)));
            let ghost old_matches = matches@;
            matches.push(Match { start: i, end: i + len, sentinel });
            proof {
                assert(matches@[old_matches.len() as int].start == i);
                assert forall|k: int| 0 <= k < matches@.len() implies is_token_span(
                    b,
                    matches@[k]@,
                ) && #[trigger] matches@[k].start < i + len && matches@[k].end <= i + len by {
                    if k < old_matches.len() {
                        assert(matches@[k] == old_matches[k]);
                    } else {
                        assert(matches@[k]@ == (i as int, (i + len) as int, ty, id));
                    }
                }
                assert forall|j: int, k: int|
                    0 <= j < k < matches@.len() implies matches@[j].start < matches@[k].start by {
                    assert(matches@[j] == old_matches[j]);
                    assert(old_matches[j].start < i);
                    if k < old_matches.len() {
                        assert(matches@[k] == old_matches[k]);
                    } else {
                        assert(matches@[k].start == i);
                    }
                }
                assert forall|p: int|
                    0 <= p < i + len && #[trigger] complete_at(b, p) implies exists|k: int|
                    0 <= k < matches@.len() && matches@[k].start == p by {
                    if p < i {
                        let k = choose|k: int| 0 <= k < old_matches.len() && old_matches[k].start == p;
                        assert(matches@[k] == old_matches[k]);
                    } else {
                        assert(p == i);
                    }
                }
            }
            i = i + len;
        } else {
            i = i + 1;
        }
    }
    proof {
        lemma_empty_no_token(b.skip(b.len() as int));
        let ms = matches@.map_values(|m: Match| m@);
        assert forall|p: int| #[trigger] complete_at(b, p) implies exists|k: int|
            0 <= k < ms.len() && ms[k].0 == p by {
            let k = choose|k: int| 0 <= k < matches@.len() && matches@[k].start == p;
            assert(ms[k].0 == p);
        }
        assert forall|k: int| 0 <= k < ms.len() implies #[trigger] is_token_span(b, ms[k]) by {
            assert(ms[k] == matches@[k]@);
        }
    }
    matches
}

/// Where [`safe_flush_boundary`] cuts `buf`: before the first live token
/// and before any bytes that are not yet valid UTF-8, whichever comes first.
pub open spec fn flush_point(buf: Seq<u8>) -> int {
    if hold_point(buf) <= utf8_prefix_len(buf) {
        hold_point(buf)
    } else {
        utf8_prefix_len(buf)
    }
}

/// Byte offset up to which `buf` can be safely released: `buf[..n]` holds no
/// live, still completable sentinel and no split UTF-8 codepoint, while
/// `buf[n..]` must be held until more bytes arrive.
///
/// This is the primitive a streaming rehydrate machine builds on. It is
/// total and single-pass: it never panics and never splits a UTF-8 scalar.
/// When `buf` contains no in-progress sentinel and ends on a codepoint
/// boundary, the result is `buf.len()` (release everything).
pub fn safe_flush_boundary(buf: &[u8]) -> (n: usize)
    ensures
        n == flush_point(buf@),
        n <= buf.len(),
        valid_utf8(buf@.take(n as int)),
        forall|q: int| 0 <= q < n ==> !#[trigger] partial_at(buf@, q),
        // Nothing more could be released: any longer prefix is not valid
        // UTF-8 or holds the start of a live token.
        forall|m: int|
            n < m <= buf@.len() ==> !valid_utf8(#[trigger] buf@.take(m)) || exists|q: int|
                0 <= q < m && #[trigger] partial_at(buf@, q),
{
    let ghost b = buf@;
    let mut i: usize = 0;
    let mut hold = buf.len();
    while i < buf.len()
        invariant_except_break
            hold == buf.len(),
        invariant
            i <= buf.len(),
            buf@ == b,
            forall|q: int| 0 <= q < i ==> !#[trigger] partial_at(b, q),
        ensures
            hold <= buf.len(),
            forall|q: int| 0 <= q < hold ==> !#[trigger] partial_at(b, q),
            hold < buf.len() ==> partial_at(b, hold as int),
        decreases buf.len() - i,
    {
        let rest = slice_subrange(buf, i, buf.len());
        assert(rest@ =~= b.skip(i as int));
        match classify(rest) {
            // A finished sentinel is safe; skip past it.
            Prefix::Complete { len, sentinel } => {
                proof {
                    lemma_token_len(sentinel.entity_type@, sentinel.id@);
                    assert forall|q: int| 0 <= q < i + len implies !#[trigger] partial_at(b, q) by {
                        if q > i {
                            lemma_nothing_starts_inside(
                                b,
                                i as int,
                                sentinel.entity_type@,
                                sentinel.id@,
                                q,
                            );
                        }
                    }
                }
                i = i + len;
            },
            // A live prefix runs to the end of the buffer: hold from here.
            Prefix::Incomplete => {
                hold = i;
                break ;
            },
            // A false start (an opening that can't complete) is ordinary text.
            Prefix::Invalid => {
                i = i + 1;
            },
        }
    }
    proof {
        lemma_empty_no_token(b.skip(b.len() as int));
        if hold < buf.len() {
            let c = choose|p: int|
                #[trigger] partial_at(b, p) && forall|q: int| 0 <= q < p ==> !partial_at(b, q);
            assert(partial_at(b, c) && forall|q: int| 0 <= q < c ==> !partial_at(b, q));
            if c < hold {
                assert(!partial_at(b, c));
            }
            if c > hold {
                assert(!partial_at(b, hold as int));
            }
            assert(hold_point(b) == hold);
        } else {
            assert forall|p: int| !partial_at(b, p) by {
                if 0 <= p < hold {
                } else if p == hold {
                }
            }
            assert(hold_point(b) == hold);
        }
    }
    // Never release a partial trailing codepoint either.
    let u = last_utf8_boundary(buf);
    proof {
        lemma_longest_utf8_prefix_unique(b, u as int, utf8_prefix_len(b));
        if (hold as int) < (u as int) {
            // `hold` starts a live token, so it is a character boundary of the
            // valid prefix and the bytes before it are valid UTF-8 too.
            lemma_partial_starts_open(b.skip(hold as int));
            assert(b.skip(hold as int)[0] == b[hold as int]);
            let v = b.take(u as int);
            assert(v[hold as int] == 0xE2);
            is_char_boundary_iff_not_is_continuation_byte(v, hold as int);
            valid_utf8_split(v, hold as int);
            assert(v.subrange(0, hold as int) =~= b.take(hold as int));
        }
        let n = if hold <= u { hold as int } else { u as int };
        assert forall|m: int| n < m <= b.len() implies !valid_utf8(#[trigger] b.take(m)) || exists|
            q: int,
        | 0 <= q < m && #[trigger] partial_at(b, q) by {
            if hold <= u {
                assert(partial_at(b, hold as int));
            }
        }
    }
    if hold <= u {
        hold
    } else {
        u
    }
}

} // verus!
