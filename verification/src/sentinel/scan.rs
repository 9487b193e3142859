//! The byte-level scanner: classifies the bytes at a candidate position as a
//! complete token, a live prefix of one, or neither.

use vstd::prelude::*;
use vstd::slice::slice_subrange;
use vstd::utf8::{decode_utf8, valid_utf8};
use super::Sentinel;
use super::grammar::{
    agrees, begins_with_token, byte_token, close_bytes, is_id_byte,
    is_partial_token, is_type_byte, is_type_start_byte, lemma_agrees_parts,
    lemma_ascii_chars_of, lemma_byte_token_index, lemma_complete_from_bytes, lemma_empty_no_token,
    lemma_no_token_agrees, lemma_partial_from_bytes, lemma_type_id_bytes_ascii, open_bytes,
    sep_bytes, starts_with_token, token_bytes, valid_id_bytes, valid_type_bytes,
};

verus! {

/* What the scanner has seen at a rejection point */

/// `s[3..te]` is a run of type bytes ended by a byte that is not one.
spec fn type_run(s: Seq<u8>, te: int) -> bool {
    &&& 3 < te < s.len()
    &&& forall|k: int| 3 <= k < te ==> #[trigger] is_type_byte(s[k])
    &&& !is_type_byte(s[te])
}

/// `s[te + 2..ie]` is a run of id bytes ended by a byte that is not one.
spec fn id_run(s: Seq<u8>, te: int, ie: int) -> bool {
    &&& te + 2 < ie < s.len()
    &&& forall|k: int| te + 2 <= k < ie ==> #[trigger] is_id_byte(s[k])
    &&& !is_id_byte(s[ie])
}

proof fn lemma_open_mismatch(s: Seq<u8>)
    requires
        s.len() > 0,
        !agrees(s, open_bytes()),
    ensures
        !starts_with_token(s),
        !is_partial_token(s),
{
    assert forall|t: Seq<u8>, d: Seq<u8>|
        valid_type_bytes(t) && valid_id_bytes(d) implies !#[trigger] agrees(s, byte_token(t, d)) by {
        lemma_byte_token_index(t, d);
    }
    lemma_no_token_agrees(s);
}

proof fn lemma_type_start_mismatch(s: Seq<u8>)
    requires
        s.len() > 3,
        !is_type_start_byte(s[3]),
    ensures
        !starts_with_token(s),
        !is_partial_token(s),
{
    assert forall|t: Seq<u8>, d: Seq<u8>|
        valid_type_bytes(t) && valid_id_bytes(d) implies !#[trigger] agrees(s, byte_token(t, d)) by {
        lemma_byte_token_index(t, d);
        assert(byte_token(t, d)[3] == t[0]);
    }
    lemma_no_token_agrees(s);
}

/// A type run ended by a non-type byte fixes the length of the type.
proof fn lemma_type_len_forced(s: Seq<u8>, te: int, t: Seq<u8>, d: Seq<u8>)
    requires
        valid_type_bytes(t),
        valid_id_bytes(d),
        agrees(s, byte_token(t, d)),
        type_run(s, te),
    ensures
        t.len() == te - 3,
{
    let b = byte_token(t, d);
    lemma_byte_token_index(t, d);
    let a = t.len() as int;
    if a < te - 3 {
        assert(s[3 + a] == b[3 + a]);
        assert(is_type_byte(s[3 + a]));
    }
    if a > te - 3 {
        assert(s[te] == b[te]);
        assert(b[3 + (te - 3)] == t[te - 3]);
        assert(is_type_byte(t[te - 3]));
    }
}

proof fn lemma_after_type_mismatch(s: Seq<u8>, te: int)
    requires
        type_run(s, te),
        !agrees(s.skip(te), sep_bytes()),
    ensures
        !starts_with_token(s),
        !is_partial_token(s),
{
    assert forall|t: Seq<u8>, d: Seq<u8>|
        valid_type_bytes(t) && valid_id_bytes(d) implies !#[trigger] agrees(s, byte_token(t, d)) by {
        lemma_byte_token_index(t, d);
        if agrees(s, byte_token(t, d)) {
            lemma_type_len_forced(s, te, t, d);
            assert forall|j: int| 0 <= j < s.skip(te).len() && j < 2 implies s.skip(te)[j]
                == sep_bytes()[j] by {
                assert(s[te + j] == byte_token(t, d)[te + j]);
            }
        }
    }
    lemma_no_token_agrees(s);
}

proof fn lemma_id_start_mismatch(s: Seq<u8>, te: int)
    requires
        type_run(s, te),
        te + 2 < s.len(),
        !is_id_byte(s[te + 2]),
    ensures
        !starts_with_token(s),
        !is_partial_token(s),
{
    assert forall|t: Seq<u8>, d: Seq<u8>|
        valid_type_bytes(t) && valid_id_bytes(d) implies !#[trigger] agrees(s, byte_token(t, d)) by {
        lemma_byte_token_index(t, d);
        if agrees(s, byte_token(t, d)) {
            lemma_type_len_forced(s, te, t, d);
            assert(s[te + 2] == byte_token(t, d)[5 + t.len() as int + 0]);
            assert(is_id_byte(d[0]));
        }
    }
    lemma_no_token_agrees(s);
}

/// An id run ended by a non-id byte fixes the length of the id.
proof fn lemma_id_len_forced(s: Seq<u8>, te: int, ie: int, t: Seq<u8>, d: Seq<u8>)
    requires
        valid_type_bytes(t),
        valid_id_bytes(d),
        agrees(s, byte_token(t, d)),
        t.len() == te - 3,
        id_run(s, te, ie),
    ensures
        d.len() == ie - te - 2,
{
    let b = byte_token(t, d);
    lemma_byte_token_index(t, d);
    let c = d.len() as int;
    if c < ie - te - 2 {
        assert(s[te + 2 + c] == b[te + 2 + c]);
        assert(is_id_byte(s[te + 2 + c]));
    }
    if c > ie - te - 2 {
        assert(s[ie] == b[ie]);
        assert(b[5 + t.len() + (ie - te - 2)] == d[ie - te - 2]);
        assert(is_id_byte(d[ie - te - 2]));
    }
}

proof fn lemma_after_id_mismatch(s: Seq<u8>, te: int, ie: int)
    requires
        type_run(s, te),
        id_run(s, te, ie),
        !agrees(s.skip(ie), close_bytes()),
    ensures
        !starts_with_token(s),
        !is_partial_token(s),
{
    assert forall|t: Seq<u8>, d: Seq<u8>|
        valid_type_bytes(t) && valid_id_bytes(d) implies !#[trigger] agrees(s, byte_token(t, d)) by {
        lemma_byte_token_index(t, d);
        if agrees(s, byte_token(t, d)) {
            lemma_type_len_forced(s, te, t, d);
            lemma_id_len_forced(s, te, ie, t, d);
            assert forall|j: int| 0 <= j < s.skip(ie).len() && j < 3 implies s.skip(ie)[j]
                == close_bytes()[j] by {
                assert(s[ie + j] == byte_token(t, d)[ie + j]);
            }
        }
    }
    lemma_no_token_agrees(s);
}

/// The input ran out while everything seen so far follows the parts of a
/// valid byte token: the input is a live prefix, and no complete token.
proof fn lemma_live_prefix(s: Seq<u8>, t: Seq<u8>, d: Seq<u8>)
    requires
        valid_type_bytes(t),
        valid_id_bytes(d),
        0 < s.len() < t.len() + d.len() + 8,
        agrees(s, open_bytes()),
        s.len() <= 3 || agrees(s.skip(3), t),
        s.len() <= 3 + t.len() || agrees(s.skip(3 + t.len() as int), sep_bytes()),
        s.len() <= 5 + t.len() || agrees(s.skip(5 + t.len() as int), d),
        s.len() <= 5 + t.len() + d.len() || agrees(
            s.skip(5 + t.len() as int + d.len() as int),
            close_bytes(),
        ),
    ensures
        is_partial_token(s),
        !starts_with_token(s),
{
    lemma_agrees_parts(s, t, d);
    lemma_byte_token_index(t, d);
    lemma_partial_from_bytes(s, t, d);
}

/* The scanner */

/// Delimiter byte sequences: the UTF-8 of `⟦`, `⟧` and `·`.
const OPEN_BYTES: [u8; 3] = [0xE2, 0x9F, 0xA6];

const CLOSE_BYTES: [u8; 3] = [0xE2, 0x9F, 0xA7];

const SEP_BYTES: [u8; 2] = [0xC2, 0xB7];

/// Classification of the bytes starting at a candidate position.
pub enum Prefix {
    /// A full sentinel occupies `buf[..len]`.
    Complete { len: usize, sentinel: Sentinel },
    /// A proper prefix of a valid sentinel: it could still complete with
    /// more bytes, so the whole slice is live and must be held.
    Incomplete,
    /// Cannot be the prefix of any valid sentinel.
    Invalid,
}

/// What [`classify`] promises of its answer on the bytes `s`.
pub open spec fn classifies(s: Seq<u8>, r: Prefix) -> bool {
    match r {
        Prefix::Complete { len, sentinel } => {
            &&& begins_with_token(s, sentinel.entity_type@, sentinel.id@)
            &&& len == token_bytes(sentinel.entity_type@, sentinel.id@).len()
            &&& !is_partial_token(s)
        },
        Prefix::Incomplete => is_partial_token(s) && !starts_with_token(s),
        Prefix::Invalid => !starts_with_token(s) && !is_partial_token(s),
    }
}

/// `[A-Z]`.
fn is_type_start(b: u8) -> (r: bool)
    ensures
        r == is_type_start_byte(b),
{
    0x41 <= b && b <= 0x5A
}

/// `[A-Z0-9_]`.
fn is_type_char(b: u8) -> (r: bool)
    ensures
        r == is_type_byte(b),
{
    (0x41 <= b && b <= 0x5A) || (0x30 <= b && b <= 0x39) || b == 0x5F
}

/// `[0-9a-f]`.
fn is_id_char(b: u8) -> (r: bool)
    ensures
        r == is_id_byte(b),
{
    (0x30 <= b && b <= 0x39) || (0x61 <= b && b <= 0x66)
}

/// Match the fixed delimiter `delim` at `buf[pos..]`.
///
/// Returns `Ok(new_pos)` on a full match, `Err(true)` when `buf` ends partway
/// through the delimiter (incomplete, still possible), and `Err(false)` on a
/// definite mismatch (invalid).
fn match_delim(buf: &[u8], pos: usize, delim: &[u8]) -> (r: Result<usize, bool>)
    ensures
        match r {
            Ok(p) => {
                &&& p == pos + delim.len()
                &&& (delim.len() == 0 || p <= buf.len())
                &&& matches_at(buf@, pos as int, delim@)
            },
            Err(true) => buf.len() < pos + delim.len() && matches_at(buf@, pos as int, delim@),
            Err(false) => !matches_at(buf@, pos as int, delim@),
        },
{
    let mut p = pos;
    let mut j: usize = 0;
    while j < delim.len()
        invariant
            j <= delim.len(),
            p == pos + j,
            j > 0 ==> p <= buf.len(),
            forall|k: int| 0 <= k < j ==> pos + k < buf.len() && buf@[pos + k] == #[trigger] delim@[k],
        decreases delim.len() - j,
    {
        if p >= buf.len() {
            // ran out mid-delimiter: incomplete
            return Err(true);
        }
        if buf[p] != delim[j] {
            // mismatch: invalid
            return Err(false);
        }
        p = p + 1;
        j = j + 1;
    }
    Ok(p)
}

/// `buf` holds `delim` from `pos` on, as far as `buf` reaches.
spec fn matches_at(buf: Seq<u8>, pos: int, delim: Seq<u8>) -> bool {
    forall|j: int| 0 <= j < delim.len() && pos + j < buf.len() ==> buf[pos + j] == delim[j]
}

/// Within `buf`, matching at `pos` is agreeing from `pos` on.
proof fn lemma_matches_at_skip(buf: Seq<u8>, pos: int, delim: Seq<u8>)
    requires
        0 <= pos <= buf.len(),
    ensures
        matches_at(buf, pos, delim) == agrees(buf.skip(pos), delim),
{
    if matches_at(buf, pos, delim) {
        assert forall|j: int| 0 <= j < buf.skip(pos).len() && j < delim.len() implies buf.skip(
            pos,
        )[j] == delim[j] by {
            assert(buf[pos + j] == delim[j]);
        }
    }
    if agrees(buf.skip(pos), delim) {
        assert forall|j: int| 0 <= j < delim.len() && pos + j < buf.len() implies buf[pos + j]
            == delim[j] by {
            assert(buf.skip(pos)[j] == delim[j]);
        }
    }
}

/// `String::from_utf8_lossy` of std, made an owned `String`. std documents
/// that bytes which are valid UTF-8 come back as exactly the text they
/// encode; of other bytes (which come back with replacement characters)
/// nothing is stated here.
#[verifier::external_body]
fn string_from_utf8_lossy(bytes: &[u8]) -> (s: String)
    ensures
        valid_utf8(bytes@) ==> s@ == decode_utf8(bytes@),
{
    String::from_utf8_lossy(bytes).into_owned()
}

/// Classify the slice starting at `buf[0]` against the sentinel grammar.
pub fn classify(buf: &[u8]) -> (r: Prefix)
    ensures
        classifies(buf@, r),
{
    let ghost s = buf@;
    let ghost t0 = seq![0x41u8];
    let ghost d0 = seq![0x30u8];
    let n = buf.len();
    assert(OPEN_BYTES@ =~= open_bytes());
    assert(SEP_BYTES@ =~= sep_bytes());
    assert(CLOSE_BYTES@ =~= close_bytes());
    assert(s.skip(0) =~= s);
    assert(valid_type_bytes(t0) && valid_id_bytes(d0));
    // Fast reject: a sentinel must open with the first byte of `⟦`.
    if n == 0 {
        proof {
            lemma_empty_no_token(s);
        }
        return Prefix::Invalid;
    }
    if buf[0] != OPEN_BYTES[0] {
        proof {
            assert(!agrees(s, open_bytes())) by {
                assert(s[0] != open_bytes()[0]);
            }
            lemma_open_mismatch(s);
        }
        return Prefix::Invalid;
    }
    // OPEN delimiter.

    proof {
        lemma_matches_at_skip(s, 0, open_bytes());
    }
    let mut pos = match match_delim(buf, 0, &OPEN_BYTES) {
        Ok(p) => p,
        Err(true) => {
            proof {
                lemma_live_prefix(s, t0, d0);
            }
            return Prefix::Incomplete;
        },
        Err(false) => {
            proof {
                lemma_open_mismatch(s);
            }
            return Prefix::Invalid;
        },
    };
    // TYPE = [A-Z][A-Z0-9_]*, first char mandatory.

    let type_start = pos;
    if pos >= n {
        proof {
            lemma_live_prefix(s, t0, d0);
        }
        return Prefix::Incomplete;
    }
    if !is_type_start(buf[pos]) {
        proof {
            lemma_type_start_mismatch(s);
        }
        return Prefix::Invalid;
    }
    pos = pos + 1;
    while pos < n && is_type_char(buf[pos])
        invariant
            4 <= pos <= n,
            n == s.len(),
            buf@ == s,
            type_start == 3,
            agrees(s, open_bytes()),
            is_type_start_byte(s[3]),
            forall|k: int| 3 <= k < pos ==> #[trigger] is_type_byte(s[k]),
        decreases n - pos,
    {
        pos = pos + 1;
    }
    let ghost t = s.subrange(3, pos as int);
    assert(valid_type_bytes(t)) by {
        assert forall|i: int| 0 <= i < t.len() implies #[trigger] is_type_byte(t[i]) by {
            assert(t[i] == s[3 + i]);
        }
    }
    assert(agrees(s.skip(3), t));
    if pos == n {
        proof {
            lemma_live_prefix(s, t, d0);
        }
        return Prefix::Incomplete;
    }
    let type_end = pos;
    assert(type_run(s, type_end as int));
    // SEP delimiter.
    proof {
        lemma_matches_at_skip(s, pos as int, sep_bytes());
    }
    pos = match match_delim(buf, pos, &SEP_BYTES) {
        Ok(p) => p,
        Err(true) => {
            proof {
                lemma_live_prefix(s, t, d0);
            }
            return Prefix::Incomplete;
        },
        Err(false) => {
            proof {
                lemma_after_type_mismatch(s, type_end as int);
            }
            return Prefix::Invalid;
        },
    };
    // id = [0-9a-f]+, at least one char.
    let id_start = pos;
    if pos >= n {
        proof {
            lemma_live_prefix(s, t, d0);
        }
        return Prefix::Incomplete;
    }
    if !is_id_char(buf[pos]) {
        proof {
            lemma_id_start_mismatch(s, type_end as int);
        }
        return Prefix::Invalid;
    }
    pos = pos + 1;
    while pos < n && is_id_char(buf[pos])
        invariant
            id_start + 1 <= pos <= n,
            n == s.len(),
            buf@ == s,
            id_start == type_end + 2,
            forall|k: int| id_start <= k < pos ==> #[trigger] is_id_byte(s[k]),
        decreases n - pos,
    {
        pos = pos + 1;
    }
    let ghost d = s.subrange(id_start as int, pos as int);
    assert(valid_id_bytes(d)) by {
        assert forall|i: int| 0 <= i < d.len() implies #[trigger] is_id_byte(d[i]) by {
            assert(d[i] == s[id_start + i]);
        }
    }
    assert(agrees(s.skip(id_start as int), d));
    if pos == n {
        proof {
            lemma_live_prefix(s, t, d);
        }
        return Prefix::Incomplete;
    }
    let id_end = pos;
    assert(id_run(s, type_end as int, id_end as int));
    // CLOSE delimiter.
    proof {
        lemma_matches_at_skip(s, pos as int, close_bytes());
    }
    pos = match match_delim(buf, pos, &CLOSE_BYTES) {
        Ok(p) => p,
        Err(true) => {
            proof {
                lemma_live_prefix(s, t, d);
            }
            return Prefix::Incomplete;
        },
        Err(false) => {
            proof {
                lemma_after_id_mismatch(s, type_end as int, id_end as int);
            }
            return Prefix::Invalid;
        },
    };
    proof {
        lemma_agrees_parts(s, t, d);
        lemma_byte_token_index(t, d);
        lemma_complete_from_bytes(s, t, d);
        lemma_type_id_bytes_ascii(t, d);
        lemma_ascii_chars_of(t);
        lemma_ascii_chars_of(d);
    }
    // TYPE and id are ASCII by construction, so they decode exactly.
    let sentinel = Sentinel {
        entity_type: string_from_utf8_lossy(slice_subrange(buf, type_start, type_end)),
        id: string_from_utf8_lossy(slice_subrange(buf, id_start, id_end)),
    };
    Prefix::Complete { len: pos, sentinel }
}

} // verus!
