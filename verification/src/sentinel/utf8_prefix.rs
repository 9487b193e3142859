//! The longest prefix of a byte buffer that is valid UTF-8: a buffer cut at
//! an arbitrary byte may end partway through a multi-byte character, and
//! those trailing bytes must not be released yet.

use vstd::prelude::*;
use vstd::utf8::{
    codepoint_width_1, codepoint_width_2, codepoint_width_3, codepoint_width_4,
    is_continuation_byte, length_of_first_scalar, partial_valid_utf8_extend, pop_first_scalar,
    valid_first_scalar, valid_utf8,
};

verus! {

/// `u` is the length of the longest prefix of `buf` that is valid UTF-8.
pub open spec fn is_longest_utf8_prefix(buf: Seq<u8>, u: int) -> bool {
    &&& 0 <= u <= buf.len()
    &&& valid_utf8(buf.take(u))
    &&& forall|m: int| u < m <= buf.len() ==> !valid_utf8(#[trigger] buf.take(m))
}

/// The length of the longest prefix of `buf` that is valid UTF-8.
pub open spec fn utf8_prefix_len(buf: Seq<u8>) -> int {
    choose|u: int| is_longest_utf8_prefix(buf, u)
}

/// There is exactly one longest valid prefix.
pub proof fn lemma_longest_utf8_prefix_unique(buf: Seq<u8>, u: int, v: int)
    requires
        is_longest_utf8_prefix(buf, u),
        is_longest_utf8_prefix(buf, v),
    ensures
        u == v,
{
    if u < v {
        assert(!valid_utf8(buf.take(v)));
    }
    if v < u {
        assert(!valid_utf8(buf.take(u)));
    }
}

proof fn lemma_width_1(b0: u8)
    by (bit_vector)
    requires
        b0 <= 0x7f,
    ensures
        codepoint_width_1(b0) <= 0x7f,
{
}

proof fn lemma_width_2(b0: u8, b1: u8)
    by (bit_vector)
    requires
        0xc0 <= b0 <= 0xdf,
        0x80 <= b1 <= 0xbf,
    ensures
        codepoint_width_2(b0, b1) >= 0x80 <==> b0 >= 0xc2,
        codepoint_width_2(b0, b1) <= 0x7ff,
{
}

proof fn lemma_width_3(b0: u8, b1: u8, b2: u8)
    by (bit_vector)
    requires
        0xe0 <= b0 <= 0xef,
        0x80 <= b1 <= 0xbf,
        0x80 <= b2 <= 0xbf,
    ensures
        codepoint_width_3(b0, b1, b2) >= 0x800 <==> (b0 != 0xe0 || b1 >= 0xa0),
        !(0xd800 <= codepoint_width_3(b0, b1, b2) <= 0xdfff) <==> (b0 != 0xed || b1 <= 0x9f),
{
}

proof fn lemma_width_4(b0: u8, b1: u8, b2: u8, b3: u8)
    by (bit_vector)
    requires
        0xf0 <= b0 <= 0xf7,
        0x80 <= b1 <= 0xbf,
        0x80 <= b2 <= 0xbf,
        0x80 <= b3 <= 0xbf,
    ensures
        0x10000 <= codepoint_width_4(b0, b1, b2, b3) <= 0x10ffff <==> (b0 <= 0xf4 && (b0 != 0xf0
            || b1 >= 0x90) && (b0 != 0xf4 || b1 <= 0x8f)),
{
}

/// `0x80..=0xBF`.
fn is_continuation(b: u8) -> (r: bool)
    ensures
        r == is_continuation_byte(b),
{
    0x80 <= b && b <= 0xBF
}

/// The width in bytes of the well-formed UTF-8 scalar that starts at
/// `buf[i]`, or 0 when none does.
fn scalar_width_at(buf: &[u8], i: usize) -> (w: usize)
    requires
        i < buf.len(),
    ensures
        w == 0 <==> !valid_first_scalar(buf@.skip(i as int)),
        w != 0 ==> w == length_of_first_scalar(buf@.skip(i as int)),
{
    let ghost s = buf@.skip(i as int);
    let rem = buf.len() - i;
    let b0 = buf[i];
    assert(s[0] == b0);
    if b0 <= 0x7F {
        proof {
            lemma_width_1(b0);
        }
        1
    } else if 0xC0 <= b0 && b0 <= 0xDF {
        if rem >= 2 && is_continuation(buf[i + 1]) {
            let b1 = buf[i + 1];
            assert(s[1] == b1);
            proof {
                lemma_width_2(b0, b1);
            }
            if b0 >= 0xC2 {
                2
            } else {
                0
            }
        } else {
            proof {
                if rem >= 2 {
                    assert(s[1] == buf@[i + 1]);
                }
            }
            0
        }
    } else if 0xE0 <= b0 && b0 <= 0xEF {
        if rem >= 3 && is_continuation(buf[i + 1]) && is_continuation(buf[i + 2]) {
            let b1 = buf[i + 1];
            let b2 = buf[i + 2];
            assert(s[1] == b1 && s[2] == b2);
            proof {
                lemma_width_3(b0, b1, b2);
            }
            if (b0 != 0xE0 || b1 >= 0xA0) && (b0 != 0xED || b1 <= 0x9F) {
                3
            } else {
                0
            }
        } else {
            proof {
                if rem >= 3 {
                    assert(s[1] == buf@[i + 1] && s[2] == buf@[i + 2]);
                }
            }
            0
        }
    } else if 0xF0 <= b0 && b0 <= 0xF7 {
        if rem >= 4 && is_continuation(buf[i + 1]) && is_continuation(buf[i + 2]) && is_continuation(
            buf[i + 3],
        ) {
            let b1 = buf[i + 1];
            let b2 = buf[i + 2];
            let b3 = buf[i + 3];
            assert(s[1] == b1 && s[2] == b2 && s[3] == b3);
            proof {
                lemma_width_4(b0, b1, b2, b3);
            }
            if b0 <= 0xF4 && (b0 != 0xF0 || b1 >= 0x90) && (b0 != 0xF4 || b1 <= 0x8F) {
                4
            } else {
                0
            }
        } else {
            proof {
                if rem >= 4 {
                    assert(s[1] == buf@[i + 1] && s[2] == buf@[i + 2] && s[3] == buf@[i + 3]);
                }
            }
            0
        }
    } else {
        0
    }
}

/// A well-formed first scalar stays well-formed, with the same width, when
/// more bytes follow it.
proof fn lemma_first_scalar_extends(r: Seq<u8>, s: Seq<u8>)
    requires
        r.len() <= s.len(),
        forall|j: int| 0 <= j < r.len() ==> r[j] == s[j],
        valid_first_scalar(r),
    ensures
        valid_first_scalar(s),
        length_of_first_scalar(s) == length_of_first_scalar(r),
{
    assert(r[0] == s[0]);
    if r.len() > 1 {
        assert(r[1] == s[1]);
    }
    if r.len() > 2 {
        assert(r[2] == s[2]);
    }
    if r.len() > 3 {
        assert(r[3] == s[3]);
    }
}

/// When both `b[..i]` and a longer `b[..m]` are valid UTF-8, a well-formed
/// scalar starts at `b[i]`.
proof fn lemma_longer_valid_prefix(b: Seq<u8>, i: int, m: int)
    requires
        0 <= i < m <= b.len(),
        valid_utf8(b.take(i)),
        valid_utf8(b.take(m)),
    ensures
        valid_first_scalar(b.skip(i)),
    decreases i,
{
    let s = b.take(m);
    assert(valid_first_scalar(s));
    if i == 0 {
        lemma_first_scalar_extends(s, b.skip(0));
    } else {
        let r = b.take(i);
        assert(valid_first_scalar(r));
        lemma_first_scalar_extends(r, s);
        let k = length_of_first_scalar(r);
        let b2 = b.skip(k);
        assert(pop_first_scalar(r) =~= b2.take(i - k));
        assert(pop_first_scalar(s) =~= b2.take(m - k));
        lemma_longer_valid_prefix(b2, i - k, m - k);
        assert(b2.skip(i - k) =~= b.skip(i));
    }
}

/// Largest `n` such that `buf[..n]` is valid UTF-8 (i.e. does not end
/// partway through a multi-byte codepoint, nor hold an ill-formed byte).
pub fn last_utf8_boundary(buf: &[u8]) -> (n: usize)
    ensures
        is_longest_utf8_prefix(buf@, n as int),
{
    let mut i: usize = 0;
    assert(buf@.take(0) =~= Seq::<u8>::empty());
    while i < buf.len()
        invariant
            i <= buf.len(),
            valid_utf8(buf@.take(i as int)),
        ensures
            i <= buf.len(),
            valid_utf8(buf@.take(i as int)),
            i < buf.len() ==> !valid_first_scalar(buf@.skip(i as int)),
        decreases buf.len() - i,
    {
        let w = scalar_width_at(buf, i);
        if w == 0 {
            break;
        }
        proof {
            partial_valid_utf8_extend(buf@, i as int);
        }
        i = i + w;
    }
    assert forall|m: int| i < m <= buf.len() implies !valid_utf8(#[trigger] buf@.take(m)) by {
        if valid_utf8(buf@.take(m)) {
            lemma_longer_valid_prefix(buf@, i as int, m);
        }
    }
    i
}

} // verus!
