//! Edge cases, exact values and the library's laws on concrete inputs.

use shannon::sentinel::{
    find_complete, safe_flush_boundary, Match, Sentinel, CLOSE, OCTARINE_FORMAT, OPEN, SEP,
};

#[test]
fn delimiters_and_vault_format() {
    assert_eq!(OPEN, '⟦');
    assert_eq!(CLOSE, '⟧');
    assert_eq!(SEP, '·');
    assert_eq!(OCTARINE_FORMAT, "⟦{entity_type}·{index}⟧");
}

#[test]
fn new_keeps_its_parts() {
    let s = Sentinel::new("PRIVATE_KEY", "ff09");
    assert_eq!(s.entity_type, "PRIVATE_KEY");
    assert_eq!(s.id, "ff09");
    assert_eq!(s.render(), "⟦PRIVATE_KEY·ff09⟧");
    // Owned strings are taken as they are.
    let owned = Sentinel::new(String::from("SSN"), "4f2a".to_string());
    assert_eq!(owned, Sentinel::new("SSN", "4f2a"));
    assert_eq!(owned.render(), "⟦SSN·4f2a⟧");
}

#[test]
fn render_of_any_parts_is_the_plain_concatenation() {
    // `render` does not check the grammar; it spells out the surface form.
    assert_eq!(Sentinel::new("", "").render(), "⟦·⟧");
    assert_eq!(Sentinel::new("ab", "XYZ").render(), "⟦ab·XYZ⟧");
}

#[test]
fn render_then_find_gives_back_one_full_span() {
    for (t, i) in [("SSN", "0"), ("API_KEY2", "deadbeef"), ("A", "9"), ("X_1_", "00")] {
        let s = Sentinel::new(t, i);
        let text = s.render();
        let found = find_complete(&text);
        assert_eq!(
            found,
            vec![Match { start: 0, end: text.len(), sentinel: s.clone() }]
        );
    }
}

#[test]
fn find_reports_byte_offsets_and_parsed_parts() {
    let text = "é⟦CARD·7⟧";
    let found = find_complete(text);
    assert_eq!(found.len(), 1);
    assert_eq!(found[0].start, 2);
    assert_eq!(found[0].end, text.len());
    assert_eq!(found[0].end - found[0].start, 13);
    assert_eq!(found[0].sentinel.entity_type, "CARD");
    assert_eq!(found[0].sentinel.id, "7");
}

#[test]
fn find_on_empty_and_plain_text() {
    assert!(find_complete("").is_empty());
    assert!(find_complete("⟦").is_empty());
    assert!(find_complete("⟦⟧").is_empty());
    assert!(find_complete("⟦A·0⟧").len() == 1);
}

#[test]
fn restart_after_false_open() {
    // An opening that cannot complete does not hide a token right after it.
    let found = find_complete("⟦A⟦B·1⟧");
    assert_eq!(found.len(), 1);
    assert_eq!(found[0].start, 4);
    assert_eq!(found[0].sentinel, Sentinel::new("B", "1"));
}

#[test]
fn matches_are_ordered_and_disjoint() {
    let text = "⟦A·1⟧⟦B·2⟧ ⟦C·3⟧";
    let found = find_complete(text);
    assert_eq!(found.len(), 3);
    for w in found.windows(2) {
        assert!(w[0].end <= w[1].start);
    }
    for m in &found {
        assert_eq!(&text[m.start..m.end], m.sentinel.render());
    }
}

#[test]
fn flush_of_empty_buffer() {
    assert_eq!(safe_flush_boundary(b""), 0);
}

#[test]
fn flush_holds_from_a_lone_first_byte() {
    assert_eq!(safe_flush_boundary(&[b'a', 0xE2]), 1);
}

#[test]
fn flush_stops_at_an_ill_formed_byte() {
    // 0xFF is never valid UTF-8: the released prefix ends before it.
    assert_eq!(safe_flush_boundary(b"ab\xFFcd"), 2);
    // A stray continuation byte.
    assert_eq!(safe_flush_boundary(b"\x80abc"), 0);
    // An overlong encoding of '/'.
    assert_eq!(safe_flush_boundary(b"x\xC0\xAF"), 1);
    // An encoded surrogate.
    assert_eq!(safe_flush_boundary(b"x\xED\xA0\x80"), 1);
    // Above U+10FFFF.
    assert_eq!(safe_flush_boundary(b"x\xF4\x90\x80\x80"), 1);
}

#[test]
fn flush_releases_complete_multibyte_text() {
    let text = "ünïcødé ⟦SSN·1⟧ 𝄞";
    assert_eq!(safe_flush_boundary(text.as_bytes()), text.len());
    // Cut inside the four-byte clef: only the clef's bytes are held.
    let cut = &text.as_bytes()[..text.len() - 2];
    assert_eq!(safe_flush_boundary(cut), text.len() - 4);
}

#[test]
fn flush_holds_the_first_of_two_live_starts() {
    // Both the unclosed token and the trailing partial `⟦` are live; the first
    // one decides.
    let mut buf = "ok ⟦A·0".as_bytes().to_vec();
    buf.extend_from_slice(&[0xE2, 0x9F]);
    assert_eq!(safe_flush_boundary(&buf), 3);
}

#[test]
fn rescanning_a_released_prefix_may_hold_again() {
    // `⟦A` followed by the first byte of another `⟦` cannot complete, so the
    // first token is released; on its own, though, the released `⟦A` is
    // again a live prefix. No byte of a token that later completes is ever
    // released: the second token is held from its first byte.
    let text = "⟦A⟦SSN·0⟧";
    let head = &text.as_bytes()[..5];
    let n = safe_flush_boundary(head);
    assert_eq!(n, 4);
    assert_eq!(safe_flush_boundary(&head[..n]), 0);
    let rest = &text.as_bytes()[n..];
    assert_eq!(safe_flush_boundary(rest), rest.len());
    let found = find_complete(text);
    assert_eq!(found.len(), 1);
    assert_eq!(found[0].start, 4);
}

#[test]
fn flush_releases_a_complete_token_at_the_very_end() {
    let buf = "⟦SSN·0⟧".as_bytes();
    assert_eq!(safe_flush_boundary(buf), buf.len());
    // One byte short of the close: all of it is held.
    assert_eq!(safe_flush_boundary(&buf[..buf.len() - 1]), 0);
}

#[test]
fn matches_start_and_end_on_char_boundaries() {
    let text = "é⟦CARD·7⟧ñ⟦A_1·0f⟧𝄞";
    let found = find_complete(text);
    assert_eq!(found.len(), 2);
    for m in &found {
        assert!(m.start < m.end && m.end <= text.len());
        assert!(text.is_char_boundary(m.start));
        assert!(text.is_char_boundary(m.end));
    }
    assert_eq!((found[1].start, found[1].end), (17, 30));
}

#[test]
fn finding_in_a_joined_text_after_a_full_release() {
    let x = "a ⟦SSN·0⟧ b ⟦";
    let x = &x[..x.len() - "⟦".len()];
    let y = "⟦EMAIL·1⟧ c ⟦CARD·2⟧";
    assert_eq!(safe_flush_boundary(x.as_bytes()), x.len());
    let joined = format!("{x}{y}");
    let mut expected = find_complete(x);
    for m in find_complete(y) {
        expected.push(Match { start: m.start + x.len(), end: m.end + x.len(), sentinel: m.sentinel });
    }
    assert_eq!(find_complete(&joined), expected);
    assert_eq!(expected.len(), 3);
}
