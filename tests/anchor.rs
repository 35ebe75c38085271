use taboc::anchor::{make_link, utf8_of};

#[test]
fn percent_encode() {
    assert_eq!(taboc::anchor::percent_encode('\u{1F601}'), "%F0%9F%98%81");
    assert_eq!(taboc::anchor::percent_encode('\u{264A}'), "%E2%99%8A");
    assert_eq!(taboc::anchor::percent_encode('\u{23F3}'), "%E2%8F%B3");
    assert_eq!(taboc::anchor::percent_encode('\u{274C}'), "%E2%9D%8C");
    assert_eq!(taboc::anchor::percent_encode('\u{23EA}'), "%E2%8F%AA");
    assert_eq!(taboc::anchor::percent_encode('\u{26EA}'), "%E2%9B%AA");
    assert_eq!(taboc::anchor::percent_encode('\u{27E3}'), "%E2%9F%A3");
    assert_eq!(taboc::anchor::percent_encode('\u{26DF}'), "%E2%9B%9F");
}

#[test]
fn percent_encode_eighth_note() {
    assert_eq!(taboc::anchor::percent_encode('\u{266A}'), "%E2%99%AA");
}

#[test]
fn percent_encode_two_byte_and_ascii() {
    assert_eq!(taboc::anchor::percent_encode('\u{A9}'), "%C2%A9");
    assert_eq!(taboc::anchor::percent_encode('a'), "%61");
    assert_eq!(taboc::anchor::percent_encode('\u{0}'), "%00");
}

#[test]
fn utf8_matches_std() {
    for c in ['a', '\u{7F}', '\u{80}', '\u{7FF}', '\u{800}', '\u{FFFF}', '\u{10000}', '\u{10FFFF}', '\u{1F601}'] {
        let mut buf = [0u8; 4];
        assert_eq!(utf8_of(c), c.encode_utf8(&mut buf).as_bytes().to_vec());
    }
}

#[test]
fn anchor_lowercases_and_hyphenates() {
    assert_eq!(make_link("Heading Two Number 2"), "heading-two-number-2");
    assert_eq!(make_link("Test"), "test");
}

#[test]
fn anchor_drops_ignored_characters() {
    assert_eq!(make_link("Heading Two #2"), "heading-two-2");
    assert_eq!(make_link("What's new? (v1.0)"), "whats-new-v10");
    assert_eq!(make_link("a+b:c;d.e,f{g}h\"i@j>k<l[m]n|o/p!q$r*s=t&u~v"), "abcdefghijklmnopqrstuv");
}

#[test]
fn anchor_keeps_other_ascii() {
    assert_eq!(make_link("snake_case-name `code`"), "snake_case-name-`code`");
}

#[test]
fn anchor_lowercases_non_ascii_uppercase() {
    assert_eq!(make_link("\u{C9}cole"), "\u{E9}cole");
    assert_eq!(make_link("\u{130}"), "i\u{307}");
}

#[test]
fn anchor_keeps_non_ascii_letters() {
    assert_eq!(make_link("\u{E9}t\u{E9}"), "\u{E9}t\u{E9}");
    assert_eq!(make_link("\u{65E5}\u{672C}"), "\u{65E5}\u{672C}");
}

#[test]
fn anchor_percent_encodes_symbols() {
    assert_eq!(make_link("Party \u{1F601}"), "party-%F0%9F%98%81");
    assert_eq!(make_link("\u{264A}"), "%E2%99%8A");
}

#[test]
fn anchor_is_deterministic() {
    let t = "Some \u{C9}l\u{E8}ve \u{2713} Heading";
    assert_eq!(make_link(t), make_link(t));
}
