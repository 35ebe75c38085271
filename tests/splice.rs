use taboc::splice::{locate, splice, TabocError};
use taboc::toc::Taboc;

fn toc_for(doc: &str) -> String {
    let lines: Vec<String> = doc.lines().map(|l| l.to_string()).collect();
    Taboc::new(6).parse(&lines)
}

const DOC: &str = "# Title\n\nIntro text.\n\n## First\n\nBody.\n\n## Second\n";

#[test]
fn inserts_before_first_second_level_heading() {
    let toc = toc_for(DOC);
    let out = splice(DOC.as_bytes(), toc.as_bytes(), false).ok().unwrap();
    let expected = "# Title\n\nIntro text.\n\n## Table of contents\n\n- [Title](#title)\n  - [First](#first)\n  - [Second](#second)\n\n## First\n\nBody.\n\n## Second\n";
    assert_eq!(String::from_utf8(out).unwrap(), expected);
}

#[test]
fn locate_reports_the_insertion_point() {
    assert_eq!(locate(DOC.as_bytes(), false).ok(), Some((20, 20)));
}

#[test]
fn already_present_without_update_is_refused() {
    let toc = toc_for(DOC);
    let once = splice(DOC.as_bytes(), toc.as_bytes(), false).ok().unwrap();
    let again = splice(&once, toc.as_bytes(), false);
    assert!(matches!(again, Err(TabocError::AlreadyPresent)));
    assert!(matches!(locate(&once, false), Err(TabocError::AlreadyPresent)));
}

#[test]
fn update_is_idempotent() {
    let toc = toc_for(DOC);
    let once = splice(DOC.as_bytes(), toc.as_bytes(), false).ok().unwrap();
    let twice = splice(&once, toc.as_bytes(), true).ok().unwrap();
    assert_eq!(once, twice);
    let thrice = splice(&twice, toc.as_bytes(), true).ok().unwrap();
    assert_eq!(once, thrice);
}

#[test]
fn update_replaces_an_outdated_table() {
    let old_toc = toc_for("# Title\n## First\n");
    let once = splice(DOC.as_bytes(), old_toc.as_bytes(), false).ok().unwrap();
    let new_toc = toc_for(DOC);
    let updated = splice(&once, new_toc.as_bytes(), true).ok().unwrap();
    let direct = splice(DOC.as_bytes(), new_toc.as_bytes(), false).ok().unwrap();
    assert_eq!(updated, direct);
}

#[test]
fn update_span_covers_the_old_block() {
    let toc = toc_for(DOC);
    let once = splice(DOC.as_bytes(), toc.as_bytes(), false).ok().unwrap();
    let (s, e) = locate(&once, true).ok().unwrap();
    assert_eq!(s, 20);
    assert_eq!(e, 20 + toc.len());
}

#[test]
fn crlf_table_heading_is_detected() {
    let doc = "# T\r\n\r\n## Table of contents\r\n\r\n- [T](#t)\r\n\r\n## A\r\n";
    assert!(matches!(splice(doc.as_bytes(), b"X", false), Err(TabocError::AlreadyPresent)));
    let out = splice(doc.as_bytes(), b"X", true).ok().unwrap();
    assert_eq!(String::from_utf8(out).unwrap(), "# T\r\nX\r\n\r\n## A\r\n");
}

#[test]
fn table_heading_without_terminator_is_detected() {
    let doc = "# T\n\n## Table of contents";
    assert!(matches!(splice(doc.as_bytes(), b"X", false), Err(TabocError::AlreadyPresent)));
}

#[test]
fn other_second_level_heading_is_an_insertion() {
    let doc = "# T\n\n## Table of contents and more\n";
    let out = splice(doc.as_bytes(), b"X", false).ok().unwrap();
    assert_eq!(String::from_utf8(out).unwrap(), "# TX\n\n## Table of contents and more\n");
}

#[test]
fn no_second_level_heading_appends() {
    let doc = "# T\n\ntext\n";
    let out = splice(doc.as_bytes(), b"X", false).ok().unwrap();
    assert_eq!(String::from_utf8(out).unwrap(), "# T\n\ntext\nX");
    assert_eq!(locate(doc.as_bytes(), false).ok(), Some((10, 10)));
}

#[test]
fn empty_document() {
    let out = splice(b"", b"X", true).ok().unwrap();
    assert_eq!(out, b"X".to_vec());
}

#[test]
fn heading_on_first_line_inserts_at_start() {
    let doc = "## A\n";
    assert_eq!(locate(doc.as_bytes(), false).ok(), Some((0, 0)));
    let out = splice(doc.as_bytes(), b"X", false).ok().unwrap();
    assert_eq!(String::from_utf8(out).unwrap(), "X## A\n");
}

#[test]
fn hash_inside_a_line_is_not_a_heading_start() {
    let doc = "a ## b\n\n## C\n";
    assert_eq!(locate(doc.as_bytes(), false).ok(), Some((6, 6)));
}

#[test]
fn table_at_end_of_document_is_replaced_to_the_end() {
    let doc = "# T\n\n## Table of contents\n\n- [T](#t)";
    let out = splice(doc.as_bytes(), b"\n\nNEW", true).ok().unwrap();
    assert_eq!(String::from_utf8(out).unwrap(), "# T\n\nNEW");
}

#[test]
fn bytes_outside_the_span_are_kept() {
    let doc = "\u{E9}t\u{E9}\n\n## \u{1F601}\n\u{FF}tail";
    let (s, e) = locate(doc.as_bytes(), false).ok().unwrap();
    let out = splice(doc.as_bytes(), b"NEW", false).ok().unwrap();
    assert_eq!(&out[..s], &doc.as_bytes()[..s]);
    assert_eq!(&out[s..s + 3], b"NEW");
    assert_eq!(&out[s + 3..], &doc.as_bytes()[e..]);
}

#[test]
fn error_message_names_the_condition() {
    assert!(TabocError::AlreadyPresent.message().contains("already a table of contents"));
}

#[test]
fn update_with_an_empty_table_is_idempotent() {
    let toc = toc_for("no headings here\n");
    assert_eq!(toc, "\n\n## Table of contents\n");
    let once = splice(DOC.as_bytes(), toc.as_bytes(), false).ok().unwrap();
    let twice = splice(&once, toc.as_bytes(), true).ok().unwrap();
    assert_eq!(once, twice);
}

#[test]
fn update_without_blank_line_before_heading_drifts() {
    let doc = "intro\n## A\n";
    let toc = toc_for(doc);
    let once = splice(doc.as_bytes(), toc.as_bytes(), false).ok().unwrap();
    assert_eq!(String::from_utf8(once.clone()).unwrap(), "intr\n\n## Table of contents\n\n  - [A](#a)o\n## A\n");
    let twice = splice(&once, toc.as_bytes(), true).ok().unwrap();
    assert_eq!(String::from_utf8(twice).unwrap(), "intr\n\n## Table of contents\n\n  - [A](#a)\n## A\n");
}

#[test]
fn update_keeps_blank_lines_of_any_length() {
    let doc = "# T\n\n## Table of contents\n\n- [T](#t)\n  \n## A\n";
    let out = splice(doc.as_bytes(), b"NEW", true).ok().unwrap();
    assert_eq!(String::from_utf8(out).unwrap(), "# TNEW\n  \n## A\n");
}

#[test]
fn update_after_space_only_blank_line_is_idempotent() {
    let doc = "# Title\n\nIntro.\n\n## Table of contents\n\n- [Old](#old)\n \t\n## First\n";
    let toc = toc_for("# Title\n## First\n");
    let once = splice(doc.as_bytes(), toc.as_bytes(), true).ok().unwrap();
    assert_eq!(
        String::from_utf8(once.clone()).unwrap(),
        "# Title\n\nIntro.\n\n## Table of contents\n\n- [Title](#title)\n  - [First](#first)\n \t\n## First\n"
    );
    let twice = splice(&once, toc.as_bytes(), true).ok().unwrap();
    assert_eq!(once, twice);
}
