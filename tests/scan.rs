use taboc::toc::{classify, make_line, render_toc, scan_lines, Heading, Taboc};

fn lines(text: &str) -> Vec<String> {
    text.lines().map(|l| l.to_string()).collect()
}

fn mock_readme() -> Vec<String> {
    lines(
        "# Test

Some text.

## Heading Two

### Heading Three

```rust
# not a heading
## Not a heading either
```

#### Heading Four

##### Heading Five

##NoSpace
#

## Heading Two Number 2

### Heading Three Number 2

### Heading Three Number 3

#### Heading Four Number 2

##### Heading Five Number 2

##### Heading Five Number 3

#### Heading Four Number 3

## Heading Two Number 3
",
    )
}

#[test]
fn test_mock_input_file() {
    let expected = "

## Table of contents

- [Test](#test)
  - [Heading Two](#heading-two)
    - [Heading Three](#heading-three)
      - [Heading Four](#heading-four)
        - [Heading Five](#heading-five)
  - [Heading Two Number 2](#heading-two-number-2)
    - [Heading Three Number 2](#heading-three-number-2)
    - [Heading Three Number 3](#heading-three-number-3)
      - [Heading Four Number 2](#heading-four-number-2)
        - [Heading Five Number 2](#heading-five-number-2)
        - [Heading Five Number 3](#heading-five-number-3)
      - [Heading Four Number 3](#heading-four-number-3)
  - [Heading Two Number 3](#heading-two-number-3)";

    assert_eq!(expected, Taboc::new(6).parse(&mock_readme()));
}

#[test]
fn level_six_is_kept_at_depth_six() {
    let doc = lines("###### Six");
    assert_eq!(
        Taboc::new(6).parse(&doc),
        "\n\n## Table of contents\n\n          - [Six](#six)"
    );
    assert_eq!(Taboc::new(5).parse(&doc), "\n\n## Table of contents\n");
}

#[test]
fn parse_is_deterministic() {
    let doc = mock_readme();
    assert_eq!(Taboc::new(6).parse(&doc), Taboc::new(6).parse(&doc));
}

#[test]
fn empty_document_gives_header_only() {
    assert_eq!(Taboc::new(6).parse(&Vec::new()), "\n\n## Table of contents\n");
}

#[test]
fn streaming_matches_parse() {
    let doc = mock_readme();
    let mut t = Taboc::new(6);
    for l in &doc {
        t.push_line(l);
    }
    assert_eq!(t.finish(), Taboc::new(6).parse(&doc));
}

#[test]
fn depth_filter_drops_deeper_levels() {
    let doc = lines("# A\n## B\n### C");
    assert_eq!(
        Taboc::new(2).parse(&doc),
        "\n\n## Table of contents\n\n- [A](#a)\n  - [B](#b)"
    );
    assert_eq!(Taboc::new(0).parse(&doc), "\n\n## Table of contents\n");
}

#[test]
fn unclosed_fence_hides_the_rest() {
    let doc = lines("# A\n```\n# B\n## C");
    assert_eq!(Taboc::new(6).parse(&doc), "\n\n## Table of contents\n\n- [A](#a)");
}

#[test]
fn closed_fence_resumes_scanning() {
    let doc = lines("```\n# Hidden\n```\n# Shown");
    assert_eq!(
        Taboc::new(6).parse(&doc),
        "\n\n## Table of contents\n\n- [Shown](#shown)"
    );
}

#[test]
fn toc_heading_is_not_listed() {
    let doc = lines("# A\n## Table of contents\n## B");
    assert_eq!(
        Taboc::new(6).parse(&doc),
        "\n\n## Table of contents\n\n- [A](#a)\n  - [B](#b)"
    );
}

#[test]
fn classify_rules() {
    let h = classify("##   Spaced  ", 6).unwrap();
    assert_eq!(h.level, 2);
    assert_eq!(h.text, "Spaced  ");
    assert!(classify("##NoSpace", 6).is_none());
    assert!(classify("## ", 6).is_none());
    assert!(classify("##    ", 6).is_none());
    assert!(classify("####### Seven", 6).is_none());
    assert!(classify("### Three", 2).is_none());
    assert!(classify("## Table of contents", 6).is_none());
    assert!(classify("Plain", 6).is_none());
    assert_eq!(classify("# \u{C9}t\u{E9}", 1).unwrap().text, "\u{C9}t\u{E9}");
}

#[test]
fn make_line_indents_by_level() {
    assert_eq!(make_line(1, "Test"), "- [Test](#test)\n");
    assert_eq!(make_line(3, "Heading Three"), "    - [Heading Three](#heading-three)\n");
}

#[test]
fn scanner_and_renderer_compose_to_parse() {
    let doc = mock_readme();
    let hs = scan_lines(&doc, 6);
    assert_eq!(hs.len(), 13);
    assert_eq!(hs[0].level, 1);
    assert_eq!(hs[0].text, "Test");
    assert_eq!(render_toc(&hs), Taboc::new(6).parse(&doc));
}

#[test]
fn scanner_skips_fenced_lines() {
    let hs = scan_lines(&lines("```
# In
```
## Out
```
# Open"), 6);
    assert_eq!(hs.len(), 1);
    assert_eq!(hs[0].level, 2);
    assert_eq!(hs[0].text, "Out");
}

#[test]
fn renderer_of_no_headings() {
    assert_eq!(render_toc(&Vec::new()), "\n\n## Table of contents\n");
}

#[test]
fn renderer_indents_two_spaces_per_level() {
    let hs = vec![
        Heading { level: 1, text: "A".to_string() },
        Heading { level: 3, text: "B c".to_string() },
    ];
    assert_eq!(
        render_toc(&hs),
        "\n\n## Table of contents\n\n- [A](#a)\n    - [B c](#b-c)"
    );
}

#[test]
fn closed_fence_hides_second_level_heading() {
    let doc = lines("# Top\n```\n## Hidden\n```\n## Shown");
    let out = Taboc::new(2).parse(&doc);
    assert!(!out.contains("  - [Hidden](#hidden)"));
    assert!(out.contains("  - [Shown](#shown)"));
}

#[test]
fn level_past_depth_is_absent_not_renested() {
    let doc = lines("# A\n### Deep\n## B");
    let out = Taboc::new(2).parse(&doc);
    assert!(!out.contains("Deep"));
    assert!(out.lines().all(|l| !l.starts_with("    - [")));
    assert!(out.contains("\n  - [B](#b)"));
}
