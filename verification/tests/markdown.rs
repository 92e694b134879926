use paper::markdown_parser::{BlockElement, MarkdownDocument, render_markdown};

#[test]
fn heading_levels_one_through_six() {
    for level in 1..=6 {
        let line = format!("{} Title", "#".repeat(level));
        let expected = format!("<h{level}>Title</h{level}>");
        assert_eq!(render_markdown(&line), expected);
    }
}

#[test]
fn seven_hashes_render_as_paragraph() {
    assert_eq!(render_markdown("####### Title"), "<p>####### Title</p>");
    assert_eq!(render_markdown("########x"), "<p>########x</p>");
}

#[test]
fn trailing_hash_run_is_stripped() {
    assert_eq!(render_markdown("### Title ###"), "<h3>Title</h3>");
}

#[test]
fn no_space_after_hashes_is_paragraph() {
    assert_eq!(render_markdown("###Title"), "<p>###Title</p>");
}

#[test]
fn adjacent_lines_merge_into_one_paragraph() {
    assert_eq!(render_markdown("a\nb"), "<p>a b</p>");
}

#[test]
fn blank_line_closes_paragraph() {
    assert_eq!(render_markdown("a\n\nb"), "<p>a</p><p>b</p>");
}

#[test]
fn empty_input_renders_nothing() {
    assert_eq!(render_markdown(""), "");
}

#[test]
fn up_to_three_leading_spaces_allow_a_heading() {
    assert_eq!(render_markdown("   # Indented"), "<h1>Indented</h1>");
    assert_eq!(render_markdown("    # Indented"), "<p># Indented</p>");
}

#[test]
fn bare_hash_is_an_empty_heading() {
    assert_eq!(render_markdown("#"), "<h1></h1>");
    assert_eq!(render_markdown("# "), "<h1></h1>");
}

#[test]
fn heading_closes_open_paragraph() {
    assert_eq!(
        render_markdown("text\n## Head\nmore"),
        "<p>text</p><h2>Head</h2><p>more</p>"
    );
}

#[test]
fn paragraph_lines_are_trimmed() {
    assert_eq!(render_markdown("  spaced  \n  out  "), "<p>spaced out</p>");
}

#[test]
fn carriage_returns_are_line_endings() {
    assert_eq!(render_markdown("a\r\nb\r\n"), "<p>a b</p>");
}

#[test]
fn rendering_twice_is_byte_identical() {
    let mut document = MarkdownDocument::new();
    for line in "# One\ntwo\nthree\n\nfour".lines() {
        document.add_line_to_document(line);
    }
    let first = document.print();
    let second = document.print();
    assert_eq!(first, second);
    assert_eq!(first, "<h1>One</h1><p>two three</p><p>four</p>");

    let again = render_markdown("# One\ntwo\nthree\n\nfour");
    assert_eq!(first, again);
}

#[test]
fn block_element_classification() {
    let heading = BlockElement::from("## Head");
    assert!(heading.as_ref().is_some_and(|b| b.is_heading()));

    let paragraph = BlockElement::from("plain text");
    assert!(paragraph.as_ref().is_some_and(|b| !b.is_heading()));

    let blank = BlockElement::from("   \t ");
    assert!(blank.is_none());
}

#[test]
fn block_element_prints_its_html() {
    let heading = BlockElement::from("### Some title").unwrap();
    assert_eq!(heading.print(), "<h3>Some title</h3>");

    let paragraph = BlockElement::from("  a line ").unwrap();
    assert_eq!(paragraph.print(), "<p>a line</p>");
}

#[test]
fn merge_joins_two_paragraphs() {
    let mut first = BlockElement::from("one").unwrap();
    let second = BlockElement::from("two").unwrap();
    first.merge(second);
    assert_eq!(first.print(), "<p>one two</p>");
}

#[test]
fn merge_leaves_a_heading_alone() {
    let mut heading = BlockElement::from("# Head").unwrap();
    let paragraph = BlockElement::from("text").unwrap();
    heading.merge(paragraph);
    assert_eq!(heading.print(), "<h1>Head</h1>");
}
