use paper::source_file::{SourceFile, render_document};
use paper::text::{trim_end_at_most, trim_start_at_most};

#[test]
fn source_file_hands_back_its_parts() {
    let file = SourceFile::new(
        String::from("# Hello"),
        String::from("post.md"),
        String::from("post"),
        String::from("md"),
    );
    assert_eq!(file.content(), "# Hello");
    assert_eq!(file.file_name(), "post.md");
    assert_eq!(file.file_stem(), "post");
    assert_eq!(file.ext(), "md");
}

#[test]
fn markdown_documents_route_through_the_block_parser() {
    let file = SourceFile::new(
        String::from("# Hello\nworld"),
        String::from("post.md"),
        String::from("post"),
        String::from("md"),
    );
    let page = render_document(&file, "[$TITLE][$BODY][$STYLESHEET_URL]", "s.css");
    assert_eq!(page.unwrap(), "[][<h1>Hello</h1><p>world</p>][s.css]");
}

#[test]
fn plain_text_documents_route_through_the_heuristic() {
    let file = SourceFile::new(
        String::from("Hello\n\n\nworld"),
        String::from("note.txt"),
        String::from("note"),
        String::from("txt"),
    );
    let page = render_document(&file, "[$TITLE][$BODY][$STYLESHEET_URL]", "s.css");
    assert_eq!(page.unwrap(), "[Hello][<h1>Hello</h1><p>world</p>][s.css]");
}

#[test]
fn other_extensions_are_not_handled() {
    let file = SourceFile::new(
        String::from("binary"),
        String::from("image.png"),
        String::from("image"),
        String::from("png"),
    );
    assert!(render_document(&file, "$BODY", "s.css").is_none());
}

#[test]
fn trim_start_at_most_stops_at_the_cap() {
    assert_eq!(trim_start_at_most("   abc", ' ', 2), " abc");
    assert_eq!(trim_start_at_most("   abc", ' ', 5), "abc");
    assert_eq!(trim_start_at_most("abc", ' ', 3), "abc");
    assert_eq!(trim_start_at_most("#####x", '#', 3), "##x");
}

#[test]
fn trim_end_at_most_stops_at_the_cap() {
    assert_eq!(trim_end_at_most("abc###", '#', 2), "abc#");
    assert_eq!(trim_end_at_most("abc###", '#', 9), "abc");
    assert_eq!(trim_end_at_most("abc", '#', 3), "abc");
}
