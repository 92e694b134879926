use paper::arg_parser::ArgParser;
use paper::template_file::{
    Template, TemplateState, parse_body, render_page, split_raw_text,
};

#[test]
fn raw_text_with_two_blank_lines_has_a_title() {
    let (title, body) = split_raw_text("Title\n\n\nBody line");
    assert_eq!(title, "Title");
    assert_eq!(body, "<h1>Title</h1><p>Body line</p>");
}

#[test]
fn raw_text_without_blank_pair_has_no_title() {
    let (title, body) = split_raw_text("Line one\nLine two");
    assert_eq!(title, "");
    assert_eq!(body, "<p>Line one</p><p>Line two</p>");
}

#[test]
fn one_blank_line_is_no_title_marker() {
    let (title, body) = split_raw_text("Title\n\nBody line");
    assert_eq!(title, "");
    assert_eq!(body, "<p>Title</p><p>Body line</p>");
}

#[test]
fn surrounding_whitespace_is_trimmed_before_the_walk() {
    let (title, body) = split_raw_text("\n\n\nTitle\n\n\nBody\n\n");
    assert_eq!(title, "Title");
    assert_eq!(body, "<h1>Title</h1><p>Body</p>");
}

#[test]
fn empty_raw_text_yields_one_empty_paragraph() {
    let (title, body) = split_raw_text("");
    assert_eq!(title, "");
    assert_eq!(body, "<p></p>");
}

#[test]
fn parse_body_wraps_a_paragraph() {
    assert_eq!(parse_body("words"), "<p>words</p>");
    assert_eq!(parse_body(""), "<p></p>");
}

#[test]
fn render_page_substitutes_all_three_tokens() {
    let page = render_page(
        "<title>$TITLE</title>$STYLESHEET_URL<body>$BODY</body>",
        "T",
        "<p>B</p>",
        "style.css",
    );
    assert_eq!(page, "<title>T</title>style.css<body><p>B</p></body>");
}

#[test]
fn absent_token_substitution_is_a_no_op() {
    let page = render_page("no tokens here", "T", "B", "S");
    assert_eq!(page, "no tokens here");
}

#[test]
fn substitution_is_order_independent_on_disjoint_tokens() {
    let template = "A $TITLE B $BODY C $STYLESHEET_URL";
    let page = render_page(template, "t", "b", "s");
    let title_first = template
        .replace("$TITLE", "t")
        .replace("$BODY", "b")
        .replace("$STYLESHEET_URL", "s");
    let body_first = template
        .replace("$BODY", "b")
        .replace("$STYLESHEET_URL", "s")
        .replace("$TITLE", "t");
    assert_eq!(page, title_first);
    assert_eq!(page, body_first);
}

#[test]
fn substitution_is_a_single_pass_per_token() {
    let page = render_page("$TITLE", "$TITLE again", "b", "s");
    assert_eq!(page, "$TITLE again");
}

#[test]
fn repeated_tokens_are_all_replaced() {
    let page = render_page("$BODY$BODY", "", "x", "");
    assert_eq!(page, "xx");
}

#[test]
fn template_parse_fills_the_page() {
    let args = ArgParser::new(
        String::from("dist"),
        String::from("asset/style.css"),
        vec![String::from("a.txt")],
    );
    let mut template = Template::new(String::from(
        "<title>$TITLE</title><link href='$STYLESHEET_URL'/><body>$BODY</body>",
    ));
    assert!(matches!(template.state(), TemplateState::RAW));
    template.parse("Title\n\n\nBody line", &args);
    assert!(matches!(template.state(), TemplateState::PARSED));
    assert_eq!(
        template.content(),
        "<title>Title</title><link href='asset/style.css'/><body><h1>Title</h1><p>Body line</p></body>"
    );
}

#[test]
fn arg_parser_hands_back_its_values() {
    let args = ArgParser::new(
        String::from("out"),
        String::from("https://example.test/style.css"),
        vec![String::from("one.md"), String::from("two.txt")],
    );
    assert_eq!(args.dist_dir(), "out");
    assert_eq!(args.stylesheet(), "https://example.test/style.css");
    assert_eq!(args.input_paths(), vec![
        String::from("one.md"),
        String::from("two.txt")
    ]);
}
