//! A source document as the renderer sees it: its already-read text and the
//! name parts of its path, all plain values. Reading the file itself is the
//! surrounding program's work.

use vstd::prelude::*;

use crate::markdown_parser::{markdown_html, render_markdown};
use crate::template_file::{
    body_token, page_of, render_page, replace_all, split_raw_text, stylesheet_token, title_token,
};
use crate::text::str_eq;

verus! {

/// One source document: content and name parts.
pub struct SourceFile {
    content: String,
    file_name: String,
    file_stem: String,
    ext: String,
}

/// The markdown extension tag.
pub open spec fn md_ext() -> Seq<char> {
    seq!['m', 'd']
}

/// The plain-text extension tag.
pub open spec fn txt_ext() -> Seq<char> {
    seq!['t', 'x', 't']
}

impl SourceFile {
    /// The document's text.
    pub closed spec fn spec_content(&self) -> Seq<char> {
        self.content@
    }

    /// The file name with its extension.
    pub closed spec fn spec_file_name(&self) -> Seq<char> {
        self.file_name@
    }

    /// The file name without its extension.
    pub closed spec fn spec_file_stem(&self) -> Seq<char> {
        self.file_stem@
    }

    /// The lowercase extension tag.
    pub closed spec fn spec_ext(&self) -> Seq<char> {
        self.ext@
    }

    /// Carries an already-read document with its name parts.
    pub fn new(content: String, file_name: String, file_stem: String, ext: String) -> (r:
        SourceFile)
        ensures
            r.spec_content() == content@,
            r.spec_file_name() == file_name@,
            r.spec_file_stem() == file_stem@,
            r.spec_ext() == ext@,
    {
        SourceFile { content, file_name, file_stem, ext }
    }

    /// The document's text.
    pub fn content(&self) -> (r: &str)
        ensures
            r@ == self.spec_content(),
    {
        self.content.as_str()
    }

    /// The file name without its extension.
    pub fn file_stem(&self) -> (r: &str)
        ensures
            r@ == self.spec_file_stem(),
    {
        self.file_stem.as_str()
    }

    /// The extension tag.
    pub fn ext(&self) -> (r: &str)
        ensures
            r@ == self.spec_ext(),
    {
        self.ext.as_str()
    }

    /// The file name with its extension.
    pub fn file_name(&self) -> (r: &str)
        ensures
            r@ == self.spec_file_name(),
    {
        self.file_name.as_str()
    }
}

/// Renders one source document into a full page, by dialect: the markdown
/// extension routes through the block parser with an empty title, the
/// plain-text extension through the title heuristic, and any other
/// extension is not handled here.
pub fn render_document(file: &SourceFile, template: &str, stylesheet: &str) -> (r: Option<String>)
    ensures
        file.spec_ext() == md_ext() ==> (r matches Some(page) && page@ == replace_all(
            replace_all(
                replace_all(template@, title_token(), Seq::<char>::empty()),
                body_token(),
                markdown_html(file.spec_content()),
            ),
            stylesheet_token(),
            stylesheet@,
        )),
        file.spec_ext() == txt_ext() ==> (r matches Some(page) && page@ == page_of(
            template@,
            file.spec_content(),
            stylesheet@,
        )),
        file.spec_ext() != md_ext() && file.spec_ext() != txt_ext() ==> r is None,
{
    proof {
        reveal_strlit("md");
        reveal_strlit("txt");
        reveal_strlit("");
        assert("md"@ =~= md_ext());
        assert("txt"@ =~= txt_ext());
        assert(""@ =~= Seq::<char>::empty());
    }
    if str_eq(file.ext(), "md") {
        let body = render_markdown(file.content());
        Some(render_page(template, "", body.as_str(), stylesheet))
    } else if str_eq(file.ext(), "txt") {
        let split = split_raw_text(file.content());
        Some(render_page(template, split.0.as_str(), split.1.as_str(), stylesheet))
    } else {
        None
    }
}

} // verus!
