//! The block parser for the minimal markdown dialect: line classification,
//! the incremental document fold, and rendering to HTML.

use vstd::prelude::*;

use crate::text::{
    eq_char, is_space, is_space_char, lemma_prefix_len_facts, lemma_prefix_len_is,
    lemma_split_lines_concat, lemma_split_lines_single, lemma_suffix_len_is, min_int, prefix_len,
    space_pred, spec_trim_start_at_most, split_lines, split_lines_str, suffix_len, trim_end_run,
    trim_end_run_str, trim_end_str, trim_end_ws, trim_start_at_most, trim_start_ws, trim_str,
    trim_ws,
};

verus! {

/// One unit of text inside a block: a run of plain text or a soft break.
pub enum InlineElement {
    Text(String),
    SoftBreak,
}

/// The mathematical value of an inline element.
#[verifier::ext_equal]
pub enum InlineV {
    Text(Seq<char>),
    SoftBreak,
}

impl View for InlineElement {
    type V = InlineV;

    open spec fn view(&self) -> InlineV {
        match self {
            InlineElement::Text(s) => InlineV::Text(s@),
            InlineElement::SoftBreak => InlineV::SoftBreak,
        }
    }
}

/// The values of a sequence of inline elements.
pub open spec fn inlines_view(s: Seq<InlineElement>) -> Seq<InlineV> {
    s.map_values(|e: InlineElement| e@)
}

/// A top-level block of the document: a heading with its level, or a
/// paragraph.
pub enum BlockElement {
    Heading(usize, Vec<InlineElement>),
    Paragraph(Vec<InlineElement>),
}

/// The mathematical value of a block element.
#[verifier::ext_equal]
pub enum BlockV {
    Heading(nat, Seq<InlineV>),
    Paragraph(Seq<InlineV>),
}

impl View for BlockElement {
    type V = BlockV;

    open spec fn view(&self) -> BlockV {
        match self {
            BlockElement::Heading(level, content) => BlockV::Heading(
                *level as nat,
                inlines_view(content@),
            ),
            BlockElement::Paragraph(content) => BlockV::Paragraph(inlines_view(content@)),
        }
    }
}

/// A heading level never leaves 1 through 6.
pub open spec fn block_wf(b: BlockV) -> bool {
    match b {
        BlockV::Heading(level, _) => 1 <= level <= 6,
        BlockV::Paragraph(_) => true,
    }
}

/// What one input line is: a heading with level and text, a paragraph line
/// with its trimmed text, or blank.
#[verifier::ext_equal]
pub enum LineClass {
    Heading { level: nat, content: Seq<char> },
    Paragraph { content: Seq<char> },
    Blank,
}

/// A non-heading line is a paragraph line when something is left after
/// trimming, and blank otherwise.
pub open spec fn text_class(line: Seq<char>) -> LineClass {
    if trim_ws(line).len() == 0 {
        LineClass::Blank
    } else {
        LineClass::Paragraph { content: trim_ws(line) }
    }
}

/// The text of a heading: the part after the `#` run, with surrounding
/// whitespace gone, then a trailing `#` run gone, then trailing whitespace
/// gone again.
pub open spec fn heading_text(after: Seq<char>) -> Seq<char> {
    trim_end_ws(trim_end_run(trim_ws(after), '#'))
}

/// Classifies one line. At most three leading spaces step aside; a run of at
/// most six `#` makes a heading only when nothing or whitespace follows the
/// run; everything else is paragraph text or blank.
pub open spec fn classify(line: Seq<char>) -> LineClass {
    let rest = spec_trim_start_at_most(line, ' ', 3);
    if rest.len() > 0 && rest[0] == '#' {
        let level = min_int(prefix_len(rest, eq_char('#')) as int, 6);
        let after = rest.skip(level);
        if after.len() > 0 && !is_space(after[0]) {
            text_class(line)
        } else {
            LineClass::Heading { level: level as nat, content: heading_text(after) }
        }
    } else {
        text_class(line)
    }
}

/// A classified heading always carries a level between 1 and 6.
proof fn lemma_classify_heading_wf(line: Seq<char>)
    ensures
        match classify(line) {
            LineClass::Heading { level, content } => 1 <= level <= 6,
            _ => true,
        },
{
    let rest = spec_trim_start_at_most(line, ' ', 3);
    if rest.len() > 0 && rest[0] == '#' {
        assert((eq_char('#'))(rest[0]));
        assert(prefix_len(rest, eq_char('#')) >= 1);
    }
}

impl InlineElement {
    /// Renders one inline element: text verbatim, a soft break as a space.
    pub fn print(&self) -> (r: String)
        ensures
            r@ == render_inline(self@),
    {
        match self {
            InlineElement::Text(text) => text.clone(),
            InlineElement::SoftBreak => {
                let r = String::from_str(" ");
                proof {
                    reveal_strlit(" ");
                    assert(r@ =~= seq![' ']);
                }
                r
            },
        }
    }
}

impl BlockElement {
    /// Classifies a line into a block: a heading, a paragraph, or nothing
    /// for a blank line.
    pub fn from(line: &str) -> (r: Option<BlockElement>)
        ensures
            match classify(line@) {
                LineClass::Heading { level, content } => r matches Some(b) && b@ == BlockV::Heading(
                    level,
                    seq![InlineV::Text(content)],
                ),
                LineClass::Paragraph { content } => r matches Some(b) && b@ == BlockV::Paragraph(
                    seq![InlineV::Text(content)],
                ),
                LineClass::Blank => r is None,
            },
            r matches Some(b) ==> block_wf(b@),
    {
        let heading = BlockElement::to_heading(line);
        if heading.is_some() {
            return heading;
        }
        BlockElement::to_paragraph(line)
    }

    /// Reads a line as a heading, when the heading rule accepts it.
    pub fn to_heading(line: &str) -> (r: Option<BlockElement>)
        ensures
            match classify(line@) {
                LineClass::Heading { level, content } => r matches Some(b) && b@ == BlockV::Heading(
                    level,
                    seq![InlineV::Text(content)],
                ),
                _ => r is None,
            },
            r matches Some(b) ==> block_wf(b@),
    {
        let relevant = trim_start_at_most(line, ' ', 3);
        let rn = relevant.unicode_len();
        if rn == 0 || relevant.get_char(0) != '#' {
            return None;
        }
        let after = trim_start_at_most(relevant, '#', 6);
        let an = after.unicode_len();
        proof {
            lemma_prefix_len_facts(relevant@, eq_char('#'));
        }
        let level = rn - an;
        if an != 0 && !is_space_char(after.get_char(0)) {
            return None;
        }
        let t1 = trim_str(after);
        let t2 = trim_end_run_str(t1, '#');
        let t3 = trim_end_str(t2);
        let text = t3.to_owned();
        let mut content: Vec<InlineElement> = Vec::new();
        content.push(InlineElement::Text(text));
        let b = BlockElement::Heading(level, content);
        proof {
            assert((eq_char('#'))(relevant@[0]));
            assert(prefix_len(relevant@, eq_char('#')) >= 1);
            assert(level as int == min_int(prefix_len(relevant@, eq_char('#')) as int, 6));
            assert(t3@ == heading_text(after@));
            assert(inlines_view(content@) =~= seq![InlineV::Text(t3@)]);
            assert(b@ =~= BlockV::Heading(level as nat, seq![InlineV::Text(t3@)]));
        }
        Some(b)
    }

    /// Reads a line as a paragraph: any line with text left after trimming.
    pub fn to_paragraph(line: &str) -> (r: Option<BlockElement>)
        ensures
            match text_class(line@) {
                LineClass::Paragraph { content } => r matches Some(b) && b@ == BlockV::Paragraph(
                    seq![InlineV::Text(content)],
                ),
                _ => r is None,
            },
            r matches Some(b) ==> block_wf(b@),
    {
        let t = trim_str(line);
        if t.unicode_len() == 0 {
            None
        } else {
            let mut content: Vec<InlineElement> = Vec::new();
            content.push(InlineElement::Text(t.to_owned()));
            let b = BlockElement::Paragraph(content);
            proof {
                assert(inlines_view(content@) =~= seq![InlineV::Text(t@)]);
                assert(b@ =~= BlockV::Paragraph(seq![InlineV::Text(t@)]));
            }
            Some(b)
        }
    }

    /// Joins a paragraph onto this one, with a soft break between the two
    /// runs of text. Anything else leaves this block as it stands.
    pub fn merge(&mut self, element: BlockElement)
        ensures
            match (old(self)@, element@) {
                (BlockV::Paragraph(c1), BlockV::Paragraph(c2)) => final(self)@ == BlockV::Paragraph(
                    c1 + seq![InlineV::SoftBreak] + c2,
                ),
                _ => final(self)@ == old(self)@,
            },
    {
        match self {
            BlockElement::Paragraph(original_elements) => {
                match element {
                    BlockElement::Paragraph(new_elements) => {
                        let ghost c1 = inlines_view(original_elements@);
                        let ghost c2 = inlines_view(new_elements@);
                        original_elements.push(InlineElement::SoftBreak);
                        let mut tail = new_elements;
                        original_elements.append(&mut tail);
                        proof {
                            assert(inlines_view(original_elements@) =~= c1 + seq![
                                InlineV::SoftBreak,
                            ] + c2);
                        }
                    },
                    _ => {},
                }
            },
            _ => {},
        }
    }

    /// Says whether this block is a heading.
    pub fn is_heading(&self) -> (r: bool)
        ensures
            r == (self@ is Heading),
    {
        match self {
            BlockElement::Heading(_, _) => true,
            BlockElement::Paragraph(_) => false,
        }
    }

    /// Renders this block as one HTML element.
    pub fn print(&self) -> (r: String)
        requires
            block_wf(self@),
        ensures
            r@ == render_block(self@),
    {
        match self {
            BlockElement::Heading(level, content) => {
                let mut out = String::from_str(heading_open_tag(*level));
                let inner = render_inlines_exec(content);
                out.append(inner.as_str());
                out.append(heading_close_tag(*level));
                proof {
                    assert(out@ =~= render_block(self@));
                }
                out
            },
            BlockElement::Paragraph(content) => {
                let mut out = String::from_str("<p>");
                let inner = render_inlines_exec(content);
                out.append(inner.as_str());
                out.append("</p>");
                proof {
                    reveal_strlit("<p>");
                    reveal_strlit("</p>");
                    assert(out@ =~= render_block(self@));
                }
                out
            },
        }
    }
}

/// The digit of a heading level.
pub open spec fn digit_char(level: int) -> char {
    if level == 1 {
        '1'
    } else if level == 2 {
        '2'
    } else if level == 3 {
        '3'
    } else if level == 4 {
        '4'
    } else if level == 5 {
        '5'
    } else {
        '6'
    }
}

/// The opening tag of a heading of the given level.
pub open spec fn h_open(level: int) -> Seq<char> {
    seq!['<', 'h', digit_char(level), '>']
}

/// The closing tag of a heading of the given level.
pub open spec fn h_close(level: int) -> Seq<char> {
    seq!['<', '/', 'h', digit_char(level), '>']
}

/// The opening tag of a paragraph.
pub open spec fn p_open() -> Seq<char> {
    seq!['<', 'p', '>']
}

/// The closing tag of a paragraph.
pub open spec fn p_close() -> Seq<char> {
    seq!['<', '/', 'p', '>']
}

/// The rendering of one inline element.
pub open spec fn render_inline(e: InlineV) -> Seq<char> {
    match e {
        InlineV::Text(t) => t,
        InlineV::SoftBreak => seq![' '],
    }
}

/// The rendering of a sequence of inline elements, in order.
pub open spec fn render_inlines(s: Seq<InlineV>) -> Seq<char>
    decreases s.len(),
{
    if s.len() == 0 {
        Seq::empty()
    } else {
        render_inline(s[0]) + render_inlines(s.drop_first())
    }
}

/// The rendering of one block element.
pub open spec fn render_block(b: BlockV) -> Seq<char> {
    match b {
        BlockV::Heading(level, content) => h_open(level as int) + render_inlines(content) + h_close(
            level as int,
        ),
        BlockV::Paragraph(content) => p_open() + render_inlines(content) + p_close(),
    }
}

/// The rendering of a document: each block's rendering, in document order.
pub open spec fn render_doc(es: Seq<(BlockV, bool)>) -> Seq<char>
    decreases es.len(),
{
    if es.len() == 0 {
        Seq::empty()
    } else {
        render_block(es[0].0) + render_doc(es.drop_first())
    }
}

proof fn lemma_render_inlines_snoc(s: Seq<InlineV>, e: InlineV)
    ensures
        render_inlines(s.push(e)) == render_inlines(s) + render_inline(e),
    decreases s.len(),
{
    if s.len() == 0 {
        assert(s.push(e)[0] == e);
        assert(s.push(e).drop_first() =~= Seq::<InlineV>::empty());
        assert(render_inlines(Seq::<InlineV>::empty()) == Seq::<char>::empty());
        assert(render_inlines(s.push(e)) =~= render_inlines(s) + render_inline(e));
    } else {
        lemma_render_inlines_snoc(s.drop_first(), e);
        assert(s.push(e)[0] == s[0]);
        assert(s.push(e).drop_first() =~= s.drop_first().push(e));
        assert(render_inline(s[0]) + (render_inlines(s.drop_first()) + render_inline(e)) =~= (
        render_inline(s[0]) + render_inlines(s.drop_first())) + render_inline(e));
    }
}

proof fn lemma_render_doc_snoc(es: Seq<(BlockV, bool)>, e: (BlockV, bool))
    ensures
        render_doc(es.push(e)) == render_doc(es) + render_block(e.0),
    decreases es.len(),
{
    if es.len() == 0 {
        assert(es.push(e)[0] == e);
        assert(es.push(e).drop_first() =~= Seq::<(BlockV, bool)>::empty());
        assert(render_doc(Seq::<(BlockV, bool)>::empty()) == Seq::<char>::empty());
        assert(render_doc(es.push(e)) =~= render_doc(es) + render_block(e.0));
    } else {
        lemma_render_doc_snoc(es.drop_first(), e);
        assert(es.push(e)[0] == es[0]);
        assert(es.push(e).drop_first() =~= es.drop_first().push(e));
        assert(render_block(es[0].0) + (render_doc(es.drop_first()) + render_block(e.0)) =~= (
        render_block(es[0].0) + render_doc(es.drop_first())) + render_block(e.0));
    }
}

/// The opening tag text of a heading of the given level.
fn heading_open_tag(level: usize) -> (r: &'static str)
    requires
        1 <= level <= 6,
    ensures
        r@ == h_open(level as int),
{
    if level == 1 {
        proof {
            reveal_strlit("<h1>");
            assert("<h1>"@ =~= h_open(1));
        }
        "<h1>"
    } else if level == 2 {
        proof {
            reveal_strlit("<h2>");
            assert("<h2>"@ =~= h_open(2));
        }
        "<h2>"
    } else if level == 3 {
        proof {
            reveal_strlit("<h3>");
            assert("<h3>"@ =~= h_open(3));
        }
        "<h3>"
    } else if level == 4 {
        proof {
            reveal_strlit("<h4>");
            assert("<h4>"@ =~= h_open(4));
        }
        "<h4>"
    } else if level == 5 {
        proof {
            reveal_strlit("<h5>");
            assert("<h5>"@ =~= h_open(5));
        }
        "<h5>"
    } else {
        proof {
            reveal_strlit("<h6>");
            assert("<h6>"@ =~= h_open(6));
        }
        "<h6>"
    }
}

/// The closing tag text of a heading of the given level.
fn heading_close_tag(level: usize) -> (r: &'static str)
    requires
        1 <= level <= 6,
    ensures
        r@ == h_close(level as int),
{
    if level == 1 {
        proof {
            reveal_strlit("</h1>");
            assert("</h1>"@ =~= h_close(1));
        }
        "</h1>"
    } else if level == 2 {
        proof {
            reveal_strlit("</h2>");
            assert("</h2>"@ =~= h_close(2));
        }
        "</h2>"
    } else if level == 3 {
        proof {
            reveal_strlit("</h3>");
            assert("</h3>"@ =~= h_close(3));
        }
        "</h3>"
    } else if level == 4 {
        proof {
            reveal_strlit("</h4>");
            assert("</h4>"@ =~= h_close(4));
        }
        "</h4>"
    } else if level == 5 {
        proof {
            reveal_strlit("</h5>");
            assert("</h5>"@ =~= h_close(5));
        }
        "</h5>"
    } else {
        proof {
            reveal_strlit("</h6>");
            assert("</h6>"@ =~= h_close(6));
        }
        "</h6>"
    }
}

/// Renders a sequence of inline elements in order.
fn render_inlines_exec(content: &Vec<InlineElement>) -> (r: String)
    ensures
        r@ == render_inlines(inlines_view(content@)),
{
    let ghost cs = inlines_view(content@);
    let mut out = String::new();
    let mut i: usize = 0;
    proof {
        assert(cs.take(0) =~= Seq::<InlineV>::empty());
    }
    while i < content.len()
        invariant
            0 <= i <= content.len(),
            cs == inlines_view(content@),
            out@ == render_inlines(cs.take(i as int)),
        decreases content.len() - i,
    {
        let e = &content[i];
        let piece = e.print();
        out.append(piece.as_str());
        proof {
            assert(cs[i as int] == e@);
            assert(cs.take(i + 1) =~= cs.take(i as int).push(cs[i as int]));
            lemma_render_inlines_snoc(cs.take(i as int), cs[i as int]);
        }
        i += 1;
    }
    proof {
        assert(cs.take(content.len() as int) =~= cs);
    }
    out
}

/// A document under construction: its blocks in order, each marked open
/// while it still accepts continuation lines.
pub struct MarkdownDocument {
    elements: Vec<(BlockElement, bool)>,
}

impl View for MarkdownDocument {
    type V = Seq<(BlockV, bool)>;

    closed spec fn view(&self) -> Seq<(BlockV, bool)> {
        self.elements@.map_values(|e: (BlockElement, bool)| (e.0@, e.1))
    }
}

/// At most the last entry is open, an open entry is a paragraph, and every
/// heading level is in range.
pub open spec fn doc_wf(es: Seq<(BlockV, bool)>) -> bool {
    &&& forall|i: int| 0 <= i < es.len() ==> block_wf((#[trigger] es[i]).0)
    &&& forall|i: int|
        0 <= i < es.len() && (#[trigger] es[i]).1 ==> i == es.len() - 1 && es[i].0 is Paragraph
}

/// Every entry closed.
pub open spec fn close_all(es: Seq<(BlockV, bool)>) -> Seq<(BlockV, bool)> {
    es.map_values(|e: (BlockV, bool)| (e.0, false))
}

/// One step of the fold: what one more line does to the entries.
pub open spec fn doc_step(es: Seq<(BlockV, bool)>, line: Seq<char>) -> Seq<(BlockV, bool)> {
    match classify(line) {
        LineClass::Blank => close_all(es),
        LineClass::Heading { level, content } => close_all(es).push(
            (BlockV::Heading(level, seq![InlineV::Text(content)]), false),
        ),
        LineClass::Paragraph { content } => {
            if es.len() > 0 && es.last().1 {
                match es.last().0 {
                    BlockV::Paragraph(c) => es.update(
                        es.len() - 1,
                        (
                            BlockV::Paragraph(
                                c + seq![InlineV::SoftBreak] + seq![InlineV::Text(content)],
                            ),
                            true,
                        ),
                    ),
                    _ => es,
                }
            } else {
                es.push((BlockV::Paragraph(seq![InlineV::Text(content)]), true))
            }
        },
    }
}

/// The fold of a whole sequence of lines, in order.
pub open spec fn fold_lines(es: Seq<(BlockV, bool)>, lines: Seq<Seq<char>>) -> Seq<(BlockV, bool)>
    decreases lines.len(),
{
    if lines.len() == 0 {
        es
    } else {
        fold_lines(doc_step(es, lines[0]), lines.drop_first())
    }
}

proof fn lemma_fold_lines_snoc(
    es: Seq<(BlockV, bool)>,
    lines: Seq<Seq<char>>,
    l: Seq<char>,
)
    ensures
        fold_lines(es, lines.push(l)) == doc_step(fold_lines(es, lines), l),
    decreases lines.len(),
{
    if lines.len() == 0 {
        assert(lines.push(l)[0] == l);
        assert(lines.push(l).drop_first() =~= Seq::<Seq<char>>::empty());
        assert(fold_lines(doc_step(es, l), Seq::<Seq<char>>::empty()) == doc_step(es, l));
    } else {
        assert(lines.push(l)[0] == lines[0]);
        assert(lines.push(l).drop_first() =~= lines.drop_first().push(l));
        lemma_fold_lines_snoc(doc_step(es, lines[0]), lines.drop_first(), l);
    }
}

/// The rendering of a whole markdown document from its raw text.
pub open spec fn markdown_html(content: Seq<char>) -> Seq<char> {
    render_doc(fold_lines(Seq::<(BlockV, bool)>::empty(), split_lines(content)))
}

impl MarkdownDocument {
    /// An empty document.
    pub fn new() -> (r: MarkdownDocument)
        ensures
            r@ == Seq::<(BlockV, bool)>::empty(),
            doc_wf(r@),
    {
        let r = MarkdownDocument { elements: Vec::new() };
        proof {
            assert(r@ =~= Seq::<(BlockV, bool)>::empty());
        }
        r
    }

    /// Closes the open entry, if one is open.
    fn close_open(&mut self)
        requires
            doc_wf(old(self)@),
        ensures
            final(self)@ == close_all(old(self)@),
            doc_wf(final(self)@),
    {
        let len = self.elements.len();
        if len > 0 && self.elements[len - 1].1 {
            let last = self.elements.pop().unwrap();
            self.elements.push((last.0, false));
        }
        proof {
            assert(self@ =~= close_all(old(self)@));
        }
    }

    /// Feeds one line into the document: a heading closes the open paragraph
    /// and lands closed; a paragraph line joins the open paragraph or opens
    /// a new one; a blank line closes the open paragraph.
    pub fn add_line_to_document(&mut self, line: &str)
        requires
            doc_wf(old(self)@),
        ensures
            final(self)@ == doc_step(old(self)@, line@),
            doc_wf(final(self)@),
    {
        let new_element = BlockElement::from(line);
        match new_element {
            None => {
                self.close_open();
            },
            Some(b) => {
                if b.is_heading() {
                    self.close_open();
                    let ghost closed = self@;
                    self.elements.push((b, false));
                    proof {
                        lemma_classify_heading_wf(line@);
                        assert(self@ =~= closed.push((b@, false)));
                    }
                } else {
                    let len = self.elements.len();
                    if len > 0 && self.elements[len - 1].1 {
                        let last = self.elements.pop().unwrap();
                        let ghost popped = self@;
                        let mut last_block = last.0;
                        last_block.merge(b);
                        self.elements.push((last_block, true));
                        proof {
                            assert(self@ =~= popped.push((last_block@, true)));
                            assert(self@ =~= doc_step(old(self)@, line@));
                        }
                    } else {
                        let ghost before = self@;
                        self.elements.push((b, true));
                        proof {
                            assert(self@ =~= before.push((b@, true)));
                        }
                    }
                }
            },
        }
    }

    /// Renders the document: each block's HTML, in order. Reading the
    /// document does not change it, so a second call returns the same text.
    pub fn print(&self) -> (r: String)
        requires
            doc_wf(self@),
        ensures
            r@ == render_doc(self@),
    {
        let mut out = String::new();
        let mut i: usize = 0;
        proof {
            assert(self@.take(0) =~= Seq::<(BlockV, bool)>::empty());
        }
        while i < self.elements.len()
            invariant
                0 <= i <= self.elements.len(),
                doc_wf(self@),
                self@.len() == self.elements@.len(),
                out@ == render_doc(self@.take(i as int)),
            decreases self.elements.len() - i,
        {
            let e = &self.elements[i];
            proof {
                assert(self@[i as int] == (e.0@, e.1));
            }
            let piece = e.0.print();
            out.append(piece.as_str());
            proof {
                assert(self@.take(i + 1) =~= self@.take(i as int).push(self@[i as int]));
                lemma_render_doc_snoc(self@.take(i as int), self@[i as int]);
            }
            i += 1;
        }
        proof {
            assert(self@.take(self.elements.len() as int) =~= self@);
        }
        out
    }
}

/// Renders markdown text whole: the lines folded into a document, and the
/// document rendered. The result is a function of the text alone.
pub fn render_markdown(content: &str) -> (r: String)
    ensures
        r@ == markdown_html(content@),
{
    let lines = split_lines_str(content);
    let ghost ls = split_lines(content@);
    let mut document = MarkdownDocument::new();
    let mut i: usize = 0;
    proof {
        assert(ls.take(0) =~= Seq::<Seq<char>>::empty());
    }
    while i < lines.len()
        invariant
            0 <= i <= lines.len(),
            lines.deep_view() == ls,
            doc_wf(document@),
            document@ == fold_lines(Seq::<(BlockV, bool)>::empty(), ls.take(i as int)),
        decreases lines.len() - i,
    {
        let line = &lines[i];
        proof {
            assert(line@ == ls[i as int]);
        }
        document.add_line_to_document(line.as_str());
        proof {
            assert(ls.take(i + 1) =~= ls.take(i as int).push(ls[i as int]));
            lemma_fold_lines_snoc(Seq::<(BlockV, bool)>::empty(), ls.take(i as int), ls[i as int]);
        }
        i += 1;
    }
    proof {
        assert(ls.take(lines.len() as int) =~= ls);
    }
    document.print()
}

/// A run of `level` hash marks.
pub open spec fn hashes(level: int) -> Seq<char> {
    Seq::new(level as nat, |i: int| '#')
}

proof fn lemma_fold_lines_one(l: Seq<char>)
    ensures
        fold_lines(Seq::<(BlockV, bool)>::empty(), seq![l]) == doc_step(
            Seq::<(BlockV, bool)>::empty(),
            l,
        ),
{
    let es0 = Seq::<(BlockV, bool)>::empty();
    assert(seq![l][0] == l);
    assert(seq![l].drop_first() =~= Seq::<Seq<char>>::empty());
    assert(fold_lines(doc_step(es0, l), Seq::<Seq<char>>::empty()) == doc_step(es0, l));
}

proof fn lemma_fold_lines_two(l1: Seq<char>, l2: Seq<char>)
    ensures
        fold_lines(Seq::<(BlockV, bool)>::empty(), seq![l1, l2]) == doc_step(
            doc_step(Seq::<(BlockV, bool)>::empty(), l1),
            l2,
        ),
{
    let es0 = Seq::<(BlockV, bool)>::empty();
    let es1 = doc_step(es0, l1);
    let lines = seq![l1, l2];
    assert(lines[0] == l1);
    assert(lines.drop_first() =~= seq![l2]);
    assert(fold_lines(es0, lines) == fold_lines(es1, seq![l2]));
    assert(seq![l2][0] == l2);
    assert(seq![l2].drop_first() =~= Seq::<Seq<char>>::empty());
    assert(fold_lines(es1, seq![l2]) == fold_lines(doc_step(es1, l2), Seq::<Seq<char>>::empty()));
    assert(fold_lines(doc_step(es1, l2), Seq::<Seq<char>>::empty()) == doc_step(es1, l2));
}

proof fn lemma_fold_lines_three(l1: Seq<char>, l2: Seq<char>, l3: Seq<char>)
    ensures
        fold_lines(Seq::<(BlockV, bool)>::empty(), seq![l1, l2, l3]) == doc_step(
            doc_step(doc_step(Seq::<(BlockV, bool)>::empty(), l1), l2),
            l3,
        ),
{
    let es0 = Seq::<(BlockV, bool)>::empty();
    let es1 = doc_step(es0, l1);
    let es2 = doc_step(es1, l2);
    let lines = seq![l1, l2, l3];
    assert(lines[0] == l1);
    assert(lines.drop_first() =~= seq![l2, l3]);
    assert(fold_lines(es0, lines) == fold_lines(es1, seq![l2, l3]));
    assert(seq![l2, l3][0] == l2);
    assert(seq![l2, l3].drop_first() =~= seq![l3]);
    assert(fold_lines(es1, seq![l2, l3]) == fold_lines(es2, seq![l3]));
    assert(seq![l3][0] == l3);
    assert(seq![l3].drop_first() =~= Seq::<Seq<char>>::empty());
    assert(fold_lines(es2, seq![l3]) == fold_lines(doc_step(es2, l3), Seq::<Seq<char>>::empty()));
    assert(fold_lines(doc_step(es2, l3), Seq::<Seq<char>>::empty()) == doc_step(es2, l3));
}

proof fn lemma_render_doc_one(e: (BlockV, bool))
    ensures
        render_doc(seq![e]) == render_block(e.0),
{
    assert(seq![e][0] == e);
    assert(seq![e].drop_first() =~= Seq::<(BlockV, bool)>::empty());
    assert(render_doc(Seq::<(BlockV, bool)>::empty()) == Seq::<char>::empty());
    assert(render_block(e.0) + Seq::<char>::empty() =~= render_block(e.0));
}

proof fn lemma_render_doc_two(e1: (BlockV, bool), e2: (BlockV, bool))
    ensures
        render_doc(seq![e1, e2]) == render_block(e1.0) + render_block(e2.0),
{
    assert(seq![e1, e2][0] == e1);
    assert(seq![e1, e2].drop_first() =~= seq![e2]);
    lemma_render_doc_one(e2);
}

proof fn lemma_render_inlines_one(a: InlineV)
    ensures
        render_inlines(seq![a]) == render_inline(a),
{
    assert(seq![a][0] == a);
    assert(seq![a].drop_first() =~= Seq::<InlineV>::empty());
    assert(render_inlines(Seq::<InlineV>::empty()) == Seq::<char>::empty());
    assert(render_inline(a) + Seq::<char>::empty() =~= render_inline(a));
}

proof fn lemma_render_inlines_three(a: InlineV, b: InlineV, c: InlineV)
    ensures
        render_inlines(seq![a, b, c]) == render_inline(a) + render_inline(b) + render_inline(c),
{
    assert(seq![a, b, c][0] == a);
    assert(seq![a, b, c].drop_first() =~= seq![b, c]);
    assert(seq![b, c][0] == b);
    assert(seq![b, c].drop_first() =~= seq![c]);
    lemma_render_inlines_one(c);
    assert(render_inlines(seq![b, c]) == render_inline(b) + render_inlines(seq![c]));
    assert(render_inlines(seq![a, b, c]) == render_inline(a) + render_inlines(seq![b, c]));
    assert(render_inline(a) + (render_inline(b) + render_inline(c)) =~= render_inline(a)
        + render_inline(b) + render_inline(c));
}

/// Empty input renders as the empty document: no elements at all.
pub proof fn lemma_empty_input_renders_empty()
    ensures
        markdown_html(Seq::<char>::empty()) == Seq::<char>::empty(),
{
    assert(split_lines(Seq::<char>::empty()) == Seq::<Seq<char>>::empty());
    assert(fold_lines(Seq::<(BlockV, bool)>::empty(), Seq::<Seq<char>>::empty())
        == Seq::<(BlockV, bool)>::empty());
    assert(render_doc(Seq::<(BlockV, bool)>::empty()) == Seq::<char>::empty());
}

/// A line of `level` hash marks, a space, and plain text renders as a
/// heading of that level holding exactly that text. The text here starts
/// and ends with non-whitespace, does not end in a hash mark, and holds no
/// line feed: otherwise the heading rule trims it first.
pub proof fn lemma_heading_line_renders(level: int, text: Seq<char>)
    requires
        1 <= level <= 6,
        text.len() > 0,
        !is_space(text[0]),
        !is_space(text.last()),
        text.last() != '#',
        forall|j: int| 0 <= j < text.len() ==> text[j] != '\n',
    ensures
        markdown_html(hashes(level) + seq![' '] + text) == h_open(level) + text + h_close(level),
{
    let line = hashes(level) + seq![' '] + text;
    assert(line.len() == level + 1 + text.len());
    assert forall|j: int| 0 <= j < line.len() implies line[j] != '\n' by {
        if j < level {
            assert(line[j] == '#');
        } else if j == level {
            assert(line[j] == ' ');
        } else {
            assert(line[j] == text[j - level - 1]);
        }
    }
    lemma_split_lines_single(line);

    // classification
    assert(line[0] == '#');
    lemma_prefix_len_is(line, eq_char(' '), 0);
    let rest = spec_trim_start_at_most(line, ' ', 3);
    assert(rest =~= line);
    assert forall|j: int| 0 <= j < level implies (eq_char('#'))(line[j]) by {
        assert(line[j] == '#');
    }
    assert(line[level] == ' ');
    lemma_prefix_len_is(line, eq_char('#'), level);
    assert(prefix_len(rest, eq_char('#')) == level);
    let after = rest.skip(level);
    assert(after =~= seq![' '] + text);
    assert(after[0] == ' ');
    assert(is_space(after[0]));

    // the heading text is exactly `text`
    assert(after[1] == text[0]);
    lemma_prefix_len_is(after, space_pred(), 1);
    assert(trim_start_ws(after) =~= text);
    lemma_suffix_len_is(text, space_pred(), 0);
    assert(trim_end_ws(text) =~= text);
    assert(trim_ws(after) == text);
    lemma_suffix_len_is(text, eq_char('#'), 0);
    assert(trim_end_run(text, '#') =~= text);
    assert(heading_text(after) == text);
    assert(classify(line) == (LineClass::Heading { level: level as nat, content: text }));

    // fold and render
    let b = BlockV::Heading(level as nat, seq![InlineV::Text(text)]);
    lemma_fold_lines_one(line);
    assert(close_all(Seq::<(BlockV, bool)>::empty()) =~= Seq::<(BlockV, bool)>::empty());
    assert(doc_step(Seq::<(BlockV, bool)>::empty(), line) =~= seq![(b, false)]);
    lemma_render_doc_one((b, false));
    lemma_render_inlines_one(InlineV::Text(text));
    assert(markdown_html(line) == h_open(level) + text + h_close(level)) by {
        assert(h_open(level) + text + h_close(level) =~= h_open(level) + render_inlines(
            seq![InlineV::Text(text)],
        ) + h_close(level));
    }
}

/// A line that opens with seven or more hash marks is no heading: it
/// renders as a paragraph holding the literal line. The line here has no
/// trailing whitespace and no line feed: trailing whitespace would be
/// trimmed from the paragraph.
pub proof fn lemma_long_hash_run_renders_paragraph(line: Seq<char>)
    requires
        prefix_len(line, eq_char('#')) >= 7,
        suffix_len(line, space_pred()) == 0,
        forall|j: int| 0 <= j < line.len() ==> line[j] != '\n',
    ensures
        markdown_html(line) == p_open() + line + p_close(),
{
    lemma_prefix_len_facts(line, eq_char('#'));
    assert(line.len() >= 7);
    assert((eq_char('#'))(line[0]));
    assert(line[0] == '#');
    lemma_split_lines_single(line);

    // classification: the seventh hash mark blocks the heading rule
    lemma_prefix_len_is(line, eq_char(' '), 0);
    let rest = spec_trim_start_at_most(line, ' ', 3);
    assert(rest =~= line);
    let level = min_int(prefix_len(rest, eq_char('#')) as int, 6);
    assert(level == 6);
    let after = rest.skip(6);
    assert(after.len() > 0);
    assert(after[0] == line[6]);
    assert((eq_char('#'))(line[6]));
    assert(after[0] == '#');
    assert(!is_space('#'));
    assert(classify(line) == text_class(line));

    // the paragraph holds the untrimmed line
    assert(!is_space(line[0]));
    lemma_prefix_len_is(line, space_pred(), 0);
    assert(trim_start_ws(line) =~= line);
    assert(trim_end_ws(line) =~= line);
    assert(trim_ws(line) == line);
    assert(classify(line) == (LineClass::Paragraph { content: line }));

    // fold and render
    let b = BlockV::Paragraph(seq![InlineV::Text(line)]);
    lemma_fold_lines_one(line);
    assert(doc_step(Seq::<(BlockV, bool)>::empty(), line) =~= seq![(b, true)]);
    lemma_render_doc_one((b, true));
    lemma_render_inlines_one(InlineV::Text(line));
    assert(markdown_html(line) == p_open() + line + p_close()) by {
        assert(p_open() + line + p_close() =~= p_open() + render_inlines(
            seq![InlineV::Text(line)],
        ) + p_close());
    }
}

/// Two paragraph lines with nothing between them merge into one paragraph,
/// joined by a single space.
pub proof fn lemma_adjacent_lines_merge(l1: Seq<char>, l2: Seq<char>, c1: Seq<char>, c2: Seq<char>)
    requires
        classify(l1) == (LineClass::Paragraph { content: c1 }),
        classify(l2) == (LineClass::Paragraph { content: c2 }),
        forall|j: int| 0 <= j < l1.len() ==> l1[j] != '\n',
        forall|j: int| 0 <= j < l2.len() ==> l2[j] != '\n',
        l1.len() == 0 || l1.last() != '\r',
        l2.len() > 0,
    ensures
        markdown_html(l1 + seq!['\n'] + l2) == p_open() + c1 + seq![' '] + c2 + p_close(),
{
    lemma_split_lines_concat(l1, l2);
    lemma_split_lines_single(l2);
    assert(seq![l1] + seq![l2] =~= seq![l1, l2]);
    lemma_fold_lines_two(l1, l2);

    let es0 = Seq::<(BlockV, bool)>::empty();
    let es1 = doc_step(es0, l1);
    assert(es1 =~= seq![(BlockV::Paragraph(seq![InlineV::Text(c1)]), true)]);
    let es2 = doc_step(es1, l2);
    let merged = seq![InlineV::Text(c1)] + seq![InlineV::SoftBreak] + seq![InlineV::Text(c2)];
    assert(es1.last().1);
    assert(es2 =~= seq![(BlockV::Paragraph(merged), true)]);
    lemma_render_doc_one((BlockV::Paragraph(merged), true));
    assert(merged =~= seq![InlineV::Text(c1), InlineV::SoftBreak, InlineV::Text(c2)]);
    lemma_render_inlines_three(InlineV::Text(c1), InlineV::SoftBreak, InlineV::Text(c2));
    assert(markdown_html(l1 + seq!['\n'] + l2) == p_open() + c1 + seq![' '] + c2 + p_close()) by {
        assert(p_open() + (c1 + seq![' '] + c2) + p_close() =~= p_open() + c1 + seq![' '] + c2
            + p_close());
    }
}

/// A blank line between two paragraph lines closes the first paragraph:
/// the two lines render as two separate paragraphs.
pub proof fn lemma_blank_line_separates(l1: Seq<char>, l2: Seq<char>, c1: Seq<char>, c2: Seq<char>)
    requires
        classify(l1) == (LineClass::Paragraph { content: c1 }),
        classify(l2) == (LineClass::Paragraph { content: c2 }),
        forall|j: int| 0 <= j < l1.len() ==> l1[j] != '\n',
        forall|j: int| 0 <= j < l2.len() ==> l2[j] != '\n',
        l1.len() == 0 || l1.last() != '\r',
        l2.len() > 0,
    ensures
        markdown_html(l1 + seq!['\n', '\n'] + l2) == p_open() + c1 + p_close() + p_open() + c2
            + p_close(),
{
    let tail = seq!['\n'] + l2;
    assert(l1 + seq!['\n', '\n'] + l2 =~= l1 + seq!['\n'] + tail);
    lemma_split_lines_concat(l1, tail);
    assert(Seq::<char>::empty() + seq!['\n'] + l2 =~= tail);
    lemma_split_lines_concat(Seq::<char>::empty(), l2);
    lemma_split_lines_single(l2);
    assert(split_lines(tail) =~= seq![Seq::<char>::empty(), l2]);
    assert(split_lines(l1 + seq!['\n'] + tail) =~= seq![l1, Seq::<char>::empty(), l2]);
    lemma_fold_lines_three(l1, Seq::<char>::empty(), l2);

    // the middle line is blank
    lemma_prefix_len_is(Seq::<char>::empty(), space_pred(), 0);
    lemma_suffix_len_is(Seq::<char>::empty(), space_pred(), 0);
    assert(trim_ws(Seq::<char>::empty()) =~= Seq::<char>::empty());
    assert(classify(Seq::<char>::empty()) == LineClass::Blank);

    let es0 = Seq::<(BlockV, bool)>::empty();
    let b1 = BlockV::Paragraph(seq![InlineV::Text(c1)]);
    let b2 = BlockV::Paragraph(seq![InlineV::Text(c2)]);
    let es1 = doc_step(es0, l1);
    assert(es1 =~= seq![(b1, true)]);
    let es2 = doc_step(es1, Seq::<char>::empty());
    assert(es2 =~= seq![(b1, false)]);
    let es3 = doc_step(es2, l2);
    assert(!es2.last().1);
    assert(es3 =~= seq![(b1, false), (b2, true)]);
    lemma_render_doc_two((b1, false), (b2, true));
    lemma_render_inlines_one(InlineV::Text(c1));
    lemma_render_inlines_one(InlineV::Text(c2));
    assert(markdown_html(l1 + seq!['\n', '\n'] + l2) == p_open() + c1 + p_close() + p_open() + c2
        + p_close()) by {
        assert((p_open() + c1 + p_close()) + (p_open() + c2 + p_close()) =~= p_open() + c1
            + p_close() + p_open() + c2 + p_close());
    }
}

} // verus!
