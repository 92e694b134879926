//! The raw-text title heuristic and the template substitution engine: from a
//! plain-text document and a page template to the final HTML page.

use vstd::prelude::*;

use crate::arg_parser::ArgParser;
use crate::markdown_parser::{h_close, h_open, p_close, p_open};
use crate::text::{split_lines, split_lines_str, trim_str, trim_ws};

verus! {

/// The placeholder for the page title.
pub open spec fn title_token() -> Seq<char> {
    seq!['$', 'T', 'I', 'T', 'L', 'E']
}

/// The placeholder for the page body.
pub open spec fn body_token() -> Seq<char> {
    seq!['$', 'B', 'O', 'D', 'Y']
}

/// The placeholder for the stylesheet reference.
pub open spec fn stylesheet_token() -> Seq<char> {
    seq!['$', 'S', 'T', 'Y', 'L', 'E', 'S', 'H', 'E', 'E', 'T', '_', 'U', 'R', 'L']
}

/// `pat` occurs in `s` at position `i`.
pub open spec fn occurs_at(s: Seq<char>, pat: Seq<char>, i: int) -> bool {
    0 <= i && i + pat.len() <= s.len() && s.subrange(i, i + pat.len()) == pat
}

/// `pat` occurs somewhere in `s`.
pub open spec fn occurs(s: Seq<char>, pat: Seq<char>) -> bool {
    exists|i: int| occurs_at(s, pat, i)
}

/// One left-to-right pass that replaces every occurrence of `pat` by `rep`,
/// as `str::replace` does for a non-empty pattern. A replacement is not
/// scanned again: substitution is a single pass.
pub open spec fn replace_all(s: Seq<char>, pat: Seq<char>, rep: Seq<char>) -> Seq<char>
    decreases s.len(),
{
    if pat.len() == 0 || s.len() < pat.len() {
        s
    } else if s.subrange(0, pat.len() as int) == pat {
        rep + replace_all(s.skip(pat.len() as int), pat, rep)
    } else {
        seq![s[0]] + replace_all(s.drop_first(), pat, rep)
    }
}

/// A token that occurs nowhere in the text leaves it unchanged: that
/// substitution is a no-op.
pub proof fn lemma_replace_all_absent(s: Seq<char>, pat: Seq<char>, rep: Seq<char>)
    requires
        pat.len() > 0,
        !occurs(s, pat),
    ensures
        replace_all(s, pat, rep) == s,
    decreases s.len(),
{
    if s.len() < pat.len() {
    } else if s.subrange(0, pat.len() as int) == pat {
        assert(occurs_at(s, pat, 0));
        assert(false);
    } else {
        assert(!occurs(s.drop_first(), pat)) by {
            if occurs(s.drop_first(), pat) {
                let i = choose|i: int| occurs_at(s.drop_first(), pat, i);
                assert(s.subrange(i + 1, i + 1 + pat.len()) =~= s.drop_first().subrange(
                    i,
                    i + pat.len(),
                ));
                assert(occurs_at(s, pat, i + 1));
                assert(false);
            }
        }
        lemma_replace_all_absent(s.drop_first(), pat, rep);
        assert(seq![s[0]] + s.drop_first() =~= s);
    }
}

/// Shifting the start of the text shifts every occurrence with it.
proof fn lemma_occurs_at_shift(s: Seq<char>, pat: Seq<char>, d: int, p: int)
    requires
        0 <= d <= s.len(),
        0 <= p,
    ensures
        occurs_at(s.skip(d), pat, p) == occurs_at(s, pat, d + p),
{
    if p + pat.len() <= s.len() - d {
        assert(s.skip(d).subrange(p, p + pat.len()) =~= s.subrange(d + p, d + p + pat.len()));
    }
}

/// Where the pattern does not match at the head, substitution copies the
/// first character and goes on behind it.
proof fn lemma_replace_char_step(s: Seq<char>, pat: Seq<char>, rep: Seq<char>)
    requires
        pat.len() > 0,
        s.len() > 0,
        !occurs_at(s, pat, 0),
    ensures
        replace_all(s, pat, rep) == seq![s[0]] + replace_all(s.drop_first(), pat, rep),
{
    if s.len() < pat.len() {
        assert(replace_all(s, pat, rep) == s);
        assert(s.drop_first().len() < pat.len());
        assert(replace_all(s.drop_first(), pat, rep) == s.drop_first());
        assert(seq![s[0]] + s.drop_first() =~= s);
    } else {
        assert(s.subrange(0, pat.len() as int) != pat);
    }
}

/// Where the pattern matches nowhere in the first `k` characters,
/// substitution copies them unchanged.
proof fn lemma_replace_skip_clean(s: Seq<char>, pat: Seq<char>, rep: Seq<char>, k: int)
    requires
        pat.len() > 0,
        0 <= k <= s.len(),
        forall|p: int| 0 <= p < k ==> !occurs_at(s, pat, p),
    ensures
        replace_all(s, pat, rep) == s.take(k) + replace_all(s.skip(k), pat, rep),
    decreases k,
{
    if k == 0 {
        assert(s.skip(0) =~= s);
        assert(s.take(0) + replace_all(s, pat, rep) =~= replace_all(s, pat, rep));
    } else {
        assert(!occurs_at(s, pat, 0));
        lemma_replace_char_step(s, pat, rep);
        let d = s.drop_first();
        assert(d =~= s.skip(1));
        assert forall|p: int| 0 <= p < k - 1 implies !occurs_at(d, pat, p) by {
            lemma_occurs_at_shift(s, pat, 1, p);
        }
        lemma_replace_skip_clean(d, pat, rep, k - 1);
        assert(d.skip(k - 1) =~= s.skip(k));
        assert(seq![s[0]] + (d.take(k - 1) + replace_all(s.skip(k), pat, rep)) =~= s.take(k)
            + replace_all(s.skip(k), pat, rep));
    }
}

/// A prefix free of the pattern's first character passes through
/// substitution unchanged.
proof fn lemma_replace_markerfree_prefix(
    a: Seq<char>,
    x: Seq<char>,
    pat: Seq<char>,
    rep: Seq<char>,
    m: char,
)
    requires
        pat.len() > 0,
        pat[0] == m,
        forall|j: int| 0 <= j < a.len() ==> a[j] != m,
    ensures
        replace_all(a + x, pat, rep) == a + replace_all(x, pat, rep),
{
    let s = a + x;
    assert forall|p: int| 0 <= p < a.len() implies !occurs_at(s, pat, p) by {
        if occurs_at(s, pat, p) {
            assert(s.subrange(p, p + pat.len())[0] == s[p]);
            assert(s[p] == a[p]);
            assert(false);
        }
    }
    lemma_replace_skip_clean(s, pat, rep, a.len() as int);
    assert(s.take(a.len() as int) =~= a);
    assert(s.skip(a.len() as int) =~= x);
}

/// How close the head of the text is to a match: a tie-breaker for the
/// induction below.
pub open spec fn head_match_rank(s: Seq<char>, t: Seq<char>) -> int {
    if occurs_at(s, t, 0) {
        0
    } else {
        1
    }
}

/// Substitution is order-independent on disjoint token occurrences. Here
/// disjointness is by a marker character: both tokens open with the marker
/// and hold it nowhere else, neither token is a prefix of the other, every
/// marker in the text opens a full occurrence of one of the two tokens, and
/// neither replacement holds the marker. Substituting the first token and
/// then the second gives the same text as the reverse order.
pub proof fn lemma_substitution_order_independent(
    s: Seq<char>,
    t1: Seq<char>,
    r1: Seq<char>,
    t2: Seq<char>,
    r2: Seq<char>,
    m: char,
)
    requires
        t1.len() > 0,
        t2.len() > 0,
        t1[0] == m,
        t2[0] == m,
        forall|j: int| 0 < j < t1.len() ==> t1[j] != m,
        forall|j: int| 0 < j < t2.len() ==> t2[j] != m,
        !t1.is_prefix_of(t2),
        !t2.is_prefix_of(t1),
        forall|j: int| 0 <= j < r1.len() ==> r1[j] != m,
        forall|j: int| 0 <= j < r2.len() ==> r2[j] != m,
        forall|p: int|
            0 <= p < s.len() && s[p] == m ==> occurs_at(s, t1, p) || occurs_at(s, t2, p),
    ensures
        replace_all(replace_all(s, t1, r1), t2, r2) == replace_all(
            replace_all(s, t2, r2),
            t1,
            r1,
        ),
    decreases s.len(), head_match_rank(s, t1),
{
    if occurs_at(s, t1, 0) {
        assert(!occurs_at(s, t2, 0)) by {
            if occurs_at(s, t2, 0) {
                if t1.len() <= t2.len() {
                    assert(t1 =~= t2.subrange(0, t1.len() as int)) by {
                        assert forall|j: int| 0 <= j < t1.len() implies t1[j] == t2[j] by {
                            assert(s.subrange(0, t1.len() as int)[j] == s[j]);
                            assert(s.subrange(0, t2.len() as int)[j] == s[j]);
                        }
                    }
                    assert(t1.is_prefix_of(t2));
                } else {
                    assert(t2 =~= t1.subrange(0, t2.len() as int)) by {
                        assert forall|j: int| 0 <= j < t2.len() implies t2[j] == t1[j] by {
                            assert(s.subrange(0, t2.len() as int)[j] == s[j]);
                            assert(s.subrange(0, t1.len() as int)[j] == s[j]);
                        }
                    }
                    assert(t2.is_prefix_of(t1));
                }
            }
        }
        let tail = s.skip(t1.len() as int);
        let tail1 = replace_all(tail, t1, r1);
        let tail2 = replace_all(tail, t2, r2);

        // the first substitution takes the head occurrence
        assert(replace_all(s, t1, r1) == r1 + tail1);
        lemma_replace_markerfree_prefix(r1, tail1, t2, r2, m);

        // the other substitution copies the head occurrence unchanged
        assert forall|p: int| 0 <= p < t1.len() implies !occurs_at(s, t2, p) by {
            if occurs_at(s, t2, p) && p > 0 {
                assert(s.subrange(p, p + t2.len())[0] == s[p]);
                assert(s.subrange(0, t1.len() as int)[p] == s[p]);
                assert(s[p] == t1[p]);
                assert(false);
            }
        }
        lemma_replace_skip_clean(s, t2, r2, t1.len() as int);
        assert(s.take(t1.len() as int) =~= t1);
        let bb = t1 + tail2;
        assert(replace_all(s, t2, r2) == bb);
        assert(bb.subrange(0, t1.len() as int) =~= t1);
        assert(bb.skip(t1.len() as int) =~= tail2);
        assert(replace_all(bb, t1, r1) == r1 + replace_all(tail2, t1, r1));

        // the tail commutes by induction
        assert forall|p: int|
            0 <= p < tail.len() && tail[p] == m implies occurs_at(tail, t1, p) || occurs_at(
            tail,
            t2,
            p,
        ) by {
            assert(tail[p] == s[t1.len() + p]);
            lemma_occurs_at_shift(s, t1, t1.len() as int, p);
            lemma_occurs_at_shift(s, t2, t1.len() as int, p);
        }
        lemma_substitution_order_independent(tail, t1, r1, t2, r2, m);
    } else if occurs_at(s, t2, 0) {
        lemma_substitution_order_independent(s, t2, r2, t1, r1, m);
    } else if s.len() == 0 {
        assert(replace_all(s, t1, r1) == s);
        assert(replace_all(s, t2, r2) == s);
    } else {
        assert(s[0] != m);
        lemma_replace_char_step(s, t1, r1);
        lemma_replace_char_step(s, t2, r2);
        let d = s.drop_first();
        let d1 = replace_all(d, t1, r1);
        let d2 = replace_all(d, t2, r2);
        assert(d =~= s.skip(1));
        assert forall|p: int|
            0 <= p < d.len() && d[p] == m implies occurs_at(d, t1, p) || occurs_at(d, t2, p) by {
            assert(d[p] == s[p + 1]);
            lemma_occurs_at_shift(s, t1, 1, p);
            lemma_occurs_at_shift(s, t2, 1, p);
        }
        lemma_substitution_order_independent(d, t1, r1, t2, r2, m);
        lemma_replace_markerfree_prefix(seq![s[0]], d1, t2, r2, m);
        lemma_replace_markerfree_prefix(seq![s[0]], d2, t1, r1, m);
    }
}

/// The engine's own tokens satisfy the disjointness discipline: on a
/// template whose dollar signs all open full tokens, and with
/// dollar-free values, substituting the title and then the body gives the
/// same text as the reverse order.
pub proof fn lemma_title_body_order_independent(s: Seq<char>, title: Seq<char>, body: Seq<char>)
    requires
        forall|j: int| 0 <= j < title.len() ==> title[j] != '$',
        forall|j: int| 0 <= j < body.len() ==> body[j] != '$',
        forall|p: int|
            0 <= p < s.len() && s[p] == '$' ==> occurs_at(s, title_token(), p) || occurs_at(
                s,
                body_token(),
                p,
            ),
    ensures
        replace_all(replace_all(s, title_token(), title), body_token(), body) == replace_all(
            replace_all(s, body_token(), body),
            title_token(),
            title,
        ),
{
    let t1 = title_token();
    let t2 = body_token();
    assert(!t1.is_prefix_of(t2));
    assert(!t2.is_prefix_of(t1)) by {
        if t2.is_prefix_of(t1) {
            assert(t1.subrange(0, t2.len() as int)[1] == t1[1]);
        }
    }
    lemma_substitution_order_independent(s, t1, title, t2, body, '$');
}

/// Substituting a token is idempotent once the result no longer holds the
/// token: a second pass with the same pair changes nothing.
pub proof fn lemma_replace_all_idempotent(s: Seq<char>, pat: Seq<char>, rep: Seq<char>)
    requires
        pat.len() > 0,
        !occurs(replace_all(s, pat, rep), pat),
    ensures
        replace_all(replace_all(s, pat, rep), pat, rep) == replace_all(s, pat, rep),
{
    lemma_replace_all_absent(replace_all(s, pat, rep), pat, rep);
}

/// Compares `pat` against `s` at position `i`.
fn match_at(s: &str, i: usize, pat: &str) -> (r: bool)
    requires
        i + pat@.len() <= s@.len(),
    ensures
        r == (s@.subrange(i as int, i + pat@.len()) == pat@),
{
    let m = pat.unicode_len();
    let n = s.unicode_len();
    let mut j: usize = 0;
    while j < m
        invariant
            0 <= j <= m,
            m == pat@.len(),
            n == s@.len(),
            i + m <= n,
            forall|k: int| 0 <= k < j ==> s@[i + k] == pat@[k],
        decreases m - j,
    {
        if s.get_char(i + j) != pat.get_char(j) {
            proof {
                assert(s@.subrange(i as int, i + pat@.len())[j as int] == s@[i + j]);
            }
            return false;
        }
        j += 1;
    }
    proof {
        assert(s@.subrange(i as int, i + pat@.len()) =~= pat@);
    }
    true
}

/// Replaces every occurrence of `pat` in `s` by `rep`, in one left-to-right
/// pass.
pub(crate) fn replace(s: &str, pat: &str, rep: &str) -> (r: String)
    requires
        pat@.len() > 0,
    ensures
        r@ == replace_all(s@, pat@, rep@),
{
    let n = s.unicode_len();
    let m = pat.unicode_len();
    let mut out = String::new();
    let mut i: usize = 0;
    proof {
        assert(s@.skip(0) =~= s@);
        assert(Seq::<char>::empty() + replace_all(s@, pat@, rep@) =~= replace_all(
            s@,
            pat@,
            rep@,
        ));
    }
    while i < n
        invariant
            0 <= i <= n,
            n == s@.len(),
            m == pat@.len(),
            m > 0,
            replace_all(s@, pat@, rep@) == out@ + replace_all(s@.skip(i as int), pat@, rep@),
        decreases n - i,
    {
        let ghost t = s@.skip(i as int);
        let ghost prev = out@;
        if m <= n - i && match_at(s, i, pat) {
            out.append(rep);
            proof {
                assert(t.subrange(0, m as int) =~= s@.subrange(i as int, i + m));
                assert(t.skip(m as int) =~= s@.skip(i + m));
                assert(replace_all(t, pat@, rep@) == rep@ + replace_all(
                    s@.skip(i + m),
                    pat@,
                    rep@,
                ));
                assert(prev + (rep@ + replace_all(s@.skip(i + m), pat@, rep@)) =~= (prev + rep@)
                    + replace_all(s@.skip(i + m), pat@, rep@));
            }
            i += m;
        } else {
            let piece = s.substring_char(i, i + 1);
            out.append(piece);
            proof {
                assert(piece@ =~= seq![s@[i as int]]);
                assert(prev + (piece@ + replace_all(s@.skip(i + 1), pat@, rep@)) =~= (prev
                    + piece@) + replace_all(s@.skip(i + 1), pat@, rep@));
                assert(t.drop_first() =~= s@.skip(i + 1));
                if m <= n - i {
                    assert(t.subrange(0, m as int) =~= s@.subrange(i as int, i + m));
                    assert(t.subrange(0, m as int) != pat@);
                    assert(t[0] == s@[i as int]);
                    assert(replace_all(t, pat@, rep@) == seq![s@[i as int]] + replace_all(
                        s@.skip(i + 1),
                        pat@,
                        rep@,
                    ));
                } else {
                    assert(replace_all(t, pat@, rep@) == t);
                    assert(t.drop_first().len() < m);
                    assert(replace_all(s@.skip(i + 1), pat@, rep@) == s@.skip(i + 1));
                    assert(seq![s@[i as int]] + s@.skip(i + 1) =~= t);
                }
            }
            i += 1;
        }
    }
    proof {
        assert(s@.skip(n as int) =~= Seq::<char>::empty());
        assert(replace_all(Seq::<char>::empty(), pat@, rep@) == Seq::<char>::empty());
        assert(out@ + Seq::<char>::empty() =~= out@);
    }
    out
}

/// A body line wrapped as one paragraph element.
pub open spec fn p_wrap(c: Seq<char>) -> Seq<char> {
    p_open() + c + p_close()
}

/// 1 when line `i` exists and is empty.
pub open spec fn blank_at(lines: Seq<Seq<char>>, i: int) -> int {
    if 0 <= i < lines.len() && lines[i].len() == 0 {
        1
    } else {
        0
    }
}

/// How many of the first three lines are empty.
pub open spec fn blank_in_first_three(lines: Seq<Seq<char>>) -> int {
    blank_at(lines, 0) + blank_at(lines, 1) + blank_at(lines, 2)
}

/// The non-empty lines from index `i` on, each wrapped as a paragraph.
pub open spec fn body_tail(lines: Seq<Seq<char>>, i: int) -> Seq<char>
    decreases lines.len() - i,
{
    if i < 0 || i >= lines.len() {
        Seq::empty()
    } else if lines[i].len() == 0 {
        body_tail(lines, i + 1)
    } else {
        p_wrap(lines[i]) + body_tail(lines, i + 1)
    }
}

/// The first line, or nothing where there is none.
pub open spec fn first_line(lines: Seq<Seq<char>>) -> Seq<char> {
    if lines.len() > 0 {
        lines[0]
    } else {
        Seq::empty()
    }
}

/// The title the heuristic infers: the first line counts as the title
/// exactly when two of the first three lines of the trimmed document are
/// blank; otherwise there is no title.
pub open spec fn raw_title(content: Seq<char>) -> Seq<char> {
    let lines = split_lines(trim_ws(content));
    if blank_in_first_three(lines) == 2 {
        first_line(lines)
    } else {
        Seq::empty()
    }
}

/// The body the heuristic builds: the remaining non-empty lines as
/// paragraphs, led by the first line as a level-one heading when it counts
/// as the title, and as an ordinary paragraph otherwise.
pub open spec fn raw_body(content: Seq<char>) -> Seq<char> {
    let lines = split_lines(trim_ws(content));
    if blank_in_first_three(lines) == 2 {
        h_open(1) + first_line(lines) + h_close(1) + body_tail(lines, 1)
    } else {
        p_wrap(first_line(lines)) + body_tail(lines, 1)
    }
}

/// Splits a plain-text document into its inferred title and its body HTML.
pub fn split_raw_text(content: &str) -> (r: (String, String))
    ensures
        r.0@ == raw_title(content@),
        r.1@ == raw_body(content@),
{
    let trimmed = trim_str(content);
    let lines = split_lines_str(trimmed);
    let ghost ls = split_lines(trim_ws(content@));
    let mut blanks: usize = 0;
    if lines.len() > 0 && lines[0].as_str().is_empty() {
        blanks += 1;
    }
    if lines.len() > 1 && lines[1].as_str().is_empty() {
        blanks += 1;
    }
    if lines.len() > 2 && lines[2].as_str().is_empty() {
        blanks += 1;
    }
    proof {
        assert(lines.deep_view() == ls);
        assert(blanks as int == blank_in_first_three(ls));
    }
    let title: String = if lines.len() > 0 {
        let first = lines[0].clone();
        proof {
            assert(first@ == ls[0]);
        }
        first
    } else {
        String::new()
    };
    let mut rest = String::new();
    let mut i: usize = 1;
    while i < lines.len()
        invariant
            1 <= i,
            i <= lines.len() || i == 1,
            lines.deep_view() == ls,
            body_tail(ls, 1) == rest@ + body_tail(ls, i as int),
        decreases lines.len() - i,
    {
        let line = &lines[i];
        let ghost prev = rest@;
        proof {
            assert(line@ == ls[i as int]);
        }
        if !line.as_str().is_empty() {
            rest.append("<p>");
            rest.append(line.as_str());
            rest.append("</p>");
            proof {
                reveal_strlit("<p>");
                reveal_strlit("</p>");
                assert(rest@ =~= prev + p_wrap(ls[i as int]));
                assert(body_tail(ls, i as int) == p_wrap(ls[i as int]) + body_tail(ls, i + 1));
                assert(prev + (p_wrap(ls[i as int]) + body_tail(ls, i + 1)) =~= (prev + p_wrap(
                    ls[i as int],
                )) + body_tail(ls, i + 1));
            }
        } else {
            proof {
                assert(body_tail(ls, i as int) == body_tail(ls, i + 1));
            }
        }
        i += 1;
    }
    proof {
        assert(body_tail(ls, i as int) == Seq::<char>::empty());
        assert(rest@ + Seq::<char>::empty() =~= rest@);
        assert(title@ == first_line(ls));
    }
    let mut body = String::new();
    let parsed_title: String;
    if blanks == 2 {
        body.append("<h1>");
        body.append(title.as_str());
        body.append("</h1>");
        body.append(rest.as_str());
        parsed_title = title;
        proof {
            reveal_strlit("<h1>");
            reveal_strlit("</h1>");
            assert(body@ =~= raw_body(content@));
        }
    } else {
        body.append("<p>");
        body.append(title.as_str());
        body.append("</p>");
        body.append(rest.as_str());
        parsed_title = String::new();
        proof {
            reveal_strlit("<p>");
            reveal_strlit("</p>");
            assert(body@ =~= raw_body(content@));
        }
    }
    (parsed_title, body)
}

/// Wraps one line of body content as a paragraph.
pub fn parse_body(content: &str) -> (r: String)
    ensures
        r@ == p_wrap(content@),
{
    let mut out = String::from_str("<p>");
    out.append(content);
    out.append("</p>");
    proof {
        reveal_strlit("<p>");
        reveal_strlit("</p>");
        assert(out@ =~= p_wrap(content@));
    }
    out
}

/// Substitutes the three placeholder tokens into a template, in the order
/// title, body, stylesheet: each one a single independent pass.
pub fn render_page(template: &str, title: &str, body: &str, stylesheet: &str) -> (r: String)
    ensures
        r@ == replace_all(
            replace_all(replace_all(template@, title_token(), title@), body_token(), body@),
            stylesheet_token(),
            stylesheet@,
        ),
{
    proof {
        reveal_strlit("$TITLE");
        reveal_strlit("$BODY");
        reveal_strlit("$STYLESHEET_URL");
        assert("$TITLE"@ =~= title_token());
        assert("$BODY"@ =~= body_token());
        assert("$STYLESHEET_URL"@ =~= stylesheet_token());
    }
    let step_title = replace(template, "$TITLE", title);
    let step_body = replace(step_title.as_str(), "$BODY", body);
    replace(step_body.as_str(), "$STYLESHEET_URL", stylesheet)
}

/// The opening of the inline stylesheet form.
pub open spec fn style_open() -> Seq<char> {
    seq!['<', 's', 't', 'y', 'l', 'e', '>']
}

/// The closing of the inline stylesheet form.
pub open spec fn style_close() -> Seq<char> {
    seq!['<', '/', 's', 't', 'y', 'l', 'e', '>']
}

/// The opening of the stylesheet reference form.
pub open spec fn link_open() -> Seq<char> {
    seq!['<', 'l', 'i', 'n', 'k', ' ', 'r', 'e', 'l', '=', '\'', 's', 't', 'y', 'l', 'e', 's',
        'h', 'e', 'e', 't', '\'', ' ', 'h', 'r', 'e', 'f', '=', '\'']
}

/// The closing of the stylesheet reference form.
pub open spec fn link_close() -> Seq<char> {
    seq!['\'', ' ', '/', '>']
}

/// The inline form of a stylesheet: the file's text inside a style element.
pub fn inline_stylesheet(css: &str) -> (r: String)
    ensures
        r@ == style_open() + css@ + style_close(),
{
    let mut out = String::from_str("<style>");
    out.append(css);
    out.append("</style>");
    proof {
        reveal_strlit("<style>");
        reveal_strlit("</style>");
        assert(out@ =~= style_open() + css@ + style_close());
    }
    out
}

/// The reference form of a stylesheet: a link element naming the locator.
pub fn link_stylesheet(url: &str) -> (r: String)
    ensures
        r@ == link_open() + url@ + link_close(),
{
    let mut out = String::from_str("<link rel='stylesheet' href='");
    out.append(url);
    out.append("' />");
    proof {
        reveal_strlit("<link rel='stylesheet' href='");
        reveal_strlit("' />");
        assert(out@ =~= link_open() + url@ + link_close());
    }
    out
}

/// The full page for a plain-text document: the heuristic's title and body
/// substituted into the template, then the stylesheet reference.
pub open spec fn page_of(tpl: Seq<char>, content: Seq<char>, stylesheet: Seq<char>) -> Seq<char> {
    replace_all(
        replace_all(replace_all(tpl, title_token(), raw_title(content)), body_token(), raw_body(content)),
        stylesheet_token(),
        stylesheet,
    )
}

/// Whether a template still holds its raw text or the substituted page.
#[allow(non_camel_case_types)]
#[derive(Clone, Copy, PartialEq, Eq, Structural, Debug)]
pub enum TemplateState {
    PARSED,
    RAW,
}

/// A page template: a text buffer with the three placeholder tokens, and
/// the state of its substitution.
pub struct Template {
    content: String,
    state: TemplateState,
}

impl View for Template {
    type V = Seq<char>;

    closed spec fn view(&self) -> Seq<char> {
        self.content@
    }
}

impl Template {
    /// Whether the placeholders have been substituted.
    pub closed spec fn parsed(&self) -> bool {
        self.state is PARSED
    }

    /// A template over the given raw text.
    pub fn new(content: String) -> (r: Template)
        ensures
            r@ == content@,
            !r.parsed(),
    {
        Template { content, state: TemplateState::RAW }
    }

    /// The template's state.
    pub fn state(&self) -> (r: &TemplateState)
        ensures
            (*r is PARSED) == self.parsed(),
    {
        &self.state
    }

    /// The current text.
    pub fn content(&self) -> (r: &str)
        ensures
            r@ == self@,
    {
        self.content.as_str()
    }

    /// Replaces the title token.
    fn set_title(&mut self, title: &str)
        ensures
            final(self)@ == replace_all(old(self)@, title_token(), title@),
            final(self).parsed() == old(self).parsed(),
    {
        proof {
            reveal_strlit("$TITLE");
            assert("$TITLE"@ =~= title_token());
        }
        let next = replace(self.content.as_str(), "$TITLE", title);
        self.content = next;
    }

    /// Replaces the stylesheet token.
    fn set_styleshet(&mut self, url: &str)
        ensures
            final(self)@ == replace_all(old(self)@, stylesheet_token(), url@),
            final(self).parsed() == old(self).parsed(),
    {
        proof {
            reveal_strlit("$STYLESHEET_URL");
            assert("$STYLESHEET_URL"@ =~= stylesheet_token());
        }
        let next = replace(self.content.as_str(), "$STYLESHEET_URL", url);
        self.content = next;
    }

    /// Replaces the body token.
    fn set_body(&mut self, body: &str)
        ensures
            final(self)@ == replace_all(old(self)@, body_token(), body@),
            final(self).parsed() == old(self).parsed(),
    {
        proof {
            reveal_strlit("$BODY");
            assert("$BODY"@ =~= body_token());
        }
        let next = replace(self.content.as_str(), "$BODY", body);
        self.content = next;
    }

    /// Reads `content` as a plain-text document and substitutes the
    /// inferred title, the body, and the stylesheet reference into the
    /// template.
    pub fn parse(&mut self, content: &str, args: &ArgParser)
        ensures
            final(self)@ == page_of(old(self)@, content@, args.spec_stylesheet()),
            final(self).parsed(),
    {
        let split = split_raw_text(content);
        self.set_title(split.0.as_str());
        self.set_body(split.1.as_str());
        self.set_styleshet(args.stylesheet());
        self.state = TemplateState::PARSED;
    }
}

} // verus!
