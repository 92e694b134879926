//! Character classification, bounded trimming, and line splitting: the
//! text-level groundwork that both document dialects build on.

use vstd::prelude::*;

verus! {

/// The Unicode `White_Space` characters: the set that `char::is_whitespace`
/// recognises, written out so that every proof can see it.
pub open spec fn is_space(c: char) -> bool {
    ||| c == ' '
    ||| c == '\t'
    ||| c == '\n'
    ||| c == '\u{b}'
    ||| c == '\u{c}'
    ||| c == '\r'
    ||| c == '\u{85}'
    ||| c == '\u{a0}'
    ||| c == '\u{1680}'
    ||| (0x2000 <= c as u32 && c as u32 <= 0x200a)
    ||| c == '\u{2028}'
    ||| c == '\u{2029}'
    ||| c == '\u{202f}'
    ||| c == '\u{205f}'
    ||| c == '\u{3000}'
}

/// Decides the `White_Space` property of one character.
pub fn is_space_char(c: char) -> (r: bool)
    ensures
        r == is_space(c),
{
    let u = c as u32;
    u == 0x20 || u == 0x09 || u == 0x0a || u == 0x0b || u == 0x0c || u == 0x0d || u == 0x85
        || u == 0xa0 || u == 0x1680 || (0x2000 <= u && u <= 0x200a) || u == 0x2028
        || u == 0x2029 || u == 0x202f || u == 0x205f || u == 0x3000
}

/// The predicate "is exactly the character `c`".
pub open spec fn eq_char(c: char) -> spec_fn(char) -> bool {
    |x: char| x == c
}

/// The predicate "is a whitespace character".
pub open spec fn space_pred() -> spec_fn(char) -> bool {
    |x: char| is_space(x)
}

/// The predicate "is not a line feed".
pub open spec fn not_newline() -> spec_fn(char) -> bool {
    |x: char| x != '\n'
}

/// The length of the longest prefix of `s` whose characters all satisfy `p`.
pub open spec fn prefix_len(s: Seq<char>, p: spec_fn(char) -> bool) -> nat
    decreases s.len(),
{
    if s.len() > 0 && p(s[0]) {
        1 + prefix_len(s.drop_first(), p)
    } else {
        0
    }
}

/// The length of the longest suffix of `s` whose characters all satisfy `p`.
pub open spec fn suffix_len(s: Seq<char>, p: spec_fn(char) -> bool) -> nat
    decreases s.len(),
{
    if s.len() > 0 && p(s.last()) {
        1 + suffix_len(s.drop_last(), p)
    } else {
        0
    }
}

pub(crate) proof fn lemma_prefix_len_facts(s: Seq<char>, p: spec_fn(char) -> bool)
    ensures
        prefix_len(s, p) <= s.len(),
        forall|j: int| 0 <= j < prefix_len(s, p) ==> p(s[j]),
        prefix_len(s, p) < s.len() ==> !p(s[prefix_len(s, p) as int]),
    decreases s.len(),
{
    if s.len() > 0 && p(s[0]) {
        lemma_prefix_len_facts(s.drop_first(), p);
        let t = s.drop_first();
        assert forall|j: int| 0 <= j < prefix_len(s, p) implies p(s[j]) by {
            if j > 0 {
                assert(t[j - 1] == s[j]);
            }
        }
        if prefix_len(s, p) < s.len() {
            assert(t[prefix_len(t, p) as int] == s[prefix_len(s, p) as int]);
        }
    }
}

/// A position that looks like the end of the `p`-prefix is the end of it.
pub(crate) proof fn lemma_prefix_len_is(s: Seq<char>, p: spec_fn(char) -> bool, k: int)
    requires
        0 <= k <= s.len(),
        forall|j: int| 0 <= j < k ==> p(s[j]),
        k < s.len() ==> !p(s[k]),
    ensures
        prefix_len(s, p) == k,
    decreases s.len(),
{
    if s.len() > 0 && p(s[0]) {
        let t = s.drop_first();
        assert(k >= 1);
        assert forall|j: int| 0 <= j < k - 1 implies p(t[j]) by {
            assert(t[j] == s[j + 1]);
        }
        if k - 1 < t.len() {
            assert(t[k - 1] == s[k]);
        }
        lemma_prefix_len_is(t, p, k - 1);
    } else {
        if k > 0 {
            assert(p(s[0]));
        }
    }
}

pub(crate) proof fn lemma_suffix_len_facts(s: Seq<char>, p: spec_fn(char) -> bool)
    ensures
        suffix_len(s, p) <= s.len(),
        forall|j: int| s.len() - suffix_len(s, p) <= j < s.len() ==> p(s[j]),
        suffix_len(s, p) < s.len() ==> !p(s[s.len() - suffix_len(s, p) - 1]),
    decreases s.len(),
{
    if s.len() > 0 && p(s.last()) {
        lemma_suffix_len_facts(s.drop_last(), p);
        let t = s.drop_last();
        assert forall|j: int| s.len() - suffix_len(s, p) <= j < s.len() implies p(s[j]) by {
            if j < s.len() - 1 {
                assert(t[j] == s[j]);
            }
        }
        if suffix_len(s, p) < s.len() {
            assert(t[t.len() - suffix_len(t, p) - 1] == s[s.len() - suffix_len(s, p) - 1]);
        }
    }
}

/// A position that looks like the start of the `p`-suffix is the start of it.
pub(crate) proof fn lemma_suffix_len_is(s: Seq<char>, p: spec_fn(char) -> bool, k: int)
    requires
        0 <= k <= s.len(),
        forall|j: int| s.len() - k <= j < s.len() ==> p(s[j]),
        k < s.len() ==> !p(s[s.len() - k - 1]),
    ensures
        suffix_len(s, p) == k,
    decreases s.len(),
{
    if s.len() > 0 && p(s.last()) {
        let t = s.drop_last();
        assert(k >= 1);
        assert forall|j: int| t.len() - (k - 1) <= j < t.len() implies p(t[j]) by {
            assert(t[j] == s[j]);
        }
        if k - 1 < t.len() {
            assert(t[t.len() - (k - 1) - 1] == s[s.len() - k - 1]);
        }
        lemma_suffix_len_is(t, p, k - 1);
    } else {
        if k > 0 {
            assert(p(s[s.len() - 1]));
        }
    }
}

/// `s` without its leading whitespace.
pub open spec fn trim_start_ws(s: Seq<char>) -> Seq<char> {
    s.skip(prefix_len(s, space_pred()) as int)
}

/// `s` without its trailing whitespace.
pub open spec fn trim_end_ws(s: Seq<char>) -> Seq<char> {
    s.take(s.len() - suffix_len(s, space_pred()))
}

/// `s` without leading and trailing whitespace, as `str::trim` leaves it.
pub open spec fn trim_ws(s: Seq<char>) -> Seq<char> {
    trim_end_ws(trim_start_ws(s))
}

/// `s` without its trailing run of the character `c`.
pub open spec fn trim_end_run(s: Seq<char>, c: char) -> Seq<char> {
    s.take(s.len() - suffix_len(s, eq_char(c)))
}

pub open spec fn min_int(a: int, b: int) -> int {
    if a < b {
        a
    } else {
        b
    }
}

/// `s` without its leading run of `c`, where at most `n` characters go.
pub open spec fn spec_trim_start_at_most(s: Seq<char>, c: char, n: int) -> Seq<char> {
    s.skip(min_int(prefix_len(s, eq_char(c)) as int, n))
}

/// `s` without its trailing run of `c`, where at most `n` characters go.
pub open spec fn spec_trim_end_at_most(s: Seq<char>, c: char, n: int) -> Seq<char> {
    s.take(s.len() - min_int(suffix_len(s, eq_char(c)) as int, n))
}

/// Counts the leading run of the character `c` in `s`.
pub fn leading_run(s: &str, c: char) -> (k: usize)
    ensures
        k == prefix_len(s@, eq_char(c)),
{
    let n = s.unicode_len();
    let mut i: usize = 0;
    while i < n
        invariant
            0 <= i <= n,
            n == s@.len(),
            forall|j: int| 0 <= j < i ==> (eq_char(c))(s@[j]),
        decreases n - i,
    {
        if s.get_char(i) != c {
            proof {
                lemma_prefix_len_is(s@, eq_char(c), i as int);
            }
            return i;
        }
        i += 1;
    }
    proof {
        lemma_prefix_len_is(s@, eq_char(c), n as int);
    }
    i
}

/// Counts the trailing run of the character `c` in `s`.
pub fn trailing_run(s: &str, c: char) -> (k: usize)
    ensures
        k == suffix_len(s@, eq_char(c)),
{
    let n = s.unicode_len();
    let mut i: usize = 0;
    while i < n
        invariant
            0 <= i <= n,
            n == s@.len(),
            forall|j: int| n - i <= j < n ==> (eq_char(c))(s@[j]),
        decreases n - i,
    {
        if s.get_char(n - 1 - i) != c {
            proof {
                lemma_suffix_len_is(s@, eq_char(c), i as int);
            }
            return i;
        }
        i += 1;
    }
    proof {
        lemma_suffix_len_is(s@, eq_char(c), n as int);
    }
    i
}

/// Counts the leading whitespace of `s`.
pub fn leading_ws(s: &str) -> (k: usize)
    ensures
        k == prefix_len(s@, space_pred()),
{
    let n = s.unicode_len();
    let mut i: usize = 0;
    while i < n
        invariant
            0 <= i <= n,
            n == s@.len(),
            forall|j: int| 0 <= j < i ==> (space_pred())(s@[j]),
        decreases n - i,
    {
        if !is_space_char(s.get_char(i)) {
            proof {
                lemma_prefix_len_is(s@, space_pred(), i as int);
            }
            return i;
        }
        i += 1;
    }
    proof {
        lemma_prefix_len_is(s@, space_pred(), n as int);
    }
    i
}

/// Counts the trailing whitespace of `s`.
pub fn trailing_ws(s: &str) -> (k: usize)
    ensures
        k == suffix_len(s@, space_pred()),
{
    let n = s.unicode_len();
    let mut i: usize = 0;
    while i < n
        invariant
            0 <= i <= n,
            n == s@.len(),
            forall|j: int| n - i <= j < n ==> (space_pred())(s@[j]),
        decreases n - i,
    {
        if !is_space_char(s.get_char(n - 1 - i)) {
            proof {
                lemma_suffix_len_is(s@, space_pred(), i as int);
            }
            return i;
        }
        i += 1;
    }
    proof {
        lemma_suffix_len_is(s@, space_pred(), n as int);
    }
    i
}

/// Removes at most `number_of_times` leading copies of `character_to_skip`.
pub fn trim_start_at_most<'a>(line: &'a str, character_to_skip: char, number_of_times: usize) -> (r:
    &'a str)
    ensures
        r@ == spec_trim_start_at_most(line@, character_to_skip, number_of_times as int),
{
    let n = line.unicode_len();
    let run = leading_run(line, character_to_skip);
    let k = if run < number_of_times {
        run
    } else {
        number_of_times
    };
    proof {
        lemma_prefix_len_facts(line@, eq_char(character_to_skip));
    }
    let r = line.substring_char(k, n);
    proof {
        assert(r@ =~= spec_trim_start_at_most(
            line@,
            character_to_skip,
            number_of_times as int,
        ));
    }
    r
}

/// Removes at most `number_of_times` trailing copies of `character_to_skip`.
pub fn trim_end_at_most<'a>(line: &'a str, character_to_skip: char, number_of_times: usize) -> (r:
    &'a str)
    ensures
        r@ == spec_trim_end_at_most(line@, character_to_skip, number_of_times as int),
{
    let n = line.unicode_len();
    let run = trailing_run(line, character_to_skip);
    let k = if run < number_of_times {
        run
    } else {
        number_of_times
    };
    proof {
        lemma_suffix_len_facts(line@, eq_char(character_to_skip));
    }
    let r = line.substring_char(0, n - k);
    proof {
        assert(r@ =~= spec_trim_end_at_most(
            line@,
            character_to_skip,
            number_of_times as int,
        ));
    }
    r
}

/// `str::trim`: both ends stripped of whitespace.
pub fn trim_str<'a>(s: &'a str) -> (r: &'a str)
    ensures
        r@ == trim_ws(s@),
{
    let n = s.unicode_len();
    let a = leading_ws(s);
    proof {
        lemma_prefix_len_facts(s@, space_pred());
    }
    let s2 = s.substring_char(a, n);
    proof {
        assert(s2@ =~= trim_start_ws(s@));
    }
    let n2 = s2.unicode_len();
    let b = trailing_ws(s2);
    proof {
        lemma_suffix_len_facts(s2@, space_pred());
    }
    let r = s2.substring_char(0, n2 - b);
    proof {
        assert(r@ =~= trim_ws(s@));
    }
    r
}

/// Strips the trailing whitespace of `s`.
pub fn trim_end_str<'a>(s: &'a str) -> (r: &'a str)
    ensures
        r@ == trim_end_ws(s@),
{
    let n = s.unicode_len();
    let b = trailing_ws(s);
    proof {
        lemma_suffix_len_facts(s@, space_pred());
    }
    let r = s.substring_char(0, n - b);
    proof {
        assert(r@ =~= trim_end_ws(s@));
    }
    r
}

/// Strips the trailing run of `c` from `s`.
pub fn trim_end_run_str<'a>(s: &'a str, c: char) -> (r: &'a str)
    ensures
        r@ == trim_end_run(s@, c),
{
    let n = s.unicode_len();
    let b = trailing_run(s, c);
    proof {
        lemma_suffix_len_facts(s@, eq_char(c));
    }
    let r = s.substring_char(0, n - b);
    proof {
        assert(r@ =~= trim_end_run(s@, c));
    }
    r
}

/// A line as `str::lines` hands it out: the trailing carriage return goes
/// only together with a line feed.
pub open spec fn strip_cr(line: Seq<char>) -> Seq<char> {
    if line.len() > 0 && line.last() == '\r' {
        line.drop_last()
    } else {
        line
    }
}

/// The lines of `s`, split as `str::lines` splits them: at every line feed,
/// with a carriage return directly before one stripped, and with no empty
/// line after a final line feed.
pub open spec fn split_lines(s: Seq<char>) -> Seq<Seq<char>>
    decreases s.len(),
{
    if s.len() == 0 {
        Seq::empty()
    } else {
        let i = min_int(prefix_len(s, not_newline()) as int, s.len() as int);
        if i == s.len() {
            seq![s]
        } else {
            seq![strip_cr(s.take(i))] + split_lines(s.skip(i + 1))
        }
    }
}

/// Compares two texts character by character.
pub fn str_eq(a: &str, b: &str) -> (r: bool)
    ensures
        r == (a@ == b@),
{
    let n = a.unicode_len();
    let m = b.unicode_len();
    if n != m {
        return false;
    }
    let mut i: usize = 0;
    while i < n
        invariant
            0 <= i <= n,
            n == a@.len(),
            n == b@.len(),
            forall|j: int| 0 <= j < i ==> a@[j] == b@[j],
        decreases n - i,
    {
        if a.get_char(i) != b.get_char(i) {
            return false;
        }
        i += 1;
    }
    proof {
        assert(a@ =~= b@);
    }
    true
}

/// A non-empty text without a line feed is one single line.
pub(crate) proof fn lemma_split_lines_single(line: Seq<char>)
    requires
        line.len() > 0,
        forall|j: int| 0 <= j < line.len() ==> line[j] != '\n',
    ensures
        split_lines(line) == seq![line],
{
    assert forall|j: int| 0 <= j < line.len() implies (not_newline())(line[j]) by {}
    lemma_prefix_len_is(line, not_newline(), line.len() as int);
}

/// A line feed splits the text before it from the text after it.
pub(crate) proof fn lemma_split_lines_concat(l1: Seq<char>, l2: Seq<char>)
    requires
        forall|j: int| 0 <= j < l1.len() ==> l1[j] != '\n',
        l1.len() == 0 || l1.last() != '\r',
    ensures
        split_lines(l1 + seq!['\n'] + l2) == seq![l1] + split_lines(l2),
{
    let s = l1 + seq!['\n'] + l2;
    assert forall|j: int| 0 <= j < l1.len() implies (not_newline())(s[j]) by {
        assert(s[j] == l1[j]);
    }
    assert(s[l1.len() as int] == '\n');
    lemma_prefix_len_is(s, not_newline(), l1.len() as int);
    assert(s.take(l1.len() as int) =~= l1);
    assert(strip_cr(l1) == l1);
    assert(s.skip(l1.len() as int + 1) =~= l2);
    assert(split_lines(s) == seq![l1] + split_lines(l2));
}

/// Splits `s` into its lines.
pub fn split_lines_str(s: &str) -> (r: Vec<String>)
    ensures
        r.deep_view() == split_lines(s@),
{
    let n = s.unicode_len();
    let mut lines: Vec<String> = Vec::new();
    let mut start: usize = 0;
    proof {
        assert(s@.skip(0) =~= s@);
    }
    while start < n
        invariant
            0 <= start <= n,
            n == s@.len(),
            split_lines(s@) == lines.deep_view() + split_lines(s@.skip(start as int)),
        decreases n - start,
    {
        let ghost t = s@.skip(start as int);
        let mut j = start;
        while j < n && s.get_char(j) != '\n'
            invariant
                start <= j <= n,
                n == s@.len(),
                forall|k: int| start <= k < j ==> s@[k] != '\n',
            decreases n - j,
        {
            j += 1;
        }
        proof {
            assert forall|k: int| 0 <= k < j - start implies (not_newline())(t[k]) by {
                assert(t[k] == s@[start + k]);
            }
            if j < n {
                assert(t[j - start] == s@[j as int]);
            }
            lemma_prefix_len_is(t, not_newline(), j - start);
        }
        if j == n {
            let line = s.substring_char(start, n);
            proof {
                assert(line@ =~= t);
                assert(split_lines(t) =~= seq![t]);
                assert(s@.skip(n as int) =~= Seq::<char>::empty());
                assert((lines.deep_view() + split_lines(t)).drop_last() =~= lines.deep_view());
            }
            let owned = line.to_owned();
            lines.push(owned);
            proof {
                assert(lines.deep_view() =~= split_lines(s@));
            }
            start = n;
        } else {
            let line_end = if j > start && s.get_char(j - 1) == '\r' {
                j - 1
            } else {
                j
            };
            let line = s.substring_char(start, line_end);
            let ghost i = j - start;
            proof {
                assert(t.take(i) =~= s@.subrange(start as int, j as int));
                if j > start {
                    assert(t.take(i).last() == s@[j - 1]);
                }
                assert(line@ =~= strip_cr(t.take(i)));
                assert(t.skip(i + 1) =~= s@.skip(j + 1));
                assert(split_lines(t) == seq![strip_cr(t.take(i))] + split_lines(t.skip(i + 1)));
            }
            let owned = line.to_owned();
            let ghost old_lines = lines.deep_view();
            lines.push(owned);
            proof {
                assert(lines.deep_view() =~= old_lines.push(line@));
                assert(old_lines.push(line@) + split_lines(s@.skip(j + 1)) =~= old_lines + (seq![
                    strip_cr(t.take(i)),
                ] + split_lines(t.skip(i + 1))));
            }
            start = j + 1;
        }
    }
    proof {
        assert(s@.skip(start as int) =~= Seq::<char>::empty());
        assert(lines.deep_view() + split_lines(s@.skip(start as int)) =~= lines.deep_view());
    }
    lines
}

} // verus!
