//! Parsing config files into sections.

use vstd::prelude::*;
use crate::text::{push_char, push_chars, CharClass, is_quote, is_space, lead_len, trail_len, trim_start, trim_end, trim, count_char, find_char, rfind_char, find_triple, skip_lead, skip_trail, trim_range, trim_start_range, trim_end_range, find_in, rfind_in, count_in, find_triple_in, string_of, chars_of};
use crate::section::{Section};
use crate::value::{Value, ValueModel, texts};
use crate::section::opt_text;

verus! {

// ---------------------------------------------------------------------------
// The grammar of a single line.
// ---------------------------------------------------------------------------

/// A line, recognised but not yet interpreted.
pub enum LineModel {
    /// Nothing but white space.
    Blank,
    /// A whole-line comment.
    Comment,
    /// A section header such as `[[name]] # comment`.
    Section { indent: Seq<char>, depth: nat, name: Seq<char>, comment: Option<Seq<char>> },
    /// A `key = value` line; `rest` is everything after the `=`.
    Keyword { indent: Seq<char>, key: Seq<char>, rest: Seq<char> },
    /// Neither a section header nor a `key = value` pair.
    Invalid,
}

/// `v` with one layer of matching quotes removed.
pub open spec fn unquote_spec(v: Seq<char>) -> Seq<char> {
    if v.len() >= 2 && is_quote(v[0]) && v.last() == v[0] {
        v.subrange(1, v.len() - 1)
    } else {
        v
    }
}

/// A value as written with its quotes removed, as reading it would: a layer
/// of triple quotes when it is wrapped in three of the same quote at each
/// end, and otherwise one layer of matching quotes.
pub open spec fn unquote_value_spec(v: Seq<char>) -> Seq<char> {
    if v.len() >= 6 && is_quote(v[0]) && v[1] == v[0] && v[2] == v[0] && v[v.len() - 1] == v[0]
        && v[v.len() - 2] == v[0] && v[v.len() - 3] == v[0] {
        v.subrange(3, v.len() - 3)
    } else {
        unquote_spec(v)
    }
}

/// A comment line's text: without its leading `#` and one space after it.
pub open spec fn strip_comment_marker_spec(line: Seq<char>) -> Seq<char> {
    let t = trim_start(line);
    if t.len() > 0 && t[0] == '#' {
        let r = t.drop_first();
        if r.len() > 0 && r[0] == ' ' {
            r.drop_first()
        } else {
            r
        }
    } else {
        t
    }
}

/// The comment after a section header's closing brackets: nothing, or `#`
/// and the comment text. Anything else spoils the header.
pub open spec fn header_comment(after: Seq<char>) -> Option<Option<Seq<char>>> {
    let a = trim(after);
    if a.len() == 0 {
        Some(None)
    } else if a[0] == '#' {
        Some(Some(trim_start(a.drop_first())))
    } else {
        None
    }
}

/// Match a section header such as `[[name]] # comment`.
///
/// The depth is the number of opening brackets, which must equal the number
/// of closing ones. The name runs to the last closing bracket on the line, so
/// a `#` before it is part of the name.
pub open spec fn match_section_spec(line: Seq<char>) -> Option<LineModel> {
    let il = lead_len(line, CharClass::Space);
    let indent = line.take(il as int);
    let rest = line.skip(il as int);
    let open = lead_len(rest, CharClass::Open);
    let depth = count_char(rest.take(open as int), '[');
    let body = rest.skip(open as int);
    if depth == 0 {
        None
    } else {
        match rfind_char(body, ']') {
            None => None,
            Some(lc) => match header_comment(body.skip(lc + 1)) {
                None => None,
                Some(comment) => {
                    let b = trim_end(body.take(lc + 1));
                    let cs = trail_len(b, CharClass::Close);
                    let name = trim(b.take(b.len() - cs));
                    if count_char(b.skip(b.len() - cs), ']') != depth || name.len() == 0 {
                        None
                    } else {
                        Some(LineModel::Section { indent, depth, name, comment })
                    }
                },
            },
        }
    }
}

/// Where a `key = value` line's key ends: just past a closing quote for a
/// quoted key, else at the first `=`.
pub open spec fn key_end(rest: Seq<char>) -> Option<int> {
    if rest.len() > 0 && is_quote(rest[0]) {
        match find_char(rest.drop_first(), rest[0]) {
            Some(c) => Some(c + 2),
            None => None,
        }
    } else {
        find_char(rest, '=')
    }
}

/// Match a `key = value` line, returning the key and everything after the `=`.
pub open spec fn match_keyword_spec(line: Seq<char>) -> Option<LineModel> {
    let il = lead_len(line, CharClass::Space);
    let indent = line.take(il as int);
    let rest = line.skip(il as int);
    if rest.len() > 0 && rest[0] == '=' {
        None
    } else {
        match key_end(rest) {
            None => None,
            Some(after) => match find_char(rest.skip(after), '=') {
                None => None,
                Some(e) => {
                    let key = trim(rest.take(after));
                    if key.len() == 0 {
                        None
                    } else {
                        Some(
                            LineModel::Keyword {
                                indent,
                                key,
                                rest: trim_start(rest.skip(after + e + 1)),
                            },
                        )
                    }
                },
            },
        }
    }
}

/// What kind of line `raw` is.
pub open spec fn classify_spec(raw: Seq<char>) -> LineModel {
    let t = trim(raw);
    if t.len() == 0 {
        LineModel::Blank
    } else if t[0] == '#' {
        LineModel::Comment
    } else {
        match match_section_spec(raw) {
            Some(s) => s,
            None => match match_keyword_spec(raw) {
                Some(k) => k,
                None => LineModel::Invalid,
            },
        }
    }
}

// ---------------------------------------------------------------------------
// The grammar of a value.
// ---------------------------------------------------------------------------

/// The quote character a value's opening triple quote is made of, if it
/// opens with one.
pub open spec fn triple_quote_prefix_spec(v: Seq<char>) -> Option<char> {
    if v.len() >= 3 && v[0] == '"' && v[1] == '"' && v[2] == '"' {
        Some('"')
    } else if v.len() >= 3 && v[0] == '\'' && v[1] == '\'' && v[2] == '\'' {
        Some('\'')
    } else {
        None
    }
}

/// The text after a closing quote read as an optional comment; anything but
/// white space or a comment there is an error.
pub open spec fn trailing_comment_spec(rest: Seq<char>) -> Option<Option<Seq<char>>> {
    header_comment(rest)
}

/// How far a scan through a value has got: whether it is inside a quoted
/// region, and whether the next character starts a list item.
#[derive(Clone, Copy)]
pub struct ScanState {
    pub quote: Option<char>,
    pub at_item_start: bool,
}

/// One character of the scan. A quote opens a quoted region only at the
/// start of a value or list item; inside one, only the same quote closes it.
pub open spec fn scan_step(st: ScanState, c: char) -> ScanState {
    match st.quote {
        Some(open) => if c == open {
            ScanState { quote: None, at_item_start: false }
        } else {
            st
        },
        None => if is_quote(c) && st.at_item_start {
            ScanState { quote: Some(c), at_item_start: true }
        } else if c == ',' {
            ScanState { quote: None, at_item_start: true }
        } else if is_space(c) {
            st
        } else {
            ScanState { quote: None, at_item_start: false }
        },
    }
}

/// The scan state after the first `n` characters of `s`.
pub open spec fn scan(s: Seq<char>, n: int) -> ScanState
    decreases n,
{
    if n <= 0 {
        ScanState { quote: None, at_item_start: true }
    } else {
        scan_step(scan(s, n - 1), s[n - 1])
    }
}

/// Position `i` holds a `#` outside any quoted region.
pub open spec fn is_comment_start(s: Seq<char>, i: int) -> bool {
    &&& 0 <= i < s.len()
    &&& s[i] == '#'
    &&& scan(s, i).quote is None
}

/// `i` is the first position where a comment starts.
pub open spec fn is_first_comment_start(s: Seq<char>, i: int) -> bool {
    &&& is_comment_start(s, i)
    &&& forall|j: int| 0 <= j < i ==> !is_comment_start(s, j)
}

/// Split a value into its content and trailing comment. An unterminated
/// quote with no comment after it is not a usable value.
pub open spec fn split_comment_spec(v: Seq<char>) -> Option<(Seq<char>, Option<Seq<char>>)> {
    if exists|i: int| is_first_comment_start(v, i) {
        let i = choose|i: int| is_first_comment_start(v, i);
        Some((v.take(i), Some(trim_start(v.skip(i + 1)))))
    } else if scan(v, v.len() as int).quote is Some {
        None
    } else {
        Some((v, None))
    }
}

/// Position `i` holds a comma outside any quoted region.
pub open spec fn is_split_comma(s: Seq<char>, i: int) -> bool {
    &&& 0 <= i < s.len()
    &&& s[i] == ','
    &&& scan(s, i).quote is None
}

/// The pieces of the first `n` characters of `s` between the commas that
/// split it, untrimmed. There is always at least one piece.
pub open spec fn segments(s: Seq<char>, n: int) -> Seq<Seq<char>>
    decreases n,
{
    if n <= 0 {
        seq![Seq::empty()]
    } else if is_split_comma(s, n - 1) {
        segments(s, n - 1).push(Seq::empty())
    } else {
        let p = segments(s, n - 1);
        p.update(p.len() - 1, p.last().push(s[n - 1]))
    }
}

/// A value body: a single item, or the items of a list.
pub enum ItemsModel {
    Single(Seq<char>),
    List(Seq<Seq<char>>),
}

/// Each piece trimmed.
pub open spec fn trim_all(p: Seq<Seq<char>>) -> Seq<Seq<char>> {
    p.map_values(|x: Seq<char>| trim(x))
}

/// Split on commas that are not inside quotes.
///
/// A trailing comma marks a list, so `a,` is a one-element list while `a` is
/// a plain value; an empty last piece is dropped.
pub open spec fn split_commas_spec(body: Seq<char>) -> Option<ItemsModel> {
    let sg = segments(body, body.len() as int);
    if scan(body, body.len() as int).quote is Some {
        None
    } else if sg.len() == 1 {
        Some(ItemsModel::Single(body))
    } else {
        let parts = trim_all(sg.drop_last());
        let last = trim(sg.last());
        Some(ItemsModel::List(if last.len() > 0 { parts.push(last) } else { parts }))
    }
}

/// A list item is non-empty, and a leading quote is closed at its very end.
pub open spec fn check_item_spec(item: Seq<char>) -> bool {
    &&& item.len() > 0
    &&& is_quote(item[0]) ==> item.len() >= 2 && item.last() == item[0]
}

/// Each item unquoted.
pub open spec fn unquote_all(p: Seq<Seq<char>>) -> Seq<Seq<char>> {
    p.map_values(|x: Seq<char>| unquote_spec(x))
}

/// Read a value with list handling: unquote, and split on unquoted commas.
pub open spec fn split_value_spec(value: Seq<char>) -> Option<(ValueModel, Option<Seq<char>>)> {
    match split_comment_spec(value) {
        None => None,
        Some((b, comment)) => {
            let body = trim(b);
            if body == seq![','] {
                Some((ValueModel::List(Seq::empty()), comment))
            } else if body.len() == 0 {
                Some((ValueModel::String(Seq::empty()), comment))
            } else {
                match split_commas_spec(body) {
                    None => None,
                    Some(ItemsModel::Single(item)) => if check_item_spec(item) {
                        Some((ValueModel::String(unquote_spec(item)), comment))
                    } else {
                        None
                    },
                    Some(ItemsModel::List(items)) => if forall|i: int|
                        0 <= i < items.len() ==> check_item_spec(#[trigger] items[i]) {
                        Some((ValueModel::List(unquote_all(items)), comment))
                    } else {
                        None
                    },
                }
            }
        },
    }
}

/// Read a value without list handling: the text as written, minus a trailing
/// comment. A value that starts with a quote must be one well-formed quoted
/// string.
pub open spec fn split_value_no_lists_spec(value: Seq<char>) -> Option<(ValueModel, Option<Seq<char>>)> {
    match split_comment_spec(value) {
        None => None,
        Some((b, comment)) => {
            let body = trim(b);
            if body.len() > 0 && is_quote(body[0]) && !(body.len() >= 2 && body.last() == body[0]) {
                None
            } else {
                Some((ValueModel::String(body), comment))
            }
        },
    }
}

/// Continue a triple-quoted value from the line after `cursor`: the text,
/// the comment after the closing quote, and the index of the closing line.
pub open spec fn multiline_from(q: char, text: Seq<char>, lines: Seq<Seq<char>>, cursor: int) -> Option<
    (Seq<char>, Option<Seq<char>>, int),
>
    decreases lines.len() - cursor,
{
    if 0 <= cursor && cursor + 1 < lines.len() {
        let line = lines[cursor + 1];
        match find_triple(line, q) {
            None => multiline_from(q, text.push('\n') + line, lines, cursor + 1),
            Some(end) => match trailing_comment_spec(line.skip(end + 3)) {
                Some(c) => Some((text.push('\n') + line.take(end), c, cursor + 1)),
                None => None,
            },
        }
    } else {
        None
    }
}

/// Read a triple-quoted value opened by `first` on line `index`, which may
/// close on the same line or a later one.
pub open spec fn read_multiline_spec(q: char, first: Seq<char>, lines: Seq<Seq<char>>, index: int) -> Option<
    (Seq<char>, Option<Seq<char>>, int),
> {
    let body = first.skip(3);
    match find_triple(body, q) {
        Some(end) => match trailing_comment_spec(body.skip(end + 3)) {
            Some(c) => Some((body.take(end), c, index)),
            None => None,
        },
        None => multiline_from(q, body, lines, index),
    }
}

/// The outcome of reading a value.
pub enum ReadModel {
    /// The value, its comment, and the index of the last line it used.
    Read(ValueModel, Option<Seq<char>>, int),
    /// A triple-quoted value that was never closed properly.
    BadMultiline,
    /// A value that could not be read.
    BadValue,
}

/// Read the value of a `key = value` line at `index`, following a
/// triple-quoted value across lines.
pub open spec fn read_value_spec(rest: Seq<char>, lines: Seq<Seq<char>>, index: int, list_values: bool) -> ReadModel {
    match triple_quote_prefix_spec(rest) {
        Some(q) => match read_multiline_spec(q, rest, lines, index) {
            Some((text, c, last)) => ReadModel::Read(ValueModel::String(text), c, last),
            None => ReadModel::BadMultiline,
        },
        None => match if list_values {
            split_value_spec(rest)
        } else {
            split_value_no_lists_spec(rest)
        } {
            Some((v, c)) => ReadModel::Read(v, c, index),
            None => ReadModel::BadValue,
        },
    }
}


// ---------------------------------------------------------------------------
// Recognising lines.
// ---------------------------------------------------------------------------

/// The text between two positions of a line.
pub open spec fn range_text(line: Seq<char>, r: (usize, usize)) -> Seq<char> {
    line.subrange(r.0 as int, r.1 as int)
}

/// The two positions are in order and within the line.
pub open spec fn range_ok(line: Seq<char>, r: (usize, usize)) -> bool {
    r.0 <= r.1 <= line.len()
}

/// The bounds of `v[start..end]` with one layer of matching quotes removed.
pub fn unquote_range(v: &[char], start: usize, end: usize) -> (r: (usize, usize))
    requires
        start <= end <= v@.len(),
    ensures
        start <= r.0 <= r.1 <= end,
        range_text(v@, r) == unquote_spec(v@.subrange(start as int, end as int)),
{
    let ghost s = v@.subrange(start as int, end as int);
    if end - start >= 2 && (v[start] == '"' || v[start] == '\'') && v[end - 1] == v[start] {
        assert(s[0] == v@[start as int]);
        assert(s.last() == v@[end - 1]);
        assert(v@.subrange(start + 1, end - 1) =~= s.subrange(1, s.len() - 1));
        (start + 1, end - 1)
    } else {
        proof {
            if s.len() >= 2 {
                assert(s[0] == v@[start as int]);
                assert(s.last() == v@[end - 1]);
            }
        }
        (start, end)
    }
}

/// A comment line's text, without its leading `#` and one space after it.
pub fn strip_comment_marker(line: &[char]) -> (r: String)
    ensures
        r@ == strip_comment_marker_spec(line@),
{
    let n = line.len();
    let a = trim_start_range(line, 0, n);
    assert(line@.subrange(0, n as int) == line@);
    let ghost t = line@.subrange(a as int, n as int);
    if a < n && line[a] == '#' {
        assert(t.drop_first() =~= line@.subrange(a + 1, n as int));
        if a + 1 < n && line[a + 1] == ' ' {
            assert(t.drop_first().drop_first() =~= line@.subrange(a + 2, n as int));
            string_of(line, a + 2, n)
        } else {
            string_of(line, a + 1, n)
        }
    } else {
        string_of(line, a, n)
    }
}

/// Where the pieces of a section header lie on its line.
pub struct SectionMatch {
    pub indent_end: usize,
    pub depth: usize,
    pub name: (usize, usize),
    pub comment: Option<(usize, usize)>,
}

/// The pieces of a section header match the model of that line.
pub open spec fn section_match_is(m: SectionMatch, line: Seq<char>, lm: LineModel) -> bool {
    &&& m.indent_end <= line.len()
    &&& range_ok(line, m.name)
    &&& lm matches LineModel::Section { indent, depth, name, comment }
    &&& line.take(m.indent_end as int) == indent
    &&& m.depth == depth
    &&& range_text(line, m.name) == name
    &&& match (m.comment, comment) {
        (Some(r), Some(c)) => range_ok(line, r) && range_text(line, r) == c,
        (None, None) => true,
        _ => false,
    }
}

/// Match a section header such as `[[name]] # comment`.
#[verifier::rlimit(40)]
pub fn match_section(line: &[char]) -> (r: Option<SectionMatch>)
    ensures
        match match_section_spec(line@) {
            Some(lm) => (r matches Some(m) && section_match_is(m, line@, lm)),
            None => r is None,
        },
{
    let n = line.len();
    assert(line@.subrange(0, n as int) == line@);
    let il = skip_lead(line, 0, n, CharClass::Space);
    let ghost rest = line@.skip(il as int);
    assert(rest =~= line@.subrange(il as int, n as int));
    let open_end = skip_lead(line, il, n, CharClass::Open);
    assert(rest.take(open_end - il) =~= line@.subrange(il as int, open_end as int));
    let depth = count_in(line, il, open_end, '[');
    if depth == 0 {
        return None;
    }
    let ghost body = rest.skip(open_end - il);
    assert(body =~= line@.subrange(open_end as int, n as int));
    let lc = match rfind_in(line, open_end, n, ']') {
        Some(k) => k,
        None => {
            return None;
        },
    };
    let after_start = open_end + lc + 1;
    assert(body.skip(lc + 1) =~= line@.subrange(after_start as int, n as int));
    let (a0, a1) = trim_range(line, after_start, n);
    let comment = if a0 == a1 {
        None
    } else if line[a0] == '#' {
        let ghost a = line@.subrange(a0 as int, a1 as int);
        assert(a.drop_first() =~= line@.subrange(a0 + 1, a1 as int));
        let c0 = trim_start_range(line, a0 + 1, a1);
        Some((c0, a1))
    } else {
        return None;
    };
    assert(body.take(lc + 1) =~= line@.subrange(open_end as int, after_start as int));
    let b_end = trim_end_range(line, open_end, after_start);
    let ghost b = line@.subrange(open_end as int, b_end as int);
    let cs_start = skip_trail(line, open_end, b_end, CharClass::Close);
    assert(b.take(b.len() - trail_len(b, CharClass::Close)) =~= line@.subrange(
        open_end as int,
        cs_start as int,
    ));
    assert(b.skip(b.len() - trail_len(b, CharClass::Close)) =~= line@.subrange(
        cs_start as int,
        b_end as int,
    ));
    let closes = count_in(line, cs_start, b_end, ']');
    let (n0, n1) = trim_range(line, open_end, cs_start);
    if closes != depth || n0 == n1 {
        return None;
    }
    Some(SectionMatch { indent_end: il, depth, name: (n0, n1), comment })
}

/// Where the pieces of a `key = value` line lie on it.
pub struct KeywordMatch {
    pub indent_end: usize,
    pub key: (usize, usize),
    pub rest_start: usize,
}

/// The pieces of a `key = value` line match the model of that line.
pub open spec fn keyword_match_is(m: KeywordMatch, line: Seq<char>, lm: LineModel) -> bool {
    &&& m.indent_end <= line.len()
    &&& m.rest_start <= line.len()
    &&& range_ok(line, m.key)
    &&& lm matches LineModel::Keyword { indent, key, rest }
    &&& line.take(m.indent_end as int) == indent
    &&& range_text(line, m.key) == key
    &&& line.skip(m.rest_start as int) == rest
}

/// Match a `key = value` line, returning the key and everything after the `=`.
#[verifier::rlimit(40)]
pub fn match_keyword(line: &[char]) -> (r: Option<KeywordMatch>)
    ensures
        match match_keyword_spec(line@) {
            Some(lm) => (r matches Some(m) && keyword_match_is(m, line@, lm)),
            None => r is None,
        },
{
    let n = line.len();
    assert(line@.subrange(0, n as int) == line@);
    let il = skip_lead(line, 0, n, CharClass::Space);
    let ghost rest = line@.skip(il as int);
    assert(rest =~= line@.subrange(il as int, n as int));
    if il < n && line[il] == '=' {
        return None;
    }
    let after: usize = if il < n && (line[il] == '"' || line[il] == '\'') {
        assert(rest.drop_first() =~= line@.subrange(il + 1, n as int));
        match find_in(line, il + 1, n, line[il]) {
            Some(c) => c + 2,
            None => {
                return None;
            },
        }
    } else {
        match find_in(line, il, n, '=') {
            Some(e) => e,
            None => {
                return None;
            },
        }
    };
    assert(rest.skip(after as int) =~= line@.subrange(il + after, n as int));
    let e = match find_in(line, il + after, n, '=') {
        Some(e) => e,
        None => {
            return None;
        },
    };
    assert(rest.take(after as int) =~= line@.subrange(il as int, il + after));
    let (k0, k1) = trim_range(line, il, il + after);
    if k0 == k1 {
        return None;
    }
    let value_start = il + after + e + 1;
    assert(rest.skip(after + e + 1) =~= line@.subrange(value_start as int, n as int));
    let rs = trim_start_range(line, value_start, n);
    assert(line@.skip(rs as int) =~= line@.subrange(rs as int, n as int));
    Some(KeywordMatch { indent_end: il, key: (k0, k1), rest_start: rs })
}

/// What kind of line a raw line is, with the positions of its pieces.
pub enum Line {
    Blank,
    Comment,
    Section(SectionMatch),
    Keyword(KeywordMatch),
    Invalid,
}

/// A recognised line agrees with the model of that line.
pub open spec fn line_is(l: Line, line: Seq<char>) -> bool {
    match classify_spec(line) {
        LineModel::Blank => l is Blank,
        LineModel::Comment => l is Comment,
        LineModel::Invalid => l is Invalid,
        LineModel::Section { .. } => (l matches Line::Section(m) && section_match_is(
            m,
            line,
            classify_spec(line),
        )),
        LineModel::Keyword { .. } => (l matches Line::Keyword(m) && keyword_match_is(
            m,
            line,
            classify_spec(line),
        )),
    }
}

/// Recognise a raw line as blank, a comment, a section header, a `key =
/// value` pair, or none of these.
pub fn classify(line: &[char]) -> (l: Line)
    ensures
        line_is(l, line@),
{
    let n = line.len();
    assert(line@.subrange(0, n as int) == line@);
    let (t0, t1) = trim_range(line, 0, n);
    if t0 == t1 {
        return Line::Blank;
    }
    if line[t0] == '#' {
        return Line::Comment;
    }
    match match_section(line) {
        Some(m) => Line::Section(m),
        None => match match_keyword(line) {
            Some(m) => Line::Keyword(m),
            None => Line::Invalid,
        },
    }
}

/// The quote character of a triple quote that `v[start..]` opens with.
pub fn triple_quote_prefix(v: &[char], start: usize) -> (r: Option<char>)
    requires
        start <= v@.len(),
    ensures
        r == triple_quote_prefix_spec(v@.skip(start as int)),
{
    let ghost s = v@.skip(start as int);
    if v.len() - start >= 3 {
        assert(s[0] == v@[start as int] && s[1] == v@[start + 1] && s[2] == v@[start + 2]);
        if v[start] == '"' && v[start + 1] == '"' && v[start + 2] == '"' {
            return Some('"');
        }
        if v[start] == '\'' && v[start + 1] == '\'' && v[start + 2] == '\'' {
            return Some('\'');
        }
    }
    None
}

/// Where the comment after a closing quote lies, if what follows the quote
/// is only white space or a comment.
pub fn trailing_comment(v: &[char], start: usize, end: usize) -> (r: Option<Option<(usize, usize)>>)
    requires
        start <= end <= v@.len(),
    ensures
        match trailing_comment_spec(v@.subrange(start as int, end as int)) {
            Some(Some(c)) => (r matches Some(Some(x)) && range_ok(v@, x) && range_text(v@, x) == c),
            Some(None) => r matches Some(None),
            None => r is None,
        },
{
    let (a0, a1) = trim_range(v, start, end);
    if a0 == a1 {
        Some(None)
    } else if v[a0] == '#' {
        let ghost a = v@.subrange(a0 as int, a1 as int);
        assert(a.drop_first() =~= v@.subrange(a0 + 1, a1 as int));
        let c0 = trim_start_range(v, a0 + 1, a1);
        Some(Some((c0, a1)))
    } else {
        None
    }
}

/// One character of a scan through a value.
pub fn scan_char(st: ScanState, c: char) -> (r: ScanState)
    ensures
        r == scan_step(st, c),
{
    match st.quote {
        Some(open) => if c == open {
            ScanState { quote: None, at_item_start: false }
        } else {
            st
        },
        None => if (c == '"' || c == '\'') && st.at_item_start {
            ScanState { quote: Some(c), at_item_start: true }
        } else if c == ',' {
            ScanState { quote: None, at_item_start: true }
        } else if crate::text::char_in(c, CharClass::Space) {
            st
        } else {
            ScanState { quote: None, at_item_start: false }
        },
    }
}

/// Split `v[start..end]` into its content and trailing comment: the end of
/// the content, and where the comment text lies.
pub fn split_comment(v: &[char], start: usize, end: usize) -> (r: Option<(usize, Option<(usize, usize)>)>)
    requires
        start <= end <= v@.len(),
    ensures
        match split_comment_spec(v@.subrange(start as int, end as int)) {
            Some((b, c)) => (r matches Some((be, rc)) && start <= be <= end && v@.subrange(
                start as int,
                be as int,
            ) == b && match (rc, c) {
                (Some(x), Some(t)) => range_ok(v@, x) && range_text(v@, x) == t,
                (None, None) => true,
                _ => false,
            }),
            None => r is None,
        },
{
    let ghost s = v@.subrange(start as int, end as int);
    let mut st = ScanState { quote: None, at_item_start: true };
    let mut i: usize = start;
    while i < end
        invariant
            start <= i <= end <= v@.len(),
            s == v@.subrange(start as int, end as int),
            st == scan(s, i - start),
            forall|j: int| 0 <= j < i - start ==> !is_comment_start(s, j),
        decreases end - i,
    {
        let c = v[i];
        assert(s[i - start] == c);
        if st.quote.is_none() && c == '#' {
            let k = i - start;
            proof {
                assert(is_first_comment_start(s, k as int));
                assert forall|m: int| is_first_comment_start(s, m) implies m == k by {
                    if m < k {
                    } else if m > k {
                        assert(is_comment_start(s, k as int));
                    }
                }
                assert(s.take(k as int) =~= v@.subrange(start as int, i as int));
                assert(s.skip(k + 1) =~= v@.subrange(i + 1, end as int));
            }
            let c0 = trim_start_range(v, i + 1, end);
            return Some((i, Some((c0, end))));
        }
        st = scan_char(st, c);
        i = i + 1;
    }
    proof {
        assert forall|m: int| !is_first_comment_start(s, m) by {
            if is_first_comment_start(s, m) {
                assert(!is_comment_start(s, m));
            }
        }
    }
    if st.quote.is_some() {
        None
    } else {
        Some((end, None))
    }
}

/// A value body: one item, or the positions of a list's items.
pub enum Items {
    Single,
    List(Vec<(usize, usize)>),
}

/// Split `v[start..end]` on commas that are not inside quotes.
pub fn split_commas(v: &[char], start: usize, end: usize) -> (r: Option<Items>)
    requires
        start <= end <= v@.len(),
    ensures
        match split_commas_spec(v@.subrange(start as int, end as int)) {
            Some(ItemsModel::Single(_)) => r matches Some(Items::Single),
            Some(ItemsModel::List(items)) => (r matches Some(Items::List(parts)) && parts@.len()
                == items.len() && forall|j: int|
                0 <= j < items.len() ==> range_ok(v@, #[trigger] parts@[j]) && range_text(
                    v@,
                    parts@[j],
                ) == items[j]),
            None => r is None,
        },
{
    let ghost s = v@.subrange(start as int, end as int);
    let mut st = ScanState { quote: None, at_item_start: true };
    let mut parts: Vec<(usize, usize)> = Vec::new();
    let mut seg: usize = start;
    let mut i: usize = start;
    while i < end
        invariant
            start <= seg <= i <= end <= v@.len(),
            s == v@.subrange(start as int, end as int),
            st == scan(s, i - start),
            segments(s, i - start).len() == parts@.len() + 1,
            segments(s, i - start).last() == v@.subrange(seg as int, i as int),
            forall|j: int|
                0 <= j < parts@.len() ==> range_ok(v@, #[trigger] parts@[j]) && range_text(
                    v@,
                    parts@[j],
                ) == trim(segments(s, i - start)[j]),
        decreases end - i,
    {
        let c = v[i];
        let k: usize = i - start;
        assert(s[k as int] == c);
        let ghost p = segments(s, k as int);
        if st.quote.is_none() && c == ',' {
            assert(is_split_comma(s, k as int));
            assert(segments(s, k + 1) == p.push(Seq::empty()));
            let t = trim_range(v, seg, i);
            parts.push(t);
            seg = i + 1;
            assert(v@.subrange(seg as int, (i + 1) as int) =~= Seq::<char>::empty());
        } else {
            assert(!is_split_comma(s, k as int));
            assert(segments(s, k + 1) == p.update(p.len() - 1, p.last().push(c)));
            assert(v@.subrange(seg as int, i + 1) =~= v@.subrange(seg as int, i as int).push(c));
        }
        st = scan_char(st, c);
        i = i + 1;
    }
    let ghost sg = segments(s, s.len() as int);
    if st.quote.is_some() {
        return None;
    }
    if parts.len() == 0 {
        return Some(Items::Single);
    }
    let (l0, l1) = trim_range(v, seg, end);
    if l0 < l1 {
        parts.push((l0, l1));
    }
    proof {
        let items = split_commas_spec(s)->0->List_0;
        assert(trim_all(sg.drop_last()).len() == sg.len() - 1);
        assert forall|j: int| 0 <= j < sg.len() - 1 implies #[trigger] trim_all(sg.drop_last())[j]
            == trim(sg[j]) by {}
    }
    Some(Items::List(parts))
}

/// Whether the item `v[r.0..r.1]` could appear in a well-formed list.
pub fn check_item(v: &[char], r: (usize, usize)) -> (b: bool)
    requires
        range_ok(v@, r),
    ensures
        b == check_item_spec(range_text(v@, r)),
{
    let ghost t = range_text(v@, r);
    if r.0 == r.1 {
        return false;
    }
    assert(t[0] == v@[r.0 as int]);
    assert(t.last() == v@[r.1 - 1]);
    let c = v[r.0];
    if c == '"' || c == '\'' {
        if r.1 - r.0 < 2 || v[r.1 - 1] != c {
            return false;
        }
    }
    true
}

/// A string holding the text of an optional range.
fn opt_string(v: &[char], r: Option<(usize, usize)>) -> (s: Option<String>)
    requires
        r matches Some(x) ==> range_ok(v@, x),
    ensures
        opt_text(s) == match r {
            Some(x) => Some(range_text(v@, x)),
            None => None,
        },
{
    match r {
        Some(x) => Some(string_of(v, x.0, x.1)),
        None => None,
    }
}

/// Read `v[start..end]` as a value with list handling: unquote, and split on
/// unquoted commas.
pub fn split_value(v: &[char], start: usize, end: usize) -> (r: Option<(Value, Option<String>)>)
    requires
        start <= end <= v@.len(),
    ensures
        match split_value_spec(v@.subrange(start as int, end as int)) {
            Some((val, c)) => (r matches Some((x, rc)) && x@ == val && opt_text(rc) == c),
            None => r is None,
        },
{
    let (be, rc) = match split_comment(v, start, end) {
        Some(p) => p,
        None => {
            return None;
        },
    };
    let comment = opt_string(v, rc);
    let (b0, b1) = trim_range(v, start, be);
    let ghost body = v@.subrange(b0 as int, b1 as int);
    if b1 - b0 == 1 && v[b0] == ',' {
        assert(body =~= seq![',']);
        let val = Value::List(Vec::new());
        assert(val@ == ValueModel::List(Seq::empty())) by {
            assert(texts(Seq::<String>::empty()) =~= Seq::<Seq<char>>::empty());
        }
        return Some((val, comment));
    }
    proof {
        if body == seq![','] {
            assert(body.len() == 1 && body[0] == v@[b0 as int]);
        }
    }
    if b0 == b1 {
        let val = Value::String(String::new());
        return Some((val, comment));
    }
    match split_commas(v, b0, b1) {
        None => None,
        Some(Items::Single) => {
            if !check_item(v, (b0, b1)) {
                return None;
            }
            let (u0, u1) = unquote_range(v, b0, b1);
            Some((Value::String(string_of(v, u0, u1)), comment))
        },
        Some(Items::List(parts)) => {
            let ghost items = split_commas_spec(body)->0->List_0;
            let mut out: Vec<String> = Vec::new();
            let mut i: usize = 0;
            #[verifier::loop_isolation(false)]
            while i < parts.len()
                invariant
                    0 <= i <= parts@.len(),
                    parts@.len() == items.len(),
                    forall|j: int|
                        0 <= j < items.len() ==> range_ok(v@, #[trigger] parts@[j]) && range_text(
                            v@,
                            parts@[j],
                        ) == items[j],
                    forall|j: int| 0 <= j < i ==> check_item_spec(#[trigger] items[j]),
                    out@.len() == i,
                    forall|j: int| 0 <= j < i ==> (#[trigger] out@[j])@ == unquote_spec(items[j]),
                decreases parts@.len() - i,
            {
                let p = parts[i];
                if !check_item(v, p) {
                    assert(!check_item_spec(items[i as int]));
                    return None;
                }
                let (u0, u1) = unquote_range(v, p.0, p.1);
                out.push(string_of(v, u0, u1));
                i = i + 1;
            }
            assert(texts(out@) =~= unquote_all(items));
            Some((Value::List(out), comment))
        },
    }
}

/// Read `v[start..end]` as a value without list handling: the text as
/// written, minus a trailing comment.
pub fn split_value_no_lists(v: &[char], start: usize, end: usize) -> (r: Option<(Value, Option<String>)>)
    requires
        start <= end <= v@.len(),
    ensures
        match split_value_no_lists_spec(v@.subrange(start as int, end as int)) {
            Some((val, c)) => (r matches Some((x, rc)) && x@ == val && opt_text(rc) == c),
            None => r is None,
        },
{
    let (be, rc) = match split_comment(v, start, end) {
        Some(p) => p,
        None => {
            return None;
        },
    };
    let (b0, b1) = trim_range(v, start, be);
    let ghost body = v@.subrange(b0 as int, b1 as int);
    if b0 < b1 && (v[b0] == '"' || v[b0] == '\'') {
        assert(body[0] == v@[b0 as int]);
        assert(body.last() == v@[b1 - 1]);
        if b1 - b0 < 2 || v[b1 - 1] != v[b0] {
            return None;
        }
    }
    proof {
        if body.len() > 0 {
            assert(body[0] == v@[b0 as int]);
        }
    }
    Some((Value::String(string_of(v, b0, b1)), opt_string(v, rc)))
}

/// The text of each line.
pub open spec fn line_texts(lines: Seq<String>) -> Seq<Seq<char>> {
    lines.map_values(|s: String| s@)
}

/// The text of a triple-quoted value opened at `line[rest_start..]`, the
/// comment after its closing quote, and the index of the line it closes on.
pub fn read_multiline(q: char, line: &[char], rest_start: usize, lines: &[String], index: usize) -> (r:
    Option<(String, Option<String>, usize)>)
    requires
        rest_start + 3 <= line@.len(),
        index < lines@.len(),
    ensures
        match read_multiline_spec(q, line@.skip(rest_start as int), line_texts(lines@), index as int) {
            Some((t, c, last)) => (r matches Some((x, rc, l)) && x@ == t && opt_text(rc) == c && l
                == last),
            None => r is None,
        },
{
    let ghost lt = line_texts(lines@);
    let n = line.len();
    let body_start = rest_start + 3;
    let ghost body = line@.skip(rest_start as int).skip(3);
    assert(body =~= line@.subrange(body_start as int, n as int));
    match find_triple_in(line, body_start, n, q) {
        Some(end) => {
            assert(body.skip(end + 3) =~= line@.subrange(body_start + end + 3, n as int));
            assert(body.take(end as int) =~= line@.subrange(body_start as int, body_start + end));
            match trailing_comment(line, body_start + end + 3, n) {
                Some(c) => {
                    let text = string_of(line, body_start, body_start + end);
                    Some((text, opt_string(line, c), index))
                },
                None => None,
            }
        },
        None => {
            let mut text = string_of(line, body_start, n);
            let mut cursor: usize = index;
            while cursor < lines.len() - 1
                invariant
                    index <= cursor < lines@.len(),
                    lt == line_texts(lines@),
                    read_multiline_spec(q, line@.skip(rest_start as int), lt, index as int)
                        == multiline_from(q, body, lt, index as int),
                    multiline_from(q, body, lt, index as int) == multiline_from(
                        q,
                        text@,
                        lt,
                        cursor as int,
                    ),
                decreases lines@.len() - cursor,
            {
                let ghost c0 = cursor as int;
                let ghost t0 = text@;
                assert(multiline_from(q, t0, lt, c0) == match find_triple(lt[c0 + 1], q) {
                    None => multiline_from(q, t0.push('\n') + lt[c0 + 1], lt, c0 + 1),
                    Some(end) => match trailing_comment_spec(lt[c0 + 1].skip(end + 3)) {
                        Some(c) => Some((t0.push('\n') + lt[c0 + 1].take(end), c, c0 + 1)),
                        None => None,
                    },
                });
                cursor = cursor + 1;
                let l = chars_of(lines[cursor].as_str());
                assert(l@ == lt[cursor as int]);
                let ln = l.len();
                assert(l@.subrange(0, ln as int) == l@);
                match find_triple_in(l.as_slice(), 0, ln, q) {
                    None => {
                        push_char(&mut text, '\n');
                        push_chars(&mut text, l.as_slice(), 0, ln);
                    },
                    Some(end) => {
                        assert(l@.skip(end + 3) =~= l@.subrange(end + 3, ln as int));
                        assert(l@.take(end as int) =~= l@.subrange(0, end as int));
                        match trailing_comment(l.as_slice(), end + 3, ln) {
                            Some(c) => {
                                push_char(&mut text, '\n');
                                push_chars(&mut text, l.as_slice(), 0, end);
                                return Some((text, opt_string(l.as_slice(), c), cursor));
                            },
                            None => {
                                return None;
                            },
                        }
                    },
                }
            }
            None
        },
    }
}

/// The outcome of reading a value.
pub enum ReadResult {
    /// The value, its comment, and the index of the last line it used.
    Read(Value, Option<String>, usize),
    /// A triple-quoted value that was never closed properly.
    BadMultiline,
    /// A value that could not be read.
    BadValue,
}

/// The outcome of reading a value agrees with the model.
pub open spec fn read_is(r: ReadResult, m: ReadModel) -> bool {
    match (r, m) {
        (ReadResult::Read(v, c, l), ReadModel::Read(mv, mc, ml)) => v@ == mv && opt_text(c) == mc
            && l == ml,
        (ReadResult::BadMultiline, ReadModel::BadMultiline) => true,
        (ReadResult::BadValue, ReadModel::BadValue) => true,
        _ => false,
    }
}

/// Read the value of the `key = value` line at `index`, whose value starts at
/// `rest_start`, following a triple-quoted value across lines.
pub fn read_value(line: &[char], rest_start: usize, lines: &[String], index: usize, list_values: bool) -> (r: ReadResult)
    requires
        rest_start <= line@.len(),
        index < lines@.len(),
    ensures
        read_is(
            r,
            read_value_spec(line@.skip(rest_start as int), line_texts(lines@), index as int, list_values),
        ),
{
    let n = line.len();
    assert(line@.skip(rest_start as int) =~= line@.subrange(rest_start as int, n as int));
    match triple_quote_prefix(line, rest_start) {
        Some(q) => match read_multiline(q, line, rest_start, lines, index) {
            Some((text, c, last)) => ReadResult::Read(Value::String(text), c, last),
            None => ReadResult::BadMultiline,
        },
        None => {
            let r = if list_values {
                split_value(line, rest_start, n)
            } else {
                split_value_no_lists(line, rest_start, n)
            };
            match r {
                Some((v, c)) => ReadResult::Read(v, c, index),
                None => ReadResult::BadValue,
            }
        },
    }
}


} // verus!
