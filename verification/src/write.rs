//! Turning sections back into config file text.

use vstd::prelude::*;
use crate::error::Error;
use crate::parse::triple_quote_prefix_spec;
use crate::reader::{parse_value_no_lists, parse_value_no_lists_spec};
use crate::section::{Section, Entry, Comments, SectionModel, EntryModel, ItemModel, CommentsModel};
use crate::text::{chars_of, push_str, push_char, triple_at, is_space, is_quote};
use crate::value::{Value, ValueModel, texts};

verus! {

/// How a file was indented, so writing it back can match.
///
/// The default is no indentation: a file that did not indent its sections is
/// not given indentation when it is written back.
#[derive(Debug, Clone, Default, PartialEq, Eq)]
pub struct Indent(pub String);

/// Characters that force a value to be quoted when they start or end it:
/// white space, which reading would trim, and quotes, which reading would
/// strip.
pub open spec fn is_awkward(c: char) -> bool {
    is_space(c) || is_quote(c)
}

/// `s` holds a carriage return just before a line break, which reading
/// would take for the end of a line.
pub open spec fn has_crlf(s: Seq<char>) -> bool {
    exists|i: int| 0 <= i < s.len() - 1 && #[trigger] s[i] == '\r' && s[i + 1] == '\n'
}

/// `s` holds three copies of `q` in a row somewhere.
pub open spec fn has_triple(s: Seq<char>, q: char) -> bool {
    exists|i: int| triple_at(s, q, i)
}

/// A result of writing: the text, or the value that could not be written.
pub type WriteResult = Result<Seq<char>, Seq<char>>;

/// Wrap a value in single quotes, or double quotes when it holds a single
/// quote. A value holding both cannot be quoted this way.
pub open spec fn single_quote_spec(v: Seq<char>) -> WriteResult {
    if v.contains('\'') && v.contains('"') {
        Err(v)
    } else if v.contains('"') {
        Ok(seq!['\''] + v + seq!['\''])
    } else {
        Ok(seq!['"'] + v + seq!['"'])
    }
}

/// A triple quote made of `q` can wrap `v` when `v` does not contain it and
/// does not start or end with `q`, since `"""x""""` would be ambiguous.
pub open spec fn triple_fits(v: Seq<char>, q: char) -> bool {
    !has_triple(v, q) && !(v.len() > 0 && (v[0] == q || v.last() == q))
}

/// Wrap the value in a triple quote it can be read back through, preferring
/// double quotes.
pub open spec fn triple_quote_spec(v: Seq<char>) -> WriteResult {
    if triple_fits(v, '"') {
        Ok(seq!['"', '"', '"'] + v + seq!['"', '"', '"'])
    } else if triple_fits(v, '\'') {
        Ok(seq!['\'', '\'', '\''] + v + seq!['\'', '\'', '\''])
    } else {
        Err(v)
    }
}

/// Quote a value so that reading it back yields the same text.
///
/// `multiline` allows triple quotes, which suit values holding newlines or
/// both kinds of quote. With list values off nothing is quoted, and a value
/// that holds a line break, or would not read back as itself, is refused.
pub open spec fn quote_spec(v: Seq<char>, multiline: bool, list_values: bool) -> WriteResult {
    if !list_values {
        if !v.contains('\n') && parse_value_no_lists_spec(v) == Some(v) {
            Ok(v)
        } else {
            Err(v)
        }
    } else if v.len() == 0 {
        Ok(seq!['"', '"'])
    } else if multiline && ((v.contains('\'') && v.contains('"')) || v.contains('\n')) {
        if has_crlf(v) {
            Err(v)
        } else {
            triple_quote_spec(v)
        }
    } else if v.contains('\n') {
        Err(v)
    } else if triple_quote_prefix_spec(v) is Some {
        if multiline {
            triple_quote_spec(v)
        } else {
            single_quote_spec(v)
        }
    } else if !is_awkward(v[0]) && !is_awkward(v.last()) && !v.contains(',') && !v.contains('#') {
        Ok(v)
    } else {
        single_quote_spec(v)
    }
}

/// Quote a key. A key holding an `=` is quoted even when a value with the
/// same text would not be, or reading the line back would split it there.
/// An empty key is written as two quotes.
pub open spec fn quote_key_spec(k: Seq<char>, list_values: bool) -> WriteResult {
    if k.len() == 0 {
        Ok(seq!['"', '"'])
    } else {
        match quote_spec(k, false, list_values) {
            Ok(q) => if q == k && k.contains('=') {
                single_quote_spec(k)
            } else {
                Ok(q)
            },
            Err(e) => Err(e),
        }
    }
}

/// Quote a section name. A name holding a bracket is quoted even when a
/// value with the same text would not be, as it would confuse the header.
/// An empty name is written as two quotes.
pub open spec fn quote_section_name_spec(n: Seq<char>, list_values: bool) -> WriteResult {
    if n.len() == 0 {
        Ok(seq!['"', '"'])
    } else {
        match quote_spec(n, false, list_values) {
            Ok(q) => if q == n && (n.contains('[') || n.contains(']')) {
                single_quote_spec(n)
            } else {
                Ok(q)
            },
            Err(e) => Err(e),
        }
    }
}

/// Quote each list item in turn, stopping at the first that cannot be.
pub open spec fn quote_items(items: Seq<Seq<char>>, list_values: bool) -> Result<Seq<Seq<char>>, Seq<char>>
    decreases items.len(),
{
    if items.len() == 0 {
        Ok(Seq::empty())
    } else {
        match quote_items(items.drop_last(), list_values) {
            Err(e) => Err(e),
            Ok(qs) => match quote_spec(items.last(), false, list_values) {
                Ok(q) => Ok(qs.push(q)),
                Err(e) => Err(e),
            },
        }
    }
}

/// The pieces joined with `, ` between them.
pub open spec fn join_items(parts: Seq<Seq<char>>) -> Seq<char>
    decreases parts.len(),
{
    if parts.len() == 0 {
        Seq::empty()
    } else if parts.len() == 1 {
        parts[0]
    } else {
        join_items(parts.drop_last()) + ", "@ + parts.last()
    }
}

/// Quote a value as it would appear in a file. An empty list is written as
/// a bare comma, and a single-item list keeps a trailing comma, so both
/// survive a round trip; list items cannot span lines. With list values off
/// a list cannot be written, since it would read back as text.
pub open spec fn quote_value_spec(v: ValueModel, list_values: bool) -> WriteResult {
    match v {
        ValueModel::String(s) => quote_spec(s, true, list_values),
        ValueModel::List(items) => if !list_values {
            Err(join_items(items))
        } else if items.len() == 0 {
            Ok(seq![','])
        } else if items.len() == 1 {
            match quote_spec(items[0], false, list_values) {
                Ok(q) => Ok(q.push(',')),
                Err(e) => Err(e),
            }
        } else {
            match quote_items(items, list_values) {
                Ok(qs) => Ok(join_items(qs)),
                Err(e) => Err(e),
            }
        },
    }
}

/// A comment line as written: `# ` and the text, or a blank line for a
/// blank separator.
pub open spec fn comment_line_spec(t: Seq<char>) -> Seq<char> {
    if t.len() == 0 {
        Seq::empty()
    } else {
        "# "@ + t
    }
}

/// A comment line above an entry, indented unless it is blank.
pub open spec fn indented_comment(ind: Seq<char>, t: Seq<char>) -> Seq<char> {
    if comment_line_spec(t).len() == 0 {
        Seq::empty()
    } else {
        ind + comment_line_spec(t)
    }
}

/// The lines of the comments above an entry.
pub open spec fn comment_lines(c: Option<CommentsModel>, ind: Seq<char>) -> Seq<Seq<char>> {
    match c {
        Some(c) => c.above.map_values(|t: Seq<char>| indented_comment(ind, t)),
        None => Seq::empty(),
    }
}

/// The comment written at the end of an entry's own line.
pub open spec fn inline_text(c: Option<CommentsModel>) -> Seq<char> {
    match c {
        Some(c) => match c.inline {
            Some(t) => " # "@ + t,
            None => Seq::empty(),
        },
        None => Seq::empty(),
    }
}

/// The lines for one entry if it is a value: its comments, then
/// `key = value` with any inline comment. A subsection gives no lines here.
pub open spec fn scalar_entry_lines(e: EntryModel, ind: Seq<char>, list_values: bool) -> Result<Seq<Seq<char>>, Seq<char>> {
    match e.item {
        ItemModel::Section(_) => Ok(Seq::empty()),
        ItemModel::Scalar(v) => match quote_key_spec(e.key, list_values) {
            Err(x) => Err(x),
            Ok(qk) => match quote_value_spec(v, list_values) {
                Err(x) => Err(x),
                Ok(qv) => Ok(
                    comment_lines(e.comments, ind) + seq![
                        ind + qk + " = "@ + qv + inline_text(e.comments),
                    ],
                ),
            },
        },
    }
}

/// The lines for the values among the first `n` entries of a section, in
/// order. `ind` is the section's indentation.
pub open spec fn scalar_lines(m: SectionModel, n: int, ind: Seq<char>, list_values: bool) -> Result<Seq<Seq<char>>, Seq<char>>
    decreases n,
{
    if n <= 0 || n > m.len() {
        Ok(Seq::empty())
    } else {
        match scalar_lines(m, n - 1, ind, list_values) {
            Err(e) => Err(e),
            Ok(ls) => match scalar_entry_lines(m[n - 1], ind, list_values) {
                Err(e) => Err(e),
                Ok(x) => Ok(ls + x),
            },
        }
    }
}

/// The lines for one entry if it is a subsection: its comments, its header,
/// and its own contents one level down. A value gives no lines here.
///
/// `ind` is the indentation of the section holding the entry, and
/// `open`/`close` the brackets of the header; each level down adds `indent`
/// and one more bracket on each side.
pub open spec fn section_entry_lines(
    e: EntryModel,
    ind: Seq<char>,
    open: Seq<char>,
    close: Seq<char>,
    indent: Seq<char>,
    list_values: bool,
) -> Result<Seq<Seq<char>>, Seq<char>>
    decreases e, 0int,
{
    match e.item {
        ItemModel::Scalar(_) => Ok(Seq::empty()),
        ItemModel::Section(s) => match quote_section_name_spec(e.key, list_values) {
            Err(x) => Err(x),
            Ok(qn) => match write_section_spec(
                s,
                ind + indent,
                open.push('['),
                close.push(']'),
                indent,
                list_values,
            ) {
                Err(x) => Err(x),
                Ok(body) => Ok(
                    comment_lines(e.comments, ind) + seq![
                        ind + open + qn + close + inline_text(e.comments),
                    ] + body,
                ),
            },
        },
    }
}

/// The lines for the subsections among the first `n` entries of a section,
/// in order.
pub open spec fn section_lines(
    m: SectionModel,
    n: int,
    ind: Seq<char>,
    open: Seq<char>,
    close: Seq<char>,
    indent: Seq<char>,
    list_values: bool,
) -> Result<Seq<Seq<char>>, Seq<char>>
    decreases m, n,
{
    if n <= 0 || n > m.len() {
        Ok(Seq::empty())
    } else {
        match section_lines(m, n - 1, ind, open, close, indent, list_values) {
            Err(e) => Err(e),
            Ok(ls) => match section_entry_lines(m[n - 1], ind, open, close, indent, list_values) {
                Err(e) => Err(e),
                Ok(x) => Ok(ls + x),
            },
        }
    }
}

/// The lines for a section: its values first, then its subsections. Once a
/// section header is written, any following key would land inside that
/// subsection, so values cannot come after one.
pub open spec fn write_section_spec(
    m: SectionModel,
    ind: Seq<char>,
    open: Seq<char>,
    close: Seq<char>,
    indent: Seq<char>,
    list_values: bool,
) -> Result<Seq<Seq<char>>, Seq<char>>
    decreases m, m.len() + 1,
{
    match scalar_lines(m, m.len() as int, ind, list_values) {
        Err(e) => Err(e),
        Ok(a) => match section_lines(m, m.len() as int, ind, open, close, indent, list_values) {
            Err(e) => Err(e),
            Ok(b) => Ok(a + b),
        },
    }
}

/// The lines of a whole file: its leading comment, the top-level section,
/// and its trailing comment.
pub open spec fn write_spec(
    root: SectionModel,
    initial: Seq<Seq<char>>,
    fin: Seq<Seq<char>>,
    indent: Seq<char>,
    list_values: bool,
) -> Result<Seq<Seq<char>>, Seq<char>> {
    match write_section_spec(root, Seq::empty(), seq!['['], seq![']'], indent, list_values) {
        Err(e) => Err(e),
        Ok(body) => Ok(
            initial.map_values(|t: Seq<char>| comment_line_spec(t)) + body + fin.map_values(
                |t: Seq<char>| comment_line_spec(t),
            ),
        ),
    }
}

// ---------------------------------------------------------------------------
// The writer itself.
// ---------------------------------------------------------------------------

/// A written piece agrees with the model: the same text, or an `Unwritable`
/// error carrying the value that could not be written.
pub open spec fn text_result(r: Result<String, Error>, m: WriteResult) -> bool {
    match m {
        Ok(t) => (r matches Ok(s) && s@ == t),
        Err(u) => (r matches Err(Error::Unwritable(x)) && x@ == u),
    }
}

/// Written lines agree with the model.
pub open spec fn lines_result(r: Result<Vec<String>, Error>, m: Result<Seq<Seq<char>>, Seq<char>>) -> bool {
    match m {
        Ok(t) => (r matches Ok(s) && texts(s@) == t),
        Err(u) => (r matches Err(Error::Unwritable(x)) && x@ == u),
    }
}

/// The model of an optional reference to comments.
pub open spec fn comments_of(c: Option<&Comments>) -> Option<CommentsModel> {
    match c {
        Some(c) => Some(c@),
        None => None,
    }
}

/// The error for a value that cannot be written.
fn unwritable(value: &str) -> (e: Error)
    ensures
        e matches Error::Unwritable(x) && x@ == value@,
{
    let mut s = String::new();
    push_str(&mut s, value);
    Error::Unwritable(s)
}

/// Whether `c` occurs in `v`.
fn has_char(v: &[char], c: char) -> (b: bool)
    ensures
        b == v@.contains(c),
{
    let mut i: usize = 0;
    while i < v.len()
        invariant
            0 <= i <= v@.len(),
            forall|j: int| 0 <= j < i ==> v@[j] != c,
        decreases v@.len() - i,
    {
        if v[i] == c {
            assert(v@[i as int] == c);
            return true;
        }
        i = i + 1;
    }
    false
}

/// Whether three copies of `q` occur in a row in `v`.
fn has_triple_in(v: &[char], q: char) -> (b: bool)
    ensures
        b == has_triple(v@, q),
{
    let mut i: usize = 0;
    while i < v.len() && v.len() - i >= 3
        invariant
            0 <= i <= v@.len(),
            forall|j: int| 0 <= j < i ==> !triple_at(v@, q, j),
        decreases v@.len() - i,
    {
        if v[i] == q && v[i + 1] == q && v[i + 2] == q {
            assert(triple_at(v@, q, i as int));
            return true;
        }
        i = i + 1;
    }
    proof {
        assert forall|j: int| !triple_at(v@, q, j) by {
            if triple_at(v@, q, j) {
                assert(j < i);
            }
        }
    }
    false
}

/// Whether a carriage return stands just before a line break in `v`.
fn has_crlf_in(v: &[char]) -> (b: bool)
    ensures
        b == has_crlf(v@),
{
    let mut i: usize = 0;
    while i < v.len() && v.len() - i >= 2
        invariant
            0 <= i <= v@.len(),
            forall|j: int| 0 <= j < i && j < v@.len() - 1 ==> !(#[trigger] v@[j] == '\r' && v@[j + 1] == '\n'),
        decreases v@.len() - i,
    {
        if v[i] == '\r' && v[i + 1] == '\n' {
            assert(v@[i as int] == '\r' && v@[i + 1] == '\n');
            return true;
        }
        i = i + 1;
    }
    proof {
        assert forall|j: int| 0 <= j < v@.len() - 1 implies !(#[trigger] v@[j] == '\r' && v@[j + 1] == '\n') by {
            assert(j < i);
        }
    }
    false
}

/// Whether `c` forces quoting at either end of a value.
fn awkward(c: char) -> (b: bool)
    ensures
        b == is_awkward(c),
{
    crate::text::char_in(c, crate::text::CharClass::Space) || c == '\'' || c == '"'
}

/// Two double quotes: the written form of an empty value, key or name.
fn two_quotes() -> (s: String)
    ensures
        s@ == seq!['"', '"'],
{
    let mut r = String::new();
    push_char(&mut r, '"');
    push_char(&mut r, '"');
    assert(r@ =~= seq!['"', '"']);
    r
}

/// `c`, then `v`, then `c` again.
fn wrapped(c: char, value: &str) -> (s: String)
    ensures
        s@ == seq![c] + value@ + seq![c],
{
    let mut s = String::new();
    push_char(&mut s, c);
    push_str(&mut s, value);
    push_char(&mut s, c);
    assert(s@ =~= seq![c] + value@ + seq![c]);
    s
}

/// Three copies of `c`, then `v`, then three copies of `c` again.
fn triple_wrapped(c: char, value: &str) -> (s: String)
    ensures
        s@ == seq![c, c, c] + value@ + seq![c, c, c],
{
    let mut s = String::new();
    push_char(&mut s, c);
    push_char(&mut s, c);
    push_char(&mut s, c);
    push_str(&mut s, value);
    push_char(&mut s, c);
    push_char(&mut s, c);
    push_char(&mut s, c);
    assert(s@ =~= seq![c, c, c] + value@ + seq![c, c, c]);
    s
}

/// Whether a value written verbatim would read back as itself. This asks the
/// reader rather than restating its rules.
fn reads_back_unchanged(value: &str) -> (b: bool)
    ensures
        b == (parse_value_no_lists_spec(value@) == Some(value@)),
{
    match parse_value_no_lists(value) {
        Some(p) => crate::text::str_eq(p.as_str(), value),
        None => false,
    }
}

/// A comment line as written, or a blank line for a blank separator.
///
/// The stored text is what the author wrote after the marker, so the marker
/// is re-added here unconditionally: a comment reading `#more` keeps both
/// hashes.
pub fn comment_line(text: &str) -> (r: String)
    ensures
        r@ == comment_line_spec(text@),
{
    let mut r = String::new();
    if text.is_empty() {
        return r;
    }
    push_str(&mut r, "# ");
    push_str(&mut r, text);
    r
}

/// Writes sections back out as lines.
pub struct Writer<'a> {
    /// The indentation added at each level of nesting.
    pub indent: &'a Indent,
    /// Whether values are quoted as the list-value rules require.
    pub list_values: bool,
}

impl Writer<'_> {
    /// Wrap a value in whichever single quote it does not contain.
    fn single_quote(&self, value: &str) -> (r: Result<String, Error>)
        ensures
            text_result(r, single_quote_spec(value@)),
    {
        let v = chars_of(value);
        let has_single = has_char(v.as_slice(), '\'');
        let has_double = has_char(v.as_slice(), '"');
        if has_single && has_double {
            Err(unwritable(value))
        } else if has_double {
            Ok(wrapped('\'', value))
        } else {
            Ok(wrapped('"', value))
        }
    }

    /// Wrap the value in a triple quote it can actually be read back through.
    fn triple_quote(&self, value: &str) -> (r: Result<String, Error>)
        ensures
            text_result(r, triple_quote_spec(value@)),
    {
        let v = chars_of(value);
        let n = v.len();
        if !has_triple_in(v.as_slice(), '"') && !(n > 0 && (v[0] == '"' || v[n - 1] == '"')) {
            return Ok(triple_wrapped('"', value));
        }
        if !has_triple_in(v.as_slice(), '\'') && !(n > 0 && (v[0] == '\'' || v[n - 1] == '\'')) {
            return Ok(triple_wrapped('\'', value));
        }
        Err(unwritable(value))
    }

    /// Quote a value so that reading it back yields the same text.
    fn quote(&self, value: &str, multiline: bool) -> (r: Result<String, Error>)
        ensures
            text_result(r, quote_spec(value@, multiline, self.list_values)),
    {
        let v = chars_of(value);
        let n = v.len();
        if !self.list_values {
            // Written verbatim, a line break would end the line early.
            if has_char(v.as_slice(), '\n') || !reads_back_unchanged(value) {
                return Err(unwritable(value));
            }
            return Ok(crate::value::owned(value));
        }
        if n == 0 {
            return Ok(two_quotes());
        }
        let has_single = has_char(v.as_slice(), '\'');
        let has_double = has_char(v.as_slice(), '"');
        let has_newline = has_char(v.as_slice(), '\n');
        if multiline && ((has_single && has_double) || has_newline) {
            // Reading drops a carriage return at the end of a line.
            if has_crlf_in(v.as_slice()) {
                return Err(unwritable(value));
            }
            return self.triple_quote(value);
        }
        if has_newline {
            return Err(unwritable(value));
        }
        if crate::parse::triple_quote_prefix(v.as_slice(), 0).is_some() {
            assert(v@.skip(0) == v@);
            if multiline {
                return self.triple_quote(value);
            }
            return self.single_quote(value);
        }
        assert(v@.skip(0) == v@);
        let first = v[0];
        let last = v[n - 1];
        let awkward_end = awkward(first) || awkward(last);
        if !awkward_end && !has_char(v.as_slice(), ',') && !has_char(v.as_slice(), '#') {
            return Ok(crate::value::owned(value));
        }
        self.single_quote(value)
    }

    /// Quote a key.
    ///
    /// A key holding an `=` has to be quoted or reading the line back would
    /// split it at the wrong place.
    fn quote_key(&self, key: &str) -> (r: Result<String, Error>)
        ensures
            text_result(r, quote_key_spec(key@, self.list_values)),
    {
        let k = chars_of(key);
        if k.len() == 0 {
            return Ok(two_quotes());
        }
        let quoted = self.quote(key, false)?;
        if crate::text::str_eq(quoted.as_str(), key) && has_char(k.as_slice(), '=') {
            return self.single_quote(key);
        }
        Ok(quoted)
    }

    /// Quote a section name.
    ///
    /// A name holding a bracket would confuse the section header, so it is
    /// quoted even when a value with the same text would not be.
    fn quote_section_name(&self, name: &str) -> (r: Result<String, Error>)
        ensures
            text_result(r, quote_section_name_spec(name@, self.list_values)),
    {
        let k = chars_of(name);
        if k.len() == 0 {
            return Ok(two_quotes());
        }
        let quoted = self.quote(name, false)?;
        if crate::text::str_eq(quoted.as_str(), name) && (has_char(k.as_slice(), '[') || has_char(
            k.as_slice(),
            ']',
        )) {
            return self.single_quote(name);
        }
        Ok(quoted)
    }

    /// Quote a value as it would appear in a file.
    fn quote_value(&self, value: &Value) -> (r: Result<String, Error>)
        ensures
            text_result(r, quote_value_spec(value@, self.list_values)),
    {
        match value {
            Value::String(s) => self.quote(s.as_str(), true),
            Value::List(items) => {
                if !self.list_values {
                    // A list written with list values off reads back as text.
                    let d = value.describe();
                    return Err(unwritable(d.as_str()));
                }
                if items.len() == 0 {
                    let mut r = String::new();
                    push_char(&mut r, ',');
                    assert(r@ =~= seq![',']);
                    return Ok(r);
                }
                if items.len() == 1 {
                    assert(texts(items@)[0] == items@[0]@);
                    let mut q = self.quote(items[0].as_str(), false)?;
                    push_char(&mut q, ',');
                    return Ok(q);
                }
                let ghost ts = texts(items@);
                let mut joined = String::new();
                let mut i: usize = 0;
                while i < items.len()
                    invariant
                        0 <= i <= items@.len(),
                        items@.len() >= 2,
                        self.list_values,
                        ts == texts(items@),
                        value@ == ValueModel::List(ts),
                        quote_items(ts.take(i as int), self.list_values) is Ok,
                        joined@ == join_items(quote_items(ts.take(i as int), self.list_values)->Ok_0),
                        quote_items(ts.take(i as int), self.list_values)->Ok_0.len() == i,
                    decreases items@.len() - i,
                {
                    let ghost prev = ts.take(i as int);
                    assert(ts.take(i + 1).drop_last() == prev);
                    assert(ts.take(i + 1).last() == items@[i as int]@);
                    let q = match self.quote(items[i].as_str(), false) {
                        Ok(q) => q,
                        Err(e) => {
                            proof {
                                assert(quote_spec(ts.take(i + 1).last(), false, self.list_values) is Err);
                                assert(quote_items(ts.take(i + 1), self.list_values) == Err::<Seq<Seq<char>>, Seq<char>>(quote_spec(ts.take(i + 1).last(), false, self.list_values)->Err_0));
                                lemma_quote_items_err(ts, i + 1, self.list_values);
                                assert(quote_items(ts, self.list_values) is Err);
                                assert(ts.len() == items@.len());
                                assert(value@ == ValueModel::List(ts));

                            }
                            return Err(e);
                        },
                    };
                    if i > 0 {
                        push_str(&mut joined, ", ");
                    }
                    push_str(&mut joined, q.as_str());
                    proof {
                        let qs = quote_items(prev, self.list_values)->Ok_0;
                        let qs2 = qs.push(q@);
                        assert(qs2.drop_last() == qs);
                        if i == 0 {
                            assert(qs =~= Seq::<Seq<char>>::empty());
                            assert(joined@ =~= q@);
                        } else {
                            assert(joined@ =~= join_items(qs) + ", "@ + q@);
                        }
                    }
                    i = i + 1;
                }
                assert(ts.take(items@.len() as int) == ts);
                Ok(joined)
            },
        }
    }

    /// Quote a value as it would appear in a file, for callers assembling
    /// config text by hand.
    pub fn quote_value_for_api(&self, value: &Value) -> (r: Result<String, Error>)
        ensures
            text_result(r, quote_value_spec(value@, self.list_values)),
    {
        self.quote_value(value)
    }
}

/// Once quoting an item fails, quoting a longer list fails the same way.
proof fn lemma_quote_items_err(items: Seq<Seq<char>>, i: int, list_values: bool)
    requires
        0 < i <= items.len(),
        quote_items(items.take(i), list_values) is Err,
    ensures
        quote_items(items, list_values) == quote_items(items.take(i), list_values),
    decreases items.len() - i,
{
    if i < items.len() {
        assert(items.take(i + 1).drop_last() == items.take(i));
        lemma_quote_items_err(items, i + 1, list_values);
    } else {
        assert(items.take(i) == items);
    }
}

/// Once a value cannot be written, writing more of the section fails the
/// same way.
pub(crate) proof fn lemma_scalar_lines_err(m: SectionModel, i: int, ind: Seq<char>, list_values: bool)
    requires
        0 <= i <= m.len(),
        scalar_lines(m, i, ind, list_values) is Err,
    ensures
        scalar_lines(m, m.len() as int, ind, list_values) == scalar_lines(m, i, ind, list_values),
    decreases m.len() - i,
{
    if i < m.len() {
        lemma_scalar_lines_err(m, i + 1, ind, list_values);
    }
}

/// Once a subsection cannot be written, writing more of the section fails
/// the same way.
pub(crate) proof fn lemma_section_lines_err(
    m: SectionModel,
    i: int,
    ind: Seq<char>,
    open: Seq<char>,
    close: Seq<char>,
    indent: Seq<char>,
    list_values: bool,
)
    requires
        0 <= i <= m.len(),
        section_lines(m, i, ind, open, close, indent, list_values) is Err,
    ensures
        section_lines(m, m.len() as int, ind, open, close, indent, list_values) == section_lines(
            m,
            i,
            ind,
            open,
            close,
            indent,
            list_values,
        ),
    decreases m.len() - i,
{
    if i < m.len() {
        lemma_section_lines_err(m, i + 1, ind, open, close, indent, list_values);
    }
}

/// The text of two strings laid end to end.
fn concat(a: &str, b: &str) -> (s: String)
    ensures
        s@ == a@ + b@,
{
    let mut s = String::new();
    push_str(&mut s, a);
    push_str(&mut s, b);
    assert(s@ =~= a@ + b@);
    s
}

impl Writer<'_> {
    /// Write the comment lines above an entry.
    fn write_comments(&self, comments: Option<&Comments>, ind: &str, out: &mut Vec<String>)
        ensures
            texts(final(out)@) == texts(old(out)@) + comment_lines(comments_of(comments), ind@),
    {
        let ghost base = texts(out@);
        match comments {
            None => {
                assert(texts(out@) =~= base + Seq::<Seq<char>>::empty());
            },
            Some(c) => {
                let ghost cl = comment_lines(Some(c@), ind@);
                let mut i: usize = 0;
                while i < c.above.len()
                    invariant
                        0 <= i <= c.above@.len(),
                        cl == comment_lines(Some(c@), ind@),
                        cl.len() == c.above@.len(),
                        texts(out@) == base + cl.take(i as int),
                    decreases c.above@.len() - i,
                {
                    let text = comment_line(c.above[i].as_str());
                    let line = if text.as_str().is_empty() {
                        text
                    } else {
                        concat(ind, text.as_str())
                    };
                    let ghost o = out@;
                    out.push(line);
                    proof {
                        assert(cl[i as int] == indented_comment(ind@, c.above@[i as int]@));
                        assert(texts(out@) =~= texts(o).push(line@));
                        assert(cl.take(i + 1) =~= cl.take(i as int).push(cl[i as int]));
                    }
                    i = i + 1;
                }
                assert(cl.take(cl.len() as int) == cl);
            },
        }
    }

    /// The comment written at the end of an entry's own line.
    fn inline_comment(&self, comments: Option<&Comments>) -> (r: String)
        ensures
            r@ == inline_text(comments_of(comments)),
    {
        let mut r = String::new();
        match comments {
            Some(c) => match &c.inline {
                Some(t) => {
                    push_str(&mut r, " # ");
                    push_str(&mut r, t.as_str());
                },
                None => {},
            },
            None => {},
        }
        r
    }

    /// Write one value: its comments, then `key = value`.
    fn write_scalar(&self, key: &str, value: &Value, comments: Option<&Comments>, ind: &str, out: &mut Vec<String>) -> (r: Result<(), Error>)
        ensures
            match scalar_entry_lines(
                EntryModel { key: key@, item: ItemModel::Scalar(value@), comments: comments_of(comments) },
                ind@,
                self.list_values,
            ) {
                Ok(ls) => r is Ok && texts(final(out)@) == texts(old(out)@) + ls,
                Err(u) => (r matches Err(Error::Unwritable(x)) && x@ == u),
            },
    {
        let ghost o = texts(out@);
        self.write_comments(comments, ind, out);
        let qk = self.quote_key(key)?;
        let qv = self.quote_value(value)?;
        let mut line = concat(ind, qk.as_str());
        push_str(&mut line, " = ");
        push_str(&mut line, qv.as_str());
        let ic = self.inline_comment(comments);
        push_str(&mut line, ic.as_str());
        let ghost o2 = out@;
        out.push(line);
        assert(texts(out@) =~= texts(o2).push(line@));
        assert(line@ =~= ind@ + qk@ + " = "@ + qv@ + inline_text(comments_of(comments)));
        Ok(())
    }

    /// Write one subsection: its comments, its header, and its contents.
    fn write_subsection(
        &self,
        key: &str,
        child: &Section,
        comments: Option<&Comments>,
        ind: &str,
        open: &str,
        close: &str,
        out: &mut Vec<String>,
    ) -> (r: Result<(), Error>)
        ensures
            match section_entry_lines(
                EntryModel { key: key@, item: ItemModel::Section(child@), comments: comments_of(comments) },
                ind@,
                open@,
                close@,
                self.indent.0@,
                self.list_values,
            ) {
                Ok(ls) => r is Ok && texts(final(out)@) == texts(old(out)@) + ls,
                Err(u) => (r matches Err(Error::Unwritable(x)) && x@ == u),
            },
        decreases child@, 2int,
    {
        let ghost o = texts(out@);
        self.write_comments(comments, ind, out);
        let ghost o1 = texts(out@);
        let qn = self.quote_section_name(key)?;
        let mut header = concat(ind, open);
        push_str(&mut header, qn.as_str());
        push_str(&mut header, close);
        let ic = self.inline_comment(comments);
        push_str(&mut header, ic.as_str());
        let ghost o2 = out@;
        out.push(header);
        assert(texts(out@) =~= texts(o2).push(header@));
        assert(header@ =~= ind@ + open@ + qn@ + close@ + inline_text(comments_of(comments)));
        let child_ind = concat(ind, self.indent.0.as_str());
        let mut child_open = String::new();
        push_str(&mut child_open, open);
        push_char(&mut child_open, '[');
        let mut child_close = String::new();
        push_str(&mut child_close, close);
        push_char(&mut child_close, ']');
        assert(child_open@ =~= open@.push('['));
        assert(child_close@ =~= close@.push(']'));
        let ghost o3 = texts(out@);
        self.write_section(child, child_ind.as_str(), child_open.as_str(), child_close.as_str(), out)?;
        proof {
            let body = write_section_spec(child@, child_ind@, child_open@, child_close@, self.indent.0@, self.list_values)->Ok_0;
            assert(texts(out@) =~= o + (comment_lines(comments_of(comments), ind@) + seq![header@] + body));
        }
        Ok(())
    }

    /// Write a section: its values, then its subsections with their headers.
    ///
    /// `ind` is the section's indentation and `open`/`close` the brackets its
    /// subsections' headers use.
    #[verifier::spinoff_prover]
    #[verifier::rlimit(100)]
    fn write_section(&self, section: &Section, ind: &str, open: &str, close: &str, out: &mut Vec<String>) -> (r: Result<(), Error>)
        ensures
            match write_section_spec(
                section@,
                ind@,
                open@,
                close@,
                self.indent.0@,
                self.list_values,
            ) {
                Ok(ls) => r is Ok && texts(final(out)@) == texts(old(out)@) + ls,
                Err(u) => (r matches Err(Error::Unwritable(x)) && x@ == u),
            },
        decreases section@, 1int,
    {
        let ghost m = section@;
        let ghost base = texts(out@);
        let ghost lv = self.list_values;
        let n = section.len();
        let mut i: usize = 0;
        while i < n
            invariant
                0 <= i <= n,
                n == m.len(),
                m == section@,
                lv == self.list_values,
                scalar_lines(m, i as int, ind@, lv) is Ok,
                texts(out@) == base + scalar_lines(m, i as int, ind@, lv)->Ok_0,
            decreases n - i,
        {
            let (key, entry, comments) = section.entry_at(i);
            let ghost o = texts(out@);
            let ghost prev = scalar_lines(m, i as int, ind@, lv)->Ok_0;
            match entry {
                Entry::Section(_) => {},
                Entry::Scalar(v) => {
                    match self.write_scalar(key, v, comments, ind, out) {
                        Ok(()) => {},
                        Err(e) => {
                            proof {
                                lemma_scalar_lines_err(m, i + 1, ind@, lv);
                            }
                            return Err(e);
                        },
                    }
                },
            }
            proof {
                let x = scalar_entry_lines(m[i as int], ind@, lv)->Ok_0;
                assert(texts(out@) =~= base + (prev + x));
            }
            i = i + 1;
        }
        let ghost a = scalar_lines(m, n as int, ind@, lv)->Ok_0;
        let ghost mut acc: Seq<Seq<char>> = Seq::empty();
        let ghost indent = self.indent.0@;
        let mut j: usize = 0;
        while j < n
            invariant
                0 <= j <= n,
                n == m.len(),
                m == section@,
                lv == self.list_values,
                indent == self.indent.0@,
                scalar_lines(m, n as int, ind@, lv) == Ok::<Seq<Seq<char>>, Seq<char>>(a),
                section_lines(m, j as int, ind@, open@, close@, indent, lv) == Ok::<
                    Seq<Seq<char>>,
                    Seq<char>,
                >(acc),
                texts(out@) == base + a + acc,
            decreases n - j,
        {
            let (key, entry, comments) = section.entry_at(j);
            match entry {
                Entry::Scalar(_) => {},
                Entry::Section(child) => {
                    match self.write_subsection(key, child, comments, ind, open, close, out) {
                        Ok(()) => {},
                        Err(e) => {
                            proof {
                                lemma_section_lines_err(m, j + 1, ind@, open@, close@, indent, lv);
                            }
                            return Err(e);
                        },
                    }
                },
            }
            proof {
                let x = section_entry_lines(m[j as int], ind@, open@, close@, indent, lv)->Ok_0;
                assert(texts(out@) =~= base + a + (acc + x));
                acc = acc + x;
            }
            j = j + 1;
        }
        Ok(())
    }

    /// The lines of a whole file: its leading comment, the top-level section,
    /// and its trailing comment.
    pub fn write(&self, root: &Section, initial_comment: &[String], final_comment: &[String]) -> (r: Result<Vec<String>, Error>)
        ensures
            lines_result(
                r,
                write_spec(root@, texts(initial_comment@), texts(final_comment@), self.indent.0@, self.list_values),
            ),
    {
        let mut out: Vec<String> = Vec::new();
        let ghost ic = texts(initial_comment@).map_values(|t: Seq<char>| comment_line_spec(t));
        let mut i: usize = 0;
        while i < initial_comment.len()
            invariant
                0 <= i <= initial_comment@.len(),
                ic == texts(initial_comment@).map_values(|t: Seq<char>| comment_line_spec(t)),
                texts(out@) == ic.take(i as int),
            decreases initial_comment@.len() - i,
        {
            let line = comment_line(initial_comment[i].as_str());
            let ghost o = out@;
            out.push(line);
            assert(ic[i as int] == comment_line_spec(initial_comment@[i as int]@));
            assert(texts(out@) =~= texts(o).push(line@));
            assert(ic.take(i + 1) =~= ic.take(i as int).push(ic[i as int]));
            i = i + 1;
        }
        assert(ic.take(ic.len() as int) == ic);
        let empty = String::new();
        let mut open = String::new();
        push_char(&mut open, '[');
        let mut close = String::new();
        push_char(&mut close, ']');
        assert(open@ =~= seq!['[']);
        assert(close@ =~= seq![']']);
        self.write_section(root, empty.as_str(), open.as_str(), close.as_str(), &mut out)?;
        let ghost mid = texts(out@);
        let ghost fc = texts(final_comment@).map_values(|t: Seq<char>| comment_line_spec(t));
        let mut k: usize = 0;
        while k < final_comment.len()
            invariant
                0 <= k <= final_comment@.len(),
                fc == texts(final_comment@).map_values(|t: Seq<char>| comment_line_spec(t)),
                texts(out@) == mid + fc.take(k as int),
            decreases final_comment@.len() - k,
        {
            let line = comment_line(final_comment[k].as_str());
            let ghost o = out@;
            out.push(line);
            assert(fc[k as int] == comment_line_spec(final_comment@[k as int]@));
            assert(texts(out@) =~= texts(o).push(line@));
            assert(fc.take(k + 1) =~= fc.take(k as int).push(fc[k as int]));
            k = k + 1;
        }
        assert(fc.take(fc.len() as int) == fc);
        Ok(out)
    }
}

} // verus!
