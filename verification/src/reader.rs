//! Reading a whole file, line by line, into nested sections.

use vstd::prelude::*;
use crate::error::{ErrorKind, ErrorModel, ParseError, debug_text, debug_string, parse_error};
use crate::section::{Section, Comments, Entry, SectionModel, ItemModel, CommentsModel, has_key, with_item, with_comments, value_at};
use crate::parse::{Line, ReadResult, classify, read_value, unquote_range, strip_comment_marker, LineModel, ReadModel, classify_spec, strip_comment_marker_spec, unquote_spec, read_value_spec, multiline_from, triple_quote_prefix_spec, line_texts};
use crate::text::{find_triple, chars_of, string_of, push_str};
use crate::value::{texts, ValueModel, owned};
use crate::section::opt_text;

verus! {

// ---------------------------------------------------------------------------
// The reading of a whole file, line by line.
// ---------------------------------------------------------------------------

/// A section whose header has been read and whose contents are still being
/// read: its name, what it holds so far, and the comments found above it.
pub struct OpenModel {
    pub name: Seq<char>,
    pub section: SectionModel,
    pub comments: CommentsModel,
}

/// Where a reading of a file has got to.
///
/// `open` holds the sections whose headers have been read, outermost first;
/// the last of them, or the root when there is none, is where entries go.
/// `pending` holds the comment lines not yet attached to anything.
pub struct PState {
    pub root: SectionModel,
    pub open: Seq<OpenModel>,
    pub pending: Seq<Seq<char>>,
    pub initial: Seq<Seq<char>>,
    pub started: bool,
    pub indent: Option<Seq<char>>,
    pub errors: Seq<ErrorModel>,
}

/// Nothing read yet.
pub open spec fn start_state() -> PState {
    PState {
        root: Seq::empty(),
        open: Seq::empty(),
        pending: Seq::empty(),
        initial: Seq::empty(),
        started: false,
        indent: None,
        errors: Seq::empty(),
    }
}

/// Store an entry read from a file, with the comments found around it; empty
/// comments are not attached.
pub open spec fn parsed_insert(m: SectionModel, key: Seq<char>, item: ItemModel, c: CommentsModel) -> SectionModel {
    if c.above.len() == 0 && c.inline is None {
        with_item(m, key, item)
    } else {
        with_comments(with_item(m, key, item), key, c)
    }
}

/// The section entries currently go to.
pub open spec fn current(st: PState) -> SectionModel {
    if st.open.len() == 0 {
        st.root
    } else {
        st.open.last().section
    }
}

/// `st` with the section entries go to replaced.
pub open spec fn with_current(st: PState, m: SectionModel) -> PState {
    if st.open.len() == 0 {
        PState { root: m, ..st }
    } else {
        PState {
            open: st.open.update(st.open.len() - 1, OpenModel { section: m, ..st.open.last() }),
            ..st
        }
    }
}

/// Finish the innermost open section, storing it in its parent.
pub open spec fn close_last(st: PState) -> PState {
    let top = st.open.last();
    let s1 = PState { open: st.open.drop_last(), ..st };
    with_current(s1, parsed_insert(current(s1), top.name, ItemModel::Section(top.section), top.comments))
}

/// Finish open sections until at most `depth` remain.
pub open spec fn close_to(st: PState, depth: nat) -> PState
    decreases st.open.len(),
{
    if st.open.len() > depth {
        close_to(close_last(st), depth)
    } else {
        st
    }
}

/// The first line that is not a comment or blank ends the file's leading
/// comment block.
pub open spec fn begin(st: PState) -> PState {
    if st.started {
        st
    } else {
        PState { initial: st.pending, pending: Seq::empty(), started: true, ..st }
    }
}

/// The first non-empty indentation seen is the file's.
pub open spec fn note_indent(st: PState, indent: Seq<char>) -> PState {
    if st.indent is None && indent.len() > 0 {
        PState { indent: Some(indent), ..st }
    } else {
        st
    }
}

/// `st` with an error recorded.
pub open spec fn with_error(st: PState, kind: ErrorKind, message: Seq<char>, index: int, raw: Seq<char>) -> PState {
    PState {
        errors: st.errors.push(
            ErrorModel { kind, message, line_number: (index + 1) as nat, line: raw },
        ),
        ..st
    }
}

/// The message for a line that is neither a section nor a keyword.
pub open spec fn invalid_line_message(raw: Seq<char>) -> Seq<char> {
    "Invalid line "@ + debug_text(raw) + " (matched as neither section nor keyword)"@
}

/// Read the line at `index`, returning the new state and the index of the
/// next line to read.
pub open spec fn step(st: PState, lines: Seq<Seq<char>>, index: int, list_values: bool) -> (PState, int) {
    let raw = lines[index];
    match classify_spec(raw) {
        LineModel::Invalid => {
            let s1 = begin(st);
            (
                PState {
                    pending: Seq::empty(),
                    ..with_error(s1, ErrorKind::Parse, invalid_line_message(raw), index, raw)
                },
                index + 1,
            )
        },
        LineModel::Blank => (
            PState { pending: st.pending.push(strip_comment_marker_spec(raw)), ..st },
            index + 1,
        ),
        LineModel::Comment => (
            PState { pending: st.pending.push(strip_comment_marker_spec(raw)), ..st },
            index + 1,
        ),
        LineModel::Section { indent, depth, name, comment } => {
            let s1 = note_indent(begin(st), indent);
            let nm = unquote_spec(name);
            let cm = CommentsModel { above: s1.pending, inline: comment };
            let s2 = PState { pending: Seq::empty(), ..s1 };
            if depth > s2.open.len() + 1 {
                (with_error(s2, ErrorKind::Nesting, "Section too nested"@, index, raw), index + 1)
            } else {
                let s3 = close_to(s2, (depth - 1) as nat);
                if has_key(current(s3), nm) {
                    (
                        with_error(
                            s3,
                            ErrorKind::Duplicate,
                            "Duplicate section name "@ + debug_text(nm),
                            index,
                            raw,
                        ),
                        index + 1,
                    )
                } else {
                    (
                        PState {
                            open: s3.open.push(
                                OpenModel { name: nm, section: Seq::empty(), comments: cm },
                            ),
                            ..s3
                        },
                        index + 1,
                    )
                }
            }
        },
        LineModel::Keyword { indent, key, rest } => {
            let s1 = note_indent(begin(st), indent);
            match read_value_spec(rest, lines, index, list_values) {
                ReadModel::Read(v, c, last) => {
                    let k = unquote_spec(key);
                    let cm = CommentsModel { above: s1.pending, inline: c };
                    let s2 = PState { pending: Seq::empty(), ..s1 };
                    if has_key(current(s2), k) {
                        (
                            with_error(
                                s2,
                                ErrorKind::Duplicate,
                                "Duplicate keyword name "@ + debug_text(k),
                                index,
                                raw,
                            ),
                            last + 1,
                        )
                    } else {
                        (
                            with_current(
                                s2,
                                parsed_insert(current(s2), k, ItemModel::Scalar(v), cm),
                            ),
                            last + 1,
                        )
                    }
                },
                ReadModel::BadMultiline => (
                    PState {
                        pending: Seq::empty(),
                        ..with_error(
                            s1,
                            ErrorKind::Parse,
                            "Parse error in multiline value"@,
                            index,
                            raw,
                        )
                    },
                    index + 1,
                ),
                ReadModel::BadValue => (
                    PState {
                        pending: Seq::empty(),
                        ..with_error(s1, ErrorKind::Parse, "Parse error in value"@, index, raw)
                    },
                    index + 1,
                ),
            }
        },
    }
}

/// A multiline value closes on a later line than the one it opened on.
pub proof fn lemma_multiline_from_advances(q: char, text: Seq<char>, lines: Seq<Seq<char>>, cursor: int)
    ensures
        multiline_from(q, text, lines, cursor) matches Some((_, _, last)) ==> cursor < last
            < lines.len(),
    decreases lines.len() - cursor,
{
    if 0 <= cursor && cursor + 1 < lines.len() {
        let line = lines[cursor + 1];
        if find_triple(line, q) is None {
            lemma_multiline_from_advances(q, text.push('\n') + line, lines, cursor + 1);
        }
    }
}

/// A value read from line `index` ends on that line or a later one.
pub proof fn lemma_read_value_last(rest: Seq<char>, lines: Seq<Seq<char>>, index: int, list_values: bool)
    requires
        0 <= index < lines.len(),
    ensures
        read_value_spec(rest, lines, index, list_values) matches ReadModel::Read(_, _, last) ==> index
            <= last < lines.len(),
{
    if let Some(q) = triple_quote_prefix_spec(rest) {
        let body = rest.skip(3);
        if find_triple(body, q) is None {
            lemma_multiline_from_advances(q, body, lines, index);
        }
    }
}

/// Reading a line always moves on to a later one.
pub proof fn lemma_step_advances(st: PState, lines: Seq<Seq<char>>, index: int, list_values: bool)
    requires
        0 <= index < lines.len(),
    ensures
        index < step(st, lines, index, list_values).1 <= lines.len(),
{
    let raw = lines[index];
    if let LineModel::Keyword { indent, key, rest } = classify_spec(raw) {
        if let Some(q) = triple_quote_prefix_spec(rest) {
            let body = rest.skip(3);
            if find_triple(body, q) is None {
                lemma_multiline_from_advances(q, body, lines, index);
            }
        }
    }
}

/// Read every line from `index` on.
pub open spec fn run(st: PState, lines: Seq<Seq<char>>, index: int, list_values: bool) -> PState
    decreases lines.len() - index,
{
    if 0 <= index < lines.len() {
        let (s, next) = step(st, lines, index, list_values);
        proof {
            lemma_step_advances(st, lines, index, list_values);
        }
        run(s, lines, next, list_values)
    } else {
        st
    }
}

/// What reading a file yields.
pub struct ParsedModel {
    pub root: SectionModel,
    pub initial_comment: Seq<Seq<char>>,
    pub final_comment: Seq<Seq<char>>,
    pub indent: Option<Seq<char>>,
    pub errors: Seq<ErrorModel>,
}

/// Read a whole file. Trailing comments belong to the file, unless nothing
/// but comments was ever read, in which case the whole file is one leading
/// comment.
pub open spec fn parse_spec(lines: Seq<Seq<char>>, list_values: bool) -> ParsedModel {
    let st = close_to(run(start_state(), lines, 0, list_values), 0);
    ParsedModel {
        root: st.root,
        initial_comment: if st.started { st.initial } else { st.pending },
        final_comment: if st.started { st.pending } else { Seq::empty() },
        indent: st.indent,
        errors: st.errors,
    }
}

/// A section whose header has been read and whose contents are still being
/// read.
struct OpenSection {
    name: String,
    section: Section,
    comments: Comments,
}

impl View for OpenSection {
    type V = OpenModel;

    closed spec fn view(&self) -> OpenModel {
        OpenModel { name: self.name@, section: self.section@, comments: self.comments@ }
    }
}

/// The model of each error.
pub open spec fn error_models(e: Seq<ParseError>) -> Seq<ErrorModel> {
    e.map_values(|x: ParseError| x@)
}

/// The state of a reading in progress.
struct Reader {
    root: Section,
    open: Vec<OpenSection>,
    pending: Vec<String>,
    initial: Vec<String>,
    started: bool,
    indent: Option<String>,
    errors: Vec<ParseError>,
}

impl View for Reader {
    type V = PState;

    closed spec fn view(&self) -> PState {
        PState {
            root: self.root@,
            open: self.open@.map_values(|o: OpenSection| o@),
            pending: texts(self.pending@),
            initial: texts(self.initial@),
            started: self.started,
            indent: opt_text(self.indent),
            errors: error_models(self.errors@),
        }
    }
}

/// What reading a file yields: the top-level section, the comment blocks at
/// either end of the file, its indentation, and the errors found.
pub struct Parsed {
    pub root: Section,
    pub initial_comment: Vec<String>,
    pub final_comment: Vec<String>,
    pub indent: Option<String>,
    pub errors: Vec<ParseError>,
}

impl View for Parsed {
    type V = ParsedModel;

    open spec fn view(&self) -> ParsedModel {
        ParsedModel {
            root: self.root@,
            initial_comment: texts(self.initial_comment@),
            final_comment: texts(self.final_comment@),
            indent: opt_text(self.indent),
            errors: error_models(self.errors@),
        }
    }
}

/// Take the contents of a vector, leaving it empty.
fn take_all(v: &mut Vec<String>) -> (r: Vec<String>)
    ensures
        r@ == old(v)@,
        final(v)@.len() == 0,
{
    let mut r: Vec<String> = Vec::new();
    std::mem::swap(&mut r, v);
    r
}

impl Reader {
    fn new() -> (r: Reader)
        ensures
            r@ == start_state(),
    {
        let r = Reader {
            root: Section::new(),
            open: Vec::new(),
            pending: Vec::new(),
            initial: Vec::new(),
            started: false,
            indent: None,
            errors: Vec::new(),
        };
        assert(r@.open =~= Seq::<OpenModel>::empty());
        assert(r@.pending =~= Seq::<Seq<char>>::empty());
        assert(r@.initial =~= Seq::<Seq<char>>::empty());
        assert(r@.errors =~= Seq::<ErrorModel>::empty());
        r
    }

    /// Whether the section entries currently go to already holds `key`.
    fn current_has_key(&self, key: &str) -> (b: bool)
        ensures
            b == has_key(current(self@), key@),
    {
        if self.open.len() == 0 {
            self.root.contains_key(key)
        } else {
            let n = self.open.len() - 1;
            self.open[n].section.contains_key(key)
        }
    }

    /// Store an entry in the section entries currently go to.
    fn insert_current(&mut self, key: String, entry: Entry, comments: Comments)
        ensures
            final(self)@ == with_current(
                old(self)@,
                parsed_insert(current(old(self)@), key@, entry@, comments@),
            ),
    {
        if self.open.len() == 0 {
            self.root.insert_parsed(key, entry, comments);
        } else {
            let n = self.open.len() - 1;
            let ghost old_open = self.open@;
            self.open[n].section.insert_parsed(key, entry, comments);
            assert(self@.open =~= old(self)@.open.update(
                n as int,
                OpenModel { section: self.open@[n as int].section@, ..old(self)@.open.last() },
            ));
        }
    }

    /// Finish the innermost open section, storing it in its parent.
    fn close_last(&mut self)
        requires
            old(self)@.open.len() > 0,
        ensures
            final(self)@ == close_last(old(self)@),
    {
        let ghost s0 = self@;
        let top = self.open.pop().unwrap();
        assert(self@.open =~= s0.open.drop_last());
        self.insert_current(top.name, Entry::Section(top.section), top.comments);
    }

    /// Finish open sections until at most `depth` remain.
    fn close_to(&mut self, depth: usize)
        ensures
            final(self)@ == close_to(old(self)@, depth as nat),
    {
        while self.open.len() > depth
            invariant
                close_to(self@, depth as nat) == close_to(old(self)@, depth as nat),
            decreases self.open@.len(),
        {
            let ghost s0 = self@;
            self.close_last();
            assert(self@.open.len() < s0.open.len());
        }
    }

    /// End the file's leading comment block, if it has not ended yet.
    fn begin(&mut self)
        ensures
            final(self)@ == begin(old(self)@),
    {
        if !self.started {
            self.initial = take_all(&mut self.pending);
            self.started = true;
            assert(self@.pending =~= Seq::<Seq<char>>::empty());
        }
    }

    /// Take `line[..end]` as the file's indentation if none is known yet.
    fn note_indent(&mut self, line: &[char], end: usize)
        requires
            end <= line@.len(),
        ensures
            final(self)@ == note_indent(old(self)@, line@.take(end as int)),
    {
        assert(line@.take(end as int) =~= line@.subrange(0, end as int));
        if self.indent.is_none() && end > 0 {
            self.indent = Some(string_of(line, 0, end));
        }
    }

    /// Record an error found on line `index`.
    fn push_error(&mut self, kind: ErrorKind, message: String, index: usize, raw: &str)
        requires
            index < usize::MAX,
        ensures
            final(self)@ == with_error(old(self)@, kind, message@, index as int, raw@),
    {
        let e = parse_error(kind, message, index + 1, raw);
        self.errors.push(e);
        assert(self@.errors =~= old(self)@.errors.push(e@));
    }

    /// Read the line at `index`, returning the index of the next line to read.
    fn step(&mut self, lines: &[String], index: usize, list_values: bool) -> (next: usize)
        requires
            index < lines@.len(),
        ensures
            (final(self)@, next as int) == step(
                old(self)@,
                line_texts(lines@),
                index as int,
                list_values,
            ),
    {
        let ghost lt = line_texts(lines@);
        let raw: &str = lines[index].as_str();
        let chars = chars_of(raw);
        assert(chars@ == lt[index as int]);
        match classify(chars.as_slice()) {
            Line::Invalid => {
                self.begin();
                let mut m = String::new();
                push_str(&mut m, "Invalid line ");
                let d = debug_string(raw);
                push_str(&mut m, d.as_str());
                push_str(&mut m, " (matched as neither section nor keyword)");
                self.push_error(ErrorKind::Parse, m, index, raw);
                self.pending = Vec::new();
                assert(self@.pending =~= Seq::<Seq<char>>::empty());
                index + 1
            },
            Line::Blank => {
                let t = strip_comment_marker(chars.as_slice());
                self.pending.push(t);
                assert(self@.pending =~= old(self)@.pending.push(t@));
                index + 1
            },
            Line::Comment => {
                let t = strip_comment_marker(chars.as_slice());
                self.pending.push(t);
                assert(self@.pending =~= old(self)@.pending.push(t@));
                index + 1
            },
            Line::Section(m) => {
                self.begin();
                self.note_indent(chars.as_slice(), m.indent_end);
                let (u0, u1) = unquote_range(chars.as_slice(), m.name.0, m.name.1);
                let name = string_of(chars.as_slice(), u0, u1);
                let above = take_all(&mut self.pending);
                let inline = match m.comment {
                    Some((a, b)) => Some(string_of(chars.as_slice(), a, b)),
                    None => None,
                };
                let comments = Comments { above, inline };
                assert(self@.pending =~= Seq::<Seq<char>>::empty());
                if m.depth - 1 > self.open.len() {
                    let mut msg = String::new();
                    push_str(&mut msg, "Section too nested");
                    self.push_error(ErrorKind::Nesting, msg, index, raw);
                    return index + 1;
                }
                self.close_to(m.depth - 1);
                if self.current_has_key(name.as_str()) {
                    let mut msg = String::new();
                    push_str(&mut msg, "Duplicate section name ");
                    let d = debug_string(name.as_str());
                    push_str(&mut msg, d.as_str());
                    self.push_error(ErrorKind::Duplicate, msg, index, raw);
                } else {
                    let ghost s0 = self@;
                    let o = OpenSection { name, section: Section::new(), comments };
                    self.open.push(o);
                    assert(self@.open =~= s0.open.push(o@));
                }
                index + 1
            },
            Line::Keyword(m) => {
                self.begin();
                self.note_indent(chars.as_slice(), m.indent_end);
                match read_value(chars.as_slice(), m.rest_start, lines, index, list_values) {
                    ReadResult::Read(v, c, last) => {
                        proof {
                            lemma_read_value_last(chars@.skip(m.rest_start as int), lt, index as int, list_values);
                        }
                        let (u0, u1) = unquote_range(chars.as_slice(), m.key.0, m.key.1);
                        let key = string_of(chars.as_slice(), u0, u1);
                        let above = take_all(&mut self.pending);
                        let comments = Comments { above, inline: c };
                        assert(self@.pending =~= Seq::<Seq<char>>::empty());
                        if self.current_has_key(key.as_str()) {
                            let mut msg = String::new();
                            push_str(&mut msg, "Duplicate keyword name ");
                            let d = debug_string(key.as_str());
                            push_str(&mut msg, d.as_str());
                            self.push_error(ErrorKind::Duplicate, msg, index, raw);
                        } else {
                            self.insert_current(key, Entry::Scalar(v), comments);
                        }
                        last + 1
                    },
                    ReadResult::BadMultiline => {
                        let mut msg = String::new();
                        push_str(&mut msg, "Parse error in multiline value");
                        self.push_error(ErrorKind::Parse, msg, index, raw);
                        self.pending = Vec::new();
                        assert(self@.pending =~= Seq::<Seq<char>>::empty());
                        index + 1
                    },
                    ReadResult::BadValue => {
                        let mut msg = String::new();
                        push_str(&mut msg, "Parse error in value");
                        self.push_error(ErrorKind::Parse, msg, index, raw);
                        self.pending = Vec::new();
                        assert(self@.pending =~= Seq::<Seq<char>>::empty());
                        index + 1
                    },
                }
            },
        }
    }
}

/// Read a file given as lines, without their line endings.
pub fn parse(lines: &[String], list_values: bool) -> (p: Parsed)
    ensures
        p@ == parse_spec(line_texts(lines@), list_values),
{
    let ghost lt = line_texts(lines@);
    let mut r = Reader::new();
    let mut i: usize = 0;
    while i < lines.len()
        invariant
            i <= lines@.len(),
            lt == line_texts(lines@),
            run(r@, lt, i as int, list_values) == run(start_state(), lt, 0, list_values),
        decreases lines@.len() - i,
    {
        let ghost s0 = r@;
        let ghost i0 = i as int;
        proof {
            lemma_step_advances(s0, lt, i0, list_values);
        }
        i = r.step(lines, i, list_values);
    }
    r.close_to(0);
    let (initial_comment, final_comment) = if r.started {
        (r.initial, r.pending)
    } else {
        (r.pending, Vec::new())
    };
    let p = Parsed { root: r.root, initial_comment, final_comment, indent: r.indent, errors: r.errors };
    assert(texts(Seq::<String>::empty()) =~= Seq::<Seq<char>>::empty());
    p
}

} // verus!

verus! {

/// What a value reads back as when it is written verbatim after `k = ` with
/// list values off: the text read, if the line reads cleanly as a single value.
pub open spec fn parse_value_no_lists_spec(v: Seq<char>) -> Option<Seq<char>> {
    let p = parse_spec(seq!["k = "@ + v], false);
    if p.errors.len() == 0 {
        match value_at(p.root, "k"@) {
            Some(ValueModel::String(t)) => Some(t),
            _ => None,
        }
    } else {
        None
    }
}

/// Read a value written verbatim the way `list_values = false` would, so the
/// writer can check that what it is about to emit reads back unchanged.
///
/// This goes through the whole line, because a value opening with a triple
/// quote is taken as the start of a multiline value before the value rules
/// ever apply.
pub fn parse_value_no_lists(value: &str) -> (r: Option<String>)
    ensures
        opt_text(r) == parse_value_no_lists_spec(value@),
{
    let mut line = String::new();
    push_str(&mut line, "k = ");
    push_str(&mut line, value);
    let ghost text = line@;
    let mut lines: Vec<String> = Vec::new();
    lines.push(line);
    assert(line_texts(lines@) =~= seq![text]);
    let parsed = parse(lines.as_slice(), false);
    if parsed.errors.len() != 0 {
        return None;
    }
    match parsed.root.get_str("k") {
        Some(t) => Some(owned(t)),
        None => None,
    }
}

} // verus!
