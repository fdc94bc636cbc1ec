//! A whole config file: reading it, and writing it back the way it came in.

use vstd::prelude::*;
use vstd::utf8::{valid_utf8, decode_utf8, encode_utf8};
use vstd::string::{StringSliceAdditionalSpecFns, StrSliceExecFns};
use crate::error::{Error};
use crate::reader::{parse, parse_spec, error_models, ParsedModel};
use crate::parse::line_texts;
use crate::section::{Section, SectionModel};
use crate::text::{CharClass, chars_of, string_of, push_str, push_char, skip_trail, trim_end_class, trail_len, in_class};
use crate::value::{texts, owned, Value, ValueModel};
use crate::write::{Indent, Writer, write_spec, quote_value_spec, lines_result, text_result};
use crate::parse::unquote_value_spec;

verus! {

/// The byte order mark that marks a file as UTF-8.
pub open spec fn bom_utf8() -> Seq<u8> {
    seq![0xEFu8, 0xBBu8, 0xBFu8]
}

/// `text` split at every `\n`, keeping empty pieces.
pub open spec fn split_newlines(text: Seq<char>) -> Seq<Seq<char>>
    decreases text.len(),
{
    if text.len() == 0 {
        seq![Seq::empty()]
    } else {
        let p = split_newlines(text.drop_last());
        if text.last() == '\n' {
            p.push(Seq::empty())
        } else {
            p.update(p.len() - 1, p.last().push(text.last()))
        }
    }
}

/// `s` without one trailing `\r`, if it has one.
pub open spec fn strip_cr(s: Seq<char>) -> Seq<char> {
    if s.len() > 0 && s.last() == '\r' {
        s.drop_last()
    } else {
        s
    }
}

/// Text split into lines: one trailing newline ends the last line rather
/// than starting an empty one, each line loses one trailing `\r`, and empty
/// text has no lines at all.
pub open spec fn split_lines_spec(text: Seq<char>) -> Seq<Seq<char>> {
    let t = if text.len() > 0 && text.last() == '\n' {
        text.drop_last()
    } else {
        text
    };
    if t.len() == 0 {
        Seq::empty()
    } else {
        split_newlines(t).map_values(|l: Seq<char>| strip_cr(l))
    }
}

/// Lines joined into text, each followed by a newline.
pub open spec fn join_lines(lines: Seq<Seq<char>>) -> Seq<char>
    decreases lines.len(),
{
    if lines.len() == 0 {
        Seq::empty()
    } else {
        join_lines(lines.drop_last()) + lines.last() + seq!['\n']
    }
}

/// What a config holds, besides the file it is associated with.
pub struct ConfigModel {
    pub root: SectionModel,
    pub initial_comment: Seq<Seq<char>>,
    pub final_comment: Seq<Seq<char>>,
    pub indent: Seq<char>,
    pub list_values: bool,
    pub bom: bool,
}

/// Options for reading a config file.
#[derive(Debug, Clone)]
pub struct Builder {
    list_values: bool,
}

/// Sources of lines: vectors, slices and arrays of text.
pub trait IntoLines {
    /// The text of each line.
    spec fn lines_model(&self) -> Seq<Seq<char>>;

    /// The lines, as strings.
    fn into_lines(self) -> (v: Vec<String>)
        ensures
            texts(v@) == self.lines_model(),
    ;
}

impl IntoLines for Vec<String> {
    open spec fn lines_model(&self) -> Seq<Seq<char>> {
        texts(self@)
    }

    fn into_lines(self) -> (v: Vec<String>) {
        self
    }
}

impl<'a> IntoLines for Vec<&'a str> {
    open spec fn lines_model(&self) -> Seq<Seq<char>> {
        crate::value::str_texts(self@)
    }

    fn into_lines(self) -> (v: Vec<String>) {
        let mut v: Vec<String> = Vec::new();
        let mut i: usize = 0;
        while i < self.len()
            invariant
                0 <= i <= self@.len(),
                v@.len() == i,
                forall|j: int| 0 <= j < i ==> (#[trigger] v@[j])@ == self@[j]@,
            decreases self@.len() - i,
        {
            v.push(owned(self[i]));
            i = i + 1;
        }
        assert(texts(v@) =~= crate::value::str_texts(self@));
        v
    }
}

impl<'a, const N: usize> IntoLines for [&'a str; N] {
    open spec fn lines_model(&self) -> Seq<Seq<char>> {
        crate::value::str_texts(self@)
    }

    fn into_lines(self) -> (v: Vec<String>) {
        let mut v: Vec<String> = Vec::new();
        let mut i: usize = 0;
        while i < N
            invariant
                0 <= i <= N,
                self@.len() == N,
                v@.len() == i,
                forall|j: int| 0 <= j < i ==> (#[trigger] v@[j])@ == self@[j]@,
            decreases N - i,
        {
            v.push(owned(self[i]));
            i = i + 1;
        }
        assert(texts(v@) =~= crate::value::str_texts(self@));
        v
    }
}

/// Text as UTF-8, or the reason it is not.
///
/// `std::str::from_utf8` accepts exactly the well-formed UTF-8 byte
/// sequences, which vstd's `valid_utf8` describes, and the text it gives is
/// their decoding. The reason given for a failure is the error's `Display`
/// text, which depends only on the bytes.
#[verifier::external_body]
fn utf8_text(bytes: &[u8]) -> (r: Result<String, String>)
    ensures
        r is Ok <==> valid_utf8(bytes@),
        r matches Ok(s) ==> s@ == decode_utf8(bytes@),
        r matches Err(e) ==> e@ == utf8_error_text(bytes@),
{
    match std::str::from_utf8(bytes) {
        Ok(s) => Ok(s.to_string()),
        Err(e) => Err(e.to_string()),
    }
}

/// What `std::str::from_utf8`'s error says about bytes that are not UTF-8.
pub uninterp spec fn utf8_error_text(bytes: Seq<u8>) -> Seq<char>;

/// The body of a byte string after any UTF-8 byte order mark, and whether
/// there was one.
pub open spec fn strip_bom(bytes: Seq<u8>) -> (Seq<u8>, bool) {
    if bytes.len() >= 3 && bytes.take(3) == bom_utf8() {
        (bytes.skip(3), true)
    } else {
        (bytes, false)
    }
}

/// Decoding bytes: the text and whether a byte order mark was present, or
/// the reason the body is not UTF-8.
pub open spec fn decode_spec(bytes: Seq<u8>) -> Result<(Seq<char>, bool), Seq<char>> {
    let (body, bom) = strip_bom(bytes);
    if valid_utf8(body) {
        Ok((decode_utf8(body), bom))
    } else {
        Err("input is not valid UTF-8: "@ + utf8_error_text(body))
    }
}

/// Decode bytes as UTF-8, reporting whether a byte order mark was present.
pub fn decode(bytes: &[u8]) -> (r: Result<(String, bool), Error>)
    ensures
        match decode_spec(bytes@) {
            Ok((t, bom)) => (r matches Ok((s, b)) && s@ == t && b == bom),
            Err(m) => (r matches Err(Error::Encoding(e)) && e@ == m),
        },
{
    let n = bytes.len();
    let (body, bom) = if n >= 3 && bytes[0] == 0xEFu8 && bytes[1] == 0xBBu8 && bytes[2] == 0xBFu8 {
        assert(bytes@.take(3) =~= bom_utf8());
        (vstd::slice::slice_subrange(bytes, 3, n), true)
    } else {
        proof {
            if n >= 3 && bytes@.take(3) == bom_utf8() {
                assert(bytes@.take(3)[0] == bytes@[0]);
                assert(bytes@.take(3)[1] == bytes@[1]);
                assert(bytes@.take(3)[2] == bytes@[2]);
            }
        }
        (bytes, false)
    };
    assert(bom ==> body@ =~= bytes@.skip(3));
    match utf8_text(body) {
        Ok(s) => Ok((s, bom)),
        Err(e) => {
            let mut m = String::new();
            push_str(&mut m, "input is not valid UTF-8: ");
            push_str(&mut m, e.as_str());
            Err(Error::Encoding(m))
        },
    }
}

/// Split text into lines, dropping line endings.
pub fn split_lines(text: &str) -> (r: Vec<String>)
    ensures
        texts(r@) == split_lines_spec(text@),
{
    let v = chars_of(text);
    let n = v.len();
    let end = if n > 0 && v[n - 1] == '\n' {
        n - 1
    } else {
        n
    };
    let ghost t = v@.take(end as int);
    assert(t == (if text@.len() > 0 && text@.last() == '\n' {
        text@.drop_last()
    } else {
        text@
    }));
    let mut r: Vec<String> = Vec::new();
    if end == 0 {
        return r;
    }
    let mut start: usize = 0;
    let mut i: usize = 0;
    while i < end
        invariant
            0 <= start <= i <= end <= v@.len(),
            t == v@.take(end as int),
            split_newlines(t.take(i as int)).len() == r@.len() + 1,
            split_newlines(t.take(i as int)).last() == v@.subrange(start as int, i as int),
            forall|j: int|
                0 <= j < r@.len() ==> (#[trigger] r@[j])@ == strip_cr(
                    split_newlines(t.take(i as int))[j],
                ),
        decreases end - i,
    {
        let ghost p = split_newlines(t.take(i as int));
        assert(t.take(i + 1).drop_last() == t.take(i as int));
        assert(t.take(i + 1).last() == v@[i as int]);
        if v[i] == '\n' {
            let line_end = if i > start && v[i - 1] == '\r' {
                i - 1
            } else {
                i
            };
            proof {
                let seg = v@.subrange(start as int, i as int);
                if i > start {
                    assert(seg.last() == v@[i - 1]);
                }
                assert(strip_cr(seg) =~= v@.subrange(start as int, line_end as int));
            }
            r.push(string_of(v.as_slice(), start, line_end));
            start = i + 1;
            assert(v@.subrange(start as int, (i + 1) as int) =~= Seq::<char>::empty());
        } else {
            assert(v@.subrange(start as int, i + 1) =~= v@.subrange(start as int, i as int).push(
                v@[i as int],
            ));
        }
        i = i + 1;
    }
    let line_end = if end > start && v[end - 1] == '\r' {
        end - 1
    } else {
        end
    };
    proof {
        let seg = v@.subrange(start as int, end as int);
        if end > start {
            assert(seg.last() == v@[end - 1]);
        }
        assert(strip_cr(seg) =~= v@.subrange(start as int, line_end as int));
        assert(t.take(end as int) == t);
    }
    r.push(string_of(v.as_slice(), start, line_end));
    assert(texts(r@) =~= split_lines_spec(text@));
    r
}

/// The standard library's owned path, carried through unexamined.
#[verifier::external_type_specification]
#[verifier::external_body]
pub struct ExPathBuf(std::path::PathBuf);

/// The standard library's borrowed path, carried through unexamined.
#[verifier::external_type_specification]
#[verifier::external_body]
pub struct ExPath(std::path::Path);

/// The path a `PathBuf` holds, as `PathBuf::as_path` gives it.
#[verifier::external_body]
fn as_path(p: &std::path::PathBuf) -> &std::path::Path {
    p.as_path()
}

/// An I/O error of kind `InvalidInput` carrying `message`, as
/// `std::io::Error::new` makes it. Nothing is claimed of the opaque result.
#[verifier::external_body]
fn invalid_input(message: &str) -> std::io::Error {
    std::io::Error::new(std::io::ErrorKind::InvalidInput, message.to_string())
}

/// A parsed config file: the top-level section, plus the details needed to
/// write it back out the way it came in.
///
/// It derefs to [`Section`], so the whole section API works on the top level
/// of the file directly.
#[derive(Debug)]
pub struct ConfigObj {
    root: Section,
    initial_comment: Vec<String>,
    final_comment: Vec<String>,
    indent: Indent,
    list_values: bool,
    filename: Option<std::path::PathBuf>,
    bom: bool,
}

impl View for ConfigObj {
    type V = ConfigModel;

    closed spec fn view(&self) -> ConfigModel {
        ConfigModel {
            root: self.root@,
            initial_comment: texts(self.initial_comment@),
            final_comment: texts(self.final_comment@),
            indent: self.indent.0@,
            list_values: self.list_values,
            bom: self.bom,
        }
    }
}

/// An empty config with default settings.
pub open spec fn empty_config() -> ConfigModel {
    ConfigModel {
        root: Seq::empty(),
        initial_comment: Seq::empty(),
        final_comment: Seq::empty(),
        indent: Seq::empty(),
        list_values: true,
        bom: false,
    }
}

/// The config that reading gives, if it found no errors.
pub open spec fn config_of(p: ParsedModel, list_values: bool, bom: bool) -> ConfigModel {
    ConfigModel {
        root: p.root,
        initial_comment: p.initial_comment,
        final_comment: p.final_comment,
        indent: match p.indent {
            Some(i) => i,
            None => Seq::empty(),
        },
        list_values,
        bom,
    }
}

/// The outcome of reading lines: a `Parse` error carrying every error found,
/// or, when there were none, the config read, with no file associated.
pub open spec fn read_outcome(lines: Seq<Seq<char>>, list_values: bool, bom: bool, r: Result<ConfigObj, Error>) -> bool {
    let p = parse_spec(lines, list_values);
    if p.errors.len() > 0 {
        r matches Err(Error::Parse(es)) && error_models(es@) == p.errors
    } else {
        r matches Ok(c) && c@ == config_of(p, list_values, bom) && !c.has_filename()
    }
}

/// The outcome of reading bytes: an `Encoding` error for text that is not
/// UTF-8, and otherwise the outcome of reading its lines, remembering any
/// byte order mark.
pub open spec fn bytes_outcome(bytes: Seq<u8>, list_values: bool, r: Result<ConfigObj, Error>) -> bool {
    match decode_spec(bytes) {
        Err(m) => (r matches Err(Error::Encoding(e)) && e@ == m),
        Ok((t, bom)) => read_outcome(split_lines_spec(t), list_values, bom, r),
    }
}

/// Each line without any trailing `\r` and `\n` characters.
pub open spec fn trim_line_ends(lines: Seq<Seq<char>>) -> Seq<Seq<char>> {
    lines.map_values(|l: Seq<char>| trim_end_class(l, CharClass::LineEnd))
}

/// Reading lines drops the line ends they may carry, and nothing else: each
/// line read is the line given up to a run of `\r` and `\n` at its end, and
/// ends in neither.
pub proof fn law_line_ends_are_dropped(lines: Seq<Seq<char>>)
    ensures
        trim_line_ends(lines).len() == lines.len(),
        forall|i: int| 0 <= i < lines.len() ==> {
            let t = #[trigger] trim_line_ends(lines)[i];
            &&& t.len() <= lines[i].len()
            &&& lines[i].subrange(0, t.len() as int) == t
            &&& forall|j: int| t.len() <= j < lines[i].len() ==> lines[i][j] == '\r' || lines[i][j] == '\n'
            &&& t.len() > 0 ==> t.last() != '\r' && t.last() != '\n'
        },
{
    assert forall|i: int| 0 <= i < lines.len() implies {
        let t = #[trigger] trim_line_ends(lines)[i];
        &&& t.len() <= lines[i].len()
        &&& lines[i].subrange(0, t.len() as int) == t
        &&& forall|j: int| t.len() <= j < lines[i].len() ==> lines[i][j] == '\r' || lines[i][j] == '\n'
        &&& t.len() > 0 ==> t.last() != '\r' && t.last() != '\n'
    } by {
        let l = lines[i];
        crate::text::lemma_trail_len_facts(l, CharClass::LineEnd);
        let t = trim_line_ends(lines)[i];
        assert(t == l.take(l.len() - trail_len(l, CharClass::LineEnd)));
        assert forall|j: int| t.len() <= j < l.len() implies l[j] == '\r' || l[j] == '\n' by {
            assert(in_class(l[j], CharClass::LineEnd));
        }
        if t.len() > 0 {
            assert(t.last() == l[l.len() - trail_len(l, CharClass::LineEnd) - 1]);
        }
    }
}

/// A line given with a line break at its end reads as the line given
/// without it: the lines read are the same either way.
pub proof fn law_line_break_read_as_none(lines: Seq<Seq<char>>)
    ensures
        trim_line_ends(lines.map_values(|l: Seq<char>| l.push('\n'))) == trim_line_ends(lines),
{
    let with = lines.map_values(|l: Seq<char>| l.push('\n'));
    assert forall|i: int| 0 <= i < lines.len() implies trim_line_ends(with)[i] == trim_line_ends(lines)[i] by {
        let l = lines[i];
        let w = l.push('\n');
        assert(with[i] == w);
        assert(w.drop_last() == l);
        assert(trail_len(w, CharClass::LineEnd) == 1 + trail_len(l, CharClass::LineEnd));
        crate::text::lemma_trail_len_facts(l, CharClass::LineEnd);
        assert(w.take(w.len() - trail_len(w, CharClass::LineEnd)) =~= l.take(l.len() - trail_len(l, CharClass::LineEnd)));
    }
    assert(trim_line_ends(with) =~= trim_line_ends(lines));
}

/// What rendering a config gives: its lines, or the value that could not be
/// written.
pub open spec fn render(c: ConfigModel) -> Result<Seq<Seq<char>>, Seq<char>> {
    write_spec(c.root, c.initial_comment, c.final_comment, c.indent, c.list_values)
}

/// A config re-read as `p`: what was read replaces what was held, except
/// that a file with no indentation of its own keeps the indentation set.
pub open spec fn reloaded(old: ConfigModel, p: ParsedModel, bom: bool) -> ConfigModel {
    let fresh = config_of(p, old.list_values, bom);
    if fresh.indent.len() == 0 {
        ConfigModel { indent: old.indent, ..fresh }
    } else {
        fresh
    }
}

impl ConfigObj {
    /// Whether a file is associated with this config.
    pub closed spec fn has_filename(&self) -> bool {
        self.filename is Some
    }

    /// The file associated with this config, if any.
    pub closed spec fn file(&self) -> Option<std::path::PathBuf> {
        self.filename
    }
}

/// A copy of a path, as `PathBuf::clone` makes it. Nothing is claimed of
/// the copy, since a path is opaque here.
#[verifier::external_body]
fn copy_path(p: &std::path::PathBuf) -> std::path::PathBuf {
    p.clone()
}

/// A copy of a config: the same contents and options, and a copy of the
/// path of its file, if it has one.
impl Clone for ConfigObj {
    fn clone(&self) -> (r: ConfigObj)
        ensures
            r@ == self@,
            r.has_filename() == self.has_filename(),
    {
        let filename = match &self.filename {
            Some(p) => Some(copy_path(p)),
            None => None,
        };
        ConfigObj {
            root: self.root.clone(),
            initial_comment: crate::section::copy_lines(&self.initial_comment),
            final_comment: crate::section::copy_lines(&self.final_comment),
            indent: Indent(self.indent.0.clone()),
            list_values: self.list_values,
            filename,
            bom: self.bom,
        }
    }
}

impl Builder {
    /// Whether values are split into lists and unquoted.
    pub closed spec fn splits_lists(&self) -> bool {
        self.list_values
    }

    /// Start from the default options.
    pub fn new() -> (b: Builder)
        ensures
            b.splits_lists(),
    {
        Builder { list_values: true }
    }

    /// Whether to split unquoted commas into lists and strip quotes.
    ///
    /// With this off, a value is the text as written, minus any trailing
    /// comment. That suits callers that do their own quoting.
    pub fn list_values(self, enabled: bool) -> (b: Builder)
        ensures
            b.splits_lists() == enabled,
    {
        let mut b = self;
        b.list_values = enabled;
        b
    }

    fn build(&self, lines: &[String], bom: bool) -> (r: Result<ConfigObj, Error>)
        ensures
            read_outcome(line_texts(lines@), self.splits_lists(), bom, r),
    {
        let parsed = parse(lines, self.list_values);
        if parsed.errors.len() > 0 {
            return Err(Error::Parse(parsed.errors));
        }
        let indent = match parsed.indent {
            Some(i) => i,
            None => String::new(),
        };
        Ok(
            ConfigObj {
                root: parsed.root,
                initial_comment: parsed.initial_comment,
                final_comment: parsed.final_comment,
                indent: Indent(indent),
                list_values: self.list_values,
                filename: None,
                bom,
            },
        )
    }

    /// Parse config text.
    pub fn from_str(&self, text: &str) -> (r: Result<ConfigObj, Error>)
        ensures
            read_outcome(split_lines_spec(text@), self.splits_lists(), false, r),
    {
        let lines = split_lines(text);
        assert(line_texts(lines@) =~= texts(lines@));
        self.build(lines.as_slice(), false)
    }

    /// Parse config text from bytes, honouring a UTF-8 byte order mark.
    pub fn from_bytes(&self, bytes: &[u8]) -> (r: Result<ConfigObj, Error>)
        ensures
            bytes_outcome(bytes@, self.splits_lists(), r),
    {
        let (text, bom) = decode(bytes)?;
        let lines = split_lines(text.as_str());
        assert(line_texts(lines@) =~= texts(lines@));
        self.build(lines.as_slice(), bom)
    }

    /// Parse a sequence of lines, which may have trailing newlines or not.
    pub fn from_lines<L: IntoLines>(&self, lines: L) -> (r: Result<ConfigObj, Error>)
        ensures
            read_outcome(trim_line_ends(lines.lines_model()), self.splits_lists(), false, r),
    {
        let raw = lines.into_lines();
        let mut trimmed: Vec<String> = Vec::new();
        let mut i: usize = 0;
        while i < raw.len()
            invariant
                0 <= i <= raw@.len(),
                trimmed@.len() == i,
                forall|j: int|
                    0 <= j < i ==> (#[trigger] trimmed@[j])@ == trim_end_class(
                        raw@[j]@,
                        CharClass::LineEnd,
                    ),
            decreases raw@.len() - i,
        {
            let v = chars_of(raw[i].as_str());
            let n = v.len();
            let e = skip_trail(v.as_slice(), 0, n, CharClass::LineEnd);
            assert(v@.subrange(0, n as int) == v@);
            assert(v@.subrange(0, e as int) =~= trim_end_class(v@, CharClass::LineEnd));
            trimmed.push(string_of(v.as_slice(), 0, e));
            i = i + 1;
        }
        assert(line_texts(trimmed@) =~= trim_line_ends(texts(raw@)));
        self.build(trimmed.as_slice(), false)
    }
}

impl ConfigObj {
    /// An empty config with default settings.
    pub fn new() -> (c: ConfigObj)
        ensures
            c@ == empty_config(),
            !c.has_filename(),
    {
        let c = ConfigObj {
            root: Section::new(),
            initial_comment: Vec::new(),
            final_comment: Vec::new(),
            indent: Indent(String::new()),
            list_values: true,
            filename: None,
            bom: false,
        };
        assert(c@.initial_comment =~= Seq::<Seq<char>>::empty());
        assert(c@.final_comment =~= Seq::<Seq<char>>::empty());
        c
    }

    /// Parse config text with default options.
    pub fn from_str(text: &str) -> (r: Result<ConfigObj, Error>)
        ensures
            read_outcome(split_lines_spec(text@), true, false, r),
    {
        Builder::new().from_str(text)
    }

    /// Parse config bytes with default options, honouring a UTF-8 byte order
    /// mark.
    pub fn from_bytes(bytes: &[u8]) -> (r: Result<ConfigObj, Error>)
        ensures
            bytes_outcome(bytes@, true, r),
    {
        Builder::new().from_bytes(bytes)
    }

    /// Parse a sequence of lines with default options.
    pub fn from_lines<L: IntoLines>(lines: L) -> (r: Result<ConfigObj, Error>)
        ensures
            read_outcome(trim_line_ends(lines.lines_model()), true, false, r),
    {
        Builder::new().from_lines(lines)
    }

    /// The top-level section.
    pub fn root(&self) -> (r: &Section)
        ensures
            r@ == self@.root,
    {
        &self.root
    }

    /// Mutable access to the top-level section.
    pub fn root_mut(&mut self) -> (r: &mut Section)
        ensures
            (*r)@ == old(self)@.root,
            final(self)@ == (ConfigModel { root: (*final(r))@, ..old(self)@ }),
            final(self).has_filename() == old(self).has_filename(),
            final(self).file() == old(self).file(),
    {
        &mut self.root
    }

    /// The file this config was read from, if any.
    pub fn filename(&self) -> (r: Option<&std::path::Path>)
        ensures
            r is Some == self.has_filename(),
    {
        match &self.filename {
            Some(p) => Some(as_path(p)),
            None => None,
        }
    }

    /// The file that saving writes to and reloading reads from: the one this
    /// config remembers. Without one, an `Io` error of kind `InvalidInput`
    /// saying that there is no file to save to (or, when `reloading`, to
    /// reload from).
    pub fn remembered_file(&self, reloading: bool) -> (r: Result<&std::path::Path, Error>)
        ensures
            r is Ok <==> self.has_filename(),
            r matches Err(e) ==> e is Io,
    {
        match &self.filename {
            Some(p) => Ok(as_path(p)),
            None => if reloading {
                Err(Error::Io(invalid_input("config has no filename to reload from")))
            } else {
                Err(Error::Io(invalid_input("config has no filename to save to")))
            },
        }
    }

    /// Set the file this config is associated with, which is where saving and
    /// reloading act.
    pub fn set_filename(&mut self, path: std::path::PathBuf)
        ensures
            final(self)@ == old(self)@,
            final(self).has_filename(),
            final(self).file() == Some(path),
    {
        self.filename = Some(path);
    }

    /// Comment lines at the very top of the file.
    pub fn initial_comment(&self) -> (r: &[String])
        ensures
            texts(r@) == self@.initial_comment,
    {
        self.initial_comment.as_slice()
    }

    /// Replace the comment lines at the top of the file.
    pub fn set_initial_comment<L: IntoLines>(&mut self, lines: L)
        ensures
            final(self)@ == (ConfigModel { initial_comment: lines.lines_model(), ..old(self)@ }),
            final(self).has_filename() == old(self).has_filename(),
            final(self).file() == old(self).file(),
    {
        self.initial_comment = lines.into_lines();
    }

    /// Comment lines at the very bottom of the file.
    pub fn final_comment(&self) -> (r: &[String])
        ensures
            texts(r@) == self@.final_comment,
    {
        self.final_comment.as_slice()
    }

    /// Replace the comment lines at the bottom of the file.
    pub fn set_final_comment<L: IntoLines>(&mut self, lines: L)
        ensures
            final(self)@ == (ConfigModel { final_comment: lines.lines_model(), ..old(self)@ }),
            final(self).has_filename() == old(self).has_filename(),
            final(self).file() == old(self).file(),
    {
        self.final_comment = lines.into_lines();
    }

    /// The indentation used for nested sections.
    pub fn indent(&self) -> (r: &str)
        ensures
            r@ == self@.indent,
    {
        self.indent.0.as_str()
    }

    /// Set the indentation used for nested sections.
    pub fn set_indent(&mut self, indent: &str)
        ensures
            final(self)@ == (ConfigModel { indent: indent@, ..old(self)@ }),
            final(self).has_filename() == old(self).has_filename(),
            final(self).file() == old(self).file(),
    {
        self.indent = Indent(owned(indent));
    }

    /// Whether a UTF-8 byte order mark was seen, and so will be written back.
    pub fn has_bom(&self) -> (b: bool)
        ensures
            b == self@.bom,
    {
        self.bom
    }

    /// Choose whether to write a UTF-8 byte order mark.
    pub fn set_bom(&mut self, bom: bool)
        ensures
            final(self)@ == (ConfigModel { bom, ..old(self)@ }),
            final(self).has_filename() == old(self).has_filename(),
            final(self).file() == old(self).file(),
    {
        self.bom = bom;
    }

    /// Render the config as lines, without trailing newlines.
    pub fn to_lines(&self) -> (r: Result<Vec<String>, Error>)
        ensures
            lines_result(r, render(self@)),
    {
        let w = Writer { indent: &self.indent, list_values: self.list_values };
        w.write(&self.root, self.initial_comment.as_slice(), self.final_comment.as_slice())
    }

    /// Render the config as text.
    ///
    /// The result ends with a newline when it is not empty.
    pub fn to_string(&self) -> (r: Result<String, Error>)
        ensures
            match render(self@) {
                Ok(ls) => (r matches Ok(s) && s@ == join_lines(ls)),
                Err(u) => (r matches Err(Error::Unwritable(x)) && x@ == u),
            },
    {
        let lines = self.to_lines()?;
        let mut text = String::new();
        let mut i: usize = 0;
        while i < lines.len()
            invariant
                0 <= i <= lines@.len(),
                text@ == join_lines(texts(lines@).take(i as int)),
            decreases lines@.len() - i,
        {
            push_str(&mut text, lines[i].as_str());
            push_char(&mut text, '\n');
            assert(texts(lines@).take(i + 1).drop_last() == texts(lines@).take(i as int));
            i = i + 1;
        }
        assert(texts(lines@).take(lines@.len() as int) == texts(lines@));
        Ok(text)
    }

    /// Render the config as bytes, including a byte order mark if one is set.
    pub fn to_bytes(&self) -> (r: Result<Vec<u8>, Error>)
        ensures
            match render(self@) {
                Ok(ls) => (r matches Ok(b) && b@ == (if self@.bom {
                    bom_utf8()
                } else {
                    Seq::empty()
                }) + encode_utf8(join_lines(ls))),
                Err(u) => (r matches Err(Error::Unwritable(x)) && x@ == u),
            },
    {
        let text = self.to_string()?;
        let mut bytes: Vec<u8> = Vec::new();
        if self.bom {
            bytes.push(0xEFu8);
            bytes.push(0xBBu8);
            bytes.push(0xBFu8);
            assert(bytes@ =~= bom_utf8());
        }
        let ghost b0 = bytes@;
        let body = text.as_str().as_bytes();
        let mut i: usize = 0;
        while i < body.len()
            invariant
                0 <= i <= body@.len(),
                bytes@ == b0 + body@.take(i as int),
            decreases body@.len() - i,
        {
            bytes.push(body[i]);
            assert(body@.take(i + 1) =~= body@.take(i as int).push(body@[i as int]));
            i = i + 1;
        }
        assert(body@.take(body@.len() as int) == body@);
        Ok(bytes)
    }

    /// Re-read the config from the bytes of its file, discarding changes.
    ///
    /// The same reading options are used. A file with no indentation of its
    /// own keeps whatever the caller set, and the associated file stays. When
    /// reading fails, the config is left as it was.
    pub fn reload_from_bytes(&mut self, bytes: &[u8]) -> (r: Result<(), Error>)
        ensures
            final(self).has_filename() == old(self).has_filename(),
            final(self).file() == old(self).file(),
            match decode_spec(bytes@) {
                Err(m) => (r matches Err(Error::Encoding(e)) && e@ == m && final(self)@ == old(self)@),
                Ok((t, bom)) => {
                    let p = parse_spec(split_lines_spec(t), old(self)@.list_values);
                    if p.errors.len() > 0 {
                        (r matches Err(Error::Parse(es)) && error_models(es@) == p.errors
                            && final(self)@ == old(self)@)
                    } else {
                        r is Ok && final(self)@ == reloaded(old(self)@, p, bom)
                    }
                },
            },
    {
        let fresh = Builder::new().list_values(self.list_values).from_bytes(bytes)?;
        let keep_indent = fresh.indent.0.as_str().is_empty();
        let ConfigObj { root, initial_comment, final_comment, indent, list_values, filename: _, bom } = fresh;
        self.root = root;
        self.initial_comment = initial_comment;
        self.final_comment = final_comment;
        if !keep_indent {
            self.indent = indent;
        }
        self.list_values = list_values;
        self.bom = bom;
        Ok(())
    }

    /// Quote a value so that parsing it yields the value back.
    ///
    /// This is for callers that keep values quoted themselves, typically
    /// alongside `Builder::list_values(false)`: the value is quoted here and
    /// stored as-is, and [`ConfigObj::unquote`] gives the value back. Quoting
    /// always follows the list-value rules, since those are what make a value
    /// safe to read back.
    pub fn quote(value: &str) -> (r: Result<String, Error>)
        ensures
            text_result(r, quote_value_spec(ValueModel::String(value@), true)),
    {
        let indent = Indent(String::new());
        let w = Writer { indent: &indent, list_values: true };
        let v = Value::String(owned(value));
        w.quote_value_for_api(&v)
    }

    /// Quote a value, single or list, the way the list-value rules write it.
    pub fn quote_value(value: &Value) -> (r: Result<String, Error>)
        ensures
            text_result(r, quote_value_spec(value@, true)),
    {
        let indent = Indent(String::new());
        let w = Writer { indent: &indent, list_values: true };
        w.quote_value_for_api(value)
    }

    /// Strip the quotes from a value, as parsing would: a layer of triple
    /// quotes when the value is wrapped in them, and otherwise one layer of
    /// matching quotes. This undoes `ConfigObj::quote`.
    pub fn unquote(value: &str) -> (r: &str)
        ensures
            r@ == unquote_value_spec(value@),
    {
        let v = chars_of(value);
        let n = v.len();
        if n >= 6 && (v[0] == '"' || v[0] == '\'') && v[1] == v[0] && v[2] == v[0] && v[n - 1] == v[0]
            && v[n - 2] == v[0] && v[n - 3] == v[0] {
            return value.substring_char(3, n - 3);
        }
        if n >= 2 && (v[0] == '"' || v[0] == '\'') && v[n - 1] == v[0] {
            assert(v@.last() == v@[n - 1]);
            return value.substring_char(1, n - 1);
        }
        proof {
            if n >= 2 {
                assert(v@.last() == v@[n - 1]);
            }
        }
        value
    }
}

impl core::ops::Deref for ConfigObj {
    type Target = Section;

    fn deref(&self) -> (r: &Section)
        ensures
            r@ == self@.root,
    {
        &self.root
    }
}

impl core::ops::DerefMut for ConfigObj {
    fn deref_mut(&mut self) -> (r: &mut Section)
        ensures
            (*r)@ == old(self)@.root,
            final(self)@ == (ConfigModel { root: (*final(r))@, ..old(self)@ }),
    {
        &mut self.root
    }
}

impl core::str::FromStr for ConfigObj {
    type Err = Error;

    /// Parse a config from text, as `ConfigObj::from_str` does.
    fn from_str(text: &str) -> Result<ConfigObj, Error> {
        ConfigObj::from_str(text)
    }
}

impl Default for ConfigObj {
    fn default() -> (c: ConfigObj)
        ensures
            c@ == empty_config(),
    {
        ConfigObj::new()
    }
}

impl Default for Builder {
    fn default() -> (b: Builder)
        ensures
            b.splits_lists(),
    {
        Builder::new()
    }
}

} // verus!
