//! What writing and reading promise of each other.
//!
//! The writer quotes what it must so that reading its output gives back what
//! was written, and refuses what it cannot write that way. The laws here
//! state that over the models of the writer and the reader.

use vstd::prelude::*;
use crate::text::{CharClass, is_space, is_quote, in_class, lead_len, trail_len, trim_start, trim_end, trim, is_first, find_char, lemma_lead_len, lemma_trail_len};
use crate::parse::{unquote_value_spec, trim_all, unquote_all, multiline_from, LineModel, classify_spec, match_section_spec, match_keyword_spec, key_end, unquote_spec, read_value_spec, ReadModel, ScanState, scan, scan_step, is_comment_start, is_first_comment_start, split_comment_spec, is_split_comma, segments, split_commas_spec, ItemsModel, check_item_spec, triple_quote_prefix_spec, read_multiline_spec};
use crate::text::{triple_at, is_first_triple, find_triple};
use crate::reader::{lemma_read_value_last, parse_spec, ParsedModel, run, step, start_state, close_to, parsed_insert, PState, begin, note_indent, current, with_current};
use crate::section::{SectionModel, EntryModel, ItemModel, CommentsModel, key_index, has_key};
use crate::value::ValueModel;
use crate::write::{quote_items, join_items, write_spec, write_section_spec, scalar_lines, section_lines, scalar_entry_lines, section_entry_lines, comment_lines, inline_text, quote_key_spec, quote_value_spec, quote_spec, is_awkward, single_quote_spec, triple_fits, has_triple, triple_quote_spec};
use crate::config::{bytes_outcome, read_outcome, decode_spec, strip_bom, bom_utf8, config_of, split_newlines, strip_cr, split_lines_spec, join_lines, render, ConfigModel};
use crate::reader::parse_value_no_lists_spec;
use crate::section::value_at;
use crate::error::Error;
use crate::config::ConfigObj;
use vstd::utf8::{encode_utf8, decode_utf8, valid_utf8, encode_utf8_first_scalar, encode_utf8_valid_utf8, encode_utf8_decode_utf8, char_u32_cast, decode_first_scalar};

verus! {

// ---------------------------------------------------------------------------
// Facts about trimming and searching text.
// ---------------------------------------------------------------------------

/// The first `c` in `s` is found where it is.
pub(crate) proof fn lemma_find_char_at(s: Seq<char>, c: char, i: int)
    requires
        is_first(s, c, i),
    ensures
        find_char(s, c) == Some(i),
{
    assert forall|j: int| is_first(s, c, j) implies j == i by {
        if j < i {
            assert(s[j] == c);
        } else if j > i {
            assert(s[i] == c);
        }
    }
}

/// Text with no white space at its ends is its own trimming.
pub(crate) proof fn lemma_trim_plain(s: Seq<char>)
    requires
        s.len() > 0,
        !is_space(s[0]),
        !is_space(s.last()),
    ensures
        trim_start(s) == s,
        trim_end(s) == s,
        trim(s) == s,
{
    lemma_lead_len(s, CharClass::Space, 0);
    lemma_trail_len(s, CharClass::Space, 0);
    assert(s.skip(0) == s);
    assert(s.take(s.len() as int) == s);
}

/// A space in front makes no difference once the start is trimmed.
pub(crate) proof fn lemma_trim_start_space(r: Seq<char>)
    ensures
        trim_start(seq![' '] + r) == trim_start(r),
{
    let s = seq![' '] + r;
    assert(s.drop_first() == r);
    assert(in_class(s[0], CharClass::Space));
    assert(lead_len(s, CharClass::Space) == 1 + lead_len(r, CharClass::Space));
    crate::text::lemma_lead_len_facts(r, CharClass::Space);
    assert(s.skip(1 + lead_len(r, CharClass::Space) as int) =~= r.skip(lead_len(r, CharClass::Space) as int));
}

/// A space behind makes no difference to the trimming of text whose own ends
/// are not white space.
pub(crate) proof fn lemma_trim_space_behind(k: Seq<char>)
    requires
        k.len() > 0,
        !is_space(k[0]),
        !is_space(k.last()),
    ensures
        trim(k + seq![' ']) == k,
{
    let s = k + seq![' '];
    lemma_lead_len(s, CharClass::Space, 0);
    assert(s.skip(0) == s);
    lemma_trail_len(s, CharClass::Space, 1);
    assert(s.take(s.len() - 1) == k);
}

// ---------------------------------------------------------------------------
// Reading a `key = value` line.
// ---------------------------------------------------------------------------

/// A key written as it is that the reader reads as it is: not empty, with
/// no white space at its ends, no `=` or line break anywhere, and no quote,
/// `[` or `#` in front.
pub open spec fn bare_key(k: Seq<char>) -> bool {
    &&& k.len() > 0
    &&& !is_space(k[0])
    &&& !is_space(k.last())
    &&& !is_quote(k[0])
    &&& k[0] != '['
    &&& k[0] != '#'
    &&& !k.contains('=')
    &&& !k.contains('\n')
}

/// `qk` is the key `k` in quotes that it does not contain.
pub open spec fn quoted_key(qk: Seq<char>, k: Seq<char>) -> bool {
    &&& qk.len() >= 2
    &&& is_quote(qk[0])
    &&& qk == seq![qk[0]] + k + seq![qk[0]]
    &&& !k.contains(qk[0])
    &&& !k.contains('\n')
}

/// The key `k`, written as `qk`, reads back as `k`.
pub open spec fn key_written_as(qk: Seq<char>, k: Seq<char>) -> bool {
    (qk == k && bare_key(k)) || quoted_key(qk, k)
}

/// The line `key = value` as the writer writes it for a key written as `k`
/// and a value written as `q`.
pub open spec fn keyword_line(k: Seq<char>, q: Seq<char>) -> Seq<char> {
    k + " = "@ + q
}

/// A line that is not blank and does not start with `#` or an opening
/// bracket is read as a `key = value` line if it is one at all.
pub(crate) proof fn lemma_not_header(line: Seq<char>)
    requires
        line.len() > 0,
        !is_space(line[0]),
        line[0] != '#',
        !in_class(line[0], CharClass::Open),
    ensures
        classify_spec(line) == match match_keyword_spec(line) {
            Some(k) => k,
            None => LineModel::Invalid,
        },
        lead_len(line, CharClass::Space) == 0,
{
    lemma_lead_len(line, CharClass::Space, 0);
    assert(trim_start(line) == line) by {
        assert(line.skip(0) == line);
    }
    lemma_lead_len(line, CharClass::Open, 0);
    assert(line.take(0) =~= Seq::<char>::empty());
    assert(line.skip(0) == line);
    crate::text::lemma_trail_len_facts(line, CharClass::Space);
    assert(trail_len(line, CharClass::Space) < line.len()) by {
        if trail_len(line, CharClass::Space) == line.len() {
            assert(in_class(line[0], CharClass::Space));
        }
    }
    assert(trim(line) == line.take(line.len() - trail_len(line, CharClass::Space)));
    assert(trim(line)[0] == line[0]);
    assert(match_section_spec(line) is None);
}

/// A line that starts with a bare key and ` = ` reads as that key, with the
/// rest of the line, less leading white space, as its value.
pub(crate) proof fn lemma_classify_bare(k: Seq<char>, r: Seq<char>)
    requires
        bare_key(k),
    ensures
        classify_spec(keyword_line(k, r)) == (LineModel::Keyword {
            indent: Seq::empty(),
            key: k,
            rest: trim_start(r),
        }),
{
    reveal_strlit(" = ");
    let line = keyword_line(k, r);
    let n = k.len() as int;
    assert(line[0] == k[0]);
    assert(line[n] == ' ');
    assert(line[n + 1] == '=');
    assert(line[n + 2] == ' ');
    assert(line.skip(n + 2) == seq![' '] + r);
    lemma_not_header(line);
    assert(line.take(0) =~= Seq::<char>::empty());
    assert(line.skip(0) == line);
    // The key runs to the first `=`, which is the one the writer put there.
    assert(is_first(line, '=', n + 1)) by {
        assert forall|j: int| 0 <= j < n + 1 implies line[j] != '=' by {
            if j < n {
                assert(line[j] == k[j]);
                assert(k.contains(k[j]));
            }
        }
    }
    lemma_find_char_at(line, '=', n + 1);
    assert(key_end(line) == Some(n + 1));
    assert(line.skip(n + 1)[0] == '=');
    lemma_find_char_at(line.skip(n + 1), '=', 0);
    assert(line.take(n + 1) == k + seq![' ']);
    lemma_trim_space_behind(k);
    assert(line.skip(n + 1 + 0 + 1) == seq![' '] + r);
    lemma_trim_start_space(r);
}

/// A line that starts with a quoted key and ` = ` reads as that key, with
/// the rest of the line, less leading white space, as its value.
pub(crate) proof fn lemma_classify_quoted(qk: Seq<char>, k: Seq<char>, r: Seq<char>)
    requires
        quoted_key(qk, k),
    ensures
        classify_spec(keyword_line(qk, r)) == (LineModel::Keyword {
            indent: Seq::empty(),
            key: qk,
            rest: trim_start(r),
        }),
{
    reveal_strlit(" = ");
    let c = qk[0];
    let line = keyword_line(qk, r);
    let n = k.len() as int;
    assert(line[0] == c);
    assert(line[n + 1] == c);
    assert(line[n + 2] == ' ');
    assert(line[n + 3] == '=');
    assert(line[n + 4] == ' ');
    lemma_not_header(line);
    assert(line.take(0) =~= Seq::<char>::empty());
    assert(line.skip(0) == line);
    // The key runs to its closing quote, the first after the opening one.
    let t = line.drop_first();
    assert(is_first(t, c, n)) by {
        assert forall|j: int| 0 <= j < n implies t[j] != c by {
            assert(t[j] == k[j]);
            assert(k.contains(k[j]));
        }
    }
    lemma_find_char_at(t, c, n);
    assert(key_end(line) == Some(n + 2));
    assert(line.skip(n + 2)[1] == '=');
    assert(line.skip(n + 2)[0] == ' ');
    lemma_find_char_at(line.skip(n + 2), '=', 1);
    assert(line.take(n + 2) == qk);
    lemma_trim_plain(qk);
    assert(line.skip(n + 2 + 1 + 1) == seq![' '] + r);
    lemma_trim_start_space(r);
}

/// A key written the way the reader reads it back.
pub(crate) proof fn lemma_classify_keyword_line(qk: Seq<char>, k: Seq<char>, r: Seq<char>)
    requires
        key_written_as(qk, k),
    ensures
        classify_spec(keyword_line(qk, r)) == (LineModel::Keyword {
            indent: Seq::empty(),
            key: qk,
            rest: trim_start(r),
        }),
        unquote_spec(qk) == k,
        qk.len() > 0,
        !qk.contains('\n'),
{
    if qk == k && bare_key(k) {
        lemma_classify_bare(k, r);
    } else {
        lemma_classify_quoted(qk, k, r);
        assert(qk.subrange(1, qk.len() - 1) == k);
        assert(!qk.contains('\n')) by {
            if qk.contains('\n') {
                let i = choose|i: int| 0 <= i < qk.len() && qk[i] == '\n';
                assert(qk[i] == k[i - 1]);
            }
        }
    }
}

/// The entries of a section holding one value and nothing else.
pub open spec fn one_value(k: Seq<char>, v: ValueModel) -> SectionModel {
    seq![EntryModel { key: k, item: ItemModel::Scalar(v), comments: None }]
}

/// What reading gives for a file holding one value and nothing else.
pub open spec fn read_one_value(k: Seq<char>, v: ValueModel) -> ParsedModel {
    ParsedModel {
        root: one_value(k, v),
        initial_comment: Seq::empty(),
        final_comment: Seq::empty(),
        indent: None,
        errors: Seq::empty(),
    }
}

/// A file whose first line is a `key = value` line, whose value takes up
/// the rest of the file and has no comment, reads as that one value, under
/// the key unquoted.
pub(crate) proof fn lemma_parse_one_value(
    lines: Seq<Seq<char>>,
    qk: Seq<char>,
    k: Seq<char>,
    rest: Seq<char>,
    v: ValueModel,
    list_values: bool,
)
    requires
        lines.len() > 0,
        unquote_spec(qk) == k,
        classify_spec(lines[0]) == (LineModel::Keyword { indent: Seq::empty(), key: qk, rest }),
        read_value_spec(rest, lines, 0, list_values) == ReadModel::Read(v, None, lines.len() - 1),
    ensures
        parse_spec(lines, list_values) == read_one_value(k, v),
{
    let st0 = start_state();
    let s1 = note_indent(begin(st0), Seq::empty());
    let s2 = PState { pending: Seq::empty(), ..s1 };
    assert(!has_key(current(s2), k));
    let cm = CommentsModel { above: s1.pending, inline: None };
    assert(cm.above.len() == 0);
    let m = parsed_insert(current(s2), k, ItemModel::Scalar(v), cm);
    assert(key_index(Seq::<EntryModel>::empty(), k) is None);
    assert(m == one_value(k, v));
    let (s, next) = step(st0, lines, 0, list_values);
    assert(s == with_current(s2, m));
    assert(next == lines.len());
    assert(run(st0, lines, 0, list_values) == run(s, lines, next, list_values));
    assert(run(s, lines, next, list_values) == s);
    assert(close_to(s, 0) == s);
    assert(parse_spec(lines, list_values) == read_one_value(k, v));
}

// ---------------------------------------------------------------------------
// Reading a value that fits on one line.
// ---------------------------------------------------------------------------

/// Scanning text that starts with an ordinary character and holds no comma:
/// past the first character, nothing is quoted and no item starts.
pub(crate) proof fn lemma_scan_bare(s: Seq<char>, n: int)
    requires
        0 < n <= s.len(),
        !is_quote(s[0]),
        !is_space(s[0]),
        forall|j: int| 0 <= j < s.len() ==> #[trigger] s[j] != ',',
    ensures
        scan(s, n) == (ScanState { quote: None, at_item_start: false }),
    decreases n,
{
    if n > 1 {
        lemma_scan_bare(s, n - 1);
        assert(s[n - 1] != ',');
        assert(scan(s, n) == scan_step(scan(s, n - 1), s[n - 1]));
    } else {
        assert(scan(s, 0) == ScanState { quote: None, at_item_start: true });
        assert(scan(s, 1) == scan_step(scan(s, 0), s[0]));
    }
}

/// Scanning text wrapped in a quote it does not contain: everything inside is
/// quoted, and the closing quote ends the quoted region.
pub(crate) proof fn lemma_scan_quoted(c: char, s: Seq<char>, n: int)
    requires
        is_quote(c),
        !s.contains(c),
        1 <= n <= s.len() + 2,
    ensures
        scan(seq![c] + s + seq![c], n) == (if n <= s.len() + 1 {
            ScanState { quote: Some(c), at_item_start: true }
        } else {
            ScanState { quote: None, at_item_start: false }
        }),
    decreases n,
{
    let w = seq![c] + s + seq![c];
    assert(scan(w, n) == scan_step(scan(w, n - 1), w[n - 1]));
    if n > 1 {
        lemma_scan_quoted(c, s, n - 1);
        if n <= s.len() + 1 {
            assert(w[n - 1] == s[n - 2]);
            assert(s.contains(s[n - 2]));
        } else {
            assert(w[n - 1] == c);
        }
    } else {
        assert(scan(w, 0) == ScanState { quote: None, at_item_start: true });
        assert(w[0] == c);
    }
}

/// With no comma splitting it, the first `n` characters are one piece.
pub(crate) proof fn lemma_segments_unsplit(s: Seq<char>, n: int)
    requires
        0 <= n <= s.len(),
        forall|j: int| 0 <= j < n ==> !is_split_comma(s, j),
    ensures
        segments(s, n) == seq![s.take(n)],
    decreases n,
{
    if n > 0 {
        lemma_segments_unsplit(s, n - 1);
        assert(!is_split_comma(s, n - 1));
        let p = segments(s, n - 1);
        assert(segments(s, n) == p.update(p.len() - 1, p.last().push(s[n - 1])));
        assert(s.take(n - 1).push(s[n - 1]) =~= s.take(n));
        assert(seq![s.take(n - 1)].update(0, s.take(n)) =~= seq![s.take(n)]);
    } else {
        assert(s.take(0) =~= Seq::<char>::empty());
    }
}

/// Text with no comment in it and nothing left quoted is its own body.
pub(crate) proof fn lemma_no_comment(s: Seq<char>)
    requires
        forall|i: int| 0 <= i < s.len() ==> !is_comment_start(s, i),
        scan(s, s.len() as int).quote is None,
    ensures
        split_comment_spec(s) == Some((s, None::<Seq<char>>)),
{
    assert(!exists|i: int| is_first_comment_start(s, i));
}

/// A bare value reads as itself.
pub(crate) proof fn lemma_read_bare(s: Seq<char>, lines: Seq<Seq<char>>)
    requires
        s.len() > 0,
        !is_quote(s[0]),
        !is_space(s[0]),
        !is_space(s.last()),
        forall|j: int| 0 <= j < s.len() ==> #[trigger] s[j] != ',' && s[j] != '#',
    ensures
        read_value_spec(s, lines, 0, true) == ReadModel::Read(ValueModel::String(s), None, 0),
        split_comment_spec(s) == Some((s, None::<Seq<char>>)),
        triple_quote_prefix_spec(s) is None,
{
    assert forall|i: int| 0 <= i < s.len() implies !is_comment_start(s, i) by {
        assert(s[i] != '#');
    }
    lemma_scan_bare(s, s.len() as int);
    lemma_no_comment(s);
    lemma_trim_plain(s);
    assert forall|j: int| 0 <= j < s.len() implies !is_split_comma(s, j) by {
        assert(s[j] != ',');
    }
    lemma_segments_unsplit(s, s.len() as int);
    assert(s.take(s.len() as int) == s);
    assert(split_commas_spec(s) == Some(ItemsModel::Single(s)));
    assert(s != seq![',']) by {
        assert(s[0] != ',');
    }
}

/// Text wrapped in a quote it does not contain reads as the text.
pub(crate) proof fn lemma_read_single_quoted(c: char, s: Seq<char>, lines: Seq<Seq<char>>)
    requires
        is_quote(c),
        !s.contains(c),
    ensures
        read_value_spec(seq![c] + s + seq![c], lines, 0, true) == ReadModel::Read(
            ValueModel::String(s),
            None,
            0,
        ),
        split_comment_spec(seq![c] + s + seq![c]) == Some((seq![c] + s + seq![c], None::<Seq<char>>)),
        triple_quote_prefix_spec(seq![c] + s + seq![c]) is None,
{
    let w = seq![c] + s + seq![c];
    let n = w.len() as int;
    assert(w[0] == c);
    assert(w[n - 1] == c);
    assert forall|i: int| 0 <= i < n implies !is_comment_start(w, i) by {
        if i == 0 || i == n - 1 {
        } else {
            lemma_scan_quoted(c, s, i);
        }
    }
    lemma_scan_quoted(c, s, n);
    lemma_no_comment(w);
    lemma_trim_plain(w);
    assert forall|j: int| 0 <= j < n implies !is_split_comma(w, j) by {
        if 0 < j < n - 1 {
            lemma_scan_quoted(c, s, j);
        }
    }
    lemma_segments_unsplit(w, n);
    assert(w.take(n) == w);
    assert(split_commas_spec(w) == Some(ItemsModel::Single(w)));
    assert(w != seq![',']);
    assert(w.subrange(1, n - 1) == s);
    assert(triple_quote_prefix_spec(w) is None) by {
        if s.len() > 0 {
            assert(w[1] == s[0]);
        }
    }
}

/// Text wrapped in three copies of a quote it can be read back through,
/// all on one line, reads as the text.
pub(crate) proof fn lemma_read_triple_quoted(q: char, s: Seq<char>, lines: Seq<Seq<char>>)
    requires
        is_quote(q),
        !(exists|i: int| triple_at(s, q, i)),
        !(s.len() > 0 && (s[0] == q || s.last() == q)),
    ensures
        read_value_spec(seq![q, q, q] + s + seq![q, q, q], lines, 0, true) == ReadModel::Read(
            ValueModel::String(s),
            None,
            0,
        ),
{
    let w = seq![q, q, q] + s + seq![q, q, q];
    let body = w.skip(3);
    let n = s.len() as int;
    assert(body == s + seq![q, q, q]);
    assert(triple_quote_prefix_spec(w) == Some(q));
    assert(is_first_triple(body, q, n)) by {
        assert forall|j: int| 0 <= j < n implies !triple_at(body, q, j) by {
            if j + 3 <= n {
                assert(!triple_at(s, q, j));
                assert(body[j] == s[j] && body[j + 1] == s[j + 1] && body[j + 2] == s[j + 2]);
            } else if j == n - 2 {
                assert(body[j + 1] == s.last());
            } else {
                assert(body[j] == s.last());
            }
        }
    }
    assert(find_triple(body, q) == Some(n)) by {
        assert forall|j: int| is_first_triple(body, q, j) implies j == n by {
            if j < n {
                assert(!triple_at(body, q, j));
            } else if j > n {
                assert(!triple_at(body, q, n) || !is_first_triple(body, q, j));
            }
        }
    }
    assert(body.skip(n + 3) =~= Seq::<char>::empty());
    assert(trim(Seq::<char>::empty()).len() == 0);
    assert(body.take(n) == s);
}

// ---------------------------------------------------------------------------
// Writing one value, and splitting what was written into lines.
// ---------------------------------------------------------------------------

/// Text with no line break is one line.
pub(crate) proof fn lemma_split_no_newline(x: Seq<char>)
    requires
        !x.contains('\n'),
    ensures
        split_newlines(x) == seq![x],
    decreases x.len(),
{
    if x.len() > 0 {
        let y = x.drop_last();
        assert(!y.contains('\n')) by {
            if y.contains('\n') {
                let i = choose|i: int| 0 <= i < y.len() && y[i] == '\n';
                assert(x[i] == '\n');
            }
        }
        lemma_split_no_newline(y);
        assert(x.last() != '\n') by {
            assert(x[x.len() - 1] == x.last());
        }
        assert(y.push(x.last()) == x);
    } else {
        assert(x =~= Seq::<char>::empty());
    }
}

/// A single line written out and split again is the same line, if it holds
/// no line break and does not end in a carriage return.
pub(crate) proof fn lemma_one_line_back(l: Seq<char>)
    requires
        l.len() > 0,
        !l.contains('\n'),
        l.last() != '\r',
    ensures
        split_lines_spec(join_lines(seq![l])) == seq![l],
{
    let lines = seq![l];
    assert(lines.drop_last() =~= Seq::<Seq<char>>::empty());
    assert(join_lines(lines.drop_last()) == Seq::<char>::empty());
    let t = join_lines(lines);
    assert(t == l + seq!['\n']) by {
        assert(Seq::<char>::empty() + l + seq!['\n'] =~= l + seq!['\n']);
    }
    assert(t.last() == '\n');
    assert(t.drop_last() =~= l);
    lemma_split_no_newline(l);
    assert(strip_cr(l) == l);
    assert(seq![l].map_values(|x: Seq<char>| strip_cr(x)) =~= seq![l]);
}

/// A section holding one value is written as one `key = value` line.
pub(crate) proof fn lemma_render_one(k: Seq<char>, v: ValueModel, indent: Seq<char>, list_values: bool, qk: Seq<char>, qv: Seq<char>)
    requires
        quote_key_spec(k, list_values) == Ok::<Seq<char>, Seq<char>>(qk),
        quote_value_spec(v, list_values) == Ok::<Seq<char>, Seq<char>>(qv),
    ensures
        write_spec(one_value(k, v), Seq::empty(), Seq::empty(), indent, list_values) == Ok::<
            Seq<Seq<char>>,
            Seq<char>,
        >(seq![qk + " = "@ + qv]),
{
    let m = one_value(k, v);
    let e = m[0];
    let ind = Seq::<char>::empty();
    let line = qk + " = "@ + qv;
    assert(comment_lines(None, ind) == Seq::<Seq<char>>::empty());
    assert(inline_text(None) == Seq::<char>::empty());
    assert(ind + qk + " = "@ + qv + inline_text(e.comments) =~= line);
    assert(scalar_entry_lines(e, ind, list_values) == Ok::<Seq<Seq<char>>, Seq<char>>(
        Seq::<Seq<char>>::empty() + seq![line],
    ));
    assert(scalar_lines(m, 0, ind, list_values) == Ok::<Seq<Seq<char>>, Seq<char>>(Seq::empty()));
    assert(Seq::<Seq<char>>::empty() + (Seq::<Seq<char>>::empty() + seq![line]) =~= seq![line]);
    assert(scalar_lines(m, 1, ind, list_values) == Ok::<Seq<Seq<char>>, Seq<char>>(seq![line]));
    assert(section_entry_lines(e, ind, seq!['['], seq![']'], indent, list_values) == Ok::<
        Seq<Seq<char>>,
        Seq<char>,
    >(Seq::empty()));
    assert(section_lines(m, 0, ind, seq!['['], seq![']'], indent, list_values) == Ok::<
        Seq<Seq<char>>,
        Seq<char>,
    >(Seq::empty()));
    assert(Seq::<Seq<char>>::empty() + Seq::<Seq<char>>::empty() =~= Seq::<Seq<char>>::empty());
    assert(section_lines(m, 1, ind, seq!['['], seq![']'], indent, list_values) == Ok::<
        Seq<Seq<char>>,
        Seq<char>,
    >(Seq::empty()));
    assert(seq![line] + Seq::<Seq<char>>::empty() =~= seq![line]);
    assert(write_section_spec(m, ind, seq!['['], seq![']'], indent, list_values) == Ok::<
        Seq<Seq<char>>,
        Seq<char>,
    >(seq![line]));
    assert(Seq::<Seq<char>>::empty().map_values(|t: Seq<char>| crate::write::comment_line_spec(t))
        =~= Seq::<Seq<char>>::empty());
    assert(Seq::<Seq<char>>::empty() + seq![line] + Seq::<Seq<char>>::empty() =~= seq![line]);
}

// ---------------------------------------------------------------------------
// A file of one line.
// ---------------------------------------------------------------------------

/// A value read from the only line of a file does not depend on what else
/// that line holds.
pub(crate) proof fn lemma_read_one_line(rest: Seq<char>, a: Seq<Seq<char>>, b: Seq<Seq<char>>, list_values: bool)
    requires
        a.len() == 1,
        b.len() == 1,
    ensures
        read_value_spec(rest, a, 0, list_values) == read_value_spec(rest, b, 0, list_values),
{
    if let Some(q) = triple_quote_prefix_spec(rest) {
        let body = rest.skip(3);
        assert(multiline_from(q, body, a, 0) is None);
        assert(multiline_from(q, body, b, 0) is None);
    }
}

/// A file of one `key = value` line reads without error only if its value
/// reads, and then holds that value under the key unquoted.
pub(crate) proof fn lemma_parse_one_line(line: Seq<char>, qk: Seq<char>, k: Seq<char>, rest: Seq<char>, list_values: bool)
    requires
        unquote_spec(qk) == k,
        classify_spec(line) == (LineModel::Keyword { indent: Seq::empty(), key: qk, rest }),
        parse_spec(seq![line], list_values).errors.len() == 0,
    ensures
        read_value_spec(rest, seq![line], 0, list_values) matches ReadModel::Read(v, _, last) && last
            == 0 && value_at(parse_spec(seq![line], list_values).root, k) == Some(v),
{
    let lines = seq![line];
    let st0 = start_state();
    let s1 = note_indent(begin(st0), Seq::empty());
    lemma_read_value_last(rest, lines, 0, list_values);
    let (s, next) = step(st0, lines, 0, list_values);
    assert(run(st0, lines, 0, list_values) == run(s, lines, next, list_values));
    assert(next == 1);
    assert(run(s, lines, next, list_values) == s);
    assert(s.open.len() == 0);
    assert(close_to(s, 0) == s);
    match read_value_spec(rest, lines, 0, list_values) {
        ReadModel::Read(v, c, last) => {
            let s2 = PState { pending: Seq::empty(), ..s1 };
            assert(!has_key(current(s2), k));
            let cm = CommentsModel { above: s1.pending, inline: c };
            assert(key_index(Seq::<EntryModel>::empty(), k) is None);
            let m = parsed_insert(current(s2), k, ItemModel::Scalar(v), cm);
            assert(s.root == m);
            assert(crate::section::is_key_at(m, k, 0));
            crate::section::lemma_key_index(m, k, 0);
        },
        _ => {
            assert(s.errors.len() > 0);
        },
    }
}

/// The length of trimmed text is at most that of the text.
pub(crate) proof fn lemma_trim_len(s: Seq<char>)
    ensures
        trim_start(s).len() == s.len() - lead_len(s, CharClass::Space),
        trim(s).len() <= trim_start(s).len() <= s.len(),
        trim(s).len() == s.len() ==> trim(s) == s && lead_len(s, CharClass::Space) == 0 && (s.len()
            > 0 ==> !is_space(s.last())),
{
    crate::text::lemma_lead_len_facts(s, CharClass::Space);
    let t = trim_start(s);
    crate::text::lemma_trail_len_facts(t, CharClass::Space);
    if trim(s).len() == s.len() {
        assert(t == s) by {
            assert(s.skip(0) == s);
        }
        assert(trim(s) == s) by {
            assert(s.take(s.len() as int) == s);
        }
        if s.len() > 0 {
            assert(s[s.len() - 1] == s.last());
        }
    }
}

/// With list values off, a value read back as the whole of the text after
/// ` = ` comes with no comment, and that text has no white space at its ends.
pub(crate) proof fn lemma_no_lists_whole(s: Seq<char>, lines: Seq<Seq<char>>, c: Option<Seq<char>>)
    requires
        lines.len() == 1,
        read_value_spec(trim_start(s), lines, 0, false) == ReadModel::Read(ValueModel::String(s), c, 0),
    ensures
        c is None,
        trim_start(s) == s,
        s.len() > 0 ==> !is_space(s.last()) && !is_space(s[0]) && s[0] != '#',
        triple_quote_prefix_spec(trim_start(s)) is None,
        split_comment_spec(trim_start(s)) == Some((trim_start(s), None::<Seq<char>>)),
{
    let r = trim_start(s);
    lemma_trim_len(s);
    crate::text::lemma_lead_len_facts(s, CharClass::Space);
    if let Some(q) = triple_quote_prefix_spec(r) {
        let body = r.skip(3);
        assert(multiline_from(q, body, lines, 0) is None);
        match find_triple(body, q) {
            Some(end) => {
                assert(is_first_triple(body, q, end)) by {
                    assert(exists|i: int| is_first_triple(body, q, i));
                }
                assert(body.take(end).len() < s.len());
            },
            None => {},
        }
        assert(false);
    } else {
        match split_comment_spec(r) {
            Some((b, cm)) => {
                if exists|i: int| is_first_comment_start(r, i) {
                    let i = choose|i: int| is_first_comment_start(r, i);
                    assert(b == r.take(i));
                    lemma_trim_len(b);
                    assert(trim(b).len() < s.len());
                    assert(false);
                } else {
                    assert(b == r);
                    assert(trim(r) == s);
                    lemma_trim_len(r);
                    assert(trim(r).len() == r.len());
                    assert(r.len() == s.len());
                    assert(r == s) by {
                        assert(s.skip(0) == s);
                    }
                    if s.len() > 0 && s[0] == '#' {
                        assert(is_first_comment_start(r, 0));
                    }
                }
            },
            None => {
                assert(false);
            },
        }
    }
}

/// With list values off, what the writer writes as it is, because it reads
/// back as itself after `k = `, reads back as itself after any key, with no
/// comment, and has no white space at its ends and no `#` in front.
pub(crate) proof fn lemma_verbatim(s: Seq<char>, lines: Seq<Seq<char>>)
    requires
        lines.len() == 1,
        s.len() > 0,
        parse_value_no_lists_spec(s) == Some(s),
    ensures
        read_value_spec(s, lines, 0, false) == ReadModel::Read(ValueModel::String(s), None, 0),
        trim_start(s) == s,
        !is_space(s[0]),
        !is_space(s.last()),
        s[0] != '#',
        triple_quote_prefix_spec(s) is None,
        split_comment_spec(s) == Some((s, None::<Seq<char>>)),
{
    reveal_strlit("k");
    reveal_strlit("k = ");
    reveal_strlit(" = ");
    let kk = "k"@;
    assert(bare_key(kk));
    let l0 = "k = "@ + s;
    assert(l0 =~= keyword_line(kk, s));
    lemma_classify_bare(kk, s);
    assert(!is_quote(kk[0]));
    lemma_parse_one_line(l0, kk, kk, trim_start(s), false);
    let c = match read_value_spec(trim_start(s), seq![l0], 0, false) {
        ReadModel::Read(_, c, _) => c,
        _ => None,
    };
    assert(read_value_spec(trim_start(s), seq![l0], 0, false) == ReadModel::Read(
        ValueModel::String(s),
        c,
        0,
    ));
    lemma_no_lists_whole(s, seq![l0], c);
    lemma_read_one_line(s, seq![l0], lines, false);
}

/// With list values off, a value the writer writes as it is reads back as
/// itself.
pub(crate) proof fn lemma_no_lists_value_back(qk: Seq<char>, k: Seq<char>, s: Seq<char>)
    requires
        key_written_as(qk, k),
        s.len() > 0,
        quote_spec(s, true, false) == Ok::<Seq<char>, Seq<char>>(s),
    ensures
        parse_spec(split_lines_spec(join_lines(seq![keyword_line(qk, s)])), false) == read_one_value(
            k,
            ValueModel::String(s),
        ),
{
    let line = keyword_line(qk, s);
    lemma_verbatim(s, seq![line]);
    lemma_classify_keyword_line(qk, k, s);
    lemma_parse_one_value(seq![line], qk, k, s, ValueModel::String(s), false);
    lemma_keyword_line_breaks(qk, s);
    lemma_one_line_back(line);
}

/// With list values off, an empty value is written as nothing after `= `,
/// and reads back as the empty text.
pub(crate) proof fn lemma_empty_value_back(qk: Seq<char>, k: Seq<char>)
    requires
        key_written_as(qk, k),
    ensures
        parse_spec(split_lines_spec(join_lines(seq![keyword_line(qk, Seq::empty())])), false) == read_one_value(
            k,
            ValueModel::String(Seq::empty()),
        ),
{
    reveal_strlit(" = ");
    let e = Seq::<char>::empty();
    let line = keyword_line(qk, e);
    let lines = seq![line];
    lemma_classify_keyword_line(qk, k, e);
    lemma_lead_len(e, CharClass::Space, 0);
    assert(e.skip(0) =~= e);
    assert(trim_start(e) == e);
    assert(scan(e, 0) == scan(e, e.len() as int));
    lemma_no_comment(e);
    lemma_trail_len(e, CharClass::Space, 0);
    assert(e.take(0) =~= e);
    assert(trim(e) == e);
    assert(read_value_spec(e, lines, 0, false) == ReadModel::Read(ValueModel::String(e), None, 0));
    lemma_parse_one_value(lines, qk, k, e, ValueModel::String(e), false);
    assert(line =~= qk + " = "@);
    assert(!line.contains('\n')) by {
        if line.contains('\n') {
            let i = choose|i: int| 0 <= i < line.len() && line[i] == '\n';
            if i < qk.len() {
                assert(line[i] == qk[i]);
            }
        }
    }
    assert(line.last() == ' ');
    lemma_one_line_back(line);
}

/// A line of text starting and ending with a character that is not white
/// space is its own start-trimming.
pub(crate) proof fn lemma_trim_start_plain(q: Seq<char>)
    requires
        q.len() > 0,
        !is_space(q[0]),
    ensures
        trim_start(q) == q,
{
    lemma_lead_len(q, CharClass::Space, 0);
    assert(q.skip(0) == q);
}

/// Quoting text that fits on one line gives a line that reads back as the
/// text.
pub(crate) proof fn lemma_quote_one_line(s: Seq<char>, q: Seq<char>, lines: Seq<Seq<char>>)
    requires
        !s.contains('\n'),
        quote_spec(s, true, true) == Ok::<Seq<char>, Seq<char>>(q),
    ensures
        q.len() > 0,
        !is_space(q[0]),
        !q.contains('\n'),
        q.last() != '\r',
        read_value_spec(q, lines, 0, true) == ReadModel::Read(ValueModel::String(s), None, 0),
{
    if s.len() == 0 {
        assert(q == seq!['"'] + s + seq!['"']);
        lemma_read_single_quoted('"', s, lines);
    } else if (s.contains('\'') && s.contains('"')) || triple_quote_prefix_spec(s) is Some {
        let qc = if triple_fits(s, '"') { '"' } else { '\'' };
        assert(q == seq![qc, qc, qc] + s + seq![qc, qc, qc]);
        lemma_read_triple_quoted(qc, s, lines);
        assert(q[0] == qc);
        assert(q.last() == qc);
        assert(!q.contains('\n')) by {
            if q.contains('\n') {
                let i = choose|i: int| 0 <= i < q.len() && q[i] == '\n';
                assert(q[i] == s[i - 3]);
            }
        }
    } else if !is_awkward(s[0]) && !is_awkward(s.last()) && !s.contains(',') && !s.contains('#') {
        assert(q == s);
        assert forall|j: int| 0 <= j < s.len() implies #[trigger] s[j] != ',' && s[j] != '#' by {
            assert(s.contains(s[j]));
        }
        lemma_read_bare(s, lines);
        assert(s.last() == s[s.len() - 1]);
    } else {
        let c = if s.contains('"') { '\'' } else { '"' };
        assert(q == seq![c] + s + seq![c]);
        lemma_read_single_quoted(c, s, lines);
        assert(!q.contains('\n')) by {
            if q.contains('\n') {
                let i = choose|i: int| 0 <= i < q.len() && q[i] == '\n';
                assert(q[i] == s[i - 1]);
            }
        }
    }
}

/// A `key = value` line breaks where its value does, and ends as it does.
pub(crate) proof fn lemma_keyword_line_breaks(k: Seq<char>, q: Seq<char>)
    requires
        !k.contains('\n'),
        q.len() > 0,
    ensures
        keyword_line(k, q).contains('\n') == q.contains('\n'),
        keyword_line(k, q).last() == q.last(),
        keyword_line(k, q).len() > 0,
{
    reveal_strlit(" = ");
    let line = keyword_line(k, q);
    if line.contains('\n') {
        let i = choose|i: int| 0 <= i < line.len() && line[i] == '\n';
        if i < k.len() {
            assert(line[i] == k[i]);
        } else if i < k.len() + 3 {
        } else {
            assert(line[i] == q[i - k.len() - 3]);
        }
    }
    if q.contains('\n') {
        let i = choose|i: int| 0 <= i < q.len() && q[i] == '\n';
        assert(line[i + k.len() + 3] == q[i]);
    }
    assert(line.last() == q.last());
}

/// With list values on, text that fits on one line is written so that it
/// reads back as itself.
pub(crate) proof fn lemma_one_line_value_back(qk: Seq<char>, k: Seq<char>, s: Seq<char>, q: Seq<char>)
    requires
        key_written_as(qk, k),
        !s.contains('\n'),
        quote_spec(s, true, true) == Ok::<Seq<char>, Seq<char>>(q),
    ensures
        parse_spec(split_lines_spec(join_lines(seq![keyword_line(qk, q)])), true) == read_one_value(
            k,
            ValueModel::String(s),
        ),
{
    let line = keyword_line(qk, q);
    lemma_quote_one_line(s, q, seq![line]);
    lemma_trim_start_plain(q);
    lemma_classify_keyword_line(qk, k, q);
    lemma_parse_one_value(seq![line], qk, k, q, ValueModel::String(s), true);
    lemma_keyword_line_breaks(qk, q);
    lemma_one_line_back(line);
}

// ---------------------------------------------------------------------------
// Text that spans lines.
// ---------------------------------------------------------------------------

/// Lines joined with a line break between each two.
pub open spec fn join_newlines(ls: Seq<Seq<char>>) -> Seq<char>
    decreases ls.len(),
{
    if ls.len() == 0 {
        Seq::empty()
    } else if ls.len() == 1 {
        ls[0]
    } else {
        join_newlines(ls.drop_last()) + seq!['\n'] + ls.last()
    }
}

/// Joining from the front: the first line, a break, then the rest joined.
pub(crate) proof fn lemma_join_front(a: Seq<char>, rest: Seq<Seq<char>>)
    requires
        rest.len() > 0,
    ensures
        join_newlines(seq![a] + rest) == a + seq!['\n'] + join_newlines(rest),
    decreases rest.len(),
{
    let all = seq![a] + rest;
    if rest.len() == 1 {
        assert(all.drop_last() =~= seq![a]);
        assert(all.last() == rest[0]);
        assert(join_newlines(all) == join_newlines(seq![a]) + seq!['\n'] + rest[0]);
        assert(join_newlines(seq![a]) == a);
        assert(join_newlines(rest) == rest[0]);
    } else {
        let r0 = rest.drop_last();
        assert(all.drop_last() =~= seq![a] + r0);
        lemma_join_front(a, r0);
        assert(all.last() == rest.last());
        assert(join_newlines(all) == join_newlines(seq![a] + r0) + seq!['\n'] + rest.last());
        assert(join_newlines(rest) == join_newlines(r0) + seq!['\n'] + rest.last());
        assert(a + seq!['\n'] + join_newlines(r0) + seq!['\n'] + rest.last() =~= a + seq!['\n'] + (
        join_newlines(r0) + seq!['\n'] + rest.last()));
    }
}

/// Splitting text at its line breaks always gives at least one line, none of
/// which holds a line break, and the last of which is how the text ends.
pub(crate) proof fn lemma_split_facts(x: Seq<char>)
    ensures
        split_newlines(x).len() >= 1,
        forall|j: int| 0 <= j < split_newlines(x).len() ==> !(#[trigger] split_newlines(x)[j]).contains('\n'),
        split_newlines(x).last().len() <= x.len(),
        split_newlines(x).last() == x.skip(x.len() - split_newlines(x).last().len()),
        x.contains('\n') ==> split_newlines(x).len() >= 2,
    decreases x.len(),
{
    if x.len() > 0 {
        let y = x.drop_last();
        lemma_split_facts(y);
        let p = split_newlines(y);
        if x.last() == '\n' {
            assert(split_newlines(x) == p.push(Seq::empty()));
            assert(x.skip(x.len() as int) =~= Seq::<char>::empty());
            assert forall|j: int| 0 <= j < split_newlines(x).len() implies !(#[trigger] split_newlines(x)[j]).contains('\n') by {
                if j < p.len() {
                    assert(split_newlines(x)[j] == p[j]);
                }
            }
        } else {
            let l = p.last().push(x.last());
            assert(split_newlines(x) == p.update(p.len() - 1, l));
            assert(l =~= x.skip(x.len() - l.len()));
            assert forall|j: int| 0 <= j < split_newlines(x).len() implies !(#[trigger] split_newlines(x)[j]).contains('\n') by {
                if j < p.len() - 1 {
                    assert(split_newlines(x)[j] == p[j]);
                } else {
                    assert(!p[p.len() - 1].contains('\n'));
                    if l.contains('\n') {
                        let i = choose|i: int| 0 <= i < l.len() && l[i] == '\n';
                        if i < l.len() - 1 {
                            assert(p.last()[i] == '\n');
                        } else {
                            assert(x.last() == x[x.len() - 1]);
                        }
                    }
                }
            }
            if x.contains('\n') {
                let i = choose|i: int| 0 <= i < x.len() && x[i] == '\n';
                assert(i < x.len() - 1) by {
                    assert(x[x.len() - 1] == x.last());
                }
                assert(y[i] == '\n');
            }
        }
    } else {
        assert(x.skip(0) =~= Seq::<char>::empty());
        assert(!x.contains('\n'));
    }
}

/// Joining the lines of text gives the text back.
#[verifier::rlimit(30)]
pub(crate) proof fn lemma_join_split(x: Seq<char>)
    ensures
        join_newlines(split_newlines(x)) == x,
    decreases x.len(),
{
    if x.len() > 0 {
        let y = x.drop_last();
        let c = x.last();
        lemma_join_split(y);
        lemma_split_facts(y);
        let p = split_newlines(y);
        assert(y.push(c) =~= x);
        if c == '\n' {
            lemma_join_push_empty(p);
        } else {
            lemma_join_extend(p, c);
        }
    }
}

/// A line break at the end adds an empty last line.
pub(crate) proof fn lemma_join_push_empty(p: Seq<Seq<char>>)
    requires
        p.len() >= 1,
    ensures
        join_newlines(p.push(Seq::empty())) == join_newlines(p).push('\n'),
{
    let r = p.push(Seq::empty());
    assert(r.drop_last() == p);
    assert(join_newlines(p) + seq!['\n'] + Seq::<char>::empty() =~= join_newlines(p).push('\n'));
}

/// A character at the end extends the last line.
pub(crate) proof fn lemma_join_extend(p: Seq<Seq<char>>, c: char)
    requires
        p.len() >= 1,
    ensures
        join_newlines(p.update(p.len() - 1, p.last().push(c))) == join_newlines(p).push(c),
{
    let r = p.update(p.len() - 1, p.last().push(c));
    if p.len() == 1 {
        assert(join_newlines(r) == r[0]);
    } else {
        assert(r.drop_last() == p.drop_last());
        assert(r.last() == p.last().push(c));
        assert(join_newlines(p.drop_last()) + seq!['\n'] + p.last().push(c) =~= (join_newlines(
            p.drop_last(),
        ) + seq!['\n'] + p.last()).push(c));
    }
}

/// Text with no line break in front joins the first line.
pub(crate) proof fn lemma_split_prefix(p: Seq<char>, x: Seq<char>)
    requires
        !p.contains('\n'),
    ensures
        split_newlines(p + x) == split_newlines(x).update(0, p + split_newlines(x)[0]),
    decreases x.len(),
{
    lemma_split_facts(x);
    if x.len() == 0 {
        assert(p + x =~= p);
        lemma_split_no_newline(p);
        assert(split_newlines(x) == seq![Seq::<char>::empty()]);
        assert(p + Seq::<char>::empty() =~= p);
        assert(seq![Seq::<char>::empty()].update(0, p) =~= seq![p]);
    } else {
        let y = x.drop_last();
        lemma_split_prefix(p, y);
        lemma_split_facts(y);
        assert((p + x).drop_last() =~= p + y);
        assert((p + x).last() == x.last());
        let m = split_newlines(y);
        if x.last() == '\n' {
            assert(split_newlines(x) == m.push(Seq::empty()));
            assert(split_newlines(p + x) == split_newlines(p + y).push(Seq::empty()));
            assert(m.update(0, p + m[0]).push(Seq::empty()) =~= m.push(Seq::empty()).update(0, p + m[0]));
        } else {
            let c = x.last();
            assert(split_newlines(x) == m.update(m.len() - 1, m.last().push(c)));
            let a = m.update(0, p + m[0]);
            assert(split_newlines(p + x) == a.update(a.len() - 1, a.last().push(c)));
            if m.len() == 1 {
                assert((p + m[0]).push(c) =~= p + m[0].push(c));
                assert(a.update(0, (p + m[0]).push(c)) =~= m.update(0, m[0].push(c)).update(0, p + m[0].push(c)));
            } else {
                assert(a.update(a.len() - 1, a.last().push(c)) =~= m.update(m.len() - 1, m.last().push(c)).update(0, p + m[0]));
            }
        }
    }
}

/// Text with no line break behind joins the last line.
pub(crate) proof fn lemma_split_suffix(x: Seq<char>, r: Seq<char>)
    requires
        !r.contains('\n'),
    ensures
        split_newlines(x + r) == split_newlines(x).update(split_newlines(x).len() - 1, split_newlines(x).last() + r),
    decreases r.len(),
{
    lemma_split_facts(x);
    let m = split_newlines(x);
    if r.len() == 0 {
        assert(x + r =~= x);
        assert(m.last() + r =~= m.last());
        assert(m.update(m.len() - 1, m.last()) =~= m);
    } else {
        let r0 = r.drop_last();
        assert(!r0.contains('\n')) by {
            if r0.contains('\n') {
                let i = choose|i: int| 0 <= i < r0.len() && r0[i] == '\n';
                assert(r[i] == '\n');
            }
        }
        lemma_split_suffix(x, r0);
        assert((x + r).drop_last() =~= x + r0);
        assert((x + r).last() == r.last());
        assert(r.last() != '\n') by {
            assert(r[r.len() - 1] == r.last());
        }
        let a = m.update(m.len() - 1, m.last() + r0);
        assert(split_newlines(x + r) == a.update(a.len() - 1, a.last().push(r.last())));
        assert((m.last() + r0).push(r.last()) =~= m.last() + r);
        assert(a.update(a.len() - 1, a.last().push(r.last())) =~= m.update(m.len() - 1, m.last() + r));
    }
}

/// No carriage return sits just before a line break.
pub open spec fn no_crlf(s: Seq<char>) -> bool {
    forall|i: int| 0 <= i < s.len() - 1 ==> !(#[trigger] s[i] == '\r' && s[i + 1] == '\n')
}

/// The lines of text with no triple quote have none either.
pub(crate) proof fn lemma_split_no_triple(x: Seq<char>, q: char)
    requires
        !has_triple(x, q),
    ensures
        forall|j: int| 0 <= j < split_newlines(x).len() ==> !has_triple(#[trigger] split_newlines(x)[j], q),
    decreases x.len(),
{
    if x.len() > 0 {
        let y = x.drop_last();
        assert(!has_triple(y, q)) by {
            if has_triple(y, q) {
                let i = choose|i: int| triple_at(y, q, i);
                assert(triple_at(x, q, i));
            }
        }
        lemma_split_no_triple(y, q);
        lemma_split_facts(y);
        lemma_split_facts(x);
        let p = split_newlines(y);
        let m = split_newlines(x);
        assert forall|j: int| 0 <= j < m.len() implies !has_triple(#[trigger] m[j], q) by {
            if j == m.len() - 1 {
                let l = m.last();
                let off = x.len() - l.len();
                if has_triple(l, q) {
                    let i = choose|i: int| triple_at(l, q, i);
                    assert(l[i] == x[off + i] && l[i + 1] == x[off + i + 1] && l[i + 2] == x[off + i + 2]);
                    assert(triple_at(x, q, off + i));
                }
            } else {
                if x.last() == '\n' {
                    assert(m == p.push(Seq::empty()));
                } else {
                    assert(m == p.update(p.len() - 1, p.last().push(x.last())));
                }
                assert(m[j] == p[j]);
            }
        }
    }
}

/// Where no carriage return sits before a line break, no line but the last
/// ends in one.
pub(crate) proof fn lemma_split_no_cr(x: Seq<char>)
    requires
        no_crlf(x),
    ensures
        forall|j: int| 0 <= j < split_newlines(x).len() - 1 ==> (#[trigger] split_newlines(x)[j]).len() == 0
            || split_newlines(x)[j].last() != '\r',
    decreases x.len(),
{
    if x.len() > 0 {
        let y = x.drop_last();
        assert(no_crlf(y)) by {
            assert forall|i: int| 0 <= i < y.len() - 1 implies !(#[trigger] y[i] == '\r' && y[i + 1] == '\n') by {
                assert(x[i] == y[i] && x[i + 1] == y[i + 1]);
            }
        }
        lemma_split_no_cr(y);
        lemma_split_facts(y);
        let p = split_newlines(y);
        let m = split_newlines(x);
        if x.last() == '\n' {
            assert(m == p.push(Seq::empty()));
            assert forall|j: int| 0 <= j < m.len() - 1 implies (#[trigger] m[j]).len() == 0 || m[j].last() != '\r' by {
                assert(m[j] == p[j]);
                if j == p.len() - 1 && p.last().len() > 0 {
                    let l = p.last();
                    assert(l.last() == y[y.len() - 1]);
                    assert(x[x.len() - 2] == y[y.len() - 1]);
                    assert(x[x.len() - 1] == '\n');
                    assert(!(x[x.len() - 2] == '\r' && x[x.len() - 2 + 1] == '\n'));
                }
            }
        } else {
            assert(m == p.update(p.len() - 1, p.last().push(x.last())));
            assert forall|j: int| 0 <= j < m.len() - 1 implies (#[trigger] m[j]).len() == 0 || m[j].last() != '\r' by {
                assert(m[j] == p[j]);
            }
        }
    }
}

/// The first triple quote in text with none of its own, followed by a
/// triple quote, is that closing one, as long as the text does not end with
/// the quote.
pub(crate) proof fn lemma_find_closing_triple(s: Seq<char>, q: char)
    requires
        !has_triple(s, q),
        s.len() > 0 ==> s.last() != q,
    ensures
        find_triple(s + seq![q, q, q], q) == Some(s.len() as int),
{
    let body = s + seq![q, q, q];
    let n = s.len() as int;
    assert(is_first_triple(body, q, n)) by {
        assert forall|j: int| 0 <= j < n implies !triple_at(body, q, j) by {
            if j + 3 <= n {
                assert(!triple_at(s, q, j));
                assert(body[j] == s[j] && body[j + 1] == s[j + 1] && body[j + 2] == s[j + 2]);
            } else if j == n - 2 {
                assert(body[j + 1] == s.last());
            } else {
                assert(body[j] == s.last());
            }
        }
    }
    assert forall|j: int| is_first_triple(body, q, j) implies j == n by {
        if j > n {
            assert(triple_at(body, q, n));
        }
    }
}

/// Reading the continuation lines of a triple-quoted value: the lines up to
/// the one the closing quote is on, joined.
pub(crate) proof fn lemma_multiline_read(q: char, ms: Seq<Seq<char>>, lines: Seq<Seq<char>>, c: int, text: Seq<char>)
    requires
        0 <= c < ms.len() - 1,
        lines.len() == ms.len(),
        forall|j: int| c < j < ms.len() - 1 ==> lines[j] == ms[j],
        lines.last() == ms.last() + seq![q, q, q],
        forall|j: int| 0 <= j < ms.len() ==> !has_triple(#[trigger] ms[j], q),
        ms.last().len() > 0 ==> ms.last().last() != q,
    ensures
        multiline_from(q, text, lines, c) == Some((text + seq!['\n'] + join_newlines(ms.skip(c + 1)), None::<Seq<char>>, ms.len() - 1)),
    decreases ms.len() - c,
{
    let m = ms.len() - 1;
    let line = lines[c + 1];
    if c + 1 < m {
        assert(line == ms[c + 1]);
        assert(find_triple(line, q) is None) by {
            assert(!has_triple(ms[c + 1], q));
            if exists|i: int| is_first_triple(line, q, i) {
                let i = choose|i: int| is_first_triple(line, q, i);
                assert(triple_at(ms[c + 1], q, i));
            }
        }
        lemma_multiline_read(q, ms, lines, c + 1, text.push('\n') + line);
        assert(ms.skip(c + 1) =~= seq![ms[c + 1]] + ms.skip(c + 2));
        lemma_join_front(ms[c + 1], ms.skip(c + 2));
        assert(text.push('\n') + line + seq!['\n'] + join_newlines(ms.skip(c + 2)) =~= text + seq!['\n'] + (ms[c + 1] + seq!['\n'] + join_newlines(ms.skip(c + 2))));
    } else {
        assert(line == ms.last() + seq![q, q, q]);
        lemma_find_closing_triple(ms.last(), q);
        let n = ms.last().len() as int;
        assert(line.skip(n + 3) =~= Seq::<char>::empty());
        assert(trim(Seq::<char>::empty()).len() == 0);
        assert(line.take(n) == ms.last());
        assert(ms.skip(c + 1) =~= seq![ms.last()]);
        assert(text.push('\n') + ms.last() =~= text + seq!['\n'] + ms.last());
    }
}

/// One line written out and split again, at its line breaks.
pub(crate) proof fn lemma_lines_of(l: Seq<char>)
    requires
        l.len() > 0,
    ensures
        split_lines_spec(join_lines(seq![l])) == split_newlines(l).map_values(|x: Seq<char>| strip_cr(x)),
{
    let lines = seq![l];
    assert(lines.drop_last() =~= Seq::<Seq<char>>::empty());
    assert(join_lines(lines.drop_last()) == Seq::<char>::empty());
    let t = join_lines(lines);
    assert(t == l + seq!['\n']) by {
        assert(Seq::<char>::empty() + l + seq!['\n'] =~= l + seq!['\n']);
    }
    assert(t.drop_last() =~= l);
}

/// Text that spans lines is written in triple quotes.
pub(crate) proof fn lemma_quote_multiline(s: Seq<char>, w: Seq<char>) -> (qc: char)
    requires
        s.contains('\n'),
        quote_spec(s, true, true) == Ok::<Seq<char>, Seq<char>>(w),
    ensures
        is_quote(qc),
        triple_fits(s, qc),
        w == seq![qc, qc, qc] + s + seq![qc, qc, qc],
{
    assert(s.len() > 0);
    if triple_fits(s, '"') {
        '"'
    } else {
        '\''
    }
}

/// The lines of a `key = value` line whose value is triple-quoted text
/// spanning lines: the first holds the key, the opening quote and the first
/// line of the text, the last holds the last line of the text and the
/// closing quote, and those between hold the lines of the text between.
#[verifier::rlimit(30)]
pub(crate) proof fn lemma_multiline_split(k: Seq<char>, s: Seq<char>, qc: char)
    requires
        is_quote(qc),
        !k.contains('\n'),
        s.contains('\n'),
        no_crlf(s),
        triple_fits(s, qc),
    ensures
        ({
            let qq = seq![qc, qc, qc];
            let ms = split_newlines(s);
            let lines = split_lines_spec(join_lines(seq![keyword_line(k, qq + s + qq)]));
            &&& ms.len() >= 2
            &&& lines.len() == ms.len()
            &&& lines[0] == keyword_line(k, qq + ms[0])
            &&& forall|j: int| 0 < j < ms.len() - 1 ==> lines[j] == ms[j]
            &&& lines.last() == ms.last() + qq
        }),
{
    reveal_strlit(" = ");
    let qq = seq![qc, qc, qc];
    let w = qq + s + qq;
    let l = keyword_line(k, w);
    let pre = k + " = "@ + qq;
    assert(!pre.contains('\n')) by {
        if pre.contains('\n') {
            let i = choose|i: int| 0 <= i < pre.len() && pre[i] == '\n';
            if i < k.len() {
                assert(pre[i] == k[i]);
            }
        }
    }
    assert(!qq.contains('\n'));
    assert(l =~= pre + (s + qq));
    lemma_split_facts(s);
    let ms = split_newlines(s);
    let m = ms.len() - 1;
    lemma_split_suffix(s, qq);
    let sq = ms.update(m, ms.last() + qq);
    lemma_split_prefix(pre, s + qq);
    let sl = sq.update(0, pre + ms[0]);
    assert(split_newlines(l) == sl);
    lemma_split_no_cr(s);
    lemma_lines_of(l);
    let lines = sl.map_values(|x: Seq<char>| strip_cr(x));
    assert(lines =~= sl) by {
        assert forall|j: int| 0 <= j < sl.len() implies #[trigger] strip_cr(sl[j]) == sl[j] by {
            if j == 0 {
                if ms[0].len() > 0 {
                    assert((pre + ms[0]).last() == ms[0].last());
                } else {
                    assert((pre + ms[0]).last() == qc);
                }
            } else if j == m {
                assert((ms.last() + qq).last() == qc);
            }
        }
    }
    assert(lines[0] =~= keyword_line(k, qq + ms[0]));
}

/// A file whose lines are those of a `key = value` line whose value is
/// triple-quoted text spanning lines reads as that text.
#[verifier::rlimit(30)]
pub(crate) proof fn lemma_multiline_read_back(qk: Seq<char>, k: Seq<char>, s: Seq<char>, qc: char, lines: Seq<Seq<char>>)
    requires
        is_quote(qc),
        key_written_as(qk, k),
        triple_fits(s, qc),
        split_newlines(s).len() >= 2,
        lines.len() == split_newlines(s).len(),
        lines[0] == keyword_line(qk, seq![qc, qc, qc] + split_newlines(s)[0]),
        forall|j: int| 0 < j < split_newlines(s).len() - 1 ==> lines[j] == split_newlines(s)[j],
        lines.last() == split_newlines(s).last() + seq![qc, qc, qc],
    ensures
        parse_spec(lines, true) == read_one_value(k, ValueModel::String(s)),
{
    let qq = seq![qc, qc, qc];
    let ms = split_newlines(s);
    let m = ms.len() - 1;
    lemma_split_facts(s);
    lemma_split_no_triple(s, qc);
    let first = qq + ms[0];
    lemma_trim_start_plain(first);
    lemma_classify_keyword_line(qk, k, first);
    assert(triple_quote_prefix_spec(first) == Some(qc));
    assert(first.skip(3) =~= ms[0]);
    assert(find_triple(ms[0], qc) is None) by {
        assert(!has_triple(ms[0], qc));
        if exists|i: int| is_first_triple(ms[0], qc, i) {
            let i = choose|i: int| is_first_triple(ms[0], qc, i);
            assert(triple_at(ms[0], qc, i));
        }
    }
    assert(ms.last().len() > 0 ==> ms.last().last() == s.last()) by {
        if ms.last().len() > 0 {
            assert(ms.last().last() == s.skip(s.len() - ms.last().len()).last());
        }
    }
    lemma_multiline_read(qc, ms, lines, 0, ms[0]);
    assert(ms =~= seq![ms[0]] + ms.skip(1));
    lemma_join_front(ms[0], ms.skip(1));
    lemma_join_split(s);
    assert(read_multiline_spec(qc, first, lines, 0) == Some((s, None::<Seq<char>>, m)));
    assert(read_value_spec(first, lines, 0, true) == ReadModel::Read(ValueModel::String(s), None, m));
    lemma_parse_one_value(lines, qk, k, first, ValueModel::String(s), true);
}

/// Text that spans lines is written in triple quotes and reads back as
/// itself, as long as no carriage return sits just before a line break.
pub(crate) proof fn lemma_multiline_value_back(qk: Seq<char>, k: Seq<char>, s: Seq<char>, w: Seq<char>)
    requires
        key_written_as(qk, k),
        s.contains('\n'),
        no_crlf(s),
        quote_spec(s, true, true) == Ok::<Seq<char>, Seq<char>>(w),
    ensures
        parse_spec(split_lines_spec(join_lines(seq![keyword_line(qk, w)])), true) == read_one_value(
            k,
            ValueModel::String(s),
        ),
{
    let qc = lemma_quote_multiline(s, w);
    lemma_classify_keyword_line(qk, k, w);
    lemma_multiline_split(qk, s, qc);
    lemma_multiline_read_back(qk, k, s, qc, split_lines_spec(join_lines(seq![keyword_line(qk, w)])));
}
// ---------------------------------------------------------------------------
// Lists.
// ---------------------------------------------------------------------------

/// The scan state that a value and each list item start from.
pub open spec fn item_start() -> ScanState {
    ScanState { quote: None, at_item_start: true }
}

/// The scan state after an item that has been read to its end.
pub open spec fn item_done() -> ScanState {
    ScanState { quote: None, at_item_start: false }
}

/// Scanning the first `n` characters of `s` from the state `st`.
pub open spec fn scan_from(st: ScanState, s: Seq<char>, n: int) -> ScanState
    decreases n,
{
    if n <= 0 {
        st
    } else {
        scan_step(scan_from(st, s, n - 1), s[n - 1])
    }
}

/// A scan starts from the item-start state.
pub(crate) proof fn lemma_scan_is_from(s: Seq<char>, n: int)
    ensures
        scan(s, n) == scan_from(item_start(), s, n),
    decreases n,
{
    if n > 0 {
        lemma_scan_is_from(s, n - 1);
    }
}

/// Scanning a prefix does not look past it.
pub(crate) proof fn lemma_scan_prefix(a: Seq<char>, b: Seq<char>, n: int)
    requires
        n <= a.len(),
    ensures
        scan(a + b, n) == scan(a, n),
    decreases n,
{
    if n > 0 {
        lemma_scan_prefix(a, b, n - 1);
        assert((a + b)[n - 1] == a[n - 1]);
    }
}

/// Scanning past a prefix carries on from where the prefix left off.
pub(crate) proof fn lemma_scan_concat(a: Seq<char>, b: Seq<char>, j: int)
    requires
        0 <= j <= b.len(),
    ensures
        scan(a + b, a.len() + j) == scan_from(scan(a, a.len() as int), b, j),
    decreases j,
{
    if j == 0 {
        lemma_scan_prefix(a, b, a.len() as int);
    } else {
        lemma_scan_concat(a, b, j - 1);
        assert((a + b)[a.len() + j - 1] == b[j - 1]);
    }
}

/// Splitting a prefix does not look past it.
pub(crate) proof fn lemma_segments_prefix(a: Seq<char>, b: Seq<char>, n: int)
    requires
        0 <= n <= a.len(),
    ensures
        segments(a + b, n) == segments(a, n),
    decreases n,
{
    if n > 0 {
        lemma_segments_prefix(a, b, n - 1);
        lemma_scan_prefix(a, b, n - 1);
        assert((a + b)[n - 1] == a[n - 1]);
        assert(is_split_comma(a + b, n - 1) == is_split_comma(a, n - 1));
    }
}

/// Characters with no splitting comma among them join the last piece.
pub(crate) proof fn lemma_segments_extend(s: Seq<char>, n0: int, n1: int)
    requires
        0 <= n0 <= n1 <= s.len(),
        forall|i: int| n0 <= i < n1 ==> !is_split_comma(s, i),
    ensures
        segments(s, n1) == segments(s, n0).update(
            segments(s, n0).len() - 1,
            segments(s, n0).last() + s.subrange(n0, n1),
        ),
        segments(s, n1).len() == segments(s, n0).len(),
    decreases n1 - n0,
{
    lemma_segments_len(s, n0);
    if n1 == n0 {
        assert(s.subrange(n0, n1) =~= Seq::<char>::empty());
        assert(segments(s, n0).last() + Seq::<char>::empty() =~= segments(s, n0).last());
        assert(segments(s, n0).update(segments(s, n0).len() - 1, segments(s, n0).last()) =~= segments(s, n0));
    } else {
        lemma_segments_extend(s, n0, n1 - 1);
        assert(!is_split_comma(s, n1 - 1));
        let p = segments(s, n1 - 1);
        assert(segments(s, n1) == p.update(p.len() - 1, p.last().push(s[n1 - 1])));
        assert((segments(s, n0).last() + s.subrange(n0, n1 - 1)).push(s[n1 - 1]) =~= segments(s, n0).last() + s.subrange(n0, n1));
        assert(p.update(p.len() - 1, p.last().push(s[n1 - 1])) =~= segments(s, n0).update(
            segments(s, n0).len() - 1,
            segments(s, n0).last() + s.subrange(n0, n1),
        ));
    }
}

/// There is always a piece.
pub(crate) proof fn lemma_segments_len(s: Seq<char>, n: int)
    ensures
        segments(s, n).len() >= 1,
    decreases n,
{
    if n > 0 {
        lemma_segments_len(s, n - 1);
    }
}

/// What a list item is written as, read from its start: it is not empty,
/// has no white space or line break in it at its ends, holds no comment and
/// no comma that splits, leaves nothing quoted, and unquotes to the item.
pub open spec fn item_reads_back(qx: Seq<char>, x: Seq<char>) -> bool {
    &&& qx.len() > 0
    &&& !is_space(qx[0])
    &&& !is_space(qx.last())
    &&& !qx.contains('\n')
    &&& qx[0] != ','
    &&& scan(qx, qx.len() as int) == item_done()
    &&& forall|i: int| 0 <= i < qx.len() ==> !is_comment_start(qx, i) && !is_split_comma(qx, i)
    &&& check_item_spec(qx)
    &&& unquote_spec(qx) == x
    &&& is_quote(qx[0]) ==> (qx.len() == 2 || qx[1] != qx[0])
}

/// A list item the writer writes reads back as itself.
pub(crate) proof fn lemma_quoted_item(x: Seq<char>, qx: Seq<char>)
    requires
        quote_spec(x, false, true) == Ok::<Seq<char>, Seq<char>>(qx),
    ensures
        item_reads_back(qx, x),
{
    if x.len() > 0 && !is_awkward(x[0]) && !is_awkward(x.last()) && !x.contains(',') && !x.contains('#') {
        assert(qx == x);
        assert(!x.contains('\n'));
        assert forall|j: int| 0 <= j < x.len() implies #[trigger] x[j] != ',' && x[j] != '#' by {
            assert(x.contains(x[j]));
        }
        lemma_scan_bare(x, x.len() as int);
        assert forall|i: int| 0 <= i < x.len() implies !is_comment_start(x, i) && !is_split_comma(x, i) by {
            assert(x[i] != ',' && x[i] != '#');
        }
        assert(x.last() == x[x.len() - 1]);
    } else {
        let c = if x.len() == 0 || !x.contains('"') { '"' } else { '\'' };
        assert(!x.contains('\n'));
        assert(qx == seq![c] + x + seq![c]);
        assert(!x.contains(c));
        let n = qx.len() as int;
        assert(qx[0] == c);
        assert(qx[n - 1] == c);
        lemma_scan_quoted(c, x, n);
        assert forall|i: int| 0 <= i < n implies !is_comment_start(qx, i) && !is_split_comma(qx, i) by {
            if 0 < i < n - 1 {
                lemma_scan_quoted(c, x, i);
            }
        }
        assert(!qx.contains('\n')) by {
            if qx.contains('\n') {
                let i = choose|i: int| 0 <= i < qx.len() && qx[i] == '\n';
                assert(qx[i] == x[i - 1]);
            }
        }
        assert(qx.subrange(1, n - 1) == x);
        if x.len() > 0 {
            assert(qx[1] == x[0]);
            assert(x.contains(x[0]));
        }
    }
}

/// The pieces a written list splits into: the first item, then each later
/// item after the space that follows its comma.
pub open spec fn spaced(qs: Seq<Seq<char>>) -> Seq<Seq<char>> {
    Seq::new(qs.len(), |i: int| if i == 0 { qs[0] } else { seq![' '] + qs[i] })
}

/// Written list items joined with `, ` scan to the end with nothing quoted,
/// hold no comment, and split into the items again.
#[verifier::spinoff_prover]
#[verifier::rlimit(80)]
pub(crate) proof fn lemma_join_scan(qs: Seq<Seq<char>>, items: Seq<Seq<char>>)
    requires
        qs.len() >= 1,
        qs.len() == items.len(),
        forall|i: int| 0 <= i < qs.len() ==> item_reads_back(#[trigger] qs[i], items[i]),
    ensures
        join_items(qs).len() > 0,
        join_items(qs)[0] == qs[0][0],
        qs[0].len() >= 2 ==> join_items(qs)[1] == qs[0][1],
        qs.len() >= 2 && qs[0].len() == 2 ==> join_items(qs)[2] == ',',
        join_items(qs).last() == qs.last().last(),
        !join_items(qs).contains('\n'),
        scan(join_items(qs), join_items(qs).len() as int) == item_done(),
        forall|i: int| 0 <= i < join_items(qs).len() ==> !is_comment_start(join_items(qs), i),
        segments(join_items(qs), join_items(qs).len() as int) == spaced(qs),
    decreases qs.len(),
{
    let j = join_items(qs);
    assert(item_reads_back(qs[0], items[0]));
    if qs.len() == 1 {
        assert(j == qs[0]);
        lemma_segments_unsplit(j, j.len() as int);
        assert(j.take(j.len() as int) == j);
        assert(spaced(qs) =~= seq![j]);
    } else {
        let q0 = qs.drop_last();
        let q = qs.last();
        assert(item_reads_back(q, items.last())) by {
            assert(q == qs[qs.len() - 1]);
        }
        assert forall|i: int| 0 <= i < q0.len() implies item_reads_back(#[trigger] q0[i], items.drop_last()[i]) by {
            assert(q0[i] == qs[i]);
        }
        lemma_join_scan(q0, items.drop_last());
        let j0 = join_items(q0);
        reveal_strlit(", ");
        let a = j0 + ", "@;
        assert(j == a + q);
        let n0 = j0.len() as int;
        // Up to the comma, the scan is that of the items before.
        lemma_scan_prefix(j0, ", "@, n0);
        assert(scan(a, n0 + 1) == scan_step(scan(a, n0), a[n0]));
        assert(a[n0] == ',');
        assert(a[n0 + 1] == ' ');
        assert(scan(a, n0 + 2) == scan_step(scan(a, n0 + 1), a[n0 + 1]));
        assert(scan(a, a.len() as int) == item_start());
        assert forall|t: int| 0 <= t <= q.len() implies scan(j, a.len() + t) == scan(q, t) by {
            lemma_scan_concat(a, q, t);
            lemma_scan_is_from(q, t);
        }
        assert(scan(j, j.len() as int) == item_done()) by {
            assert(scan(j, (a.len() + q.len()) as int) == scan(q, q.len() as int));
        }
        assert(j0 + (", "@ + q) == j);
        assert forall|i: int| 0 <= i < j.len() implies !is_comment_start(j, i) by {
            if i < n0 {
                lemma_scan_prefix(j0, ", "@ + q, i);
                assert(j[i] == j0[i]);
                assert(!is_comment_start(j0, i));
            } else if i < a.len() {
                assert(j[i] == a[i]);
            } else {
                assert(scan(j, a.len() + (i - a.len())) == scan(q, i - a.len()));
                assert(j[i] == q[i - a.len()]);
                assert(!is_comment_start(q, i - a.len()));
            }
        }
        // The pieces: those of the items before, a new one at the comma, and
        // the space and the item after it.
        lemma_segments_prefix(j0, ", "@ + q, n0);
        lemma_scan_prefix(j0, ", "@ + q, n0);
        assert(is_split_comma(j, n0));
        assert(segments(j, n0 + 1) == spaced(q0).push(Seq::empty()));
        assert forall|i: int| n0 + 1 <= i < j.len() implies !is_split_comma(j, i) by {
            if i >= a.len() {
                assert(scan(j, a.len() + (i - a.len())) == scan(q, i - a.len()));
                assert(j[i] == q[i - a.len()]);
                assert(!is_split_comma(q, i - a.len()));
            } else {
                assert(j[i] == ' ');
            }
        }
        lemma_segments_extend(j, n0 + 1, j.len() as int);
        assert(j.subrange(n0 + 1, j.len() as int) =~= seq![' '] + q);
        assert(Seq::<char>::empty() + (seq![' '] + q) =~= seq![' '] + q);
        assert(spaced(q0).push(Seq::empty()).update(q0.len() as int, seq![' '] + q) =~= spaced(qs));
        assert(j[0] == j0[0]);
        if qs[0].len() >= 2 {
            assert(j[1] == j0[1]);
        }
        if qs[0].len() == 2 {
            if q0.len() >= 2 {
                assert(j[2] == j0[2]);
            } else {
                assert(j0 == qs[0]);
                assert(j[2] == a[2]);
            }
        }
        assert(j.last() == q.last());
        assert(!j.contains('\n')) by {
            if j.contains('\n') {
                let i = choose|i: int| 0 <= i < j.len() && j[i] == '\n';
                if i < n0 {
                    assert(j0[i] == '\n');
                } else if i >= a.len() {
                    assert(q[i - a.len()] == '\n');
                }
            }
        }
    }
}

/// Items that were all quoted were each quoted on their own.
pub(crate) proof fn lemma_quote_items(items: Seq<Seq<char>>, qs: Seq<Seq<char>>)
    requires
        quote_items(items, true) == Ok::<Seq<Seq<char>>, Seq<char>>(qs),
    ensures
        qs.len() == items.len(),
        forall|i: int| 0 <= i < items.len() ==> quote_spec(#[trigger] items[i], false, true) == Ok::<
            Seq<char>,
            Seq<char>,
        >(qs[i]),
    decreases items.len(),
{
    if items.len() > 0 {
        let q0 = qs.drop_last();
        match quote_items(items.drop_last(), true) {
            Ok(r) => {
                assert(r.push(quote_spec(items.last(), false, true)->Ok_0) == qs);
                assert(r == q0);
            },
            Err(_) => {
                assert(false);
            },
        }
        lemma_quote_items(items.drop_last(), q0);
        assert forall|i: int| 0 <= i < items.len() implies quote_spec(#[trigger] items[i], false, true) == Ok::<
            Seq<char>,
            Seq<char>,
        >(qs[i]) by {
            if i < items.len() - 1 {
                assert(items.drop_last()[i] == items[i]);
                assert(q0[i] == qs[i]);
            }
        }
    }
}

/// Trimming a piece with a space in front of a written item gives the item.
pub(crate) proof fn lemma_trim_spaced(q: Seq<char>)
    requires
        q.len() > 0,
        !is_space(q[0]),
        !is_space(q.last()),
    ensures
        trim(seq![' '] + q) == q,
{
    lemma_trim_start_space(q);
    lemma_trim_plain(q);
}

/// A list of two or more items written with `, ` between them reads back as
/// the list.
pub(crate) proof fn lemma_read_list(qs: Seq<Seq<char>>, items: Seq<Seq<char>>, lines: Seq<Seq<char>>)
    requires
        qs.len() >= 2,
        qs.len() == items.len(),
        forall|i: int| 0 <= i < qs.len() ==> item_reads_back(#[trigger] qs[i], items[i]),
    ensures
        read_value_spec(join_items(qs), lines, 0, true) == ReadModel::Read(ValueModel::List(items), None, 0),
        split_comment_spec(join_items(qs)) == Some((join_items(qs), None::<Seq<char>>)),
        triple_quote_prefix_spec(join_items(qs)) is None,
{
    let j = join_items(qs);
    lemma_join_scan(qs, items);
    assert(item_reads_back(qs[0], items[0]));
    assert(item_reads_back(qs.last(), items.last())) by {
        assert(qs.last() == qs[qs.len() - 1]);
    }
    assert(triple_quote_prefix_spec(j) is None) by {
        if is_quote(j[0]) && qs[0].len() >= 3 {
            assert(j[1] == qs[0][1]);
        }
    }
    lemma_no_comment(j);
    lemma_trim_plain(j);
    assert(j != seq![',']);
    let sg = spaced(qs);
    assert(sg.len() == qs.len());
    let parts = trim_all(sg.drop_last());
    assert(parts =~= qs.drop_last()) by {
        assert forall|i: int| 0 <= i < parts.len() implies parts[i] == qs.drop_last()[i] by {
            assert(item_reads_back(qs[i], items[i]));
            if i == 0 {
                lemma_trim_plain(qs[0]);
            } else {
                lemma_trim_spaced(qs[i]);
            }
        }
    }
    lemma_trim_spaced(qs.last());
    assert(sg.last() == seq![' '] + qs.last());
    assert(parts.push(qs.last()) =~= qs);
    assert(split_commas_spec(j) == Some(ItemsModel::List(qs)));
    assert forall|i: int| 0 <= i < qs.len() implies check_item_spec(#[trigger] qs[i]) by {
        assert(item_reads_back(qs[i], items[i]));
    }
    assert(unquote_all(qs) =~= items) by {
        assert forall|i: int| 0 <= i < qs.len() implies unquote_all(qs)[i] == items[i] by {
            assert(item_reads_back(qs[i], items[i]));
        }
    }
}

/// A list of one item, written with a comma after it, reads back as the
/// list.
pub(crate) proof fn lemma_read_single_list(qx: Seq<char>, x: Seq<char>, lines: Seq<Seq<char>>)
    requires
        item_reads_back(qx, x),
    ensures
        read_value_spec(qx.push(','), lines, 0, true) == ReadModel::Read(ValueModel::List(seq![x]), None, 0),
        split_comment_spec(qx.push(',')) == Some((qx.push(','), None::<Seq<char>>)),
        triple_quote_prefix_spec(qx.push(',')) is None,
{
    let j = qx.push(',');
    let n = qx.len() as int;
    assert(j == qx + seq![',']);
    assert(triple_quote_prefix_spec(j) is None) by {
        if is_quote(j[0]) && j.len() >= 3 {
            assert(j[0] == qx[0]);
            if qx.len() == 2 {
                assert(j[2] == ',');
            } else {
                assert(j[1] == qx[1]);
            }
        }
    }
    lemma_scan_prefix(qx, seq![','], n);
    assert(scan(j, n + 1) == scan_step(scan(j, n), j[n]));
    assert forall|i: int| 0 <= i < j.len() implies !is_comment_start(j, i) by {
        if i < n {
            lemma_scan_prefix(qx, seq![','], i);
            assert(j[i] == qx[i]);
            assert(!is_comment_start(qx, i));
        }
    }
    lemma_no_comment(j);
    assert(j.last() == ',');
    lemma_trim_plain(j);
    assert(j != seq![',']) by {
        assert(j.len() >= 2);
    }
    assert forall|i: int| 0 <= i < n implies !is_split_comma(j, i) by {
        lemma_scan_prefix(qx, seq![','], i);
        assert(j[i] == qx[i]);
        assert(!is_split_comma(qx, i));
    }
    lemma_segments_unsplit(j, n);
    assert(j.take(n) == qx);
    assert(is_split_comma(j, n));
    assert(segments(j, n + 1) == seq![qx].push(Seq::<char>::empty()));
    assert(j.len() == n + 1);
    lemma_trim_plain(qx);
    assert(trim_all(seq![qx]) =~= seq![qx]);
    assert(trim(Seq::<char>::empty()).len() == 0);
    assert(seq![qx].push(Seq::<char>::empty()).drop_last() =~= seq![qx]);
    assert(split_commas_spec(j) == Some(ItemsModel::List(seq![qx])));
    assert(unquote_all(seq![qx]) =~= seq![x]);
}

/// A list the writer writes reads back as the list.
pub(crate) proof fn lemma_list_value_back(qk: Seq<char>, k: Seq<char>, items: Seq<Seq<char>>, q: Seq<char>)
    requires
        key_written_as(qk, k),
        quote_value_spec(ValueModel::List(items), true) == Ok::<Seq<char>, Seq<char>>(q),
    ensures
        parse_spec(split_lines_spec(join_lines(seq![keyword_line(qk, q)])), true) == read_one_value(
            k,
            ValueModel::List(items),
        ),
{
    let line = keyword_line(qk, q);
    let lines = seq![line];
    if items.len() == 0 {
        assert(q == seq![',']);
        lemma_lead_len(q, CharClass::Space, 0);
        assert(q.skip(0) == q);
        assert(!is_comment_start(q, 0));
        assert(scan(q, 1) == scan_step(scan(q, 0), q[0]));
        lemma_no_comment(q);
        lemma_trim_plain(q);
        assert(read_value_spec(q, lines, 0, true) == ReadModel::Read(ValueModel::List(items), None, 0)) by {
            assert(items =~= Seq::<Seq<char>>::empty());
        }
        assert(!q.contains('\n'));
    } else if items.len() == 1 {
        let qx = choose|qx: Seq<char>| quote_spec(items[0], false, true) == Ok::<Seq<char>, Seq<char>>(qx);
        assert(q == qx.push(','));
        lemma_quoted_item(items[0], qx);
        lemma_read_single_list(qx, items[0], lines);
        assert(seq![items[0]] =~= items);
        assert(!q.contains('\n')) by {
            if q.contains('\n') {
                let i = choose|i: int| 0 <= i < q.len() && q[i] == '\n';
                assert(qx[i] == '\n');
            }
        }
        assert(q[0] == qx[0]);
    } else {
        let qs = choose|qs: Seq<Seq<char>>| quote_items(items, true) == Ok::<Seq<Seq<char>>, Seq<char>>(qs);
        assert(q == join_items(qs));
        lemma_quote_items(items, qs);
        assert forall|i: int| 0 <= i < qs.len() implies item_reads_back(#[trigger] qs[i], items[i]) by {
            lemma_quoted_item(items[i], qs[i]);
        }
        lemma_read_list(qs, items, lines);
        lemma_join_scan(qs, items);
        assert(item_reads_back(qs[0], items[0]));
        assert(item_reads_back(qs.last(), items.last())) by {
            assert(qs.last() == qs[qs.len() - 1]);
        }
    }
    lemma_trim_start_plain(q);
    lemma_classify_keyword_line(qk, k, q);
    lemma_parse_one_value(lines, qk, k, q, ValueModel::List(items), true);
    lemma_keyword_line_breaks(qk, q);
    lemma_one_line_back(line);
}

// ---------------------------------------------------------------------------
// The law.
// ---------------------------------------------------------------------------

/// Text wrapped in single quotes by the writer is a quoted key.
pub(crate) proof fn lemma_single_quoted_key(k: Seq<char>, w: Seq<char>)
    requires
        single_quote_spec(k) == Ok::<Seq<char>, Seq<char>>(w),
        !k.contains('\n'),
    ensures
        quoted_key(w, k),
{
    let c = if k.contains('"') { '\'' } else { '"' };
    assert(w == seq![c] + k + seq![c]);
    assert(w[0] == c);
}

/// A key the writer leaves bare reads back as itself unless it begins with
/// `[`, or, with list values off, with a quote: the writer leaves such keys
/// as they are, and reading may take the line for a section header, or
/// strip the quotes as it would from a quoted key.
pub open spec fn bare_key_reads(k: Seq<char>, list_values: bool) -> bool {
    quote_key_spec(k, list_values) == Ok::<Seq<char>, Seq<char>>(k) && k.len() > 0
        ==> k[0] != '[' && (list_values || !is_quote(k[0]))
}

/// A key as written never starts with white space.
pub(crate) proof fn lemma_key_start(k: Seq<char>, list_values: bool, qk: Seq<char>)
    requires
        quote_key_spec(k, list_values) == Ok::<Seq<char>, Seq<char>>(qk),
    ensures
        qk.len() > 0,
        !is_space(qk[0]),
{
    if k.len() == 0 {
        assert(qk == seq!['"', '"']);
    } else {
        let q0 = quote_spec(k, false, list_values)->Ok_0;
        assert(quote_spec(k, false, list_values) == Ok::<Seq<char>, Seq<char>>(q0));
        assert(!k.contains('\n'));
        if q0 == k && k.contains('=') {
            lemma_single_quoted_key(k, qk);
        } else if q0 == k {
            assert(qk == k);
            if list_values {
                if triple_quote_prefix_spec(k) is Some {
                    assert(single_quote_spec(k) == Ok::<Seq<char>, Seq<char>>(q0));
                }
                assert(!is_awkward(k[0]));
            } else {
                lemma_verbatim(k, seq![Seq::<char>::empty()]);
            }
        } else {
            assert(list_values);
            assert(single_quote_spec(k) == Ok::<Seq<char>, Seq<char>>(q0));
            lemma_single_quoted_key(k, q0);
        }
    }
}

/// A key the writer writes is written in a form that reads back as the key.
pub(crate) proof fn lemma_key_quoting(k: Seq<char>, list_values: bool, qk: Seq<char>)
    requires
        quote_key_spec(k, list_values) == Ok::<Seq<char>, Seq<char>>(qk),
        bare_key_reads(k, list_values),
    ensures
        key_written_as(qk, k),
{
    if k.len() == 0 {
        assert(qk == seq!['"', '"']);
        assert(qk =~= seq!['"'] + k + seq!['"']);
    } else {
        let q0 = quote_spec(k, false, list_values)->Ok_0;
        assert(quote_spec(k, false, list_values) == Ok::<Seq<char>, Seq<char>>(q0));
        assert(!k.contains('\n'));
        if q0 == k && k.contains('=') {
            lemma_single_quoted_key(k, qk);
        } else if q0 == k {
            assert(qk == k);
            assert(k.contains(k[0]));
            if list_values {
                if triple_quote_prefix_spec(k) is Some {
                    assert(single_quote_spec(k) == Ok::<Seq<char>, Seq<char>>(q0));
                }
                assert(!is_awkward(k[0]) && !is_awkward(k.last()) && !k.contains(',') && !k.contains('#'));
            } else {
                lemma_verbatim(k, seq![Seq::<char>::empty()]);
            }
        } else {
            assert(list_values);
            assert(single_quote_spec(k) == Ok::<Seq<char>, Seq<char>>(q0));
            lemma_single_quoted_key(k, q0);
            assert(qk == q0);
        }
    }
}

/// The values that the steps of reading back below cover: with list values
/// on, any list, and any text with no carriage return just before a line
/// break (the writer refuses that one); with list values off, text that is
/// not empty (the empty text is covered on its own).
pub open spec fn survives_writing(v: ValueModel, list_values: bool) -> bool {
    match v {
        ValueModel::String(s) => if list_values {
            no_crlf(s)
        } else {
            s.len() > 0
        },
        ValueModel::List(_) => list_values,
    }
}

/// A value the writer writes survives writing, unless it is the empty text
/// with list values off.
pub(crate) proof fn lemma_written_survives(v: ValueModel, list_values: bool, w: Seq<char>)
    requires
        quote_value_spec(v, list_values) == Ok::<Seq<char>, Seq<char>>(w),
        list_values || v != ValueModel::String(Seq::empty()),
    ensures
        survives_writing(v, list_values),
{
    if let ValueModel::String(s) = v {
        if list_values && !no_crlf(s) {
            let i = choose|i: int| 0 <= i < s.len() - 1 && #[trigger] s[i] == '\r' && s[i + 1] == '\n';
            assert(crate::write::has_crlf(s));
            assert(s.contains('\n')) by {
                assert(s[i + 1] == '\n');
            }
        }
        if !list_values {
            assert(s.len() > 0) by {
                if s.len() == 0 {
                    assert(s =~= Seq::<char>::empty());
                }
            }
        }
    }
}

/// Whatever the writer writes, reading gives back: a config holding one
/// value, once written without refusal, reads back as the same config, with
/// no error and the same value under the same key. Only the indentation,
/// which nothing in such a file shows, is not seen again.
///
/// Keys the writer leaves bare though they begin with `[`, or, with list
/// values off, with a quote, are left out (see `bare_key_reads`).
pub proof fn law_written_value_reads_back(c: ConfigModel, k: Seq<char>, v: ValueModel)
    requires
        c.root == one_value(k, v),
        bare_key_reads(k, c.list_values),
        c.initial_comment.len() == 0,
        c.final_comment.len() == 0,
    ensures
        render(c) matches Ok(lines) ==> {
            let p = parse_spec(split_lines_spec(join_lines(lines)), c.list_values);
            &&& p.errors.len() == 0
            &&& config_of(p, c.list_values, c.bom) == (ConfigModel { indent: Seq::empty(), ..c })
        },
{
    let lv = c.list_values;
    assert(c.initial_comment =~= Seq::<Seq<char>>::empty());
    assert(c.final_comment =~= Seq::<Seq<char>>::empty());
    if let Ok(lines) = render(c) {
        let qk = quote_key_spec(k, lv)->Ok_0;
        let q = quote_value_spec(v, lv)->Ok_0;
        assert(quote_key_spec(k, lv) == Ok::<Seq<char>, Seq<char>>(qk)) by {
            if quote_key_spec(k, lv) is Err {
                assert(render(c) is Err);
            }
        }
        assert(quote_value_spec(v, lv) == Ok::<Seq<char>, Seq<char>>(q)) by {
            if quote_value_spec(v, lv) is Err {
                assert(render(c) is Err);
            }
        }
        lemma_key_quoting(k, lv, qk);
        lemma_render_one(k, v, c.indent, lv, qk, q);
        assert(lines == seq![keyword_line(qk, q)]);
        match v {
            ValueModel::String(s) => {
                if !lv {
                    assert(q == s);
                    if s.len() == 0 {
                        assert(s =~= Seq::<char>::empty());
                        lemma_empty_value_back(qk, k);
                    } else {
                        lemma_no_lists_value_back(qk, k, s);
                    }
                } else if s.contains('\n') {
                    lemma_multiline_value_back(qk, k, s, q);
                } else {
                    lemma_one_line_value_back(qk, k, s, q);
                }
            },
            ValueModel::List(items) => {
                lemma_list_value_back(qk, k, items, q);
            },
        }
        let p = parse_spec(split_lines_spec(join_lines(lines)), lv);
        assert(p == read_one_value(k, v));
        assert(config_of(p, lv, c.bom) == (ConfigModel { indent: Seq::empty(), ..c }));
    }
}


/// Unquoting undoes quoting: text quoted for a value and then unquoted is
/// the text again, whatever quotes were used.
#[verifier::spinoff_prover]
#[verifier::rlimit(40)]
pub proof fn law_unquote_undoes_quote(v: Seq<char>)
    ensures
        quote_value_spec(ValueModel::String(v), true) matches Ok(q) ==> unquote_value_spec(q) == v,
{
    if let Ok(q) = quote_value_spec(ValueModel::String(v), true) {
        if v.len() == 0 {
            assert(q == seq!['"', '"']);
            assert(q.subrange(1, 1) =~= v);
        } else if ((v.contains('\'') && v.contains('"')) || v.contains('\n')) || triple_quote_prefix_spec(v) is Some {
            let c = if triple_fits(v, '"') { '"' } else { '\'' };
            assert(q == seq![c, c, c] + v + seq![c, c, c]);
            assert(q.subrange(3, q.len() - 3) =~= v);
        } else if !is_awkward(v[0]) && !is_awkward(v.last()) && !v.contains(',') && !v.contains('#') {
            assert(q == v);
        } else {
            let c = if v.contains('"') { '\'' } else { '"' };
            assert(q == seq![c] + v + seq![c]);
            assert(q[1] == v[0]);
            assert(v.contains(v[0]));
            assert(q.subrange(1, q.len() - 1) =~= v);
        }
    }
}

/// Quoting leaves alone text that needs no quotes: not empty, on one line,
/// with no comma or `#`, no white space or quote at its ends, and, where
/// triple quotes are allowed, not holding both kinds of quote.
pub proof fn law_plain_text_is_written_as_it_is(v: Seq<char>, multiline: bool)
    requires
        v.len() > 0,
        !v.contains('\n'),
        !v.contains(','),
        !v.contains('#'),
        !is_awkward(v[0]),
        !is_awkward(v.last()),
        !(multiline && v.contains('\'') && v.contains('"')),
    ensures
        quote_spec(v, multiline, true) == Ok::<Seq<char>, Seq<char>>(v),
{
    assert(triple_quote_prefix_spec(v) is None);
}

/// Triple quotes are double ones when the text fits in them, single ones
/// when only those fit, and text that fits in neither is refused; either way
/// unquoting gives the text back.
pub proof fn law_triple_quote_choice(v: Seq<char>)
    ensures
        triple_fits(v, '"') ==> triple_quote_spec(v) == Ok::<Seq<char>, Seq<char>>(seq!['"', '"', '"'] + v + seq!['"', '"', '"']),
        !triple_fits(v, '"') && triple_fits(v, '\'') ==> triple_quote_spec(v) == Ok::<Seq<char>, Seq<char>>(seq!['\'', '\'', '\''] + v + seq!['\'', '\'', '\'']),
        !triple_fits(v, '"') && !triple_fits(v, '\'') ==> triple_quote_spec(v) == Err::<Seq<char>, Seq<char>>(v),
        triple_quote_spec(v) matches Ok(q) ==> unquote_value_spec(q) == v,
{
    if let Ok(q) = triple_quote_spec(v) {
        assert(q.subrange(3, q.len() - 3) =~= v);
    }
}

/// A key as the writer writes it reads back through the reader's matching
/// of `key = value` lines as the key, whatever follows the `=`. Keys the
/// writer leaves bare though they begin with `[`, or, with list values off,
/// with a quote, are left out (see `bare_key_reads`).
pub proof fn law_written_key_reads_back(k: Seq<char>, list_values: bool, rest: Seq<char>)
    requires
        bare_key_reads(k, list_values),
    ensures
        quote_key_spec(k, list_values) matches Ok(qk) ==> {
            &&& classify_spec(keyword_line(qk, rest)) == (LineModel::Keyword {
                indent: Seq::empty(),
                key: qk,
                rest: trim_start(rest),
            })
            &&& unquote_spec(qk) == k
        },
{
    if let Ok(qk) = quote_key_spec(k, list_values) {
        lemma_key_quoting(k, list_values, qk);
        lemma_classify_keyword_line(qk, k, rest);
    }
}

// ---------------------------------------------------------------------------
// Laws of splitting a value.
// ---------------------------------------------------------------------------

/// Pieces joined with a comma between each two.
pub open spec fn join_commas(p: Seq<Seq<char>>) -> Seq<char>
    decreases p.len(),
{
    if p.len() <= 1 {
        if p.len() == 1 {
            p[0]
        } else {
            Seq::empty()
        }
    } else {
        join_commas(p.drop_last()) + seq![','] + p.last()
    }
}

/// The number of commas among the first `n` characters that split.
pub open spec fn split_commas_before(s: Seq<char>, n: int) -> nat
    decreases n,
{
    if n <= 0 {
        0
    } else {
        split_commas_before(s, n - 1) + if is_split_comma(s, n - 1) {
            1nat
        } else {
            0nat
        }
    }
}

/// The pieces of a value between the commas that split it are one more
/// than those commas, and joined with commas give the text back.
proof fn lemma_segments(s: Seq<char>, n: int)
    requires
        0 <= n <= s.len(),
    ensures
        segments(s, n).len() == 1 + split_commas_before(s, n),
        join_commas(segments(s, n)) == s.take(n),
    decreases n,
{
    if n == 0 {
        assert(s.take(0) =~= Seq::<char>::empty());
    } else {
        lemma_segments(s, n - 1);
        let p = segments(s, n - 1);
        if is_split_comma(s, n - 1) {
            let q = p.push(Seq::<char>::empty());
            assert(q.drop_last() == p);
            assert(join_commas(q) =~= s.take(n - 1) + seq![','] + Seq::<char>::empty());
            assert(s.take(n) =~= s.take(n - 1).push(s[n - 1]));
        } else {
            let c = s[n - 1];
            let q = p.update(p.len() - 1, p.last().push(c));
            if p.len() == 1 {
                assert(join_commas(q) == q[0]);
                assert(join_commas(p) == p[0]);
            } else {
                assert(q.drop_last() =~= p.drop_last());
                assert(join_commas(q) =~= join_commas(p.drop_last()) + seq![','] + p.last().push(c));
            }
            assert(s.take(n) =~= s.take(n - 1).push(c));
        }
    }
}

/// Splitting a value at its commas: nothing comes of it exactly when a
/// quote opened at the start of an item is never closed; otherwise it is
/// one value, the text as it is, exactly when no comma outside quotes splits
/// it, and else a list of the pieces between those commas, trimmed, without
/// an empty last piece, where the pieces joined with commas give the text
/// back and are one more than the commas.
pub proof fn law_split_commas(body: Seq<char>)
    ensures
        split_commas_spec(body) is None <==> scan(body, body.len() as int).quote is Some,
        split_commas_spec(body) matches Some(ItemsModel::Single(t)) ==> t == body && split_commas_before(body, body.len() as int) == 0,
        split_commas_spec(body) is Some && split_commas_before(body, body.len() as int) == 0 ==> split_commas_spec(body) == Some(ItemsModel::Single(body)),
        split_commas_spec(body) matches Some(ItemsModel::List(parts)) ==> {
            let sg = segments(body, body.len() as int);
            &&& split_commas_before(body, body.len() as int) > 0
            &&& sg.len() == 1 + split_commas_before(body, body.len() as int)
            &&& join_commas(sg) == body
            &&& parts == if trim(sg.last()).len() > 0 {
                trim_all(sg.drop_last()).push(trim(sg.last()))
            } else {
                trim_all(sg.drop_last())
            }
        },
{
    lemma_segments(body, body.len() as int);
    assert(body.take(body.len() as int) =~= body);
}

/// Splitting off a comment: the body is the text before the first `#`
/// outside quotes, and the comment what follows it, without leading white
/// space; with no such `#`, the body is the whole text, unless a quote is
/// left open, when nothing comes of it.
pub proof fn law_split_comment(v: Seq<char>)
    ensures
        split_comment_spec(v) matches Some((b, c)) ==> {
            &&& b.len() <= v.len()
            &&& v.take(b.len() as int) == b
            &&& forall|j: int| 0 <= j < b.len() ==> !is_comment_start(v, j)
            &&& match c {
                Some(t) => is_comment_start(v, b.len() as int) && t == trim_start(v.skip(b.len() as int + 1)),
                None => b == v && scan(v, v.len() as int).quote is None,
            }
        },
        split_comment_spec(v) is None <==> (forall|j: int| 0 <= j < v.len() ==> !is_comment_start(v, j)) && scan(v, v.len() as int).quote is Some,
{
    if exists|i: int| is_first_comment_start(v, i) {
        let i = choose|i: int| is_first_comment_start(v, i);
        assert(v.take(i).len() == i);
    } else {
        assert forall|j: int| 0 <= j < v.len() implies !is_comment_start(v, j) by {
            if is_comment_start(v, j) {
                let k = lemma_first_comment_exists(v, j);
            }
        }
        assert(v.take(v.len() as int) =~= v);
    }
}

/// If some position starts a comment, a first one does.
proof fn lemma_first_comment_exists(v: Seq<char>, j: int) -> (k: int)
    requires
        is_comment_start(v, j),
    ensures
        is_first_comment_start(v, k),
    decreases j,
{
    if exists|i: int| 0 <= i < j && is_comment_start(v, i) {
        let i = choose|i: int| 0 <= i < j && is_comment_start(v, i);
        lemma_first_comment_exists(v, i)
    } else {
        j
    }
}

/// The bytes of text, behind a byte order mark when there is one.
pub open spec fn text_bytes(t: Seq<char>, bom: bool) -> Seq<u8> {
    (if bom {
        bom_utf8()
    } else {
        Seq::empty()
    }) + encode_utf8(t)
}

/// Text whose encoding starts with the bytes of a byte order mark starts
/// with the character they encode.
pub(crate) proof fn lemma_bom_bytes(t: Seq<char>)
    requires
        encode_utf8(t).len() >= 3,
        encode_utf8(t).take(3) == bom_utf8(),
    ensures
        t.len() > 0 && t[0] == '\u{feff}',
{
    let b = encode_utf8(t);
    if t.len() == 0 {
        assert(b.len() == 0);
    }
    encode_utf8_first_scalar(t);
    assert(b[0] == 0xEFu8 && b[1] == 0xBBu8 && b[2] == 0xBFu8) by {
        assert(b.take(3)[0] == b[0] && b.take(3)[1] == b[1] && b.take(3)[2] == b[2]);
    }
    assert((((0xEFu8 & 0x0Fu8) as u32) << 12u32) | (((0xBBu8 & 0x3fu8) as u32) << 6u32) | ((0xBFu8
        & 0x3fu8) as u32) == 0xFEFFu32) by (bit_vector);
    assert(decode_first_scalar(b) == 0xFEFFu32);
    char_u32_cast(t[0], 0xFEFFu32);
    char_u32_cast('\u{feff}', 0xFEFFu32);
}

/// Text written as bytes reads as the same text, and tells whether a byte
/// order mark was written, so reading a config from the bytes it writes is
/// reading it from the text it writes. That fails only where no mark was
/// written and the text itself starts with the character a mark encodes.
pub proof fn law_bytes_read_as_text(t: Seq<char>, bom: bool, list_values: bool, r: Result<ConfigObj, Error>)
    requires
        !bom ==> !(t.len() > 0 && t[0] == '\u{feff}'),
    ensures
        decode_spec(text_bytes(t, bom)) == Ok::<(Seq<char>, bool), Seq<char>>((t, bom)),
        bytes_outcome(text_bytes(t, bom), list_values, r) == read_outcome(split_lines_spec(t), list_values, bom, r),
{
    let b = text_bytes(t, bom);
    let e = encode_utf8(t);
    encode_utf8_valid_utf8(t);
    encode_utf8_decode_utf8(t);
    if bom {
        assert(b.take(3) =~= bom_utf8());
        assert(b.skip(3) =~= e);
        assert(strip_bom(b) == (e, true));
    } else {
        assert(b =~= e);
        if b.len() >= 3 && b.take(3) == bom_utf8() {
            lemma_bom_bytes(t);
        }
        assert(strip_bom(b) == (e, false));
    }
}

} // verus!
