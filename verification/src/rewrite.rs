//! Reading back a whole file that was written out: its sections, values,
//! comments and indentation.

use vstd::prelude::*;
use crate::text::{CharClass, is_space, is_quote, in_class, lead_len, trim_start, trim, lemma_lead_len};
use crate::parse::{LineModel, classify_spec, match_section_spec, match_keyword_spec, strip_comment_marker_spec, split_comment_spec, split_value_spec, split_value_no_lists_spec, triple_quote_prefix_spec, read_value_spec, ReadModel, scan, scan_step, is_comment_start, is_first_comment_start};
use crate::value::ValueModel;
use crate::laws::{lemma_scan_prefix, lemma_trim_plain, lemma_trim_start_space, no_crlf, lemma_split_suffix, lemma_split_prefix, lemma_split_no_cr, lemma_split_no_triple, lemma_join_front, lemma_join_split};
use crate::parse::{unquote_spec, multiline_from, read_multiline_spec, header_comment};
use crate::text::{find_triple, is_first_triple, triple_at, count_char, rfind_char, is_last, trail_len, trim_end, lemma_trail_len};
use crate::write::{single_quote_spec, quote_section_name_spec, has_triple, triple_fits, quote_value_spec, quote_spec, quote_items, join_items, is_awkward};
use crate::reader::{run, lemma_step_advances, close_last, close_to, OpenModel, PState, step, note_indent, begin, current, with_current, parsed_insert};
use crate::section::{ItemModel, CommentsModel, has_key, SectionModel, EntryModel, distinct_keys, with_item, is_key_at, lemma_key_index, lemma_key_index_some};
use crate::write::{comment_lines, indented_comment, comment_line_spec};
use crate::laws::{quoted_key, lemma_single_quoted_key, key_written_as, keyword_line, lemma_classify_keyword_line, survives_writing, item_reads_back, lemma_quoted_item, lemma_read_single_list, lemma_read_list, lemma_quote_items, lemma_join_scan, lemma_read_bare, lemma_read_single_quoted, lemma_verbatim, lemma_no_comment};
use crate::reader::parse_value_no_lists_spec;
use crate::config::{split_newlines, strip_cr, split_lines_spec, join_lines};
use crate::laws::{join_newlines, lemma_split_facts};

verus! {

// ---------------------------------------------------------------------------
// The lines that reading sees of the lines that writing gives.
// ---------------------------------------------------------------------------

/// The lines that reading sees of one written line: it is split at its line
/// breaks, and each piece loses a carriage return at its end.
pub open spec fn pieces(w: Seq<char>) -> Seq<Seq<char>> {
    split_newlines(w).map_values(|x: Seq<char>| strip_cr(x))
}

/// The lines that reading sees of written lines, each split in turn.
pub open spec fn read_lines(ws: Seq<Seq<char>>) -> Seq<Seq<char>>
    decreases ws.len(),
{
    if ws.len() == 0 {
        Seq::empty()
    } else {
        read_lines(ws.drop_last()) + pieces(ws.last())
    }
}

/// Reading the lines of two runs of written lines, one after the other.
pub(crate) proof fn lemma_read_lines_concat(a: Seq<Seq<char>>, b: Seq<Seq<char>>)
    ensures
        read_lines(a + b) == read_lines(a) + read_lines(b),
    decreases b.len(),
{
    if b.len() == 0 {
        assert(a + b =~= a);
        assert(read_lines(a) + Seq::<Seq<char>>::empty() =~= read_lines(a));
    } else {
        assert((a + b).drop_last() =~= a + b.drop_last());
        assert((a + b).last() == b.last());
        lemma_read_lines_concat(a, b.drop_last());
        assert(read_lines(a) + read_lines(b.drop_last()) + pieces(b.last()) =~= read_lines(a) + (
        read_lines(b.drop_last()) + pieces(b.last())));
    }
}

/// A written line with no line break that does not end in a carriage
/// return is seen as it is.
pub(crate) proof fn lemma_pieces_one(w: Seq<char>)
    requires
        !w.contains('\n'),
        w.len() > 0 ==> w.last() != '\r',
    ensures
        pieces(w) == seq![w],
{
    crate::laws::lemma_split_no_newline(w);
    assert(strip_cr(w) == w);
    assert(seq![w].map_values(|x: Seq<char>| strip_cr(x)) =~= seq![w]);
}

/// Splitting at a line break splits the lines.
pub(crate) proof fn lemma_split_newline_concat(x: Seq<char>, y: Seq<char>)
    ensures
        split_newlines(x + seq!['\n'] + y) == split_newlines(x) + split_newlines(y),
    decreases y.len(),
{
    let z = x + seq!['\n'] + y;
    lemma_split_facts(y);
    if y.len() == 0 {
        assert(z.drop_last() =~= x);
        assert(z.last() == '\n');
        assert(split_newlines(y) == seq![Seq::<char>::empty()]);
        assert(split_newlines(x).push(Seq::empty()) =~= split_newlines(x) + seq![Seq::<char>::empty()]);
    } else {
        let y0 = y.drop_last();
        lemma_split_newline_concat(x, y0);
        lemma_split_facts(y0);
        assert(z.drop_last() =~= x + seq!['\n'] + y0);
        assert(z.last() == y.last());
        let p = split_newlines(x);
        let q = split_newlines(y0);
        if y.last() == '\n' {
            assert((p + q).push(Seq::empty()) =~= p + q.push(Seq::empty()));
        } else {
            let c = y.last();
            let pq = p + q;
            assert(pq.update(pq.len() - 1, pq.last().push(c)) =~= p + q.update(q.len() - 1, q.last().push(c)));
        }
    }
}

/// Written text, seen as lines: the written lines split in turn, except for
/// text that is a single blank line, which is seen as no lines at all.
pub(crate) proof fn lemma_split_join(ws: Seq<Seq<char>>)
    requires
        ws != seq![Seq::<char>::empty()],
    ensures
        split_lines_spec(join_lines(ws)) == read_lines(ws),
{
    if ws.len() > 0 {
        lemma_join_lines_newlines(ws);
        let t = join_newlines(ws);
        let text = join_lines(ws);
        assert(text == t + seq!['\n']);
        assert(text.drop_last() =~= t);
        lemma_split_join_newlines(ws);
        if t.len() == 0 {
            // Only a single blank line joins to nothing.
            assert(ws.len() == 1) by {
                if ws.len() > 1 {
                    lemma_join_newlines_len(ws);
                }
            }
            assert(join_newlines(ws) == ws[0]);
            assert(ws[0] =~= Seq::<char>::empty());
            assert(ws =~= seq![Seq::<char>::empty()]);
        }
    } else {
        assert(join_lines(ws) == Seq::<char>::empty());
    }
}

/// Lines joined with line breaks, and with one after each, differ by the
/// last break.
proof fn lemma_join_lines_newlines(ws: Seq<Seq<char>>)
    requires
        ws.len() > 0,
    ensures
        join_lines(ws) == join_newlines(ws) + seq!['\n'],
    decreases ws.len(),
{
    if ws.len() == 1 {
        assert(ws.drop_last() =~= Seq::<Seq<char>>::empty());
        assert(join_lines(ws.drop_last()) == Seq::<char>::empty());
        assert(Seq::<char>::empty() + ws.last() + seq!['\n'] =~= ws[0] + seq!['\n']);
    } else {
        lemma_join_lines_newlines(ws.drop_last());
        assert(join_newlines(ws.drop_last()) + seq!['\n'] + ws.last() + seq!['\n'] =~= join_newlines(ws.drop_last()) + seq!['\n'] + ws.last() + seq!['\n']);
    }
}

/// More than one line joins to at least the breaks between them.
proof fn lemma_join_newlines_len(ws: Seq<Seq<char>>)
    requires
        ws.len() > 1,
    ensures
        join_newlines(ws).len() > 0,
{
}

/// Splitting lines joined with line breaks gives each line split in turn.
proof fn lemma_split_join_newlines(ws: Seq<Seq<char>>)
    requires
        ws.len() > 0,
    ensures
        split_newlines(join_newlines(ws)).map_values(|x: Seq<char>| strip_cr(x)) == read_lines(ws),
    decreases ws.len(),
{
    if ws.len() == 1 {
        assert(ws.drop_last() =~= Seq::<Seq<char>>::empty());
        assert(read_lines(ws.drop_last()) == Seq::<Seq<char>>::empty());
        assert(ws.last() == ws[0]);
        assert(Seq::<Seq<char>>::empty() + pieces(ws[0]) =~= pieces(ws[0]));
        assert(join_newlines(ws) == ws[0]);
    } else {
        let w0 = ws.drop_last();
        lemma_split_join_newlines(w0);
        lemma_split_newline_concat(join_newlines(w0), ws.last());
        let a = split_newlines(join_newlines(w0));
        let b = split_newlines(ws.last());
        assert((a + b).map_values(|x: Seq<char>| strip_cr(x)) =~= a.map_values(|x: Seq<char>| strip_cr(x)) + b.map_values(|x: Seq<char>| strip_cr(x)));
    }
}

// ---------------------------------------------------------------------------
// Indented lines.
// ---------------------------------------------------------------------------

/// Every character is white space, and none is a line break.
pub open spec fn blank_run(ind: Seq<char>) -> bool {
    forall|j: int| 0 <= j < ind.len() ==> is_space(#[trigger] ind[j]) && ind[j] != '\n'
}

/// A recognised line with its indentation replaced.
pub open spec fn indented(l: LineModel, ind: Seq<char>) -> LineModel {
    match l {
        LineModel::Section { indent: _, depth, name, comment } => LineModel::Section {
            indent: ind,
            depth,
            name,
            comment,
        },
        LineModel::Keyword { indent: _, key, rest } => LineModel::Keyword { indent: ind, key, rest },
        _ => l,
    }
}

/// Indentation in front of a line is all that the leading white space is.
pub(crate) proof fn lemma_indent_parts(ind: Seq<char>, x: Seq<char>)
    requires
        blank_run(ind),
        x.len() > 0,
        !is_space(x[0]),
    ensures
        lead_len(ind + x, CharClass::Space) == ind.len(),
        lead_len(x, CharClass::Space) == 0,
        (ind + x).skip(ind.len() as int) == x,
        (ind + x).take(ind.len() as int) == ind,
        x.skip(0) == x,
        x.take(0) == Seq::<char>::empty(),
        trim_start(ind + x) == x,
        trim_start(x) == x,
{
    let line = ind + x;
    let n = ind.len() as int;
    lemma_lead_len(line, CharClass::Space, n);
    lemma_lead_len(x, CharClass::Space, 0);
    assert(line.skip(n) =~= x);
    assert(x.skip(0) == x);
    assert(line.take(n) =~= ind);
    assert(x.take(0) =~= Seq::<char>::empty());
}

/// Indenting changes only the indentation a section header is read with.
#[verifier::rlimit(40)]
pub(crate) proof fn lemma_section_indented(ind: Seq<char>, x: Seq<char>)
    requires
        blank_run(ind),
        x.len() > 0,
        !is_space(x[0]),
    ensures
        match_section_spec(ind + x) == match match_section_spec(x) {
            Some(l) => Some(indented(l, ind)),
            None => None,
        },
{
    lemma_indent_parts(ind, x);
}

/// Indenting changes only the indentation a `key = value` line is read with.
#[verifier::rlimit(40)]
pub(crate) proof fn lemma_keyword_indented(ind: Seq<char>, x: Seq<char>)
    requires
        blank_run(ind),
        x.len() > 0,
        !is_space(x[0]),
    ensures
        match_keyword_spec(ind + x) == match match_keyword_spec(x) {
            Some(l) => Some(indented(l, ind)),
            None => None,
        },
{
    lemma_indent_parts(ind, x);
}

/// Indenting a line that starts with something other than white space
/// changes only the indentation it is read with.
#[verifier::spinoff_prover]
#[verifier::rlimit(60)]
pub(crate) proof fn lemma_classify_indented(ind: Seq<char>, x: Seq<char>)
    requires
        blank_run(ind),
        x.len() > 0,
        !is_space(x[0]),
    ensures
        classify_spec(ind + x) == indented(classify_spec(x), ind),
        trim_start(ind + x) == x,
{
    lemma_indent_parts(ind, x);
    lemma_section_indented(ind, x);
    lemma_keyword_indented(ind, x);
    assert(trim(ind + x) == trim(x));
}

/// A comment line as written reads as a comment holding its text, and a
/// blank one as a blank line.
pub(crate) proof fn lemma_comment_line(ind: Seq<char>, t: Seq<char>)
    requires
        blank_run(ind),
    ensures
        t.len() == 0 ==> classify_spec(Seq::<char>::empty()) == LineModel::Blank,
        t.len() == 0 ==> strip_comment_marker_spec(Seq::<char>::empty()) == t,
        t.len() > 0 ==> classify_spec(ind + "# "@ + t) == LineModel::Comment,
        t.len() > 0 ==> strip_comment_marker_spec(ind + "# "@ + t) == t,
{
    reveal_strlit("# ");
    if t.len() == 0 {
        lemma_lead_len(Seq::<char>::empty(), CharClass::Space, 0);
        assert(Seq::<char>::empty().skip(0) =~= Seq::<char>::empty());
        assert(t =~= Seq::<char>::empty());
    } else {
        let x = "# "@ + t;
        assert(ind + "# "@ + t == ind + x);
        assert(x[0] == '#');
        lemma_classify_indented(ind, x);
        crate::text::lemma_trail_len_facts(x, CharClass::Space);
        assert(crate::text::trail_len(x, CharClass::Space) < x.len()) by {
            if crate::text::trail_len(x, CharClass::Space) == x.len() {
                assert(in_class(x[0], CharClass::Space));
            }
        }
        lemma_lead_len(x, CharClass::Space, 0);
        assert(x.skip(0) == x);
        assert(trim(x) == x.take(x.len() - crate::text::trail_len(x, CharClass::Space)));
        assert(trim(x)[0] == '#');
        assert(classify_spec(x) == LineModel::Comment);
        assert(x.drop_first() =~= seq![' '] + t);
        assert((seq![' '] + t).drop_first() =~= t);
    }
}

// ---------------------------------------------------------------------------
// A value followed by a comment.
// ---------------------------------------------------------------------------

/// What follows a value on its line: ` # ` and the comment, or nothing.
pub open spec fn tail_of(inline: Option<Seq<char>>) -> Seq<char> {
    match inline {
        Some(t) => " # "@ + t,
        None => Seq::empty(),
    }
}

/// A comment after a value that reads back as itself: no line break in it,
/// no white space in front, and no carriage return at its end.
pub open spec fn inline_ok(inline: Option<Seq<char>>) -> bool {
    match inline {
        Some(t) => !t.contains('\n') && (t.len() > 0 ==> !is_space(t[0]) && t.last() != '\r'),
        None => true,
    }
}

/// A written value that reads, through the value rules rather than as a
/// triple-quoted value, as `v` with no comment: it has no white space at its
/// ends and opens with no triple quote.
pub open spec fn value_line_reads(q: Seq<char>, v: ValueModel, list_values: bool) -> bool {
    &&& q.len() > 0
    &&& !is_space(q[0])
    &&& !is_space(q.last())
    &&& triple_quote_prefix_spec(q) is None
    &&& split_comment_spec(q) == Some((q, None::<Seq<char>>))
    &&& (if list_values {
        split_value_spec(q)
    } else {
        split_value_no_lists_spec(q)
    }) == Some((v, None::<Seq<char>>))
}

/// A comment start implies a first one.
proof fn lemma_first_comment_start(s: Seq<char>, i: int)
    requires
        is_comment_start(s, i),
    ensures
        exists|j: int| is_first_comment_start(s, j),
    decreases i,
{
    if forall|j: int| 0 <= j < i ==> !is_comment_start(s, j) {
        assert(is_first_comment_start(s, i));
    } else {
        let j = choose|j: int| 0 <= j < i && is_comment_start(s, j);
        lemma_first_comment_start(s, j);
    }
}

/// Nothing quotes a space or a comment mark after a value.
proof fn lemma_tail_no_triple(q: Seq<char>, inline: Option<Seq<char>>)
    requires
        q.len() > 0,
    ensures
        triple_quote_prefix_spec(q + tail_of(inline)) == triple_quote_prefix_spec(q),
{
    reveal_strlit(" # ");
    let w = q + tail_of(inline);
    if q.len() < 3 && inline is Some {
        assert(w[q.len() as int] == ' ');
        if q.len() == 1 {
            assert(w[2] == '#');
        }
    }
    if q.len() >= 3 {
        assert(w[0] == q[0] && w[1] == q[1] && w[2] == q[2]);
    }
    if inline is None {
        assert(w =~= q);
    }
}

/// A value that reads through the value rules reads the same with a comment
/// after it, and the comment is read too.
pub(crate) proof fn lemma_read_with_tail(q: Seq<char>, v: ValueModel, list_values: bool, inline: Option<Seq<char>>, lines: Seq<Seq<char>>, index: int)
    requires
        value_line_reads(q, v, list_values),
        inline_ok(inline),
    ensures
        read_value_spec(q + tail_of(inline), lines, index, list_values) == ReadModel::Read(v, inline, index),
{
    reveal_strlit(" # ");
    lemma_tail_no_triple(q, inline);
    match inline {
        None => {
            assert(q + tail_of(inline) =~= q);
        },
        Some(t) => {
            let w = q + tail_of(inline);
            let n = q.len() as int;
            assert(w == q + " # "@ + t);
            assert(!exists|j: int| is_first_comment_start(q, j));
            assert(scan(q, n).quote is None);
            assert forall|j: int| 0 <= j < n implies !is_comment_start(w, j) by {
                lemma_scan_prefix(q, " # "@ + t, j);
                assert(w[j] == q[j]);
                if is_comment_start(q, j) {
                    lemma_first_comment_start(q, j);
                }
            }
            lemma_scan_prefix(q, " # "@ + t, n);
            assert(w[n] == ' ');
            assert(scan(w, n + 1) == scan_step(scan(w, n), w[n]));
            assert(w[n + 1] == '#');
            assert(is_first_comment_start(w, n + 1)) by {
                assert(!is_comment_start(w, n));
            }
            assert forall|j: int| is_first_comment_start(w, j) implies j == n + 1 by {
                if j > n + 1 {
                    assert(is_comment_start(w, n + 1));
                }
            }
            assert(w.take(n + 1) =~= q + seq![' ']);
            assert(w.skip(n + 2) =~= seq![' '] + t);
            lemma_trim_start_space(t);
            if t.len() > 0 {
                lemma_lead_len(t, CharClass::Space, 0);
                assert(t.skip(0) == t);
            } else {
                assert(t =~= Seq::<char>::empty());
                lemma_lead_len(t, CharClass::Space, 0);
                assert(t.skip(0) =~= t);
            }
            assert(split_comment_spec(w) == Some((q + seq![' '], Some(t))));
            lemma_trim_plain(q);
            crate::laws::lemma_trim_space_behind(q);
        },
    }
}

// ---------------------------------------------------------------------------
// Triple-quoted values followed by a comment.
// ---------------------------------------------------------------------------

/// A comment after a closing triple quote, or after a section header, that
/// reads back as itself: as after a value, and with no white space at its
/// end either.
pub open spec fn inline_strict(inline: Option<Seq<char>>) -> bool {
    &&& inline_ok(inline)
    &&& (inline matches Some(t) ==> (t.len() > 0 ==> !is_space(t.last())))
}

/// The text after a closing quote, or a header's closing brackets, reads as
/// the comment.
pub(crate) proof fn lemma_tail_comment(inline: Option<Seq<char>>)
    requires
        inline_strict(inline),
    ensures
        header_comment(tail_of(inline)) == Some(inline),
{
    reveal_strlit(" # ");
    match inline {
        None => {
            let e = Seq::<char>::empty();
            lemma_lead_len(e, CharClass::Space, 0);
            assert(e.skip(0) =~= e);
        },
        Some(t) => {
            let w = " # "@ + t;
            if t.len() > 0 {
                let a = seq!['#'] + seq![' '] + t;
                assert(w == seq![' '] + a);
                lemma_trim_start_space(a);
                lemma_lead_len(a, CharClass::Space, 0);
                assert(a.skip(0) == a);
                assert(a[a.len() - 1] == t.last());
                crate::text::lemma_trail_len(a, CharClass::Space, 0);
                assert(a.take(a.len() as int) == a);
                assert(trim(w) == a);
                assert(a.drop_first() =~= seq![' '] + t);
                lemma_trim_start_space(t);
                lemma_lead_len(t, CharClass::Space, 0);
                assert(t.skip(0) == t);
            } else {
                let a = seq!['#', ' '];
                assert(w =~= seq![' '] + a);
                lemma_trim_start_space(a);
                lemma_lead_len(a, CharClass::Space, 0);
                assert(a.skip(0) == a);
                crate::text::lemma_trail_len(a, CharClass::Space, 1);
                assert(a.take(1) =~= seq!['#']);
                assert(trim(w) == seq!['#']);
                assert(seq!['#'].drop_first() =~= Seq::<char>::empty());
                let e = Seq::<char>::empty();
                lemma_lead_len(e, CharClass::Space, 0);
                assert(e.skip(0) =~= e);
                assert(t =~= e);
            }
        },
    }
}

/// The first triple quote in text with none of its own, followed by a
/// triple quote and anything else, is that closing one, as long as the text
/// does not end with the quote.
pub(crate) proof fn lemma_find_closing_triple_tail(s: Seq<char>, q: char, r: Seq<char>)
    requires
        !has_triple(s, q),
        s.len() > 0 ==> s.last() != q,
    ensures
        find_triple(s + seq![q, q, q] + r, q) == Some(s.len() as int),
{
    let body = s + seq![q, q, q] + r;
    let n = s.len() as int;
    assert(triple_at(body, q, n));
    assert(is_first_triple(body, q, n)) by {
        assert forall|j: int| 0 <= j < n implies !triple_at(body, q, j) by {
            if j + 3 <= n {
                assert(!triple_at(s, q, j));
                assert(body[j] == s[j] && body[j + 1] == s[j + 1] && body[j + 2] == s[j + 2]);
            } else if j == n - 2 {
                assert(body[j + 1] == s.last());
            } else {
                assert(body[j] == s.last());
            }
        }
    }
    assert forall|j: int| is_first_triple(body, q, j) implies j == n by {
        if j > n {
            assert(triple_at(body, q, n));
        }
    }
}

/// Reading the continuation lines of a triple-quoted value that starts at
/// line `base` of a file: the lines up to the one the closing quote is on,
/// joined, and the comment after the quote.
pub(crate) proof fn lemma_multiline_read_at(
    q: char,
    ms: Seq<Seq<char>>,
    lines: Seq<Seq<char>>,
    base: int,
    c: int,
    text: Seq<char>,
    inline: Option<Seq<char>>,
)
    requires
        0 <= base,
        0 <= c < ms.len() - 1,
        base + ms.len() <= lines.len(),
        forall|j: int| c < j < ms.len() - 1 ==> lines[base + j] == ms[j],
        lines[base + ms.len() - 1] == ms.last() + seq![q, q, q] + tail_of(inline),
        forall|j: int| 0 <= j < ms.len() ==> !has_triple(#[trigger] ms[j], q),
        ms.last().len() > 0 ==> ms.last().last() != q,
        inline_strict(inline),
    ensures
        multiline_from(q, text, lines, base + c) == Some((text + seq!['\n'] + join_newlines(ms.skip(c + 1)), inline, base + ms.len() - 1)),
    decreases ms.len() - c,
{
    let m = ms.len() - 1;
    let line = lines[base + c + 1];
    if c + 1 < m {
        assert(line == ms[c + 1]);
        assert(find_triple(line, q) is None) by {
            assert(!has_triple(ms[c + 1], q));
            if exists|i: int| is_first_triple(line, q, i) {
                let i = choose|i: int| is_first_triple(line, q, i);
                assert(triple_at(ms[c + 1], q, i));
            }
        }
        lemma_multiline_read_at(q, ms, lines, base, c + 1, text.push('\n') + line, inline);
        assert(ms.skip(c + 1) =~= seq![ms[c + 1]] + ms.skip(c + 2));
        lemma_join_front(ms[c + 1], ms.skip(c + 2));
        assert(text.push('\n') + line + seq!['\n'] + join_newlines(ms.skip(c + 2)) =~= text + seq!['\n'] + (ms[c + 1] + seq!['\n'] + join_newlines(ms.skip(c + 2))));
    } else {
        assert(line == ms.last() + seq![q, q, q] + tail_of(inline));
        lemma_find_closing_triple_tail(ms.last(), q, tail_of(inline));
        let n = ms.last().len() as int;
        assert(line.skip(n + 3) =~= tail_of(inline));
        lemma_tail_comment(inline);
        assert(line.take(n) =~= ms.last());
        assert(ms.skip(c + 1) =~= seq![ms.last()]);
        assert(text.push('\n') + ms.last() =~= text + seq!['\n'] + ms.last());
    }
}

// ---------------------------------------------------------------------------
// How a value is written.
// ---------------------------------------------------------------------------

/// A value the writer writes is written in one of two forms: one that reads
/// through the value rules, or, for text, triple quotes made of `q` that the
/// text can be read back through. The result names the quote of the second.
pub(crate) proof fn lemma_written_value(v: ValueModel, list_values: bool, w: Seq<char>) -> (triple: Option<char>)
    requires
        survives_writing(v, list_values),
        quote_value_spec(v, list_values) == Ok::<Seq<char>, Seq<char>>(w),
    ensures
        match triple {
            None => value_line_reads(w, v, list_values) && !w.contains('\n'),
            Some(q) => v matches ValueModel::String(s) && is_quote(q) && triple_fits(s, q) && no_crlf(s)
                && w == seq![q, q, q] + s + seq![q, q, q],
        },
{
    let none = seq![Seq::<char>::empty()];
    match v {
        ValueModel::String(s) => {
            if !list_values {
                assert(w == s);
                assert(!s.contains('\n'));
                assert(parse_value_no_lists_spec(s) == Some(s));
                lemma_verbatim(s, none);
                None
            } else if s.len() == 0 {
                assert(w == seq!['"'] + s + seq!['"']);
                lemma_read_single_quoted('"', s, none);
                assert(!w.contains('\n'));
                None
            } else if (s.contains('\'') && s.contains('"')) || s.contains('\n') || triple_quote_prefix_spec(s) is Some {
                let q = if triple_fits(s, '"') { '"' } else { '\'' };
                assert(w == seq![q, q, q] + s + seq![q, q, q]);
                Some(q)
            } else if !is_awkward(s[0]) && !is_awkward(s.last()) && !s.contains(',') && !s.contains('#') {
                assert(w == s);
                assert forall|j: int| 0 <= j < s.len() implies #[trigger] s[j] != ',' && s[j] != '#' by {
                    assert(s.contains(s[j]));
                }
                lemma_read_bare(s, none);
                None
            } else {
                let c = if s.contains('"') { '\'' } else { '"' };
                assert(w == seq![c] + s + seq![c]);
                lemma_read_single_quoted(c, s, none);
                assert(!w.contains('\n')) by {
                    if w.contains('\n') {
                        let i = choose|i: int| 0 <= i < w.len() && w[i] == '\n';
                        assert(w[i] == s[i - 1]);
                    }
                }
                None
            }
        },
        ValueModel::List(items) => {
            if items.len() == 0 {
                assert(w == seq![',']);
                lemma_lead_len(w, CharClass::Space, 0);
                assert(!is_comment_start(w, 0));
                assert(scan(w, 1) == scan_step(scan(w, 0), w[0]));
                lemma_no_comment(w);
                lemma_trim_plain(w);
                assert(items =~= Seq::<Seq<char>>::empty());
                assert(!w.contains('\n'));
                None
            } else if items.len() == 1 {
                let qx = choose|qx: Seq<char>| quote_spec(items[0], false, true) == Ok::<Seq<char>, Seq<char>>(qx);
                assert(w == qx.push(','));
                lemma_quoted_item(items[0], qx);
                lemma_read_single_list(qx, items[0], none);
                assert(seq![items[0]] =~= items);
                assert(!w.contains('\n')) by {
                    if w.contains('\n') {
                        let i = choose|i: int| 0 <= i < w.len() && w[i] == '\n';
                        assert(qx[i] == '\n');
                    }
                }
                assert(w[0] == qx[0]);
                None
            } else {
                let qs = choose|qs: Seq<Seq<char>>| quote_items(items, true) == Ok::<Seq<Seq<char>>, Seq<char>>(qs);
                assert(w == join_items(qs));
                lemma_quote_items(items, qs);
                assert forall|i: int| 0 <= i < qs.len() implies item_reads_back(#[trigger] qs[i], items[i]) by {
                    lemma_quoted_item(items[i], qs[i]);
                }
                lemma_read_list(qs, items, none);
                lemma_join_scan(qs, items);
                assert(item_reads_back(qs[0], items[0]));
                assert(item_reads_back(qs.last(), items.last())) by {
                    assert(qs.last() == qs[qs.len() - 1]);
                }
                None
            }
        },
    }
}

/// The lines that reading sees of text that spans lines, with something
/// before it and something after it on the same lines: the first line with
/// what is before, the last with what is after, and those between as they
/// are, as long as no carriage return sits just before a line break.
pub(crate) proof fn lemma_pieces_multiline(p: Seq<char>, s: Seq<char>, r: Seq<char>)
    requires
        !p.contains('\n'),
        !r.contains('\n'),
        p.len() > 0,
        p.last() != '\r',
        r.len() > 0,
        r.last() != '\r',
        s.contains('\n'),
        no_crlf(s),
    ensures
        ({
            let ms = split_newlines(s);
            let l = pieces(p + s + r);
            &&& ms.len() >= 2
            &&& l.len() == ms.len()
            &&& l[0] == p + ms[0]
            &&& forall|j: int| 0 < j < ms.len() - 1 ==> l[j] == ms[j]
            &&& l.last() == ms.last() + r
        }),
{
    let w = p + s + r;
    assert(w =~= p + (s + r));
    lemma_split_facts(s);
    let ms = split_newlines(s);
    let m = ms.len() - 1;
    lemma_split_suffix(s, r);
    let sq = ms.update(m, ms.last() + r);
    lemma_split_prefix(p, s + r);
    let sl = sq.update(0, p + ms[0]);
    assert(split_newlines(w) == sl);
    lemma_split_no_cr(s);
    let l = sl.map_values(|x: Seq<char>| strip_cr(x));
    assert forall|j: int| 0 <= j < sl.len() implies #[trigger] strip_cr(sl[j]) == sl[j] by {
        if j == 0 {
            if ms[0].len() > 0 {
                assert((p + ms[0]).last() == ms[0].last());
            } else {
                assert((p + ms[0]).last() == p.last());
            }
        } else if j == m {
            assert((ms.last() + r).last() == r.last());
        }
    }
    assert(l =~= sl);
}

/// The written line for a value: indentation, key, ` = `, the value as
/// written and any comment.
pub open spec fn value_line(ind: Seq<char>, qk: Seq<char>, w: Seq<char>, inline: Option<Seq<char>>) -> Seq<char> {
    ind + keyword_line(qk, w + tail_of(inline))
}

/// Whether a value is written in triple quotes, after which a comment must
/// also have no white space at its end.
pub open spec fn written_triple(v: ValueModel, list_values: bool) -> bool {
    match v {
        ValueModel::String(s) => list_values && ((s.contains('\'') && s.contains('"')) || s.contains('\n')
            || triple_quote_prefix_spec(s) is Some),
        ValueModel::List(_) => false,
    }
}

/// A `value = ...` line, as written, holds no line break but those of its
/// value, and ends as its comment, or its value, does.
pub(crate) proof fn lemma_value_line_shape(ind: Seq<char>, qk: Seq<char>, k: Seq<char>, w: Seq<char>, inline: Option<Seq<char>>)
    requires
        blank_run(ind),
        key_written_as(qk, k),
        w.len() > 0,
        inline_ok(inline),
    ensures
        value_line(ind, qk, w, inline).contains('\n') == w.contains('\n'),
        value_line(ind, qk, w, inline).last() == match inline {
            Some(t) => if t.len() == 0 { ' ' } else { t.last() },
            None => w.last(),
        },
        !tail_of(inline).contains('\n'),
        qk.len() > 0 && !is_space(qk[0]) && !qk.contains('\n'),
{
    reveal_strlit(" = ");
    reveal_strlit(" # ");
    let tail = tail_of(inline);
    let line = value_line(ind, qk, w, inline);
    lemma_classify_keyword_line(qk, k, Seq::<char>::empty());
    assert(qk[0] != ' ' && !is_space(qk[0])) by {
        if qk == k && crate::laws::bare_key(k) {
        } else {
            assert(is_quote(qk[0]));
        }
    }
    assert(!tail.contains('\n')) by {
        if let Some(t) = inline {
            if tail.contains('\n') {
                let j = choose|j: int| 0 <= j < tail.len() && tail[j] == '\n';
                assert(tail[j] == t[j - 3]);
            }
        }
    }
    let a = ind.len() as int;
    let b = a + qk.len();
    assert(line =~= ind + qk + " = "@ + w + tail);
    if line.contains('\n') {
        let j = choose|j: int| 0 <= j < line.len() && line[j] == '\n';
        if j < a {
            assert(line[j] == ind[j]);
        } else if j < b {
            assert(line[j] == qk[j - a]);
        } else if j < b + 3 {
        } else if j < b + 3 + w.len() {
            assert(line[j] == w[j - b - 3]);
            assert(w.contains('\n'));
        } else {
            assert(line[j] == tail[j - b - 3 - w.len()]);
        }
    }
    if w.contains('\n') {
        let j = choose|j: int| 0 <= j < w.len() && w[j] == '\n';
        assert(line[b + 3 + j] == w[j]);
    }
    match inline {
        None => {
            assert(tail =~= Seq::<char>::empty());
        },
        Some(t) => {
            if t.len() > 0 {
                assert(tail.last() == t.last());
            }
        },
    }
}

/// How the first line of a written value reads, when the value reads
/// through the value rules.
pub(crate) proof fn lemma_value_read_simple(
    lines: Seq<Seq<char>>,
    i: int,
    ind: Seq<char>,
    qk: Seq<char>,
    k: Seq<char>,
    v: ValueModel,
    list_values: bool,
    w: Seq<char>,
    inline: Option<Seq<char>>,
) -> (rest: Seq<char>)
    requires
        blank_run(ind),
        key_written_as(qk, k),
        value_line_reads(w, v, list_values),
        !w.contains('\n'),
        inline_ok(inline),
        0 <= i < lines.len(),
        lines[i] == value_line(ind, qk, w, inline),
    ensures
        pieces(value_line(ind, qk, w, inline)) == seq![value_line(ind, qk, w, inline)],
        classify_spec(lines[i]) == (LineModel::Keyword { indent: ind, key: qk, rest }),
        read_value_spec(rest, lines, i, list_values) == ReadModel::Read(v, inline, i),
        unquote_spec(qk) == k,
{
    let tail = tail_of(inline);
    let line = value_line(ind, qk, w, inline);
    lemma_value_line_shape(ind, qk, k, w, inline);
    let r = w + tail;
    let x = keyword_line(qk, r);
    assert(line == ind + x);
    assert(x[0] == qk[0]);
    lemma_classify_indented(ind, x);
    lemma_classify_keyword_line(qk, k, r);
    assert(r[0] == w[0]);
    lemma_lead_len(r, CharClass::Space, 0);
    assert(r.skip(0) == r);
    lemma_pieces_one(line);
    lemma_read_with_tail(w, v, list_values, inline, lines, i);
    r
}

/// How the line written for the empty value with list values off reads:
/// nothing after `= `, then any comment.
#[verifier::spinoff_prover]
#[verifier::rlimit(60)]
pub(crate) proof fn lemma_value_read_empty(
    lines: Seq<Seq<char>>,
    i: int,
    ind: Seq<char>,
    qk: Seq<char>,
    k: Seq<char>,
    inline: Option<Seq<char>>,
) -> (rest: Seq<char>)
    requires
        blank_run(ind),
        key_written_as(qk, k),
        inline_ok(inline),
        0 <= i,
        i + pieces(value_line(ind, qk, Seq::empty(), inline)).len() <= lines.len(),
        lines.subrange(i, i + pieces(value_line(ind, qk, Seq::empty(), inline)).len())
            == pieces(value_line(ind, qk, Seq::empty(), inline)),
    ensures
        pieces(value_line(ind, qk, Seq::empty(), inline)) == seq![value_line(ind, qk, Seq::empty(), inline)],
        classify_spec(lines[i]) == (LineModel::Keyword { indent: ind, key: qk, rest }),
        read_value_spec(rest, lines, i, false) == ReadModel::Read(ValueModel::String(Seq::empty()), inline, i),
        unquote_spec(qk) == k,
{
    reveal_strlit(" = ");
    reveal_strlit(" # ");
    let e = Seq::<char>::empty();
    let tail = tail_of(inline);
    let line = value_line(ind, qk, e, inline);
    assert(e + tail =~= tail);
    let x = keyword_line(qk, tail);
    assert(line == ind + x);
    lemma_classify_keyword_line(qk, k, tail);
    assert(qk[0] != ' ' && !is_space(qk[0])) by {
        if qk == k && crate::laws::bare_key(k) {
        } else {
            assert(is_quote(qk[0]));
        }
    }
    assert(x[0] == qk[0]);
    lemma_classify_indented(ind, x);
    // The line holds no line break and ends in no carriage return.
    assert(!tail.contains('\n')) by {
        if let Some(t) = inline {
            if tail.contains('\n') {
                let j = choose|j: int| 0 <= j < tail.len() && tail[j] == '\n';
                assert(tail[j] == t[j - 3]);
            }
        }
    }
    let a = ind.len() as int;
    let b = a + qk.len();
    assert(line =~= ind + qk + " = "@ + tail);
    assert(!line.contains('\n')) by {
        if line.contains('\n') {
            let j = choose|j: int| 0 <= j < line.len() && line[j] == '\n';
            if j < a {
                assert(line[j] == ind[j]);
            } else if j < b {
                assert(line[j] == qk[j - a]);
            } else if j < b + 3 {
            } else {
                assert(line[j] == tail[j - b - 3]);
            }
        }
    }
    match inline {
        None => {
            assert(tail =~= e);
            assert(line.last() == ' ');
        },
        Some(t) => {
            if t.len() > 0 {
                assert(line.last() == t.last());
            } else {
                assert(line.last() == ' ');
            }
        },
    }
    lemma_pieces_one(line);
    assert(lines[i] == line) by {
        assert(lines.subrange(i, i + 1)[0] == lines[i]);
    }
    let r = trim_start(tail);
    match inline {
        None => {
            lemma_lead_len(e, CharClass::Space, 0);
            assert(e.skip(0) =~= e);
            assert(r == e);
            assert(scan(e, 0) == scan(e, e.len() as int));
            lemma_no_comment(e);
            crate::text::lemma_trail_len(e, CharClass::Space, 0);
            assert(e.take(0) =~= e);
            assert(trim(e) == e);
        },
        Some(t) => {
            let h = seq!['#'] + seq![' '] + t;
            assert(tail =~= seq![' '] + h);
            lemma_trim_start_space(h);
            lemma_lead_len(h, CharClass::Space, 0);
            assert(h.skip(0) =~= h);
            assert(r == h);
            assert(is_comment_start(h, 0));
            assert(is_first_comment_start(h, 0));
            assert forall|j: int| is_first_comment_start(h, j) implies j == 0 by {
                if j > 0 {
                    assert(!is_comment_start(h, 0));
                }
            }
            assert(h.take(0) =~= e);
            assert(h.skip(1) =~= seq![' '] + t);
            lemma_trim_start_space(t);
            if t.len() > 0 {
                lemma_lead_len(t, CharClass::Space, 0);
            } else {
                lemma_lead_len(t, CharClass::Space, 0);
            }
            assert(t.skip(0) =~= t);
            assert(trim_start(t) == t);
            assert(split_comment_spec(h) == Some((e, Some(t))));
            crate::text::lemma_trail_len(e, CharClass::Space, 0);
            assert(e.take(0) =~= e);
            assert(trim(e) == e);
            assert(triple_quote_prefix_spec(h) is None);
        },
    }
    r
}

/// How a written value in triple quotes on one line reads.
#[verifier::rlimit(40)]
pub(crate) proof fn lemma_value_read_triple_one(
    lines: Seq<Seq<char>>,
    i: int,
    ind: Seq<char>,
    qk: Seq<char>,
    k: Seq<char>,
    s: Seq<char>,
    q: char,
    inline: Option<Seq<char>>,
) -> (rest: Seq<char>)
    requires
        blank_run(ind),
        key_written_as(qk, k),
        is_quote(q),
        triple_fits(s, q),
        !s.contains('\n'),
        inline_strict(inline),
        0 <= i < lines.len(),
        lines[i] == value_line(ind, qk, seq![q, q, q] + s + seq![q, q, q], inline),
    ensures
        pieces(value_line(ind, qk, seq![q, q, q] + s + seq![q, q, q], inline)) == seq![value_line(ind, qk, seq![q, q, q] + s + seq![q, q, q], inline)],
        classify_spec(lines[i]) == (LineModel::Keyword { indent: ind, key: qk, rest }),
        read_value_spec(rest, lines, i, true) == ReadModel::Read(ValueModel::String(s), inline, i),
        unquote_spec(qk) == k,
{
    let qq = seq![q, q, q];
    let w = qq + s + qq;
    let tail = tail_of(inline);
    let line = value_line(ind, qk, w, inline);
    assert(!w.contains('\n')) by {
        if w.contains('\n') {
            let j = choose|j: int| 0 <= j < w.len() && w[j] == '\n';
            if 3 <= j < 3 + s.len() {
                assert(w[j] == s[j - 3]);
            }
        }
    }
    lemma_value_line_shape(ind, qk, k, w, inline);
    let r = w + tail;
    let x = keyword_line(qk, r);
    assert(line == ind + x);
    assert(x[0] == qk[0]);
    lemma_classify_indented(ind, x);
    lemma_classify_keyword_line(qk, k, r);
    assert(r[0] == q);
    lemma_lead_len(r, CharClass::Space, 0);
    assert(r.skip(0) == r);
    lemma_pieces_one(line);
    lemma_find_closing_triple_tail(s, q, tail);
    lemma_tail_comment(inline);
    assert(triple_quote_prefix_spec(r) == Some(q));
    assert(r.skip(3) =~= s + qq + tail);
    assert((s + qq + tail).skip(s.len() + 3int) =~= tail);
    assert((s + qq + tail).take(s.len() as int) =~= s);
    r
}

/// How a written value in triple quotes spanning lines reads: it takes up
/// one line more than it has line breaks.
#[verifier::spinoff_prover]
#[verifier::rlimit(80)]
pub(crate) proof fn lemma_value_read_triple_many(
    lines: Seq<Seq<char>>,
    i: int,
    ind: Seq<char>,
    qk: Seq<char>,
    k: Seq<char>,
    s: Seq<char>,
    q: char,
    inline: Option<Seq<char>>,
) -> (rest: Seq<char>)
    requires
        blank_run(ind),
        key_written_as(qk, k),
        is_quote(q),
        triple_fits(s, q),
        s.contains('\n'),
        no_crlf(s),
        inline_strict(inline),
        0 <= i,
        i + pieces(value_line(ind, qk, seq![q, q, q] + s + seq![q, q, q], inline)).len() <= lines.len(),
        lines.subrange(i, i + pieces(value_line(ind, qk, seq![q, q, q] + s + seq![q, q, q], inline)).len()) == pieces(value_line(ind, qk, seq![q, q, q] + s + seq![q, q, q], inline)),
    ensures
        pieces(value_line(ind, qk, seq![q, q, q] + s + seq![q, q, q], inline)).len() >= 2,
        classify_spec(lines[i]) == (LineModel::Keyword { indent: ind, key: qk, rest }),
        read_value_spec(rest, lines, i, true) == ReadModel::Read(
            ValueModel::String(s),
            inline,
            i + pieces(value_line(ind, qk, seq![q, q, q] + s + seq![q, q, q], inline)).len() - 1,
        ),
        unquote_spec(qk) == k,
{
    reveal_strlit(" = ");
    let qq = seq![q, q, q];
    let w = qq + s + qq;
    let tail = tail_of(inline);
    let line = value_line(ind, qk, w, inline);
    let n = pieces(line).len() as int;
    lemma_value_line_shape(ind, qk, k, w, inline);
    let p = ind + qk + " = "@ + qq;
    let rr = qq + tail;
    assert(line =~= p + s + rr);
    assert(!p.contains('\n')) by {
        if p.contains('\n') {
            let j = choose|j: int| 0 <= j < p.len() && p[j] == '\n';
            let a = ind.len() as int;
            if j < a {
                assert(p[j] == ind[j]);
            } else if j < a + qk.len() {
                assert(p[j] == qk[j - a]);
            }
        }
    }
    assert(!rr.contains('\n')) by {
        if rr.contains('\n') {
            let j = choose|j: int| 0 <= j < rr.len() && rr[j] == '\n';
            if j >= 3 {
                assert(rr[j] == tail[j - 3]);
            }
        }
    }
    assert(p.last() == q);
    assert(rr.last() == line.last());
    lemma_pieces_multiline(p, s, rr);
    let ms = split_newlines(s);
    let m = ms.len() - 1;
    lemma_split_facts(s);
    lemma_split_no_triple(s, q);
    assert forall|j: int| 0 <= j < n implies lines[i + j] == pieces(line)[j] by {
        assert(lines.subrange(i, i + n)[j] == lines[i + j]);
    }
    let first = qq + ms[0];
    let x = keyword_line(qk, first);
    assert(lines[i] == ind + x);
    assert(x[0] == qk[0]);
    lemma_classify_indented(ind, x);
    lemma_classify_keyword_line(qk, k, first);
    lemma_lead_len(first, CharClass::Space, 0);
    assert(first.skip(0) == first);
    assert(triple_quote_prefix_spec(first) == Some(q));
    assert(first.skip(3) =~= ms[0]);
    assert(find_triple(ms[0], q) is None) by {
        assert(!has_triple(ms[0], q));
        if exists|j: int| is_first_triple(ms[0], q, j) {
            let j = choose|j: int| is_first_triple(ms[0], q, j);
            assert(triple_at(ms[0], q, j));
        }
    }
    assert(ms.last().len() > 0 ==> ms.last().last() != q) by {
        if ms.last().len() > 0 {
            assert(ms.last().last() == s.skip(s.len() - ms.last().len()).last());
        }
    }
    assert(lines[i + m] == ms.last() + qq + tail) by {
        assert(pieces(line).last() == pieces(line)[m]);
        assert(ms.last() + rr =~= ms.last() + qq + tail);
    }
    lemma_multiline_read_at(q, ms, lines, i, 0, ms[0], inline);
    assert(ms =~= seq![ms[0]] + ms.skip(1));
    lemma_join_front(ms[0], ms.skip(1));
    lemma_join_split(s);
    assert(read_multiline_spec(q, first, lines, i) == Some((s, inline, i + m)));
    first
}

/// Reading a `key = value` line whose value reads: the value goes into the
/// section entries go to, with the comments waiting above it and its own
/// comment, and reading goes on after its last line.
#[verifier::rlimit(40)]
pub(crate) proof fn lemma_keyword_step(
    st: PState,
    lines: Seq<Seq<char>>,
    i: int,
    ind: Seq<char>,
    qk: Seq<char>,
    k: Seq<char>,
    rest: Seq<char>,
    v: ValueModel,
    list_values: bool,
    inline: Option<Seq<char>>,
    last: int,
)
    requires
        0 <= i < lines.len(),
        classify_spec(lines[i]) == (LineModel::Keyword { indent: ind, key: qk, rest }),
        unquote_spec(qk) == k,
        read_value_spec(rest, lines, i, list_values) == ReadModel::Read(v, inline, last),
        !has_key(current(st), k),
    ensures
        step(st, lines, i, list_values) == ({
            let s1 = note_indent(begin(st), ind);
            let s2 = PState { pending: Seq::empty(), ..s1 };
            (
                with_current(
                    s2,
                    parsed_insert(
                        current(s2),
                        k,
                        ItemModel::Scalar(v),
                        CommentsModel { above: s1.pending, inline },
                    ),
                ),
                last + 1,
            )
        }),
{
    let s1 = note_indent(begin(st), ind);
    let s2 = PState { pending: Seq::empty(), ..s1 };
    assert(current(s2) == current(st));
}

/// Reading the lines of a written value: the value goes into the section
/// entries go to, with the comments waiting above it and its own comment,
/// and reading goes on after its last line.
pub(crate) proof fn lemma_value_step(
    st: PState,
    lines: Seq<Seq<char>>,
    i: int,
    ind: Seq<char>,
    qk: Seq<char>,
    k: Seq<char>,
    v: ValueModel,
    list_values: bool,
    w: Seq<char>,
    inline: Option<Seq<char>>,
)
    requires
        blank_run(ind),
        key_written_as(qk, k),
        survives_writing(v, list_values) || (!list_values && v == ValueModel::String(Seq::empty())),
        quote_value_spec(v, list_values) == Ok::<Seq<char>, Seq<char>>(w),
        inline_ok(inline),
        written_triple(v, list_values) ==> inline_strict(inline),
        0 <= i,
        i + pieces(value_line(ind, qk, w, inline)).len() <= lines.len(),
        lines.subrange(i, i + pieces(value_line(ind, qk, w, inline)).len()) == pieces(value_line(ind, qk, w, inline)),
        !has_key(current(st), k),
    ensures
        pieces(value_line(ind, qk, w, inline)).len() >= 1,
        step(st, lines, i, list_values) == ({
            let s1 = note_indent(begin(st), ind);
            let s2 = PState { pending: Seq::empty(), ..s1 };
            (
                with_current(
                    s2,
                    parsed_insert(
                        current(s2),
                        k,
                        ItemModel::Scalar(v),
                        CommentsModel { above: s1.pending, inline },
                    ),
                ),
                i + pieces(value_line(ind, qk, w, inline)).len(),
            )
        }),
{
    let line = value_line(ind, qk, w, inline);
    let n = pieces(line).len() as int;
    if !list_values && v == ValueModel::String(Seq::empty()) {
        assert(w == Seq::<char>::empty());
        let rest = lemma_value_read_empty(lines, i, ind, qk, k, inline);
        lemma_keyword_step(st, lines, i, ind, qk, k, rest, v, list_values, inline, i);
        return;
    }
    let triple = lemma_written_value(v, list_values, w);
    match triple {
        None => {
            lemma_value_line_shape(ind, qk, k, w, inline);
            lemma_pieces_one(line);
            assert(lines.subrange(i, i + n)[0] == lines[i]);
            let rest = lemma_value_read_simple(lines, i, ind, qk, k, v, list_values, w, inline);
            lemma_keyword_step(st, lines, i, ind, qk, k, rest, v, list_values, inline, i);
        },
        Some(q) => {
            let s = match v {
                ValueModel::String(s) => s,
                _ => Seq::empty(),
            };
            if !s.contains('\n') {
                assert(!w.contains('\n')) by {
                    if w.contains('\n') {
                        let j = choose|j: int| 0 <= j < w.len() && w[j] == '\n';
                        if 3 <= j < 3 + s.len() {
                            assert(w[j] == s[j - 3]);
                        }
                    }
                }
                lemma_value_line_shape(ind, qk, k, w, inline);
                lemma_pieces_one(line);
                assert(lines.subrange(i, i + n)[0] == lines[i]);
                let rest = lemma_value_read_triple_one(lines, i, ind, qk, k, s, q, inline);
                lemma_keyword_step(st, lines, i, ind, qk, k, rest, v, list_values, inline, i);
            } else {
                let rest = lemma_value_read_triple_many(lines, i, ind, qk, k, s, q, inline);
                lemma_keyword_step(st, lines, i, ind, qk, k, rest, v, list_values, inline, i + n - 1);
            }
        },
    }
}
// ---------------------------------------------------------------------------
// Section headers.
// ---------------------------------------------------------------------------

/// `d` copies of `c`.
pub open spec fn brackets(c: char, d: nat) -> Seq<char> {
    Seq::new(d, |_i: int| c)
}

/// A section name written as it is that the reader reads as it is: not
/// empty, with no white space at its ends, no bracket or line break
/// anywhere, and no quote in front.
pub open spec fn bare_name(n: Seq<char>) -> bool {
    &&& n.len() > 0
    &&& !is_space(n[0])
    &&& !is_space(n.last())
    &&& !is_quote(n[0])
    &&& !n.contains('[')
    &&& !n.contains(']')
    &&& !n.contains('\n')
}

/// The section name `n`, written as `qn`, reads back as `n`.
pub open spec fn name_written_as(qn: Seq<char>, n: Seq<char>) -> bool {
    (qn == n && bare_name(n)) || quoted_key(qn, n)
}

/// A comment after a section header that reads back as itself: as after a
/// triple-quoted value, and with no closing bracket in it.
pub open spec fn header_comment_ok(inline: Option<Seq<char>>) -> bool {
    &&& inline_strict(inline)
    &&& (inline matches Some(t) ==> !t.contains(']'))
}

/// The written header of a section at depth `d`.
pub open spec fn header_line(ind: Seq<char>, d: nat, qn: Seq<char>, inline: Option<Seq<char>>) -> Seq<char> {
    ind + brackets('[', d) + qn + brackets(']', d) + tail_of(inline)
}

/// A section name the writer leaves bare reads back as itself unless, with
/// list values off, it begins with a quote: the writer leaves it as it is,
/// and reading strips the quotes as it would from a quoted name.
pub open spec fn bare_name_reads(n: Seq<char>, list_values: bool) -> bool {
    quote_section_name_spec(n, list_values) == Ok::<Seq<char>, Seq<char>>(n) && n.len() > 0
        ==> (list_values || !is_quote(n[0]))
}

/// A section name the writer writes is written in a form that reads back
/// as the name.
pub(crate) proof fn lemma_name_quoting(n: Seq<char>, list_values: bool, qn: Seq<char>)
    requires
        quote_section_name_spec(n, list_values) == Ok::<Seq<char>, Seq<char>>(qn),
        bare_name_reads(n, list_values),
    ensures
        name_written_as(qn, n),
{
    if n.len() == 0 {
        assert(qn == seq!['"', '"']);
        assert(qn =~= seq!['"'] + n + seq!['"']);
    } else {
        let q0 = quote_spec(n, false, list_values)->Ok_0;
        assert(quote_spec(n, false, list_values) == Ok::<Seq<char>, Seq<char>>(q0));
        assert(!n.contains('\n'));
        if q0 == n && (n.contains('[') || n.contains(']')) {
            lemma_single_quoted_key(n, qn);
        } else if q0 == n {
            assert(qn == n);
            if list_values {
                if triple_quote_prefix_spec(n) is Some {
                    assert(single_quote_spec(n) == Ok::<Seq<char>, Seq<char>>(q0));
                }
                assert(!is_awkward(n[0]) && !is_awkward(n.last()));
            } else {
                lemma_verbatim(n, seq![Seq::<char>::empty()]);
            }
        } else {
            assert(list_values);
            assert(single_quote_spec(n) == Ok::<Seq<char>, Seq<char>>(q0));
            lemma_single_quoted_key(n, q0);
            assert(qn == q0);
        }
    }
}

/// Copies of a character number as many as there are.
proof fn lemma_count_brackets(c: char, d: nat)
    ensures
        count_char(brackets(c, d), c) == d,
    decreases d,
{
    if d > 0 {
        lemma_count_brackets(c, (d - 1) as nat);
        assert(brackets(c, d).drop_last() =~= brackets(c, (d - 1) as nat));
    } else {
        assert(brackets(c, 0) =~= Seq::<char>::empty());
    }
}

/// The last `c` in `s` is found where it is.
proof fn lemma_rfind_char_at(s: Seq<char>, c: char, i: int)
    requires
        is_last(s, c, i),
    ensures
        rfind_char(s, c) == Some(i),
{
    assert forall|j: int| is_last(s, c, j) implies j == i by {
        if j < i {
            assert(s[i] == c);
        } else if j > i {
            assert(s[j] == c);
        }
    }
}

/// A section header as written reads as the section, at its depth, with its
/// name and comment.
#[verifier::spinoff_prover]
#[verifier::rlimit(100)]
pub(crate) proof fn lemma_classify_header(ind: Seq<char>, d: nat, qn: Seq<char>, n: Seq<char>, inline: Option<Seq<char>>)
    requires
        blank_run(ind),
        d >= 1,
        name_written_as(qn, n),
        header_comment_ok(inline),
    ensures
        classify_spec(header_line(ind, d, qn, inline)) == (LineModel::Section {
            indent: ind,
            depth: d,
            name: qn,
            comment: inline,
        }),
        unquote_spec(qn) == n,
        !header_line(ind, d, qn, inline).contains('\n'),
        header_line(ind, d, qn, inline).last() != '\r',
{
    reveal_strlit(" # ");
    let op = brackets('[', d);
    let cl = brackets(']', d);
    let tail = tail_of(inline);
    let x = op + qn + cl + tail;
    assert(header_line(ind, d, qn, inline) == ind + x);
    let dq = qn.len() as int;
    // What the name looks like at its ends.
    assert(qn.len() > 0 && !in_class(qn[0], CharClass::Open) && !in_class(qn.last(), CharClass::Close) && !is_space(qn[0]) && !is_space(qn.last()) && !qn.contains('\n')) by {
        if qn == n && bare_name(n) {
            assert(n.contains(n[0]));
            assert(n.contains(n[n.len() - 1]));
        } else {
            assert(qn[0] == qn.last());
            assert(!qn.contains('\n')) by {
                if qn.contains('\n') {
                    let j = choose|j: int| 0 <= j < qn.len() && qn[j] == '\n';
                    assert(qn[j] == n[j - 1]);
                }
            }
        }
    }
    assert(!tail.contains(']') && !tail.contains('\n')) by {
        if let Some(t) = inline {
            if tail.contains(']') || tail.contains('\n') {
                let j = choose|j: int| 0 <= j < tail.len() && (tail[j] == ']' || tail[j] == '\n');
                assert(tail[j] == t[j - 3]);
            }
        }
    }
    assert(x[0] == '[');
    lemma_classify_indented(ind, x);
    // The opening brackets.
    lemma_lead_len(x, CharClass::Space, 0);
    assert(x.skip(0) == x);
    assert(x.take(0) =~= Seq::<char>::empty());
    lemma_lead_len(x, CharClass::Open, d as int);
    assert(x.take(d as int) =~= op);
    lemma_count_brackets('[', d);
    let body = x.skip(d as int);
    assert(body =~= qn + cl + tail);
    // The last closing bracket is the last of the header's.
    let lc = dq + d - 1;
    assert(is_last(body, ']', lc)) by {
        assert forall|j: int| lc < j < body.len() implies body[j] != ']' by {
            assert(body[j] == tail[j - dq - d]);
        }
    }
    lemma_rfind_char_at(body, ']', lc);
    assert(body.skip(lc + 1) =~= tail);
    lemma_tail_comment(inline);
    let b0 = body.take(lc + 1);
    assert(b0 =~= qn + cl);
    lemma_trail_len(b0, CharClass::Space, 0);
    assert(b0.take(b0.len() as int) == b0);
    assert(trim_end(b0) == b0);
    lemma_trail_len(b0, CharClass::Close, d as int);
    assert(b0.take(b0.len() - d) =~= qn);
    assert(b0.skip(b0.len() - d) =~= cl);
    lemma_count_brackets(']', d);
    lemma_trim_plain(qn);
    // Not blank, and not a comment.
    crate::text::lemma_trail_len_facts(x, CharClass::Space);
    assert(trail_len(x, CharClass::Space) < x.len()) by {
        if trail_len(x, CharClass::Space) == x.len() {
            assert(in_class(x[0], CharClass::Space));
        }
    }
    assert(trim(x) == x.take(x.len() - trail_len(x, CharClass::Space)));
    assert(trim(x)[0] == '[');
    assert(match_section_spec(x) == Some(LineModel::Section { indent: Seq::empty(), depth: d, name: qn, comment: inline }));
    if qn == n && bare_name(n) {
        assert(unquote_spec(qn) == n);
    } else {
        assert(qn.subrange(1, qn.len() - 1) == n);
    }
    let line = ind + x;
    assert(!line.contains('\n')) by {
        if line.contains('\n') {
            let j = choose|j: int| 0 <= j < line.len() && line[j] == '\n';
            let a = ind.len() as int;
            if j < a {
                assert(line[j] == ind[j]);
            } else if j < a + d {
            } else if j < a + d + dq {
                assert(line[j] == qn[j - a - d]);
            } else if j < a + d + dq + d {
            } else {
                assert(line[j] == tail[j - a - d - dq - d]);
            }
        }
    }
    match inline {
        None => {
            assert(tail =~= Seq::<char>::empty());
            assert(line.last() == ']');
        },
        Some(t) => {
            assert(line.last() == tail.last());
            if t.len() > 0 {
                assert(tail.last() == t.last());
            }
        },
    }
}

/// Reading a section header: the sections open past its depth are closed,
/// and the new section opens, empty, with the comments waiting above it and
/// its own comment.
#[verifier::rlimit(40)]
pub(crate) proof fn lemma_header_step(
    st: PState,
    lines: Seq<Seq<char>>,
    i: int,
    ind: Seq<char>,
    d: nat,
    qn: Seq<char>,
    n: Seq<char>,
    inline: Option<Seq<char>>,
)
    requires
        0 <= i < lines.len(),
        classify_spec(lines[i]) == (LineModel::Section { indent: ind, depth: d, name: qn, comment: inline }),
        unquote_spec(qn) == n,
        1 <= d <= st.open.len() + 1,
        !has_key(current(close_to(PState { pending: Seq::empty(), ..note_indent(begin(st), ind) }, (d - 1) as nat)), n),
    ensures
        step(st, lines, i, true) == step(st, lines, i, false),
        step(st, lines, i, true) == ({
            let s1 = note_indent(begin(st), ind);
            let s2 = PState { pending: Seq::empty(), ..s1 };
            let s3 = close_to(s2, (d - 1) as nat);
            (
                PState {
                    open: s3.open.push(OpenModel { name: n, section: Seq::empty(), comments: CommentsModel { above: s1.pending, inline } }),
                    ..s3
                },
                i + 1,
            )
        }),
{
}

// ---------------------------------------------------------------------------
// Reading runs of lines.
// ---------------------------------------------------------------------------

/// Read lines from `i` on until the index reaches `j`, or the lines run
/// out: the state then, and the index reached.
pub open spec fn steps(st: PState, lines: Seq<Seq<char>>, i: int, j: int, list_values: bool) -> (PState, int)
    decreases lines.len() - i,
{
    if 0 <= i < lines.len() && i < j {
        let (s, next) = step(st, lines, i, list_values);
        proof {
            lemma_step_advances(st, lines, i, list_values);
        }
        steps(s, lines, next, j, list_values)
    } else {
        (st, i)
    }
}

/// Reading a file goes on from wherever a run of lines left off.
pub(crate) proof fn lemma_run_steps(st: PState, lines: Seq<Seq<char>>, i: int, j: int, list_values: bool)
    requires
        0 <= i,
    ensures
        run(st, lines, i, list_values) == run(steps(st, lines, i, j, list_values).0, lines, steps(st, lines, i, j, list_values).1, list_values),
    decreases lines.len() - i,
{
    if 0 <= i < lines.len() && i < j {
        let (s, next) = step(st, lines, i, list_values);
        lemma_step_advances(st, lines, i, list_values);
        lemma_run_steps(s, lines, next, j, list_values);
    }
}

/// A run that reaches `j` exactly can be continued to a later `k`.
pub(crate) proof fn lemma_steps_concat(st: PState, lines: Seq<Seq<char>>, i: int, j: int, k: int, list_values: bool)
    requires
        0 <= i <= j <= k <= lines.len(),
        steps(st, lines, i, j, list_values).1 == j,
    ensures
        steps(st, lines, i, k, list_values) == steps(steps(st, lines, i, j, list_values).0, lines, j, k, list_values),
    decreases lines.len() - i,
{
    if i < j {
        let (s, next) = step(st, lines, i, list_values);
        lemma_step_advances(st, lines, i, list_values);
        assert(steps(st, lines, i, j, list_values) == steps(s, lines, next, j, list_values));
        assert(next <= j) by {
            if next > j {
                assert(steps(s, lines, next, j, list_values) == (s, next));
            }
        }
        lemma_steps_concat(s, lines, next, j, k, list_values);
    }
}

/// Closing sections touches nothing but the open sections and the root.
pub(crate) proof fn lemma_close_to_fields(st: PState, d: nat, t: PState)
    requires
        t.open == st.open,
        t.root == st.root,
    ensures
        close_to(t, d) == (PState { open: close_to(st, d).open, root: close_to(st, d).root, ..t }),
    decreases st.open.len(),
{
    if st.open.len() > d {
        let a = close_last(st);
        let b = close_last(t);
        assert(b == PState { open: a.open, root: a.root, ..t });
        lemma_close_to_fields(a, d, b);
    }
}

/// Closing down to one depth and then to a shallower one is closing down to
/// the shallower one.
pub(crate) proof fn lemma_close_to_close(st: PState, d1: nat, d2: nat)
    requires
        d1 <= d2,
    ensures
        close_to(close_to(st, d2), d1) == close_to(st, d1),
        close_to(st, d2).open.len() == if st.open.len() > d2 { d2 } else { st.open.len() },
    decreases st.open.len(),
{
    if st.open.len() > d2 {
        lemma_close_to_close(close_last(st), d1, d2);
    } else if st.open.len() > d1 {
    }
}

/// Reading blank and comment lines as written adds their text to the
/// comments waiting for the next entry.
pub(crate) proof fn lemma_comment_steps(st: PState, lines: Seq<Seq<char>>, i: int, ind: Seq<char>, above: Seq<Seq<char>>, list_values: bool)
    requires
        blank_run(ind),
        forall|j: int| 0 <= j < above.len() ==> comment_ok(#[trigger] above[j]),
        0 <= i,
        i + above.len() <= lines.len(),
        forall|j: int| 0 <= j < above.len() ==> lines[i + j] == crate::write::indented_comment(ind, #[trigger] above[j]),
    ensures
        steps(st, lines, i, i + above.len(), list_values) == ((PState { pending: st.pending + above, ..st }), i + above.len()),
    decreases above.len(),
{
    if above.len() == 0 {
        assert(st.pending + above =~= st.pending);
        assert(PState { pending: st.pending + above, ..st } == st);
    } else {
        let t = above[0];
        reveal_strlit("# ");
        lemma_comment_line(ind, t);
        if t.len() == 0 {
            assert(crate::write::comment_line_spec(t).len() == 0);
            assert(lines[i] == Seq::<char>::empty());
        } else {
            assert(crate::write::comment_line_spec(t) == "# "@ + t);
            assert(lines[i] == ind + "# "@ + t);
        }
        let s = PState { pending: st.pending.push(t), ..st };
        assert(step(st, lines, i, list_values) == (s, i + 1));
        let rest = above.drop_first();
        assert forall|j: int| 0 <= j < rest.len() implies lines[(i + 1) + j] == crate::write::indented_comment(ind, #[trigger] rest[j]) by {
            assert(rest[j] == above[j + 1]);
        }
        assert forall|j: int| 0 <= j < rest.len() implies comment_ok(#[trigger] rest[j]) by {
            assert(rest[j] == above[j + 1]);
        }
        lemma_comment_steps(s, lines, i + 1, ind, rest, list_values);
        assert(s.pending + rest =~= st.pending + above);
    }
}

/// A comment line that reads back as itself: no line break, and no carriage
/// return at its end.
pub open spec fn comment_ok(t: Seq<char>) -> bool {
    &&& !t.contains('\n')
    &&& (t.len() > 0 ==> t.last() != '\r')
}

// ---------------------------------------------------------------------------
// Entries as written.
// ---------------------------------------------------------------------------

/// The comment on an entry's own line, if it has one.
pub open spec fn inline_of(c: Option<CommentsModel>) -> Option<Seq<char>> {
    match c {
        Some(cm) => cm.inline,
        None => None,
    }
}

/// The comment lines above an entry.
pub open spec fn above_of(c: Option<CommentsModel>) -> Seq<Seq<char>> {
    match c {
        Some(cm) => cm.above,
        None => Seq::empty(),
    }
}

/// Comments that read back as they are: none at all, or some text, each
/// line of which reads back as itself.
pub open spec fn comments_ok(c: Option<CommentsModel>) -> bool {
    match c {
        None => true,
        Some(cm) => (cm.above.len() > 0 || cm.inline is Some) && forall|j: int|
            0 <= j < cm.above.len() ==> comment_ok(#[trigger] cm.above[j]),
    }
}

/// The values come before the subsections, the order they are written in.
pub open spec fn scalars_first(m: SectionModel) -> bool {
    forall|i: int, j: int| 0 <= i < j < m.len() && m[i].item is Section ==> m[j].item is Section
}

/// An entry whose comments read back as the writer writes them, subsections
/// and all, once their entries are in the order they are written in: the
/// comments hold no line break, a comment beside an entry has no white space
/// in front (nor, after a triple-quoted value or a header, at its end) and
/// no carriage return at its end, a header's holds no `]`, and comments
/// attached are not empty. Each value the writer does not refuse reads back
/// as itself, and so does each key and name, but those it leaves bare
/// though they begin with `[` or a quote (see `bare_key_reads` and
/// `bare_name_reads`).
pub open spec fn entry_reads_back(e: EntryModel, list_values: bool) -> bool
    decreases e, 0int,
{
    &&& comments_ok(e.comments)
    &&& match e.item {
        ItemModel::Scalar(v) => {
            &&& crate::laws::bare_key_reads(e.key, list_values)
            &&& inline_ok(inline_of(e.comments))
            &&& written_triple(v, list_values) ==> inline_strict(inline_of(e.comments))
        },
        ItemModel::Section(s) => {
            &&& bare_name_reads(e.key, list_values)
            &&& header_comment_ok(inline_of(e.comments))
            &&& distinct_keys(s)
            &&& entries_read_back(s, s.len() as int, list_values)
        },
    }
}

/// The first `n` entries of a section read back as the writer writes them.
pub open spec fn entries_read_back(m: SectionModel, n: int, list_values: bool) -> bool
    decreases m, n,
{
    if n <= 0 || n > m.len() {
        true
    } else {
        entries_read_back(m, n - 1, list_values) && entry_reads_back(m[n - 1], list_values)
    }
}

/// Every one of the first `n` entries reads back.
pub(crate) proof fn lemma_entries_read_back(m: SectionModel, n: int, list_values: bool, j: int)
    requires
        0 <= j < n <= m.len(),
        entries_read_back(m, n, list_values),
    ensures
        entry_reads_back(m[j], list_values),
    decreases n,
{
    if j < n - 1 {
        lemma_entries_read_back(m, n - 1, list_values, j);
    }
}

/// Storing an entry read with the comments it was written with gives the
/// entry back, when its key is new.
pub(crate) proof fn lemma_parsed_entry(cur: SectionModel, e: EntryModel)
    requires
        !has_key(cur, e.key),
        comments_ok(e.comments),
    ensures
        parsed_insert(cur, e.key, e.item, CommentsModel { above: above_of(e.comments), inline: inline_of(e.comments) }) == cur.push(e),
{
    lemma_key_index_some(cur, e.key);
    let m2 = with_item(cur, e.key, e.item);
    assert(m2 == cur.push(EntryModel { key: e.key, item: e.item, comments: None }));
    match e.comments {
        None => {},
        Some(cm) => {
            assert(is_key_at(m2, e.key, cur.len() as int)) by {
                assert forall|j: int| 0 <= j < cur.len() implies m2[j].key != e.key by {
                    assert(m2[j] == cur[j]);
                }
            }
            lemma_key_index(m2, e.key, cur.len() as int);
            assert(m2.update(cur.len() as int, EntryModel { comments: Some(cm), ..m2[cur.len() as int] }) =~= cur.push(e));
        },
    }
}

/// Written lines that hold no line break and end in no carriage return are
/// seen as they are.
pub(crate) proof fn lemma_read_lines_plain(ws: Seq<Seq<char>>)
    requires
        forall|j: int| 0 <= j < ws.len() ==> comment_ok(#[trigger] ws[j]),
    ensures
        read_lines(ws) == ws,
    decreases ws.len(),
{
    if ws.len() > 0 {
        let w0 = ws.drop_last();
        assert forall|j: int| 0 <= j < w0.len() implies comment_ok(#[trigger] w0[j]) by {
            assert(w0[j] == ws[j]);
        }
        lemma_read_lines_plain(w0);
        assert(comment_ok(ws[ws.len() - 1]));
        lemma_pieces_one(ws.last());
        assert(w0 + seq![ws.last()] =~= ws);
    }
}

/// The comment lines written above an entry are seen as they are, and each
/// is the written form of one line of the comment.
pub(crate) proof fn lemma_comment_lines(c: Option<CommentsModel>, ind: Seq<char>)
    requires
        comments_ok(c),
        blank_run(ind),
    ensures
        read_lines(comment_lines(c, ind)) == comment_lines(c, ind),
        comment_lines(c, ind).len() == above_of(c).len(),
        forall|j: int| 0 <= j < above_of(c).len() ==> comment_lines(c, ind)[j] == indented_comment(ind, #[trigger] above_of(c)[j]),
{
    reveal_strlit("# ");
    let ls = comment_lines(c, ind);
    assert forall|j: int| 0 <= j < ls.len() implies comment_ok(#[trigger] ls[j]) by {
        let t = above_of(c)[j];
        assert(comment_ok(t));
        if t.len() > 0 {
            let l = ind + "# "@ + t;
            assert(ls[j] == l);
            if l.contains('\n') {
                let k = choose|k: int| 0 <= k < l.len() && l[k] == '\n';
                if k < ind.len() {
                    assert(l[k] == ind[k]);
                } else if k >= ind.len() + 2 {
                    assert(l[k] == t[k - ind.len() - 2]);
                }
            }
            assert(l.last() == t.last());
        } else {
            assert(ls[j] =~= Seq::<char>::empty());
        }
    }
    lemma_read_lines_plain(ls);
}

} // verus!
