//! Reading back a whole written config: sections nested to any depth, with
//! their values, comments and indentation.

use vstd::prelude::*;
use crate::reader::{with_error, ParsedModel, close_last, close_to, OpenModel, PState, step, note_indent, begin, current, with_current, parsed_insert, lemma_step_advances, run, start_state, parse_spec};
use crate::section::{with_item, with_comments, ItemModel, CommentsModel, has_key, SectionModel, EntryModel, distinct_keys};
use crate::write::{scalar_lines, section_lines, scalar_entry_lines, section_entry_lines, write_section_spec, lemma_scalar_lines_err, lemma_section_lines_err, comment_lines, inline_text, quote_key_spec, quote_value_spec, quote_section_name_spec, comment_line_spec, indented_comment};
use crate::rewrite::{read_lines, pieces, value_line, tail_of, inline_of, above_of, comments_ok, blank_run, lemma_comment_steps, lemma_value_step, lemma_comment_lines, lemma_read_lines_concat, lemma_parsed_entry, brackets, header_line, lemma_name_quoting, lemma_classify_header, lemma_header_step, lemma_pieces_one, comment_ok, lemma_run_steps, lemma_split_join, lemma_comment_line, steps, lemma_steps_concat, lemma_close_to_close, lemma_close_to_fields, scalars_first, entry_reads_back, entries_read_back, lemma_entries_read_back};
use crate::laws::{lemma_written_survives, lemma_key_quoting, lemma_key_start, text_bytes, law_bytes_read_as_text};
use crate::text::is_space;
use crate::parse::{classify_spec, unquote_spec, strip_comment_marker_spec, LineModel, read_value_spec, ReadModel};
use crate::error::{ErrorKind, ErrorModel};
use crate::config::{ConfigModel, render, config_of, split_lines_spec, join_lines, decode_spec};
use crate::value::ValueModel;

verus! {

// ---------------------------------------------------------------------------
// The lines of a section, entry by entry.
// ---------------------------------------------------------------------------

/// The lines for the first `n` entries of a section: the values among them,
/// then the subsections.
pub open spec fn body_lines(
    m: SectionModel,
    n: int,
    ind: Seq<char>,
    open: Seq<char>,
    close: Seq<char>,
    indent: Seq<char>,
    list_values: bool,
) -> Result<Seq<Seq<char>>, Seq<char>> {
    match scalar_lines(m, n, ind, list_values) {
        Err(e) => Err(e),
        Ok(a) => match section_lines(m, n, ind, open, close, indent, list_values) {
            Err(e) => Err(e),
            Ok(b) => Ok(a + b),
        },
    }
}

/// The lines written for one entry, a value or a subsection.
pub open spec fn entry_lines(
    e: EntryModel,
    ind: Seq<char>,
    open: Seq<char>,
    close: Seq<char>,
    indent: Seq<char>,
    list_values: bool,
) -> Result<Seq<Seq<char>>, Seq<char>> {
    match e.item {
        ItemModel::Scalar(_) => scalar_entry_lines(e, ind, list_values),
        ItemModel::Section(_) => section_entry_lines(e, ind, open, close, indent, list_values),
    }
}

/// Among entries that are all values, no subsection adds a line.
proof fn lemma_no_section_lines(
    m: SectionModel,
    n: int,
    ind: Seq<char>,
    open: Seq<char>,
    close: Seq<char>,
    indent: Seq<char>,
    list_values: bool,
)
    requires
        0 <= n <= m.len(),
        forall|q: int| 0 <= q < n ==> (#[trigger] m[q]).item is Scalar,
    ensures
        section_lines(m, n, ind, open, close, indent, list_values) == Ok::<Seq<Seq<char>>, Seq<char>>(Seq::empty()),
    decreases n,
{
    if n > 0 {
        lemma_no_section_lines(m, n - 1, ind, open, close, indent, list_values);
        assert(m[n - 1].item is Scalar);
        assert(section_entry_lines(m[n - 1], ind, open, close, indent, list_values) == Ok::<Seq<Seq<char>>, Seq<char>>(Seq::empty()));
        assert(Seq::<Seq<char>>::empty() + Seq::<Seq<char>>::empty() =~= Seq::<Seq<char>>::empty());
    }
}

/// The lines for one more entry follow those for the entries before it.
#[verifier::spinoff_prover]
#[verifier::rlimit(30)]
pub(crate) proof fn lemma_body_step(
    m: SectionModel,
    j: int,
    ind: Seq<char>,
    open: Seq<char>,
    close: Seq<char>,
    indent: Seq<char>,
    list_values: bool,
)
    requires
        0 <= j < m.len(),
        scalars_first(m),
        body_lines(m, j + 1, ind, open, close, indent, list_values) is Ok,
    ensures
        body_lines(m, j, ind, open, close, indent, list_values) is Ok,
        entry_lines(m[j], ind, open, close, indent, list_values) is Ok,
        body_lines(m, j + 1, ind, open, close, indent, list_values)->Ok_0 == body_lines(m, j, ind, open, close, indent, list_values)->Ok_0
            + entry_lines(m[j], ind, open, close, indent, list_values)->Ok_0,
{
    let a = scalar_lines(m, j, ind, list_values);
    let b = section_lines(m, j, ind, open, close, indent, list_values);
    let e = m[j];
    match e.item {
        ItemModel::Scalar(_) => {
            assert forall|q: int| 0 <= q < j implies (#[trigger] m[q]).item is Scalar by {
                if m[q].item is Section {
                    assert(m[j].item is Section);
                }
            }
            lemma_no_section_lines(m, j, ind, open, close, indent, list_values);
            let x = scalar_entry_lines(e, ind, list_values)->Ok_0;
            let sa = a->Ok_0;
            assert(sa + x + Seq::<Seq<char>>::empty() =~= (sa + Seq::<Seq<char>>::empty()) + x);
        },
        ItemModel::Section(_) => {
            let sa = a->Ok_0;
            let sb = b->Ok_0;
            let x = section_entry_lines(e, ind, open, close, indent, list_values)->Ok_0;
            assert((sa + Seq::<Seq<char>>::empty()) + (sb + x) =~= (sa + sb) + x);
        },
    }
}

/// Every part of a section that could be written is written.
pub(crate) proof fn lemma_body_ok(
    m: SectionModel,
    j: int,
    ind: Seq<char>,
    open: Seq<char>,
    close: Seq<char>,
    indent: Seq<char>,
    list_values: bool,
)
    requires
        0 <= j <= m.len(),
        write_section_spec(m, ind, open, close, indent, list_values) is Ok,
    ensures
        body_lines(m, j, ind, open, close, indent, list_values) is Ok,
{
    if scalar_lines(m, j, ind, list_values) is Err {
        lemma_scalar_lines_err(m, j, ind, list_values);
    }
    if section_lines(m, j, ind, open, close, indent, list_values) is Err {
        lemma_section_lines_err(m, j, ind, open, close, indent, list_values);
    }
}

// ---------------------------------------------------------------------------
// Where a reading holds its sections.
// ---------------------------------------------------------------------------

/// The root and the open sections of a reading.
pub open spec fn shape(st: PState) -> (SectionModel, Seq<OpenModel>) {
    (st.root, st.open)
}

/// The root and the open sections once the section entries go to holds `m`.
pub open spec fn holding(st: PState, m: SectionModel) -> (SectionModel, Seq<OpenModel>) {
    shape(with_current(st, m))
}

/// A reading shaped as `st` holding `a` has its entries go to `a`, and
/// holding something else there is shaped as `st` holding that.
pub(crate) proof fn lemma_holding(st: PState, t: PState, a: SectionModel, x: SectionModel)
    requires
        shape(t) == holding(st, a),
    ensures
        current(t) == a,
        holding(t, x) == holding(st, x),
        t.open.len() == st.open.len(),
{
    if st.open.len() > 0 {
        let n = st.open.len() - 1;
        assert(t.open[n] == OpenModel { section: a, ..st.open.last() });
        assert(t.open.update(n, OpenModel { section: x, ..t.open.last() }) =~= st.open.update(n, OpenModel { section: x, ..st.open.last() }));
    }
}

/// Putting back what the entries go to changes nothing.
pub(crate) proof fn lemma_holding_current(st: PState)
    ensures
        holding(st, current(st)) == shape(st),
{
    if st.open.len() > 0 {
        let n = st.open.len() - 1;
        assert(st.open.update(n, OpenModel { section: st.open.last().section, ..st.open.last() }) =~= st.open);
    }
}

/// The indentation a reading has taken is the one written, if any, and
/// until it has taken one the lines seen at `ind` are not indented or
/// indented by it.
pub open spec fn indent_ok(st: PState, ind: Seq<char>, indent: Seq<char>) -> bool {
    &&& (st.indent is None || st.indent == Some(indent))
    &&& (st.indent is None ==> ind.len() == 0 || ind == indent)
}

/// Each subsection has its values before its subsections, down to every
/// level.
pub open spec fn entry_ordered(e: EntryModel) -> bool
    decreases e, 0int,
{
    match e.item {
        ItemModel::Section(sub) => scalars_first(sub) && entries_ordered(sub, sub.len() as int),
        ItemModel::Scalar(_) => true,
    }
}

/// Each subsection among the first `n` entries has its values before its
/// subsections, down to every level.
pub open spec fn entries_ordered(m: SectionModel, n: int) -> bool
    decreases m, n,
{
    if n <= 0 || n > m.len() {
        true
    } else {
        entries_ordered(m, n - 1) && entry_ordered(m[n - 1])
    }
}

/// A section with its values before its subsections, down to every level:
/// the order the writer writes entries in.
pub open spec fn ordered(m: SectionModel) -> bool {
    scalars_first(m) && entries_ordered(m, m.len() as int)
}

/// Every one of the first `n` entries is ordered.
pub(crate) proof fn lemma_entries_ordered(m: SectionModel, n: int, j: int)
    requires
        0 <= j < n <= m.len(),
        entries_ordered(m, n),
    ensures
        entry_ordered(m[j]),
    decreases n,
{
    if j < n - 1 {
        lemma_entries_ordered(m, n - 1, j);
    }
}

/// An entry that is a subsection holding at least one entry, whose lines
/// are written indented.
pub open spec fn nonempty_section(e: EntryModel) -> bool {
    match e.item {
        ItemModel::Section(sub) => sub.len() > 0,
        ItemModel::Scalar(_) => false,
    }
}

/// Some subsection among the first `n` entries holds an entry.
pub open spec fn has_nested_entry(m: SectionModel, n: int) -> bool {
    exists|q: int| 0 <= q < n && q < m.len() && nonempty_section(#[trigger] m[q])
}

/// One more entry holds a nested entry if it is a subsection that is not
/// empty.
proof fn lemma_nested_step(m: SectionModel, j: int)
    requires
        0 < j <= m.len(),
    ensures
        has_nested_entry(m, j) == (has_nested_entry(m, j - 1) || nonempty_section(m[j - 1])),
{
    if has_nested_entry(m, j) && !nonempty_section(m[j - 1]) {
        let q = choose|q: int| 0 <= q < j && q < m.len() && nonempty_section(#[trigger] m[q]);
        assert(q < j - 1);
    }
    if has_nested_entry(m, j - 1) {
        let q = choose|q: int| 0 <= q < j - 1 && q < m.len() && nonempty_section(#[trigger] m[q]);
        assert(0 <= q < j && q < m.len() && nonempty_section(m[q]));
    }
    if nonempty_section(m[j - 1]) {
        assert(0 <= j - 1 < j && j - 1 < m.len() && nonempty_section(m[j - 1]));
    }
}

/// The indentation taken once lines have been seen: the one written, if it
/// had been taken before or a line was seen indented.
pub open spec fn taken(before: Option<Seq<char>>, seen: bool, indent: Seq<char>) -> Option<Seq<char>> {
    if before is Some || seen {
        Some(indent)
    } else {
        None
    }
}

/// The lines from `p` on, split in two.
pub(crate) proof fn lemma_lines_split(lines: Seq<Seq<char>>, p: int, a: Seq<Seq<char>>, b: Seq<Seq<char>>)
    requires
        0 <= p,
        p + a.len() + b.len() <= lines.len(),
        lines.subrange(p, p + a.len() + b.len()) == a + b,
    ensures
        lines.subrange(p, p + a.len()) == a,
        lines.subrange(p + a.len(), p + a.len() + b.len()) == b,
{
    assert forall|q: int| 0 <= q < a.len() implies lines.subrange(p, p + a.len())[q] == a[q] by {
        assert(lines.subrange(p, p + a.len() + b.len())[q] == (a + b)[q]);
    }
    assert forall|q: int| 0 <= q < b.len() implies lines.subrange(p + a.len(), p + a.len() + b.len())[q] == b[q] by {
        assert(lines.subrange(p, p + a.len() + b.len())[a.len() + q] == (a + b)[a.len() + q]);
    }
    assert(lines.subrange(p, p + a.len()) =~= a);
    assert(lines.subrange(p + a.len(), p + a.len() + b.len()) =~= b);
}

/// A run of lines that ends where one line's reading ends is that reading.
pub(crate) proof fn lemma_steps_one(st: PState, lines: Seq<Seq<char>>, i: int, list_values: bool)
    requires
        0 <= i < lines.len(),
    ensures
        steps(st, lines, i, step(st, lines, i, list_values).1, list_values) == step(st, lines, i, list_values),
{
    lemma_step_advances(st, lines, i, list_values);
    let (s, next) = step(st, lines, i, list_values);
    assert(steps(s, lines, next, next, list_values) == (s, next));
}

// ---------------------------------------------------------------------------
// Reading back one entry.
// ---------------------------------------------------------------------------

/// The comments waiting when an entry is read are the ones written above
/// it: a reading that has begun waits with none before the entry's own, and
/// one that has not begun has none written above its first entry.
pub open spec fn waiting_ok(s: PState, e: EntryModel) -> bool {
    &&& s.started ==> s.pending.len() == 0
    &&& !s.started ==> above_of(e.comments).len() == 0
}

/// Reading the comment lines written above an entry, then a line at `ind`:
/// the comments taken for the entry are the ones written, the reading has
/// begun, and the indentation is still as written.
pub(crate) proof fn lemma_waiting(s: PState, e: EntryModel, ind: Seq<char>, indent: Seq<char>)
    requires
        waiting_ok(s, e),
        indent_ok(s, ind, indent),
    ensures ({
        let s1 = note_indent(begin(PState { pending: s.pending + above_of(e.comments), ..s }), ind);
        &&& s1.pending == above_of(e.comments)
        &&& s1.started
        &&& s1.initial == if s.started { s.initial } else { s.pending }
        &&& s1.errors == s.errors
        &&& shape(s1) == shape(s)
        &&& indent_ok(s1, ind, indent)
        &&& s1.indent is None ==> ind.len() == 0
        &&& s1.indent == taken(s.indent, ind.len() > 0, indent)
    }),
{
    let a = above_of(e.comments);
    if s.started {
        assert(s.pending + a =~= a);
    } else {
        assert(s.pending + a =~= s.pending);
        assert(a =~= Seq::<Seq<char>>::empty());
    }
}

/// Reading the lines written for a value, from a reading whose entries go
/// to a section without its key: the value goes in with its comments.
#[verifier::spinoff_prover]
#[verifier::rlimit(80)]
pub(crate) proof fn lemma_scalar_entry(
    s: PState,
    lines: Seq<Seq<char>>,
    p: int,
    e: EntryModel,
    ind: Seq<char>,
    indent: Seq<char>,
    list_values: bool,
    x: Seq<Seq<char>>,
)
    requires
        e.item is Scalar,
        entry_reads_back(e, list_values),
        scalar_entry_lines(e, ind, list_values) == Ok::<Seq<Seq<char>>, Seq<char>>(x),
        blank_run(ind),
        0 <= p,
        p + read_lines(x).len() <= lines.len(),
        lines.subrange(p, p + read_lines(x).len()) == read_lines(x),
        !has_key(current(s), e.key),
        waiting_ok(s, e),
        indent_ok(s, ind, indent),
    ensures ({
        let t = steps(s, lines, p, p + read_lines(x).len(), list_values);
        &&& t.1 == p + read_lines(x).len()
        &&& shape(t.0) == holding(s, current(s).push(e))
        &&& t.0.errors == s.errors
        &&& t.0.pending.len() == 0
        &&& t.0.started
        &&& t.0.initial == if s.started { s.initial } else { s.pending }
        &&& indent_ok(t.0, ind, indent)
        &&& t.0.indent == taken(s.indent, ind.len() > 0, indent)
    }),
{
    let c = e.comments;
    let k = e.key;
    let v = e.item->Scalar_0;
    let qk = quote_key_spec(k, list_values)->Ok_0;
    let w = quote_value_spec(v, list_values)->Ok_0;
    let inline = inline_of(c);
    let above = above_of(c);
    let cl = comment_lines(c, ind);
    let line = value_line(ind, qk, w, inline);
    assert(inline_text(c) == tail_of(inline));
    assert(x == cl + seq![line]) by {
        assert(ind + qk + " = "@ + w + inline_text(c) =~= line);
    }
    assert(read_lines(seq![line]) == pieces(line)) by {
        assert(seq![line].drop_last() =~= Seq::<Seq<char>>::empty());
        assert(seq![line].last() == line);
        assert(read_lines(Seq::<Seq<char>>::empty()) == Seq::<Seq<char>>::empty());
        assert(Seq::<Seq<char>>::empty() + pieces(line) =~= pieces(line));
    }
    lemma_read_lines_concat(cl, seq![line]);
    lemma_comment_lines(c, ind);
    let na = above.len() as int;
    let np = pieces(line).len() as int;
    lemma_lines_split(lines, p, cl, pieces(line));
    assert forall|q: int| 0 <= q < above.len() implies lines[p + q] == crate::write::indented_comment(ind, #[trigger] above[q]) by {
        assert(lines.subrange(p, p + na)[q] == cl[q]);
    }
    assert forall|q: int| 0 <= q < above.len() implies crate::rewrite::comment_ok(#[trigger] above[q]) by {
    }
    lemma_comment_steps(s, lines, p, ind, above, list_values);
    let s_a = PState { pending: s.pending + above, ..s };
    lemma_key_quoting(k, list_values, qk);
    if list_values || v != ValueModel::String(Seq::empty()) {
        lemma_written_survives(v, list_values, w);
    }
    lemma_value_step(s_a, lines, p + na, ind, qk, k, v, list_values, w, inline);
    lemma_steps_one(s_a, lines, p + na, list_values);
    lemma_steps_concat(s, lines, p, p + na, p + na + np, list_values);
    lemma_waiting(s, e, ind, indent);
    let s1 = note_indent(begin(s_a), ind);
    let s2 = PState { pending: Seq::empty(), ..s1 };
    assert(current(s2) == current(s));
    lemma_parsed_entry(current(s), e);
}

/// A reading whose root and open sections are those of another takes its
/// entries to the same place, and holds anything there the same way.
pub(crate) proof fn lemma_same_shape(a: PState, b: PState, x: SectionModel)
    requires
        shape(a) == shape(b),
    ensures
        current(a) == current(b),
        holding(a, x) == holding(b, x),
{
    lemma_holding_current(b);
    lemma_holding(b, a, current(b), x);
}

/// The lines read of one written line that holds no line break.
proof fn lemma_read_one(line: Seq<char>)
    ensures
        read_lines(seq![line]) == pieces(line),
{
    assert(seq![line].drop_last() =~= Seq::<Seq<char>>::empty());
    assert(seq![line].last() == line);
    assert(read_lines(Seq::<Seq<char>>::empty()) == Seq::<Seq<char>>::empty());
    assert(Seq::<Seq<char>>::empty() + pieces(line) =~= pieces(line));
}

/// Reading the comment lines and the header written for a subsection: the
/// sections open below its depth are closed, and it opens, empty, with its
/// comments; its contents are written next.
#[verifier::spinoff_prover]
#[verifier::rlimit(80)]
pub(crate) proof fn lemma_section_head(
    s: PState,
    lines: Seq<Seq<char>>,
    p: int,
    e: EntryModel,
    d: nat,
    ind: Seq<char>,
    indent: Seq<char>,
    list_values: bool,
    x: Seq<Seq<char>>,
) -> (u: PState)
    requires
        e.item is Section,
        entry_reads_back(e, list_values),
        section_entry_lines(e, ind, brackets('[', d + 1), brackets(']', d + 1), indent, list_values) == Ok::<Seq<Seq<char>>, Seq<char>>(x),
        blank_run(ind),
        0 <= p,
        p + read_lines(x).len() <= lines.len(),
        lines.subrange(p, p + read_lines(x).len()) == read_lines(x),
        s.open.len() >= d,
        !has_key(current(close_to(s, d)), e.key),
        waiting_ok(s, e),
        indent_ok(s, ind, indent),
    ensures ({
        let sub = e.item->Section_0;
        let body = write_section_spec(sub, ind + indent, brackets('[', d + 2), brackets(']', d + 2), indent, list_values);
        let q = p + above_of(e.comments).len() + 1;
        &&& body is Ok
        &&& read_lines(x).len() == q - p + read_lines(body->Ok_0).len()
        &&& lines.subrange(q, q + read_lines(body->Ok_0).len()) == read_lines(body->Ok_0)
        &&& steps(s, lines, p, q, list_values) == (u, q)
        &&& close_to(s, d).open.len() == d
        &&& u.open == close_to(s, d).open.push(OpenModel {
            name: e.key,
            section: Seq::empty(),
            comments: CommentsModel { above: above_of(e.comments), inline: inline_of(e.comments) },
        })
        &&& u.root == close_to(s, d).root
        &&& u.pending.len() == 0
        &&& u.started
        &&& u.initial == if s.started { s.initial } else { s.pending }
        &&& u.errors == s.errors
        &&& indent_ok(u, ind, indent)
        &&& indent_ok(u, ind + indent, indent)
        &&& u.indent == taken(s.indent, ind.len() > 0, indent)
    }),
{
    let c = e.comments;
    let n = e.key;
    let sub = e.item->Section_0;
    let inline = inline_of(c);
    let above = above_of(c);
    let open = brackets('[', d + 1);
    let close = brackets(']', d + 1);
    assert(open.push('[') =~= brackets('[', d + 2));
    assert(close.push(']') =~= brackets(']', d + 2));
    let qn = quote_section_name_spec(n, list_values)->Ok_0;
    let body = write_section_spec(sub, ind + indent, open.push('['), close.push(']'), indent, list_values)->Ok_0;
    let cl = comment_lines(c, ind);
    let header = header_line(ind, (d + 1) as nat, qn, inline);
    assert(inline_text(c) == crate::rewrite::tail_of(inline));
    assert(x == cl + seq![header] + body) by {
        assert(ind + open + qn + close + inline_text(c) =~= header);
    }
    lemma_name_quoting(n, list_values, qn);
    lemma_classify_header(ind, (d + 1) as nat, qn, n, inline);
    lemma_pieces_one(header);
    lemma_read_one(header);
    lemma_comment_lines(c, ind);
    lemma_read_lines_concat(cl, seq![header]);
    lemma_read_lines_concat(cl + seq![header], body);
    let rb = read_lines(body);
    let na = above.len() as int;
    lemma_lines_split(lines, p, cl + seq![header], rb);
    lemma_lines_split(lines, p, cl, seq![header]);
    assert(lines[p + na] == header) by {
        assert(lines.subrange(p + na, p + na + 1)[0] == lines[p + na]);
    }
    assert forall|q: int| 0 <= q < above.len() implies lines[p + q] == crate::write::indented_comment(ind, #[trigger] above[q]) by {
        assert(lines.subrange(p, p + na)[q] == cl[q]);
    }
    assert forall|q: int| 0 <= q < above.len() implies crate::rewrite::comment_ok(#[trigger] above[q]) by {
    }
    lemma_comment_steps(s, lines, p, ind, above, list_values);
    let s_a = PState { pending: s.pending + above, ..s };
    lemma_waiting(s, e, ind, indent);
    let s1 = note_indent(begin(s_a), ind);
    let s2 = PState { pending: Seq::empty(), ..s1 };
    lemma_close_to_fields(s, d, s2);
    lemma_close_to_close(s, d, d);
    let s3 = close_to(s2, d);
    lemma_header_step(s_a, lines, p + na, ind, (d + 1) as nat, qn, n, inline);
    let u = PState {
        open: s3.open.push(OpenModel { name: n, section: Seq::empty(), comments: CommentsModel { above: s1.pending, inline } }),
        ..s3
    };
    if list_values {
        assert(step(s_a, lines, p + na, list_values) == (u, p + na + 1));
    } else {
        assert(step(s_a, lines, p + na, list_values) == (u, p + na + 1));
    }
    lemma_steps_one(s_a, lines, p + na, list_values);
    lemma_steps_concat(s, lines, p, p + na, p + na + 1, list_values);
    assert(ind.len() == 0 ==> ind + indent =~= indent);
    u
}

/// Closing a subsection that has been read whole, down to the depth of the
/// section holding it, stores it there.
pub(crate) proof fn lemma_close_section(t: PState, d: nat, base: PState, e: EntryModel, cm: CommentsModel)
    requires
        t.open.len() >= d + 1,
        base.open.len() == d,
        e.item is Section,
        close_to(t, d + 1).open == base.open.push(OpenModel { name: e.key, section: e.item->Section_0, comments: cm }),
        close_to(t, d + 1).root == base.root,
        cm == (CommentsModel { above: above_of(e.comments), inline: inline_of(e.comments) }),
        comments_ok(e.comments),
        !has_key(current(base), e.key),
    ensures
        shape(close_to(t, d)) == holding(base, current(base).push(e)),
{
    lemma_close_to_close(t, d, d + 1);
    let xs = close_to(t, d + 1);
    let s1 = PState { open: xs.open.drop_last(), ..xs };
    assert(xs.open.drop_last() =~= base.open);
    assert(close_last(xs).open.len() == d);
    assert(close_to(close_last(xs), d) == close_last(xs));
    assert(close_to(xs, d) == close_to(close_last(xs), d));
    lemma_same_shape(s1, base, parsed_insert(current(base), e.key, e.item, cm));
    lemma_parsed_entry(current(base), e);
}

// ---------------------------------------------------------------------------
// Reading back a section, entry by entry.
// ---------------------------------------------------------------------------

/// Reading the lines written for a subsection, from a reading whose entries,
/// once the sections below depth `d` are closed, go to a section without its
/// name: once those are closed again, the subsection is stored there, whole.
#[verifier::spinoff_prover]
#[verifier::rlimit(60)]
pub(crate) proof fn lemma_section_entry(
    s: PState,
    lines: Seq<Seq<char>>,
    p: int,
    e: EntryModel,
    d: nat,
    ind: Seq<char>,
    indent: Seq<char>,
    list_values: bool,
    x: Seq<Seq<char>>,
)
    requires
        e.item is Section,
        entry_reads_back(e, list_values),
        entry_ordered(e),
        section_entry_lines(e, ind, brackets('[', d + 1), brackets(']', d + 1), indent, list_values) == Ok::<Seq<Seq<char>>, Seq<char>>(x),
        blank_run(ind),
        blank_run(indent),
        0 <= p,
        p + read_lines(x).len() <= lines.len(),
        lines.subrange(p, p + read_lines(x).len()) == read_lines(x),
        s.open.len() >= d,
        !has_key(current(close_to(s, d)), e.key),
        waiting_ok(s, e),
        indent_ok(s, ind, indent),
    ensures ({
        let t = steps(s, lines, p, p + read_lines(x).len(), list_values);
        &&& t.1 == p + read_lines(x).len()
        &&& t.0.open.len() >= d
        &&& shape(close_to(t.0, d)) == holding(close_to(s, d), current(close_to(s, d)).push(e))
        &&& t.0.errors == s.errors
        &&& t.0.pending.len() == 0
        &&& t.0.started
        &&& t.0.initial == if s.started { s.initial } else { s.pending }
        &&& indent_ok(t.0, ind, indent)
        &&& t.0.indent == taken(s.indent, ind.len() > 0 || (nonempty_section(e) && indent.len() > 0), indent)
    }),
    decreases e, 0int,
{
    match e.item {
        ItemModel::Section(sub) => {
            let u = lemma_section_head(s, lines, p, e, d, ind, indent, list_values, x);
            let q = p + above_of(e.comments).len() + 1;
            let ind2 = ind + indent;
            let body = write_section_spec(sub, ind2, brackets('[', d + 2), brackets(']', d + 2), indent, list_values)->Ok_0;
            let rb = read_lines(body);
            assert(blank_run(ind2)) by {
                assert forall|j: int| 0 <= j < ind2.len() implies crate::text::is_space(#[trigger] ind2[j]) && ind2[j] != '\n' by {
                    if j < ind.len() {
                        assert(ind2[j] == ind[j]);
                    } else {
                        assert(ind2[j] == indent[j - ind.len()]);
                    }
                }
            }
            assert(current(u) == Seq::<EntryModel>::empty());
            assert(sub.take(sub.len() as int) == sub);
            assert(body_lines(sub, sub.len() as int, ind2, brackets('[', (d + 1) as nat + 1), brackets(']', (d + 1) as nat + 1), indent, list_values)
                == write_section_spec(sub, ind2, brackets('[', d + 2), brackets(']', d + 2), indent, list_values));
            lemma_prefix(u, lines, q, sub, sub.len() as int, (d + 1) as nat, ind2, indent, list_values);
            let t = steps(u, lines, q, q + rb.len(), list_values);
            lemma_steps_concat(s, lines, p, q, q + rb.len(), list_values);
            let base = close_to(s, d);
            let cm = CommentsModel { above: above_of(e.comments), inline: inline_of(e.comments) };
            assert(shape(close_to(t.0, (d + 1) as nat)) == holding(u, sub));
            assert(close_to(t.0, (d + 1) as nat).open =~= base.open.push(OpenModel { name: e.key, section: sub, comments: cm }));
            lemma_close_section(t.0, d, base, e, cm);
            assert(ind2.len() == 0 ==> ind.len() == 0);
            assert(ind2 == indent ==> ind.len() == 0);
        },
        ItemModel::Scalar(_) => {},
    }
}

/// Reading the lines written for the first `j` entries of a section, from a
/// reading at depth `d` whose entries go to an empty section: once the
/// sections below depth `d` are closed, those entries are stored there.
/// While only values have been read, no section below depth `d` is open.
#[verifier::spinoff_prover]
#[verifier::rlimit(60)]
pub(crate) proof fn lemma_prefix(
    st: PState,
    lines: Seq<Seq<char>>,
    i: int,
    m: SectionModel,
    j: int,
    d: nat,
    ind: Seq<char>,
    indent: Seq<char>,
    list_values: bool,
)
    requires
        0 <= j <= m.len(),
        distinct_keys(m),
        ordered(m),
        entries_read_back(m, m.len() as int, list_values),
        write_section_spec(m, ind, brackets('[', d + 1), brackets(']', d + 1), indent, list_values) is Ok,
        blank_run(ind),
        blank_run(indent),
        st.open.len() == d,
        current(st).len() == 0,
        st.started ==> st.pending.len() == 0,
        !st.started && m.len() > 0 ==> above_of(m[0].comments).len() == 0,
        indent_ok(st, ind, indent),
        0 <= i,
        ({
            let rl = read_lines(body_lines(m, j, ind, brackets('[', d + 1), brackets(']', d + 1), indent, list_values)->Ok_0);
            i + rl.len() <= lines.len() && lines.subrange(i, i + rl.len()) == rl
        }),
    ensures
        body_lines(m, j, ind, brackets('[', d + 1), brackets(']', d + 1), indent, list_values) is Ok,
        ({
            let rl = read_lines(body_lines(m, j, ind, brackets('[', d + 1), brackets(']', d + 1), indent, list_values)->Ok_0);
            let t = steps(st, lines, i, i + rl.len(), list_values);
            &&& t.1 == i + rl.len()
            &&& t.0.open.len() >= d
            &&& (forall|q: int| 0 <= q < j ==> (#[trigger] m[q]).item is Scalar) ==> t.0.open.len() == d
            &&& shape(close_to(t.0, d)) == holding(st, m.take(j))
            &&& t.0.errors == st.errors
            &&& t.0.pending == if j == 0 { st.pending } else { Seq::empty() }
            &&& t.0.started == (st.started || j > 0)
            &&& t.0.initial == if !st.started && j > 0 { st.pending } else { st.initial }
            &&& indent_ok(t.0, ind, indent)
            &&& t.0.indent == taken(st.indent, (j > 0 && ind.len() > 0) || (indent.len() > 0 && has_nested_entry(m, j)), indent)
        }),
    decreases m, j,
{
    let open = brackets('[', d + 1);
    let close = brackets(']', d + 1);
    lemma_body_ok(m, j, ind, open, close, indent, list_values);
    if j == 0 {
        assert(body_lines(m, 0, ind, open, close, indent, list_values)->Ok_0 =~= Seq::<Seq<char>>::empty());
        assert(read_lines(Seq::<Seq<char>>::empty()) == Seq::<Seq<char>>::empty());
        assert(steps(st, lines, i, i, list_values) == (st, i));
        assert(close_to(st, d) == st);
        assert(m.take(0) =~= current(st));
        lemma_holding_current(st);
        assert(!has_nested_entry(m, 0));
    } else {
        lemma_nested_step(m, j);
        lemma_body_step(m, j - 1, ind, open, close, indent, list_values);
        let ws0 = body_lines(m, j - 1, ind, open, close, indent, list_values)->Ok_0;
        let x = entry_lines(m[j - 1], ind, open, close, indent, list_values)->Ok_0;
        lemma_read_lines_concat(ws0, x);
        let r0 = read_lines(ws0);
        let rx = read_lines(x);
        lemma_lines_split(lines, i, r0, rx);
        lemma_prefix(st, lines, i, m, j - 1, d, ind, indent, list_values);
        let s0 = steps(st, lines, i, i + r0.len(), list_values).0;
        let p = i + r0.len();
        let e = m[j - 1];
        lemma_entries_read_back(m, m.len() as int, list_values, j - 1);
        lemma_entries_ordered(m, m.len() as int, j - 1);
        assert(m.take(j - 1).push(e) =~= m.take(j));
        assert(!has_key(m.take(j - 1), e.key)) by {
            if has_key(m.take(j - 1), e.key) {
                let q = choose|q: int| 0 <= q < m.take(j - 1).len() && #[trigger] m.take(j - 1)[q].key == e.key;
                assert(m[q].key == m[j - 1].key);
            }
        }
        assert(waiting_ok(s0, e));
        lemma_steps_concat(st, lines, i, p, p + rx.len(), list_values);
        match e.item {
            ItemModel::Scalar(_) => {
                assert forall|q: int| 0 <= q < j - 1 implies (#[trigger] m[q]).item is Scalar by {
                    if m[q].item is Section {
                        assert(m[j - 1].item is Section);
                    }
                }
                assert(close_to(s0, d) == s0);
                lemma_holding(st, s0, m.take(j - 1), m.take(j));
                lemma_scalar_entry(s0, lines, p, e, ind, indent, list_values, x);
                let t = steps(s0, lines, p, p + rx.len(), list_values).0;
                lemma_holding(st, t, m.take(j), m.take(j));
                assert(close_to(t, d) == t);
            },
            ItemModel::Section(_) => {
                let base = close_to(s0, d);
                lemma_close_to_close(s0, d, d);
                lemma_holding(st, base, m.take(j - 1), m.take(j));
                lemma_section_entry(s0, lines, p, e, d, ind, indent, list_values, x);
                assert(m[j - 1].item is Section);
            },
        }
    }
}

// ---------------------------------------------------------------------------
// Reading back a whole file.
// ---------------------------------------------------------------------------

/// A leading or trailing comment, as written, is seen as it is, and each of
/// its lines is one line of the comment as written above an unindented
/// entry.
proof fn lemma_file_comment(ts: Seq<Seq<char>>)
    requires
        forall|j: int| 0 <= j < ts.len() ==> comment_ok(#[trigger] ts[j]),
    ensures
        read_lines(ts.map_values(|t: Seq<char>| comment_line_spec(t))) == ts.map_values(|t: Seq<char>| comment_line_spec(t)),
        ts.map_values(|t: Seq<char>| comment_line_spec(t)).len() == ts.len(),
        forall|j: int| 0 <= j < ts.len() ==> ts.map_values(|t: Seq<char>| comment_line_spec(t))[j] == indented_comment(Seq::empty(), #[trigger] ts[j]),
{
    let c = Some(CommentsModel { above: ts, inline: Some(Seq::empty()) });
    let ws = ts.map_values(|t: Seq<char>| comment_line_spec(t));
    assert(blank_run(Seq::<char>::empty()));
    lemma_comment_lines(c, Seq::empty());
    assert forall|j: int| 0 <= j < ts.len() implies ws[j] == indented_comment(Seq::empty(), #[trigger] ts[j]) by {
        assert(Seq::<char>::empty() + comment_line_spec(ts[j]) =~= comment_line_spec(ts[j]));
    }
    assert(ws =~= comment_lines(c, Seq::empty()));
}

/// The lines seen of a written config read back as the config.
#[verifier::spinoff_prover]
#[verifier::rlimit(60)]
proof fn lemma_read_written(c: ConfigModel, ws: Seq<Seq<char>>)
    requires
        render(c) == Ok::<Seq<Seq<char>>, Seq<char>>(ws),
        distinct_keys(c.root),
        ordered(c.root),
        entries_read_back(c.root, c.root.len() as int, c.list_values),
        blank_run(c.indent),
        forall|j: int| 0 <= j < c.initial_comment.len() ==> comment_ok(#[trigger] c.initial_comment[j]),
        forall|j: int| 0 <= j < c.final_comment.len() ==> comment_ok(#[trigger] c.final_comment[j]),
        c.root.len() > 0 ==> above_of(c.root[0].comments).len() == 0,
        c.root.len() == 0 ==> c.final_comment.len() == 0,
    ensures ({
        let p = parse_spec(read_lines(ws), c.list_values);
        &&& p.errors.len() == 0
        &&& p.root == c.root
        &&& p.initial_comment == c.initial_comment
        &&& p.final_comment == c.final_comment
        &&& p.indent == if c.indent.len() > 0 && has_nested_entry(c.root, c.root.len() as int) {
            Some(c.indent)
        } else {
            None
        }
    }),
{
    let lv = c.list_values;
    let root = c.root;
    let indent = c.indent;
    let e0 = Seq::<char>::empty();
    assert(seq!['['] =~= brackets('[', 1));
    assert(seq![']'] =~= brackets(']', 1));
    let body = write_section_spec(root, e0, brackets('[', 1), brackets(']', 1), indent, lv)->Ok_0;
    let ic = c.initial_comment.map_values(|t: Seq<char>| comment_line_spec(t));
    let fc = c.final_comment.map_values(|t: Seq<char>| comment_line_spec(t));
    assert(ws == ic + body + fc);
    lemma_file_comment(c.initial_comment);
    lemma_file_comment(c.final_comment);
    lemma_read_lines_concat(ic, body);
    lemma_read_lines_concat(ic + body, fc);
    let rb = read_lines(body);
    let lines = read_lines(ws);
    assert(lines == ic + rb + fc);
    assert(lines.subrange(0, lines.len() as int) =~= lines);
    lemma_lines_split(lines, 0, ic + rb, fc);
    lemma_lines_split(lines, 0, ic, rb);
    let a = ic.len() as int;
    let b = a + rb.len();
    // The leading comment.
    assert(blank_run(e0));
    assert forall|j: int| 0 <= j < c.initial_comment.len() implies lines[0 + j] == indented_comment(e0, #[trigger] c.initial_comment[j]) by {
        assert(lines.subrange(0, a)[j] == ic[j]);
    }
    lemma_comment_steps(start_state(), lines, 0, e0, c.initial_comment, lv);
    let s_a = PState { pending: start_state().pending + c.initial_comment, ..start_state() };
    assert(s_a.pending =~= c.initial_comment);
    // The sections.
    assert(body_lines(root, root.len() as int, e0, brackets('[', 1), brackets(']', 1), indent, lv) == write_section_spec(root, e0, brackets('[', 1), brackets(']', 1), indent, lv));
    assert(root.take(root.len() as int) == root);
    lemma_prefix(s_a, lines, a, root, root.len() as int, 0, e0, indent, lv);
    let s_b = steps(s_a, lines, a, b, lv).0;
    // The trailing comment.
    assert forall|j: int| 0 <= j < c.final_comment.len() implies lines[b + j] == indented_comment(e0, #[trigger] c.final_comment[j]) by {
        assert(lines.subrange(b, b + fc.len())[j] == fc[j]);
    }
    lemma_comment_steps(s_b, lines, b, e0, c.final_comment, lv);
    let s_c = PState { pending: s_b.pending + c.final_comment, ..s_b };
    lemma_steps_concat(start_state(), lines, 0, a, b, lv);
    lemma_steps_concat(start_state(), lines, 0, b, lines.len() as int, lv);
    lemma_run_steps(start_state(), lines, 0, lines.len() as int, lv);
    assert(run(s_c, lines, lines.len() as int, lv) == s_c);
    lemma_close_to_fields(s_b, 0, s_c);
    if root.len() > 0 {
        assert(s_b.pending + c.final_comment =~= c.final_comment);
    } else {
        assert(c.final_comment =~= Seq::<Seq<char>>::empty());
        assert(s_b.pending + c.final_comment =~= c.initial_comment);
    }
}

/// A file holding one blank line reads as no entries.
proof fn lemma_blank_file(list_values: bool)
    ensures
        parse_spec(seq![Seq::<char>::empty()], list_values).root.len() == 0,
{
    let lines = seq![Seq::<char>::empty()];
    lemma_comment_line(Seq::empty(), Seq::empty());
    let (s1, n1) = step(start_state(), lines, 0, list_values);
    assert(n1 == 1);
    assert(run(start_state(), lines, 0, list_values) == run(s1, lines, 1, list_values));
    assert(run(s1, lines, 1, list_values) == s1);
    assert(close_to(s1, 0) == s1);
}

/// Whatever the writer writes of a whole config, reading gives back: its
/// sections nested to any depth, their values, the comments above and
/// beside their entries, and the file's leading and trailing comments, with
/// no error. The indentation read back is the one written when some
/// subsection holds an entry, so that a line was written indented, and none
/// otherwise.
///
/// This holds of configs that can be written that way: no key occurs twice
/// in a section, values come before subsections at every level, as they are
/// written (see `law_values_written_first` for the others), every entry reads
/// back as written (see `entry_reads_back`), the indentation is white space, and no
/// comment line holds a line break or ends in a carriage return. Reading
/// takes any comment above the first entry into the leading comment, and a
/// file with no entries has all its comment lines leading, so those are left
/// out, as is a file that is one blank comment line, which reads as none.
pub proof fn law_written_config_reads_back(c: ConfigModel)
    requires
        distinct_keys(c.root),
        ordered(c.root),
        entries_read_back(c.root, c.root.len() as int, c.list_values),
        blank_run(c.indent),
        forall|j: int| 0 <= j < c.initial_comment.len() ==> comment_ok(#[trigger] c.initial_comment[j]),
        forall|j: int| 0 <= j < c.final_comment.len() ==> comment_ok(#[trigger] c.final_comment[j]),
        c.root.len() > 0 ==> above_of(c.root[0].comments).len() == 0,
        c.root.len() == 0 ==> c.final_comment.len() == 0,
        c.root.len() == 0 ==> c.initial_comment != seq![Seq::<char>::empty()],
    ensures
        render(c) matches Ok(lines) ==> {
            let p = parse_spec(split_lines_spec(join_lines(lines)), c.list_values);
            &&& p.errors.len() == 0
            &&& config_of(p, c.list_values, c.bom) == (ConfigModel {
                indent: if has_nested_entry(c.root, c.root.len() as int) { c.indent } else { Seq::empty() },
                ..c
            })
        },
{
    if let Ok(ws) = render(c) {
        lemma_read_written(c, ws);
        assert(c.indent.len() == 0 ==> c.indent =~= Seq::<char>::empty());
        if ws == seq![Seq::<char>::empty()] {
            lemma_pieces_one(Seq::<char>::empty());
            lemma_read_one(Seq::<char>::empty());
            lemma_blank_file(c.list_values);
            if c.root.len() == 0 {
                let ic = c.initial_comment.map_values(|t: Seq<char>| comment_line_spec(t));
                let body = write_section_spec(c.root, Seq::empty(), seq!['['], seq![']'], c.indent, c.list_values)->Ok_0;
                assert(body == Seq::<Seq<char>>::empty());
                assert(ws == ic + body + c.final_comment.map_values(|t: Seq<char>| comment_line_spec(t)));
                assert(ic.len() == 1);
                assert(comment_line_spec(c.initial_comment[0]) == Seq::<char>::empty());
                assert(c.initial_comment[0] =~= Seq::<char>::empty());
                assert(c.initial_comment =~= seq![Seq::<char>::empty()]);
            }
        } else {
            lemma_split_join(ws);
        }
    }
}

/// With no subsection holding an entry, no line is written indented, so the
/// indentation makes no difference to what is written.
proof fn lemma_sections_unindented(
    m: SectionModel,
    n: int,
    ind: Seq<char>,
    open: Seq<char>,
    close: Seq<char>,
    indent: Seq<char>,
    other: Seq<char>,
    list_values: bool,
)
    requires
        0 <= n <= m.len(),
        !has_nested_entry(m, n),
    ensures
        section_lines(m, n, ind, open, close, indent, list_values) == section_lines(m, n, ind, open, close, other, list_values),
    decreases n,
{
    if n > 0 {
        lemma_nested_step(m, n);
        lemma_sections_unindented(m, n - 1, ind, open, close, indent, other, list_values);
        if let ItemModel::Section(sub) = m[n - 1].item {
            assert(sub.len() == 0);
            let e = Seq::<Seq<char>>::empty();
            assert(write_section_spec(sub, ind + indent, open.push('['), close.push(']'), indent, list_values) == Ok::<Seq<Seq<char>>, Seq<char>>(e + e));
            assert(write_section_spec(sub, ind + other, open.push('['), close.push(']'), other, list_values) == Ok::<Seq<Seq<char>>, Seq<char>>(e + e));
        }
        assert(section_entry_lines(m[n - 1], ind, open, close, indent, list_values) == section_entry_lines(m[n - 1], ind, open, close, other, list_values));
    }
}

// ---------------------------------------------------------------------------
// The order entries are written in.
// ---------------------------------------------------------------------------

/// The values among the first `n` entries of a section, in order.
pub open spec fn value_entries(m: SectionModel, n: int) -> SectionModel
    decreases n,
{
    if n <= 0 || n > m.len() {
        Seq::empty()
    } else {
        value_entries(m, n - 1) + if m[n - 1].item is Scalar {
            seq![m[n - 1]]
        } else {
            Seq::empty()
        }
    }
}

/// The subsections among the first `n` entries of a section, in order, each
/// in the order it is written.
pub open spec fn subsection_entries(m: SectionModel, n: int) -> SectionModel
    decreases m, n,
{
    if n <= 0 || n > m.len() {
        Seq::empty()
    } else {
        subsection_entries(m, n - 1) + written_entry(m[n - 1])
    }
}

/// An entry that is a subsection, in the order it is written; a value gives
/// nothing here.
pub open spec fn written_entry(e: EntryModel) -> SectionModel
    decreases e, 0int,
{
    match e.item {
        ItemModel::Section(sub) => seq![EntryModel { item: ItemModel::Section(written_order(sub)), ..e }],
        ItemModel::Scalar(_) => Seq::empty(),
    }
}

/// A section in the order the writer writes it: its values, then its
/// subsections, each of those in that order in turn.
pub open spec fn written_order(m: SectionModel) -> SectionModel
    decreases m, m.len() + 1,
{
    value_entries(m, m.len() as int) + subsection_entries(m, m.len() as int)
}

/// Lines written one run after another, or the first thing that could not
/// be written.
pub open spec fn chain_lines(a: Result<Seq<Seq<char>>, Seq<char>>, b: Result<Seq<Seq<char>>, Seq<char>>) -> Result<Seq<Seq<char>>, Seq<char>> {
    match a {
        Err(e) => Err(e),
        Ok(x) => match b {
            Err(e) => Err(e),
            Ok(y) => Ok(x + y),
        },
    }
}

/// Adding no lines changes nothing.
proof fn lemma_chain_empty(a: Result<Seq<Seq<char>>, Seq<char>>)
    ensures
        chain_lines(a, Ok(Seq::empty())) == a,
        chain_lines(Ok(Seq::empty()), a) == a,
{
    if let Ok(x) = a {
        assert(x + Seq::<Seq<char>>::empty() =~= x);
        assert(Seq::<Seq<char>>::empty() + x =~= x);
    }
}

/// Writing one run after two others is writing it after both.
proof fn lemma_chain_assoc(a: Result<Seq<Seq<char>>, Seq<char>>, b: Result<Seq<Seq<char>>, Seq<char>>, c: Result<Seq<Seq<char>>, Seq<char>>)
    ensures
        chain_lines(chain_lines(a, b), c) == chain_lines(a, chain_lines(b, c)),
{
    if let (Ok(x), Ok(y), Ok(z)) = (a, b, c) {
        assert(x + y + z =~= x + (y + z));
    }
}

/// The values among the first entries of a section joined to others are
/// written as they are alone.
proof fn lemma_scalar_lines_prefix(a: SectionModel, b: SectionModel, n: int, ind: Seq<char>, list_values: bool)
    requires
        0 <= n <= a.len(),
    ensures
        scalar_lines(a + b, n, ind, list_values) == scalar_lines(a, n, ind, list_values),
    decreases n,
{
    if n > 0 {
        lemma_scalar_lines_prefix(a, b, n - 1, ind, list_values);
        assert((a + b)[n - 1] == a[n - 1]);
    }
}

/// The values of two runs of entries are written one after the other.
proof fn lemma_scalar_lines_concat(a: SectionModel, b: SectionModel, k: int, ind: Seq<char>, list_values: bool)
    requires
        0 <= k <= b.len(),
    ensures
        scalar_lines(a + b, a.len() + k, ind, list_values) == chain_lines(scalar_lines(a, a.len() as int, ind, list_values), scalar_lines(b, k, ind, list_values)),
    decreases k,
{
    if k == 0 {
        lemma_scalar_lines_prefix(a, b, a.len() as int, ind, list_values);
        lemma_chain_empty(scalar_lines(a, a.len() as int, ind, list_values));
    } else {
        lemma_scalar_lines_concat(a, b, k - 1, ind, list_values);
        assert((a + b)[a.len() + k - 1] == b[k - 1]);
        let e = scalar_entry_lines(b[k - 1], ind, list_values);
        lemma_chain_assoc(scalar_lines(a, a.len() as int, ind, list_values), scalar_lines(b, k - 1, ind, list_values), e);
    }
}

/// The subsections among the first entries of a section joined to others
/// are written as they are alone.
proof fn lemma_section_lines_prefix(
    a: SectionModel,
    b: SectionModel,
    n: int,
    ind: Seq<char>,
    open: Seq<char>,
    close: Seq<char>,
    indent: Seq<char>,
    list_values: bool,
)
    requires
        0 <= n <= a.len(),
    ensures
        section_lines(a + b, n, ind, open, close, indent, list_values) == section_lines(a, n, ind, open, close, indent, list_values),
    decreases n,
{
    if n > 0 {
        lemma_section_lines_prefix(a, b, n - 1, ind, open, close, indent, list_values);
        assert((a + b)[n - 1] == a[n - 1]);
    }
}

/// The subsections of two runs of entries are written one after the other.
proof fn lemma_section_lines_concat(
    a: SectionModel,
    b: SectionModel,
    k: int,
    ind: Seq<char>,
    open: Seq<char>,
    close: Seq<char>,
    indent: Seq<char>,
    list_values: bool,
)
    requires
        0 <= k <= b.len(),
    ensures
        section_lines(a + b, a.len() + k, ind, open, close, indent, list_values) == chain_lines(
            section_lines(a, a.len() as int, ind, open, close, indent, list_values),
            section_lines(b, k, ind, open, close, indent, list_values),
        ),
    decreases k,
{
    if k == 0 {
        lemma_section_lines_prefix(a, b, a.len() as int, ind, open, close, indent, list_values);
        lemma_chain_empty(section_lines(a, a.len() as int, ind, open, close, indent, list_values));
    } else {
        lemma_section_lines_concat(a, b, k - 1, ind, open, close, indent, list_values);
        assert((a + b)[a.len() + k - 1] == b[k - 1]);
        let e = section_entry_lines(b[k - 1], ind, open, close, indent, list_values);
        lemma_chain_assoc(
            section_lines(a, a.len() as int, ind, open, close, indent, list_values),
            section_lines(b, k - 1, ind, open, close, indent, list_values),
            e,
        );
    }
}

/// Among entries that are all subsections, no value adds a line.
proof fn lemma_no_scalar_lines(m: SectionModel, n: int, ind: Seq<char>, list_values: bool)
    requires
        0 <= n <= m.len(),
        forall|q: int| 0 <= q < n ==> (#[trigger] m[q]).item is Section,
    ensures
        scalar_lines(m, n, ind, list_values) == Ok::<Seq<Seq<char>>, Seq<char>>(Seq::empty()),
    decreases n,
{
    if n > 0 {
        lemma_no_scalar_lines(m, n - 1, ind, list_values);
        assert(m[n - 1].item is Section);
        assert(Seq::<Seq<char>>::empty() + Seq::<Seq<char>>::empty() =~= Seq::<Seq<char>>::empty());
    }
}

/// The values of a section, taken out in order, are all values.
proof fn lemma_value_entries_scalar(m: SectionModel, n: int)
    requires
        0 <= n <= m.len(),
    ensures
        forall|q: int| 0 <= q < value_entries(m, n).len() ==> (#[trigger] value_entries(m, n)[q]).item is Scalar,
    decreases n,
{
    if n > 0 {
        lemma_value_entries_scalar(m, n - 1);
        let v0 = value_entries(m, n - 1);
        let e = m[n - 1];
        let w: SectionModel = if e.item is Scalar { seq![e] } else { Seq::empty() };
        assert(value_entries(m, n) == v0 + w);
        assert forall|q: int| 0 <= q < value_entries(m, n).len() implies (#[trigger] value_entries(m, n)[q]).item is Scalar by {
            if q < v0.len() {
                assert(value_entries(m, n)[q] == v0[q]);
            } else {
                assert(value_entries(m, n)[q] == w[q - v0.len()]);
            }
        }
    }
}

/// The values of a section, taken out in order, are written as the
/// section's values are.
#[verifier::spinoff_prover]
#[verifier::rlimit(30)]
proof fn lemma_value_entries(m: SectionModel, n: int, ind: Seq<char>, list_values: bool)
    requires
        0 <= n <= m.len(),
    ensures
        scalar_lines(value_entries(m, n), value_entries(m, n).len() as int, ind, list_values) == scalar_lines(m, n, ind, list_values),
    decreases n,
{
    if n > 0 {
        lemma_value_entries(m, n - 1, ind, list_values);
        let v0 = value_entries(m, n - 1);
        let e = m[n - 1];
        let x = scalar_entry_lines(e, ind, list_values);
        let prev = scalar_lines(m, n - 1, ind, list_values);
        assert(scalar_lines(m, n, ind, list_values) == chain_lines(prev, x));
        if e.item is Scalar {
            let w = seq![e];
            assert(value_entries(m, n) == v0 + w);
            lemma_scalar_lines_concat(v0, w, 1, ind, list_values);
            assert(w[0] == e);
            lemma_chain_empty(x);
            assert(scalar_lines(w, 0, ind, list_values) == Ok::<Seq<Seq<char>>, Seq<char>>(Seq::empty()));
            assert(scalar_lines(w, 1, ind, list_values) == chain_lines(Ok(Seq::empty()), x));
        } else {
            assert(value_entries(m, n) == v0 + Seq::<EntryModel>::empty());
            assert(v0 + Seq::<EntryModel>::empty() =~= v0);
            assert(x == Ok::<Seq<Seq<char>>, Seq<char>>(Seq::empty()));
            lemma_chain_empty(prev);
        }
    }
}

/// The subsections of a section, taken out in order, are all subsections.
proof fn lemma_subsection_entries(m: SectionModel, n: int)
    requires
        0 <= n <= m.len(),
    ensures
        forall|q: int| 0 <= q < subsection_entries(m, n).len() ==> (#[trigger] subsection_entries(m, n)[q]).item is Section,
    decreases n,
{
    if n > 0 {
        lemma_subsection_entries(m, n - 1);
        let s0 = subsection_entries(m, n - 1);
        let w = written_entry(m[n - 1]);
        assert(subsection_entries(m, n) == s0 + w);
        assert forall|q: int| 0 <= q < subsection_entries(m, n).len() implies (#[trigger] subsection_entries(m, n)[q]).item is Section by {
            if q < s0.len() {
                assert(subsection_entries(m, n)[q] == s0[q]);
            } else {
                assert(subsection_entries(m, n)[q] == w[q - s0.len()]);
            }
        }
    }
}

/// A section in the order it is written is written as the section is.
pub(crate) proof fn lemma_written_lines(
    m: SectionModel,
    ind: Seq<char>,
    open: Seq<char>,
    close: Seq<char>,
    indent: Seq<char>,
    list_values: bool,
)
    ensures
        write_section_spec(written_order(m), ind, open, close, indent, list_values) == write_section_spec(m, ind, open, close, indent, list_values),
    decreases m, m.len() + 1,
{
    let n = m.len() as int;
    let v = value_entries(m, n);
    let s = subsection_entries(m, n);
    let w = written_order(m);
    assert(w == v + s);
    lemma_value_entries(m, n, ind, list_values);
    lemma_value_entries_scalar(m, n);
    lemma_subsection_entries(m, n);
    lemma_subsection_lines(m, n, ind, open, close, indent, list_values);
    lemma_no_scalar_lines(s, s.len() as int, ind, list_values);
    lemma_no_section_lines(v, v.len() as int, ind, open, close, indent, list_values);
    lemma_scalar_lines_concat(v, s, s.len() as int, ind, list_values);
    lemma_section_lines_concat(v, s, s.len() as int, ind, open, close, indent, list_values);
    lemma_chain_empty(scalar_lines(m, n, ind, list_values));
    lemma_chain_empty(section_lines(m, n, ind, open, close, indent, list_values));
    assert(w.len() == v.len() + s.len());
}

/// The subsections among the first `n` entries of a section, each in the
/// order it is written, are written as those entries are.
proof fn lemma_subsection_lines(
    m: SectionModel,
    n: int,
    ind: Seq<char>,
    open: Seq<char>,
    close: Seq<char>,
    indent: Seq<char>,
    list_values: bool,
)
    requires
        0 <= n <= m.len(),
    ensures
        section_lines(subsection_entries(m, n), subsection_entries(m, n).len() as int, ind, open, close, indent, list_values)
            == section_lines(m, n, ind, open, close, indent, list_values),
    decreases m, n,
{
    if n > 0 {
        lemma_subsection_lines(m, n - 1, ind, open, close, indent, list_values);
        let s0 = subsection_entries(m, n - 1);
        let w = written_entry(m[n - 1]);
        assert(subsection_entries(m, n) == s0 + w);
        lemma_section_lines_concat(s0, w, w.len() as int, ind, open, close, indent, list_values);
        lemma_written_entry_lines(m[n - 1], ind, open, close, indent, list_values);
    }
}

/// A subsection in the order it is written is written as the entry is; a
/// value gives no subsection lines either way.
#[verifier::spinoff_prover]
#[verifier::rlimit(40)]
proof fn lemma_written_entry_lines(
    e: EntryModel,
    ind: Seq<char>,
    open: Seq<char>,
    close: Seq<char>,
    indent: Seq<char>,
    list_values: bool,
)
    ensures
        section_lines(written_entry(e), written_entry(e).len() as int, ind, open, close, indent, list_values)
            == section_entry_lines(e, ind, open, close, indent, list_values),
    decreases e, 0int,
{
    match e.item {
        ItemModel::Section(sub) => {
            let e2 = EntryModel { item: ItemModel::Section(written_order(sub)), ..e };
            assert(written_entry(e) == seq![e2]);
            assert(seq![e2][0] == e2);
            lemma_written_lines(sub, ind + indent, open.push('['), close.push(']'), indent, list_values);
            assert(section_entry_lines(e2, ind, open, close, indent, list_values) == section_entry_lines(e, ind, open, close, indent, list_values));
            lemma_chain_empty(section_entry_lines(e, ind, open, close, indent, list_values));
            assert(section_lines(seq![e2], 0, ind, open, close, indent, list_values) == Ok::<Seq<Seq<char>>, Seq<char>>(Seq::empty()));
            assert(section_lines(seq![e2], 1, ind, open, close, indent, list_values) == chain_lines(
                Ok(Seq::empty()),
                section_entry_lines(e2, ind, open, close, indent, list_values),
            ));
        },
        ItemModel::Scalar(_) => {
            assert(written_entry(e) == Seq::<EntryModel>::empty());
        },
    }
}

/// A section in the order it is written has as many entries as it had.
proof fn lemma_written_len(m: SectionModel, n: int)
    requires
        0 <= n <= m.len(),
    ensures
        value_entries(m, n).len() + subsection_entries(m, n).len() == n,
    decreases n,
{
    if n > 0 {
        lemma_written_len(m, n - 1);
        match m[n - 1].item {
            ItemModel::Scalar(_) => {
                assert(written_entry(m[n - 1]).len() == 0);
            },
            ItemModel::Section(_) => {
                assert(written_entry(m[n - 1]).len() == 1);
            },
        }
    }
}

/// Where the `q`-th value taken out of the first `n` entries of a section
/// stands among them.
pub open spec fn value_source(m: SectionModel, n: int, q: int) -> int
    decreases n,
{
    if n <= 0 || n > m.len() || q >= value_entries(m, n - 1).len() {
        n - 1
    } else {
        value_source(m, n - 1, q)
    }
}

/// Where the `q`-th subsection taken out of the first `n` entries of a
/// section stands among them.
pub open spec fn subsection_source(m: SectionModel, n: int, q: int) -> int
    decreases n,
{
    if n <= 0 || n > m.len() || q >= subsection_entries(m, n - 1).len() {
        n - 1
    } else {
        subsection_source(m, n - 1, q)
    }
}

/// Each value taken out of a section is one of its values, and, when the
/// section names each entry once, no two of them share a name.
proof fn lemma_value_entries_from(m: SectionModel, n: int)
    requires
        0 <= n <= m.len(),
    ensures
        forall|q: int| 0 <= q < value_entries(m, n).len() ==> {
            let k = #[trigger] value_source(m, n, q);
            &&& 0 <= k < n
            &&& m[k].item is Scalar
            &&& value_entries(m, n)[q] == m[k]
        },
        distinct_keys(m) ==> distinct_keys(value_entries(m, n)),
    decreases n,
{
    if n > 0 {
        lemma_value_entries_from(m, n - 1);
        let v0 = value_entries(m, n - 1);
        let e = m[n - 1];
        let w: SectionModel = if e.item is Scalar { seq![e] } else { Seq::empty() };
        let v = value_entries(m, n);
        assert(v == v0 + w);
        assert forall|q: int| 0 <= q < value_entries(m, n).len() implies {
            let k = #[trigger] value_source(m, n, q);
            &&& 0 <= k < n
            &&& m[k].item is Scalar
            &&& value_entries(m, n)[q] == m[k]
        } by {
            if q < v0.len() {
                assert(v[q] == v0[q]);
                assert(value_source(m, n, q) == value_source(m, n - 1, q));
            } else {
                assert(v[q] == w[q - v0.len()]);
            }
        }
        if distinct_keys(m) {
            assert forall|i: int, j: int| 0 <= i < j < v.len() implies v[i].key != v[j].key by {
                assert(v[i] == v0[i]);
                let ki = value_source(m, n - 1, i);
                if j < v0.len() {
                    assert(v[j] == v0[j]);
                } else {
                    assert(v[j] == m[n - 1]);
                    assert(m[ki].key != m[n - 1].key);
                }
            }
        }
    }
}

/// Each subsection taken out of a section is one of its subsections, in the
/// order it is written, and, when the section names each entry once, no two
/// of them share a name.
proof fn lemma_subsection_entries_from(m: SectionModel, n: int)
    requires
        0 <= n <= m.len(),
    ensures
        forall|q: int| 0 <= q < subsection_entries(m, n).len() ==> {
            let k = #[trigger] subsection_source(m, n, q);
            &&& 0 <= k < n
            &&& m[k].item is Section
            &&& subsection_entries(m, n)[q] == written_entry(m[k])[0]
        },
        distinct_keys(m) ==> distinct_keys(subsection_entries(m, n)),
    decreases n,
{
    if n > 0 {
        lemma_subsection_entries_from(m, n - 1);
        let s0 = subsection_entries(m, n - 1);
        let e = m[n - 1];
        let w = written_entry(e);
        let s = subsection_entries(m, n);
        assert(s == s0 + w);
        assert(w.len() > 0 ==> e.item is Section && w.len() == 1 && w[0].key == e.key);
        assert forall|q: int| 0 <= q < subsection_entries(m, n).len() implies {
            let k = #[trigger] subsection_source(m, n, q);
            &&& 0 <= k < n
            &&& m[k].item is Section
            &&& subsection_entries(m, n)[q] == written_entry(m[k])[0]
        } by {
            if q < s0.len() {
                assert(s[q] == s0[q]);
                assert(subsection_source(m, n, q) == subsection_source(m, n - 1, q));
            } else {
                assert(s[q] == w[q - s0.len()]);
            }
        }
        if distinct_keys(m) {
            assert forall|i: int, j: int| 0 <= i < j < s.len() implies s[i].key != s[j].key by {
                assert(s[i] == s0[i]);
                let ki = subsection_source(m, n - 1, i);
                assert(s[i].key == m[ki].key);
                if j < s0.len() {
                    assert(s[j] == s0[j]);
                } else {
                    assert(s[j] == w[0]);
                    assert(m[ki].key != m[n - 1].key);
                }
            }
        }
    }
}

/// A section in the order it is written names each entry once if the
/// section did.
proof fn lemma_written_keys(m: SectionModel)
    requires
        distinct_keys(m),
    ensures
        distinct_keys(written_order(m)),
{
    let n = m.len() as int;
    let v = value_entries(m, n);
    let s = subsection_entries(m, n);
    let w = written_order(m);
    assert(w == v + s);
    lemma_value_entries_from(m, n);
    lemma_subsection_entries_from(m, n);
    assert forall|i: int, j: int| 0 <= i < j < w.len() implies w[i].key != w[j].key by {
        if j < v.len() {
            assert(w[i] == v[i] && w[j] == v[j]);
        } else if i >= v.len() {
            assert(w[i] == s[i - v.len()] && w[j] == s[j - v.len()]);
        } else {
            assert(w[i] == v[i] && w[j] == s[j - v.len()]);
            let ki = value_source(m, n, i);
            let kj = subsection_source(m, n, j - v.len());
            assert(written_entry(m[kj])[0].key == m[kj].key);
            assert(ki != kj);
        }
    }
}

/// Each of the first `n` entries ordered makes them all ordered.
proof fn lemma_entries_ordered_all(m: SectionModel, n: int)
    requires
        0 <= n <= m.len(),
        forall|q: int| 0 <= q < n ==> entry_ordered(#[trigger] m[q]),
    ensures
        entries_ordered(m, n),
    decreases n,
{
    if n > 0 {
        lemma_entries_ordered_all(m, n - 1);
    }
}

/// Each of the first `n` entries reading back makes them all read back.
proof fn lemma_entries_read_back_all(m: SectionModel, n: int, list_values: bool)
    requires
        0 <= n <= m.len(),
        forall|q: int| 0 <= q < n ==> entry_reads_back(#[trigger] m[q], list_values),
    ensures
        entries_read_back(m, n, list_values),
    decreases n,
{
    if n > 0 {
        lemma_entries_read_back_all(m, n - 1, list_values);
    }
}

/// A section in the order it is written has its values first, down to
/// every level.
pub(crate) proof fn lemma_written_ordered(m: SectionModel)
    ensures
        ordered(written_order(m)),
    decreases m, m.len() + 1,
{
    let n = m.len() as int;
    let v = value_entries(m, n);
    let s = subsection_entries(m, n);
    let w = written_order(m);
    assert(w == v + s);
    lemma_value_entries_scalar(m, n);
    lemma_subsection_entries(m, n);
    lemma_subsection_entries_from(m, n);
    assert forall|i: int, j: int| 0 <= i < j < w.len() && w[i].item is Section implies w[j].item is Section by {
        if i < v.len() {
            assert(w[i] == v[i]);
        }
        assert(w[j] == s[j - v.len()]);
    }
    assert forall|q: int| 0 <= q < w.len() implies entry_ordered(#[trigger] w[q]) by {
        if q < v.len() {
            assert(w[q] == v[q]);
        } else {
            let k = subsection_source(m, n, q - v.len());
            assert(w[q] == s[q - v.len()]);
            lemma_written_entry_ordered(m[k]);
        }
    }
    lemma_entries_ordered_all(w, w.len() as int);
}

/// A subsection in the order it is written has its values first, down to
/// every level.
proof fn lemma_written_entry_ordered(e: EntryModel)
    requires
        e.item is Section,
    ensures
        entry_ordered(written_entry(e)[0]),
    decreases e, 0int,
{
    match e.item {
        ItemModel::Section(sub) => {
            lemma_written_ordered(sub);
            assert(written_entry(e)[0] == EntryModel { item: ItemModel::Section(written_order(sub)), ..e });
        },
        ItemModel::Scalar(_) => {},
    }
}

/// A section whose entries read back as written does so in the order it is
/// written too.
proof fn lemma_written_readable(m: SectionModel, list_values: bool)
    requires
        distinct_keys(m),
        entries_read_back(m, m.len() as int, list_values),
    ensures
        entries_read_back(written_order(m), written_order(m).len() as int, list_values),
    decreases m, m.len() + 1,
{
    let n = m.len() as int;
    let v = value_entries(m, n);
    let s = subsection_entries(m, n);
    let w = written_order(m);
    assert(w == v + s);
    lemma_value_entries_from(m, n);
    lemma_subsection_entries_from(m, n);
    assert forall|q: int| 0 <= q < w.len() implies entry_reads_back(#[trigger] w[q], list_values) by {
        if q < v.len() {
            let k = value_source(m, n, q);
            assert(w[q] == v[q]);
            lemma_entries_read_back(m, n, list_values, k);
        } else {
            let k = subsection_source(m, n, q - v.len());
            assert(w[q] == s[q - v.len()]);
            lemma_entries_read_back(m, n, list_values, k);
            lemma_written_entry_readable(m[k], list_values);
        }
    }
    lemma_entries_read_back_all(w, w.len() as int, list_values);
}

/// A subsection that reads back as written does so in the order it is
/// written too.
proof fn lemma_written_entry_readable(e: EntryModel, list_values: bool)
    requires
        e.item is Section,
        entry_reads_back(e, list_values),
    ensures
        entry_reads_back(written_entry(e)[0], list_values),
    decreases e, 0int,
{
    match e.item {
        ItemModel::Section(sub) => {
            lemma_written_keys(sub);
            lemma_written_readable(sub, list_values);
            assert(written_entry(e)[0] == EntryModel { item: ItemModel::Section(written_order(sub)), ..e });
        },
        ItemModel::Scalar(_) => {},
    }
}

/// The writer writes a section's values before its subsections, at every
/// level: what it writes of a config is what it writes of the same config
/// with each section in that order, which has its values first down to
/// every level.
pub proof fn law_values_written_first(c: ConfigModel)
    ensures
        render(c) == render(ConfigModel { root: written_order(c.root), ..c }),
        ordered(written_order(c.root)),
{
    lemma_written_lines(c.root, Seq::empty(), seq!['['], seq![']'], c.indent, c.list_values);
    lemma_written_ordered(c.root);
}

/// Whatever the writer writes of a whole config, reading gives back, with
/// each section in the order it is written: its values first, then its
/// subsections, down to every level (see `law_values_written_first`). For a
/// config already in that order, this is `law_written_config_reads_back`.
///
/// This holds of the configs that can be written that way, as there, with
/// the entry written first, rather than the first entry, taken to have no
/// comment above it.
pub proof fn law_written_config_reads_back_in_order(c: ConfigModel)
    requires
        distinct_keys(c.root),
        entries_read_back(c.root, c.root.len() as int, c.list_values),
        blank_run(c.indent),
        forall|j: int| 0 <= j < c.initial_comment.len() ==> comment_ok(#[trigger] c.initial_comment[j]),
        forall|j: int| 0 <= j < c.final_comment.len() ==> comment_ok(#[trigger] c.final_comment[j]),
        c.root.len() > 0 ==> above_of(written_order(c.root)[0].comments).len() == 0,
        c.root.len() == 0 ==> c.final_comment.len() == 0,
        c.root.len() == 0 ==> c.initial_comment != seq![Seq::<char>::empty()],
    ensures
        render(c) matches Ok(lines) ==> {
            let p = parse_spec(split_lines_spec(join_lines(lines)), c.list_values);
            &&& p.errors.len() == 0
            &&& config_of(p, c.list_values, c.bom) == (ConfigModel {
                root: written_order(c.root),
                indent: if has_nested_entry(written_order(c.root), c.root.len() as int) { c.indent } else { Seq::empty() },
                ..c
            })
        },
{
    let c2 = ConfigModel { root: written_order(c.root), ..c };
    law_values_written_first(c);
    lemma_written_len(c.root, c.root.len() as int);
    lemma_written_keys(c.root);
    lemma_written_readable(c.root, c.list_values);
    law_written_config_reads_back(c2);
}

/// Rewriting a file as the writer wrote it gives the same file: reading it
/// back and writing what was read gives the same lines.
///
/// This holds of the configs that read back as written, those of
/// `law_written_config_reads_back_in_order`.
pub proof fn law_rewriting_keeps_the_file(c: ConfigModel)
    requires
        distinct_keys(c.root),
        entries_read_back(c.root, c.root.len() as int, c.list_values),
        blank_run(c.indent),
        forall|j: int| 0 <= j < c.initial_comment.len() ==> comment_ok(#[trigger] c.initial_comment[j]),
        forall|j: int| 0 <= j < c.final_comment.len() ==> comment_ok(#[trigger] c.final_comment[j]),
        c.root.len() > 0 ==> above_of(written_order(c.root)[0].comments).len() == 0,
        c.root.len() == 0 ==> c.final_comment.len() == 0,
        c.root.len() == 0 ==> c.initial_comment != seq![Seq::<char>::empty()],
    ensures
        render(c) matches Ok(lines) ==> {
            let p = parse_spec(split_lines_spec(join_lines(lines)), c.list_values);
            render(config_of(p, c.list_values, c.bom)) == Ok::<Seq<Seq<char>>, Seq<char>>(lines)
        },
{
    law_written_config_reads_back_in_order(c);
    law_values_written_first(c);
    lemma_written_len(c.root, c.root.len() as int);
    let w = written_order(c.root);
    if let Ok(lines) = render(c) {
        if !has_nested_entry(w, c.root.len() as int) {
            lemma_sections_unindented(w, w.len() as int, Seq::empty(), seq!['['], seq![']'], c.indent, Seq::empty(), c.list_values);
        }
    }
}

/// Saving a config as bytes and loading those bytes gives it back: the
/// bytes decode to the text written, with the byte order mark as it was set,
/// and that text reads back as the config, as in
/// `law_written_config_reads_back_in_order`.
///
/// Text that begins with U+FEFF, saved without a byte order mark, is taken
/// for one when loaded, so it is left out.
pub proof fn law_saved_config_loads_back(c: ConfigModel)
    requires
        distinct_keys(c.root),
        entries_read_back(c.root, c.root.len() as int, c.list_values),
        blank_run(c.indent),
        forall|j: int| 0 <= j < c.initial_comment.len() ==> comment_ok(#[trigger] c.initial_comment[j]),
        forall|j: int| 0 <= j < c.final_comment.len() ==> comment_ok(#[trigger] c.final_comment[j]),
        c.root.len() > 0 ==> above_of(written_order(c.root)[0].comments).len() == 0,
        c.root.len() == 0 ==> c.final_comment.len() == 0,
        c.root.len() == 0 ==> c.initial_comment != seq![Seq::<char>::empty()],
    ensures
        render(c) matches Ok(lines) ==> (c.bom || !(join_lines(lines).len() > 0 && join_lines(lines)[0] == '\u{feff}')) ==> {
            let t = join_lines(lines);
            let p = parse_spec(split_lines_spec(t), c.list_values);
            &&& decode_spec(text_bytes(t, c.bom)) == Ok::<(Seq<char>, bool), Seq<char>>((t, c.bom))
            &&& p.errors.len() == 0
            &&& config_of(p, c.list_values, c.bom) == (ConfigModel {
                root: written_order(c.root),
                indent: if has_nested_entry(written_order(c.root), c.root.len() as int) { c.indent } else { Seq::empty() },
                ..c
            })
        },
{
    law_written_config_reads_back_in_order(c);
    if let Ok(lines) = render(c) {
        let t = join_lines(lines);
        if c.bom || !(t.len() > 0 && t[0] == '\u{feff}') {
            law_bytes_read_as_text(t, c.bom, c.list_values, vstd::pervasive::arbitrary());
        }
    }
}

// ---------------------------------------------------------------------------
// Laws of reading.
// ---------------------------------------------------------------------------

/// Reading a section header: one nested more than a level below the
/// sections open is a nesting error, and one naming an entry already in the
/// section it belongs to is a duplicate error; otherwise the sections open
/// below its depth are closed and it opens, empty, with the comments waiting
/// above it and its own comment. Reading goes on with the next line.
pub proof fn law_section_header(st: PState, lines: Seq<Seq<char>>, i: int, list_values: bool)
    requires
        0 <= i < lines.len(),
        classify_spec(lines[i]) is Section,
    ensures ({
        let l = classify_spec(lines[i]);
        let d = l->depth;
        let n = unquote_spec(l->name);
        let s1 = note_indent(begin(st), l->Section_indent);
        let s2 = PState { pending: Seq::empty(), ..s1 };
        let r = step(st, lines, i, list_values);
        &&& r.1 == i + 1
        &&& d > st.open.len() + 1 ==> r.0 == with_error(s2, ErrorKind::Nesting, "Section too nested"@, i, lines[i])
        &&& d <= st.open.len() + 1 && has_key(current(close_to(s2, (d - 1) as nat)), n) ==> r.0.errors.len() == st.errors.len() + 1
            && r.0.errors.last().kind == ErrorKind::Duplicate && r.0.open == close_to(s2, (d - 1) as nat).open
        &&& d <= st.open.len() + 1 && !has_key(current(close_to(s2, (d - 1) as nat)), n) ==> r.0.errors == st.errors
            && r.0.open == close_to(s2, (d - 1) as nat).open.push(OpenModel {
                name: n,
                section: Seq::empty(),
                comments: CommentsModel { above: s1.pending, inline: l->comment },
            })
    }),
{
    let l = classify_spec(lines[i]);
    let s1 = note_indent(begin(st), l->Section_indent);
    let s2 = PState { pending: Seq::empty(), ..s1 };
    let d = l->depth;
    if d <= st.open.len() + 1 {
        lemma_close_to_fields(s2, (d - 1) as nat, s2);
    }
}

/// Every line from `i` on is blank or a comment.
pub open spec fn comments_from(lines: Seq<Seq<char>>, i: int) -> bool {
    forall|j: int| i <= j < lines.len() ==> (#[trigger] classify_spec(lines[j]) is Blank || classify_spec(lines[j]) is Comment)
}

/// The text of each comment line.
pub open spec fn comment_texts(lines: Seq<Seq<char>>) -> Seq<Seq<char>> {
    lines.map_values(|l: Seq<char>| strip_comment_marker_spec(l))
}

/// Reading blank and comment lines only adds their text to the comments
/// waiting.
proof fn lemma_run_comments(st: PState, lines: Seq<Seq<char>>, i: int, list_values: bool)
    requires
        0 <= i <= lines.len(),
        comments_from(lines, i),
    ensures
        run(st, lines, i, list_values) == (PState { pending: st.pending + comment_texts(lines.subrange(i, lines.len() as int)), ..st }),
    decreases lines.len() - i,
{
    let rest = comment_texts(lines.subrange(i, lines.len() as int));
    if i < lines.len() {
        assert(classify_spec(lines[i]) is Blank || classify_spec(lines[i]) is Comment);
        let s = PState { pending: st.pending.push(strip_comment_marker_spec(lines[i])), ..st };
        assert(step(st, lines, i, list_values) == (s, i + 1));
        lemma_step_advances(st, lines, i, list_values);
        lemma_run_comments(s, lines, i + 1, list_values);
        let rest1 = comment_texts(lines.subrange(i + 1, lines.len() as int));
        assert(rest =~= seq![strip_comment_marker_spec(lines[i])] + rest1);
        assert(s.pending + rest1 =~= st.pending + rest);
    } else {
        assert(rest =~= Seq::<Seq<char>>::empty());
        assert(st.pending + rest =~= st.pending);
    }
}

/// A file of blank lines and comments only is one leading comment: each
/// line's text, with no entries, no trailing comment and no error.
pub proof fn law_comments_only_lead(lines: Seq<Seq<char>>, list_values: bool)
    requires
        comments_from(lines, 0),
    ensures
        parse_spec(lines, list_values) == (ParsedModel {
            root: Seq::empty(),
            initial_comment: comment_texts(lines),
            final_comment: Seq::empty(),
            indent: None,
            errors: Seq::empty(),
        }),
{
    lemma_run_comments(start_state(), lines, 0, list_values);
    assert(lines.subrange(0, lines.len() as int) =~= lines);
    assert(Seq::<Seq<char>>::empty() + comment_texts(lines) =~= comment_texts(lines));
}

/// Errors name lines up to `upto`, each the line it was found on, in the
/// order of the lines.
pub open spec fn errors_in_order(errors: Seq<ErrorModel>, lines: Seq<Seq<char>>, upto: int) -> bool {
    &&& forall|k: int| 0 <= k < errors.len() ==> 1 <= (#[trigger] errors[k]).line_number <= upto
        && errors[k].line == lines[errors[k].line_number - 1]
    &&& forall|a: int, b: int| 0 <= a < b < errors.len() ==> (#[trigger] errors[a]).line_number < (#[trigger] errors[b]).line_number
}

/// Reading a line reports an error, if any, on that line.
#[verifier::spinoff_prover]
#[verifier::rlimit(60)]
proof fn lemma_step_errors(st: PState, lines: Seq<Seq<char>>, i: int, list_values: bool)
    requires
        0 <= i < lines.len(),
        errors_in_order(st.errors, lines, i),
    ensures
        errors_in_order(step(st, lines, i, list_values).0.errors, lines, step(st, lines, i, list_values).1),
{
    lemma_step_advances(st, lines, i, list_values);
    let r = step(st, lines, i, list_values);
    let l = classify_spec(lines[i]);
    if l is Section {
        let s1 = note_indent(begin(st), l->Section_indent);
        let s2 = PState { pending: Seq::empty(), ..s1 };
        let d = l->depth;
        if d <= st.open.len() + 1 {
            lemma_close_to_fields(s2, (d - 1) as nat, s2);
        }
    }
    assert(r.0.errors == st.errors || (r.0.errors.len() == st.errors.len() + 1 && r.0.errors.drop_last() == st.errors
        && r.0.errors.last().line_number == i + 1 && r.0.errors.last().line == lines[i]));
    if r.0.errors != st.errors {
        assert forall|k: int| 0 <= k < r.0.errors.len() implies 1 <= (#[trigger] r.0.errors[k]).line_number <= r.1
            && r.0.errors[k].line == lines[r.0.errors[k].line_number - 1] by {
            if k < st.errors.len() {
                assert(r.0.errors[k] == st.errors[k]);
            }
        }
        assert forall|a: int, b: int| 0 <= a < b < r.0.errors.len() implies (#[trigger] r.0.errors[a]).line_number < (#[trigger] r.0.errors[b]).line_number by {
            assert(r.0.errors[a] == st.errors[a]);
            if b < st.errors.len() {
                assert(r.0.errors[b] == st.errors[b]);
            }
        }
    }
}

/// Reading the rest of a file reports errors on lines of the file, in order.
proof fn lemma_run_errors(st: PState, lines: Seq<Seq<char>>, i: int, list_values: bool)
    requires
        0 <= i <= lines.len(),
        errors_in_order(st.errors, lines, i),
    ensures
        errors_in_order(run(st, lines, i, list_values).errors, lines, lines.len() as int),
    decreases lines.len() - i,
{
    if i < lines.len() {
        lemma_step_advances(st, lines, i, list_values);
        lemma_step_errors(st, lines, i, list_values);
        let (s, next) = step(st, lines, i, list_values);
        lemma_run_errors(s, lines, next, list_values);
    }
}

/// Every error reading a file reports names a line of the file by its
/// number, from 1, holds that very line, and errors come in the order of
/// their lines, so reading goes on past a bad line.
pub proof fn law_errors_name_their_lines(lines: Seq<Seq<char>>, list_values: bool)
    ensures
        errors_in_order(parse_spec(lines, list_values).errors, lines, lines.len() as int),
{
    lemma_run_errors(start_state(), lines, 0, list_values);
    let st = run(start_state(), lines, 0, list_values);
    lemma_close_to_fields(st, 0, st);
}

// ---------------------------------------------------------------------------
// Reading with list values off.
// ---------------------------------------------------------------------------

/// An entry that is text, or a subsection whose values are all text, down to
/// every level.
pub open spec fn entry_text_only(e: EntryModel) -> bool
    decreases e, 0int,
{
    match e.item {
        ItemModel::Scalar(v) => v is String,
        ItemModel::Section(sub) => entries_text_only(sub, sub.len() as int),
    }
}

/// The first `n` entries are text only.
pub open spec fn entries_text_only(m: SectionModel, n: int) -> bool
    decreases m, n,
{
    if n <= 0 || n > m.len() {
        true
    } else {
        entries_text_only(m, n - 1) && entry_text_only(m[n - 1])
    }
}

/// Every value in a section is text, down to every level: no list.
pub open spec fn text_only(m: SectionModel) -> bool {
    entries_text_only(m, m.len() as int)
}

/// The first `n` entries are text only exactly when each is.
proof fn lemma_text_only_each(m: SectionModel, n: int)
    requires
        0 <= n <= m.len(),
    ensures
        entries_text_only(m, n) <==> forall|j: int| 0 <= j < n ==> entry_text_only(#[trigger] m[j]),
    decreases n,
{
    if n > 0 {
        lemma_text_only_each(m, n - 1);
    }
}

/// Storing an entry read from a file keeps a section text only when the
/// entry is.
proof fn lemma_insert_text_only(m: SectionModel, key: Seq<char>, item: ItemModel, c: CommentsModel)
    requires
        text_only(m),
        entry_text_only(EntryModel { key, item, comments: None }),
    ensures
        text_only(parsed_insert(m, key, item, c)),
{
    lemma_text_only_each(m, m.len() as int);
    let m2 = with_item(m, key, item);
    assert forall|j: int| 0 <= j < m2.len() implies entry_text_only(#[trigger] m2[j]) by {
        if j < m.len() && m2[j] != m[j] {
            assert(m2[j].item == item);
        }
    }
    lemma_text_only_each(m2, m2.len() as int);
    let m3 = with_comments(m2, key, c);
    assert forall|j: int| 0 <= j < m3.len() implies entry_text_only(#[trigger] m3[j]) by {
        assert(m3[j].item == m2[j].item);
    }
    lemma_text_only_each(m3, m3.len() as int);
}

/// Every section of a reading, the root and those open, is text only.
pub open spec fn state_text_only(st: PState) -> bool {
    &&& text_only(st.root)
    &&& forall|k: int| 0 <= k < st.open.len() ==> text_only(#[trigger] st.open[k].section)
}

/// Replacing the section entries go to by one that is text only keeps a
/// reading text only.
proof fn lemma_with_current_text_only(st: PState, m: SectionModel)
    requires
        state_text_only(st),
        text_only(m),
    ensures
        state_text_only(with_current(st, m)),
        text_only(current(st)),
{
    let w = with_current(st, m);
    if st.open.len() > 0 {
        assert forall|k: int| 0 <= k < w.open.len() implies text_only(#[trigger] w.open[k].section) by {
            if k < st.open.len() - 1 {
                assert(w.open[k] == st.open[k]);
            }
        }
        assert(st.open.last() == st.open[st.open.len() - 1]);
    }
}

/// Closing sections keeps a reading text only.
proof fn lemma_close_to_text_only(st: PState, d: nat)
    requires
        state_text_only(st),
    ensures
        state_text_only(close_to(st, d)),
    decreases st.open.len(),
{
    if st.open.len() > d {
        let top = st.open.last();
        let s1 = PState { open: st.open.drop_last(), ..st };
        assert(text_only(top.section)) by {
            assert(top == st.open[st.open.len() - 1]);
        }
        assert forall|k: int| 0 <= k < s1.open.len() implies text_only(#[trigger] s1.open[k].section) by {
            assert(s1.open[k] == st.open[k]);
        }
        lemma_with_current_text_only(s1, current(s1));
        assert(entry_text_only(EntryModel { key: top.name, item: ItemModel::Section(top.section), comments: None }));
        lemma_insert_text_only(current(s1), top.name, ItemModel::Section(top.section), top.comments);
        lemma_with_current_text_only(s1, parsed_insert(current(s1), top.name, ItemModel::Section(top.section), top.comments));
        lemma_close_to_text_only(close_last(st), d);
    }
}

/// Reading a line with list values off keeps a reading text only.
#[verifier::spinoff_prover]
#[verifier::rlimit(60)]
proof fn lemma_step_text_only(st: PState, lines: Seq<Seq<char>>, i: int)
    requires
        0 <= i < lines.len(),
        state_text_only(st),
    ensures
        state_text_only(step(st, lines, i, false).0),
{
    let l = classify_spec(lines[i]);
    match l {
        LineModel::Section { indent, depth, name, comment } => {
            let s1 = note_indent(begin(st), indent);
            let s2 = PState { pending: Seq::empty(), ..s1 };
            lemma_close_to_text_only(s2, (depth - 1) as nat);
            let s3 = close_to(s2, (depth - 1) as nat);
            let o = s3.open.push(OpenModel { name: unquote_spec(name), section: Seq::empty(), comments: CommentsModel { above: s1.pending, inline: comment } });
            assert forall|k: int| 0 <= k < o.len() implies text_only(#[trigger] o[k].section) by {
                if k < s3.open.len() {
                    assert(o[k] == s3.open[k]);
                }
            }
        },
        LineModel::Keyword { indent, key, rest } => {
            let s1 = note_indent(begin(st), indent);
            let s2 = PState { pending: Seq::empty(), ..s1 };
            if let ReadModel::Read(v, c, last) = read_value_spec(rest, lines, i, false) {
                assert(v is String);
                lemma_with_current_text_only(s2, current(s2));
                let cm = CommentsModel { above: s1.pending, inline: c };
                assert(entry_text_only(EntryModel { key: unquote_spec(key), item: ItemModel::Scalar(v), comments: None }));
                lemma_insert_text_only(current(s2), unquote_spec(key), ItemModel::Scalar(v), cm);
                lemma_with_current_text_only(s2, parsed_insert(current(s2), unquote_spec(key), ItemModel::Scalar(v), cm));
            }
        },
        _ => {},
    }
}

/// Reading the rest of a file with list values off keeps a reading text
/// only.
proof fn lemma_run_text_only(st: PState, lines: Seq<Seq<char>>, i: int)
    requires
        0 <= i <= lines.len(),
        state_text_only(st),
    ensures
        state_text_only(run(st, lines, i, false)),
    decreases lines.len() - i,
{
    if i < lines.len() {
        lemma_step_advances(st, lines, i, false);
        lemma_step_text_only(st, lines, i);
        let (s, next) = step(st, lines, i, false);
        lemma_run_text_only(s, lines, next);
    }
}

/// With list values off, reading never gives a list: every value read, at
/// every level, is text.
pub proof fn law_no_lists_when_off(lines: Seq<Seq<char>>)
    ensures
        text_only(parse_spec(lines, false).root),
{
    lemma_run_text_only(start_state(), lines, 0);
    lemma_close_to_text_only(run(start_state(), lines, 0, false), 0);
}

// ---------------------------------------------------------------------------
// Keys read from a file.
// ---------------------------------------------------------------------------

/// An entry that is a value, or a subsection in which no two entries share
/// a key, down to every level.
pub open spec fn entry_keys_distinct(e: EntryModel) -> bool
    decreases e, 0int,
{
    match e.item {
        ItemModel::Scalar(_) => true,
        ItemModel::Section(sub) => distinct_keys(sub) && entries_keys_distinct(sub, sub.len() as int),
    }
}

/// The first `n` entries have distinct keys within, down to every level.
pub open spec fn entries_keys_distinct(m: SectionModel, n: int) -> bool
    decreases m, n,
{
    if n <= 0 || n > m.len() {
        true
    } else {
        entries_keys_distinct(m, n - 1) && entry_keys_distinct(m[n - 1])
    }
}

/// No two entries of a section share a key, nor of any of its subsections,
/// down to every level.
pub open spec fn keys_distinct_deep(m: SectionModel) -> bool {
    distinct_keys(m) && entries_keys_distinct(m, m.len() as int)
}

/// The first `n` entries have distinct keys within exactly when each has.
proof fn lemma_keys_distinct_each(m: SectionModel, n: int)
    requires
        0 <= n <= m.len(),
    ensures
        entries_keys_distinct(m, n) <==> forall|j: int| 0 <= j < n ==> entry_keys_distinct(#[trigger] m[j]),
    decreases n,
{
    if n > 0 {
        lemma_keys_distinct_each(m, n - 1);
    }
}

/// Storing an entry read from a file keeps the keys of a section distinct,
/// down to every level, when they are within the entry.
proof fn lemma_insert_keys_distinct(m: SectionModel, key: Seq<char>, item: ItemModel, c: CommentsModel)
    requires
        keys_distinct_deep(m),
        entry_keys_distinct(EntryModel { key, item, comments: None }),
    ensures
        keys_distinct_deep(parsed_insert(m, key, item, c)),
{
    lemma_keys_distinct_each(m, m.len() as int);
    let m2 = with_item(m, key, item);
    assert forall|j: int| 0 <= j < m2.len() implies entry_keys_distinct(#[trigger] m2[j]) by {
        if j < m.len() && m2[j] != m[j] {
            assert(m2[j].item == item);
        }
    }
    lemma_keys_distinct_each(m2, m2.len() as int);
    let m3 = with_comments(m2, key, c);
    assert forall|j: int| 0 <= j < m3.len() implies entry_keys_distinct(#[trigger] m3[j]) by {
        assert(m3[j].item == m2[j].item);
    }
    lemma_keys_distinct_each(m3, m3.len() as int);
    crate::section::law_keys_stay_distinct(m, key, key, item, c);
    crate::section::law_keys_stay_distinct(m2, key, key, item, c);
}

/// Every section of a reading, the root and those open, has distinct keys,
/// down to every level.
pub open spec fn state_keys_distinct(st: PState) -> bool {
    &&& keys_distinct_deep(st.root)
    &&& forall|k: int| 0 <= k < st.open.len() ==> keys_distinct_deep(#[trigger] st.open[k].section)
}

/// Replacing the section entries go to by one with distinct keys keeps a
/// reading so.
proof fn lemma_with_current_keys_distinct(st: PState, m: SectionModel)
    requires
        state_keys_distinct(st),
        keys_distinct_deep(m),
    ensures
        state_keys_distinct(with_current(st, m)),
        keys_distinct_deep(current(st)),
{
    let w = with_current(st, m);
    if st.open.len() > 0 {
        assert forall|k: int| 0 <= k < w.open.len() implies keys_distinct_deep(#[trigger] w.open[k].section) by {
            if k < st.open.len() - 1 {
                assert(w.open[k] == st.open[k]);
            }
        }
        assert(st.open.last() == st.open[st.open.len() - 1]);
    }
}

/// Closing sections keeps the keys of a reading distinct.
proof fn lemma_close_to_keys_distinct(st: PState, d: nat)
    requires
        state_keys_distinct(st),
    ensures
        state_keys_distinct(close_to(st, d)),
    decreases st.open.len(),
{
    if st.open.len() > d {
        let top = st.open.last();
        let s1 = PState { open: st.open.drop_last(), ..st };
        assert(keys_distinct_deep(top.section)) by {
            assert(top == st.open[st.open.len() - 1]);
        }
        assert forall|k: int| 0 <= k < s1.open.len() implies keys_distinct_deep(#[trigger] s1.open[k].section) by {
            assert(s1.open[k] == st.open[k]);
        }
        lemma_with_current_keys_distinct(s1, current(s1));
        assert(entry_keys_distinct(EntryModel { key: top.name, item: ItemModel::Section(top.section), comments: None }));
        lemma_insert_keys_distinct(current(s1), top.name, ItemModel::Section(top.section), top.comments);
        lemma_with_current_keys_distinct(s1, parsed_insert(current(s1), top.name, ItemModel::Section(top.section), top.comments));
        lemma_close_to_keys_distinct(close_last(st), d);
    }
}

/// Reading a line keeps the keys of a reading distinct.
#[verifier::spinoff_prover]
#[verifier::rlimit(60)]
proof fn lemma_step_keys_distinct(st: PState, lines: Seq<Seq<char>>, i: int, list_values: bool)
    requires
        0 <= i < lines.len(),
        state_keys_distinct(st),
    ensures
        state_keys_distinct(step(st, lines, i, list_values).0),
{
    let l = classify_spec(lines[i]);
    match l {
        LineModel::Section { indent, depth, name, comment } => {
            let s1 = note_indent(begin(st), indent);
            let s2 = PState { pending: Seq::empty(), ..s1 };
            lemma_close_to_keys_distinct(s2, (depth - 1) as nat);
            let s3 = close_to(s2, (depth - 1) as nat);
            let o = s3.open.push(OpenModel { name: unquote_spec(name), section: Seq::empty(), comments: CommentsModel { above: s1.pending, inline: comment } });
            assert forall|k: int| 0 <= k < o.len() implies keys_distinct_deep(#[trigger] o[k].section) by {
                if k < s3.open.len() {
                    assert(o[k] == s3.open[k]);
                }
            }
        },
        LineModel::Keyword { indent, key, rest } => {
            let s1 = note_indent(begin(st), indent);
            let s2 = PState { pending: Seq::empty(), ..s1 };
            if let ReadModel::Read(v, c, last) = read_value_spec(rest, lines, i, list_values) {
                lemma_with_current_keys_distinct(s2, current(s2));
                let cm = CommentsModel { above: s1.pending, inline: c };
                assert(entry_keys_distinct(EntryModel { key: unquote_spec(key), item: ItemModel::Scalar(v), comments: None }));
                lemma_insert_keys_distinct(current(s2), unquote_spec(key), ItemModel::Scalar(v), cm);
                lemma_with_current_keys_distinct(s2, parsed_insert(current(s2), unquote_spec(key), ItemModel::Scalar(v), cm));
            }
        },
        _ => {},
    }
}

/// Reading the rest of a file keeps the keys of a reading distinct.
proof fn lemma_run_keys_distinct(st: PState, lines: Seq<Seq<char>>, i: int, list_values: bool)
    requires
        0 <= i <= lines.len(),
        state_keys_distinct(st),
    ensures
        state_keys_distinct(run(st, lines, i, list_values)),
    decreases lines.len() - i,
{
    if i < lines.len() {
        lemma_step_advances(st, lines, i, list_values);
        lemma_step_keys_distinct(st, lines, i, list_values);
        let (s, next) = step(st, lines, i, list_values);
        lemma_run_keys_distinct(s, lines, next, list_values);
    }
}

/// Reading a file never gives two entries of a section the same key, at
/// any level: a repeated key or section name is an error instead.
pub proof fn law_read_keys_distinct(lines: Seq<Seq<char>>, list_values: bool)
    ensures
        keys_distinct_deep(parse_spec(lines, list_values).root),
{
    lemma_run_keys_distinct(start_state(), lines, 0, list_values);
    lemma_close_to_keys_distinct(run(start_state(), lines, 0, list_values), 0);
}

// ---------------------------------------------------------------------------
// Written lines are never white space alone.
// ---------------------------------------------------------------------------

/// A line that is empty or holds something besides white space.
pub open spec fn not_blank_unless_empty(l: Seq<char>) -> bool {
    l.len() == 0 || exists|i: int| 0 <= i < l.len() && !is_space(#[trigger] l[i])
}

/// Every one of the lines is empty or holds something besides white space.
pub open spec fn lines_not_blank(ls: Seq<Seq<char>>) -> bool {
    forall|j: int| 0 <= j < ls.len() ==> not_blank_unless_empty(#[trigger] ls[j])
}

/// Two runs of such lines together are such lines.
proof fn lemma_not_blank_concat(a: Seq<Seq<char>>, b: Seq<Seq<char>>)
    requires
        lines_not_blank(a),
        lines_not_blank(b),
    ensures
        lines_not_blank(a + b),
{
    assert forall|j: int| 0 <= j < (a + b).len() implies not_blank_unless_empty(#[trigger] (a + b)[j]) by {
        if j < a.len() {
            assert((a + b)[j] == a[j]);
        } else {
            assert((a + b)[j] == b[j - a.len()]);
        }
    }
}

/// A line with `x` after its indentation, where `x` starts with something
/// other than white space, is not blank.
proof fn lemma_line_after(ind: Seq<char>, x: Seq<char>)
    requires
        x.len() > 0,
        !is_space(x[0]),
    ensures
        not_blank_unless_empty(ind + x),
{
    assert((ind + x)[ind.len() as int] == x[0]);
}

/// The comment lines above an entry are empty or hold a `#`.
proof fn lemma_comment_lines_not_blank(c: Option<CommentsModel>, ind: Seq<char>)
    ensures
        lines_not_blank(comment_lines(c, ind)),
{
    reveal_strlit("# ");
    let ls = comment_lines(c, ind);
    assert forall|j: int| 0 <= j < ls.len() implies not_blank_unless_empty(#[trigger] ls[j]) by {
        let t = above_of(c)[j];
        if t.len() > 0 {
            assert(ls[j] == ind + ("# "@ + t));
            lemma_line_after(ind, "# "@ + t);
        } else {
            assert(ls[j] =~= Seq::<char>::empty());
        }
    }
}

/// The lines of one value, its comments and its own line, are never white
/// space alone.
#[verifier::spinoff_prover]
#[verifier::rlimit(40)]
proof fn lemma_scalar_entry_not_blank(e: EntryModel, ind: Seq<char>, list_values: bool)
    requires
        scalar_entry_lines(e, ind, list_values) is Ok,
    ensures
        lines_not_blank(scalar_entry_lines(e, ind, list_values)->Ok_0),
{
    if let ItemModel::Scalar(v) = e.item {
        let qk = quote_key_spec(e.key, list_values)->Ok_0;
        let qv = quote_value_spec(v, list_values)->Ok_0;
        lemma_key_start(e.key, list_values, qk);
        lemma_comment_lines_not_blank(e.comments, ind);
        let x = qk + " = "@ + qv + inline_text(e.comments);
        let line = ind + qk + " = "@ + qv + inline_text(e.comments);
        assert(line =~= ind + x);
        assert(x[0] == qk[0]);
        lemma_line_after(ind, x);
        assert(lines_not_blank(seq![line]));
        lemma_not_blank_concat(comment_lines(e.comments, ind), seq![line]);
    } else {
        assert(scalar_entry_lines(e, ind, list_values)->Ok_0 =~= Seq::<Seq<char>>::empty());
    }
}

/// The values among the first `n` entries of a section are written on lines
/// that are never white space alone.
proof fn lemma_scalar_lines_not_blank(m: SectionModel, n: int, ind: Seq<char>, list_values: bool)
    requires
        0 <= n <= m.len(),
        scalar_lines(m, n, ind, list_values) is Ok,
    ensures
        lines_not_blank(scalar_lines(m, n, ind, list_values)->Ok_0),
    decreases n,
{
    if n > 0 {
        let prev = scalar_lines(m, n - 1, ind, list_values);
        assert(prev is Ok);
        lemma_scalar_lines_not_blank(m, n - 1, ind, list_values);
        lemma_scalar_entry_not_blank(m[n - 1], ind, list_values);
        lemma_not_blank_concat(prev->Ok_0, scalar_entry_lines(m[n - 1], ind, list_values)->Ok_0);
    }
}

/// A section written at any depth is written on lines that are never white
/// space alone.
proof fn lemma_section_not_blank(
    m: SectionModel,
    ind: Seq<char>,
    open: Seq<char>,
    close: Seq<char>,
    indent: Seq<char>,
    list_values: bool,
)
    requires
        open.len() > 0,
        open[0] == '[',
        write_section_spec(m, ind, open, close, indent, list_values) is Ok,
    ensures
        lines_not_blank(write_section_spec(m, ind, open, close, indent, list_values)->Ok_0),
    decreases m, m.len() + 1,
{
    let n = m.len() as int;
    assert(scalar_lines(m, n, ind, list_values) is Ok);
    assert(section_lines(m, n, ind, open, close, indent, list_values) is Ok);
    lemma_scalar_lines_not_blank(m, n, ind, list_values);
    lemma_sections_not_blank(m, n, ind, open, close, indent, list_values);
    lemma_not_blank_concat(scalar_lines(m, n, ind, list_values)->Ok_0, section_lines(m, n, ind, open, close, indent, list_values)->Ok_0);
}

/// The subsections among the first `n` entries of a section are written on
/// lines that are never white space alone.
proof fn lemma_sections_not_blank(
    m: SectionModel,
    n: int,
    ind: Seq<char>,
    open: Seq<char>,
    close: Seq<char>,
    indent: Seq<char>,
    list_values: bool,
)
    requires
        0 <= n <= m.len(),
        open.len() > 0,
        open[0] == '[',
        section_lines(m, n, ind, open, close, indent, list_values) is Ok,
    ensures
        lines_not_blank(section_lines(m, n, ind, open, close, indent, list_values)->Ok_0),
    decreases m, n,
{
    if n > 0 {
        let prev = section_lines(m, n - 1, ind, open, close, indent, list_values);
        assert(prev is Ok);
        lemma_sections_not_blank(m, n - 1, ind, open, close, indent, list_values);
        lemma_section_entry_not_blank(m[n - 1], ind, open, close, indent, list_values);
        lemma_not_blank_concat(prev->Ok_0, section_entry_lines(m[n - 1], ind, open, close, indent, list_values)->Ok_0);
    }
}

/// The lines of one subsection, its header and contents, are never white
/// space alone.
proof fn lemma_section_entry_not_blank(
    e: EntryModel,
    ind: Seq<char>,
    open: Seq<char>,
    close: Seq<char>,
    indent: Seq<char>,
    list_values: bool,
)
    requires
        open.len() > 0,
        open[0] == '[',
        section_entry_lines(e, ind, open, close, indent, list_values) is Ok,
    ensures
        lines_not_blank(section_entry_lines(e, ind, open, close, indent, list_values)->Ok_0),
    decreases e, 0int,
{
    match e.item {
        ItemModel::Section(sub) => {
            let qn = quote_section_name_spec(e.key, list_values)->Ok_0;
            let body = write_section_spec(sub, ind + indent, open.push('['), close.push(']'), indent, list_values);
            assert(body is Ok);
            assert(open.push('[')[0] == '[');
            lemma_section_not_blank(sub, ind + indent, open.push('['), close.push(']'), indent, list_values);
            lemma_comment_lines_not_blank(e.comments, ind);
            let x = open + qn + close + inline_text(e.comments);
            let header = ind + open + qn + close + inline_text(e.comments);
            assert(header =~= ind + x);
            assert(x[0] == '[');
            lemma_line_after(ind, x);
            assert(lines_not_blank(seq![header]));
            lemma_not_blank_concat(comment_lines(e.comments, ind), seq![header]);
            lemma_not_blank_concat(comment_lines(e.comments, ind) + seq![header], body->Ok_0);
        },
        ItemModel::Scalar(_) => {
            assert(section_entry_lines(e, ind, open, close, indent, list_values)->Ok_0 =~= Seq::<Seq<char>>::empty());
        },
    }
}

/// Every line the writer writes is either empty, as a blank line between
/// comments is, or holds something besides white space: no line is
/// indentation alone.
pub proof fn law_no_line_is_white_space_alone(c: ConfigModel)
    ensures
        render(c) matches Ok(lines) ==> lines_not_blank(lines),
{
    if let Ok(lines) = render(c) {
        let body = write_section_spec(c.root, Seq::empty(), seq!['['], seq![']'], c.indent, c.list_values);
        assert(body is Ok);
        lemma_section_not_blank(c.root, Seq::empty(), seq!['['], seq![']'], c.indent, c.list_values);
        let a = Some(CommentsModel { above: c.initial_comment, inline: None });
        let z = Some(CommentsModel { above: c.final_comment, inline: None });
        lemma_comment_lines_not_blank(a, Seq::empty());
        lemma_comment_lines_not_blank(z, Seq::empty());
        let ic = c.initial_comment.map_values(|t: Seq<char>| comment_line_spec(t));
        let fc = c.final_comment.map_values(|t: Seq<char>| comment_line_spec(t));
        assert forall|j: int| 0 <= j < ic.len() implies ic[j] == comment_lines(a, Seq::empty())[j] by {
            assert(Seq::<char>::empty() + comment_line_spec(c.initial_comment[j]) =~= comment_line_spec(c.initial_comment[j]));
        }
        assert forall|j: int| 0 <= j < fc.len() implies fc[j] == comment_lines(z, Seq::empty())[j] by {
            assert(Seq::<char>::empty() + comment_line_spec(c.final_comment[j]) =~= comment_line_spec(c.final_comment[j]));
        }
        assert(ic =~= comment_lines(a, Seq::empty()));
        assert(fc =~= comment_lines(z, Seq::empty()));
        lemma_not_blank_concat(ic, body->Ok_0);
        lemma_not_blank_concat(ic + body->Ok_0, fc);
    }
}

} // verus!
