//! Sections: ordered maps of keys to values and subsections.

use vstd::prelude::*;
use crate::text::str_eq;
use crate::value::{Value, ValueModel, NotABool, IntoValue, list_of, str_texts, bool_result, owned};

verus! {

/// Comments attached to an entry.
///
/// `above` holds whole lines preceding the entry (each without its leading
/// `#`, which is re-added on writing). `inline` is the trailing comment on the
/// entry's own line.
#[derive(Debug, Clone, Default, PartialEq, Eq)]
pub struct Comments {
    /// Comment lines sitting immediately above the entry.
    pub above: Vec<String>,
    /// Trailing comment on the same line as the entry.
    pub inline: Option<String>,
}

/// What a set of comments holds, as text.
pub struct CommentsModel {
    /// The lines above the entry.
    pub above: Seq<Seq<char>>,
    /// The comment on the entry's own line.
    pub inline: Option<Seq<char>>,
}

/// The text of an optional string.
pub open spec fn opt_text(s: Option<String>) -> Option<Seq<char>> {
    match s {
        Some(t) => Some(t@),
        None => None,
    }
}

impl View for Comments {
    type V = CommentsModel;

    open spec fn view(&self) -> CommentsModel {
        CommentsModel { above: crate::value::texts(self.above@), inline: opt_text(self.inline) }
    }
}

/// The comments of an entry, if it has any.
pub open spec fn opt_comments(c: Option<Comments>) -> Option<CommentsModel> {
    match c {
        Some(c) => Some(c@),
        None => None,
    }
}

impl Comments {
    /// Comments with no text at all.
    pub fn new() -> (c: Comments)
        ensures
            c@ == no_comments(),
    {
        let c = Comments { above: Vec::new(), inline: None };
        assert(c@.above =~= Seq::<Seq<char>>::empty());
        c
    }

    /// True if there is no comment text at all.
    pub fn is_empty(&self) -> (b: bool)
        ensures
            b == (self@.above.len() == 0 && self@.inline is None),
    {
        self.above.len() == 0 && self.inline.is_none()
    }
}

/// What an entry of a section holds.
#[derive(Debug, PartialEq, Eq)]
pub enum Entry {
    /// A value.
    Scalar(Value),
    /// A subsection.
    Section(Section),
}

/// What one entry of a section holds, with its comments; its key is kept
/// apart, so that handing out what an entry holds cannot change the key.
#[derive(Debug, PartialEq, Eq)]
struct Slot {
    entry: Entry,
    comments: Option<Comments>,
}

/// The keys of a section's entries and, in the same order, what they hold.
#[derive(Debug, PartialEq, Eq)]
struct Table {
    keys: Vec<String>,
    slots: Vec<Slot>,
}

/// A section of a config file: an ordered map of keys to values, plus nested
/// subsections.
///
/// Insertion order is preserved, so rewriting a file leaves entries where the
/// author put them.
#[derive(Debug, PartialEq, Eq)]
pub struct Section {
    table: Table,
}

/// What an entry holds, as text.
pub enum ItemModel {
    /// A value.
    Scalar(ValueModel),
    /// A subsection, with its entries in order.
    Section(Seq<EntryModel>),
}

/// One entry of a section, as text.
pub struct EntryModel {
    /// The entry's name.
    pub key: Seq<char>,
    /// What it holds.
    pub item: ItemModel,
    /// Its comments, if any have been attached.
    pub comments: Option<CommentsModel>,
}

/// The entries of a section, in order.
pub type SectionModel = Seq<EntryModel>;

spec fn entry_model(key: String, slot: Slot) -> EntryModel
    decreases slot,
{
    EntryModel {
        key: key@,
        item: match slot.entry {
            Entry::Scalar(v) => ItemModel::Scalar(v@),
            Entry::Section(s) => ItemModel::Section(slots_model(s.table.keys@, s.table.slots@)),
        },
        comments: opt_comments(slot.comments),
    }
}

spec fn slots_model(keys: Seq<String>, slots: Seq<Slot>) -> Seq<EntryModel>
    decreases slots,
{
    if slots.len() == 0 {
        Seq::empty()
    } else {
        slots_model(keys.drop_last(), slots.drop_last()).push(entry_model(keys.last(), slots.last()))
    }
}

/// The keys are distinct, and there is one for each entry.
spec fn table_ok(t: Table) -> bool {
    &&& t.keys@.len() == t.slots@.len()
    &&& forall|i: int, j: int| 0 <= i < j < t.keys@.len() ==> t.keys@[i]@ != t.keys@[j]@
}

impl Section {
    /// No two entries of a section share a key.
    #[verifier::type_invariant]
    spec fn keys_distinct(self) -> bool {
        table_ok(self.table)
    }
}

impl View for Section {
    type V = SectionModel;

    closed spec fn view(&self) -> SectionModel {
        slots_model(self.table.keys@, self.table.slots@)
    }
}

impl View for Entry {
    type V = ItemModel;

    open spec fn view(&self) -> ItemModel {
        match self {
            Entry::Scalar(v) => ItemModel::Scalar(v@),
            Entry::Section(s) => ItemModel::Section(s@),
        }
    }
}

// ---------------------------------------------------------------------------
// The model of a section, and what each operation does to it.
// ---------------------------------------------------------------------------

/// `i` is the first position of an entry named `k`.
pub open spec fn is_key_at(m: SectionModel, k: Seq<char>, i: int) -> bool {
    &&& 0 <= i < m.len()
    &&& m[i].key == k
    &&& forall|j: int| 0 <= j < i ==> m[j].key != k
}

/// The position of the entry named `k`, if there is one.
pub open spec fn key_index(m: SectionModel, k: Seq<char>) -> Option<int> {
    if exists|i: int| is_key_at(m, k, i) {
        Some(choose|i: int| is_key_at(m, k, i))
    } else {
        None
    }
}

/// Whether an entry is named `k`.
pub open spec fn has_key(m: SectionModel, k: Seq<char>) -> bool {
    exists|i: int| 0 <= i < m.len() && m[i].key == k
}

/// The value named `k`, if `k` names a value.
pub open spec fn value_at(m: SectionModel, k: Seq<char>) -> Option<ValueModel> {
    match key_index(m, k) {
        Some(i) => match m[i].item {
            ItemModel::Scalar(v) => Some(v),
            ItemModel::Section(_) => None,
        },
        None => None,
    }
}

/// The subsection named `k`, if `k` names a subsection.
pub open spec fn section_at(m: SectionModel, k: Seq<char>) -> Option<SectionModel> {
    match key_index(m, k) {
        Some(i) => match m[i].item {
            ItemModel::Section(s) => Some(s),
            ItemModel::Scalar(_) => None,
        },
        None => None,
    }
}

/// The comments attached to the entry named `k`, if any.
pub open spec fn comments_at(m: SectionModel, k: Seq<char>) -> Option<CommentsModel> {
    match key_index(m, k) {
        Some(i) => m[i].comments,
        None => None,
    }
}

/// Every key, in order.
pub open spec fn keys_of(m: SectionModel) -> Seq<Seq<char>> {
    m.map_values(|e: EntryModel| e.key)
}

/// The keys of the values, in order.
pub open spec fn scalar_keys(m: SectionModel) -> Seq<Seq<char>>
    decreases m.len(),
{
    if m.len() == 0 {
        Seq::empty()
    } else {
        scalar_keys(m.drop_last()) + if m.last().item is Scalar {
            seq![m.last().key]
        } else {
            Seq::empty()
        }
    }
}

/// The keys of the subsections, in order.
pub open spec fn section_keys(m: SectionModel) -> Seq<Seq<char>>
    decreases m.len(),
{
    if m.len() == 0 {
        Seq::empty()
    } else {
        section_keys(m.drop_last()) + if m.last().item is Section {
            seq![m.last().key]
        } else {
            Seq::empty()
        }
    }
}

/// The values, with their keys, in order.
pub open spec fn scalar_entries(m: SectionModel) -> Seq<(Seq<char>, ValueModel)>
    decreases m.len(),
{
    if m.len() == 0 {
        Seq::empty()
    } else {
        scalar_entries(m.drop_last()) + match m.last().item {
            ItemModel::Scalar(v) => seq![(m.last().key, v)],
            ItemModel::Section(_) => Seq::empty(),
        }
    }
}

/// The subsections, with their names, in order.
pub open spec fn section_entries(m: SectionModel) -> Seq<(Seq<char>, SectionModel)>
    decreases m.len(),
{
    if m.len() == 0 {
        Seq::empty()
    } else {
        section_entries(m.drop_last()) + match m.last().item {
            ItemModel::Section(s) => seq![(m.last().key, s)],
            ItemModel::Scalar(_) => Seq::empty(),
        }
    }
}

/// Comments holding no text.
pub open spec fn no_comments() -> CommentsModel {
    CommentsModel { above: Seq::empty(), inline: None }
}

/// No two entries share a key.
pub open spec fn distinct_keys(m: SectionModel) -> bool {
    forall|i: int, j: int| 0 <= i < j < m.len() ==> m[i].key != m[j].key
}

/// `m` with the entry named `k` holding `item`: an existing entry keeps its
/// place and comments, a new one goes at the end.
pub open spec fn with_item(m: SectionModel, k: Seq<char>, item: ItemModel) -> SectionModel {
    match key_index(m, k) {
        Some(i) => m.update(i, EntryModel { key: k, item, comments: m[i].comments }),
        None => m.push(EntryModel { key: k, item, comments: None }),
    }
}

/// `m` with the entry named `k` removed, comments and all.
pub open spec fn without(m: SectionModel, k: Seq<char>) -> SectionModel {
    match key_index(m, k) {
        Some(i) => m.remove(i),
        None => m,
    }
}

/// `m` with the comments of the entry named `k` replaced.
pub open spec fn with_comments(m: SectionModel, k: Seq<char>, c: CommentsModel) -> SectionModel {
    match key_index(m, k) {
        Some(i) => m.update(i, EntryModel { comments: Some(c), ..m[i] }),
        None => m,
    }
}

/// Whether `rename(from, to)` succeeds on `m`.
pub open spec fn can_rename(m: SectionModel, from: Seq<char>, to: Seq<char>) -> bool {
    if from == to {
        has_key(m, from)
    } else {
        has_key(m, from) && !has_key(m, to)
    }
}

/// `m` after renaming `from` to `to`, which keeps the entry's place,
/// contents and comments.
pub open spec fn renamed(m: SectionModel, from: Seq<char>, to: Seq<char>) -> SectionModel {
    match key_index(m, from) {
        Some(i) => if can_rename(m, from, to) {
            m.update(i, EntryModel { key: to, ..m[i] })
        } else {
            m
        },
        None => m,
    }
}

/// The value at the end of a path of section names, if the path leads to one.
pub open spec fn value_at_path(m: SectionModel, path: Seq<Seq<char>>) -> Option<ValueModel>
    decreases path.len(),
{
    if path.len() == 0 {
        None
    } else if path.len() == 1 {
        value_at(m, path[0])
    } else {
        match section_at(m, path[0]) {
            Some(s) => value_at_path(s, path.drop_first()),
            None => None,
        }
    }
}

/// The subsection at the end of a path of section names, if there is one.
pub open spec fn section_at_path(m: SectionModel, path: Seq<Seq<char>>) -> Option<SectionModel>
    decreases path.len(),
{
    if path.len() == 0 {
        Some(m)
    } else {
        match section_at(m, path[0]) {
            Some(s) => section_at_path(s, path.drop_first()),
            None => None,
        }
    }
}

// ---------------------------------------------------------------------------
// Lemmas relating the concrete slots to the model.
// ---------------------------------------------------------------------------

proof fn lemma_slots_model(k: Seq<String>, s: Seq<Slot>)
    requires
        k.len() == s.len(),
    ensures
        slots_model(k, s).len() == s.len(),
        forall|i: int| 0 <= i < s.len() ==> #[trigger] slots_model(k, s)[i] == entry_model(k[i], s[i]),
    decreases s.len(),
{
    if s.len() > 0 {
        lemma_slots_model(k.drop_last(), s.drop_last());
        assert forall|i: int| 0 <= i < s.len() implies #[trigger] slots_model(k, s)[i] == entry_model(
            k[i],
            s[i],
        ) by {
            if i < s.len() - 1 {
                assert(s.drop_last()[i] == s[i]);
                assert(k.drop_last()[i] == k[i]);
            }
        }
    }
}

/// The keys of the model are the keys kept, so a table whose keys are
/// distinct models a section with distinct keys.
proof fn lemma_table_ok(t: Table)
    requires
        table_ok(t),
    ensures
        slots_model(t.keys@, t.slots@).len() == t.slots@.len(),
        forall|i: int| 0 <= i < t.slots@.len() ==> #[trigger] slots_model(t.keys@, t.slots@)[i] == entry_model(t.keys@[i], t.slots@[i]),
        distinct_keys(slots_model(t.keys@, t.slots@)),
{
    lemma_slots_model(t.keys@, t.slots@);
}

/// A table with one key to each entry whose model has distinct keys is
/// well formed.
proof fn lemma_ok_table(t: Table)
    requires
        t.keys@.len() == t.slots@.len(),
        distinct_keys(slots_model(t.keys@, t.slots@)),
    ensures
        table_ok(t),
{
    lemma_slots_model(t.keys@, t.slots@);
    assert forall|i: int, j: int| 0 <= i < j < t.keys@.len() implies t.keys@[i]@ != t.keys@[j]@ by {
        assert(slots_model(t.keys@, t.slots@)[i].key == t.keys@[i]@);
        assert(slots_model(t.keys@, t.slots@)[j].key == t.keys@[j]@);
    }
}

proof fn lemma_model_update(k: Seq<String>, s: Seq<Slot>, i: int, slot: Slot)
    requires
        k.len() == s.len(),
        0 <= i < s.len(),
    ensures
        slots_model(k, s.update(i, slot)) == slots_model(k, s).update(i, entry_model(k[i], slot)),
{
    lemma_slots_model(k, s);
    lemma_slots_model(k, s.update(i, slot));
    assert(slots_model(k, s.update(i, slot)) =~= slots_model(k, s).update(i, entry_model(k[i], slot)));
}

proof fn lemma_model_rekey(k: Seq<String>, s: Seq<Slot>, i: int, key: String)
    requires
        k.len() == s.len(),
        0 <= i < s.len(),
    ensures
        slots_model(k.update(i, key), s) == slots_model(k, s).update(i, entry_model(key, s[i])),
{
    lemma_slots_model(k, s);
    lemma_slots_model(k.update(i, key), s);
    assert(slots_model(k.update(i, key), s) =~= slots_model(k, s).update(i, entry_model(key, s[i])));
}

proof fn lemma_model_push(k: Seq<String>, s: Seq<Slot>, key: String, slot: Slot)
    ensures
        slots_model(k.push(key), s.push(slot)) == slots_model(k, s).push(entry_model(key, slot)),
{
    assert(s.push(slot).drop_last() == s);
    assert(k.push(key).drop_last() == k);
}

proof fn lemma_model_remove(k: Seq<String>, s: Seq<Slot>, i: int)
    requires
        k.len() == s.len(),
        0 <= i < s.len(),
    ensures
        slots_model(k.remove(i), s.remove(i)) == slots_model(k, s).remove(i),
{
    lemma_slots_model(k, s);
    lemma_slots_model(k.remove(i), s.remove(i));
    assert(slots_model(k.remove(i), s.remove(i)) =~= slots_model(k, s).remove(i));
}

/// The first-position witness is unique.
pub proof fn lemma_key_index(m: SectionModel, k: Seq<char>, i: int)
    requires
        is_key_at(m, k, i),
    ensures
        key_index(m, k) == Some(i),
{
    assert forall|j: int| is_key_at(m, k, j) implies j == i by {
        if j < i {
            assert(m[j].key == k);
        } else if j > i {
            assert(m[i].key == k);
        }
    }
}

/// An entry named `k` exists exactly when `key_index` finds one.
pub proof fn lemma_key_index_some(m: SectionModel, k: Seq<char>)
    ensures
        has_key(m, k) <==> key_index(m, k) is Some,
        key_index(m, k) matches Some(i) ==> is_key_at(m, k, i),
{
    if has_key(m, k) {
        let w = choose|i: int| 0 <= i < m.len() && m[i].key == k;
        // The smallest position holding `k` is the first one.
        assert(exists|i: int| is_key_at(m, k, i)) by {
            lemma_first_key(m, k, w);
        }
    }
}

proof fn lemma_first_key(m: SectionModel, k: Seq<char>, w: int)
    requires
        0 <= w < m.len(),
        m[w].key == k,
    ensures
        exists|i: int| is_key_at(m, k, i),
    decreases w,
{
    if forall|j: int| 0 <= j < w ==> m[j].key != k {
        assert(is_key_at(m, k, w));
    } else {
        let v = choose|j: int| 0 <= j < w && m[j].key == k;
        lemma_first_key(m, k, v);
    }
}


/// A copy of lines of text.
pub(crate) fn copy_lines(v: &Vec<String>) -> (r: Vec<String>)
    ensures
        crate::value::texts(r@) == crate::value::texts(v@),
{
    let mut r: Vec<String> = Vec::new();
    let mut i: usize = 0;
    while i < v.len()
        invariant
            0 <= i <= v@.len(),
            r@.len() == i,
            forall|j: int| 0 <= j < i ==> (#[trigger] r@[j])@ == v@[j]@,
        decreases v@.len() - i,
    {
        r.push(v[i].clone());
        i = i + 1;
    }
    assert(crate::value::texts(r@) =~= crate::value::texts(v@));
    r
}

/// A copy of a value.
fn copy_value(v: &Value) -> (r: Value)
    ensures
        r@ == v@,
{
    match v {
        Value::String(s) => Value::String(s.clone()),
        Value::List(items) => Value::List(copy_lines(items)),
    }
}

/// A copy of the comments of an entry.
fn copy_comments(c: &Comments) -> (r: Comments)
    ensures
        r@ == c@,
{
    let inline = match &c.inline {
        Some(t) => Some(t.clone()),
        None => None,
    };
    Comments { above: copy_lines(&c.above), inline }
}

/// A copy of the comments of an entry, if it has any.
fn copy_opt_comments(c: &Option<Comments>) -> (r: Option<Comments>)
    ensures
        opt_comments(r) == opt_comments(*c),
{
    match c {
        Some(x) => Some(copy_comments(x)),
        None => None,
    }
}

/// A copy of a section, subsections and all.
fn copy_section(s: &Section) -> (r: Section)
    ensures
        r@ == s@,
    decreases s,
{
    proof {
        use_type_invariant(s);
        lemma_table_ok(s.table);
    }
    let ghost sk = s.table.keys@;
    let ghost ss = s.table.slots@;
    let mut keys: Vec<String> = Vec::new();
    let mut slots: Vec<Slot> = Vec::new();
    let mut i: usize = 0;
    while i < s.table.slots.len()
        invariant
            0 <= i <= ss.len(),
            sk == s.table.keys@,
            ss == s.table.slots@,
            sk.len() == ss.len(),
            keys@.len() == i,
            slots@.len() == i,
            forall|j: int| 0 <= j < i ==> (#[trigger] keys@[j])@ == sk[j]@,
            slots_model(keys@, slots@) == slots_model(sk.take(i as int), ss.take(i as int)),
        decreases ss.len() - i,
    {
        let entry = match &s.table.slots[i].entry {
            Entry::Scalar(v) => Entry::Scalar(copy_value(v)),
            Entry::Section(sub) => {
                assert(decreases_to!(s => sub)) by {
                    assert(decreases_to!(s => s.table));
                    assert(decreases_to!(s.table => s.table.slots));
                    assert(decreases_to!(s.table.slots => s.table.slots@));
                    assert(decreases_to!(s.table.slots@ => s.table.slots@[i as int]));
                    assert(decreases_to!(s.table.slots@[i as int] => s.table.slots@[i as int].entry));
                    assert(decreases_to!(s.table.slots@[i as int].entry => s.table.slots@[i as int].entry->Section_0));
                }
                Entry::Section(copy_section(sub))
            },
        };
        let copy = Slot { entry, comments: copy_opt_comments(&s.table.slots[i].comments) };
        let key = s.table.keys[i].clone();
        assert(entry_model(key, copy) == entry_model(sk[i as int], ss[i as int]));
        let ghost bk = keys@;
        let ghost bs = slots@;
        keys.push(key);
        slots.push(copy);
        proof {
            lemma_model_push(bk, bs, key, copy);
            assert(keys@ == bk.push(key));
            assert(slots@ == bs.push(copy));
            assert(sk.take(i + 1).drop_last() == sk.take(i as int));
            assert(ss.take(i + 1).drop_last() == ss.take(i as int));
            assert(sk.take(i + 1).last() == sk[i as int]);
            assert(ss.take(i + 1).last() == ss[i as int]);
        }
        i = i + 1;
    }
    assert(sk.take(sk.len() as int) == sk);
    assert(ss.take(ss.len() as int) == ss);
    let t = Table { keys, slots };
    proof {
        assert forall|a: int, b: int| 0 <= a < b < t.keys@.len() implies t.keys@[a]@ != t.keys@[b]@ by {
            assert(t.keys@[a]@ == sk[a]@);
            assert(t.keys@[b]@ == sk[b]@);
        }
    }
    Section { table: t }
}

/// A copy of a section holds what the section holds.
impl Clone for Section {
    fn clone(&self) -> (r: Section)
        ensures
            r@ == self@,
    {
        copy_section(self)
    }
}

/// An empty section.
impl Default for Section {
    fn default() -> (s: Section)
        ensures
            s@ == Seq::<EntryModel>::empty(),
    {
        Section::new()
    }
}

impl Section {
    /// Create an empty section.
    pub fn new() -> (s: Section)
        ensures
            s@ == Seq::<EntryModel>::empty(),
    {
        Section { table: Table { keys: Vec::new(), slots: Vec::new() } }
    }

    /// The position of the entry named `key`.
    fn position(&self, key: &str) -> (r: Option<usize>)
        ensures
            match r {
                Some(i) => key_index(self@, key@) == Some(i as int) && i < self.table.slots@.len(),
                None => key_index(self@, key@) is None && !has_key(self@, key@),
            },
    {
        proof {
            use_type_invariant(&*self);
            lemma_table_ok(self.table);
        }
        let mut i: usize = 0;
        while i < self.table.slots.len()
            invariant
                0 <= i <= self.table.slots@.len(),
                self@.len() == self.table.slots@.len(),
                self.table.keys@.len() == self.table.slots@.len(),
                forall|j: int| 0 <= j < i ==> self@[j].key != key@,
                forall|j: int| 0 <= j < self.table.slots@.len() ==> #[trigger] self@[j] == entry_model(self.table.keys@[j], self.table.slots@[j]),
            decreases self.table.slots@.len() - i,
        {
            if str_eq(self.table.keys[i].as_str(), key) {
                proof {
                    assert(self@[i as int].key == key@);
                    lemma_key_index(self@, key@, i as int);
                }
                return Some(i);
            }
            i = i + 1;
        }
        proof {
            lemma_key_index_some(self@, key@);
        }
        None
    }

    /// The number of entries, counting values and subsections together.
    pub fn len(&self) -> (n: usize)
        ensures
            n == self@.len(),
    {
        proof {
            use_type_invariant(&*self);
            lemma_table_ok(self.table);
        }
        self.table.slots.len()
    }

    /// True if the section holds nothing at all.
    pub fn is_empty(&self) -> (b: bool)
        ensures
            b == (self@.len() == 0),
    {
        proof {
            use_type_invariant(&*self);
            lemma_table_ok(self.table);
        }
        self.table.slots.len() == 0
    }

    /// True if `key` names either a value or a subsection here.
    pub fn contains_key(&self, key: &str) -> (b: bool)
        ensures
            b == has_key(self@, key@),
    {
        proof {
            lemma_key_index_some(self@, key@);
        }
        self.position(key).is_some()
    }

    /// Every key in this section, in file order, including subsection names.
    pub fn keys(&self) -> (r: Vec<&str>)
        ensures
            str_texts(r@) == keys_of(self@),
    {
        proof {
            use_type_invariant(&*self);
            lemma_table_ok(self.table);
        }
        let mut r: Vec<&str> = Vec::new();
        let mut i: usize = 0;
        while i < self.table.slots.len()
            invariant
                0 <= i <= self.table.slots@.len(),
                self@.len() == self.table.slots@.len(),
                self.table.keys@.len() == self.table.slots@.len(),
                forall|j: int| 0 <= j < self.table.slots@.len() ==> #[trigger] self@[j] == entry_model(self.table.keys@[j], self.table.slots@[j]),
                r@.len() == i,
                forall|j: int| 0 <= j < i ==> (#[trigger] r@[j])@ == self@[j].key,
            decreases self.table.slots@.len() - i,
        {
            r.push(self.table.keys[i].as_str());
            i = i + 1;
        }
        assert(str_texts(r@) =~= keys_of(self@));
        r
    }

    /// The value stored under `key`, if it is a scalar.
    ///
    /// Returns `None` when `key` is absent or names a subsection.
    pub fn get(&self, key: &str) -> (r: Option<&Value>)
        ensures
            match value_at(self@, key@) {
                Some(v) => (r matches Some(x) && x@ == v),
                None => r is None,
            },
    {
        match self.position(key) {
            Some(i) => {
                proof {
                    use_type_invariant(&*self);
            lemma_table_ok(self.table);
                }
                match &self.table.slots[i].entry {
                    Entry::Scalar(v) => Some(v),
                    Entry::Section(_) => None,
                }
            },
            None => None,
        }
    }

    /// Mutable access to the value under `key`, if it is a scalar.
    pub fn get_mut(&mut self, key: &str) -> (r: Option<&mut Value>)
        ensures
            match value_at(old(self)@, key@) {
                Some(v) => (r matches Some(x) && (*x)@ == v && final(self)@ == with_item(
                    old(self)@,
                    key@,
                    ItemModel::Scalar((*final(x))@),
                )),
                None => r is None && final(self)@ == old(self)@,
            },
    {
        match self.position(key) {
            Some(i) => {
                proof {
                    use_type_invariant(&*self);
            lemma_table_ok(self.table);
                }
                let ghost old_slots = self.table.slots@;
                if let Entry::Section(_) = &self.table.slots[i].entry {
                    return None;
                }
                match &mut self.table.slots[i].entry {
                    Entry::Scalar(v) => {
                        proof {
                            lemma_model_update(
                                self.table.keys@,
                                old_slots,
                                i as int,
                                Slot {
                                    entry: Entry::Scalar(*final(v)),
                                    comments: old_slots[i as int].comments,
                                },
                            );
                        }
                        Some(v)
                    },
                    Entry::Section(_) => None,
                }
            },
            None => None,
        }
    }

    /// The names of the scalar entries, in file order.
    pub fn scalars(&self) -> (r: Vec<&str>)
        ensures
            str_texts(r@) == scalar_keys(self@),
    {
        proof {
            use_type_invariant(&*self);
            lemma_table_ok(self.table);
        }
        let mut r: Vec<&str> = Vec::new();
        let mut i: usize = 0;
        while i < self.table.slots.len()
            invariant
                0 <= i <= self.table.slots@.len(),
                self@.len() == self.table.slots@.len(),
                self.table.keys@.len() == self.table.slots@.len(),
                forall|j: int| 0 <= j < self.table.slots@.len() ==> #[trigger] self@[j] == entry_model(self.table.keys@[j], self.table.slots@[j]),
                str_texts(r@) == scalar_keys(self@.take(i as int)),
            decreases self.table.slots@.len() - i,
        {
            let ghost r0 = r@;
            assert(self@.take(i + 1).drop_last() == self@.take(i as int));
            if let Entry::Scalar(_) = &self.table.slots[i].entry {
                r.push(self.table.keys[i].as_str());
                assert(str_texts(r@) =~= str_texts(r0).push(self@[i as int].key));
            }
            i = i + 1;
        }
        assert(self@.take(self@.len() as int) == self@);
        r
    }

    /// The names of the subsections, in file order.
    pub fn section_names(&self) -> (r: Vec<&str>)
        ensures
            str_texts(r@) == section_keys(self@),
    {
        proof {
            use_type_invariant(&*self);
            lemma_table_ok(self.table);
        }
        let mut r: Vec<&str> = Vec::new();
        let mut i: usize = 0;
        while i < self.table.slots.len()
            invariant
                0 <= i <= self.table.slots@.len(),
                self@.len() == self.table.slots@.len(),
                self.table.keys@.len() == self.table.slots@.len(),
                forall|j: int| 0 <= j < self.table.slots@.len() ==> #[trigger] self@[j] == entry_model(self.table.keys@[j], self.table.slots@[j]),
                str_texts(r@) == section_keys(self@.take(i as int)),
            decreases self.table.slots@.len() - i,
        {
            let ghost r0 = r@;
            assert(self@.take(i + 1).drop_last() == self@.take(i as int));
            if let Entry::Section(_) = &self.table.slots[i].entry {
                r.push(self.table.keys[i].as_str());
                assert(str_texts(r@) =~= str_texts(r0).push(self@[i as int].key));
            }
            i = i + 1;
        }
        assert(self@.take(self@.len() as int) == self@);
        r
    }

    /// Iterate over the scalar entries in file order.
    pub fn iter(&self) -> (r: Vec<(&str, &Value)>)
        ensures
            r@.map_values(|p: (&str, &Value)| (p.0@, p.1@)) == scalar_entries(self@),
    {
        proof {
            use_type_invariant(&*self);
            lemma_table_ok(self.table);
        }
        let mut r: Vec<(&str, &Value)> = Vec::new();
        let mut i: usize = 0;
        while i < self.table.slots.len()
            invariant
                0 <= i <= self.table.slots@.len(),
                self@.len() == self.table.slots@.len(),
                self.table.keys@.len() == self.table.slots@.len(),
                forall|j: int| 0 <= j < self.table.slots@.len() ==> #[trigger] self@[j] == entry_model(self.table.keys@[j], self.table.slots@[j]),
                r@.map_values(|p: (&str, &Value)| (p.0@, p.1@)) == scalar_entries(self@.take(i as int)),
            decreases self.table.slots@.len() - i,
        {
            let ghost r0 = r@;
            assert(self@.take(i + 1).drop_last() == self@.take(i as int));
            if let Entry::Scalar(v) = &self.table.slots[i].entry {
                r.push((self.table.keys[i].as_str(), v));
                assert(r@.map_values(|p: (&str, &Value)| (p.0@, p.1@)) =~= r0.map_values(|p: (&str, &Value)| (p.0@, p.1@)).push((self@[i as int].key, v@)));
            }
            i = i + 1;
        }
        assert(self@.take(self@.len() as int) == self@);
        r
    }

    /// Iterate over the subsections in file order.
    pub fn sections(&self) -> (r: Vec<(&str, &Section)>)
        ensures
            r@.map_values(|p: (&str, &Section)| (p.0@, p.1@)) == section_entries(self@),
    {
        proof {
            use_type_invariant(&*self);
            lemma_table_ok(self.table);
        }
        let mut r: Vec<(&str, &Section)> = Vec::new();
        let mut i: usize = 0;
        while i < self.table.slots.len()
            invariant
                0 <= i <= self.table.slots@.len(),
                self@.len() == self.table.slots@.len(),
                self.table.keys@.len() == self.table.slots@.len(),
                forall|j: int| 0 <= j < self.table.slots@.len() ==> #[trigger] self@[j] == entry_model(self.table.keys@[j], self.table.slots@[j]),
                r@.map_values(|p: (&str, &Section)| (p.0@, p.1@)) == section_entries(self@.take(i as int)),
            decreases self.table.slots@.len() - i,
        {
            let ghost r0 = r@;
            assert(self@.take(i + 1).drop_last() == self@.take(i as int));
            if let Entry::Section(s) = &self.table.slots[i].entry {
                r.push((self.table.keys[i].as_str(), s));
                assert(r@.map_values(|p: (&str, &Section)| (p.0@, p.1@)) =~= r0.map_values(|p: (&str, &Section)| (p.0@, p.1@)).push((self@[i as int].key, s@)));
            }
            i = i + 1;
        }
        assert(self@.take(self@.len() as int) == self@);
        r
    }

    /// The value under `key` as a string, if it is a single (non-list) value.
    pub fn get_str(&self, key: &str) -> (r: Option<&str>)
        ensures
            match value_at(self@, key@) {
                Some(ValueModel::String(t)) => (r matches Some(s) && s@ == t),
                _ => r is None,
            },
    {
        match self.get(key) {
            Some(v) => v.as_str(),
            None => None,
        }
    }

    /// The value under `key` interpreted as a boolean.
    ///
    /// `None` if the key is absent; `Some(Err(..))` if it is present but not a
    /// recognised boolean, so a typo is never silently treated as `false`.
    pub fn get_bool(&self, key: &str) -> (r: Option<Result<bool, NotABool>>)
        ensures
            match value_at(self@, key@) {
                Some(v) => (r matches Some(b) && bool_result(v, b)),
                None => r is None,
            },
    {
        match self.get(key) {
            Some(v) => Some(v.as_bool()),
            None => None,
        }
    }

    /// The value under `key` as a list.
    ///
    /// A single value counts as a one-element list.
    pub fn get_list(&self, key: &str) -> (r: Option<Vec<&str>>)
        ensures
            match value_at(self@, key@) {
                Some(v) => (r matches Some(l) && str_texts(l@) == list_of(v)),
                None => r is None,
            },
    {
        match self.get(key) {
            Some(v) => Some(v.as_list()),
            None => None,
        }
    }

    /// The subsection named `key`, if there is one.
    pub fn section(&self, key: &str) -> (r: Option<&Section>)
        ensures
            match section_at(self@, key@) {
                Some(s) => (r matches Some(x) && x@ == s),
                None => r is None,
            },
    {
        match self.position(key) {
            Some(i) => {
                proof {
                    use_type_invariant(&*self);
            lemma_table_ok(self.table);
                }
                match &self.table.slots[i].entry {
                    Entry::Section(s) => Some(s),
                    Entry::Scalar(_) => None,
                }
            },
            None => None,
        }
    }

    /// Mutable access to the subsection named `key`.
    pub fn section_mut(&mut self, key: &str) -> (r: Option<&mut Section>)
        ensures
            match section_at(old(self)@, key@) {
                Some(s) => (r matches Some(x) && (*x)@ == s && final(self)@ == with_item(
                    old(self)@,
                    key@,
                    ItemModel::Section((*final(x))@),
                )),
                None => r is None && final(self)@ == old(self)@,
            },
    {
        match self.position(key) {
            Some(i) => {
                proof {
                    use_type_invariant(&*self);
            lemma_table_ok(self.table);
                }
                let ghost old_slots = self.table.slots@;
                if let Entry::Scalar(_) = &self.table.slots[i].entry {
                    return None;
                }
                match &mut self.table.slots[i].entry {
                    Entry::Section(s) => {
                        proof {
                            lemma_model_update(
                                self.table.keys@,
                                old_slots,
                                i as int,
                                Slot {
                                    entry: Entry::Section(*final(s)),
                                    comments: old_slots[i as int].comments,
                                },
                            );
                        }
                        Some(s)
                    },
                    Entry::Scalar(_) => None,
                }
            },
            None => None,
        }
    }


    /// Look up a value by a path of section names ending in a key.
    ///
    /// `conf.get_path(&["auth", "example.com", "user"])` walks two sections
    /// down. An empty path yields `None`.
    pub fn get_path(&self, path: &[&str]) -> (r: Option<&Value>)
        ensures
            match value_at_path(self@, str_texts(path@)) {
                Some(v) => (r matches Some(x) && x@ == v),
                None => r is None,
            },
    {
        let ghost p = str_texts(path@);
        if path.len() == 0 {
            return None;
        }
        let last = path.len() - 1;
        let mut current: &Section = self;
        let mut i: usize = 0;
        while i < last
            invariant
                0 <= i <= last,
                last + 1 == path@.len(),
                p == str_texts(path@),
                section_at_path(self@, p.take(i as int)) == Some(current@),
            decreases last - i,
        {
            proof {
                lemma_path_push(self@, p.take(i as int), p[i as int]);
                assert(p.take(i + 1) == p.take(i as int).push(p[i as int]));
            }
            match current.section(path[i]) {
                Some(s) => {
                    current = s;
                },
                None => {
                    proof {
                        lemma_path_push(self@, p.take(last as int), p[last as int]);
                        lemma_path_none_extends(self@, p, i + 1);
                        assert(p.take(last + 1) == p);
                    }
                    return None;
                },
            }
            i = i + 1;
        }
        proof {
            lemma_path_push(self@, p.take(last as int), p[last as int]);
            assert(p.take(last as int).push(p[last as int]) == p);
        }
        current.get(path[last])
    }

    /// Look up a nested subsection by path.
    pub fn section_path(&self, path: &[&str]) -> (r: Option<&Section>)
        ensures
            match section_at_path(self@, str_texts(path@)) {
                Some(s) => (r matches Some(x) && x@ == s),
                None => r is None,
            },
    {
        let ghost p = str_texts(path@);
        let mut current: &Section = self;
        let mut i: usize = 0;
        while i < path.len()
            invariant
                0 <= i <= path@.len(),
                p == str_texts(path@),
                section_at_path(self@, p.take(i as int)) == Some(current@),
            decreases path@.len() - i,
        {
            proof {
                lemma_path_push(self@, p.take(i as int), p[i as int]);
                assert(p.take(i + 1) == p.take(i as int).push(p[i as int]));
            }
            match current.section(path[i]) {
                Some(s) => {
                    current = s;
                },
                None => {
                    proof {
                        lemma_path_none_extends(self@, p, i + 1);
                    }
                    return None;
                },
            }
            i = i + 1;
        }
        assert(p.take(path@.len() as int) == p);
        Some(current)
    }

    /// Move the entries out, leaving the section empty.
    fn take_table(&mut self) -> (t: Table)
        ensures
            t == old(self).table,
            final(self)@ == Seq::<EntryModel>::empty(),
    {
        let mut t = Table { keys: Vec::new(), slots: Vec::new() };
        std::mem::swap(&mut t, &mut self.table);
        t
    }

    /// Store an entry, replacing whatever was there.
    fn set_entry(&mut self, key: String, entry: Entry)
        ensures
            final(self)@ == with_item(old(self)@, key@, entry@),
    {
        proof {
            use_type_invariant(&*self);
            lemma_table_ok(self.table);
            law_keys_stay_distinct(self@, key@, key@, entry@, no_comments());
        }
        match self.position(key.as_str()) {
            Some(i) => {
                let ghost old_slots = self.table.slots@;
                let ghost new_slot = Slot { entry: entry, comments: old_slots[i as int].comments };
                proof {
                    lemma_model_update(self.table.keys@, old_slots, i as int, new_slot);
                }
                self.table.slots[i].entry = entry;
                assert(self.table.slots@ == old_slots.update(i as int, new_slot));
            },
            None => {
                let ghost m0 = self@;
                let mut t = self.take_table();
                let ghost ok = t.keys@;
                let ghost os = t.slots@;
                let slot = Slot { entry, comments: None };
                proof {
                    lemma_model_push(ok, os, key, slot);
                }
                t.keys.push(key);
                t.slots.push(slot);
                proof {
                    assert(t.keys@ == ok.push(key));
                    assert(t.slots@ == os.push(slot));
                    assert(slots_model(t.keys@, t.slots@) == with_item(m0, key@, entry@));
                    lemma_ok_table(t);
                }
                self.table = t;
            },
        }
    }

    /// Store a scalar value, replacing whatever was there.
    ///
    /// A new key goes at the end; an existing one keeps its position and its
    /// comments. Replacing a subsection with a scalar discards the subsection.
    pub fn insert<V: IntoValue>(&mut self, key: &str, value: V)
        ensures
            final(self)@ == with_item(old(self)@, key@, ItemModel::Scalar(value.value_model())),
    {
        let v = value.into_value();
        self.set_entry(owned(key), Entry::Scalar(v));
    }

    /// Store a subsection, replacing whatever was there.
    pub fn insert_section(&mut self, key: &str, section: Section)
        ensures
            final(self)@ == with_item(old(self)@, key@, ItemModel::Section(section@)),
    {
        self.set_entry(owned(key), Entry::Section(section));
    }

    /// The subsection named `key`, creating an empty one if needed.
    ///
    /// If `key` currently holds a scalar, it is replaced by a new section.
    pub fn entry_section(&mut self, key: &str) -> (r: &mut Section)
        ensures
            (*r)@ == (match section_at(old(self)@, key@) {
                Some(s) => s,
                None => Seq::<EntryModel>::empty(),
            }),
            final(self)@ == with_item(old(self)@, key@, ItemModel::Section((*final(r))@)),
    {
        let ghost m0 = self@;
        let present = match self.position(key) {
            Some(i) => match &self.table.slots[i].entry {
                Entry::Section(_) => true,
                Entry::Scalar(_) => false,
            },
            None => false,
        };
        proof {
            use_type_invariant(&*self);
            lemma_table_ok(self.table);
            lemma_key_index_some(self@, key@);
        }
        if !present {
            self.set_entry(owned(key), Entry::Section(Section::new()));
            proof {
                lemma_with_item_facts(m0, key@, ItemModel::Section(Seq::empty()));
            }
        }
        let ghost m1 = self@;
        assert(section_at(m1, key@) is Some);
        let r = self.section_mut(key);
        proof {
            if !present {
                lemma_with_item_twice(m0, key@, ItemModel::Section(Seq::empty()), ItemModel::Section((*final(r->0))@));
            }
        }
        r.unwrap()
    }

    /// Remove the value or subsection under `key`, returning true if
    /// something was removed.
    pub fn remove(&mut self, key: &str) -> (r: bool)
        ensures
            r == has_key(old(self)@, key@),
            final(self)@ == without(old(self)@, key@),
            key_index(old(self)@, key@) matches Some(i) ==> final(self)@ == old(self)@.subrange(0, i)
                + old(self)@.subrange(i + 1, old(self)@.len() as int),
            !has_key(final(self)@, key@),
            forall|other: Seq<char>| other != key@ ==> {
                &&& value_at(final(self)@, other) == value_at(old(self)@, other)
                &&& section_at(final(self)@, other) == section_at(old(self)@, other)
                &&& comments_at(final(self)@, other) == comments_at(old(self)@, other)
            },
    {
        proof {
            use_type_invariant(&*self);
            lemma_table_ok(self.table);
            law_keys_stay_distinct(self@, key@, key@, ItemModel::Section(Seq::empty()), no_comments());
            law_remove_keeps_order(self@, key@);
            let m = self@;
            assert forall|other: Seq<char>| other != key@ implies {
                &&& value_at(without(m, key@), other) == value_at(m, other)
                &&& section_at(without(m, key@), other) == section_at(m, other)
                &&& comments_at(without(m, key@), other) == comments_at(m, other)
            } by {
                law_remove(m, key@, other);
            }
            // Any other name serves to learn from the law that the key is gone.
            if key@.len() == 0 {
                law_remove(m, key@, seq!['x']);
            } else {
                law_remove(m, key@, Seq::empty());
            }
        }
        match self.position(key) {
            Some(i) => {
                let ghost m0 = self@;
                let mut t = self.take_table();
                proof {
                    lemma_model_remove(t.keys@, t.slots@, i as int);
                    lemma_key_index_some(m0, key@);
                }
                let ghost ok = t.keys@;
                let ghost os = t.slots@;
                t.keys.remove(i);
                t.slots.remove(i);
                proof {
                    assert(t.keys@ == ok.remove(i as int));
                    assert(t.slots@ == os.remove(i as int));
                    lemma_ok_table(t);
                }
                self.table = t;
                true
            },
            None => false,
        }
    }

    /// Remove every entry.
    pub fn clear(&mut self)
        ensures
            final(self)@ == Seq::<EntryModel>::empty(),
    {
        self.table = Table { keys: Vec::new(), slots: Vec::new() };
    }

    /// Rename an entry, keeping its position, value and comments.
    ///
    /// Returns false if `from` does not exist, or if `to` is already taken by
    /// a different entry.
    pub fn rename(&mut self, from: &str, to: &str) -> (r: bool)
        ensures
            r == can_rename(old(self)@, from@, to@),
            final(self)@ == renamed(old(self)@, from@, to@),
            r ==> {
                &&& value_at(final(self)@, to@) == value_at(old(self)@, from@)
                &&& section_at(final(self)@, to@) == section_at(old(self)@, from@)
                &&& comments_at(final(self)@, to@) == comments_at(old(self)@, from@)
                &&& from@ != to@ ==> !has_key(final(self)@, from@)
            },
            forall|other: Seq<char>| other != from@ && other != to@ ==> {
                &&& value_at(final(self)@, other) == value_at(old(self)@, other)
                &&& section_at(final(self)@, other) == section_at(old(self)@, other)
                &&& comments_at(final(self)@, other) == comments_at(old(self)@, other)
            },
    {
        proof {
            use_type_invariant(&*self);
            lemma_table_ok(self.table);
            law_keys_stay_distinct(self@, from@, to@, ItemModel::Section(Seq::empty()), no_comments());
            if can_rename(self@, from@, to@) {
                law_rename(self@, from@, to@);
            } else {
                assert forall|other: Seq<char>| other != from@ && other != to@ implies {
                    &&& value_at(renamed(self@, from@, to@), other) == value_at(self@, other)
                    &&& section_at(renamed(self@, from@, to@), other) == section_at(self@, other)
                    &&& comments_at(renamed(self@, from@, to@), other) == comments_at(self@, other)
                } by {
                    lemma_rename_other(self@, from@, to@, other);
                }
            }
            lemma_key_index_some(self@, from@);
            lemma_key_index_some(self@, to@);
        }
        if str_eq(from, to) {
            let r = self.contains_key(from);
            proof {
                if let Some(i) = key_index(self@, from@) {
                    assert(self@.update(i, EntryModel { key: to@, ..self@[i] }) =~= self@);
                }
            }
            return r;
        }
        if !self.contains_key(from) || self.contains_key(to) {
            return false;
        }
        match self.position(from) {
            Some(i) => {
                let ghost m0 = self@;
                let mut t = self.take_table();
                let new_key = owned(to);
                let ghost ok = t.keys@;
                let ghost os = t.slots@;
                proof {
                    lemma_model_rekey(ok, os, i as int, new_key);
                }
                t.keys.set(i, new_key);
                proof {
                    assert(t.keys@ == ok.update(i as int, new_key));
                    assert(slots_model(t.keys@, t.slots@) == renamed(m0, from@, to@));
                    lemma_ok_table(t);
                }
                self.table = t;
                true
            },
            None => false,
        }
    }

    /// The comments attached to `key`.
    pub fn comments(&self, key: &str) -> (r: Option<&Comments>)
        ensures
            match comments_at(self@, key@) {
                Some(c) => (r matches Some(x) && x@ == c),
                None => r is None,
            },
    {
        match self.position(key) {
            Some(i) => {
                proof {
                    use_type_invariant(&*self);
            lemma_table_ok(self.table);
                }
                self.table.slots[i].comments.as_ref()
            },
            None => None,
        }
    }

    /// Mutable access to the comments attached to `key`, creating an empty set
    /// if the entry exists but has no comments yet.
    ///
    /// Returns `None` if there is no such entry to comment on.
    pub fn comments_mut(&mut self, key: &str) -> (r: Option<&mut Comments>)
        ensures
            match key_index(old(self)@, key@) {
                Some(i) => (r matches Some(c) && (*c)@ == (match old(self)@[i].comments {
                    Some(c) => c,
                    None => no_comments(),
                }) && final(self)@ == with_comments(old(self)@, key@, (*final(c))@)),
                None => r is None && final(self)@ == old(self)@,
            },
    {
        match self.position(key) {
            Some(i) => {
                proof {
                    use_type_invariant(&*self);
            lemma_table_ok(self.table);
                }
                if self.table.slots[i].comments.is_none() {
                    let fresh = Comments::new();
                    let ghost before = self.table.slots@;
                    proof {
                        use_type_invariant(&*self);
                        lemma_model_update(
                            self.table.keys@,
                            before,
                            i as int,
                            Slot { entry: before[i as int].entry, comments: Some(fresh) },
                        );
                    }
                    self.table.slots[i].comments = Some(fresh);
                }
                let ghost old_slots = self.table.slots@;
                let c = match &mut self.table.slots[i].comments {
                    Some(c) => c,
                    None => {
                        assert(false);
                        return None;
                    },
                };
                proof {
                    lemma_model_update(
                        self.table.keys@,
                        old_slots,
                        i as int,
                        Slot {
                            entry: old_slots[i as int].entry,
                            comments: Some(*final(c)),
                        },
                    );
                    assert((*c)@ == (match old_slots[i as int].comments {
                        Some(c) => c@,
                        None => no_comments(),
                    }));
                }
                Some(c)
            },
            None => None,
        }
    }

    /// Attach comments to an existing entry, returning false if there is none.
    pub fn set_comments(&mut self, key: &str, comments: Comments) -> (r: bool)
        ensures
            r == has_key(old(self)@, key@),
            final(self)@ == with_comments(old(self)@, key@, comments@),
    {
        proof {
            use_type_invariant(&*self);
            lemma_table_ok(self.table);
            law_keys_stay_distinct(self@, key@, key@, ItemModel::Section(Seq::empty()), comments@);
            lemma_key_index_some(self@, key@);
        }
        match self.position(key) {
            Some(i) => {
                let ghost old_slots = self.table.slots@;
                let ghost new_slot = Slot {
                    entry: old_slots[i as int].entry,
                    comments: Some(comments),
                };
                proof {
                    lemma_table_ok(self.table);
                    lemma_model_update(self.table.keys@, old_slots, i as int, new_slot);
                }
                self.table.slots[i].comments = Some(comments);
                assert(self.table.slots@ == old_slots.update(i as int, new_slot));
                true
            },
            None => false,
        }
    }

    /// The entry stored under `key`, value or subsection.
    pub fn entry(&self, key: &str) -> (r: Option<&Entry>)
        ensures
            match key_index(self@, key@) {
                Some(i) => (r matches Some(e) && e@ == self@[i].item),
                None => r is None,
            },
    {
        match self.position(key) {
            Some(i) => {
                proof {
                    use_type_invariant(&*self);
            lemma_table_ok(self.table);
                }
                Some(&self.table.slots[i].entry)
            },
            None => None,
        }
    }

    /// The entry at position `i`: its key, what it holds, and its comments.
    pub fn entry_at(&self, i: usize) -> (r: (&str, &Entry, Option<&Comments>))
        requires
            i < self@.len(),
        ensures
            r.0@ == self@[i as int].key,
            r.1@ == self@[i as int].item,
            match r.2 {
                Some(c) => self@[i as int].comments == Some(c@),
                None => self@[i as int].comments is None,
            },
    {
        proof {
            use_type_invariant(&*self);
            lemma_table_ok(self.table);
        }
        let slot = &self.table.slots[i];
        (self.table.keys[i].as_str(), &slot.entry, slot.comments.as_ref())
    }

    /// Store an entry read from a file, with the comments found around it.
    pub fn insert_parsed(&mut self, key: String, entry: Entry, comments: Comments)
        ensures
            final(self)@ == (if comments@.above.len() == 0 && comments@.inline is None {
                with_item(old(self)@, key@, entry@)
            } else {
                with_comments(with_item(old(self)@, key@, entry@), key@, comments@)
            }),
    {
        let k = key.clone();
        self.set_entry(key, entry);
        if !comments.is_empty() {
            self.set_comments(k.as_str(), comments);
        }
    }
}


/// After `with_item`, the key is present and holds the new item.
pub proof fn lemma_with_item_facts(m: SectionModel, k: Seq<char>, item: ItemModel)
    ensures
        key_index(with_item(m, k, item), k) == Some(
            match key_index(m, k) {
                Some(i) => i,
                None => m.len() as int,
            },
        ),
        with_item(m, k, item)[key_index(with_item(m, k, item), k)->0].item == item,
{
    lemma_key_index_some(m, k);
    let m2 = with_item(m, k, item);
    match key_index(m, k) {
        Some(i) => {
            assert(is_key_at(m2, k, i));
            lemma_key_index(m2, k, i);
        },
        None => {
            assert forall|j: int| 0 <= j < m.len() implies m2[j].key != k by {
                if m[j].key == k {
                    assert(has_key(m, k));
                }
            }
            assert(is_key_at(m2, k, m.len() as int));
            lemma_key_index(m2, k, m.len() as int);
        },
    }
}

/// Storing twice under the same key is storing the second item once.
pub proof fn lemma_with_item_twice(m: SectionModel, k: Seq<char>, a: ItemModel, b: ItemModel)
    ensures
        with_item(with_item(m, k, a), k, b) == with_item(m, k, b),
{
    lemma_with_item_facts(m, k, a);
    lemma_key_index_some(m, k);
    let m1 = with_item(m, k, a);
    match key_index(m, k) {
        Some(i) => {
            assert(with_item(m1, k, b) =~= with_item(m, k, b));
        },
        None => {
            assert(with_item(m1, k, b) =~= with_item(m, k, b));
        },
    }
}


/// Walking one more step along a path looks in the section reached so far.
pub proof fn lemma_path_push(m: SectionModel, p: Seq<Seq<char>>, k: Seq<char>)
    ensures
        section_at_path(m, p.push(k)) == (match section_at_path(m, p) {
            Some(s) => section_at(s, k),
            None => None,
        }),
        value_at_path(m, p.push(k)) == (match section_at_path(m, p) {
            Some(s) => value_at(s, k),
            None => None,
        }),
    decreases p.len(),
{
    if p.len() > 0 {
        assert(p.push(k).drop_first() == p.drop_first().push(k));
        assert(p.push(k)[0] == p[0]);
        match section_at(m, p[0]) {
            Some(s) => {
                lemma_path_push(s, p.drop_first(), k);
            },
            None => {},
        }
    } else {
        assert(p.push(k).drop_first() == Seq::<Seq<char>>::empty());
        assert(p.push(k)[0] == k);
        match section_at(m, k) {
            Some(s) => {
                assert(section_at_path(s, Seq::<Seq<char>>::empty()) == Some(s));
            },
            None => {},
        }
    }
}

/// Once a prefix of a path leads nowhere, neither does the whole path.
pub proof fn lemma_path_none_extends(m: SectionModel, p: Seq<Seq<char>>, n: int)
    requires
        0 <= n <= p.len(),
        section_at_path(m, p.take(n)) is None,
    ensures
        section_at_path(m, p) is None,
        p.len() > n ==> value_at_path(m, p) is None,
    decreases p.len() - n,
{
    if n < p.len() {
        lemma_path_push(m, p.take(n), p[n]);
        assert(p.take(n + 1) == p.take(n).push(p[n]));
        lemma_path_none_extends(m, p, n + 1);
        if p.len() > n {
            if n + 1 < p.len() {
            } else {
                assert(p.take(n).push(p[n]) == p);
            }
        }
    } else {
        assert(p.take(n) == p);
    }
}

// ---------------------------------------------------------------------------
// Laws of sections.
// ---------------------------------------------------------------------------

/// A read gives back what a write wrote: after storing `item` under `k`,
/// `k` holds that item.
pub proof fn law_get_after_insert(m: SectionModel, k: Seq<char>, item: ItemModel)
    ensures
        value_at(with_item(m, k, item), k) == (match item {
            ItemModel::Scalar(v) => Some(v),
            ItemModel::Section(_) => None::<ValueModel>,
        }),
        section_at(with_item(m, k, item), k) == (match item {
            ItemModel::Section(s) => Some(s),
            ItemModel::Scalar(_) => None::<SectionModel>,
        }),
{
    lemma_with_item_facts(m, k, item);
}

/// Storing under one key leaves every other key as it was: its value, its
/// subsection and its comments.
pub proof fn law_insert_leaves_others(m: SectionModel, k: Seq<char>, item: ItemModel, other: Seq<char>)
    requires
        other != k,
    ensures
        key_index(with_item(m, k, item), other) == key_index(m, other),
        value_at(with_item(m, k, item), other) == value_at(m, other),
        section_at(with_item(m, k, item), other) == section_at(m, other),
        comments_at(with_item(m, k, item), other) == comments_at(m, other),
{
    let m2 = with_item(m, k, item);
    lemma_key_index_some(m, other);
    lemma_key_index_some(m, k);
    match key_index(m, other) {
        Some(i) => {
            assert(is_key_at(m2, other, i)) by {
                assert forall|j: int| 0 <= j < i implies m2[j].key != other by {
                    assert(m[j].key != other);
                }
            }
            lemma_key_index(m2, other, i);
        },
        None => {
            assert(!has_key(m2, other)) by {
                if has_key(m2, other) {
                    let j = choose|j: int| 0 <= j < m2.len() && m2[j].key == other;
                    if j < m.len() {
                        assert(m[j].key == other);
                    }
                }
            }
            lemma_key_index_some(m2, other);
        },
    }
}

/// Storing under a key keeps the order of the entries and the comments of
/// the key: an existing entry stays in its place, and a new one goes last.
pub proof fn law_insert_keeps_order(m: SectionModel, k: Seq<char>, item: ItemModel)
    ensures
        keys_of(with_item(m, k, item)) == if has_key(m, k) {
            keys_of(m)
        } else {
            keys_of(m).push(k)
        },
        comments_at(with_item(m, k, item), k) == comments_at(m, k),
{
    lemma_with_item_facts(m, k, item);
    lemma_key_index_some(m, k);
    let m2 = with_item(m, k, item);
    if has_key(m, k) {
        assert(keys_of(m2) =~= keys_of(m));
    } else {
        assert(keys_of(m2) =~= keys_of(m).push(k));
    }
}

/// Storing twice under the same key is storing the second item once.
pub proof fn law_insert_twice(m: SectionModel, k: Seq<char>, a: ItemModel, b: ItemModel)
    ensures
        with_item(with_item(m, k, a), k, b) == with_item(m, k, b),
{
    lemma_with_item_twice(m, k, a, b);
}

/// Removing a key that was just added undoes the adding.
pub proof fn law_remove_undoes_insert(m: SectionModel, k: Seq<char>, item: ItemModel)
    requires
        !has_key(m, k),
    ensures
        without(with_item(m, k, item), k) == m,
{
    lemma_with_item_facts(m, k, item);
    lemma_key_index_some(m, k);
    assert(with_item(m, k, item).remove(m.len() as int) =~= m);
}

/// No operation gives two entries the same key: storing, removing, renaming
/// and commenting all keep the keys of a section distinct.
pub proof fn law_keys_stay_distinct(m: SectionModel, k: Seq<char>, to: Seq<char>, item: ItemModel, c: CommentsModel)
    requires
        distinct_keys(m),
    ensures
        distinct_keys(with_item(m, k, item)),
        distinct_keys(without(m, k)),
        distinct_keys(renamed(m, k, to)),
        distinct_keys(with_comments(m, k, c)),
{
    lemma_key_index_some(m, k);
    lemma_key_index_some(m, to);
    let a = with_item(m, k, item);
    assert(distinct_keys(a)) by {
        assert forall|i: int, j: int| 0 <= i < j < a.len() implies a[i].key != a[j].key by {
            if j == m.len() {
                assert(m[i].key == a[i].key);
                assert(!has_key(m, k) || key_index(m, k) is Some);
            }
        }
    }
    let b = without(m, k);
    assert(distinct_keys(b)) by {
        if let Some(x) = key_index(m, k) {
            assert forall|i: int, j: int| 0 <= i < j < b.len() implies b[i].key != b[j].key by {
                let i0 = if i < x { i } else { i + 1 };
                let j0 = if j < x { j } else { j + 1 };
                assert(b[i] == m[i0]);
                assert(b[j] == m[j0]);
            }
        }
    }
    let r = renamed(m, k, to);
    assert(distinct_keys(r)) by {
        if let Some(x) = key_index(m, k) {
            if can_rename(m, k, to) {
                assert forall|i: int, j: int| 0 <= i < j < r.len() implies r[i].key != r[j].key by {
                    if i == x || j == x {
                        if k != to {
                            let y = if i == x { j } else { i };
                            assert(m[y].key != to);
                        }
                    }
                }
            }
        }
    }
    let w = with_comments(m, k, c);
    assert(distinct_keys(w)) by {
        assert forall|i: int, j: int| 0 <= i < j < w.len() implies w[i].key != w[j].key by {
            assert(w[i].key == m[i].key);
            assert(w[j].key == m[j].key);
        }
    }
}

/// After removing a key from a section whose keys are distinct, the key is
/// gone, and every other key is as it was.
#[verifier::spinoff_prover]
#[verifier::rlimit(40)]
pub proof fn law_remove(m: SectionModel, k: Seq<char>, other: Seq<char>)
    requires
        distinct_keys(m),
        other != k,
    ensures
        !has_key(without(m, k), k),
        value_at(without(m, k), other) == value_at(m, other),
        section_at(without(m, k), other) == section_at(m, other),
        comments_at(without(m, k), other) == comments_at(m, other),
{
    lemma_key_index_some(m, k);
    lemma_key_index_some(m, other);
    let b = without(m, k);
    if let Some(x) = key_index(m, k) {
        assert(!has_key(b, k)) by {
            if has_key(b, k) {
                let j = choose|j: int| 0 <= j < b.len() && b[j].key == k;
                let j0 = if j < x { j } else { j + 1 };
                assert(b[j] == m[j0]);
            }
        }
        match key_index(m, other) {
            Some(i) => {
                let i2 = if i < x { i } else { i - 1 };
                assert(i != x);
                assert(b[i2] == m[i]);
                assert(is_key_at(b, other, i2)) by {
                    assert forall|j: int| 0 <= j < i2 implies b[j].key != other by {
                        let j0 = if j < x { j } else { j + 1 };
                        assert(b[j] == m[j0]);
                    }
                }
                lemma_key_index(b, other, i2);
            },
            None => {
                assert(!has_key(b, other)) by {
                    if has_key(b, other) {
                        let j = choose|j: int| 0 <= j < b.len() && b[j].key == other;
                        let j0 = if j < x { j } else { j + 1 };
                        assert(b[j] == m[j0]);
                    }
                }
                lemma_key_index_some(b, other);
            },
        }
    } else {
        lemma_key_index_some(m, k);
    }
}

/// Renaming leaves every entry under a third name where it was.
proof fn lemma_rename_other(m: SectionModel, from: Seq<char>, to: Seq<char>, other: Seq<char>)
    requires
        other != from,
        other != to,
    ensures
        key_index(renamed(m, from, to), other) == key_index(m, other),
        key_index(m, other) matches Some(y) ==> renamed(m, from, to)[y] == m[y],
{
    let r = renamed(m, from, to);
    lemma_key_index_some(m, other);
    lemma_key_index_some(m, from);
    lemma_key_index_some(r, other);
    assert(r.len() == m.len());
    assert forall|j: int| 0 <= j < m.len() implies (#[trigger] r[j].key == other) == (m[j].key == other) by {
        if let Some(x) = key_index(m, from) {
            if can_rename(m, from, to) && j == x {
                assert(r[j].key == to);
                assert(m[j].key == from);
            }
        }
    }
    assert forall|j: int| 0 <= j < m.len() && m[j].key == other implies #[trigger] r[j] == m[j] by {
        if let Some(x) = key_index(m, from) {
            if j == x {
                assert(m[j].key == from);
            }
        }
    }
    if let Some(y) = key_index(m, other) {
        assert(is_key_at(r, other, y));
        lemma_key_index(r, other, y);
    } else {
        assert(!has_key(r, other)) by {
            if has_key(r, other) {
                let j = choose|j: int| 0 <= j < r.len() && r[j].key == other;
                assert(m[j].key == other);
            }
        }
    }
}

/// Renaming moves an entry to its new name, contents and comments and all,
/// and leaves the old name free.
pub proof fn law_rename(m: SectionModel, from: Seq<char>, to: Seq<char>)
    requires
        distinct_keys(m),
        can_rename(m, from, to),
    ensures
        value_at(renamed(m, from, to), to) == value_at(m, from),
        section_at(renamed(m, from, to), to) == section_at(m, from),
        comments_at(renamed(m, from, to), to) == comments_at(m, from),
        from != to ==> !has_key(renamed(m, from, to), from),
        keys_of(renamed(m, from, to)).len() == keys_of(m).len(),
        forall|other: Seq<char>| other != from && other != to ==> {
            &&& value_at(renamed(m, from, to), other) == value_at(m, other)
            &&& section_at(renamed(m, from, to), other) == section_at(m, other)
            &&& comments_at(renamed(m, from, to), other) == comments_at(m, other)
        },
{
    assert forall|other: Seq<char>| other != from && other != to implies {
        &&& value_at(renamed(m, from, to), other) == value_at(m, other)
        &&& section_at(renamed(m, from, to), other) == section_at(m, other)
        &&& comments_at(renamed(m, from, to), other) == comments_at(m, other)
    } by {
        lemma_rename_other(m, from, to, other);
    }
    lemma_key_index_some(m, from);
    lemma_key_index_some(m, to);
    let x = key_index(m, from)->0;
    let r = renamed(m, from, to);
    assert(is_key_at(r, to, x)) by {
        assert forall|j: int| 0 <= j < x implies r[j].key != to by {
            if from != to {
                assert(m[j].key != to);
            } else {
                assert(m[j].key != from);
            }
        }
    }
    lemma_key_index(r, to, x);
    if from != to {
        assert(!has_key(r, from)) by {
            if has_key(r, from) {
                let j = choose|j: int| 0 <= j < r.len() && r[j].key == from;
                assert(j != x);
                assert(m[j].key == from);
            }
        }
    }
}

/// Removing a key keeps the other entries in the order they were in: the
/// entries before it and the entries after it, joined; with no such key,
/// nothing changes.
pub proof fn law_remove_keeps_order(m: SectionModel, k: Seq<char>)
    ensures
        key_index(m, k) matches Some(i) ==> without(m, k) == m.subrange(0, i) + m.subrange(i + 1, m.len() as int),
        !has_key(m, k) ==> without(m, k) == m,
        keys_of(without(m, k)).len() + (if has_key(m, k) { 1int } else { 0int }) == keys_of(m).len(),
{
    lemma_key_index_some(m, k);
    if let Some(i) = key_index(m, k) {
        assert(m.remove(i) =~= m.subrange(0, i) + m.subrange(i + 1, m.len() as int));
    }
}

} // verus!
