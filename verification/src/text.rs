//! Character-level helpers shared by the reader and the writer.
//!
//! Text is handled as sequences of `char`. Positions are character offsets,
//! which pick out the same pieces as the byte offsets of a UTF-8 string would,
//! since every character the format treats specially is ASCII.

use vstd::prelude::*;

verus! {

/// A set of characters that trimming can remove.
#[derive(Clone, Copy, PartialEq, Eq)]
pub enum CharClass {
    /// Unicode `White_Space`, the set `str::trim` removes.
    Space,
    /// The characters that may open a section header: `[`, space and tab.
    Open,
    /// The characters that may close a section header: `]`, space and tab.
    Close,
    /// Line terminators: `\r` and `\n`.
    LineEnd,
}

/// Whether `c` has the Unicode `White_Space` property.
pub open spec fn is_space(c: char) -> bool {
    let u = c as u32;
    ||| 0x09 <= u <= 0x0d
    ||| u == 0x20
    ||| u == 0x85
    ||| u == 0xa0
    ||| u == 0x1680
    ||| 0x2000 <= u <= 0x200a
    ||| u == 0x2028
    ||| u == 0x2029
    ||| u == 0x202f
    ||| u == 0x205f
    ||| u == 0x3000
}

/// Whether `c` belongs to the class.
pub open spec fn in_class(c: char, class: CharClass) -> bool {
    match class {
        CharClass::Space => is_space(c),
        CharClass::Open => c == '[' || c == ' ' || c == '\t',
        CharClass::Close => c == ']' || c == ' ' || c == '\t',
        CharClass::LineEnd => c == '\r' || c == '\n',
    }
}

/// Whether `c` is a quote character.
pub open spec fn is_quote(c: char) -> bool {
    c == '"' || c == '\''
}

/// The number of leading characters of `s` that belong to the class.
pub open spec fn lead_len(s: Seq<char>, class: CharClass) -> nat
    decreases s.len(),
{
    if s.len() > 0 && in_class(s[0], class) {
        1 + lead_len(s.drop_first(), class)
    } else {
        0
    }
}

/// The number of trailing characters of `s` that belong to the class.
pub open spec fn trail_len(s: Seq<char>, class: CharClass) -> nat
    decreases s.len(),
{
    if s.len() > 0 && in_class(s.last(), class) {
        1 + trail_len(s.drop_last(), class)
    } else {
        0
    }
}

/// `s` without its leading white space.
pub open spec fn trim_start(s: Seq<char>) -> Seq<char> {
    s.skip(lead_len(s, CharClass::Space) as int)
}

/// `s` without its trailing white space.
pub open spec fn trim_end(s: Seq<char>) -> Seq<char> {
    s.take(s.len() - trail_len(s, CharClass::Space))
}

/// `s` without white space at either end.
pub open spec fn trim(s: Seq<char>) -> Seq<char> {
    trim_end(trim_start(s))
}

/// `s` without any trailing characters of the class.
pub open spec fn trim_end_class(s: Seq<char>, class: CharClass) -> Seq<char> {
    s.take(s.len() - trail_len(s, class))
}

/// `i` is the first position of `c` in `s`.
pub open spec fn is_first(s: Seq<char>, c: char, i: int) -> bool {
    &&& 0 <= i < s.len()
    &&& s[i] == c
    &&& forall|j: int| 0 <= j < i ==> s[j] != c
}

/// The first position of `c` in `s`, if it occurs.
pub open spec fn find_char(s: Seq<char>, c: char) -> Option<int> {
    if exists|i: int| is_first(s, c, i) {
        Some(choose|i: int| is_first(s, c, i))
    } else {
        None
    }
}

/// `i` is the last position of `c` in `s`.
pub open spec fn is_last(s: Seq<char>, c: char, i: int) -> bool {
    &&& 0 <= i < s.len()
    &&& s[i] == c
    &&& forall|j: int| i < j < s.len() ==> s[j] != c
}

/// The last position of `c` in `s`, if it occurs.
pub open spec fn rfind_char(s: Seq<char>, c: char) -> Option<int> {
    if exists|i: int| is_last(s, c, i) {
        Some(choose|i: int| is_last(s, c, i))
    } else {
        None
    }
}

/// Three copies of `q` start at position `i` of `s`.
pub open spec fn triple_at(s: Seq<char>, q: char, i: int) -> bool {
    &&& 0 <= i
    &&& i + 3 <= s.len()
    &&& s[i] == q
    &&& s[i + 1] == q
    &&& s[i + 2] == q
}

/// `i` is the first position where three copies of `q` start.
pub open spec fn is_first_triple(s: Seq<char>, q: char, i: int) -> bool {
    &&& triple_at(s, q, i)
    &&& forall|j: int| 0 <= j < i ==> !triple_at(s, q, j)
}

/// The first position of three copies of `q` in `s`, if there is one.
pub open spec fn find_triple(s: Seq<char>, q: char) -> Option<int> {
    if exists|i: int| is_first_triple(s, q, i) {
        Some(choose|i: int| is_first_triple(s, q, i))
    } else {
        None
    }
}

/// Three copies of `q`.
pub open spec fn triple(q: char) -> Seq<char> {
    seq![q, q, q]
}

/// The number of times `c` occurs in `s`.
pub open spec fn count_char(s: Seq<char>, c: char) -> nat
    decreases s.len(),
{
    if s.len() == 0 {
        0
    } else {
        count_char(s.drop_last(), c) + if s.last() == c { 1nat } else { 0nat }
    }
}

/// `n` copies of `s` laid end to end.
pub open spec fn repeat(s: Seq<char>, n: nat) -> Seq<char>
    decreases n,
{
    if n == 0 {
        Seq::empty()
    } else {
        repeat(s, (n - 1) as nat) + s
    }
}

/// A run of leading class members has length `i` exactly when every character
/// before `i` is a member and the one at `i`, if any, is not.
pub proof fn lemma_lead_len(s: Seq<char>, class: CharClass, i: int)
    requires
        0 <= i <= s.len(),
        forall|j: int| 0 <= j < i ==> in_class(#[trigger] s[j], class),
        i == s.len() || !in_class(s[i], class),
    ensures
        lead_len(s, class) == i,
    decreases i,
{
    if i > 0 {
        let t = s.drop_first();
        assert forall|j: int| 0 <= j < i - 1 implies in_class(#[trigger] t[j], class) by {
            assert(t[j] == s[j + 1]);
        }
        if i - 1 < t.len() {
            assert(t[i - 1] == s[i]);
        }
        lemma_lead_len(t, class, i - 1);
    }
}

/// The mirror image of `lemma_lead_len` for trailing runs.
pub proof fn lemma_trail_len(s: Seq<char>, class: CharClass, i: int)
    requires
        0 <= i <= s.len(),
        forall|j: int| s.len() - i <= j < s.len() ==> in_class(#[trigger] s[j], class),
        i == s.len() || !in_class(s[s.len() - i - 1], class),
    ensures
        trail_len(s, class) == i,
    decreases i,
{
    if i > 0 {
        let t = s.drop_last();
        assert forall|j: int| t.len() - (i - 1) <= j < t.len() implies in_class(
            #[trigger] t[j],
            class,
        ) by {
            assert(t[j] == s[j]);
        }
        if i - 1 < t.len() {
            assert(t[t.len() - (i - 1) - 1] == s[s.len() - i - 1]);
        }
        lemma_trail_len(t, class, i - 1);
    }
}

/// The leading run is never longer than the sequence, and its members all
/// belong to the class.
pub proof fn lemma_lead_len_facts(s: Seq<char>, class: CharClass)
    ensures
        lead_len(s, class) <= s.len(),
        forall|j: int| 0 <= j < lead_len(s, class) ==> in_class(#[trigger] s[j], class),
        lead_len(s, class) == s.len() || !in_class(s[lead_len(s, class) as int], class),
    decreases s.len(),
{
    if s.len() > 0 && in_class(s[0], class) {
        let t = s.drop_first();
        lemma_lead_len_facts(t, class);
        assert forall|j: int| 0 <= j < lead_len(s, class) implies in_class(#[trigger] s[j], class) by {
            if j > 0 {
                assert(s[j] == t[j - 1]);
            }
        }
        if lead_len(s, class) < s.len() {
            assert(s[lead_len(s, class) as int] == t[lead_len(t, class) as int]);
        }
    }
}

/// The mirror image of `lemma_lead_len_facts`.
pub proof fn lemma_trail_len_facts(s: Seq<char>, class: CharClass)
    ensures
        trail_len(s, class) <= s.len(),
        forall|j: int| s.len() - trail_len(s, class) <= j < s.len() ==> in_class(#[trigger] s[j], class),
        trail_len(s, class) == s.len() || !in_class(
            s[s.len() - trail_len(s, class) - 1],
            class,
        ),
    decreases s.len(),
{
    if s.len() > 0 && in_class(s.last(), class) {
        let t = s.drop_last();
        lemma_trail_len_facts(t, class);
        assert forall|j: int| s.len() - trail_len(s, class) <= j < s.len() implies in_class(
            #[trigger] s[j],
            class,
        ) by {
            if j < s.len() - 1 {
                assert(s[j] == t[j]);
            }
        }
        if trail_len(s, class) < s.len() {
            assert(s[s.len() - trail_len(s, class) - 1] == t[t.len() - trail_len(t, class) - 1]);
        }
    }
}

/// Whether `c` belongs to the class.
pub fn char_in(c: char, class: CharClass) -> (b: bool)
    ensures
        b == in_class(c, class),
{
    match class {
        CharClass::Space => {
            let u: u32 = c as u32;
            (0x09 <= u && u <= 0x0d) || u == 0x20 || u == 0x85 || u == 0xa0 || u == 0x1680 || (
            0x2000 <= u && u <= 0x200a) || u == 0x2028 || u == 0x2029 || u == 0x202f || u
                == 0x205f || u == 0x3000
        },
        CharClass::Open => c == '[' || c == ' ' || c == '\t',
        CharClass::Close => c == ']' || c == ' ' || c == '\t',
        CharClass::LineEnd => c == '\r' || c == '\n',
    }
}

/// The position just past the leading class members of `v[start..end]`.
pub fn skip_lead(v: &[char], start: usize, end: usize, class: CharClass) -> (i: usize)
    requires
        start <= end <= v@.len(),
    ensures
        i == start + lead_len(v@.subrange(start as int, end as int), class),
        start <= i <= end,
{
    let ghost s = v@.subrange(start as int, end as int);
    let mut i: usize = start;
    while i < end && char_in(v[i], class)
        invariant
            start <= i <= end <= v@.len(),
            s == v@.subrange(start as int, end as int),
            forall|j: int| 0 <= j < i - start ==> in_class(#[trigger] s[j], class),
        decreases end - i,
    {
        i = i + 1;
    }
    proof {
        lemma_lead_len(s, class, i - start);
    }
    i
}

/// The position where the trailing class members of `v[start..end]` begin.
pub fn skip_trail(v: &[char], start: usize, end: usize, class: CharClass) -> (i: usize)
    requires
        start <= end <= v@.len(),
    ensures
        i == end - trail_len(v@.subrange(start as int, end as int), class),
        start <= i <= end,
{
    let ghost s = v@.subrange(start as int, end as int);
    let mut i: usize = end;
    while i > start && char_in(v[i - 1], class)
        invariant
            start <= i <= end <= v@.len(),
            s == v@.subrange(start as int, end as int),
            forall|j: int| i - start <= j < s.len() ==> in_class(#[trigger] s[j], class),
        decreases i - start,
    {
        i = i - 1;
    }
    proof {
        lemma_trail_len(s, class, (end - i) as int);
    }
    i
}


/// Where `v[start..end]` begins once leading white space is trimmed.
pub fn trim_start_range(v: &[char], start: usize, end: usize) -> (a: usize)
    requires
        start <= end <= v@.len(),
    ensures
        start <= a <= end,
        v@.subrange(a as int, end as int) == trim_start(v@.subrange(start as int, end as int)),
{
    let a = skip_lead(v, start, end, CharClass::Space);
    let ghost s = v@.subrange(start as int, end as int);
    assert(v@.subrange(a as int, end as int) =~= s.skip(lead_len(s, CharClass::Space) as int));
    a
}

/// Where `v[start..end]` ends once trailing white space is trimmed.
pub fn trim_end_range(v: &[char], start: usize, end: usize) -> (b: usize)
    requires
        start <= end <= v@.len(),
    ensures
        start <= b <= end,
        v@.subrange(start as int, b as int) == trim_end(v@.subrange(start as int, end as int)),
{
    let b = skip_trail(v, start, end, CharClass::Space);
    let ghost s = v@.subrange(start as int, end as int);
    assert(v@.subrange(start as int, b as int) =~= s.take(s.len() - trail_len(s, CharClass::Space)));
    b
}

/// The bounds of `v[start..end]` with white space trimmed from both ends.
pub fn trim_range(v: &[char], start: usize, end: usize) -> (r: (usize, usize))
    requires
        start <= end <= v@.len(),
    ensures
        start <= r.0 <= r.1 <= end,
        v@.subrange(r.0 as int, r.1 as int) == trim(v@.subrange(start as int, end as int)),
{
    let a = trim_start_range(v, start, end);
    let b = trim_end_range(v, a, end);
    (a, b)
}

/// The first position of `c` in `v[start..end]`, counted from `start`.
pub fn find_in(v: &[char], start: usize, end: usize, c: char) -> (r: Option<usize>)
    requires
        start <= end <= v@.len(),
    ensures
        r matches Some(i) ==> find_char(v@.subrange(start as int, end as int), c) == Some(i as int),
        r is None ==> find_char(v@.subrange(start as int, end as int), c) is None,
{
    let ghost s = v@.subrange(start as int, end as int);
    let mut i: usize = start;
    while i < end
        invariant
            start <= i <= end <= v@.len(),
            s == v@.subrange(start as int, end as int),
            forall|j: int| 0 <= j < i - start ==> s[j] != c,
        decreases end - i,
    {
        if v[i] == c {
            let k: usize = i - start;
            proof {
                assert(is_first(s, c, k as int));
                assert forall|m: int| is_first(s, c, m) implies m == k by {
                    if m < k {
                        assert(s[m] != c);
                    } else if m > k {
                        assert(s[k as int] == c);
                    }
                }
            }
            return Some(k);
        }
        i = i + 1;
    }
    None
}

/// The last position of `c` in `v[start..end]`, counted from `start`.
pub fn rfind_in(v: &[char], start: usize, end: usize, c: char) -> (r: Option<usize>)
    requires
        start <= end <= v@.len(),
    ensures
        r matches Some(i) ==> rfind_char(v@.subrange(start as int, end as int), c) == Some(i as int),
        r is None ==> rfind_char(v@.subrange(start as int, end as int), c) is None,
{
    let ghost s = v@.subrange(start as int, end as int);
    let mut i: usize = end;
    while i > start
        invariant
            start <= i <= end <= v@.len(),
            s == v@.subrange(start as int, end as int),
            forall|j: int| i - start <= j < s.len() ==> s[j] != c,
        decreases i - start,
    {
        if v[i - 1] == c {
            let k: usize = i - 1 - start;
            proof {
                assert(is_last(s, c, k as int));
                assert forall|m: int| is_last(s, c, m) implies m == k by {
                    if m < k {
                        assert(s[k as int] == c);
                    } else if m > k {
                        assert(s[m] != c);
                    }
                }
            }
            return Some(k);
        }
        i = i - 1;
    }
    None
}

/// The first position of three copies of `q` in `v[start..end]`, counted
/// from `start`.
pub fn find_triple_in(v: &[char], start: usize, end: usize, q: char) -> (r: Option<usize>)
    requires
        start <= end <= v@.len(),
    ensures
        r matches Some(i) ==> find_triple(v@.subrange(start as int, end as int), q) == Some(i as int),
        r is None ==> find_triple(v@.subrange(start as int, end as int), q) is None,
{
    let ghost s = v@.subrange(start as int, end as int);
    let mut i: usize = start;
    while i < end && end - i >= 3
        invariant
            start <= i <= end <= v@.len(),
            s == v@.subrange(start as int, end as int),
            forall|j: int| 0 <= j < i - start ==> !triple_at(s, q, j),
        decreases end - i,
    {
        if v[i] == q && v[i + 1] == q && v[i + 2] == q {
            let k: usize = i - start;
            proof {
                assert(triple_at(s, q, k as int));
                assert(is_first_triple(s, q, k as int));
                assert forall|m: int| is_first_triple(s, q, m) implies m == k by {
                    if m < k {
                        assert(!triple_at(s, q, m));
                    } else if m > k {
                        assert(!triple_at(s, q, k as int));
                    }
                }
            }
            return Some(k);
        }
        i = i + 1;
    }
    proof {
        assert forall|m: int| !is_first_triple(s, q, m) by {
            if triple_at(s, q, m) {
                assert(m < i - start);
            }
        }
    }
    None
}

/// The number of times `c` occurs in `v[start..end]`.
pub fn count_in(v: &[char], start: usize, end: usize, c: char) -> (n: usize)
    requires
        start <= end <= v@.len(),
    ensures
        n == count_char(v@.subrange(start as int, end as int), c),
{
    let mut n: usize = 0;
    let mut i: usize = start;
    while i < end
        invariant
            start <= i <= end <= v@.len(),
            n == count_char(v@.subrange(start as int, i as int), c),
            n <= i - start,
        decreases end - i,
    {
        proof {
            let t = v@.subrange(start as int, i + 1);
            assert(t.drop_last() == v@.subrange(start as int, i as int));
        }
        if v[i] == c {
            n = n + 1;
        }
        i = i + 1;
    }
    n
}

/// The characters of a string slice, one per element.
pub fn chars_of(s: &str) -> (v: Vec<char>)
    ensures
        v@ == s@,
{
    let mut v: Vec<char> = Vec::new();
    for c in it: s.chars()
        invariant
            v@ == it.seq().take(it.index() as int),
    {
        v.push(c);
    }
    v
}

/// Append one character to a string, as `String::push` does.
#[verifier::external_body]
pub(crate) fn push_char(s: &mut String, c: char)
    ensures
        final(s)@ == old(s)@.push(c),
{
    s.push(c);
}

/// Append the characters `v[start..end]` to a string.
pub fn push_chars(s: &mut String, v: &[char], start: usize, end: usize)
    requires
        start <= end <= v@.len(),
    ensures
        final(s)@ == old(s)@ + v@.subrange(start as int, end as int),
{
    let ghost s0 = s@;
    let mut i: usize = start;
    while i < end
        invariant
            start <= i <= end <= v@.len(),
            s@ == s0 + v@.subrange(start as int, i as int),
        decreases end - i,
    {
        push_char(s, v[i]);
        assert(v@.subrange(start as int, i + 1) == v@.subrange(start as int, i as int).push(
            v@[i as int],
        ));
        i = i + 1;
    }
}

/// A string holding the characters `v[start..end]`.
pub fn string_of(v: &[char], start: usize, end: usize) -> (s: String)
    requires
        start <= end <= v@.len(),
    ensures
        s@ == v@.subrange(start as int, end as int),
{
    let mut s = String::new();
    push_chars(&mut s, v, start, end);
    s
}

/// Append a string slice to a string.
pub fn push_str(s: &mut String, t: &str)
    ensures
        final(s)@ == old(s)@ + t@,
{
    let v = chars_of(t);
    push_chars(s, v.as_slice(), 0, v.len());
    assert(v@.subrange(0, v@.len() as int) == v@);
}

/// Whether two character sequences are equal.
pub fn chars_eq(a: &[char], b: &[char]) -> (r: bool)
    ensures
        r == (a@ == b@),
{
    if a.len() != b.len() {
        return false;
    }
    let mut i: usize = 0;
    while i < a.len()
        invariant
            a@.len() == b@.len(),
            0 <= i <= a@.len(),
            forall|j: int| 0 <= j < i ==> a@[j] == b@[j],
        decreases a@.len() - i,
    {
        if a[i] != b[i] {
            return false;
        }
        i = i + 1;
    }
    assert(a@ =~= b@);
    true
}

/// Whether two strings hold the same text.
pub fn str_eq(a: &str, b: &str) -> (r: bool)
    ensures
        r == (a@ == b@),
{
    let x = chars_of(a);
    let y = chars_of(b);
    chars_eq(x.as_slice(), y.as_slice())
}

} // verus!
