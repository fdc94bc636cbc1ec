//! Scalar values stored in a config file.

use vstd::prelude::*;
use crate::text::{chars_of, chars_eq, push_str};
use crate::error::{debug_text, debug_string, decimal, digit, push_decimal_u64};
use crate::write::join_items;

verus! {

/// A value attached to a key.
///
/// The file format itself is untyped: everything is text, and the only
/// structural distinction it makes is between a single value and a
/// comma-separated list. Interpreting text as a bool or a number is left to
/// the accessors ([`Value::as_bool`] and friends).
#[derive(Debug, Clone, PartialEq, Eq)]
pub enum Value {
    /// A single value, such as `name = Jelmer`.
    String(String),
    /// A comma-separated list, such as `names = Jelmer, Ada`.
    List(Vec<String>),
}

/// What a value holds, as text.
pub enum ValueModel {
    /// A single value.
    String(Seq<char>),
    /// A list of items.
    List(Seq<Seq<char>>),
}

/// The text of each string in a sequence.
pub open spec fn texts(v: Seq<String>) -> Seq<Seq<char>> {
    v.map_values(|s: String| s@)
}

/// The text of each string slice in a sequence.
pub open spec fn str_texts(v: Seq<&str>) -> Seq<Seq<char>> {
    v.map_values(|s: &str| s@)
}

impl View for Value {
    type V = ValueModel;

    open spec fn view(&self) -> ValueModel {
        match self {
            Value::String(s) => ValueModel::String(s@),
            Value::List(items) => ValueModel::List(texts(items@)),
        }
    }
}

/// A value read as a list: a single value counts as a one-element list.
pub open spec fn list_of(v: ValueModel) -> Seq<Seq<char>> {
    match v {
        ValueModel::String(s) => seq![s],
        ValueModel::List(items) => items,
    }
}

/// `c` with ASCII capitals made lower case.
pub open spec fn ascii_lower(c: char) -> char {
    if 'A' <= c <= 'Z' {
        ((c as u32) + 32) as char
    } else {
        c
    }
}

/// The boolean a text spells, if it spells one: `yes`/`no`, `on`/`off`,
/// `true`/`false` or `1`/`0`, in any case.
pub open spec fn bool_of(t: Seq<char>) -> Option<bool> {
    let l = t.map_values(|c: char| ascii_lower(c));
    if l == "yes"@ || l == "on"@ || l == "true"@ || l == "1"@ {
        Some(true)
    } else if l == "no"@ || l == "off"@ || l == "false"@ || l == "0"@ {
        Some(false)
    } else {
        None
    }
}

/// What reading `v` as a boolean gives: the boolean its text spells, an
/// `Unrecognised` error carrying text that spells none, or a `WrongShape`
/// error for a list.
pub open spec fn bool_result(v: ValueModel, r: Result<bool, NotABool>) -> bool {
    match v {
        ValueModel::List(_) => r matches Err(NotABool::WrongShape(w)) && w.wanted@
            == "single value"@,
        ValueModel::String(t) => match bool_of(t) {
            Some(b) => r == Ok::<bool, NotABool>(b),
            None => r matches Err(NotABool::Unrecognised(u)) && u@ == t,
        },
    }
}

/// The value could not be read as a boolean.
#[derive(Debug, Clone, PartialEq, Eq)]
pub enum NotABool {
    /// The text was not one of the recognised boolean spellings.
    Unrecognised(String),
    /// The value was a list, so there was nothing single to interpret.
    WrongShape(WrongShape),
}

/// The value was a list where a single value was wanted, or vice versa.
#[derive(Debug, Clone, PartialEq, Eq)]
pub struct WrongShape {
    /// What the caller asked for.
    pub wanted: &'static str,
}

/// A failure to parse a value into a requested type.
#[derive(Debug, Clone, PartialEq, Eq)]
pub enum ParseValueError<E> {
    /// The value was a list, so there was nothing single to parse.
    WrongShape(WrongShape),
    /// The text did not parse as the requested type.
    Invalid(E),
}

/// The shape error for a list where a single value was wanted.
fn single_value_wanted() -> (w: WrongShape)
    ensures
        w.wanted@ == "single value"@,
{
    WrongShape { wanted: "single value" }
}

/// `v` with ASCII capitals made lower case.
fn lower_ascii(v: &[char]) -> (l: Vec<char>)
    ensures
        l@ == v@.map_values(|c: char| ascii_lower(c)),
{
    let mut l: Vec<char> = Vec::new();
    let mut i: usize = 0;
    while i < v.len()
        invariant
            0 <= i <= v@.len(),
            l@ == v@.take(i as int).map_values(|c: char| ascii_lower(c)),
        decreases v@.len() - i,
    {
        let c = v[i];
        let d = if 'A' <= c && c <= 'Z' {
            let u: u32 = c as u32 + 32;
            proof {
                assert(u == (c as u32) + 32);
            }
            char_from_ascii(u)
        } else {
            c
        };
        l.push(d);
        assert(v@.take(i + 1) == v@.take(i as int).push(v@[i as int]));
        i = i + 1;
    }
    assert(v@.take(v@.len() as int) == v@);
    l
}

/// The character with a code below 128.
fn char_from_ascii(u: u32) -> (c: char)
    requires
        u < 128,
    ensures
        c == u as char,
        c as u32 == u,
{
    let b: u8 = u as u8;
    b as char
}

impl Value {
    /// The value as a single string, or `None` if it is a list.
    ///
    /// A single-element list is still a list: the format distinguishes
    /// `a = x` from `a = x,`, and round-tripping depends on keeping them apart.
    pub fn as_str(&self) -> (r: Option<&str>)
        ensures
            match self@ {
                ValueModel::String(s) => r matches Some(t) && t@ == s,
                ValueModel::List(_) => r is None,
            },
    {
        match self {
            Value::String(s) => Some(s.as_str()),
            Value::List(_) => None,
        }
    }

    /// The value as a list of strings.
    ///
    /// A single value counts as a one-element list, which is usually what a
    /// caller reading a list-valued option wants.
    pub fn as_list(&self) -> (r: Vec<&str>)
        ensures
            str_texts(r@) == list_of(self@),
    {
        match self {
            Value::String(s) => {
                let mut r: Vec<&str> = Vec::new();
                r.push(s.as_str());
                assert(str_texts(r@) =~= seq![s@]);
                r
            },
            Value::List(items) => {
                let mut r: Vec<&str> = Vec::new();
                let mut i: usize = 0;
                while i < items.len()
                    invariant
                        0 <= i <= items@.len(),
                        r@.len() == i,
                        forall|j: int| 0 <= j < i ==> (#[trigger] r@[j])@ == items@[j]@,
                    decreases items@.len() - i,
                {
                    r.push(items[i].as_str());
                    i = i + 1;
                }
                assert(str_texts(r@) =~= texts(items@));
                r
            },
        }
    }

    /// Interpret the value as a boolean.
    ///
    /// Recognises `yes`/`no`, `on`/`off`, `true`/`false` and `1`/`0`, in any
    /// case. Anything else is an error rather than a silent `false`.
    pub fn as_bool(&self) -> (r: Result<bool, NotABool>)
        ensures
            bool_result(self@, r),
    {
        let text = match self {
            Value::String(s) => s,
            Value::List(_) => {
                return Err(NotABool::WrongShape(single_value_wanted()));
            },
        };
        let chars = chars_of(text.as_str());
        let l = lower_ascii(chars.as_slice());
        let yes = chars_of("yes");
        let on = chars_of("on");
        let tru = chars_of("true");
        let one = chars_of("1");
        let no = chars_of("no");
        let off = chars_of("off");
        let fal = chars_of("false");
        let zero = chars_of("0");
        if chars_eq(l.as_slice(), yes.as_slice()) || chars_eq(l.as_slice(), on.as_slice())
            || chars_eq(l.as_slice(), tru.as_slice()) || chars_eq(l.as_slice(), one.as_slice()) {
            Ok(true)
        } else if chars_eq(l.as_slice(), no.as_slice()) || chars_eq(l.as_slice(), off.as_slice())
            || chars_eq(l.as_slice(), fal.as_slice()) || chars_eq(
            l.as_slice(),
            zero.as_slice(),
        ) {
            Ok(false)
        } else {
            Err(NotABool::Unrecognised(text.clone()))
        }
    }
}


/// Why text did not read as an integer, as the standard library's
/// `IntErrorKind` classifies it.
#[derive(Debug, Clone, Copy, PartialEq, Eq)]
pub enum IntError {
    /// There was no text.
    Empty,
    /// A character was not a digit, or there were no digits after a sign.
    InvalidDigit,
    /// The number is larger than the type holds.
    PosOverflow,
    /// The number is smaller than the type holds.
    NegOverflow,
}

/// Text that is neither `true` nor `false`, the only spellings the
/// standard library reads as a `bool`.
#[derive(Debug, Clone, Copy, PartialEq, Eq)]
pub struct BoolError;

/// Why text did not read as a single character, as the standard library
/// classifies it.
#[derive(Debug, Clone, Copy, PartialEq, Eq)]
pub enum CharError {
    /// There was no text.
    Empty,
    /// There was more than one character.
    TooMany,
}

/// Whether `c` is an ASCII decimal digit.
pub open spec fn is_digit(c: char) -> bool {
    '0' <= c <= '9'
}

/// The value of a decimal digit.
pub open spec fn digit_value(c: char) -> int {
    (c as u32) - ('0' as u32)
}

/// Read the digits `d` left to right, into `[min, max]`: the first
/// character that is not a digit, or the first digit that takes the number
/// out of range, decides the error. `neg` subtracts digits rather than
/// adding them.
pub open spec fn read_digits(d: Seq<char>, neg: bool, min: int, max: int) -> Result<int, IntError>
    decreases d.len(),
{
    if d.len() == 0 {
        Ok(0)
    } else {
        match read_digits(d.drop_last(), neg, min, max) {
            Err(e) => Err(e),
            Ok(acc) => if !is_digit(d.last()) {
                Err(IntError::InvalidDigit)
            } else if neg {
                if acc * 10 - digit_value(d.last()) < min {
                    Err(IntError::NegOverflow)
                } else {
                    Ok(acc * 10 - digit_value(d.last()))
                }
            } else {
                if acc * 10 + digit_value(d.last()) > max {
                    Err(IntError::PosOverflow)
                } else {
                    Ok(acc * 10 + digit_value(d.last()))
                }
            },
        }
    }
}

/// Text read as an integer in `[min, max]`: an optional `+` sign (or `-`
/// when negative numbers are allowed), then at least one decimal digit.
pub open spec fn int_of_text(t: Seq<char>, min: int, max: int) -> Result<int, IntError> {
    if t.len() == 0 {
        Err(IntError::Empty)
    } else {
        let neg = min < 0 && t[0] == '-';
        let d = if t[0] == '+' || neg {
            t.drop_first()
        } else {
            t
        };
        if d.len() == 0 {
            Err(IntError::InvalidDigit)
        } else {
            read_digits(d, neg, min, max)
        }
    }
}

/// Read text as an integer in `[min, max]`.
#[verifier::rlimit(30)]
fn parse_int(text: &str, min: i128, max: i128) -> (r: Result<i128, IntError>)
    requires
        -0x1_0000_0000_0000_0000 <= min <= 0 <= max <= 0x1_0000_0000_0000_0000,
    ensures
        match int_of_text(text@, min as int, max as int) {
            Ok(v) => r == Ok::<i128, IntError>(v as i128),
            Err(e) => r == Err::<i128, IntError>(e),
        },
        int_of_text(text@, min as int, max as int) matches Ok(v) ==> min <= v <= max,
{
    let t = chars_of(text);
    let n = t.len();
    if n == 0 {
        return Err(IntError::Empty);
    }
    let neg = min < 0 && t[0] == '-';
    let start: usize = if t[0] == '+' || neg { 1 } else { 0 };
    let ghost d = if t@[0] == '+' || neg { t@.drop_first() } else { t@ };
    assert(d =~= t@.subrange(start as int, n as int));
    proof {
        lemma_read_digits_range(d, neg, min as int, max as int);
    }
    if start == n {
        return Err(IntError::InvalidDigit);
    }
    let mut acc: i128 = 0;
    let mut i: usize = start;
    while i < n
        invariant
            start <= i <= n == t@.len(),
            d == t@.subrange(start as int, n as int),
            t@ == text@,
            n > 0,
            neg == (min < 0 && t@[0] == '-'),
            d == (if t@[0] == '+' || neg { t@.drop_first() } else { t@ }),
            read_digits(d, neg, min as int, max as int) matches Ok(v) ==> min <= v <= max,
            -0x1_0000_0000_0000_0000 <= min <= 0 <= max <= 0x1_0000_0000_0000_0000,
            read_digits(d.take(i - start), neg, min as int, max as int) == Ok::<int, IntError>(acc as int),
            min <= acc <= max,
            if neg { acc <= 0 } else { acc >= 0 },
        decreases n - i,
    {
        let c = t[i];
        assert(d.take(i + 1 - start).drop_last() == d.take(i - start));
        assert(d.take(i + 1 - start).last() == c);
        if !('0' <= c && c <= '9') {
            proof {
                assert(read_digits(d.take(i + 1 - start), neg, min as int, max as int) == Err::<int, IntError>(IntError::InvalidDigit));
                lemma_read_digits_err(d, (i + 1 - start) as int, neg, min as int, max as int);
            }
            return Err(IntError::InvalidDigit);
        }
        let dv: i128 = (c as u32 - '0' as u32) as i128;
        if neg {
            let next = acc * 10 - dv;
            if next < min {
                proof {
                    assert(read_digits(d.take(i + 1 - start), neg, min as int, max as int) == Err::<int, IntError>(IntError::NegOverflow));
                    lemma_read_digits_err(d, (i + 1 - start) as int, neg, min as int, max as int);
                }
                return Err(IntError::NegOverflow);
            }
            acc = next;
        } else {
            let next = acc * 10 + dv;
            if next > max {
                proof {
                    assert(read_digits(d.take(i + 1 - start), neg, min as int, max as int) == Err::<int, IntError>(IntError::PosOverflow));
                    lemma_read_digits_err(d, (i + 1 - start) as int, neg, min as int, max as int);
                }
                return Err(IntError::PosOverflow);
            }
            acc = next;
        }
        i = i + 1;
    }
    assert(d.take(n - start) == d);
    Ok(acc)
}

/// Once reading a prefix of the digits fails, reading all of them fails the
/// same way.
proof fn lemma_read_digits_err(d: Seq<char>, k: int, neg: bool, min: int, max: int)
    requires
        0 < k <= d.len(),
        read_digits(d.take(k), neg, min, max) is Err,
    ensures
        read_digits(d, neg, min, max) == read_digits(d.take(k), neg, min, max),
    decreases d.len() - k,
{
    if k < d.len() {
        assert(d.take(k + 1).drop_last() == d.take(k));
        lemma_read_digits_err(d, k + 1, neg, min, max);
    } else {
        assert(d.take(k) == d);
    }
}

/// What reads as a number lies in the range it was read into.
proof fn lemma_read_digits_range(d: Seq<char>, neg: bool, min: int, max: int)
    requires
        min <= 0 <= max,
    ensures
        read_digits(d, neg, min, max) matches Ok(v) ==> min <= v <= max && (if neg { v <= 0 } else { v >= 0 }),
    decreases d.len(),
{
    if d.len() > 0 {
        lemma_read_digits_range(d.drop_last(), neg, min, max);
    }
}

/// A type that can be read from a value's text.
pub trait FromText: Sized {
    /// Why text may fail to read.
    type Err;

    /// What reading `t` gives.
    spec fn from_text_spec(t: Seq<char>) -> Result<Self, Self::Err>;

    /// Read text.
    fn from_text(text: &str) -> (r: Result<Self, Self::Err>)
        ensures
            r == Self::from_text_spec(text@),
    ;
}

impl FromText for u8 {
    type Err = IntError;

    open spec fn from_text_spec(t: Seq<char>) -> Result<u8, IntError> {
        match int_of_text(t, 0, 0xff) {
            Ok(v) => Ok(v as u8),
            Err(e) => Err(e),
        }
    }

    fn from_text(text: &str) -> (r: Result<u8, IntError>) {
        match parse_int(text, 0, 0xff) {
            Ok(v) => Ok(v as u8),
            Err(e) => Err(e),
        }
    }
}

impl FromText for u16 {
    type Err = IntError;

    open spec fn from_text_spec(t: Seq<char>) -> Result<u16, IntError> {
        match int_of_text(t, 0, 0xffff) {
            Ok(v) => Ok(v as u16),
            Err(e) => Err(e),
        }
    }

    fn from_text(text: &str) -> (r: Result<u16, IntError>) {
        match parse_int(text, 0, 0xffff) {
            Ok(v) => Ok(v as u16),
            Err(e) => Err(e),
        }
    }
}

impl FromText for u32 {
    type Err = IntError;

    open spec fn from_text_spec(t: Seq<char>) -> Result<u32, IntError> {
        match int_of_text(t, 0, 0xffff_ffff) {
            Ok(v) => Ok(v as u32),
            Err(e) => Err(e),
        }
    }

    fn from_text(text: &str) -> (r: Result<u32, IntError>) {
        match parse_int(text, 0, 0xffff_ffff) {
            Ok(v) => Ok(v as u32),
            Err(e) => Err(e),
        }
    }
}

impl FromText for u64 {
    type Err = IntError;

    open spec fn from_text_spec(t: Seq<char>) -> Result<u64, IntError> {
        match int_of_text(t, 0, 0xffff_ffff_ffff_ffff) {
            Ok(v) => Ok(v as u64),
            Err(e) => Err(e),
        }
    }

    fn from_text(text: &str) -> (r: Result<u64, IntError>) {
        match parse_int(text, 0, 0xffff_ffff_ffff_ffff) {
            Ok(v) => Ok(v as u64),
            Err(e) => Err(e),
        }
    }
}

impl FromText for i8 {
    type Err = IntError;

    open spec fn from_text_spec(t: Seq<char>) -> Result<i8, IntError> {
        match int_of_text(t, -0x80, 0x7f) {
            Ok(v) => Ok(v as i8),
            Err(e) => Err(e),
        }
    }

    fn from_text(text: &str) -> (r: Result<i8, IntError>) {
        match parse_int(text, -0x80, 0x7f) {
            Ok(v) => Ok(v as i8),
            Err(e) => Err(e),
        }
    }
}

impl FromText for i16 {
    type Err = IntError;

    open spec fn from_text_spec(t: Seq<char>) -> Result<i16, IntError> {
        match int_of_text(t, -0x8000, 0x7fff) {
            Ok(v) => Ok(v as i16),
            Err(e) => Err(e),
        }
    }

    fn from_text(text: &str) -> (r: Result<i16, IntError>) {
        match parse_int(text, -0x8000, 0x7fff) {
            Ok(v) => Ok(v as i16),
            Err(e) => Err(e),
        }
    }
}

impl FromText for i32 {
    type Err = IntError;

    open spec fn from_text_spec(t: Seq<char>) -> Result<i32, IntError> {
        match int_of_text(t, -0x8000_0000, 0x7fff_ffff) {
            Ok(v) => Ok(v as i32),
            Err(e) => Err(e),
        }
    }

    fn from_text(text: &str) -> (r: Result<i32, IntError>) {
        match parse_int(text, -0x8000_0000, 0x7fff_ffff) {
            Ok(v) => Ok(v as i32),
            Err(e) => Err(e),
        }
    }
}

impl FromText for i64 {
    type Err = IntError;

    open spec fn from_text_spec(t: Seq<char>) -> Result<i64, IntError> {
        match int_of_text(t, -0x8000_0000_0000_0000, 0x7fff_ffff_ffff_ffff) {
            Ok(v) => Ok(v as i64),
            Err(e) => Err(e),
        }
    }

    fn from_text(text: &str) -> (r: Result<i64, IntError>) {
        match parse_int(text, -0x8000_0000_0000_0000, 0x7fff_ffff_ffff_ffff) {
            Ok(v) => Ok(v as i64),
            Err(e) => Err(e),
        }
    }
}

impl FromText for usize {
    type Err = IntError;

    open spec fn from_text_spec(t: Seq<char>) -> Result<usize, IntError> {
        match int_of_text(t, 0, usize::MAX as int) {
            Ok(v) => Ok(v as usize),
            Err(e) => Err(e),
        }
    }

    fn from_text(text: &str) -> (r: Result<usize, IntError>) {
        match parse_int(text, 0, usize::MAX as i128) {
            Ok(v) => Ok(v as usize),
            Err(e) => Err(e),
        }
    }
}

impl FromText for isize {
    type Err = IntError;

    open spec fn from_text_spec(t: Seq<char>) -> Result<isize, IntError> {
        match int_of_text(t, isize::MIN as int, isize::MAX as int) {
            Ok(v) => Ok(v as isize),
            Err(e) => Err(e),
        }
    }

    fn from_text(text: &str) -> (r: Result<isize, IntError>) {
        match parse_int(text, isize::MIN as i128, isize::MAX as i128) {
            Ok(v) => Ok(v as isize),
            Err(e) => Err(e),
        }
    }
}

/// `true` and `false` are read as themselves, and nothing else is a `bool`,
/// as the standard library reads them.
impl FromText for bool {
    type Err = BoolError;

    open spec fn from_text_spec(t: Seq<char>) -> Result<bool, BoolError> {
        if t == "true"@ {
            Ok(true)
        } else if t == "false"@ {
            Ok(false)
        } else {
            Err(BoolError)
        }
    }

    fn from_text(text: &str) -> (r: Result<bool, BoolError>) {
        if crate::text::str_eq(text, "true") {
            Ok(true)
        } else if crate::text::str_eq(text, "false") {
            Ok(false)
        } else {
            Err(BoolError)
        }
    }
}

/// Text of exactly one character is read as that character, as the
/// standard library reads a `char`.
impl FromText for char {
    type Err = CharError;

    open spec fn from_text_spec(t: Seq<char>) -> Result<char, CharError> {
        if t.len() == 1 {
            Ok(t[0])
        } else if t.len() == 0 {
            Err(CharError::Empty)
        } else {
            Err(CharError::TooMany)
        }
    }

    fn from_text(text: &str) -> (r: Result<char, CharError>) {
        let v = chars_of(text);
        if v.len() == 1 {
            Ok(v[0])
        } else if v.len() == 0 {
            Err(CharError::Empty)
        } else {
            Err(CharError::TooMany)
        }
    }
}

impl BoolError {
    /// The message the standard library gives for text that is not a `bool`.
    pub fn describe(&self) -> (r: String)
        ensures
            r@ == "provided string was not `true` or `false`"@,
    {
        owned("provided string was not `true` or `false`")
    }
}

impl CharError {
    /// The message the standard library gives for text that is not one
    /// character.
    pub fn describe(&self) -> (r: String)
        ensures
            r@ == match self {
                CharError::Empty => "cannot parse char from empty string"@,
                CharError::TooMany => "too many characters in string"@,
            },
    {
        match self {
            CharError::Empty => owned("cannot parse char from empty string"),
            CharError::TooMany => owned("too many characters in string"),
        }
    }
}

impl Value {
    /// Parse the value as a type that reads itself from text, such as an
    /// integer: `value.parse::<i64>()`.
    pub fn parse<T: FromText>(&self) -> (r: Result<T, ParseValueError<T::Err>>)
        ensures
            match self@ {
                ValueModel::List(_) => (r matches Err(ParseValueError::WrongShape(w)) && w.wanted@
                    == "single value"@),
                ValueModel::String(t) => match T::from_text_spec(t) {
                    Ok(v) => r == Ok::<T, ParseValueError<T::Err>>(v),
                    Err(e) => r == Err::<T, ParseValueError<T::Err>>(ParseValueError::Invalid(e)),
                },
            },
    {
        match self {
            Value::String(s) => match T::from_text(s.as_str()) {
                Ok(v) => Ok(v),
                Err(e) => Err(ParseValueError::Invalid(e)),
            },
            Value::List(_) => Err(ParseValueError::WrongShape(single_value_wanted())),
        }
    }
}

/// A type that can be stored as a value.
///
/// Text becomes a single value and a vector of text becomes a list, as the
/// file format stores them.
pub trait IntoValue: Sized {
    /// The value this becomes.
    spec fn value_model(&self) -> ValueModel;

    /// Convert into a value.
    fn into_value(self) -> (v: Value)
        ensures
            v@ == self.value_model(),
    ;
}

impl IntoValue for Value {
    open spec fn value_model(&self) -> ValueModel {
        self@
    }

    fn into_value(self) -> (v: Value) {
        self
    }
}

impl IntoValue for String {
    open spec fn value_model(&self) -> ValueModel {
        ValueModel::String(self@)
    }

    fn into_value(self) -> (v: Value) {
        Value::String(self)
    }
}

/// A string holding the text of a string slice.
pub fn owned(s: &str) -> (t: String)
    ensures
        t@ == s@,
{
    let mut t = String::new();
    push_str(&mut t, s);
    t
}

impl<'a> IntoValue for &'a str {
    open spec fn value_model(&self) -> ValueModel {
        ValueModel::String(self@)
    }

    fn into_value(self) -> (v: Value) {
        Value::String(owned(self))
    }
}

impl IntoValue for Vec<String> {
    open spec fn value_model(&self) -> ValueModel {
        ValueModel::List(texts(self@))
    }

    fn into_value(self) -> (v: Value) {
        Value::List(self)
    }
}

impl<'a> IntoValue for Vec<&'a str> {
    open spec fn value_model(&self) -> ValueModel {
        ValueModel::List(str_texts(self@))
    }

    fn into_value(self) -> (v: Value) {
        let mut items: Vec<String> = Vec::new();
        let mut i: usize = 0;
        while i < self.len()
            invariant
                0 <= i <= self@.len(),
                items@.len() == i,
                forall|j: int| 0 <= j < i ==> (#[trigger] items@[j])@ == self@[j]@,
            decreases self@.len() - i,
        {
            items.push(owned(self[i]));
            i = i + 1;
        }
        assert(texts(items@) =~= str_texts(self@));
        Value::List(items)
    }
}

/// A number as the standard library writes it in decimal: a minus sign in
/// front of a negative one, then its digits.
pub open spec fn number_text(n: int) -> Seq<char> {
    if n < 0 {
        seq!['-'] + decimal((-n) as nat)
    } else {
        decimal(n as nat)
    }
}

/// A number written in decimal, as the standard library writes it.
fn number_string(n: i128) -> (s: String)
    requires
        -0x1_0000_0000_0000_0000 < n < 0x1_0000_0000_0000_0000,
    ensures
        s@ == number_text(n as int),
{
    let mut s = String::new();
    if n < 0 {
        crate::text::push_char(&mut s, '-');
        push_decimal_u64(&mut s, (-n) as u64);
        assert(s@ =~= seq!['-'] + decimal((-n) as nat));
    } else {
        push_decimal_u64(&mut s, n as u64);
        assert(s@ =~= decimal(n as nat));
    }
    s
}

impl IntoValue for u8 {
    /// The number in decimal.
    open spec fn value_model(&self) -> ValueModel {
        ValueModel::String(number_text(*self as int))
    }

    fn into_value(self) -> (v: Value) {
        Value::String(number_string(self as i128))
    }
}

impl IntoValue for u16 {
    /// The number in decimal.
    open spec fn value_model(&self) -> ValueModel {
        ValueModel::String(number_text(*self as int))
    }

    fn into_value(self) -> (v: Value) {
        Value::String(number_string(self as i128))
    }
}

impl IntoValue for u32 {
    /// The number in decimal.
    open spec fn value_model(&self) -> ValueModel {
        ValueModel::String(number_text(*self as int))
    }

    fn into_value(self) -> (v: Value) {
        Value::String(number_string(self as i128))
    }
}

impl IntoValue for u64 {
    /// The number in decimal.
    open spec fn value_model(&self) -> ValueModel {
        ValueModel::String(number_text(*self as int))
    }

    fn into_value(self) -> (v: Value) {
        Value::String(number_string(self as i128))
    }
}

impl IntoValue for usize {
    /// The number in decimal.
    open spec fn value_model(&self) -> ValueModel {
        ValueModel::String(number_text(*self as int))
    }

    fn into_value(self) -> (v: Value) {
        Value::String(number_string(self as i128))
    }
}

impl IntoValue for i8 {
    /// The number in decimal.
    open spec fn value_model(&self) -> ValueModel {
        ValueModel::String(number_text(*self as int))
    }

    fn into_value(self) -> (v: Value) {
        Value::String(number_string(self as i128))
    }
}

impl IntoValue for i16 {
    /// The number in decimal.
    open spec fn value_model(&self) -> ValueModel {
        ValueModel::String(number_text(*self as int))
    }

    fn into_value(self) -> (v: Value) {
        Value::String(number_string(self as i128))
    }
}

impl IntoValue for i32 {
    /// The number in decimal.
    open spec fn value_model(&self) -> ValueModel {
        ValueModel::String(number_text(*self as int))
    }

    fn into_value(self) -> (v: Value) {
        Value::String(number_string(self as i128))
    }
}

impl IntoValue for i64 {
    /// The number in decimal.
    open spec fn value_model(&self) -> ValueModel {
        ValueModel::String(number_text(*self as int))
    }

    fn into_value(self) -> (v: Value) {
        Value::String(number_string(self as i128))
    }
}

impl IntoValue for isize {
    /// The number in decimal.
    open spec fn value_model(&self) -> ValueModel {
        ValueModel::String(number_text(*self as int))
    }

    fn into_value(self) -> (v: Value) {
        Value::String(number_string(self as i128))
    }
}

impl IntoValue for bool {
    /// `True` or `False`, as Python spells them.
    open spec fn value_model(&self) -> ValueModel {
        ValueModel::String(if *self { "True"@ } else { "False"@ })
    }

    fn into_value(self) -> (v: Value) {
        if self {
            Value::String(owned("True"))
        } else {
            Value::String(owned("False"))
        }
    }
}

impl WrongShape {
    /// The message shown for this error, such as `value is not a single
    /// value`.
    pub fn describe(&self) -> (r: String)
        ensures
            r@ == "value is not a "@ + self.wanted@,
    {
        let mut r = owned("value is not a ");
        push_str(&mut r, self.wanted);
        r
    }
}

impl NotABool {
    /// The message shown for this error: the text, quoted, and that it is not
    /// a boolean, or the shape error.
    pub fn describe(&self) -> (r: String)
        ensures
            r@ == match self {
                NotABool::Unrecognised(t) => debug_text(t@) + " is not a valid boolean"@,
                NotABool::WrongShape(w) => "value is not a "@ + w.wanted@,
            },
    {
        match self {
            NotABool::Unrecognised(t) => {
                let mut r = debug_string(t.as_str());
                push_str(&mut r, " is not a valid boolean");
                r
            },
            NotABool::WrongShape(w) => w.describe(),
        }
    }
}

impl IntError {
    /// The message the standard library gives for this kind of failure.
    pub fn describe(&self) -> (r: String)
        ensures
            r@ == match self {
                IntError::Empty => "cannot parse integer from empty string"@,
                IntError::InvalidDigit => "invalid digit found in string"@,
                IntError::PosOverflow => "number too large to fit in target type"@,
                IntError::NegOverflow => "number too small to fit in target type"@,
            },
    {
        match self {
            IntError::Empty => owned("cannot parse integer from empty string"),
            IntError::InvalidDigit => owned("invalid digit found in string"),
            IntError::PosOverflow => owned("number too large to fit in target type"),
            IntError::NegOverflow => owned("number too small to fit in target type"),
        }
    }
}

impl ParseValueError<IntError> {
    /// The message shown for a value that did not read as an integer.
    pub fn describe(&self) -> (r: String)
        ensures
            r@ == match self {
                ParseValueError::WrongShape(w) => "value is not a "@ + w.wanted@,
                ParseValueError::Invalid(IntError::Empty) => "cannot parse integer from empty string"@,
                ParseValueError::Invalid(IntError::InvalidDigit) => "invalid digit found in string"@,
                ParseValueError::Invalid(IntError::PosOverflow) => "number too large to fit in target type"@,
                ParseValueError::Invalid(IntError::NegOverflow) => "number too small to fit in target type"@,
            },
    {
        match self {
            ParseValueError::WrongShape(w) => w.describe(),
            ParseValueError::Invalid(e) => e.describe(),
        }
    }
}

impl Value {
    /// The value as text: a single value as it is, a list with `, ` between
    /// its items.
    pub fn describe(&self) -> (r: String)
        ensures
            r@ == match self@ {
                ValueModel::String(s) => s,
                ValueModel::List(items) => join_items(items),
            },
    {
        match self {
            Value::String(s) => s.clone(),
            Value::List(items) => {
                let mut r = String::new();
                let mut i: usize = 0;
                while i < items.len()
                    invariant
                        0 <= i <= items@.len(),
                        r@ == join_items(texts(items@).take(i as int)),
                    decreases items@.len() - i,
                {
                    proof {
                        let t = texts(items@).take(i + 1);
                        assert(t.drop_last() == texts(items@).take(i as int));
                        assert(t.last() == items@[i as int]@);
                    }
                    if i > 0 {
                        push_str(&mut r, ", ");
                    } else {
                        assert(texts(items@).take(1) =~= seq![items@[0]@]);
                    }
                    push_str(&mut r, items[i].as_str());
                    i = i + 1;
                }
                assert(texts(items@).take(items@.len() as int) == texts(items@));
                r
            },
        }
    }
}


// ---------------------------------------------------------------------------
// Laws of reading numbers and booleans.
// ---------------------------------------------------------------------------

/// The character written for a decimal digit is a digit of that value.
proof fn lemma_digit(d: nat)
    requires
        d < 10,
    ensures
        is_digit(digit(d)),
        digit_value(digit(d)) == d,
{
    assert(('0' as u32) == 48);
}

/// A number written in decimal starts with a digit.
proof fn lemma_decimal_starts_with_digit(n: nat)
    ensures
        decimal(n).len() >= 1,
        is_digit(decimal(n)[0]),
    decreases n,
{
    if n < 10 {
        lemma_digit(n);
    } else {
        lemma_decimal_starts_with_digit(n / 10);
        assert(decimal(n) == decimal(n / 10).push(digit(n % 10)));
        assert(decimal(n)[0] == decimal(n / 10)[0]);
    }
}

/// Reading the decimal digits of `n` gives `n`, or `-n` when reading a
/// negative number, unless that is out of range.
proof fn lemma_read_decimal(n: nat, neg: bool, min: int, max: int)
    requires
        min <= 0 <= max,
    ensures
        !neg ==> read_digits(decimal(n), false, min, max) == (if n <= max {
            Ok::<int, IntError>(n as int)
        } else {
            Err(IntError::PosOverflow)
        }),
        neg ==> read_digits(decimal(n), true, min, max) == (if -n >= min {
            Ok::<int, IntError>(-n)
        } else {
            Err(IntError::NegOverflow)
        }),
    decreases n,
{
    if n < 10 {
        lemma_digit(n);
        assert(decimal(n).drop_last() =~= Seq::<char>::empty());
        assert(decimal(n).last() == digit(n));
    } else {
        let q = n / 10;
        let r = n % 10;
        assert(q * 10 + r == n && q < n && r < 10) by (nonlinear_arith)
            requires
                q == n / 10,
                r == n % 10,
                n >= 10,
        ;
        lemma_read_decimal(q, neg, min, max);
        lemma_digit(r as nat);
        let d = decimal(n);
        assert(d == decimal(q).push(digit(r as nat)));
        assert(d.drop_last() == decimal(q));
        assert(d.last() == digit(r as nat));
    }
}

/// Text whose first character is not a digit is not a number.
proof fn lemma_not_digit_first(d: Seq<char>, min: int, max: int)
    requires
        d.len() > 0,
        !is_digit(d[0]),
    ensures
        read_digits(d, false, min, max) == Err::<int, IntError>(IntError::InvalidDigit),
    decreases d.len(),
{
    if d.len() > 1 {
        assert(d.drop_last()[0] == d[0]);
        lemma_not_digit_first(d.drop_last(), min, max);
    } else {
        assert(d.drop_last() =~= Seq::<char>::empty());
        assert(read_digits(d.drop_last(), false, min, max) == Ok::<int, IntError>(0));
        assert(d.last() == d[0]);
    }
}

/// How a number written in decimal reads, into `[min, max]`: as itself when
/// in range, and otherwise as an overflow on the side it falls, or, for a
/// negative number where none are allowed, as a misplaced sign.
proof fn lemma_number_reads(n: int, min: int, max: int)
    requires
        min <= 0 <= max,
    ensures
        int_of_text(number_text(n), min, max) == (if min <= n <= max {
            Ok::<int, IntError>(n)
        } else if n > max {
            Err(IntError::PosOverflow)
        } else if min < 0 {
            Err(IntError::NegOverflow)
        } else {
            Err(IntError::InvalidDigit)
        }),
{
    let t = number_text(n);
    if n >= 0 {
        lemma_decimal_starts_with_digit(n as nat);
        lemma_read_decimal(n as nat, false, min, max);
        assert(t[0] != '-' && t[0] != '+');
    } else {
        let m = (-n) as nat;
        lemma_decimal_starts_with_digit(m);
        assert(t == seq!['-'] + decimal(m));
        assert(t[0] == '-');
        if min < 0 {
            assert(t.drop_first() =~= decimal(m));
            lemma_read_decimal(m, true, min, max);
        } else {
            assert(!is_digit(t[0]));
            lemma_not_digit_first(t, min, max);
        }
    }
}

/// Integers are read from decimal text as the standard library reads them:
/// the text of a number in a type's range reads as that number, a larger
/// one as a positive overflow, a smaller one as a negative overflow, and a
/// negative one as an invalid digit where the type holds no negatives.
pub proof fn law_integers_read_from_decimal(n: int)
    ensures
        <u8 as FromText>::from_text_spec(number_text(n)) == (if 0 <= n <= 0xff { Ok::<u8, IntError>(n as u8) }
            else if n > 0xff { Err(IntError::PosOverflow) } else { Err(IntError::InvalidDigit) }),
        <u16 as FromText>::from_text_spec(number_text(n)) == (if 0 <= n <= 0xffff { Ok::<u16, IntError>(n as u16) }
            else if n > 0xffff { Err(IntError::PosOverflow) } else { Err(IntError::InvalidDigit) }),
        <u32 as FromText>::from_text_spec(number_text(n)) == (if 0 <= n <= 0xffff_ffff { Ok::<u32, IntError>(n as u32) }
            else if n > 0xffff_ffff { Err(IntError::PosOverflow) } else { Err(IntError::InvalidDigit) }),
        <u64 as FromText>::from_text_spec(number_text(n)) == (if 0 <= n <= 0xffff_ffff_ffff_ffff { Ok::<u64, IntError>(n as u64) }
            else if n > 0xffff_ffff_ffff_ffff { Err(IntError::PosOverflow) } else { Err(IntError::InvalidDigit) }),
        <usize as FromText>::from_text_spec(number_text(n)) == (if 0 <= n <= usize::MAX { Ok::<usize, IntError>(n as usize) }
            else if n > usize::MAX { Err(IntError::PosOverflow) } else { Err(IntError::InvalidDigit) }),
        <i8 as FromText>::from_text_spec(number_text(n)) == (if -0x80 <= n <= 0x7f { Ok::<i8, IntError>(n as i8) }
            else if n > 0x7f { Err(IntError::PosOverflow) } else { Err(IntError::NegOverflow) }),
        <i16 as FromText>::from_text_spec(number_text(n)) == (if -0x8000 <= n <= 0x7fff { Ok::<i16, IntError>(n as i16) }
            else if n > 0x7fff { Err(IntError::PosOverflow) } else { Err(IntError::NegOverflow) }),
        <i32 as FromText>::from_text_spec(number_text(n)) == (if -0x8000_0000 <= n <= 0x7fff_ffff { Ok::<i32, IntError>(n as i32) }
            else if n > 0x7fff_ffff { Err(IntError::PosOverflow) } else { Err(IntError::NegOverflow) }),
        <i64 as FromText>::from_text_spec(number_text(n)) == (if -0x8000_0000_0000_0000 <= n <= 0x7fff_ffff_ffff_ffff { Ok::<i64, IntError>(n as i64) }
            else if n > 0x7fff_ffff_ffff_ffff { Err(IntError::PosOverflow) } else { Err(IntError::NegOverflow) }),
        <isize as FromText>::from_text_spec(number_text(n)) == (if isize::MIN <= n <= isize::MAX { Ok::<isize, IntError>(n as isize) }
            else if n > isize::MAX { Err(IntError::PosOverflow) } else { Err(IntError::NegOverflow) }),
{
    lemma_number_reads(n, 0, 0xff);
    lemma_number_reads(n, 0, 0xffff);
    lemma_number_reads(n, 0, 0xffff_ffff);
    lemma_number_reads(n, 0, 0xffff_ffff_ffff_ffff);
    lemma_number_reads(n, 0, usize::MAX as int);
    lemma_number_reads(n, -0x80, 0x7f);
    lemma_number_reads(n, -0x8000, 0x7fff);
    lemma_number_reads(n, -0x8000_0000, 0x7fff_ffff);
    lemma_number_reads(n, -0x8000_0000_0000_0000, 0x7fff_ffff_ffff_ffff);
    lemma_number_reads(n, isize::MIN as int, isize::MAX as int);
}

/// A number stored as a value reads back, as its own type, as itself.
pub proof fn law_stored_numbers_read_back(a: u8, b: u16, c: u32, d: u64, e: usize, f: i8, g: i16, h: i32, i: i64, j: isize)
    ensures
        a.value_model() matches ValueModel::String(t) && <u8 as FromText>::from_text_spec(t) == Ok::<u8, IntError>(a),
        b.value_model() matches ValueModel::String(t) && <u16 as FromText>::from_text_spec(t) == Ok::<u16, IntError>(b),
        c.value_model() matches ValueModel::String(t) && <u32 as FromText>::from_text_spec(t) == Ok::<u32, IntError>(c),
        d.value_model() matches ValueModel::String(t) && <u64 as FromText>::from_text_spec(t) == Ok::<u64, IntError>(d),
        e.value_model() matches ValueModel::String(t) && <usize as FromText>::from_text_spec(t) == Ok::<usize, IntError>(e),
        f.value_model() matches ValueModel::String(t) && <i8 as FromText>::from_text_spec(t) == Ok::<i8, IntError>(f),
        g.value_model() matches ValueModel::String(t) && <i16 as FromText>::from_text_spec(t) == Ok::<i16, IntError>(g),
        h.value_model() matches ValueModel::String(t) && <i32 as FromText>::from_text_spec(t) == Ok::<i32, IntError>(h),
        i.value_model() matches ValueModel::String(t) && <i64 as FromText>::from_text_spec(t) == Ok::<i64, IntError>(i),
        j.value_model() matches ValueModel::String(t) && <isize as FromText>::from_text_spec(t) == Ok::<isize, IntError>(j),
{
    law_integers_read_from_decimal(a as int);
    law_integers_read_from_decimal(b as int);
    law_integers_read_from_decimal(c as int);
    law_integers_read_from_decimal(d as int);
    law_integers_read_from_decimal(e as int);
    law_integers_read_from_decimal(f as int);
    law_integers_read_from_decimal(g as int);
    law_integers_read_from_decimal(h as int);
    law_integers_read_from_decimal(i as int);
    law_integers_read_from_decimal(j as int);
}

/// A boolean stored as a value reads back as itself, as `as_bool` and
/// `get_bool` read it.
pub proof fn law_stored_bool_reads_back(b: bool)
    ensures
        b.value_model() matches ValueModel::String(t) && bool_of(t) == Some(b),
{
    reveal_strlit("True");
    reveal_strlit("False");
    reveal_strlit("true");
    reveal_strlit("false");
    reveal_strlit("yes");
    reveal_strlit("on");
    reveal_strlit("1");
    reveal_strlit("no");
    reveal_strlit("off");
    reveal_strlit("0");
    let t = if b { "True"@ } else { "False"@ };
    let l = t.map_values(|c: char| ascii_lower(c));
    assert(('T' as u32) + 32 == ('t' as u32));
    assert(('F' as u32) + 32 == ('f' as u32));
    if b {
        assert(l =~= "true"@);
    } else {
        assert(l =~= "false"@);
        assert(l != "no"@ && l != "off"@ && l != "0"@);
    }
    assert(l != "yes"@ && l != "on"@ && l != "1"@);
}

} // verus!
