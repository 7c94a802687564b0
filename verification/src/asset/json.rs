//! JSON, as scene files use it: values, a recursive-descent reader over
//! bytes, and compact and indented writers.
//!
//! Objects keep their fields in order. A number is kept as the text it was
//! read from (or is to be written as); its numeric value is the caller's
//! business. The reader takes a string's bytes one by one, so a byte of
//! 128 or more becomes the character with that code.

use vstd::prelude::*;
use vstd::string::*;
use vstd::utf8::{decode_utf8, encode_utf8, valid_utf8};
use crate::text::{str_eq, string_from_chars, utf8_to_string};

verus! {

/// A JSON value.
#[derive(Debug, PartialEq)]
pub enum JsonValue {
    Null,
    Bool(bool),
    /// The text of a number, such as `-1.5e3`.
    Number(String),
    Str(String),
    Array(Vec<JsonValue>),
    /// Fields in the order they were read or built.
    Object(Vec<(String, JsonValue)>),
}

/// What a `JsonValue` holds, as mathematical values.
pub enum Json {
    Null,
    Bool(bool),
    Number(Seq<char>),
    Str(Seq<char>),
    Array(Seq<Json>),
    Object(Seq<(Seq<char>, Json)>),
}

pub open spec fn view_value(v: JsonValue) -> Json
    decreases v,
{
    match v {
        JsonValue::Null => Json::Null,
        JsonValue::Bool(b) => Json::Bool(b),
        JsonValue::Number(n) => Json::Number(n@),
        JsonValue::Str(s) => Json::Str(s@),
        JsonValue::Array(items) => Json::Array(view_items(items@)),
        JsonValue::Object(fields) => Json::Object(view_fields(fields@)),
    }
}

pub open spec fn view_items(s: Seq<JsonValue>) -> Seq<Json>
    decreases s,
{
    if s.len() == 0 {
        Seq::empty()
    } else {
        view_items(s.drop_last()).push(view_value(s.last()))
    }
}

pub open spec fn view_fields(s: Seq<(String, JsonValue)>) -> Seq<(Seq<char>, Json)>
    decreases s,
{
    if s.len() == 0 {
        Seq::empty()
    } else {
        view_fields(s.drop_last()).push((s.last().0@, view_value(s.last().1)))
    }
}

/// Which literal word was expected.
#[derive(Clone, Copy, Debug, PartialEq, Eq, Structural)]
pub enum Literal {
    True,
    False,
    Null,
}

/// Why text is not JSON. Positions are byte offsets into the text.
#[derive(Clone, Copy, Debug, PartialEq, Eq, Structural)]
pub enum JsonError {
    /// Byte `expected` was due at `pos`; `found` is what stood there, or
    /// `None` at the end of the text.
    Expected { expected: u8, pos: usize, found: Option<u8> },
    /// No value starts with byte `found`.
    UnexpectedChar { found: u8, pos: usize },
    /// The text ended where a value was due.
    UnexpectedEof { pos: usize },
    UnterminatedString,
    /// The text ended right after a backslash in a string.
    EofInEscape,
    InvalidEscape(u8),
    /// The text ended inside the four digits of a `\u` escape.
    Truncated,
    /// The four bytes at `pos` after a `\u` are not UTF-8.
    InvalidUtf8 { pos: usize },
    /// The four bytes at `pos` after a `\u` are not a hexadecimal number.
    InvalidUnicodeEscape { pos: usize },
    /// A `\u` escape names a surrogate, which is no character.
    InvalidCodepoint(u32),
    /// The bytes from `start` to `end` look like a number but are not one.
    InvalidNumber { start: usize, end: usize },
    ExpectedCommaOrBrace { pos: usize },
    ExpectedCommaOrBracket { pos: usize },
    /// The word `literal` was due; the text differs before `pos`.
    ExpectedLiteral { literal: Literal, pos: usize },
    /// Something other than white space follows the value.
    TrailingData { pos: usize },
}

// ----- The grammar, over the bytes of the text -----

pub open spec fn is_ws(b: u8) -> bool {
    b == 0x20u8 || b == 0x09u8 || b == 0x0au8 || b == 0x0du8
}

pub open spec fn is_digit(b: u8) -> bool {
    0x30u8 <= b <= 0x39u8
}

/// The first position at or after `pos` that is not white space.
pub open spec fn skip_ws(inp: Seq<u8>, pos: int) -> int
    decreases inp.len() - pos,
{
    if 0 <= pos < inp.len() && is_ws(inp[pos]) {
        skip_ws(inp, pos + 1)
    } else {
        pos
    }
}

/// The first position at or after `pos` that is not a digit.
pub open spec fn digits_end(inp: Seq<u8>, pos: int) -> int
    decreases inp.len() - pos,
{
    if 0 <= pos < inp.len() && is_digit(inp[pos]) {
        digits_end(inp, pos + 1)
    } else {
        pos
    }
}

/// Skip white space, then take byte `ch`; returns the position after it.
pub open spec fn expect_byte(inp: Seq<u8>, pos: int, ch: u8) -> Result<int, JsonError> {
    let p = skip_ws(inp, pos);
    if p < inp.len() {
        if inp[p] == ch {
            Ok(p + 1)
        } else {
            Err(JsonError::Expected { expected: ch, pos: p as usize, found: Some(inp[p]) })
        }
    } else {
        Err(JsonError::Expected { expected: ch, pos: p as usize, found: None })
    }
}

pub open spec fn is_hex_char(c: char) -> bool {
    ('0' <= c <= '9') || ('a' <= c <= 'f') || ('A' <= c <= 'F')
}

pub open spec fn hex_char_value(c: char) -> int {
    if '0' <= c <= '9' {
        c as int - '0' as int
    } else if 'a' <= c <= 'f' {
        c as int - 'a' as int + 10
    } else {
        c as int - 'A' as int + 10
    }
}

/// The number that hexadecimal digits `ds` spell.
pub open spec fn hex_fold(ds: Seq<char>) -> int
    decreases ds.len(),
{
    if ds.len() == 0 {
        0
    } else {
        hex_fold(ds.drop_last()) * 16 + hex_char_value(ds.last())
    }
}

/// `cs` without a leading `+`.
pub open spec fn hex_digits(cs: Seq<char>) -> Seq<char> {
    if cs.len() > 0 && cs[0] == '+' {
        cs.drop_first()
    } else {
        cs
    }
}

pub open spec fn all_hex(ds: Seq<char>) -> bool {
    forall|i: int| 0 <= i < ds.len() ==> is_hex_char(#[trigger] ds[i])
}

/// `u32::from_str_radix(cs, 16)` as its documentation states it, for at
/// most four characters: an optional `+`, then one or more hexadecimal
/// digits.
pub open spec fn hex_value(cs: Seq<char>) -> Option<u32> {
    let ds = hex_digits(cs);
    if ds.len() > 0 && all_hex(ds) {
        Some(hex_fold(ds) as u32)
    } else {
        None
    }
}

/// Is `code` a Unicode scalar value, that is, the code of a `char`?
pub open spec fn is_scalar(code: u32) -> bool {
    code < 0xD800 || (0xE000 <= code && code <= 0x10FFFF)
}

/// The rest of a string whose opening quote is before `p`, with `acc`
/// read so far: the characters and the position after the closing quote.
pub open spec fn string_body(inp: Seq<u8>, p: int, acc: Seq<char>) -> Result<(Seq<char>, int), JsonError>
    decreases inp.len() - p,
{
    if !(0 <= p < inp.len()) {
        Err(JsonError::UnterminatedString)
    } else if inp[p] == 0x22u8 {
        Ok((acc, p + 1))
    } else if inp[p] == 0x5cu8 {
        if p + 1 >= inp.len() {
            Err(JsonError::EofInEscape)
        } else {
            let e = inp[p + 1];
            if e == 0x22u8 {
                string_body(inp, p + 2, acc.push('"'))
            } else if e == 0x5cu8 {
                string_body(inp, p + 2, acc.push('\\'))
            } else if e == 0x2fu8 {
                string_body(inp, p + 2, acc.push('/'))
            } else if e == 0x6eu8 {
                string_body(inp, p + 2, acc.push('\n'))
            } else if e == 0x72u8 {
                string_body(inp, p + 2, acc.push('\r'))
            } else if e == 0x74u8 {
                string_body(inp, p + 2, acc.push('\t'))
            } else if e == 0x62u8 {
                string_body(inp, p + 2, acc.push('\u{8}'))
            } else if e == 0x66u8 {
                string_body(inp, p + 2, acc.push('\u{c}'))
            } else if e == 0x75u8 {
                if p + 6 > inp.len() {
                    Err(JsonError::Truncated)
                } else {
                    let raw = inp.subrange(p + 2, p + 6);
                    if !valid_utf8(raw) {
                        Err(JsonError::InvalidUtf8 { pos: (p + 2) as usize })
                    } else {
                        match hex_value(decode_utf8(raw)) {
                            None => Err(JsonError::InvalidUnicodeEscape { pos: (p + 2) as usize }),
                            Some(code) => if is_scalar(code) {
                                string_body(inp, p + 6, acc.push(code as char))
                            } else {
                                Err(JsonError::InvalidCodepoint(code))
                            },
                        }
                    }
                }
            } else {
                Err(JsonError::InvalidEscape(e))
            }
        }
    } else {
        string_body(inp, p + 1, acc.push(inp[p] as char))
    }
}

/// A string after optional white space at `pos`.
pub open spec fn string_at(inp: Seq<u8>, pos: int) -> Result<(Seq<char>, int), JsonError> {
    match expect_byte(inp, pos, 0x22u8) {
        Err(e) => Err(e),
        Ok(p) => string_body(inp, p, Seq::empty()),
    }
}

/// Where the number starting at `pos` ends, and whether its text is a
/// number: an optional `-`, digits, optionally `.` and digits, optionally
/// `e` or `E`, an optional sign and digits; with a digit before or after
/// the point, and a digit in the exponent if there is one (the grammar
/// that `str::parse::<f64>` documents).
pub open spec fn number_scan(inp: Seq<u8>, pos: int) -> (int, bool) {
    let s0 = if pos < inp.len() && inp[pos] == 0x2du8 {
        pos + 1
    } else {
        pos
    };
    let e1 = digits_end(inp, s0);
    let has_dot = e1 < inp.len() && inp[e1] == 0x2eu8;
    let e2 = if has_dot {
        digits_end(inp, e1 + 1)
    } else {
        e1
    };
    let has_exp = e2 < inp.len() && (inp[e2] == 0x65u8 || inp[e2] == 0x45u8);
    let s3 = if !has_exp {
        e2
    } else if e2 + 1 < inp.len() && (inp[e2 + 1] == 0x2bu8 || inp[e2 + 1] == 0x2du8) {
        e2 + 2
    } else {
        e2 + 1
    };
    let e3 = if has_exp {
        digits_end(inp, s3)
    } else {
        e2
    };
    (e3, (e1 > s0 || (has_dot && e2 > e1 + 1)) && (!has_exp || e3 > s3))
}

/// Bytes read as characters one by one.
pub open spec fn bytes_as_chars(b: Seq<u8>) -> Seq<char> {
    b.map_values(|x: u8| x as char)
}

pub open spec fn number_at(inp: Seq<u8>, pos: int) -> Result<(Json, int), JsonError> {
    let (end, ok) = number_scan(inp, pos);
    if ok {
        Ok((Json::Number(bytes_as_chars(inp.subrange(pos, end))), end))
    } else {
        Err(JsonError::InvalidNumber { start: pos as usize, end: end as usize })
    }
}

pub open spec fn literal_word(l: Literal) -> Seq<u8> {
    match l {
        Literal::True => seq![0x74u8, 0x72u8, 0x75u8, 0x65u8],
        Literal::False => seq![0x66u8, 0x61u8, 0x6cu8, 0x73u8, 0x65u8],
        Literal::Null => seq![0x6eu8, 0x75u8, 0x6cu8, 0x6cu8],
    }
}

pub open spec fn literal_json(l: Literal) -> Json {
    match l {
        Literal::True => Json::Bool(true),
        Literal::False => Json::Bool(false),
        Literal::Null => Json::Null,
    }
}

/// The word of `l` from its `i`-th byte on, at `p`: the position after
/// it, or where reading it stopped.
pub open spec fn literal_from(inp: Seq<u8>, p: int, l: Literal, i: int) -> Result<int, JsonError>
    decreases literal_word(l).len() - i,
{
    if i >= literal_word(l).len() {
        Ok(p + i)
    } else if 0 <= p + i < inp.len() && inp[p + i] == literal_word(l)[i] {
        literal_from(inp, p, l, i + 1)
    } else {
        Err(
            JsonError::ExpectedLiteral {
                literal: l,
                pos: (if p + i < inp.len() {
                    p + i + 1
                } else {
                    p + i
                }) as usize,
            },
        )
    }
}

/// The value after optional white space at `pos`, and the position after
/// it.
pub open spec fn value_at(inp: Seq<u8>, pos: int) -> Result<(Json, int), JsonError>
    decreases inp.len() - pos, 1int,
{
    let p = skip_ws(inp, pos);
    if !(0 <= pos && p < inp.len()) {
        Err(JsonError::UnexpectedEof { pos: p as usize })
    } else {
        proof {
            lemma_skip_ws(inp, pos);
        }
        let c = inp[p];
        if c == 0x22u8 {
            match string_at(inp, p) {
                Ok((s, q)) => Ok((Json::Str(s), q)),
                Err(e) => Err(e),
            }
        } else if c == 0x7bu8 {
            object_body(inp, p + 1)
        } else if c == 0x5bu8 {
            array_body(inp, p + 1)
        } else if c == 0x74u8 {
            literal_at(inp, p, Literal::True)
        } else if c == 0x66u8 {
            literal_at(inp, p, Literal::False)
        } else if c == 0x6eu8 {
            literal_at(inp, p, Literal::Null)
        } else if c == 0x2du8 || is_digit(c) {
            number_at(inp, p)
        } else {
            Err(JsonError::UnexpectedChar { found: c, pos: p as usize })
        }
    }
}

pub open spec fn literal_at(inp: Seq<u8>, p: int, l: Literal) -> Result<(Json, int), JsonError> {
    match literal_from(inp, p, l, 0) {
        Ok(q) => Ok((literal_json(l), q)),
        Err(e) => Err(e),
    }
}

/// An array whose `[` is just before `p`.
pub open spec fn array_body(inp: Seq<u8>, p: int) -> Result<(Json, int), JsonError>
    decreases inp.len() - p, 3int,
{
    let q = skip_ws(inp, p);
    if q < inp.len() && inp[q] == 0x5du8 {
        Ok((Json::Array(Seq::empty()), q + 1))
    } else if 0 <= p <= inp.len() {
        proof {
            lemma_skip_ws(inp, p);
        }
        items_loop(inp, q, Seq::empty())
    } else {
        Err(JsonError::UnexpectedEof { pos: q as usize })
    }
}

/// The items of an array from the one at `q` on, after `acc`.
pub open spec fn items_loop(inp: Seq<u8>, q: int, acc: Seq<Json>) -> Result<(Json, int), JsonError>
    decreases inp.len() - q, 2int,
{
    match value_at(inp, q) {
        Err(e) => Err(e),
        Ok((v, q1)) => {
            let acc2 = acc.push(v);
            let q2 = skip_ws(inp, q1);
            if q2 < inp.len() && inp[q2] == 0x2cu8 {
                if q < q2 + 1 {
                    items_loop(inp, q2 + 1, acc2)
                } else {
                    Err(JsonError::UnexpectedEof { pos: q2 as usize })
                }
            } else if q2 < inp.len() && inp[q2] == 0x5du8 {
                Ok((Json::Array(acc2), q2 + 1))
            } else {
                Err(JsonError::ExpectedCommaOrBracket { pos: q2 as usize })
            }
        },
    }
}

/// An object whose `{` is just before `p`.
pub open spec fn object_body(inp: Seq<u8>, p: int) -> Result<(Json, int), JsonError>
    decreases inp.len() - p, 3int,
{
    let q = skip_ws(inp, p);
    if q < inp.len() && inp[q] == 0x7du8 {
        Ok((Json::Object(Seq::empty()), q + 1))
    } else if 0 <= p <= inp.len() {
        proof {
            lemma_skip_ws(inp, p);
        }
        fields_loop(inp, q, Seq::empty())
    } else {
        Err(JsonError::UnexpectedEof { pos: q as usize })
    }
}

/// The fields of an object from the one at `q` on, after `acc`.
pub open spec fn fields_loop(inp: Seq<u8>, q: int, acc: Seq<(Seq<char>, Json)>) -> Result<(Json, int), JsonError>
    decreases inp.len() - q, 2int,
{
    let k = skip_ws(inp, q);
    match string_at(inp, k) {
        Err(e) => Err(e),
        Ok((key, q1)) => match expect_byte(inp, q1, 0x3au8) {
            Err(e) => Err(e),
            Ok(q2) => {
                if 0 <= q {
                    proof {
                        lemma_skip_ws(inp, q);
                        lemma_string_at(inp, k);
                        lemma_expect_byte(inp, q1, 0x3au8);
                    }
                    match value_at(inp, q2) {
                        Err(e) => Err(e),
                        Ok((v, q3)) => {
                            let acc2 = acc.push((key, v));
                            let q4 = skip_ws(inp, q3);
                            if q4 < inp.len() && inp[q4] == 0x2cu8 {
                                if q < q4 + 1 {
                                    fields_loop(inp, q4 + 1, acc2)
                                } else {
                                    Err(JsonError::UnexpectedEof { pos: q4 as usize })
                                }
                            } else if q4 < inp.len() && inp[q4] == 0x7du8 {
                                Ok((Json::Object(acc2), q4 + 1))
                            } else {
                                Err(JsonError::ExpectedCommaOrBrace { pos: q4 as usize })
                            }
                        },
                    }
                } else {
                    Err(JsonError::UnexpectedEof { pos: q as usize })
                }
            },
        },
    }
}

/// The value of a whole text: one value with nothing but white space
/// around it.
pub open spec fn parse_json_spec(inp: Seq<u8>) -> Result<Json, JsonError> {
    match value_at(inp, 0) {
        Err(e) => Err(e),
        Ok((v, q)) => {
            let q2 = skip_ws(inp, q);
            if q2 != inp.len() {
                Err(JsonError::TrailingData { pos: q2 as usize })
            } else {
                Ok(v)
            }
        },
    }
}

pub proof fn lemma_skip_ws(inp: Seq<u8>, pos: int)
    requires
        0 <= pos,
    ensures
        pos <= skip_ws(inp, pos),
        pos <= inp.len() ==> skip_ws(inp, pos) <= inp.len(),
        skip_ws(inp, pos) < inp.len() ==> !is_ws(inp[skip_ws(inp, pos)]),
    decreases inp.len() - pos,
{
    if 0 <= pos < inp.len() && is_ws(inp[pos]) {
        lemma_skip_ws(inp, pos + 1);
    }
}

pub proof fn lemma_string_body(inp: Seq<u8>, p: int, acc: Seq<char>)
    requires
        0 <= p,
    ensures
        string_body(inp, p, acc) matches Ok((s, q)) ==> p < q <= inp.len(),
    decreases inp.len() - p,
{
    if 0 <= p < inp.len() {
        if inp[p] == 0x5cu8 && p + 1 < inp.len() {
            let e = inp[p + 1];
            if e == 0x22u8 {
                lemma_string_body(inp, p + 2, acc.push('"'));
            } else if e == 0x5cu8 {
                lemma_string_body(inp, p + 2, acc.push('\\'));
            } else if e == 0x2fu8 {
                lemma_string_body(inp, p + 2, acc.push('/'));
            } else if e == 0x6eu8 {
                lemma_string_body(inp, p + 2, acc.push('\n'));
            } else if e == 0x72u8 {
                lemma_string_body(inp, p + 2, acc.push('\r'));
            } else if e == 0x74u8 {
                lemma_string_body(inp, p + 2, acc.push('\t'));
            } else if e == 0x62u8 {
                lemma_string_body(inp, p + 2, acc.push('\u{8}'));
            } else if e == 0x66u8 {
                lemma_string_body(inp, p + 2, acc.push('\u{c}'));
            } else if e == 0x75u8 && p + 6 <= inp.len() {
                let raw = inp.subrange(p + 2, p + 6);
                if valid_utf8(raw) {
                    if let Some(code) = hex_value(decode_utf8(raw)) {
                        lemma_string_body(inp, p + 6, acc.push(code as char));
                    }
                }
            }
        } else if inp[p] != 0x22u8 && inp[p] != 0x5cu8 {
            lemma_string_body(inp, p + 1, acc.push(inp[p] as char));
        }
    }
}

pub proof fn lemma_string_at(inp: Seq<u8>, pos: int)
    requires
        0 <= pos,
    ensures
        string_at(inp, pos) matches Ok((s, q)) ==> pos < q <= inp.len(),
{
    lemma_skip_ws(inp, pos);
    if let Ok(p) = expect_byte(inp, pos, 0x22u8) {
        lemma_string_body(inp, p, Seq::empty());
    }
}

pub proof fn lemma_digits_end(inp: Seq<u8>, pos: int)
    requires
        0 <= pos <= inp.len(),
    ensures
        pos <= digits_end(inp, pos) <= inp.len(),
        forall|i: int| pos <= i < digits_end(inp, pos) ==> is_digit(#[trigger] inp[i]),
        digits_end(inp, pos) < inp.len() ==> !is_digit(inp[digits_end(inp, pos)]),
    decreases inp.len() - pos,
{
    if pos < inp.len() && is_digit(inp[pos]) {
        lemma_digits_end(inp, pos + 1);
    }
}

pub proof fn lemma_number_scan(inp: Seq<u8>, pos: int)
    requires
        0 <= pos < inp.len(),
    ensures
        pos <= number_scan(inp, pos).0 <= inp.len(),
        number_scan(inp, pos).1 ==> pos < number_scan(inp, pos).0,
{
    let s0 = if pos < inp.len() && inp[pos] == 0x2du8 {
        pos + 1
    } else {
        pos
    };
    lemma_digits_end(inp, s0);
    let e1 = digits_end(inp, s0);
    if e1 < inp.len() && inp[e1] == 0x2eu8 {
        lemma_digits_end(inp, e1 + 1);
    }
    let e2 = number_scan_e2(inp, pos);
    if e2 < inp.len() && (inp[e2] == 0x65u8 || inp[e2] == 0x45u8) {
        if e2 + 1 < inp.len() && (inp[e2 + 1] == 0x2bu8 || inp[e2 + 1] == 0x2du8) {
            lemma_digits_end(inp, e2 + 2);
        } else {
            lemma_digits_end(inp, e2 + 1);
        }
    }
}

/// Where the fraction of the number at `pos` ends (see `number_scan`).
pub open spec fn number_scan_e2(inp: Seq<u8>, pos: int) -> int {
    let s0 = if pos < inp.len() && inp[pos] == 0x2du8 {
        pos + 1
    } else {
        pos
    };
    let e1 = digits_end(inp, s0);
    if e1 < inp.len() && inp[e1] == 0x2eu8 {
        digits_end(inp, e1 + 1)
    } else {
        e1
    }
}

pub proof fn lemma_literal_from(inp: Seq<u8>, p: int, l: Literal, i: int)
    requires
        0 <= p,
        0 <= i <= literal_word(l).len(),
        p + i <= inp.len(),
    ensures
        literal_from(inp, p, l, i) matches Ok(q) ==> q == p + literal_word(l).len() && q <= inp.len(),
    decreases literal_word(l).len() - i,
{
    if i < literal_word(l).len() && p + i < inp.len() && inp[p + i] == literal_word(l)[i] {
        lemma_literal_from(inp, p, l, i + 1);
    }
}

/// A value read at `pos` ends after `pos` and within the text.
pub proof fn lemma_value_at(inp: Seq<u8>, pos: int)
    requires
        0 <= pos,
    ensures
        value_at(inp, pos) matches Ok((v, q)) ==> pos < q <= inp.len(),
    decreases inp.len() - pos, 1int,
{
    let p = skip_ws(inp, pos);
    lemma_skip_ws(inp, pos);
    if p < inp.len() {
        let c = inp[p];
        if c == 0x22u8 {
            lemma_string_at(inp, p);
        } else if c == 0x7bu8 {
            lemma_object_body(inp, p + 1);
        } else if c == 0x5bu8 {
            lemma_array_body(inp, p + 1);
        } else if c == 0x74u8 {
            lemma_literal_from(inp, p, Literal::True, 0);
        } else if c == 0x66u8 {
            lemma_literal_from(inp, p, Literal::False, 0);
        } else if c == 0x6eu8 {
            lemma_literal_from(inp, p, Literal::Null, 0);
        } else if c == 0x2du8 || is_digit(c) {
            lemma_number_scan(inp, p);
        }
    }
}

pub proof fn lemma_array_body(inp: Seq<u8>, p: int)
    requires
        0 <= p <= inp.len(),
    ensures
        array_body(inp, p) matches Ok((v, q)) ==> p < q <= inp.len(),
    decreases inp.len() - p, 3int,
{
    lemma_skip_ws(inp, p);
    let q = skip_ws(inp, p);
    if !(q < inp.len() && inp[q] == 0x5du8) {
        lemma_items_loop(inp, q, Seq::empty());
    }
}

pub proof fn lemma_items_loop(inp: Seq<u8>, q: int, acc: Seq<Json>)
    requires
        0 <= q <= inp.len(),
    ensures
        items_loop(inp, q, acc) matches Ok((v, r)) ==> q < r <= inp.len(),
    decreases inp.len() - q, 2int,
{
    lemma_value_at(inp, q);
    if let Ok((v, q1)) = value_at(inp, q) {
        lemma_skip_ws(inp, q1);
        let q2 = skip_ws(inp, q1);
        if q2 < inp.len() && inp[q2] == 0x2cu8 {
            lemma_items_loop(inp, q2 + 1, acc.push(v));
        }
    }
}

pub proof fn lemma_object_body(inp: Seq<u8>, p: int)
    requires
        0 <= p <= inp.len(),
    ensures
        object_body(inp, p) matches Ok((v, q)) ==> p < q <= inp.len(),
    decreases inp.len() - p, 3int,
{
    lemma_skip_ws(inp, p);
    let q = skip_ws(inp, p);
    if !(q < inp.len() && inp[q] == 0x7du8) {
        lemma_fields_loop(inp, q, Seq::empty());
    }
}

pub proof fn lemma_fields_loop(inp: Seq<u8>, q: int, acc: Seq<(Seq<char>, Json)>)
    requires
        0 <= q <= inp.len(),
    ensures
        fields_loop(inp, q, acc) matches Ok((v, r)) ==> q < r <= inp.len(),
    decreases inp.len() - q, 2int,
{
    let k = skip_ws(inp, q);
    lemma_skip_ws(inp, q);
    lemma_string_at(inp, k);
    if let Ok((key, q1)) = string_at(inp, k) {
        lemma_expect_byte(inp, q1, 0x3au8);
        if let Ok(q2) = expect_byte(inp, q1, 0x3au8) {
            lemma_value_at(inp, q2);
            if let Ok((v, q3)) = value_at(inp, q2) {
                lemma_skip_ws(inp, q3);
                let q4 = skip_ws(inp, q3);
                if q4 < inp.len() && inp[q4] == 0x2cu8 {
                    lemma_fields_loop(inp, q4 + 1, acc.push((key, v)));
                }
            }
        }
    }
}

pub proof fn lemma_expect_byte(inp: Seq<u8>, pos: int, ch: u8)
    requires
        0 <= pos,
    ensures
        expect_byte(inp, pos, ch) matches Ok(q) ==> pos < q <= inp.len(),
{
    lemma_skip_ws(inp, pos);
}

// ----- Reading -----

/// Calls `char::from_u32`, which gives the character with code `code`
/// when `code` is a Unicode scalar value and `None` otherwise.
#[verifier::external_body]
fn char_from_u32(code: u32) -> (r: Option<char>)
    ensures
        r == (if is_scalar(code) {
            Some(code as char)
        } else {
            None::<char>
        }),
{
    char::from_u32(code)
}

fn is_ws_byte(b: u8) -> (r: bool)
    ensures
        r == is_ws(b),
{
    b == 0x20u8 || b == 0x09u8 || b == 0x0au8 || b == 0x0du8
}

fn is_digit_byte(b: u8) -> (r: bool)
    ensures
        r == is_digit(b),
{
    0x30u8 <= b && b <= 0x39u8
}

fn skip_ws_at(inp: &[u8], pos: usize) -> (r: usize)
    requires
        pos <= inp@.len(),
    ensures
        r == skip_ws(inp@, pos as int),
        pos <= r <= inp@.len(),
{
    let mut p = pos;
    while p < inp.len() && is_ws_byte(inp[p])
        invariant
            pos <= p <= inp@.len(),
            skip_ws(inp@, p as int) == skip_ws(inp@, pos as int),
        decreases inp@.len() - p,
    {
        p = p + 1;
    }
    p
}

fn digits_end_at(inp: &[u8], pos: usize) -> (r: usize)
    requires
        pos <= inp@.len(),
    ensures
        r == digits_end(inp@, pos as int),
        pos <= r <= inp@.len(),
{
    let mut p = pos;
    while p < inp.len() && is_digit_byte(inp[p])
        invariant
            pos <= p <= inp@.len(),
            digits_end(inp@, p as int) == digits_end(inp@, pos as int),
        decreases inp@.len() - p,
    {
        p = p + 1;
    }
    p
}

fn expect_at(inp: &[u8], pos: usize, ch: u8) -> (r: Result<usize, JsonError>)
    requires
        pos <= inp@.len(),
    ensures
        match r {
            Ok(q) => expect_byte(inp@, pos as int, ch) == Ok::<int, JsonError>(q as int),
            Err(e) => expect_byte(inp@, pos as int, ch) == Err::<int, JsonError>(e),
        },
{
    let p = skip_ws_at(inp, pos);
    if p < inp.len() {
        if inp[p] == ch {
            Ok(p + 1)
        } else {
            Err(JsonError::Expected { expected: ch, pos: p, found: Some(inp[p]) })
        }
    } else {
        Err(JsonError::Expected { expected: ch, pos: p, found: None })
    }
}

/// `hex_value` of the characters of `s`, which has at most four.
fn hex_value_of(s: &str) -> (r: Option<u32>)
    requires
        s@.len() <= 4,
    ensures
        r == hex_value(s@),
{
    let n = s.unicode_len();
    let start: usize = if n > 0 && s.get_char(0) == '+' {
        1
    } else {
        0
    };
    let ghost cs = s@;
    let ghost ds = hex_digits(cs);
    proof {
        assert(ds =~= cs.subrange(start as int, n as int));
    }
    if start >= n {
        return None;
    }
    let mut value: u32 = 0;
    let mut i = start;
    while i < n
        invariant
            cs == s@,
            n == cs.len(),
            n <= 4,
            start <= i <= n,
            start < n,
            ds =~= cs.subrange(start as int, n as int),
            ds == hex_digits(cs),
            forall|k: int| 0 <= k < i - start ==> is_hex_char(#[trigger] ds[k]),
            value == hex_fold(ds.take(i - start)),
            hex_fold(ds.take(i - start)) < pow16(i - start),
        decreases n - i,
    {
        let c = s.get_char(i);
        let d: u32 = if '0' <= c && c <= '9' {
            (c as u32) - ('0' as u32)
        } else if 'a' <= c && c <= 'f' {
            (c as u32) - ('a' as u32) + 10
        } else if 'A' <= c && c <= 'F' {
            (c as u32) - ('A' as u32) + 10
        } else {
            proof {
                assert(ds[i - start] == c);
                assert(!is_hex_char(ds[i - start]));
                assert(!all_hex(ds));
            }
            return None;
        };
        proof {
            assert(ds.take(i - start + 1).drop_last() =~= ds.take(i - start));
            assert(ds.take(i - start + 1).last() == c);
            assert(pow16(i - start + 1) == pow16(i - start) * 16);
            assert(hex_fold(ds.take(i - start)) * 16 + 16 <= pow16(i - start) * 16) by (nonlinear_arith)
                requires
                    hex_fold(ds.take(i - start)) < pow16(i - start),
            ;
            assert(pow16(i - start + 1) <= 65536) by {
                assert(pow16(0) == 1);
                assert(pow16(1) == 16);
                assert(pow16(2) == 256);
                assert(pow16(3) == 4096);
                assert(pow16(4) == 65536);
            }
        }
        value = value * 16 + d;
        i = i + 1;
    }
    proof {
        assert(ds.take(n - start) =~= ds);
    }
    Some(value)
}

proof fn lemma_encode_utf8_len(cs: Seq<char>)
    ensures
        cs.len() <= encode_utf8(cs).len(),
    decreases cs.len(),
{
    if cs.len() > 0 {
        lemma_encode_utf8_len(cs.drop_first());
    }
}

pub open spec fn pow16(k: int) -> int
    decreases k,
{
    if k <= 0 {
        1
    } else {
        16 * pow16(k - 1)
    }
}

/// A string at `pos`, after optional white space: its characters and the
/// position after the closing quote.
fn string_at_exec(inp: &[u8], pos: usize) -> (r: Result<(String, usize), JsonError>)
    requires
        pos <= inp@.len(),
    ensures
        match r {
            Ok((s, q)) => string_at(inp@, pos as int) == Ok::<(Seq<char>, int), JsonError>((s@, q as int)),
            Err(e) => string_at(inp@, pos as int) == Err::<(Seq<char>, int), JsonError>(e),
        },
{
    let p0 = match expect_at(inp, pos, 0x22u8) {
        Ok(p) => p,
        Err(e) => return Err(e),
    };
    proof {
        lemma_expect_byte(inp@, pos as int, 0x22u8);
    }
    let ghost target = string_body(inp@, p0 as int, Seq::empty());
    assert(string_at(inp@, pos as int) == target);
    let mut acc: Vec<char> = Vec::new();
    let mut p = p0;
    proof {
        assert(acc@ =~= Seq::<char>::empty());
    }
    loop
        invariant
            p <= inp@.len(),
            string_at(inp@, pos as int) == target,
            string_body(inp@, p as int, acc@) == target,
        decreases inp@.len() - p,
    {
        if p >= inp.len() {
            return Err(JsonError::UnterminatedString);
        }
        let c = inp[p];
        if c == 0x22u8 {
            let s = string_from_chars(acc.as_slice());
            return Ok((s, p + 1));
        } else if c == 0x5cu8 {
            if p + 1 >= inp.len() {
                return Err(JsonError::EofInEscape);
            }
            let e = inp[p + 1];
            if e == 0x22u8 {
                acc.push('"');
                p = p + 2;
            } else if e == 0x5cu8 {
                acc.push('\\');
                p = p + 2;
            } else if e == 0x2fu8 {
                acc.push('/');
                p = p + 2;
            } else if e == 0x6eu8 {
                acc.push('\n');
                p = p + 2;
            } else if e == 0x72u8 {
                acc.push('\r');
                p = p + 2;
            } else if e == 0x74u8 {
                acc.push('\t');
                p = p + 2;
            } else if e == 0x62u8 {
                acc.push('\u{8}');
                p = p + 2;
            } else if e == 0x66u8 {
                acc.push('\u{c}');
                p = p + 2;
            } else if e == 0x75u8 {
                if inp.len() - p < 6 {
                    return Err(JsonError::Truncated);
                }
                let hex = match utf8_to_string(&inp[p + 2..p + 6]) {
                    Some(h) => h,
                    None => return Err(JsonError::InvalidUtf8 { pos: p + 2 }),
                };
                proof {
                    let raw = inp@.subrange(p + 2, p + 6);
                    vstd::utf8::decode_utf8_encode_utf8(raw);
                    lemma_encode_utf8_len(decode_utf8(raw));
                }
                let code = match hex_value_of(hex.as_str()) {
                    Some(code) => code,
                    None => return Err(JsonError::InvalidUnicodeEscape { pos: p + 2 }),
                };
                let ch = match char_from_u32(code) {
                    Some(ch) => ch,
                    None => return Err(JsonError::InvalidCodepoint(code)),
                };
                acc.push(ch);
                p = p + 6;
            } else {
                return Err(JsonError::InvalidEscape(e));
            }
        } else {
            acc.push(c as char);
            p = p + 1;
        }
    }
}

fn number_at_exec(inp: &[u8], pos: usize) -> (r: Result<(JsonValue, usize), JsonError>)
    requires
        pos < inp@.len(),
    ensures
        match r {
            Ok((v, q)) => number_at(inp@, pos as int) == Ok::<(Json, int), JsonError>((view_value(v), q as int)),
            Err(e) => number_at(inp@, pos as int) == Err::<(Json, int), JsonError>(e),
        },
{
    let n = inp.len();
    let s0 = if inp[pos] == 0x2du8 {
        pos + 1
    } else {
        pos
    };
    let e1 = digits_end_at(inp, s0);
    let has_dot = e1 < n && inp[e1] == 0x2eu8;
    let e2 = if has_dot {
        digits_end_at(inp, e1 + 1)
    } else {
        e1
    };
    let has_exp = e2 < n && (inp[e2] == 0x65u8 || inp[e2] == 0x45u8);
    let s3 = if !has_exp {
        e2
    } else if e2 + 1 < n && (inp[e2 + 1] == 0x2bu8 || inp[e2 + 1] == 0x2du8) {
        e2 + 2
    } else {
        e2 + 1
    };
    let e3 = if has_exp {
        digits_end_at(inp, s3)
    } else {
        e2
    };
    let ok = (e1 > s0 || (has_dot && e2 > e1 + 1)) && (!has_exp || e3 > s3);
    assert(number_scan(inp@, pos as int) == (e3 as int, ok));
    if !ok {
        return Err(JsonError::InvalidNumber { start: pos, end: e3 });
    }
    let mut cs: Vec<char> = Vec::new();
    let mut i = pos;
    while i < e3
        invariant
            pos <= i <= e3 <= inp@.len(),
            cs@ =~= bytes_as_chars(inp@.subrange(pos as int, i as int)),
        decreases e3 - i,
    {
        cs.push(inp[i] as char);
        i = i + 1;
    }
    let text = string_from_chars(cs.as_slice());
    Ok((JsonValue::Number(text), e3))
}

fn literal_at_exec(inp: &[u8], p: usize, l: Literal) -> (r: Result<(JsonValue, usize), JsonError>)
    requires
        p <= inp@.len(),
    ensures
        match r {
            Ok((v, q)) => literal_at(inp@, p as int, l) == Ok::<(Json, int), JsonError>((view_value(v), q as int)),
            Err(e) => literal_at(inp@, p as int, l) == Err::<(Json, int), JsonError>(e),
        },
{
    let word: &[u8] = match l {
        Literal::True => &[0x74u8, 0x72u8, 0x75u8, 0x65u8],
        Literal::False => &[0x66u8, 0x61u8, 0x6cu8, 0x73u8, 0x65u8],
        Literal::Null => &[0x6eu8, 0x75u8, 0x6cu8, 0x6cu8],
    };
    assert(word@ =~= literal_word(l));
    let mut i: usize = 0;
    while i < word.len()
        invariant
            i <= word@.len(),
            word@ == literal_word(l),
            p + i <= inp@.len(),
            literal_from(inp@, p as int, l, i as int) == literal_from(inp@, p as int, l, 0),
        decreases word@.len() - i,
    {
        if inp.len() - p > i && inp[p + i] == word[i] {
            i = i + 1;
        } else {
            let at = if inp.len() - p > i {
                p + i + 1
            } else {
                p + i
            };
            return Err(JsonError::ExpectedLiteral { literal: l, pos: at });
        }
    }
    proof {
        lemma_literal_from(inp@, p as int, l, 0);
    }
    assert(p + i <= inp.len());
    let q = p + i;
    let v = match l {
        Literal::True => JsonValue::Bool(true),
        Literal::False => JsonValue::Bool(false),
        Literal::Null => JsonValue::Null,
    };
    Ok((v, q))
}

fn value_at_exec(inp: &[u8], pos: usize) -> (r: Result<(JsonValue, usize), JsonError>)
    requires
        pos <= inp@.len(),
    ensures
        match r {
            Ok((v, q)) => value_at(inp@, pos as int) == Ok::<(Json, int), JsonError>((view_value(v), q as int)),
            Err(e) => value_at(inp@, pos as int) == Err::<(Json, int), JsonError>(e),
        },
    decreases inp@.len() - pos, 1int,
{
    let p = skip_ws_at(inp, pos);
    proof {
        lemma_skip_ws(inp@, pos as int);
    }
    if p >= inp.len() {
        return Err(JsonError::UnexpectedEof { pos: p });
    }
    let c = inp[p];
    if c == 0x22u8 {
        match string_at_exec(inp, p) {
            Ok((s, q)) => Ok((JsonValue::Str(s), q)),
            Err(e) => Err(e),
        }
    } else if c == 0x7bu8 {
        object_body_exec(inp, p + 1)
    } else if c == 0x5bu8 {
        array_body_exec(inp, p + 1)
    } else if c == 0x74u8 {
        literal_at_exec(inp, p, Literal::True)
    } else if c == 0x66u8 {
        literal_at_exec(inp, p, Literal::False)
    } else if c == 0x6eu8 {
        literal_at_exec(inp, p, Literal::Null)
    } else if c == 0x2du8 || is_digit_byte(c) {
        number_at_exec(inp, p)
    } else {
        Err(JsonError::UnexpectedChar { found: c, pos: p })
    }
}

proof fn lemma_view_items_push(s: Seq<JsonValue>, v: JsonValue)
    ensures
        view_items(s.push(v)) == view_items(s).push(view_value(v)),
{
    assert(s.push(v).drop_last() =~= s);
}

proof fn lemma_view_fields_push(s: Seq<(String, JsonValue)>, f: (String, JsonValue))
    ensures
        view_fields(s.push(f)) == view_fields(s).push((f.0@, view_value(f.1))),
{
    assert(s.push(f).drop_last() =~= s);
}

fn array_body_exec(inp: &[u8], p: usize) -> (r: Result<(JsonValue, usize), JsonError>)
    requires
        p <= inp@.len(),
    ensures
        match r {
            Ok((v, q)) => array_body(inp@, p as int) == Ok::<(Json, int), JsonError>((view_value(v), q as int)),
            Err(e) => array_body(inp@, p as int) == Err::<(Json, int), JsonError>(e),
        },
    decreases inp@.len() - p, 3int,
{
    let q0 = skip_ws_at(inp, p);
    let mut items: Vec<JsonValue> = Vec::new();
    if q0 < inp.len() && inp[q0] == 0x5du8 {
        proof {
            assert(view_items(items@) =~= Seq::<Json>::empty());
        }
        return Ok((JsonValue::Array(items), q0 + 1));
    }
    let ghost target = array_body(inp@, p as int);
    assert(target == items_loop(inp@, q0 as int, Seq::empty()));
    proof {
        assert(view_items(items@) =~= Seq::<Json>::empty());
    }
    let mut q = q0;
    loop
        invariant
            p <= q <= inp@.len(),
            target == array_body(inp@, p as int),
            items_loop(inp@, q as int, view_items(items@)) == target,
        decreases inp@.len() - q,
    {
        let (v, q1) = match value_at_exec(inp, q) {
            Ok(x) => x,
            Err(e) => return Err(e),
        };
        proof {
            lemma_value_at(inp@, q as int);
            lemma_view_items_push(items@, v);
        }
        items.push(v);
        let q2 = skip_ws_at(inp, q1);
        if q2 < inp.len() && inp[q2] == 0x2cu8 {
            q = q2 + 1;
        } else if q2 < inp.len() && inp[q2] == 0x5du8 {
            return Ok((JsonValue::Array(items), q2 + 1));
        } else {
            return Err(JsonError::ExpectedCommaOrBracket { pos: q2 });
        }
    }
}

fn object_body_exec(inp: &[u8], p: usize) -> (r: Result<(JsonValue, usize), JsonError>)
    requires
        p <= inp@.len(),
    ensures
        match r {
            Ok((v, q)) => object_body(inp@, p as int) == Ok::<(Json, int), JsonError>((view_value(v), q as int)),
            Err(e) => object_body(inp@, p as int) == Err::<(Json, int), JsonError>(e),
        },
    decreases inp@.len() - p, 3int,
{
    let q0 = skip_ws_at(inp, p);
    let mut fields: Vec<(String, JsonValue)> = Vec::new();
    if q0 < inp.len() && inp[q0] == 0x7du8 {
        proof {
            assert(view_fields(fields@) =~= Seq::<(Seq<char>, Json)>::empty());
        }
        return Ok((JsonValue::Object(fields), q0 + 1));
    }
    let ghost target = object_body(inp@, p as int);
    assert(target == fields_loop(inp@, q0 as int, Seq::empty()));
    proof {
        assert(view_fields(fields@) =~= Seq::<(Seq<char>, Json)>::empty());
    }
    let mut q = q0;
    loop
        invariant
            p <= q <= inp@.len(),
            target == object_body(inp@, p as int),
            fields_loop(inp@, q as int, view_fields(fields@)) == target,
        decreases inp@.len() - q,
    {
        let k = skip_ws_at(inp, q);
        let (key, q1) = match string_at_exec(inp, k) {
            Ok(x) => x,
            Err(e) => return Err(e),
        };
        proof {
            lemma_string_at(inp@, k as int);
        }
        let q2 = match expect_at(inp, q1, 0x3au8) {
            Ok(x) => x,
            Err(e) => return Err(e),
        };
        proof {
            lemma_expect_byte(inp@, q1 as int, 0x3au8);
        }
        let (v, q3) = match value_at_exec(inp, q2) {
            Ok(x) => x,
            Err(e) => return Err(e),
        };
        proof {
            lemma_value_at(inp@, q2 as int);
            lemma_view_fields_push(fields@, (key, v));
        }
        fields.push((key, v));
        let q4 = skip_ws_at(inp, q3);
        if q4 < inp.len() && inp[q4] == 0x2cu8 {
            q = q4 + 1;
        } else if q4 < inp.len() && inp[q4] == 0x7du8 {
            return Ok((JsonValue::Object(fields), q4 + 1));
        } else {
            return Err(JsonError::ExpectedCommaOrBrace { pos: q4 });
        }
    }
}

/// Read `input` as one JSON value, with nothing but white space around
/// it.
pub fn parse_json(input: &str) -> (r: Result<JsonValue, JsonError>)
    ensures
        match r {
            Ok(v) => parse_json_spec(input.spec_bytes()) == Ok::<Json, JsonError>(view_value(v)),
            Err(e) => parse_json_spec(input.spec_bytes()) == Err::<Json, JsonError>(e),
        },
{
    let inp = input.as_bytes();
    let (v, q) = match value_at_exec(inp, 0) {
        Ok(x) => x,
        Err(e) => return Err(e),
    };
    proof {
        lemma_value_at(inp@, 0);
    }
    let q2 = skip_ws_at(inp, q);
    if q2 != inp.len() {
        return Err(JsonError::TrailingData { pos: q2 });
    }
    Ok(v)
}

// ----- Writing -----

/// The lowercase hexadecimal digit for `d`, which is below 16.
pub open spec fn hex_digit_char(d: int) -> char {
    if d < 10 {
        (48 + d) as char
    } else {
        (87 + d) as char
    }
}

/// How character `c` appears inside a written string.
pub open spec fn escape_char(c: char) -> Seq<char> {
    if c == '"' {
        seq!['\\', '"']
    } else if c == '\\' {
        seq!['\\', '\\']
    } else if c == '\n' {
        seq!['\\', 'n']
    } else if c == '\r' {
        seq!['\\', 'r']
    } else if c == '\t' {
        seq!['\\', 't']
    } else if c == '\u{8}' {
        seq!['\\', 'b']
    } else if c == '\u{c}' {
        seq!['\\', 'f']
    } else if (c as u32) < 0x20 {
        seq!['\\', 'u', '0', '0', hex_digit_char((c as u32) as int / 16), hex_digit_char((c as u32) as int % 16)]
    } else {
        seq![c]
    }
}

pub open spec fn escape_str(s: Seq<char>) -> Seq<char>
    decreases s.len(),
{
    if s.len() == 0 {
        Seq::empty()
    } else {
        escape_str(s.drop_last()) + escape_char(s.last())
    }
}

/// `s` written as a JSON string, quotes included.
pub open spec fn quoted(s: Seq<char>) -> Seq<char> {
    seq!['"'] + escape_str(s) + seq!['"']
}

pub open spec fn null_text() -> Seq<char> {
    seq!['n', 'u', 'l', 'l']
}

pub open spec fn bool_text(b: bool) -> Seq<char> {
    if b {
        seq!['t', 'r', 'u', 'e']
    } else {
        seq!['f', 'a', 'l', 's', 'e']
    }
}

/// `v` written compactly: no white space at all.
pub open spec fn compact(v: Json) -> Seq<char>
    decreases v,
{
    match v {
        Json::Null => null_text(),
        Json::Bool(b) => bool_text(b),
        Json::Number(n) => n,
        Json::Str(s) => quoted(s),
        Json::Array(items) => seq!['['] + compact_items(items) + seq![']'],
        Json::Object(fields) => seq!['{'] + compact_fields(fields) + seq!['}'],
    }
}

/// Items separated by commas.
pub open spec fn compact_items(items: Seq<Json>) -> Seq<char>
    decreases items,
{
    if items.len() == 0 {
        Seq::empty()
    } else if items.len() == 1 {
        compact(items[0])
    } else {
        compact_items(items.drop_last()) + seq![','] + compact(items.last())
    }
}

/// Fields `"key":value` separated by commas.
pub open spec fn compact_fields(fields: Seq<(Seq<char>, Json)>) -> Seq<char>
    decreases fields,
{
    if fields.len() == 0 {
        Seq::empty()
    } else if fields.len() == 1 {
        quoted(fields[0].0) + seq![':'] + compact(fields[0].1)
    } else {
        compact_fields(fields.drop_last()) + seq![','] + quoted(fields.last().0) + seq![':'] + compact(
            fields.last().1,
        )
    }
}

/// Two spaces per level.
pub open spec fn indent_text(level: nat) -> Seq<char> {
    Seq::new(2 * level, |i: int| ' ')
}

/// `v` written with one item or field per line, nested ones indented by
/// two more spaces than their container at `level`.
pub open spec fn pretty(v: Json, level: nat) -> Seq<char>
    decreases v,
{
    match v {
        Json::Null => null_text(),
        Json::Bool(b) => bool_text(b),
        Json::Number(n) => n,
        Json::Str(s) => quoted(s),
        Json::Array(items) => if items.len() == 0 {
            seq!['[', ']']
        } else {
            seq!['[', '\n'] + pretty_items(items, level) + seq!['\n'] + indent_text(level) + seq![']']
        },
        Json::Object(fields) => if fields.len() == 0 {
            seq!['{', '}']
        } else {
            seq!['{', '\n'] + pretty_fields(fields, level) + seq!['\n'] + indent_text(level) + seq!['}']
        },
    }
}

/// Indented items separated by a comma and a line break.
pub open spec fn pretty_items(items: Seq<Json>, level: nat) -> Seq<char>
    decreases items,
{
    if items.len() == 0 {
        Seq::empty()
    } else if items.len() == 1 {
        indent_text(level + 1) + pretty(items[0], level + 1)
    } else {
        pretty_items(items.drop_last(), level) + seq![',', '\n'] + indent_text(level + 1) + pretty(
            items.last(),
            level + 1,
        )
    }
}

/// Indented fields `"key": value` separated by a comma and a line break.
pub open spec fn pretty_fields(fields: Seq<(Seq<char>, Json)>, level: nat) -> Seq<char>
    decreases fields,
{
    if fields.len() == 0 {
        Seq::empty()
    } else if fields.len() == 1 {
        indent_text(level + 1) + quoted(fields[0].0) + seq![':', ' '] + pretty(fields[0].1, level + 1)
    } else {
        pretty_fields(fields.drop_last(), level) + seq![',', '\n'] + indent_text(level + 1) + quoted(
            fields.last().0,
        ) + seq![':', ' '] + pretty(fields.last().1, level + 1)
    }
}

fn push_all(out: &mut Vec<char>, cs: &[char])
    ensures
        final(out)@ == old(out)@ + cs@,
{
    let mut i: usize = 0;
    while i < cs.len()
        invariant
            i <= cs@.len(),
            out@ == old(out)@ + cs@.take(i as int),
        decreases cs@.len() - i,
    {
        out.push(cs[i]);
        i = i + 1;
        proof {
            assert(cs@.take(i as int) =~= cs@.take(i - 1).push(cs@[i - 1]));
        }
    }
    proof {
        assert(cs@.take(cs@.len() as int) =~= cs@);
    }
}

fn hex_digit_exec(d: u32) -> (r: char)
    requires
        d < 16,
    ensures
        r == hex_digit_char(d as int),
{
    if d < 10 {
        ((48 + d) as u8) as char
    } else {
        ((87 + d) as u8) as char
    }
}

fn push_escaped_char(out: &mut Vec<char>, c: char)
    ensures
        final(out)@ == old(out)@ + escape_char(c),
{
    if c == '"' {
        push_all(out, &['\\', '"']);
    } else if c == '\\' {
        push_all(out, &['\\', '\\']);
    } else if c == '\n' {
        push_all(out, &['\\', 'n']);
    } else if c == '\r' {
        push_all(out, &['\\', 'r']);
    } else if c == '\t' {
        push_all(out, &['\\', 't']);
    } else if c == '\u{8}' {
        push_all(out, &['\\', 'b']);
    } else if c == '\u{c}' {
        push_all(out, &['\\', 'f']);
    } else if (c as u32) < 0x20 {
        let code = c as u32;
        let hi = hex_digit_exec(code / 16);
        let lo = hex_digit_exec(code % 16);
        push_all(out, &['\\', 'u', '0', '0', hi, lo]);
    } else {
        out.push(c);
    }
    proof {
        assert(final(out)@ =~= old(out)@ + escape_char(c));
    }
}

fn push_quoted(out: &mut Vec<char>, s: &str)
    ensures
        final(out)@ == old(out)@ + quoted(s@),
{
    out.push('"');
    let ghost start = out@;
    let ghost mut seen: Seq<char> = Seq::empty();
    for c in it: s.chars()
        invariant
            start == old(out)@.push('"'),
            seen == it.seq().take(it.index() as int),
            out@ == start + escape_str(seen),
    {
        proof {
            let t = seen.push(c);
            assert(t.drop_last() =~= seen);
            seen = t;
        }
        push_escaped_char(out, c);
    }
    proof {
        assert(seen =~= s@);
    }
    out.push('"');
    proof {
        assert(out@ =~= old(out)@ + quoted(s@));
    }
}

fn push_str_chars(out: &mut Vec<char>, s: &str)
    ensures
        final(out)@ == old(out)@ + s@,
{
    let ghost start = out@;
    let ghost mut seen: Seq<char> = Seq::empty();
    for c in it: s.chars()
        invariant
            start == old(out)@,
            seen == it.seq().take(it.index() as int),
            out@ == start + seen,
    {
        proof {
            seen = seen.push(c);
        }
        out.push(c);
    }
    proof {
        assert(seen =~= s@);
    }
}

proof fn lemma_view_items(s: Seq<JsonValue>)
    ensures
        view_items(s).len() == s.len(),
        forall|k: int| 0 <= k < s.len() ==> #[trigger] view_items(s)[k] == view_value(s[k]),
    decreases s.len(),
{
    if s.len() > 0 {
        lemma_view_items(s.drop_last());
    }
}

proof fn lemma_view_fields(s: Seq<(String, JsonValue)>)
    ensures
        view_fields(s).len() == s.len(),
        forall|k: int| 0 <= k < s.len() ==> #[trigger] view_fields(s)[k] == (s[k].0@, view_value(s[k].1)),
    decreases s.len(),
{
    if s.len() > 0 {
        lemma_view_fields(s.drop_last());
    }
}

proof fn lemma_take_push<T>(s: Seq<T>, i: int)
    requires
        0 <= i < s.len(),
    ensures
        s.take(i + 1) == s.take(i).push(s[i]),
{
    assert(s.take(i + 1) =~= s.take(i).push(s[i]));
}

fn compact_into(out: &mut Vec<char>, v: &JsonValue)
    ensures
        final(out)@ == old(out)@ + compact(view_value(*v)),
    decreases v,
{
    match v {
        JsonValue::Null => push_all(out, &['n', 'u', 'l', 'l']),
        JsonValue::Bool(b) => if *b {
            push_all(out, &['t', 'r', 'u', 'e']);
        } else {
            push_all(out, &['f', 'a', 'l', 's', 'e']);
        },
        JsonValue::Number(n) => push_str_chars(out, n.as_str()),
        JsonValue::Str(s) => push_quoted(out, s.as_str()),
        JsonValue::Array(items) => {
            out.push('[');
            let ghost start = out@;
            let mut i: usize = 0;
            while i < items.len()
                invariant
                    *v == JsonValue::Array(*items),
                    start == old(out)@.push('['),
                    i <= items@.len(),
                    out@ == start + compact_items(view_items(items@.take(i as int))),
                decreases items@.len() - i,
            {
                let ghost before = out@;
                if i > 0 {
                    out.push(',');
                }
                proof {
                    assert((*v)->Array_0 == *items);
                    assert(decreases_to!(*v => (*v)->Array_0));
                    assert(decreases_to!(*items => items@));
                    assert(decreases_to!(items@ => items@[i as int]));
                    assert(decreases_to!(*v => items@[i as int]));
                }
                compact_into(out, &items[i]);
                proof {
                    lemma_take_push(items@, i as int);
                    lemma_view_items_push(items@.take(i as int), items@[i as int]);
                    let xs = view_items(items@.take(i as int));
                    let ys = xs.push(view_value(items@[i as int]));
                    lemma_view_items(items@.take(i as int));
                    assert(ys.drop_last() =~= xs);
                    if i == 0 {
                        assert(out@ =~= start + compact_items(ys));
                    } else {
                        assert(out@ =~= start + compact_items(ys));
                    }
                }
                i = i + 1;
            }
            proof {
                assert(items@.take(items@.len() as int) =~= items@);
            }
            out.push(']');
            proof {
                assert(out@ =~= old(out)@ + compact(view_value(*v)));
            }
        },
        JsonValue::Object(fields) => {
            out.push('{');
            let ghost start = out@;
            let mut i: usize = 0;
            while i < fields.len()
                invariant
                    *v == JsonValue::Object(*fields),
                    start == old(out)@.push('{'),
                    i <= fields@.len(),
                    out@ == start + compact_fields(view_fields(fields@.take(i as int))),
                decreases fields@.len() - i,
            {
                if i > 0 {
                    out.push(',');
                }
                push_quoted(out, fields[i].0.as_str());
                out.push(':');
                proof {
                    assert((*v)->Object_0 == *fields);
                    assert(decreases_to!(*v => (*v)->Object_0));
                    assert(decreases_to!(*fields => fields@));
                    assert(decreases_to!(fields@ => fields@[i as int]));
                    assert(decreases_to!(fields@[i as int] => fields@[i as int].1));
                    assert(decreases_to!(*v => fields@[i as int].1));
                }
                compact_into(out, &fields[i].1);
                proof {
                    lemma_take_push(fields@, i as int);
                    lemma_view_fields_push(fields@.take(i as int), fields@[i as int]);
                    let xs = view_fields(fields@.take(i as int));
                    let ys = xs.push((fields@[i as int].0@, view_value(fields@[i as int].1)));
                    lemma_view_fields(fields@.take(i as int));
                    assert(ys.drop_last() =~= xs);
                    assert(out@ =~= start + compact_fields(ys));
                }
                i = i + 1;
            }
            proof {
                assert(fields@.take(fields@.len() as int) =~= fields@);
            }
            out.push('}');
            proof {
                assert(out@ =~= old(out)@ + compact(view_value(*v)));
            }
        },
    }
}

/// `value` written compactly, with no white space.
pub fn write_json(value: &JsonValue) -> (r: String)
    ensures
        r@ == compact(view_value(*value)),
{
    let mut out: Vec<char> = Vec::new();
    compact_into(&mut out, value);
    proof {
        assert(out@ =~= compact(view_value(*value)));
    }
    string_from_chars(out.as_slice())
}

fn pretty_into(out: &mut Vec<char>, v: &JsonValue, Ghost(level): Ghost<nat>, indent: &[char])
    requires
        indent@ == indent_text(level),
    ensures
        final(out)@ == old(out)@ + pretty(view_value(*v), level),
    decreases v,
{
    match v {
        JsonValue::Null => push_all(out, &['n', 'u', 'l', 'l']),
        JsonValue::Bool(b) => if *b {
            push_all(out, &['t', 'r', 'u', 'e']);
        } else {
            push_all(out, &['f', 'a', 'l', 's', 'e']);
        },
        JsonValue::Number(n) => push_str_chars(out, n.as_str()),
        JsonValue::Str(s) => push_quoted(out, s.as_str()),
        JsonValue::Array(items) => {
            if items.len() == 0 {
                push_all(out, &['[', ']']);
                proof {
                    lemma_view_items(items@);
                    assert(out@ =~= old(out)@ + pretty(view_value(*v), level));
                }
                return;
            }
            let mut inner: Vec<char> = Vec::new();
            push_all(&mut inner, indent);
            inner.push(' ');
            inner.push(' ');
            proof {
                assert(inner@ =~= indent_text(level + 1));
            }
            out.push('[');
            out.push('\n');
            let ghost start = out@;
            let mut i: usize = 0;
            while i < items.len()
                invariant
                    *v == JsonValue::Array(*items),
                    inner@ == indent_text(level + 1),
                    start == old(out)@ + seq!['[', '\n'],
                    i <= items@.len(),
                    out@ == start + pretty_items(view_items(items@.take(i as int)), level),
                decreases items@.len() - i,
            {
                if i > 0 {
                    out.push(',');
                    out.push('\n');
                }
                push_all(out, inner.as_slice());
                proof {
                    assert((*v)->Array_0 == *items);
                    assert(decreases_to!(*v => (*v)->Array_0));
                    assert(decreases_to!(*items => items@));
                    assert(decreases_to!(items@ => items@[i as int]));
                }
                pretty_into(out, &items[i], Ghost(level + 1), inner.as_slice());
                proof {
                    lemma_take_push(items@, i as int);
                    lemma_view_items_push(items@.take(i as int), items@[i as int]);
                    let xs = view_items(items@.take(i as int));
                    let ys = xs.push(view_value(items@[i as int]));
                    lemma_view_items(items@.take(i as int));
                    assert(ys.drop_last() =~= xs);
                    assert(out@ =~= start + pretty_items(ys, level));
                }
                i = i + 1;
            }
            proof {
                assert(items@.take(items@.len() as int) =~= items@);
                lemma_view_items(items@);
            }
            out.push('\n');
            push_all(out, indent);
            out.push(']');
            proof {
                assert(out@ =~= old(out)@ + pretty(view_value(*v), level));
            }
        },
        JsonValue::Object(fields) => {
            if fields.len() == 0 {
                push_all(out, &['{', '}']);
                proof {
                    lemma_view_fields(fields@);
                    assert(out@ =~= old(out)@ + pretty(view_value(*v), level));
                }
                return;
            }
            let mut inner: Vec<char> = Vec::new();
            push_all(&mut inner, indent);
            inner.push(' ');
            inner.push(' ');
            proof {
                assert(inner@ =~= indent_text(level + 1));
            }
            out.push('{');
            out.push('\n');
            let ghost start = out@;
            let mut i: usize = 0;
            while i < fields.len()
                invariant
                    *v == JsonValue::Object(*fields),
                    inner@ == indent_text(level + 1),
                    start == old(out)@ + seq!['{', '\n'],
                    i <= fields@.len(),
                    out@ == start + pretty_fields(view_fields(fields@.take(i as int)), level),
                decreases fields@.len() - i,
            {
                if i > 0 {
                    out.push(',');
                    out.push('\n');
                }
                push_all(out, inner.as_slice());
                push_quoted(out, fields[i].0.as_str());
                out.push(':');
                out.push(' ');
                proof {
                    assert((*v)->Object_0 == *fields);
                    assert(decreases_to!(*v => (*v)->Object_0));
                    assert(decreases_to!(*fields => fields@));
                    assert(decreases_to!(fields@ => fields@[i as int]));
                    assert(decreases_to!(fields@[i as int] => fields@[i as int].1));
                }
                pretty_into(out, &fields[i].1, Ghost(level + 1), inner.as_slice());
                proof {
                    lemma_take_push(fields@, i as int);
                    lemma_view_fields_push(fields@.take(i as int), fields@[i as int]);
                    let xs = view_fields(fields@.take(i as int));
                    let ys = xs.push((fields@[i as int].0@, view_value(fields@[i as int].1)));
                    lemma_view_fields(fields@.take(i as int));
                    assert(ys.drop_last() =~= xs);
                    assert(out@ =~= start + pretty_fields(ys, level));
                }
                i = i + 1;
            }
            proof {
                assert(fields@.take(fields@.len() as int) =~= fields@);
                lemma_view_fields(fields@);
            }
            out.push('\n');
            push_all(out, indent);
            out.push('}');
            proof {
                assert(out@ =~= old(out)@ + pretty(view_value(*v), level));
            }
        },
    }
}

/// `value` written with one item or field per line, indented by two
/// spaces per level of nesting.
pub fn write_json_pretty(value: &JsonValue) -> (r: String)
    ensures
        r@ == pretty(view_value(*value), 0),
{
    let mut out: Vec<char> = Vec::new();
    let top: Vec<char> = Vec::new();
    proof {
        assert(top@ =~= indent_text(0));
    }
    pretty_into(&mut out, value, Ghost(0), top.as_slice());
    proof {
        assert(out@ =~= pretty(view_value(*value), 0));
    }
    string_from_chars(out.as_slice())
}

/// The index of the first field from `i` on named `key`, or -1.
pub open spec fn find_key(fields: Seq<(String, JsonValue)>, key: Seq<char>, i: int) -> int
    decreases fields.len() - i,
{
    if i < 0 || i >= fields.len() {
        -1
    } else if fields[i].0@ == key {
        i
    } else {
        find_key(fields, key, i + 1)
    }
}

impl JsonValue {
    pub fn as_str(&self) -> (r: Option<&str>)
        ensures
            match *self {
                JsonValue::Str(s) => r matches Some(x) && x@ == s@,
                _ => r is None,
            },
    {
        match self {
            JsonValue::Str(s) => Some(s.as_str()),
            _ => None,
        }
    }

    pub fn as_bool(&self) -> (r: Option<bool>)
        ensures
            match *self {
                JsonValue::Bool(b) => r == Some(b),
                _ => r is None,
            },
    {
        match self {
            JsonValue::Bool(b) => Some(*b),
            _ => None,
        }
    }

    /// The text of a number.
    pub fn as_number(&self) -> (r: Option<&str>)
        ensures
            match *self {
                JsonValue::Number(n) => r matches Some(x) && x@ == n@,
                _ => r is None,
            },
    {
        match self {
            JsonValue::Number(n) => Some(n.as_str()),
            _ => None,
        }
    }

    pub fn as_array(&self) -> (r: Option<&[JsonValue]>)
        ensures
            match *self {
                JsonValue::Array(items) => r matches Some(x) && x@ == items@,
                _ => r is None,
            },
    {
        match self {
            JsonValue::Array(items) => Some(items.as_slice()),
            _ => None,
        }
    }

    pub fn as_object(&self) -> (r: Option<&[(String, JsonValue)]>)
        ensures
            match *self {
                JsonValue::Object(fields) => r matches Some(x) && x@ == fields@,
                _ => r is None,
            },
    {
        match self {
            JsonValue::Object(fields) => Some(fields.as_slice()),
            _ => None,
        }
    }

    /// The value of the first field named `key`, when `self` is an object.
    pub fn get(&self, key: &str) -> (r: Option<&JsonValue>)
        ensures
            match *self {
                JsonValue::Object(fields) => {
                    let k = find_key(fields@, key@, 0);
                    if k < 0 {
                        r is None
                    } else {
                        r matches Some(x) && *x == fields@[k].1
                    }
                },
                _ => r is None,
            },
    {
        match self {
            JsonValue::Object(fields) => {
                let mut i: usize = 0;
                while i < fields.len()
                    invariant
                        *self == JsonValue::Object(*fields),
                        i <= fields@.len(),
                        find_key(fields@, key@, i as int) == find_key(fields@, key@, 0),
                    decreases fields@.len() - i,
                {
                    if str_eq(fields[i].0.as_str(), key) {
                        return Some(&fields[i].1);
                    }
                    i = i + 1;
                }
                None
            },
            _ => None,
        }
    }

    /// A copy of `self`.
    pub fn duplicate(&self) -> (r: JsonValue)
        ensures
            view_value(r) == view_value(*self),
        decreases self,
    {
        match self {
            JsonValue::Null => JsonValue::Null,
            JsonValue::Bool(b) => JsonValue::Bool(*b),
            JsonValue::Number(n) => JsonValue::Number(n.clone()),
            JsonValue::Str(s) => JsonValue::Str(s.clone()),
            JsonValue::Array(items) => {
                let mut out: Vec<JsonValue> = Vec::new();
                let mut i: usize = 0;
                while i < items.len()
                    invariant
                        *self == JsonValue::Array(*items),
                        i <= items@.len(),
                        view_items(out@) == view_items(items@.take(i as int)),
                    decreases items@.len() - i,
                {
                    proof {
                        assert((*self)->Array_0 == *items);
                        assert(decreases_to!(*self => (*self)->Array_0));
                        assert(decreases_to!(*items => items@));
                        assert(decreases_to!(items@ => items@[i as int]));
                    }
                    let c = items[i].duplicate();
                    proof {
                        lemma_view_items_push(out@, c);
                        lemma_take_push(items@, i as int);
                        lemma_view_items_push(items@.take(i as int), items@[i as int]);
                    }
                    out.push(c);
                    i = i + 1;
                }
                proof {
                    assert(items@.take(items@.len() as int) =~= items@);
                }
                JsonValue::Array(out)
            },
            JsonValue::Object(fields) => {
                let mut out: Vec<(String, JsonValue)> = Vec::new();
                let mut i: usize = 0;
                while i < fields.len()
                    invariant
                        *self == JsonValue::Object(*fields),
                        i <= fields@.len(),
                        view_fields(out@) == view_fields(fields@.take(i as int)),
                    decreases fields@.len() - i,
                {
                    proof {
                        assert((*self)->Object_0 == *fields);
                        assert(decreases_to!(*self => (*self)->Object_0));
                        assert(decreases_to!(*fields => fields@));
                        assert(decreases_to!(fields@ => fields@[i as int]));
                        assert(decreases_to!(fields@[i as int] => fields@[i as int].1));
                    }
                    let k = fields[i].0.clone();
                    let c = fields[i].1.duplicate();
                    proof {
                        lemma_view_fields_push(out@, (k, c));
                        lemma_take_push(fields@, i as int);
                        lemma_view_fields_push(fields@.take(i as int), fields@[i as int]);
                    }
                    out.push((k, c));
                    i = i + 1;
                }
                proof {
                    assert(fields@.take(fields@.len() as int) =~= fields@);
                }
                JsonValue::Object(out)
            },
        }
    }
}

// ----- Reading back what was written -----

pub open spec fn is_ascii_char(c: char) -> bool {
    '\0' <= c <= '\u{7f}'
}

pub open spec fn ascii_text(s: Seq<char>) -> bool {
    forall|i: int| 0 <= i < s.len() ==> is_ascii_char(#[trigger] s[i])
}

/// The bytes of an ASCII text.
pub open spec fn ascii_bytes(s: Seq<char>) -> Seq<u8> {
    s.map_values(|c: char| c as u8)
}

/// `n` is read back as a number, whole: ASCII, starting with `-` or a
/// digit, and the number the reader scans in it ends at its end and is
/// well formed.
pub open spec fn number_text(n: Seq<char>) -> bool {
    &&& n.len() > 0
    &&& ascii_text(n)
    &&& (n[0] == '-' || ('0' <= n[0] <= '9'))
    &&& number_scan(ascii_bytes(n), 0) == (n.len() as int, true)
}

/// Values that survive a write and a read: strings and keys in ASCII,
/// numbers whose text reads back as a number.
pub open spec fn plain(v: Json) -> bool
    decreases v,
{
    match v {
        Json::Null => true,
        Json::Bool(_) => true,
        Json::Number(n) => number_text(n),
        Json::Str(s) => ascii_text(s),
        Json::Array(items) => plain_items(items),
        Json::Object(fields) => plain_fields(fields),
    }
}

pub open spec fn plain_items(items: Seq<Json>) -> bool
    decreases items,
{
    if items.len() == 0 {
        true
    } else {
        plain_items(items.drop_last()) && plain(items.last())
    }
}

pub open spec fn plain_fields(fields: Seq<(Seq<char>, Json)>) -> bool
    decreases fields,
{
    if fields.len() == 0 {
        true
    } else {
        plain_fields(fields.drop_last()) && ascii_text(fields.last().0) && plain(fields.last().1)
    }
}

/// The bytes of `inp` from `pos` on spell the ASCII text `t`.
pub open spec fn matches_at(inp: Seq<u8>, pos: int, t: Seq<char>) -> bool {
    &&& 0 <= pos
    &&& pos + t.len() <= inp.len()
    &&& forall|i: int| 0 <= i < t.len() ==> (#[trigger] inp[pos + i]) as u32 == t[i] as u32
}

/// What may follow a value in compact text: the end, `,`, `]` or `}`.
pub open spec fn stop_at(inp: Seq<u8>, p: int) -> bool {
    p == inp.len() || (0 <= p < inp.len() && (inp[p] == 0x2cu8 || inp[p] == 0x5du8 || inp[p] == 0x7du8))
}

proof fn lemma_matches_split(inp: Seq<u8>, pos: int, a: Seq<char>, b: Seq<char>)
    ensures
        matches_at(inp, pos, a + b) <==> (matches_at(inp, pos, a) && matches_at(inp, pos + a.len(), b)),
{
    if matches_at(inp, pos, a + b) {
        assert forall|i: int| 0 <= i < a.len() implies (#[trigger] inp[pos + i]) as u32 == a[i] as u32 by {
            assert((a + b)[i] == a[i]);
        }
        assert forall|i: int| 0 <= i < b.len() implies (#[trigger] inp[pos + a.len() + i]) as u32 == b[i] as u32 by {
            assert((a + b)[a.len() + i] == b[i]);
            assert(inp[pos + (a.len() + i)] == inp[pos + a.len() + i]);
        }
    }
    if matches_at(inp, pos, a) && matches_at(inp, pos + a.len(), b) {
        assert forall|i: int| 0 <= i < (a + b).len() implies (#[trigger] inp[pos + i]) as u32 == (a + b)[i] as u32 by {
            if i >= a.len() {
                let j = i - a.len();
                assert(inp[pos + a.len() + j] as u32 == b[j] as u32);
                assert(pos + a.len() + j == pos + i);
            }
        }
    }
}

proof fn lemma_escape_str_cons(s: Seq<char>)
    requires
        s.len() > 0,
    ensures
        escape_str(s) == escape_char(s[0]) + escape_str(s.drop_first()),
    decreases s.len(),
{
    if s.len() == 1 {
        assert(s.drop_last() =~= Seq::<char>::empty());
        assert(s.drop_first() =~= Seq::<char>::empty());
        assert(escape_str(s) =~= escape_char(s[0]) + escape_str(s.drop_first()));
    } else {
        lemma_escape_str_cons(s.drop_last());
        assert(s.drop_last().drop_first() =~= s.drop_first().drop_last());
        assert(s.drop_first().last() == s.last());
        assert(escape_str(s) =~= escape_char(s[0]) + escape_str(s.drop_first()));
    }
}

proof fn lemma_compact_items_cons(items: Seq<Json>)
    requires
        items.len() > 1,
    ensures
        compact_items(items) == compact(items[0]) + seq![','] + compact_items(items.drop_first()),
    decreases items.len(),
{
    if items.len() == 2 {
        assert(items.drop_last() =~= seq![items[0]]);
        assert(items.drop_first() =~= seq![items[1]]);
        assert(compact_items(items.drop_last()) == compact(items[0]));
        assert(compact_items(items.drop_first()) == compact(items[1]));
        assert(compact_items(items) =~= compact(items[0]) + seq![','] + compact_items(items.drop_first()));
    } else {
        lemma_compact_items_cons(items.drop_last());
        assert(items.drop_last().drop_first() =~= items.drop_first().drop_last());
        assert(items.drop_first().last() == items.last());
        assert(compact_items(items) =~= compact(items[0]) + seq![','] + compact_items(items.drop_first()));
    }
}

proof fn lemma_compact_fields_cons(fields: Seq<(Seq<char>, Json)>)
    requires
        fields.len() > 1,
    ensures
        compact_fields(fields) == quoted(fields[0].0) + seq![':'] + compact(fields[0].1) + seq![','] + compact_fields(
            fields.drop_first(),
        ),
    decreases fields.len(),
{
    if fields.len() == 2 {
        assert(fields.drop_last() =~= seq![fields[0]]);
        assert(fields.drop_first() =~= seq![fields[1]]);
        assert(compact_fields(fields.drop_last()) == quoted(fields[0].0) + seq![':'] + compact(fields[0].1));
        assert(compact_fields(fields.drop_first()) == quoted(fields[1].0) + seq![':'] + compact(fields[1].1));
        assert(compact_fields(fields) =~= quoted(fields[0].0) + seq![':'] + compact(fields[0].1) + seq![','] + compact_fields(
            fields.drop_first(),
        ));
    } else {
        lemma_compact_fields_cons(fields.drop_last());
        assert(fields.drop_last().drop_first() =~= fields.drop_first().drop_last());
        assert(fields.drop_first().last() == fields.last());
        assert(compact_fields(fields) =~= quoted(fields[0].0) + seq![':'] + compact(fields[0].1) + seq![','] + compact_fields(
            fields.drop_first(),
        ));
    }
}

proof fn lemma_plain_items_cons(items: Seq<Json>)
    requires
        items.len() > 0,
    ensures
        plain_items(items) == (plain(items[0]) && plain_items(items.drop_first())),
    decreases items.len(),
{
    if items.len() == 1 {
        assert(items.drop_last() =~= Seq::<Json>::empty());
        assert(items.drop_first() =~= Seq::<Json>::empty());
    } else {
        lemma_plain_items_cons(items.drop_last());
        assert(items.drop_last().drop_first() =~= items.drop_first().drop_last());
        assert(items.drop_first().last() == items.last());
    }
}

proof fn lemma_plain_fields_cons(fields: Seq<(Seq<char>, Json)>)
    requires
        fields.len() > 0,
    ensures
        plain_fields(fields) == (ascii_text(fields[0].0) && plain(fields[0].1) && plain_fields(fields.drop_first())),
    decreases fields.len(),
{
    if fields.len() == 1 {
        assert(fields.drop_last() =~= Seq::<(Seq<char>, Json)>::empty());
        assert(fields.drop_first() =~= Seq::<(Seq<char>, Json)>::empty());
    } else {
        lemma_plain_fields_cons(fields.drop_last());
        assert(fields.drop_last().drop_first() =~= fields.drop_first().drop_last());
        assert(fields.drop_first().last() == fields.last());
    }
}

proof fn lemma_ascii_bytes_utf8(inp: Seq<u8>, p: int, t: Seq<char>)
    requires
        matches_at(inp, p, t),
        ascii_text(t),
    ensures
        inp.subrange(p, p + t.len()) == encode_utf8(t),
        valid_utf8(inp.subrange(p, p + t.len())),
        decode_utf8(inp.subrange(p, p + t.len())) == t,
{
    assert(vstd::utf8::is_ascii_chars(t));
    vstd::utf8::is_ascii_chars_encode_utf8(t);
    assert forall|i: int| 0 <= i < t.len() implies inp.subrange(p, p + t.len())[i] == encode_utf8(t)[i] by {
        assert(inp[p + i] as u32 == t[i] as u32);
        assert(t[i] as u8 == encode_utf8(t)[i]);
    }
    assert(inp.subrange(p, p + t.len()) =~= encode_utf8(t));
    vstd::utf8::encode_utf8_valid_utf8(t);
    vstd::utf8::encode_utf8_decode_utf8(t);
}

/// Reading the escaped form of one ASCII character gives it back.
proof fn lemma_escape_read(inp: Seq<u8>, p: int, c: char, acc: Seq<char>)
    requires
        is_ascii_char(c),
        matches_at(inp, p, escape_char(c)),
    ensures
        string_body(inp, p, acc) == string_body(inp, p + escape_char(c).len(), acc.push(c)),
{
    let e = escape_char(c);
    assert(inp[p + 0] as u32 == e[0] as u32);
    if c == '"' || c == '\\' || c == '\n' || c == '\r' || c == '\t' || c == '\u{8}' || c == '\u{c}' {
        assert(inp[p + 1] as u32 == e[1] as u32);
    } else if (c as u32) < 0x20 {
        assert(inp[p + 1] as u32 == e[1] as u32);
        let code = c as u32;
        let h1 = hex_digit_char(code as int / 16);
        let h2 = hex_digit_char(code as int % 16);
        let t = seq!['0', '0', h1, h2];
        assert forall|i: int| 0 <= i < t.len() implies (#[trigger] inp[p + 2 + i]) as u32 == t[i] as u32 by {
            assert(inp[p + (2 + i)] as u32 == e[2 + i] as u32);
        }
        assert(matches_at(inp, p + 2, t));
        assert(ascii_text(t));
        lemma_ascii_bytes_utf8(inp, p + 2, t);
        assert(all_hex(t));
        assert(hex_digits(t) == t);
        assert(hex_fold(t) == code as int) by {
            reveal_with_fuel(hex_fold, 5);
            assert(t.drop_last().drop_last().drop_last() =~= seq!['0']);
            assert(t.drop_last().drop_last() =~= seq!['0', '0']);
            assert(t.drop_last() =~= seq!['0', '0', h1]);
            assert(seq!['0'].drop_last() =~= Seq::<char>::empty());
        }
        assert(hex_value(t) == Some(code));
        assert(is_scalar(code));
        assert((code as char) == c);
    } else {
        assert(inp[p] as char == c);
    }
}

/// Reading the escaped form of an ASCII string and its closing quote
/// gives the string back, after `acc`.
proof fn lemma_string_read(inp: Seq<u8>, p: int, s: Seq<char>, acc: Seq<char>)
    requires
        ascii_text(s),
        matches_at(inp, p, escape_str(s) + seq!['"']),
    ensures
        string_body(inp, p, acc) == Ok::<(Seq<char>, int), JsonError>((acc + s, p + escape_str(s).len() + 1)),
    decreases s.len(),
{
    if s.len() == 0 {
        assert(inp[p + 0] as u32 == ('"' as u32));
        assert(acc + s =~= acc);
    } else {
        lemma_escape_str_cons(s);
        let c = s[0];
        let rest = s.drop_first();
        assert(is_ascii_char(s[0]));
        assert(escape_str(s) + seq!['"'] =~= escape_char(c) + (escape_str(rest) + seq!['"']));
        lemma_matches_split(inp, p, escape_char(c), escape_str(rest) + seq!['"']);
        lemma_escape_read(inp, p, c, acc);
        assert(ascii_text(rest)) by {
            assert forall|i: int| 0 <= i < rest.len() implies is_ascii_char(#[trigger] rest[i]) by {
                assert(rest[i] == s[i + 1]);
            }
        }
        lemma_string_read(inp, p + escape_char(c).len(), rest, acc.push(c));
        assert(acc.push(c) + rest =~= acc + s);
    }
}

/// The bytes of `nb` stand at `pos`, and what follows cannot continue a
/// number.
pub open spec fn agrees_at(inp: Seq<u8>, pos: int, nb: Seq<u8>) -> bool {
    &&& 0 <= pos
    &&& pos + nb.len() <= inp.len()
    &&& forall|j: int| 0 <= j < nb.len() ==> #[trigger] inp[pos + j] == nb[j]
    &&& (pos + nb.len() == inp.len() || stop_byte(inp[pos + nb.len()]))
}

/// A byte that ends a number: `,`, `]`, `}` or white space.
pub open spec fn stop_byte(b: u8) -> bool {
    b == 0x2cu8 || b == 0x5du8 || b == 0x7du8 || is_ws(b)
}

proof fn lemma_digits_local(inp: Seq<u8>, pos: int, nb: Seq<u8>, k: int)
    requires
        agrees_at(inp, pos, nb),
        0 <= k <= nb.len(),
    ensures
        digits_end(inp, pos + k) == pos + digits_end(nb, k),
    decreases nb.len() - k,
{
    if k < nb.len() {
        assert(inp[pos + k] == nb[k]);
        if is_digit(nb[k]) {
            lemma_digits_local(inp, pos, nb, k + 1);
        }
    } else if pos + k < inp.len() {
        assert(stop_byte(inp[pos + k]));
    }
}

proof fn lemma_number_local(inp: Seq<u8>, pos: int, nb: Seq<u8>)
    requires
        agrees_at(inp, pos, nb),
        nb.len() > 0,
        number_scan(nb, 0) == (nb.len() as int, true),
    ensures
        number_scan(inp, pos) == (pos + nb.len(), true),
{
    let m = nb.len() as int;
    assert(inp[pos + 0] == nb[0]);
    let s0n: int = if nb[0] == 0x2du8 {
        1
    } else {
        0
    };
    lemma_digits_end(nb, s0n);
    lemma_digits_local(inp, pos, nb, s0n);
    let e1n = digits_end(nb, s0n);
    let dot = e1n < m && nb[e1n] == 0x2eu8;
    if e1n < m {
        assert(inp[pos + e1n] == nb[e1n]);
    } else if pos + e1n < inp.len() {
        assert(stop_byte(inp[pos + e1n]));
    }
    let e2n = if dot {
        lemma_digits_end(nb, e1n + 1);
        lemma_digits_local(inp, pos, nb, e1n + 1);
        digits_end(nb, e1n + 1)
    } else {
        e1n
    };
    if e2n < m {
        assert(inp[pos + e2n] == nb[e2n]);
    } else if pos + e2n < inp.len() {
        assert(stop_byte(inp[pos + e2n]));
    }
    let exp = e2n < m && (nb[e2n] == 0x65u8 || nb[e2n] == 0x45u8);
    if exp {
        if e2n + 1 < m {
            assert(inp[pos + (e2n + 1)] == nb[e2n + 1]);
        } else if pos + e2n + 1 < inp.len() {
            assert(stop_byte(inp[pos + e2n + 1]));
        }
        let s3n = if e2n + 1 < m && (nb[e2n + 1] == 0x2bu8 || nb[e2n + 1] == 0x2du8) {
            e2n + 2
        } else {
            e2n + 1
        };
        lemma_digits_end(nb, s3n);
        lemma_digits_local(inp, pos, nb, s3n);
    }
}

proof fn lemma_number_read(inp: Seq<u8>, pos: int, n: Seq<char>)
    requires
        number_text(n),
        matches_at(inp, pos, n),
        pos + n.len() == inp.len() || stop_byte(inp[pos + n.len()]),
    ensures
        number_at(inp, pos) == Ok::<(Json, int), JsonError>((Json::Number(n), pos + n.len())),
{
    let nb = ascii_bytes(n);
    assert forall|j: int| 0 <= j < nb.len() implies #[trigger] inp[pos + j] == nb[j] by {
        assert(inp[pos + j] as u32 == n[j] as u32);
        assert(is_ascii_char(n[j]));
    }
    assert(agrees_at(inp, pos, nb));
    lemma_number_local(inp, pos, nb);
    assert forall|j: int| 0 <= j < n.len() implies #[trigger] bytes_as_chars(inp.subrange(pos, pos + n.len()))[j] == n[j] by {
        assert(inp[pos + j] as u32 == n[j] as u32);
    }
    assert(bytes_as_chars(inp.subrange(pos, pos + n.len())) =~= n);
}

proof fn lemma_literal_read(inp: Seq<u8>, p: int, l: Literal, i: int)
    requires
        0 <= i <= literal_word(l).len(),
        matches_at(inp, p, compact(literal_json(l))),
    ensures
        literal_from(inp, p, l, i) == Ok::<int, JsonError>(p + literal_word(l).len()),
    decreases literal_word(l).len() - i,
{
    let t = compact(literal_json(l));
    assert(t.len() == literal_word(l).len());
    if i < literal_word(l).len() {
        assert(inp[p + i] as u32 == t[i] as u32);
        assert(inp[p + i] == literal_word(l)[i]);
        lemma_literal_read(inp, p, l, i + 1);
    }
}

/// The first character `compact` writes for `v`.
pub open spec fn first_char(v: Json) -> char {
    match v {
        Json::Null => 'n',
        Json::Bool(b) => if b {
            't'
        } else {
            'f'
        },
        Json::Number(n) => n[0],
        Json::Str(_) => '"',
        Json::Array(_) => '[',
        Json::Object(_) => '{',
    }
}

proof fn lemma_compact_first(v: Json)
    requires
        plain(v),
    ensures
        compact(v).len() > 0,
        compact(v)[0] == first_char(v),
{
    match v {
        Json::Str(s) => {
            assert(quoted(s)[0] == '"');
        },
        Json::Array(items) => {
            assert((seq!['['] + compact_items(items) + seq![']'])[0] == '[');
        },
        Json::Object(fields) => {
            assert((seq!['{'] + compact_fields(fields) + seq!['}'])[0] == '{');
        },
        _ => {},
    }
}

proof fn lemma_first_not_ws(inp: Seq<u8>, pos: int, v: Json)
    requires
        plain(v),
        matches_at(inp, pos, compact(v)),
    ensures
        skip_ws(inp, pos) == pos,
        pos < inp.len(),
        inp[pos] as u32 == first_char(v) as u32,
{
    lemma_compact_first(v);
    assert(inp[pos + 0] as u32 == compact(v)[0] as u32);
    if let Json::Number(n) = v {
        assert(n[0] == '-' || ('0' <= n[0] <= '9'));
    }
}

proof fn lemma_value_read(inp: Seq<u8>, pos: int, v: Json)
    requires
        plain(v),
        matches_at(inp, pos, compact(v)),
        stop_at(inp, pos + compact(v).len()) || (pos + compact(v).len() < inp.len() && is_ws(
            inp[pos + compact(v).len()],
        )),
    ensures
        value_at(inp, pos) == Ok::<(Json, int), JsonError>((v, pos + compact(v).len())),
    decreases v, 0int,
{
    lemma_first_not_ws(inp, pos, v);
    match v {
        Json::Null => {
            lemma_literal_read(inp, pos, Literal::Null, 0);
        },
        Json::Bool(b) => {
            if b {
                lemma_literal_read(inp, pos, Literal::True, 0);
            } else {
                lemma_literal_read(inp, pos, Literal::False, 0);
            }
        },
        Json::Number(n) => {
            assert(n[0] == '-' || ('0' <= n[0] <= '9'));
            lemma_number_read(inp, pos, n);
        },
        Json::Str(st) => {
            assert(quoted(st) =~= seq!['"'] + (escape_str(st) + seq!['"']));
            lemma_matches_split(inp, pos, seq!['"'], escape_str(st) + seq!['"']);
            lemma_string_read(inp, pos + 1, st, Seq::empty());
            assert(Seq::<char>::empty() + st =~= st);
        },
        Json::Array(items) => {
            let body = compact_items(items);
            assert(compact(v) =~= seq!['['] + (body + seq![']']));
            lemma_matches_split(inp, pos, seq!['['], body + seq![']']);
            if items.len() == 0 {
                assert(body =~= Seq::<char>::empty());
                assert(inp[pos + 1 + 0] as u32 == (body + seq![']'])[0] as u32);
                assert(skip_ws(inp, pos + 1) == pos + 1);
                assert(Seq::<Json>::empty() =~= items);
            } else {
                lemma_items_read(inp, pos + 1, items, Seq::empty());
                lemma_items_first(items);
                lemma_plain_items_cons(items);
                lemma_first_char_starts(items[0]);
                assert(inp[pos + 1 + 0] as u32 == (body + seq![']'])[0] as u32);
                assert(skip_ws(inp, pos + 1) == pos + 1);
                assert(Seq::<Json>::empty() + items =~= items);
            }
        },
        Json::Object(fields) => {
            let body = compact_fields(fields);
            assert(compact(v) =~= seq!['{'] + (body + seq!['}']));
            lemma_matches_split(inp, pos, seq!['{'], body + seq!['}']);
            if fields.len() == 0 {
                assert(body =~= Seq::<char>::empty());
                assert(inp[pos + 1 + 0] as u32 == (body + seq!['}'])[0] as u32);
                assert(skip_ws(inp, pos + 1) == pos + 1);
                assert(Seq::<(Seq<char>, Json)>::empty() =~= fields);
            } else {
                lemma_fields_read(inp, pos + 1, fields, Seq::empty());
                lemma_fields_first(fields);
                assert(inp[pos + 1 + 0] as u32 == (body + seq!['}'])[0] as u32);
                assert(skip_ws(inp, pos + 1) == pos + 1);
                assert(Seq::<(Seq<char>, Json)>::empty() + fields =~= fields);
            }
        },
    }
}

/// A character a written value can start with.
pub open spec fn starts_value(c: char) -> bool {
    c == 'n' || c == 't' || c == 'f' || c == '"' || c == '[' || c == '{' || c == '-' || ('0' <= c <= '9')
}

proof fn lemma_first_char_starts(v: Json)
    requires
        plain(v),
    ensures
        starts_value(first_char(v)),
{
}

proof fn lemma_items_first(items: Seq<Json>)
    requires
        items.len() > 0,
        plain_items(items),
    ensures
        compact_items(items).len() > 0,
        compact_items(items)[0] == first_char(items[0]),
{
    lemma_plain_items_cons(items);
    lemma_compact_first(items[0]);
    if items.len() > 1 {
        lemma_compact_items_cons(items);
    }
}

proof fn lemma_fields_first(fields: Seq<(Seq<char>, Json)>)
    requires
        fields.len() > 0,
    ensures
        compact_fields(fields).len() > 0,
        compact_fields(fields)[0] == '"',
{
    if fields.len() > 1 {
        lemma_compact_fields_cons(fields);
    }
}

proof fn lemma_items_read(inp: Seq<u8>, q: int, items: Seq<Json>, acc: Seq<Json>)
    requires
        items.len() > 0,
        plain_items(items),
        matches_at(inp, q, compact_items(items) + seq![']']),
    ensures
        items_loop(inp, q, acc) == Ok::<(Json, int), JsonError>((Json::Array(acc + items), q + compact_items(items).len() + 1)),
    decreases items, 0int,
{
    lemma_plain_items_cons(items);
    let x = items[0];
    let cx = compact(x);
    if items.len() == 1 {
        assert(compact_items(items) == cx);
        lemma_matches_split(inp, q, cx, seq![']']);
        assert(inp[q + cx.len() + 0] as u32 == (']' as u32));
        lemma_value_read(inp, q, x);
        assert(skip_ws(inp, q + cx.len()) == q + cx.len());
        assert(acc.push(x) =~= acc + items);
    } else {
        let rest = items.drop_first();
        lemma_compact_items_cons(items);
        assert(compact_items(items) + seq![']'] =~= cx + (seq![','] + (compact_items(rest) + seq![']'])));
        lemma_matches_split(inp, q, cx, seq![','] + (compact_items(rest) + seq![']']));
        lemma_matches_split(inp, q + cx.len(), seq![','], compact_items(rest) + seq![']']);
        assert(inp[q + cx.len() + 0] as u32 == (',' as u32));
        lemma_value_read(inp, q, x);
        assert(skip_ws(inp, q + cx.len()) == q + cx.len());
        lemma_items_read(inp, q + cx.len() + 1, rest, acc.push(x));
        assert(acc.push(x) + rest =~= acc + items);
    }
}

proof fn lemma_fields_read(inp: Seq<u8>, q: int, fields: Seq<(Seq<char>, Json)>, acc: Seq<(Seq<char>, Json)>)
    requires
        fields.len() > 0,
        plain_fields(fields),
        matches_at(inp, q, compact_fields(fields) + seq!['}']),
    ensures
        fields_loop(inp, q, acc) == Ok::<(Json, int), JsonError>(
            (Json::Object(acc + fields), q + compact_fields(fields).len() + 1),
        ),
    decreases fields, 0int,
{
    lemma_plain_fields_cons(fields);
    let key = fields[0].0;
    let x = fields[0].1;
    let head = quoted(key) + seq![':'] + compact(x);
    let tail = if fields.len() == 1 {
        seq!['}']
    } else {
        seq![','] + (compact_fields(fields.drop_first()) + seq!['}'])
    };
    if fields.len() == 1 {
        assert(compact_fields(fields) == head);
    } else {
        lemma_compact_fields_cons(fields);
    }
    assert(compact_fields(fields) + seq!['}'] =~= quoted(key) + (seq![':'] + (compact(x) + tail)));
    lemma_matches_split(inp, q, quoted(key), seq![':'] + (compact(x) + tail));
    lemma_matches_split(inp, q + quoted(key).len(), seq![':'], compact(x) + tail);
    lemma_matches_split(inp, q + quoted(key).len() + 1, compact(x), tail);
    // The key.
    assert(quoted(key) =~= seq!['"'] + (escape_str(key) + seq!['"']));
    lemma_matches_split(inp, q, seq!['"'], escape_str(key) + seq!['"']);
    assert(inp[q + 0] as u32 == ('"' as u32));
    assert(skip_ws(inp, q) == q);
    lemma_string_read(inp, q + 1, key, Seq::empty());
    assert(Seq::<char>::empty() + key =~= key);
    let q1 = q + quoted(key).len();
    assert(string_at(inp, q) == Ok::<(Seq<char>, int), JsonError>((key, q1)));
    // The colon.
    assert(inp[q1 + 0] as u32 == (':' as u32));
    assert(skip_ws(inp, q1) == q1);
    assert(expect_byte(inp, q1, 0x3au8) == Ok::<int, JsonError>(q1 + 1));
    // The value.
    let q3 = q1 + 1 + compact(x).len();
    assert(inp[q3 + 0] as u32 == tail[0] as u32);
    lemma_value_read(inp, q1 + 1, x);
    assert(skip_ws(inp, q3) == q3);
    if fields.len() == 1 {
        assert(acc.push((key, x)) =~= acc + fields);
    } else {
        let rest = fields.drop_first();
        lemma_matches_split(inp, q3, seq![','], compact_fields(rest) + seq!['}']);
        lemma_fields_read(inp, q3 + 1, rest, acc.push((key, x)));
        assert(acc.push((key, x)) + rest =~= acc + fields);
    }
}

/// Reading what `write_json` wrote gives the value back, for values whose
/// strings and keys are ASCII and whose numbers are number texts.
pub proof fn lemma_compact_roundtrip(v: Json)
    requires
        plain(v),
    ensures
        parse_json_spec(encode_utf8(compact(v))) == Ok::<Json, JsonError>(v),
{
    let t = compact(v);
    assert(ascii_text(t)) by {
        lemma_compact_ascii(v);
    }
    assert(vstd::utf8::is_ascii_chars(t));
    vstd::utf8::is_ascii_chars_encode_utf8(t);
    let inp = encode_utf8(t);
    assert forall|i: int| 0 <= i < t.len() implies (#[trigger] inp[0 + i]) as u32 == t[i] as u32 by {
        assert(t[i] as u8 == inp[i]);
        assert(is_ascii_char(t[i]));
    }
    assert(matches_at(inp, 0, t));
    lemma_value_read(inp, 0, v);
    assert(skip_ws(inp, t.len() as int) == t.len());
}

/// From `a` up to `b` there is only white space, so white space skipped
/// from `a` ends where white space skipped from `b` does.
proof fn lemma_skip_ws_run(inp: Seq<u8>, a: int, b: int)
    requires
        0 <= a <= b <= inp.len(),
        forall|i: int| a <= i < b ==> is_ws(#[trigger] inp[i]),
    ensures
        skip_ws(inp, a) == skip_ws(inp, b),
    decreases b - a,
{
    if a < b {
        assert(is_ws(inp[a]));
        lemma_skip_ws_run(inp, a + 1, b);
    }
}

/// The four white-space bytes of JSON: space, tab, line feed and carriage
/// return.
pub open spec fn json_space(b: u8) -> bool {
    b == 0x20u8 || b == 0x09u8 || b == 0x0au8 || b == 0x0du8
}

/// The reader skips space, tab, line feed and carriage return around a
/// value: any run of them before and after a written value leaves what is
/// read unchanged.
pub proof fn lemma_padded_roundtrip(v: Json, lead: Seq<u8>, trail: Seq<u8>)
    requires
        plain(v),
        forall|i: int| 0 <= i < lead.len() ==> json_space(#[trigger] lead[i]),
        forall|i: int| 0 <= i < trail.len() ==> json_space(#[trigger] trail[i]),
    ensures
        parse_json_spec(lead + encode_utf8(compact(v)) + trail) == Ok::<Json, JsonError>(v),
{
    let t = compact(v);
    assert(ascii_text(t)) by {
        lemma_compact_ascii(v);
    }
    assert(vstd::utf8::is_ascii_chars(t));
    vstd::utf8::is_ascii_chars_encode_utf8(t);
    let body = encode_utf8(t);
    let inp = lead + body + trail;
    let s = lead.len() as int;
    let e = s + t.len();
    assert forall|i: int| 0 <= i < t.len() implies (#[trigger] inp[s + i]) as u32 == t[i] as u32 by {
        assert(inp[s + i] == body[i]);
        assert(t[i] as u8 == body[i]);
        assert(is_ascii_char(t[i]));
    }
    assert(matches_at(inp, s, t));
    assert forall|i: int| 0 <= i < s implies is_ws(#[trigger] inp[i]) by {
        assert(inp[i] == lead[i]);
        assert(json_space(lead[i]));
    }
    assert forall|i: int| e <= i < inp.len() implies is_ws(#[trigger] inp[i]) by {
        assert(inp[i] == trail[i - e]);
        assert(json_space(trail[i - e]));
    }
    lemma_skip_ws_run(inp, 0, s);
    lemma_first_not_ws(inp, s, v);
    lemma_value_at_ws(inp, 0);
    if e < inp.len() {
        assert(is_ws(inp[e]));
    }
    lemma_value_read(inp, s, v);
    lemma_skip_ws_run(inp, e, inp.len() as int);
}

proof fn lemma_ascii_concat(a: Seq<char>, b: Seq<char>)
    requires
        ascii_text(a),
        ascii_text(b),
    ensures
        ascii_text(a + b),
{
    assert forall|i: int| 0 <= i < (a + b).len() implies is_ascii_char(#[trigger] (a + b)[i]) by {
        if i < a.len() {
            assert((a + b)[i] == a[i]);
        } else {
            assert((a + b)[i] == b[i - a.len()]);
        }
    }
}

proof fn lemma_escape_ascii(s: Seq<char>)
    requires
        ascii_text(s),
    ensures
        ascii_text(escape_str(s)),
    decreases s.len(),
{
    if s.len() > 0 {
        let d = s.drop_last();
        assert(ascii_text(d)) by {
            assert forall|i: int| 0 <= i < d.len() implies is_ascii_char(#[trigger] d[i]) by {
                assert(d[i] == s[i]);
            }
        }
        lemma_escape_ascii(d);
        let c = s.last();
        assert(is_ascii_char(s[s.len() - 1]));
        assert(ascii_text(escape_char(c))) by {
            let e = escape_char(c);
            assert forall|i: int| 0 <= i < e.len() implies is_ascii_char(#[trigger] e[i]) by {}
        }
        lemma_ascii_concat(escape_str(d), escape_char(c));
    }
}

proof fn lemma_quoted_ascii(s: Seq<char>)
    requires
        ascii_text(s),
    ensures
        ascii_text(quoted(s)),
{
    lemma_escape_ascii(s);
    assert(ascii_text(seq!['"'])) by {
        assert forall|i: int| 0 <= i < 1 implies is_ascii_char(#[trigger] seq!['"'][i]) by {}
    }
    lemma_ascii_concat(seq!['"'], escape_str(s));
    lemma_ascii_concat(seq!['"'] + escape_str(s), seq!['"']);
}

proof fn lemma_ascii_lit(t: Seq<char>)
    requires
        forall|i: int| 0 <= i < t.len() ==> '\0' <= #[trigger] t[i] <= '\u{7f}',
    ensures
        ascii_text(t),
{
}

proof fn lemma_compact_ascii(v: Json)
    requires
        plain(v),
    ensures
        ascii_text(compact(v)),
    decreases v, 1int,
{
    match v {
        Json::Null => {
            lemma_ascii_lit(null_text());
        },
        Json::Bool(b) => {
            lemma_ascii_lit(bool_text(b));
        },
        Json::Number(n) => {},
        Json::Str(st) => {
            lemma_quoted_ascii(st);
        },
        Json::Array(items) => {
            lemma_items_ascii(items);
            lemma_ascii_lit(seq!['[']);
            lemma_ascii_lit(seq![']']);
            lemma_ascii_concat(seq!['['], compact_items(items));
            lemma_ascii_concat(seq!['['] + compact_items(items), seq![']']);
        },
        Json::Object(fields) => {
            lemma_fields_ascii(fields);
            lemma_ascii_lit(seq!['{']);
            lemma_ascii_lit(seq!['}']);
            lemma_ascii_concat(seq!['{'], compact_fields(fields));
            lemma_ascii_concat(seq!['{'] + compact_fields(fields), seq!['}']);
        },
    }
}

proof fn lemma_items_ascii(items: Seq<Json>)
    requires
        plain_items(items),
    ensures
        ascii_text(compact_items(items)),
    decreases items, 1int,
{
    if items.len() == 1 {
        lemma_compact_ascii(items[0]);
    } else if items.len() > 1 {
        lemma_items_ascii(items.drop_last());
        lemma_compact_ascii(items.last());
        lemma_ascii_lit(seq![',']);
        lemma_ascii_concat(compact_items(items.drop_last()), seq![',']);
        lemma_ascii_concat(compact_items(items.drop_last()) + seq![','], compact(items.last()));
    }
}

proof fn lemma_fields_ascii(fields: Seq<(Seq<char>, Json)>)
    requires
        plain_fields(fields),
    ensures
        ascii_text(compact_fields(fields)),
    decreases fields, 1int,
{
    if fields.len() > 0 {
        let f = fields.last();
        lemma_quoted_ascii(f.0);
        lemma_compact_ascii(f.1);
        lemma_ascii_lit(seq![':']);
        lemma_ascii_concat(quoted(f.0), seq![':']);
        lemma_ascii_concat(quoted(f.0) + seq![':'], compact(f.1));
        if fields.len() == 1 {
            assert(fields.last() == fields[0]);
        } else {
            lemma_fields_ascii(fields.drop_last());
            lemma_ascii_lit(seq![',']);
            lemma_ascii_concat(compact_fields(fields.drop_last()), seq![',']);
            lemma_ascii_concat(compact_fields(fields.drop_last()) + seq![','], quoted(f.0));
            lemma_ascii_concat(compact_fields(fields.drop_last()) + seq![','] + quoted(f.0), seq![':']);
            lemma_ascii_concat(compact_fields(fields.drop_last()) + seq![','] + quoted(f.0) + seq![':'], compact(f.1));
        }
    }
}

// ----- Reading back what the indented writer wrote -----

/// White space only.
pub open spec fn ws_text(w: Seq<char>) -> bool {
    forall|i: int| 0 <= i < w.len() ==> (#[trigger] w[i] == ' ' || w[i] == '\n')
}

/// What may follow a value in indented text: the end, `,` or a line
/// break.
pub open spec fn pstop_at(inp: Seq<u8>, p: int) -> bool {
    p == inp.len() || (0 <= p < inp.len() && (inp[p] == 0x2cu8 || inp[p] == 0x0au8))
}

proof fn lemma_ws_skip(inp: Seq<u8>, q: int, w: Seq<char>)
    requires
        ws_text(w),
        matches_at(inp, q, w),
        q + w.len() == inp.len() || !is_ws(inp[q + w.len()]),
    ensures
        skip_ws(inp, q) == q + w.len(),
    decreases w.len(),
{
    if w.len() > 0 {
        assert(inp[q + 0] as u32 == w[0] as u32);
        assert(w[0] == ' ' || w[0] == '\n');
        let rest = w.drop_first();
        assert forall|i: int| 0 <= i < rest.len() implies (#[trigger] inp[q + 1 + i]) as u32 == rest[i] as u32 by {
            assert(inp[q + (1 + i)] as u32 == w[1 + i] as u32);
        }
        assert(ws_text(rest)) by {
            assert forall|i: int| 0 <= i < rest.len() implies (#[trigger] rest[i] == ' ' || rest[i] == '\n') by {
                assert(w[1 + i] == ' ' || w[1 + i] == '\n');
            }
        }
        lemma_ws_skip(inp, q + 1, rest);
    }
}

proof fn lemma_indent_ws(n: nat)
    ensures
        ws_text(indent_text(n)),
        ws_text(seq!['\n'] + indent_text(n)),
{
    let w = seq!['\n'] + indent_text(n);
    assert forall|i: int| 0 <= i < w.len() implies (#[trigger] w[i] == ' ' || w[i] == '\n') by {
        if i > 0 {
            assert(w[i] == indent_text(n)[i - 1]);
        }
    }
}

proof fn lemma_pretty_items_cons(items: Seq<Json>, level: nat)
    requires
        items.len() > 1,
    ensures
        pretty_items(items, level) == indent_text(level + 1) + pretty(items[0], level + 1) + seq![',', '\n']
            + pretty_items(items.drop_first(), level),
    decreases items.len(),
{
    if items.len() == 2 {
        assert(items.drop_last() =~= seq![items[0]]);
        assert(items.drop_first() =~= seq![items[1]]);
        assert(pretty_items(items.drop_last(), level) == indent_text(level + 1) + pretty(items[0], level + 1));
        assert(pretty_items(items.drop_first(), level) == indent_text(level + 1) + pretty(items[1], level + 1));
        assert(pretty_items(items, level) =~= indent_text(level + 1) + pretty(items[0], level + 1) + seq![',', '\n']
            + pretty_items(items.drop_first(), level));
    } else {
        lemma_pretty_items_cons(items.drop_last(), level);
        assert(items.drop_last().drop_first() =~= items.drop_first().drop_last());
        assert(items.drop_first().last() == items.last());
        assert(pretty_items(items, level) =~= indent_text(level + 1) + pretty(items[0], level + 1) + seq![',', '\n']
            + pretty_items(items.drop_first(), level));
    }
}

/// One indented field, `"key": value`, after its indentation.
pub open spec fn pretty_field(f: (Seq<char>, Json), level: nat) -> Seq<char> {
    quoted(f.0) + seq![':', ' '] + pretty(f.1, level + 1)
}

proof fn lemma_pretty_fields_cons(fields: Seq<(Seq<char>, Json)>, level: nat)
    requires
        fields.len() > 1,
    ensures
        pretty_fields(fields, level) == indent_text(level + 1) + pretty_field(fields[0], level) + seq![',', '\n']
            + pretty_fields(fields.drop_first(), level),
    decreases fields.len(),
{
    if fields.len() == 2 {
        assert(fields.drop_last() =~= seq![fields[0]]);
        assert(fields.drop_first() =~= seq![fields[1]]);
        assert(pretty_fields(fields.drop_last(), level) == indent_text(level + 1) + pretty_field(fields[0], level));
        assert(pretty_fields(fields.drop_first(), level) == indent_text(level + 1) + pretty_field(fields[1], level));
        assert(pretty_fields(fields, level) =~= indent_text(level + 1) + pretty_field(fields[0], level) + seq![',', '\n']
            + pretty_fields(fields.drop_first(), level));
    } else {
        lemma_pretty_fields_cons(fields.drop_last(), level);
        assert(fields.drop_last().drop_first() =~= fields.drop_first().drop_last());
        assert(fields.drop_first().last() == fields.last());
        assert(pretty_fields(fields, level) =~= indent_text(level + 1) + pretty_field(fields[0], level) + seq![',', '\n']
            + pretty_fields(fields.drop_first(), level));
    }
}

proof fn lemma_pretty_single(items: Seq<Json>, fields: Seq<(Seq<char>, Json)>, level: nat)
    ensures
        items.len() == 1 ==> pretty_items(items, level) == indent_text(level + 1) + pretty(items[0], level + 1),
        fields.len() == 1 ==> pretty_fields(fields, level) == indent_text(level + 1) + pretty_field(fields[0], level),
{
    if fields.len() == 1 {
        assert(pretty_fields(fields, level) =~= indent_text(level + 1) + pretty_field(fields[0], level));
    }
}

/// A value read at white space before it gives the same as one read at
/// the value.
proof fn lemma_value_at_ws(inp: Seq<u8>, q: int)
    requires
        0 <= q <= inp.len(),
    ensures
        value_at(inp, q) == value_at(inp, skip_ws(inp, q)),
{
    lemma_skip_ws(inp, q);
    lemma_skip_ws_idem(inp, q);
}

proof fn lemma_skip_ws_idem(inp: Seq<u8>, q: int)
    requires
        0 <= q,
    ensures
        skip_ws(inp, skip_ws(inp, q)) == skip_ws(inp, q),
    decreases inp.len() - q,
{
    if 0 <= q < inp.len() && is_ws(inp[q]) {
        lemma_skip_ws_idem(inp, q + 1);
    }
}

/// Reading items from white space before the first gives the same as
/// reading them from the first.
proof fn lemma_items_loop_ws(inp: Seq<u8>, q: int, acc: Seq<Json>)
    requires
        0 <= q <= inp.len(),
    ensures
        items_loop(inp, q, acc) == items_loop(inp, skip_ws(inp, q), acc),
{
    lemma_value_at_ws(inp, q);
    lemma_skip_ws(inp, q);
    let q0 = skip_ws(inp, q);
    lemma_value_at(inp, q0);
    if let Ok((v, q1)) = value_at(inp, q0) {
        lemma_skip_ws(inp, q1);
    }
}

/// Reading fields from white space before the first gives the same as
/// reading them from the first.
proof fn lemma_fields_loop_ws(inp: Seq<u8>, q: int, acc: Seq<(Seq<char>, Json)>)
    requires
        0 <= q <= inp.len(),
    ensures
        fields_loop(inp, q, acc) == fields_loop(inp, skip_ws(inp, q), acc),
{
    lemma_skip_ws(inp, q);
    lemma_skip_ws_idem(inp, q);
    let q0 = skip_ws(inp, q);
    lemma_string_at(inp, q0);
    if let Ok((key, q1)) = string_at(inp, q0) {
        lemma_expect_byte(inp, q1, 0x3au8);
        if let Ok(q2) = expect_byte(inp, q1, 0x3au8) {
            lemma_value_at(inp, q2);
            if let Ok((v, q3)) = value_at(inp, q2) {
                lemma_skip_ws(inp, q3);
            }
        }
    }
}

proof fn lemma_pretty_first(v: Json, level: nat)
    requires
        plain(v),
    ensures
        pretty(v, level).len() > 0,
        pretty(v, level)[0] == first_char(v),
{
    match v {
        Json::Str(st) => {
            assert(quoted(st)[0] == '"');
        },
        Json::Array(items) => {
            if items.len() > 0 {
                let t = seq!['[', '\n'] + pretty_items(items, level) + seq!['\n'] + indent_text(level) + seq![']'];
                assert(t[0] == '[');
            }
        },
        Json::Object(fields) => {
            if fields.len() > 0 {
                let t = seq!['{', '\n'] + pretty_fields(fields, level) + seq!['\n'] + indent_text(level) + seq!['}'];
                assert(t[0] == '{');
            }
        },
        _ => {},
    }
}

/// After white space `w`, the indented text of `v` reads back as `v`.
proof fn lemma_pvalue_read(inp: Seq<u8>, q: int, w: Seq<char>, v: Json, level: nat)
    requires
        ws_text(w),
        plain(v),
        matches_at(inp, q, w + pretty(v, level)),
        pstop_at(inp, q + w.len() + pretty(v, level).len()),
    ensures
        value_at(inp, q) == Ok::<(Json, int), JsonError>((v, q + w.len() + pretty(v, level).len())),
    decreases v, 0int,
{
    let t = pretty(v, level);
    let p = q + w.len();
    lemma_matches_split(inp, q, w, t);
    lemma_pretty_first(v, level);
    assert(inp[p + 0] as u32 == t[0] as u32);
    lemma_first_char_starts(v);
    if let Json::Number(n) = v {
        assert(n[0] == '-' || ('0' <= n[0] <= '9'));
    }
    assert(!is_ws(inp[p]));
    lemma_ws_skip(inp, q, w);
    lemma_value_at_ws(inp, q);
    assert(skip_ws(inp, p) == p);
    let end = p + t.len();
    match v {
        Json::Null => {
            lemma_literal_read(inp, p, Literal::Null, 0);
        },
        Json::Bool(b) => {
            if b {
                lemma_literal_read(inp, p, Literal::True, 0);
            } else {
                lemma_literal_read(inp, p, Literal::False, 0);
            }
        },
        Json::Number(n) => {
            if end < inp.len() {
                assert(stop_byte(inp[end]));
            }
            lemma_number_read(inp, p, n);
        },
        Json::Str(st) => {
            assert(quoted(st) =~= seq!['"'] + (escape_str(st) + seq!['"']));
            lemma_matches_split(inp, p, seq!['"'], escape_str(st) + seq!['"']);
            lemma_string_read(inp, p + 1, st, Seq::empty());
            assert(Seq::<char>::empty() + st =~= st);
        },
        Json::Array(items) => {
            if items.len() == 0 {
                assert(t == seq!['[', ']']);
                assert(inp[p + 1] as u32 == t[1] as u32);
                assert(skip_ws(inp, p + 1) == p + 1);
                assert(Seq::<Json>::empty() =~= items);
            } else {
                let body = pretty_items(items, level);
                let tail = seq!['\n'] + indent_text(level) + seq![']'];
                assert(t =~= seq!['['] + (seq!['\n'] + body + tail));
                lemma_matches_split(inp, p, seq!['['], seq!['\n'] + body + tail);
                lemma_indent_ws(level);
                lemma_pitems_read(inp, p + 1, seq!['\n'], items, level, Seq::empty());
                lemma_items_loop_ws(inp, p + 1, Seq::empty());
                // The first item is not white space, nor `]`.
                lemma_plain_items_cons(items);
                lemma_pitems_start(inp, p + 1, items, level, tail);
                assert(Seq::<Json>::empty() + items =~= items);
            }
        },
        Json::Object(fields) => {
            if fields.len() == 0 {
                assert(t == seq!['{', '}']);
                assert(inp[p + 1] as u32 == t[1] as u32);
                assert(skip_ws(inp, p + 1) == p + 1);
                assert(Seq::<(Seq<char>, Json)>::empty() =~= fields);
            } else {
                let body = pretty_fields(fields, level);
                let tail = seq!['\n'] + indent_text(level) + seq!['}'];
                assert(t =~= seq!['{'] + (seq!['\n'] + body + tail));
                lemma_matches_split(inp, p, seq!['{'], seq!['\n'] + body + tail);
                lemma_indent_ws(level);
                lemma_pfields_read(inp, p + 1, seq!['\n'], fields, level, Seq::empty());
                lemma_fields_loop_ws(inp, p + 1, Seq::empty());
                lemma_pfields_start(inp, p + 1, fields, level, tail);
                assert(Seq::<(Seq<char>, Json)>::empty() + fields =~= fields);
            }
        },
    }
}

/// Where the items of an indented array start, after `[`: past the line
/// break and indentation, at the first item's first character.
proof fn lemma_pitems_start(inp: Seq<u8>, q: int, items: Seq<Json>, level: nat, tail: Seq<char>)
    requires
        items.len() > 0,
        plain(items[0]),
        matches_at(inp, q, seq!['\n'] + pretty_items(items, level) + tail),
    ensures
        skip_ws(inp, q) == q + 1 + indent_text(level + 1).len(),
        inp[skip_ws(inp, q)] as u32 == first_char(items[0]) as u32,
{
    let lead = seq!['\n'] + indent_text(level + 1);
    let x = pretty(items[0], level + 1);
    let rest = if items.len() == 1 {
        tail
    } else {
        seq![',', '\n'] + pretty_items(items.drop_first(), level) + tail
    };
    if items.len() > 1 {
        lemma_pretty_items_cons(items, level);
    } else {
        lemma_pretty_single(items, Seq::empty(), level);
    }
    assert(seq!['\n'] + pretty_items(items, level) + tail =~= lead + (x + rest));
    lemma_matches_split(inp, q, lead, x + rest);
    lemma_pretty_first(items[0], level + 1);
    lemma_first_char_starts(items[0]);
    assert(inp[q + lead.len() + 0] as u32 == (x + rest)[0] as u32);
    lemma_indent_ws(level + 1);
    lemma_ws_skip(inp, q, lead);
}

/// Where the fields of an indented object start, after `{`: at the first
/// key's opening quote.
proof fn lemma_pfields_start(inp: Seq<u8>, q: int, fields: Seq<(Seq<char>, Json)>, level: nat, tail: Seq<char>)
    requires
        fields.len() > 0,
        matches_at(inp, q, seq!['\n'] + pretty_fields(fields, level) + tail),
    ensures
        skip_ws(inp, q) == q + 1 + indent_text(level + 1).len(),
        inp[skip_ws(inp, q)] == 0x22u8,
{
    let lead = seq!['\n'] + indent_text(level + 1);
    let x = pretty_field(fields[0], level);
    let rest = if fields.len() == 1 {
        tail
    } else {
        seq![',', '\n'] + pretty_fields(fields.drop_first(), level) + tail
    };
    if fields.len() > 1 {
        lemma_pretty_fields_cons(fields, level);
    } else {
        lemma_pretty_single(Seq::empty(), fields, level);
    }
    assert(seq!['\n'] + pretty_fields(fields, level) + tail =~= lead + (x + rest));
    lemma_matches_split(inp, q, lead, x + rest);
    assert((x + rest)[0] == '"');
    assert(inp[q + lead.len() + 0] as u32 == (x + rest)[0] as u32);
    lemma_indent_ws(level + 1);
    lemma_ws_skip(inp, q, lead);
}

proof fn lemma_pitems_read(inp: Seq<u8>, q: int, w: Seq<char>, items: Seq<Json>, level: nat, acc: Seq<Json>)
    requires
        ws_text(w),
        items.len() > 0,
        plain_items(items),
        matches_at(inp, q, w + pretty_items(items, level) + (seq!['\n'] + indent_text(level) + seq![']'])),
        pstop_at(inp, q + w.len() + pretty_items(items, level).len() + 2 + 2 * level),
    ensures
        items_loop(inp, q, acc) == Ok::<(Json, int), JsonError>(
            (Json::Array(acc + items), q + w.len() + pretty_items(items, level).len() + 2 + 2 * level),
        ),
    decreases items, 0int,
{
    lemma_plain_items_cons(items);
    let x = items[0];
    let ind = indent_text(level + 1);
    let px = pretty(x, level + 1);
    let tail = seq!['\n'] + indent_text(level) + seq![']'];
    let rest = if items.len() == 1 {
        tail
    } else {
        seq![',', '\n'] + pretty_items(items.drop_first(), level) + tail
    };
    if items.len() > 1 {
        lemma_pretty_items_cons(items, level);
    } else {
        lemma_pretty_single(items, Seq::empty(), level);
    }
    assert(w + pretty_items(items, level) + tail =~= (w + ind) + px + rest);
    lemma_indent_ws(level + 1);
    assert(ws_text(w + ind)) by {
        assert forall|i: int| 0 <= i < (w + ind).len() implies (#[trigger] (w + ind)[i] == ' ' || (w + ind)[i] == '\n') by {
            if i >= w.len() {
                assert((w + ind)[i] == ind[i - w.len()]);
            }
        }
    }
    lemma_matches_split(inp, q, (w + ind) + px, rest);
    lemma_matches_split(inp, q, w + ind, px);
    let q1 = q + (w + ind).len() + px.len();
    assert(inp[q1 + 0] as u32 == rest[0] as u32);
    lemma_pvalue_read(inp, q, w + ind, x, level + 1);
    if items.len() == 1 {
        lemma_indent_ws(level);
        let lead = seq!['\n'] + indent_text(level);
        assert(tail =~= lead + seq![']']);
        lemma_matches_split(inp, q1, lead, seq![']']);
        assert(inp[q1 + lead.len() + 0] as u32 == (']' as u32));
        lemma_ws_skip(inp, q1, lead);
        assert(acc.push(x) =~= acc + items);
    } else {
        let more = items.drop_first();
        assert(rest =~= seq![','] + (seq!['\n'] + pretty_items(more, level) + tail));
        lemma_matches_split(inp, q1, seq![','], seq!['\n'] + pretty_items(more, level) + tail);
        assert(skip_ws(inp, q1) == q1);
        assert(ws_text(seq!['\n'])) by {
            assert forall|i: int| 0 <= i < 1 implies (#[trigger] seq!['\n'][i] == ' ' || seq!['\n'][i] == '\n') by {}
        }
        assert(seq!['\n'] + pretty_items(more, level) + tail =~= seq!['\n'] + pretty_items(more, level) + tail);
        lemma_pitems_read(inp, q1 + 1, seq!['\n'], more, level, acc.push(x));
        assert(acc.push(x) + more =~= acc + items);
    }
}

/// White space, a key and a colon read as the key.
proof fn lemma_pfield_head(inp: Seq<u8>, q: int, lead: Seq<char>, key: Seq<char>, after: Seq<char>)
    requires
        ws_text(lead),
        ascii_text(key),
        matches_at(inp, q, lead + (quoted(key) + (seq![':'] + after))),
    ensures
        skip_ws(inp, q) == q + lead.len(),
        string_at(inp, q + lead.len()) == Ok::<(Seq<char>, int), JsonError>((key, q + lead.len() + quoted(key).len())),
        expect_byte(inp, q + lead.len() + quoted(key).len(), 0x3au8) == Ok::<int, JsonError>(
            q + lead.len() + quoted(key).len() + 1,
        ),
        matches_at(inp, q + lead.len() + quoted(key).len() + 1, after),
{
    lemma_matches_split(inp, q, lead, quoted(key) + (seq![':'] + after));
    let k = q + lead.len();
    lemma_matches_split(inp, k, quoted(key), seq![':'] + after);
    let q1 = k + quoted(key).len();
    lemma_matches_split(inp, q1, seq![':'], after);
    assert(quoted(key) =~= seq!['"'] + (escape_str(key) + seq!['"']));
    lemma_matches_split(inp, k, seq!['"'], escape_str(key) + seq!['"']);
    assert(inp[k + 0] as u32 == ('"' as u32));
    lemma_ws_skip(inp, q, lead);
    assert(skip_ws(inp, k) == k);
    lemma_string_read(inp, k + 1, key, Seq::empty());
    assert(Seq::<char>::empty() + key =~= key);
    assert(inp[q1 + 0] as u32 == (':' as u32));
    assert(skip_ws(inp, q1) == q1);
}

#[verifier::rlimit(30)]
proof fn lemma_pfields_read(
    inp: Seq<u8>,
    q: int,
    w: Seq<char>,
    fields: Seq<(Seq<char>, Json)>,
    level: nat,
    acc: Seq<(Seq<char>, Json)>,
)
    requires
        ws_text(w),
        fields.len() > 0,
        plain_fields(fields),
        matches_at(inp, q, w + pretty_fields(fields, level) + (seq!['\n'] + indent_text(level) + seq!['}'])),
        pstop_at(inp, q + w.len() + pretty_fields(fields, level).len() + 2 + 2 * level),
    ensures
        fields_loop(inp, q, acc) == Ok::<(Json, int), JsonError>(
            (Json::Object(acc + fields), q + w.len() + pretty_fields(fields, level).len() + 2 + 2 * level),
        ),
    decreases fields, 0int,
{
    lemma_plain_fields_cons(fields);
    let key = fields[0].0;
    let x = fields[0].1;
    let ind = indent_text(level + 1);
    let px = pretty(x, level + 1);
    let tail = seq!['\n'] + indent_text(level) + seq!['}'];
    let rest = if fields.len() == 1 {
        tail
    } else {
        seq![',', '\n'] + pretty_fields(fields.drop_first(), level) + tail
    };
    if fields.len() > 1 {
        lemma_pretty_fields_cons(fields, level);
    } else {
        lemma_pretty_single(Seq::empty(), fields, level);
    }
    let lead = w + ind;
    assert(w + pretty_fields(fields, level) + tail =~= lead + (quoted(key) + (seq![':'] + (seq![' '] + px + rest))));
    lemma_indent_ws(level + 1);
    assert(ws_text(lead)) by {
        assert forall|i: int| 0 <= i < lead.len() implies (#[trigger] lead[i] == ' ' || lead[i] == '\n') by {
            if i >= w.len() {
                assert(lead[i] == ind[i - w.len()]);
            }
        }
    }
    let k = q + lead.len();
    let q1 = k + quoted(key).len();
    lemma_pfield_head(inp, q, lead, key, seq![' '] + px + rest);
    // A space, then the value.
    assert(ws_text(seq![' '])) by {
        assert forall|i: int| 0 <= i < 1 implies (#[trigger] seq![' '][i] == ' ' || seq![' '][i] == '\n') by {}
    }
    lemma_matches_split(inp, q1 + 1, seq![' '] + px, rest);
    let q3 = q1 + 1 + 1 + px.len();
    assert(inp[q3 + 0] as u32 == rest[0] as u32);
    lemma_pvalue_read(inp, q1 + 1, seq![' '], x, level + 1);
    if fields.len() == 1 {
        lemma_indent_ws(level);
        let close = seq!['\n'] + indent_text(level);
        assert(tail =~= close + seq!['}']);
        lemma_matches_split(inp, q3, close, seq!['}']);
        assert(inp[q3 + close.len() + 0] as u32 == ('}' as u32));
        lemma_ws_skip(inp, q3, close);
        assert(acc.push((key, x)) =~= acc + fields);
    } else {
        let more = fields.drop_first();
        assert(rest =~= seq![','] + (seq!['\n'] + pretty_fields(more, level) + tail));
        lemma_matches_split(inp, q3, seq![','], seq!['\n'] + pretty_fields(more, level) + tail);
        assert(skip_ws(inp, q3) == q3);
        assert(ws_text(seq!['\n'])) by {
            assert forall|i: int| 0 <= i < 1 implies (#[trigger] seq!['\n'][i] == ' ' || seq!['\n'][i] == '\n') by {}
        }
        lemma_pfields_read(inp, q3 + 1, seq!['\n'], more, level, acc.push((key, x)));
        assert(acc.push((key, x)) + more =~= acc + fields);
    }
}

proof fn lemma_ascii_concat3(a: Seq<char>, b: Seq<char>, c: Seq<char>)
    requires
        ascii_text(a),
        ascii_text(b),
        ascii_text(c),
    ensures
        ascii_text(a + b + c),
{
    lemma_ascii_concat(a, b);
    lemma_ascii_concat(a + b, c);
}

proof fn lemma_indent_ascii(n: nat)
    ensures
        ascii_text(indent_text(n)),
{
    lemma_ascii_lit(indent_text(n));
}

proof fn lemma_pretty_ascii(v: Json, level: nat)
    requires
        plain(v),
    ensures
        ascii_text(pretty(v, level)),
    decreases v, 1int,
{
    match v {
        Json::Null => {
            lemma_ascii_lit(null_text());
        },
        Json::Bool(b) => {
            lemma_ascii_lit(bool_text(b));
        },
        Json::Number(n) => {},
        Json::Str(st) => {
            lemma_quoted_ascii(st);
        },
        Json::Array(items) => {
            lemma_ascii_lit(seq!['[', ']']);
            if items.len() > 0 {
                lemma_pitems_ascii(items, level);
                lemma_indent_ascii(level);
                lemma_ascii_lit(seq!['[', '\n']);
                lemma_ascii_lit(seq!['\n']);
                lemma_ascii_lit(seq![']']);
                lemma_ascii_concat3(seq!['[', '\n'], pretty_items(items, level), seq!['\n']);
                lemma_ascii_concat3(seq!['[', '\n'] + pretty_items(items, level) + seq!['\n'], indent_text(level), seq![']']);
            }
        },
        Json::Object(fields) => {
            lemma_ascii_lit(seq!['{', '}']);
            if fields.len() > 0 {
                lemma_pfields_ascii(fields, level);
                lemma_indent_ascii(level);
                lemma_ascii_lit(seq!['{', '\n']);
                lemma_ascii_lit(seq!['\n']);
                lemma_ascii_lit(seq!['}']);
                lemma_ascii_concat3(seq!['{', '\n'], pretty_fields(fields, level), seq!['\n']);
                lemma_ascii_concat3(seq!['{', '\n'] + pretty_fields(fields, level) + seq!['\n'], indent_text(level), seq!['}']);
            }
        },
    }
}

proof fn lemma_pitems_ascii(items: Seq<Json>, level: nat)
    requires
        plain_items(items),
    ensures
        ascii_text(pretty_items(items, level)),
    decreases items, 1int,
{
    if items.len() > 0 {
        let x = items.last();
        lemma_pretty_ascii(x, level + 1);
        lemma_indent_ascii(level + 1);
        lemma_ascii_concat(indent_text(level + 1), pretty(x, level + 1));
        if items.len() == 1 {
            assert(items.last() == items[0]);
        } else {
            lemma_pitems_ascii(items.drop_last(), level);
            lemma_ascii_lit(seq![',', '\n']);
            lemma_ascii_concat3(pretty_items(items.drop_last(), level), seq![',', '\n'], indent_text(level + 1));
            lemma_ascii_concat(pretty_items(items.drop_last(), level) + seq![',', '\n'] + indent_text(level + 1), pretty(x, level + 1));
        }
    }
}

proof fn lemma_pfields_ascii(fields: Seq<(Seq<char>, Json)>, level: nat)
    requires
        plain_fields(fields),
    ensures
        ascii_text(pretty_fields(fields, level)),
    decreases fields, 1int,
{
    if fields.len() > 0 {
        let f = fields.last();
        lemma_pretty_ascii(f.1, level + 1);
        lemma_indent_ascii(level + 1);
        lemma_quoted_ascii(f.0);
        lemma_ascii_lit(seq![':', ' ']);
        lemma_ascii_concat3(indent_text(level + 1), quoted(f.0), seq![':', ' ']);
        lemma_ascii_concat(indent_text(level + 1) + quoted(f.0) + seq![':', ' '], pretty(f.1, level + 1));
        if fields.len() == 1 {
            assert(fields.last() == fields[0]);
        } else {
            lemma_pfields_ascii(fields.drop_last(), level);
            lemma_ascii_lit(seq![',', '\n']);
            let a = pretty_fields(fields.drop_last(), level) + seq![',', '\n'];
            lemma_ascii_concat(pretty_fields(fields.drop_last(), level), seq![',', '\n']);
            lemma_ascii_concat3(a, indent_text(level + 1), quoted(f.0));
            lemma_ascii_concat3(a + indent_text(level + 1) + quoted(f.0), seq![':', ' '], pretty(f.1, level + 1));
        }
    }
}

/// Reading what `write_json_pretty` wrote gives the value back, for
/// values whose strings and keys are ASCII and whose numbers are number
/// texts.
pub proof fn lemma_pretty_roundtrip(v: Json)
    requires
        plain(v),
    ensures
        parse_json_spec(encode_utf8(pretty(v, 0))) == Ok::<Json, JsonError>(v),
{
    let t = pretty(v, 0);
    lemma_pretty_ascii(v, 0);
    assert(vstd::utf8::is_ascii_chars(t));
    vstd::utf8::is_ascii_chars_encode_utf8(t);
    let inp = encode_utf8(t);
    assert forall|i: int| 0 <= i < t.len() implies (#[trigger] inp[0 + i]) as u32 == t[i] as u32 by {
        assert(t[i] as u8 == inp[i]);
        assert(is_ascii_char(t[i]));
    }
    assert(Seq::<char>::empty() + t =~= t);
    assert(ws_text(Seq::<char>::empty()));
    lemma_pvalue_read(inp, 0, Seq::empty(), v, 0);
    assert(skip_ws(inp, t.len() as int) == t.len());
}

} // verus!
